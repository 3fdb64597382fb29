//! Finding a process by its name.
use crate::text;
use crate::text::{chars_of, to_lowercase};
use vstd::prelude::*;

verus! {

/// A running process: its id, and its name where that is text.
pub struct Process {
    pub pid: u32,
    pub name: Option<String>,
}

/// A name, in lower case, is the one looked for, or a path that ends in it.
pub open spec fn named(process_lower: Seq<char>, name_lower: Seq<char>) -> bool {
    process_lower == name_lower || text::ends_with(process_lower, seq!['/'] + name_lower)
}

/// A process goes by `name`, whatever the case.
pub open spec fn goes_by(p: Process, name: Seq<char>) -> bool {
    p.name matches Some(n) && named(text::lowercase(n@), text::lowercase(name))
}

/// Which processes go by a name does not depend on the case it is written in.
pub proof fn names_ignore_case(p: Process, name: Seq<char>, other: Seq<char>)
    requires
        text::lowercase(name) == text::lowercase(other),
    ensures
        goes_by(p, name) == goes_by(p, other),
{
}

/// Whether a name, in lower case, is the one looked for, or a path that ends in it.
pub fn is_named(process_lower: &str, name_lower: &str) -> (yes: bool)
    ensures
        yes == named(process_lower@, name_lower@),
{
    let p = chars_of(process_lower);
    let n = chars_of(name_lower);
    let ghost wanted = seq!['/'] + n@;
    if n.len() > p.len() {
        return false;
    }
    let len = p.len();
    let start = len - n.len();
    let mut i: usize = 0;
    while i < n.len()
        invariant
            i <= n@.len(),
            start + n@.len() == len == p@.len(),
            wanted == seq!['/'] + n@,
            p@ == process_lower@,
            n@ == name_lower@,
            forall|j: int| 0 <= j < i ==> p@[start + j] == #[trigger] n@[j],
        decreases n.len() - i,
    {
        if p[start + i] != n[i] {
            proof {
                if p@ == n@ {
                    assert(p@[start + i] == n@[i as int]);
                }
                if text::ends_with(p@, wanted) {
                    let tail = p@.subrange(p@.len() - wanted.len(), p@.len() as int);
                    assert(tail[i + 1] == wanted[i + 1]);
                }
            }
            return false;
        }
        i = i + 1;
    }
    if start == 0 {
        assert(p@ =~= n@);
        return true;
    }
    proof {
        assert(p@.len() != n@.len());
        let tail = p@.subrange(p@.len() - wanted.len(), p@.len() as int);
        if p@[start - 1] == '/' {
            assert(tail =~= wanted);
        } else {
            assert(tail[0] != wanted[0]);
        }
    }
    p[start - 1] == '/'
}

/// The first process of a list that goes by `name`, whatever the case.
pub fn find_process(processes: &Vec<Process>, name: &str) -> (found: Option<usize>)
    ensures
        match found {
            Some(i) => {
                &&& i < processes@.len()
                &&& goes_by(processes@[i as int], name@)
                &&& forall|j: int| 0 <= j < i ==> !goes_by(#[trigger] processes@[j], name@)
            },
            None => forall|j: int|
                0 <= j < processes@.len() ==> !goes_by(#[trigger] processes@[j], name@),
        },
{
    let name_lower = to_lowercase(name);
    let mut i: usize = 0;
    while i < processes.len()
        invariant
            i <= processes@.len(),
            name_lower@ == text::lowercase(name@),
            forall|j: int| 0 <= j < i ==> !goes_by(#[trigger] processes@[j], name@),
        decreases processes.len() - i,
    {
        match &processes[i].name {
            Some(n) => {
                let lower = to_lowercase(n.as_str());
                if is_named(lower.as_str(), name_lower.as_str()) {
                    return Some(i);
                }
            },
            None => {},
        }
        i = i + 1;
    }
    None
}

} // verus!
