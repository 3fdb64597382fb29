//! What an offset-file line says of its path.
use crate::path;
use crate::path::Route;
use crate::text;
use vstd::prelude::*;

verus! {

/// The value of a hexadecimal digit.
pub open spec fn digit_value(c: char) -> int {
    if '0' <= c && c <= '9' {
        c as int - '0' as int
    } else {
        c as int - 'A' as int + 10
    }
}

/// The number that hexadecimal digits stand for.
pub open spec fn number(digits: Seq<char>) -> int
    decreases digits.len(),
{
    if digits.len() == 0 {
        0
    } else {
        16 * number(digits.drop_last()) + digit_value(digits.last())
    }
}

/// A text has no space in it.
spec fn spaceless(t: Seq<char>) -> bool {
    forall|i: int| 0 <= i < t.len() ==> #[trigger] t[i] != ' '
}

proof fn lemma_hex(n: nat)
    ensures
        number(text::hex(n)) == n,
        spaceless(text::hex(n)),
        text::hex(n).len() > 0,
    decreases n,
{
    let t = text::digits(n, 16);
    if n < 16 {
        assert(t.drop_last() =~= Seq::empty());
        assert(number(t.drop_last()) == 0);
    } else {
        lemma_hex(n / 16);
        let init = text::digits(n / 16, 16);
        assert(t == init.push(text::digit((n % 16) as int)));
        assert(t.drop_last() =~= init);
    }
}

proof fn lemma_zeros(k: int, t: Seq<char>)
    ensures
        number(path::zeros(k) + t) == number(t),
        spaceless(t) ==> spaceless(path::zeros(k) + t),
    decreases t.len(), k,
{
    let z = path::zeros(k);
    let u = z + t;
    if t.len() > 0 {
        lemma_zeros(k, t.drop_last());
        assert(u.drop_last() =~= z + t.drop_last());
    } else if k > 0 {
        lemma_zeros(k - 1, t);
        assert(u.drop_last() =~= path::zeros(k - 1) + t);
    } else {
        assert(u =~= t);
    }
}

/// The first number of a line is the offset of the path's first location.
proof fn lemma_rva(rva: nat)
    ensures
        number(path::rva_text(rva)) == rva,
        spaceless(path::rva_text(rva)),
{
    lemma_hex(rva);
    lemma_zeros(8 - text::hex(rva).len(), text::hex(rva));
}

/// Texts that are equal, each ending in a space and a part without one, have equal such parts.
proof fn lemma_split(a: Seq<char>, x: Seq<char>, b: Seq<char>, y: Seq<char>)
    requires
        a + seq![' '] + x == b + seq![' '] + y,
        spaceless(x),
        spaceless(y),
    ensures
        a == b,
        x == y,
{
    let s = a + seq![' '] + x;
    let t = b + seq![' '] + y;
    assert(s.len() == t.len());
    if a.len() < b.len() {
        assert(s[b.len() as int] == x[b.len() - a.len() - 1]);
        assert(t[b.len() as int] == ' ');
    }
    if b.len() < a.len() {
        assert(t[a.len() as int] == y[a.len() - b.len() - 1]);
        assert(s[a.len() as int] == ' ');
    }
    assert(s.take(a.len() as int) =~= a);
    assert(t.take(b.len() as int) =~= b);
    assert(s.skip(a.len() as int + 1) =~= x);
    assert(t.skip(b.len() as int + 1) =~= y);
}

/// The offset-file line of a path says which path it is: different paths have different lines.
pub proof fn lines_are_unambiguous(a: Route, b: Route)
    requires
        path::line_of(a) == path::line_of(b),
    ensures
        a == b,
    decreases a.1.len(),
{
    let s = path::line_of(a);
    lemma_rva(a.0 as nat);
    lemma_rva(b.0 as nat);
    if a.1.len() == 0 && b.1.len() == 0 {
        assert(a.1 =~= b.1);
    } else if a.1.len() == 0 {
        let init = path::line_of((b.0, b.1.drop_last()));
        assert(s[init.len() as int] == ' ');
    } else if b.1.len() == 0 {
        let init = path::line_of((a.0, a.1.drop_last()));
        assert(s[init.len() as int] == ' ');
    } else {
        let ra = (a.0, a.1.drop_last());
        let rb = (b.0, b.1.drop_last());
        lemma_hex(a.1.last() as nat);
        lemma_hex(b.1.last() as nat);
        lemma_split(
            path::line_of(ra),
            text::hex(a.1.last() as nat),
            path::line_of(rb),
            text::hex(b.1.last() as nat),
        );
        lines_are_unambiguous(ra, rb);
        assert(a.1 =~= a.1.drop_last().push(a.1.last()));
        assert(b.1 =~= b.1.drop_last().push(b.1.last()));
    }
}

/// A digit of a hexadecimal number.
pub open spec fn is_hex_digit(c: char) -> bool {
    ('0' <= c && c <= '9') || ('A' <= c && c <= 'F')
}

/// A hexadecimal number: one digit or more.
pub open spec fn is_hex(t: Seq<char>) -> bool {
    t.len() > 0 && forall|i: int| 0 <= i < t.len() ==> is_hex_digit(#[trigger] t[i])
}

/// The parts of a text between its spaces.
pub open spec fn fields(t: Seq<char>) -> Seq<Seq<char>>
    decreases t.len(),
{
    if t.len() == 0 {
        seq![Seq::empty()]
    } else {
        let before = fields(t.drop_last());
        if t.last() == ' ' {
            before.push(Seq::empty())
        } else {
            before.drop_last().push(before.last().push(t.last()))
        }
    }
}

proof fn lemma_hex_digits(n: nat)
    ensures
        is_hex(text::hex(n)),
    decreases n,
{
    let t = text::digits(n, 16);
    if n >= 16 {
        lemma_hex_digits(n / 16);
        let init = text::digits(n / 16, 16);
        assert(t == init.push(text::digit((n % 16) as int)));
    }
}

proof fn lemma_rva_digits(rva: nat)
    ensures
        is_hex(path::rva_text(rva)),
{
    lemma_hex_digits(rva);
    let z = path::zeros(8 - text::hex(rva).len());
    let t = path::rva_text(rva);
    assert forall|i: int| 0 <= i < t.len() implies is_hex_digit(#[trigger] t[i]) by {
        if i >= z.len() {
            assert(t[i] == text::hex(rva)[i - z.len()]);
        }
    }
}

/// A part without a space is one field.
proof fn lemma_one_field(x: Seq<char>)
    requires
        spaceless(x),
    ensures
        fields(x) == seq![x],
    decreases x.len(),
{
    if x.len() == 0 {
        assert(x =~= Seq::empty());
    } else {
        let init = x.drop_last();
        assert(forall|i: int| 0 <= i < init.len() ==> init[i] == x[i]);
        lemma_one_field(init);
        assert(x[x.len() - 1] != ' ');
        assert(init.push(x.last()) =~= x);
        assert(fields(x) =~= seq![x]);
    }
}

/// A space and a part without one add a field.
proof fn lemma_next_field(a: Seq<char>, x: Seq<char>)
    requires
        spaceless(x),
    ensures
        fields(a + seq![' '] + x) == fields(a).push(x),
    decreases x.len(),
{
    let t = a + seq![' '] + x;
    if x.len() == 0 {
        assert(x =~= Seq::empty());
        assert(t.drop_last() =~= a);
    } else {
        let init = x.drop_last();
        assert(forall|i: int| 0 <= i < init.len() ==> init[i] == x[i]);
        lemma_next_field(a, init);
        assert(t.drop_last() =~= a + seq![' '] + init);
        assert(x[x.len() - 1] != ' ');
        assert(init.push(x.last()) =~= x);
        assert(fields(a).push(init).drop_last() =~= fields(a));
    }
}

/// An offset-file line reads back: its fields are hexadecimal numbers, the first that of the path's
/// first location, the others the offsets in their order.
pub proof fn lines_read_back(r: Route)
    ensures
        fields(path::line_of(r)).len() == 1 + r.1.len(),
        forall|i: int|
            0 <= i < fields(path::line_of(r)).len() ==> is_hex(#[trigger] fields(path::line_of(r))[i]),
        number(fields(path::line_of(r))[0]) == r.0,
        forall|i: int|
            #![trigger r.1[i]]
            0 <= i < r.1.len() ==> number(fields(path::line_of(r))[i + 1]) == r.1[i],
    decreases r.1.len(),
{
    let parts = fields(path::line_of(r));
    lemma_rva(r.0 as nat);
    lemma_rva_digits(r.0 as nat);
    if r.1.len() == 0 {
        lemma_one_field(path::rva_text(r.0 as nat));
    } else {
        let init = (r.0, r.1.drop_last());
        let last = text::hex(r.1.last() as nat);
        lines_read_back(init);
        lemma_hex(r.1.last() as nat);
        lemma_hex_digits(r.1.last() as nat);
        lemma_next_field(path::line_of(init), last);
        let before = fields(path::line_of(init));
        assert(parts == before.push(last));
        assert forall|i: int|
            #![trigger r.1[i]]
            0 <= i < r.1.len() implies number(parts[i + 1]) == r.1[i] by {
            if i < r.1.len() - 1 {
                assert(init.1[i] == r.1[i]);
                assert(parts[i + 1] == before[i + 1]);
            }
        }
    }
}

proof fn lemma_no_zero_in_front(n: nat)
    ensures
        n > 0 ==> text::hex(n)[0] != '0',
        n == 0 ==> text::hex(n) == seq!['0'],
    decreases n,
{
    if n >= 16 {
        lemma_no_zero_in_front(n / 16);
        lemma_hex(n / 16);
        let init = text::digits(n / 16, 16);
        assert(text::digits(n, 16) == init.push(text::digit((n % 16) as int)));
        assert(text::digits(n, 16)[0] == init[0]);
    }
}

/// The first number of a line has eight digits, or more where it needs them, and no others have a
/// zero in front of further digits.
pub proof fn lines_pad_the_first_number(r: Route)
    ensures
        fields(path::line_of(r)).len() > 0,
        fields(path::line_of(r))[0].len() >= 8,
        fields(path::line_of(r))[0].len() > 8 ==> fields(path::line_of(r))[0][0] != '0',
        forall|i: int|
            0 < i < fields(path::line_of(r)).len() && (#[trigger] fields(path::line_of(r))[i]).len()
                > 1 ==> fields(path::line_of(r))[i][0] != '0',
    decreases r.1.len(),
{
    lemma_rva(r.0 as nat);
    if r.1.len() == 0 {
        let t = path::rva_text(r.0 as nat);
        let z = path::zeros(8 - text::hex(r.0 as nat).len());
        lemma_one_field(t);
        lemma_no_zero_in_front(r.0 as nat);
        lemma_hex(r.0 as nat);
        if t.len() > 8 {
            assert(z.len() == 0);
            assert(t[0] == text::hex(r.0 as nat)[0]);
        }
    } else {
        let init = (r.0, r.1.drop_last());
        let last = text::hex(r.1.last() as nat);
        lines_pad_the_first_number(init);
        lemma_hex(r.1.last() as nat);
        lemma_no_zero_in_front(r.1.last() as nat);
        lemma_next_field(path::line_of(init), last);
        let before = fields(path::line_of(init));
        let parts = fields(path::line_of(r));
        assert(parts == before.push(last));
        assert(parts[0] == before[0]);
        assert forall|i: int| 0 < i < parts.len() && (#[trigger] parts[i]).len()
            > 1 implies parts[i][0] != '0' by {
            if i < before.len() {
                assert(parts[i] == before[i]);
            }
        }
    }
}

} // verus!
