//! Text: digits, lower case, and strings out of bytes.
use vstd::prelude::*;
use vstd::string::StringExecFns;

verus! {

/// The character of a digit below sixteen.
pub open spec fn digit(d: int) -> char {
    if d == 0 {
        '0'
    } else if d == 1 {
        '1'
    } else if d == 2 {
        '2'
    } else if d == 3 {
        '3'
    } else if d == 4 {
        '4'
    } else if d == 5 {
        '5'
    } else if d == 6 {
        '6'
    } else if d == 7 {
        '7'
    } else if d == 8 {
        '8'
    } else if d == 9 {
        '9'
    } else if d == 10 {
        'A'
    } else if d == 11 {
        'B'
    } else if d == 12 {
        'C'
    } else if d == 13 {
        'D'
    } else if d == 14 {
        'E'
    } else {
        'F'
    }
}

/// `n` in base `base`, without leading zeros.
pub open spec fn digits(n: nat, base: nat) -> Seq<char>
    decreases n,
{
    if base < 2 {
        Seq::empty()
    } else if n < base {
        seq![digit(n as int)]
    } else {
        proof {
            assert(n / base < n) by (nonlinear_arith)
                requires
                    2 <= base <= n,
            ;
        }
        digits(n / base, base).push(digit((n % base) as int))
    }
}

/// `n` in upper-case hexadecimal.
pub open spec fn hex(n: nat) -> Seq<char> {
    digits(n, 16)
}

/// `n` in decimal, with a sign where it is negative.
pub open spec fn decimal(n: int) -> Seq<char> {
    if n < 0 {
        seq!['-'] + digits((-n) as nat, 10)
    } else {
        digits(n as nat, 10)
    }
}

fn digit_text(d: usize) -> (text: &'static str)
    requires
        d < 16,
    ensures
        text@ == seq![digit(d as int)],
{
    proof {
        reveal_strlit("0");
        reveal_strlit("1");
        reveal_strlit("2");
        reveal_strlit("3");
        reveal_strlit("4");
        reveal_strlit("5");
        reveal_strlit("6");
        reveal_strlit("7");
        reveal_strlit("8");
        reveal_strlit("9");
        reveal_strlit("A");
        reveal_strlit("B");
        reveal_strlit("C");
        reveal_strlit("D");
        reveal_strlit("E");
        reveal_strlit("F");
    }
    let text = match d {
        0 => "0",
        1 => "1",
        2 => "2",
        3 => "3",
        4 => "4",
        5 => "5",
        6 => "6",
        7 => "7",
        8 => "8",
        9 => "9",
        10 => "A",
        11 => "B",
        12 => "C",
        13 => "D",
        14 => "E",
        _ => "F",
    };
    assert(text@ =~= seq![digit(d as int)]);
    text
}

/// Appends `n` in base `base`; says how many digits that took.
pub fn push_digits(out: &mut String, n: usize, base: usize) -> (count: usize)
    requires
        2 <= base <= 16,
    ensures
        final(out)@ == old(out)@ + digits(n as nat, base as nat),
        count == digits(n as nat, base as nat).len(),
        count <= n + 1,
    decreases n,
{
    let count: usize = if n >= base {
        assert(n / base <= n / 2) by (nonlinear_arith)
            requires
                2 <= base <= n,
        ;
        push_digits(out, n / base, base)
    } else {
        0
    };
    let ghost before = out@;
    let d = n % base;
    out.append(digit_text(d));
    proof {
        assert(out@ == before.push(digit(d as int)));
        if n >= base {
            assert((n as nat) / (base as nat) == (n / base) as nat);
            assert((n as nat) % (base as nat) == d as nat);
            assert(digits(n as nat, base as nat) == digits((n / base) as nat, base as nat).push(
                digit(d as int),
            ));
        } else {
            assert(d == n) by (nonlinear_arith)
                requires
                    n < base,
                    d == n % base,
            ;
        }
        assert(out@ =~= old(out)@ + digits(n as nat, base as nat));
    }
    count + 1
}

/// Appends `n` in hexadecimal.
pub fn push_hex(out: &mut String, n: usize)
    ensures
        final(out)@ == old(out)@ + hex(n as nat),
{
    let _ = push_digits(out, n, 16);
}

/// Appends `n` in decimal.
pub fn push_decimal(out: &mut String, n: i32)
    ensures
        final(out)@ == old(out)@ + decimal(n as int),
{
    if n < 0 {
        proof {
            reveal_strlit("-");
        }
        out.append("-");
        let _ = push_digits(out, (-(n as i64)) as usize, 10);
        assert(out@ =~= old(out)@ + decimal(n as int));
    } else {
        let _ = push_digits(out, n as usize, 10);
    }
}

/// The characters of a string.
pub fn chars_of(text: &str) -> (chars: Vec<char>)
    ensures
        chars@ == text@,
{
    let mut chars: Vec<char> = Vec::new();
    for c in iter: text.chars()
        invariant
            iter.seq() == text@,
            chars@ == text@.take(iter.index() as int),
    {
        chars.push(c);
        assert(chars@ =~= text@.take(iter.index() + 1));
    }
    assert(chars@ =~= text@);
    chars
}

/// What `str::to_lowercase` makes of a text.
pub uninterp spec fn lowercase(text: Seq<char>) -> Seq<char>;

/// Calls `str::to_lowercase`. Trusted: its result depends on the text alone, and is named
/// `lowercase`; what Unicode takes each character to is left unsaid.
#[verifier::external_body]
pub(crate) fn to_lowercase(text: &str) -> (lower: String)
    ensures
        lower@ == lowercase(text@),
{
    text.to_lowercase()
}

/// Calls `String::from_utf8`. Trusted: it succeeds exactly on valid UTF-8, and then gives the text
/// that the bytes encode.
#[verifier::external_body]
pub(crate) fn string_from_utf8(bytes: Vec<u8>) -> (text: Option<String>)
    ensures
        text is Some <==> vstd::utf8::valid_utf8(bytes@),
        text matches Some(t) ==> t@ == vstd::utf8::decode_utf8(bytes@),
{
    String::from_utf8(bytes).ok()
}

/// `text` ends with `suffix`.
pub open spec fn ends_with(text: Seq<char>, suffix: Seq<char>) -> bool {
    suffix.len() <= text.len() && text.subrange(text.len() - suffix.len(), text.len() as int)
        == suffix
}

/// The bytes before the first NUL, or all of them.
pub open spec fn up_to_nul(bytes: Seq<u8>) -> Seq<u8>
    decreases bytes.len(),
{
    if bytes.len() == 0 || bytes[0] == 0 {
        Seq::empty()
    } else {
        seq![bytes[0]] + up_to_nul(bytes.subrange(1, bytes.len() as int))
    }
}

/// The text that bytes hold up to the first NUL, if it is valid UTF-8.
pub open spec fn cstring_text(bytes: Seq<u8>) -> Option<Seq<char>> {
    if vstd::utf8::valid_utf8(up_to_nul(bytes)) {
        Some(vstd::utf8::decode_utf8(up_to_nul(bytes)))
    } else {
        None
    }
}

/// A string's characters, where there is a string.
pub open spec fn as_chars(text: Option<String>) -> Option<Seq<char>> {
    match text {
        Some(t) => Some(t@),
        None => None,
    }
}

/// A C string holds no NUL, and reaches to the first NUL or to the end of the bytes.
pub proof fn cstring_ends_at_nul(bytes: Seq<u8>)
    ensures
        up_to_nul(bytes).len() <= bytes.len(),
        up_to_nul(bytes) == bytes.take(up_to_nul(bytes).len() as int),
        forall|i: int| 0 <= i < up_to_nul(bytes).len() ==> #[trigger] up_to_nul(bytes)[i] != 0,
        up_to_nul(bytes).len() < bytes.len() ==> bytes[up_to_nul(bytes).len() as int] == 0,
    decreases bytes.len(),
{
    if bytes.len() > 0 && bytes[0] != 0 {
        let rest = bytes.subrange(1, bytes.len() as int);
        cstring_ends_at_nul(rest);
        assert(up_to_nul(bytes) =~= bytes.take(up_to_nul(bytes).len() as int));
    } else {
        assert(up_to_nul(bytes) =~= bytes.take(0));
    }
}

proof fn lemma_up_to_nul(bytes: Seq<u8>, end: int)
    requires
        0 <= end <= bytes.len(),
        forall|i: int| 0 <= i < end ==> #[trigger] bytes[i] != 0,
        end < bytes.len() ==> bytes[end] == 0,
    ensures
        up_to_nul(bytes) == bytes.take(end),
    decreases bytes.len(),
{
    if end > 0 {
        let rest = bytes.subrange(1, bytes.len() as int);
        assert forall|i: int| 0 <= i < end - 1 implies #[trigger] rest[i] != 0 by {
            assert(rest[i] == bytes[i + 1]);
        }
        lemma_up_to_nul(rest, end - 1);
        assert(bytes.take(end) =~= seq![bytes[0]] + rest.take(end - 1));
    } else {
        assert(bytes.take(end) =~= Seq::empty());
    }
}

/// The NUL-terminated string that bytes hold, if it is valid UTF-8.
pub fn cstring(bytes: Vec<u8>) -> (text: Option<String>)
    ensures
        as_chars(text) == cstring_text(bytes@),
{
    let mut end: usize = 0;
    while end < bytes.len() && bytes[end] != 0
        invariant
            end <= bytes@.len(),
            forall|i: int| 0 <= i < end ==> #[trigger] bytes@[i] != 0,
        decreases bytes.len() - end,
    {
        end = end + 1;
    }
    proof {
        lemma_up_to_nul(bytes@, end as int);
    }
    let mut head = bytes;
    head.truncate(end);
    assert(head@ =~= up_to_nul(bytes@));
    string_from_utf8(head)
}

} // verus!
