//! The few operations on text that the manifest logic needs, over sequences
//! of characters.

use vstd::prelude::*;
use vstd::string::{StrSliceExecFns, StringExecFns};

verus! {

/// Whether `text` begins with `prefix`.
pub open spec fn has_prefix(text: Seq<char>, prefix: Seq<char>) -> bool {
    prefix.len() <= text.len() && text.subrange(0, prefix.len() as int) == prefix
}

/// `text` with every occurrence of `pattern` replaced by `with`. Occurrences
/// are found from the left and do not overlap.
pub open spec fn replaced(text: Seq<char>, pattern: Seq<char>, with: Seq<char>) -> Seq<char>
    decreases text.len(),
{
    if pattern.len() == 0 || text.len() < pattern.len() {
        text
    } else if text.subrange(0, pattern.len() as int) == pattern {
        with + replaced(text.skip(pattern.len() as int), pattern, with)
    } else {
        seq![text[0]] + replaced(text.skip(1), pattern, with)
    }
}

/// The character of the decimal digit `d`.
pub open spec fn digit(d: int) -> char {
    if d == 0 {
        '0'
    } else if d == 1 {
        '1'
    } else if d == 2 {
        '2'
    } else if d == 3 {
        '3'
    } else if d == 4 {
        '4'
    } else if d == 5 {
        '5'
    } else if d == 6 {
        '6'
    } else if d == 7 {
        '7'
    } else if d == 8 {
        '8'
    } else {
        '9'
    }
}

/// The decimal digits of `n`, without leading zeros.
pub open spec fn digits(n: nat) -> Seq<char>
    decreases n,
{
    if n < 10 {
        seq![digit(n as int)]
    } else {
        digits(n / 10).push(digit((n % 10) as int))
    }
}

/// `t` in decimal notation, with a minus sign where it is negative.
pub open spec fn decimal(t: int) -> Seq<char> {
    if t < 0 {
        seq!['-'] + digits((-t) as nat)
    } else {
        digits(t as nat)
    }
}

/// Whether `pattern` stands in `text` at character `at`.
fn occurs_at(text: &str, at: usize, pattern: &str) -> (found: bool)
    requires
        at + pattern@.len() <= text@.len() <= usize::MAX,
    ensures
        found == (text@.subrange(at as int, at + pattern@.len()) == pattern@),
{
    let width = pattern.unicode_len();
    let mut k: usize = 0;
    while k < width
        invariant
            k <= width,
            width == pattern@.len(),
            at + width <= text@.len() <= usize::MAX,
            forall|j: int| 0 <= j < k ==> text@[at + j] == pattern@[j],
        decreases width - k,
    {
        if text.get_char(at + k) != pattern.get_char(k) {
            assert(text@.subrange(at as int, at + width)[k as int] != pattern@[k as int]);
            return false;
        }
        k += 1;
    }
    assert(text@.subrange(at as int, at + width) =~= pattern@);
    true
}

/// Whether `text` begins with `prefix`.
pub fn starts_with(text: &str, prefix: &str) -> (found: bool)
    ensures
        found == has_prefix(text@, prefix@),
{
    if prefix.unicode_len() > text.unicode_len() {
        return false;
    }
    occurs_at(text, 0, prefix)
}

/// Whether the two texts are the same.
pub fn same_text(left: &str, right: &str) -> (same: bool)
    ensures
        same == (left@ == right@),
{
    if left.unicode_len() != right.unicode_len() {
        return false;
    }
    let found = occurs_at(left, 0, right);
    assert(left@.subrange(0, right@.len() as int) =~= left@);
    found
}

/// `text` with every occurrence of `pattern` replaced by `with`.
pub fn replace(text: &str, pattern: &str, with: &str) -> (out: String)
    requires
        pattern@.len() > 0,
    ensures
        out@ == replaced(text@, pattern@, with@),
{
    let length = text.unicode_len();
    let width = pattern.unicode_len();
    let mut out = String::new();
    let mut at: usize = 0;
    assert(text@.skip(0) =~= text@);
    while at < length && length - at >= width
        invariant
            at <= length,
            length == text@.len(),
            width == pattern@.len(),
            width > 0,
            out@ + replaced(text@.skip(at as int), pattern@, with@) == replaced(
                text@,
                pattern@,
                with@,
            ),
        decreases length - at,
    {
        let ghost rest = text@.skip(at as int);
        let ghost so_far = out@;
        assert(rest.subrange(0, width as int) =~= text@.subrange(at as int, at + width));
        if occurs_at(text, at, pattern) {
            out.append(with);
            assert(rest.skip(width as int) =~= text@.skip(at + width));
            assert(out@ + replaced(text@.skip(at + width), pattern@, with@) =~= so_far + (with@
                + replaced(rest.skip(width as int), pattern@, with@)));
            at += width;
        } else {
            out.append(text.substring_char(at, at + 1));
            assert(text@.subrange(at as int, at + 1) =~= seq![text@[at as int]]);
            assert(rest.skip(1) =~= text@.skip(at + 1));
            assert(rest[0] == text@[at as int]);
            at += 1;
        }
    }
    let ghost rest = text@.skip(at as int);
    assert(replaced(rest, pattern@, with@) == rest);
    out.append(text.substring_char(at, length));
    assert(text@.subrange(at as int, length as int) =~= rest);
    out
}

/// The text of one decimal digit.
fn digit_text(d: u8) -> (text: &'static str)
    requires
        d < 10,
    ensures
        text@ == seq![digit(d as int)],
{
    proof {
        reveal_strlit("0");
        reveal_strlit("1");
        reveal_strlit("2");
        reveal_strlit("3");
        reveal_strlit("4");
        reveal_strlit("5");
        reveal_strlit("6");
        reveal_strlit("7");
        reveal_strlit("8");
        reveal_strlit("9");
    }
    let text = match d {
        0 => "0",
        1 => "1",
        2 => "2",
        3 => "3",
        4 => "4",
        5 => "5",
        6 => "6",
        7 => "7",
        8 => "8",
        _ => "9",
    };
    assert(text@ =~= seq![digit(d as int)]);
    text
}

/// Appends the decimal digits of `n` to `out`.
fn push_digits(out: &mut String, n: u128)
    ensures
        final(out)@ == old(out)@ + digits(n as nat),
    decreases n,
{
    if n >= 10 {
        push_digits(out, n / 10);
    }
    out.append(digit_text((n % 10) as u8));
    assert(out@ =~= old(out)@ + digits(n as nat));
}

/// `t` in decimal notation.
pub fn to_decimal(t: isize) -> (out: String)
    ensures
        out@ == decimal(t as int),
{
    let mut out = String::new();
    if t < 0 {
        proof {
            reveal_strlit("-");
        }
        out.append("-");
        assert(out@ =~= seq!['-']);
        push_digits(&mut out, (-(t as i128)) as u128);
    } else {
        push_digits(&mut out, t as u128);
        assert(out@ =~= digits(t as nat));
    }
    out
}

} // verus!
