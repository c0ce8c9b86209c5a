//! Codes, their leading parts, and the decimal digits they are made of.

use vstd::prelude::*;
use vstd::string::StrSliceExecFns;
use vstd::string::StringExecFns;

verus! {

/// The number of characters in a full code.
pub const CODE_LENGTH: usize = 5;

/// Whether `c` is one of the decimal digits `'0'` to `'9'`.
pub open spec fn is_digit(c: char) -> bool {
    '0' <= c && c <= '9'
}

/// The character that writes the digit `d`, for `d` from 0 to 9.
pub open spec fn digit_char(d: int) -> char {
    if d == 0 {
        '0'
    } else if d == 1 {
        '1'
    } else if d == 2 {
        '2'
    } else if d == 3 {
        '3'
    } else if d == 4 {
        '4'
    } else if d == 5 {
        '5'
    } else if d == 6 {
        '6'
    } else if d == 7 {
        '7'
    } else if d == 8 {
        '8'
    } else {
        '9'
    }
}

/// The digit that the character `c` writes, where it writes one.
pub open spec fn digit_value(c: char) -> int {
    c as int - '0' as int
}

/// Whether every character of `s` is a decimal digit.
pub open spec fn is_digits(s: Seq<char>) -> bool {
    forall|i: int| 0 <= i < s.len() ==> is_digit(#[trigger] s[i])
}

/// Whether `s` is a full code: `CODE_LENGTH` decimal digits.
pub open spec fn is_code(s: Seq<char>) -> bool {
    s.len() == CODE_LENGTH && is_digits(s)
}

/// Whether `s` can be the leading part of a code: at most `CODE_LENGTH`
/// decimal digits.
pub open spec fn is_code_prefix(s: Seq<char>) -> bool {
    s.len() <= CODE_LENGTH && is_digits(s)
}

/// The child of the leading part `parent` with the digit `d`: the leading
/// part that is one digit longer.
pub open spec fn child(parent: Seq<char>, d: int) -> Seq<char> {
    parent.push(digit_char(d))
}

/// The digits and the characters that write them correspond one to one.
pub proof fn lemma_digit_round_trip()
    ensures
        forall|d: int|
            0 <= d < 10 ==> is_digit(#[trigger] digit_char(d)) && digit_value(digit_char(d)) == d,
        forall|c: char|
            is_digit(c) ==> 0 <= #[trigger] digit_value(c) < 10 && digit_char(digit_value(c)) == c,
        !is_digit('_'),
{
}

/// The one-character string that writes the digit `d`.
pub(crate) fn digit_str(d: u8) -> (r: &'static str)
    requires
        d < 10,
    ensures
        r@ == seq![digit_char(d as int)],
{
    proof {
        reveal_strlit("0");
        reveal_strlit("1");
        reveal_strlit("2");
        reveal_strlit("3");
        reveal_strlit("4");
        reveal_strlit("5");
        reveal_strlit("6");
        reveal_strlit("7");
        reveal_strlit("8");
        reveal_strlit("9");
    }
    let r = match d {
        0 => "0",
        1 => "1",
        2 => "2",
        3 => "3",
        4 => "4",
        5 => "5",
        6 => "6",
        7 => "7",
        8 => "8",
        _ => "9",
    };
    assert(r@ =~= seq![digit_char(d as int)]);
    r
}

/// The leading part `prefix` made one digit longer.
pub(crate) fn child_prefix(prefix: &str, d: u8) -> (r: String)
    requires
        d < 10,
    ensures
        r@ == child(prefix@, d as int),
{
    let r = String::from_str(prefix).concat(digit_str(d));
    assert(r@ =~= child(prefix@, d as int));
    r
}

/// Whether `s` is a full code.
pub fn is_code_str(s: &str) -> (r: bool)
    ensures
        r == is_code(s@),
{
    if s.unicode_len() != CODE_LENGTH {
        return false;
    }
    let mut i: usize = 0;
    while i < CODE_LENGTH
        invariant
            s@.len() == CODE_LENGTH,
            i <= CODE_LENGTH,
            forall|j: int| 0 <= j < i ==> is_digit(#[trigger] s@[j]),
        decreases CODE_LENGTH - i,
    {
        let c = s.get_char(i);
        if !('0' <= c && c <= '9') {
            return false;
        }
        i += 1;
    }
    true
}

} // verus!
