//! The text of a decimal number: what the lexer accepts as a number literal.
//!
//! Numbers are kept as their text. A text that `is_number_text` accepts is one
//! that the standard library's parser of 64-bit floats accepts too, so a
//! caller can decode it without a failure path.

use vstd::prelude::*;

verus! {

/// The decimal digits.
pub open spec fn is_digit(c: char) -> bool {
    '0' <= c && c <= '9'
}

/// The characters that a number literal is collected from.
pub open spec fn is_number_char(c: char) -> bool {
    is_digit(c) || c == '.' || c == 'e' || c == 'E' || c == '-'
}

/// How many digits stand in `s` from position `from` on, without a gap.
pub open spec fn digits_from(s: Seq<char>, from: int) -> nat
    decreases s.len() - from,
{
    if 0 <= from < s.len() && is_digit(s[from]) {
        1 + digits_from(s, from + 1)
    } else {
        0
    }
}

/// Whether `s` reads `[eE] -? D+` from position `from` to its end, where `D`
/// is a decimal digit.
pub open spec fn is_exponent_at(s: Seq<char>, from: int) -> bool {
    &&& 0 <= from < s.len()
    &&& (s[from] == 'e' || s[from] == 'E')
    &&& {
        let digits = if from + 1 < s.len() && s[from + 1] == '-' {
            from + 2
        } else {
            from + 1
        };
        digits < s.len() && digits + digits_from(s, digits) == s.len()
    }
}

/// Whether `s` reads `-? ( D+ | D+ . D* | D* . D+ ) ( [eE] -? D+ )?`, where
/// `D` is a decimal digit.
pub open spec fn is_number_text(s: Seq<char>) -> bool {
    let whole: int = if s.len() > 0 && s[0] == '-' {
        1
    } else {
        0
    };
    let point = whole + digits_from(s, whole);
    let fraction = if point < s.len() && s[point] == '.' {
        point + 1
    } else {
        point
    };
    let tail = fraction + digits_from(s, fraction);
    &&& (point - whole) + (tail - fraction) > 0
    &&& (tail == s.len() || is_exponent_at(s, tail))
}

/// The digits that `digits_from` counts are digits, they lie inside `s`, and
/// what follows them is none.
pub proof fn lemma_digits_from(s: Seq<char>, from: int)
    requires
        0 <= from <= s.len(),
    ensures
        from + digits_from(s, from) <= s.len(),
        forall|i: int| from <= i < from + digits_from(s, from) ==> is_digit(#[trigger] s[i]),
        from + digits_from(s, from) < s.len() ==> !is_digit(s[from + digits_from(s, from)]),
    decreases s.len() - from,
{
    if from < s.len() && is_digit(s[from]) {
        lemma_digits_from(s, from + 1);
    }
}

/// Whether `c` is a decimal digit.
pub fn is_digit_char(c: char) -> (r: bool)
    ensures
        r == is_digit(c),
{
    '0' <= c && c <= '9'
}

/// Whether `c` is one of the characters that a number literal is collected
/// from.
pub fn is_number_character(c: char) -> (r: bool)
    ensures
        r == is_number_char(c),
{
    is_digit_char(c) || c == '.' || c == 'e' || c == 'E' || c == '-'
}

/// The position after the digits that stand in `text` from `from` on.
fn skip_digits(text: &Vec<char>, from: usize) -> (to: usize)
    requires
        from <= text.len(),
    ensures
        to == from + digits_from(text@, from as int),
        to <= text.len(),
{
    let mut i: usize = from;
    while i < text.len() && is_digit_char(text[i])
        invariant
            from <= i <= text.len(),
            from + digits_from(text@, from as int) == i + digits_from(text@, i as int),
        decreases text.len() - i,
    {
        i += 1;
    }
    i
}

/// Whether `text` is the text of a number.
pub fn check_number_text(text: &Vec<char>) -> (r: bool)
    ensures
        r == is_number_text(text@),
{
    let n: usize = text.len();
    let whole: usize = if n > 0 && text[0] == '-' {
        1
    } else {
        0
    };
    let point: usize = skip_digits(text, whole);
    let fraction: usize = if point < n && text[point] == '.' {
        point + 1
    } else {
        point
    };
    let tail: usize = skip_digits(text, fraction);
    if point - whole == 0 && tail - fraction == 0 {
        return false;
    }
    if tail == n {
        return true;
    }
    if text[tail] != 'e' && text[tail] != 'E' {
        return false;
    }
    let digits: usize = if tail + 1 < n && text[tail + 1] == '-' {
        tail + 2
    } else {
        tail + 1
    };
    digits < n && skip_digits(text, digits) == n
}

} // verus!
