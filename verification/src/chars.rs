//! Character classes and number literals, as the standard library reads them.

use vstd::prelude::*;

verus! {

/// Whether `c` has the Unicode property `White_Space`.
pub uninterp spec fn char_is_whitespace(c: char) -> bool;

/// Whether `c` has the Unicode property `Alphabetic`.
pub uninterp spec fn char_is_alphabetic(c: char) -> bool;

/// Whether `c` is in one of the Unicode general categories for numbers.
pub uninterp spec fn char_is_numeric(c: char) -> bool;

/// What `{:?}` writes for a string: the text between double quotes, with
/// what does not print, and the quote and the backslash, escaped.
pub uninterp spec fn quoted(s: Seq<char>) -> Seq<char>;

/// The number that a run of decimal digits spells, most significant digit
/// first; an empty run spells 0. Nothing where a character is no digit from
/// `0` to `9`.
pub open spec fn digits_value(s: Seq<char>) -> Option<int>
    decreases s.len(),
{
    if s.len() == 0 {
        Some(0)
    } else {
        match digits_value(s.drop_last()) {
            Some(v) => if 0x30 <= s.last() as int <= 0x39 {
                Some(10 * v + (s.last() as int - 0x30))
            } else {
                None
            },
            None => None,
        }
    }
}

/// What `s` reads as, as a 32-bit signed integer: an optional `+` or `-`,
/// then decimal digits and nothing else, at least one, that spell a number
/// from -2^31 to 2^31 - 1. Anything else reads as nothing.
pub open spec fn parsed_int(s: Seq<char>) -> Option<i32> {
    let signed = s.len() > 0 && (s[0] == '-' || s[0] == '+');
    let digits = if signed {
        s.subrange(1, s.len() as int)
    } else {
        s
    };
    match digits_value(digits) {
        Some(v) => {
            let x = if s.len() > 0 && s[0] == '-' {
                -v
            } else {
                v
            };
            if digits.len() > 0 && i32::MIN <= x <= i32::MAX {
                Some(x as i32)
            } else {
                None
            }
        },
        None => None,
    }
}

/// `char::is_whitespace` decides by the character alone; its answer is
/// named, not spelled out.
pub assume_specification[ char::is_whitespace ](c: char) -> (r: bool)
    ensures
        r == char_is_whitespace(c),
;

/// `char::is_alphabetic` decides by the character alone; its answer is
/// named, not spelled out.
pub assume_specification[ char::is_alphabetic ](c: char) -> (r: bool)
    ensures
        r == char_is_alphabetic(c),
;

/// `char::is_numeric` decides by the character alone; its answer is named,
/// not spelled out.
pub assume_specification[ char::is_numeric ](c: char) -> (r: bool)
    ensures
        r == char_is_numeric(c),
;

/// Calls `str::parse` for an `i32` and drops the reason of a failure. As
/// the standard library documents it, the text is read as an optional sign
/// followed by decimal digits only, and a number that does not fit, an
/// empty text and a sign alone are failures.
#[verifier::external_body]
pub(crate) fn parse_int(s: &str) -> (r: Option<i32>)
    ensures
        r == parsed_int(s@),
{
    s.parse::<i32>().ok()
}

/// Calls `format!` with `{:?}` on a string. The outcome depends on the text
/// alone and is named, not spelled out.
#[verifier::external_body]
pub(crate) fn quote(s: &str) -> (r: String)
    ensures
        r@ == quoted(s@),
{
    format!("{:?}", s)
}

/// A character that may continue a word: a letter, a number or `_`.
pub open spec fn is_word_char(c: char) -> bool {
    char_is_alphabetic(c) || char_is_numeric(c) || c == '_'
}

/// A character that may start a number literal: a number or `-`.
pub open spec fn is_number_start(c: char) -> bool {
    char_is_numeric(c) || c == '-'
}

} // verus!
