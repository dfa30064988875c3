//! Character classes used by the scanner, and the few pieces of `char` and
//! `String` behaviour taken on trust from the standard library.

use vstd::prelude::*;

verus! {

/// Whether a character beyond ASCII has the Unicode `White_Space` property.
pub uninterp spec fn unicode_whitespace(c: char) -> bool;

/// Whether a character beyond ASCII is alphabetic or numeric in Unicode.
pub uninterp spec fn unicode_alphanumeric(c: char) -> bool;

/// The Unicode `White_Space` property. Its ASCII members are exactly tab,
/// line feed, vertical tab, form feed, carriage return and space.
pub open spec fn is_whitespace_char(c: char) -> bool {
    if (c as u32) < 128 {
        (c as u32) == 9 || (c as u32) == 10 || (c as u32) == 11 || (c as u32) == 12 || (c
            as u32) == 13 || c == ' '
    } else {
        unicode_whitespace(c)
    }
}

/// Unicode alphanumeric characters. The ASCII members are exactly the
/// letters `a`-`z` and `A`-`Z` and the digits `0`-`9`.
pub open spec fn is_alphanumeric_char(c: char) -> bool {
    if (c as u32) < 128 {
        is_ascii_alnum(c)
    } else {
        unicode_alphanumeric(c)
    }
}

/// ASCII letters and digits.
pub open spec fn is_ascii_alnum(c: char) -> bool {
    (97 <= (c as u32) && (c as u32) <= 122) || (65 <= (c as u32) && (c as u32) <= 90) || (48 <= (c
        as u32) && (c as u32) <= 57)
}

/// A character allowed in a tag or attribute name: alphanumeric or `-`.
pub open spec fn is_name_char(c: char) -> bool {
    is_alphanumeric_char(c) || c == '-'
}

/// Relies on `char::is_whitespace`: true exactly for characters with the
/// Unicode `White_Space` property; its ASCII members are tab, line feed,
/// vertical tab, form feed, carriage return and space.
pub assume_specification[ char::is_whitespace ](c: char) -> (r: bool)
    ensures
        r == is_whitespace_char(c),
        (c as u32) >= 128 ==> r == unicode_whitespace(c),
;

/// Relies on `char::is_alphanumeric`: true exactly for Unicode alphabetic
/// and numeric characters; its ASCII members are the letters and digits.
pub assume_specification[ char::is_alphanumeric ](c: char) -> (r: bool)
    ensures
        r == is_alphanumeric_char(c),
        (c as u32) >= 128 ==> r == unicode_alphanumeric(c),
;

/// Relies on `String::push`: appends one character at the end of the string.
pub assume_specification[ String::push ](s: &mut String, c: char)
    ensures
        final(s)@ == old(s)@.push(c),
;

/// Whether an ASCII letter or digit, tested in executable code.
pub fn ascii_alnum(c: char) -> (r: bool)
    ensures
        r == is_ascii_alnum(c),
{
    let u = c as u32;
    (97 <= u && u <= 122) || (65 <= u && u <= 90) || (48 <= u && u <= 57)
}

} // verus!
