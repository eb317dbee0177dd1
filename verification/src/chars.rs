use vstd::prelude::*;

verus! {

/// An ASCII decimal digit, `'0'` through `'9'`.
pub open spec fn is_ascii_digit_char(c: char) -> bool {
    48 <= c as int && c as int <= 57
}

/// The decimal value of an ASCII digit character.
pub open spec fn digit_char_value(c: char) -> int {
    c as int - 48
}

/// Executable test for [`is_ascii_digit_char`].
pub fn check_ascii_digit(c: char) -> (r: bool)
    ensures
        r == is_ascii_digit_char(c),
{
    let u = c as u32;
    48 <= u && u <= 57
}

/// What `char::is_whitespace` returns; it depends on the character alone.
pub uninterp spec fn is_unicode_whitespace(c: char) -> bool;

/// What `char::is_alphabetic` returns; it depends on the character alone.
pub uninterp spec fn is_unicode_alphabetic(c: char) -> bool;

/// What `char::is_alphanumeric` returns; it depends on the character alone.
pub uninterp spec fn is_unicode_alphanumeric(c: char) -> bool;

/// Relies on `char::is_whitespace`: whether the character has the Unicode
/// `White_Space` property.  The result is a function of the character alone.
pub assume_specification[ char::is_whitespace ](c: char) -> (r: bool)
    ensures
        r == is_unicode_whitespace(c),
;

/// Relies on `char::is_alphabetic`: whether the character is in one of the
/// Unicode letter categories.  The result is a function of the character
/// alone.
pub assume_specification[ char::is_alphabetic ](c: char) -> (r: bool)
    ensures
        r == is_unicode_alphabetic(c),
;

/// Relies on `char::is_alphanumeric`: whether the character is alphabetic or
/// in one of the Unicode number categories.  The result is a function of the
/// character alone.
pub assume_specification[ char::is_alphanumeric ](c: char) -> (r: bool)
    ensures
        r == is_unicode_alphanumeric(c),
;

} // verus!
