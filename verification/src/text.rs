use vstd::prelude::*;

verus! {

/// What `char::is_alphabetic` answers for a character (the Unicode `Alphabetic` property).
pub uninterp spec fn char_is_alphabetic(c: char) -> bool;

/// What `char::is_numeric` answers for a character (Unicode general categories `Nd`, `Nl`, `No`).
pub uninterp spec fn char_is_numeric(c: char) -> bool;

/// The characters with the Unicode `White_Space` property, which `char::is_whitespace`
/// accepts: U+0009 to U+000D, space, U+0085, U+00A0, U+1680, U+2000 to U+200A, U+2028,
/// U+2029, U+202F, U+205F and U+3000.
pub open spec fn char_is_whitespace(c: char) -> bool {
    let u = c as u32;
    ||| 0x09 <= u <= 0x0D
    ||| u == 0x20
    ||| u == 0x85
    ||| u == 0xA0
    ||| u == 0x1680
    ||| 0x2000 <= u <= 0x200A
    ||| u == 0x2028
    ||| u == 0x2029
    ||| u == 0x202F
    ||| u == 0x205F
    ||| u == 0x3000
}

/// An ASCII letter.
pub open spec fn is_ascii_letter(c: char) -> bool {
    ('a' <= c <= 'z') || ('A' <= c <= 'Z')
}

/// Calls `char::is_alphabetic`; its answer is named `char_is_alphabetic`. Of it only this
/// is claimed: below U+0080 the alphabetic characters are exactly the ASCII letters.
#[verifier::external_body]
pub(crate) fn is_alphabetic(c: char) -> (r: bool)
    ensures
        r == char_is_alphabetic(c),
        (c as u32) < 0x80 ==> (r <==> is_ascii_letter(c)),
{
    c.is_alphabetic()
}

/// Calls `char::is_numeric`; its answer is named `char_is_numeric`. Of it only this is
/// claimed: below U+0080 the numeric characters are exactly `0` to `9`.
#[verifier::external_body]
pub(crate) fn is_numeric(c: char) -> (r: bool)
    ensures
        r == char_is_numeric(c),
        (c as u32) < 0x80 ==> (r <==> '0' <= c <= '9'),
{
    c.is_numeric()
}

/// Whether `c` is blank, as `char::is_whitespace` answers: one of the characters of
/// `char_is_whitespace`.
pub fn is_whitespace(c: char) -> (r: bool)
    ensures
        r == char_is_whitespace(c),
{
    let u = c as u32;
    (0x09 <= u && u <= 0x0D) || u == 0x20 || u == 0x85 || u == 0xA0 || u == 0x1680 || (0x2000
        <= u && u <= 0x200A) || u == 0x2028 || u == 0x2029 || u == 0x202F || u == 0x205F || u
        == 0x3000
}

/// Whether `c` is alphanumeric, as `char::is_alphanumeric` answers: alphabetic or numeric.
pub fn is_alphanumeric(c: char) -> (r: bool)
    ensures
        r == (char_is_alphabetic(c) || char_is_numeric(c)),
        (c as u32) < 0x80 ==> (r <==> (is_ascii_letter(c) || '0' <= c <= '9')),
{
    is_alphabetic(c) || is_numeric(c)
}

/// The classes of `c` as the lexer sees them: whether it is alphabetic, and whether it is
/// numeric. Below U+0080 these are exactly the ASCII letters and the digits `0` to `9`.
pub fn ascii_char_classes(c: char) -> (r: (bool, bool))
    ensures
        r.0 == char_is_alphabetic(c),
        r.1 == char_is_numeric(c),
        (c as u32) < 0x80 ==> (char_is_alphabetic(c) <==> is_ascii_letter(c)),
        (c as u32) < 0x80 ==> (char_is_numeric(c) <==> '0' <= c <= '9'),
{
    (is_alphabetic(c), is_numeric(c))
}

/// Calls `String::push`, which appends one character at the end.
#[verifier::external_body]
pub(crate) fn push_char(s: &mut String, c: char)
    ensures
        final(s)@ == old(s)@.push(c),
{
    s.push(c)
}

/// Calls `==` on two string slices (`<str as PartialEq>::eq`): true exactly when both hold
/// the same characters.
#[verifier::external_body]
pub(crate) fn str_equal(a: &str, b: &str) -> (r: bool)
    ensures
        r == (a@ == b@),
{
    a == b
}

} // verus!
