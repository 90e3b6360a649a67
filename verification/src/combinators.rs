//! Byte classifiers of the HTTP grammar.

use vstd::prelude::*;

verus! {

/// An ASCII letter.
pub open spec fn spec_is_alpha(c: u8) -> bool {
    (0x41 <= c && c <= 0x5A) || (0x61 <= c && c <= 0x7A)
}

/// An ASCII decimal digit.
pub open spec fn spec_is_digit(c: u8) -> bool {
    0x30 <= c && c <= 0x39
}

/// An ASCII letter or digit.
pub open spec fn spec_is_alphanumeric(c: u8) -> bool {
    spec_is_alpha(c) || spec_is_digit(c)
}

/// The punctuation allowed in an RFC 7230 token: `!#$%&'*+-.^_`|~`.
pub open spec fn spec_is_token_symbol(c: u8) -> bool {
    c == 0x21 || c == 0x23 || c == 0x24 || c == 0x25 || c == 0x26 || c == 0x27
        || c == 0x2A || c == 0x2B || c == 0x2D || c == 0x2E || c == 0x5E || c == 0x5F
        || c == 0x60 || c == 0x7C || c == 0x7E
}

/// A `tchar` of RFC 7230: a letter, a digit or one of the token symbols.
pub open spec fn spec_is_token_char(c: u8) -> bool {
    spec_is_alphanumeric(c) || spec_is_token_symbol(c)
}

/// A byte of a header value as RFC 7230 allows it: tab or visible ASCII and space.
pub open spec fn spec_is_header_value_char(c: u8) -> bool {
    c == 9 || (32 <= c && c <= 126)
}

/// A header value byte as RFC 2616 allows it, which adds ISO-8859-1 from 160 up.
pub open spec fn spec_is_header_value_char_tolerant(c: u8) -> bool {
    spec_is_header_value_char(c) || c >= 160
}

/// A byte of a message body as read from a zero-padded buffer: anything but NUL.
pub open spec fn spec_is_body_value_char(c: u8) -> bool {
    c > 0
}

/// Linear white space inside a line: space or horizontal tab.
pub open spec fn spec_is_space(c: u8) -> bool {
    c == 0x20 || c == 0x09
}

/// `nom::character::is_alphanumeric` tests for an ASCII letter or digit;
/// its source is `is_alphabetic(chr) || is_digit(chr)` over the two letter
/// ranges and the digit range.
pub assume_specification[ nom::character::is_alphanumeric ](chr: u8) -> (r: bool)
    ensures
        r == spec_is_alphanumeric(chr),
;

/// Whether `i` is one of the ASCII digits `0` to `9`.
pub fn is_digit_char(i: u8) -> (r: bool)
    ensures
        r == spec_is_digit(i),
{
    i >= 0x30 && i <= 0x39
}

/// Whether `i` may stand in a header value (RFC 7230): tab, or a byte from 32 to 126.
pub fn is_header_value_char(i: u8) -> (r: bool)
    ensures
        r == spec_is_header_value_char(i),
{
    i == 9 || (i >= 32 && i <= 126)
}

/// Whether `i` may stand in a header value under the tolerant reading of
/// RFC 2616, which also admits ISO-8859-1 bytes from 160 up.
pub fn is_header_value_char_tolerant(i: u8) -> (r: bool)
    ensures
        r == spec_is_header_value_char_tolerant(i),
{
    i == 9 || (i >= 32 && i <= 126) || i >= 160
}

/// Whether `i` belongs to a body read out of a zero-padded buffer.
pub fn is_body_value_char(i: u8) -> (r: bool)
    ensures
        r == spec_is_body_value_char(i),
{
    i > 0
}

/// Whether `i` is one of the token symbols `!#$%&'*+-.^_`|~`.
fn is_token_symbol(i: u8) -> (r: bool)
    ensures
        r == spec_is_token_symbol(i),
{
    i == 0x21 || i == 0x23 || i == 0x24 || i == 0x25 || i == 0x26 || i == 0x27
        || i == 0x2A || i == 0x2B || i == 0x2D || i == 0x2E || i == 0x5E || i == 0x5F
        || i == 0x60 || i == 0x7C || i == 0x7E
}

/// Whether `i` may stand in a header field name.
pub fn is_http_header_name_char(i: u8) -> (r: bool)
    ensures
        r == spec_is_token_char(i),
{
    nom::character::is_alphanumeric(i) || is_token_symbol(i)
}

/// Whether `i` may stand in a token (the reason phrase of a status line).
pub fn is_token_char(i: u8) -> (r: bool)
    ensures
        r == spec_is_token_char(i),
{
    nom::character::is_alphanumeric(i) || is_token_symbol(i)
}

/// Whether `i` is a space or a horizontal tab.
pub fn is_space(i: u8) -> (r: bool)
    ensures
        r == spec_is_space(i),
{
    i == 0x20 || i == 0x09
}

/// Copies a byte slice into a new vector.
pub fn array_to_vec(arr: &[u8]) -> (vector: Vec<u8>)
    ensures
        vector@ == arr@,
{
    let mut vector: Vec<u8> = Vec::new();
    let mut i: usize = 0;
    while i < arr.len()
        invariant
            i <= arr.len(),
            vector@ == arr@.take(i as int),
        decreases arr.len() - i,
    {
        vector.push(arr[i]);
        i = i + 1;
        assert(vector@ =~= arr@.take(i as int));
    }
    assert(arr@.take(arr.len() as int) =~= arr@);
    vector
}

} // verus!
