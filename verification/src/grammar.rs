//! The HTTP/1.x head grammar as byte parsers with streaming semantics.
//!
//! Every parser reads a byte buffer `s` from a position `p` and either
//! recognises a prefix (returning the position just past it), rejects the
//! input (`Invalid`), or finds that the buffer ended before it could decide
//! (`Incomplete`). A repetition that ends at the end of the buffer is
//! `Incomplete` too, since more bytes might still belong to it.

use vstd::prelude::*;
use vstd::utf8::valid_utf8;
use crate::combinators::{
    array_to_vec, is_body_value_char, is_digit_char, is_header_value_char, is_space, is_token_char,
    spec_is_body_value_char, spec_is_digit, spec_is_header_value_char, spec_is_space,
    spec_is_token_char,
};

verus! {

/// Why a parser did not recognise its input.
#[derive(Clone, Copy, Debug, PartialEq, Eq, Structural)]
pub enum ParseError {
    /// The buffer ended before the parser could decide.
    Incomplete,
    /// The bytes do not follow the grammar.
    Invalid,
}

/// A class of bytes that a repetition takes.
#[derive(Clone, Copy, Debug, PartialEq, Eq, Structural)]
pub enum ByteClass {
    Digit,
    HeaderValue,
    Token,
    Body,
    Space,
    NotSpace,
}

pub open spec fn in_class(k: ByteClass, c: u8) -> bool {
    match k {
        ByteClass::Digit => spec_is_digit(c),
        ByteClass::HeaderValue => spec_is_header_value_char(c),
        ByteClass::Token => spec_is_token_char(c),
        ByteClass::Body => spec_is_body_value_char(c),
        ByteClass::Space => spec_is_space(c),
        ByteClass::NotSpace => c != 0x20,
    }
}

fn class_contains(k: ByteClass, c: u8) -> (r: bool)
    ensures
        r == in_class(k, c),
{
    match k {
        ByteClass::Digit => is_digit_char(c),
        ByteClass::HeaderValue => is_header_value_char(c),
        ByteClass::Token => is_token_char(c),
        ByteClass::Body => is_body_value_char(c),
        ByteClass::Space => is_space(c),
        ByteClass::NotSpace => c != 0x20,
    }
}

/// The first position at or after `i` whose byte lies outside `k`, or the
/// length of `s` when there is none.
pub open spec fn class_end(k: ByteClass, s: Seq<u8>, i: int) -> int
    decreases s.len() - i,
{
    if i >= s.len() {
        s.len() as int
    } else if !in_class(k, s[i]) {
        i
    } else {
        class_end(k, s, i + 1)
    }
}

pub proof fn lemma_class_end(k: ByteClass, s: Seq<u8>, i: int)
    requires
        0 <= i <= s.len(),
    ensures
        i <= class_end(k, s, i) <= s.len(),
        forall|j: int| i <= j < class_end(k, s, i) ==> in_class(k, #[trigger] s[j]),
        class_end(k, s, i) < s.len() ==> !in_class(k, s[class_end(k, s, i)]),
    decreases s.len() - i,
{
    if i < s.len() && in_class(k, s[i]) {
        lemma_class_end(k, s, i + 1);
    }
}

/// Positions as integers, for results of executable parsers.
pub open spec fn pos_view(r: Result<usize, ParseError>) -> Result<int, ParseError> {
    match r {
        Ok(n) => Ok(n as int),
        Err(e) => Err(e),
    }
}

/// Takes the longest run of bytes in `k`; the run must end before the buffer does.
pub open spec fn spec_take_while(k: ByteClass, s: Seq<u8>, p: int) -> Result<int, ParseError> {
    let e = class_end(k, s, p);
    if e < s.len() {
        Ok(e)
    } else {
        Err(ParseError::Incomplete)
    }
}

/// Recognises the bytes `t` at `p`.
pub open spec fn spec_tag(s: Seq<u8>, p: int, t: Seq<u8>) -> Result<int, ParseError> {
    if p + t.len() <= s.len() {
        if s.subrange(p, p + t.len()) == t {
            Ok(p + t.len())
        } else {
            Err(ParseError::Invalid)
        }
    } else if s.subrange(p, s.len() as int) == t.take(s.len() - p) {
        Err(ParseError::Incomplete)
    } else {
        Err(ParseError::Invalid)
    }
}

/// Takes exactly `n` bytes.
pub open spec fn spec_take(s: Seq<u8>, p: int, n: int) -> Result<int, ParseError> {
    if p + n <= s.len() {
        Ok(p + n)
    } else {
        Err(ParseError::Incomplete)
    }
}

/// The bytes of a recognised text run must decode as UTF-8.
pub open spec fn spec_utf8_run(s: Seq<u8>, p: int, r: Result<int, ParseError>) -> Result<
    int,
    ParseError,
> {
    match r {
        Ok(e) => if valid_utf8(s.subrange(p, e)) {
            Ok(e)
        } else {
            Err(ParseError::Invalid)
        },
        Err(x) => Err(x),
    }
}

/// `std::str::from_utf8` succeeds exactly on well-formed UTF-8, as its
/// documentation states ("Returns `Err` if the slice is not UTF-8").
pub assume_specification[ core::str::from_utf8 ](v: &[u8]) -> (r: Result<&str, core::str::Utf8Error>)
    ensures
        r is Ok <==> valid_utf8(v@),
;

#[verifier::external_type_specification]
#[verifier::external_body]
pub struct ExUtf8Error(core::str::Utf8Error);

fn decodes_as_utf8(s: &[u8], p: usize, e: usize) -> (r: bool)
    requires
        p <= e <= s.len(),
    ensures
        r == valid_utf8(s@.subrange(p as int, e as int)),
{
    let run = slice_range(s, p, e);
    core::str::from_utf8(run).is_ok()
}

/// The bytes of `s` from `p` to `e`.
pub fn slice_range(s: &[u8], p: usize, e: usize) -> (r: &[u8])
    requires
        p <= e <= s.len(),
    ensures
        r@ == s@.subrange(p as int, e as int),
{
    vstd::slice::slice_subrange(s, p, e)
}

/// Copies the bytes of `s` from `p` to `e` into a new vector.
pub fn copy_range(s: &[u8], p: usize, e: usize) -> (r: Vec<u8>)
    requires
        p <= e <= s.len(),
    ensures
        r@ == s@.subrange(p as int, e as int),
{
    array_to_vec(slice_range(s, p, e))
}

/// Takes the longest run of bytes of class `k` from `p`.
pub fn take_while(k: ByteClass, s: &[u8], p: usize) -> (r: Result<usize, ParseError>)
    requires
        p <= s.len(),
    ensures
        pos_view(r) == spec_take_while(k, s@, p as int),
        r matches Ok(e) ==> p <= e < s.len(),
{
    proof {
        lemma_class_end(k, s@, p as int);
    }
    let mut i = p;
    while i < s.len()
        invariant
            p <= i <= s.len(),
            class_end(k, s@, p as int) == class_end(k, s@, i as int),
        decreases s.len() - i,
    {
        if !class_contains(k, s[i]) {
            return Ok(i);
        }
        i = i + 1;
    }
    Err(ParseError::Incomplete)
}

/// Recognises the bytes `t` at `p`.
pub fn tag(s: &[u8], p: usize, t: &[u8]) -> (r: Result<usize, ParseError>)
    requires
        p <= s.len(),
    ensures
        pos_view(r) == spec_tag(s@, p as int, t@),
        r matches Ok(e) ==> p <= e <= s.len() && e == p + t.len(),
{
    let mut i: usize = 0;
    while i < t.len() && i < s.len() - p
        invariant
            p <= s.len(),
            i <= t.len(),
            i <= s.len() - p,
            s@.subrange(p as int, p + i) == t@.take(i as int),
        decreases t.len() - i,
    {
        if s[p + i] != t[i] {
            if t.len() <= s.len() - p {
                assert(s@.subrange(p as int, p + t.len())[i as int] != t@[i as int]);
            } else {
                assert(s@.subrange(p as int, s.len() as int)[i as int] != t@.take(
                    s.len() - p,
                )[i as int]);
            }
            return Err(ParseError::Invalid);
        }
        i = i + 1;
        assert(s@.subrange(p as int, p + i) =~= t@.take(i as int));
    }
    if i == t.len() {
        assert(t@.take(i as int) =~= t@);
        Ok(p + i)
    } else {
        Err(ParseError::Incomplete)
    }
}

/// Takes exactly `n` bytes.
pub fn take(s: &[u8], p: usize, n: usize) -> (r: Result<usize, ParseError>)
    requires
        p <= s.len(),
    ensures
        pos_view(r) == spec_take(s@, p as int, n as int),
        r matches Ok(e) ==> p <= e <= s.len(),
{
    if n <= s.len() - p {
        Ok(p + n)
    } else {
        Err(ParseError::Incomplete)
    }
}

// ---------------------------------------------------------------------------
// Literals
// ---------------------------------------------------------------------------
pub open spec fn crlf_bytes() -> Seq<u8> {
    seq![13u8, 10u8]
}

pub open spec fn colon_bytes() -> Seq<u8> {
    seq![0x3Au8]
}

pub open spec fn slash_bytes() -> Seq<u8> {
    seq![0x2Fu8]
}

pub open spec fn space_bytes() -> Seq<u8> {
    seq![0x20u8]
}

/// `HTTP`
pub open spec fn http_bytes() -> Seq<u8> {
    seq![0x48u8, 0x54u8, 0x54u8, 0x50u8]
}

fn crlf_lit() -> (r: &'static [u8])
    ensures
        r@ == crlf_bytes(),
{
    let t: &'static [u8] = &[13u8, 10u8];
    assert(t@ =~= crlf_bytes());
    t
}

fn colon_lit() -> (r: &'static [u8])
    ensures
        r@ == colon_bytes(),
{
    let t: &'static [u8] = &[0x3Au8];
    assert(t@ =~= colon_bytes());
    t
}

fn slash_lit() -> (r: &'static [u8])
    ensures
        r@ == slash_bytes(),
{
    let t: &'static [u8] = &[0x2Fu8];
    assert(t@ =~= slash_bytes());
    t
}

fn space_lit() -> (r: &'static [u8])
    ensures
        r@ == space_bytes(),
{
    let t: &'static [u8] = &[0x20u8];
    assert(t@ =~= space_bytes());
    t
}

fn http_lit() -> (r: &'static [u8])
    ensures
        r@ == http_bytes(),
{
    let t: &'static [u8] = &[0x48u8, 0x54u8, 0x54u8, 0x50u8];
    assert(t@ =~= http_bytes());
    t
}

// ---------------------------------------------------------------------------
// Scalar parsers
// ---------------------------------------------------------------------------
/// `\r\n`
pub fn crlf(s: &[u8], p: usize) -> (r: Result<usize, ParseError>)
    requires
        p <= s.len(),
    ensures
        pos_view(r) == spec_tag(s@, p as int, crlf_bytes()),
        r matches Ok(e) ==> p <= e <= s.len(),
{
    tag(s, p, crlf_lit())
}

/// `:`
pub fn colon(s: &[u8], p: usize) -> (r: Result<usize, ParseError>)
    requires
        p <= s.len(),
    ensures
        pos_view(r) == spec_tag(s@, p as int, colon_bytes()),
        r matches Ok(e) ==> p <= e <= s.len(),
{
    tag(s, p, colon_lit())
}

/// `/`
pub fn slash(s: &[u8], p: usize) -> (r: Result<usize, ParseError>)
    requires
        p <= s.len(),
    ensures
        pos_view(r) == spec_tag(s@, p as int, slash_bytes()),
        r matches Ok(e) ==> p <= e <= s.len(),
{
    tag(s, p, slash_lit())
}

/// A single space.
pub fn space(s: &[u8], p: usize) -> (r: Result<usize, ParseError>)
    requires
        p <= s.len(),
    ensures
        pos_view(r) == spec_tag(s@, p as int, space_bytes()),
        r matches Ok(e) ==> p <= e <= s.len(),
{
    tag(s, p, space_lit())
}

/// `HTTP`
pub fn http(s: &[u8], p: usize) -> (r: Result<usize, ParseError>)
    requires
        p <= s.len(),
    ensures
        pos_view(r) == spec_tag(s@, p as int, http_bytes()),
        r matches Ok(e) ==> p <= e <= s.len(),
{
    tag(s, p, http_lit())
}

/// Any number of spaces and tabs.
pub fn spaces(s: &[u8], p: usize) -> (r: Result<usize, ParseError>)
    requires
        p <= s.len(),
    ensures
        pos_view(r) == spec_take_while(ByteClass::Space, s@, p as int),
        r matches Ok(e) ==> p <= e <= s.len(),
{
    take_while(ByteClass::Space, s, p)
}

/// A run of decimal digits (possibly empty).
pub fn number(s: &[u8], p: usize) -> (r: Result<usize, ParseError>)
    requires
        p <= s.len(),
    ensures
        pos_view(r) == spec_take_while(ByteClass::Digit, s@, p as int),
        r matches Ok(e) ==> p <= e <= s.len(),
{
    take_while(ByteClass::Digit, s, p)
}

/// A run of header value bytes (possibly empty).
pub fn header_value(s: &[u8], p: usize) -> (r: Result<usize, ParseError>)
    requires
        p <= s.len(),
    ensures
        pos_view(r) == spec_take_while(ByteClass::HeaderValue, s@, p as int),
        r matches Ok(e) ==> p <= e <= s.len(),
{
    take_while(ByteClass::HeaderValue, s, p)
}

/// A run of header field name bytes (possibly empty).
pub fn http_header_name(s: &[u8], p: usize) -> (r: Result<usize, ParseError>)
    requires
        p <= s.len(),
    ensures
        pos_view(r) == spec_take_while(ByteClass::Token, s@, p as int),
        r matches Ok(e) ==> p <= e <= s.len(),
{
    take_while(ByteClass::Token, s, p)
}

/// A run of token bytes (possibly empty).
pub fn token(s: &[u8], p: usize) -> (r: Result<usize, ParseError>)
    requires
        p <= s.len(),
    ensures
        pos_view(r) == spec_take_while(ByteClass::Token, s@, p as int),
        r matches Ok(e) ==> p <= e <= s.len(),
{
    take_while(ByteClass::Token, s, p)
}

/// The body bytes of a zero-padded buffer: everything up to the first NUL.
pub fn read_body(s: &[u8], p: usize) -> (r: Result<usize, ParseError>)
    requires
        p <= s.len(),
    ensures
        pos_view(r) == spec_take_while(ByteClass::Body, s@, p as int),
        r matches Ok(e) ==> p <= e <= s.len(),
{
    take_while(ByteClass::Body, s, p)
}

/// Everything up to the next space, which must come and must not come first.
pub open spec fn spec_to_space(s: Seq<u8>, p: int) -> Result<int, ParseError> {
    let e = class_end(ByteClass::NotSpace, s, p);
    if e >= s.len() {
        Err(ParseError::Incomplete)
    } else if e == p {
        Err(ParseError::Invalid)
    } else {
        spec_utf8_run(s, p, Ok(e))
    }
}

/// The text up to the next space (the request target).
pub fn to_space(s: &[u8], p: usize) -> (r: Result<usize, ParseError>)
    requires
        p <= s.len(),
    ensures
        pos_view(r) == spec_to_space(s@, p as int),
        r matches Ok(e) ==> p <= e <= s.len(),
{
    proof {
        lemma_class_end(ByteClass::NotSpace, s@, p as int);
    }
    match take_while(ByteClass::NotSpace, s, p) {
        Err(e) => Err(e),
        Ok(e) => {
            if e == p {
                Err(ParseError::Invalid)
            } else if decodes_as_utf8(s, p, e) {
                Ok(e)
            } else {
                Err(ParseError::Invalid)
            }
        },
    }
}

/// Three bytes of text: the version after `HTTP/`.
pub open spec fn spec_http_version(s: Seq<u8>, p: int) -> Result<int, ParseError> {
    spec_utf8_run(s, p, spec_take(s, p, 3))
}

/// The three bytes of the version number after `HTTP/`.
pub fn http_version(s: &[u8], p: usize) -> (r: Result<usize, ParseError>)
    requires
        p <= s.len(),
    ensures
        pos_view(r) == spec_http_version(s@, p as int),
        r matches Ok(e) ==> p <= e <= s.len(),
{
    match take(s, p, 3) {
        Err(e) => Err(e),
        Ok(e) => {
            if decodes_as_utf8(s, p, e) {
                Ok(e)
            } else {
                Err(ParseError::Invalid)
            }
        },
    }
}

// ---------------------------------------------------------------------------
// Methods
// ---------------------------------------------------------------------------
/// The request methods, in the order in which they are tried.
pub open spec fn method_names() -> Seq<Seq<u8>> {
    seq![
        seq![0x43u8, 0x4Fu8, 0x4Eu8, 0x4Eu8, 0x45u8, 0x43u8, 0x54u8],
        seq![0x44u8, 0x45u8, 0x4Cu8, 0x45u8, 0x54u8, 0x45u8],
        seq![0x47u8, 0x45u8, 0x54u8],
        seq![0x48u8, 0x45u8, 0x41u8, 0x44u8],
        seq![0x4Fu8, 0x50u8, 0x54u8, 0x49u8, 0x4Fu8, 0x4Eu8, 0x53u8],
        seq![0x50u8, 0x41u8, 0x54u8, 0x43u8, 0x48u8],
        seq![0x50u8, 0x4Fu8, 0x53u8, 0x54u8],
        seq![0x50u8, 0x55u8, 0x54u8],
        seq![0x54u8, 0x52u8, 0x41u8, 0x43u8, 0x45u8],
    ]
}

fn method_name(i: usize) -> (r: &'static [u8])
    requires
        i < 9,
    ensures
        r@ == method_names()[i as int],
{
    let t: &'static [u8] = if i == 0 {
        &[0x43u8, 0x4Fu8, 0x4Eu8, 0x4Eu8, 0x45u8, 0x43u8, 0x54u8]
    } else if i == 1 {
        &[0x44u8, 0x45u8, 0x4Cu8, 0x45u8, 0x54u8, 0x45u8]
    } else if i == 2 {
        &[0x47u8, 0x45u8, 0x54u8]
    } else if i == 3 {
        &[0x48u8, 0x45u8, 0x41u8, 0x44u8]
    } else if i == 4 {
        &[0x4Fu8, 0x50u8, 0x54u8, 0x49u8, 0x4Fu8, 0x4Eu8, 0x53u8]
    } else if i == 5 {
        &[0x50u8, 0x41u8, 0x54u8, 0x43u8, 0x48u8]
    } else if i == 6 {
        &[0x50u8, 0x4Fu8, 0x53u8, 0x54u8]
    } else if i == 7 {
        &[0x50u8, 0x55u8, 0x54u8]
    } else {
        &[0x54u8, 0x52u8, 0x41u8, 0x43u8, 0x45u8]
    };
    assert(t@ =~= method_names()[i as int]);
    t
}

/// Tries the alternatives `names[i..]` in order: the first that matches wins,
/// the first that runs out of input makes the whole choice incomplete.
pub open spec fn spec_alt_tags(s: Seq<u8>, p: int, names: Seq<Seq<u8>>, i: int) -> Result<
    int,
    ParseError,
>
    decreases names.len() - i,
{
    if i >= names.len() {
        Err(ParseError::Invalid)
    } else {
        match spec_tag(s, p, names[i]) {
            Ok(e) => Ok(e),
            Err(ParseError::Incomplete) => Err(ParseError::Incomplete),
            Err(ParseError::Invalid) => spec_alt_tags(s, p, names, i + 1),
        }
    }
}

pub open spec fn spec_http_method(s: Seq<u8>, p: int) -> Result<int, ParseError> {
    spec_alt_tags(s, p, method_names(), 0)
}

/// One of the request methods CONNECT, DELETE, GET, HEAD, OPTIONS, PATCH,
/// POST, PUT, TRACE.
pub fn http_method(s: &[u8], p: usize) -> (r: Result<usize, ParseError>)
    requires
        p <= s.len(),
    ensures
        pos_view(r) == spec_http_method(s@, p as int),
        r matches Ok(e) ==> p <= e <= s.len(),
{
    let mut i: usize = 0;
    while i < 9
        invariant
            i <= 9,
            p <= s.len(),
            spec_http_method(s@, p as int) == spec_alt_tags(s@, p as int, method_names(), i as int),
        decreases 9 - i,
    {
        match tag(s, p, method_name(i)) {
            Ok(e) => {
                return Ok(e);
            },
            Err(ParseError::Incomplete) => {
                return Err(ParseError::Incomplete);
            },
            Err(ParseError::Invalid) => {},
        }
        i = i + 1;
    }
    Err(ParseError::Invalid)
}


// ---------------------------------------------------------------------------
// Request line
// ---------------------------------------------------------------------------
/// Where the parts of a request line lie; the method starts where the line does.
pub struct RequestLineSpans {
    pub method_end: int,
    pub target_start: int,
    pub target_end: int,
    pub version_start: int,
    pub version_end: int,
    pub end: int,
}

/// The positions of the parts of a parsed request line.
#[derive(Clone, Copy, Debug)]
pub struct RequestLinePos {
    pub method_end: usize,
    pub target_start: usize,
    pub target_end: usize,
    pub version_start: usize,
    pub version_end: usize,
    pub end: usize,
}

impl RequestLinePos {
    pub open spec fn spans(self) -> RequestLineSpans {
        RequestLineSpans {
            method_end: self.method_end as int,
            target_start: self.target_start as int,
            target_end: self.target_end as int,
            version_start: self.version_start as int,
            version_end: self.version_end as int,
            end: self.end as int,
        }
    }
}

/// The separator between the parts of a request line: exactly one space in
/// the strict form, any run of spaces and tabs in the lenient one.
pub open spec fn spec_gap(s: Seq<u8>, p: int, strict: bool) -> Result<int, ParseError> {
    if strict {
        spec_tag(s, p, space_bytes())
    } else {
        spec_take_while(ByteClass::Space, s, p)
    }
}

/// `method SP target SP HTTP/version CRLF`
pub open spec fn spec_request_line(s: Seq<u8>, p: int, strict: bool) -> Result<
    RequestLineSpans,
    ParseError,
> {
    match spec_http_method(s, p) {
        Err(e) => Err(e),
        Ok(m) => match spec_gap(s, m, strict) {
            Err(e) => Err(e),
            Ok(t0) => match spec_to_space(s, t0) {
                Err(e) => Err(e),
                Ok(t1) => match spec_gap(s, t1, strict) {
                    Err(e) => Err(e),
                    Ok(h0) => match spec_tag(s, h0, http_bytes()) {
                        Err(e) => Err(e),
                        Ok(h1) => match spec_tag(s, h1, slash_bytes()) {
                            Err(e) => Err(e),
                            Ok(v0) => match spec_http_version(s, v0) {
                                Err(e) => Err(e),
                                Ok(v1) => match spec_tag(s, v1, crlf_bytes()) {
                                    Err(e) => Err(e),
                                    Ok(end) => Ok(
                                        RequestLineSpans {
                                            method_end: m,
                                            target_start: t0,
                                            target_end: t1,
                                            version_start: v0,
                                            version_end: v1,
                                            end,
                                        },
                                    ),
                                },
                            },
                        },
                    },
                },
            },
        },
    }
}

pub open spec fn request_line_view(r: Result<RequestLinePos, ParseError>) -> Result<
    RequestLineSpans,
    ParseError,
> {
    match r {
        Ok(l) => Ok(l.spans()),
        Err(e) => Err(e),
    }
}

fn gap(s: &[u8], p: usize, strict: bool) -> (r: Result<usize, ParseError>)
    requires
        p <= s.len(),
    ensures
        pos_view(r) == spec_gap(s@, p as int, strict),
        r matches Ok(e) ==> p <= e <= s.len(),
{
    if strict {
        space(s, p)
    } else {
        spaces(s, p)
    }
}

/// Parses a request line, with single spaces between its parts when
/// `strict` holds and with runs of spaces and tabs otherwise.
pub fn request_line(s: &[u8], p: usize, strict: bool) -> (r: Result<RequestLinePos, ParseError>)
    requires
        p <= s.len(),
    ensures
        request_line_view(r) == spec_request_line(s@, p as int, strict),
        r matches Ok(l) ==> p <= l.method_end <= l.target_start <= l.target_end <= l.version_start
            <= l.version_end <= l.end <= s.len(),
{
    let m = match http_method(s, p) {
        Err(e) => return Err(e),
        Ok(m) => m,
    };
    let t0 = match gap(s, m, strict) {
        Err(e) => return Err(e),
        Ok(t0) => t0,
    };
    let t1 = match to_space(s, t0) {
        Err(e) => return Err(e),
        Ok(t1) => t1,
    };
    let h0 = match gap(s, t1, strict) {
        Err(e) => return Err(e),
        Ok(h0) => h0,
    };
    let h1 = match http(s, h0) {
        Err(e) => return Err(e),
        Ok(h1) => h1,
    };
    let v0 = match slash(s, h1) {
        Err(e) => return Err(e),
        Ok(v0) => v0,
    };
    let v1 = match http_version(s, v0) {
        Err(e) => return Err(e),
        Ok(v1) => v1,
    };
    let end = match crlf(s, v1) {
        Err(e) => return Err(e),
        Ok(end) => end,
    };
    Ok(
        RequestLinePos {
            method_end: m,
            target_start: t0,
            target_end: t1,
            version_start: v0,
            version_end: v1,
            end,
        },
    )
}

/// The request line as the proxy reads it: methods and parts separated by
/// runs of spaces and tabs.
pub fn read_request_line(s: &[u8], p: usize) -> (r: Result<RequestLinePos, ParseError>)
    requires
        p <= s.len(),
    ensures
        request_line_view(r) == spec_request_line(s@, p as int, false),
        r matches Ok(l) ==> p <= l.method_end <= l.target_start <= l.target_end <= l.version_start
            <= l.version_end <= l.end <= s.len(),
{
    request_line(s, p, false)
}

/// The request line with exactly one space between its parts.
pub fn read_first_line(s: &[u8], p: usize) -> (r: Result<RequestLinePos, ParseError>)
    requires
        p <= s.len(),
    ensures
        request_line_view(r) == spec_request_line(s@, p as int, true),
        r matches Ok(l) ==> p <= l.method_end <= l.target_start <= l.target_end <= l.version_start
            <= l.version_end <= l.end <= s.len(),
{
    request_line(s, p, true)
}

// ---------------------------------------------------------------------------
// Header lines
// ---------------------------------------------------------------------------
/// Where the parts of a header line lie; the name starts where the line does.
pub struct HeaderSpans {
    pub name_start: int,
    pub name_end: int,
    pub value_start: int,
    pub value_end: int,
    pub end: int,
}

/// The positions of the parts of a parsed header line.
#[derive(Clone, Copy, Debug)]
pub struct HeaderPos {
    pub name_start: usize,
    pub name_end: usize,
    pub value_start: usize,
    pub value_end: usize,
    pub end: usize,
}

impl HeaderPos {
    pub open spec fn spans(self) -> HeaderSpans {
        HeaderSpans {
            name_start: self.name_start as int,
            name_end: self.name_end as int,
            value_start: self.value_start as int,
            value_end: self.value_end as int,
            end: self.end as int,
        }
    }
}

/// `name ": " value CRLF`
pub open spec fn spec_header(s: Seq<u8>, p: int) -> Result<HeaderSpans, ParseError> {
    match spec_take_while(ByteClass::Token, s, p) {
        Err(e) => Err(e),
        Ok(n) => match spec_tag(s, n, colon_bytes()) {
            Err(e) => Err(e),
            Ok(c) => match spec_tag(s, c, space_bytes()) {
                Err(e) => Err(e),
                Ok(v0) => match spec_take_while(ByteClass::HeaderValue, s, v0) {
                    Err(e) => Err(e),
                    Ok(v1) => match spec_tag(s, v1, crlf_bytes()) {
                        Err(e) => Err(e),
                        Ok(end) => Ok(
                            HeaderSpans { name_start: p, name_end: n, value_start: v0, value_end: v1, end },
                        ),
                    },
                },
            },
        },
    }
}

pub open spec fn header_view(r: Result<HeaderPos, ParseError>) -> Result<HeaderSpans, ParseError> {
    match r {
        Ok(h) => Ok(h.spans()),
        Err(e) => Err(e),
    }
}

/// Parses one header line `name: value\r\n`.
pub fn read_header(s: &[u8], p: usize) -> (r: Result<HeaderPos, ParseError>)
    requires
        p <= s.len(),
    ensures
        header_view(r) == spec_header(s@, p as int),
        r matches Ok(h) ==> h.name_start == p && p <= h.name_end < h.value_start <= h.value_end
            < h.end <= s.len(),
{
    let n = match http_header_name(s, p) {
        Err(e) => return Err(e),
        Ok(n) => n,
    };
    let c = match colon(s, n) {
        Err(e) => return Err(e),
        Ok(c) => c,
    };
    let v0 = match space(s, c) {
        Err(e) => return Err(e),
        Ok(v0) => v0,
    };
    let v1 = match header_value(s, v0) {
        Err(e) => return Err(e),
        Ok(v1) => v1,
    };
    let end = match crlf(s, v1) {
        Err(e) => return Err(e),
        Ok(end) => end,
    };
    Ok(HeaderPos { name_start: p, name_end: n, value_start: v0, value_end: v1, end })
}

/// An optional CRLF: absent when the bytes at `p` are not one.
pub open spec fn spec_opt_crlf(s: Seq<u8>, p: int) -> Result<int, ParseError> {
    match spec_tag(s, p, crlf_bytes()) {
        Ok(e) => Ok(e),
        Err(ParseError::Invalid) => Ok(p),
        Err(ParseError::Incomplete) => Err(ParseError::Incomplete),
    }
}

/// Header lines as many as there are, then an optional CRLF. A header line
/// that does not match ends the list; one that runs out of input makes the
/// list incomplete.
pub open spec fn spec_headers(s: Seq<u8>, p: int) -> Result<(Seq<HeaderSpans>, int), ParseError>
    decreases s.len() - p,
{
    match spec_header(s, p) {
        Ok(h) => if p < h.end && h.end <= s.len() {
            match spec_headers(s, h.end) {
                Ok((hs, e)) => Ok((seq![h] + hs, e)),
                Err(x) => Err(x),
            }
        } else {
            Err(ParseError::Invalid)
        },
        Err(ParseError::Incomplete) => Err(ParseError::Incomplete),
        Err(ParseError::Invalid) => match spec_opt_crlf(s, p) {
            Ok(e) => Ok((seq![], e)),
            Err(x) => Err(x),
        },
    }
}

pub open spec fn headers_view(r: Result<(Vec<HeaderPos>, usize), ParseError>) -> Result<
    (Seq<HeaderSpans>, int),
    ParseError,
> {
    match r {
        Ok((hs, e)) => Ok((hs@.map_values(|h: HeaderPos| h.spans()), e as int)),
        Err(x) => Err(x),
    }
}

pub open spec fn prepend_headers(
    prefix: Seq<HeaderSpans>,
    r: Result<(Seq<HeaderSpans>, int), ParseError>,
) -> Result<(Seq<HeaderSpans>, int), ParseError> {
    match r {
        Ok((hs, e)) => Ok((prefix + hs, e)),
        Err(x) => Err(x),
    }
}

/// All header lines of a message head and the blank line after them.
pub fn all_headers(s: &[u8], p: usize) -> (r: Result<(Vec<HeaderPos>, usize), ParseError>)
    requires
        p <= s.len(),
    ensures
        headers_view(r) == spec_headers(s@, p as int),
        r matches Ok((hs, e)) ==> p <= e <= s.len() && (forall|i: int|
            0 <= i < hs.len() ==> {
                let h = #[trigger] hs@[i];
                p <= h.name_start <= h.name_end < h.value_start <= h.value_end < h.end <= e
            }),
{
    let mut acc: Vec<HeaderPos> = Vec::new();
    let mut q = p;
    loop
        invariant
            p <= q <= s.len(),
            spec_headers(s@, p as int) == prepend_headers(
                acc@.map_values(|h: HeaderPos| h.spans()),
                spec_headers(s@, q as int),
            ),
            forall|i: int|
                0 <= i < acc.len() ==> {
                    let h = #[trigger] acc@[i];
                    p <= h.name_start <= h.name_end < h.value_start <= h.value_end < h.end <= q
                },
        decreases s.len() - q,
    {
        match read_header(s, q) {
            Ok(h) => {
                let ghost old_acc = acc@;
                acc.push(h);
                proof {
                    let sp = spec_headers(s@, h.end as int);
                    assert(acc@.map_values(|h: HeaderPos| h.spans()) =~= old_acc.map_values(
                        |h: HeaderPos| h.spans(),
                    ) + seq![h.spans()]);
                    match sp {
                        Ok((hs, e)) => {
                            assert(old_acc.map_values(|h: HeaderPos| h.spans()) + (seq![h.spans()]
                                + hs) =~= acc@.map_values(|h: HeaderPos| h.spans()) + hs);
                        },
                        Err(x) => {},
                    }
                }
                q = h.end;
            },
            Err(ParseError::Incomplete) => {
                return Err(ParseError::Incomplete);
            },
            Err(ParseError::Invalid) => {
                match crlf(s, q) {
                    Ok(e) => {
                        assert(acc@.map_values(|h: HeaderPos| h.spans()) + seq![] =~= acc@.map_values(
                            |h: HeaderPos| h.spans(),
                        ));
                        return Ok((acc, e));
                    },
                    Err(ParseError::Invalid) => {
                        assert(acc@.map_values(|h: HeaderPos| h.spans()) + seq![] =~= acc@.map_values(
                            |h: HeaderPos| h.spans(),
                        ));
                        return Ok((acc, q));
                    },
                    Err(ParseError::Incomplete) => {
                        return Err(ParseError::Incomplete);
                    },
                }
            },
        }
    }
}

// ---------------------------------------------------------------------------
// Status line
// ---------------------------------------------------------------------------
/// Where the version and the status code of a status line lie.
pub struct StatusLineSpans {
    pub version_start: int,
    pub version_end: int,
    pub status_start: int,
    pub status_end: int,
    pub end: int,
}

/// The positions of the parts of a parsed status line.
#[derive(Clone, Copy, Debug)]
pub struct StatusLinePos {
    pub version_start: usize,
    pub version_end: usize,
    pub status_start: usize,
    pub status_end: usize,
    pub end: usize,
}

impl StatusLinePos {
    pub open spec fn spans(self) -> StatusLineSpans {
        StatusLineSpans {
            version_start: self.version_start as int,
            version_end: self.version_end as int,
            status_start: self.status_start as int,
            status_end: self.status_end as int,
            end: self.end as int,
        }
    }
}

/// `HTTP/version [spaces] digits [spaces] token CRLF`
pub open spec fn spec_response_line(s: Seq<u8>, p: int) -> Result<StatusLineSpans, ParseError> {
    match spec_tag(s, p, http_bytes()) {
        Err(e) => Err(e),
        Ok(h1) => match spec_tag(s, h1, slash_bytes()) {
            Err(e) => Err(e),
            Ok(v0) => match spec_http_version(s, v0) {
                Err(e) => Err(e),
                Ok(v1) => match spec_take_while(ByteClass::Space, s, v1) {
                    Err(e) => Err(e),
                    Ok(n0) => match spec_take_while(ByteClass::Digit, s, n0) {
                        Err(e) => Err(e),
                        Ok(n1) => match spec_take_while(ByteClass::Space, s, n1) {
                            Err(e) => Err(e),
                            Ok(t0) => match spec_take_while(ByteClass::Token, s, t0) {
                                Err(e) => Err(e),
                                Ok(t1) => match spec_tag(s, t1, crlf_bytes()) {
                                    Err(e) => Err(e),
                                    Ok(end) => Ok(
                                        StatusLineSpans {
                                            version_start: v0,
                                            version_end: v1,
                                            status_start: n0,
                                            status_end: n1,
                                            end,
                                        },
                                    ),
                                },
                            },
                        },
                    },
                },
            },
        },
    }
}

pub open spec fn response_line_view(r: Result<StatusLinePos, ParseError>) -> Result<
    StatusLineSpans,
    ParseError,
> {
    match r {
        Ok(l) => Ok(l.spans()),
        Err(e) => Err(e),
    }
}

/// Parses a status line such as `HTTP/1.1 200 OK\r\n`; the reason phrase is
/// a single token.
pub fn parse_response_line(s: &[u8], p: usize) -> (r: Result<StatusLinePos, ParseError>)
    requires
        p <= s.len(),
    ensures
        response_line_view(r) == spec_response_line(s@, p as int),
        r matches Ok(l) ==> p <= l.version_start <= l.version_end <= l.status_start
            <= l.status_end <= l.end <= s.len(),
{
    let h1 = match http(s, p) {
        Err(e) => return Err(e),
        Ok(h1) => h1,
    };
    let v0 = match slash(s, h1) {
        Err(e) => return Err(e),
        Ok(v0) => v0,
    };
    let v1 = match http_version(s, v0) {
        Err(e) => return Err(e),
        Ok(v1) => v1,
    };
    let n0 = match spaces(s, v1) {
        Err(e) => return Err(e),
        Ok(n0) => n0,
    };
    let n1 = match number(s, n0) {
        Err(e) => return Err(e),
        Ok(n1) => n1,
    };
    let t0 = match spaces(s, n1) {
        Err(e) => return Err(e),
        Ok(t0) => t0,
    };
    let t1 = match token(s, t0) {
        Err(e) => return Err(e),
        Ok(t1) => t1,
    };
    let end = match crlf(s, t1) {
        Err(e) => return Err(e),
        Ok(end) => end,
    };
    Ok(StatusLinePos { version_start: v0, version_end: v1, status_start: n0, status_end: n1, end })
}

} // verus!
