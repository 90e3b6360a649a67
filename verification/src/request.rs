//! Reading a request out of the bytes of a single read from a client.

use vstd::prelude::*;
use vstd::utf8::valid_utf8;
use crate::grammar::{
    all_headers, read_body, read_first_line, read_request_line, spec_headers,
    spec_request_line, spec_take_while, ByteClass, HeaderPos, HeaderSpans, ParseError,
    RequestLinePos, copy_range,
};
use crate::headers::{header_name_from_bytes, spec_header_name};
use crate::message::{fields_view, Header, HttpRequest, HttpVersion, SpecRequest};
use crate::text::{
    all_digits, bytes_eq, decimal_value, eq_lowercase, lower_seq, parse_usize, spec_parse_usize,
};

verus! {

/// Why a request could not be read.
#[derive(Clone, Copy, Debug, PartialEq, Eq, Structural)]
pub enum RequestError {
    /// The bytes are not UTF-8.
    InvalidUtf8,
    /// The request line does not parse.
    RequestLine(ParseError),
    /// The header lines do not parse.
    Headers(ParseError),
    /// A `Content-Length` value is not a number that fits in `usize`.
    ContentLength,
    /// The body runs to the end of the buffer without a terminating NUL.
    Body(ParseError),
    /// The request target is not a URI.
    InvalidTarget,
    /// A header field name is not a valid name.
    InvalidHeaderName,
}

/// Whether `http::Uri::try_from` accepts the bytes `target` as a URI.
pub uninterp spec fn uri_parses(target: Seq<u8>) -> bool;

/// Calls `http::Uri::try_from(&[u8])`, the parse that a request builder
/// applies to its target. Its result depends on the bytes alone and is
/// named `uri_parses`; the grammar it implements is not written out here.
#[verifier::external_body]
fn check_uri(target: &[u8]) -> (r: bool)
    ensures
        r == uri_parses(target@),
{
    http::Uri::try_from(target).is_ok()
}

/// The (name, value) byte strings of parsed header lines.
pub open spec fn header_fields(s: Seq<u8>, hs: Seq<HeaderSpans>) -> Seq<(Seq<u8>, Seq<u8>)> {
    hs.map_values(
        |h: HeaderSpans|
            (s.subrange(h.name_start, h.name_end), s.subrange(h.value_start, h.value_end)),
    )
}

/// `content-length`
pub open spec fn content_length_name() -> Seq<u8> {
    seq![
        0x63u8,
        0x6Fu8,
        0x6Eu8,
        0x74u8,
        0x65u8,
        0x6Eu8,
        0x74u8,
        0x2Du8,
        0x6Cu8,
        0x65u8,
        0x6Eu8,
        0x67u8,
        0x74u8,
        0x68u8,
    ]
}

pub(crate) fn content_length_lit() -> (r: &'static [u8])
    ensures
        r@ == content_length_name(),
{
    let t: &'static [u8] = &[
        0x63u8,
        0x6Fu8,
        0x6Eu8,
        0x74u8,
        0x65u8,
        0x6Eu8,
        0x74u8,
        0x2Du8,
        0x6Cu8,
        0x65u8,
        0x6Eu8,
        0x67u8,
        0x74u8,
        0x68u8,
    ];
    assert(t@ =~= content_length_name());
    t
}

/// Whether a field name is `Content-Length` in any case.
pub open spec fn is_content_length(name: Seq<u8>) -> bool {
    lower_seq(name) == content_length_name()
}

/// The content length that the header fields declare, reading them in
/// order: each `Content-Length` field replaces the value before it, and one
/// whose value is not a number makes the whole undefined. Without such a
/// field the length is 0.
pub open spec fn spec_content_length(fields: Seq<(Seq<u8>, Seq<u8>)>) -> Option<usize>
    decreases fields.len(),
{
    if fields.len() == 0 {
        Some(0)
    } else {
        match spec_content_length(fields.drop_last()) {
            None => None,
            Some(c) => if is_content_length(fields.last().0) {
                spec_parse_usize(fields.last().1)
            } else {
                Some(c)
            },
        }
    }
}

/// Whether every field name is one that `http::HeaderName` accepts.
pub open spec fn names_valid(fields: Seq<(Seq<u8>, Seq<u8>)>) -> bool {
    forall|i: int| 0 <= i < fields.len() ==> (#[trigger] spec_header_name(fields[i].0)) is Some
}

/// `2.0`
pub open spec fn version_2_0() -> Seq<u8> {
    seq![0x32u8, 0x2Eu8, 0x30u8]
}

/// The version a request gets from the text after `HTTP/`: `2.0` is
/// HTTP/2, anything else leaves the default, HTTP/1.1.
pub open spec fn request_version(v: Seq<u8>) -> HttpVersion {
    if v == version_2_0() {
        HttpVersion::H2
    } else {
        HttpVersion::Http11
    }
}

/// A request read from a buffer: `missing` more body bytes are still to be
/// read from the connection when it is not 0.
#[derive(Debug)]
pub struct ParsedRequest {
    pub request: HttpRequest,
    pub missing: usize,
}

pub open spec fn parsed_view(r: Result<ParsedRequest, RequestError>) -> Result<
    (SpecRequest, int),
    RequestError,
> {
    match r {
        Ok(p) => Ok((p.request@, p.missing as int)),
        Err(e) => Err(e),
    }
}

/// The body that the buffer holds after the head at `p2`, and how many body
/// bytes are still missing: when fewer bytes than the content length follow
/// the head, all of them are the start of the body; otherwise the body is
/// the run of bytes up to the first NUL.
pub open spec fn spec_body_plan(s: Seq<u8>, p2: int, cl: usize) -> Result<
    (Seq<u8>, int),
    RequestError,
> {
    if s.len() - p2 < cl {
        Ok((s.subrange(p2, s.len() as int), cl - (s.len() - p2)))
    } else {
        match spec_take_while(ByteClass::Body, s, p2) {
            Err(e) => Err(RequestError::Body(e)),
            Ok(e) => Ok((s.subrange(p2, e), 0)),
        }
    }
}

/// What reading a request out of the buffer `s` gives: the buffer must be
/// UTF-8; then come the request line (parts separated by runs of spaces or
/// tabs), the header lines and the body as `spec_body_plan` says; the target
/// must be a URI and every field name valid.
pub open spec fn spec_parse_http_request(s: Seq<u8>) -> Result<(SpecRequest, int), RequestError> {
    if !valid_utf8(s) {
        Err(RequestError::InvalidUtf8)
    } else {
        match spec_request_line(s, 0, false) {
            Err(e) => Err(RequestError::RequestLine(e)),
            Ok(l) => match spec_headers(s, l.end) {
                Err(e) => Err(RequestError::Headers(e)),
                Ok((hs, p2)) => {
                    let fields = header_fields(s, hs);
                    match spec_content_length(fields) {
                        None => Err(RequestError::ContentLength),
                        Some(cl) => match spec_body_plan(s, p2, cl) {
                            Err(x) => Err(x),
                            Ok((body, missing)) => {
                                let target = s.subrange(l.target_start, l.target_end);
                                if !uri_parses(target) {
                                    Err(RequestError::InvalidTarget)
                                } else if !names_valid(fields) {
                                    Err(RequestError::InvalidHeaderName)
                                } else {
                                    Ok(
                                        (
                                            SpecRequest {
                                                method: s.subrange(0, l.method_end),
                                                target,
                                                version: request_version(
                                                    s.subrange(l.version_start, l.version_end),
                                                ),
                                                headers: fields,
                                                body,
                                            },
                                            missing,
                                        ),
                                    )
                                }
                            },
                        },
                    }
                },
            },
        }
    }
}

pub open spec fn spans_of(hs: Seq<HeaderPos>) -> Seq<HeaderSpans> {
    hs.map_values(|h: HeaderPos| h.spans())
}

/// Copies the name and value of each parsed header line out of `s`.
pub(crate) fn collect_fields(s: &[u8], hs: &Vec<HeaderPos>) -> (r: Vec<Header>)
    requires
        forall|i: int|
            0 <= i < hs.len() ==> {
                let h = #[trigger] hs@[i];
                h.name_start <= h.name_end <= h.value_start <= h.value_end <= s.len()
            },
    ensures
        fields_view(r@) == header_fields(s@, spans_of(hs@)),
{
    let mut r: Vec<Header> = Vec::new();
    let mut i: usize = 0;
    while i < hs.len()
        invariant
            i <= hs.len(),
            forall|k: int|
                0 <= k < hs.len() ==> {
                    let h = #[trigger] hs@[k];
                    h.name_start <= h.name_end <= h.value_start <= h.value_end <= s.len()
                },
            fields_view(r@) == header_fields(s@, spans_of(hs@.take(i as int))),
        decreases hs.len() - i,
    {
        let h = hs[i];
        let name = copy_range(s, h.name_start, h.name_end);
        let value = copy_range(s, h.value_start, h.value_end);
        let ghost old_r = r@;
        let ghost field = (name@, value@);
        r.push(Header { name, value });
        i = i + 1;
        proof {
            let sp0 = spans_of(hs@.take(i - 1));
            assert(spans_of(hs@.take(i as int)) =~= sp0.push(h.spans()));
            assert(header_fields(s@, sp0.push(h.spans())) =~= header_fields(s@, sp0).push(field));
            assert(fields_view(r@) =~= fields_view(old_r).push(field));
        }
    }
    assert(hs@.take(hs.len() as int) =~= hs@);
    r
}

/// The content length that the fields declare (see `spec_content_length`).
pub fn content_length(fields: &Vec<Header>) -> (r: Option<usize>)
    ensures
        r == spec_content_length(fields_view(fields@)),
{
    let mut acc: usize = 0;
    let mut i: usize = 0;
    while i < fields.len()
        invariant
            i <= fields.len(),
            spec_content_length(fields_view(fields@).take(i as int)) == Some(acc),
        decreases fields.len() - i,
    {
        let ghost before = fields_view(fields@).take(i as int);
        assert(fields_view(fields@).take(i + 1).drop_last() =~= before);
        if eq_lowercase(&fields[i].name, content_length_lit()) {
            match parse_usize(&fields[i].value) {
                None => {
                    proof {
                        lemma_content_length_sticky(fields_view(fields@), i + 1);
                        assert(fields_view(fields@).take(fields.len() as int) =~= fields_view(
                            fields@,
                        ));
                    }
                    return None;
                },
                Some(v) => {
                    acc = v;
                },
            }
        }
        i = i + 1;
    }
    assert(fields_view(fields@).take(fields.len() as int) =~= fields_view(fields@));
    Some(acc)
}

/// Once a prefix of the fields has no defined content length, no longer
/// prefix has one.
proof fn lemma_content_length_sticky(fields: Seq<(Seq<u8>, Seq<u8>)>, i: int)
    requires
        0 <= i <= fields.len(),
        spec_content_length(fields.take(i)) is None,
    ensures
        spec_content_length(fields.take(fields.len() as int)) is None,
    decreases fields.len() - i,
{
    if i < fields.len() {
        assert(fields.take(i + 1).drop_last() =~= fields.take(i));
        lemma_content_length_sticky(fields, i + 1);
    }
}

proof fn lemma_no_length_field(fields: Seq<(Seq<u8>, Seq<u8>)>)
    requires
        forall|j: int| 0 <= j < fields.len() ==> !is_content_length(#[trigger] fields[j].0),
    ensures
        spec_content_length(fields) == Some(0usize),
    decreases fields.len(),
{
    if fields.len() > 0 {
        let d = fields.drop_last();
        assert forall|j: int| 0 <= j < d.len() implies !is_content_length(#[trigger] d[j].0) by {
            assert(d[j] == fields[j]);
        }
        lemma_no_length_field(d);
        assert(!is_content_length(fields[fields.len() - 1].0));
    }
}

/// Law: when exactly one field's name is `content-length` in any case
/// (`Content-Length`, `CONTENT-LENGTH`, ...) and its value is a decimal
/// numeral of a number `n` that fits in `usize`, the declared content
/// length is `n`.
pub proof fn law_content_length_any_case(fields: Seq<(Seq<u8>, Seq<u8>)>, i: int, n: usize)
    requires
        0 <= i < fields.len(),
        lower_seq(fields[i].0) == seq![
            0x63u8, 0x6Fu8, 0x6Eu8, 0x74u8, 0x65u8, 0x6Eu8, 0x74u8, 0x2Du8, 0x6Cu8, 0x65u8,
            0x6Eu8, 0x67u8, 0x74u8, 0x68u8,
        ],
        forall|j: int|
            0 <= j < fields.len() && j != i ==> lower_seq(#[trigger] fields[j].0) != seq![
                0x63u8, 0x6Fu8, 0x6Eu8, 0x74u8, 0x65u8, 0x6Eu8, 0x74u8, 0x2Du8, 0x6Cu8, 0x65u8,
                0x6Eu8, 0x67u8, 0x74u8, 0x68u8,
            ],
        fields[i].1.len() >= 1,
        forall|k: int| 0 <= k < fields[i].1.len() ==> 0x30 <= #[trigger] fields[i].1[k] <= 0x39,
        decimal_value(fields[i].1) == n,
    ensures
        spec_content_length(fields) == Some(n),
    decreases fields.len(),
{
    assert(content_length_name() =~= seq![
        0x63u8, 0x6Fu8, 0x6Eu8, 0x74u8, 0x65u8, 0x6Eu8, 0x74u8, 0x2Du8, 0x6Cu8, 0x65u8,
        0x6Eu8, 0x67u8, 0x74u8, 0x68u8,
    ]);
    let d = fields.drop_last();
    if i == fields.len() - 1 {
        assert forall|j: int| 0 <= j < d.len() implies !is_content_length(#[trigger] d[j].0) by {
            assert(d[j] == fields[j]);
        }
        lemma_no_length_field(d);
        let v = fields[i].1;
        assert(v[0] != 0x2B);
        assert(all_digits(v));
    } else {
        assert(d[i] == fields[i]);
        assert forall|j: int| 0 <= j < d.len() && j != i implies lower_seq(#[trigger] d[j].0) != seq![
            0x63u8, 0x6Fu8, 0x6Eu8, 0x74u8, 0x65u8, 0x6Eu8, 0x74u8, 0x2Du8, 0x6Cu8, 0x65u8,
            0x6Eu8, 0x67u8, 0x74u8, 0x68u8,
        ] by {
            assert(d[j] == fields[j]);
        }
        law_content_length_any_case(d, i, n);
        assert(!is_content_length(fields[fields.len() - 1].0));
    }
}

/// Whether every field name is valid, asking `http::HeaderName`.
pub(crate) fn names_all_valid(fields: &Vec<Header>) -> (r: bool)
    ensures
        r == names_valid(fields_view(fields@)),
{
    let mut i: usize = 0;
    while i < fields.len()
        invariant
            i <= fields.len(),
            forall|k: int|
                0 <= k < i ==> (#[trigger] spec_header_name(fields_view(fields@)[k].0)) is Some,
        decreases fields.len() - i,
    {
        if header_name_from_bytes(&fields[i].name).is_none() {
            assert(fields_view(fields@)[i as int].0 == fields@[i as int].name@);
            return false;
        }
        i = i + 1;
    }
    true
}

fn version_2_0_lit() -> (r: &'static [u8])
    ensures
        r@ == version_2_0(),
{
    let t: &'static [u8] = &[0x32u8, 0x2Eu8, 0x30u8];
    assert(t@ =~= version_2_0());
    t
}

/// Reads a request out of the bytes of one read from a client (the whole
/// buffer, with whatever padding follows the message).
///
/// The request line separates its parts by runs of spaces and tabs and
/// names one of the methods CONNECT, DELETE, GET, HEAD, OPTIONS, PATCH,
/// POST, PUT, TRACE. The version `2.0` gives HTTP/2, any other HTTP/1.1.
/// When fewer bytes than the declared content length follow the head, they
/// start the body and `missing` says how many more belong to it; otherwise
/// the body runs to the first NUL byte.
pub fn parse_http_request(buf: &[u8]) -> (r: Result<ParsedRequest, RequestError>)
    ensures
        parsed_view(r) == spec_parse_http_request(buf@),
{
    if core::str::from_utf8(buf).is_err() {
        return Err(RequestError::InvalidUtf8);
    }
    let line: RequestLinePos = match read_request_line(buf, 0) {
        Err(e) => return Err(RequestError::RequestLine(e)),
        Ok(l) => l,
    };
    let (hs, p2) = match all_headers(buf, line.end) {
        Err(e) => return Err(RequestError::Headers(e)),
        Ok(x) => x,
    };
    let headers = collect_fields(buf, &hs);
    let cl = match content_length(&headers) {
        None => return Err(RequestError::ContentLength),
        Some(cl) => cl,
    };
    let rest = buf.len() - p2;
    let (body, missing) = if rest < cl {
        (copy_range(buf, p2, buf.len()), cl - rest)
    } else {
        match read_body(buf, p2) {
            Err(e) => return Err(RequestError::Body(e)),
            Ok(e) => (copy_range(buf, p2, e), 0),
        }
    };
    let target = copy_range(buf, line.target_start, line.target_end);
    if !check_uri(&target) {
        return Err(RequestError::InvalidTarget);
    }
    if !names_all_valid(&headers) {
        return Err(RequestError::InvalidHeaderName);
    }
    let version_text = crate::grammar::slice_range(buf, line.version_start, line.version_end);
    let version = if bytes_eq(version_text, version_2_0_lit()) {
        HttpVersion::H2
    } else {
        HttpVersion::Http11
    };
    let method = copy_range(buf, 0, line.method_end);
    let request = HttpRequest { method, target, version, headers, body };
    Ok(ParsedRequest { request, missing })
}

/// Appends the bytes read after the first buffer to the body.
pub fn append_body(request: &mut HttpRequest, extra: &[u8])
    ensures
        final(request)@ == (SpecRequest { body: old(request)@.body + extra@, ..old(request)@ }),
{
    let mut i: usize = 0;
    while i < extra.len()
        invariant
            i <= extra.len(),
            request.method@ == old(request).method@,
            request.target@ == old(request).target@,
            request.version == old(request).version,
            request.headers@ == old(request).headers@,
            request.body@ == old(request).body@ + extra@.take(i as int),
        decreases extra.len() - i,
    {
        request.body.push(extra[i]);
        i = i + 1;
        assert(request.body@ =~= old(request).body@ + extra@.take(i as int));
    }
    assert(extra@.take(extra.len() as int) =~= extra@);
}


/// `content_length`, with an underscore.
pub open spec fn content_length_underscore() -> Seq<u8> {
    seq![
        0x63u8,
        0x6Fu8,
        0x6Eu8,
        0x74u8,
        0x65u8,
        0x6Eu8,
        0x74u8,
        0x5Fu8,
        0x6Cu8,
        0x65u8,
        0x6Eu8,
        0x67u8,
        0x74u8,
        0x68u8,
    ]
}

fn content_length_underscore_lit() -> (r: &'static [u8])
    ensures
        r@ == content_length_underscore(),
{
    let t: &'static [u8] = &[
        0x63u8,
        0x6Fu8,
        0x6Eu8,
        0x74u8,
        0x65u8,
        0x6Eu8,
        0x74u8,
        0x5Fu8,
        0x6Cu8,
        0x65u8,
        0x6Eu8,
        0x67u8,
        0x74u8,
        0x68u8,
    ];
    assert(t@ =~= content_length_underscore());
    t
}

/// Whether some field is named exactly `content_length`; reading such a
/// field's name as a number is what fails.
pub open spec fn has_underscore_length(fields: Seq<(Seq<u8>, Seq<u8>)>) -> bool {
    exists|i: int| 0 <= i < fields.len() && (#[trigger] fields[i]).0 == content_length_underscore()
}

/// What reading a request head with single-space separators gives: the
/// buffer must be UTF-8; after the request line and the header lines the
/// rest must hold a NUL; no field may be named `content_length`; the target
/// must be a URI and every field name valid. The version stays HTTP/1.1 and
/// the body empty.
pub open spec fn spec_parse_request_head(s: Seq<u8>) -> Result<SpecRequest, RequestError> {
    if !valid_utf8(s) {
        Err(RequestError::InvalidUtf8)
    } else {
        match spec_request_line(s, 0, true) {
            Err(e) => Err(RequestError::RequestLine(e)),
            Ok(l) => match spec_headers(s, l.end) {
                Err(e) => Err(RequestError::Headers(e)),
                Ok((hs, p2)) => match spec_take_while(ByteClass::Body, s, p2) {
                    Err(e) => Err(RequestError::Body(e)),
                    Ok(_) => {
                        let fields = header_fields(s, hs);
                        let target = s.subrange(l.target_start, l.target_end);
                        if has_underscore_length(fields) {
                            Err(RequestError::ContentLength)
                        } else if !uri_parses(target) {
                            Err(RequestError::InvalidTarget)
                        } else if !names_valid(fields) {
                            Err(RequestError::InvalidHeaderName)
                        } else {
                            Ok(
                                SpecRequest {
                                    method: s.subrange(0, l.method_end),
                                    target,
                                    version: HttpVersion::Http11,
                                    headers: fields,
                                    body: Seq::empty(),
                                },
                            )
                        }
                    },
                },
            },
        }
    }
}

pub open spec fn request_view(r: Result<HttpRequest, RequestError>) -> Result<SpecRequest, RequestError> {
    match r {
        Ok(q) => Ok(q@),
        Err(e) => Err(e),
    }
}

/// Reads a request head whose request line has exactly one space between
/// its parts; the body is not kept, and the version is left at HTTP/1.1.
#[verifier::loop_isolation(false)]
pub fn parse_request_head(buf: &[u8]) -> (r: Result<HttpRequest, RequestError>)
    ensures
        request_view(r) == spec_parse_request_head(buf@),
{
    if core::str::from_utf8(buf).is_err() {
        return Err(RequestError::InvalidUtf8);
    }
    let line: RequestLinePos = match read_first_line(buf, 0) {
        Err(e) => return Err(RequestError::RequestLine(e)),
        Ok(l) => l,
    };
    let (hs, p2) = match all_headers(buf, line.end) {
        Err(e) => return Err(RequestError::Headers(e)),
        Ok(x) => x,
    };
    match read_body(buf, p2) {
        Err(e) => return Err(RequestError::Body(e)),
        Ok(_) => {},
    }
    let headers = collect_fields(buf, &hs);
    let mut i: usize = 0;
    while i < headers.len()
        invariant
            i <= headers.len(),
            fields_view(headers@) == header_fields(buf@, spans_of(hs@)),
            forall|k: int|
                0 <= k < i ==> (#[trigger] fields_view(headers@)[k]).0
                    != content_length_underscore(),
        decreases headers.len() - i,
    {
        if bytes_eq(&headers[i].name, content_length_underscore_lit()) {
            assert(fields_view(headers@)[i as int].0 == content_length_underscore());
            assert(header_fields(buf@, spans_of(hs@))[i as int].0 == content_length_underscore());
            return Err(RequestError::ContentLength);
        }
        i = i + 1;
    }
    let target = copy_range(buf, line.target_start, line.target_end);
    if !check_uri(&target) {
        return Err(RequestError::InvalidTarget);
    }
    if !names_all_valid(&headers) {
        return Err(RequestError::InvalidHeaderName);
    }
    let method = copy_range(buf, 0, line.method_end);
    Ok(HttpRequest { method, target, version: HttpVersion::Http11, headers, body: Vec::new() })
}

} // verus!
