//! Reading a response from an upstream server, one step per line read and
//! per chunk of body read.
//!
//! The connection is read by the caller: a status line first, then header
//! lines up to the blank line, then body chunks until the declared content
//! length is reached. Each step here takes what was read and updates the
//! state of the response.

use vstd::prelude::*;
use crate::grammar::{
    crlf_bytes, parse_response_line, read_header, spec_header, spec_response_line, ParseError,
    copy_range, slice_range,
};
use crate::message::{fields_view, Header, HttpResponse, HttpVersion, SpecResponse};
use crate::request::{content_length_lit, is_content_length, names_all_valid, names_valid};
use crate::text::{bytes_eq, eq_lowercase, parse_usize, spec_parse_usize};

verus! {

/// Why a response could not be read.
#[derive(Clone, Copy, Debug, PartialEq, Eq, Structural)]
pub enum ResponseError {
    /// The status line does not parse.
    StatusLine(ParseError),
    /// The status code is not three digits from 100 to 999.
    InvalidStatus,
    /// A header line does not parse.
    HeaderLine(ParseError),
    /// A `Content-Length` value is not a number that fits in `usize`.
    ContentLength,
    /// A header field name is not a valid name.
    InvalidHeaderName,
}

/// What `http::StatusCode::from_bytes` makes of `b`: three ASCII digits, the
/// first of them not `0`, read as a decimal number.
pub open spec fn spec_status_code(b: Seq<u8>) -> Option<u16> {
    if b.len() == 3 && 0x31 <= b[0] <= 0x39 && 0x30 <= b[1] <= 0x39 && 0x30 <= b[2] <= 0x39 {
        Some((100 * (b[0] - 0x30) + 10 * (b[1] - 0x30) + (b[2] - 0x30)) as u16)
    } else {
        None
    }
}

#[verifier::external_type_specification]
#[verifier::external_body]
pub struct ExInvalidStatusCode(http::status::InvalidStatusCode);

/// Calls `http::StatusCode::from_bytes` and returns the code as a number.
/// Its source accepts exactly three bytes, each an ASCII digit with the
/// first not `0`, and computes `100 * a + 10 * b + c`; the contract states
/// that.
#[verifier::external_body]
fn status_code_from_bytes(b: &[u8]) -> (r: Result<u16, http::status::InvalidStatusCode>)
    ensures
        match r {
            Ok(c) => spec_status_code(b@) == Some(c),
            Err(_) => spec_status_code(b@) is None,
        },
{
    match http::StatusCode::from_bytes(b) {
        Ok(code) => Ok(code.as_u16()),
        Err(e) => Err(e),
    }
}

/// The state of a response while its head is read.
#[derive(Debug)]
pub struct ResponseHead {
    pub status: u16,
    pub version: HttpVersion,
    pub headers: Vec<Header>,
    pub content_length: usize,
}

pub struct SpecResponseHead {
    pub status: u16,
    pub version: HttpVersion,
    pub headers: Seq<(Seq<u8>, Seq<u8>)>,
    pub content_length: usize,
}

impl View for ResponseHead {
    type V = SpecResponseHead;

    open spec fn view(&self) -> SpecResponseHead {
        SpecResponseHead {
            status: self.status,
            version: self.version,
            headers: fields_view(self.headers@),
            content_length: self.content_length,
        }
    }
}

/// A response as it starts: status 200, HTTP/1.1, no fields, no body.
pub open spec fn initial_head() -> SpecResponseHead {
    SpecResponseHead {
        status: 200,
        version: HttpVersion::Http11,
        headers: Seq::empty(),
        content_length: 0,
    }
}

/// The state before anything is read: status 200 and HTTP/1.1 until the
/// status line says otherwise.
pub fn new_response_head() -> (head: ResponseHead)
    ensures
        head@ == initial_head(),
{
    let head = ResponseHead {
        status: 200,
        version: HttpVersion::Http11,
        headers: Vec::new(),
        content_length: 0,
    };
    assert(head@.headers =~= Seq::<(Seq<u8>, Seq<u8>)>::empty());
    head
}

/// The version that the text after `HTTP/` in a status line sets: `0.9`,
/// `1.0`, `1.1`, `2.0` and `3.0` are known; any other text keeps `current`.
pub open spec fn response_version(v: Seq<u8>, current: HttpVersion) -> HttpVersion {
    if v == seq![0x30u8, 0x2Eu8, 0x39u8] {
        HttpVersion::Http09
    } else if v == seq![0x31u8, 0x2Eu8, 0x30u8] {
        HttpVersion::Http10
    } else if v == seq![0x31u8, 0x2Eu8, 0x31u8] {
        HttpVersion::Http11
    } else if v == seq![0x32u8, 0x2Eu8, 0x30u8] {
        HttpVersion::H2
    } else if v == seq![0x33u8, 0x2Eu8, 0x30u8] {
        HttpVersion::H3
    } else {
        current
    }
}

fn version_of(v: &[u8], current: HttpVersion) -> (r: HttpVersion)
    ensures
        r == response_version(v@, current),
{
    if v.len() != 3 || v[1] != 0x2E {
        assert(v@ != seq![0x30u8, 0x2Eu8, 0x39u8]);
        assert(v@ != seq![0x31u8, 0x2Eu8, 0x30u8]);
        assert(v@ != seq![0x31u8, 0x2Eu8, 0x31u8]);
        assert(v@ != seq![0x32u8, 0x2Eu8, 0x30u8]);
        assert(v@ != seq![0x33u8, 0x2Eu8, 0x30u8]);
        return current;
    }
    let a = v[0];
    let b = v[2];
    if a == 0x30 && b == 0x39 {
        assert(v@ =~= seq![0x30u8, 0x2Eu8, 0x39u8]);
        HttpVersion::Http09
    } else if a == 0x31 && b == 0x30 {
        assert(v@ =~= seq![0x31u8, 0x2Eu8, 0x30u8]);
        HttpVersion::Http10
    } else if a == 0x31 && b == 0x31 {
        assert(v@ =~= seq![0x31u8, 0x2Eu8, 0x31u8]);
        HttpVersion::Http11
    } else if a == 0x32 && b == 0x30 {
        assert(v@ =~= seq![0x32u8, 0x2Eu8, 0x30u8]);
        HttpVersion::H2
    } else if a == 0x33 && b == 0x30 {
        assert(v@ =~= seq![0x33u8, 0x2Eu8, 0x30u8]);
        HttpVersion::H3
    } else {
        assert(v@ != seq![0x30u8, 0x2Eu8, 0x39u8]);
        assert(v@ != seq![0x31u8, 0x2Eu8, 0x30u8]);
        assert(v@ != seq![0x31u8, 0x2Eu8, 0x31u8]);
        assert(v@ != seq![0x32u8, 0x2Eu8, 0x30u8]);
        assert(v@ != seq![0x33u8, 0x2Eu8, 0x30u8]);
        current
    }
}

/// What the status line `line` makes of the head: it must parse, and its
/// status code must be valid; then it sets the status and, for a known
/// version text, the version.
pub open spec fn spec_status_line_step(head: SpecResponseHead, line: Seq<u8>) -> Result<
    SpecResponseHead,
    ResponseError,
> {
    match spec_response_line(line, 0) {
        Err(e) => Err(ResponseError::StatusLine(e)),
        Ok(l) => match spec_status_code(line.subrange(l.status_start, l.status_end)) {
            None => Err(ResponseError::InvalidStatus),
            Some(code) => Ok(
                SpecResponseHead {
                    status: code,
                    version: response_version(
                        line.subrange(l.version_start, l.version_end),
                        head.version,
                    ),
                    ..head
                },
            ),
        },
    }
}

pub open spec fn step_view(before: SpecResponseHead, after: SpecResponseHead, r: Result<(), ResponseError>) -> Result<SpecResponseHead, ResponseError> {
    match r {
        Ok(()) => Ok(after),
        Err(e) => Err(e),
    }
}

/// Takes the status line read from the connection (with its line end).
pub fn status_line_step(head: &mut ResponseHead, line: &[u8]) -> (r: Result<(), ResponseError>)
    ensures
        step_view(old(head)@, final(head)@, r) == spec_status_line_step(old(head)@, line@),
        r is Err ==> final(head)@ == old(head)@,
{
    let l = match parse_response_line(line, 0) {
        Err(e) => return Err(ResponseError::StatusLine(e)),
        Ok(l) => l,
    };
    let code = match status_code_from_bytes(slice_range(line, l.status_start, l.status_end)) {
        Err(_) => return Err(ResponseError::InvalidStatus),
        Ok(c) => c,
    };
    head.status = code;
    head.version = version_of(slice_range(line, l.version_start, l.version_end), head.version);
    Ok(())
}

/// Whether a line read in the head is the blank line that ends it.
pub open spec fn is_end_of_head(line: Seq<u8>) -> bool {
    line == crlf_bytes()
}

/// What a header line makes of the head. The blank line ends the head
/// (`Ok(true)`, head unchanged). Any other line must parse as a header
/// line; a `Content-Length` field (in any case) must hold a number, which
/// becomes the content length; the field is appended.
pub open spec fn spec_header_line_step(head: SpecResponseHead, line: Seq<u8>) -> Result<
    (SpecResponseHead, bool),
    ResponseError,
> {
    if is_end_of_head(line) {
        Ok((head, true))
    } else {
        match spec_header(line, 0) {
            Err(e) => Err(ResponseError::HeaderLine(e)),
            Ok(h) => {
                let name = line.subrange(h.name_start, h.name_end);
                let value = line.subrange(h.value_start, h.value_end);
                let cl = if is_content_length(name) {
                    spec_parse_usize(value)
                } else {
                    Some(head.content_length)
                };
                match cl {
                    None => Err(ResponseError::ContentLength),
                    Some(c) => Ok(
                        (
                            SpecResponseHead {
                                headers: head.headers.push((name, value)),
                                content_length: c,
                                ..head
                            },
                            false,
                        ),
                    ),
                }
            },
        }
    }
}

pub open spec fn line_step_view(after: SpecResponseHead, r: Result<bool, ResponseError>) -> Result<
    (SpecResponseHead, bool),
    ResponseError,
> {
    match r {
        Ok(done) => Ok((after, done)),
        Err(e) => Err(e),
    }
}

/// Takes a line read after the status line (with its line end); returns
/// whether it was the blank line that ends the head.
pub fn header_line_step(head: &mut ResponseHead, line: &[u8]) -> (r: Result<bool, ResponseError>)
    ensures
        line_step_view(final(head)@, r) == spec_header_line_step(old(head)@, line@),
        r is Err ==> final(head)@ == old(head)@,
{
    let end: &[u8] = &[13u8, 10u8];
    if bytes_eq(line, end) {
        assert(end@ =~= crlf_bytes());
        return Ok(true);
    }
    assert(end@ =~= crlf_bytes());
    let h = match read_header(line, 0) {
        Err(e) => return Err(ResponseError::HeaderLine(e)),
        Ok(h) => h,
    };
    let name = copy_range(line, h.name_start, h.name_end);
    let value = copy_range(line, h.value_start, h.value_end);
    if eq_lowercase(&name, content_length_lit()) {
        match parse_usize(&value) {
            None => return Err(ResponseError::ContentLength),
            Some(v) => {
                head.content_length = v;
            },
        }
    }
    let ghost before = head.headers@;
    head.headers.push(Header { name, value });
    assert(fields_view(head.headers@) =~= fields_view(before).push((name@, value@)));
    Ok(false)
}

/// A body of `content_length` zero bytes, to be filled by the chunks read.
pub fn new_body(content_length: usize) -> (body: Vec<u8>)
    ensures
        body@ == Seq::new(content_length as nat, |i: int| 0u8),
{
    let mut body: Vec<u8> = Vec::new();
    let mut i: usize = 0;
    while i < content_length
        invariant
            i <= content_length,
            body@ == Seq::new(i as nat, |k: int| 0u8),
        decreases content_length - i,
    {
        body.push(0);
        i = i + 1;
        assert(body@ =~= Seq::new(i as nat, |k: int| 0u8));
    }
    body
}

/// The body after a chunk of `chunk` bytes arrived when `read` bytes had
/// arrived before: as much of the chunk as still fits is written at `read`.
pub open spec fn spec_copy_chunk(body: Seq<u8>, read: int, chunk: Seq<u8>) -> Seq<u8> {
    let n = if chunk.len() < body.len() - read {
        chunk.len() as int
    } else {
        body.len() - read
    };
    body.take(read) + chunk.take(n) + body.skip(read + n)
}

/// Copies a chunk read from the connection into the body at `bytes_read`,
/// as much of it as fits, and returns how many bytes have arrived in all.
pub fn copy_body_chunk(body: &mut Vec<u8>, bytes_read: usize, chunk: &[u8]) -> (total: usize)
    requires
        bytes_read < old(body).len(),
        bytes_read + chunk.len() <= usize::MAX,
    ensures
        final(body)@ == spec_copy_chunk(old(body)@, bytes_read as int, chunk@),
        total == bytes_read + chunk.len(),
{
    let room = body.len() - bytes_read;
    let n = if chunk.len() < room {
        chunk.len()
    } else {
        room
    };
    let mut i: usize = 0;
    while i < n
        invariant
            n <= chunk.len(),
            bytes_read + n <= body.len(),
            body.len() == old(body).len(),
            i <= n,
            body@ == old(body)@.take(bytes_read as int) + chunk@.take(i as int) + old(
                body,
            )@.skip(bytes_read + i),
        decreases n - i,
    {
        body.set(bytes_read + i, chunk[i]);
        i = i + 1;
        assert(body@ =~= old(body)@.take(bytes_read as int) + chunk@.take(i as int) + old(
            body,
        )@.skip(bytes_read + i));
    }
    bytes_read + chunk.len()
}

/// The body after the chunks `chunks` arrived one after the other, when
/// `read` bytes had arrived before them; no chunk is read once the body is
/// full.
pub open spec fn fill_body(body: Seq<u8>, read: int, chunks: Seq<Seq<u8>>) -> Seq<u8>
    decreases chunks.len(),
{
    if chunks.len() == 0 || read >= body.len() {
        body
    } else {
        fill_body(
            spec_copy_chunk(body, read, chunks[0]),
            read + chunks[0].len(),
            chunks.drop_first(),
        )
    }
}

proof fn lemma_fill_body(body: Seq<u8>, read: int, p: Seq<u8>, chunks: Seq<Seq<u8>>)
    requires
        read == p.len(),
        read <= body.len(),
        body.take(read) == p,
        p.len() + chunks.flatten().len() >= body.len(),
    ensures
        fill_body(body, read, chunks) == (p + chunks.flatten()).take(body.len() as int),
    decreases chunks.len(),
{
    let len = body.len() as int;
    if chunks.len() == 0 || read >= len {
        assert(p.len() == len);
        assert((p + chunks.flatten()).take(len) =~= p);
        assert(body =~= body.take(read));
    } else {
        let c = chunks[0];
        let rest = chunks.drop_first();
        assert(chunks.flatten() == c + rest.flatten());
        let b1 = spec_copy_chunk(body, read, c);
        if c.len() >= len - read {
            assert(b1 =~= (p + chunks.flatten()).take(len));
            assert(b1.len() == len);
            assert(fill_body(body, read, chunks) == fill_body(b1, read + c.len(), rest));
            assert(fill_body(b1, read + c.len(), rest) == b1);
        } else {
            let p1 = p + c;
            assert(b1.len() == len);
            assert(b1.take(read + c.len()) =~= p1);
            assert(p1 + rest.flatten() =~= p + chunks.flatten());
            lemma_fill_body(b1, read + c.len(), p1, rest);
        }
    }
}

/// Law: the chunks read into a new body of `len` bytes until it is full
/// give the first `len` bytes of what arrived, when that many arrived.
pub proof fn law_chunks_fill_body(len: nat, chunks: Seq<Seq<u8>>)
    requires
        chunks.flatten().len() >= len,
    ensures
        fill_body(Seq::new(len, |i: int| 0u8), 0, chunks) == chunks.flatten().take(len as int),
{
    let body = Seq::new(len, |i: int| 0u8);
    assert(body.take(0) =~= Seq::<u8>::empty());
    lemma_fill_body(body, 0, Seq::empty(), chunks);
    assert(Seq::<u8>::empty() + chunks.flatten() =~= chunks.flatten());
}

/// The response that a head and a body make, once every field name is one
/// that `http::HeaderName` accepts.
pub open spec fn spec_finish_response(head: SpecResponseHead, body: Seq<u8>) -> Result<
    SpecResponse,
    ResponseError,
> {
    if !names_valid(head.headers) {
        Err(ResponseError::InvalidHeaderName)
    } else {
        Ok(
            SpecResponse {
                status: head.status,
                version: head.version,
                headers: head.headers,
                body,
            },
        )
    }
}

pub open spec fn response_view(r: Result<HttpResponse, ResponseError>) -> Result<
    SpecResponse,
    ResponseError,
> {
    match r {
        Ok(resp) => Ok(resp@),
        Err(e) => Err(e),
    }
}

/// Puts the head and the body together into a response.
pub fn finish_response(head: ResponseHead, body: Vec<u8>) -> (r: Result<HttpResponse, ResponseError>)
    ensures
        response_view(r) == spec_finish_response(head@, body@),
{
    if !names_all_valid(&head.headers) {
        return Err(ResponseError::InvalidHeaderName);
    }
    Ok(HttpResponse { status: head.status, version: head.version, headers: head.headers, body })
}

} // verus!
