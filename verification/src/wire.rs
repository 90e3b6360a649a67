//! The bytes that the proxy writes for a request it forwards and for a
//! response it returns.

use vstd::prelude::*;
use crate::grammar::{crlf_bytes, space_bytes};
use crate::headers::{is_normal_name, opt_bytes_view, value_is_text};
use crate::message::{
    fields_view, version_debug_text, version_text, Header, HttpRequest, HttpResponse, SpecRequest,
    SpecResponse,
};
use crate::request::{content_length_lit, content_length_name};
use crate::text::{bytes_eq, decimal_digits, usize_to_decimal};

verus! {

/// `": "`
pub open spec fn field_separator() -> Seq<u8> {
    seq![0x3Au8, 0x20u8]
}

/// `user-agent`
pub open spec fn user_agent_name() -> Seq<u8> {
    seq![
        0x75u8,
        0x73u8,
        0x65u8,
        0x72u8,
        0x2Du8,
        0x61u8,
        0x67u8,
        0x65u8,
        0x6Eu8,
        0x74u8,
    ]
}

fn user_agent_lit() -> (r: &'static [u8])
    ensures
        r@ == user_agent_name(),
{
    let t: &'static [u8] = &[
        0x75u8,
        0x73u8,
        0x65u8,
        0x72u8,
        0x2Du8,
        0x61u8,
        0x67u8,
        0x65u8,
        0x6Eu8,
        0x74u8,
    ];
    assert(t@ =~= user_agent_name());
    t
}

/// `name: value\r\n`
pub open spec fn field_line(name: Seq<u8>, value: Seq<u8>) -> Seq<u8> {
    name + field_separator() + value + crlf_bytes()
}

/// One header field as the proxy writes it: a `content-length` field carries
/// the length of the body that is written, whatever it said before;
/// `user-agent` is dropped from requests.
pub open spec fn field_bytes(f: (Seq<u8>, Seq<u8>), body_len: nat, drop_user_agent: bool) -> Seq<
    u8,
> {
    if f.0 == content_length_name() {
        field_line(f.0, decimal_digits(body_len))
    } else if drop_user_agent && f.0 == user_agent_name() {
        Seq::empty()
    } else {
        field_line(f.0, f.1)
    }
}

pub open spec fn fields_bytes(
    fields: Seq<(Seq<u8>, Seq<u8>)>,
    body_len: nat,
    drop_user_agent: bool,
) -> Seq<u8>
    decreases fields.len(),
{
    if fields.len() == 0 {
        Seq::empty()
    } else {
        fields_bytes(fields.drop_last(), body_len, drop_user_agent) + field_bytes(
            fields.last(),
            body_len,
            drop_user_agent,
        )
    }
}

/// Whether every field name is in normal form (lower case, as a header map
/// holds it), so that `content-length` and `user-agent` are recognised by
/// their bytes.
pub open spec fn names_normal(fields: Seq<(Seq<u8>, Seq<u8>)>) -> bool {
    forall|i: int| 0 <= i < fields.len() ==> is_normal_name(#[trigger] fields[i].0)
}

/// Whether every field whose value is written as it is has a text value.
pub open spec fn values_writable(fields: Seq<(Seq<u8>, Seq<u8>)>, drop_user_agent: bool) -> bool {
    forall|i: int|
        0 <= i < fields.len() ==> {
            let f = #[trigger] fields[i];
            f.0 != content_length_name() && !(drop_user_agent && f.0 == user_agent_name())
                ==> value_is_text(f.1)
        }
}

/// The bytes of a forwarded request: `method SP target SP version CRLF`,
/// the fields, a blank line and the body.
pub open spec fn spec_request_bytes(r: SpecRequest) -> Seq<u8> {
    r.method + space_bytes() + r.target + space_bytes() + version_text(r.version) + crlf_bytes()
        + fields_bytes(r.headers, r.body.len(), true) + crlf_bytes() + r.body
}

/// The reason phrase that `http::StatusCode::canonical_reason` gives for a
/// code (a fixed table in the `http` crate).
pub uninterp spec fn canonical_reason(code: u16) -> Option<Seq<u8>>;

/// Calls `http::StatusCode::canonical_reason` for the code `code`. The
/// phrase comes from a table of the `http` crate and depends on the code
/// alone; it is named `canonical_reason` and not written out here.
#[verifier::external_body]
fn reason_phrase(code: u16) -> (r: Option<Vec<u8>>)
    requires
        100 <= code <= 999,
    ensures
        opt_bytes_view(r) == canonical_reason(code),
{
    match http::StatusCode::from_u16(code) {
        Ok(status) => match status.canonical_reason() {
            Some(text) => Some(text.as_bytes().to_vec()),
            None => None,
        },
        Err(_) => None,
    }
}

/// The three digits of a status code, as `StatusCode::as_str` gives them.
pub open spec fn status_digits(code: u16) -> Seq<u8> {
    seq![
        (0x30 + code / 100) as u8,
        (0x30 + (code / 10) % 10) as u8,
        (0x30 + code % 10) as u8,
    ]
}

/// The reason phrase written after the code: the canonical one, or nothing.
pub open spec fn reason_or_empty(code: u16) -> Seq<u8> {
    match canonical_reason(code) {
        Some(r) => r,
        None => Seq::empty(),
    }
}

/// The bytes of a returned response: `version SP code SP reason CRLF`, the
/// fields, a blank line and the body.
pub open spec fn spec_response_bytes(r: SpecResponse) -> Seq<u8> {
    version_text(r.version) + space_bytes() + status_digits(r.status) + space_bytes()
        + reason_or_empty(r.status) + crlf_bytes() + fields_bytes(r.headers, r.body.len(), false)
        + crlf_bytes() + r.body
}

/// Appends `bytes` to `out`.
pub fn append_bytes(out: &mut Vec<u8>, bytes: &[u8])
    ensures
        final(out)@ == old(out)@ + bytes@,
{
    let mut i: usize = 0;
    while i < bytes.len()
        invariant
            i <= bytes.len(),
            out@ == old(out)@ + bytes@.take(i as int),
        decreases bytes.len() - i,
    {
        out.push(bytes[i]);
        i = i + 1;
        assert(out@ =~= old(out)@ + bytes@.take(i as int));
    }
    assert(bytes@.take(bytes.len() as int) =~= bytes@);
}

fn append_fields(out: &mut Vec<u8>, headers: &Vec<Header>, body_len: usize, drop_user_agent: bool)
    ensures
        final(out)@ == old(out)@ + fields_bytes(fields_view(headers@), body_len as nat, drop_user_agent),
{
    let sep: &[u8] = &[0x3Au8, 0x20u8];
    let end: &[u8] = &[13u8, 10u8];
    assert(sep@ =~= field_separator());
    assert(end@ =~= crlf_bytes());
    let mut i: usize = 0;
    while i < headers.len()
        invariant
            i <= headers.len(),
            sep@ == field_separator(),
            end@ == crlf_bytes(),
            out@ == old(out)@ + fields_bytes(
                fields_view(headers@).take(i as int),
                body_len as nat,
                drop_user_agent,
            ),
        decreases headers.len() - i,
    {
        let ghost before = out@;
        let h = &headers[i];
        let ghost f = fields_view(headers@)[i as int];
        assert(f == h@);
        if bytes_eq(&h.name, content_length_lit()) {
            append_bytes(out, &h.name);
            append_bytes(out, sep);
            let digits = usize_to_decimal(body_len);
            append_bytes(out, &digits);
            append_bytes(out, end);
        } else if drop_user_agent && bytes_eq(&h.name, user_agent_lit()) {
        } else {
            append_bytes(out, &h.name);
            append_bytes(out, sep);
            append_bytes(out, &h.value);
            append_bytes(out, end);
        }
        proof {
            let fs = fields_view(headers@);
            assert(fs.take(i + 1).drop_last() =~= fs.take(i as int));
            assert(fs.take(i + 1).last() == f);
            assert(out@ =~= before + field_bytes(f, body_len as nat, drop_user_agent));
        }
        i = i + 1;
    }
    assert(fields_view(headers@).take(headers.len() as int) =~= fields_view(headers@));
}

/// The bytes that forward `req` upstream: the request line, the fields (with
/// `content-length` set to the body's length and `user-agent` left out), a
/// blank line and the body.
pub fn request_bytes(req: &HttpRequest) -> (out: Vec<u8>)
    requires
        names_normal(req@.headers),
        values_writable(req@.headers, true),
    ensures
        out@ == spec_request_bytes(req@),
{
    let sp: &[u8] = &[0x20u8];
    let end: &[u8] = &[13u8, 10u8];
    assert(sp@ =~= space_bytes());
    assert(end@ =~= crlf_bytes());
    let mut out: Vec<u8> = Vec::new();
    append_bytes(&mut out, &req.method);
    append_bytes(&mut out, sp);
    append_bytes(&mut out, &req.target);
    append_bytes(&mut out, sp);
    let version = version_debug_text(req.version);
    append_bytes(&mut out, &version);
    append_bytes(&mut out, end);
    append_fields(&mut out, &req.headers, req.body.len(), true);
    append_bytes(&mut out, end);
    append_bytes(&mut out, &req.body);
    assert(out@ =~= spec_request_bytes(req@));
    out
}

fn status_text(code: u16) -> (r: Vec<u8>)
    requires
        100 <= code <= 999,
    ensures
        r@ == status_digits(code),
{
    let mut r: Vec<u8> = Vec::new();
    r.push((0x30 + code / 100) as u8);
    r.push((0x30 + (code / 10) % 10) as u8);
    r.push((0x30 + code % 10) as u8);
    assert(r@ =~= status_digits(code));
    r
}

/// The bytes that return `resp` to the client: the status line (version,
/// the code's three digits and its canonical reason phrase, if any), the
/// fields (with `content-length` set to the body's length), a blank line and
/// the body.
pub fn response_bytes(resp: &HttpResponse) -> (out: Vec<u8>)
    requires
        100 <= resp.status <= 999,
        names_normal(resp@.headers),
        values_writable(resp@.headers, false),
    ensures
        out@ == spec_response_bytes(resp@),
{
    let sp: &[u8] = &[0x20u8];
    let end: &[u8] = &[13u8, 10u8];
    assert(sp@ =~= space_bytes());
    assert(end@ =~= crlf_bytes());
    let mut out: Vec<u8> = Vec::new();
    let version = version_debug_text(resp.version);
    append_bytes(&mut out, &version);
    append_bytes(&mut out, sp);
    let digits = status_text(resp.status);
    append_bytes(&mut out, &digits);
    append_bytes(&mut out, sp);
    match reason_phrase(resp.status) {
        Some(reason) => append_bytes(&mut out, &reason),
        None => {},
    }
    append_bytes(&mut out, end);
    append_fields(&mut out, &resp.headers, resp.body.len(), false);
    append_bytes(&mut out, end);
    append_bytes(&mut out, &resp.body);
    assert(out@ =~= spec_response_bytes(resp@));
    out
}

/// Law: in a forwarded request a `user-agent` field is left out whatever its
/// value, and a `content-length` field is written as `content-length: `
/// followed by the decimal numeral of the body's length, whatever it said.
pub proof fn law_user_agent_dropped_and_length_rewritten(v: Seq<u8>, body_len: nat, drop: bool)
    ensures
        field_bytes(
            (seq![0x75u8, 0x73u8, 0x65u8, 0x72u8, 0x2Du8, 0x61u8, 0x67u8, 0x65u8, 0x6Eu8, 0x74u8], v),
            body_len,
            true,
        ) == Seq::<u8>::empty(),
        field_bytes(
            (
                seq![
                    0x63u8, 0x6Fu8, 0x6Eu8, 0x74u8, 0x65u8, 0x6Eu8, 0x74u8, 0x2Du8, 0x6Cu8,
                    0x65u8, 0x6Eu8, 0x67u8, 0x74u8, 0x68u8,
                ],
                v,
            ),
            body_len,
            drop,
        ) == seq![
            0x63u8, 0x6Fu8, 0x6Eu8, 0x74u8, 0x65u8, 0x6Eu8, 0x74u8, 0x2Du8, 0x6Cu8, 0x65u8,
            0x6Eu8, 0x67u8, 0x74u8, 0x68u8, 0x3Au8, 0x20u8,
        ] + decimal_digits(body_len) + seq![13u8, 10u8],
{
    let ua = seq![0x75u8, 0x73u8, 0x65u8, 0x72u8, 0x2Du8, 0x61u8, 0x67u8, 0x65u8, 0x6Eu8, 0x74u8];
    let cl = seq![
        0x63u8, 0x6Fu8, 0x6Eu8, 0x74u8, 0x65u8, 0x6Eu8, 0x74u8, 0x2Du8, 0x6Cu8, 0x65u8, 0x6Eu8,
        0x67u8, 0x74u8, 0x68u8,
    ];
    assert(user_agent_name() =~= ua);
    assert(content_length_name() =~= cl);
    assert(ua[0] != cl[0]);
    assert(field_line(cl, decimal_digits(body_len)) =~= seq![
        0x63u8, 0x6Fu8, 0x6Eu8, 0x74u8, 0x65u8, 0x6Eu8, 0x74u8, 0x2Du8, 0x6Cu8, 0x65u8, 0x6Eu8,
        0x67u8, 0x74u8, 0x68u8, 0x3Au8, 0x20u8,
    ] + decimal_digits(body_len) + seq![13u8, 10u8]);
}

} // verus!
