//! What the request-head readers make of given bytes: the request methods
//! they know, and the header lines of a request head.

use vstd::prelude::*;
use vstd::utf8::{valid_utf8, valid_utf8_concat};
use crate::combinators::{spec_is_header_value_char, spec_is_token_char};
use crate::grammar::{
    crlf_bytes, method_names, spec_headers, spec_http_method, spec_request_line,
    spec_take_while, ByteClass, HeaderSpans, ParseError, RequestLineSpans,
};
use crate::headers::spec_header_name;
use crate::message::{HttpVersion, SpecRequest};
use crate::request::{
    content_length_underscore, has_underscore_length, header_fields, names_valid,
    spec_parse_request_head, uri_parses, RequestError,
};
use crate::roundtrip::{
    field_ok, holds_at, lemma_ascii_valid, lemma_headers_parse, lemma_holds_join, lemma_holds_split,
    lemma_line_length, lemma_lines_ascii, lemma_method_parses, lemma_request_line,
    lemma_request_line_utf8, lemma_take_while_run, lines, readable_request, request_line_bytes,
    written_line_spans,
};

verus! {

/// Whether `s` begins with the method `m` followed by a space.
pub open spec fn starts_method(s: Seq<u8>, m: Seq<u8>) -> bool {
    s.len() > m.len() && s.subrange(0, m.len() as int) == m && s[m.len() as int] == 0x20
}

/// Law: each of the methods CONNECT, DELETE, GET, HEAD, OPTIONS, PATCH,
/// POST, PUT and TRACE, written in capitals at the start of a request line
/// and followed by a space, is recognised, and the method ends after it.
pub proof fn law_methods_recognised(s: Seq<u8>)
    ensures
        starts_method(s, seq![0x43u8, 0x4Fu8, 0x4Eu8, 0x4Eu8, 0x45u8, 0x43u8, 0x54u8]) ==> spec_http_method(s, 0) == Ok::<int, ParseError>(7),
        starts_method(s, seq![0x44u8, 0x45u8, 0x4Cu8, 0x45u8, 0x54u8, 0x45u8]) ==> spec_http_method(s, 0) == Ok::<int, ParseError>(6),
        starts_method(s, seq![0x47u8, 0x45u8, 0x54u8]) ==> spec_http_method(s, 0) == Ok::<int, ParseError>(3),
        starts_method(s, seq![0x48u8, 0x45u8, 0x41u8, 0x44u8]) ==> spec_http_method(s, 0) == Ok::<int, ParseError>(4),
        starts_method(s, seq![0x4Fu8, 0x50u8, 0x54u8, 0x49u8, 0x4Fu8, 0x4Eu8, 0x53u8]) ==> spec_http_method(s, 0) == Ok::<int, ParseError>(7),
        starts_method(s, seq![0x50u8, 0x41u8, 0x54u8, 0x43u8, 0x48u8]) ==> spec_http_method(s, 0) == Ok::<int, ParseError>(5),
        starts_method(s, seq![0x50u8, 0x4Fu8, 0x53u8, 0x54u8]) ==> spec_http_method(s, 0) == Ok::<int, ParseError>(4),
        starts_method(s, seq![0x50u8, 0x55u8, 0x54u8]) ==> spec_http_method(s, 0) == Ok::<int, ParseError>(3),
        starts_method(s, seq![0x54u8, 0x52u8, 0x41u8, 0x43u8, 0x45u8]) ==> spec_http_method(s, 0) == Ok::<int, ParseError>(5),
{
    assert(method_names()[0] =~= seq![0x43u8, 0x4Fu8, 0x4Eu8, 0x4Eu8, 0x45u8, 0x43u8, 0x54u8]);
    if starts_method(s, seq![0x43u8, 0x4Fu8, 0x4Eu8, 0x4Eu8, 0x45u8, 0x43u8, 0x54u8]) {
        lemma_method_parses(s, 0);
    }
    assert(method_names()[1] =~= seq![0x44u8, 0x45u8, 0x4Cu8, 0x45u8, 0x54u8, 0x45u8]);
    if starts_method(s, seq![0x44u8, 0x45u8, 0x4Cu8, 0x45u8, 0x54u8, 0x45u8]) {
        lemma_method_parses(s, 1);
    }
    assert(method_names()[2] =~= seq![0x47u8, 0x45u8, 0x54u8]);
    if starts_method(s, seq![0x47u8, 0x45u8, 0x54u8]) {
        lemma_method_parses(s, 2);
    }
    assert(method_names()[3] =~= seq![0x48u8, 0x45u8, 0x41u8, 0x44u8]);
    if starts_method(s, seq![0x48u8, 0x45u8, 0x41u8, 0x44u8]) {
        lemma_method_parses(s, 3);
    }
    assert(method_names()[4] =~= seq![0x4Fu8, 0x50u8, 0x54u8, 0x49u8, 0x4Fu8, 0x4Eu8, 0x53u8]);
    if starts_method(s, seq![0x4Fu8, 0x50u8, 0x54u8, 0x49u8, 0x4Fu8, 0x4Eu8, 0x53u8]) {
        lemma_method_parses(s, 4);
    }
    assert(method_names()[5] =~= seq![0x50u8, 0x41u8, 0x54u8, 0x43u8, 0x48u8]);
    if starts_method(s, seq![0x50u8, 0x41u8, 0x54u8, 0x43u8, 0x48u8]) {
        lemma_method_parses(s, 5);
    }
    assert(method_names()[6] =~= seq![0x50u8, 0x4Fu8, 0x53u8, 0x54u8]);
    if starts_method(s, seq![0x50u8, 0x4Fu8, 0x53u8, 0x54u8]) {
        lemma_method_parses(s, 6);
    }
    assert(method_names()[7] =~= seq![0x50u8, 0x55u8, 0x54u8]);
    if starts_method(s, seq![0x50u8, 0x55u8, 0x54u8]) {
        lemma_method_parses(s, 7);
    }
    assert(method_names()[8] =~= seq![0x54u8, 0x52u8, 0x41u8, 0x43u8, 0x45u8]);
    if starts_method(s, seq![0x54u8, 0x52u8, 0x41u8, 0x43u8, 0x45u8]) {
        lemma_method_parses(s, 8);
    }
}

/// Whether a field can stand in a request head as a header line and as a
/// field of a request: a name of 1 to 65535 token characters other than
/// `content_length`, and a value of header value characters.
pub open spec fn head_field_ok(x: (Seq<u8>, Seq<u8>)) -> bool {
    &&& 1 <= x.0.len() <= 65535
    &&& forall|k: int| 0 <= k < x.0.len() ==> spec_is_token_char(#[trigger] x.0[k])
    &&& forall|k: int| 0 <= k < x.1.len() ==> spec_is_header_value_char(#[trigger] x.1[k])
    &&& x.0 != content_length_underscore()
}

proof fn lemma_head_holds(r: SpecRequest, g: Seq<(Seq<u8>, Seq<u8>)>, pad: Seq<u8>)
    requires
        pad.len() >= 1,
        pad[0] == 0,
    ensures
        ({
            let line = request_line_bytes(r);
            let s = line + lines(g) + crlf_bytes() + pad;
            &&& holds_at(s, 0, line)
            &&& holds_at(s, line.len() as int, lines(g) + crlf_bytes())
            &&& line.len() + lines(g).len() + 2int < s.len()
            &&& s[line.len() + lines(g).len() + 2int] == 0
        }),
{
    let line = request_line_bytes(r);
    let w = line + lines(g) + crlf_bytes();
    let s = w + pad;
    assert(holds_at(s, 0, w)) by {
        assert(s.subrange(0, w.len() as int) =~= w);
    }
    lemma_holds_split(s, 0, line + lines(g), crlf_bytes());
    lemma_holds_split(s, 0, line, lines(g));
    lemma_holds_join(s, line.len() as int, lines(g), crlf_bytes());
    assert(s[w.len() + 0int] == pad[0]);
}

proof fn lemma_head_utf8(r: SpecRequest, g: Seq<(Seq<u8>, Seq<u8>)>, pad: Seq<u8>)
    requires
        readable_request(r),
        forall|i: int| 0 <= i < g.len() ==> field_ok(#[trigger] g[i]),
        valid_utf8(pad),
    ensures
        valid_utf8(request_line_bytes(r) + lines(g) + crlf_bytes() + pad),
{
    lemma_request_line_utf8(r);
    lemma_lines_ascii(g);
    lemma_ascii_valid(lines(g));
    lemma_ascii_valid(crlf_bytes());
    valid_utf8_concat(request_line_bytes(r), lines(g));
    valid_utf8_concat(request_line_bytes(r) + lines(g), crlf_bytes());
    valid_utf8_concat(request_line_bytes(r) + lines(g) + crlf_bytes(), pad);
}

proof fn lemma_head_assembles(
    s: Seq<u8>,
    l: RequestLineSpans,
    hs: Seq<HeaderSpans>,
    p2: int,
    q: SpecRequest,
)
    requires
        valid_utf8(s),
        spec_request_line(s, 0, true) == Ok::<RequestLineSpans, ParseError>(l),
        spec_headers(s, l.end) == Ok::<(Seq<HeaderSpans>, int), ParseError>((hs, p2)),
        spec_take_while(ByteClass::Body, s, p2) is Ok,
        header_fields(s, hs) == q.headers,
        !has_underscore_length(q.headers),
        s.subrange(l.target_start, l.target_end) == q.target,
        uri_parses(q.target),
        names_valid(q.headers),
        s.subrange(0, l.method_end) == q.method,
        q.version == HttpVersion::Http11,
        q.body == Seq::<u8>::empty(),
    ensures
        spec_parse_request_head(s) == Ok::<SpecRequest, RequestError>(q),
{
}

/// Law: a request head with single spaces in its request line, header lines
/// for the fields `g` and a blank line, in a zero-padded buffer, reads as
/// the method and target of its request line with exactly the fields `g`,
/// one per header line and in their order.
pub proof fn law_request_head_reads_fields(
    r: SpecRequest,
    g: Seq<(Seq<u8>, Seq<u8>)>,
    pad: Seq<u8>,
)
    requires
        readable_request(r),
        forall|i: int| 0 <= i < g.len() ==> head_field_ok(#[trigger] g[i]),
        pad.len() >= 1,
        pad[0] == 0,
        valid_utf8(pad),
    ensures
        spec_parse_request_head(request_line_bytes(r) + lines(g) + crlf_bytes() + pad) == Ok::<
            SpecRequest,
            RequestError,
        >(
            SpecRequest {
                method: r.method,
                target: r.target,
                version: HttpVersion::Http11,
                headers: g,
                body: Seq::empty(),
            },
        ),
{
    let line = request_line_bytes(r);
    let s = line + lines(g) + crlf_bytes() + pad;
    let l = written_line_spans(r);
    assert forall|i: int| 0 <= i < g.len() implies field_ok(#[trigger] g[i]) by {
        assert(head_field_ok(g[i]));
    }
    lemma_head_holds(r, g, pad);
    lemma_line_length(r);
    lemma_request_line(s, r, true);
    lemma_headers_parse(s, line.len() as int, g);
    let (hs, p2) = spec_headers(s, l.end)->Ok_0;
    lemma_take_while_run(ByteClass::Body, s, p2, p2);
    lemma_head_utf8(r, g, pad);
    assert forall|i: int| 0 <= i < g.len() implies (#[trigger] spec_header_name(g[i].0)) is Some by {
        assert(head_field_ok(g[i]));
    }
    if has_underscore_length(g) {
        let i = choose|i: int| 0 <= i < g.len() && (#[trigger] g[i]).0 == content_length_underscore();
        assert(head_field_ok(g[i]));
    }
    lemma_head_assembles(
        s,
        l,
        hs,
        p2,
        SpecRequest {
            method: r.method,
            target: r.target,
            version: HttpVersion::Http11,
            headers: g,
            body: Seq::empty(),
        },
    );
}

} // verus!
