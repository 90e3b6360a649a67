//! What an upstream server that reads requests as this library does gets
//! back from the bytes that the proxy writes for a request, and the pieces
//! of proof about written lines that the response side shares.

use vstd::prelude::*;
use vstd::utf8::{is_leading_byte_width_1, partial_valid_utf8, partial_valid_utf8_extend_ascii_block, valid_utf8, valid_utf8_concat};
use crate::combinators::{spec_is_header_value_char, spec_is_token_char};
use crate::grammar::{
    class_end, colon_bytes, crlf_bytes, http_bytes, in_class, method_names, slash_bytes,
    space_bytes, spec_alt_tags, spec_header, spec_headers, spec_http_method, spec_request_line,
    spec_tag, spec_take_while, ByteClass, HeaderSpans, ParseError, RequestLineSpans,
};
use crate::headers::{is_normal_name, spec_header_name, value_is_text, all_token_chars};
use crate::message::{version_text, HttpVersion, SpecRequest};
use crate::request::{
    content_length_name, header_fields, is_content_length, names_valid, request_version,
    spec_body_plan, spec_content_length, spec_parse_http_request, uri_parses, RequestError,
};
use crate::text::{decimal_digits, lemma_decimal_digits_shape, lemma_parse_decimal_roundtrip, lower_seq};
use crate::wire::{
    field_bytes, field_line, field_separator, fields_bytes, spec_request_bytes, user_agent_name,
    values_writable,
};

verus! {

// ---------------------------------------------------------------------------
// The fields that are forwarded
// ---------------------------------------------------------------------------
/// What becomes of one field when a message is written: `content-length`
/// carries the body's length, `user-agent` is dropped from requests, others
/// stay.
pub open spec fn written_field(x: (Seq<u8>, Seq<u8>), n: nat, drop_user_agent: bool) -> Seq<
    (Seq<u8>, Seq<u8>),
> {
    if x.0 == content_length_name() {
        seq![(x.0, decimal_digits(n))]
    } else if drop_user_agent && x.0 == user_agent_name() {
        Seq::empty()
    } else {
        seq![x]
    }
}

/// The fields of a written message whose body is `n` bytes long.
pub open spec fn written_fields(f: Seq<(Seq<u8>, Seq<u8>)>, n: nat, drop_user_agent: bool) -> Seq<
    (Seq<u8>, Seq<u8>),
>
    decreases f.len(),
{
    if f.len() == 0 {
        Seq::empty()
    } else {
        written_fields(f.drop_last(), n, drop_user_agent) + written_field(f.last(), n, drop_user_agent)
    }
}

/// The field lines of `g`, one after the other.
pub open spec fn lines(g: Seq<(Seq<u8>, Seq<u8>)>) -> Seq<u8>
    decreases g.len(),
{
    if g.len() == 0 {
        Seq::empty()
    } else {
        lines(g.drop_last()) + field_line(g.last().0, g.last().1)
    }
}

pub(crate) proof fn lemma_lines_append(a: Seq<(Seq<u8>, Seq<u8>)>, b: Seq<(Seq<u8>, Seq<u8>)>)
    ensures
        lines(a + b) == lines(a) + lines(b),
    decreases b.len(),
{
    if b.len() == 0 {
        assert(a + b =~= a);
        assert(lines(a) + lines(b) =~= lines(a));
    } else {
        lemma_lines_append(a, b.drop_last());
        assert((a + b).drop_last() =~= a + b.drop_last());
        assert((a + b).last() == b.last());
        assert(lines(a + b) =~= lines(a) + lines(b));
    }
}

proof fn lemma_lines_front(g: Seq<(Seq<u8>, Seq<u8>)>)
    requires
        g.len() > 0,
    ensures
        lines(g) == field_line(g[0].0, g[0].1) + lines(g.drop_first()),
{
    lemma_lines_append(seq![g[0]], g.drop_first());
    assert(seq![g[0]] + g.drop_first() =~= g);
    let one = seq![g[0]];
    assert(one.drop_last() =~= Seq::<(Seq<u8>, Seq<u8>)>::empty());
    assert(one.last() == g[0]);
    assert(lines(one) == lines(one.drop_last()) + field_line(g[0].0, g[0].1));
    assert(lines(one) =~= field_line(g[0].0, g[0].1));
}

pub(crate) proof fn lemma_fields_bytes_are_lines(f: Seq<(Seq<u8>, Seq<u8>)>, n: nat, d: bool)
    ensures
        fields_bytes(f, n, d) == lines(written_fields(f, n, d)),
    decreases f.len(),
{
    if f.len() > 0 {
        lemma_fields_bytes_are_lines(f.drop_last(), n, d);
        let a = written_fields(f.drop_last(), n, d);
        let x = f.last();
        lemma_lines_append(a, written_field(x, n, d));
        let piece = written_field(x, n, d);
        if x.0 == content_length_name() {
            assert(piece.drop_last() =~= Seq::<(Seq<u8>, Seq<u8>)>::empty());
            assert(lines(piece) == lines(piece.drop_last()) + field_line(piece.last().0, piece.last().1));
            assert(lines(piece) =~= field_bytes(x, n, d));
        } else if d && x.0 == user_agent_name() {
            assert(piece.len() == 0);
            assert(lines(piece) =~= field_bytes(x, n, d));
        } else {
            assert(piece.drop_last() =~= Seq::<(Seq<u8>, Seq<u8>)>::empty());
            assert(lines(piece) == lines(piece.drop_last()) + field_line(piece.last().0, piece.last().1));
            assert(lines(piece) =~= field_bytes(x, n, d));
        }
    }
}

/// Whether a field can be written as a line and read back.
pub open spec fn field_ok(x: (Seq<u8>, Seq<u8>)) -> bool {
    &&& x.0.len() >= 1
    &&& all_token_chars(x.0)
    &&& forall|i: int| 0 <= i < x.1.len() ==> spec_is_header_value_char(#[trigger] x.1[i])
}

pub(crate) proof fn lemma_written_ok(f: Seq<(Seq<u8>, Seq<u8>)>, n: nat, du: bool)
    requires
        forall|i: int| 0 <= i < f.len() ==> is_normal_name(#[trigger] f[i].0),
        values_writable(f, du),
    ensures
        forall|i: int|
            0 <= i < written_fields(f, n, du).len() ==> {
                let x = #[trigger] written_fields(f, n, du)[i];
                field_ok(x) && is_normal_name(x.0)
            },
    decreases f.len(),
{
    if f.len() > 0 {
        let d = f.drop_last();
        assert forall|i: int| 0 <= i < d.len() implies is_normal_name(#[trigger] d[i].0) by {
            assert(d[i] == f[i]);
        }
        assert forall|i: int| 0 <= i < d.len() implies ({
            let x = #[trigger] d[i];
            x.0 != content_length_name() && !(du && x.0 == user_agent_name()) ==> value_is_text(
                x.1,
            )
        }) by {
            assert(d[i] == f[i]);
        }
        lemma_written_ok(d, n, du);
        let a = written_fields(d, n, du);
        let x = f.last();
        let piece = written_field(x, n, du);
        assert(is_normal_name(f[f.len() - 1].0));
        lemma_decimal_digits_shape(n);
        let g = written_fields(f, n, du);
        assert(g == a + piece);
        assert forall|i: int| 0 <= i < g.len() implies ({
            let y = #[trigger] g[i];
            field_ok(y) && is_normal_name(y.0)
        }) by {
            if i < a.len() {
                assert(g[i] == a[i]);
            } else {
                assert(g[i] == piece[i - a.len()]);
                let y = g[i];
                if x.0 == content_length_name() {
                    assert(y.1 == decimal_digits(n));
                    assert forall|j: int| 0 <= j < y.1.len() implies spec_is_header_value_char(
                        #[trigger] y.1[j],
                    ) by {
                        assert(crate::combinators::spec_is_digit(y.1[j]));
                    }
                } else {
                    assert(y == x);
                    assert(value_is_text(f[f.len() - 1].1));
                }
            }
        }
    }
}

// ---------------------------------------------------------------------------
// Parsing pieces at known positions
// ---------------------------------------------------------------------------
pub(crate) proof fn lemma_class_end_run(k: ByteClass, s: Seq<u8>, i: int, e: int)
    requires
        0 <= i <= e < s.len(),
        forall|j: int| i <= j < e ==> in_class(k, #[trigger] s[j]),
        !in_class(k, s[e]),
    ensures
        class_end(k, s, i) == e,
    decreases e - i,
{
    if i < e {
        lemma_class_end_run(k, s, i + 1, e);
    }
}

pub(crate) proof fn lemma_take_while_run(k: ByteClass, s: Seq<u8>, p: int, e: int)
    requires
        0 <= p <= e < s.len(),
        forall|j: int| p <= j < e ==> in_class(k, #[trigger] s[j]),
        !in_class(k, s[e]),
    ensures
        spec_take_while(k, s, p) == Ok::<int, ParseError>(e),
{
    lemma_class_end_run(k, s, p, e);
}

pub(crate) proof fn lemma_tag_at(s: Seq<u8>, p: int, t: Seq<u8>)
    requires
        0 <= p,
        p + t.len() <= s.len(),
        s.subrange(p, p + t.len()) == t,
    ensures
        spec_tag(s, p, t) == Ok::<int, ParseError>(p + t.len()),
{
}

proof fn lemma_tag_mismatch(s: Seq<u8>, p: int, t: Seq<u8>, d: int)
    requires
        0 <= p,
        0 <= d < t.len(),
        p + d < s.len(),
        s[p + d] != t[d],
    ensures
        spec_tag(s, p, t) == Err::<int, ParseError>(ParseError::Invalid),
{
    if p + t.len() <= s.len() {
        assert(s.subrange(p, p + t.len())[d] != t[d]);
    } else {
        assert(s.subrange(p, s.len() as int)[d] != t.take(s.len() - p)[d]);
    }
}

/// `s` holds `a` at `p`.
pub open spec fn holds_at(s: Seq<u8>, p: int, a: Seq<u8>) -> bool {
    0 <= p && p + a.len() <= s.len() && s.subrange(p, p + a.len()) == a
}

pub(crate) proof fn lemma_holds_split(s: Seq<u8>, p: int, a: Seq<u8>, b: Seq<u8>)
    requires
        holds_at(s, p, a + b),
    ensures
        holds_at(s, p, a),
        holds_at(s, p + a.len(), b),
        forall|j: int| 0 <= j < a.len() ==> s[p + j] == #[trigger] a[j],
        forall|j: int| 0 <= j < b.len() ==> s[p + a.len() + j] == #[trigger] b[j],
{
    assert(s.subrange(p, p + a.len()) =~= (a + b).subrange(0, a.len() as int));
    assert((a + b).subrange(0, a.len() as int) =~= a);
    assert(s.subrange(p + a.len(), p + a.len() + b.len()) =~= (a + b).subrange(
        a.len() as int,
        (a + b).len() as int,
    ));
    assert((a + b).subrange(a.len() as int, (a + b).len() as int) =~= b);
    assert forall|j: int| 0 <= j < a.len() implies s[p + j] == #[trigger] a[j] by {
        assert(s.subrange(p, p + a.len())[j] == s[p + j]);
    }
    assert forall|j: int| 0 <= j < b.len() implies s[p + a.len() + j] == #[trigger] b[j] by {
        assert(s.subrange(p + a.len(), p + a.len() + b.len())[j] == s[p + a.len() + j]);
    }
}

pub(crate) proof fn lemma_header_line(s: Seq<u8>, p: int, x: (Seq<u8>, Seq<u8>))
    requires
        field_ok(x),
        holds_at(s, p, field_line(x.0, x.1)),
    ensures
        spec_header(s, p) == Ok::<HeaderSpans, ParseError>(
            HeaderSpans {
                name_start: p,
                name_end: p + x.0.len(),
                value_start: p + x.0.len() + 2,
                value_end: p + x.0.len() + 2 + x.1.len(),
                end: p + field_line(x.0, x.1).len(),
            },
        ),
{
    let n = x.0;
    let v = x.1;
    assert(field_line(n, v) == n + (field_separator() + v + crlf_bytes())) by {
        assert(field_line(n, v) =~= n + (field_separator() + v + crlf_bytes()));
    }
    lemma_holds_split(s, p, n, field_separator() + v + crlf_bytes());
    let q = p + n.len();
    assert(field_separator() + v + crlf_bytes() =~= field_separator() + (v + crlf_bytes()));
    lemma_holds_split(s, q, field_separator(), v + crlf_bytes());
    lemma_holds_split(s, q + 2, v, crlf_bytes());
    assert(s[q] == field_separator()[0]);
    assert forall|j: int| p <= j < q implies in_class(ByteClass::Token, #[trigger] s[j]) by {
        assert(s[p + (j - p)] == n[j - p]);
    }
    lemma_take_while_run(ByteClass::Token, s, p, q);
    assert(field_separator() =~= colon_bytes() + space_bytes());
    lemma_holds_split(s, q, colon_bytes(), space_bytes());
    lemma_tag_at(s, q, colon_bytes());
    lemma_tag_at(s, q + 1, space_bytes());
    let v1 = q + 2 + v.len();
    assert(s[v1] == crlf_bytes()[0]);
    assert forall|j: int| q + 2 <= j < v1 implies in_class(ByteClass::HeaderValue, #[trigger] s[j]) by {
        assert(s[q + 2 + (j - q - 2)] == v[j - q - 2]);
    }
    lemma_take_while_run(ByteClass::HeaderValue, s, q + 2, v1);
    lemma_tag_at(s, v1, crlf_bytes());
}

pub(crate) proof fn lemma_headers_parse(s: Seq<u8>, p: int, g: Seq<(Seq<u8>, Seq<u8>)>)
    requires
        forall|i: int| 0 <= i < g.len() ==> field_ok(#[trigger] g[i]),
        holds_at(s, p, lines(g) + crlf_bytes()),
    ensures
        spec_headers(s, p) matches Ok((hs, e)) && e == p + lines(g).len() + 2 && header_fields(
            s,
            hs,
        ) == g,
    decreases g.len(),
{
    if g.len() == 0 {
        assert(lines(g) + crlf_bytes() =~= crlf_bytes());
        assert(s[p] == crlf_bytes()[0]);
        assert(!in_class(ByteClass::Token, s[p]));
        lemma_take_while_run(ByteClass::Token, s, p, p);
        lemma_tag_mismatch(s, p, colon_bytes(), 0);
        lemma_tag_at(s, p, crlf_bytes());
        assert(header_fields(s, Seq::<HeaderSpans>::empty()) =~= g);
    } else {
        let x = g[0];
        let rest = g.drop_first();
        lemma_lines_front(g);
        let line = field_line(x.0, x.1);
        assert(lines(g) + crlf_bytes() =~= line + (lines(rest) + crlf_bytes()));
        lemma_holds_split(s, p, line, lines(rest) + crlf_bytes());
        assert(field_ok(g[0]));
        lemma_header_line(s, p, x);
        assert forall|i: int| 0 <= i < rest.len() implies field_ok(#[trigger] rest[i]) by {
            assert(rest[i] == g[i + 1]);
        }
        let q = p + line.len();
        assert(line.len() >= 4);
        lemma_headers_parse(s, q, rest);
        let h = spec_header(s, p)->Ok_0;
        let (hs, e) = spec_headers(s, q)->Ok_0;
        assert(spec_headers(s, p) == Ok::<(Seq<HeaderSpans>, int), ParseError>((seq![h] + hs, e)));
        assert(line =~= x.0 + (field_separator() + x.1 + crlf_bytes()));
        lemma_holds_split(s, p, x.0, field_separator() + x.1 + crlf_bytes());
        lemma_holds_split(s, p + x.0.len(), field_separator() + x.1, crlf_bytes());
        lemma_holds_split(s, p + x.0.len(), field_separator(), x.1);
        assert(s.subrange(h.name_start, h.name_end) == x.0);
        assert(s.subrange(h.value_start, h.value_end) == x.1);
        assert(header_fields(s, seq![h] + hs) =~= seq![x] + header_fields(s, hs)) by {
            let l = header_fields(s, seq![h] + hs);
            let r = seq![x] + header_fields(s, hs);
            assert(l.len() == r.len());
            assert forall|i: int| 0 <= i < l.len() implies l[i] == r[i] by {
                if i == 0 {
                    assert((seq![h] + hs)[0] == h);
                } else {
                    assert((seq![h] + hs)[i] == hs[i - 1]);
                }
            }
        }
        assert(seq![x] + rest =~= g);
    }
}

// ---------------------------------------------------------------------------
// The request line
// ---------------------------------------------------------------------------
proof fn lemma_alt_picks(s: Seq<u8>, p: int, names: Seq<Seq<u8>>, i: int, k: int)
    requires
        0 <= i <= k < names.len(),
        forall|j: int| i <= j < k ==> spec_tag(s, p, #[trigger] names[j]) == Err::<int, ParseError>(ParseError::Invalid),
        spec_tag(s, p, names[k]) is Ok,
    ensures
        spec_alt_tags(s, p, names, i) == spec_tag(s, p, names[k]),
    decreases k - i,
{
    if i < k {
        lemma_alt_picks(s, p, names, i + 1, k);
    }
}

/// The position at which two different method names first differ.
spec fn method_split(j: int, k: int) -> int {
    if method_names()[j][0] != method_names()[k][0] {
        0
    } else {
        1
    }
}

proof fn lemma_method_names_differ(j: int, k: int)
    requires
        0 <= j < 9,
        0 <= k < 9,
        j != k,
    ensures
        method_split(j, k) < method_names()[j].len(),
        method_split(j, k) < method_names()[k].len(),
        method_names()[j][method_split(j, k)] != method_names()[k][method_split(j, k)],
{
    let m = method_names();
    assert(m[0] == seq![0x43u8, 0x4Fu8, 0x4Eu8, 0x4Eu8, 0x45u8, 0x43u8, 0x54u8]);
    assert(m[1] == seq![0x44u8, 0x45u8, 0x4Cu8, 0x45u8, 0x54u8, 0x45u8]);
    assert(m[2] == seq![0x47u8, 0x45u8, 0x54u8]);
    assert(m[3] == seq![0x48u8, 0x45u8, 0x41u8, 0x44u8]);
    assert(m[4] == seq![0x4Fu8, 0x50u8, 0x54u8, 0x49u8, 0x4Fu8, 0x4Eu8, 0x53u8]);
    assert(m[5] == seq![0x50u8, 0x41u8, 0x54u8, 0x43u8, 0x48u8]);
    assert(m[6] == seq![0x50u8, 0x4Fu8, 0x53u8, 0x54u8]);
    assert(m[7] == seq![0x50u8, 0x55u8, 0x54u8]);
    assert(m[8] == seq![0x54u8, 0x52u8, 0x41u8, 0x43u8, 0x45u8]);
}

pub(crate) proof fn lemma_method_parses(s: Seq<u8>, k: int)
    requires
        0 <= k < 9,
        holds_at(s, 0, method_names()[k]),
        method_names()[k].len() < s.len(),
    ensures
        spec_http_method(s, 0) == Ok::<int, ParseError>(method_names()[k].len() as int),
{
    let m = method_names();
    assert(m.len() == 9);
    assert forall|j: int| 0 <= j < k implies spec_tag(s, 0, #[trigger] m[j]) == Err::<int, ParseError>(ParseError::Invalid) by {
        lemma_method_names_differ(j, k);
        let d = method_split(j, k);
        assert(s.subrange(0, m[k].len() as int)[d] == s[d]);
        lemma_tag_mismatch(s, 0, m[j], d);
    }
    lemma_tag_at(s, 0, m[k]);
    lemma_alt_picks(s, 0, m, 0, k);
}

pub(crate) proof fn lemma_ascii_valid(b: Seq<u8>)
    requires
        forall|i: int| 0 <= i < b.len() ==> #[trigger] b[i] < 0x80,
    ensures
        valid_utf8(b),
{
    assert(partial_valid_utf8(b, 0)) by {
        assert(b.subrange(0, 0) =~= Seq::<u8>::empty());
    }
    assert forall|i: int| 0 <= 0 <= i < b.len() <= b.len() implies #[trigger] is_leading_byte_width_1(b[i]) by {}
    partial_valid_utf8_extend_ascii_block(b, 0, b.len() as int);
    assert(b.subrange(0, b.len() as int) =~= b);
}

/// Whether a request can be written and read back: a method the reader
/// knows, a non-empty target without spaces that does not begin with a tab
/// and is a URI, the version HTTP/1.1 or HTTP/2, field names in normal form
/// (as a header map holds them) and text values, a body without NUL bytes.
pub open spec fn readable_request(r: SpecRequest) -> bool {
    &&& method_names().contains(r.method)
    &&& r.target.len() >= 1
    &&& r.target[0] != 0x09
    &&& forall|i: int| 0 <= i < r.target.len() ==> #[trigger] r.target[i] != 0x20
    &&& uri_parses(r.target)
    &&& valid_utf8(r.target)
    &&& (r.version == HttpVersion::Http11 || r.version == HttpVersion::H2)
    &&& forall|i: int| 0 <= i < r.headers.len() ==> is_normal_name(#[trigger] r.headers[i].0)
    &&& values_writable(r.headers, true)
    &&& forall|i: int| 0 <= i < r.body.len() ==> #[trigger] r.body[i] != 0
    &&& valid_utf8(r.body)
    &&& r.body.len() <= usize::MAX
}


pub(crate) proof fn lemma_holds_join(s: Seq<u8>, p: int, a: Seq<u8>, b: Seq<u8>)
    requires
        holds_at(s, p, a),
        holds_at(s, p + a.len(), b),
    ensures
        holds_at(s, p, a + b),
{
    assert forall|j: int| 0 <= j < (a + b).len() implies s.subrange(p, p + (a + b).len())[j] == (a
        + b)[j] by {
        if j < a.len() {
            assert(s.subrange(p, p + a.len())[j] == s[p + j]);
        } else {
            assert(s.subrange(p + a.len(), p + a.len() + b.len())[j - a.len()] == s[p + j]);
        }
    }
    assert(s.subrange(p, p + (a + b).len()) =~= a + b);
}

pub(crate) proof fn lemma_method_ascii(k: int)
    requires
        0 <= k < 9,
    ensures
        forall|i: int| 0 <= i < method_names()[k].len() ==> #[trigger] method_names()[k][i] < 0x80,
        method_names()[k].len() >= 3,
        method_names()[k][0] != 0x20,
{
    lemma_method_names_differ(k, if k == 0 { 1 } else { 0 });
}

/// The request line that the proxy writes.
pub open spec fn request_line_bytes(r: SpecRequest) -> Seq<u8> {
    r.method + space_bytes() + r.target + space_bytes() + version_text(r.version) + crlf_bytes()
}

pub(crate) proof fn lemma_version_text(v: HttpVersion)
    requires
        v == HttpVersion::Http11 || v == HttpVersion::H2,
    ensures
        version_text(v) == http_bytes() + slash_bytes() + version_text(v).subrange(5, 8),
        forall|i: int| 0 <= i < 8 ==> #[trigger] version_text(v)[i] < 0x80,
        version_text(v).len() == 8,
        version_text(v)[0] == 0x48,
        request_version(version_text(v).subrange(5, 8)) == v,
{
    let t = version_text(v);
    assert(t =~= http_bytes() + slash_bytes() + t.subrange(5, 8));
    if v == HttpVersion::H2 {
        assert(t.subrange(5, 8) =~= crate::request::version_2_0());
    } else {
        assert(t.subrange(5, 8)[0] != crate::request::version_2_0()[0]);
    }
}

pub(crate) proof fn lemma_request_line(s: Seq<u8>, r: SpecRequest, strict: bool)
    requires
        readable_request(r),
        holds_at(s, 0, request_line_bytes(r)),
    ensures
        spec_request_line(s, 0, strict) == Ok::<RequestLineSpans, ParseError>(
            RequestLineSpans {
                method_end: r.method.len() as int,
                target_start: r.method.len() + 1int,
                target_end: r.method.len() + 1int + r.target.len(),
                version_start: r.method.len() + 1int + r.target.len() + 6,
                version_end: r.method.len() + 1int + r.target.len() + 9,
                end: r.method.len() + 1int + r.target.len() + 11,
            },
        ),
        s.subrange(0, r.method.len() as int) == r.method,
        s.subrange(r.method.len() + 1int, r.method.len() + 1int + r.target.len()) == r.target,
        request_version(
            s.subrange(r.method.len() + 1int + r.target.len() + 6, r.method.len() + 1int + r.target.len() + 9),
        ) == r.version,
{
    let m = r.method;
    let t = r.target;
    let vt = version_text(r.version);
    let sp = space_bytes();
    lemma_holds_split(s, 0, m + sp + t + sp + vt, crlf_bytes());
    lemma_holds_split(s, 0, m + sp + t + sp, vt);
    lemma_holds_split(s, 0, m + sp + t, sp);
    lemma_holds_split(s, 0, m + sp, t);
    lemma_holds_split(s, 0, m, sp);
    let k = choose|k: int| 0 <= k < method_names().len() && method_names()[k] == m;
    lemma_method_ascii(k);
    lemma_method_parses(s, k);
    let m1 = m.len() as int;
    let t1 = m1 + 1 + t.len();
    // the gap after the method
    assert(s[m1 + 1 + 0] == t[0]);
    assert(s[0int + m.len() + 0] == sp[0]);
    if strict {
        lemma_tag_at(s, m1, sp);
    } else {
        lemma_take_while_run(ByteClass::Space, s, m1, m1 + 1);
    }
    // the target
    assert forall|j: int| m1 + 1 <= j < t1 implies in_class(ByteClass::NotSpace, #[trigger] s[j]) by {
        assert(s[m1 + 1 + (j - m1 - 1)] == t[j - m1 - 1]);
    }
    assert(s[m1 + 1 + t.len() + 0] == sp[0]);
    lemma_class_end_run(ByteClass::NotSpace, s, m1 + 1, t1);
    // the gap after the target
    lemma_version_text(r.version);
    assert(s[t1 + 1 + 0] == vt[0]);
    assert(s[t1 + 0] == sp[0]);
    if strict {
        lemma_tag_at(s, t1, sp);
    } else {
        lemma_take_while_run(ByteClass::Space, s, t1, t1 + 1);
    }
    // HTTP/ and the version
    let ver = vt.subrange(5, 8);
    lemma_holds_split(s, t1 + 1, http_bytes() + slash_bytes(), ver);
    lemma_holds_split(s, t1 + 1, http_bytes(), slash_bytes());
    lemma_tag_at(s, t1 + 1, http_bytes());
    lemma_tag_at(s, t1 + 5, slash_bytes());
    assert forall|i: int| 0 <= i < ver.len() implies #[trigger] ver[i] < 0x80 by {
        assert(ver[i] == vt[i + 5]);
    }
    lemma_ascii_valid(ver);
    lemma_tag_at(s, t1 + 9, crlf_bytes());
}

pub(crate) proof fn lemma_lines_ascii(g: Seq<(Seq<u8>, Seq<u8>)>)
    requires
        forall|i: int| 0 <= i < g.len() ==> field_ok(#[trigger] g[i]),
    ensures
        forall|i: int| 0 <= i < lines(g).len() ==> #[trigger] lines(g)[i] < 0x80,
    decreases g.len(),
{
    if g.len() > 0 {
        let d = g.drop_last();
        assert forall|i: int| 0 <= i < d.len() implies field_ok(#[trigger] d[i]) by {
            assert(d[i] == g[i]);
        }
        lemma_lines_ascii(d);
        let x = g.last();
        assert(field_ok(g[g.len() - 1]));
        let a = lines(d);
        let l = field_line(x.0, x.1);
        assert(lines(g) == a + l);
        assert forall|i: int| 0 <= i < lines(g).len() implies #[trigger] lines(g)[i] < 0x80 by {
            if i < a.len() {
                assert(lines(g)[i] == a[i]);
            } else {
                let j = i - a.len();
                assert(lines(g)[i] == l[j]);
                assert(l == x.0 + (field_separator() + x.1 + crlf_bytes()));
                if j < x.0.len() {
                    assert(l[j] == x.0[j]);
                    assert(spec_is_token_char(x.0[j]));
                } else if j < x.0.len() + 2 {
                    assert(l[j] == field_separator()[j - x.0.len()]);
                } else if j < x.0.len() + 2 + x.1.len() {
                    assert(l[j] == x.1[j - x.0.len() - 2]);
                } else {
                    assert(l[j] == crlf_bytes()[j - x.0.len() - 2 - x.1.len()]);
                }
            }
        }
    }
}

proof fn lemma_forwarded_length(f: Seq<(Seq<u8>, Seq<u8>)>, n: nat)
    requires
        forall|i: int| 0 <= i < f.len() ==> is_normal_name(#[trigger] f[i].0),
        n <= usize::MAX,
    ensures
        spec_content_length(written_fields(f, n, true)) matches Some(c) && (c == n || c == 0),
    decreases f.len(),
{
    if f.len() > 0 {
        let d = f.drop_last();
        assert forall|i: int| 0 <= i < d.len() implies is_normal_name(#[trigger] d[i].0) by {
            assert(d[i] == f[i]);
        }
        lemma_forwarded_length(d, n);
        let a = written_fields(d, n, true);
        let x = f.last();
        assert(is_normal_name(f[f.len() - 1].0));
        assert(lower_seq(x.0) == x.0);
        let piece = written_field(x, n, true);
        let g = written_fields(f, n, true);
        if piece.len() == 0 {
            assert(g =~= a);
        } else {
            assert(g.drop_last() =~= a);
            assert(g.last() == piece[0]);
            if is_content_length(piece[0].0) {
                assert(x.0 == content_length_name());
                assert(piece[0].1 == decimal_digits(n));
                lemma_parse_decimal_roundtrip(n as usize);
            }
        }
    }
}

proof fn lemma_request_utf8(r: SpecRequest, pad: Seq<u8>)
    requires
        readable_request(r),
        valid_utf8(pad),
    ensures
        valid_utf8(spec_request_bytes(r) + pad),
{
    let n = r.body.len();
    let g = written_fields(r.headers, n, true);
    let line = request_line_bytes(r);
    let fb = fields_bytes(r.headers, n, true);
    lemma_fields_bytes_are_lines(r.headers, n, true);
    lemma_written_ok(r.headers, n, true);
    assert forall|i: int| 0 <= i < g.len() implies field_ok(#[trigger] g[i]) by {}
    let k = choose|k: int| 0 <= k < method_names().len() && method_names()[k] == r.method;
    lemma_method_ascii(k);
    lemma_ascii_valid(r.method);
    lemma_ascii_valid(space_bytes());
    lemma_ascii_valid(crlf_bytes());
    lemma_version_text(r.version);
    lemma_ascii_valid(version_text(r.version));
    lemma_lines_ascii(g);
    lemma_ascii_valid(fb);
    valid_utf8_concat(r.method, space_bytes());
    valid_utf8_concat(r.method + space_bytes(), r.target);
    valid_utf8_concat(r.method + space_bytes() + r.target, space_bytes());
    valid_utf8_concat(r.method + space_bytes() + r.target + space_bytes(), version_text(r.version));
    valid_utf8_concat(
        r.method + space_bytes() + r.target + space_bytes() + version_text(r.version),
        crlf_bytes(),
    );
    valid_utf8_concat(line, fb);
    valid_utf8_concat(line + fb, crlf_bytes());
    valid_utf8_concat(line + fb + crlf_bytes(), r.body);
    valid_utf8_concat(spec_request_bytes(r), pad);
    assert(spec_request_bytes(r) == line + fb + crlf_bytes() + r.body);
}

proof fn lemma_request_fields_parse(s: Seq<u8>, r: SpecRequest)
    requires
        readable_request(r),
        holds_at(
            s,
            request_line_bytes(r).len() as int,
            fields_bytes(r.headers, r.body.len(), true) + crlf_bytes(),
        ),
    ensures
        spec_headers(s, request_line_bytes(r).len() as int) matches Ok((hs, p2)) && p2
            == request_line_bytes(r).len() + fields_bytes(r.headers, r.body.len(), true).len() + 2
            && header_fields(s, hs) == written_fields(r.headers, r.body.len(), true),
        names_valid(written_fields(r.headers, r.body.len(), true)),
        spec_content_length(written_fields(r.headers, r.body.len(), true)) matches Some(c) && (c
            == r.body.len() || c == 0),
{
    let n = r.body.len();
    let g = written_fields(r.headers, n, true);
    lemma_fields_bytes_are_lines(r.headers, n, true);
    lemma_written_ok(r.headers, n, true);
    assert forall|i: int| 0 <= i < g.len() implies field_ok(#[trigger] g[i]) by {}
    lemma_headers_parse(s, request_line_bytes(r).len() as int, g);
    assert forall|i: int| 0 <= i < g.len() implies (#[trigger] spec_header_name(g[i].0)) is Some by {}
    lemma_forwarded_length(r.headers, n);
}

proof fn lemma_body_run(s: Seq<u8>, p: int, body: Seq<u8>)
    requires
        holds_at(s, p, body),
        p + body.len() < s.len(),
        s[p + body.len()] == 0,
        forall|i: int| 0 <= i < body.len() ==> #[trigger] body[i] != 0,
    ensures
        spec_take_while(ByteClass::Body, s, p) == Ok::<int, ParseError>(p + body.len()),
        s.subrange(p, p + body.len()) == body,
{
    assert forall|j: int| p <= j < p + body.len() implies in_class(ByteClass::Body, #[trigger] s[j]) by {
        assert(s.subrange(p, p + body.len())[j - p] == s[j]);
    }
    lemma_take_while_run(ByteClass::Body, s, p, p + body.len());
}

proof fn lemma_parse_assembles(
    s: Seq<u8>,
    l: RequestLineSpans,
    hs: Seq<HeaderSpans>,
    p2: int,
    cl: usize,
    q: SpecRequest,
)
    requires
        valid_utf8(s),
        spec_request_line(s, 0, false) == Ok::<RequestLineSpans, ParseError>(l),
        spec_headers(s, l.end) == Ok::<(Seq<HeaderSpans>, int), ParseError>((hs, p2)),
        header_fields(s, hs) == q.headers,
        spec_content_length(q.headers) == Some(cl),
        spec_body_plan(s, p2, cl) == Ok::<(Seq<u8>, int), RequestError>((q.body, 0)),
        s.subrange(l.target_start, l.target_end) == q.target,
        uri_parses(q.target),
        names_valid(q.headers),
        s.subrange(0, l.method_end) == q.method,
        request_version(s.subrange(l.version_start, l.version_end)) == q.version,
    ensures
        spec_parse_http_request(s) == Ok::<(SpecRequest, int), RequestError>((q, 0)),
{
}

proof fn lemma_layout_holds(r: SpecRequest, pad: Seq<u8>)
    requires
        pad.len() >= 1,
        pad[0] == 0,
    ensures
        ({
            let s = spec_request_bytes(r) + pad;
            let line = request_line_bytes(r);
            let fb = fields_bytes(r.headers, r.body.len(), true);
            &&& holds_at(s, 0, line)
            &&& holds_at(s, line.len() as int, fb + crlf_bytes())
            &&& holds_at(s, line.len() + fb.len() + 2int, r.body)
            &&& line.len() + fb.len() + 2 + r.body.len() < s.len()
            &&& s[line.len() + fb.len() + 2int + r.body.len()] == 0
        }),
{
    let n = r.body.len();
    let line = request_line_bytes(r);
    let fb = fields_bytes(r.headers, n, true);
    let w = spec_request_bytes(r);
    let s = w + pad;
    assert(w == line + fb + crlf_bytes() + r.body);
    assert(holds_at(s, 0, w)) by {
        assert(s.subrange(0, w.len() as int) =~= w);
    }
    lemma_holds_split(s, 0, line + fb + crlf_bytes(), r.body);
    lemma_holds_split(s, 0, line + fb, crlf_bytes());
    lemma_holds_split(s, 0, line, fb);
    lemma_holds_join(s, line.len() as int, fb, crlf_bytes());
    let p2: int = line.len() + fb.len() + 2int;
    assert(s[p2 + n] == pad[0]);
}

proof fn lemma_body_plan(s: Seq<u8>, p2: int, body: Seq<u8>, c: usize)
    requires
        holds_at(s, p2, body),
        p2 + body.len() < s.len(),
        s[p2 + body.len()] == 0,
        forall|i: int| 0 <= i < body.len() ==> #[trigger] body[i] != 0,
        c <= body.len(),
    ensures
        spec_body_plan(s, p2, c) == Ok::<(Seq<u8>, int), RequestError>((body, 0)),
{
    lemma_body_run(s, p2, body);
}

/// The spans of the request line that the proxy writes.
pub open spec fn written_line_spans(r: SpecRequest) -> RequestLineSpans {
    let m = r.method.len() as int;
    let t = r.target.len() as int;
    RequestLineSpans {
        method_end: m,
        target_start: m + 1,
        target_end: m + 1 + t,
        version_start: m + 1 + t + 6,
        version_end: m + 1 + t + 9,
        end: m + 1 + t + 11,
    }
}

proof fn lemma_written_line(r: SpecRequest, pad: Seq<u8>)
    requires
        readable_request(r),
        pad.len() >= 1,
        pad[0] == 0,
    ensures
        ({
            let s = spec_request_bytes(r) + pad;
            let l = written_line_spans(r);
            &&& spec_request_line(s, 0, false) == Ok::<RequestLineSpans, ParseError>(l)
            &&& s.subrange(0, l.method_end) == r.method
            &&& s.subrange(l.target_start, l.target_end) == r.target
            &&& request_version(s.subrange(l.version_start, l.version_end)) == r.version
        }),
{
    lemma_layout_holds(r, pad);
    lemma_request_line(spec_request_bytes(r) + pad, r, false);
}

pub(crate) proof fn lemma_line_length(r: SpecRequest)
    requires
        readable_request(r),
    ensures
        request_line_bytes(r).len() == written_line_spans(r).end,
{
    lemma_version_text(r.version);
}

proof fn lemma_written_fields(r: SpecRequest, pad: Seq<u8>)
    requires
        readable_request(r),
        pad.len() >= 1,
        pad[0] == 0,
    ensures
        ({
            let s = spec_request_bytes(r) + pad;
            let g = written_fields(r.headers, r.body.len(), true);
            let p2 = request_line_bytes(r).len() + fields_bytes(r.headers, r.body.len(), true).len()
                + 2int;
            &&& spec_headers(s, written_line_spans(r).end) matches Ok((hs, q2)) && q2 == p2
                && header_fields(s, hs) == g
            &&& names_valid(g)
            &&& spec_content_length(g) matches Some(c) && (c == r.body.len() || c == 0)
        }),
{
    lemma_layout_holds(r, pad);
    lemma_line_length(r);
    lemma_request_fields_parse(spec_request_bytes(r) + pad, r);
}

proof fn lemma_written_body(r: SpecRequest, pad: Seq<u8>, c: usize)
    requires
        readable_request(r),
        pad.len() >= 1,
        pad[0] == 0,
        c <= r.body.len(),
    ensures
        spec_body_plan(
            spec_request_bytes(r) + pad,
            request_line_bytes(r).len() + fields_bytes(r.headers, r.body.len(), true).len() + 2int,
            c,
        ) == Ok::<(Seq<u8>, int), RequestError>((r.body, 0)),
{
    lemma_layout_holds(r, pad);
    lemma_body_plan(
        spec_request_bytes(r) + pad,
        request_line_bytes(r).len() + fields_bytes(r.headers, r.body.len(), true).len() + 2int,
        r.body,
        c,
    );
}

/// Law: a request that the proxy writes reads back, from a zero-padded
/// buffer, as the same method, target, version and body, with the fields
/// that forwarding keeps (`content-length` set to the body's length,
/// `user-agent` dropped) and nothing left to read.
pub proof fn law_forwarded_request_reads_back(r: SpecRequest, pad: Seq<u8>)
    requires
        readable_request(r),
        pad.len() >= 1,
        pad[0] == 0,
        valid_utf8(pad),
    ensures
        spec_parse_http_request(spec_request_bytes(r) + pad) == Ok::<(SpecRequest, int), RequestError>(
            (SpecRequest { headers: written_fields(r.headers, r.body.len(), true), ..r }, 0),
        ),
{
    let s = spec_request_bytes(r) + pad;
    let g = written_fields(r.headers, r.body.len(), true);
    let l = written_line_spans(r);
    lemma_written_line(r, pad);
    lemma_written_fields(r, pad);
    lemma_request_utf8(r, pad);
    let (hs, p2) = spec_headers(s, l.end)->Ok_0;
    let c = spec_content_length(g)->0;
    lemma_written_body(r, pad, c);
    lemma_parse_assembles(s, l, hs, p2, c, SpecRequest { headers: g, ..r });
}

pub(crate) proof fn lemma_request_line_utf8(r: SpecRequest)
    requires
        readable_request(r),
    ensures
        valid_utf8(request_line_bytes(r)),
{
    let k = choose|k: int| 0 <= k < method_names().len() && method_names()[k] == r.method;
    lemma_method_ascii(k);
    lemma_ascii_valid(r.method);
    lemma_ascii_valid(space_bytes());
    lemma_ascii_valid(crlf_bytes());
    lemma_version_text(r.version);
    lemma_ascii_valid(version_text(r.version));
    valid_utf8_concat(r.method, space_bytes());
    valid_utf8_concat(r.method + space_bytes(), r.target);
    valid_utf8_concat(r.method + space_bytes() + r.target, space_bytes());
    valid_utf8_concat(r.method + space_bytes() + r.target + space_bytes(), version_text(r.version));
    valid_utf8_concat(
        r.method + space_bytes() + r.target + space_bytes() + version_text(r.version),
        crlf_bytes(),
    );
}

} // verus!
