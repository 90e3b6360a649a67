//! What the response reader of this library gets back, line by line, from
//! the bytes that the proxy writes for a response.

use vstd::prelude::*;
use vstd::seq_lib::lemma_flatten_alt_concat;
use crate::combinators::{spec_is_header_value_char, spec_is_token_char};
use crate::grammar::{
    crlf_bytes, http_bytes, in_class, slash_bytes, space_bytes, spec_http_version,
    spec_response_line, spec_tag, spec_take_while, ByteClass, ParseError, StatusLineSpans,
};
use crate::headers::{is_normal_name, spec_header_name};
use crate::message::{version_text, HttpVersion, SpecResponse};
use crate::request::content_length_name;
use crate::response::{
    initial_head, is_end_of_head, response_version, spec_finish_response, spec_header_line_step,
    spec_status_code, spec_status_line_step, ResponseError, SpecResponseHead,
};
use crate::roundtrip::{
    field_ok, holds_at, lemma_ascii_valid, lemma_fields_bytes_are_lines, lemma_header_line,
    lemma_holds_split, lemma_tag_at, lemma_take_while_run, lemma_written_ok, lines,
    written_field, written_fields,
};
use crate::text::{all_digits, decimal_digits, decimal_value, lemma_parse_decimal_roundtrip, lower_seq};
use crate::wire::{
    field_line, field_separator, reason_or_empty, spec_response_bytes, status_digits,
    values_writable,
};

verus! {

// ---------------------------------------------------------------------------
// Returned responses, read line by line
// ---------------------------------------------------------------------------
/// The status line that the proxy writes for a response.
pub open spec fn status_line_bytes(r: SpecResponse) -> Seq<u8> {
    version_text(r.version) + space_bytes() + status_digits(r.status) + space_bytes()
        + reason_or_empty(r.status) + crlf_bytes()
}

/// Each field of `g` as a line of its own.
pub open spec fn field_line_list(g: Seq<(Seq<u8>, Seq<u8>)>) -> Seq<Seq<u8>> {
    g.map_values(|x: (Seq<u8>, Seq<u8>)| field_line(x.0, x.1))
}

/// The lines of the head of a returned response, as a line reader hands
/// them over: the status line, one line per field, the blank line.
pub open spec fn response_head_lines(r: SpecResponse) -> Seq<Seq<u8>> {
    seq![status_line_bytes(r)] + field_line_list(written_fields(r.headers, r.body.len(), false))
        + seq![crlf_bytes()]
}

/// Reading header lines into `head`, one step per line, until the blank
/// line; running out of lines is reading an empty one.
pub open spec fn read_header_lines(head: SpecResponseHead, ls: Seq<Seq<u8>>) -> Result<
    SpecResponseHead,
    ResponseError,
>
    decreases ls.len(),
{
    if ls.len() == 0 {
        Err(ResponseError::HeaderLine(ParseError::Incomplete))
    } else {
        match spec_header_line_step(head, ls[0]) {
            Err(e) => Err(e),
            Ok((h, done)) => if done {
                Ok(h)
            } else {
                read_header_lines(h, ls.drop_first())
            },
        }
    }
}

/// Reading a response head from its lines: the status line, then header
/// lines up to the blank one.
pub open spec fn read_response_head(ls: Seq<Seq<u8>>) -> Result<SpecResponseHead, ResponseError> {
    if ls.len() == 0 {
        Err(ResponseError::StatusLine(ParseError::Incomplete))
    } else {
        match spec_status_line_step(initial_head(), ls[0]) {
            Err(e) => Err(e),
            Ok(h) => read_header_lines(h, ls.drop_first()),
        }
    }
}

/// Whether some field of `f` is `content-length`.
pub open spec fn declares_length(f: Seq<(Seq<u8>, Seq<u8>)>) -> bool {
    exists|i: int| 0 <= i < f.len() && #[trigger] f[i].0 == content_length_name()
}

/// Whether a response can be written and read back: a status code of three
/// digits whose reason phrase, if any, is a single token (as the status
/// line grammar reads it), field names in normal form and text values.
pub open spec fn readable_response(r: SpecResponse) -> bool {
    &&& 100 <= r.status <= 999
    &&& forall|i: int|
        0 <= i < reason_or_empty(r.status).len() ==> spec_is_token_char(
            #[trigger] reason_or_empty(r.status)[i],
        )
    &&& forall|i: int| 0 <= i < r.headers.len() ==> is_normal_name(#[trigger] r.headers[i].0)
    &&& values_writable(r.headers, false)
    &&& r.body.len() <= usize::MAX
}

proof fn lemma_status_digits(code: u16)
    requires
        100 <= code <= 999,
    ensures
        spec_status_code(status_digits(code)) == Some(code),
        forall|i: int| 0 <= i < 3 ==> crate::combinators::spec_is_digit(#[trigger] status_digits(code)[i]),
{
    let a = code / 100;
    let b = (code / 10) % 10;
    let c = code % 10;
    assert(1 <= a <= 9);
    assert(100 * a + 10 * b + c == code) by (nonlinear_arith)
        requires
            a == code / 100,
            b == (code / 10) % 10,
            c == code % 10,
            100 <= code <= 999,
    {}
    let d = status_digits(code);
    assert(d[0] as int == 0x30 + a);
    assert(d[1] as int == 0x30 + b);
    assert(d[2] as int == 0x30 + c);
}

proof fn lemma_response_version(v: HttpVersion, current: HttpVersion)
    ensures
        response_version(version_text(v).subrange(5, 8), current) == v,
        version_text(v) == http_bytes() + slash_bytes() + version_text(v).subrange(5, 8),
        forall|i: int| 0 <= i < 8 ==> #[trigger] version_text(v)[i] < 0x80,
{
    let t = version_text(v);
    assert(t =~= http_bytes() + slash_bytes() + t.subrange(5, 8));
    match v {
        HttpVersion::Http09 => assert(t.subrange(5, 8) =~= seq![0x30u8, 0x2Eu8, 0x39u8]),
        HttpVersion::Http10 => assert(t.subrange(5, 8) =~= seq![0x31u8, 0x2Eu8, 0x30u8]),
        HttpVersion::Http11 => assert(t.subrange(5, 8) =~= seq![0x31u8, 0x2Eu8, 0x31u8]),
        HttpVersion::H2 => assert(t.subrange(5, 8) =~= seq![0x32u8, 0x2Eu8, 0x30u8]),
        HttpVersion::H3 => assert(t.subrange(5, 8) =~= seq![0x33u8, 0x2Eu8, 0x30u8]),
    }
}

proof fn lemma_status_line_version(r: SpecResponse)
    requires
        readable_response(r),
    ensures
        spec_tag(status_line_bytes(r), 0, http_bytes()) == Ok::<int, ParseError>(4),
        spec_tag(status_line_bytes(r), 4, slash_bytes()) == Ok::<int, ParseError>(5),
        spec_http_version(status_line_bytes(r), 5) == Ok::<int, ParseError>(8),
        status_line_bytes(r).subrange(5, 8) == version_text(r.version).subrange(5, 8),
{
    let s = status_line_bytes(r);
    let vt = version_text(r.version);
    assert(holds_at(s, 0, s)) by {
        assert(s.subrange(0, s.len() as int) =~= s);
    }
    let rest = space_bytes() + status_digits(r.status) + space_bytes() + reason_or_empty(r.status)
        + crlf_bytes();
    assert(s =~= vt + rest);
    lemma_holds_split(s, 0, vt, rest);
    lemma_response_version(r.version, HttpVersion::Http11);
    let ver = vt.subrange(5, 8);
    lemma_holds_split(s, 0, http_bytes() + slash_bytes(), ver);
    lemma_holds_split(s, 0, http_bytes(), slash_bytes());
    lemma_tag_at(s, 0, http_bytes());
    lemma_tag_at(s, 4, slash_bytes());
    assert forall|i: int| 0 <= i < ver.len() implies #[trigger] ver[i] < 0x80 by {
        assert(ver[i] == vt[i + 5]);
    }
    lemma_ascii_valid(ver);
}

proof fn lemma_status_line_code(r: SpecResponse)
    requires
        readable_response(r),
    ensures
        spec_take_while(ByteClass::Space, status_line_bytes(r), 8) == Ok::<int, ParseError>(9),
        spec_take_while(ByteClass::Digit, status_line_bytes(r), 9) == Ok::<int, ParseError>(12),
        spec_take_while(ByteClass::Space, status_line_bytes(r), 12) == Ok::<int, ParseError>(13),
        spec_take_while(ByteClass::Token, status_line_bytes(r), 13) == Ok::<int, ParseError>(
            13int + reason_or_empty(r.status).len(),
        ),
        spec_tag(status_line_bytes(r), 13int + reason_or_empty(r.status).len(), crlf_bytes()) == Ok::<
            int,
            ParseError,
        >(status_line_bytes(r).len() as int),
        status_line_bytes(r).subrange(9, 12) == status_digits(r.status),
{
    let s = status_line_bytes(r);
    let vt = version_text(r.version);
    let sp = space_bytes();
    let d = status_digits(r.status);
    let why = reason_or_empty(r.status);
    assert(holds_at(s, 0, s)) by {
        assert(s.subrange(0, s.len() as int) =~= s);
    }
    lemma_response_version(r.version, HttpVersion::Http11);
    lemma_status_digits(r.status);
    assert(s =~= vt + (sp + d + sp + why + crlf_bytes()));
    lemma_holds_split(s, 0, vt, sp + d + sp + why + crlf_bytes());
    let q = 8int;
    lemma_holds_split(s, q, sp + d + sp + why, crlf_bytes());
    lemma_holds_split(s, q, sp + d + sp, why);
    lemma_holds_split(s, q, sp + d, sp);
    lemma_holds_split(s, q, sp, d);
    assert(s[8int + 0] == sp[0]);
    assert(s[8int + 1 + 0] == d[0]);
    lemma_take_while_run(ByteClass::Space, s, 8, 9);
    assert forall|j: int| 9 <= j < 12 implies in_class(ByteClass::Digit, #[trigger] s[j]) by {
        assert(s[8 + 1 + (j - 9)] == d[j - 9]);
    }
    assert(s[8int + 4 + 0] == sp[0]);
    lemma_take_while_run(ByteClass::Digit, s, 9, 12);
    let t1: int = 13int + why.len();
    assert(s[8int + 5 + why.len() + 0] == crlf_bytes()[0]);
    if why.len() > 0 {
        assert(s[8int + 5 + 0] == why[0]);
    }
    lemma_take_while_run(ByteClass::Space, s, 12, 13);
    assert forall|j: int| 13 <= j < t1 implies in_class(ByteClass::Token, #[trigger] s[j]) by {
        assert(s[8 + 5 + (j - 13)] == why[j - 13]);
    }
    lemma_take_while_run(ByteClass::Token, s, 13, t1);
    lemma_tag_at(s, t1, crlf_bytes());
    assert(s.subrange(9, 12) =~= d) by {
        assert forall|j: int| 0 <= j < 3 implies s.subrange(9, 12)[j] == d[j] by {
            assert(s[8 + 1 + j] == d[j]);
        }
    }
}

proof fn lemma_status_line_parses(r: SpecResponse)
    requires
        readable_response(r),
    ensures
        spec_response_line(status_line_bytes(r), 0) == Ok::<StatusLineSpans, ParseError>(
            StatusLineSpans {
                version_start: 5,
                version_end: 8,
                status_start: 9,
                status_end: 12,
                end: status_line_bytes(r).len() as int,
            },
        ),
        status_line_bytes(r).subrange(9, 12) == status_digits(r.status),
        status_line_bytes(r).subrange(5, 8) == version_text(r.version).subrange(5, 8),
{
    lemma_status_line_version(r);
    lemma_status_line_code(r);
}

proof fn lemma_status_line(r: SpecResponse)
    requires
        readable_response(r),
    ensures
        spec_status_line_step(initial_head(), status_line_bytes(r)) == Ok::<SpecResponseHead, ResponseError>(
            SpecResponseHead { status: r.status, version: r.version, ..initial_head() },
        ),
{
    lemma_status_line_parses(r);
    lemma_status_digits(r.status);
    lemma_response_version(r.version, HttpVersion::Http11);
}

proof fn lemma_flatten_alt_one(a: Seq<u8>)
    ensures
        seq![a].flatten_alt() == a,
{
    assert(seq![a].drop_last() =~= Seq::<Seq<u8>>::empty());
    assert(Seq::<Seq<u8>>::empty().flatten_alt() == Seq::<u8>::empty());
    assert(seq![a].flatten_alt() == seq![a].drop_last().flatten_alt() + a);
    assert(seq![a].flatten_alt() =~= a);
}

proof fn lemma_flatten_field_lines(g: Seq<(Seq<u8>, Seq<u8>)>)
    ensures
        field_line_list(g).flatten_alt() == lines(g),
    decreases g.len(),
{
    if g.len() > 0 {
        lemma_flatten_field_lines(g.drop_last());
        assert(field_line_list(g).drop_last() =~= field_line_list(g.drop_last()));
    } else {
        assert(field_line_list(g) =~= Seq::<Seq<u8>>::empty());
    }
}

proof fn lemma_written_kept(f: Seq<(Seq<u8>, Seq<u8>)>, n: nat)
    ensures
        written_fields(f, n, false).len() == f.len(),
        forall|i: int|
            0 <= i < f.len() ==> (#[trigger] written_fields(f, n, false)[i]) == (if f[i].0
                == content_length_name() {
                (f[i].0, decimal_digits(n))
            } else {
                f[i]
            }),
    decreases f.len(),
{
    if f.len() > 0 {
        lemma_written_kept(f.drop_last(), n);
        let g = written_fields(f, n, false);
        let a = written_fields(f.drop_last(), n, false);
        assert(g == a + written_field(f.last(), n, false));
        assert forall|i: int| 0 <= i < f.len() implies (#[trigger] g[i]) == (if f[i].0
            == content_length_name() {
            (f[i].0, decimal_digits(n))
        } else {
            f[i]
        }) by {
            if i < f.len() - 1 {
                assert(g[i] == a[i]);
                assert(f.drop_last()[i] == f[i]);
            }
        }
    }
}

proof fn lemma_field_line_step(h: SpecResponseHead, x: (Seq<u8>, Seq<u8>), n: nat)
    requires
        field_ok(x),
        is_normal_name(x.0),
        x.0 == content_length_name() ==> x.1 == decimal_digits(n),
        n <= usize::MAX,
    ensures
        spec_header_line_step(h, field_line(x.0, x.1)) == Ok::<(SpecResponseHead, bool), ResponseError>(
            (
                SpecResponseHead {
                    headers: h.headers.push(x),
                    content_length: if x.0 == content_length_name() {
                        n as usize
                    } else {
                        h.content_length
                    },
                    ..h
                },
                false,
            ),
        ),
{
    let line = field_line(x.0, x.1);
    assert(line.len() >= 5);
    assert(!is_end_of_head(line));
    assert(holds_at(line, 0, line)) by {
        assert(line.subrange(0, line.len() as int) =~= line);
    }
    lemma_header_line(line, 0, x);
    assert(line =~= x.0 + (field_separator() + x.1 + crlf_bytes()));
    lemma_holds_split(line, 0, x.0, field_separator() + x.1 + crlf_bytes());
    lemma_holds_split(line, x.0.len() as int, field_separator() + x.1, crlf_bytes());
    lemma_holds_split(line, x.0.len() as int, field_separator(), x.1);
    assert(lower_seq(x.0) == x.0);
    if x.0 == content_length_name() {
        lemma_parse_decimal_roundtrip(n as usize);
    }
}

proof fn lemma_read_fields(h: SpecResponseHead, g: Seq<(Seq<u8>, Seq<u8>)>, n: nat)
    requires
        forall|i: int| 0 <= i < g.len() ==> field_ok(#[trigger] g[i]),
        forall|i: int| 0 <= i < g.len() ==> is_normal_name(#[trigger] g[i].0),
        forall|i: int|
            0 <= i < g.len() && #[trigger] g[i].0 == content_length_name() ==> g[i].1
                == decimal_digits(n),
        n <= usize::MAX,
    ensures
        read_header_lines(h, field_line_list(g) + seq![crlf_bytes()]) == Ok::<SpecResponseHead, ResponseError>(
            SpecResponseHead {
                headers: h.headers + g,
                content_length: if declares_length(g) {
                    n as usize
                } else {
                    h.content_length
                },
                ..h
            },
        ),
    decreases g.len(),
{
    let ls = field_line_list(g) + seq![crlf_bytes()];
    if g.len() == 0 {
        assert(ls[0] == crlf_bytes());
        assert(h.headers + g =~= h.headers);
    } else {
        let x = g[0];
        let rest = g.drop_first();
        assert(ls[0] == field_line(x.0, x.1));
        assert(field_ok(g[0]));
        assert(is_normal_name(g[0].0));
        lemma_field_line_step(h, x, n);
        let c = if x.0 == content_length_name() {
            n as usize
        } else {
            h.content_length
        };
        let h1 = SpecResponseHead { headers: h.headers.push(x), content_length: c, ..h };
        assert(ls.drop_first() =~= field_line_list(rest) + seq![crlf_bytes()]);
        assert forall|i: int| 0 <= i < rest.len() implies field_ok(#[trigger] rest[i]) && is_normal_name(rest[i].0) by {
            assert(rest[i] == g[i + 1]);
        }
        assert forall|i: int| 0 <= i < rest.len() && #[trigger] rest[i].0 == content_length_name() implies rest[i].1
            == decimal_digits(n) by {
            assert(rest[i] == g[i + 1]);
        }
        lemma_read_fields(h1, rest, n);
        assert(h.headers.push(x) + rest =~= h.headers + g);
        if declares_length(rest) {
            let i = choose|i: int| 0 <= i < rest.len() && #[trigger] rest[i].0 == content_length_name();
            assert(g[i + 1] == rest[i]);
        }
        if x.0 == content_length_name() {
            assert(g[0].0 == content_length_name());
        }
        if declares_length(g) {
            let i = choose|i: int| 0 <= i < g.len() && #[trigger] g[i].0 == content_length_name();
            if i > 0 {
                assert(rest[i - 1] == g[i]);
            }
        }
    }
}

/// Law: the head that the proxy writes for a response, read back line by
/// line by the response reader, gives the same status and version and the
/// fields as written (`content-length` set to the body's length); the
/// content length that the reader takes is the body's length when the
/// response has a `content-length` field, and 0 otherwise. The written
/// bytes are those lines followed by the body, and a head and body so read
/// make the response back.
pub proof fn law_returned_response_reads_back(r: SpecResponse)
    requires
        readable_response(r),
    ensures
        response_head_lines(r).flatten_alt() + r.body == spec_response_bytes(r),
        read_response_head(response_head_lines(r)) == Ok::<SpecResponseHead, ResponseError>(
            SpecResponseHead {
                status: r.status,
                version: r.version,
                headers: written_fields(r.headers, r.body.len(), false),
                content_length: if declares_length(r.headers) {
                    r.body.len() as usize
                } else {
                    0
                },
            },
        ),
        spec_finish_response(
            SpecResponseHead {
                status: r.status,
                version: r.version,
                headers: written_fields(r.headers, r.body.len(), false),
                content_length: r.body.len() as usize,
            },
            r.body,
        ) == Ok::<SpecResponse, ResponseError>(
            SpecResponse { headers: written_fields(r.headers, r.body.len(), false), ..r },
        ),
{
    let n = r.body.len();
    let g = written_fields(r.headers, n, false);
    let ls = response_head_lines(r);
    // the bytes
    lemma_fields_bytes_are_lines(r.headers, n, false);
    lemma_flatten_field_lines(g);
    lemma_flatten_alt_concat(seq![status_line_bytes(r)], field_line_list(g));
    lemma_flatten_alt_concat(seq![status_line_bytes(r)] + field_line_list(g), seq![crlf_bytes()]);
    lemma_flatten_alt_one(status_line_bytes(r));
    lemma_flatten_alt_one(crlf_bytes());
    assert(ls.flatten_alt() + r.body =~= spec_response_bytes(r));
    // the head
    lemma_status_line(r);
    lemma_written_ok(r.headers, n, false);
    lemma_written_kept(r.headers, n);
    assert forall|i: int| 0 <= i < g.len() implies field_ok(#[trigger] g[i]) && is_normal_name(g[i].0) by {}
    assert forall|i: int| 0 <= i < g.len() && #[trigger] g[i].0 == content_length_name() implies g[i].1
        == decimal_digits(n) by {}
    let h1 = SpecResponseHead { status: r.status, version: r.version, ..initial_head() };
    lemma_read_fields(h1, g, n);
    assert(ls.drop_first() =~= field_line_list(g) + seq![crlf_bytes()]);
    assert(h1.headers + g =~= g);
    if declares_length(r.headers) {
        let i = choose|i: int| 0 <= i < r.headers.len() && #[trigger] r.headers[i].0 == content_length_name();
        assert(g[i].0 == content_length_name());
    }
    if declares_length(g) {
        let i = choose|i: int| 0 <= i < g.len() && #[trigger] g[i].0 == content_length_name();
        assert(r.headers[i].0 == content_length_name());
    }
    // the names
    assert forall|i: int| 0 <= i < g.len() implies (#[trigger] spec_header_name(g[i].0)) is Some by {}
}

/// Law: a header line `name: value\r\n` (a name of token characters, in any
/// case, and a value of header value characters) appends exactly the field
/// (`name`, `value`) as the line holds them; a `content-length` field (in any
/// case) with a decimal value also sets the content length to that number.
pub proof fn law_header_line_appends_field(h: SpecResponseHead, name: Seq<u8>, value: Seq<u8>)
    requires
        name.len() >= 1,
        forall|k: int| 0 <= k < name.len() ==> spec_is_token_char(#[trigger] name[k]),
        forall|k: int| 0 <= k < value.len() ==> spec_is_header_value_char(#[trigger] value[k]),
    ensures
        ({
            let line = name + seq![0x3Au8, 0x20u8] + value + seq![13u8, 10u8];
            let cl = seq![
                0x63u8, 0x6Fu8, 0x6Eu8, 0x74u8, 0x65u8, 0x6Eu8, 0x74u8, 0x2Du8, 0x6Cu8, 0x65u8,
                0x6Eu8, 0x67u8, 0x74u8, 0x68u8,
            ];
            &&& lower_seq(name) != cl ==> spec_header_line_step(h, line) == Ok::<
                (SpecResponseHead, bool),
                ResponseError,
            >((SpecResponseHead { headers: h.headers.push((name, value)), ..h }, false))
            &&& (lower_seq(name) == cl && value.len() >= 1 && (forall|k: int|
                0 <= k < value.len() ==> 0x30 <= #[trigger] value[k] <= 0x39) && decimal_value(
                value,
            ) <= usize::MAX) ==> spec_header_line_step(h, line) == Ok::<
                (SpecResponseHead, bool),
                ResponseError,
            >(
                (
                    SpecResponseHead {
                        headers: h.headers.push((name, value)),
                        content_length: decimal_value(value) as usize,
                        ..h
                    },
                    false,
                ),
            )
        }),
{
    let line = name + seq![0x3Au8, 0x20u8] + value + seq![13u8, 10u8];
    let x = (name, value);
    assert(line =~= field_line(name, value));
    assert(field_ok(x));
    assert(line.len() >= 5);
    assert(!is_end_of_head(line));
    assert(holds_at(line, 0, line)) by {
        assert(line.subrange(0, line.len() as int) =~= line);
    }
    lemma_header_line(line, 0, x);
    assert(line =~= name + (field_separator() + value + crlf_bytes()));
    lemma_holds_split(line, 0, name, field_separator() + value + crlf_bytes());
    lemma_holds_split(line, name.len() as int, field_separator() + value, crlf_bytes());
    lemma_holds_split(line, name.len() as int, field_separator(), value);
    assert(content_length_name() =~= seq![
        0x63u8, 0x6Fu8, 0x6Eu8, 0x74u8, 0x65u8, 0x6Eu8, 0x74u8, 0x2Du8, 0x6Cu8, 0x65u8,
        0x6Eu8, 0x67u8, 0x74u8, 0x68u8,
    ]);
    if value.len() >= 1 && (forall|k: int| 0 <= k < value.len() ==> 0x30 <= #[trigger] value[k] <= 0x39) {
        assert(value[0] != 0x2B);
        assert(all_digits(value));
    }
}

} // verus!
