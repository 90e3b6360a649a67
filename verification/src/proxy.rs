//! The decisions of the proxy around the connections it opens: where a
//! request goes, and what the client is answered when the upstream server
//! cannot be reached or read.

use vstd::prelude::*;
use vstd::utf8::valid_utf8;
use crate::filters::host_name;
use crate::headers::{
    find_entry, header_map_entries, header_map_get, lemma_find_entry, lemma_lower_token_normal,
    map_get, map_insert, map_remove, opt_bytes_view,
};
use crate::message::{HttpResponse, HttpVersion, SpecResponse};

verus! {

/// Where a request is sent: the value of its `host` field, when there is
/// one and it is UTF-8.
pub open spec fn spec_upstream_address(e: Seq<(Seq<u8>, Seq<Seq<u8>>)>) -> Option<Seq<u8>> {
    match map_get(e, host_name()) {
        Some(v) => if valid_utf8(v) {
            Some(v)
        } else {
            None
        },
        None => None,
    }
}

/// The address of the upstream server that a request names in its `host`
/// field; `None` when the field is missing or not UTF-8, for which no
/// connection can be attempted.
pub fn upstream_address(headers: &http::header::HeaderMap) -> (r: Option<Vec<u8>>)
    ensures
        opt_bytes_view(r) == spec_upstream_address(header_map_entries(*headers)),
{
    let name: &[u8] = &[0x68u8, 0x6Fu8, 0x73u8, 0x74u8];
    assert(name@ =~= host_name());
    proof {
        lemma_lower_token_normal(name@);
    }
    match header_map_get(headers, name) {
        Some(v) => {
            if core::str::from_utf8(v.as_slice()).is_ok() {
                Some(v)
            } else {
                None
            }
        },
        None => None,
    }
}

/// A response with the status `status`, HTTP/1.1, no fields and no body,
/// as `Response::builder().status(status).body(Vec::new())` makes it.
pub open spec fn spec_empty_response(status: u16) -> SpecResponse {
    SpecResponse {
        status,
        version: HttpVersion::Http11,
        headers: Seq::empty(),
        body: Seq::empty(),
    }
}

/// An empty response with the status `status` (HTTP/1.1, no fields).
pub fn empty_response(status: u16) -> (r: HttpResponse)
    ensures
        r@ == spec_empty_response(status),
{
    let r = HttpResponse { status, version: HttpVersion::Http11, headers: Vec::new(), body: Vec::new() };
    assert(r@.headers =~= Seq::<(Seq<u8>, Seq<u8>)>::empty());
    r
}

/// What became of a request sent upstream.
#[derive(Debug)]
pub enum UpstreamOutcome {
    /// No connection to the upstream server could be opened.
    ConnectFailed,
    /// The request could not be written to the upstream server.
    WriteFailed,
    /// No response could be read back.
    ReadFailed,
    /// The upstream server answered.
    Received(HttpResponse),
}

/// The response that sending a request gives: the upstream answer, 502 Bad
/// Gateway when no connection could be opened, 500 Internal Server Error
/// when the request could not be written or no answer read.
pub fn send_request_response(outcome: UpstreamOutcome) -> (r: HttpResponse)
    ensures
        match outcome {
            UpstreamOutcome::ConnectFailed => r@ == spec_empty_response(502),
            UpstreamOutcome::WriteFailed => r@ == spec_empty_response(500),
            UpstreamOutcome::ReadFailed => r@ == spec_empty_response(500),
            UpstreamOutcome::Received(resp) => r@ == resp@,
        },
{
    match outcome {
        UpstreamOutcome::ConnectFailed => empty_response(502),
        UpstreamOutcome::WriteFailed => empty_response(500),
        UpstreamOutcome::ReadFailed => empty_response(500),
        UpstreamOutcome::Received(resp) => resp,
    }
}

/// What the client of a proxied connection is answered: nothing when no
/// connection could be opened or the request not written, 500 Internal
/// Server Error when no answer could be read, and the answer otherwise.
pub fn handle_request_response(outcome: UpstreamOutcome) -> (r: Option<HttpResponse>)
    ensures
        match outcome {
            UpstreamOutcome::ConnectFailed => r is None,
            UpstreamOutcome::WriteFailed => r is None,
            UpstreamOutcome::ReadFailed => r matches Some(x) && x@ == spec_empty_response(500),
            UpstreamOutcome::Received(resp) => r matches Some(x) && x@ == resp@,
        },
{
    match outcome {
        UpstreamOutcome::ConnectFailed => None,
        UpstreamOutcome::WriteFailed => None,
        UpstreamOutcome::ReadFailed => Some(empty_response(500)),
        UpstreamOutcome::Received(resp) => Some(resp),
    }
}

proof fn lemma_find_entry_first(e: Seq<(Seq<u8>, Seq<Seq<u8>>)>, name: Seq<u8>, i: int, k: int)
    requires
        0 <= i <= k < e.len(),
        e[k].0 == name,
        forall|j: int| i <= j < k ==> #[trigger] e[j].0 != name,
    ensures
        find_entry(e, name, i) == Some(k),
    decreases k - i,
{
    if i < k {
        lemma_find_entry_first(e, name, i + 1, k);
    }
}

proof fn lemma_find_entry_is_first(e: Seq<(Seq<u8>, Seq<Seq<u8>>)>, name: Seq<u8>, i: int)
    requires
        0 <= i,
    ensures
        find_entry(e, name, i) matches Some(k) ==> forall|j: int| i <= j < k ==> #[trigger] e[j].0
            != name,
    decreases e.len() - i,
{
    if i < e.len() && e[i].0 != name {
        lemma_find_entry_is_first(e, name, i + 1);
    }
}

/// Law: after the `host` field of a request is set to `host`, the request
/// goes to `host`, if it is UTF-8, whatever fields it had before.
pub proof fn law_request_goes_to_host(e: Seq<(Seq<u8>, Seq<Seq<u8>>)>, host: Seq<u8>)
    requires
        valid_utf8(host),
    ensures
        spec_upstream_address(map_insert(map_remove(e, host_name()), host_name(), host)) == Some(
            host,
        ),
        map_get(
            map_insert(map_remove(e, seq![0x68u8, 0x6Fu8, 0x73u8, 0x74u8]), seq![0x68u8, 0x6Fu8, 0x73u8, 0x74u8], host),
            seq![0x68u8, 0x6Fu8, 0x73u8, 0x74u8],
        ) == Some(host),
{
    assert(host_name() =~= seq![0x68u8, 0x6Fu8, 0x73u8, 0x74u8]);
    let h = host_name();
    let e1 = map_remove(e, h);
    let e2 = map_insert(e1, h, host);
    lemma_find_entry(e1, h, 0);
    lemma_find_entry_is_first(e1, h, 0);
    match find_entry(e1, h, 0) {
        Some(i) => {
            assert(e2 == e1.update(i, (h, seq![host])));
            assert forall|j: int| 0 <= j < i implies #[trigger] e2[j].0 != h by {
                assert(e2[j] == e1[j]);
            }
            lemma_find_entry_first(e2, h, 0, i);
        },
        None => {
            assert(e2 == e1.push((h, seq![host])));
            assert forall|j: int| 0 <= j < e1.len() implies #[trigger] e2[j].0 != h by {
                assert(e2[j] == e1[j]);
            }
            lemma_find_entry_first(e2, h, 0, e1.len() as int);
        },
    }
    assert(map_get(e2, h) == Some(host));
}

} // verus!
