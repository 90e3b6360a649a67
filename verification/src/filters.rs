//! Removing hop-by-hop header fields before a request is forwarded
//! (RFC 2616 section 13.5.1, RFC 7230 section 6.1), and pointing a request
//! at its upstream host.

use vstd::prelude::*;
use crate::headers::{
    distinct_names, find_entry, header_map_clone, header_map_entries, header_map_insert,
    header_map_len, header_map_remove, header_map_values, header_name_from_bytes, is_normal_name,
    lemma_header_name_normal, lemma_lower_token_normal, map_insert, map_remove, map_values,
    spec_header_name, value_is_text, value_is_valid, vecs_view,
};
use crate::grammar::copy_range;

verus! {

/// The buckets of a header map.
pub type Entries = Seq<(Seq<u8>, Seq<Seq<u8>>)>;

/// White space that `str::trim` removes from ASCII text.
pub open spec fn is_ws(c: u8) -> bool {
    c == 9 || c == 10 || c == 11 || c == 12 || c == 13 || c == 32
}

pub open spec fn trim_start(s: Seq<u8>, i: int) -> int
    decreases s.len() - i,
{
    if i >= s.len() {
        s.len() as int
    } else if is_ws(s[i]) {
        trim_start(s, i + 1)
    } else {
        i
    }
}

pub open spec fn trim_end(s: Seq<u8>, j: int) -> int
    decreases j,
{
    if j <= 0 {
        0
    } else if is_ws(s[j - 1]) {
        trim_end(s, j - 1)
    } else {
        j
    }
}

/// `s` without white space at either end.
pub open spec fn spec_trim(s: Seq<u8>) -> Seq<u8> {
    let a = trim_start(s, 0);
    if a >= s.len() {
        Seq::empty()
    } else {
        s.subrange(a, trim_end(s, s.len() as int))
    }
}

proof fn lemma_trim_start(s: Seq<u8>, i: int)
    requires
        0 <= i <= s.len(),
    ensures
        i <= trim_start(s, i) <= s.len(),
        trim_start(s, i) < s.len() ==> !is_ws(s[trim_start(s, i)]),
    decreases s.len() - i,
{
    if i < s.len() && is_ws(s[i]) {
        lemma_trim_start(s, i + 1);
    }
}

proof fn lemma_trim_end(s: Seq<u8>, j: int, k: int)
    requires
        0 <= k < j <= s.len(),
        !is_ws(s[k]),
    ensures
        k + 1 <= trim_end(s, j) <= j,
    decreases j,
{
    if is_ws(s[j - 1]) {
        lemma_trim_end(s, j - 1, k);
    }
}

/// Trims white space from both ends of `s`, as `str::trim` does on ASCII.
pub fn trim(s: &[u8]) -> (r: Vec<u8>)
    ensures
        r@ == spec_trim(s@),
{
    let mut a: usize = 0;
    while a < s.len() && (s[a] == 9 || s[a] == 10 || s[a] == 11 || s[a] == 12 || s[a] == 13
        || s[a] == 32)
        invariant
            a <= s.len(),
            trim_start(s@, 0) == trim_start(s@, a as int),
        decreases s.len() - a,
    {
        a = a + 1;
    }
    if a >= s.len() {
        return Vec::new();
    }
    let mut b: usize = s.len();
    while b > 0 && (s[b - 1] == 9 || s[b - 1] == 10 || s[b - 1] == 11 || s[b - 1] == 12 || s[b
        - 1] == 13 || s[b - 1] == 32)
        invariant
            b <= s.len(),
            a < s.len(),
            !is_ws(s@[a as int]),
            a < b,
            trim_end(s@, s.len() as int) == trim_end(s@, b as int),
        decreases b,
    {
        b = b - 1;
    }
    copy_range(s, a, b)
}

/// The pieces of `s` between commas, as `str::split(",")` gives them:
/// one more piece than there are commas.
pub open spec fn comma_pieces(s: Seq<u8>) -> Seq<Seq<u8>>
    decreases s.len(),
{
    if s.len() == 0 {
        seq![Seq::empty()]
    } else {
        let ps = comma_pieces(s.drop_last());
        if s.last() == 0x2C {
            ps.push(Seq::empty())
        } else {
            ps.update(ps.len() - 1, ps.last().push(s.last()))
        }
    }
}

proof fn lemma_comma_pieces_nonempty(s: Seq<u8>)
    ensures
        comma_pieces(s).len() >= 1,
    decreases s.len(),
{
    if s.len() > 0 {
        lemma_comma_pieces_nonempty(s.drop_last());
    }
}

/// The header name that a piece of a `Connection` value names, if it
/// names one once trimmed.
pub open spec fn piece_names(p: Seq<u8>) -> Seq<Seq<u8>> {
    match spec_header_name(spec_trim(p)) {
        Some(n) => seq![n],
        None => Seq::empty(),
    }
}

pub open spec fn option_names(pieces: Seq<Seq<u8>>) -> Seq<Seq<u8>>
    decreases pieces.len(),
{
    if pieces.len() == 0 {
        Seq::empty()
    } else {
        option_names(pieces.drop_last()) + piece_names(pieces.last())
    }
}

/// `connection`
pub open spec fn connection_name() -> Seq<u8> {
    seq![0x63u8, 0x6Fu8, 0x6Eu8, 0x6Eu8, 0x65u8, 0x63u8, 0x74u8, 0x69u8, 0x6Fu8, 0x6Eu8]
}

/// A value as text: the value itself when it is text, nothing otherwise.
pub open spec fn text_or_empty(v: Seq<u8>) -> Seq<u8> {
    if value_is_text(v) {
        v
    } else {
        Seq::empty()
    }
}

/// The names that one `Connection` value lists: the comma-separated pieces
/// that, once trimmed, are header names (none when the value is not text).
pub open spec fn value_options(v: Seq<u8>) -> Seq<Seq<u8>> {
    option_names(comma_pieces(text_or_empty(v)))
}

/// The names that the `Connection` values `vs` list, value after value.
pub open spec fn values_options(vs: Seq<Seq<u8>>) -> Seq<Seq<u8>>
    decreases vs.len(),
{
    if vs.len() == 0 {
        Seq::empty()
    } else {
        values_options(vs.drop_last()) + value_options(vs.last())
    }
}

/// The names that the `Connection` field lists, in every one of its values.
pub open spec fn connection_options(e: Entries) -> Seq<Seq<u8>> {
    values_options(map_values(e, connection_name()))
}

/// The hop-by-hop fields that are always removed, in the order of removal:
/// `connection`, `keep-alive`, `proxy-authenticate`, `proxy-authorization`,
/// `te`, `transfer-encoding`, `trailer`, `upgrade`.
pub open spec fn hop_names() -> Seq<Seq<u8>> {
    seq![
        connection_name(),
        seq![0x6Bu8, 0x65u8, 0x65u8, 0x70u8, 0x2Du8, 0x61u8, 0x6Cu8, 0x69u8, 0x76u8, 0x65u8],
        seq![
            0x70u8,
            0x72u8,
            0x6Fu8,
            0x78u8,
            0x79u8,
            0x2Du8,
            0x61u8,
            0x75u8,
            0x74u8,
            0x68u8,
            0x65u8,
            0x6Eu8,
            0x74u8,
            0x69u8,
            0x63u8,
            0x61u8,
            0x74u8,
            0x65u8,
        ],
        seq![
            0x70u8,
            0x72u8,
            0x6Fu8,
            0x78u8,
            0x79u8,
            0x2Du8,
            0x61u8,
            0x75u8,
            0x74u8,
            0x68u8,
            0x6Fu8,
            0x72u8,
            0x69u8,
            0x7Au8,
            0x61u8,
            0x74u8,
            0x69u8,
            0x6Fu8,
            0x6Eu8,
        ],
        seq![0x74u8, 0x65u8],
        seq![
            0x74u8,
            0x72u8,
            0x61u8,
            0x6Eu8,
            0x73u8,
            0x66u8,
            0x65u8,
            0x72u8,
            0x2Du8,
            0x65u8,
            0x6Eu8,
            0x63u8,
            0x6Fu8,
            0x64u8,
            0x69u8,
            0x6Eu8,
            0x67u8,
        ],
        seq![0x74u8, 0x72u8, 0x61u8, 0x69u8, 0x6Cu8, 0x65u8, 0x72u8],
        seq![0x75u8, 0x70u8, 0x67u8, 0x72u8, 0x61u8, 0x64u8, 0x65u8],
    ]
}

fn hop_name(k: usize) -> (r: &'static [u8])
    requires
        k < 8,
    ensures
        r@ == hop_names()[k as int],
        is_normal_name(r@),
{
    let t: &'static [u8] = if k == 0 {
        &[0x63u8, 0x6Fu8, 0x6Eu8, 0x6Eu8, 0x65u8, 0x63u8, 0x74u8, 0x69u8, 0x6Fu8, 0x6Eu8]
    } else if k == 1 {
        &[0x6Bu8, 0x65u8, 0x65u8, 0x70u8, 0x2Du8, 0x61u8, 0x6Cu8, 0x69u8, 0x76u8, 0x65u8]
    } else if k == 2 {
        &[
            0x70u8,
            0x72u8,
            0x6Fu8,
            0x78u8,
            0x79u8,
            0x2Du8,
            0x61u8,
            0x75u8,
            0x74u8,
            0x68u8,
            0x65u8,
            0x6Eu8,
            0x74u8,
            0x69u8,
            0x63u8,
            0x61u8,
            0x74u8,
            0x65u8,
        ]
    } else if k == 3 {
        &[
            0x70u8,
            0x72u8,
            0x6Fu8,
            0x78u8,
            0x79u8,
            0x2Du8,
            0x61u8,
            0x75u8,
            0x74u8,
            0x68u8,
            0x6Fu8,
            0x72u8,
            0x69u8,
            0x7Au8,
            0x61u8,
            0x74u8,
            0x69u8,
            0x6Fu8,
            0x6Eu8,
        ]
    } else if k == 4 {
        &[0x74u8, 0x65u8]
    } else if k == 5 {
        &[
            0x74u8,
            0x72u8,
            0x61u8,
            0x6Eu8,
            0x73u8,
            0x66u8,
            0x65u8,
            0x72u8,
            0x2Du8,
            0x65u8,
            0x6Eu8,
            0x63u8,
            0x6Fu8,
            0x64u8,
            0x69u8,
            0x6Eu8,
            0x67u8,
        ]
    } else if k == 6 {
        &[0x74u8, 0x72u8, 0x61u8, 0x69u8, 0x6Cu8, 0x65u8, 0x72u8]
    } else {
        &[0x75u8, 0x70u8, 0x67u8, 0x72u8, 0x61u8, 0x64u8, 0x65u8]
    };
    assert(t@ =~= hop_names()[k as int]);
    proof {
        lemma_lower_token_normal(t@);
    }
    t
}

/// The buckets after removing the fields `names` one after the other.
pub open spec fn remove_all(e: Entries, names: Seq<Seq<u8>>) -> Entries
    decreases names.len(),
{
    if names.len() == 0 {
        e
    } else {
        map_remove(remove_all(e, names.drop_last()), names.last())
    }
}

/// The fields that a request keeps: those named in `Connection`, then the
/// fixed hop-by-hop fields, are removed in that order.
pub open spec fn spec_remove_hop_by_hop(e: Entries) -> Entries {
    remove_all(e, connection_options(e) + hop_names())
}

/// Removes the field named by a trimmed piece of the `Connection` value.
fn remove_option(m: &mut http::header::HeaderMap, piece: &[u8])
    ensures
        header_map_entries(*final(m)) == remove_all(header_map_entries(*old(m)), piece_names(piece@)),
{
    let t = trim(piece);
    match header_name_from_bytes(&t) {
        Some(name) => {
            proof {
                lemma_header_name_normal(t@);
                assert(piece_names(piece@) == seq![name@]);
                assert(piece_names(piece@).drop_last() =~= Seq::<Seq<u8>>::empty());
                assert(remove_all(header_map_entries(*m), Seq::<Seq<u8>>::empty()) == header_map_entries(*m));
            }
            header_map_remove(m, &name);
        },
        None => {
            assert(piece_names(piece@) =~= Seq::<Seq<u8>>::empty());
        },
    }
}

/// Whether `HeaderValue::to_str` would accept the value `v`.
fn is_text(v: &[u8]) -> (r: bool)
    ensures
        r == value_is_text(v@),
{
    let mut i: usize = 0;
    while i < v.len()
        invariant
            i <= v.len(),
            forall|j: int| 0 <= j < i ==> (v@[j] == 9 || (32 <= #[trigger] v@[j] && v@[j] < 127)),
        decreases v.len() - i,
    {
        if !(v[i] == 9 || (v[i] >= 32 && v[i] < 127)) {
            return false;
        }
        i = i + 1;
    }
    true
}

/// Removes the fields that one `Connection` value lists.
fn remove_value_options(filtered: &mut http::header::HeaderMap, value: Vec<u8>)
    ensures
        header_map_entries(*final(filtered)) == remove_all(
            header_map_entries(*old(filtered)),
            value_options(value@),
        ),
{
    let ghost e0 = header_map_entries(*filtered);
    let text: Vec<u8> = if is_text(&value) {
        value
    } else {
        Vec::new()
    };
    assert(text@ =~= text_or_empty(value@));
    let mut start: usize = 0;
    let mut i: usize = 0;
    let ghost mut done: Seq<Seq<u8>> = Seq::empty();
    assert(text@.take(0) =~= Seq::<u8>::empty());
    assert(text@.subrange(0, 0) =~= Seq::<u8>::empty());
    assert(done.push(text@.subrange(0, 0)) =~= seq![Seq::<u8>::empty()]);
    assert(option_names(done) == Seq::<Seq<u8>>::empty());
    assert(remove_all(e0, Seq::<Seq<u8>>::empty()) == e0);
    while i < text.len()
        invariant
            start <= i <= text.len(),
            comma_pieces(text@.take(i as int)) == done.push(text@.subrange(start as int, i as int)),
            header_map_entries(*filtered) == remove_all(e0, option_names(done)),
        decreases text.len() - i,
    {
        let ghost before = text@.take(i as int);
        assert(text@.take(i + 1).drop_last() =~= before);
        if text[i] == 0x2C {
            let piece = crate::grammar::slice_range(&text, start, i);
            remove_option(filtered, piece);
            proof {
                lemma_remove_all_append(e0, option_names(done), piece_names(piece@));
                assert(done.push(piece@).drop_last() =~= done);
                assert(option_names(done.push(piece@)) == option_names(done) + piece_names(
                    piece@,
                ));
                done = done.push(piece@);
                assert(text@.subrange(i + 1, i + 1) =~= Seq::<u8>::empty());
            }
            start = i + 1;
        } else {
            proof {
                assert(text@.subrange(start as int, i + 1) =~= text@.subrange(
                    start as int,
                    i as int,
                ).push(text@[i as int]));
            }
        }
        i = i + 1;
    }
    assert(text@.take(text.len() as int) =~= text@);
    let piece = crate::grammar::slice_range(&text, start, text.len());
    remove_option(filtered, piece);
    proof {
        lemma_remove_all_append(e0, option_names(done), piece_names(piece@));
        assert(done.push(piece@).drop_last() =~= done);
    }
}

/// Returns a copy of `headers` without the hop-by-hop fields: the fields
/// named in every `Connection` value (comma-separated, trimmed; a value
/// that is not text names none), then `connection`, `keep-alive`,
/// `proxy-authenticate`, `proxy-authorization`, `te`, `transfer-encoding`,
/// `trailer` and `upgrade`. The copy holds none of these fields and every
/// other field of `headers` with its values, and filtering it again
/// changes nothing.
pub fn remove_hop_by_hop_headers(headers: &http::header::HeaderMap) -> (filtered:
    http::header::HeaderMap)
    ensures
        header_map_entries(filtered) == spec_remove_hop_by_hop(header_map_entries(*headers)),
        distinct_names(header_map_entries(*headers)),
        hop_by_hop_removed(header_map_entries(*headers), header_map_entries(filtered)),
        spec_remove_hop_by_hop(header_map_entries(filtered)) == header_map_entries(filtered),
{
    let ghost e0 = header_map_entries(*headers);
    let mut filtered = header_map_clone(headers);
    let conn = hop_name(0);
    assert(conn@ =~= connection_name());
    let values = header_map_values(headers, conn);
    let mut j: usize = 0;
    assert(vecs_view(values@).take(0) =~= Seq::<Seq<u8>>::empty());
    while j < values.len()
        invariant
            j <= values.len(),
            vecs_view(values@) == map_values(e0, connection_name()),
            header_map_entries(filtered) == remove_all(
                e0,
                values_options(vecs_view(values@).take(j as int)),
            ),
        decreases values.len() - j,
    {
        let ghost before = header_map_entries(filtered);
        let ghost vs = vecs_view(values@);
        let value = values[j].clone();
        remove_value_options(&mut filtered, value);
        proof {
            lemma_remove_all_append(e0, values_options(vs.take(j as int)), value_options(vs[j as int]));
            assert(vs.take(j + 1).drop_last() =~= vs.take(j as int));
            assert(vs.take(j + 1).last() == vs[j as int]);
        }
        j = j + 1;
    }
    let ghost opts = connection_options(e0);
    assert(vecs_view(values@).take(values.len() as int) =~= vecs_view(values@));
    assert(header_map_entries(filtered) == remove_all(e0, opts));
    let mut k: usize = 0;
    while k < 8
        invariant
            k <= 8,
            header_map_entries(filtered) == remove_all(e0, opts + hop_names().take(k as int)),
        decreases 8 - k,
    {
        let name = hop_name(k);
        header_map_remove(&mut filtered, name);
        proof {
            assert((opts + hop_names().take(k + 1)).drop_last() =~= opts + hop_names().take(
                k as int,
            ));
        }
        k = k + 1;
    }
    assert(hop_names().take(8) =~= hop_names());
    proof {
        law_hop_by_hop_fields_removed(e0);
        law_hop_by_hop_idempotent(e0);
    }
    filtered
}

/// Removing `a` and then `b` is removing `a + b`.
pub proof fn lemma_remove_all_append(e: Entries, a: Seq<Seq<u8>>, b: Seq<Seq<u8>>)
    ensures
        remove_all(remove_all(e, a), b) == remove_all(e, a + b),
    decreases b.len(),
{
    if b.len() == 0 {
        assert(a + b =~= a);
    } else {
        lemma_remove_all_append(e, a, b.drop_last());
        assert((a + b).drop_last() =~= a + b.drop_last());
    }
}

/// Points a request at `host`: the `host` field is removed and set to
/// `host` alone.
pub fn set_host_header(headers: &mut http::header::HeaderMap, host: &[u8])
    requires
        value_is_valid(host@),
        header_map_entries(*old(headers)).len() < 3000,
    ensures
        header_map_entries(*final(headers)) == map_insert(
            map_remove(header_map_entries(*old(headers)), host_name()),
            host_name(),
            host@,
        ),
{
    let name: &[u8] = &[0x68u8, 0x6Fu8, 0x73u8, 0x74u8];
    assert(name@ =~= host_name());
    proof {
        lemma_lower_token_normal(name@);
    }
    header_map_remove(headers, name);
    proof {
        crate::headers::lemma_map_remove_len(header_map_entries(*old(headers)), host_name());
    }
    header_map_insert(headers, name, host);
}

/// Points a request at `host` when its map holds fewer than 3000 fields (the
/// bound under which `set_host_header` is known to succeed); returns whether
/// it did, and leaves the map as it was when it did not.
pub fn try_set_host_header(headers: &mut http::header::HeaderMap, host: &[u8]) -> (done: bool)
    requires
        value_is_valid(host@),
    ensures
        done == (header_map_entries(*old(headers)).len() < 3000),
        done ==> header_map_entries(*final(headers)) == map_insert(
            map_remove(header_map_entries(*old(headers)), host_name()),
            host_name(),
            host@,
        ),
        !done ==> header_map_entries(*final(headers)) == header_map_entries(*old(headers)),
{
    if header_map_len(headers) < 3000 {
        set_host_header(headers, host);
        true
    } else {
        false
    }
}

/// `host`
pub open spec fn host_name() -> Seq<u8> {
    seq![0x68u8, 0x6Fu8, 0x73u8, 0x74u8]
}


// ---------------------------------------------------------------------------
// Laws
// ---------------------------------------------------------------------------
/// Whether some bucket holds the field `n`.
pub open spec fn has_name(e: Entries, n: Seq<u8>) -> bool {
    exists|i: int| 0 <= i < e.len() && (#[trigger] e[i]).0 == n
}


/// Whether `b` is one of the buckets.
pub open spec fn contains_bucket(e: Entries, b: (Seq<u8>, Seq<Seq<u8>>)) -> bool {
    exists|i: int| 0 <= i < e.len() && #[trigger] e[i] == b
}

proof fn lemma_map_remove(e: Entries, n: Seq<u8>)
    requires
        distinct_names(e),
    ensures
        distinct_names(map_remove(e, n)),
        !has_name(map_remove(e, n), n),
        forall|b: (Seq<u8>, Seq<Seq<u8>>)|
            contains_bucket(e, b) && b.0 != n ==> #[trigger] contains_bucket(map_remove(e, n), b),
        forall|b: (Seq<u8>, Seq<Seq<u8>>)|
            #[trigger] contains_bucket(map_remove(e, n), b) ==> contains_bucket(e, b),
{
    crate::headers::lemma_find_entry(e, n, 0);
    let r = map_remove(e, n);
    match crate::headers::find_entry(e, n, 0) {
        Some(i) => {
            let last = e.len() - 1;
            assert(r.len() == last);
            assert forall|j: int| 0 <= j < r.len() implies #[trigger] r[j] == (if j == i {
                e[last]
            } else {
                e[j]
            }) by {}
            assert forall|a: int, c: int| 0 <= a < c < r.len() implies (#[trigger] r[a]).0 != (
            #[trigger] r[c]).0 by {
                if a == i {
                    assert(e[a].0 == n);
                    assert(e[c].0 != e[last].0);
                } else if c == i {
                    assert(e[a].0 != e[last].0);
                } else {
                    assert(e[a].0 != e[c].0);
                }
            }
            assert forall|j: int| 0 <= j < r.len() implies (#[trigger] r[j]).0 != n by {
                if j == i {
                    assert(i != last);
                    assert(e[i].0 != e[last].0);
                } else if j < i {
                    assert(e[j].0 != e[i].0);
                } else {
                    assert(e[i].0 != e[j].0);
                }
            }
            assert forall|b: (Seq<u8>, Seq<Seq<u8>>)|
                contains_bucket(e, b) && b.0 != n implies #[trigger] contains_bucket(r, b) by {
                let j = choose|j: int| 0 <= j < e.len() && #[trigger] e[j] == b;
                assert(j != i);
                if j == last {
                    assert(r[i] == b);
                } else {
                    assert(r[j] == b);
                }
            }
            assert forall|b: (Seq<u8>, Seq<Seq<u8>>)|
                #[trigger] contains_bucket(r, b) implies contains_bucket(e, b) by {
                let j = choose|j: int| 0 <= j < r.len() && #[trigger] r[j] == b;
                if j == i {
                    assert(e[last] == b);
                } else {
                    assert(e[j] == b);
                }
            }
        },
        None => {
            assert forall|j: int| 0 <= j < r.len() implies (#[trigger] r[j]).0 != n by {}
        },
    }
}

proof fn lemma_remove_all(e: Entries, names: Seq<Seq<u8>>)
    requires
        distinct_names(e),
    ensures
        distinct_names(remove_all(e, names)),
        forall|k: int| 0 <= k < names.len() ==> !has_name(remove_all(e, names), #[trigger] names[k]),
        forall|b: (Seq<u8>, Seq<Seq<u8>>)|
            contains_bucket(e, b) && !names.contains(b.0) ==> #[trigger] contains_bucket(
                remove_all(e, names),
                b,
            ),
        forall|b: (Seq<u8>, Seq<Seq<u8>>)|
            #[trigger] contains_bucket(remove_all(e, names), b) ==> contains_bucket(e, b),
    decreases names.len(),
{
    if names.len() > 0 {
        let prev = names.drop_last();
        let n = names.last();
        lemma_remove_all(e, prev);
        let r0 = remove_all(e, prev);
        lemma_map_remove(r0, n);
        let r = remove_all(e, names);
        assert(r == map_remove(r0, n));
        assert forall|k: int| 0 <= k < names.len() implies !has_name(r, #[trigger] names[k]) by {
            if k < names.len() - 1 {
                assert(prev[k] == names[k]);
                assert(!has_name(r0, prev[k]));
                if has_name(r, names[k]) {
                    let j = choose|j: int| 0 <= j < r.len() && (#[trigger] r[j]).0 == names[k];
                    assert(contains_bucket(r, r[j]));
                    assert(contains_bucket(r0, r[j]));
                }
            }
        }
        assert forall|b: (Seq<u8>, Seq<Seq<u8>>)|
            contains_bucket(e, b) && !names.contains(b.0) implies #[trigger] contains_bucket(r, b) by {
            if prev.contains(b.0) {
                let k = choose|k: int| 0 <= k < prev.len() && prev[k] == b.0;
                assert(names[k] == b.0);
            }
            assert(b.0 != n) by {
                if b.0 == n {
                    assert(names[names.len() - 1] == b.0);
                }
            }
        }
    }
}

/// Whether `r` is `e` without its hop-by-hop fields: `r` holds none of the
/// fixed hop-by-hop fields nor of those that the `Connection` values of `e`
/// list, keeps every other bucket of `e` with its values, holds no bucket
/// that `e` does not, and has distinct names.
pub open spec fn hop_by_hop_removed(e: Entries, r: Entries) -> bool {
    let removed = connection_options(e) + hop_names();
    &&& distinct_names(r)
    &&& forall|k: int| 0 <= k < removed.len() ==> !has_name(r, #[trigger] removed[k])
    &&& forall|b: (Seq<u8>, Seq<Seq<u8>>)|
        contains_bucket(e, b) && !removed.contains(b.0) ==> #[trigger] contains_bucket(r, b)
    &&& forall|b: (Seq<u8>, Seq<Seq<u8>>)| #[trigger] contains_bucket(r, b) ==> contains_bucket(e, b)
}

/// Law (RFC 2616 13.5.1, RFC 7230 6.1): the request that is forwarded keeps
/// none of the hop-by-hop fields, neither the fixed ones nor those that its
/// `Connection` values list; it keeps every other field with its values,
/// and holds no field that the original did not.
pub proof fn law_hop_by_hop_fields_removed(e: Entries)
    requires
        distinct_names(e),
    ensures
        hop_by_hop_removed(e, spec_remove_hop_by_hop(e)),
{
    lemma_remove_all(e, connection_options(e) + hop_names());
}

proof fn lemma_remove_absent(e: Entries, names: Seq<Seq<u8>>)
    requires
        forall|k: int| 0 <= k < names.len() ==> !has_name(e, #[trigger] names[k]),
    ensures
        remove_all(e, names) == e,
    decreases names.len(),
{
    if names.len() > 0 {
        let prev = names.drop_last();
        assert forall|k: int| 0 <= k < prev.len() implies !has_name(e, #[trigger] prev[k]) by {
            assert(prev[k] == names[k]);
        }
        lemma_remove_absent(e, prev);
        let n = names.last();
        assert(!has_name(e, names[names.len() - 1]));
        crate::headers::lemma_find_entry(e, n, 0);
        if crate::headers::find_entry(e, n, 0) is Some {
            let i = crate::headers::find_entry(e, n, 0)->0;
            assert(e[i].0 == n);
        }
    }
}

/// Law: filtering a second time changes nothing.
pub proof fn law_hop_by_hop_idempotent(e: Entries)
    requires
        distinct_names(e),
    ensures
        spec_remove_hop_by_hop(spec_remove_hop_by_hop(e)) == spec_remove_hop_by_hop(e),
{
    let r = spec_remove_hop_by_hop(e);
    law_hop_by_hop_fields_removed(e);
    let removed = connection_options(e) + hop_names();
    assert(removed[connection_options(e).len() as int] == connection_name());
    assert(!has_name(r, connection_name()));
    crate::headers::lemma_find_entry(r, connection_name(), 0);
    if crate::headers::find_entry(r, connection_name(), 0) is Some {
        let i = crate::headers::find_entry(r, connection_name(), 0)->0;
        assert(r[i].0 == connection_name());
    }
    assert(map_values(r, connection_name()) == Seq::<Seq<u8>>::empty());
    assert(connection_options(r) == Seq::<Seq<u8>>::empty());
    assert(Seq::<Seq<u8>>::empty() + hop_names() =~= hop_names());
    assert forall|k: int| 0 <= k < hop_names().len() implies !has_name(r, #[trigger] hop_names()[k]) by {
        assert(removed[connection_options(e).len() + k] == hop_names()[k]);
    }
    lemma_remove_absent(r, hop_names());
}

/// Law (RFC 2616 13.5.1): whatever fields a request holds, the forwarded
/// request holds none named `connection`, `keep-alive`,
/// `proxy-authenticate`, `proxy-authorization`, `te`, `transfer-encoding`,
/// `trailer` or `upgrade`.
pub proof fn law_fixed_hop_fields_removed(e: Entries)
    requires
        distinct_names(e),
    ensures
        ({
            let r = spec_remove_hop_by_hop(e);
            &&& !has_name(r, seq![0x63u8, 0x6Fu8, 0x6Eu8, 0x6Eu8, 0x65u8, 0x63u8, 0x74u8, 0x69u8, 0x6Fu8, 0x6Eu8])
            &&& !has_name(r, seq![0x6Bu8, 0x65u8, 0x65u8, 0x70u8, 0x2Du8, 0x61u8, 0x6Cu8, 0x69u8, 0x76u8, 0x65u8])
            &&& !has_name(
                r,
                seq![
                    0x70u8, 0x72u8, 0x6Fu8, 0x78u8, 0x79u8, 0x2Du8, 0x61u8, 0x75u8, 0x74u8,
                    0x68u8, 0x65u8, 0x6Eu8, 0x74u8, 0x69u8, 0x63u8, 0x61u8, 0x74u8, 0x65u8,
                ],
            )
            &&& !has_name(
                r,
                seq![
                    0x70u8, 0x72u8, 0x6Fu8, 0x78u8, 0x79u8, 0x2Du8, 0x61u8, 0x75u8, 0x74u8,
                    0x68u8, 0x6Fu8, 0x72u8, 0x69u8, 0x7Au8, 0x61u8, 0x74u8, 0x69u8, 0x6Fu8,
                    0x6Eu8,
                ],
            )
            &&& !has_name(r, seq![0x74u8, 0x65u8])
            &&& !has_name(
                r,
                seq![
                    0x74u8, 0x72u8, 0x61u8, 0x6Eu8, 0x73u8, 0x66u8, 0x65u8, 0x72u8, 0x2Du8,
                    0x65u8, 0x6Eu8, 0x63u8, 0x6Fu8, 0x64u8, 0x69u8, 0x6Eu8, 0x67u8,
                ],
            )
            &&& !has_name(r, seq![0x74u8, 0x72u8, 0x61u8, 0x69u8, 0x6Cu8, 0x65u8, 0x72u8])
            &&& !has_name(r, seq![0x75u8, 0x70u8, 0x67u8, 0x72u8, 0x61u8, 0x64u8, 0x65u8])
        }),
{
    law_hop_by_hop_fields_removed(e);
    let o: int = connection_options(e).len() as int;
    let removed = connection_options(e) + hop_names();
    assert forall|k: int| 0 <= k < 8 implies #[trigger] removed[o + k] == hop_names()[k] by {}
    assert(removed[o + 0] == hop_names()[0]);
    assert(removed[o + 1] == hop_names()[1]);
    assert(removed[o + 2] == hop_names()[2]);
    assert(removed[o + 3] == hop_names()[3]);
    assert(removed[o + 4] == hop_names()[4]);
    assert(removed[o + 5] == hop_names()[5]);
    assert(removed[o + 6] == hop_names()[6]);
    assert(removed[o + 7] == hop_names()[7]);
}

} // verus!
