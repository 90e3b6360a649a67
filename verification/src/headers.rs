//! Header field names as the `http` crate accepts them, and the header
//! maps of the `http` crate.

use vstd::prelude::*;
use crate::combinators::spec_is_token_char;
use crate::text::lower_seq;

verus! {

pub open spec fn all_token_chars(b: Seq<u8>) -> bool {
    forall|i: int| 0 <= i < b.len() ==> spec_is_token_char(#[trigger] b[i])
}

/// What `http::HeaderName::from_bytes` makes of `b`: a name of 1 to 65535
/// token characters, folded to lower case; anything else is refused.
pub open spec fn spec_header_name(b: Seq<u8>) -> Option<Seq<u8>> {
    if 1 <= b.len() <= 65535 && all_token_chars(b) {
        Some(lower_seq(b))
    } else {
        None
    }
}

pub open spec fn opt_bytes_view(r: Option<Vec<u8>>) -> Option<Seq<u8>> {
    match r {
        Some(v) => Some(v@),
        None => None,
    }
}

/// Calls `http::HeaderName::from_bytes` and returns the text of the name.
/// Its source maps every byte through a table that keeps the token
/// characters (upper-case letters folded to lower case) and marks all others
/// invalid, and refuses empty names and names over 65535 bytes; the contract
/// states that.
#[verifier::external_body]
pub(crate) fn header_name_from_bytes(b: &[u8]) -> (r: Option<Vec<u8>>)
    ensures
        opt_bytes_view(r) == spec_header_name(b@),
{
    match http::header::HeaderName::from_bytes(b) {
        Ok(name) => Some(name.as_str().as_bytes().to_vec()),
        Err(_) => None,
    }
}


// ---------------------------------------------------------------------------
// Header maps
// ---------------------------------------------------------------------------
#[verifier::external_type_specification]
#[verifier::external_body]
#[verifier::reject_recursive_types(T)]
pub struct ExHeaderMap<T>(http::header::HeaderMap<T>);

#[verifier::external_type_specification]
#[verifier::external_body]
pub struct ExHeaderValue(http::header::HeaderValue);

/// The buckets of a header map in the order in which the map keeps them:
/// one per field name, holding the name and its values in order.
pub uninterp spec fn header_map_entries(m: http::header::HeaderMap) -> Seq<(Seq<u8>, Seq<Seq<u8>>)>;

/// Whether no two buckets hold the same field name.
pub open spec fn distinct_names(e: Seq<(Seq<u8>, Seq<Seq<u8>>)>) -> bool {
    forall|i: int, j: int| 0 <= i < j < e.len() ==> (#[trigger] e[i]).0 != (#[trigger] e[j]).0
}

/// Calls `HeaderMap::clone`, which the map derives: the buckets and their
/// order are copied. A map keeps one bucket per name (a name found among
/// the buckets gets its value added there, not a new bucket), so the names
/// of the buckets are distinct.
#[verifier::external_body]
pub(crate) fn header_map_clone(m: &http::header::HeaderMap) -> (r: http::header::HeaderMap)
    ensures
        header_map_entries(r) == header_map_entries(*m),
        distinct_names(header_map_entries(r)),
{
    m.clone()
}

/// The values of the bucket named `name`, in order, or none when the map
/// holds no such bucket.
pub open spec fn map_values(e: Seq<(Seq<u8>, Seq<Seq<u8>>)>, name: Seq<u8>) -> Seq<Seq<u8>> {
    match find_entry(e, name, 0) {
        Some(i) => e[i].1,
        None => Seq::empty(),
    }
}

pub open spec fn vecs_view(v: Seq<Vec<u8>>) -> Seq<Seq<u8>> {
    v.map_values(|x: Vec<u8>| x@)
}

/// Calls `HeaderMap::get_all` for the name `name` and returns the bytes of
/// every value. In the map's source the name is looked up among the buckets
/// and the bucket's first value is given, then its extra values in order.
#[verifier::external_body]
pub(crate) fn header_map_values(m: &http::header::HeaderMap, name: &[u8]) -> (r: Vec<Vec<u8>>)
    requires
        is_normal_name(name@),
    ensures
        vecs_view(r@) == map_values(header_map_entries(*m), name@),
{
    match http::header::HeaderName::from_bytes(name) {
        Ok(key) => m.get_all(&key).iter().map(|v| v.as_bytes().to_vec()).collect(),
        Err(_) => Vec::new(),
    }
}

/// Calls `HeaderMap::keys_len`, which in the map's source is the length of
/// the bucket vector.
#[verifier::external_body]
pub(crate) fn header_map_len(m: &http::header::HeaderMap) -> (r: usize)
    ensures
        r == header_map_entries(*m).len(),
{
    m.keys_len()
}


/// Whether a header value can be read as text, as `HeaderValue::to_str`
/// decides: every byte is a tab or visible ASCII (32 to 126).
pub open spec fn value_is_text(v: Seq<u8>) -> bool {
    forall|i: int| 0 <= i < v.len() ==> (v[i] == 9 || (32 <= #[trigger] v[i] && v[i] < 127))
}

/// Whether `HeaderValue::from_bytes` accepts `v`: every byte is a tab or at
/// least 32 and not 127.
pub open spec fn value_is_valid(v: Seq<u8>) -> bool {
    forall|i: int| 0 <= i < v.len() ==> (v[i] == 9 || (32 <= #[trigger] v[i] && v[i] != 127))
}

/// Whether `n` is a header name in normal form: `HeaderName::from_bytes`
/// gives back the same bytes.
pub open spec fn is_normal_name(n: Seq<u8>) -> bool {
    spec_header_name(n) == Some(n)
}

/// The index of the first bucket at or after `i` whose name is `name`.
pub open spec fn find_entry(e: Seq<(Seq<u8>, Seq<Seq<u8>>)>, name: Seq<u8>, i: int) -> Option<int>
    decreases e.len() - i,
{
    if i < 0 || i >= e.len() {
        None
    } else if e[i].0 == name {
        Some(i)
    } else {
        find_entry(e, name, i + 1)
    }
}

/// The first value of the field `name` (`HeaderMap::get`).
pub open spec fn map_get(e: Seq<(Seq<u8>, Seq<Seq<u8>>)>, name: Seq<u8>) -> Option<Seq<u8>> {
    match find_entry(e, name, 0) {
        Some(i) => Some(e[i].1[0]),
        None => None,
    }
}

/// The buckets after `HeaderMap::remove(name)`: the bucket of `name` is
/// taken out and the last bucket moves into its place.
pub open spec fn map_remove(e: Seq<(Seq<u8>, Seq<Seq<u8>>)>, name: Seq<u8>) -> Seq<
    (Seq<u8>, Seq<Seq<u8>>),
> {
    match find_entry(e, name, 0) {
        Some(i) => e.update(i, e.last()).drop_last(),
        None => e,
    }
}

/// The buckets after `HeaderMap::insert(name, v)`: the bucket of `name`
/// keeps its place and holds only `v`; a new name gets a bucket at the end.
pub open spec fn map_insert(e: Seq<(Seq<u8>, Seq<Seq<u8>>)>, name: Seq<u8>, v: Seq<u8>) -> Seq<
    (Seq<u8>, Seq<Seq<u8>>),
> {
    match find_entry(e, name, 0) {
        Some(i) => e.update(i, (e[i].0, seq![v])),
        None => e.push((name, seq![v])),
    }
}

/// Calls `HeaderMap::get` for the name `name` and returns the bytes of the
/// value. In the map's source the name is looked up among the buckets and
/// the bucket's first value is returned.
#[verifier::external_body]
pub(crate) fn header_map_get(m: &http::header::HeaderMap, name: &[u8]) -> (r: Option<Vec<u8>>)
    requires
        is_normal_name(name@),
    ensures
        opt_bytes_view(r) == map_get(header_map_entries(*m), name@),
{
    match http::header::HeaderName::from_bytes(name) {
        Ok(key) => match m.get(&key) {
            Some(value) => Some(value.as_bytes().to_vec()),
            None => None,
        },
        Err(_) => None,
    }
}

/// Calls `HeaderMap::remove` for the name `name`. In the map's source the
/// bucket of the name (with all its values) leaves the bucket vector by
/// `swap_remove`, so the last bucket takes its place.
#[verifier::external_body]
pub(crate) fn header_map_remove(m: &mut http::header::HeaderMap, name: &[u8])
    requires
        is_normal_name(name@),
    ensures
        header_map_entries(*final(m)) == map_remove(header_map_entries(*old(m)), name@),
{
    match http::header::HeaderName::from_bytes(name) {
        Ok(key) => {
            m.remove(&key);
        },
        Err(_) => {},
    }
}

/// Calls `HeaderMap::insert` for the name `name` and the value `value`. In
/// the map's source an existing bucket keeps its place and all its values
/// give way to the new one; a new name's bucket is pushed at the end. The
/// map grows its table as it fills and refuses to pass 32768 buckets; under
/// 3000 buckets no growth step can reach that limit.
#[verifier::external_body]
pub(crate) fn header_map_insert(m: &mut http::header::HeaderMap, name: &[u8], value: &[u8])
    requires
        is_normal_name(name@),
        value_is_valid(value@),
        header_map_entries(*old(m)).len() < 3000,
    ensures
        header_map_entries(*final(m)) == map_insert(header_map_entries(*old(m)), name@, value@),
{
    match (http::header::HeaderName::from_bytes(name), http::header::HeaderValue::from_bytes(value)) {
        (Ok(key), Ok(v)) => {
            m.insert(key, v);
        },
        _ => {},
    }
}

/// A header name returned by `HeaderName::from_bytes` is in normal form.
pub proof fn lemma_header_name_normal(b: Seq<u8>)
    requires
        spec_header_name(b) is Some,
    ensures
        is_normal_name(spec_header_name(b)->0),
{
    let n = lower_seq(b);
    assert forall|i: int| 0 <= i < n.len() implies spec_is_token_char(#[trigger] n[i]) by {
        assert(spec_is_token_char(b[i]));
    }
    assert(lower_seq(n) =~= n);
}

/// A name of lower-case token characters is in normal form.
pub proof fn lemma_lower_token_normal(n: Seq<u8>)
    requires
        1 <= n.len() <= 65535,
        forall|i: int| 0 <= i < n.len() ==> (0x61 <= #[trigger] n[i] <= 0x7A || n[i] == 0x2D),
    ensures
        is_normal_name(n),
{
    assert forall|i: int| 0 <= i < n.len() implies spec_is_token_char(#[trigger] n[i]) by {}
    assert(lower_seq(n) =~= n);
}


pub proof fn lemma_find_entry(e: Seq<(Seq<u8>, Seq<Seq<u8>>)>, name: Seq<u8>, i: int)
    requires
        0 <= i,
    ensures
        find_entry(e, name, i) matches Some(k) ==> i <= k < e.len() && e[k].0 == name,
        find_entry(e, name, i) is None ==> forall|k: int| i <= k < e.len() ==> #[trigger] e[k].0 != name,
    decreases e.len() - i,
{
    if i < e.len() && e[i].0 != name {
        lemma_find_entry(e, name, i + 1);
    }
}

/// Removing a field never adds a bucket.
pub proof fn lemma_map_remove_len(e: Seq<(Seq<u8>, Seq<Seq<u8>>)>, name: Seq<u8>)
    ensures
        map_remove(e, name).len() <= e.len(),
{
    lemma_find_entry(e, name, 0);
}

} // verus!
