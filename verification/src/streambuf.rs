//! A buffer of bytes read from a connection, out of which whole pieces
//! ending in a terminator (such as `\r\n`) are taken.

use vstd::prelude::*;

verus! {

/// Whether `needle` occurs in `haystack` at position `i`.
pub open spec fn occurs_at(haystack: Seq<u8>, needle: Seq<u8>, i: int) -> bool {
    0 <= i && i + needle.len() <= haystack.len() && haystack.subrange(i, i + needle.len())
        == needle
}

/// Whether `i` is the first position at which `needle` occurs in `haystack`.
pub open spec fn is_first_occurrence(haystack: Seq<u8>, needle: Seq<u8>, i: int) -> bool {
    occurs_at(haystack, needle, i) && forall|j: int|
        0 <= j < i ==> !#[trigger] occurs_at(haystack, needle, j)
}

/// The first position at which `needle` occurs in `haystack`, if any.
pub open spec fn first_occurrence(haystack: Seq<u8>, needle: Seq<u8>) -> Option<int> {
    if exists|i: int| #[trigger] is_first_occurrence(haystack, needle, i) {
        Some(choose|i: int| #[trigger] is_first_occurrence(haystack, needle, i))
    } else {
        None
    }
}

proof fn lemma_first_occurrence_unique(haystack: Seq<u8>, needle: Seq<u8>, i: int)
    requires
        is_first_occurrence(haystack, needle, i),
    ensures
        first_occurrence(haystack, needle) == Some(i),
{
    let j = choose|j: int| #[trigger] is_first_occurrence(haystack, needle, j);
    assert(is_first_occurrence(haystack, needle, j));
    if j < i {
        assert(!occurs_at(haystack, needle, j));
    }
    if i < j {
        assert(!occurs_at(haystack, needle, i));
    }
}

/// `twoway::find_bytes` "finds the first occurrence of `pattern` in the
/// `text`" (its documentation), and finds an empty pattern at 0.
pub assume_specification[ twoway::find_bytes ](text: &[u8], pattern: &[u8]) -> (r: Option<usize>)
    ensures
        r matches Some(i) ==> is_first_occurrence(text@, pattern@, i as int),
        r is None ==> forall|j: int| !#[trigger] occurs_at(text@, pattern@, j),
;

/// What taking a piece ending in `needle` out of `haystack` gives: the piece
/// (through the end of the first occurrence of `needle`) and what is left;
/// no piece, and everything left, when `needle` does not occur.
pub open spec fn spec_read_once_until(haystack: Seq<u8>, needle: Seq<u8>) -> (
    Option<Seq<u8>>,
    Seq<u8>,
) {
    if haystack.len() < needle.len() {
        (None, haystack)
    } else {
        match first_occurrence(haystack, needle) {
            Some(i) => (
                Some(haystack.take(i + needle.len())),
                haystack.skip(i + needle.len()),
            ),
            None => (None, haystack),
        }
    }
}

pub open spec fn opt_vec_view(r: Option<Vec<u8>>) -> Option<Seq<u8>> {
    match r {
        Some(v) => Some(v@),
        None => None,
    }
}

/// Takes the first `n` bytes out of `v`.
fn drain_front(v: &mut Vec<u8>, n: usize) -> (front: Vec<u8>)
    requires
        n <= old(v).len(),
    ensures
        front@ == old(v)@.take(n as int),
        final(v)@ == old(v)@.skip(n as int),
{
    let mut front: Vec<u8> = Vec::new();
    let mut rest: Vec<u8> = Vec::new();
    let mut i: usize = 0;
    while i < v.len()
        invariant
            n <= v.len(),
            i <= v.len(),
            i <= n ==> front@ == v@.take(i as int) && rest@ == Seq::<u8>::empty(),
            i > n ==> front@ == v@.take(n as int) && rest@ == v@.subrange(n as int, i as int),
        decreases v.len() - i,
    {
        if i < n {
            front.push(v[i]);
        } else {
            rest.push(v[i]);
        }
        i = i + 1;
        assert(i <= n ==> front@ =~= v@.take(i as int));
        assert(i > n ==> rest@ =~= v@.subrange(n as int, i as int));
    }
    if i <= n {
        assert(rest@ =~= v@.skip(n as int));
    } else {
        assert(rest@ =~= v@.skip(n as int));
    }
    *v = rest;
    front
}

/// Takes out of `haystack` everything up to and including the first
/// occurrence of `needle`, if `needle` occurs; otherwise leaves `haystack`
/// as it is.
pub fn read_once_until(haystack: &mut Vec<u8>, needle: &[u8]) -> (result: Option<Vec<u8>>)
    ensures
        (opt_vec_view(result), final(haystack)@) == spec_read_once_until(old(haystack)@, needle@),
{
    if haystack.len() < needle.len() {
        return None;
    }
    match twoway::find_bytes(haystack.as_slice(), needle) {
        Some(start_idx) => {
            proof {
                lemma_first_occurrence_unique(old(haystack)@, needle@, start_idx as int);
            }
            let end_idx = start_idx + needle.len();
            let data = drain_front(haystack, end_idx);
            Some(data)
        },
        None => {
            proof {
                if exists|i: int| #[trigger] is_first_occurrence(old(haystack)@, needle@, i) {
                    let i = choose|i: int| #[trigger] is_first_occurrence(old(haystack)@, needle@, i);
                    assert(occurs_at(old(haystack)@, needle@, i));
                }
            }
            None
        },
    }
}

/// Bytes read from a connection and not yet taken out.
pub struct StreamBuf {
    buffer: Vec<u8>,
}

impl View for StreamBuf {
    type V = Seq<u8>;

    closed spec fn view(&self) -> Seq<u8> {
        self.buffer@
    }
}

/// An empty buffer.
pub fn new() -> (stream: StreamBuf)
    ensures
        stream@ == Seq::<u8>::empty(),
{
    StreamBuf { buffer: Vec::with_capacity(100) }
}

/// `\r\n`
pub open spec fn line_end() -> Seq<u8> {
    seq![13u8, 10u8]
}

impl StreamBuf {
    /// The bytes that are buffered.
    pub fn buffered(&self) -> (r: &[u8])
        ensures
            r@ == self@,
    {
        self.buffer.as_slice()
    }

    /// Adds the bytes of a read from the connection at the end of the buffer.
    pub fn push_input(&mut self, input: &[u8])
        ensures
            final(self)@ == old(self)@ + input@,
    {
        let mut i: usize = 0;
        while i < input.len()
            invariant
                i <= input.len(),
                self.buffer@ == old(self)@ + input@.take(i as int),
            decreases input.len() - i,
        {
            self.buffer.push(input[i]);
            i = i + 1;
            assert(self.buffer@ =~= old(self)@ + input@.take(i as int));
        }
        assert(input@.take(input.len() as int) =~= input@);
    }

    /// Adds the bytes of a read and takes out the bytes up to and including
    /// the first `terminator`, if the buffer now holds one. Called again
    /// with each further read until it returns a piece.
    pub fn read_until(&mut self, input: &[u8], terminator: &[u8]) -> (result: Option<Vec<u8>>)
        ensures
            (opt_vec_view(result), final(self)@) == spec_read_once_until(
                old(self)@ + input@,
                terminator@,
            ),
    {
        self.push_input(input);
        read_once_until(&mut self.buffer, terminator)
    }

    /// Adds the bytes of a read and takes out a line ending in `\r\n`, if
    /// the buffer now holds one.
    pub fn read_line(&mut self, input: &[u8]) -> (result: Option<Vec<u8>>)
        ensures
            (opt_vec_view(result), final(self)@) == spec_read_once_until(
                old(self)@ + input@,
                line_end(),
            ),
    {
        let end: &[u8] = &[13u8, 10u8];
        assert(end@ =~= line_end());
        self.read_until(input, end)
    }

    /// Adds the bytes of a read and takes out the first `cnt` bytes, once
    /// the buffer holds that many.
    pub fn read_num_bytes(&mut self, input: &[u8], cnt: usize) -> (result: Option<Vec<u8>>)
        ensures
            ({
                let all = old(self)@ + input@;
                if all.len() >= cnt {
                    opt_vec_view(result) == Some(all.take(cnt as int)) && final(self)@ == all.skip(
                        cnt as int,
                    )
                } else {
                    result is None && final(self)@ == all
                }
            }),
    {
        self.push_input(input);
        if self.buffer.len() >= cnt {
            Some(drain_front(&mut self.buffer, cnt))
        } else {
            None
        }
    }
}


proof fn lemma_first_exists(haystack: Seq<u8>, needle: Seq<u8>, k: int)
    requires
        occurs_at(haystack, needle, k),
    ensures
        exists|i: int| #[trigger] is_first_occurrence(haystack, needle, i),
    decreases k,
{
    if forall|j: int| 0 <= j < k ==> !#[trigger] occurs_at(haystack, needle, j) {
        assert(is_first_occurrence(haystack, needle, k));
    } else {
        let j = choose|j: int| 0 <= j < k && #[trigger] occurs_at(haystack, needle, j);
        lemma_first_exists(haystack, needle, j);
    }
}

/// Law: a piece that is taken out ends with the terminator and holds it
/// nowhere before, and the piece followed by what is left gives back the
/// buffer; when no piece is taken out, the terminator occurs nowhere in the
/// buffer and the buffer stays as it was.
pub proof fn law_read_once_until_splits(haystack: Seq<u8>, needle: Seq<u8>)
    ensures
        match spec_read_once_until(haystack, needle) {
            (Some(piece), rest) => {
                &&& piece + rest == haystack
                &&& piece.len() >= needle.len()
                &&& piece.subrange(piece.len() - needle.len(), piece.len() as int) == needle
                &&& forall|j: int| 0 <= j < piece.len() - needle.len() ==> !#[trigger] occurs_at(piece, needle, j)
            },
            (None, rest) => rest == haystack && forall|j: int| !#[trigger] occurs_at(haystack, needle, j),
        },
{
    if haystack.len() < needle.len() {
        assert forall|j: int| !#[trigger] occurs_at(haystack, needle, j) by {}
    } else {
        match first_occurrence(haystack, needle) {
            Some(i) => {
                assert(is_first_occurrence(haystack, needle, i));
                let e = i + needle.len();
                let piece = haystack.take(e);
                assert(piece + haystack.skip(e) =~= haystack);
                assert(piece.subrange(i, e) =~= haystack.subrange(i, e));
                assert forall|j: int| 0 <= j < piece.len() - needle.len() implies !#[trigger] occurs_at(piece, needle, j) by {
                    if occurs_at(piece, needle, j) {
                        assert(haystack.subrange(j, j + needle.len()) =~= piece.subrange(j, j + needle.len()));
                        assert(occurs_at(haystack, needle, j));
                    }
                }
            },
            None => {
                assert forall|j: int| !#[trigger] occurs_at(haystack, needle, j) by {
                    if occurs_at(haystack, needle, j) {
                        lemma_first_exists(haystack, needle, j);
                    }
                }
            },
        }
    }
}

} // verus!
