//! The mathematical model of pattern matching and of the left-to-right
//! demarcation scan.
//!
//! Every executable contract in this crate is stated over the spec functions
//! defined here: a pattern occurrence is [`matches_at`], the one-pass batch
//! scan of a buffer is [`scan`], and the incremental scan over a chunked
//! source is [`stream_out`].

use vstd::prelude::*;

verus! {

/// `pat` occurs in `buf` starting at position `i`, byte for byte.
pub open spec fn matches_at(pat: Seq<u8>, buf: Seq<u8>, i: int) -> bool {
    &&& 0 <= i
    &&& i + pat.len() <= buf.len()
    &&& buf.subrange(i, i + pat.len() as int) == pat
}

/// The suffix of `pat` starting at position `k` occurs in `buf` at `i`.
/// `suffix_matches(pat, 0, buf, i)` is `matches_at(pat, buf, i)`.
pub open spec fn suffix_matches(pat: Seq<u8>, k: int, buf: Seq<u8>, i: int) -> bool {
    &&& 0 <= k <= pat.len()
    &&& 0 <= i
    &&& i + (pat.len() - k) <= buf.len()
    &&& buf.subrange(i, i + (pat.len() - k)) == pat.subrange(k, pat.len() as int)
}

/// All bytes of a pattern are pairwise distinct.
pub open spec fn pattern_distinct(p: Seq<u8>) -> bool {
    forall|a: int, b: int| 0 <= a < b < p.len() ==> p[a] != p[b]
}

/// A well-formed framer configuration: a non-empty mark with distinct bytes,
/// a tail (empty means absent) with distinct bytes, and the two different.
pub open spec fn valid_config(mark: Seq<u8>, tail: Seq<u8>) -> bool {
    &&& mark.len() > 0
    &&& pattern_distinct(mark)
    &&& pattern_distinct(tail)
    &&& mark != tail
}

/// The position in `p`, at or after `i`, of the first occurrence of byte `b`.
pub open spec fn index_of_from(p: Seq<u8>, b: u8, i: int) -> Option<int>
    decreases p.len() - i,
{
    if i < 0 || i >= p.len() {
        None
    } else if p[i] == b {
        Some(i)
    } else {
        index_of_from(p, b, i + 1)
    }
}

/// The position of the first occurrence of byte `b` in `p`.
pub open spec fn index_of(p: Seq<u8>, b: u8) -> Option<int> {
    index_of_from(p, b, 0)
}

/// The first position at or after `j` holding the same byte as `s[i]`.
pub open spec fn dup_partner_from(s: Seq<u8>, i: int, j: int) -> Option<int>
    decreases s.len() - j,
{
    if j < 0 || j >= s.len() {
        None
    } else if s[j] == s[i] {
        Some(j)
    } else {
        dup_partner_from(s, i, j + 1)
    }
}

/// The first duplicated byte of `s`, searching positions `i` in ascending
/// order and, for each, the first later position holding the same byte.
pub open spec fn first_dup_from(s: Seq<u8>, i: int) -> Option<(int, int)>
    decreases s.len() - i,
{
    if i < 0 || i >= s.len() {
        None
    } else {
        match dup_partner_from(s, i, i + 1) {
            Some(j) => Some((i, j)),
            None => first_dup_from(s, i + 1),
        }
    }
}

/// The first duplicated byte of `s`: `Some((i, j))` with `i < j` and
/// `s[i] == s[j]`, or `None` when all bytes are distinct.
pub open spec fn first_dup(s: Seq<u8>) -> Option<(int, int)> {
    first_dup_from(s, 0)
}

/// A mark or tail occurrence starts at position `i` of `buf`.
pub open spec fn hit_at(mark: Seq<u8>, tail: Seq<u8>, buf: Seq<u8>, i: int) -> bool {
    matches_at(mark, buf, i) || (tail.len() > 0 && matches_at(tail, buf, i))
}

/// The first position at or after `i` where a mark or tail occurrence starts.
pub open spec fn find_hit(mark: Seq<u8>, tail: Seq<u8>, buf: Seq<u8>, i: int) -> Option<int>
    decreases buf.len() - i,
{
    if i < 0 || i >= buf.len() {
        None
    } else if hit_at(mark, tail, buf, i) {
        Some(i)
    } else {
        find_hit(mark, tail, buf, i + 1)
    }
}

/// `buf.subrange(a, b)` guarded to be total: empty unless `0 <= a <= b <= len`.
pub open spec fn seg_between(buf: Seq<u8>, a: int, b: int) -> Seq<u8> {
    if 0 <= a <= b <= buf.len() {
        buf.subrange(a, b)
    } else {
        Seq::empty()
    }
}

/// The state of the demarcation scan: the segments emitted so far, the cut
/// position (one past the last consumed pattern occurrence, the start of the
/// next segment), and whether a tail occurrence halted the scan.
#[verifier::ext_equal]
pub ghost struct ScanState {
    pub segs: Seq<Seq<u8>>,
    pub cut: int,
    pub halted: bool,
}

/// The left-to-right demarcation scan of `buf`, from position `i` with
/// current cut `cut` and already-emitted segments `segs`.
///
/// At each position, a mark occurrence emits the segment from the cut to the
/// occurrence and moves the cut past the mark; independently, a tail
/// occurrence then emits the segment up to it and halts the scan. Scanning
/// advances one position at a time, so a consumed occurrence is never
/// re-judged, and the leftmost occurrence wins.
pub open spec fn scan_from(
    mark: Seq<u8>,
    tail: Seq<u8>,
    buf: Seq<u8>,
    i: int,
    cut: int,
    segs: Seq<Seq<u8>>,
) -> ScanState
    decreases buf.len() - i,
{
    if i < 0 || i >= buf.len() {
        ScanState { segs, cut, halted: false }
    } else {
        let hit_mark = matches_at(mark, buf, i);
        let segs1 = if hit_mark {
            segs.push(seg_between(buf, cut, i))
        } else {
            segs
        };
        let cut1 = if hit_mark {
            i + mark.len() as int
        } else {
            cut
        };
        if tail.len() > 0 && matches_at(tail, buf, i) {
            ScanState { segs: segs1.push(seg_between(buf, cut1, i)), cut: i + tail.len() as int, halted: true }
        } else {
            scan_from(mark, tail, buf, i + 1, cut1, segs1)
        }
    }
}

/// The full demarcation scan of `buf`.
pub open spec fn scan(mark: Seq<u8>, tail: Seq<u8>, buf: Seq<u8>) -> ScanState {
    scan_from(mark, tail, buf, 0, 0, Seq::empty())
}

/// The frames produced from a fully materialized buffer: the scanned
/// segments and, when the scan ran to the end with trailing bytes after the
/// last cut, those bytes as a final frame.
pub open spec fn batch_frames(mark: Seq<u8>, tail: Seq<u8>, buf: Seq<u8>) -> Seq<Seq<u8>> {
    let st = scan(mark, tail, buf);
    if st.halted {
        st.segs
    } else if st.cut < buf.len() {
        st.segs.push(seg_between(buf, st.cut, buf.len() as int))
    } else {
        st.segs
    }
}

/// The frames produced by the incremental scan: scan the pending bytes; on a
/// tail occurrence stop; otherwise, when the source is exhausted the
/// unconsumed suffix becomes the final frame, and when a chunk remains the
/// unconsumed suffix is prepended to it and rescanned from its start.
pub open spec fn stream_out(
    mark: Seq<u8>,
    tail: Seq<u8>,
    pending: Seq<u8>,
    chunks: Seq<Seq<u8>>,
) -> Seq<Seq<u8>>
    decreases chunks.len(),
{
    if chunks.len() == 0 {
        batch_frames(mark, tail, pending)
    } else {
        let st = scan(mark, tail, pending);
        if st.halted {
            st.segs
        } else {
            st.segs + stream_out(
                mark,
                tail,
                seg_between(pending, st.cut, pending.len() as int) + chunks[0],
                chunks.drop_first(),
            )
        }
    }
}

/// No tail occurrence starts inside a mark occurrence (at its start or
/// strictly within its window). Such an overlap is the one way the batch
/// scan's cut could pass a tail occurrence before judging it, and it cannot
/// arise when payloads are free of pattern bytes.
pub open spec fn no_conflicting_tail(mark: Seq<u8>, tail: Seq<u8>, buf: Seq<u8>) -> bool {
    forall|i: int, j: int|
        #[trigger] matches_at(mark, buf, i) && tail.len() > 0 && #[trigger] matches_at(tail, buf, j)
            ==> !(i <= j < i + mark.len())
}

/// The batch scan reaches its first tail occurrence with the cut at or
/// before it: every tail occurrence that starts inside a mark occurrence is
/// preceded by an earlier tail occurrence, at which the scan already halted.
pub open spec fn unmark_safe(mark: Seq<u8>, tail: Seq<u8>, buf: Seq<u8>) -> bool {
    forall|i: int, j: int|
        #[trigger] matches_at(mark, buf, i) && tail.len() > 0 && #[trigger] matches_at(tail, buf, j)
            && i <= j < i + mark.len() ==> exists|k: int| k < j && #[trigger] matches_at(tail, buf, k)
}

/// No pattern occurrence starts at or strictly inside another pattern's
/// occurrence window. Under this condition a chunked scan finds exactly the
/// occurrences the batch scan finds, wherever the chunk boundaries fall.
pub open spec fn stream_safe(mark: Seq<u8>, tail: Seq<u8>, buf: Seq<u8>) -> bool {
    &&& no_conflicting_tail(mark, tail, buf)
    &&& forall|i: int, j: int|
        tail.len() > 0 && #[trigger] matches_at(tail, buf, i) && #[trigger] matches_at(mark, buf, j)
            ==> !(i <= j < i + tail.len())
}

} // verus!
