//! The laws of the demarcation scan, stated and proved against the model in
//! [`crate::model`]: round-tripping a marked payload, splitting a
//! multi-segment stream, tail precedence, and the equivalence of the
//! incremental scan with the batch scan under every chunking of the input.

use vstd::prelude::*;

use crate::lemmas::lemma_matches_at_append;
use crate::lemmas::lemma_matches_at_append_inner;
use crate::lemmas::lemma_matches_at_skip;
use crate::lemmas::lemma_no_self_overlap;
use crate::lemmas::lemma_scan_cut_range;
use crate::lemmas::lemma_scan_extend_top;
use crate::lemmas::lemma_scan_from_acc;
use crate::lemmas::lemma_scan_from_no_hits;
use crate::lemmas::lemma_scan_from_shift;
use crate::lemmas::lemma_scan_reaches;
use crate::lemmas::lemma_stream_safe_skip;
use crate::model::batch_frames;
use crate::model::hit_at;
use crate::model::matches_at;
use crate::model::scan;
use crate::model::scan_from;
use crate::model::seg_between;
use crate::model::stream_out;
use crate::model::stream_safe;
use crate::model::valid_config;

verus! {

/// `pat` occurs somewhere in `buf`.
pub open spec fn occurs(pat: Seq<u8>, buf: Seq<u8>) -> bool {
    exists|i: int| matches_at(pat, buf, i)
}

/// An empty buffer produces no frames, batch or streamed.
pub proof fn lemma_empty_buffer(mark: Seq<u8>, tail: Seq<u8>)
    ensures
        batch_frames(mark, tail, Seq::empty()) == Seq::<Seq<u8>>::empty(),
        stream_out(mark, tail, Seq::empty(), Seq::empty()) == Seq::<Seq<u8>>::empty(),
{
}

/// The concatenation of the payloads, each followed by the mark: the wire
/// form of a multi-segment stream.
pub open spec fn marked_stream(mark: Seq<u8>, payloads: Seq<Seq<u8>>) -> Seq<u8> {
    payloads.map_values(|p: Seq<u8>| p + mark).flatten()
}

/// Round trip: a payload that does not contain the mark, once marked,
/// scans back to exactly that one segment, with the whole buffer consumed
/// and no remainder. When a tail is configured it must not occur in the
/// marked buffer, or the scan would halt at it instead.
pub proof fn lemma_round_trip(mark: Seq<u8>, tail: Seq<u8>, payload: Seq<u8>)
    requires
        valid_config(mark, tail),
        !occurs(mark, payload),
        tail.len() == 0 || !occurs(tail, payload + mark),
    ensures
        ({
            let st = scan(mark, tail, payload + mark);
            &&& st.segs == seq![payload]
            &&& !st.halted
            &&& st.cut == payload.len() + mark.len()
        }),
{
    let b = payload + mark;
    let n = payload.len() as int;
    let m = mark.len() as int;
    assert(matches_at(mark, b, n)) by {
        assert(b.subrange(n, n + m) =~= mark);
    }
    assert forall|u: int| 0 <= u < b.len() && u != n implies !hit_at(mark, tail, b, u) by {
        if matches_at(mark, b, u) {
            if u > n {
                assert(false);
            } else if u + m <= n {
                lemma_matches_at_append_inner(mark, payload, mark, u);
                assert(matches_at(mark, payload, u));
                assert(false);
            } else {
                lemma_no_self_overlap(mark, b, u, n);
                assert(false);
            }
        }
        if tail.len() > 0 && matches_at(tail, b, u) {
            assert(false);
        }
    }
    lemma_scan_from_no_hits(mark, tail, b, 0, n, 0, Seq::empty());
    assert(seg_between(b, 0, n) == payload) by {
        assert(b.subrange(0, n) =~= payload);
    }
    let segs1 = Seq::<Seq<u8>>::empty().push(payload);
    lemma_scan_from_no_hits(mark, tail, b, n + 1, n + m, n + m, segs1);
    assert(scan(mark, tail, b).segs =~= seq![payload]);
}

/// Multi-segment: payloads free of the mark, each followed by the mark and
/// concatenated, scan back to exactly those payloads in order, with the
/// whole buffer consumed. When a tail is configured it must not occur in
/// the concatenation.
pub proof fn lemma_multi_segment(mark: Seq<u8>, tail: Seq<u8>, payloads: Seq<Seq<u8>>)
    requires
        valid_config(mark, tail),
        forall|k: int| 0 <= k < payloads.len() ==> !occurs(mark, #[trigger] payloads[k]),
        tail.len() == 0 || !occurs(tail, marked_stream(mark, payloads)),
    ensures
        ({
            let st = scan(mark, tail, marked_stream(mark, payloads));
            &&& st.segs == payloads
            &&& !st.halted
            &&& st.cut == marked_stream(mark, payloads).len()
        }),
    decreases payloads.len(),
{
    let b = marked_stream(mark, payloads);
    if payloads.len() == 0 {
        assert(b =~= Seq::<u8>::empty());
        assert(scan(mark, tail, b).segs =~= payloads);
    } else {
        let p0 = payloads[0];
        let rest = payloads.drop_first();
        let b0 = p0 + mark;
        let brest = marked_stream(mark, rest);
        assert(payloads.map_values(|p: Seq<u8>| p + mark).drop_first() =~= rest.map_values(
            |p: Seq<u8>| p + mark,
        ));
        assert(b == b0 + brest);
        assert(tail.len() == 0 || !occurs(tail, b0)) by {
            if tail.len() > 0 && occurs(tail, b0) {
                let i = choose|i: int| matches_at(tail, b0, i);
                lemma_matches_at_append(tail, b0, brest, i);
                assert(occurs(tail, b));
            }
        }
        lemma_round_trip(mark, tail, p0);
        let st0 = scan(mark, tail, b0);
        assert(stream_safe(mark, tail, b)) by {
            if tail.len() > 0 {
                assert forall|i: int, j: int|
                    #[trigger] matches_at(mark, b, i) && tail.len() > 0
                        && #[trigger] matches_at(tail, b, j) implies !(i <= j < i
                    + mark.len()) by {
                    assert(occurs(tail, b));
                }
                assert forall|i: int, j: int|
                    tail.len() > 0 && #[trigger] matches_at(tail, b, i)
                        && #[trigger] matches_at(mark, b, j) implies !(i <= j < i
                    + tail.len()) by {
                    assert(occurs(tail, b));
                }
            }
        }
        lemma_scan_extend_top(mark, tail, b0, brest);
        lemma_scan_from_acc(mark, tail, b, st0.cut, st0.cut, st0.segs);
        lemma_scan_from_shift(mark, tail, b, st0.cut, st0.cut, st0.cut);
        assert(b.subrange(st0.cut, b.len() as int) =~= brest);
        assert forall|k: int| 0 <= k < rest.len() implies !occurs(mark, #[trigger] rest[k]) by {
            assert(rest[k] == payloads[k + 1]);
        }
        assert(tail.len() == 0 || !occurs(tail, brest)) by {
            if tail.len() > 0 && occurs(tail, brest) {
                let i = choose|i: int| matches_at(tail, brest, i);
                lemma_matches_at_skip(tail, b, st0.cut, st0.cut + i);
                assert(matches_at(tail, b, st0.cut + i));
                assert(occurs(tail, b));
            }
        }
        lemma_multi_segment(mark, tail, rest);
        let str = scan(mark, tail, brest);
        assert(scan(mark, tail, b).segs == st0.segs + str.segs);
        assert(seq![p0] + rest =~= payloads);
        assert(scan(mark, tail, b).cut == str.cut + st0.cut);
    }
}

/// Tail precedence: a buffer of the shape `prefix ++ mark ++ x ++ tail`,
/// where the appended tail is the first tail occurrence and no mark
/// occurrence starts at or after the end of the appended mark, scans to a
/// halt whose final segment is exactly `x`, whatever earlier segments the
/// prefix produced.
pub proof fn lemma_tail_precedence(
    mark: Seq<u8>,
    tail: Seq<u8>,
    b: Seq<u8>,
    prefix: Seq<u8>,
    x: Seq<u8>,
)
    requires
        valid_config(mark, tail),
        tail.len() > 0,
        b == prefix + mark + x + tail,
        forall|j: int| #[trigger] matches_at(tail, b, j) ==> j >= prefix.len() + mark.len()
            + x.len(),
        forall|i: int| #[trigger] matches_at(mark, b, i) ==> i < prefix.len() + mark.len(),
    ensures
        ({
            let st = scan(mark, tail, b);
            &&& st.halted
            &&& st.segs.len() >= 1
            &&& st.segs.last() == x
        }),
{
    let p = prefix.len() as int;
    let m = mark.len() as int;
    let tl = tail.len() as int;
    let t = p + m + x.len() as int;
    assert(b.len() == t + tl);
    assert(matches_at(mark, b, p)) by {
        assert(b.subrange(p, p + m) =~= mark);
    }
    assert(matches_at(tail, b, t)) by {
        assert(b.subrange(t, t + tl) =~= tail);
    }
    lemma_scan_reaches(mark, tail, b, 0, 0, Seq::empty(), p);
    let cs = choose|cs: (int, Seq<Seq<u8>>)|
        scan_from(mark, tail, b, 0, 0, Seq::empty()) == scan_from(mark, tail, b, p, cs.0, cs.1);
    let segs1 = cs.1.push(seg_between(b, cs.0, p));
    assert forall|u: int| p + 1 <= u < p + m implies !hit_at(mark, tail, b, u) by {
        if matches_at(mark, b, u) {
            lemma_no_self_overlap(mark, b, p, u);
        }
        if matches_at(tail, b, u) {
            assert(u >= t);
        }
    }
    lemma_scan_from_no_hits(mark, tail, b, p + 1, p + m, p + m, segs1);
    assert forall|u: int| p + m <= u < t implies !hit_at(mark, tail, b, u) by {
        if matches_at(mark, b, u) {
            assert(u < p + m);
        }
        if matches_at(tail, b, u) {
            assert(u >= t);
        }
    }
    lemma_scan_from_no_hits(mark, tail, b, p + m, t, p + m, segs1);
    assert(seg_between(b, p + m, t) == x) by {
        assert(b.subrange(p + m, t) =~= x);
    }
    assert(scan(mark, tail, b).segs == segs1.push(x));
}

/// Boundary splitting: a pattern occurrence split across two consecutive
/// chunks — the mark's first half ending one chunk, its second half
/// starting the next — is still detected as a single occurrence: streaming
/// the two chunks produces exactly the batch frames of their concatenation.
pub proof fn lemma_boundary_split(mark: Seq<u8>, tail: Seq<u8>, a: Seq<u8>, b: Seq<u8>)
    requires
        valid_config(mark, tail),
        stream_safe(mark, tail, a + b),
    ensures
        stream_out(mark, tail, Seq::empty(), seq![a, b]) == batch_frames(mark, tail, a + b),
{
    let chunks = seq![a, b];
    assert(chunks.flatten() == a + b) by {
        reveal_with_fuel(Seq::<Seq<u8>>::flatten, 3);
        assert(chunks.drop_first() =~= seq![b]);
        assert(seq![b].drop_first() =~= Seq::<Seq<u8>>::empty());
        assert(a + (b + Seq::<u8>::empty()) =~= a + b);
    }
    lemma_streaming_equivalence(mark, tail, chunks);
}

/// Streaming equivalence, generalized for the induction: starting from any
/// pending bytes, the incremental scan over the remaining chunks produces
/// exactly the batch frames of the concatenation, provided no pattern
/// occurrence of the whole input starts inside another's window.
pub proof fn lemma_stream_batch_equiv(
    mark: Seq<u8>,
    tail: Seq<u8>,
    pending: Seq<u8>,
    chunks: Seq<Seq<u8>>,
)
    requires
        valid_config(mark, tail),
        stream_safe(mark, tail, pending + chunks.flatten()),
    ensures
        stream_out(mark, tail, pending, chunks) == batch_frames(
            mark,
            tail,
            pending + chunks.flatten(),
        ),
    decreases chunks.len(),
{
    let full = pending + chunks.flatten();
    if chunks.len() == 0 {
        assert(full =~= pending);
    } else {
        let st = scan(mark, tail, pending);
        let c0 = chunks[0];
        let rest = chunks.drop_first();
        let ext = c0 + rest.flatten();
        assert(chunks.first() == c0);
        assert(full == pending + ext);
        lemma_scan_extend_top(mark, tail, pending, ext);
        if st.halted {
            assert(stream_out(mark, tail, pending, chunks) == st.segs);
            assert(batch_frames(mark, tail, full) == st.segs);
        } else {
            lemma_scan_cut_range(mark, tail, pending, 0, 0, Seq::empty());
            let pend2 = seg_between(pending, st.cut, pending.len() as int) + c0;
            let sfx = full.subrange(st.cut, full.len() as int);
            assert(pend2 + rest.flatten() =~= sfx);
            lemma_stream_safe_skip(mark, tail, full, st.cut);
            lemma_stream_batch_equiv(mark, tail, pend2, rest);
            assert(stream_out(mark, tail, pend2, rest) == batch_frames(mark, tail, sfx));
            lemma_scan_from_acc(mark, tail, full, st.cut, st.cut, st.segs);
            lemma_scan_from_shift(mark, tail, full, st.cut, st.cut, st.cut);
            let y = scan(mark, tail, sfx);
            assert(scan(mark, tail, full).segs == st.segs + y.segs);
            assert(scan(mark, tail, full).halted == y.halted);
            assert(scan(mark, tail, full).cut == y.cut + st.cut);
            if y.halted {
                assert(batch_frames(mark, tail, full) == st.segs + batch_frames(mark, tail, sfx));
            } else {
                lemma_scan_cut_range(mark, tail, sfx, 0, 0, Seq::empty());
                if y.cut < sfx.len() {
                    let e = seg_between(sfx, y.cut, sfx.len() as int);
                    assert(seg_between(full, y.cut + st.cut, full.len() as int) == e) by {
                        assert(full.subrange(y.cut + st.cut, full.len() as int) =~= sfx.subrange(
                            y.cut,
                            sfx.len() as int,
                        ));
                    }
                    assert((st.segs + y.segs).push(e) =~= st.segs + y.segs.push(e));
                }
                assert(batch_frames(mark, tail, full) == st.segs + batch_frames(mark, tail, sfx));
            }
            assert(stream_out(mark, tail, pending, chunks) == st.segs + stream_out(
                mark,
                tail,
                pend2,
                rest,
            ));
        }
    }
}

/// Streaming equivalence: over any way of splitting a byte buffer into
/// consecutive chunks, the incremental scan yields the same ordered frames
/// as the batch scan of the whole buffer at once (the batch scan's terminal
/// remainder standing as the final streamed frame), provided no pattern
/// occurrence of the buffer starts inside another occurrence's window.
pub proof fn lemma_streaming_equivalence(mark: Seq<u8>, tail: Seq<u8>, chunks: Seq<Seq<u8>>)
    requires
        valid_config(mark, tail),
        stream_safe(mark, tail, chunks.flatten()),
    ensures
        stream_out(mark, tail, Seq::empty(), chunks) == batch_frames(
            mark,
            tail,
            chunks.flatten(),
        ),
{
    assert(Seq::<u8>::empty() + chunks.flatten() =~= chunks.flatten());
    lemma_stream_batch_equiv(mark, tail, Seq::empty(), chunks);
}

} // verus!
