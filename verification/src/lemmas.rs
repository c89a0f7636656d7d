//! Basic facts about byte lookup, duplicate detection and pattern
//! occurrences, proved once and shared by the executable proofs.

use vstd::prelude::*;

use crate::model::dup_partner_from;
use crate::model::find_hit;
use crate::model::first_dup;
use crate::model::first_dup_from;
use crate::model::hit_at;
use crate::model::index_of;
use crate::model::index_of_from;
use crate::model::matches_at;
use crate::model::pattern_distinct;
use crate::model::scan;
use crate::model::scan_from;
use crate::model::seg_between;
use crate::model::stream_out;
use crate::model::stream_safe;
use crate::model::suffix_matches;
use crate::model::valid_config;

verus! {

/// What a successful or failed byte lookup from position `i` means.
pub proof fn lemma_index_of_from_props(p: Seq<u8>, b: u8, i: int)
    requires
        0 <= i,
    ensures
        match index_of_from(p, b, i) {
            Some(k) => i <= k < p.len() && p[k] == b && (forall|t: int| i <= t < k ==> p[t] != b),
            None => forall|t: int| i <= t < p.len() ==> p[t] != b,
        },
    decreases p.len() - i,
{
    if i < p.len() && p[i] != b {
        lemma_index_of_from_props(p, b, i + 1);
    }
}

/// What a byte lookup over the whole pattern means.
pub proof fn lemma_index_of_props(p: Seq<u8>, b: u8)
    ensures
        match index_of(p, b) {
            Some(k) => 0 <= k < p.len() && p[k] == b && (forall|t: int| 0 <= t < k ==> p[t] != b),
            None => forall|t: int| 0 <= t < p.len() ==> p[t] != b,
        },
{
    lemma_index_of_from_props(p, b, 0);
}

/// In a pattern with distinct bytes, the lookup of a byte that occurs at `k`
/// returns exactly `k`.
pub proof fn lemma_index_of_unique(p: Seq<u8>, b: u8, k: int)
    requires
        pattern_distinct(p),
        0 <= k < p.len(),
        p[k] == b,
    ensures
        index_of(p, b) == Some(k),
{
    lemma_index_of_props(p, b);
    match index_of(p, b) {
        Some(j) => {
            if j < k {
                assert(p[j] == p[k]);
                assert(false);
            } else if j > k {
                assert(p[k] != b);
                assert(false);
            }
        },
        None => {
            assert(p[k] != b);
            assert(false);
        },
    }
}

/// An empty pattern suffix occurs everywhere inside the buffer.
pub proof fn lemma_suffix_matches_end(pat: Seq<u8>, buf: Seq<u8>, i: int)
    requires
        0 <= i <= buf.len(),
    ensures
        suffix_matches(pat, pat.len() as int, buf, i),
{
    assert(buf.subrange(i, i) =~= pat.subrange(pat.len() as int, pat.len() as int));
}

/// Occurrence of the suffix from `k` unfolds to one byte plus the suffix
/// from `k + 1`.
pub proof fn lemma_suffix_matches_step(pat: Seq<u8>, k: int, buf: Seq<u8>, i: int)
    requires
        0 <= k < pat.len(),
    ensures
        suffix_matches(pat, k, buf, i) <==> (0 <= i < buf.len() && buf[i] == pat[k]
            && suffix_matches(pat, k + 1, buf, i + 1)),
{
    let l = pat.len() as int;
    if suffix_matches(pat, k, buf, i) {
        assert(buf.subrange(i, i + (l - k))[0] == pat.subrange(k, l)[0]);
        let lhs = buf.subrange(i + 1, i + 1 + (l - (k + 1)));
        let rhs = pat.subrange(k + 1, l);
        assert(lhs =~= rhs) by {
            assert forall|t: int| 0 <= t < l - k - 1 implies #[trigger] lhs[t] == rhs[t] by {
                assert(buf.subrange(i, i + (l - k))[t + 1] == pat.subrange(k, l)[t + 1]);
            }
        }
    }
    if 0 <= i < buf.len() && buf[i] == pat[k] && suffix_matches(pat, k + 1, buf, i + 1) {
        let lhs = buf.subrange(i, i + (l - k));
        let rhs = pat.subrange(k, l);
        assert(lhs =~= rhs) by {
            assert forall|t: int| 0 <= t < l - k implies #[trigger] lhs[t] == rhs[t] by {
                if t > 0 {
                    assert(buf.subrange(i + 1, i + 1 + (l - (k + 1)))[t - 1] == pat.subrange(
                        k + 1,
                        l,
                    )[t - 1]);
                }
            }
        }
    }
}

/// A full occurrence is the occurrence of the suffix from position zero.
pub proof fn lemma_matches_at_suffix(pat: Seq<u8>, buf: Seq<u8>, i: int)
    ensures
        matches_at(pat, buf, i) <==> suffix_matches(pat, 0, buf, i),
{
    let l = pat.len() as int;
    assert(pat.subrange(0, l) =~= pat);
}

/// Within the first part of a concatenation, occurrence is unaffected by the
/// appended bytes.
pub proof fn lemma_matches_at_append_inner(pat: Seq<u8>, a: Seq<u8>, b: Seq<u8>, i: int)
    requires
        0 <= i,
        i + pat.len() <= a.len(),
    ensures
        matches_at(pat, a + b, i) <==> matches_at(pat, a, i),
{
    let l = pat.len() as int;
    assert((a + b).subrange(i, i + l) =~= a.subrange(i, i + l));
}

/// An occurrence survives appending bytes to the buffer.
pub proof fn lemma_matches_at_append(pat: Seq<u8>, a: Seq<u8>, b: Seq<u8>, i: int)
    requires
        matches_at(pat, a, i),
    ensures
        matches_at(pat, a + b, i),
{
    lemma_matches_at_append_inner(pat, a, b, i);
}

/// Occurrences at or beyond `p` are preserved, with positions shifted, when
/// the first `p` bytes of the buffer are dropped.
pub proof fn lemma_matches_at_skip(pat: Seq<u8>, buf: Seq<u8>, p: int, i: int)
    requires
        0 <= p <= i,
        i <= buf.len(),
    ensures
        matches_at(pat, buf, i) <==> matches_at(pat, buf.subrange(p, buf.len() as int), i - p),
{
    let n = buf.len() as int;
    let l = pat.len() as int;
    if i + l <= n {
        assert(buf.subrange(p, n).subrange(i - p, i - p + l) =~= buf.subrange(i, i + l));
    }
}

/// In a pattern with distinct bytes, no occurrence starts strictly inside
/// another occurrence's window.
pub proof fn lemma_no_self_overlap(pat: Seq<u8>, buf: Seq<u8>, i: int, j: int)
    requires
        pattern_distinct(pat),
        pat.len() > 0,
        matches_at(pat, buf, i),
        i < j < i + pat.len(),
    ensures
        !matches_at(pat, buf, j),
{
    let l = pat.len() as int;
    if matches_at(pat, buf, j) {
        assert(buf.subrange(j, j + l)[0] == pat[0]);
        assert(buf.subrange(i, i + l)[j - i] == pat[j - i]);
        assert(pat[0] == pat[j - i]);
        assert(false);
    }
}

/// What a successful or failed duplicate-partner search from `j` means.
pub proof fn lemma_dup_partner_from_props(s: Seq<u8>, i: int, j: int)
    requires
        0 <= i,
        i < j,
    ensures
        match dup_partner_from(s, i, j) {
            Some(k) => j <= k < s.len() && s[k] == s[i] && (forall|t: int|
                j <= t < k ==> s[t] != s[i]),
            None => forall|t: int| j <= t < s.len() ==> s[t] != s[i],
        },
    decreases s.len() - j,
{
    if j < s.len() && s[j] != s[i] {
        lemma_dup_partner_from_props(s, i, j + 1);
    }
}

proof fn lemma_first_dup_from_props(s: Seq<u8>, i: int)
    requires
        0 <= i,
    ensures
        match first_dup_from(s, i) {
            Some(pair) => i <= pair.0 < pair.1 < s.len() && s[pair.0] == s[pair.1],
            None => forall|a: int, b: int| i <= a < b < s.len() ==> s[a] != s[b],
        },
    decreases s.len() - i,
{
    if 0 <= i < s.len() {
        lemma_dup_partner_from_props(s, i, i + 1);
        if dup_partner_from(s, i, i + 1) is None {
            lemma_first_dup_from_props(s, i + 1);
        }
    }
}

/// Both kinds of occurrence transfer between a buffer and its suffix, with
/// positions shifted by the dropped prefix.
pub proof fn lemma_hit_at_skip(mark: Seq<u8>, tail: Seq<u8>, buf: Seq<u8>, p: int, i: int)
    requires
        0 <= p <= i,
        i <= buf.len(),
    ensures
        hit_at(mark, tail, buf, i) <==> hit_at(mark, tail, buf.subrange(p, buf.len() as int), i - p),
{
    lemma_matches_at_skip(mark, buf, p, i);
    lemma_matches_at_skip(tail, buf, p, i);
}

/// What a successful or failed search for the next occurrence means.
pub proof fn lemma_find_hit_props(mark: Seq<u8>, tail: Seq<u8>, buf: Seq<u8>, i: int)
    requires
        0 <= i,
    ensures
        match find_hit(mark, tail, buf, i) {
            Some(j) => i <= j < buf.len() && hit_at(mark, tail, buf, j) && (forall|t: int|
                i <= t < j ==> !hit_at(mark, tail, buf, t)),
            None => forall|t: int| i <= t < buf.len() ==> !hit_at(mark, tail, buf, t),
        },
    decreases buf.len() - i,
{
    if i < buf.len() && !hit_at(mark, tail, buf, i) {
        lemma_find_hit_props(mark, tail, buf, i + 1);
    }
}

/// A first occurrence pins down the search's result.
pub proof fn lemma_find_hit_witness(mark: Seq<u8>, tail: Seq<u8>, buf: Seq<u8>, i: int, j: int)
    requires
        0 <= i <= j < buf.len(),
        hit_at(mark, tail, buf, j),
        forall|t: int| i <= t < j ==> !hit_at(mark, tail, buf, t),
    ensures
        find_hit(mark, tail, buf, i) == Some(j),
    decreases j - i,
{
    if i < j {
        lemma_find_hit_witness(mark, tail, buf, i + 1, j);
    }
}

/// Absence of occurrences pins down the search's result.
pub proof fn lemma_find_hit_none(mark: Seq<u8>, tail: Seq<u8>, buf: Seq<u8>, i: int)
    requires
        0 <= i,
        forall|t: int| i <= t < buf.len() ==> !hit_at(mark, tail, buf, t),
    ensures
        find_hit(mark, tail, buf, i) is None,
    decreases buf.len() - i,
{
    if i < buf.len() {
        lemma_find_hit_none(mark, tail, buf, i + 1);
    }
}

/// The search from `p` in a buffer equals the search from the start of the
/// buffer's suffix at `p`, with positions shifted.
pub proof fn lemma_find_hit_skip(mark: Seq<u8>, tail: Seq<u8>, buf: Seq<u8>, p: int)
    requires
        0 <= p <= buf.len(),
    ensures
        ({
            let suf = buf.subrange(p, buf.len() as int);
            match find_hit(mark, tail, buf, p) {
                Some(j) => find_hit(mark, tail, suf, 0) == Some(j - p),
                None => find_hit(mark, tail, suf, 0) is None,
            }
        }),
{
    let suf = buf.subrange(p, buf.len() as int);
    lemma_find_hit_props(mark, tail, buf, p);
    match find_hit(mark, tail, buf, p) {
        Some(j) => {
            lemma_hit_at_skip(mark, tail, buf, p, j);
            assert forall|t: int| 0 <= t < j - p implies !hit_at(mark, tail, suf, t) by {
                lemma_hit_at_skip(mark, tail, buf, p, p + t);
            }
            lemma_find_hit_witness(mark, tail, suf, 0, j - p);
        },
        None => {
            assert forall|t: int| 0 <= t < suf.len() implies !hit_at(mark, tail, suf, t) by {
                lemma_hit_at_skip(mark, tail, buf, p, p + t);
            }
            lemma_find_hit_none(mark, tail, suf, 0);
        },
    }
}

/// A byte vector's deep view is its view.
pub proof fn lemma_vec_u8_deep_view(v: Vec<u8>)
    ensures
        v.deep_view() == v@,
{
    assert(v.deep_view() =~= v@);
}

/// The deep view of a vector of byte vectors is the sequence of the
/// elements' views.
pub proof fn lemma_vecs_deep_view(v: Vec<Vec<u8>>)
    ensures
        v.deep_view().len() == v@.len(),
        forall|i: int| 0 <= i < v@.len() ==> #[trigger] v.deep_view()[i] == v@[i]@,
{
    assert forall|i: int| 0 <= i < v@.len() implies #[trigger] v.deep_view()[i] == v@[i]@ by {
        lemma_vec_u8_deep_view(v@[i]);
    }
}

/// A pattern's bytes are pairwise distinct exactly when the duplicate search
/// finds nothing; when it finds a pair, that pair is a real duplicate.
pub proof fn lemma_first_dup_distinct(s: Seq<u8>)
    ensures
        (first_dup(s) is None) <==> pattern_distinct(s),
        match first_dup(s) {
            Some(pair) => 0 <= pair.0 < pair.1 < s.len() && s[pair.0] == s[pair.1],
            None => true,
        },
{
    lemma_first_dup_from_props(s, 0);
}

} // verus!

verus! {

/// The scan's already-emitted segments are a prefix it only appends to: the
/// scan from any accumulator equals the scan from an empty accumulator with
/// that accumulator prepended.
pub proof fn lemma_scan_from_acc(
    mark: Seq<u8>,
    tail: Seq<u8>,
    buf: Seq<u8>,
    i: int,
    cut: int,
    segs: Seq<Seq<u8>>,
)
    ensures
        ({
            let a = scan_from(mark, tail, buf, i, cut, segs);
            let b = scan_from(mark, tail, buf, i, cut, Seq::empty());
            &&& a.segs == segs + b.segs
            &&& a.cut == b.cut
            &&& a.halted == b.halted
        }),
    decreases buf.len() - i,
{
    let a = scan_from(mark, tail, buf, i, cut, segs);
    let b = scan_from(mark, tail, buf, i, cut, Seq::<Seq<u8>>::empty());
    if i < 0 || i >= buf.len() {
        assert(segs + Seq::<Seq<u8>>::empty() =~= segs);
    } else {
        let hit_mark = matches_at(mark, buf, i);
        let e = seg_between(buf, cut, i);
        let cut1 = if hit_mark {
            i + mark.len() as int
        } else {
            cut
        };
        let segs1 = if hit_mark {
            segs.push(e)
        } else {
            segs
        };
        let acc1 = if hit_mark {
            Seq::<Seq<u8>>::empty().push(e)
        } else {
            Seq::<Seq<u8>>::empty()
        };
        if tail.len() > 0 && matches_at(tail, buf, i) {
            let e2 = seg_between(buf, cut1, i);
            assert(segs1.push(e2) =~= segs + acc1.push(e2));
        } else {
            lemma_scan_from_acc(mark, tail, buf, i + 1, cut1, segs1);
            lemma_scan_from_acc(mark, tail, buf, i + 1, cut1, acc1);
            let t = scan_from(mark, tail, buf, i + 1, cut1, Seq::<Seq<u8>>::empty());
            assert(segs1 + t.segs =~= segs + (acc1 + t.segs));
        }
    }
}

/// Positions without an occurrence leave the scan's state unchanged.
pub proof fn lemma_scan_from_no_hits(
    mark: Seq<u8>,
    tail: Seq<u8>,
    buf: Seq<u8>,
    i: int,
    j: int,
    cut: int,
    segs: Seq<Seq<u8>>,
)
    requires
        0 <= i <= j,
        forall|u: int| i <= u < j ==> !hit_at(mark, tail, buf, u),
    ensures
        scan_from(mark, tail, buf, i, cut, segs) == scan_from(mark, tail, buf, j, cut, segs),
    decreases j - i,
{
    if i < j {
        if i < buf.len() {
            assert(!hit_at(mark, tail, buf, i));
        }
        lemma_scan_from_no_hits(mark, tail, buf, i + 1, j, cut, segs);
    }
}

/// Either the rest of the scan consumes no mark occurrence and changes
/// nothing, or it moves the cut strictly forward.
pub proof fn lemma_scan_cut_dichotomy(
    mark: Seq<u8>,
    tail: Seq<u8>,
    buf: Seq<u8>,
    i: int,
    cut: int,
    segs: Seq<Seq<u8>>,
)
    requires
        mark.len() > 0,
        cut < i + mark.len(),
    ensures
        ({
            let st = scan_from(mark, tail, buf, i, cut, segs);
            !st.halted ==> ((st.cut == cut && st.segs == segs) || st.cut > cut)
        }),
    decreases buf.len() - i,
{
    if 0 <= i < buf.len() {
        let hit_mark = matches_at(mark, buf, i);
        let cut1 = if hit_mark {
            i + mark.len() as int
        } else {
            cut
        };
        let segs1 = if hit_mark {
            segs.push(seg_between(buf, cut, i))
        } else {
            segs
        };
        if !(tail.len() > 0 && matches_at(tail, buf, i)) {
            lemma_scan_cut_dichotomy(mark, tail, buf, i + 1, cut1, segs1);
        }
    }
}

/// The scan's cut stays inside the buffer.
pub proof fn lemma_scan_cut_range(
    mark: Seq<u8>,
    tail: Seq<u8>,
    buf: Seq<u8>,
    i: int,
    cut: int,
    segs: Seq<Seq<u8>>,
)
    requires
        0 <= cut <= buf.len(),
    ensures
        0 <= scan_from(mark, tail, buf, i, cut, segs).cut <= buf.len(),
    decreases buf.len() - i,
{
    if 0 <= i < buf.len() {
        let hit_mark = matches_at(mark, buf, i);
        let cut1 = if hit_mark {
            i + mark.len() as int
        } else {
            cut
        };
        let segs1 = if hit_mark {
            segs.push(seg_between(buf, cut, i))
        } else {
            segs
        };
        if !(tail.len() > 0 && matches_at(tail, buf, i)) {
            lemma_scan_cut_range(mark, tail, buf, i + 1, cut1, segs1);
        }
    }
}

/// A buffer without occurrences scans to itself: no segments, cut at the
/// start, not halted.
pub proof fn lemma_scan_no_hits(mark: Seq<u8>, tail: Seq<u8>, buf: Seq<u8>)
    requires
        forall|u: int| 0 <= u < buf.len() ==> !hit_at(mark, tail, buf, u),
    ensures
        scan(mark, tail, buf).segs == Seq::<Seq<u8>>::empty(),
        scan(mark, tail, buf).cut == 0,
        !scan(mark, tail, buf).halted,
{
    lemma_scan_from_no_hits(mark, tail, buf, 0, buf.len() as int, 0, Seq::empty());
}

/// Dropping a prefix the scan has already cut past shifts the scan without
/// changing the segments it emits.
pub proof fn lemma_scan_from_shift(mark: Seq<u8>, tail: Seq<u8>, buf: Seq<u8>, p: int, i: int, cut: int)
    requires
        0 <= p <= cut,
        cut <= buf.len(),
        p <= i,
    ensures
        ({
            let suf = buf.subrange(p, buf.len() as int);
            let a = scan_from(mark, tail, buf, i, cut, Seq::empty());
            let b = scan_from(mark, tail, suf, i - p, cut - p, Seq::empty());
            &&& a.segs == b.segs
            &&& a.halted == b.halted
            &&& a.cut == b.cut + p
        }),
    decreases buf.len() - i,
{
    let suf = buf.subrange(p, buf.len() as int);
    let empty = Seq::<Seq<u8>>::empty();
    if i >= buf.len() {
    } else {
        lemma_matches_at_skip(mark, buf, p, i);
        lemma_matches_at_skip(tail, buf, p, i);
        let hit_mark = matches_at(mark, buf, i);
        let hit_tail = tail.len() > 0 && matches_at(tail, buf, i);
        let cut1 = if hit_mark {
            i + mark.len() as int
        } else {
            cut
        };
        let e = seg_between(buf, cut, i);
        assert(seg_between(buf, cut, i) == seg_between(suf, cut - p, i - p)) by {
            if cut <= i {
                assert(buf.subrange(cut, i) =~= suf.subrange(cut - p, i - p));
            }
        }
        if hit_tail {
            assert(seg_between(buf, cut1, i) == seg_between(suf, cut1 - p, i - p)) by {
                if cut1 <= i {
                    assert(buf.subrange(cut1, i) =~= suf.subrange(cut1 - p, i - p));
                }
            }
        } else {
            let acc1 = if hit_mark {
                empty.push(e)
            } else {
                empty
            };
            lemma_scan_from_shift(mark, tail, buf, p, i + 1, cut1);
            lemma_scan_from_acc(mark, tail, buf, i + 1, cut1, acc1);
            lemma_scan_from_acc(mark, tail, suf, i - p + 1, cut1 - p, acc1);
            let ta = scan_from(mark, tail, buf, i + 1, cut1, empty);
            let tb = scan_from(mark, tail, suf, i - p + 1, cut1 - p, empty);
            assert(acc1 + ta.segs =~= acc1 + tb.segs);
        }
    }
}

} // verus!

verus! {

/// Pattern-overlap safety is inherited by every suffix of a buffer.
pub proof fn lemma_stream_safe_skip(mark: Seq<u8>, tail: Seq<u8>, buf: Seq<u8>, p: int)
    requires
        stream_safe(mark, tail, buf),
        0 <= p <= buf.len(),
    ensures
        stream_safe(mark, tail, buf.subrange(p, buf.len() as int)),
{
    let suf = buf.subrange(p, buf.len() as int);
    assert forall|i: int, j: int|
        #[trigger] matches_at(mark, suf, i) && tail.len() > 0 && #[trigger] matches_at(
            tail,
            suf,
            j,
        ) implies !(i <= j < i + mark.len()) by {
        lemma_matches_at_skip(mark, buf, p, p + i);
        lemma_matches_at_skip(tail, buf, p, p + j);
        assert(matches_at(mark, buf, p + i));
        assert(matches_at(tail, buf, p + j));
    }
    assert forall|i: int, j: int|
        tail.len() > 0 && #[trigger] matches_at(tail, suf, i) && #[trigger] matches_at(
            mark,
            suf,
            j,
        ) implies !(i <= j < i + tail.len()) by {
        lemma_matches_at_skip(tail, buf, p, p + i);
        lemma_matches_at_skip(mark, buf, p, p + j);
        assert(matches_at(tail, buf, p + i));
        assert(matches_at(mark, buf, p + j));
    }
}

/// The scan of a buffer determines the scan of any extension of it, as long
/// as no pattern occurrence starts inside another's window: a halted scan
/// stays as it is, and an unhalted scan continues from its final cut.
///
/// The induction tracks the scan's reachable states: the cut is at or
/// before the position, or just past a consumed mark occurrence.
pub proof fn lemma_scan_extend(
    mark: Seq<u8>,
    tail: Seq<u8>,
    pend: Seq<u8>,
    ext: Seq<u8>,
    i: int,
    cut: int,
    segs: Seq<Seq<u8>>,
)
    requires
        valid_config(mark, tail),
        stream_safe(mark, tail, pend + ext),
        0 <= i <= pend.len(),
        0 <= cut <= pend.len(),
        cut <= i || (matches_at(mark, pend + ext, cut - mark.len()) && cut - mark.len() < i),
    ensures
        ({
            let stb = scan_from(mark, tail, pend, i, cut, segs);
            let full = pend + ext;
            &&& (stb.halted ==> scan_from(mark, tail, full, i, cut, segs) == stb)
            &&& (!stb.halted ==> scan_from(mark, tail, full, i, cut, segs) == scan_from(
                mark,
                tail,
                full,
                if stb.cut > cut {
                    stb.cut
                } else {
                    i
                },
                stb.cut,
                stb.segs,
            ))
        }),
    decreases pend.len() - i,
{
    let full = pend + ext;
    let m = mark.len() as int;
    let tl = tail.len() as int;
    let stb = scan_from(mark, tail, pend, i, cut, segs);
    if i == pend.len() {
        assert(stb.segs == segs && stb.cut == cut && !stb.halted);
    } else {
        let pm = matches_at(mark, pend, i);
        let pt = tl > 0 && matches_at(tail, pend, i);
        let fm = matches_at(mark, full, i);
        let ft = tl > 0 && matches_at(tail, full, i);
        if pm {
            lemma_matches_at_append(mark, pend, ext, i);
        }
        if pt {
            lemma_matches_at_append(tail, pend, ext, i);
        }
        if (fm || ft) && cut > i {
            assert(matches_at(mark, full, cut - m));
            if fm {
                lemma_no_self_overlap(mark, full, cut - m, i);
            }
            assert(false);
        }
        if pm {
            assert(fm);
            assert(!ft);
            assert(!pt);
            assert(cut <= i);
            assert(seg_between(full, cut, i) == seg_between(pend, cut, i)) by {
                assert(full.subrange(cut, i) =~= pend.subrange(cut, i));
            }
            let e = seg_between(pend, cut, i);
            let segs1 = segs.push(e);
            let cut1 = i + m;
            lemma_scan_extend(mark, tail, pend, ext, i + 1, cut1, segs1);
            let stb2 = scan_from(mark, tail, pend, i + 1, cut1, segs1);
            assert(stb == stb2);
            if !stb2.halted {
                if stb2.cut > cut1 {
                    assert(scan_from(mark, tail, full, i, cut, segs) == scan_from(
                        mark,
                        tail,
                        full,
                        stb2.cut,
                        stb2.cut,
                        stb2.segs,
                    ));
                } else {
                    lemma_scan_cut_dichotomy(mark, tail, pend, i + 1, cut1, segs1);
                    assert(stb2.cut == cut1 && stb2.segs == segs1);
                    assert forall|u: int| i + 1 <= u < cut1 implies !hit_at(mark, tail, full, u) by {
                        if matches_at(mark, full, u) {
                            lemma_no_self_overlap(mark, full, i, u);
                        }
                        if tl > 0 && matches_at(tail, full, u) {
                            assert(false);
                        }
                    }
                    lemma_scan_from_no_hits(mark, tail, full, i + 1, cut1, cut1, segs1);
                }
            }
        } else if pt {
            assert(ft);
            assert(!fm);
            assert(cut <= i);
            assert(seg_between(full, cut, i) == seg_between(pend, cut, i)) by {
                assert(full.subrange(cut, i) =~= pend.subrange(cut, i));
            }
            assert(stb.halted);
        } else {
            if fm || ft {
                if fm {
                    if i + m <= pend.len() {
                        lemma_matches_at_append_inner(mark, pend, ext, i);
                        assert(false);
                    }
                }
                if ft {
                    if i + tl <= pend.len() {
                        lemma_matches_at_append_inner(tail, pend, ext, i);
                        assert(false);
                    }
                }
                if fm && ft {
                    assert(false);
                }
                assert forall|u: int| i <= u < pend.len() implies !hit_at(mark, tail, pend, u) by {
                    if u == i {
                    } else {
                        if matches_at(mark, pend, u) {
                            lemma_matches_at_append(mark, pend, ext, u);
                            if fm {
                                lemma_no_self_overlap(mark, full, i, u);
                            }
                            assert(false);
                        }
                        if tl > 0 && matches_at(tail, pend, u) {
                            lemma_matches_at_append(tail, pend, ext, u);
                            assert(false);
                        }
                    }
                }
                lemma_scan_from_no_hits(mark, tail, pend, i, pend.len() as int, cut, segs);
                assert(stb.segs == segs && stb.cut == cut && !stb.halted);
            } else {
                lemma_scan_extend(mark, tail, pend, ext, i + 1, cut, segs);
                let stb2 = scan_from(mark, tail, pend, i + 1, cut, segs);
                assert(stb == stb2);
                if !stb2.halted && stb2.cut == cut {
                    lemma_scan_cut_dichotomy(mark, tail, pend, i, cut, segs);
                    assert(stb.segs == segs);
                }
            }
        }
    }
}

/// The packaged form of [`lemma_scan_extend`] for whole buffers: a halted
/// scan of a prefix is the scan of the whole; an unhalted one continues
/// from its cut with its segments.
pub proof fn lemma_scan_extend_top(mark: Seq<u8>, tail: Seq<u8>, pend: Seq<u8>, ext: Seq<u8>)
    requires
        valid_config(mark, tail),
        stream_safe(mark, tail, pend + ext),
    ensures
        ({
            let st = scan(mark, tail, pend);
            let full = pend + ext;
            &&& (st.halted ==> scan(mark, tail, full) == st)
            &&& (!st.halted ==> scan(mark, tail, full) == scan_from(
                mark,
                tail,
                full,
                st.cut,
                st.cut,
                st.segs,
            ))
        }),
{
    let st = scan(mark, tail, pend);
    lemma_scan_extend(mark, tail, pend, ext, 0, 0, Seq::empty());
    lemma_scan_cut_range(mark, tail, pend, 0, 0, Seq::empty());
    if !st.halted && st.cut == 0 {
        lemma_scan_cut_dichotomy(mark, tail, pend, 0, 0, Seq::empty());
        assert(st.segs == Seq::<Seq<u8>>::empty());
    }
}

} // verus!

verus! {

/// Until a tail occurrence halts it, the scan from `i` passes through
/// position `n` in some state.
pub proof fn lemma_scan_reaches(
    mark: Seq<u8>,
    tail: Seq<u8>,
    buf: Seq<u8>,
    i: int,
    cut: int,
    segs: Seq<Seq<u8>>,
    n: int,
)
    requires
        0 <= i <= n <= buf.len(),
        forall|j: int| i <= j < n ==> !(tail.len() > 0 && #[trigger] matches_at(tail, buf, j)),
    ensures
        exists|cs: (int, Seq<Seq<u8>>)|
            scan_from(mark, tail, buf, i, cut, segs) == scan_from(mark, tail, buf, n, cs.0, cs.1),
    decreases n - i,
{
    if i == n {
        let cs = (cut, segs);
        assert(scan_from(mark, tail, buf, i, cut, segs) == scan_from(
            mark,
            tail,
            buf,
            n,
            cs.0,
            cs.1,
        ));
    } else {
        let hit_mark = matches_at(mark, buf, i);
        let cut1 = if hit_mark {
            i + mark.len() as int
        } else {
            cut
        };
        let segs1 = if hit_mark {
            segs.push(seg_between(buf, cut, i))
        } else {
            segs
        };
        assert(!(tail.len() > 0 && matches_at(tail, buf, i)));
        lemma_scan_reaches(mark, tail, buf, i + 1, cut1, segs1, n);
        let cs = choose|cs: (int, Seq<Seq<u8>>)|
            scan_from(mark, tail, buf, i + 1, cut1, segs1) == scan_from(
                mark,
                tail,
                buf,
                n,
                cs.0,
                cs.1,
            );
        assert(scan_from(mark, tail, buf, i, cut, segs) == scan_from(
            mark,
            tail,
            buf,
            n,
            cs.0,
            cs.1,
        ));
    }
}

} // verus!

verus! {

/// When the first occurrence in the pending bytes is a mark occurrence, the
/// incremental scan yields the segment before it and continues past it,
/// whatever chunks follow.
pub proof fn lemma_stream_out_first_mark(
    mark: Seq<u8>,
    tail: Seq<u8>,
    pend: Seq<u8>,
    chunks: Seq<Seq<u8>>,
    j: int,
)
    requires
        valid_config(mark, tail),
        stream_safe(mark, tail, pend),
        find_hit(mark, tail, pend, 0) == Some(j),
        matches_at(mark, pend, j),
    ensures
        stream_out(mark, tail, pend, chunks) == seq![pend.subrange(0, j)] + stream_out(
            mark,
            tail,
            pend.subrange(j + mark.len(), pend.len() as int),
            chunks,
        ),
{
    let m = mark.len() as int;
    let n = pend.len() as int;
    lemma_find_hit_props(mark, tail, pend, 0);
    assert(!(tail.len() > 0 && matches_at(tail, pend, j)));
    lemma_scan_from_no_hits(mark, tail, pend, 0, j, 0, Seq::empty());
    let e = seg_between(pend, 0, j);
    assert(e == pend.subrange(0, j));
    let segs1 = Seq::<Seq<u8>>::empty().push(e);
    assert forall|u: int| j + 1 <= u < j + m implies !hit_at(mark, tail, pend, u) by {
        if matches_at(mark, pend, u) {
            lemma_no_self_overlap(mark, pend, j, u);
        }
        if tail.len() > 0 && matches_at(tail, pend, u) {
            assert(false);
        }
    }
    lemma_scan_from_no_hits(mark, tail, pend, j + 1, j + m, j + m, segs1);
    lemma_scan_from_acc(mark, tail, pend, j + m, j + m, segs1);
    lemma_scan_from_shift(mark, tail, pend, j + m, j + m, j + m);
    let pend2 = pend.subrange(j + m, n);
    let st = scan(mark, tail, pend);
    let st2 = scan(mark, tail, pend2);
    assert(st.segs == segs1 + st2.segs);
    assert(st.halted == st2.halted);
    assert(st.cut == st2.cut + (j + m));
    lemma_scan_cut_range(mark, tail, pend2, 0, 0, Seq::empty());
    if chunks.len() == 0 {
        if st2.halted {
            assert(seq![pend.subrange(0, j)] + st2.segs =~= st.segs);
        } else {
            if st2.cut < pend2.len() {
                let lo = seg_between(pend2, st2.cut, pend2.len() as int);
                assert(seg_between(pend, st.cut, n) == lo) by {
                    assert(pend.subrange(st.cut, n) =~= pend2.subrange(
                        st2.cut,
                        pend2.len() as int,
                    ));
                }
                assert(st.segs.push(lo) =~= seq![pend.subrange(0, j)] + st2.segs.push(lo));
            } else {
                assert(st.segs =~= seq![pend.subrange(0, j)] + st2.segs);
            }
        }
    } else {
        if st2.halted {
            assert(st.segs =~= seq![pend.subrange(0, j)] + st2.segs);
        } else {
            let c0 = chunks[0];
            let rest = chunks.drop_first();
            assert(seg_between(pend, st.cut, n) == seg_between(pend2, st2.cut, pend2.len() as int))
                by {
                assert(pend.subrange(st.cut, n) =~= pend2.subrange(st2.cut, pend2.len() as int));
            }
            let tail_out = stream_out(
                mark,
                tail,
                seg_between(pend2, st2.cut, pend2.len() as int) + c0,
                rest,
            );
            assert(st.segs + tail_out =~= seq![pend.subrange(0, j)] + (st2.segs + tail_out));
        }
    }
}

/// When the first occurrence in the pending bytes is a tail occurrence, the
/// incremental scan yields the segment before it and halts, whatever chunks
/// follow.
pub proof fn lemma_stream_out_first_tail(
    mark: Seq<u8>,
    tail: Seq<u8>,
    pend: Seq<u8>,
    chunks: Seq<Seq<u8>>,
    j: int,
)
    requires
        tail.len() > 0,
        find_hit(mark, tail, pend, 0) == Some(j),
        matches_at(tail, pend, j),
        !matches_at(mark, pend, j),
    ensures
        stream_out(mark, tail, pend, chunks) == seq![pend.subrange(0, j)],
{
    lemma_find_hit_props(mark, tail, pend, 0);
    lemma_scan_from_no_hits(mark, tail, pend, 0, j, 0, Seq::empty());
    let st = scan(mark, tail, pend);
    assert(st.halted);
    assert(st.segs =~= seq![pend.subrange(0, j)]);
}

/// Pending bytes without any occurrence become, at source exhaustion, the
/// single final frame (or nothing, when empty).
pub proof fn lemma_stream_out_no_hits(mark: Seq<u8>, tail: Seq<u8>, pend: Seq<u8>)
    requires
        find_hit(mark, tail, pend, 0) is None,
    ensures
        stream_out(mark, tail, pend, Seq::empty()) == if pend.len() > 0 {
            seq![pend]
        } else {
            Seq::<Seq<u8>>::empty()
        },
{
    lemma_find_hit_props(mark, tail, pend, 0);
    lemma_scan_no_hits(mark, tail, pend);
    if pend.len() > 0 {
        assert(seg_between(pend, 0, pend.len() as int) == pend) by {
            assert(pend.subrange(0, pend.len() as int) =~= pend);
        }
        assert(Seq::<Seq<u8>>::empty().push(pend) =~= seq![pend]);
    }
}

/// Feeding a chunk onto hit-free pending bytes just extends the pending
/// bytes: the incremental scan's output is unchanged.
pub proof fn lemma_stream_out_push_chunk(
    mark: Seq<u8>,
    tail: Seq<u8>,
    pend: Seq<u8>,
    c: Seq<u8>,
    rest: Seq<Seq<u8>>,
)
    requires
        find_hit(mark, tail, pend, 0) is None,
    ensures
        stream_out(mark, tail, pend, seq![c] + rest) == stream_out(mark, tail, pend + c, rest),
{
    lemma_find_hit_props(mark, tail, pend, 0);
    lemma_scan_no_hits(mark, tail, pend);
    let chunks = seq![c] + rest;
    assert(chunks[0] == c);
    assert(chunks.drop_first() =~= rest);
    assert(seg_between(pend, 0, pend.len() as int) == pend) by {
        assert(pend.subrange(0, pend.len() as int) =~= pend);
    }
    assert(Seq::<Seq<u8>>::empty() + stream_out(mark, tail, pend + c, rest) =~= stream_out(
        mark,
        tail,
        pend + c,
        rest,
    ));
}

} // verus!
