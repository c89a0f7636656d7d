//! The batch framer: splitting one fully materialized buffer at every
//! pattern occurrence, and the inverse encoding operations.

use vstd::prelude::*;

use crate::bytemarks::config_error;
use crate::bytemarks::ByteMarks;
use crate::bytemarks::InvalidPatternError;
use crate::lemmas::lemma_first_dup_distinct;
use crate::lemmas::lemma_no_self_overlap;
use crate::lemmas::lemma_vecs_deep_view;
use crate::model::first_dup;
use crate::model::matches_at;
use crate::model::scan;
use crate::model::scan_from;
use crate::model::seg_between;
use crate::model::unmark_safe;
use crate::model::valid_config;
use vstd::slice::slice_subrange;
use vstd::slice::slice_to_vec;

verus! {

/// Compares two byte slices for equality.
pub(crate) fn bytes_equal(a: &[u8], b: &[u8]) -> (r: bool)
    ensures
        r == (a@ == b@),
{
    if a.len() != b.len() {
        return false;
    }
    let mut i: usize = 0;
    while i < a.len()
        invariant
            a@.len() == b@.len(),
            0 <= i <= a@.len(),
            forall|t: int| 0 <= t < i ==> a@[t] == b@[t],
        decreases a@.len() - i,
    {
        if a[i] != b[i] {
            return false;
        }
        i = i + 1;
    }
    proof {
        assert(a@ =~= b@);
    }
    true
}

/// Appends the bytes of `src` to `dst`.
pub(crate) fn push_all(dst: &mut Vec<u8>, src: &[u8])
    ensures
        final(dst)@ == old(dst)@ + src@,
{
    let mut k: usize = 0;
    proof {
        assert(dst@ =~= old(dst)@ + src@.subrange(0, 0));
    }
    while k < src.len()
        invariant
            0 <= k <= src@.len(),
            dst@ == old(dst)@ + src@.subrange(0, k as int),
        decreases src@.len() - k,
    {
        dst.push(src[k]);
        proof {
            assert(dst@ =~= old(dst)@ + src@.subrange(0, k as int + 1));
        }
        k = k + 1;
    }
    proof {
        assert(old(dst)@ + src@.subrange(0, src@.len() as int) =~= old(dst)@ + src@);
    }
}

/// The batch framer: an immutable mark/tail configuration together with the
/// derived byte-to-position lookups, applied to whole buffers.
pub struct ByteMarker {
    initializer: ByteMarks,
    marks: ByteMarks,
    tail: Option<ByteMarks>,
}

impl ByteMarker {
    /// The configured mark pattern.
    pub closed spec fn spec_mark(self) -> Seq<u8> {
        self.initializer.spec_mark()
    }

    /// The configured tail pattern (empty means absent).
    pub closed spec fn spec_tail(self) -> Seq<u8> {
        self.initializer.spec_tail()
    }

    /// The framer's invariant: a valid configuration and lookups derived
    /// from its two patterns.
    pub closed spec fn wf(self) -> bool {
        &&& self.initializer is Initializer
        &&& valid_config(self.spec_mark(), self.spec_tail())
        &&& ByteMarks::mark_matcher_wf(self.initializer, self.marks)
        &&& match self.tail {
            Some(t) => self.spec_tail().len() > 0 && ByteMarks::tail_matcher_wf(
                self.initializer,
                t,
            ),
            None => self.spec_tail().len() == 0,
        }
    }

    /// Builds a framer from the two patterns, or reports why they are
    /// rejected: an empty mark, a mark equal to the tail, or a repeated byte
    /// in either pattern (with the byte and both positions). An empty tail
    /// means the stream has no terminator.
    pub fn new(mark: &[u8], tail: &[u8]) -> (r: Result<Self, InvalidPatternError>)
        ensures
            r is Ok <==> valid_config(mark@, tail@),
            match r {
                Ok(m) => m.wf() && m.spec_mark() == mark@ && m.spec_tail() == tail@,
                Err(e) => config_error(mark@, tail@) == Some(e),
            },
    {
        proof {
            lemma_first_dup_distinct(mark@);
            lemma_first_dup_distinct(tail@);
        }
        if mark.len() == 0 {
            return Err(InvalidPatternError::EmptyMark);
        }
        if bytes_equal(mark, tail) {
            return Err(InvalidPatternError::MarkEqualsTail);
        }
        if let Some(found) = ByteMarks::all_marking_unique(mark) {
            return Err(InvalidPatternError::DuplicateMarkByte(found.2, found.0, found.1));
        }
        if let Some(found) = ByteMarks::all_marking_unique(tail) {
            return Err(InvalidPatternError::DuplicateTailByte(found.2, found.0, found.1));
        }
        let initializer = ByteMarks::initialize(mark, tail);
        let marks = initializer.init_marking_indices();
        let tail_indices = if initializer.tail_bytes_len() > 0 {
            Some(initializer.init_tail_indices())
        } else {
            None
        };
        Ok(Self { initializer, marks, tail: tail_indices })
    }

    /// Splits `bytes` at every pattern occurrence: `None` for an empty
    /// buffer; otherwise the scanned segments, together with the unmatched
    /// trailing bytes when the scan ran to the end without a tail occurrence
    /// and some bytes follow the last cut.
    ///
    /// The result is exactly the demarcation scan [`scan`] of the buffer.
    pub fn unmark(&self, bytes: &[u8]) -> (r: Option<(Vec<Vec<u8>>, Option<Vec<u8>>)>)
        requires
            self.wf(),
            unmark_safe(self.spec_mark(), self.spec_tail(), bytes@),
        ensures
            r is None <==> bytes@.len() == 0,
            match r {
                Some(out) => {
                    let st = scan(self.spec_mark(), self.spec_tail(), bytes@);
                    &&& out.0.deep_view() == st.segs
                    &&& (st.halted ==> out.1 is None)
                    &&& (!st.halted ==> if st.cut < bytes@.len() {
                        out.1 matches Some(l) && l@ == bytes@.subrange(st.cut, bytes@.len() as int)
                    } else {
                        out.1 is None
                    })
                },
                None => true,
            },
    {
        let ghost mark = self.spec_mark();
        let ghost tailp = self.spec_tail();
        if bytes.is_empty() {
            return None;
        }
        let mut unmarked: Vec<Vec<u8>> = Vec::with_capacity(bytes.len());
        let mut processed_bytes: usize = 0;

        let start_byte = self.initializer.marking_start_byte();
        let mark_size = self.initializer.marking_bytes_len();

        proof {
            assert(unmarked.deep_view() =~= Seq::<Seq<u8>>::empty());
        }
        let mut index: usize = 0;
        while index < bytes.len()
            invariant
                self.wf(),
                mark == self.spec_mark(),
                tailp == self.spec_tail(),
                unmark_safe(mark, tailp, bytes@),
                start_byte == mark[0],
                mark_size == mark.len(),
                0 <= index <= bytes@.len(),
                0 <= processed_bytes <= bytes@.len(),
                scan(mark, tailp, bytes@) == scan_from(
                    mark,
                    tailp,
                    bytes@,
                    index as int,
                    processed_bytes as int,
                    unmarked.deep_view(),
                ),
                processed_bytes <= index || (matches_at(
                    mark,
                    bytes@,
                    processed_bytes as int - mark.len(),
                ) && processed_bytes as int - mark.len() < index),
                forall|j: int|
                    0 <= j < index ==> !(tailp.len() > 0 && #[trigger] matches_at(
                        tailp,
                        bytes@,
                        j,
                    )),
            decreases bytes@.len() - index,
        {
            let ghost cut0 = processed_bytes as int;
            let ghost acc0 = unmarked.deep_view();

            let hit_mark = bytes[index] == start_byte && self.initializer.marking_matches(
                &self.initializer,
                &self.marks,
                index,
                bytes,
            );
            proof {
                if bytes@[index as int] != mark[0] && matches_at(mark, bytes@, index as int) {
                    assert(bytes@.subrange(index as int, index as int + mark.len() as int)[0]
                        == mark[0]);
                }
                assert(hit_mark == matches_at(mark, bytes@, index as int));
            }
            if hit_mark {
                proof {
                    if processed_bytes > index {
                        lemma_no_self_overlap(
                            mark,
                            bytes@,
                            processed_bytes as int - mark.len(),
                            index as int,
                        );
                        assert(false);
                    }
                }
                let ghost pre = unmarked;
                let seg = slice_to_vec(slice_subrange(bytes, processed_bytes, index));
                unmarked.push(seg);
                proof {
                    lemma_vecs_deep_view(pre);
                    lemma_vecs_deep_view(unmarked);
                    assert(unmarked.deep_view() =~= acc0.push(
                        seg_between(bytes@, cut0, index as int),
                    ));
                }
                processed_bytes = index + mark_size;
            }
            if let Some(tail_indices) = &self.tail {
                let hit_tail = bytes[index] == self.initializer.tail_start_byte()
                    && self.initializer.tail_marking_matches(
                    &self.initializer,
                    tail_indices,
                    index,
                    bytes,
                );
                proof {
                    if bytes@[index as int] != tailp[0] && matches_at(tailp, bytes@, index as int) {
                        assert(bytes@.subrange(index as int, index as int + tailp.len() as int)[0]
                            == tailp[0]);
                    }
                    assert(hit_tail == matches_at(tailp, bytes@, index as int));
                }
                if hit_tail {
                    proof {
                        if processed_bytes > index {
                            let i0 = if hit_mark {
                                index as int
                            } else {
                                cut0 - mark.len()
                            };
                            assert(matches_at(mark, bytes@, i0));
                            assert(i0 <= index && (index as int) < i0 + mark.len());
                            assert(exists|k: int|
                                k < index as int && #[trigger] matches_at(tailp, bytes@, k));
                            assert(false);
                        }
                    }
                    let ghost pre = unmarked;
                    let ghost acc1 = unmarked.deep_view();
                    let seg = slice_to_vec(slice_subrange(bytes, processed_bytes, index));
                    unmarked.push(seg);
                    proof {
                        lemma_vecs_deep_view(pre);
                        lemma_vecs_deep_view(unmarked);
                        assert(unmarked.deep_view() =~= acc1.push(
                            seg_between(bytes@, processed_bytes as int, index as int),
                        ));
                        let st = scan_from(mark, tailp, bytes@, index as int, cut0, acc0);
                        assert(st.halted && st.segs == unmarked.deep_view());
                    }
                    return Some((unmarked, None));
                }
            }
            proof {
                assert(scan_from(mark, tailp, bytes@, index as int, cut0, acc0) == scan_from(
                    mark,
                    tailp,
                    bytes@,
                    index as int + 1,
                    processed_bytes as int,
                    unmarked.deep_view(),
                ));
            }
            index = index + 1;
        }
        let left_over = if processed_bytes < bytes.len() {
            Some(slice_to_vec(slice_subrange(bytes, processed_bytes, bytes.len())))
        } else {
            None
        };
        Some((unmarked, left_over))
    }

    /// Appends the mark pattern's bytes to `bytes`.
    pub fn mark_bytes(&self, bytes: &mut Vec<u8>)
        requires
            self.wf(),
        ensures
            final(bytes)@ == old(bytes)@ + self.spec_mark(),
    {
        push_all(bytes, self.initializer.marking_bytes());
    }

    /// Removes a trailing mark from `bytes`: exactly the mark's length of
    /// trailing bytes, which the caller itself appended.
    pub fn erase_mark(&self, bytes: &mut Vec<u8>)
        requires
            self.wf(),
            old(bytes)@.len() >= self.spec_mark().len(),
        ensures
            final(bytes)@ == old(bytes)@.subrange(
                0,
                old(bytes)@.len() - self.spec_mark().len(),
            ),
    {
        let n = bytes.len() - self.initializer.marking_bytes_len();
        bytes.truncate(n);
    }

    /// Appends the tail pattern's bytes to `bytes` (nothing when the tail is
    /// absent).
    pub fn mark_tail(&self, bytes: &mut Vec<u8>)
        requires
            self.wf(),
        ensures
            final(bytes)@ == old(bytes)@ + self.spec_tail(),
    {
        push_all(bytes, self.initializer.tail_bytes());
    }

    /// Removes a trailing tail from `bytes`: exactly the tail's length of
    /// trailing bytes, which the caller itself appended.
    pub fn erase_tail(&self, bytes: &mut Vec<u8>)
        requires
            self.wf(),
            old(bytes)@.len() >= self.spec_tail().len(),
        ensures
            final(bytes)@ == old(bytes)@.subrange(
                0,
                old(bytes)@.len() - self.spec_tail().len(),
            ),
    {
        let n = bytes.len() - self.initializer.tail_bytes_len();
        bytes.truncate(n);
    }

    /// Concatenates two byte slices into an owned buffer.
    pub fn concat_byte(first: &[u8], second: &[u8]) -> (r: Vec<u8>)
        ensures
            r@ == first@ + second@,
    {
        let mut out = slice_to_vec(first);
        push_all(&mut out, second);
        out
    }
}

} // verus!
