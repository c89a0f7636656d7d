//! The demarcating byte pattern and its matching automaton.
//!
//! [`ByteMarks`] represents both a framer configuration (the `Initializer`
//! variant, holding the mark and tail patterns) and the transient states of
//! the match automaton (`Marking`, `MarkingEnd`, `TailEnd`), together with
//! the byte-to-position lookup derived from each pattern (`MarkingIndices`,
//! `TailIndices`). Because a pattern's bytes are pairwise distinct, a byte
//! uniquely determines the next expected byte, so the automaton needs no
//! failure links: walking it is equivalent to a direct byte-for-byte
//! comparison, and the contracts state exactly that.

use vstd::prelude::*;

use crate::lemmas::lemma_index_of_props;
use crate::lemmas::lemma_index_of_unique;
use crate::lemmas::lemma_matches_at_suffix;
use crate::lemmas::lemma_suffix_matches_end;
use crate::lemmas::lemma_suffix_matches_step;
use crate::model::first_dup;
use crate::model::index_of;
use crate::model::index_of_from;
use crate::model::dup_partner_from;
use crate::model::matches_at;
use crate::model::pattern_distinct;
use crate::model::suffix_matches;
use vstd::pervasive::unreached;
use vstd::slice::slice_to_vec;

verus! {

/// Why a pattern configuration was rejected: an empty mark, a mark equal to
/// the tail, or a repeated byte inside one pattern (reported with the byte
/// and both positions).
#[derive(Clone, Copy, Debug, PartialEq, Eq, Structural)]
pub enum InvalidPatternError {
    EmptyMark,
    MarkEqualsTail,
    DuplicateMarkByte(u8, usize, usize),
    DuplicateTailByte(u8, usize, usize),
}

/// The error, if any, that a framer constructor reports for the given
/// patterns, in the order the checks are made: an empty mark first, then a
/// mark equal to the tail, then a repeated byte in the mark, then a repeated
/// byte in the tail.
pub open spec fn config_error(mark: Seq<u8>, tail: Seq<u8>) -> Option<InvalidPatternError> {
    if mark.len() == 0 {
        Some(InvalidPatternError::EmptyMark)
    } else if mark == tail {
        Some(InvalidPatternError::MarkEqualsTail)
    } else if first_dup(mark) is Some {
        let p = first_dup(mark)->Some_0;
        Some(InvalidPatternError::DuplicateMarkByte(mark[p.0], p.0 as usize, p.1 as usize))
    } else if first_dup(tail) is Some {
        let p = first_dup(tail)->Some_0;
        Some(InvalidPatternError::DuplicateTailByte(tail[p.0], p.0 as usize, p.1 as usize))
    } else {
        None
    }
}

/// A framer configuration or a state of its match automaton.
///
/// `Initializer` holds the mark and tail byte patterns. `MarkingIndices` and
/// `TailIndices` hold the byte-to-position lookup of the respective pattern.
/// `Marking(b)` is the automaton positioned at pattern byte `b`, and
/// `MarkingEnd` / `TailEnd` signal a completed match of the mark or tail.
#[derive(Debug)]
pub enum ByteMarks {
    Initializer(Vec<u8>, Vec<u8>),
    TailIndices(Option<Vec<u8>>),
    Marking(u8),
    MarkingEnd,
    TailEnd,
    MarkingIndices(Option<Vec<u8>>),
}

impl From<u8> for ByteMarks {
    fn from(byte: u8) -> (r: ByteMarks) {
        ByteMarks::Marking(byte)
    }
}

impl vstd::std_specs::convert::FromSpecImpl<u8> for ByteMarks {
    open spec fn obeys_from_spec() -> bool {
        true
    }

    open spec fn from_spec(byte: u8) -> Self {
        ByteMarks::Marking(byte)
    }
}

impl ByteMarks {
    /// The mark pattern held by an `Initializer`.
    pub open spec fn spec_mark(self) -> Seq<u8> {
        self->Initializer_0@
    }

    /// The tail pattern held by an `Initializer` (empty means absent).
    pub open spec fn spec_tail(self) -> Seq<u8> {
        self->Initializer_1@
    }

    /// The pattern whose byte-to-position lookup a `MarkingIndices` holds.
    pub open spec fn spec_marking_indices(self) -> Option<Seq<u8>> {
        match self {
            ByteMarks::MarkingIndices(Some(v)) => Some(v@),
            _ => None,
        }
    }

    /// The pattern whose byte-to-position lookup a `TailIndices` holds.
    pub open spec fn spec_tail_indices(self) -> Option<Seq<u8>> {
        match self {
            ByteMarks::TailIndices(Some(v)) => Some(v@),
            _ => None,
        }
    }

    /// `initializer` and `indices` form a usable mark-matching pair: a
    /// non-empty mark of distinct bytes, and a lookup derived from it.
    pub open spec fn mark_matcher_wf(initializer: ByteMarks, indices: ByteMarks) -> bool {
        &&& initializer is Initializer
        &&& initializer.spec_mark().len() > 0
        &&& pattern_distinct(initializer.spec_mark())
        &&& indices.spec_marking_indices() == Some(initializer.spec_mark())
    }

    /// `initializer` and `indices` form a usable tail-matching pair: a
    /// non-empty tail of distinct bytes, and a lookup derived from it.
    pub open spec fn tail_matcher_wf(initializer: ByteMarks, indices: ByteMarks) -> bool {
        &&& initializer is Initializer
        &&& initializer.spec_tail().len() > 0
        &&& pattern_distinct(initializer.spec_tail())
        &&& indices.spec_tail_indices() == Some(initializer.spec_tail())
    }

    /// The states the mark automaton walks through.
    pub open spec fn mark_walk_state(self, mark: Seq<u8>) -> bool {
        match self {
            ByteMarks::Initializer(_, _) => true,
            ByteMarks::Marking(b) => mark.contains(b),
            ByteMarks::MarkingEnd => true,
            _ => false,
        }
    }

    /// The states the tail automaton walks through.
    pub open spec fn tail_walk_state(self, tail: Seq<u8>) -> bool {
        match self {
            ByteMarks::Initializer(_, _) => true,
            ByteMarks::Marking(b) => tail.contains(b),
            ByteMarks::TailEnd => true,
            _ => false,
        }
    }

    /// Builds the configuration from the two patterns. The caller has
    /// already established that neither pattern repeats a byte.
    pub(crate) fn initialize(mark: &[u8], tail: &[u8]) -> (r: Self)
        requires
            first_dup(mark@) is None,
            first_dup(tail@) is None,
        ensures
            r is Initializer,
            r.spec_mark() == mark@,
            r.spec_tail() == tail@,
    {
        ByteMarks::Initializer(slice_to_vec(mark), slice_to_vec(tail))
    }

    /// Searches `s` for a repeated byte: the first position (in ascending
    /// order) whose byte occurs again, together with the first such later
    /// position and the byte itself.
    pub fn all_marking_unique(s: &[u8]) -> (r: Option<(usize, usize, u8)>)
        ensures
            match r {
                Some(found) => first_dup(s@) == Some((found.0 as int, found.1 as int))
                    && s@[found.0 as int] == found.2,
                None => first_dup(s@) is None,
            },
    {
        let mut i: usize = 0;
        while i < s.len()
            invariant
                0 <= i <= s@.len(),
                first_dup(s@) == crate::model::first_dup_from(s@, i as int),
            decreases s@.len() - i,
        {
            let mut j: usize = i + 1;
            while j < s.len()
                invariant
                    i < j,
                    i < s@.len(),
                    j <= s@.len(),
                    first_dup(s@) == crate::model::first_dup_from(s@, i as int),
                    dup_partner_from(s@, i as int, i as int + 1) == dup_partner_from(
                        s@,
                        i as int,
                        j as int,
                    ),
                decreases s@.len() - j,
            {
                if s[j] == s[i] {
                    return Some((i, j, s[i]));
                }
                j = j + 1;
            }
            i = i + 1;
        }
        None
    }

    /// Derives the byte-to-position lookup of the mark pattern.
    pub(crate) fn init_marking_indices(&self) -> (r: Self)
        requires
            self is Initializer,
        ensures
            r.spec_marking_indices() == Some(self.spec_mark()),
    {
        match self {
            ByteMarks::Initializer(marking_bytes, _) => {
                ByteMarks::MarkingIndices(Some(slice_to_vec(marking_bytes.as_slice())))
            },
            _ => unreached(),
        }
    }

    /// Derives the byte-to-position lookup of the tail pattern.
    pub(crate) fn init_tail_indices(&self) -> (r: Self)
        requires
            self is Initializer,
        ensures
            r.spec_tail_indices() == Some(self.spec_tail()),
    {
        match self {
            ByteMarks::Initializer(_, tail_bytes) => {
                ByteMarks::TailIndices(Some(slice_to_vec(tail_bytes.as_slice())))
            },
            _ => unreached(),
        }
    }

    /// Looks up the position of `byte` in the mark pattern.
    fn marking_byte_index(&self, byte: u8) -> (r: Option<usize>)
        requires
            self.spec_marking_indices() is Some,
        ensures
            ({
                let v = self.spec_marking_indices()->Some_0;
                match r {
                    Some(k) => index_of(v, byte) == Some(k as int),
                    None => index_of(v, byte) is None,
                }
            }),
    {
        match self {
            ByteMarks::MarkingIndices(Some(map)) => {
                let mut i: usize = 0;
                while i < map.len()
                    invariant
                        0 <= i <= map@.len(),
                        self.spec_marking_indices() == Some(map@),
                        index_of(map@, byte) == index_of_from(map@, byte, i as int),
                    decreases map@.len() - i,
                {
                    if map[i] == byte {
                        proof {
                            assert(index_of_from(map@, byte, i as int) == Some(i as int));
                        }
                        return Some(i);
                    }
                    i = i + 1;
                }
                None
            },
            _ => unreached(),
        }
    }

    /// Looks up the position of `byte` in the tail pattern.
    fn tail_byte_index(&self, byte: u8) -> (r: Option<usize>)
        requires
            self.spec_tail_indices() is Some,
        ensures
            ({
                let v = self.spec_tail_indices()->Some_0;
                match r {
                    Some(k) => index_of(v, byte) == Some(k as int),
                    None => index_of(v, byte) is None,
                }
            }),
    {
        match self {
            ByteMarks::TailIndices(Some(map)) => {
                let mut i: usize = 0;
                while i < map.len()
                    invariant
                        0 <= i <= map@.len(),
                        self.spec_tail_indices() == Some(map@),
                        index_of(map@, byte) == index_of_from(map@, byte, i as int),
                    decreases map@.len() - i,
                {
                    if map[i] == byte {
                        proof {
                            assert(index_of_from(map@, byte, i as int) == Some(i as int));
                        }
                        return Some(i);
                    }
                    i = i + 1;
                }
                None
            },
            _ => unreached(),
        }
    }

    /// The last byte of the tail pattern.
    fn marking_end_byte(&self) -> (r: u8)
        requires
            self is Initializer,
            self.spec_mark().len() > 0,
        ensures
            r == self.spec_mark().last(),
    {
        self.marking_bytes()[self.marking_bytes_len() - 1]
    }

    /// The first byte of the mark pattern.
    pub(crate) fn marking_start_byte(&self) -> (r: u8)
        requires
            self is Initializer,
            self.spec_mark().len() > 0,
        ensures
            r == self.spec_mark()[0],
    {
        self.marking_bytes()[0]
    }

    /// The mark pattern's bytes.
    pub(crate) fn marking_bytes(&self) -> (r: &[u8])
        requires
            self is Initializer,
        ensures
            r@ == self.spec_mark(),
    {
        match self {
            ByteMarks::Initializer(mark, _) => mark.as_slice(),
            _ => unreached(),
        }
    }

    /// The mark pattern's length.
    pub(crate) fn marking_bytes_len(&self) -> (r: usize)
        requires
            self is Initializer,
        ensures
            r == self.spec_mark().len(),
    {
        match self {
            ByteMarks::Initializer(mark, _) => mark.len(),
            _ => unreached(),
        }
    }

    /// The last byte of the tail pattern.
    fn tail_end_byte(&self) -> (r: u8)
        requires
            self is Initializer,
            self.spec_tail().len() > 0,
        ensures
            r == self.spec_tail().last(),
    {
        self.tail_bytes()[self.tail_bytes_len() - 1]
    }

    /// The first byte of the tail pattern.
    pub(crate) fn tail_start_byte(&self) -> (r: u8)
        requires
            self is Initializer,
            self.spec_tail().len() > 0,
        ensures
            r == self.spec_tail()[0],
    {
        self.tail_bytes()[0]
    }

    /// The tail pattern's bytes.
    pub(crate) fn tail_bytes(&self) -> (r: &[u8])
        requires
            self is Initializer,
        ensures
            r@ == self.spec_tail(),
    {
        match self {
            ByteMarks::Initializer(_, tail) => tail.as_slice(),
            _ => unreached(),
        }
    }

    /// The tail pattern's length.
    pub(crate) fn tail_bytes_len(&self) -> (r: usize)
        requires
            self is Initializer,
        ensures
            r == self.spec_tail().len(),
    {
        match self {
            ByteMarks::Initializer(_, tail) => tail.len(),
            _ => unreached(),
        }
    }

    /// The byte a `Marking` automaton state expects.
    fn as_byte(&self) -> (r: u8)
        requires
            self is Marking,
        ensures
            r == self->Marking_0,
    {
        match self {
            ByteMarks::Marking(v) => *v,
            _ => unreached(),
        }
    }

    /// The mark automaton's successor state: from the configuration, the
    /// state expecting the mark's first byte; from a `Marking` state, the
    /// state expecting the next mark byte, or `MarkingEnd` after the last.
    fn next_marking(&self, initializer: &ByteMarks, indices: &ByteMarks) -> (r: Option<Self>)
        requires
            ByteMarks::mark_matcher_wf(*initializer, *indices),
            self.mark_walk_state(initializer.spec_mark()),
        ensures
            ({
                let mark = initializer.spec_mark();
                match *self {
                    ByteMarks::Initializer(_, _) => r == Some(ByteMarks::Marking(mark[0])),
                    ByteMarks::Marking(b) => if b == mark.last() {
                        r == Some(ByteMarks::MarkingEnd)
                    } else {
                        index_of(mark, b) matches Some(k) && r == Some(
                            ByteMarks::Marking(mark[k + 1]),
                        )
                    },
                    ByteMarks::MarkingEnd => r is None,
                    _ => true,
                }
            }),
    {
        let ghost mark = initializer.spec_mark();
        match self {
            ByteMarks::Initializer(_, _) => Some(ByteMarks::from(initializer.marking_start_byte())),
            ByteMarks::Marking(byte) => {
                if *byte == initializer.marking_end_byte() {
                    Some(ByteMarks::MarkingEnd)
                } else {
                    match indices.marking_byte_index(*byte) {
                        Some(index) => {
                            let mlen = initializer.marking_bytes_len();
                            proof {
                                lemma_index_of_props(mark, *byte);
                                assert(index < mlen);
                            }
                            if index + 1 < mlen {
                                let mb = initializer.marking_bytes();
                                Some(ByteMarks::from(mb[index + 1]))
                            } else {
                                proof {
                                    lemma_index_of_props(mark, *byte);
                                    assert(mark[index as int] == *byte);
                                    assert(index as int == mark.len() - 1);
                                    assert(false);
                                }
                                unreached()
                            }
                        },
                        None => {
                            proof {
                                let k = choose|k: int| 0 <= k < mark.len() && mark[k] == *byte;
                                lemma_index_of_unique(mark, *byte, k);
                                assert(false);
                            }
                            unreached()
                        },
                    }
                }
            },
            ByteMarks::MarkingEnd => None,
            _ => unreached(),
        }
    }

    /// Walks the mark automaton over `bytes` from `index`: from a `Marking`
    /// state at pattern position `k`, returns whether the mark's suffix from
    /// `k` occurs at `index`; from the configuration, whether the whole mark
    /// occurs at `index`.
    pub(crate) fn marking_matches(
        &self,
        initializer: &ByteMarks,
        indices: &ByteMarks,
        index: usize,
        bytes: &[u8],
    ) -> (r: bool)
        requires
            ByteMarks::mark_matcher_wf(*initializer, *indices),
            self.mark_walk_state(initializer.spec_mark()),
        ensures
            ({
                let mark = initializer.spec_mark();
                match *self {
                    ByteMarks::Initializer(_, _) => r == matches_at(mark, bytes@, index as int),
                    ByteMarks::Marking(b) => index_of(mark, b) matches Some(k) && r
                        == suffix_matches(mark, k, bytes@, index as int),
                    ByteMarks::MarkingEnd => r == true,
                    _ => true,
                }
            }),
        decreases bytes@.len() - index,
    {
        let ghost mark = initializer.spec_mark();
        match self {
            ByteMarks::Initializer(_, _) => {
                proof {
                    lemma_matches_at_suffix(mark, bytes@, index as int);
                    lemma_suffix_matches_step(mark, 0, bytes@, index as int);
                }
                match self.next_marking(initializer, indices) {
                    None => unreached(),
                    Some(next) => {
                        if index < bytes.len() && next.as_byte() == bytes[index] {
                            proof {
                                assert(mark.contains(mark[0]));
                            }
                            match next.next_marking(initializer, indices) {
                                None => unreached(),
                                Some(next_next) => {
                                    proof {
                                        lemma_index_of_unique(mark, mark[0], 0);
                                        if mark[0] != mark.last() {
                                            assert(next_next == ByteMarks::Marking(mark[1]));
                                            assert(mark.contains(mark[1]));
                                            lemma_index_of_unique(mark, mark[1], 1);
                                        } else {
                                            assert(mark.len() == 1) by {
                                                if mark.len() > 1 {
                                                    assert(mark[0] == mark[mark.len() - 1]);
                                                    assert(false);
                                                }
                                            }
                                            lemma_suffix_matches_end(
                                                mark,
                                                bytes@,
                                                index as int + 1,
                                            );
                                        }
                                    }
                                    next_next.marking_matches(
                                        initializer,
                                        indices,
                                        index + 1,
                                        bytes,
                                    )
                                },
                            }
                        } else {
                            false
                        }
                    },
                }
            },
            ByteMarks::Marking(byte) => {
                proof {
                    let k0 = choose|k: int| 0 <= k < mark.len() && mark[k] == *byte;
                    lemma_index_of_unique(mark, *byte, k0);
                    let k = index_of(mark, *byte)->Some_0;
                    lemma_suffix_matches_step(mark, k, bytes@, index as int);
                }
                if index < bytes.len() && bytes[index] == *byte {
                    match self.next_marking(initializer, indices) {
                        None => unreached(),
                        Some(next) => {
                            proof {
                                let k = index_of(mark, *byte)->Some_0;
                                if *byte == mark.last() {
                                    assert(k == mark.len() - 1);
                                    lemma_suffix_matches_end(mark, bytes@, index as int + 1);
                                } else {
                                    assert(next == ByteMarks::Marking(mark[k + 1]));
                                    assert(mark.contains(mark[k + 1]));
                                    lemma_index_of_unique(mark, mark[k + 1], k + 1);
                                }
                            }
                            next.marking_matches(initializer, indices, index + 1, bytes)
                        },
                    }
                } else {
                    false
                }
            },
            ByteMarks::MarkingEnd => true,
            _ => false,
        }
    }

    /// The tail automaton's successor state, as [`Self::next_marking`] for
    /// the tail pattern.
    fn next_tail_marking(&self, initializer: &ByteMarks, indices: &ByteMarks) -> (r: Option<Self>)
        requires
            ByteMarks::tail_matcher_wf(*initializer, *indices),
            self.tail_walk_state(initializer.spec_tail()),
        ensures
            ({
                let tail = initializer.spec_tail();
                match *self {
                    ByteMarks::Initializer(_, _) => r == Some(ByteMarks::Marking(tail[0])),
                    ByteMarks::Marking(b) => if b == tail.last() {
                        r == Some(ByteMarks::TailEnd)
                    } else {
                        index_of(tail, b) matches Some(k) && r == Some(
                            ByteMarks::Marking(tail[k + 1]),
                        )
                    },
                    ByteMarks::TailEnd => r is None,
                    _ => true,
                }
            }),
    {
        let ghost tail = initializer.spec_tail();
        match self {
            ByteMarks::Initializer(_, _) => Some(ByteMarks::from(initializer.tail_start_byte())),
            ByteMarks::Marking(byte) => {
                if *byte == initializer.tail_end_byte() {
                    Some(ByteMarks::TailEnd)
                } else {
                    match indices.tail_byte_index(*byte) {
                        Some(index) => {
                            let tlen = initializer.tail_bytes_len();
                            proof {
                                lemma_index_of_props(tail, *byte);
                                assert(index < tlen);
                            }
                            if index + 1 < tlen {
                                let tb = initializer.tail_bytes();
                                Some(ByteMarks::from(tb[index + 1]))
                            } else {
                                proof {
                                    lemma_index_of_props(tail, *byte);
                                    assert(tail[index as int] == *byte);
                                    assert(index as int == tail.len() - 1);
                                    assert(false);
                                }
                                unreached()
                            }
                        },
                        None => {
                            proof {
                                let k = choose|k: int| 0 <= k < tail.len() && tail[k] == *byte;
                                lemma_index_of_unique(tail, *byte, k);
                                assert(false);
                            }
                            unreached()
                        },
                    }
                }
            },
            ByteMarks::TailEnd => None,
            _ => None,
        }
    }

    /// Walks the tail automaton over `bytes` from `index`, as
    /// [`Self::marking_matches`] for the tail pattern.
    pub(crate) fn tail_marking_matches(
        &self,
        initializer: &ByteMarks,
        indices: &ByteMarks,
        index: usize,
        bytes: &[u8],
    ) -> (r: bool)
        requires
            ByteMarks::tail_matcher_wf(*initializer, *indices),
            self.tail_walk_state(initializer.spec_tail()),
        ensures
            ({
                let tail = initializer.spec_tail();
                match *self {
                    ByteMarks::Initializer(_, _) => r == matches_at(tail, bytes@, index as int),
                    ByteMarks::Marking(b) => index_of(tail, b) matches Some(k) && r
                        == suffix_matches(tail, k, bytes@, index as int),
                    ByteMarks::TailEnd => r == true,
                    _ => true,
                }
            }),
        decreases bytes@.len() - index,
    {
        let ghost tail = initializer.spec_tail();
        match self {
            ByteMarks::Initializer(_, _) => {
                proof {
                    lemma_matches_at_suffix(tail, bytes@, index as int);
                    lemma_suffix_matches_step(tail, 0, bytes@, index as int);
                }
                match self.next_tail_marking(initializer, indices) {
                    None => unreached(),
                    Some(next) => {
                        if index < bytes.len() && next.as_byte() == bytes[index] {
                            proof {
                                assert(tail.contains(tail[0]));
                            }
                            match next.next_tail_marking(initializer, indices) {
                                None => unreached(),
                                Some(next_next) => {
                                    proof {
                                        lemma_index_of_unique(tail, tail[0], 0);
                                        if tail[0] != tail.last() {
                                            assert(next_next == ByteMarks::Marking(tail[1]));
                                            assert(tail.contains(tail[1]));
                                            lemma_index_of_unique(tail, tail[1], 1);
                                        } else {
                                            assert(tail.len() == 1) by {
                                                if tail.len() > 1 {
                                                    assert(tail[0] == tail[tail.len() - 1]);
                                                    assert(false);
                                                }
                                            }
                                            lemma_suffix_matches_end(
                                                tail,
                                                bytes@,
                                                index as int + 1,
                                            );
                                        }
                                    }
                                    next_next.tail_marking_matches(
                                        initializer,
                                        indices,
                                        index + 1,
                                        bytes,
                                    )
                                },
                            }
                        } else {
                            false
                        }
                    },
                }
            },
            ByteMarks::Marking(byte) => {
                proof {
                    let k0 = choose|k: int| 0 <= k < tail.len() && tail[k] == *byte;
                    lemma_index_of_unique(tail, *byte, k0);
                    let k = index_of(tail, *byte)->Some_0;
                    lemma_suffix_matches_step(tail, k, bytes@, index as int);
                }
                if index < bytes.len() && bytes[index] == *byte {
                    match self.next_tail_marking(initializer, indices) {
                        None => unreached(),
                        Some(next) => {
                            proof {
                                let k = index_of(tail, *byte)->Some_0;
                                if *byte == tail.last() {
                                    assert(k == tail.len() - 1);
                                    lemma_suffix_matches_end(tail, bytes@, index as int + 1);
                                } else {
                                    assert(next == ByteMarks::Marking(tail[k + 1]));
                                    assert(tail.contains(tail[k + 1]));
                                    lemma_index_of_unique(tail, tail[k + 1], k + 1);
                                }
                            }
                            next.tail_marking_matches(initializer, indices, index + 1, bytes)
                        },
                    }
                } else {
                    false
                }
            },
            ByteMarks::TailEnd => true,
            _ => false,
        }
    }
}

} // verus!
