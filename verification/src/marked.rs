//! The streaming framer: the batch scan applied incrementally across chunks
//! pulled from an external byte source.
//!
//! [`Marked`] owns the per-chunk state of the scan — the unconsumed bytes,
//! the scan position, and the terminal flag — and is driven as a state
//! machine: [`Marked::next_frame`] yields the next frame or asks for input,
//! and [`Marked::feed`] supplies the next chunk from the source (an empty
//! chunk signals that the source is exhausted). The byte source itself —
//! files, sockets, readers — stays outside this crate; any pull loop can
//! drive the machine.

use vstd::prelude::*;

use crate::bytemarker::push_all;
use crate::bytemarks::config_error;
use crate::bytemarks::ByteMarks;
use crate::bytemarks::InvalidPatternError;
use crate::default_mark;
use crate::default_mark_spec;
use crate::default_tail;
use crate::default_tail_spec;
use crate::laws::lemma_streaming_equivalence;
use crate::lemmas::lemma_find_hit_none;
use crate::lemmas::lemma_find_hit_skip;
use crate::lemmas::lemma_find_hit_witness;
use crate::lemmas::lemma_first_dup_distinct;
use crate::lemmas::lemma_matches_at_skip;
use crate::lemmas::lemma_stream_out_first_mark;
use crate::lemmas::lemma_stream_out_first_tail;
use crate::lemmas::lemma_stream_out_no_hits;
use crate::lemmas::lemma_stream_out_push_chunk;
use crate::model::batch_frames;
use crate::model::find_hit;
use crate::model::hit_at;
use crate::model::matches_at;
use crate::model::stream_out;
use crate::model::stream_safe;
use crate::model::valid_config;
use vstd::pervasive::unreached;
use vstd::slice::slice_subrange;
use vstd::slice::slice_to_vec;

verus! {

/// One step of the streaming framer: a completed frame, a request for more
/// bytes from the source, or the end of the stream.
#[derive(Debug)]
pub enum FrameStep {
    Frame(Vec<u8>),
    NeedInput,
    Done,
}

/// The streaming framer's state: the configuration and derived lookups, the
/// buffer currently being scanned with its scan position, the unmatched
/// leftover awaiting the next chunk, and the end-of-source and terminal
/// flags.
pub struct Marked {
    initializer: ByteMarks,
    marks: ByteMarks,
    tail: Option<ByteMarks>,
    curr_buf: Option<Vec<u8>>,
    left_over: Option<Vec<u8>>,
    buf_pos: usize,
    eof_reached: bool,
    terminal: bool,
}

impl Marked {
    /// The configured mark pattern.
    pub closed spec fn spec_mark(self) -> Seq<u8> {
        self.initializer.spec_mark()
    }

    /// The configured tail pattern (empty means absent).
    pub closed spec fn spec_tail(self) -> Seq<u8> {
        self.initializer.spec_tail()
    }

    /// No more frames will ever be produced.
    pub closed spec fn is_terminal(self) -> bool {
        self.terminal
    }

    /// The source has signalled exhaustion.
    pub closed spec fn is_eof(self) -> bool {
        self.eof_reached
    }

    /// A buffer is currently being scanned.
    pub closed spec fn scanning(self) -> bool {
        self.curr_buf is Some
    }

    /// The machine can accept a chunk from the source.
    pub closed spec fn needs_input(self) -> bool {
        &&& !self.terminal
        &&& !self.eof_reached
        &&& self.curr_buf is None
    }

    /// The bytes not yet consumed by a completed frame: the unscanned rest
    /// of the current buffer, or the leftover awaiting the next chunk.
    pub closed spec fn pending(self) -> Seq<u8> {
        match self.curr_buf {
            Some(b) => b@.subrange(self.buf_pos as int, b@.len() as int),
            None => match self.left_over {
                Some(l) => l@,
                None => Seq::<u8>::empty(),
            },
        }
    }

    /// The frames the machine will go on to produce when driven with the
    /// given future chunks (each one fill's non-empty bytes), the source
    /// being exhausted after them.
    pub closed spec fn yields(self, chunks: Seq<Seq<u8>>) -> Seq<Seq<u8>> {
        if self.terminal {
            Seq::empty()
        } else {
            stream_out(
                self.spec_mark(),
                self.spec_tail(),
                self.pending(),
                if self.eof_reached {
                    Seq::empty()
                } else {
                    chunks
                },
            )
        }
    }

    /// The machine's invariant: a valid configuration with its derived
    /// lookups, a scan position inside the current buffer, a non-empty
    /// leftover in which no pattern occurs, and flags consistent with the
    /// buffers.
    pub closed spec fn wf(self) -> bool {
        &&& self.initializer is Initializer
        &&& valid_config(self.spec_mark(), self.spec_tail())
        &&& ByteMarks::mark_matcher_wf(self.initializer, self.marks)
        &&& match self.tail {
            Some(t) => self.spec_tail().len() > 0 && ByteMarks::tail_matcher_wf(
                self.initializer,
                t,
            ),
            None => self.spec_tail().len() == 0,
        }
        &&& match self.curr_buf {
            Some(b) => self.buf_pos < b@.len() && self.left_over is None && !self.eof_reached
                && !self.terminal,
            None => true,
        }
        &&& match self.left_over {
            Some(l) => l@.len() > 0 && find_hit(self.spec_mark(), self.spec_tail(), l@, 0)
                is None && !self.terminal,
            None => true,
        }
        &&& (self.terminal ==> self.curr_buf is None && self.left_over is None)
    }

    /// Builds a streaming framer for the two patterns, or reports why they
    /// are rejected, exactly as [`crate::ByteMarker::new`] does. The framer
    /// starts with nothing buffered, awaiting the first chunk.
    pub fn new(mark: &[u8], tail: &[u8]) -> (r: Result<Self, InvalidPatternError>)
        ensures
            r is Ok <==> valid_config(mark@, tail@),
            match r {
                Ok(m) => m.wf() && m.spec_mark() == mark@ && m.spec_tail() == tail@
                    && !m.is_terminal() && !m.is_eof() && !m.scanning() && m.pending()
                    == Seq::<u8>::empty(),
                Err(e) => config_error(mark@, tail@) == Some(e),
            },
    {
        proof {
            lemma_first_dup_distinct(mark@);
            lemma_first_dup_distinct(tail@);
        }
        if mark.len() == 0 {
            return Err(InvalidPatternError::EmptyMark);
        }
        if crate::bytemarker::bytes_equal(mark, tail) {
            return Err(InvalidPatternError::MarkEqualsTail);
        }
        if let Some(found) = ByteMarks::all_marking_unique(mark) {
            return Err(InvalidPatternError::DuplicateMarkByte(found.2, found.0, found.1));
        }
        if let Some(found) = ByteMarks::all_marking_unique(tail) {
            return Err(InvalidPatternError::DuplicateTailByte(found.2, found.0, found.1));
        }
        let initializer = ByteMarks::initialize(mark, tail);
        let marks = initializer.init_marking_indices();
        let tail_indices = if initializer.tail_bytes_len() > 0 {
            Some(initializer.init_tail_indices())
        } else {
            None
        };
        Ok(
            Self {
                initializer,
                marks,
                tail: tail_indices,
                curr_buf: None,
                left_over: None,
                buf_pos: 0,
                eof_reached: false,
                terminal: false,
            },
        )
    }

    /// Builds a streaming framer with the documented default patterns:
    /// mark `"sUfFiX"`, tail `"tAiL"`.
    pub fn with_defaults() -> (r: Self)
        ensures
            r.wf(),
            r.spec_mark() == default_mark_spec(),
            r.spec_tail() == default_tail_spec(),
            !r.is_terminal(),
            !r.is_eof(),
            !r.scanning(),
            r.pending() == Seq::<u8>::empty(),
    {
        let mark = default_mark();
        let tail = default_tail();
        proof {
            assert(valid_config(default_mark_spec(), default_tail_spec())) by {
                assert(default_mark_spec().len() != default_tail_spec().len());
            }
        }
        match Self::new(mark.as_slice(), tail.as_slice()) {
            Ok(m) => m,
            Err(_) => unreached(),
        }
    }

    /// Produces the next step of the stream.
    ///
    /// In the terminal state nothing changes and the stream stays ended.
    /// While a buffer is being scanned, the first pattern occurrence in the
    /// pending bytes decides the step: a mark occurrence yields the frame up
    /// to it and consumes it; a tail occurrence yields the frame up to it
    /// and ends the stream; no occurrence keeps the pending bytes as
    /// leftover and asks for input. With nothing buffered, the machine asks
    /// for input until the source is exhausted, and then yields the leftover
    /// (if any) as the final frame and ends the stream.
    pub fn next_frame(&mut self) -> (r: FrameStep)
        requires
            old(self).wf(),
        ensures
            final(self).wf(),
            final(self).spec_mark() == old(self).spec_mark(),
            final(self).spec_tail() == old(self).spec_tail(),
            old(self).is_terminal() ==> r is Done && *final(self) == *old(self)
                && final(self).is_terminal(),
            !old(self).is_terminal() && old(self).scanning() ==> ({
                let mark = old(self).spec_mark();
                let tailp = old(self).spec_tail();
                let pend = old(self).pending();
                match find_hit(mark, tailp, pend, 0) {
                    Some(j) => if matches_at(mark, pend, j) {
                        &&& r matches FrameStep::Frame(f) && f@ == pend.subrange(0, j)
                        &&& final(self).pending() == pend.subrange(
                            j + mark.len(),
                            pend.len() as int,
                        )
                        &&& !final(self).is_terminal()
                        &&& !final(self).is_eof()
                    } else {
                        &&& r matches FrameStep::Frame(f) && f@ == pend.subrange(0, j)
                        &&& final(self).is_terminal()
                    },
                    None => {
                        &&& r is NeedInput
                        &&& final(self).needs_input()
                        &&& final(self).pending() == pend
                    },
                }
            }),
            !old(self).is_terminal() && !old(self).scanning() && !old(self).is_eof() ==> r
                is NeedInput && *final(self) == *old(self),
            !old(self).is_terminal() && !old(self).scanning() && old(self).is_eof() ==> ({
                let pend = old(self).pending();
                &&& final(self).is_terminal()
                &&& if pend.len() > 0 {
                    r matches FrameStep::Frame(f) && f@ == pend
                } else {
                    r is Done
                }
            }),
            stream_safe(old(self).spec_mark(), old(self).spec_tail(), old(self).pending())
                ==> forall|chunks: Seq<Seq<u8>>|
                #[trigger] old(self).yields(chunks) == (match r {
                    FrameStep::Frame(f) => seq![f@] + final(self).yields(chunks),
                    FrameStep::NeedInput => final(self).yields(chunks),
                    FrameStep::Done => final(self).yields(chunks),
                }),
    {
        let ghost mark = self.spec_mark();
        let ghost tailp = self.spec_tail();
        if self.terminal {
            return FrameStep::Done;
        }
        if self.curr_buf.is_some() {
            let ghost pend = self.pending();
            let ghost p = self.buf_pos as int;
            let mut hit: Option<(usize, bool)> = None;
            let mut blen: usize = 0;
            let mut index: usize = self.buf_pos;
            match &self.curr_buf {
                Some(bytes) => {
                    blen = bytes.len();
                    let start_byte = self.initializer.marking_start_byte();
                    while index < bytes.len()
                        invariant_except_break
                            hit is None,
                            index <= bytes@.len(),
                            forall|t: int|
                                self.buf_pos <= t < index ==> !hit_at(mark, tailp, bytes@, t),
                        invariant
                            self.wf(),
                            mark == self.spec_mark(),
                            tailp == self.spec_tail(),
                            self.curr_buf matches Some(b) && b@ == bytes@,
                            start_byte == mark[0],
                            self.buf_pos <= index,
                        ensures
                            match hit {
                                Some(h) => {
                                    &&& self.buf_pos <= h.0 < bytes@.len()
                                    &&& (h.1 ==> matches_at(mark, bytes@, h.0 as int))
                                    &&& (!h.1 ==> tailp.len() > 0 && matches_at(
                                        tailp,
                                        bytes@,
                                        h.0 as int,
                                    ) && !matches_at(mark, bytes@, h.0 as int))
                                    &&& forall|t: int|
                                        self.buf_pos <= t < h.0 ==> !hit_at(
                                            mark,
                                            tailp,
                                            bytes@,
                                            t,
                                        )
                                },
                                None => forall|t: int|
                                    self.buf_pos <= t < bytes@.len() ==> !hit_at(
                                        mark,
                                        tailp,
                                        bytes@,
                                        t,
                                    ),
                            },
                        decreases bytes@.len() - index,
                    {
                        let hit_mark = bytes[index] == start_byte
                            && self.initializer.marking_matches(
                            &self.initializer,
                            &self.marks,
                            index,
                            bytes.as_slice(),
                        );
                        proof {
                            if bytes@[index as int] != mark[0] && matches_at(
                                mark,
                                bytes@,
                                index as int,
                            ) {
                                assert(bytes@.subrange(
                                    index as int,
                                    index as int + mark.len() as int,
                                )[0] == mark[0]);
                            }
                            assert(hit_mark == matches_at(mark, bytes@, index as int));
                        }
                        if hit_mark {
                            hit = Some((index, true));
                            break;
                        }
                        if let Some(tail_indices) = &self.tail {
                            let hit_tail = bytes[index] == self.initializer.tail_start_byte()
                                && self.initializer.tail_marking_matches(
                                &self.initializer,
                                tail_indices,
                                index,
                                bytes.as_slice(),
                            );
                            proof {
                                if bytes@[index as int] != tailp[0] && matches_at(
                                    tailp,
                                    bytes@,
                                    index as int,
                                ) {
                                    assert(bytes@.subrange(
                                        index as int,
                                        index as int + tailp.len() as int,
                                    )[0] == tailp[0]);
                                }
                                assert(hit_tail == matches_at(tailp, bytes@, index as int));
                            }
                            if hit_tail {
                                hit = Some((index, false));
                                break;
                            }
                        }
                        index = index + 1;
                    }
                },
                None => unreached(),
            }
            let ghost bseq = self.curr_buf->Some_0@;
            match hit {
                Some((j, true)) => {
                    proof {
                        lemma_find_hit_witness(mark, tailp, bseq, p, j as int);
                        lemma_find_hit_skip(mark, tailp, bseq, p);
                        lemma_matches_at_skip(mark, bseq, p, j as int);
                    }
                    let frame = match &self.curr_buf {
                        Some(bytes) => slice_to_vec(
                            slice_subrange(bytes.as_slice(), self.buf_pos, j),
                        ),
                        None => unreached(),
                    };
                    proof {
                        assert(frame@ =~= pend.subrange(0, j - p));
                    }
                    let msize = self.initializer.marking_bytes_len();
                    self.buf_pos = j + msize;
                    if self.buf_pos == blen {
                        self.curr_buf = None;
                    }
                    proof {
                        assert(self.pending() =~= pend.subrange(
                            j - p + mark.len() as int,
                            pend.len() as int,
                        ));
                        if stream_safe(mark, tailp, pend) {
                            assert forall|chunks: Seq<Seq<u8>>|
                                #[trigger] old(self).yields(chunks) == seq![frame@]
                                    + self.yields(chunks) by {
                                lemma_stream_out_first_mark(mark, tailp, pend, chunks, j - p);
                            }
                        }
                    }
                    FrameStep::Frame(frame)
                },
                Some((j, false)) => {
                    proof {
                        lemma_find_hit_witness(mark, tailp, bseq, p, j as int);
                        lemma_find_hit_skip(mark, tailp, bseq, p);
                        lemma_matches_at_skip(mark, bseq, p, j as int);
                        lemma_matches_at_skip(tailp, bseq, p, j as int);
                    }
                    let frame = match &self.curr_buf {
                        Some(bytes) => slice_to_vec(
                            slice_subrange(bytes.as_slice(), self.buf_pos, j),
                        ),
                        None => unreached(),
                    };
                    proof {
                        assert(frame@ =~= pend.subrange(0, j - p));
                    }
                    self.curr_buf = None;
                    self.terminal = true;
                    proof {
                        assert forall|chunks: Seq<Seq<u8>>|
                            #[trigger] old(self).yields(chunks) == seq![frame@] + self.yields(
                            chunks,
                        ) by {
                            lemma_stream_out_first_tail(mark, tailp, pend, chunks, j - p);
                        }
                    }
                    FrameStep::Frame(frame)
                },
                None => {
                    proof {
                        lemma_find_hit_none(mark, tailp, bseq, p);
                        lemma_find_hit_skip(mark, tailp, bseq, p);
                    }
                    let lo = match &self.curr_buf {
                        Some(bytes) => slice_to_vec(
                            slice_subrange(bytes.as_slice(), self.buf_pos, bytes.len()),
                        ),
                        None => unreached(),
                    };
                    self.curr_buf = None;
                    self.left_over = Some(lo);
                    FrameStep::NeedInput
                },
            }
        } else {
            if self.eof_reached {
                let ghost pend = self.pending();
                self.terminal = true;
                match self.left_over.take() {
                    Some(lo) => {
                        proof {
                            lemma_stream_out_no_hits(mark, tailp, pend);
                        }
                        FrameStep::Frame(lo)
                    },
                    None => {
                        proof {
                            lemma_stream_out_no_hits(mark, tailp, pend);
                        }
                        FrameStep::Done
                    },
                }
            } else {
                FrameStep::NeedInput
            }
        }
    }

    /// Supplies the next chunk pulled from the source. An empty chunk
    /// signals that the source is exhausted; otherwise the chunk is appended
    /// to the leftover bytes and the combined buffer becomes the one being
    /// scanned, from its start.
    pub fn feed(&mut self, chunk: &[u8])
        requires
            old(self).wf(),
            old(self).needs_input(),
        ensures
            final(self).wf(),
            final(self).spec_mark() == old(self).spec_mark(),
            final(self).spec_tail() == old(self).spec_tail(),
            !final(self).is_terminal(),
            chunk@.len() == 0 ==> final(self).is_eof() && !final(self).scanning()
                && final(self).pending() == old(self).pending(),
            chunk@.len() > 0 ==> !final(self).is_eof() && final(self).scanning()
                && final(self).pending() == old(self).pending() + chunk@,
            chunk@.len() == 0 ==> forall|rest: Seq<Seq<u8>>|
                #[trigger] final(self).yields(rest) == old(self).yields(Seq::empty()),
            chunk@.len() > 0 ==> forall|rest: Seq<Seq<u8>>|
                #[trigger] final(self).yields(rest) == old(self).yields(seq![chunk@] + rest),
    {
        if chunk.is_empty() {
            self.eof_reached = true;
            return ;
        }
        let ghost before = self.pending();
        let mut combined = match self.left_over.take() {
            Some(lo) => lo,
            None => Vec::new(),
        };
        push_all(&mut combined, chunk);
        self.buf_pos = 0;
        self.curr_buf = Some(combined);
        proof {
            assert(self.pending() =~= before + chunk@);
            assert(find_hit(self.spec_mark(), self.spec_tail(), before, 0) is None);
            assert forall|rest: Seq<Seq<u8>>|
                #[trigger] self.yields(rest) == old(self).yields(seq![chunk@] + rest) by {
                lemma_stream_out_push_chunk(self.spec_mark(), self.spec_tail(), before, chunk@, rest);
            }
        }
    }

    /// Streaming equivalence at the machine level: a freshly built framer,
    /// driven over any sequence of source chunks, produces exactly the
    /// frames of the batch scan of their concatenation, provided no pattern
    /// occurrence of that byte stream starts inside another's window.
    pub proof fn lemma_fresh_framer_matches_batch(self, chunks: Seq<Seq<u8>>)
        requires
            self.wf(),
            !self.is_terminal(),
            !self.is_eof(),
            !self.scanning(),
            self.pending() == Seq::<u8>::empty(),
            stream_safe(self.spec_mark(), self.spec_tail(), chunks.flatten()),
        ensures
            self.yields(chunks) == batch_frames(self.spec_mark(), self.spec_tail(), chunks.flatten()),
    {
        lemma_streaming_equivalence(self.spec_mark(), self.spec_tail(), chunks);
    }
}

} // verus!
