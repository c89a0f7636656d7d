//! ## byte_marks
//!
//! A configurable, light-weight bytes' boundary marker for byte streams.
//! A stream is demarcated by a byte pattern called the *mark* (a segment
//! separator) and, optionally, a second pattern called the *tail* (a stream
//! terminator). Payload segments are written onto a stream as
//! `payload ++ mark ++ payload ++ mark ++ ... [++ tail]`, and read back by
//! splitting the stream at every pattern occurrence.
//!
//! The bytes of each pattern must be pairwise distinct, which is what makes
//! the simple forward-scanning automaton (no failure links) correct.
//!
//! [`ByteMarker`] splits a fully materialized buffer in one pass, and
//! [`Marked`] applies the same scan incrementally across chunks pulled from
//! an external byte source, carrying unconsumed trailing bytes across chunk
//! boundaries.

use vstd::prelude::*;

pub mod bytemarker;
pub mod bytemarks;
pub mod laws;
pub mod lemmas;
pub mod marked;
pub mod model;

pub use bytemarker::ByteMarker;
pub use bytemarks::ByteMarks;
pub use bytemarks::InvalidPatternError;
pub use marked::FrameStep;
pub use marked::Marked;

verus! {

/// The documented default mark pattern, `"sUfFiX"` as bytes.
pub open spec fn default_mark_spec() -> Seq<u8> {
    seq![115u8, 85u8, 102u8, 70u8, 105u8, 88u8]
}

/// The documented default tail pattern, `"tAiL"` as bytes.
pub open spec fn default_tail_spec() -> Seq<u8> {
    seq![116u8, 65u8, 105u8, 76u8]
}

/// The default mark pattern (`"sUfFiX"`), used by framers configured
/// with defaults.
pub fn default_mark() -> (r: Vec<u8>)
    ensures
        r@ == default_mark_spec(),
{
    let mut v: Vec<u8> = Vec::new();
    v.push(115u8);
    v.push(85u8);
    v.push(102u8);
    v.push(70u8);
    v.push(105u8);
    v.push(88u8);
    proof {
        assert(v@ =~= default_mark_spec());
    }
    v
}

/// The default tail pattern (`"tAiL"`), used by framers configured
/// with defaults.
pub fn default_tail() -> (r: Vec<u8>)
    ensures
        r@ == default_tail_spec(),
{
    let mut v: Vec<u8> = Vec::new();
    v.push(116u8);
    v.push(65u8);
    v.push(105u8);
    v.push(76u8);
    proof {
        assert(v@ =~= default_tail_spec());
    }
    v
}

} // verus!
