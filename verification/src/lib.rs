//! Compute kernels for a browser-based VR host: 4x4 single-precision matrix
//! transforms, substring search / text normalization / keyword extraction,
//! and a byte-oriented compression and delta-encoding codec pair.
//!
//! Floating-point values cross this library's boundary as IEEE-754 binary32
//! bit patterns (`u32`); the host-side marshalling layer converts real `f32`
//! buffers to and from that form.
use vstd::prelude::*;

pub mod fbits;
pub mod matrix;
pub mod codec;
pub mod words;
pub mod text;

verus! {

/// Failure values surfaced to the caller instead of crashing on a
/// precondition violation. No variant is ever recovered silently.
#[derive(Clone, Copy, Debug, PartialEq, Eq, Structural)]
pub enum KernelError {
    /// A fixed-size buffer argument does not have its required length.
    InvalidBufferLength,
    /// An index or back-reference reaches outside the data produced so far.
    IndexOutOfRange,
    /// Reserved for a tightened search contract; the current search treats
    /// an empty pattern as a defined match at position zero.
    EmptyPattern,
}

} // verus!
