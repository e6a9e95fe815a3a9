//! Encodes an arbitrary binary payload into a sequence of raster video
//! frames, such that the payload can be reconstructed byte-for-byte from the
//! frames, and decodes it back.
//!
//! The library holds the frame codec itself: bit/byte conversion, the block
//! codec that etches payload units into block-quantized pixel grids, the
//! five-word instruction header that makes a video self-describing, and the
//! frame sequencer that partitions a payload into chunks and assembles the
//! ordered frame list. Opening, writing and reading the actual video
//! container is left to the caller, who hands frames in and out as plain
//! pixel buffers.
//!
//! The scheme assumes the container preserves pixel values exactly; a lossy
//! codec may still recover bits only probabilistically. That tolerance is a
//! deliberate non-goal, not something this library compensates for.

use vstd::prelude::*;

pub mod args;
pub mod convert;
pub mod ethcer;
pub mod settings;
pub mod source;

verus! {

/// The failures an embed or dislodge operation can report.
///
/// Low-level block reads out of bounds are recovered locally as "no value";
/// everything else surfaces as one of these at the operation boundary.
#[derive(Clone, Copy, PartialEq, Eq, Structural, Debug)]
pub enum EtchError {
    /// The payload has zero length; rejected before encoding starts.
    EmptyInput,
    /// Frame dimensions are not divisible by the block size (data frames only).
    DimensionMismatch,
    /// Both the primary and the fallback encoder were rejected.
    ContainerOpenFailed,
    /// The video is unreadable, or holds fewer frames than the header promises.
    ContainerReadFailed,
    /// The instruction frame is malformed.
    HeaderDecodeFailed,
    /// A chunked encode task terminated abnormally.
    WorkerFailure,
}

} // verus!
