//! The ways in which the counting pipeline refuses its input.

use vstd::prelude::*;

verus! {

#[derive(Clone, Copy, Debug, PartialEq, Eq, Structural)]
pub enum PipelineError {
    /// The tile size is zero.
    ZeroTileSize,
    /// A block does not hold three ciphertexts for each of its pixels.
    MalformedBlock,
    /// A block reaches outside the image.
    BlockOutOfBounds,
    /// Two blocks claim the same pixel.
    OverlappingBlocks,
    /// No block holds some pixel of the image.
    UncoveredPixel,
    /// The reference region does not lie inside the image.
    RegionOutOfBounds,
    /// The image is wider or higher than the contour tracer can address.
    ImageTooLarge,
}

} // verus!
