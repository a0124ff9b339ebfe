use vstd::prelude::*;

verus! {

/// The failure taxonomy of a sampling run. Every occurrence is fatal: the
/// caller aborts the whole batch rather than skipping the annotation.
#[derive(Clone, Copy, Debug, PartialEq, Eq, Structural)]
pub enum SampleError {
    /// An annotation's `image_id` has no entry in the image table.
    MissingImage,
    /// A bounding box whose inset ring would have negative extent, would
    /// need a coordinate below zero, or would reach outside the image.
    InvalidGeometry,
    /// The image file could not be opened or decoded. Produced only by the
    /// unverified decoding shell around this library.
    DecodeFailure,
}

} // verus!
