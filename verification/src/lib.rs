//! Photomosaic core: dominant-color extraction and a perceptual
//! nearest-neighbor index over texture colors.
//!
//! All color arithmetic is fixed point: a pixel channel is a fraction of
//! [`color::CHANNEL_ONE`], and a perceptual coordinate is scaled by
//! [`color::LAB_SCALE`]. This keeps the whole pipeline in integers, so every
//! step — color-space conversion, clustering, best-of-N selection, and the
//! nearest-neighbor query — is deterministic and verified.
//!
//! Transparency policy: extraction clusters every supplied pixel, with
//! alpha participating as a fourth perceptual coordinate; a driver that
//! reconstructs an image is expected to skip non-opaque target pixels
//! before querying, and to pass every texture pixel to the extractor.

use vstd::prelude::*;

pub mod color;
pub mod extract;
pub mod kmeans;
pub mod tree;

verus! {

/// The ways the pipeline can fail.
#[derive(Clone, Copy, PartialEq, Eq, Structural, Debug)]
pub enum Error {
    /// The extractor was handed an empty pixel sequence.
    InvalidInput,
    /// An upstream image source could not supply pixel data; propagated by
    /// callers that decode, never produced by the core itself.
    DecodeError,
    /// A nearest-neighbor query was made against an index with no entries.
    EmptyIndex,
}

} // verus!
