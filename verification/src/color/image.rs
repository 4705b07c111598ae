//! Dimensions carried alongside a frame: the source-image size and the model
//! input size, from which the engine derives the axis-wise rescale factors.

use vstd::prelude::*;

verus! {

/// Source and model-input dimensions of one frame.
#[derive(Debug, Clone, Copy, PartialEq, Eq, Structural)]
pub struct ScaleMessage {
    /// Source-image width in pixels.
    pub o_width: u32,
    /// Source-image height in pixels.
    pub o_height: u32,
    /// Model-input width in pixels.
    pub s_width: u32,
    /// Model-input height in pixels.
    pub s_height: u32,
}

} // verus!
