//! Detection pipeline: geometry types, the bounded detection batch, the
//! suppression engine and the per-tick orchestration.

pub mod bounds;
pub mod tick;
pub mod image;
pub mod utils;
