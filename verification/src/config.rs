//! Configuration surface: channel capacity, detection-set capacity, default
//! model input size, default thresholds.

use vstd::prelude::*;

verus! {

/// Number of slots in a `Stream`; one slot always stays free, so at most
/// `STREAM_CAPACITY - 1` items are resident.
pub const STREAM_CAPACITY: usize = 16;

/// Maximum number of detections a `Bounds` batch can hold.
pub const DETECTIONS_CAPACITY: usize = 32;

/// The single class this pipeline detects.
pub const PERSON_CLASS_LABEL: &'static str = "person";

/// Default model input width in pixels.
pub const DEFAULT_INPUT_WIDTH: usize = 640;

/// Default model input height in pixels.
pub const DEFAULT_INPUT_HEIGHT: usize = 640;

/// Fixed-point scale for confidences and ratio thresholds: the integer
/// `s` stands for the ratio `s / SCORE_SCALE`.
pub const SCORE_SCALE: i64 = 1_000_000;

/// Largest coordinate value the suppression engine accepts; keeps every
/// intermediate product inside `i64`.
pub const COORD_LIMIT: i64 = 1_000_000;

/// Default confidence threshold (0.6, in `SCORE_SCALE` units).
pub const DEFAULT_CONFIDENCE_THRESHOLD: i64 = 600_000;

/// Default IoU threshold for suppression (0.7, in `SCORE_SCALE` units).
pub const DEFAULT_NMS_THRESHOLD: i64 = 700_000;

} // verus!
