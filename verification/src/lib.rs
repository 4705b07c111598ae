//! A recurring detection pipeline: bounded non-blocking channels move frames
//! and detection batches between threads, a loop controller decides when a
//! worker runs, and a suppression engine reduces raw per-box model output to a
//! small, ranked, non-overlapping set of detections.
//!
//! Coordinates and confidences are fixed-point integers: a confidence or an
//! IoU threshold is scaled by [`config::SCORE_SCALE`], a coordinate is any
//! integer in `[0, config::COORD_LIMIT]` in whatever unit the caller picks.

pub mod config;
pub mod utils;
pub mod color;
