//! Primitive geo types: point labels and axis-aligned bounding boxes.
//!
//! Coordinates, elimination times and size factors are plain `i64` values.
//! Callers that start from fractional coordinates are expected to scale them
//! into integers with any strictly monotone mapping; every comparison the
//! library makes is order-based, so such a mapping preserves all results.

pub mod bbox;
pub mod label;
pub mod render;
