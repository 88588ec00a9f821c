//! Exact planar geometry: points, infinite lines, bounded segments and
//! axis-aligned bounding boxes over bounded rational coordinates.
//!
//! The kernel classifies coordinates into nine regions relative to a box,
//! intersects lines and segments, and clips segments against a box. All
//! arithmetic is exact: a coordinate is a reduced rational held in machine
//! words, and an operation whose exact result cannot be represented within
//! the coordinate limits reports that instead of rounding.

pub mod bbox;
pub mod line;
pub mod point;
pub mod rat;
pub mod segment;

pub use bbox::{BBox, Bounds};
pub use line::Line;
pub use point::Pt;
pub use rat::Rat;
pub use segment::Seg;
