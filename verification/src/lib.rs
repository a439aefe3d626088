//! A small computational-geometry support library: an AVL-balanced ordered
//! map with neighbor (successor / predecessor) queries, together with plain
//! integer point and line-segment value types.

pub mod bst;
pub mod point;
pub mod segment;

pub use bst::BST;
pub use point::Point;
pub use segment::LineSegment;
