//! A runtime data structure for geolocated, priority-ranked point labels.
//!
//! The core is a three-dimensional priority search tree: a max-heap on the
//! elimination time `t` combined with an alternating spatial partition on the
//! `x` and `y` coordinates, as in a k-d tree.  Given a rectangular query
//! region and a minimum elimination time, the tree returns exactly the labels
//! inside the region whose `t` exceeds the threshold, pruning whole subtrees
//! by the heap and partition invariants.

pub mod primitives;
pub mod pst_3d;
