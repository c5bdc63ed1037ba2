//! Paper-folding ("dragon") curves, generic over the kind of point they are
//! drawn with.
//!
//! A curve starts as one segment. Each fold turns a mirror image of the path so
//! far about its last vertex and appends it, so that the number of edges
//! doubles. How a point is turned about a pivot is the caller's business: the
//! caller hands in one function that builds the transform about a pivot, and one
//! that applies such a transform to a point. The library owns the order in
//! which vertices are read and written, and proves what every vertex of the
//! result is: which earlier vertex it is the image of, and about which pivot.
//!
//! Beside the curve stand the two other things that a program drawing it
//! decides without arithmetic on coordinates: what the keys do to the number of
//! folds, and which edges the path has, in which order.

pub mod controls;
pub mod curve;
pub mod edges;
pub mod laws;
