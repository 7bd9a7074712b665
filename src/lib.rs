//! A point index over a bounded D-dimensional box: a tree in which every
//! internal node splits its region at the midpoint of every axis at once,
//! giving 2^D children (a quadtree for D = 2, an octree for D = 3).
use vstd::prelude::*;

pub mod point;
pub mod region;
pub mod tree;

verus! {

/// Number of dimensions of every point and region.
pub const D: usize = 2;

/// Number of children of an internal node: 2^D.
pub const N: usize = 1 << D;

} // verus!
