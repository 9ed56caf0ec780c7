//! A uniform-grid spatial partitioning and neighbor-resolution engine for
//! two-dimensional particle simulations.
//!
//! The library maintains a set of moving, colliding point masses, re-derives
//! their grid neighborhoods every step, and resolves pairwise collisions.
//! Positions, velocities and radii are integers in a fixed sub-pixel unit, so
//! every statement about the engine is exact:
//!
//! - [`grid`]: maps a position to a grid cell, clamping positions that have
//!   drifted out of bounds, so every position maps to a valid cell id.
//! - [`sort`]: reorders an entity array in place by ascending cell id
//!   (insertion sort, cheap on nearly-sorted frames).
//! - [`bucket`]: derives, for each cell, the contiguous index range of the
//!   entities in that cell (binary search over the sorted array), or rebuilds
//!   the array grouped by cell outright.
//! - [`radix`]: the same reordering as a least-significant-digit radix sort
//!   over the decimal digits of the cell id, organized as histogram, prefix
//!   sum and scatter passes over fixed-size buckets.
//! - [`vector`] and [`ball`]: the entities themselves, with integration,
//!   boundary reflection and elastic collision resolution.
//! - [`sim`]: one simulation step wired together: integrate, reindex,
//!   rebuild buckets, resolve neighbor collisions.

pub mod ball;
pub mod bucket;
pub mod grid;
pub mod radix;
pub mod sim;
pub mod sort;
pub mod vector;
