//! A two-dimensional Barnes-Hut force approximation over integer point masses.
//!
//! Positions and velocities are integers in grid units, masses are positive
//! integers, forces are integers in units of `1 / FORCE_SCALE`, and the
//! opening-angle threshold and the time step are ratios of integers. Every
//! quantity is computed exactly, with rounding toward zero where a quotient is
//! taken, so the tree, the forces and the step are functions of the snapshot.
//!
//! - `physics`: vectors, particles, the pairwise force law, the integrator and
//!   the exact pairwise step.
//! - `sums`: sums of per-particle quantities and the split into quadrants.
//! - `quadtree`: the bounding box and the construction of the tree.
//! - `barneshut`: the traversal with the opening-angle test and the
//!   Barnes-Hut step.
//! - `dispatch`: collection of per-particle results from concurrent workers.
//! - `config`: plain configuration values.
use vstd::prelude::*;

pub mod physics;
pub mod sums;
pub mod quadtree;
pub mod barneshut;
pub mod dispatch;
pub mod config;

verus! {

} // verus!
