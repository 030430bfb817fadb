//! Spatial partitioning and flow-field pathfinding core for a tick-based
//! simulation of mobile agents on a tile grid.
//!
//! The crate provides three cooperating structures, rebuilt on a fixed
//! cadence from agent snapshots:
//!
//! * a [`spatial_hash::SpatialHashTable`] bucketing agent ids by the grid
//!   cells their bounding circles overlap,
//! * a [`neighbors::SpatialNeighborsCache`] answering "who is within
//!   distance d" through a small set of fixed query radii, and
//! * per-faction flow fields ([`flow::FlowFieldsTowardsEnemies`]) derived
//!   from a wavefront integration over the terrain grid.
//!
//! All geometry is carried out on fixed-point integer coordinates so that
//! every computation here is exact; callers choose the unit scale.

use vstd::prelude::*;

pub mod coords;
pub mod flow;
pub mod neighbors;
pub mod spatial_hash;
pub mod team;
pub mod terrain;
pub mod vecmath;
pub mod world;

verus! {

/// Monotonically increasing tick counter supplied by the simulation driver.
#[derive(Debug, Clone, Copy, PartialEq, Eq, Structural)]
pub struct Clock(pub u64);

} // verus!
