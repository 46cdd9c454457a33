//! Rigid-body physics over voxel volumes: what can be told from which voxels are
//! solid, and which bodies rest on which.

pub mod cells;
pub mod classify;
pub mod connect;
pub mod contact;
pub mod detach;
pub mod flood;
pub mod fracture;
pub mod graph;
pub mod joint;
pub mod mass;
pub mod merge;
pub mod sculpt;
pub mod sleep;
pub mod solver;

use vstd::prelude::*;

verus! {

/// How many voxels a piece may have and still be lifted out of the world.
///
/// The search stops past this, and calls the piece part of the terrain.
pub const BUDGET: usize = 20_000;

} // verus!
