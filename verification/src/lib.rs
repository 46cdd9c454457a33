//! A sparse 64-tree of voxels, and what is built on it: editing, coarse grids
//! for rendering, connectivity for physics, and model import.

pub mod address;
pub mod alone;
pub mod arena;
pub mod bits;
pub mod body;
pub mod contree;
pub mod dense;
pub mod distance_field;
pub mod edit;
pub mod fullness;
pub mod gpu;
pub mod grid;
pub mod growth;
pub mod laws;
pub mod march;
pub mod mask_table;
pub mod material;
pub mod nearest;
pub mod neat;
pub mod node;
pub mod normal;
pub mod physics;
pub mod plan;
pub mod reuse;
pub mod rewrite;
pub mod scenes;
pub mod sort;
pub mod sparse;
pub mod store;
pub mod testing;
pub mod tools;
pub mod tree;
pub mod vox;
