//! A sparse voxel octree for GPU ray casting: tiles are inserted by point
//! and depth, merged bottom-up, and flattened into a pre-order array that a
//! shader walks.
pub mod color;
pub mod geometry;
pub mod tile;
pub mod map;
pub mod laws;
pub mod model;
pub mod input;
pub mod screen;
