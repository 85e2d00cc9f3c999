//! A run-length-encoded sequence container and the voxel grid stored in it.

pub mod edits;
pub mod laws;
pub mod rle_array;
pub mod runs;
pub mod text;
pub mod voxelgrid;
