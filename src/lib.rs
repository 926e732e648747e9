//! Right-triangulated irregular networks (RTIN) over square heightmaps.
//!
//! A heightmap of side `2^k + 1` is split into a complete binary tree of
//! right triangles. Every node gets an approximation error, and a mesh is
//! extracted from the tree by descending only where the error exceeds a
//! threshold.

pub mod geometry;
pub mod label;
pub mod heightmap;
pub mod ratio;
pub mod rtin;
pub mod mesh;
pub mod decode;
pub mod cache;
