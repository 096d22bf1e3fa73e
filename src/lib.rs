//! Flood-fill over a terrain point cloud: which samples standing water can reach
//! from a start location by short hops, using a quadtree that doubles as the
//! visited set.
//!
//! All coordinates are integers in millimetres of a projected planar system.

pub mod data;
pub mod geometry;
pub mod qtree;
pub mod query;
pub mod raster;
pub mod render;

pub use geometry::{Area, Bounds, Point};
