//! Collision-detection building blocks over integer geometry: index buffers
//! of procedurally generated meshes, axis-aligned boxes, a static
//! bounding-volume tree built by median partition, a dynamic
//! bounding-volume tree, and a dual-tree traversal enumerating the pairs of
//! leaves whose boxes meet.

pub mod procedural;
pub mod bounding_volume;
pub mod bvt;
pub mod bvtt;
pub mod dbvt;
