//! Meshing of a sparse, labelled voxel lattice into axis-aligned boxes.
//!
//! A voxel store maps lattice positions to labels. The store is split by
//! exact label into face-connected components, and every component is
//! covered by boxes that do not overlap and hold voxels of one identity
//! each. A greedy grower makes the boxes under each of the six orders of
//! the axes, and the order that needs the fewest boxes is kept.
//!
//! - `lattice`, `connectivity`: positions, their order, and walks over
//!   shared faces.
//! - `voxel`, `cuboid`: voxels with their labels, and boxes.
//! - `greedy`, `meshing`: the grower, and what holds of its boxes.
//! - `flood`, `components`: the flood fill, and what holds of its
//!   components.
//! - `labels`, `optimizer`: the components of a labelled store, and the
//!   best meshing of each.
//! - `text`, `util`, `scene`: property strings, and the rules by which the
//!   blocks of a world become voxels, lights and models.

pub mod lattice;
pub mod key_order;
pub mod connectivity;
pub mod voxel;
pub mod cuboid;
pub mod greedy;
pub mod meshing;
pub mod flood;
pub mod components;
pub mod labels;
pub mod optimizer;
pub mod text;
pub mod util;
pub mod scene;
mod parallel;
