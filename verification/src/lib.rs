//! Three-dimensional wave-function-collapse over voxel cuboids.
//!
//! The crate synthesizes a voxel field by example: every fixed-size window
//! ("stamp") of the output is constrained to match some window of a small
//! template cuboid.  The pieces, in dependency order:
//!
//! * [`indices`] — signed 3D coordinates, displacements, chunk arithmetic;
//! * [`shape`] — runtime 3D extents with a row-major linearization;
//! * [`space`] — read-only voxel fields and their lazy compositions;
//! * [`world`] — the dense padded cuboid, translated views and the
//!   copy-on-write overlay;
//! * [`prefab`] — palette voxels, fixed-size chunks and a sparse
//!   chunked world;
//! * [`extent`] — half-open integer boxes, iteration and intersection;
//! * [`stamp`] — stamp extraction and stamp collections;
//! * [`superposition`] — bitmask superpositions over voxel identities;
//! * [`entropy`] — the pseudo-entropy site-selection heuristic;
//! * [`wave`] — the mutable superposition grid with constraint propagation;
//! * [`collapse`] — the outer collapse driver;
//! * [`palette`] — mapping voxel identities to application voxel types.

use vstd::prelude::*;

pub mod collapse;
pub mod entropy;
pub mod extent;
pub mod indices;
pub mod palette;
pub mod prefab;
pub mod shape;
pub mod space;
pub mod stamp;
pub mod superposition;
pub mod wave;
pub mod world;

verus! {

/// Identity of a voxel inside the core: an 8-bit id, `0` being the
/// designated default (empty) voxel.
pub type VoxelId = u8;

} // verus!
