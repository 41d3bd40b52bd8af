//! Greedy voxel meshing with a small versioned binary mesh codec.
//!
//! The mesher sweeps a dense voxel-colour grid along each axis and merges
//! coplanar, same-coloured, same-orientation faces into maximal rectangles,
//! emitting two triangles per rectangle.  The codec serialises the resulting
//! vertex and index buffers to a flat byte layout with a magic marker and a
//! version tag, and decodes such buffers back, validating as it goes.
//!
//! Vertex positions are carried as IEEE 754 single-precision bit patterns
//! (`u32`), so the whole pipeline is exact: encoding followed by decoding
//! reproduces a mesh bit for bit.

pub mod codec;
pub mod mesh;
pub mod mesher;

pub use codec::VoxelMeshDecodeError;
pub use mesh::{draw_quad, Quad, Vec3Bits, Vertex, Voxel, VoxelMesh};
pub use mesher::{greedy_mesh, BlockScale, MaskCell};
