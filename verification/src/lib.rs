//! Analysis of triangle meshes for 3D-asset inspection: mesh statistics,
//! topology (connected components, watertightness, vertex clustering),
//! level-of-detail planning, and aggregation of per-primitive model data.
//!
//! A mesh is a flat coordinate buffer (three scalars per vertex) together
//! with an index buffer (three indices per face). The topological and
//! counting logic here reads only the length of the coordinate buffer and
//! the contents of the index buffer; scalar geometry (areas, volumes,
//! bounding boxes, distances) is left to the caller.

use vstd::prelude::*;

pub mod analyzer;
pub mod assets;
pub mod clustering;
pub mod components;
pub mod lod;
pub mod model;
pub mod stats;
pub mod watertight;

verus! {

/// Why a mesh was rejected before any computation.
#[derive(Debug, Clone, Copy, PartialEq, Eq, Structural)]
pub enum ValidationError {
    /// The coordinate buffer is empty.
    EmptyVertices,
    /// The index buffer is empty.
    EmptyIndices,
}

} // verus!
