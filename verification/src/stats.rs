//! Per-mesh statistics: vertex/face/edge counts, degeneracy scan, and the
//! coarse manifold flag. The degeneracy scan over faces is embarrassingly
//! parallel and runs on rayon's thread pool; every face's verdict is computed
//! by a verified predicate.

use vstd::prelude::*;

use rayon::iter::ParallelIterator;
use rayon::slice::ParallelSlice;

verus! {

use crate::ValidationError;

/// Aggregate counts and flags for one mesh.
///
/// `edge_count` is the closed-manifold estimate `face_count * 3 / 2`, not a
/// count of distinct edges. `is_manifold` is a coarse proxy: merely the
/// absence of degenerate faces, not an edge-valence check.
#[derive(Debug, Clone, Copy, PartialEq, Eq, Structural)]
pub struct MeshStats {
    pub vertex_count: usize,
    pub face_count: usize,
    pub edge_count: usize,
    pub is_manifold: bool,
    pub has_degenerate_faces: bool,
}

/// Number of whole faces described by an index buffer.
pub open spec fn spec_face_count(indices: Seq<u32>) -> int {
    indices.len() as int / 3
}

/// Face `f` repeats one of its three vertex indices, so its triangle has zero
/// area by construction.
pub open spec fn face_has_repeated_index(indices: Seq<u32>, f: int) -> bool {
    indices[3 * f] == indices[3 * f + 1] || indices[3 * f + 1] == indices[3 * f + 2]
        || indices[3 * f] == indices[3 * f + 2]
}

/// The verdict of the degeneracy scan on the chunk of up to three indices
/// starting at `3 * f`: a trailing partial chunk counts as degenerate.
pub open spec fn chunk_is_degenerate(indices: Seq<u32>, f: int) -> bool {
    if 3 * f + 3 <= indices.len() {
        face_has_repeated_index(indices, f)
    } else {
        true
    }
}

/// Number of chunks of up to three indices: whole faces, plus a trailing
/// partial chunk if the length is not a multiple of three.
pub open spec fn spec_chunk_count(indices: Seq<u32>) -> int {
    (indices.len() as int + 2) / 3
}

/// Some face repeats an index, or the index buffer has a trailing fragment
/// that does not form a whole face.
pub open spec fn spec_has_degenerate(indices: Seq<u32>) -> bool {
    (exists|f: int| 0 <= f < spec_face_count(indices) && face_has_repeated_index(indices, f))
        || indices.len() % 3 != 0
}

/// Degeneracy verdict for one chunk of the index buffer, as handed out by the
/// parallel scan: chunks shorter than a whole face count as degenerate.
pub fn face_chunk_degenerate(face: &[u32]) -> (r: bool)
    ensures
        r == (face@.len() < 3 || face@[0] == face@[1] || face@[1] == face@[2] || face@[0]
            == face@[2]),
{
    if face.len() < 3 {
        return true;
    }
    let i0 = face[0];
    let i1 = face[1];
    let i2 = face[2];
    i0 == i1 || i1 == i2 || i0 == i2
}

/// Relies on rayon's `ParallelSlice::par_chunks` (chunks of at most three
/// indices, in order, only the last possibly shorter) and
/// `ParallelIterator::any` (true iff the predicate holds of some chunk). The
/// predicate itself is the verified [`face_chunk_degenerate`].
#[verifier::external_body]
fn any_chunk_degenerate(indices: &Vec<u32>) -> (r: bool)
    ensures
        r == (exists|f: int|
            0 <= f < spec_chunk_count(indices@) && chunk_is_degenerate(indices@, f)),
{
    indices.par_chunks(3).any(|face| face_chunk_degenerate(face))
}

/// Counts, degeneracy flag and manifold flag for one mesh, computed from the
/// coordinate-buffer length and the index buffer.
///
/// Empty coordinate or index buffers are rejected before any computation;
/// out-of-range or repeated indices are tolerated and reported only through
/// `has_degenerate_faces`.
pub fn calculate_mesh_stats(coord_count: usize, indices: &Vec<u32>) -> (r: Result<
    MeshStats,
    ValidationError,
>)
    ensures
        r == if coord_count == 0 {
            Result::<MeshStats, ValidationError>::Err(ValidationError::EmptyVertices)
        } else if indices@.len() == 0 {
            Result::<MeshStats, ValidationError>::Err(ValidationError::EmptyIndices)
        } else {
            Result::<MeshStats, ValidationError>::Ok(
                MeshStats {
                    vertex_count: (coord_count / 3) as usize,
                    face_count: (indices@.len() as int / 3) as usize,
                    edge_count: (indices@.len() as int / 3 * 3 / 2) as usize,
                    is_manifold: !spec_has_degenerate(indices@),
                    has_degenerate_faces: spec_has_degenerate(indices@),
                },
            )
        },
{
    if coord_count == 0 {
        return Err(ValidationError::EmptyVertices);
    }
    if indices.len() == 0 {
        return Err(ValidationError::EmptyIndices);
    }

    let vertex_count = coord_count / 3;
    let face_count = indices.len() / 3;
    let edge_count = face_count * 3 / 2;

    let has_degenerate_faces = any_chunk_degenerate(indices);
    proof {
        lemma_chunk_scan_matches_degeneracy(indices@);
    }

    Ok(
        MeshStats {
            vertex_count,
            face_count,
            edge_count,
            is_manifold: !has_degenerate_faces,
            has_degenerate_faces,
        },
    )
}

/// A mesh with a face that repeats one of its vertex indices is reported as
/// having degenerate faces, and therefore as non-manifold: the stats of such
/// a mesh carry `has_degenerate_faces` and the negated `is_manifold` flag.
pub proof fn lemma_degenerate_face_flags(indices: Seq<u32>, f: int)
    requires
        0 <= f < spec_face_count(indices),
        face_has_repeated_index(indices, f),
    ensures
        spec_has_degenerate(indices),
{
}

/// Vertex counts reported by the GPU-optimization pass.
///
/// The pass itself is a placeholder pending a real mesh-optimizer
/// collaborator: the vertex count is handed back unchanged, and the scalar
/// cache/overdraw estimates are the caller's to report.
#[derive(Debug, Clone, Copy, PartialEq, Eq, Structural)]
pub struct OptimizedMeshResult {
    pub original_vertex_count: usize,
    pub optimized_vertex_count: usize,
}

/// Plans the GPU-optimization pass for a mesh with `coord_count` coordinate
/// scalars. An empty coordinate buffer is rejected; otherwise the vertex
/// count passes through unchanged.
pub fn optimize_mesh(coord_count: usize) -> (r: Result<OptimizedMeshResult, ValidationError>)
    ensures
        r == if coord_count == 0 {
            Result::<OptimizedMeshResult, ValidationError>::Err(ValidationError::EmptyVertices)
        } else {
            Result::<OptimizedMeshResult, ValidationError>::Ok(
                OptimizedMeshResult {
                    original_vertex_count: (coord_count / 3) as usize,
                    optimized_vertex_count: (coord_count / 3) as usize,
                },
            )
        },
{
    if coord_count == 0 {
        return Err(ValidationError::EmptyVertices);
    }
    let vertex_count = coord_count / 3;
    Ok(
        OptimizedMeshResult {
            original_vertex_count: vertex_count,
            optimized_vertex_count: vertex_count,
        },
    )
}

/// The chunkwise verdict of the parallel scan agrees with the facewise
/// statement of degeneracy.
proof fn lemma_chunk_scan_matches_degeneracy(indices: Seq<u32>)
    ensures
        (exists|f: int| 0 <= f < spec_chunk_count(indices) && chunk_is_degenerate(indices, f))
            == spec_has_degenerate(indices),
{
    let n = indices.len() as int;
    if exists|f: int| 0 <= f < spec_chunk_count(indices) && chunk_is_degenerate(indices, f) {
        let f = choose|f: int|
            0 <= f < spec_chunk_count(indices) && chunk_is_degenerate(indices, f);
        if 3 * f + 3 <= n {
            assert(f < spec_face_count(indices));
            assert(spec_has_degenerate(indices));
        } else {
            assert(n % 3 != 0);
        }
    }
    if spec_has_degenerate(indices) {
        if exists|f: int| 0 <= f < spec_face_count(indices) && face_has_repeated_index(indices, f) {
            let f = choose|f: int|
                0 <= f < spec_face_count(indices) && face_has_repeated_index(indices, f);
            assert(0 <= f < spec_chunk_count(indices) && chunk_is_degenerate(indices, f));
        } else {
            assert(n % 3 != 0);
            let f = n / 3;
            assert(0 <= f < spec_chunk_count(indices) && chunk_is_degenerate(indices, f));
        }
    }
}

} // verus!
