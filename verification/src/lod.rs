//! Level-of-detail planning: a schedule of target vertex/face counts, one
//! level per requested reduction ratio. The plan is a scheduling hint only;
//! realizing a level is delegated to an external mesh simplifier.
//!
//! Scaling a count by a ratio is scalar work and is done by the caller; this
//! module takes the already-scaled raw targets, one pair per ratio in request
//! order, and applies the planner's floors.

use vstd::prelude::*;

verus! {

use crate::ValidationError;

/// One planned reduction level. `level` is the position of the requested
/// ratio in the request list.
#[derive(Debug, Clone, Copy, PartialEq, Eq, Structural)]
pub struct LodLevel {
    pub level: u32,
    pub vertex_count: usize,
    pub face_count: usize,
}

/// A full plan: the original counts and one level per requested ratio, in
/// request order.
#[derive(Debug, Clone, PartialEq, Eq)]
pub struct LodResult {
    pub original_vertex_count: usize,
    pub original_face_count: usize,
    pub levels: Vec<LodLevel>,
}

/// Plans LOD levels for a mesh with `coord_count` coordinate scalars and
/// `index_count` indices. `scaled_targets[i]` holds the raw
/// `(vertex target, face target)` pair for the `i`-th requested ratio; the
/// plan keeps request order and floors each level at 3 vertices and 1 face.
///
/// Empty coordinate or index buffers are rejected before any computation.
pub fn generate_lod(
    coord_count: usize,
    index_count: usize,
    scaled_targets: &Vec<(usize, usize)>,
) -> (r: Result<LodResult, ValidationError>)
    requires
        scaled_targets@.len() <= u32::MAX,
    ensures
        coord_count == 0 ==> r == Result::<LodResult, ValidationError>::Err(
            ValidationError::EmptyVertices,
        ),
        coord_count > 0 && index_count == 0 ==> r == Result::<LodResult, ValidationError>::Err(
            ValidationError::EmptyIndices,
        ),
        r is Ok <==> coord_count > 0 && index_count > 0,
        r matches Ok(plan) ==> {
            &&& plan.original_vertex_count == coord_count / 3
            &&& plan.original_face_count == index_count / 3
            &&& plan.levels@.len() == scaled_targets@.len()
            &&& forall|i: int|
                0 <= i < plan.levels@.len() ==> #[trigger] plan.levels@[i] == (LodLevel {
                    level: i as u32,
                    vertex_count: if scaled_targets@[i].0 >= 3 {
                        scaled_targets@[i].0
                    } else {
                        3
                    },
                    face_count: if scaled_targets@[i].1 >= 1 {
                        scaled_targets@[i].1
                    } else {
                        1
                    },
                })
        },
{
    if coord_count == 0 {
        return Err(ValidationError::EmptyVertices);
    }
    if index_count == 0 {
        return Err(ValidationError::EmptyIndices);
    }

    let vertex_count = coord_count / 3;
    let face_count = index_count / 3;

    let mut levels: Vec<LodLevel> = Vec::new();
    let mut i: usize = 0;
    while i < scaled_targets.len()
        invariant
            i <= scaled_targets@.len(),
            scaled_targets@.len() <= u32::MAX,
            levels@.len() == i,
            forall|k: int|
                0 <= k < i ==> #[trigger] levels@[k] == (LodLevel {
                    level: k as u32,
                    vertex_count: if scaled_targets@[k].0 >= 3 {
                        scaled_targets@[k].0
                    } else {
                        3
                    },
                    face_count: if scaled_targets@[k].1 >= 1 {
                        scaled_targets@[k].1
                    } else {
                        1
                    },
                }),
        decreases scaled_targets@.len() - i,
    {
        let (raw_vertices, raw_faces) = scaled_targets[i];
        let target_vertices = if raw_vertices >= 3 {
            raw_vertices
        } else {
            3
        };
        let target_faces = if raw_faces >= 1 {
            raw_faces
        } else {
            1
        };
        levels.push(
            LodLevel { level: i as u32, vertex_count: target_vertices, face_count: target_faces },
        );
        i = i + 1;
    }

    Ok(LodResult { original_vertex_count: vertex_count, original_face_count: face_count, levels })
}

} // verus!
