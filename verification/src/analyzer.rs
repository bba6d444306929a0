//! The topology analyzer: holds one mesh's shape (coordinate-buffer length
//! and index buffer) and answers independent topological queries about it.

use vstd::prelude::*;

verus! {

use crate::clustering::spec_unique_vertex_count;
use crate::components::spec_component_count;
use crate::watertight::spec_watertight;

/// The three topological descriptors of one analysis pass.
#[derive(Debug, Clone, Copy, PartialEq, Eq, Structural)]
pub struct ConnectivityResult {
    pub unique_vertex_count: usize,
    pub component_count: usize,
    pub is_watertight: bool,
}

/// Analyzes the topology of one triangle mesh.
///
/// The analyzer reads only the length of the flattened coordinate buffer
/// (three scalars per vertex) and the index buffer; scalar coordinate data
/// never enters the topological queries except through the proximity
/// relation handed to vertex clustering.
pub struct MeshAnalyzer {
    /// Length of the flattened coordinate buffer (three scalars per vertex).
    pub coord_count: usize,
    /// The index buffer, three indices per face.
    pub indices: Vec<u32>,
}

impl MeshAnalyzer {
    /// Number of whole vertices in the coordinate buffer.
    pub open spec fn spec_vertex_count(&self) -> int {
        self.coord_count as int / 3
    }

    /// Builds an analyzer for a mesh with `coord_count` coordinate scalars
    /// and the given index buffer.
    pub fn new(coord_count: usize, indices: Vec<u32>) -> (r: MeshAnalyzer)
        ensures
            r.coord_count == coord_count,
            r.indices@ == indices@,
    {
        MeshAnalyzer { coord_count, indices }
    }

    /// One pass over the three topological queries. Empty input yields
    /// degenerate but valid results (zero counts, not watertight), never a
    /// failure. `near` is the proximity relation for vertex clustering, as
    /// [`Self::count_unique_vertices`] expects it.
    pub fn analyze_topology(&self, near: &Vec<Vec<bool>>) -> (r: ConnectivityResult)
        requires
            near@.len() == self.spec_vertex_count(),
            forall|i: int| 0 <= i < near@.len() ==> (#[trigger] near@[i])@.len() == near@.len(),
        ensures
            r.unique_vertex_count as nat == spec_unique_vertex_count(
                near.deep_view(),
                self.spec_vertex_count(),
            ),
            self.indices@.len() == 0 ==> r.component_count == 0,
            self.indices@.len() > 0 ==> r.component_count as nat == spec_component_count(
                self.indices@,
                self.spec_vertex_count(),
            ),
            r.is_watertight == spec_watertight(self.indices@),
    {
        ConnectivityResult {
            unique_vertex_count: self.count_unique_vertices(near),
            component_count: self.count_connected_components(),
            is_watertight: self.is_watertight(),
        }
    }
}

} // verus!
