use mesh_inspect::analyzer::MeshAnalyzer;
use mesh_inspect::lod::generate_lod;
use mesh_inspect::stats::{calculate_mesh_stats, optimize_mesh};
use mesh_inspect::ValidationError;

/// Flattened coordinates of `n` vertices occupy `3 * n` scalars.
fn coords_of(n: usize) -> usize {
    3 * n
}

/// The proximity matrix a caller derives from real coordinates: entry
/// `(i, j)` says whether the squared distance is strictly below epsilon
/// squared, exactly as the scalar pass computes it.
fn near_matrix(vertices: &[f32], epsilon: f32) -> Vec<Vec<bool>> {
    let n = vertices.len() / 3;
    let eps_sq = epsilon * epsilon;
    let mut near = vec![vec![false; n]; n];
    for i in 0..n {
        for j in 0..n {
            let dx = vertices[i * 3] - vertices[j * 3];
            let dy = vertices[i * 3 + 1] - vertices[j * 3 + 1];
            let dz = vertices[i * 3 + 2] - vertices[j * 3 + 2];
            near[i][j] = dx * dx + dy * dy + dz * dz < eps_sq;
        }
    }
    near
}

#[test]
fn stats_counts_follow_buffer_lengths() {
    let stats = calculate_mesh_stats(coords_of(4), &vec![0, 1, 2, 0, 2, 3]).unwrap();
    assert_eq!(stats.vertex_count, 4);
    assert_eq!(stats.face_count, 2);
    assert_eq!(stats.edge_count, 3);
    assert!(!stats.has_degenerate_faces);
    assert!(stats.is_manifold);
}

#[test]
fn stats_single_face_edge_estimate_rounds_down() {
    let stats = calculate_mesh_stats(coords_of(3), &vec![0, 1, 2]).unwrap();
    assert_eq!(stats.vertex_count, 3);
    assert_eq!(stats.face_count, 1);
    assert_eq!(stats.edge_count, 1);
}

#[test]
fn stats_rejects_empty_vertices() {
    assert_eq!(
        calculate_mesh_stats(0, &vec![0, 1, 2]),
        Err(ValidationError::EmptyVertices)
    );
}

#[test]
fn stats_rejects_empty_indices() {
    assert_eq!(
        calculate_mesh_stats(coords_of(3), &vec![]),
        Err(ValidationError::EmptyIndices)
    );
}

#[test]
fn degenerate_face_clears_manifold_flag() {
    let stats = calculate_mesh_stats(coords_of(3), &vec![0, 0, 1]).unwrap();
    assert!(stats.has_degenerate_faces);
    assert!(!stats.is_manifold);
}

#[test]
fn degenerate_face_found_among_clean_faces() {
    let stats = calculate_mesh_stats(coords_of(4), &vec![0, 1, 2, 1, 3, 1]).unwrap();
    assert!(stats.has_degenerate_faces);
    assert!(!stats.is_manifold);
}

#[test]
fn tetrahedron_is_watertight_and_single_component() {
    let indices = vec![0, 1, 2, 0, 3, 1, 1, 3, 2, 2, 3, 0];
    let analyzer = MeshAnalyzer::new(coords_of(4), indices);
    assert!(analyzer.is_watertight());
    assert_eq!(analyzer.count_connected_components(), 1);
}

#[test]
fn single_triangle_is_open_but_connected() {
    let analyzer = MeshAnalyzer::new(coords_of(3), vec![0, 1, 2]);
    assert!(!analyzer.is_watertight());
    assert_eq!(analyzer.count_connected_components(), 1);
}

#[test]
fn disjoint_triangles_form_two_components() {
    let analyzer = MeshAnalyzer::new(coords_of(6), vec![0, 1, 2, 3, 4, 5]);
    assert_eq!(analyzer.count_connected_components(), 2);
}

#[test]
fn empty_index_buffer_is_not_watertight() {
    let analyzer = MeshAnalyzer::new(coords_of(3), vec![]);
    assert!(!analyzer.is_watertight());
}

#[test]
fn empty_index_buffer_has_no_components() {
    let analyzer = MeshAnalyzer::new(coords_of(5), vec![]);
    assert_eq!(analyzer.count_connected_components(), 0);
}

#[test]
fn isolated_vertices_count_as_components() {
    // One triangle over vertices 0..3, vertices 3 and 4 untouched.
    let analyzer = MeshAnalyzer::new(coords_of(5), vec![0, 1, 2]);
    assert_eq!(analyzer.count_connected_components(), 3);
}

#[test]
fn out_of_range_face_is_skipped_by_connectivity() {
    // The second face points past the vertex buffer and joins nothing.
    let analyzer = MeshAnalyzer::new(coords_of(6), vec![0, 1, 2, 3, 4, 9]);
    assert_eq!(analyzer.count_connected_components(), 4);
}

#[test]
fn vertices_within_epsilon_collapse_to_one() {
    let vertices = [0.0, 0.0, 0.0, 0.5, 0.0, 0.0];
    let analyzer = MeshAnalyzer::new(vertices.len(), vec![0, 1, 0]);
    let near = near_matrix(&vertices, 1.0);
    assert_eq!(analyzer.count_unique_vertices(&near), 1);
}

#[test]
fn vertices_at_epsilon_stay_distinct() {
    let vertices = [0.0, 0.0, 0.0, 1.0, 0.0, 0.0];
    let analyzer = MeshAnalyzer::new(vertices.len(), vec![0, 1, 0]);
    let near = near_matrix(&vertices, 1.0);
    assert_eq!(analyzer.count_unique_vertices(&near), 2);
}

#[test]
fn clustering_first_representative_wins() {
    // Three collinear vertices half an epsilon apart: the first absorbs the
    // second; the third is out of the first's reach and, with the second
    // already marked, opens its own cluster - no transitive chaining.
    let vertices = [0.0, 0.0, 0.0, 0.6, 0.0, 0.0, 1.2, 0.0, 0.0];
    let analyzer = MeshAnalyzer::new(vertices.len(), vec![0, 1, 2]);
    let near = near_matrix(&vertices, 1.0);
    assert_eq!(analyzer.count_unique_vertices(&near), 2);
}

#[test]
fn clustering_of_no_vertices_is_empty() {
    let analyzer = MeshAnalyzer::new(0, vec![]);
    assert_eq!(analyzer.count_unique_vertices(&Vec::new()), 0);
}

#[test]
fn lod_halves_counts_at_half_ratio() {
    // 300 vertices, 100 faces, one requested ratio of 0.5: the caller
    // scales the counts, the planner clamps and schedules them.
    let face_count = 300 / 3;
    let vertex_count = 900 / 3;
    let ratio: f32 = 0.5;
    let scaled = vec![(
        (vertex_count as f32 * ratio) as usize,
        (face_count as f32 * ratio) as usize,
    )];
    let plan = generate_lod(900, 300, &scaled).unwrap();
    assert_eq!(plan.original_vertex_count, 300);
    assert_eq!(plan.original_face_count, 100);
    assert_eq!(plan.levels.len(), 1);
    assert_eq!(plan.levels[0].level, 0);
    assert_eq!(plan.levels[0].face_count, 50);
    assert_eq!(plan.levels[0].vertex_count, 150);
}

#[test]
fn lod_clamps_vanishing_ratios() {
    let ratio: f32 = 0.0;
    let scaled = vec![((300 as f32 * ratio) as usize, (100 as f32 * ratio) as usize)];
    let plan = generate_lod(900, 300, &scaled).unwrap();
    assert_eq!(plan.levels[0].face_count, 1);
    assert_eq!(plan.levels[0].vertex_count, 3);
}

#[test]
fn lod_keeps_request_order() {
    let scaled = vec![(225, 75), (150, 50), (75, 25)];
    let plan = generate_lod(900, 300, &scaled).unwrap();
    assert_eq!(plan.levels.len(), 3);
    for (i, level) in plan.levels.iter().enumerate() {
        assert_eq!(level.level, i as u32);
    }
    assert_eq!(plan.levels[0].face_count, 75);
    assert_eq!(plan.levels[1].face_count, 50);
    assert_eq!(plan.levels[2].face_count, 25);
}

#[test]
fn lod_rejects_empty_vertices() {
    assert_eq!(
        generate_lod(0, 300, &vec![(1, 1)]),
        Err(ValidationError::EmptyVertices)
    );
}

#[test]
fn lod_rejects_empty_indices() {
    assert_eq!(
        generate_lod(900, 0, &vec![(1, 1)]),
        Err(ValidationError::EmptyIndices)
    );
}

#[test]
fn optimize_mesh_passes_counts_through() {
    let result = optimize_mesh(coords_of(25)).unwrap();
    assert_eq!(result.original_vertex_count, 25);
    assert_eq!(result.optimized_vertex_count, 25);
}

#[test]
fn optimize_mesh_rejects_empty_vertices() {
    assert_eq!(optimize_mesh(0), Err(ValidationError::EmptyVertices));
}

#[test]
fn out_of_range_indices_are_tolerated_by_stats() {
    // Indices past the vertex buffer do not fault and, without repeats, do
    // not count as degenerate.
    let stats = calculate_mesh_stats(coords_of(2), &vec![0, 1, 7]).unwrap();
    assert_eq!(stats.vertex_count, 2);
    assert_eq!(stats.face_count, 1);
    assert!(!stats.has_degenerate_faces);
    assert!(stats.is_manifold);
}

#[test]
fn shared_edge_alone_is_not_watertight() {
    // Two triangles share one edge; the four boundary edges are tallied once.
    let analyzer = MeshAnalyzer::new(coords_of(4), vec![0, 1, 2, 1, 3, 2]);
    assert!(!analyzer.is_watertight());
}

#[test]
fn degenerate_face_still_joins_its_vertices() {
    // A face repeating an index still unions the vertices it names.
    let analyzer = MeshAnalyzer::new(coords_of(3), vec![0, 0, 1]);
    assert_eq!(analyzer.count_connected_components(), 2);
}

#[test]
fn topology_pass_bundles_all_three_queries() {
    let vertices = [0.0f32, 0.0, 0.0, 1.0, 0.0, 0.0, 0.0, 1.0, 0.0];
    let analyzer = MeshAnalyzer::new(vertices.len(), vec![0, 1, 2]);
    let near = near_matrix(&vertices, 0.001);
    let result = analyzer.analyze_topology(&near);
    assert_eq!(result.unique_vertex_count, 3);
    assert_eq!(result.component_count, 1);
    assert!(!result.is_watertight);
}

#[test]
fn topology_pass_on_empty_mesh_is_degenerate_but_valid() {
    let analyzer = MeshAnalyzer::new(0, vec![]);
    let result = analyzer.analyze_topology(&Vec::new());
    assert_eq!(result.unique_vertex_count, 0);
    assert_eq!(result.component_count, 0);
    assert!(!result.is_watertight);
}
