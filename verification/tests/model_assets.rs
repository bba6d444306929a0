use mesh_inspect::assets::{FileInfo, StorageAsset};
use mesh_inspect::model::{analyze_model, MaterialInfo, MeshInfo, PrimitiveInfo};

fn plain_material() -> MaterialInfo {
    MaterialInfo {
        has_base_color_texture: false,
        has_metallic_roughness_texture: false,
        has_normal_texture: false,
        has_occlusion_texture: false,
        has_emissive_texture: false,
    }
}

fn plain_primitive() -> PrimitiveInfo {
    PrimitiveInfo {
        position_count: None,
        has_bounds: false,
        index_count: None,
        has_normals: false,
        has_uvs: false,
    }
}

#[test]
fn model_totals_follow_accessors() {
    let meshes = vec![MeshInfo {
        primitives: vec![PrimitiveInfo {
            position_count: Some(300),
            has_bounds: true,
            index_count: Some(300),
            has_normals: true,
            has_uvs: false,
        }],
    }];
    let analysis = analyze_model(&meshes, &vec![plain_material()], 1024);
    assert_eq!(analysis.vertex_count, 300);
    assert_eq!(analysis.face_count, 100);
    assert_eq!(analysis.mesh_count, 1);
    assert_eq!(analysis.material_count, 1);
    assert!(analysis.has_normals);
    assert!(!analysis.has_uvs);
    assert!(!analysis.has_textures);
    assert!(analysis.has_bounds);
    assert_eq!(analysis.file_size_bytes, 1024);
}

#[test]
fn model_without_indices_falls_back_to_vertex_triangles() {
    let meshes = vec![MeshInfo {
        primitives: vec![PrimitiveInfo {
            position_count: Some(300),
            has_bounds: false,
            index_count: None,
            has_normals: false,
            has_uvs: true,
        }],
    }];
    let analysis = analyze_model(&meshes, &vec![], 0);
    assert_eq!(analysis.vertex_count, 300);
    assert_eq!(analysis.face_count, 100);
    assert!(analysis.has_uvs);
    assert_eq!(analysis.material_count, 0);
}

#[test]
fn model_without_bound_data_reports_no_bounds() {
    // The consumer substitutes the canonical default unit box when no
    // primitive supplied position bounds.
    let meshes = vec![
        MeshInfo {
            primitives: vec![plain_primitive()],
        },
        MeshInfo {
            primitives: vec![PrimitiveInfo {
                position_count: Some(3),
                has_bounds: false,
                index_count: None,
                has_normals: false,
                has_uvs: false,
            }],
        },
    ];
    let analysis = analyze_model(&meshes, &vec![], 0);
    assert!(!analysis.has_bounds);
}

#[test]
fn bounds_without_positions_do_not_count() {
    // A bounds flag on a primitive without a position accessor is inert.
    let meshes = vec![MeshInfo {
        primitives: vec![PrimitiveInfo {
            position_count: None,
            has_bounds: true,
            index_count: None,
            has_normals: false,
            has_uvs: false,
        }],
    }];
    let analysis = analyze_model(&meshes, &vec![], 0);
    assert!(!analysis.has_bounds);
    assert_eq!(analysis.vertex_count, 0);
    assert_eq!(analysis.face_count, 0);
}

#[test]
fn any_texture_slot_sets_the_texture_flag() {
    let mut occlusion_only = plain_material();
    occlusion_only.has_occlusion_texture = true;
    let analysis = analyze_model(&vec![], &vec![plain_material(), occlusion_only], 0);
    assert!(analysis.has_textures);
    assert_eq!(analysis.material_count, 2);
    assert_eq!(analysis.mesh_count, 0);
}

#[test]
fn primitive_totals_accumulate_across_meshes() {
    let meshes = vec![
        MeshInfo {
            primitives: vec![
                PrimitiveInfo {
                    position_count: Some(30),
                    has_bounds: false,
                    index_count: Some(12),
                    has_normals: false,
                    has_uvs: false,
                },
                PrimitiveInfo {
                    position_count: Some(9),
                    has_bounds: false,
                    index_count: None,
                    has_normals: false,
                    has_uvs: false,
                },
            ],
        },
        MeshInfo {
            primitives: vec![PrimitiveInfo {
                position_count: Some(21),
                has_bounds: false,
                index_count: Some(9),
                has_normals: false,
                has_uvs: false,
            }],
        },
    ];
    let analysis = analyze_model(&meshes, &vec![], 7);
    assert_eq!(analysis.vertex_count, 60);
    assert_eq!(analysis.face_count, 4 + 3 + 3);
    assert_eq!(analysis.mesh_count, 2);
}

#[test]
fn asset_records_hold_their_fields() {
    let info = FileInfo {
        path: String::from("assets/chair/chair.glb"),
        name: String::from("chair.glb"),
        extension: Some(String::from("glb")),
        size_bytes: 2048,
        created: None,
        modified: Some(170000),
        is_directory: false,
    };
    assert_eq!(info.name, "chair.glb");
    assert!(!info.is_directory);

    let asset = StorageAsset {
        id: String::from("chair"),
        path: String::from("assets/chair"),
        has_glb: true,
        has_obj: false,
        has_fbx: false,
        has_thumbnail: true,
        glb_size: Some(2048),
        thumbnail_path: Some(String::from("assets/chair/thumbnail.png")),
    };
    assert!(asset.has_glb);
    assert_eq!(asset.glb_size, Some(2048));
}
