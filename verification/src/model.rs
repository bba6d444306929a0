//! Aggregation of per-primitive reader data into one model analysis: vertex
//! and face totals, presence flags for normals, UVs, textures and position
//! bounds, and mesh/material counts.
//!
//! Container decoding is not done here: the caller walks its reader and
//! hands over, per mesh and per primitive, the plain values this module
//! needs. Vertex totals saturate at the machine limit instead of wrapping.

use vstd::prelude::*;

verus! {

/// What one mesh primitive exposes to the analysis.
#[derive(Debug, Clone, Copy, PartialEq, Eq, Structural)]
pub struct PrimitiveInfo {
    /// Number of entries of the position accessor, if the primitive has one.
    pub position_count: Option<usize>,
    /// The position accessor carries usable min/max corner bounds.
    pub has_bounds: bool,
    /// Number of entries of the index accessor, if the primitive has one.
    pub index_count: Option<usize>,
    /// A normals accessor is present.
    pub has_normals: bool,
    /// A first-channel texture-coordinate accessor is present.
    pub has_uvs: bool,
}

/// One mesh: its primitives in order.
#[derive(Debug, Clone, PartialEq, Eq)]
pub struct MeshInfo {
    pub primitives: Vec<PrimitiveInfo>,
}

/// Texture-presence flags of one material.
#[derive(Debug, Clone, Copy, PartialEq, Eq, Structural)]
pub struct MaterialInfo {
    pub has_base_color_texture: bool,
    pub has_metallic_roughness_texture: bool,
    pub has_normal_texture: bool,
    pub has_occlusion_texture: bool,
    pub has_emissive_texture: bool,
}

/// The aggregate analysis of one model asset.
///
/// `has_bounds` says whether any primitive supplied position bounds; when it
/// is false, a consumer substitutes its canonical default box rather than
/// propagating an empty one.
#[derive(Debug, Clone, Copy, PartialEq, Eq, Structural)]
pub struct ModelAnalysis {
    pub vertex_count: usize,
    pub face_count: usize,
    pub mesh_count: usize,
    pub material_count: usize,
    pub has_textures: bool,
    pub has_normals: bool,
    pub has_uvs: bool,
    pub has_bounds: bool,
    pub file_size_bytes: u64,
}

/// Vertices a primitive contributes: its position-accessor count, or none.
pub open spec fn prim_vertex_count(p: PrimitiveInfo) -> int {
    match p.position_count {
        Some(c) => c as int,
        None => 0,
    }
}

/// Faces a primitive contributes: a third of its index-accessor count, or,
/// for an implicit triangle list without indices, a third of its own vertex
/// count.
pub open spec fn prim_face_count(p: PrimitiveInfo) -> int {
    match p.index_count {
        Some(c) => c as int / 3,
        None => prim_vertex_count(p) / 3,
    }
}

/// The primitive supplied usable position bounds.
pub open spec fn prim_supplies_bounds(p: PrimitiveInfo) -> bool {
    p.position_count is Some && p.has_bounds
}

pub open spec fn prims_vertex_total(prims: Seq<PrimitiveInfo>) -> int
    decreases prims.len(),
{
    if prims.len() == 0 {
        0
    } else {
        prims_vertex_total(prims.drop_last()) + prim_vertex_count(prims.last())
    }
}

pub open spec fn prims_face_total(prims: Seq<PrimitiveInfo>) -> int
    decreases prims.len(),
{
    if prims.len() == 0 {
        0
    } else {
        prims_face_total(prims.drop_last()) + prim_face_count(prims.last())
    }
}

pub open spec fn prims_have_normals(prims: Seq<PrimitiveInfo>) -> bool {
    exists|k: int| 0 <= k < prims.len() && (#[trigger] prims[k]).has_normals
}

pub open spec fn prims_have_uvs(prims: Seq<PrimitiveInfo>) -> bool {
    exists|k: int| 0 <= k < prims.len() && (#[trigger] prims[k]).has_uvs
}

pub open spec fn prims_supply_bounds(prims: Seq<PrimitiveInfo>) -> bool {
    exists|k: int| 0 <= k < prims.len() && prim_supplies_bounds(#[trigger] prims[k])
}

pub open spec fn meshes_vertex_total(meshes: Seq<MeshInfo>) -> int
    decreases meshes.len(),
{
    if meshes.len() == 0 {
        0
    } else {
        meshes_vertex_total(meshes.drop_last()) + prims_vertex_total(meshes.last().primitives@)
    }
}

pub open spec fn meshes_face_total(meshes: Seq<MeshInfo>) -> int
    decreases meshes.len(),
{
    if meshes.len() == 0 {
        0
    } else {
        meshes_face_total(meshes.drop_last()) + prims_face_total(meshes.last().primitives@)
    }
}

pub open spec fn meshes_have_normals(meshes: Seq<MeshInfo>) -> bool {
    exists|k: int| 0 <= k < meshes.len() && prims_have_normals((#[trigger] meshes[k]).primitives@)
}

pub open spec fn meshes_have_uvs(meshes: Seq<MeshInfo>) -> bool {
    exists|k: int| 0 <= k < meshes.len() && prims_have_uvs((#[trigger] meshes[k]).primitives@)
}

pub open spec fn meshes_supply_bounds(meshes: Seq<MeshInfo>) -> bool {
    exists|k: int| 0 <= k < meshes.len() && prims_supply_bounds((#[trigger] meshes[k]).primitives@)
}

/// Any of the five texture slots of the material is filled.
pub open spec fn material_has_texture(m: MaterialInfo) -> bool {
    m.has_base_color_texture || m.has_metallic_roughness_texture || m.has_normal_texture
        || m.has_occlusion_texture || m.has_emissive_texture
}

pub open spec fn materials_have_textures(mats: Seq<MaterialInfo>) -> bool {
    exists|k: int| 0 <= k < mats.len() && material_has_texture(#[trigger] mats[k])
}

/// A total clamped to what a machine word can hold.
pub open spec fn clamp_usize(total: int) -> int {
    if total <= usize::MAX {
        total
    } else {
        usize::MAX as int
    }
}

/// A model none of whose primitives supplies position bounds is reported
/// without bounds, so a consumer substitutes the canonical default box.
pub proof fn lemma_no_bounds_reported(meshes: Seq<MeshInfo>)
    requires
        forall|k: int|
            0 <= k < meshes.len() ==> !prims_supply_bounds((#[trigger] meshes[k]).primitives@),
    ensures
        !meshes_supply_bounds(meshes),
{
}

proof fn lemma_prims_totals_nonneg(prims: Seq<PrimitiveInfo>)
    ensures
        prims_vertex_total(prims) >= 0,
        prims_face_total(prims) >= 0,
    decreases prims.len(),
{
    if prims.len() > 0 {
        lemma_prims_totals_nonneg(prims.drop_last());
    }
}

proof fn lemma_meshes_totals_nonneg(meshes: Seq<MeshInfo>)
    ensures
        meshes_vertex_total(meshes) >= 0,
        meshes_face_total(meshes) >= 0,
    decreases meshes.len(),
{
    if meshes.len() > 0 {
        lemma_meshes_totals_nonneg(meshes.drop_last());
        lemma_prims_totals_nonneg(meshes.last().primitives@);
    }
}

/// Addition that sticks at the machine limit instead of wrapping.
fn sat_add(a: usize, b: usize) -> (r: usize)
    ensures
        r as int == clamp_usize(a as int + b as int),
{
    if a <= usize::MAX - b {
        a + b
    } else {
        usize::MAX
    }
}

/// Totals and flags of one mesh's primitives: clamped vertex total, clamped
/// face total, normals flag, UV flag, bounds flag.
fn scan_primitives(prims: &Vec<PrimitiveInfo>) -> (r: (usize, usize, bool, bool, bool))
    ensures
        r.0 as int == clamp_usize(prims_vertex_total(prims@)),
        r.1 as int == clamp_usize(prims_face_total(prims@)),
        r.2 == prims_have_normals(prims@),
        r.3 == prims_have_uvs(prims@),
        r.4 == prims_supply_bounds(prims@),
{
    let mut vertices: usize = 0;
    let mut faces: usize = 0;
    let mut normals = false;
    let mut uvs = false;
    let mut bounds = false;
    let mut k: usize = 0;
    while k < prims.len()
        invariant
            k <= prims@.len(),
            vertices as int == clamp_usize(prims_vertex_total(prims@.subrange(0, k as int))),
            faces as int == clamp_usize(prims_face_total(prims@.subrange(0, k as int))),
            normals == prims_have_normals(prims@.subrange(0, k as int)),
            uvs == prims_have_uvs(prims@.subrange(0, k as int)),
            bounds == prims_supply_bounds(prims@.subrange(0, k as int)),
        decreases prims@.len() - k,
    {
        let ghost pre = prims@.subrange(0, k as int);
        let ghost post = prims@.subrange(0, k as int + 1);
        let p = prims[k];
        let pv: usize = match p.position_count {
            Some(c) => c,
            None => 0,
        };
        let pf: usize = match p.index_count {
            Some(c) => c / 3,
            None => pv / 3,
        };
        proof {
            assert(post.drop_last() =~= pre);
            assert(post.last() == prims@[k as int]);
            lemma_prims_totals_nonneg(pre);
            assert(pv as int == prim_vertex_count(p));
            assert(pf as int == prim_face_count(p));
        }
        vertices = sat_add(vertices, pv);
        faces = sat_add(faces, pf);
        if p.has_normals {
            normals = true;
        }
        if p.has_uvs {
            uvs = true;
        }
        let has_pos = match p.position_count {
            Some(_) => true,
            None => false,
        };
        if has_pos && p.has_bounds {
            bounds = true;
        }
        proof {
            assert(prims_have_normals(post) == (prims_have_normals(pre)
                || prims@[k as int].has_normals)) by {
                if prims_have_normals(pre) {
                    let w = choose|w: int| 0 <= w < pre.len() && (#[trigger] pre[w]).has_normals;
                    assert(post[w].has_normals);
                }
                if prims@[k as int].has_normals {
                    assert((post[k as int]).has_normals);
                }
                if prims_have_normals(post) {
                    let w = choose|w: int| 0 <= w < post.len() && (#[trigger] post[w]).has_normals;
                    if w < k as int {
                        assert(pre[w].has_normals);
                    }
                }
            }
            assert(prims_have_uvs(post) == (prims_have_uvs(pre) || prims@[k as int].has_uvs)) by {
                if prims_have_uvs(pre) {
                    let w = choose|w: int| 0 <= w < pre.len() && (#[trigger] pre[w]).has_uvs;
                    assert(post[w].has_uvs);
                }
                if prims@[k as int].has_uvs {
                    assert((post[k as int]).has_uvs);
                }
                if prims_have_uvs(post) {
                    let w = choose|w: int| 0 <= w < post.len() && (#[trigger] post[w]).has_uvs;
                    if w < k as int {
                        assert(pre[w].has_uvs);
                    }
                }
            }
            assert(prims_supply_bounds(post) == (prims_supply_bounds(pre) || prim_supplies_bounds(
                prims@[k as int],
            ))) by {
                if prims_supply_bounds(pre) {
                    let w = choose|w: int|
                        0 <= w < pre.len() && prim_supplies_bounds(#[trigger] pre[w]);
                    assert(prim_supplies_bounds(post[w]));
                }
                if prim_supplies_bounds(prims@[k as int]) {
                    assert(prim_supplies_bounds(post[k as int]));
                }
                if prims_supply_bounds(post) {
                    let w = choose|w: int|
                        0 <= w < post.len() && prim_supplies_bounds(#[trigger] post[w]);
                    if w < k as int {
                        assert(prim_supplies_bounds(pre[w]));
                    }
                }
            }
        }
        k = k + 1;
    }
    proof {
        assert(prims@.subrange(0, prims@.len() as int) =~= prims@);
    }
    (vertices, faces, normals, uvs, bounds)
}

/// Aggregates reader data for one model: clamped vertex/face totals, mesh
/// and material counts, presence flags for textures, normals, UVs and
/// position bounds, and the file size handed through unchanged.
pub fn analyze_model(
    meshes: &Vec<MeshInfo>,
    materials: &Vec<MaterialInfo>,
    file_size_bytes: u64,
) -> (r: ModelAnalysis)
    ensures
        r.vertex_count as int == clamp_usize(meshes_vertex_total(meshes@)),
        r.face_count as int == clamp_usize(meshes_face_total(meshes@)),
        r.mesh_count == meshes@.len(),
        r.material_count == materials@.len(),
        r.has_textures == materials_have_textures(materials@),
        r.has_normals == meshes_have_normals(meshes@),
        r.has_uvs == meshes_have_uvs(meshes@),
        r.has_bounds == meshes_supply_bounds(meshes@),
        r.file_size_bytes == file_size_bytes,
{
    let mut vertices: usize = 0;
    let mut faces: usize = 0;
    let mut normals = false;
    let mut uvs = false;
    let mut bounds = false;
    let mut m: usize = 0;
    while m < meshes.len()
        invariant
            m <= meshes@.len(),
            vertices as int == clamp_usize(meshes_vertex_total(meshes@.subrange(0, m as int))),
            faces as int == clamp_usize(meshes_face_total(meshes@.subrange(0, m as int))),
            normals == meshes_have_normals(meshes@.subrange(0, m as int)),
            uvs == meshes_have_uvs(meshes@.subrange(0, m as int)),
            bounds == meshes_supply_bounds(meshes@.subrange(0, m as int)),
        decreases meshes@.len() - m,
    {
        let ghost pre = meshes@.subrange(0, m as int);
        let ghost post = meshes@.subrange(0, m as int + 1);
        let (mv, mf, mn, mu, mb) = scan_primitives(&meshes[m].primitives);
        proof {
            assert(post.drop_last() =~= pre);
            assert(post.last() == meshes@[m as int]);
            lemma_meshes_totals_nonneg(pre);
            lemma_prims_totals_nonneg(meshes@[m as int].primitives@);
        }
        vertices = sat_add(vertices, mv);
        faces = sat_add(faces, mf);
        if mn {
            normals = true;
        }
        if mu {
            uvs = true;
        }
        if mb {
            bounds = true;
        }
        proof {
            assert(meshes_have_normals(post) == (meshes_have_normals(pre) || prims_have_normals(
                meshes@[m as int].primitives@,
            ))) by {
                if meshes_have_normals(pre) {
                    let w = choose|w: int|
                        0 <= w < pre.len() && prims_have_normals((#[trigger] pre[w]).primitives@);
                    assert(prims_have_normals(post[w].primitives@));
                }
                if prims_have_normals(meshes@[m as int].primitives@) {
                    assert(prims_have_normals(post[m as int].primitives@));
                }
                if meshes_have_normals(post) {
                    let w = choose|w: int|
                        0 <= w < post.len() && prims_have_normals((#[trigger] post[w]).primitives@);
                    if w < m as int {
                        assert(prims_have_normals(pre[w].primitives@));
                    }
                }
            }
            assert(meshes_have_uvs(post) == (meshes_have_uvs(pre) || prims_have_uvs(
                meshes@[m as int].primitives@,
            ))) by {
                if meshes_have_uvs(pre) {
                    let w = choose|w: int|
                        0 <= w < pre.len() && prims_have_uvs((#[trigger] pre[w]).primitives@);
                    assert(prims_have_uvs(post[w].primitives@));
                }
                if prims_have_uvs(meshes@[m as int].primitives@) {
                    assert(prims_have_uvs(post[m as int].primitives@));
                }
                if meshes_have_uvs(post) {
                    let w = choose|w: int|
                        0 <= w < post.len() && prims_have_uvs((#[trigger] post[w]).primitives@);
                    if w < m as int {
                        assert(prims_have_uvs(pre[w].primitives@));
                    }
                }
            }
            assert(meshes_supply_bounds(post) == (meshes_supply_bounds(pre) || prims_supply_bounds(
                meshes@[m as int].primitives@,
            ))) by {
                if meshes_supply_bounds(pre) {
                    let w = choose|w: int|
                        0 <= w < pre.len() && prims_supply_bounds((#[trigger] pre[w]).primitives@);
                    assert(prims_supply_bounds(post[w].primitives@));
                }
                if prims_supply_bounds(meshes@[m as int].primitives@) {
                    assert(prims_supply_bounds(post[m as int].primitives@));
                }
                if meshes_supply_bounds(post) {
                    let w = choose|w: int|
                        0 <= w < post.len() && prims_supply_bounds(
                            (#[trigger] post[w]).primitives@,
                        );
                    if w < m as int {
                        assert(prims_supply_bounds(pre[w].primitives@));
                    }
                }
            }
        }
        m = m + 1;
    }
    proof {
        assert(meshes@.subrange(0, meshes@.len() as int) =~= meshes@);
    }

    let mut textures = false;
    let mut t: usize = 0;
    while t < materials.len()
        invariant
            t <= materials@.len(),
            textures == materials_have_textures(materials@.subrange(0, t as int)),
        decreases materials@.len() - t,
    {
        let ghost pre = materials@.subrange(0, t as int);
        let ghost post = materials@.subrange(0, t as int + 1);
        let mat = materials[t];
        if mat.has_base_color_texture || mat.has_metallic_roughness_texture
            || mat.has_normal_texture || mat.has_occlusion_texture || mat.has_emissive_texture {
            textures = true;
        }
        proof {
            assert(materials_have_textures(post) == (materials_have_textures(pre)
                || material_has_texture(materials@[t as int]))) by {
                if materials_have_textures(pre) {
                    let w = choose|w: int|
                        0 <= w < pre.len() && material_has_texture(#[trigger] pre[w]);
                    assert(material_has_texture(post[w]));
                }
                if material_has_texture(materials@[t as int]) {
                    assert(material_has_texture(post[t as int]));
                }
                if materials_have_textures(post) {
                    let w = choose|w: int|
                        0 <= w < post.len() && material_has_texture(#[trigger] post[w]);
                    if w < t as int {
                        assert(material_has_texture(pre[w]));
                    }
                }
            }
        }
        t = t + 1;
    }
    proof {
        assert(materials@.subrange(0, materials@.len() as int) =~= materials@);
    }

    ModelAnalysis {
        vertex_count: vertices,
        face_count: faces,
        mesh_count: meshes.len(),
        material_count: materials.len(),
        has_textures: textures,
        has_normals: normals,
        has_uvs: uvs,
        has_bounds: bounds,
        file_size_bytes,
    }
}

} // verus!
