//! Watertightness: every undirected edge of the mesh must be shared by
//! exactly two faces. The check tallies the three normalized edges of every
//! face and then verifies that no edge was tallied once or more than twice.
//! Winding consistency is not checked: two faces sharing an edge with the
//! same orientation still count as two.

use vstd::prelude::*;

use std::collections::HashMap;

verus! {

broadcast use vstd::std_specs::hash::group_hash_axioms;

use crate::analyzer::MeshAnalyzer;
use crate::stats::spec_face_count;

/// An undirected edge, normalized so the smaller index comes first.
pub open spec fn norm_edge(a: u32, b: u32) -> (u32, u32) {
    if a < b {
        (a, b)
    } else {
        (b, a)
    }
}

/// The `k`-th (0, 1 or 2) normalized edge of face `f`.
pub open spec fn face_edge(indices: Seq<u32>, f: int, k: int) -> (u32, u32) {
    if k == 0 {
        norm_edge(indices[3 * f], indices[3 * f + 1])
    } else if k == 1 {
        norm_edge(indices[3 * f + 1], indices[3 * f + 2])
    } else {
        norm_edge(indices[3 * f + 2], indices[3 * f])
    }
}

/// How many of the first `j` edges of face `f` equal `e`.
pub open spec fn count_in_face(indices: Seq<u32>, f: int, e: (u32, u32), j: int) -> nat
    decreases j,
{
    if j <= 0 {
        0
    } else {
        count_in_face(indices, f, e, j - 1) + if face_edge(indices, f, j - 1) == e {
            1nat
        } else {
            0nat
        }
    }
}

/// How often edge `e` occurs among the edges of the first `f` faces.
pub open spec fn edge_count_upto(indices: Seq<u32>, e: (u32, u32), f: int) -> nat
    decreases f,
{
    if f <= 0 {
        0
    } else {
        edge_count_upto(indices, e, f - 1) + count_in_face(indices, f - 1, e, 3)
    }
}

/// How often edge `e` occurs over all whole faces of the mesh.
pub open spec fn spec_edge_count(indices: Seq<u32>, e: (u32, u32)) -> nat {
    edge_count_upto(indices, e, spec_face_count(indices))
}

/// The mesh is watertight: it has indices, and every undirected edge that
/// occurs at all occurs exactly twice.
pub open spec fn spec_watertight(indices: Seq<u32>) -> bool {
    indices.len() > 0 && forall|e: (u32, u32)|
        spec_edge_count(indices, e) > 0 ==> #[trigger] spec_edge_count(indices, e) == 2
}

/// Packs a normalized edge into one key; injective because both halves are
/// 32-bit values.
pub open spec fn enc_edge(e: (u32, u32)) -> u64 {
    (e.0 as int * 0x1_0000_0000 + e.1 as int) as u64
}

proof fn lemma_enc_edge_in_range(e: (u32, u32))
    ensures
        0 <= e.0 as int * 0x1_0000_0000 + e.1 as int <= u64::MAX,
        enc_edge(e) == e.0 as int * 0x1_0000_0000 + e.1 as int,
{
    assert(0 <= e.0 as int * 0x1_0000_0000 + e.1 as int <= 0xffff_ffff_ffff_ffff)
        by (nonlinear_arith)
        requires
            e.0 <= 0xffff_ffffu32,
            e.1 <= 0xffff_ffffu32,
    ;
}

proof fn lemma_enc_edge_injective(e1: (u32, u32), e2: (u32, u32))
    requires
        enc_edge(e1) == enc_edge(e2),
    ensures
        e1 == e2,
{
    lemma_enc_edge_in_range(e1);
    lemma_enc_edge_in_range(e2);
    assert(e1.0 == e2.0 && e1.1 == e2.1) by (nonlinear_arith)
        requires
            e1.0 as int * 0x1_0000_0000 + e1.1 as int == e2.0 as int * 0x1_0000_0000
                + e2.1 as int,
            e1.0 <= u32::MAX,
            e1.1 <= u32::MAX,
            e2.0 <= u32::MAX,
            e2.1 <= u32::MAX,
    ;
}

/// The packed key for the normalized edge of the endpoints `a` and `b`.
fn encode_edge(a: u32, b: u32) -> (r: u64)
    ensures
        r == enc_edge(norm_edge(a, b)),
{
    let (x, y) = if a < b {
        (a, b)
    } else {
        (b, a)
    };
    proof {
        lemma_enc_edge_in_range(norm_edge(a, b));
    }
    (x as u64) * 0x1_0000_0000 + (y as u64)
}

/// Step-by-step unfolding of the per-face edge count, for use where the
/// recursive definition needs more than one step.
proof fn lemma_cif_unfold(indices: Seq<u32>, f: int, e: (u32, u32))
    ensures
        count_in_face(indices, f, e, 0) == 0,
        count_in_face(indices, f, e, 1) == count_in_face(indices, f, e, 0) + (if face_edge(
            indices,
            f,
            0,
        ) == e {
            1nat
        } else {
            0nat
        }),
        count_in_face(indices, f, e, 2) == count_in_face(indices, f, e, 1) + (if face_edge(
            indices,
            f,
            1,
        ) == e {
            1nat
        } else {
            0nat
        }),
        count_in_face(indices, f, e, 3) == count_in_face(indices, f, e, 2) + (if face_edge(
            indices,
            f,
            2,
        ) == e {
            1nat
        } else {
            0nat
        }),
{
}

/// The count of any edge among the first `f` faces is at most `3 * f`.
proof fn lemma_edge_count_bound(indices: Seq<u32>, e: (u32, u32), f: int)
    requires
        f >= 0,
    ensures
        edge_count_upto(indices, e, f) <= 3 * f,
    decreases f,
{
    if f > 0 {
        lemma_edge_count_bound(indices, e, f - 1);
        assert(count_in_face(indices, f - 1, e, 3) <= 3) by {
            lemma_cif_unfold(indices, f - 1, e);
        }
    }
}

/// Edge counts grow as more faces are taken in.
proof fn lemma_edge_count_monotone(indices: Seq<u32>, e: (u32, u32), f1: int, f2: int)
    requires
        f1 <= f2,
    ensures
        edge_count_upto(indices, e, f1) <= edge_count_upto(indices, e, f2),
    decreases f2 - f1,
{
    if f1 < f2 {
        lemma_edge_count_monotone(indices, e, f1, f2 - 1);
    }
}

/// Every edge of a whole face occurs in the total tally.
proof fn lemma_face_edge_occurs(indices: Seq<u32>, f: int, k: int)
    requires
        0 <= f < spec_face_count(indices),
        0 <= k < 3,
    ensures
        spec_edge_count(indices, face_edge(indices, f, k)) > 0,
{
    let e = face_edge(indices, f, k);
    lemma_cif_unfold(indices, f, e);
    assert(count_in_face(indices, f, e, k + 1) == count_in_face(indices, f, e, k) + 1);
    assert(count_in_face(indices, f, e, 2) >= count_in_face(indices, f, e, 1));
    assert(count_in_face(indices, f, e, 3) >= count_in_face(indices, f, e, 2));
    assert(count_in_face(indices, f, e, 3) > 0);
    assert(edge_count_upto(indices, e, f + 1) > 0);
    lemma_edge_count_monotone(indices, e, f + 1, spec_face_count(indices));
}

/// An edge that occurs among the first `f` faces is an edge of one of them.
proof fn lemma_occurring_edge_has_face(indices: Seq<u32>, e: (u32, u32), f: int)
    requires
        edge_count_upto(indices, e, f) > 0,
    ensures
        exists|f2: int, k: int|
            0 <= f2 < f && 0 <= k < 3 && #[trigger] face_edge(indices, f2, k) == e,
    decreases f,
{
    if f > 0 {
        if edge_count_upto(indices, e, f - 1) > 0 {
            lemma_occurring_edge_has_face(indices, e, f - 1);
            let (f2, k) = choose|f2: int, k: int|
                0 <= f2 < f - 1 && 0 <= k < 3 && #[trigger] face_edge(indices, f2, k) == e;
            assert(0 <= f2 < f && 0 <= k < 3 && face_edge(indices, f2, k) == e);
        } else {
            assert(count_in_face(indices, f - 1, e, 3) > 0);
            if face_edge(indices, f - 1, 0) == e {
                assert(0 <= f - 1 < f && 0 <= 0 < 3 && face_edge(indices, f - 1, 0) == e);
            } else if face_edge(indices, f - 1, 1) == e {
                assert(0 <= f - 1 < f && 0 <= 1 < 3 && face_edge(indices, f - 1, 1) == e);
            } else {
                lemma_cif_unfold(indices, f - 1, e);
                assert(count_in_face(indices, f - 1, e, 1) == 0);
                assert(count_in_face(indices, f - 1, e, 2) == 0);
                assert(face_edge(indices, f - 1, 2) == e);
                assert(0 <= f - 1 < f && 0 <= 2 < 3 && face_edge(indices, f - 1, 2) == e);
            }
        }
    }
}

/// Adds one occurrence of the normalized edge `(a, b)` to the tally.
fn bump_edge(counts: &mut HashMap<u64, usize>, a: u32, b: u32, Ghost(prior): Ghost<nat>)
    requires
        old(counts)@.contains_key(enc_edge(norm_edge(a, b))) ==> old(counts)@[enc_edge(
            norm_edge(a, b),
        )] == prior,
        !old(counts)@.contains_key(enc_edge(norm_edge(a, b))) ==> prior == 0,
        prior < usize::MAX,
    ensures
        final(counts)@ == old(counts)@.insert(enc_edge(norm_edge(a, b)), (prior + 1) as usize),
{
    let key: u64 = encode_edge(a, b);
    let c: usize = match counts.get(&key) {
        Some(cur) => *cur,
        None => 0,
    };
    counts.insert(key, c + 1);
}

impl MeshAnalyzer {
    /// True iff the mesh is closed in the edge-parity sense: it has indices
    /// and every normalized edge of its whole faces is shared by exactly two
    /// faces. Boundary edges (tallied once) and non-manifold fans (tallied
    /// three or more times) both fail the test; inconsistent winding does
    /// not.
    pub fn is_watertight(&self) -> (r: bool)
        ensures
            r == spec_watertight(self.indices@),
    {
        let ghost s = self.indices@;
        if self.indices.len() == 0 {
            return false;
        }
        let n_faces = self.indices.len() / 3;
        proof {
            assert(3 * (s.len() as int / 3) <= s.len() as int);
        }

        let mut counts: HashMap<u64, usize> = HashMap::new();
        let mut f: usize = 0;
        while f < n_faces
            invariant
                s == self.indices@,
                n_faces == spec_face_count(s),
                3 * n_faces <= s.len() <= usize::MAX,
                f <= n_faces,
                forall|e: (u32, u32)|
                    counts@.contains_key(#[trigger] enc_edge(e)) <==> edge_count_upto(
                        s,
                        e,
                        f as int,
                    ) > 0,
                forall|e: (u32, u32)|
                    counts@.contains_key(#[trigger] enc_edge(e)) ==> counts@[enc_edge(e)]
                        == edge_count_upto(s, e, f as int),
            decreases n_faces - f,
        {
            let i0 = self.indices[3 * f];
            let i1 = self.indices[3 * f + 1];
            let i2 = self.indices[3 * f + 2];
            let ghost fi = f as int;

            let ghost e0 = face_edge(s, fi, 0);
            let ghost e1 = face_edge(s, fi, 1);
            let ghost e2 = face_edge(s, fi, 2);

            proof {
                lemma_edge_count_bound(s, e0, fi);
                assert(norm_edge(i0, i1) == e0);
            }
            bump_edge(&mut counts, i0, i1, Ghost(edge_count_upto(s, e0, fi)));
            proof {
                assert forall|e: (u32, u32)|
                    counts@.contains_key(#[trigger] enc_edge(e)) <==> (edge_count_upto(s, e, fi)
                        + count_in_face(s, fi, e, 1) > 0) by {
                    lemma_cif_unfold(s, fi, e);
                    if enc_edge(e) == enc_edge(e0) {
                        lemma_enc_edge_injective(e, e0);
                    }
                }
                assert forall|e: (u32, u32)|
                    counts@.contains_key(#[trigger] enc_edge(e)) implies counts@[enc_edge(e)]
                    == edge_count_upto(s, e, fi) + count_in_face(s, fi, e, 1) by {
                    lemma_cif_unfold(s, fi, e);
                    if enc_edge(e) == enc_edge(e0) {
                        lemma_enc_edge_injective(e, e0);
                    }
                }
            }
            proof {
                lemma_edge_count_bound(s, e1, fi);
                lemma_cif_unfold(s, fi, e1);
                assert(count_in_face(s, fi, e1, 1) <= 1);
                assert(norm_edge(i1, i2) == e1);
            }
            bump_edge(
                &mut counts,
                i1,
                i2,
                Ghost(edge_count_upto(s, e1, fi) + count_in_face(s, fi, e1, 1)),
            );
            proof {
                assert forall|e: (u32, u32)|
                    counts@.contains_key(#[trigger] enc_edge(e)) <==> (edge_count_upto(s, e, fi)
                        + count_in_face(s, fi, e, 2) > 0) by {
                    lemma_cif_unfold(s, fi, e);
                    if enc_edge(e) == enc_edge(e1) {
                        lemma_enc_edge_injective(e, e1);
                    }
                }
                assert forall|e: (u32, u32)|
                    counts@.contains_key(#[trigger] enc_edge(e)) implies counts@[enc_edge(e)]
                    == edge_count_upto(s, e, fi) + count_in_face(s, fi, e, 2) by {
                    lemma_cif_unfold(s, fi, e);
                    if enc_edge(e) == enc_edge(e1) {
                        lemma_enc_edge_injective(e, e1);
                    }
                }
            }
            proof {
                lemma_edge_count_bound(s, e2, fi);
                lemma_cif_unfold(s, fi, e2);
                assert(count_in_face(s, fi, e2, 1) <= 1);
                assert(count_in_face(s, fi, e2, 2) <= 2);
                assert(norm_edge(i2, i0) == e2);
            }
            bump_edge(
                &mut counts,
                i2,
                i0,
                Ghost(edge_count_upto(s, e2, fi) + count_in_face(s, fi, e2, 2)),
            );
            proof {
                assert forall|e: (u32, u32)|
                    counts@.contains_key(#[trigger] enc_edge(e)) <==> edge_count_upto(
                        s,
                        e,
                        fi + 1,
                    ) > 0 by {
                    lemma_cif_unfold(s, fi, e);
                    assert(edge_count_upto(s, e, fi + 1) == edge_count_upto(s, e, fi)
                        + count_in_face(s, fi, e, 3));
                    if enc_edge(e) == enc_edge(e2) {
                        lemma_enc_edge_injective(e, e2);
                    }
                }
                assert forall|e: (u32, u32)|
                    counts@.contains_key(#[trigger] enc_edge(e)) implies counts@[enc_edge(e)]
                    == edge_count_upto(s, e, fi + 1) by {
                    lemma_cif_unfold(s, fi, e);
                    assert(edge_count_upto(s, e, fi + 1) == edge_count_upto(s, e, fi)
                        + count_in_face(s, fi, e, 3));
                    if enc_edge(e) == enc_edge(e2) {
                        lemma_enc_edge_injective(e, e2);
                    }
                }
            }
            f = f + 1;
        }

        let mut ok = true;
        let mut f2: usize = 0;
        while f2 < n_faces
            invariant
                s == self.indices@,
                n_faces == spec_face_count(s),
                3 * n_faces <= s.len() <= usize::MAX,
                f2 <= n_faces,
                forall|e: (u32, u32)|
                    counts@.contains_key(#[trigger] enc_edge(e)) <==> spec_edge_count(s, e) > 0,
                forall|e: (u32, u32)|
                    counts@.contains_key(#[trigger] enc_edge(e)) ==> counts@[enc_edge(e)]
                        == spec_edge_count(s, e),
                ok == (forall|g: int, kk: int|
                    0 <= g < f2 && 0 <= kk < 3 ==> spec_edge_count(
                        s,
                        #[trigger] face_edge(s, g, kk),
                    ) == 2),
            decreases n_faces - f2,
        {
            let i0 = self.indices[3 * f2];
            let i1 = self.indices[3 * f2 + 1];
            let i2 = self.indices[3 * f2 + 2];
            let mut k: usize = 0;
            while k < 3
                invariant
                    s == self.indices@,
                    n_faces == spec_face_count(s),
                    f2 < n_faces,
                    k <= 3,
                    i0 == s[3 * f2],
                    i1 == s[3 * f2 + 1],
                    i2 == s[3 * f2 + 2],
                    forall|e: (u32, u32)|
                        counts@.contains_key(#[trigger] enc_edge(e)) <==> spec_edge_count(s, e)
                            > 0,
                    forall|e: (u32, u32)|
                        counts@.contains_key(#[trigger] enc_edge(e)) ==> counts@[enc_edge(e)]
                            == spec_edge_count(s, e),
                    ok == ((forall|g: int, kk: int|
                        0 <= g < f2 && 0 <= kk < 3 ==> spec_edge_count(
                            s,
                            #[trigger] face_edge(s, g, kk),
                        ) == 2) && (forall|kk: int|
                        0 <= kk < k ==> spec_edge_count(s, #[trigger] face_edge(s, f2 as int, kk))
                            == 2)),
                decreases 3 - k,
            {
                let (a, b) = if k == 0 {
                    (i0, i1)
                } else if k == 1 {
                    (i1, i2)
                } else {
                    (i2, i0)
                };
                let ghost e = face_edge(s, f2 as int, k as int);
                let key: u64 = encode_edge(a, b);
                proof {
                    assert(norm_edge(a, b) == e);
                    lemma_face_edge_occurs(s, f2 as int, k as int);
                }
                match counts.get(&key) {
                    Some(cur) => {
                        if *cur != 2 {
                            ok = false;
                        }
                    },
                    None => {
                        proof {
                            assert(counts@.contains_key(enc_edge(e)));
                            assert(false);
                        }
                        ok = false;
                    },
                }
                k = k + 1;
            }
            f2 = f2 + 1;
        }

        proof {
            if ok {
                assert forall|e: (u32, u32)|
                    spec_edge_count(s, e) > 0 implies #[trigger] spec_edge_count(s, e) == 2 by {
                    lemma_occurring_edge_has_face(s, e, spec_face_count(s));
                    let (g, kk) = choose|g: int, kk: int|
                        0 <= g < spec_face_count(s) && 0 <= kk < 3 && #[trigger] face_edge(
                            s,
                            g,
                            kk,
                        ) == e;
                    assert(spec_edge_count(s, face_edge(s, g, kk)) == 2);
                }
                assert(spec_watertight(s));
            } else {
                let (g, kk) = choose|g: int, kk: int|
                    0 <= g < n_faces && 0 <= kk < 3 && spec_edge_count(
                        s,
                        #[trigger] face_edge(s, g, kk),
                    ) != 2;
                lemma_face_edge_occurs(s, g, kk);
                assert(!spec_watertight(s));
            }
        }
        ok
    }
}

} // verus!
