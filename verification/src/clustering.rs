//! Vertex deduplication by greedy epsilon clustering. The scan walks
//! vertices in index order; each unmarked vertex opens a cluster and marks
//! every later unmarked vertex lying within the caller's proximity relation
//! of it. Clustering is deliberately order-sensitive: the first
//! representative wins and there is no transitive chaining, so the result
//! depends on vertex order, not only on the relation.
//!
//! Whether two vertices lie within epsilon of each other is scalar geometry;
//! the caller evaluates it and hands the relation over as a square matrix.
//! Only entries `near[i][j]` with `j > i` are consulted.

use vstd::prelude::*;

verus! {

use vstd::pervasive::VecAdditionalExecFns;

use crate::analyzer::MeshAnalyzer;

/// The duplicate marks after clustering representative `i`: every later
/// vertex within reach of `i` is marked, already-marked vertices stay
/// marked.
pub open spec fn mark_row(near: Seq<Seq<bool>>, marks: Seq<bool>, i: int) -> Seq<bool> {
    Seq::new(marks.len(), |j: int| marks[j] || (i < j && near[i][j]))
}

/// Number of clusters opened from vertex `i` on, given the duplicate marks
/// accumulated so far.
pub open spec fn cluster_count_from(near: Seq<Seq<bool>>, n: int, marks: Seq<bool>, i: int) -> nat
    decreases n - i,
{
    if i < 0 || i >= n {
        0
    } else if marks[i] {
        cluster_count_from(near, n, marks, i + 1)
    } else {
        1 + cluster_count_from(near, n, mark_row(near, marks, i), i + 1)
    }
}

/// Number of clusters of the whole greedy scan over `n` vertices.
pub open spec fn spec_unique_vertex_count(near: Seq<Seq<bool>>, n: int) -> nat {
    cluster_count_from(near, n, Seq::new(n as nat, |j: int| false), 0)
}

impl MeshAnalyzer {
    /// Number of distinct vertices once vertices within epsilon of an
    /// earlier representative are folded into its cluster. `near[i][j]`
    /// must say whether vertices `i` and `j` lie strictly within epsilon of
    /// each other; only entries with `j > i` are read.
    pub fn count_unique_vertices(&self, near: &Vec<Vec<bool>>) -> (r: usize)
        requires
            near@.len() == self.spec_vertex_count(),
            forall|i: int| 0 <= i < near@.len() ==> (#[trigger] near@[i])@.len() == near@.len(),
        ensures
            r as nat == spec_unique_vertex_count(near.deep_view(), self.spec_vertex_count()),
    {
        let ghost d = near.deep_view();
        if self.coord_count == 0 {
            proof {
                assert(self.spec_vertex_count() == 0);
            }
            return 0;
        }
        let n = self.coord_count / 3;
        let ghost ni = n as int;

        let mut is_duplicate: Vec<bool> = Vec::new();
        let mut k: usize = 0;
        while k < n
            invariant
                k <= n,
                is_duplicate@.len() == k,
                forall|m: int| 0 <= m < k ==> !(#[trigger] is_duplicate@[m]),
            decreases n - k,
        {
            is_duplicate.push(false);
            k = k + 1;
        }
        proof {
            assert(is_duplicate@ =~= Seq::new(ni as nat, |j: int| false));
        }

        let mut unique: usize = 0;
        let mut i: usize = 0;
        while i < n
            invariant
                ni == n as int,
                ni == self.spec_vertex_count(),
                d == near.deep_view(),
                near@.len() == ni,
                forall|m: int| 0 <= m < ni ==> (#[trigger] near@[m])@.len() == ni,
                i <= n,
                unique <= i,
                is_duplicate@.len() == ni,
                spec_unique_vertex_count(d, ni) == unique + cluster_count_from(
                    d,
                    ni,
                    is_duplicate@,
                    i as int,
                ),
            decreases n - i,
        {
            let dup = is_duplicate[i];
            if !dup {
                unique = unique + 1;
                let ghost m0 = is_duplicate@;
                let mut j: usize = i + 1;
                while j < n
                    invariant
                        ni == n as int,
                        d == near.deep_view(),
                        near@.len() == ni,
                        forall|m: int| 0 <= m < ni ==> (#[trigger] near@[m])@.len() == ni,
                        i < n,
                        i < j <= n,
                        is_duplicate@.len() == ni,
                        m0.len() == ni,
                        forall|m: int|
                            0 <= m < ni ==> #[trigger] is_duplicate@[m] == (m0[m] || (i < m < j
                                && d[i as int][m])),
                    decreases n - j,
                {
                    let dupj = is_duplicate[j];
                    if !dupj {
                        let row = &near[i];
                        if row[j] {
                            is_duplicate.set(j, true);
                        }
                    }
                    proof {
                        assert(d[i as int][j as int] == near@[i as int]@[j as int]);
                    }
                    j = j + 1;
                }
                proof {
                    assert(is_duplicate@ =~= mark_row(d, m0, i as int));
                    assert(cluster_count_from(d, ni, m0, i as int) == 1 + cluster_count_from(
                        d,
                        ni,
                        mark_row(d, m0, i as int),
                        i as int + 1,
                    ));
                }
            } else {
                proof {
                    assert(cluster_count_from(d, ni, is_duplicate@, i as int)
                        == cluster_count_from(d, ni, is_duplicate@, i as int + 1));
                }
            }
            i = i + 1;
        }
        proof {
            assert(cluster_count_from(d, ni, is_duplicate@, ni) == 0);
        }
        unique
    }
}

} // verus!
