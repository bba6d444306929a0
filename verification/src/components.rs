//! Connected components of the vertex set. Two vertices are connected when a
//! chain of face edges joins them; every face contributes its two primary
//! edges (first-second and second-third vertex), which is enough because the
//! third edge closes the triangle through transitivity. Faces with an
//! out-of-range index are skipped. Vertices touched by no face each count as
//! their own component.
//!
//! The count is specified as the number of "component heads": vertices not
//! connected to any lower-numbered vertex. The implementation is an iterative
//! union-find with path compression over an index arena.

use vstd::prelude::*;

verus! {

broadcast use vstd::set::group_set_axioms;

use vstd::pervasive::VecAdditionalExecFns;
use vstd::relations::injective_on;
use vstd::set_lib::lemma_int_range;
use vstd::set_lib::lemma_len_subset;
use vstd::set_lib::lemma_map_size;
use vstd::set_lib::set_int_range;

use crate::analyzer::MeshAnalyzer;
use crate::stats::spec_face_count;

/// The `j`-th (0, 1 or 2) vertex index of face `f`, as a plain integer.
pub open spec fn face_vertex(indices: Seq<u32>, f: int, j: int) -> int {
    indices[3 * f + j] as int
}

/// All three indices of face `f` point at whole vertices.
pub open spec fn face_in_range(indices: Seq<u32>, n: int, f: int) -> bool {
    face_vertex(indices, f, 0) < n && face_vertex(indices, f, 1) < n && face_vertex(indices, f, 2)
        < n
}

/// Face `f` links vertices `a` and `b` directly: the face is in range and
/// `{a, b}` is one of its two primary edges, in either orientation.
pub open spec fn face_links(indices: Seq<u32>, n: int, f: int, a: int, b: int) -> bool {
    face_in_range(indices, n, f) && {
        let i0 = face_vertex(indices, f, 0);
        let i1 = face_vertex(indices, f, 1);
        let i2 = face_vertex(indices, f, 2);
        (a == i0 && b == i1) || (a == i1 && b == i0) || (a == i1 && b == i2) || (a == i2 && b
            == i1)
    }
}

/// Some face among the first `fcount` links `a` and `b` directly.
pub open spec fn adjacent_upto(indices: Seq<u32>, n: int, fcount: int, a: int, b: int) -> bool {
    exists|f: int| 0 <= f < fcount && #[trigger] face_links(indices, n, f, a, b)
}

/// `p` is a walk through vertices of the mesh, each consecutive pair linked
/// directly by one of the first `fcount` faces.
pub open spec fn is_path(indices: Seq<u32>, n: int, fcount: int, p: Seq<int>) -> bool {
    &&& p.len() >= 1
    &&& (forall|i: int| 0 <= i < p.len() ==> 0 <= #[trigger] p[i] < n)
    &&& (forall|i: int|
        0 <= i < p.len() - 1 ==> adjacent_upto(indices, n, fcount, #[trigger] p[i], p[i + 1]))
}

/// `a` and `b` are joined by a chain of edges of the first `fcount` faces.
pub open spec fn connected_upto(indices: Seq<u32>, n: int, fcount: int, a: int, b: int) -> bool {
    exists|p: Seq<int>| #[trigger] is_path(indices, n, fcount, p) && p.first() == a && p.last() == b
}

/// `a` and `b` are joined by a chain of edges of the mesh's whole faces.
pub open spec fn spec_connected(indices: Seq<u32>, n: int, a: int, b: int) -> bool {
    connected_upto(indices, n, spec_face_count(indices), a, b)
}

/// `a` is the lowest-numbered vertex of its component.
pub open spec fn is_component_head(indices: Seq<u32>, n: int, a: int) -> bool {
    0 <= a < n && forall|b: int| 0 <= b < a ==> !#[trigger] spec_connected(indices, n, b, a)
}

/// The lowest-numbered vertices of the components, one per component.
pub open spec fn component_heads(indices: Seq<u32>, n: int) -> Set<int> {
    Set::new(|a: int| is_component_head(indices, n, a))
}

/// The number of connected components among the `n` vertices.
pub open spec fn spec_component_count(indices: Seq<u32>, n: int) -> nat {
    component_heads(indices, n).len()
}

/// Direct links are symmetric.
proof fn lemma_adj_sym(indices: Seq<u32>, n: int, fcount: int, a: int, b: int)
    requires
        adjacent_upto(indices, n, fcount, a, b),
    ensures
        adjacent_upto(indices, n, fcount, b, a),
{
    let f = choose|f: int| 0 <= f < fcount && #[trigger] face_links(indices, n, f, a, b);
    assert(face_links(indices, n, f, b, a));
}

/// Every vertex is connected to itself.
proof fn lemma_conn_refl(indices: Seq<u32>, n: int, fcount: int, a: int)
    requires
        0 <= a < n,
    ensures
        connected_upto(indices, n, fcount, a, a),
{
    let p = seq![a];
    assert(is_path(indices, n, fcount, p));
    assert(p.first() == a && p.last() == a);
}

/// Connectivity is symmetric: reverse the path.
proof fn lemma_conn_sym(indices: Seq<u32>, n: int, fcount: int, a: int, b: int)
    requires
        connected_upto(indices, n, fcount, a, b),
    ensures
        connected_upto(indices, n, fcount, b, a),
{
    let p = choose|p: Seq<int>|
        #[trigger] is_path(indices, n, fcount, p) && p.first() == a && p.last() == b;
    let q = Seq::new(p.len(), |i: int| p[p.len() - 1 - i]);
    assert forall|i: int| 0 <= i < q.len() - 1 implies adjacent_upto(
        indices,
        n,
        fcount,
        #[trigger] q[i],
        q[i + 1],
    ) by {
        let j = p.len() - 2 - i;
        assert(adjacent_upto(indices, n, fcount, p[j], p[j + 1]));
        lemma_adj_sym(indices, n, fcount, p[j], p[j + 1]);
        assert(q[i] == p[j + 1] && q[i + 1] == p[j]);
    }
    assert(is_path(indices, n, fcount, q));
    assert(q.first() == b && q.last() == a);
}

/// Connectivity is transitive: join the paths at the shared endpoint.
proof fn lemma_conn_trans(indices: Seq<u32>, n: int, fcount: int, a: int, b: int, c: int)
    requires
        connected_upto(indices, n, fcount, a, b),
        connected_upto(indices, n, fcount, b, c),
    ensures
        connected_upto(indices, n, fcount, a, c),
{
    let p = choose|p: Seq<int>|
        #[trigger] is_path(indices, n, fcount, p) && p.first() == a && p.last() == b;
    let q = choose|q: Seq<int>|
        #[trigger] is_path(indices, n, fcount, q) && q.first() == b && q.last() == c;
    let r = p + q.subrange(1, q.len() as int);
    assert(r.len() == p.len() + q.len() - 1);
    assert forall|i: int| 0 <= i < r.len() implies 0 <= #[trigger] r[i] < n by {
        if i < p.len() {
            assert(r[i] == p[i]);
        } else {
            assert(r[i] == q[i - p.len() + 1]);
        }
    }
    assert forall|i: int| 0 <= i < r.len() - 1 implies adjacent_upto(
        indices,
        n,
        fcount,
        #[trigger] r[i],
        r[i + 1],
    ) by {
        if i + 1 < p.len() {
            assert(r[i] == p[i] && r[i + 1] == p[i + 1]);
            assert(adjacent_upto(indices, n, fcount, p[i], p[i + 1]));
        } else if i + 1 == p.len() {
            assert(r[i] == p[i] && p[i] == q[0]);
            assert(r[i + 1] == q[1]);
            assert(adjacent_upto(indices, n, fcount, q[0], q[0int + 1]));
        } else {
            let j = i - p.len() + 1;
            assert(r[i] == q[j] && r[i + 1] == q[j + 1]);
            assert(adjacent_upto(indices, n, fcount, q[j], q[j + 1]));
        }
    }
    assert(is_path(indices, n, fcount, r));
    assert(r.first() == a && r.last() == c);
}

/// Connectivity only grows as more faces are taken in.
proof fn lemma_conn_mono(indices: Seq<u32>, n: int, fc1: int, fc2: int, a: int, b: int)
    requires
        fc1 <= fc2,
        connected_upto(indices, n, fc1, a, b),
    ensures
        connected_upto(indices, n, fc2, a, b),
{
    let p = choose|p: Seq<int>|
        #[trigger] is_path(indices, n, fc1, p) && p.first() == a && p.last() == b;
    assert forall|i: int| 0 <= i < p.len() - 1 implies adjacent_upto(
        indices,
        n,
        fc2,
        #[trigger] p[i],
        p[i + 1],
    ) by {
        assert(adjacent_upto(indices, n, fc1, p[i], p[i + 1]));
        let f = choose|f: int| 0 <= f < fc1 && #[trigger] face_links(indices, n, f, p[i], p[i + 1]);
        assert(0 <= f < fc2 && face_links(indices, n, f, p[i], p[i + 1]));
    }
    assert(is_path(indices, n, fc2, p));
}

/// With no faces, only a vertex and itself are connected.
proof fn lemma_conn_empty(indices: Seq<u32>, n: int, a: int, b: int)
    requires
        connected_upto(indices, n, 0, a, b),
    ensures
        a == b,
        0 <= a < n,
{
    let p = choose|p: Seq<int>|
        #[trigger] is_path(indices, n, 0, p) && p.first() == a && p.last() == b;
    if p.len() >= 2 {
        assert(adjacent_upto(indices, n, 0, p[0], p[0int + 1]));
        let f = choose|f: int| 0 <= f < 0 && #[trigger] face_links(indices, n, f, p[0], p[1]);
        assert(false);
    }
    assert(p.first() == p.last());
}

/// `x` is connected, by the first `fcount` faces, to one of the three
/// vertices of face `f`.
pub open spec fn touches_face(indices: Seq<u32>, n: int, fcount: int, f: int, x: int) -> bool {
    ||| connected_upto(indices, n, fcount, x, face_vertex(indices, f, 0))
    ||| connected_upto(indices, n, fcount, x, face_vertex(indices, f, 1))
    ||| connected_upto(indices, n, fcount, x, face_vertex(indices, f, 2))
}

/// All three vertices of an in-range face are mutually connected once the
/// face is taken in.
proof fn lemma_face_members_connected(indices: Seq<u32>, n: int, f: int)
    requires
        0 <= f,
        face_in_range(indices, n, f),
    ensures
        forall|j: int, k: int|
            0 <= j < 3 && 0 <= k < 3 ==> connected_upto(
                indices,
                n,
                f + 1,
                #[trigger] face_vertex(indices, f, j),
                #[trigger] face_vertex(indices, f, k),
            ),
{
    let i0 = face_vertex(indices, f, 0);
    let i1 = face_vertex(indices, f, 1);
    let i2 = face_vertex(indices, f, 2);
    assert(face_links(indices, n, f, i0, i1));
    assert(face_links(indices, n, f, i1, i2));
    assert(adjacent_upto(indices, n, f + 1, i0, i1));
    assert(adjacent_upto(indices, n, f + 1, i1, i2));
    let p01 = seq![i0, i1];
    assert(is_path(indices, n, f + 1, p01));
    assert(p01.first() == i0 && p01.last() == i1);
    assert(connected_upto(indices, n, f + 1, i0, i1));
    let p12 = seq![i1, i2];
    assert(is_path(indices, n, f + 1, p12));
    assert(p12.first() == i1 && p12.last() == i2);
    assert(connected_upto(indices, n, f + 1, i1, i2));
    lemma_conn_trans(indices, n, f + 1, i0, i1, i2);
    lemma_conn_refl(indices, n, f + 1, i0);
    lemma_conn_refl(indices, n, f + 1, i1);
    lemma_conn_refl(indices, n, f + 1, i2);
    lemma_conn_sym(indices, n, f + 1, i0, i1);
    lemma_conn_sym(indices, n, f + 1, i1, i2);
    lemma_conn_sym(indices, n, f + 1, i0, i2);
}

/// Walking a path that may use face `f`: either the endpoints were already
/// connected without it, or both endpoints reach the face.
proof fn lemma_path_decompose(indices: Seq<u32>, n: int, f: int, p: Seq<int>)
    requires
        0 <= f,
        is_path(indices, n, f + 1, p),
    ensures
        connected_upto(indices, n, f, p.first(), p.last()) || (face_in_range(indices, n, f)
            && touches_face(indices, n, f, f, p.first()) && touches_face(
            indices,
            n,
            f,
            f,
            p.last(),
        )),
    decreases p.len(),
{
    if p.len() == 1 {
        lemma_conn_refl(indices, n, f, p.first());
    } else {
        let rest = p.subrange(1, p.len() as int);
        assert forall|i: int| 0 <= i < rest.len() - 1 implies adjacent_upto(
            indices,
            n,
            f + 1,
            #[trigger] rest[i],
            rest[i + 1],
        ) by {
            assert(rest[i] == p[i + 1] && rest[i + 1] == p[i + 2]);
            assert(adjacent_upto(indices, n, f + 1, p[i + 1], p[i + 2]));
        }
        assert(is_path(indices, n, f + 1, rest));
        lemma_path_decompose(indices, n, f, rest);
        assert(rest.first() == p[1] && rest.last() == p.last());

        assert(adjacent_upto(indices, n, f + 1, p[0], p[0int + 1]));
        let g = choose|g: int| 0 <= g < f + 1 && #[trigger] face_links(indices, n, g, p[0], p[1]);
        if g < f {
            let q = seq![p[0], p[1]];
            assert(face_links(indices, n, g, q[0], q[0int + 1]));
            assert(adjacent_upto(indices, n, f, q[0], q[0int + 1]));
            assert(is_path(indices, n, f, q));
            assert(q.first() == p[0] && q.last() == p[1]);
            assert(connected_upto(indices, n, f, p[0], p[1]));
            if connected_upto(indices, n, f, p[1], p.last()) {
                lemma_conn_trans(indices, n, f, p[0], p[1], p.last());
            } else {
                assert(touches_face(indices, n, f, f, p[1]));
                if connected_upto(indices, n, f, p[1], face_vertex(indices, f, 0)) {
                    lemma_conn_trans(indices, n, f, p[0], p[1], face_vertex(indices, f, 0));
                } else if connected_upto(indices, n, f, p[1], face_vertex(indices, f, 1)) {
                    lemma_conn_trans(indices, n, f, p[0], p[1], face_vertex(indices, f, 1));
                } else {
                    lemma_conn_trans(indices, n, f, p[0], p[1], face_vertex(indices, f, 2));
                }
                assert(touches_face(indices, n, f, f, p[0]));
            }
        } else {
            assert(face_links(indices, n, f, p[0], p[1]));
            let i0 = face_vertex(indices, f, 0);
            let i1 = face_vertex(indices, f, 1);
            let i2 = face_vertex(indices, f, 2);
            lemma_conn_refl(indices, n, f, p[0]);
            lemma_conn_refl(indices, n, f, p[1]);
            assert(touches_face(indices, n, f, f, p[0]));
            assert(touches_face(indices, n, f, f, p[1]));
            if connected_upto(indices, n, f, p[1], rest.last()) {
                // p[1] is itself a face vertex, so the tail endpoint reaches the face
                lemma_conn_sym(indices, n, f, p[1], rest.last());
                assert(connected_upto(indices, n, f, p.last(), p[1]));
                assert(touches_face(indices, n, f, f, p.last()));
            }
        }
    }
}

/// Taking in face `f` connects exactly the pairs that were already connected
/// or that both reach the face's vertices.
proof fn lemma_conn_step(indices: Seq<u32>, n: int, f: int)
    requires
        0 <= f,
    ensures
        forall|a: int, b: int|
            #[trigger] connected_upto(indices, n, f + 1, a, b) <==> (connected_upto(
                indices,
                n,
                f,
                a,
                b,
            ) || (face_in_range(indices, n, f) && touches_face(indices, n, f, f, a)
                && touches_face(indices, n, f, f, b))),
{
    assert forall|a: int, b: int| #[trigger] connected_upto(indices, n, f + 1, a, b) implies (
    connected_upto(indices, n, f, a, b) || (face_in_range(indices, n, f) && touches_face(
        indices,
        n,
        f,
        f,
        a,
    ) && touches_face(indices, n, f, f, b))) by {
        let p = choose|p: Seq<int>|
            #[trigger] is_path(indices, n, f + 1, p) && p.first() == a && p.last() == b;
        lemma_path_decompose(indices, n, f, p);
    }
    assert forall|a: int, b: int|
        (connected_upto(indices, n, f, a, b) || (face_in_range(indices, n, f) && touches_face(
            indices,
            n,
            f,
            f,
            a,
        ) && touches_face(indices, n, f, f, b))) implies #[trigger] connected_upto(
        indices,
        n,
        f + 1,
        a,
        b,
    ) by {
        if connected_upto(indices, n, f, a, b) {
            lemma_conn_mono(indices, n, f, f + 1, a, b);
        } else {
            lemma_face_members_connected(indices, n, f);
            let j = choose|j: int|
                0 <= j < 3 && connected_upto(indices, n, f, a, #[trigger] face_vertex(indices, f, j));
            let k = choose|k: int|
                0 <= k < 3 && connected_upto(indices, n, f, b, #[trigger] face_vertex(indices, f, k));
            lemma_conn_mono(indices, n, f, f + 1, a, face_vertex(indices, f, j));
            lemma_conn_mono(indices, n, f, f + 1, b, face_vertex(indices, f, k));
            lemma_conn_trans(
                indices,
                n,
                f + 1,
                a,
                face_vertex(indices, f, j),
                face_vertex(indices, f, k),
            );
            lemma_conn_sym(indices, n, f + 1, b, face_vertex(indices, f, k));
            lemma_conn_trans(indices, n, f + 1, a, face_vertex(indices, f, k), b);
        }
    }
}

/// A nonempty set of nonnegative integers has a least element.
proof fn lemma_least_exists(s: Set<int>, x: int)
    requires
        s.contains(x),
        x >= 0,
        forall|y: int| #[trigger] s.contains(y) ==> y >= 0,
    ensures
        exists|a: int| #[trigger] s.contains(a) && (forall|b: int| b < a ==> !s.contains(b)),
    decreases x,
{
    if forall|b: int| b < x ==> !#[trigger] s.contains(b) {
        assert(s.contains(x) && (forall|b: int| b < x ==> !s.contains(b)));
    } else {
        let b = choose|b: int| b < x && #[trigger] s.contains(b);
        assert(b >= 0);
        lemma_least_exists(s, b);
    }
}

/// A representative map that mirrors connectivity has exactly one fixpoint
/// per component: counting fixpoints counts components.
proof fn lemma_component_count_from_roots(indices: Seq<u32>, n: int, rt: Seq<int>)
    requires
        n >= 0,
        rt.len() == n,
        forall|i: int| 0 <= i < n ==> 0 <= #[trigger] rt[i] < n,
        forall|i: int| 0 <= i < n ==> rt[#[trigger] rt[i]] == rt[i],
        forall|a: int, b: int| #![trigger rt[a], rt[b]]
            0 <= a < n && 0 <= b < n ==> ((rt[a] == rt[b]) <==> spec_connected(indices, n, a, b)),
    ensures
        Set::new(|a: int| 0 <= a < n && rt[a] == a).len() == spec_component_count(indices, n),
{
    let heads = component_heads(indices, n);
    let roots = Set::new(|a: int| 0 <= a < n && rt[a] == a);
    let f = |a: int| rt[a];

    lemma_int_range(0, n);
    assert(heads.subset_of(set_int_range(0, n)));
    lemma_len_subset(heads, set_int_range(0, n));

    assert forall|a1: int, a2: int|
        heads.contains(a1) && heads.contains(a2) && #[trigger] f(a1) == #[trigger] f(a2) implies a1
        == a2 by {
        if a1 < a2 {
            assert(spec_connected(indices, n, a1, a2));
            assert(!is_component_head(indices, n, a2));
            assert(false);
        } else if a2 < a1 {
            assert(spec_connected(indices, n, a2, a1));
            assert(!is_component_head(indices, n, a1));
            assert(false);
        }
    }
    assert(injective_on(f, heads));

    assert forall|b: int| #[trigger] heads.map(f).contains(b) implies roots.contains(b) by {
        let a = choose|a: int| #[trigger] heads.contains(a) && f(a) == b;
        assert(rt[rt[a]] == rt[a]);
    }
    assert forall|b: int| #[trigger] roots.contains(b) implies heads.map(f).contains(b) by {
        let cls = Set::new(|x: int| 0 <= x < n && rt[x] == b);
        assert(cls.contains(b));
        lemma_least_exists(cls, b);
        let a = choose|a: int| #[trigger] cls.contains(a) && (forall|c: int| c < a ==> !cls.contains(c));
        assert forall|c: int| 0 <= c < a implies !#[trigger] spec_connected(indices, n, c, a) by {
            if spec_connected(indices, n, c, a) {
                assert(rt[c] == rt[a]);
                assert(cls.contains(c));
                assert(false);
            }
        }
        assert(is_component_head(indices, n, a));
        assert(heads.contains(a));
        assert(f(a) == b);
    }
    assert(heads.map(f) =~= roots);
    lemma_map_size(heads, roots, f);
}

/// Union-find over an index arena. `root` is ghost bookkeeping that maps
/// each vertex to its class representative; `dist` is a ghost measure that
/// strictly decreases along parent chains, so that walking to the root
/// terminates.
struct UnionFind {
    parent: Vec<usize>,
    root: Ghost<Seq<int>>,
    dist: Ghost<Seq<int>>,
}

impl UnionFind {
    spec fn n(&self) -> int {
        self.parent@.len() as int
    }

    spec fn wf(&self) -> bool {
        &&& self.root@.len() == self.parent@.len()
        &&& self.dist@.len() == self.parent@.len()
        &&& (forall|i: int| 0 <= i < self.n() ==> (#[trigger] self.parent@[i]) < self.n())
        &&& (forall|i: int| 0 <= i < self.n() ==> 0 <= #[trigger] self.root@[i] < self.n())
        &&& (forall|i: int| 0 <= i < self.n() ==> #[trigger] self.dist@[i] >= 0)
        &&& (forall|i: int|
            0 <= i < self.n() ==> self.root@[#[trigger] self.root@[i]] == self.root@[i])
        &&& (forall|i: int|
            0 <= i < self.n() ==> (((#[trigger] self.parent@[i]) as int == i) <==> self.root@[i]
                == i))
        &&& (forall|i: int|
            0 <= i < self.n() ==> (((#[trigger] self.parent@[i]) as int == i) <==> self.dist@[i]
                == 0))
        &&& (forall|i: int|
            0 <= i < self.n() && (#[trigger] self.parent@[i]) as int != i
                ==> self.dist@[self.parent@[i] as int] < self.dist@[i])
        &&& (forall|i: int|
            0 <= i < self.n() ==> self.root@[(#[trigger] self.parent@[i]) as int]
                == self.root@[i])
    }

    /// Walks to the representative of `i`'s class, then points every vertex
    /// on the walked chain directly at it.
    fn find(&mut self, i: usize) -> (r: usize)
        requires
            old(self).wf(),
            (i as int) < old(self).n(),
        ensures
            final(self).wf(),
            final(self).n() == old(self).n(),
            final(self).root@ == old(self).root@,
            (r as int) < final(self).n(),
            r as int == final(self).root@[i as int],
    {
        let ghost rt = self.root@;
        let mut cur = i;
        while self.parent[cur] != cur
            invariant
                self.wf(),
                self.n() == old(self).n(),
                self.root@ == rt,
                (cur as int) < self.n(),
                self.root@[cur as int] == self.root@[i as int],
            decreases self.dist@[cur as int],
        {
            cur = self.parent[cur];
        }
        let r = cur;
        assert(r as int == self.root@[i as int]);
        let mut x = i;
        while self.parent[x] != x
            invariant
                self.wf(),
                self.n() == old(self).n(),
                self.root@ == rt,
                (x as int) < self.n(),
                (r as int) < self.n(),
                self.root@[x as int] == self.root@[i as int],
                r as int == self.root@[i as int],
                self.parent@[r as int] as int == r as int,
            decreases self.dist@[x as int],
        {
            let next = self.parent[x];
            proof {
                assert(self.dist@[next as int] < self.dist@[x as int]);
                assert(self.root@[r as int] == r as int);
                assert(self.dist@[r as int] == 0);
            }
            self.parent.set(x, r);
            x = next;
        }
        r
    }

    /// Merges the classes of `x` and `y`. Afterwards two vertices share a
    /// representative exactly when they did before or when one sat in `x`'s
    /// class and the other in `y`'s.
    fn union(&mut self, x: usize, y: usize)
        requires
            old(self).wf(),
            (x as int) < old(self).n(),
            (y as int) < old(self).n(),
        ensures
            final(self).wf(),
            final(self).n() == old(self).n(),
            forall|a: int, b: int| #![trigger final(self).root@[a], final(self).root@[b]]
                0 <= a < final(self).n() && 0 <= b < final(self).n() ==> ((final(self).root@[a]
                    == final(self).root@[b]) <==> (old(self).root@[a] == old(self).root@[b] || (
                old(self).root@[a] == old(self).root@[x as int] && old(self).root@[b] == old(
                    self,
                ).root@[y as int]) || (old(self).root@[a] == old(self).root@[y as int] && old(
                    self,
                ).root@[b] == old(self).root@[x as int]))),
    {
        let ghost n = self.n();
        let px = self.find(x);
        let py = self.find(y);
        let ghost rt0 = self.root@;
        let ghost ds0 = self.dist@;
        if px != py {
            proof {
                assert(rt0[px as int] == px as int);
                assert(rt0[py as int] == py as int);
                assert(self.parent@[px as int] as int == px as int);
                assert(self.parent@[py as int] as int == py as int);
                assert(ds0[px as int] == 0);
                assert(ds0[py as int] == 0);
            }
            self.parent.set(px, py);
            let ghost rt1 = Seq::new(
                rt0.len(),
                |a: int|
                    if rt0[a] == px as int {
                        py as int
                    } else {
                        rt0[a]
                    },
            );
            let ghost ds1 = Seq::new(
                ds0.len(),
                |a: int|
                    if rt0[a] == px as int {
                        ds0[a] + 1
                    } else {
                        ds0[a]
                    },
            );
            proof {
                self.root@ = rt1;
                self.dist@ = ds1;
            }
            proof {
                assert forall|i: int|
                    0 <= i < n && (#[trigger] self.parent@[i]) as int != i implies self.dist@[self.parent@[i] as int]
                    < self.dist@[i] by {
                    if i == px as int {
                        assert(self.parent@[i] as int == py as int);
                        assert(self.dist@[py as int] == 0);
                        assert(self.dist@[px as int] == 1);
                    } else {
                        let pi = self.parent@[i] as int;
                        assert(rt0[pi] == rt0[i]);
                        assert(ds0[pi] < ds0[i]);
                    }
                }
                assert forall|i: int| 0 <= i < n implies (((#[trigger] self.parent@[i]) as int
                    == i) <==> self.root@[i] == i) by {
                    if i == px as int {
                        assert(self.root@[i] == py as int);
                    } else if rt0[i] == px as int {
                        assert(rt0[i] != i);
                        assert(self.root@[i] == py as int);
                        assert(i != py as int);
                    }
                }
                assert forall|i: int| 0 <= i < n implies (((#[trigger] self.parent@[i]) as int
                    == i) <==> self.dist@[i] == 0) by {
                    if i == px as int {
                        assert(self.dist@[i] == 1);
                    }
                }
                assert forall|i: int|
                    0 <= i < n implies self.root@[(#[trigger] self.parent@[i]) as int]
                    == self.root@[i] by {
                    if i == px as int {
                        assert(self.root@[py as int] == py as int);
                    } else {
                        let pi = self.parent@[i] as int;
                        assert(rt0[pi] == rt0[i]);
                    }
                }
                assert forall|i: int|
                    0 <= i < n implies self.root@[#[trigger] self.root@[i]] == self.root@[i] by {
                    if rt0[i] == px as int {
                        assert(self.root@[i] == py as int);
                        assert(rt0[py as int] == py as int);
                    } else {
                        assert(rt0[rt0[i]] == rt0[i]);
                    }
                }
                assert(self.wf());
            }
        } else {
            proof {
                assert(rt0[x as int] == px as int && rt0[y as int] == py as int);
            }
        }
    }
}

impl MeshAnalyzer {
    /// Number of connected components of the vertex set under face
    /// adjacency: 0 for an empty index buffer; otherwise every vertex not
    /// reached by any face counts as its own component.
    pub fn count_connected_components(&self) -> (r: usize)
        ensures
            self.indices@.len() == 0 ==> r == 0,
            self.indices@.len() > 0 ==> r as nat == spec_component_count(
                self.indices@,
                self.spec_vertex_count(),
            ),
    {
        let ghost s = self.indices@;
        if self.indices.len() == 0 {
            return 0;
        }
        let n = self.coord_count / 3;
        let ghost ni = n as int;

        let mut parent: Vec<usize> = Vec::new();
        let mut i: usize = 0;
        while i < n
            invariant
                i <= n,
                parent@.len() == i,
                forall|k: int| 0 <= k < i ==> (#[trigger] parent@[k]) as int == k,
            decreases n - i,
        {
            parent.push(i);
            i = i + 1;
        }
        let mut uf = UnionFind {
            parent,
            root: Ghost(Seq::new(ni as nat, |a: int| a)),
            dist: Ghost(Seq::new(ni as nat, |a: int| 0)),
        };
        proof {
            assert(uf.wf());
            assert forall|a: int, b: int| #![trigger uf.root@[a], uf.root@[b]]
                0 <= a < ni && 0 <= b < ni implies ((uf.root@[a] == uf.root@[b])
                <==> connected_upto(s, ni, 0, a, b)) by {
                if uf.root@[a] == uf.root@[b] {
                    assert(a == b);
                    lemma_conn_refl(s, ni, 0, a);
                }
                if connected_upto(s, ni, 0, a, b) {
                    lemma_conn_empty(s, ni, a, b);
                }
            }
        }

        let n_faces = self.indices.len() / 3;
        proof {
            assert(3 * (s.len() as int / 3) <= s.len() as int);
        }
        let mut f: usize = 0;
        while f < n_faces
            invariant
                s == self.indices@,
                n_faces == spec_face_count(s),
                3 * n_faces <= s.len() <= usize::MAX,
                ni == n as int,
                uf.wf(),
                uf.n() == ni,
                f <= n_faces,
                forall|a: int, b: int| #![trigger uf.root@[a], uf.root@[b]]
                    0 <= a < ni && 0 <= b < ni ==> ((uf.root@[a] == uf.root@[b])
                        <==> connected_upto(s, ni, f as int, a, b)),
            decreases n_faces - f,
        {
            let ghost fi = f as int;
            let i0u = self.indices[3 * f];
            let i1u = self.indices[3 * f + 1];
            let i2u = self.indices[3 * f + 2];
            let i0 = i0u as usize;
            let i1 = i1u as usize;
            let i2 = i2u as usize;
            let ghost rt_a = uf.root@;
            proof {
                lemma_conn_step(s, ni, fi);
                assert(face_vertex(s, fi, 0) == i0 as int);
                assert(face_vertex(s, fi, 1) == i1 as int);
                assert(face_vertex(s, fi, 2) == i2 as int);
            }
            if i0 < n && i1 < n && i2 < n {
                proof {
                    assert(face_in_range(s, ni, fi));
                }
                uf.union(i0, i1);
                let ghost rt_b = uf.root@;
                uf.union(i1, i2);
                let ghost rt_c = uf.root@;
                proof {
                    let x0 = i0 as int;
                    let x1 = i1 as int;
                    let x2 = i2 as int;
                    assert forall|a: int, b: int| #![trigger rt_c[a], rt_c[b]]
                        0 <= a < ni && 0 <= b < ni implies ((rt_c[a] == rt_c[b])
                        <==> connected_upto(s, ni, fi + 1, a, b)) by {
                        assert((rt_b[a] == rt_b[b]) <==> (rt_a[a] == rt_a[b] || (rt_a[a]
                            == rt_a[x0] && rt_a[b] == rt_a[x1]) || (rt_a[a] == rt_a[x1] && rt_a[b]
                            == rt_a[x0])));
                        assert((rt_b[a] == rt_b[x1]) <==> (rt_a[a] == rt_a[x1] || (rt_a[a]
                            == rt_a[x0] && rt_a[x1] == rt_a[x1]) || (rt_a[a] == rt_a[x1]
                            && rt_a[x1] == rt_a[x0])));
                        assert((rt_b[a] == rt_b[x2]) <==> (rt_a[a] == rt_a[x2] || (rt_a[a]
                            == rt_a[x0] && rt_a[x2] == rt_a[x1]) || (rt_a[a] == rt_a[x1]
                            && rt_a[x2] == rt_a[x0])));
                        assert((rt_b[b] == rt_b[x1]) <==> (rt_a[b] == rt_a[x1] || (rt_a[b]
                            == rt_a[x0] && rt_a[x1] == rt_a[x1]) || (rt_a[b] == rt_a[x1]
                            && rt_a[x1] == rt_a[x0])));
                        assert((rt_b[b] == rt_b[x2]) <==> (rt_a[b] == rt_a[x2] || (rt_a[b]
                            == rt_a[x0] && rt_a[x2] == rt_a[x1]) || (rt_a[b] == rt_a[x1]
                            && rt_a[x2] == rt_a[x0])));
                        assert((rt_c[a] == rt_c[b]) <==> (rt_b[a] == rt_b[b] || (rt_b[a]
                            == rt_b[x1] && rt_b[b] == rt_b[x2]) || (rt_b[a] == rt_b[x2] && rt_b[b]
                            == rt_b[x1])));
                        assert((rt_a[a] == rt_a[b]) <==> connected_upto(s, ni, fi, a, b));
                        assert((rt_a[a] == rt_a[x0]) <==> connected_upto(s, ni, fi, a, x0));
                        assert((rt_a[a] == rt_a[x1]) <==> connected_upto(s, ni, fi, a, x1));
                        assert((rt_a[a] == rt_a[x2]) <==> connected_upto(s, ni, fi, a, x2));
                        assert((rt_a[b] == rt_a[x0]) <==> connected_upto(s, ni, fi, b, x0));
                        assert((rt_a[b] == rt_a[x1]) <==> connected_upto(s, ni, fi, b, x1));
                        assert((rt_a[b] == rt_a[x2]) <==> connected_upto(s, ni, fi, b, x2));
                        assert(touches_face(s, ni, fi, fi, a) <==> (connected_upto(s, ni, fi, a, x0)
                            || connected_upto(s, ni, fi, a, x1) || connected_upto(
                            s,
                            ni,
                            fi,
                            a,
                            x2,
                        )));
                        assert(touches_face(s, ni, fi, fi, b) <==> (connected_upto(s, ni, fi, b, x0)
                            || connected_upto(s, ni, fi, b, x1) || connected_upto(
                            s,
                            ni,
                            fi,
                            b,
                            x2,
                        )));
                        assert(connected_upto(s, ni, fi + 1, a, b) <==> (connected_upto(
                            s,
                            ni,
                            fi,
                            a,
                            b,
                        ) || (face_in_range(s, ni, fi) && touches_face(s, ni, fi, fi, a)
                            && touches_face(s, ni, fi, fi, b))));
                    }
                }
            } else {
                proof {
                    assert(!face_in_range(s, ni, fi));
                    assert forall|a: int, b: int| #![trigger uf.root@[a], uf.root@[b]]
                        0 <= a < ni && 0 <= b < ni implies ((uf.root@[a] == uf.root@[b])
                        <==> connected_upto(s, ni, fi + 1, a, b)) by {
                        assert(connected_upto(s, ni, fi + 1, a, b) <==> (connected_upto(
                            s,
                            ni,
                            fi,
                            a,
                            b,
                        ) || (face_in_range(s, ni, fi) && touches_face(s, ni, fi, fi, a)
                            && touches_face(s, ni, fi, fi, b))));
                    }
                }
            }
            f = f + 1;
        }

        let ghost rt_f = uf.root@;
        let mut count: usize = 0;
        let mut v: usize = 0;
        proof {
            assert(Set::new(|a: int| 0 <= a < 0 && rt_f[a] == a) =~= Set::<int>::empty());
        }
        while v < n
            invariant
                uf.wf(),
                uf.n() == ni,
                uf.root@ == rt_f,
                ni == n as int,
                v <= n,
                count <= v,
                Set::new(|a: int| 0 <= a < v && rt_f[a] == a).finite(),
                count as nat == Set::new(|a: int| 0 <= a < v && rt_f[a] == a).len(),
            decreases n - v,
        {
            let ghost sv = Set::new(|a: int| 0 <= a < v && rt_f[a] == a);
            let ghost sv2 = Set::new(|a: int| 0 <= a < v + 1 && rt_f[a] == a);
            let p = uf.parent[v];
            if p == v {
                proof {
                    assert(rt_f[v as int] == v as int);
                    assert(!sv.contains(v as int));
                    assert(sv2 =~= sv.insert(v as int));
                }
                count = count + 1;
            } else {
                proof {
                    assert(rt_f[v as int] != v as int);
                    assert(sv2 =~= sv);
                }
            }
            v = v + 1;
        }

        proof {
            assert(Set::new(|a: int| 0 <= a < n && rt_f[a] == a) =~= Set::new(
                |a: int| 0 <= a < ni && rt_f[a] == a,
            ));
            assert(spec_face_count(s) == n_faces);
            assert forall|a: int, b: int| #![trigger rt_f[a], rt_f[b]]
                0 <= a < ni && 0 <= b < ni implies ((rt_f[a] == rt_f[b]) <==> spec_connected(
                s,
                ni,
                a,
                b,
            )) by {
                assert((rt_f[a] == rt_f[b]) <==> connected_upto(s, ni, n_faces as int, a, b));
            }
            lemma_component_count_from_roots(s, ni, rt_f);
        }
        count
    }
}

} // verus!
