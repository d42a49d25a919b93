//! The closed-form vertex count of the icosphere.
//!
//! Subdividing creates one vertex per distinct unordered edge, so counting
//! vertices means counting edges. On a closed, consistently wound triangle
//! mesh every directed edge appears exactly once and its reverse appears in
//! the neighbouring triangle, so every undirected edge is named by exactly
//! two triangle corners: the distinct edges number half the edge instances,
//! `3F / 2` for `F` triangles. The icosahedron starts that way, subdivision
//! preserves it, and the vertex count follows:
//! `12 + 30 + 120 + ... = 10 * 4^order + 2`.

use crate::edges::{
    first_index, lemma_first_index_in_range, nodup, upair,
};
use crate::mesh::{
    base_triangle_indices, child_block, edges_after, lemma_edges_after_complete,
    lemma_edges_after_len, lemma_edges_after_nodup, lemma_edges_after_sound,
    lemma_sphere_level_wf, lemma_sub_out_children, lemma_sub_out_len, pow4, sphere_level, sub_out,
    tri_edge, MAX_ORDER,
};
use vstd::prelude::*;

verus! {

/// Directed edge instance `e` of a triangle list: triangle `e / 3`, with
/// `e % 3` running over first-to-second, second-to-third, third-to-first.
pub open spec fn dir_edge(tris: Seq<u32>, e: int) -> (u32, u32) {
    let t = e / 3;
    if e % 3 == 0 {
        (tris[3 * t], tris[3 * t + 1])
    } else if e % 3 == 1 {
        (tris[3 * t + 1], tris[3 * t + 2])
    } else {
        (tris[3 * t + 2], tris[3 * t])
    }
}

/// Some instance names the reverse of instance `e`'s directed edge.
pub open spec fn has_reverse(tris: Seq<u32>, e: int) -> bool {
    exists|e2: int|
        0 <= e2 < 3 * (tris.len() as int / 3) && #[trigger] dir_edge(tris, e2) == (
        (dir_edge(tris, e).1, dir_edge(tris, e).0))
}

pub open spec fn tri_has_vertex(tris: Seq<u32>, t: int, x: u32) -> bool {
    tris[3 * t] == x || tris[3 * t + 1] == x || tris[3 * t + 2] == x
}

/// Triangles `t1` and `t2` cover the same three vertices.
pub open spec fn same_vset(tris: Seq<u32>, t1: int, t2: int) -> bool {
    &&& tri_has_vertex(tris, t2, tris[3 * t1])
    &&& tri_has_vertex(tris, t2, tris[3 * t1 + 1])
    &&& tri_has_vertex(tris, t2, tris[3 * t1 + 2])
    &&& tri_has_vertex(tris, t1, tris[3 * t2])
    &&& tri_has_vertex(tris, t1, tris[3 * t2 + 1])
    &&& tri_has_vertex(tris, t1, tris[3 * t2 + 2])
}

/// A closed, consistently wound triangle mesh: no directed edge is named
/// twice, every directed edge's reverse is named by a neighbour, no edge
/// joins a vertex to itself, and no two triangles cover the same three
/// vertices.
pub open spec fn manifold(tris: Seq<u32>) -> bool {
    let n = 3 * (tris.len() as int / 3);
    &&& tris.len() % 3 == 0
    &&& forall|e1: int, e2: int|
        0 <= e1 < e2 < n ==> dir_edge(tris, e1) != dir_edge(tris, e2)
    &&& forall|e: int| 0 <= e < n ==> (#[trigger] dir_edge(tris, e)).0 != dir_edge(tris, e).1
    &&& forall|e: int| 0 <= e < n ==> has_reverse(tris, e)
    &&& forall|t1: int, t2: int|
        0 <= t1 < t2 < tris.len() as int / 3 ==> !same_vset(tris, t1, t2)
}

/// For each directed edge instance of the base icosahedron, the instance
/// naming the reverse edge.
pub open spec fn base_partner() -> Seq<int> {
    seq![
        14, 18, 3, 2, 21, 6, 5, 24, 9, 8, 27, 12, 11, 15, 0, 13, 55, 53, 1, 52, 50, 4, 49, 47, 7,
        46, 59, 10, 58, 56, 44, 48, 33, 32, 51, 36, 35, 54, 39, 38, 57, 42, 41, 45, 30, 43, 25,
        23, 31, 22, 20, 34, 19, 17, 37, 16, 29, 40, 28, 26,
    ]
}

/// The base icosahedron is a closed, consistently wound mesh. Checking
/// this is a finite evaluation over the sixty base edge instances, which
/// takes the solver some work.
#[verifier::spinoff_prover]
#[verifier::rlimit(100)]
pub proof fn lemma_base_manifold()
    ensures
        manifold(base_triangle_indices()),
{
    let b = base_triangle_indices();
    assert(b.len() == 60);
    assert(forall|e1: int, e2: int| 0 <= e1 < e2 < 60 ==> dir_edge(b, e1) != dir_edge(b, e2));
    assert(forall|e: int|
        0 <= e < 60 ==> {
            let p = #[trigger] base_partner()[e];
            &&& 0 <= p < 60
            &&& dir_edge(b, p).0 == dir_edge(b, e).1
            &&& dir_edge(b, p).1 == dir_edge(b, e).0
        });
    assert forall|e: int| 0 <= e < 60 implies has_reverse(b, e) by {
        let p = base_partner()[e];
        assert(dir_edge(b, p) == ((dir_edge(b, e).1, dir_edge(b, e).0)));
    };
    assert(forall|e: int| 0 <= e < 60 ==> (#[trigger] dir_edge(b, e)).0 != dir_edge(b, e).1);
    assert(forall|t1: int, t2: int| 0 <= t1 < t2 < 20 ==> !same_vset(b, t1, t2));
}

/// Unordered edge `i` of triangle `b`.
pub open spec fn block_pair(tris: Seq<u32>, b: int, i: int) -> (u32, u32) {
    if i == 0 {
        upair(tris[3 * b], tris[3 * b + 1])
    } else if i == 1 {
        upair(tris[3 * b + 1], tris[3 * b + 2])
    } else {
        upair(tris[3 * b + 2], tris[3 * b])
    }
}

/// The midpoint vertex of edge `i` of triangle `b` after one subdivision.
pub open spec fn block_mid(nv: u32, tris: Seq<u32>, k: int, b: int, i: int) -> u32 {
    (nv + first_index(edges_after(tris, k), block_pair(tris, b, i))) as u32
}

/// Whether `p` is one of the three unordered edges of triangle `b`.
pub open spec fn is_block_pair(tris: Seq<u32>, b: int, p: (u32, u32)) -> bool {
    p == block_pair(tris, b, 0) || p == block_pair(tris, b, 1) || p == block_pair(tris, b, 2)
}

/// The directed edge value of instance `e` of the subdivided mesh, read
/// from the parent triangle `e / 12` and the position `e % 12` inside its
/// four-child block.
pub open spec fn sub_dir(nv: u32, tris: Seq<u32>, k: int, e: int) -> (u32, u32) {
    let b = e / 12;
    let m = e % 12;
    let v1 = tris[3 * b];
    let v2 = tris[3 * b + 1];
    let v3 = tris[3 * b + 2];
    let ma = block_mid(nv, tris, k, b, 0);
    let mb = block_mid(nv, tris, k, b, 1);
    let mc = block_mid(nv, tris, k, b, 2);
    if m == 0 {
        (v1, ma)
    } else if m == 1 {
        (ma, mc)
    } else if m == 2 {
        (mc, v1)
    } else if m == 3 {
        (v2, mb)
    } else if m == 4 {
        (mb, ma)
    } else if m == 5 {
        (ma, v2)
    } else if m == 6 {
        (v3, mc)
    } else if m == 7 {
        (mc, mb)
    } else if m == 8 {
        (mb, v3)
    } else if m == 9 {
        (ma, mb)
    } else if m == 10 {
        (mb, mc)
    } else {
        (mc, ma)
    }
}

/// Everything the case analyses need about one parent triangle: distinct
/// vertices below the old count, three distinct recorded edges, and three
/// distinct midpoint vertices at or above the old count, one per edge.
proof fn lemma_one_block(nv: u32, tris: Seq<u32>, k: int, b: int)
    requires
        manifold(tris),
        3 * k == tris.len(),
        forall|i: int| 0 <= i < tris.len() ==> tris[i] < nv,
        nv + 3 * k <= u32::MAX,
        0 <= b < k,
    ensures
        dir_edge(tris, 3 * b) == ((tris[3 * b], tris[3 * b + 1])),
        dir_edge(tris, 3 * b + 1) == ((tris[3 * b + 1], tris[3 * b + 2])),
        dir_edge(tris, 3 * b + 2) == ((tris[3 * b + 2], tris[3 * b])),
        tris[3 * b] != tris[3 * b + 1],
        tris[3 * b + 1] != tris[3 * b + 2],
        tris[3 * b + 2] != tris[3 * b],
        block_pair(tris, b, 0) != block_pair(tris, b, 1),
        block_pair(tris, b, 1) != block_pair(tris, b, 2),
        block_pair(tris, b, 2) != block_pair(tris, b, 0),
        forall|i: int|
            0 <= i < 3 ==> {
                let fi = first_index(edges_after(tris, k), #[trigger] block_pair(tris, b, i));
                &&& edges_after(tris, k).contains(block_pair(tris, b, i))
                &&& 0 <= fi < edges_after(tris, k).len()
                &&& edges_after(tris, k)[fi] == block_pair(tris, b, i)
                &&& block_mid(nv, tris, k, b, i) as int == nv + fi
            },
{
    assert((3 * b) / 3 == b && (3 * b) % 3 == 0) by (nonlinear_arith);
    assert((3 * b + 1) / 3 == b && (3 * b + 1) % 3 == 1) by (nonlinear_arith);
    assert((3 * b + 2) / 3 == b && (3 * b + 2) % 3 == 2) by (nonlinear_arith);
    assert(dir_edge(tris, 3 * b).0 != dir_edge(tris, 3 * b).1);
    assert(dir_edge(tris, 3 * b + 1).0 != dir_edge(tris, 3 * b + 1).1);
    assert(dir_edge(tris, 3 * b + 2).0 != dir_edge(tris, 3 * b + 2).1);
    lemma_edges_after_complete(tris, k);
    lemma_edges_after_len(tris, k);
    assert(tri_edge(tris, 3 * b) == block_pair(tris, b, 0));
    assert(tri_edge(tris, 3 * b + 1) == block_pair(tris, b, 1));
    assert(tri_edge(tris, 3 * b + 2) == block_pair(tris, b, 2));
    assert forall|i: int|
        0 <= i < 3 implies {
            let fi = first_index(edges_after(tris, k), #[trigger] block_pair(tris, b, i));
            &&& edges_after(tris, k).contains(block_pair(tris, b, i))
            &&& 0 <= fi < edges_after(tris, k).len()
            &&& edges_after(tris, k)[fi] == block_pair(tris, b, i)
            &&& block_mid(nv, tris, k, b, i) as int == nv + fi
        } by {
        assert(edges_after(tris, k).contains(tri_edge(tris, 3 * b + i)));
        lemma_first_index_in_range(edges_after(tris, k), block_pair(tris, b, i));
    };
}

/// Each instance of the subdivided mesh carries the directed edge value
/// that `sub_dir` reads off the parent block.
proof fn lemma_sub_dir(nv: u32, tris: Seq<u32>, k: int)
    requires
        0 <= k,
        3 * k <= tris.len(),
    ensures
        forall|e: int|
            0 <= e < 12 * k ==> #[trigger] dir_edge(sub_out(nv, tris, k), e) == sub_dir(
                nv,
                tris,
                k,
                e,
            ),
{
    lemma_sub_out_children(nv, tris, k);
    lemma_sub_out_len(nv, tris, k);
    let sub = sub_out(nv, tris, k);
    assert forall|e: int| 0 <= e < 12 * k implies #[trigger] dir_edge(sub, e) == sub_dir(
        nv,
        tris,
        k,
        e,
    ) by {
        let b = e / 12;
        let m = e % 12;
        assert(0 <= b < k && 0 <= m < 12 && e == 12 * b + m) by (nonlinear_arith)
            requires
                0 <= e < 12 * k,
                b == e / 12,
                m == e % 12,
        ;
        assert(e / 3 == 4 * b + m / 3 && e % 3 == m % 3) by (nonlinear_arith)
            requires
                e == 12 * b + m,
                0 <= m < 12,
        ;
        let cb = child_block(nv, tris, edges_after(tris, k), b);
        assert(sub.subrange(12 * b, 12 * b + 12) == cb);
        assert forall|j: int| 0 <= j < 12 implies sub[12 * b + j] == cb[j] by {
            assert(sub.subrange(12 * b, 12 * b + 12)[j] == sub[12 * b + j]);
        };
        let t = e / 3;
        assert(3 * t == 12 * b + 3 * (m / 3));
        assert(sub[3 * t] == cb[3 * (m / 3)]);
        assert(sub[3 * t + 1] == cb[3 * (m / 3) + 1]);
        assert(sub[3 * t + 2] == cb[3 * (m / 3) + 2]);
    };
}

/// Two distinct unordered edges of a triangle cover all three of its
/// vertices, so two triangles sharing two distinct edges cover the same
/// vertex set.
proof fn lemma_shared_two_pairs(tris: Seq<u32>, t1: int, t2: int, p: (u32, u32), q: (u32, u32))
    requires
        tris[3 * t1] != tris[3 * t1 + 1],
        tris[3 * t1 + 1] != tris[3 * t1 + 2],
        tris[3 * t1 + 2] != tris[3 * t1],
        tris[3 * t2] != tris[3 * t2 + 1],
        tris[3 * t2 + 1] != tris[3 * t2 + 2],
        tris[3 * t2 + 2] != tris[3 * t2],
        p != q,
        is_block_pair(tris, t1, p),
        is_block_pair(tris, t1, q),
        is_block_pair(tris, t2, p),
        is_block_pair(tris, t2, q),
    ensures
        same_vset(tris, t1, t2),
{
    // two distinct edges of a triangle have its three vertices as their
    // union, so both vertex sets equal the union of p and q; the solver
    // checks the nine placements of the two pairs in each triangle
}

/// Shared hypotheses of the subdivision-step lemmas: a closed mesh whose
/// indices fit below `nv`, with room for one midpoint per edge instance.
pub open spec fn step_ok(nv: u32, tris: Seq<u32>) -> bool {
    &&& manifold(tris)
    &&& forall|i: int| 0 <= i < tris.len() ==> tris[i] < nv
    &&& nv + tris.len() <= u32::MAX
}

/// No edge of the subdivided mesh joins a vertex to itself.
proof fn lemma_sub_proper(nv: u32, tris: Seq<u32>)
    requires
        step_ok(nv, tris),
    ensures
        forall|e: int|
            0 <= e < 12 * (tris.len() as int / 3) ==> (#[trigger] dir_edge(
                sub_out(nv, tris, tris.len() as int / 3),
                e,
            )).0 != dir_edge(sub_out(nv, tris, tris.len() as int / 3), e).1,
{
    let k = tris.len() as int / 3;
    assert(3 * k == tris.len());
    let sub = sub_out(nv, tris, k);
    lemma_sub_dir(nv, tris, k);
    assert forall|e: int| 0 <= e < 12 * k implies (#[trigger] dir_edge(sub, e)).0 != dir_edge(
        sub,
        e,
    ).1 by {
        let b = e / 12;
        assert(0 <= b < k && e == 12 * b + e % 12);
        lemma_one_block(nv, tris, k, b);
    };
}

/// No directed edge of the subdivided mesh is named twice.
proof fn lemma_sub_dir_distinct(nv: u32, tris: Seq<u32>)
    requires
        step_ok(nv, tris),
    ensures
        forall|e1: int, e2: int|
            #![trigger dir_edge(sub_out(nv, tris, tris.len() as int / 3), e1), dir_edge(sub_out(nv, tris, tris.len() as int / 3), e2)]
            0 <= e1 < e2 < 12 * (tris.len() as int / 3) ==> dir_edge(
                sub_out(nv, tris, tris.len() as int / 3),
                e1,
            ) != dir_edge(sub_out(nv, tris, tris.len() as int / 3), e2),
{
    let k = tris.len() as int / 3;
    assert(3 * k == tris.len());
    let sub = sub_out(nv, tris, k);
    lemma_sub_dir(nv, tris, k);
    lemma_edges_after_nodup(tris, k);
    assert forall|e1: int, e2: int|
        0 <= e1 < e2 < 12 * k implies dir_edge(sub, e1) != dir_edge(sub, e2) by {
        let b1 = e1 / 12;
        let m1 = e1 % 12;
        let b2 = e2 / 12;
        let m2 = e2 % 12;
        assert(0 <= b1 < k && 0 <= m1 < 12 && e1 == 12 * b1 + m1);
        assert(0 <= b2 < k && 0 <= m2 < 12 && e2 == 12 * b2 + m2);
        lemma_one_block(nv, tris, k, b1);
        lemma_one_block(nv, tris, k, b2);
        if dir_edge(sub, e1) == dir_edge(sub, e2) {
            let newnew1 = m1 == 1 || m1 == 4 || m1 == 7 || m1 == 9 || m1 == 10 || m1 == 11;
            let newnew2 = m2 == 1 || m2 == 4 || m2 == 7 || m2 == 9 || m2 == 10 || m2 == 11;
            if b1 != b2 && newnew1 && newnew2 {
                // both endpoints are midpoints, so the two blocks would
                // share the two distinct parent edges behind them
                let (i1, j1): (int, int) = if m1 == 1 {
                    (0, 2)
                } else if m1 == 4 {
                    (1, 0)
                } else if m1 == 7 {
                    (2, 1)
                } else if m1 == 9 {
                    (0, 1)
                } else if m1 == 10 {
                    (1, 2)
                } else {
                    (2, 0)
                };
                let (i2, j2): (int, int) = if m2 == 1 {
                    (0, 2)
                } else if m2 == 4 {
                    (1, 0)
                } else if m2 == 7 {
                    (2, 1)
                } else if m2 == 9 {
                    (0, 1)
                } else if m2 == 10 {
                    (1, 2)
                } else {
                    (2, 0)
                };
                assert(sub_dir(nv, tris, k, e1) == ((
                    block_mid(nv, tris, k, b1, i1),
                    block_mid(nv, tris, k, b1, j1),
                )));
                assert(sub_dir(nv, tris, k, e2) == ((
                    block_mid(nv, tris, k, b2, i2),
                    block_mid(nv, tris, k, b2, j2),
                )));
                assert(block_pair(tris, b1, i1) == block_pair(tris, b2, i2));
                assert(block_pair(tris, b1, j1) == block_pair(tris, b2, j2));
                lemma_shared_two_pairs(
                    tris,
                    b1,
                    b2,
                    block_pair(tris, b1, i1),
                    block_pair(tris, b1, j1),
                );
                if b1 < b2 {
                    assert(!same_vset(tris, b1, b2));
                } else {
                    assert(same_vset(tris, b2, b1));
                    assert(!same_vset(tris, b2, b1));
                }
            }
        }
    };
}

/// Every directed edge of the subdivided mesh has its reverse named:
/// midpoint-to-midpoint edges by a sibling child of the same block, halves
/// of a parent edge by a child of the block across that edge.
proof fn lemma_sub_reverse(nv: u32, tris: Seq<u32>)
    requires
        step_ok(nv, tris),
    ensures
        forall|e: int|
            0 <= e < 12 * (tris.len() as int / 3) ==> #[trigger] has_reverse(
                sub_out(nv, tris, tris.len() as int / 3),
                e,
            ),
{
    let k = tris.len() as int / 3;
    assert(3 * k == tris.len());
    let sub = sub_out(nv, tris, k);
    lemma_sub_dir(nv, tris, k);
    lemma_sub_out_len(nv, tris, k);
    assert forall|e: int| 0 <= e < 12 * k implies has_reverse(sub, e) by {
        let b = e / 12;
        let m = e % 12;
        assert(0 <= b < k && 0 <= m < 12 && e == 12 * b + m);
        lemma_one_block(nv, tris, k, b);
        if m == 1 || m == 4 || m == 7 || m == 9 || m == 10 || m == 11 {
            let w: int = if m == 1 {
                12 * b + 11
            } else if m == 11 {
                12 * b + 1
            } else if m == 4 {
                12 * b + 9
            } else if m == 9 {
                12 * b + 4
            } else if m == 7 {
                12 * b + 10
            } else {
                12 * b + 7
            };
            assert(w / 12 == b && 0 <= w % 12 < 12);
            assert(dir_edge(sub, w) == ((dir_edge(sub, e).1, dir_edge(sub, e).0)));
        } else {
            // a half of parent edge `s`: the reverse is the matching half
            // in the block of the old instance naming that edge backwards
            let s: int = if m == 0 || m == 5 {
                0
            } else if m == 3 || m == 8 {
                1
            } else {
                2
            };
            let eo = 3 * b + s;
            assert(eo / 3 == b && eo % 3 == s);
            assert(0 <= eo < 3 * k);
            assert(has_reverse(tris, eo));
            let eo2 = choose|eo2: int|
                0 <= eo2 < 3 * k && #[trigger] dir_edge(tris, eo2) == (
                (dir_edge(tris, eo).1, dir_edge(tris, eo).0));
            let b2 = eo2 / 3;
            let s2 = eo2 % 3;
            assert(0 <= b2 < k && 0 <= s2 < 3 && eo2 == 3 * b2 + s2);
            lemma_one_block(nv, tris, k, b2);
            let first = m == 0 || m == 3 || m == 6;
            let w: int = if first {
                12 * b2 + (if s2 == 0 {
                    5int
                } else if s2 == 1 {
                    8int
                } else {
                    2int
                })
            } else {
                12 * b2 + 3 * s2
            };
            assert(w / 12 == b2 && w % 12 == w - 12 * b2);
            // the two instances of one parent edge share its midpoint
            assert(block_pair(tris, b, s) == block_pair(tris, b2, s2));
            assert(block_mid(nv, tris, k, b, s) == block_mid(nv, tris, k, b2, s2));
            assert(0 <= w < 12 * k);
            assert(dir_edge(sub, w) == ((dir_edge(sub, e).1, dir_edge(sub, e).0)));
        }
    };
}

/// No two children of the subdivided mesh cover the same three vertices.
proof fn lemma_sub_vsets(nv: u32, tris: Seq<u32>)
    requires
        step_ok(nv, tris),
    ensures
        forall|t1: int, t2: int|
            0 <= t1 < t2 < 4 * (tris.len() as int / 3) ==> !#[trigger] same_vset(
                sub_out(nv, tris, tris.len() as int / 3),
                t1,
                t2,
            ),
{
    let k = tris.len() as int / 3;
    assert(3 * k == tris.len());
    let sub = sub_out(nv, tris, k);
    lemma_sub_out_len(nv, tris, k);
    assert forall|t1: int, t2: int|
        0 <= t1 < t2 < 4 * k implies !same_vset(sub, t1, t2) by {
        let b1 = t1 / 4;
        let c1 = t1 % 4;
        let b2 = t2 / 4;
        let c2 = t2 % 4;
        assert(0 <= b1 < k && 0 <= c1 < 4 && t1 == 4 * b1 + c1);
        assert(0 <= b2 < k && 0 <= c2 < 4 && t2 == 4 * b2 + c2);
        lemma_one_block(nv, tris, k, b1);
        lemma_one_block(nv, tris, k, b2);
        lemma_sub_child_vertices(nv, tris, k, t1);
        lemma_sub_child_vertices(nv, tris, k, t2);
        if same_vset(sub, t1, t2) {
            if b1 == b2 {
                assert(false);
            } else {
                // the two blocks would share two distinct parent edges
                let (i1, j1): (int, int) = if c1 == 0 {
                    (0, 2)
                } else if c1 == 1 {
                    (1, 0)
                } else if c1 == 2 {
                    (2, 1)
                } else {
                    (0, 1)
                };
                let (i2, j2): (int, int) = if c2 == 0 {
                    (0, 2)
                } else if c2 == 1 {
                    (1, 0)
                } else if c2 == 2 {
                    (2, 1)
                } else {
                    (0, 1)
                };
                // each of the two chosen midpoints of the first block is a
                // vertex of the second child, hence one of its midpoints
                assert(block_mid(nv, tris, k, b1, i1) == block_mid(nv, tris, k, b2, 0)
                    || block_mid(nv, tris, k, b1, i1) == block_mid(nv, tris, k, b2, 1)
                    || block_mid(nv, tris, k, b1, i1) == block_mid(nv, tris, k, b2, 2));
                assert(block_mid(nv, tris, k, b1, j1) == block_mid(nv, tris, k, b2, 0)
                    || block_mid(nv, tris, k, b1, j1) == block_mid(nv, tris, k, b2, 1)
                    || block_mid(nv, tris, k, b1, j1) == block_mid(nv, tris, k, b2, 2));
                let mi: int = if block_mid(nv, tris, k, b1, i1) == block_mid(nv, tris, k, b2, 0) {
                    0
                } else if block_mid(nv, tris, k, b1, i1) == block_mid(nv, tris, k, b2, 1) {
                    1
                } else {
                    2
                };
                let mj: int = if block_mid(nv, tris, k, b1, j1) == block_mid(nv, tris, k, b2, 0) {
                    0
                } else if block_mid(nv, tris, k, b1, j1) == block_mid(nv, tris, k, b2, 1) {
                    1
                } else {
                    2
                };
                assert(block_pair(tris, b1, i1) == block_pair(tris, b2, mi));
                assert(block_pair(tris, b1, j1) == block_pair(tris, b2, mj));
                lemma_shared_two_pairs(
                    tris,
                    b1,
                    b2,
                    block_pair(tris, b1, i1),
                    block_pair(tris, b1, j1),
                );
                if b1 < b2 {
                    assert(!same_vset(tris, b1, b2));
                } else {
                    assert(same_vset(tris, b2, b1));
                    assert(!same_vset(tris, b2, b1));
                }
            }
        }
    };
}

/// One subdivision step keeps the mesh closed and consistently wound.
proof fn lemma_sub_out_manifold(nv: u32, tris: Seq<u32>)
    requires
        step_ok(nv, tris),
    ensures
        manifold(sub_out(nv, tris, tris.len() as int / 3)),
{
    let k = tris.len() as int / 3;
    let sub = sub_out(nv, tris, k);
    lemma_sub_out_len(nv, tris, k);
    assert(sub.len() == 12 * k && sub.len() % 3 == 0 && sub.len() as int / 3 == 4 * k);
    lemma_sub_proper(nv, tris);
    lemma_sub_dir_distinct(nv, tris);
    lemma_sub_reverse(nv, tris);
    lemma_sub_vsets(nv, tris);
}


/// The three vertices of child triangle `t` of the subdivided mesh, as the
/// child table gives them.
proof fn lemma_sub_child_vertices(nv: u32, tris: Seq<u32>, k: int, t: int)
    requires
        0 <= k,
        3 * k <= tris.len(),
        0 <= t < 4 * k,
    ensures
        ({
            let b = t / 4;
            let c = t % 4;
            let sub = sub_out(nv, tris, k);
            &&& sub[3 * t] == (if c == 0 {
                tris[3 * b]
            } else if c == 1 {
                tris[3 * b + 1]
            } else if c == 2 {
                tris[3 * b + 2]
            } else {
                block_mid(nv, tris, k, b, 0)
            })
            &&& sub[3 * t + 1] == (if c == 0 {
                block_mid(nv, tris, k, b, 0)
            } else if c == 1 {
                block_mid(nv, tris, k, b, 1)
            } else if c == 2 {
                block_mid(nv, tris, k, b, 2)
            } else {
                block_mid(nv, tris, k, b, 1)
            })
            &&& sub[3 * t + 2] == (if c == 0 {
                block_mid(nv, tris, k, b, 2)
            } else if c == 1 {
                block_mid(nv, tris, k, b, 0)
            } else if c == 2 {
                block_mid(nv, tris, k, b, 1)
            } else {
                block_mid(nv, tris, k, b, 2)
            })
        }),
{
    lemma_sub_out_children(nv, tris, k);
    lemma_sub_out_len(nv, tris, k);
    let b = t / 4;
    let c = t % 4;
    assert(0 <= b < k && 0 <= c < 4 && t == 4 * b + c) by (nonlinear_arith)
        requires
            0 <= t < 4 * k,
            b == t / 4,
            c == t % 4,
    ;
    let sub = sub_out(nv, tris, k);
    let cb = child_block(nv, tris, edges_after(tris, k), b);
    assert(sub.subrange(12 * b, 12 * b + 12) == cb);
    assert forall|j: int| 0 <= j < 12 implies sub[12 * b + j] == cb[j] by {
        assert(sub.subrange(12 * b, 12 * b + 12)[j] == sub[12 * b + j]);
    };
    assert(3 * t == 12 * b + 3 * c);
}

/// Occurrences of the pair `p` in `s`.
pub open spec fn pcount(s: Seq<(u32, u32)>, p: (u32, u32)) -> int
    decreases s.len(),
{
    if s.len() == 0 {
        0
    } else {
        pcount(s.drop_last(), p) + if s.last() == p {
            1int
        } else {
            0int
        }
    }
}

/// Occurrences in `s` of every entry of `d`, summed over `d`.
pub open spec fn total_count(s: Seq<(u32, u32)>, d: Seq<(u32, u32)>) -> int
    decreases d.len(),
{
    if d.len() == 0 {
        0
    } else {
        total_count(s, d.drop_last()) + pcount(s, d.last())
    }
}

proof fn lemma_total_empty(d: Seq<(u32, u32)>)
    ensures
        total_count(Seq::<(u32, u32)>::empty(), d) == 0,
    decreases d.len(),
{
    if d.len() > 0 {
        lemma_total_empty(d.drop_last());
    }
}

proof fn lemma_total_push(s: Seq<(u32, u32)>, x: (u32, u32), d: Seq<(u32, u32)>)
    ensures
        total_count(s.push(x), d) == total_count(s, d) + pcount(d, x),
    decreases d.len(),
{
    if d.len() > 0 {
        lemma_total_push(s, x, d.drop_last());
        assert(s.push(x).drop_last() =~= s);
        assert(s.push(x).last() == x);
    }
}

proof fn lemma_pcount_nodup(d: Seq<(u32, u32)>, x: (u32, u32))
    requires
        nodup(d),
    ensures
        pcount(d, x) == if d.contains(x) {
            1int
        } else {
            0int
        },
    decreases d.len(),
{
    if d.len() == 0 {
        assert(!d.contains(x));
    } else {
        let dd = d.drop_last();
        assert(forall|i: int| 0 <= i < dd.len() ==> dd[i] == d[i]);
        lemma_pcount_nodup(dd, x);
        if d.last() == x {
            if dd.contains(x) {
                let i = choose|i: int| 0 <= i < dd.len() && dd[i] == x;
                assert(d[i] == x && d[d.len() - 1] == x && i < d.len() - 1);
            }
            assert(d.contains(x)) by {
                assert(d[d.len() - 1] == x);
            };
        } else {
            if d.contains(x) {
                let i = choose|i: int| 0 <= i < d.len() && d[i] == x;
                assert(i < d.len() - 1);
                assert(dd[i] == x);
            }
            if dd.contains(x) {
                let i = choose|i: int| 0 <= i < dd.len() && dd[i] == x;
                assert(d[i] == x);
            }
        }
    }
}

/// Counting each distinct value's occurrences covers every element once.
proof fn lemma_total_len(s: Seq<(u32, u32)>, d: Seq<(u32, u32)>)
    requires
        nodup(d),
        forall|i: int| 0 <= i < s.len() ==> d.contains(#[trigger] s[i]),
    ensures
        total_count(s, d) == s.len(),
    decreases s.len(),
{
    if s.len() == 0 {
        assert(s =~= Seq::<(u32, u32)>::empty());
        lemma_total_empty(d);
    } else {
        let ss = s.drop_last();
        assert(forall|i: int| 0 <= i < ss.len() ==> ss[i] == s[i]);
        lemma_total_len(ss, d);
        assert(s =~= ss.push(s.last()));
        lemma_total_push(ss, s.last(), d);
        assert(d.contains(s.last())) by {
            assert(s[s.len() - 1] == s.last());
        };
        lemma_pcount_nodup(d, s.last());
    }
}

proof fn lemma_total_double(s: Seq<(u32, u32)>, d: Seq<(u32, u32)>)
    requires
        forall|j: int| 0 <= j < d.len() ==> pcount(s, #[trigger] d[j]) == 2,
    ensures
        total_count(s, d) == 2 * d.len(),
    decreases d.len(),
{
    if d.len() > 0 {
        let dd = d.drop_last();
        assert(forall|j: int| 0 <= j < dd.len() ==> dd[j] == d[j]);
        lemma_total_double(s, dd);
        assert(pcount(s, d.last()) == 2) by {
            assert(d[d.len() - 1] == d.last());
        };
    }
}

proof fn lemma_pcount_zero(s: Seq<(u32, u32)>, p: (u32, u32))
    requires
        forall|i: int| 0 <= i < s.len() ==> s[i] != p,
    ensures
        pcount(s, p) == 0,
    decreases s.len(),
{
    if s.len() > 0 {
        assert(forall|i: int| 0 <= i < s.drop_last().len() ==> s.drop_last()[i] == s[i]);
        lemma_pcount_zero(s.drop_last(), p);
        assert(s.last() != p) by {
            assert(s[s.len() - 1] == s.last());
        };
    }
}

proof fn lemma_pcount_one(s: Seq<(u32, u32)>, p: (u32, u32), i1: int)
    requires
        0 <= i1 < s.len(),
        s[i1] == p,
        forall|i: int| 0 <= i < s.len() && #[trigger] s[i] == p ==> i == i1,
    ensures
        pcount(s, p) == 1,
    decreases s.len(),
{
    let ss = s.drop_last();
    assert(forall|i: int| 0 <= i < ss.len() ==> ss[i] == s[i]);
    if i1 == s.len() - 1 {
        assert(forall|i: int| 0 <= i < ss.len() ==> ss[i] != p);
        lemma_pcount_zero(ss, p);
        assert(s.last() == p);
    } else {
        assert(s.last() != p) by {
            assert(s[s.len() - 1] == s.last());
        };
        lemma_pcount_one(ss, p, i1);
    }
}

proof fn lemma_pcount_two(s: Seq<(u32, u32)>, p: (u32, u32), i1: int, i2: int)
    requires
        0 <= i1 < i2 < s.len(),
        s[i1] == p,
        s[i2] == p,
        forall|i: int| 0 <= i < s.len() && #[trigger] s[i] == p ==> i == i1 || i == i2,
    ensures
        pcount(s, p) == 2,
    decreases s.len(),
{
    let ss = s.drop_last();
    assert(forall|i: int| 0 <= i < ss.len() ==> ss[i] == s[i]);
    if i2 == s.len() - 1 {
        assert(forall|i: int| 0 <= i < ss.len() && #[trigger] ss[i] == p ==> i == i1);
        lemma_pcount_one(ss, p, i1);
        assert(s.last() == p);
    } else {
        assert(s.last() != p) by {
            assert(s[s.len() - 1] == s.last());
        };
        lemma_pcount_two(ss, p, i1, i2);
    }
}

/// The unordered edge values of all instances, in instance order.
pub open spec fn inst_seq(tris: Seq<u32>) -> Seq<(u32, u32)> {
    Seq::new((3 * (tris.len() as int / 3)) as nat, |e: int| tri_edge(tris, e))
}

/// On a closed mesh, every recorded edge is named by exactly two instances:
/// one in each direction.
proof fn lemma_manifold_double(tris: Seq<u32>)
    requires
        manifold(tris),
    ensures
        forall|j: int|
            0 <= j < edges_after(tris, tris.len() as int / 3).len() ==> pcount(
                inst_seq(tris),
                #[trigger] edges_after(tris, tris.len() as int / 3)[j],
            ) == 2,
{
    let k = tris.len() as int / 3;
    let d = edges_after(tris, k);
    let s = inst_seq(tris);
    lemma_edges_after_sound(tris, k);
    assert forall|e: int| 0 <= e < 3 * k implies #[trigger] tri_edge(tris, e) == upair(
        dir_edge(tris, e).0,
        dir_edge(tris, e).1,
    ) by {};
    assert forall|j: int| 0 <= j < d.len() implies pcount(s, #[trigger] d[j]) == 2 by {
        let p = d[j];
        assert(d.contains(p));
        let e1 = choose|e: int| 0 <= e < 3 * k && tri_edge(tris, e) == p;
        assert(dir_edge(tris, e1).0 != dir_edge(tris, e1).1);
        assert(has_reverse(tris, e1));
        let e2 = choose|e2: int|
            0 <= e2 < 3 * (tris.len() as int / 3) && #[trigger] dir_edge(tris, e2) == (
            (dir_edge(tris, e1).1, dir_edge(tris, e1).0));
        assert(e1 != e2);
        assert(s[e1] == p && s[e2] == p);
        assert forall|i: int| 0 <= i < s.len() && #[trigger] s[i] == p implies i == e1 || i
            == e2 by {
            assert(tri_edge(tris, i) == upair(dir_edge(tris, i).0, dir_edge(tris, i).1));
            assert(dir_edge(tris, i) == dir_edge(tris, e1) || dir_edge(tris, i) == dir_edge(
                tris,
                e2,
            ));
            if dir_edge(tris, i) == dir_edge(tris, e1) && i != e1 {
                if i < e1 {
                    assert(dir_edge(tris, i) != dir_edge(tris, e1));
                } else {
                    assert(dir_edge(tris, e1) != dir_edge(tris, i));
                }
            }
            if dir_edge(tris, i) == dir_edge(tris, e2) && i != e2 {
                if i < e2 {
                    assert(dir_edge(tris, i) != dir_edge(tris, e2));
                } else {
                    assert(dir_edge(tris, e2) != dir_edge(tris, i));
                }
            }
        };
        if e1 < e2 {
            lemma_pcount_two(s, p, e1, e2);
        } else {
            lemma_pcount_two(s, p, e2, e1);
        }
    };
}

/// The distinct undirected edges of a closed mesh number exactly half its
/// edge instances: `3F / 2` for `F` triangles.
pub proof fn lemma_manifold_edge_count(tris: Seq<u32>)
    requires
        manifold(tris),
    ensures
        2 * edges_after(tris, tris.len() as int / 3).len() == tris.len(),
{
    let k = tris.len() as int / 3;
    assert(3 * k == tris.len());
    let d = edges_after(tris, k);
    let s = inst_seq(tris);
    lemma_edges_after_nodup(tris, k);
    lemma_edges_after_complete(tris, k);
    assert forall|i: int| 0 <= i < s.len() implies d.contains(#[trigger] s[i]) by {
        assert(s[i] == tri_edge(tris, i));
        assert(d.contains(tri_edge(tris, i)));
    };
    lemma_total_len(s, d);
    lemma_manifold_double(tris);
    lemma_total_double(s, d);
}

/// Every mesh level of the icosphere is closed and consistently wound.
pub proof fn lemma_sphere_manifold(order: int)
    requires
        0 <= order <= MAX_ORDER,
    ensures
        manifold(sphere_level(order).1),
    decreases order,
{
    if order <= 0 {
        lemma_base_manifold();
    } else {
        lemma_sphere_manifold(order - 1);
        lemma_sphere_level_wf(order - 1);
        let prev = sphere_level(order - 1);
        lemma_sub_out_manifold(prev.0, prev.1);
    }
}

/// The closed-form icosphere vertex count: twelve base vertices plus one
/// midpoint per edge of every level, `10 * 4^order + 2` in all.
pub proof fn lemma_sphere_vertex_count(order: int)
    requires
        0 <= order <= MAX_ORDER,
    ensures
        sphere_level(order).0 as int == 10 * pow4(order as nat) + 2,
    decreases order,
{
    if order > 0 {
        lemma_sphere_vertex_count(order - 1);
        lemma_sphere_manifold(order - 1);
        lemma_sphere_level_wf(order - 1);
        lemma_sphere_level_wf(order);
        let prev = sphere_level(order - 1);
        lemma_manifold_edge_count(prev.1);
        let pairs = edges_after(prev.1, prev.1.len() as int / 3);
        assert(2 * pairs.len() == 60 * pow4((order - 1) as nat));
        assert(sphere_level(order).2.len() == prev.2.len() + pairs.len());
        assert(pow4(order as nat) == 4 * pow4((order - 1) as nat));
    }
}

} // verus!
