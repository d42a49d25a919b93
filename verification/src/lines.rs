//! Wireframe edge list: one undirected line segment per distinct edge of a
//! triangle list.
//!
//! Two adjacent triangles name their shared edge in opposite directions;
//! rendering both would draw the line twice. The pair of endpoints is
//! canonicalized and deduplicated with the same first-seen technique the
//! subdivision uses, so each undirected edge appears exactly once, in the
//! order the walk over the triangles first meets it.

use crate::edges::{nodup, upair, EdgeCache};
use crate::mesh::{edges_after, lemma_edges_after_complete, lemma_edges_after_nodup,
    lemma_edges_after_sound, tri_edge};
use vstd::prelude::*;

verus! {

/// The distinct undirected edges of the whole triangle list, canonical and
/// in first-seen order.
pub open spec fn line_pairs(tris: Seq<u32>) -> Seq<(u32, u32)> {
    edges_after(tris, tris.len() as int / 3)
}

/// The flat endpoint list of a pair sequence: both endpoints of each pair,
/// smaller first, pair after pair.
pub open spec fn pair_flatten(s: Seq<(u32, u32)>) -> Seq<u32> {
    Seq::new(
        2 * s.len(),
        |i: int|
            if i % 2 == 0 {
                s[i / 2].0
            } else {
                s[i / 2].1
            },
    )
}

/// The undirected edges of a triangle list are exactly the deduplicated
/// canonical pairs of its triangles' edges: no pair appears twice, every
/// listed pair is an edge of some triangle, and every triangle edge is
/// listed.
pub proof fn lemma_line_pairs_are_the_edges(tris: Seq<u32>)
    ensures
        nodup(line_pairs(tris)),
        forall|p: (u32, u32)|
            line_pairs(tris).contains(p) ==> p.0 <= p.1 && exists|e: int|
                0 <= e < 3 * (tris.len() as int / 3) && tri_edge(tris, e) == p,
        forall|e: int|
            0 <= e < 3 * (tris.len() as int / 3) ==> line_pairs(tris).contains(
                #[trigger] tri_edge(tris, e),
            ),
{
    let k = tris.len() as int / 3;
    lemma_edges_after_nodup(tris, k);
    lemma_edges_after_sound(tris, k);
    lemma_edges_after_complete(tris, k);
    assert forall|p: (u32, u32)| line_pairs(tris).contains(p) implies p.0 <= p.1 && exists|e: int|
        0 <= e < 3 * k && tri_edge(tris, e) == p by {
        let e = choose|e: int| 0 <= e < 3 * k && tri_edge(tris, e) == p;
        assert(tri_edge(tris, e) == p);
    };
}

/// Builds the wireframe index list of a triangle list: the two endpoints of
/// each distinct undirected edge, smaller index first, in the order the
/// edges are first encountered.
pub fn compute_line_list(triangle_list: Vec<u32>) -> (r: Vec<u32>)
    requires
        triangle_list@.len() % 3 == 0,
        triangle_list@.len() <= u32::MAX,
    ensures
        r@ == pair_flatten(line_pairs(triangle_list@)),
{
    let ghost t = triangle_list@;
    let n = triangle_list.len() / 3;
    let mut cache = EdgeCache::new();
    let mut k: usize = 0;
    while k < n
        invariant
            t == triangle_list@,
            t.len() % 3 == 0,
            t.len() <= u32::MAX,
            n == t.len() / 3,
            k <= n,
            cache.wf(),
            cache@ == edges_after(t, k as int),
            cache@.len() <= 3 * k,
        decreases n - k,
    {
        let v1 = triangle_list[3 * k];
        let v2 = triangle_list[3 * k + 1];
        let v3 = triangle_list[3 * k + 2];
        cache.record(v1, v2);
        cache.record(v2, v3);
        cache.record(v3, v1);
        k = k + 1;
    }
    let pairs = cache.into_pairs();
    let mut r: Vec<u32> = Vec::new();
    let mut j: usize = 0;
    while j < pairs.len()
        invariant
            pairs@ == line_pairs(t),
            j <= pairs@.len(),
            r@.len() == 2 * j,
            forall|i: int|
                0 <= i < j ==> r@[2 * i] == (#[trigger] pairs@[i]).0 && r@[2 * i + 1]
                    == pairs@[i].1,
        decreases pairs@.len() - j,
    {
        let p = pairs[j];
        r.push(p.0);
        r.push(p.1);
        j = j + 1;
    }
    proof {
        assert(r@ =~= pair_flatten(line_pairs(t)));
    }
    r
}

} // verus!
