//! Icosphere topology: the base icosahedron connectivity and its recursive
//! subdivision.
//!
//! A mesh is a vertex count together with a triangle list: a flat sequence
//! of vertex indices, three per counter-clockwise triangle. Subdividing
//! replaces each triangle by four, creating one midpoint vertex per distinct
//! unordered edge — a shared edge yields the same midpoint for both
//! triangles. Vertex coordinates are not computed here; instead each new
//! vertex carries the pair of parent vertices it is the midpoint of, so a
//! rendering layer can realize positions in its own number format: start
//! from the twelve golden-ratio icosahedron vertices, append the average of
//! the two parents for each midpoint in order, and finally project every
//! vertex onto the unit sphere (only once, at the end).

use crate::edges::{
    edge_slot, first_index, lemma_first_index_in_range, lemma_first_index_prefix,
    lemma_first_index_push_new, lemma_record_edge_contains, lemma_record_edge_nodup, nodup,
    record_edge, upair, EdgeCache,
};
use vstd::prelude::*;

verus! {

/// The largest subdivision order `icosphere` accepts: it keeps every vertex
/// index within `u32` with room to spare, and the triangle count at order
/// twelve is already beyond a billion.
pub const MAX_ORDER: u32 = 12;

/// The fixed 20-triangle connectivity of the base icosahedron over its 12
/// vertices, with consistent winding.
pub open spec fn base_triangle_indices() -> Seq<u32> {
    seq![
        0u32, 11, 5, 0, 5, 1, 0, 1, 7, 0, 7, 10, 0, 10, 11, 11, 10, 2, 5, 11, 4, 1, 5, 9, 7, 1, 8,
        10, 7, 6, 3, 9, 4, 3, 4, 2, 3, 2, 6, 3, 6, 8, 3, 8, 9, 9, 8, 1, 4, 9, 5, 2, 4, 11, 6, 2,
        10, 8, 6, 7,
    ]
}

/// The distinct unordered edges of the first `k` triangles of `tris`, as
/// canonical pairs in first-seen order: each triangle contributes its three
/// edges in the order first-second, second-third, third-first.
pub open spec fn edges_after(tris: Seq<u32>, k: int) -> Seq<(u32, u32)>
    decreases k,
{
    if k <= 0 {
        Seq::empty()
    } else {
        let s = edges_after(tris, k - 1);
        let v1 = tris[3 * (k - 1)];
        let v2 = tris[3 * (k - 1) + 1];
        let v3 = tris[3 * (k - 1) + 2];
        record_edge(record_edge(record_edge(s, upair(v1, v2)), upair(v2, v3)), upair(v3, v1))
    }
}

/// The subdivided triangle list of the first `k` triangles of `tris`, over a
/// mesh of `nv` vertices. The midpoint of an edge gets vertex index `nv`
/// plus the slot the edge occupies in the first-seen edge list; triangle
/// `(v1, v2, v3)` with edge midpoints `a`, `b`, `c` becomes the four
/// triangles `(v1, a, c)`, `(v2, b, a)`, `(v3, c, b)`, `(a, b, c)`.
pub open spec fn sub_out(nv: u32, tris: Seq<u32>, k: int) -> Seq<u32>
    decreases k,
{
    if k <= 0 {
        Seq::empty()
    } else {
        let prev = sub_out(nv, tris, k - 1);
        let s0 = edges_after(tris, k - 1);
        let v1 = tris[3 * (k - 1)];
        let v2 = tris[3 * (k - 1) + 1];
        let v3 = tris[3 * (k - 1) + 2];
        let a = (nv + edge_slot(s0, upair(v1, v2))) as u32;
        let s1 = record_edge(s0, upair(v1, v2));
        let b = (nv + edge_slot(s1, upair(v2, v3))) as u32;
        let s2 = record_edge(s1, upair(v2, v3));
        let c = (nv + edge_slot(s2, upair(v3, v1))) as u32;
        prev + seq![v1, a, c, v2, b, a, v3, c, b, a, b, c]
    }
}

/// The canonical pair of edge `e` of the triangle list: triangle `e / 3`
/// contributes its first-second, second-third and third-first edges as
/// `e % 3` runs over 0, 1, 2.
pub open spec fn tri_edge(tris: Seq<u32>, e: int) -> (u32, u32) {
    let t = e / 3;
    if e % 3 == 0 {
        upair(tris[3 * t], tris[3 * t + 1])
    } else if e % 3 == 1 {
        upair(tris[3 * t + 1], tris[3 * t + 2])
    } else {
        upair(tris[3 * t + 2], tris[3 * t])
    }
}

pub proof fn lemma_edges_after_len(tris: Seq<u32>, k: int)
    requires
        0 <= k,
    ensures
        edges_after(tris, k).len() <= 3 * k,
        k > 0 ==> edges_after(tris, k - 1).len() <= edges_after(tris, k).len(),
    decreases k,
{
    if k > 0 {
        lemma_edges_after_len(tris, k - 1);
    }
}

/// The first-seen edge list never holds the same unordered pair twice.
pub proof fn lemma_edges_after_nodup(tris: Seq<u32>, k: int)
    ensures
        nodup(edges_after(tris, k)),
    decreases k,
{
    if k > 0 {
        lemma_edges_after_nodup(tris, k - 1);
        let s = edges_after(tris, k - 1);
        let v1 = tris[3 * (k - 1)];
        let v2 = tris[3 * (k - 1) + 1];
        let v3 = tris[3 * (k - 1) + 2];
        lemma_record_edge_nodup(s, upair(v1, v2));
        lemma_record_edge_nodup(record_edge(s, upair(v1, v2)), upair(v2, v3));
        lemma_record_edge_nodup(
            record_edge(record_edge(s, upair(v1, v2)), upair(v2, v3)),
            upair(v3, v1),
        );
    }
}

/// Every recorded pair really is an edge of one of the first `k` triangles.
pub proof fn lemma_edges_after_sound(tris: Seq<u32>, k: int)
    requires
        0 <= k,
    ensures
        forall|p: (u32, u32)|
            edges_after(tris, k).contains(p) ==> exists|e: int|
                0 <= e < 3 * k && tri_edge(tris, e) == p,
    decreases k,
{
    if k > 0 {
        lemma_edges_after_sound(tris, k - 1);
        let s0 = edges_after(tris, k - 1);
        let v1 = tris[3 * (k - 1)];
        let v2 = tris[3 * (k - 1) + 1];
        let v3 = tris[3 * (k - 1) + 2];
        let s1 = record_edge(s0, upair(v1, v2));
        let s2 = record_edge(s1, upair(v2, v3));
        let s3 = record_edge(s2, upair(v3, v1));
        assert forall|p: (u32, u32)| s3.contains(p) implies exists|e: int|
            0 <= e < 3 * k && tri_edge(tris, e) == p by {
            lemma_record_edge_contains(s2, upair(v3, v1), p);
            lemma_record_edge_contains(s1, upair(v2, v3), p);
            lemma_record_edge_contains(s0, upair(v1, v2), p);
            if s0.contains(p) {
            } else if p == upair(v1, v2) {
                assert(tri_edge(tris, 3 * (k - 1)) == p);
            } else if p == upair(v2, v3) {
                assert(tri_edge(tris, 3 * (k - 1) + 1) == p);
            } else {
                assert(tri_edge(tris, 3 * (k - 1) + 2) == p);
            }
        };
    }
}

/// Every edge of the first `k` triangles is recorded.
pub proof fn lemma_edges_after_complete(tris: Seq<u32>, k: int)
    requires
        0 <= k,
    ensures
        forall|e: int| 0 <= e < 3 * k ==> edges_after(tris, k).contains(#[trigger] tri_edge(tris, e)),
    decreases k,
{
    if k > 0 {
        lemma_edges_after_complete(tris, k - 1);
        let s0 = edges_after(tris, k - 1);
        let v1 = tris[3 * (k - 1)];
        let v2 = tris[3 * (k - 1) + 1];
        let v3 = tris[3 * (k - 1) + 2];
        let s1 = record_edge(s0, upair(v1, v2));
        let s2 = record_edge(s1, upair(v2, v3));
        let s3 = record_edge(s2, upair(v3, v1));
        assert forall|e: int| 0 <= e < 3 * k implies s3.contains(#[trigger] tri_edge(tris, e)) by {
            if e < 3 * (k - 1) {
                lemma_record_edge_contains(s0, upair(v1, v2), tri_edge(tris, e));
                lemma_record_edge_contains(s1, upair(v2, v3), tri_edge(tris, e));
                lemma_record_edge_contains(s2, upair(v3, v1), tri_edge(tris, e));
            } else {
                lemma_record_edge_contains(s0, upair(v1, v2), upair(v1, v2));
                lemma_record_edge_contains(s1, upair(v2, v3), upair(v1, v2));
                lemma_record_edge_contains(s1, upair(v2, v3), upair(v2, v3));
                lemma_record_edge_contains(s2, upair(v3, v1), upair(v1, v2));
                lemma_record_edge_contains(s2, upair(v3, v1), upair(v2, v3));
                lemma_record_edge_contains(s2, upair(v3, v1), upair(v3, v1));
                if e == 3 * (k - 1) {
                    assert(tri_edge(tris, e) == upair(v1, v2));
                } else if e == 3 * (k - 1) + 1 {
                    assert(tri_edge(tris, e) == upair(v2, v3));
                } else {
                    assert(tri_edge(tris, e) == upair(v3, v1));
                }
            }
        };
    }
}

pub proof fn lemma_sub_out_len(nv: u32, tris: Seq<u32>, k: int)
    requires
        0 <= k,
    ensures
        sub_out(nv, tris, k).len() == 12 * k,
    decreases k,
{
    if k > 0 {
        lemma_sub_out_len(nv, tris, k - 1);
    }
}

/// Every index of the subdivided list stays below the new vertex count:
/// the old count plus one vertex per recorded edge.
pub proof fn lemma_sub_out_bounds(nv: u32, tris: Seq<u32>, k: int)
    requires
        0 <= k,
        3 * k <= tris.len(),
        forall|i: int| 0 <= i < tris.len() ==> tris[i] < nv,
        nv + 3 * k <= u32::MAX,
    ensures
        forall|i: int|
            0 <= i < sub_out(nv, tris, k).len() ==> (#[trigger] sub_out(nv, tris, k)[i] as int) < nv
                + edges_after(tris, k).len(),
    decreases k,
{
    if k > 0 {
        lemma_sub_out_bounds(nv, tris, k - 1);
        lemma_edges_after_len(tris, k - 1);
        let s0 = edges_after(tris, k - 1);
        let v1 = tris[3 * (k - 1)];
        let v2 = tris[3 * (k - 1) + 1];
        let v3 = tris[3 * (k - 1) + 2];
        let s1 = record_edge(s0, upair(v1, v2));
        let s2 = record_edge(s1, upair(v2, v3));
        let s3 = record_edge(s2, upair(v3, v1));
        assert(edges_after(tris, k) == s3);
        if s0.contains(upair(v1, v2)) {
            lemma_first_index_in_range(s0, upair(v1, v2));
        }
        if s1.contains(upair(v2, v3)) {
            lemma_first_index_in_range(s1, upair(v2, v3));
        }
        if s2.contains(upair(v3, v1)) {
            lemma_first_index_in_range(s2, upair(v3, v1));
        }
        let prev = sub_out(nv, tris, k - 1);
        assert forall|i: int|
            0 <= i < sub_out(nv, tris, k).len() implies (#[trigger] sub_out(nv, tris, k)[i] as int)
            < nv + s3.len() by {
            if i < prev.len() {
                assert(sub_out(nv, tris, k)[i] == prev[i]);
            }
        };
    }
}

/// In the subdivided list, the second and third vertex of every triangle are
/// midpoint vertices: their index is at least the old vertex count. (The
/// four children of `(v1, v2, v3)` are `(v1, a, c)`, `(v2, b, a)`,
/// `(v3, c, b)`, `(a, b, c)`: only the leading slot can hold an old vertex.)
pub proof fn lemma_sub_out_new_vertices(nv: u32, tris: Seq<u32>, k: int)
    requires
        0 <= k,
        3 * k <= tris.len(),
        nv + 3 * k <= u32::MAX,
    ensures
        forall|t: int|
            0 <= t < 4 * k ==> (#[trigger] sub_out(nv, tris, k)[3 * t + 1] as int) >= nv && (sub_out(
                nv,
                tris,
                k,
            )[3 * t + 2] as int) >= nv,
    decreases k,
{
    if k > 0 {
        lemma_sub_out_new_vertices(nv, tris, k - 1);
        lemma_sub_out_len(nv, tris, k - 1);
        lemma_edges_after_len(tris, k - 1);
        let s0 = edges_after(tris, k - 1);
        let v1 = tris[3 * (k - 1)];
        let v2 = tris[3 * (k - 1) + 1];
        let v3 = tris[3 * (k - 1) + 2];
        let s1 = record_edge(s0, upair(v1, v2));
        let s2 = record_edge(s1, upair(v2, v3));
        if s0.contains(upair(v1, v2)) {
            lemma_first_index_in_range(s0, upair(v1, v2));
        }
        if s1.contains(upair(v2, v3)) {
            lemma_first_index_in_range(s1, upair(v2, v3));
        }
        if s2.contains(upair(v3, v1)) {
            lemma_first_index_in_range(s2, upair(v3, v1));
        }
        let prev = sub_out(nv, tris, k - 1);
        assert forall|t: int|
            0 <= t < 4 * k implies (#[trigger] sub_out(nv, tris, k)[3 * t + 1] as int) >= nv && (
            sub_out(nv, tris, k)[3 * t + 2] as int) >= nv by {
            if t < 4 * (k - 1) {
                assert(sub_out(nv, tris, k)[3 * t + 1] == prev[3 * t + 1]);
                assert(sub_out(nv, tris, k)[3 * t + 2] == prev[3 * t + 2]);
            } else {
                assert(3 * t + 2 < 12 * k);
            }
        };
    }
}

/// Each round of edge recording extends the list in place: the list after
/// fewer triangles is a prefix of the list after more.
pub proof fn lemma_edges_after_prefix(tris: Seq<u32>, k1: int, k2: int)
    requires
        0 <= k1 <= k2,
    ensures
        edges_after(tris, k1).len() <= edges_after(tris, k2).len(),
        edges_after(tris, k1) == edges_after(tris, k2).take(edges_after(tris, k1).len() as int),
    decreases k2,
{
    let d = edges_after(tris, k1);
    if k1 == k2 {
        assert(d =~= edges_after(tris, k2).take(d.len() as int));
    } else {
        lemma_edges_after_prefix(tris, k1, k2 - 1);
        let s0 = edges_after(tris, k2 - 1);
        let v1 = tris[3 * (k2 - 1)];
        let v2 = tris[3 * (k2 - 1) + 1];
        let v3 = tris[3 * (k2 - 1) + 2];
        let s1 = record_edge(s0, upair(v1, v2));
        let s2 = record_edge(s1, upair(v2, v3));
        let s3 = record_edge(s2, upair(v3, v1));
        lemma_record_edge_contains(s0, upair(v1, v2), upair(v1, v2));
        lemma_record_edge_contains(s1, upair(v2, v3), upair(v2, v3));
        lemma_record_edge_contains(s2, upair(v3, v1), upair(v3, v1));
        assert(s0 =~= s3.take(s0.len() as int));
        assert(d =~= s3.take(d.len() as int));
    }
}

/// The slot a recording step hands out, read off the finished list: once
/// the step's result is a prefix of `fin`, the slot is the pair's first
/// occurrence in `fin`.
proof fn lemma_slot_in_final(s: Seq<(u32, u32)>, fin: Seq<(u32, u32)>, p: (u32, u32))
    requires
        record_edge(s, p).len() <= fin.len(),
        record_edge(s, p) == fin.take(record_edge(s, p).len() as int),
    ensures
        fin.contains(p),
        edge_slot(s, p) == first_index(fin, p),
{
    lemma_record_edge_contains(s, p, p);
    if s.contains(p) {
        assert(s =~= fin.take(s.len() as int));
        lemma_first_index_prefix(s, fin, p);
    } else {
        lemma_first_index_push_new(s, p);
        lemma_first_index_prefix(s.push(p), fin, p);
    }
}

/// The twelve indices that triangle `t` contributes to the subdivided
/// mesh, with every midpoint resolved in the finished edge list `fin`.
pub open spec fn child_block(nv: u32, tris: Seq<u32>, fin: Seq<(u32, u32)>, t: int) -> Seq<u32> {
    let v1 = tris[3 * t];
    let v2 = tris[3 * t + 1];
    let v3 = tris[3 * t + 2];
    let a = (nv + first_index(fin, upair(v1, v2))) as u32;
    let b = (nv + first_index(fin, upair(v2, v3))) as u32;
    let c = (nv + first_index(fin, upair(v3, v1))) as u32;
    seq![v1, a, c, v2, b, a, v3, c, b, a, b, c]
}

/// What subdivision makes of each input triangle, stated against the
/// finished edge list rather than the order of the walk: triangle `t`,
/// with vertices `(v1, v2, v3)`, becomes exactly the four children of
/// `child_block`, and the midpoint vertex of an edge is the old vertex
/// count plus that edge's slot in the finished first-seen list. The slot —
/// and so the vertex — depends on the unordered pair alone, so two
/// triangles sharing an edge resolve it to the identical midpoint vertex,
/// however far apart the walk visits them: the mesh cannot crack along a
/// shared edge.
pub proof fn lemma_sub_out_children(nv: u32, tris: Seq<u32>, k: int)
    requires
        0 <= k,
        3 * k <= tris.len(),
    ensures
        forall|t: int|
            0 <= t < k ==> sub_out(nv, tris, k).subrange(12 * t, 12 * t + 12) == #[trigger] child_block(
                nv,
                tris,
                edges_after(tris, k),
                t,
            ),
    decreases k,
{
    if k > 0 {
        lemma_sub_out_children(nv, tris, k - 1);
        lemma_sub_out_len(nv, tris, k - 1);
        let prev = sub_out(nv, tris, k - 1);
        let s0 = edges_after(tris, k - 1);
        let v1 = tris[3 * (k - 1)];
        let v2 = tris[3 * (k - 1) + 1];
        let v3 = tris[3 * (k - 1) + 2];
        let s1 = record_edge(s0, upair(v1, v2));
        let s2 = record_edge(s1, upair(v2, v3));
        let s3 = record_edge(s2, upair(v3, v1));
        assert(edges_after(tris, k) == s3);
        lemma_record_edge_contains(s0, upair(v1, v2), upair(v1, v2));
        lemma_record_edge_contains(s1, upair(v2, v3), upair(v2, v3));
        lemma_record_edge_contains(s2, upair(v3, v1), upair(v3, v1));
        assert(s1 =~= s3.take(s1.len() as int));
        assert(s2 =~= s3.take(s2.len() as int));
        assert(s3 =~= s3.take(s3.len() as int));
        lemma_slot_in_final(s0, s3, upair(v1, v2));
        lemma_slot_in_final(s1, s3, upair(v2, v3));
        lemma_slot_in_final(s2, s3, upair(v3, v1));
        lemma_edges_after_complete(tris, k - 1);
        lemma_edges_after_prefix(tris, k - 1, k);
        assert forall|t: int|
            0 <= t < k implies sub_out(nv, tris, k).subrange(12 * t, 12 * t + 12) == child_block(
            nv,
            tris,
            s3,
            t,
        ) by {
            if t < k - 1 {
                assert(prev.subrange(12 * t, 12 * t + 12) == child_block(nv, tris, s0, t));
                assert(sub_out(nv, tris, k).subrange(12 * t, 12 * t + 12) =~= prev.subrange(
                    12 * t,
                    12 * t + 12,
                ));
                assert(tri_edge(tris, 3 * t) == upair(tris[3 * t], tris[3 * t + 1]));
                assert(tri_edge(tris, 3 * t + 1) == upair(tris[3 * t + 1], tris[3 * t + 2]));
                assert(tri_edge(tris, 3 * t + 2) == upair(tris[3 * t + 2], tris[3 * t]));
                assert(s0.contains(upair(tris[3 * t], tris[3 * t + 1])));
                assert(s0.contains(upair(tris[3 * t + 1], tris[3 * t + 2])));
                assert(s0.contains(upair(tris[3 * t + 2], tris[3 * t])));
                lemma_first_index_prefix(s0, s3, upair(tris[3 * t], tris[3 * t + 1]));
                lemma_first_index_prefix(s0, s3, upair(tris[3 * t + 1], tris[3 * t + 2]));
                lemma_first_index_prefix(s0, s3, upair(tris[3 * t + 2], tris[3 * t]));
                assert(child_block(nv, tris, s0, t) =~= child_block(nv, tris, s3, t));
            } else {
                assert(sub_out(nv, tris, k).subrange(12 * t, 12 * t + 12) =~= child_block(
                    nv,
                    tris,
                    s3,
                    t,
                ));
            }
        };
    }
}

/// One subdivision step. Returns the midpoint plan — one canonical parent
/// pair per new vertex, in creation order — and the new triangle list.
/// New vertex `num_vertices + j` is the midpoint of the pair at slot `j`.
pub fn subdivide(num_vertices: u32, triangles: &Vec<u32>) -> (r: (Vec<(u32, u32)>, Vec<u32>))
    requires
        triangles@.len() % 3 == 0,
        forall|i: int| 0 <= i < triangles@.len() ==> triangles@[i] < num_vertices,
        num_vertices + triangles@.len() <= u32::MAX,
    ensures
        r.0@ == edges_after(triangles@, triangles@.len() as int / 3),
        r.1@ == sub_out(num_vertices, triangles@, triangles@.len() as int / 3),
{
    let ghost t = triangles@;
    let n = triangles.len() / 3;
    let mut cache = EdgeCache::new();
    let mut out: Vec<u32> = Vec::new();
    let mut k: usize = 0;
    while k < n
        invariant
            t == triangles@,
            t.len() % 3 == 0,
            n == t.len() / 3,
            forall|i: int| 0 <= i < t.len() ==> t[i] < num_vertices,
            num_vertices + t.len() <= u32::MAX,
            k <= n,
            cache.wf(),
            cache@ == edges_after(t, k as int),
            cache@.len() <= 3 * k,
            out@ == sub_out(num_vertices, t, k as int),
        decreases n - k,
    {
        let v1 = triangles[3 * k];
        let v2 = triangles[3 * k + 1];
        let v3 = triangles[3 * k + 2];
        let a_slot = cache.record(v1, v2);
        let b_slot = cache.record(v2, v3);
        let c_slot = cache.record(v3, v1);
        let a = num_vertices + a_slot as u32;
        let b = num_vertices + b_slot as u32;
        let c = num_vertices + c_slot as u32;
        out.push(v1);
        out.push(a);
        out.push(c);
        out.push(v2);
        out.push(b);
        out.push(a);
        out.push(v3);
        out.push(c);
        out.push(b);
        out.push(a);
        out.push(b);
        out.push(c);
        proof {
            let kk = k as int + 1;
            assert(cache@ == edges_after(t, kk));
            let s0 = edges_after(t, kk - 1);
            let s1 = record_edge(s0, upair(t[3 * (kk - 1)], t[3 * (kk - 1) + 1]));
            let s2 = record_edge(s1, upair(t[3 * (kk - 1) + 1], t[3 * (kk - 1) + 2]));
            assert(out@ =~= sub_out(num_vertices, t, kk - 1) + seq![
                t[3 * (kk - 1)],
                (num_vertices + edge_slot(s0, upair(t[3 * (kk - 1)], t[3 * (kk - 1) + 1]))) as u32,
                (num_vertices + edge_slot(
                    s2,
                    upair(t[3 * (kk - 1) + 2], t[3 * (kk - 1)]),
                )) as u32,
                t[3 * (kk - 1) + 1],
                (num_vertices + edge_slot(
                    s1,
                    upair(t[3 * (kk - 1) + 1], t[3 * (kk - 1) + 2]),
                )) as u32,
                (num_vertices + edge_slot(s0, upair(t[3 * (kk - 1)], t[3 * (kk - 1) + 1]))) as u32,
                t[3 * (kk - 1) + 2],
                (num_vertices + edge_slot(
                    s2,
                    upair(t[3 * (kk - 1) + 2], t[3 * (kk - 1)]),
                )) as u32,
                (num_vertices + edge_slot(
                    s1,
                    upair(t[3 * (kk - 1) + 1], t[3 * (kk - 1) + 2]),
                )) as u32,
                (num_vertices + edge_slot(s0, upair(t[3 * (kk - 1)], t[3 * (kk - 1) + 1]))) as u32,
                (num_vertices + edge_slot(
                    s1,
                    upair(t[3 * (kk - 1) + 1], t[3 * (kk - 1) + 2]),
                )) as u32,
                (num_vertices + edge_slot(
                    s2,
                    upair(t[3 * (kk - 1) + 2], t[3 * (kk - 1)]),
                )) as u32,
            ]);
            assert(out@ == sub_out(num_vertices, t, kk));
        }
        k = k + 1;
    }
    (cache.into_pairs(), out)
}

pub open spec fn pow4(n: nat) -> nat
    decreases n,
{
    if n <= 0 {
        1
    } else {
        4 * pow4((n - 1) as nat)
    }
}

pub proof fn lemma_pow4_mono(a: nat, b: nat)
    requires
        a <= b,
    ensures
        pow4(a) <= pow4(b),
    decreases b,
{
    if a < b {
        lemma_pow4_mono(a, (b - 1) as nat);
    }
}

/// The icosphere mesh at a subdivision order: vertex count, triangle list,
/// and the accumulated midpoint plan across all rounds. Order zero is the
/// base icosahedron itself.
pub open spec fn sphere_level(order: int) -> (u32, Seq<u32>, Seq<(u32, u32)>)
    decreases order,
{
    if order <= 0 {
        (12u32, base_triangle_indices(), Seq::<(u32, u32)>::empty())
    } else {
        let prev = sphere_level(order - 1);
        let k = prev.1.len() as int / 3;
        let pairs = edges_after(prev.1, k);
        (((prev.0 + pairs.len()) as u32), sub_out(prev.0, prev.1, k), prev.2 + pairs)
    }
}

/// The vertex count of the round before `order`: every midpoint pair known
/// at `order` joins vertices that already existed then.
pub open spec fn prev_count(order: int) -> int {
    if order <= 0 {
        12
    } else {
        sphere_level(order - 1).0 as int
    }
}

/// Every recorded pair is canonical and joins vertices of the mesh.
pub proof fn lemma_edges_after_canonical(tris: Seq<u32>, k: int, nv: u32)
    requires
        0 <= k,
        3 * k <= tris.len(),
        forall|i: int| 0 <= i < tris.len() ==> tris[i] < nv,
    ensures
        forall|j: int|
            0 <= j < edges_after(tris, k).len() ==> (#[trigger] edges_after(tris, k)[j]).0
                <= edges_after(tris, k)[j].1 && (edges_after(tris, k)[j].1 as int) < nv,
{
    lemma_edges_after_sound(tris, k);
    let pairs = edges_after(tris, k);
    assert forall|j: int| 0 <= j < pairs.len() implies (#[trigger] pairs[j]).0 <= pairs[j].1 && (
    pairs[j].1 as int) < nv by {
        assert(pairs.contains(pairs[j]));
        let e = choose|e: int| 0 <= e < 3 * k && tri_edge(tris, e) == pairs[j];
        assert(0 <= 3 * (e / 3) && 3 * (e / 3) + 2 < tris.len());
    };
}

/// Every edge of a subdivided mesh touches a midpoint vertex: its larger
/// endpoint is at least the vertex count of the mesh that was subdivided.
pub proof fn lemma_subdivided_edges_high(nv: u32, tris: Seq<u32>, k: int, k2: int)
    requires
        0 <= k,
        3 * k <= tris.len(),
        nv + 3 * k <= u32::MAX,
        0 <= k2,
        3 * k2 <= sub_out(nv, tris, k).len(),
    ensures
        forall|j: int|
            0 <= j < edges_after(sub_out(nv, tris, k), k2).len() ==> ((#[trigger] edges_after(
                sub_out(nv, tris, k),
                k2,
            )[j]).1 as int) >= nv,
{
    lemma_sub_out_new_vertices(nv, tris, k);
    lemma_sub_out_len(nv, tris, k);
    lemma_edges_after_sound(sub_out(nv, tris, k), k2);
    let sub = sub_out(nv, tris, k);
    let pairs = edges_after(sub, k2);
    assert forall|j: int| 0 <= j < pairs.len() implies ((#[trigger] pairs[j]).1 as int) >= nv by {
        assert(pairs.contains(pairs[j]));
        let e = choose|e: int| 0 <= e < 3 * k2 && tri_edge(sub, e) == pairs[j];
        let t = e / 3;
        assert(0 <= t < 4 * k);
        assert((sub[3 * t + 1] as int) >= nv && (sub[3 * t + 2] as int) >= nv);
    };
}

/// Appending pairs that reach strictly higher vertices than everything
/// already planned keeps the plan duplicate-free.
proof fn lemma_concat_nodup(mids: Seq<(u32, u32)>, pairs: Seq<(u32, u32)>, bound: int)
    requires
        nodup(mids),
        nodup(pairs),
        forall|j: int| 0 <= j < mids.len() ==> ((#[trigger] mids[j]).1 as int) < bound,
        forall|j: int| 0 <= j < pairs.len() ==> ((#[trigger] pairs[j]).1 as int) >= bound,
    ensures
        nodup(mids + pairs),
{
    let l = mids + pairs;
    assert forall|j1: int, j2: int| 0 <= j1 < j2 < l.len() implies l[j1] != l[j2] by {
        if j2 < mids.len() {
            assert(l[j1] == mids[j1] && l[j2] == mids[j2]);
        } else if j1 >= mids.len() {
            assert(l[j1] == pairs[j1 - mids.len()] && l[j2] == pairs[j2 - mids.len()]);
        } else {
            assert(l[j1] == mids[j1] && l[j2] == pairs[j2 - mids.len()]);
        }
    };
}

/// Everything that holds of the mesh at each order up to `MAX_ORDER`:
/// triangle count quadruples each round, every index is in range, the
/// vertex count is twelve plus one vertex per midpoint pair, each pair is
/// canonical with parents that precede the vertex it creates, and no
/// unordered pair is ever given two midpoint vertices.
pub proof fn lemma_sphere_level_wf(order: int)
    requires
        0 <= order <= MAX_ORDER,
    ensures
        sphere_level(order).1.len() == 60 * pow4(order as nat),
        sphere_level(order).1.len() % 3 == 0,
        sphere_level(order).0 as int == 12 + sphere_level(order).2.len(),
        sphere_level(order).0 as int <= 20 * pow4(order as nat) - 8,
        sphere_level(order).0 as int + sphere_level(order).1.len() <= u32::MAX,
        forall|i: int|
            0 <= i < sphere_level(order).1.len() ==> (#[trigger] sphere_level(order).1[i] as int)
                < sphere_level(order).0,
        forall|j: int|
            0 <= j < sphere_level(order).2.len() ==> (#[trigger] sphere_level(order).2[j]).0
                <= sphere_level(order).2[j].1 && (sphere_level(order).2[j].1 as int) < prev_count(
                order,
            ) && (sphere_level(order).2[j].1 as int) < 12 + j,
        nodup(sphere_level(order).2),
    decreases order,
{
    assert(pow4(12) == 16777216) by {
        reveal_with_fuel(pow4, 13);
    };
    lemma_pow4_mono(order as nat, 12);
    if order <= 0 {
        assert(base_triangle_indices().len() == 60);
        assert(forall|i: int|
            0 <= i < 60 ==> (#[trigger] base_triangle_indices()[i] as int) < 12);
    } else {
        lemma_sphere_level_wf(order - 1);
        lemma_pow4_mono((order - 1) as nat, 11);
        let prev = sphere_level(order - 1);
        let nv = prev.0;
        let tris = prev.1;
        let mids = prev.2;
        let k = tris.len() as int / 3;
        let pairs = edges_after(tris, k);
        assert(3 * k == tris.len());
        lemma_edges_after_len(tris, k);
        lemma_edges_after_nodup(tris, k);
        lemma_edges_after_sound(tris, k);
        lemma_sub_out_len(nv, tris, k);
        lemma_sub_out_bounds(nv, tris, k);
        let l = sphere_level(order);
        assert(l.1.len() == 12 * k);
        assert(60 * pow4(order as nat) == 4 * (60 * pow4((order - 1) as nat)));
        lemma_edges_after_canonical(tris, k, nv);

        // the accumulated plan stays duplicate-free across rounds: pairs of
        // this round join vertices born before it, and every pair already
        // planned keeps below that generation
        if order >= 2 {
            let prev2 = sphere_level(order - 2);
            lemma_sphere_level_wf(order - 2);
            assert(tris == sub_out(prev2.0, prev2.1, prev2.1.len() as int / 3));
            lemma_subdivided_edges_high(prev2.0, prev2.1, prev2.1.len() as int / 3, k);
            lemma_concat_nodup(mids, pairs, prev2.0 as int);
        } else {
            assert(mids =~= Seq::<(u32, u32)>::empty());
            lemma_concat_nodup(mids, pairs, 0);
        }

        assert forall|j: int| 0 <= j < l.2.len() implies (#[trigger] l.2[j]).0 <= l.2[j].1 && (
        l.2[j].1 as int) < prev_count(order) && (l.2[j].1 as int) < 12 + j by {
            if j < mids.len() {
                assert(l.2[j] == mids[j]);
                assert(prev_count(order - 1) <= prev_count(order));
            } else {
                assert(l.2[j] == pairs[j - mids.len()]);
            }
        };
    }
}

/// The topology of an icosphere: the triangle index list of the subdivided
/// mesh and the plan for realizing its vertex positions. Vertices `0` to
/// `11` are the base icosahedron corners; vertex `num_vertices() > j >= 12`
/// is the midpoint of the two earlier vertices in `midpoints[j - 12]`.
pub struct SphereTopology {
    /// Total vertex count of the mesh.
    pub num_vertices: u32,
    /// Flat triangle list, three vertex indices per triangle.
    pub indices: Vec<u32>,
    /// One canonical parent pair per midpoint vertex, in creation order.
    pub midpoints: Vec<(u32, u32)>,
}

/// The fixed 20-triangle index list of the base icosahedron.
pub fn base_triangles() -> (r: Vec<u32>)
    ensures
        r@ == base_triangle_indices(),
{
    let r: Vec<u32> = vec![
        0u32, 11, 5, 0, 5, 1, 0, 1, 7, 0, 7, 10, 0, 10, 11, 11, 10, 2, 5, 11, 4, 1, 5, 9, 7, 1, 8,
        10, 7, 6, 3, 9, 4, 3, 4, 2, 3, 2, 6, 3, 6, 8, 3, 8, 9, 9, 8, 1, 4, 9, 5, 2, 4, 11, 6, 2,
        10, 8, 6, 7,
    ];
    proof {
        assert(r@ =~= base_triangle_indices());
    }
    r
}

/// Builds the icosphere topology at the given subdivision order: the base
/// icosahedron subdivided `order` times, with one midpoint vertex per
/// distinct unordered edge per round, and no position arithmetic — the
/// midpoint plan records how each vertex is derived instead.
pub fn icosphere(order: u32) -> (r: SphereTopology)
    requires
        order <= MAX_ORDER,
    ensures
        r.num_vertices == sphere_level(order as int).0,
        r.indices@ == sphere_level(order as int).1,
        r.midpoints@ == sphere_level(order as int).2,
        r.indices@.len() == 60 * pow4(order as nat),
        r.num_vertices as int == 10 * pow4(order as nat) + 2,
        r.num_vertices as int == 12 + r.midpoints@.len(),
        forall|i: int|
            0 <= i < r.indices@.len() ==> (#[trigger] r.indices@[i] as int) < r.num_vertices,
        forall|j: int|
            0 <= j < r.midpoints@.len() ==> (#[trigger] r.midpoints@[j]).0 <= r.midpoints@[j].1 && (
            r.midpoints@[j].1 as int) < 12 + j,
        nodup(r.midpoints@),
{
    let mut nv: u32 = 12;
    let mut tris: Vec<u32> = base_triangles();
    let mut mids: Vec<(u32, u32)> = Vec::new();
    let mut i: u32 = 0;
    while i < order
        invariant
            i <= order,
            order <= MAX_ORDER,
            nv == sphere_level(i as int).0,
            tris@ == sphere_level(i as int).1,
            mids@ == sphere_level(i as int).2,
        decreases order - i,
    {
        proof {
            lemma_sphere_level_wf(i as int);
            lemma_edges_after_len(tris@, tris@.len() as int / 3);
        }
        let step = subdivide(nv, &tris);
        let mut pairs = step.0;
        tris = step.1;
        nv = nv + pairs.len() as u32;
        mids.append(&mut pairs);
        i = i + 1;
    }
    proof {
        lemma_sphere_level_wf(order as int);
        crate::counting::lemma_sphere_vertex_count(order as int);
    }
    SphereTopology { num_vertices: nv, indices: tris, midpoints: mids }
}

} // verus!
