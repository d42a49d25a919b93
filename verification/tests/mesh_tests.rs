use icosphere::lines::compute_line_list;
use icosphere::mesh::{base_triangles, icosphere, subdivide};
use std::collections::HashSet;

/// Order zero is the base icosahedron: 12 vertices, the fixed 20-triangle
/// connectivity, and no midpoints.
#[test]
fn base_case_is_unmodified() {
    let t = icosphere(0);
    assert_eq!(t.num_vertices, 12);
    assert!(t.midpoints.is_empty());
    let expected: Vec<u32> = vec![
        0, 11, 5, 0, 5, 1, 0, 1, 7, 0, 7, 10, 0, 10, 11, 11, 10, 2, 5, 11, 4, 1, 5, 9, 7, 1, 8,
        10, 7, 6, 3, 9, 4, 3, 4, 2, 3, 2, 6, 3, 6, 8, 3, 8, 9, 9, 8, 1, 4, 9, 5, 2, 4, 11, 6, 2,
        10, 8, 6, 7,
    ];
    assert_eq!(t.indices, expected);
    assert_eq!(base_triangles(), expected);
}

/// The closed-form icosphere counts: `20 * 4^order` triangles and
/// `10 * 4^order + 2` vertices. The vertex count holding exactly is the
/// observable form of the shared-edge deduplication: any duplicate midpoint
/// would push it above the formula.
#[test]
fn closed_form_counts() {
    for order in 0u32..=4 {
        let t = icosphere(order);
        let f: u64 = 20 * 4u64.pow(order);
        assert_eq!(t.indices.len() as u64, 3 * f);
        assert_eq!(t.num_vertices as u64, 10 * 4u64.pow(order) + 2);
        assert_eq!(t.midpoints.len() as u64, t.num_vertices as u64 - 12);
    }
}

/// Every index triple references existing vertices.
#[test]
fn indices_in_bounds() {
    let t = icosphere(3);
    assert_eq!(t.indices.len() % 3, 0);
    for &i in &t.indices {
        assert!(i < t.num_vertices);
    }
}

/// Each midpoint vertex derives from two vertices that already exist when
/// it is created, given as a canonical pair.
#[test]
fn midpoint_parents_precede() {
    let t = icosphere(3);
    for (j, &(a, b)) in t.midpoints.iter().enumerate() {
        assert!(a <= b);
        assert!((b as usize) < 12 + j);
    }
}

/// No unordered vertex pair ever gets a second midpoint vertex.
#[test]
fn midpoints_are_unique() {
    let t = icosphere(3);
    let distinct: HashSet<(u32, u32)> = t.midpoints.iter().copied().collect();
    assert_eq!(distinct.len(), t.midpoints.len());
}

/// One subdivision step quadruples the triangle count and creates one
/// midpoint per distinct edge; the icosahedron has 30 edges.
#[test]
fn subdivide_step_counts() {
    let base = base_triangles();
    let (pairs, tris) = subdivide(12, &base);
    assert_eq!(tris.len(), 240);
    assert_eq!(pairs.len(), 30);
    let distinct: HashSet<(u32, u32)> = pairs.iter().copied().collect();
    assert_eq!(distinct.len(), 30);
}

/// Two triangles sharing an edge resolve it to the identical midpoint
/// vertex: subdividing `(0,1,2)` and `(1,3,2)` creates five midpoints, not
/// six, and both children along the shared edge `{1,2}` reference vertex 5.
#[test]
fn shared_edge_resolves_to_one_midpoint() {
    let (pairs, tris) = subdivide(4, &vec![0, 1, 2, 1, 3, 2]);
    assert_eq!(pairs, vec![(0, 1), (1, 2), (0, 2), (1, 3), (2, 3)]);
    let expected: Vec<u32> = vec![
        0, 4, 6, 1, 5, 4, 2, 6, 5, 4, 5, 6, // children of (0, 1, 2)
        1, 7, 5, 3, 8, 7, 2, 5, 8, 7, 8, 5, // children of (1, 3, 2)
    ];
    assert_eq!(tris, expected);
}

/// A lone triangle has exactly its three undirected edges, smaller index
/// first, in the order the triangle walk meets them.
#[test]
fn line_list_single_triangle() {
    let lines = compute_line_list(vec![0, 1, 2]);
    assert_eq!(lines, vec![0, 1, 1, 2, 0, 2]);
}

/// Two triangles sharing an edge yield that edge once, not twice.
#[test]
fn line_list_shared_edge() {
    let lines = compute_line_list(vec![0, 1, 2, 1, 3, 2]);
    assert_eq!(lines, vec![0, 1, 1, 2, 0, 2, 1, 3, 2, 3]);
}

/// The wireframe of an icosphere has `30 * 4^order` undirected edges, the
/// closed-form edge count of the subdivided icosahedron.
#[test]
fn line_list_edge_counts() {
    for order in 0u32..=3 {
        let t = icosphere(order);
        let lines = compute_line_list(t.indices);
        assert_eq!(lines.len() as u64, 2 * 30 * 4u64.pow(order));
        let mut distinct: HashSet<(u32, u32)> = HashSet::new();
        for pair in lines.chunks(2) {
            assert!(pair[0] <= pair[1]);
            assert!(distinct.insert((pair[0], pair[1])));
        }
    }
}

/// An empty triangle list has an empty wireframe.
#[test]
fn line_list_empty() {
    let lines = compute_line_list(Vec::new());
    assert!(lines.is_empty());
}
