//! Numeric realization of the midpoint plan, following the recipe the
//! library documents for its rendering layer: start from the twelve
//! golden-ratio icosahedron vertices, append the average of the two parents
//! for each midpoint in order, and normalize every vertex once at the end.

use cgmath::{InnerSpace, Vector2, Vector3};
use icosphere::mesh::{icosphere, SphereTopology};

fn base_positions() -> Vec<Vector3<f32>> {
    let f: f32 = (1.0 + 5.0_f32.sqrt()) / 2.0;
    vec![
        Vector3::new(-1.0, f, 0.0),
        Vector3::new(1.0, f, 0.0),
        Vector3::new(-1.0, -f, 0.0),
        Vector3::new(1.0, -f, 0.0),
        Vector3::new(0.0, -1.0, f),
        Vector3::new(0.0, 1.0, f),
        Vector3::new(0.0, -1.0, -f),
        Vector3::new(0.0, 1.0, -f),
        Vector3::new(f, 0.0, -1.0),
        Vector3::new(f, 0.0, 1.0),
        Vector3::new(-f, 0.0, -1.0),
        Vector3::new(-f, 0.0, 1.0),
    ]
}

fn realize(topology: &SphereTopology) -> Vec<Vector3<f32>> {
    let mut positions = base_positions();
    for &(a, b) in &topology.midpoints {
        let mid = (positions[a as usize] + positions[b as usize]) / 2.0;
        positions.push(mid);
    }
    positions.iter().map(|p| p.normalize()).collect()
}

/// At order zero the realized positions are exactly the twelve base
/// vertices projected onto the unit sphere, in order.
#[test]
fn order_zero_positions_are_the_base() {
    let t = icosphere(0);
    let positions = realize(&t);
    let base = base_positions();
    assert_eq!(positions.len(), 12);
    for i in 0..12 {
        let expected = base[i].normalize();
        assert!((positions[i] - expected).magnitude() == 0.0);
    }
}

/// Every realized vertex lies on the unit sphere.
#[test]
fn positions_have_unit_length() {
    let t = icosphere(2);
    let positions = realize(&t);
    assert_eq!(positions.len(), t.num_vertices as usize);
    for p in &positions {
        assert!((p.magnitude() - 1.0).abs() < 1e-6);
    }
}

/// The standard smooth-normal accumulation over the realized mesh: each
/// triangle's face normal, summed into its three corners, normalized at the
/// end.
fn accumulate_normals(positions: &[Vector3<f32>], indices: &[u32]) -> Vec<Vector3<f32>> {
    let mut normals: Vec<Vector3<f32>> =
        positions.iter().map(|_| Vector3::new(0.0, 0.0, 0.0)).collect();
    for tri in indices.chunks_exact(3) {
        let (i, j, k) = (tri[0] as usize, tri[1] as usize, tri[2] as usize);
        let face = (positions[j] - positions[i]).cross(positions[k] - positions[i]).normalize();
        normals[i] += face;
        normals[j] += face;
        normals[k] += face;
    }
    normals.iter().map(|n| n.normalize()).collect()
}

/// Smooth normals over the icosphere come out unit length, and on a sphere
/// each vertex normal is parallel to the vertex position — which also
/// checks that the verified index list keeps a consistent winding.
#[test]
fn sphere_normals_parallel_to_positions() {
    let t = icosphere(2);
    let positions = realize(&t);
    let normals = accumulate_normals(&positions, &t.indices);
    for i in 0..positions.len() {
        assert!((normals[i].magnitude() - 1.0).abs() < 1e-5);
        assert!(normals[i].dot(positions[i]) > 0.99);
    }
}

/// Tangents accumulated from position and texture deltas, orthogonalized
/// against the vertex normal, are orthogonal to it within float tolerance.
#[test]
fn tangents_orthogonal_to_normals() {
    let t = icosphere(2);
    let positions = realize(&t);
    let normals = accumulate_normals(&positions, &t.indices);
    let uvs: Vec<Vector2<f32>> = positions
        .iter()
        .map(|p| {
            let u = (p.x.atan2(p.z) + std::f32::consts::PI) / std::f32::consts::PI;
            let v = (p.y / p.magnitude()).acos() / std::f32::consts::PI;
            Vector2::new(u, v)
        })
        .collect();
    let mut tangents: Vec<Vector3<f32>> =
        positions.iter().map(|_| Vector3::new(0.0, 0.0, 0.0)).collect();
    for tri in t.indices.chunks_exact(3) {
        let (i, j, k) = (tri[0] as usize, tri[1] as usize, tri[2] as usize);
        let e1 = positions[j] - positions[i];
        let e2 = positions[k] - positions[i];
        let d1 = uvs[j] - uvs[i];
        let d2 = uvs[k] - uvs[i];
        let tangent = (d2.y * e1 - d1.y * e2).normalize();
        tangents[i] += tangent;
        tangents[j] += tangent;
        tangents[k] += tangent;
    }
    let mut checked: usize = 0;
    for i in 0..positions.len() {
        let tangent = tangents[i].normalize();
        let tangent = (tangent - normals[i].dot(tangent) * normals[i]).normalize();
        // A vertex whose accumulated tangent degenerates to zero (the seam
        // and the poles of the spherical parameterization) violates the
        // algorithm's no-degenerate-geometry precondition and is undefined.
        if !tangent.magnitude().is_finite() {
            continue;
        }
        checked += 1;
        assert!(normals[i].dot(tangent).abs() < 1e-4);
        assert!((tangent.magnitude() - 1.0).abs() < 1e-5);
    }
    assert!(checked > positions.len() / 2);
}

/// A midpoint vertex lies between its parents: before projection it is
/// their exact average, so after projection it stays inside the spherical
/// cap between them.
#[test]
fn midpoints_stay_between_parents() {
    let t = icosphere(1);
    let positions = realize(&t);
    for (j, &(a, b)) in t.midpoints.iter().enumerate() {
        let m = positions[12 + j];
        let pa = positions[a as usize];
        let pb = positions[b as usize];
        assert!(m.dot(pa) > 0.5);
        assert!(m.dot(pb) > 0.5);
        assert!((m.dot(pa) - m.dot(pb)).abs() < 1e-6);
    }
}
