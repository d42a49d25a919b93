//! Geometry core for an orbit-camera graphics demo kit.
//!
//! Two components carry the logic of this crate:
//!
//! * [`mesh`] builds the topology of a subdivided icosahedron (an icosphere):
//!   the triangle index list and the midpoint-creation plan, with the
//!   shared-edge deduplication invariant proved, and — via the closed-mesh
//!   argument in [`counting`] — the exact closed-form counts:
//!   `20 * 4^order` triangles over `10 * 4^order + 2` vertices. [`lines`]
//!   derives a deduplicated wireframe edge list from a triangle list.
//! * [`orbit`] keeps an orbit camera's spherical state (radius, longitude,
//!   latitude, drag mode) in fixed-point angle units, with exact wrap and
//!   clamp semantics.
//!
//! Floating-point realization of the geometry (positions, normals, tangents,
//! matrices) is representation work for the GPU and lives with the rendering
//! harness, which consumes the plans and state kept here.

pub mod counting;
pub mod edges;
pub mod lines;
pub mod mesh;
pub mod orbit;
