//! Geodesic-path refinement on a triangulated surface mesh.
//!
//! The crate holds the combinatorial core of the refiner: the vertex store
//! and triangle-node arena, the edge graph and its shortest-path search, the
//! wedge (triangle fan) machinery, triangle subdivision, and the rewriting of
//! the vertex-index path.  Coordinates are carried as opaque bit patterns;
//! the numeric kernel that interprets them (lengths, angles, unfolding,
//! chord intersection) lives outside the library and feeds its decisions in
//! as plain values.

use vstd::prelude::*;

pub mod graph;
pub mod mesh;
pub mod refine;

verus! {

/// Why a path request failed.
#[derive(Clone, Copy, Debug, PartialEq, Eq, Structural)]
pub enum PathError {
    /// Malformed buffers or out-of-range indices.
    BadInput,
    /// No route between the requested endpoints.
    NoPath,
    /// Every triangle of a required wedge is collinear.
    Degenerate,
}

/// Both raw buffers must come in groups of three (x,y,z coordinates and
/// triangle index triples).
pub fn buffer_lengths_ok(coords_len: usize, indices_len: usize) -> (r: bool)
    ensures
        r == (coords_len % 3 == 0 && indices_len % 3 == 0),
{
    coords_len % 3 == 0 && indices_len % 3 == 0
}

} // verus!
