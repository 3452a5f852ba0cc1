//! The fatal precondition violations of the decomposition, surfaced as an
//! explicit error kind instead of aborting the process.

use vstd::prelude::*;

verus! {

/// Why a decomposition cannot proceed.
#[derive(Clone, Copy, PartialEq, Eq, Structural, Debug)]
pub enum DecompError {
    /// The input stores fewer than four coordinates, so it has fewer than
    /// three distinct vertices and cannot be triangulated.
    InsufficientVertices,
    /// A triangulation pass found no ear: the polygon is not simple or is
    /// otherwise degenerate.
    NoEarFound,
    /// A shared edge recorded by the edge index could not be located on one
    /// of its owning triangles: an internal-consistency fault.
    EdgeNotFound,
}

} // verus!
