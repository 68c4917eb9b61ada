//! Wave function collapse over a rectangular grid of tiles.
//!
//! Every cell of the grid starts with the full set of tile candidates.
//! The solver repeatedly collapses the least-uncertain cell to a single
//! tile and propagates the edge-compatibility constraint ("sockets")
//! outward until the grid is fully determined or a cell runs out of
//! candidates (a contradiction).

use vstd::prelude::*;

pub mod catalog;
pub mod direction;
pub mod grid;
pub mod rng;
pub mod sockets;
pub mod solver;
pub mod tile;

verus! {

/// The failure modes of catalog lookups, grid access and solving.
#[derive(Clone, Copy, Debug, PartialEq, Eq, Structural)]
pub enum WfcError {
    /// A tile id was looked up that the catalog does not contain.
    UnknownTile,
    /// A coordinate lies outside the grid's dimensions.
    OutOfBounds,
    /// A cell's candidate set would have become empty during propagation.
    Contradiction,
    /// A tile record handed to the catalog was inconsistent.
    MalformedCatalog,
}

} // verus!
