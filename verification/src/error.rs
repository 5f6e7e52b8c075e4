use vstd::prelude::*;

verus! {

/// The ways in which building a catalog or solving a sector can fail.
#[derive(Debug, Clone, Copy, PartialEq, Eq, Structural)]
pub enum WaveFunctionError {
    /// The tile definition cannot be turned into a catalog.
    LoadError,
    /// A rule or a weight names an edge or a tile that the catalog does not
    /// know. The catalog is built without it.
    UnresolvedReference,
    /// A cell is left without a tile that could be placed.
    Contradiction,
    /// A sector already stands at the coordinate.
    OccupiedSector,
}

} // verus!
