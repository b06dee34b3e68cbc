use vstd::prelude::*;

verus! {

/// Why a mosaic could not be made.
#[derive(Clone, Copy, Debug, PartialEq, Eq, Structural)]
pub enum MosaicError {
    /// The tile library holds no tile, so no cell can be matched.
    NoCandidateTiles,
    /// A size is zero, the grid has no row, or the output does not fit in memory.
    InvalidDimensions,
    /// A tile is larger than the cell it would be copied into.
    TileTooLarge,
}

} // verus!
