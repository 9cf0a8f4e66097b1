//! The content of one grid cell.

use vstd::prelude::*;

verus! {

/// The ground-truth content of one grid cell. Exactly one tile occupies each
/// cell of a generated map.
#[derive(Clone, Copy, Debug, PartialEq, Eq, Structural)]
pub enum Tile {
    /// No bomb here and no bomb on any adjacent cell.
    Empty,
    /// No bomb here, but between 1 and 8 adjacent cells hold one.
    BombNeighbor(u8),
    /// A bomb.
    Bomb,
}

} // verus!
