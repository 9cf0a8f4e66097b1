//! Configuration supplied once before generation.

use vstd::prelude::*;

use crate::tile_map::TileMap;

verus! {

/// Options for board generation. Sizing, placement and padding of the
/// visuals are the rendering collaborator's concern and live with it.
#[derive(Clone, Copy, Debug)]
pub struct BoardOptions {
    /// Columns and rows of the grid.
    pub map_size: (u16, u16),
    /// The requested bomb count; values at or above the cell count yield a
    /// board of nothing but bombs, they are not an error.
    pub bomb_count: u16,
    /// Whether the first reveal is seeded automatically on an `Empty` tile.
    pub safe_start: bool,
}

impl Default for BoardOptions {
    /// A standard beginner board: 15 by 15 cells holding 30 bombs, with no
    /// automatic first reveal.
    fn default() -> (r: Self)
        ensures
            r.map_size == (15u16, 15u16),
            r.bomb_count == 30,
            !r.safe_start,
    {
        BoardOptions { map_size: (15, 15), bomb_count: 30, safe_start: false }
    }
}

/// A fatal configuration error, surfaced to the caller at construction time
/// and not recovered.
#[derive(Clone, Copy, Debug, PartialEq, Eq, Structural)]
pub enum ConfigError {
    /// A requested dimension is zero, so the grid has no cells.
    InvalidDimensions,
}

/// Builds the tile map that `options` describes, or reports the
/// configuration error when one of the dimensions is zero.
pub fn build_map(options: &BoardOptions, seed: u64) -> (r: Result<TileMap, ConfigError>)
    ensures
        match r {
            Ok(tm) => {
                &&& options.map_size.0 >= 1
                &&& options.map_size.1 >= 1
                &&& tm.wf()
                &&& tm.spec_width() == options.map_size.0
                &&& tm.spec_height() == options.map_size.1
                &&& tm.spec_bomb_count() == options.bomb_count
            },
            Err(e) => {
                &&& (options.map_size.0 == 0 || options.map_size.1 == 0)
                &&& e == ConfigError::InvalidDimensions
            },
        },
{
    if options.map_size.0 >= 1 && options.map_size.1 >= 1 {
        Ok(TileMap::generate(options.map_size.0, options.map_size.1, options.bomb_count, seed))
    } else {
        Err(ConfigError::InvalidDimensions)
    }
}

} // verus!
