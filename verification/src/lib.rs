//! Board-state engine for a Minesweeper game: procedural grid generation
//! with bomb placement and neighbor-count derivation, a covered-tile
//! registry, and a tick-deferred flood-fill reveal algorithm with a
//! guaranteed-safe first move.

pub mod board;
pub mod board_options;
pub mod coordinates;
pub mod rng;
pub mod tile;
pub mod tile_map;
pub mod uncover;
