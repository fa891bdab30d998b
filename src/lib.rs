//! Tile-grid engine of a 2048-style sliding puzzle: a square grid of numbered
//! tiles, a move resolver that slides and merges tiles toward one edge, a
//! spawner that drops a new tile on an empty cell, and a turn controller.
pub mod grid;
pub mod perm;
pub mod moves;
pub mod spawn;
pub mod game;

pub use game::{Game, InputError, Key, command_for, check_tiles, is_valid_value};
pub use grid::{ConfigError, Grid, MAX_VALUE, Position, Tile};
pub use moves::{MoveTiles, resolve_move};
pub use spawn::{empty_cells, initial_tiles, is_occupied, place_tile, spawn_tile};
