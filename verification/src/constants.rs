//! Sizes and counts shared by the generators.

use vstd::prelude::*;

verus! {

/// Milliseconds between two simulation ticks.
pub const THICK_RATE_MILLIS: u64 = 8;

/// Milliseconds between two frames at the highest frame rate.
pub const MAX_FRAMERATE_MILLIS: u64 = 8;

/// Subdivision depth of the world map.
pub const N: usize = 6;

/// Rows of the world map: two to the power `N`, plus one.
pub const WORLD_MAP_ROWS: usize = 65;

/// Columns of the world map.
pub const WORLD_MAP_COLS: usize = WORLD_MAP_ROWS;

/// Cell rows of the chunk map.
pub const CHUNK_MAP_ROWS: usize = 100;

/// Cell columns of the chunk map.
pub const CHUNK_MAP_COLS: usize = 100;

/// Cell rows of the gradient lattice.
pub const PERLIN_GRID_ROWS: usize = 4;

/// Cell columns of the gradient lattice.
pub const PERLIN_GRID_COLS: usize = PERLIN_GRID_ROWS - 1;

/// Whether frames wait for the display's refresh.
pub const VSYNC: bool = true;

/// Smoothing passes applied to the classified world map.
pub const CA_ITER: usize = 6;

} // verus!
