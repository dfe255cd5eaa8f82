pub mod chunk_map;
pub mod diamond_square;
pub mod game;
pub mod resolution;
pub mod schedule;
pub mod world_map;
