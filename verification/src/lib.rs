//! Terrain generation for a tile world: a coarse world map grown by
//! diamond-square subdivision, classified into altitude bands and smoothed
//! along its coasts, and a fine chunk map sampled from a gradient lattice.

pub mod constants;
pub mod game;
pub mod graphics;
