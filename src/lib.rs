//! Conway's Game of Life on a fixed-size toroidal grid, with neighbour
//! counts kept up to date incrementally as cells change.

pub mod torus;
pub mod life_cell;
