pub mod grid;
mod rng;
pub mod tile;
pub mod laws;
