//! A falling-sand cellular automaton: a dense cell store indexed by a grid,
//! chunked activity tracking, and per-material transition rules.

pub mod color;
pub mod material;
pub mod brush;
pub mod chunk;
pub mod cell;

pub use color::Rgba;
pub use material::{Material, MaterialType};
pub use brush::Brush;
pub use chunk::Chunk;
pub use cell::{Cell, Pos, Velocity};
pub mod random;
pub mod line;
pub mod matrix;
pub use matrix::Matrix;
pub mod assets;
pub use assets::Assets;
pub mod cellhandler;
pub mod fire;
mod parallel;
pub mod simulation;
