//! Genetic-algorithm building blocks for two classic benchmark problems:
//! the eight-queens puzzle (boards held as 8x8 matrices of cells) and the
//! minimisation of real-valued functions over binary-coded individuals.
//!
//! Random draws go through `rand::rngs::StdRng`; everything that decides
//! what to do with a draw is verified here.

mod rng;

pub use rng::StdRng;

pub mod ordering;
pub mod board;
pub mod queens;
pub mod evolution;
pub mod binary;
pub mod trio;
pub mod mirror;
