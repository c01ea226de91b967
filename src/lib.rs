//! A connect-four engine and the integer side of a genetic algorithm that
//! evolves players for it.

pub mod game;
pub mod matrix;
pub mod nn;
pub mod helpers;
pub mod pool;
pub mod random_player;
