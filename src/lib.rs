//! A falling-sand automaton: a grid of full and empty cells in which every
//! full cell moves one step per generation toward a free neighbour chosen by
//! a gravity vector.

pub mod gravity;
pub mod model;
pub mod sim;

pub use gravity::Gravity;
pub use sim::{GridError, Simulation};
