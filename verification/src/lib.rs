//! The simulation engine of a chain-reaction board game: players place
//! marbles on a grid, a cell that reaches its capacity hands its marbles to
//! its neighbours, and a player without cells is out.

pub mod geometry;
pub mod marble;
pub mod cell;
pub mod game;
pub mod menu;
pub mod grid;
pub mod spread;
