//! An abelian sandpile automaton on a fixed-size two-dimensional grid.
//!
//! Each cell holds a non-negative grain count. A cell whose count exceeds
//! the threshold of 3 "topples": it loses 4 grains and hands one to each of
//! its four orthogonal neighbors. Grains that would leave the grid are lost
//! (open boundary). The engine advances one synchronous generation at a
//! time, processing only the cells recorded in a work queue rather than
//! rescanning the whole grid.

pub mod add_assign_signed;
pub mod field;
pub mod line;
pub mod model;
