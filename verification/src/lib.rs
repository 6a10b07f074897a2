//! A two-dimensional outer-totalistic cellular automaton engine on a
//! toroidal grid: table-driven stepping, trajectory generation, transient
//! (pre-period) detection, and batch planning for independent runs.

pub mod scheduler;
pub mod totalistic_2d;
pub mod utils;
