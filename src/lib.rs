//! A Wireworld cellular automaton on a finite, edge-clamped grid.
//!
//! The grid module holds the cell states, the grid itself and the
//! rectangular and Moore-neighborhood enumerations; the environment module
//! holds the double-buffered simulation that advances every cell at once.
pub mod grid;
pub mod environment;
