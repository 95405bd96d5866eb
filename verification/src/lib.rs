//! A tile-based world core: a grid-constraint solver that collapses every cell
//! of a grid to one tile value consistent with a compatibility model, an A*
//! pathfinder over the resolved grid, and a reservation manager that arbitrates
//! exclusive claims on tile-bound resources.

pub mod agent;
pub mod grid;
pub mod model;
pub mod pathfind;
pub mod reservations;
pub mod rng;
pub mod worldgen;
