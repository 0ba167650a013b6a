//! Verified solvers for a collection of grid, interval and counting puzzles.
//!
//! The centrepiece is a minimum-cost route search over a grid of entry
//! costs in which the legal moves depend on the heading and on the number of
//! cells already travelled in that heading.

pub mod text;
pub mod heading;
pub mod route;
pub mod grid;
pub mod frontier;
pub mod table;
pub mod ledger;
pub mod states;
pub mod solver;
pub mod overlay;
pub mod pipes;
pub mod cycles;
pub mod lagoon;
pub mod lens;
pub mod mirrors;
pub mod beams;
pub mod parts;
pub mod bricks;
pub mod reflection;
pub mod cards;
pub mod trails;
pub mod almanac;
pub mod schematic;
pub mod races;
pub mod oasis;
