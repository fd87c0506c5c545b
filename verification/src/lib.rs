//! Grid navigation for many agents chasing one target: a walkability map,
//! an A* search over it, straight-line path simplification, and a staggered
//! schedule that spreads the searches over consecutive ticks.
//!
//! All coordinates are integers. A world position is a pair of fixed-point
//! coordinates, and a grid is configured with the number of world units that
//! one cell spans.

pub mod geometry;
pub mod grid;
pub mod neighbors;
pub mod open_set;
pub mod path;
pub mod route;
pub mod schedule;
pub mod search;
pub mod simplify;
