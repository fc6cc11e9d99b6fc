//! Simulation engine of a territory-cultivation board game: an 11 by 11 grid
//! with mountains and ruins, polyomino placement, connected-area
//! bookkeeping and the seasonal scoring rules.
pub mod coordinate;
pub mod terrain;
pub mod geometry;
pub mod shape;
pub mod grid;
pub mod area;
pub mod ranking;
pub mod objective;
pub mod season;
pub mod util;
pub mod roster;
