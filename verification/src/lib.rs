//! Incremental shortest-path search on a two-dimensional obstacle grid.
//!
//! The crate is organised in layers:
//!
//! * [`point`]: cell coordinates and the squared-distance metric;
//! * [`grid`]: the immutable obstacle grid that a search runs on;
//! * [`state`]: the mathematical model of a search and of one search step;
//! * [`wellformed`]: the invariant of a search, and the proof that steps keep it;
//! * [`route`]: what the parent chains of a search amount to;
//! * [`path_finder`]: the executable engine, proved to follow the model;
//! * [`laws`]: termination, determinism and what walls and moves cost;
//! * [`renderer`]: a text picture of a grid and the searches on it.

pub mod grid;
pub mod laws;
pub mod path_finder;
pub mod point;
pub mod renderer;
pub mod route;
pub mod state;
pub mod wellformed;
