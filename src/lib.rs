//! Server-side authority for a shared, tick-driven hex-grid world.
//!
//! `types` holds the tile model and the wire vocabulary, `grid` the grid store
//! with its per-variant index lists and the hex topology, `tick` the slime
//! spread step, and `session` the per-connection message handling.
pub mod grid;
pub mod session;
pub mod tick;
pub mod types;
