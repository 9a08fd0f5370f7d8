//! A hexagonal-grid world model: offset-coordinate adjacency math, incremental
//! graph construction with deferred back-edge completion, bounded breadth-first
//! search, terrain classification over a fixed-point height field, and a
//! per-tile exploration state machine.

pub mod graph_functions;
pub mod hex_tile;
pub mod local_terrain;
pub mod local_world;
pub mod random_gens;
