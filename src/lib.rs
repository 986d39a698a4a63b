//! Offline road routing over an OpenStreetMap extract: a compressed-sparse-row
//! road graph, a spatial grid for snapping points to the network, an A* search
//! and a planner that inserts charging stops for range-limited vehicles.

pub mod options;
pub mod text;
pub mod osm;
pub mod highway;
pub mod graph;
pub mod grid;
pub mod builder;
pub mod error;
pub mod queue;
pub mod router;
pub mod planner;
pub mod slots;
pub mod snapshot;
