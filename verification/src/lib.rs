//! Navigable knowledge graphs of waypoints joined by verses, with
//! path finding, connectivity and community measures, hub detection and a
//! deterministic mutation step.

pub mod weight;
pub mod graph;
pub mod counting;
pub mod analysis;
pub mod search;
pub mod navigation;
pub mod evolution;
pub mod laws;
