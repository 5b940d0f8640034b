//! Assignment of passenger travel groups to itineraries on a scheduled
//! public-transport network, built on a time-expanded timetable graph.
//!
//! The graph encodes departure, arrival, platform-transfer and per-station
//! sink events as nodes, and rides, in-train waits, boardings, alightings,
//! station waits and walks as edges; only ride edges carry a capacity.
//! Groups are routed by an iterative-deepening depth-first enumeration over
//! an edge-cost budget, then charged onto the ride edges of the best path.

pub mod annealing;
pub mod builder;
pub mod codec;
pub mod graph;
pub mod model;
pub mod paths;
pub mod records;
pub mod solver;
pub mod subgraph;
pub mod weights;

pub use model::Model;
pub use paths::Path;
pub use records::Group;
pub use weights::EdgeWeight;
pub use weights::NodeWeight;
