//! Conflict detection and clustering for candidate block orders.
//!
//! Given the outcomes of simulating each order alone and each ordered pair in
//! sequence, the analyzer classifies every ordered pair of orders by the kind
//! of interference between them, and the clusterer partitions the conflicting
//! orders into connected components of the resulting conflict graph.
//!
//! Simulation itself (forking chain state and committing an order) is an
//! outside capability: a driver runs the simulations and hands their outcomes
//! to [`analyze::find_conflict_slow`] as plain values.

pub mod analyze;
pub mod cluster;
pub mod conflict_map;
pub mod types;
