//! Structural statistics of an undirected road network.
//!
//! A [`graph::RoadGraph`] is built from an edge list ([`construction`]) and
//! then handed, read-only, to the analyses in [`analysis`]. Every contract is
//! stated over the mathematical model in [`model`]: a sequence of node labels
//! and a sequence of edges between node indices.

pub mod counting;
pub mod model;
pub mod backend;
pub mod graph;
pub mod construction;
pub mod analysis;
pub mod relabeling;
