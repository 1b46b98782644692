//! A directed graph read from a parent-pointer text encoding, with path
//! enumeration towards a single origin node and statistics over those paths.
//!
//! `graph` holds the store and its mutations, `parse` the text encoding,
//! `paths` the enumeration of routes to the origin, and `stats` the
//! statistics computed from them.

pub mod graph;
pub mod parse;
pub mod paths;
pub mod stats;

pub use graph::{DirectedAcyclicGraph, ORIGIN};
pub use parse::ParseError;
