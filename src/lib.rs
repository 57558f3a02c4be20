//! A timed token-flow dataflow simulator: a line-oriented topology grammar
//! that builds a graph of nodes and token-carrying edges, and a tick-driven
//! firing engine that advances it.
#![allow(non_snake_case)]

pub mod text;
pub mod model;
pub mod parser;
pub mod engine;
pub mod topology;
pub mod laws;
pub mod snapshot;
