//! Verified core of a security-operations pipeline: event normalisation,
//! entity resolution, rule matching, the event graph and attack-chain
//! correlation.

pub mod text;
pub mod fields;
pub mod platform;
pub mod shared;
pub mod resolver;
pub mod normaliser;
pub mod sigma;
pub mod digraph;
pub mod graph;
pub mod correlator;
pub mod ioc;
pub mod input;
pub mod api;
