//! Requirement traceability: scanning tagged items, building and validating
//! the traceability graph, and generating proquint identifiers.
use vstd::prelude::*;

pub mod text;
pub mod order;
pub mod matching;
pub mod feistel;
pub mod quint;
pub mod id_gen;
pub mod project;
pub mod config;
pub mod scanner;
pub mod graph;
pub mod languages;
pub mod cli;
pub mod server;
pub mod export;

verus! {

} // verus!
