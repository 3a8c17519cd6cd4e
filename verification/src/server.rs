//! The state that a running server shares between its requests.
use vstd::prelude::*;
use crate::config::Config;
use crate::graph::Graph;

verus! {

/// `std::sync::RwLock`.
#[verifier::external_type_specification]
#[verifier::external_body]
#[verifier::reject_recursive_types(T)]
pub struct ExRwLock<T: ?Sized>(std::sync::RwLock<T>);

/// The graph a server answers from, behind a lock so that a rescan can
/// replace it, and the configuration it was built with.
pub struct AppState {
    pub graph: std::sync::RwLock<Graph>,
    pub config: Config,
}

} // verus!
