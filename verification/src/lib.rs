//! A routing library over geographic transportation networks: an in-memory
//! graph model with per-mode travel costs, point-to-point shortest-path
//! search, and cost-bounded reachability (isochrone) computation.
use vstd::prelude::*;

pub mod contraction;
pub mod dummy_network;
pub mod error;
pub mod graph_store;
pub mod isochrone;
pub mod network;
pub mod paths;
pub mod search;

pub use contraction::ContractionHierarchy;
pub use dummy_network::DummyNetworkGenerator;
pub use error::RoutingError;
pub use isochrone::{IsochroneCalculator, IsochroneResult};
pub use network::{Edge, ModeCosts, Network, Node, RoutingMode};

verus! {

/// Travel cost in microseconds of travel time.
pub type Cost = u64;

/// Result type for the routing library.
pub type RoutingResult<T> = Result<T, RoutingError>;

} // verus!
