//! Error conditions surfaced by the routing library.
//!
//! Absence of a route is not an error: searches report it through their
//! ordinary result values. The variants here signal caller usage errors
//! (unknown node ids, inconsistent graphs) and are never retried internally.
use vstd::prelude::*;

verus! {

/// An error raised by the routing library, carrying a description of the
/// failure. I/O and serialization failures belong to the collaborators that
/// perform them and are wrapped outside this crate.
#[derive(Debug)]
pub enum RoutingError {
    /// A graph operation referenced a node that is not in the network, or the
    /// network failed a consistency check.
    Network(String),
    /// A failure while building or querying the search hierarchy.
    ContractionHierarchy(String),
    /// A failure during isochrone calculation.
    Isochrone(String),
    /// A failure while handling geometric data.
    Geometry(String),
}

impl RoutingError {
    /// The description carried by this error.
    pub fn message(&self) -> (r: &String)
        ensures
            r@ == self.message_spec(),
    {
        match self {
            RoutingError::Network(m) => m,
            RoutingError::ContractionHierarchy(m) => m,
            RoutingError::Isochrone(m) => m,
            RoutingError::Geometry(m) => m,
        }
    }

    /// The description carried by this error, as a sequence of characters.
    pub open spec fn message_spec(&self) -> Seq<char> {
        match self {
            RoutingError::Network(m) => m@,
            RoutingError::ContractionHierarchy(m) => m@,
            RoutingError::Isochrone(m) => m@,
            RoutingError::Geometry(m) => m@,
        }
    }
}

} // verus!
