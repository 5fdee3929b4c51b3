//! The point-to-point shortest-path engine.
//!
//! The name reflects the search hierarchy this engine is meant to grow
//! into; what it runs today is the cost-correct baseline search that any
//! preprocessing-based variant must agree with on output: a least-cost
//! search over the mode-specific arc costs cached in the network.
use crate::error::RoutingError;
use crate::network::Network;
use crate::paths::{
    connects, lemma_relabel_equiv, lemma_relabel_walk_fwd, min_cost_is, reaches_within,
    relabel_nodes, sum, Link,
};
use crate::search::{arc_links, dijkstra, reconstruct_path};
use std::collections::HashMap;
use vstd::prelude::*;

verus! {

/// A search structure over an immutable network. Queries may be run any
/// number of times against the same network.
pub struct ContractionHierarchy {
    /// The network queries run against.
    pub original_network: Network,
}

impl ContractionHierarchy {
    /// Well-formedness: the underlying network is well-formed.
    pub open spec fn wf(self) -> bool {
        self.original_network.wf()
    }

    /// Build the search structure over a network.
    pub fn new(network: Network) -> (r: crate::RoutingResult<ContractionHierarchy>)
        requires
            network.wf(),
        ensures
            (match r {
                Ok(ch) => ch.wf() && ch.original_network == network,
                Err(_) => false,
            }),
    {
        Ok(ContractionHierarchy { original_network: network })
    }

    /// A textual summary of the search structure: node and edge counts and
    /// the algorithm in use.
    pub fn stats(&self) -> (r: HashMap<String, String>)
        requires
            self.wf(),
    {
        let mut stats: HashMap<String, String> = HashMap::new();
        stats.insert("nodes".to_owned(), self.original_network.node_count().to_string());
        stats.insert("edges".to_owned(), self.original_network.edge_count().to_string());
        stats.insert("algorithm".to_owned(), "Dijkstra".to_owned());
        stats
    }

    /// Numeric statistics about the search structure. No shortcuts are
    /// inserted by the baseline search, so that count is zero.
    pub fn detailed_stats(&self) -> (r: HashMap<String, usize>)
        requires
            self.wf(),
    {
        let mut stats: HashMap<String, usize> = HashMap::new();
        stats.insert("original_nodes".to_owned(), self.original_network.node_count());
        stats.insert("original_edges".to_owned(), self.original_network.edge_count());
        stats.insert("shortcuts_created".to_owned(), 0);
        stats
    }

    /// The least-cost route between two node ids.
    ///
    /// Fails exactly when either id is not in the network. Returns `None`
    /// exactly when no walk between the nodes stays within `u64::MAX`
    /// microseconds (in particular, whenever the two nodes lie in different
    /// components). Otherwise returns the least cost together with a node-id
    /// path from source to target realizing it: no walk between the two
    /// nodes costs less.
    pub fn shortest_path(&self, from_node_id: u64, to_node_id: u64) -> (r: crate::RoutingResult<
        Option<(u64, Vec<u64>)>,
    >)
        requires
            self.wf(),
        ensures
            (r is Ok <==> self.original_network.nodes_map().contains_key(from_node_id)
                && self.original_network.nodes_map().contains_key(to_node_id)),
            (match r {
                Ok(Some((cost, path))) => {
                    &&& min_cost_is(
                        self.original_network.links_model(),
                        from_node_id as int,
                        to_node_id as int,
                        cost as int,
                    )
                    &&& path@.len() >= 1
                    &&& path@[0] == from_node_id
                    &&& path@[path@.len() - 1] == to_node_id
                    &&& exists|cs: Seq<int>|
                        connects(
                            self.original_network.links_model(),
                            path@.map_values(|x: u64| x as int),
                            cs,
                            from_node_id as int,
                            to_node_id as int,
                        ) && sum(cs) == cost as int
                },
                Ok(None) => !reaches_within(
                    self.original_network.links_model(),
                    from_node_id as int,
                    to_node_id as int,
                    u64::MAX as int,
                ),
                Err(_) => true,
            }),
    {
        let from_idx = match self.original_network.get_node_index(from_node_id) {
            Some(i) => i,
            None => {
                return Err(RoutingError::Network("source node not found in network".to_owned()));
            },
        };
        let to_idx = match self.original_network.get_node_index(to_node_id) {
            Some(i) => i,
            None => {
                return Err(RoutingError::Network("target node not found in network".to_owned()));
            },
        };
        self.dijkstra_search(from_idx, to_idx)
    }

    /// The least-cost search between two vertex indices, with path
    /// reconstruction over node ids.
    #[verifier::rlimit(100)]
    fn dijkstra_search(&self, from_idx: usize, to_idx: usize) -> (r: crate::RoutingResult<
        Option<(u64, Vec<u64>)>,
    >)
        requires
            self.wf(),
            (from_idx as int) < self.original_network.ids().len(),
            (to_idx as int) < self.original_network.ids().len(),
        ensures
            r is Ok,
            (match r {
                Ok(Some((cost, path))) => {
                    &&& min_cost_is(
                        self.original_network.links_model(),
                        self.original_network.ids()[from_idx as int] as int,
                        self.original_network.ids()[to_idx as int] as int,
                        cost as int,
                    )
                    &&& path@.len() >= 1
                    &&& path@[0] == self.original_network.ids()[from_idx as int]
                    &&& path@[path@.len() - 1] == self.original_network.ids()[to_idx as int]
                    &&& exists|cs: Seq<int>|
                        connects(
                            self.original_network.links_model(),
                            path@.map_values(|x: u64| x as int),
                            cs,
                            self.original_network.ids()[from_idx as int] as int,
                            self.original_network.ids()[to_idx as int] as int,
                        ) && sum(cs) == cost as int
                },
                Ok(None) => !reaches_within(
                    self.original_network.links_model(),
                    self.original_network.ids()[from_idx as int] as int,
                    self.original_network.ids()[to_idx as int] as int,
                    u64::MAX as int,
                ),
                Err(_) => false,
            }),
    {
        let net = &self.original_network;
        let ghost ids = net.ids();
        let ghost ilinks = arc_links(net.arcs());
        let ghost mlinks = net.links_model();
        proof {
            net.lemma_model_relabeled();
        }
        let g = net.adjacency();
        let (dist, pred, hops) = dijkstra(g, from_idx, u64::MAX);
        proof {
            lemma_relabel_equiv(ilinks, mlinks, ids, from_idx as int, to_idx as int);
        }
        match dist[to_idx] {
            Some(cost) => {
                let idx_path = reconstruct_path(
                    &dist,
                    &pred,
                    from_idx,
                    to_idx,
                    Ghost(ilinks),
                    Ghost(hops@),
                );
                let mut path: Vec<u64> = Vec::new();
                let mut i: usize = 0;
                while i < idx_path.len()
                    invariant
                        self.wf(),
                        i <= idx_path@.len(),
                        path@.len() == i,
                        forall|j: int|
                            0 <= j < idx_path@.len() ==> ((#[trigger] idx_path@[j]) as int)
                                < self.original_network.ids().len(),
                        forall|j: int|
                            0 <= j < i ==> (#[trigger] path@[j]) == self.original_network.ids()[
                                idx_path@[j] as int
                            ],
                    decreases idx_path@.len() - i,
                {
                    path.push(self.original_network.node_id_at(idx_path[i]));
                    i = i + 1;
                }
                proof {
                    let ns_idx = idx_path@.map_values(|x: usize| x as int);
                    let cs = choose|cs: Seq<int>|
                        connects(ilinks, ns_idx, cs, from_idx as int, to_idx as int) && sum(cs)
                            == cost as int;
                    lemma_relabel_walk_fwd(
                        ilinks,
                        mlinks,
                        ids,
                        ns_idx,
                        cs,
                        from_idx as int,
                        to_idx as int,
                    );
                    assert(path@.map_values(|x: u64| x as int) =~= relabel_nodes(ids, ns_idx));
                    assert(connects(
                        mlinks,
                        path@.map_values(|x: u64| x as int),
                        cs,
                        ids[from_idx as int] as int,
                        ids[to_idx as int] as int,
                    ) && sum(cs) == cost as int);
                    assert(path@[0] == ids[idx_path@[0] as int]);
                }
                Ok(Some((cost, path)))
            },
            None => {
                proof {
                    assert(!reaches_within(
                        ilinks,
                        from_idx as int,
                        to_idx as int,
                        u64::MAX as int,
                    ));
                }
                Ok(None)
            },
        }
    }
}

} // verus!
