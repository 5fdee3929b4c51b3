//! The catchment (isochrone) engine: single-source, cost-bounded
//! reachability with the least cost to each reachable node.
use crate::contraction::ContractionHierarchy;
use crate::error::RoutingError;
use crate::paths::{connects, lemma_relabel_equiv, min_cost_is, reaches_within, sum, Link};
use crate::search::dijkstra;
use std::collections::HashMap;
use vstd::prelude::*;

verus! {

/// The catchment of one `(start, budget)` query: for every node reachable
/// within the budget, the least travel cost to it. Immutable once produced.
pub struct IsochroneResult {
    /// Least travel cost (microseconds) for each reachable node id.
    pub travel_costs: HashMap<crate::network::NodeId, crate::Cost>,
    /// The cost budget the query ran with.
    pub max_cost: crate::Cost,
    /// The number of reachable nodes: the size of `travel_costs`.
    pub reachable_nodes: usize,
    /// The node the query started from.
    pub start_node: crate::network::NodeId,
}

/// What a correct catchment mapping is: it holds exactly the network nodes
/// reachable from `start` within `budget`, each at its least walk cost.
pub open spec fn iso_ok(
    links: Seq<Link>,
    ids: Seq<u64>,
    start: u64,
    budget: u64,
    m: Map<u64, u64>,
) -> bool {
    &&& forall|id: u64|
        #[trigger] m.contains_key(id) ==> ids.contains(id) && min_cost_is(
            links,
            start as int,
            id as int,
            m[id] as int,
        ) && m[id] <= budget
    &&& forall|id: u64|
        ids.contains(id) && reaches_within(links, start as int, id as int, budget as int)
            ==> m.contains_key(id)
}

/// The catchment engine. Stateless: each query allocates its own search
/// state against an immutable network.
pub struct IsochroneCalculator;

impl IsochroneCalculator {
    /// The catchment of `start_node_id` within `max_cost` microseconds.
    ///
    /// Fails exactly when the start id is not in the network. On success the
    /// mapping holds exactly the nodes reachable within the budget, each at
    /// its least cost; the start node is always present at cost exactly 0.
    pub fn calculate(ch: &ContractionHierarchy, start_node_id: u64, max_cost: u64) -> (r:
        crate::RoutingResult<IsochroneResult>)
        requires
            ch.wf(),
        ensures
            (r is Ok <==> ch.original_network.nodes_map().contains_key(start_node_id)),
            (match r {
                Ok(res) => {
                    &&& res.start_node == start_node_id
                    &&& res.max_cost == max_cost
                    &&& res.reachable_nodes == res.travel_costs@.len()
                    &&& iso_ok(
                        ch.original_network.links_model(),
                        ch.original_network.ids(),
                        start_node_id,
                        max_cost,
                        res.travel_costs@,
                    )
                    &&& res.travel_costs@.contains_key(start_node_id)
                    &&& res.travel_costs@[start_node_id] == 0
                },
                Err(_) => true,
            }),
    {
        let travel_costs = match Self::dijkstra_isochrone(ch, start_node_id, max_cost) {
            Ok(m) => m,
            Err(e) => {
                return Err(e);
            },
        };
        let reachable_nodes = travel_costs.len();
        Ok(
            IsochroneResult {
                travel_costs,
                max_cost,
                reachable_nodes,
                start_node: start_node_id,
            },
        )
    }

    /// The cost-bounded search behind `calculate`: the mapping from every
    /// reachable node id to its least cost.
    #[verifier::rlimit(100)]
    fn dijkstra_isochrone(ch: &ContractionHierarchy, start_node_id: u64, max_cost: u64) -> (r:
        crate::RoutingResult<HashMap<u64, u64>>)
        requires
            ch.wf(),
        ensures
            (r is Ok <==> ch.original_network.nodes_map().contains_key(start_node_id)),
            (match r {
                Ok(m) => {
                    &&& iso_ok(
                        ch.original_network.links_model(),
                        ch.original_network.ids(),
                        start_node_id,
                        max_cost,
                        m@,
                    )
                    &&& m@.contains_key(start_node_id)
                    &&& m@[start_node_id] == 0
                },
                Err(_) => true,
            }),
    {
        let start_idx = match ch.original_network.get_node_index(start_node_id) {
            Some(i) => i,
            None => {
                return Err(RoutingError::Network("start node not found in network".to_owned()));
            },
        };
        let ghost ids = ch.original_network.ids();
        let ghost ilinks = crate::search::arc_links(ch.original_network.arcs());
        let ghost mlinks = ch.original_network.links_model();
        proof {
            ch.original_network.lemma_model_relabeled();
        }
        let g = ch.original_network.adjacency();
        let (dist, _pred, _hops) = dijkstra(g, start_idx, max_cost);
        let n = dist.len();
        let mut m: HashMap<u64, u64> = HashMap::new();
        let mut i: usize = 0;
        while i < n
            invariant
                ch.wf(),
                ids == ch.original_network.ids(),
                ilinks == crate::search::arc_links(ch.original_network.arcs()),
                mlinks == ch.original_network.links_model(),
                crate::paths::relabeled(ilinks, mlinks, ids),
                (start_idx as int) < ids.len(),
                n == dist@.len() == ids.len(),
                i <= n,
                dist@[start_idx as int] == Some(0u64),
                forall|v: int|
                    0 <= v < n ==> match #[trigger] dist@[v] {
                        Some(d) => min_cost_is(ilinks, start_idx as int, v, d as int) && d
                            <= max_cost,
                        None => !reaches_within(ilinks, start_idx as int, v, max_cost as int),
                    },
                forall|id: u64|
                    #[trigger] m@.contains_key(id) ==> exists|j: int|
                        0 <= j < i && ids[j] == id && (#[trigger] dist@[j]) is Some && m@[id]
                            == dist@[j]->Some_0,
                forall|j: int|
                    0 <= j < i && (#[trigger] dist@[j]) is Some ==> m@.contains_key(ids[j])
                        && m@[ids[j]] == dist@[j]->Some_0,
            decreases n - i,
        {
            match dist[i] {
                Some(d) => {
                    let id = ch.original_network.node_id_at(i);
                    m.insert(id, d);
                    proof {
                        assert forall|id2: u64| #[trigger] m@.contains_key(id2) implies exists|
                        j: int,
                        |
                            0 <= j < i + 1 && ids[j] == id2 && (#[trigger] dist@[j]) is Some && m@[
                            id2] == dist@[j]->Some_0 by {
                            if id2 == id {
                                assert(ids[i as int] == id2 && dist@[i as int] is Some && m@[id2]
                                    == dist@[i as int]->Some_0);
                            }
                        }
                    }
                },
                None => {},
            }
            i = i + 1;
        }
        proof {
            // Translate the per-vertex facts into the id-space catchment
            // characterization.
            assert forall|id: u64| #[trigger] m@.contains_key(id) implies ids.contains(id)
                && min_cost_is(mlinks, start_node_id as int, id as int, m@[id] as int) && m@[id]
                <= max_cost by {
                let j = choose|j: int|
                    0 <= j < n && ids[j] == id && (#[trigger] dist@[j]) is Some && m@[id]
                        == dist@[j]->Some_0;
                assert(ids[j] == id);
                lemma_relabel_equiv(ilinks, mlinks, ids, start_idx as int, j);
                assert(min_cost_is(ilinks, start_idx as int, j, m@[id] as int));
            }
            assert forall|id: u64|
                ids.contains(id) && reaches_within(
                    mlinks,
                    start_node_id as int,
                    id as int,
                    max_cost as int,
                ) implies m@.contains_key(id) by {
                let j = choose|j: int| 0 <= j < ids.len() && ids[j] == id;
                lemma_relabel_equiv(ilinks, mlinks, ids, start_idx as int, j);
                assert(reaches_within(ilinks, start_idx as int, j, max_cost as int));
                assert(dist@[j] is Some);
            }
            assert(m@.contains_key(ids[start_idx as int]) && m@[ids[start_idx as int]] == 0);
        }
        Ok(m)
    }

    /// One catchment per threshold, each computed independently against the
    /// same network, in the thresholds' order.
    pub fn calculate_multiple(
        ch: &ContractionHierarchy,
        start_node_id: u64,
        cost_thresholds: &[u64],
    ) -> (r: crate::RoutingResult<Vec<IsochroneResult>>)
        requires
            ch.wf(),
        ensures
            (r is Ok <==> (ch.original_network.nodes_map().contains_key(start_node_id)
                || cost_thresholds@.len() == 0)),
            (match r {
                Ok(v) => {
                    &&& v@.len() == cost_thresholds@.len()
                    &&& forall|i: int|
                        0 <= i < v@.len() ==> {
                            &&& (#[trigger] v@[i]).start_node == start_node_id
                            &&& v@[i].max_cost == cost_thresholds@[i]
                            &&& v@[i].reachable_nodes == v@[i].travel_costs@.len()
                            &&& iso_ok(
                                ch.original_network.links_model(),
                                ch.original_network.ids(),
                                start_node_id,
                                cost_thresholds@[i],
                                v@[i].travel_costs@,
                            )
                            &&& v@[i].travel_costs@.contains_key(start_node_id)
                            &&& v@[i].travel_costs@[start_node_id] == 0
                        }
                },
                Err(_) => true,
            }),
    {
        let mut results: Vec<IsochroneResult> = Vec::new();
        let mut i: usize = 0;
        while i < cost_thresholds.len()
            invariant
                ch.wf(),
                i <= cost_thresholds@.len(),
                results@.len() == i,
                i > 0 ==> ch.original_network.nodes_map().contains_key(start_node_id),
                forall|j: int|
                    0 <= j < i ==> {
                        &&& (#[trigger] results@[j]).start_node == start_node_id
                        &&& results@[j].max_cost == cost_thresholds@[j]
                        &&& results@[j].reachable_nodes == results@[j].travel_costs@.len()
                        &&& iso_ok(
                            ch.original_network.links_model(),
                            ch.original_network.ids(),
                            start_node_id,
                            cost_thresholds@[j],
                            results@[j].travel_costs@,
                        )
                        &&& results@[j].travel_costs@.contains_key(start_node_id)
                        &&& results@[j].travel_costs@[start_node_id] == 0
                    },
            decreases cost_thresholds@.len() - i,
        {
            let max_cost = cost_thresholds[i];
            let result = match Self::calculate(ch, start_node_id, max_cost) {
                Ok(res) => res,
                Err(e) => {
                    return Err(e);
                },
            };
            results.push(result);
            i = i + 1;
        }
        Ok(results)
    }
}

/// For one start node, a tighter budget's catchment is contained in a wider
/// budget's, and every shared node is recorded at the same (least) cost in
/// both.
pub proof fn lemma_isochrone_monotonic(
    links: Seq<Link>,
    ids: Seq<u64>,
    start: u64,
    t1: u64,
    t2: u64,
    m1: Map<u64, u64>,
    m2: Map<u64, u64>,
)
    requires
        iso_ok(links, ids, start, t1, m1),
        iso_ok(links, ids, start, t2, m2),
        t1 <= t2,
    ensures
        forall|id: u64| #[trigger] m1.contains_key(id) ==> m2.contains_key(id) && m2[id] == m1[id],
{
    assert forall|id: u64| #[trigger] m1.contains_key(id) implies m2.contains_key(id) && m2[id]
        == m1[id] by {
        assert(min_cost_is(links, start as int, id as int, m1[id] as int));
        let (ns, cs) = choose|ns: Seq<int>, cs: Seq<int>|
            connects(links, ns, cs, start as int, id as int) && sum(cs) == m1[id] as int;
        assert(reaches_within(links, start as int, id as int, t2 as int)) by {
            assert(connects(links, ns, cs, start as int, id as int) && sum(cs) <= t2 as int);
        }
        assert(m2.contains_key(id));
        assert(min_cost_is(links, start as int, id as int, m2[id] as int));
        // Least costs are unique: each bound applies to the other's walk.
        assert(sum(cs) >= m2[id] as int);
        let (ns2, cs2) = choose|ns2: Seq<int>, cs2: Seq<int>|
            connects(links, ns2, cs2, start as int, id as int) && sum(cs2) == m2[id] as int;
        assert(sum(cs2) >= m1[id] as int);
    }
}

/// The catchment of a start node that no link touches holds that node
/// alone: an isolated start yields the singleton mapping (at cost 0, by the
/// engine's own contract).
pub proof fn lemma_isochrone_isolated(
    links: Seq<Link>,
    ids: Seq<u64>,
    start: u64,
    budget: u64,
    m: Map<u64, u64>,
)
    requires
        iso_ok(links, ids, start, budget, m),
        forall|k: int|
            0 <= k < links.len() ==> (#[trigger] links[k]).0 != start && links[k].1 != start,
    ensures
        forall|id: u64| #[trigger] m.contains_key(id) ==> id == start,
{
    assert forall|id: u64| #[trigger] m.contains_key(id) implies id == start by {
        if id != start {
            assert(min_cost_is(links, start as int, id as int, m[id] as int));
            let (ns, cs) = choose|ns: Seq<int>, cs: Seq<int>|
                connects(links, ns, cs, start as int, id as int) && sum(cs) == m[id] as int;
            // The walk leaves the start across some link, which would have
            // to touch it.
            assert(ns.len() >= 2);
            assert(crate::paths::links_connect(links, ns[0], ns[1], cs[0]));
            let k = choose|k: int|
                0 <= k < links.len() && crate::paths::link_is(
                    #[trigger] links[k],
                    ns[0],
                    ns[1],
                    cs[0],
                );
            assert(links[k].0 == start || links[k].1 == start);
            assert(false);
        }
    }
}

} // verus!
