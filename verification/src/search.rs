//! The cost-bounded single-source least-cost search that both engines run,
//! with its full functional-correctness proof.
//!
//! The search is the classic one: a frontier of `(cost, vertex)` entries,
//! a tentative-distance table and a predecessor table. The frontier is held
//! in a plain vector and the cheapest entry is extracted by a scan; the
//! cheapest entry is taken first, and among equally cheap entries the one
//! added earliest wins. A relaxation whose cost would exceed the budget is
//! discarded before it is pushed, which bounds the frontier to the ball the
//! budget can afford.
use crate::graph_store::{arc_entry, arc_touches, graph_arcs, graph_incident, graph_node_count, graph_nodes, StoredArc, UnGraph64};
use crate::paths::{
    connects, cost_lower_bound, has_walk_of, lemma_trivial_walk, lemma_walk_costs_nonneg,
    lemma_walk_extend, lemma_walk_extend_front, lemma_walk_nodes_in_range, lemma_walk_split,
    link_is, links_connect, links_wf, min_cost_is, reaches_within, sum, Link,
};
use vstd::prelude::*;

verus! {

/// The stored arcs as links over vertex indices.
pub open spec fn arc_links(arcs: Seq<StoredArc>) -> Seq<Link> {
    Seq::new(arcs.len(), |k: int| (arcs[k].0 as int, arcs[k].1 as int, arcs[k].3 as int))
}

/// Whether `u` is an endpoint of link `e`.
pub open spec fn arc_touches_link(e: Link, u: int) -> bool {
    e.0 == u || e.1 == u
}

/// Whether a frontier entry is consistent with the distance table: its
/// vertex has a recorded distance no larger than the entry's cost, and the
/// cost is within the budget.
pub open spec fn entry_ok(e: (u64, usize), dist: Seq<Option<u64>>, budget: u64) -> bool {
    &&& (e.1 as int) < dist.len()
    &&& match dist[e.1 as int] {
        Some(dv) => dv <= e.0,
        None => false,
    }
    &&& e.0 <= budget
}

/// Whether the link `e`, incident to `u`, has been relaxed: either crossing
/// it from `u` would exceed the budget, or its far endpoint's recorded
/// distance is no worse than going through `u`.
pub open spec fn relax_ok(e: Link, u: int, dist: Seq<Option<u64>>, budget: u64) -> bool {
    let w = if e.0 == u {
        e.1
    } else {
        e.0
    };
    match dist[u] {
        Some(du) => du + e.2 > budget || match dist[w] {
            Some(dw) => dw <= du + e.2,
            None => false,
        },
        None => false,
    }
}

/// Basic state of the search: the distance table covers the vertices, the
/// start is at distance 0, and every recorded distance is the cost of some
/// walk within the budget.
pub open spec fn dij_base(
    links: Seq<Link>,
    nn: int,
    start: int,
    budget: u64,
    dist: Seq<Option<u64>>,
) -> bool {
    &&& links_wf(links, nn)
    &&& 0 <= start < nn
    &&& dist.len() == nn
    &&& dist[start] == Some(0u64)
    &&& forall|x: int|
        0 <= x < nn ==> match #[trigger] dist[x] {
            Some(d) => has_walk_of(links, start, x, d as int) && d <= budget,
            None => true,
        }
}

/// Every processed vertex's recorded distance is a lower bound on the cost
/// of every walk to it (with soundness, it is the least cost).
pub open spec fn dij_opt(
    links: Seq<Link>,
    nn: int,
    start: int,
    dist: Seq<Option<u64>>,
    processed: Set<int>,
) -> bool {
    forall|x: int|
        #[trigger] processed.contains(x) ==> 0 <= x < nn && match dist[x] {
            Some(d) => cost_lower_bound(links, start, x, d as int),
            None => false,
        }
}

/// Every link incident to `u` has been relaxed.
pub open spec fn relax_done_at(links: Seq<Link>, u: int, dist: Seq<Option<u64>>, budget: u64) -> bool {
    forall|k: int|
        0 <= k < links.len() && arc_touches_link(#[trigger] links[k], u) ==> relax_ok(
            links[k],
            u,
            dist,
            budget,
        )
}

/// Every processed vertex has all its incident links relaxed.
pub open spec fn dij_relax(
    links: Seq<Link>,
    dist: Seq<Option<u64>>,
    processed: Set<int>,
    budget: u64,
) -> bool {
    forall|u: int| #[trigger] processed.contains(u) ==> relax_done_at(links, u, dist, budget)
}

/// Every processed vertex but possibly `v` has all its incident links
/// relaxed (the state while `v` itself is being processed).
pub open spec fn dij_relax_except(
    links: Seq<Link>,
    dist: Seq<Option<u64>>,
    processed: Set<int>,
    budget: u64,
    v: int,
) -> bool {
    forall|u: int|
        #[trigger] processed.contains(u) && u != v ==> relax_done_at(links, u, dist, budget)
}

/// Every frontier entry is consistent with the distance table.
pub open spec fn dij_frontier(
    dist: Seq<Option<u64>>,
    budget: u64,
    frontier: Seq<(u64, usize)>,
) -> bool {
    forall|j: int| 0 <= j < frontier.len() ==> entry_ok(#[trigger] frontier[j], dist, budget)
}

/// Every reached but unprocessed vertex has a frontier entry carrying its
/// current recorded distance.
pub open spec fn dij_pending(
    nn: int,
    dist: Seq<Option<u64>>,
    processed: Set<int>,
    frontier: Seq<(u64, usize)>,
) -> bool {
    forall|x: int|
        0 <= x < nn && (#[trigger] dist[x]) is Some && !processed.contains(x) ==> exists|j: int|
            0 <= j < frontier.len() && (#[trigger] frontier[j]).1 == x && Some(frontier[j].0)
                == dist[x]
}

/// The search's main invariant.
pub open spec fn dij_inv(
    links: Seq<Link>,
    nn: int,
    start: int,
    budget: u64,
    dist: Seq<Option<u64>>,
    processed: Set<int>,
    frontier: Seq<(u64, usize)>,
) -> bool {
    &&& dij_base(links, nn, start, budget, dist)
    &&& dij_opt(links, nn, start, dist, processed)
    &&& dij_relax(links, dist, processed, budget)
    &&& dij_frontier(dist, budget, frontier)
    &&& dij_pending(nn, dist, processed, frontier)
}

/// Predecessor-table well-formedness: every recorded predecessor points
/// across a tight link (`dist[u] + cost == dist[v]`), the hop count grows by
/// one along it, and every reached node other than the start has one.
pub open spec fn pred_ok(
    links: Seq<Link>,
    start: int,
    dist: Seq<Option<u64>>,
    pred: Seq<Option<usize>>,
    hops: Map<int, nat>,
) -> bool {
    &&& pred.len() == dist.len()
    &&& forall|v: int|
        0 <= v < pred.len() && (#[trigger] dist[v]) is Some && v != start ==> pred[v] is Some
    &&& forall|v: int|
        0 <= v < pred.len() ==> match #[trigger] pred[v] {
            Some(u) => {
                &&& v != start
                &&& (u as int) < dist.len()
                &&& match (dist[u as int], dist[v]) {
                    (Some(du), Some(dv)) => du <= dv && links_connect(links, u as int, v, dv - du),
                    _ => false,
                }
                &&& hops.contains_key(u as int)
                &&& hops.contains_key(v)
                &&& hops[v] == hops[u as int] + 1
            },
            None => true,
        }
}

/// Whether every recorded predecessor has itself been processed (and so has
/// a final, optimal distance that will not change again).
pub open spec fn pred_parents_processed(pred: Seq<Option<usize>>, processed: Set<int>) -> bool {
    forall|x: int|
        0 <= x < pred.len() ==> match #[trigger] pred[x] {
            Some(u) => processed.contains(u as int),
            None => true,
        }
}

/// Remove and return a cheapest entry of the frontier; among equally cheap
/// entries the earliest-added one is taken.
fn pop_min(frontier: &mut Vec<(u64, usize)>) -> (r: (u64, usize))
    requires
        old(frontier)@.len() > 0,
    ensures
        exists|j: int|
            0 <= j < old(frontier)@.len() && old(frontier)@[j] == r && final(frontier)@ == old(
                frontier,
            )@.remove(j),
        forall|j: int| 0 <= j < old(frontier)@.len() ==> r.0 <= (#[trigger] old(frontier)@[j]).0,
{
    let mut best: usize = 0;
    let mut i: usize = 1;
    while i < frontier.len()
        invariant
            0 < frontier@.len(),
            0 <= best < i <= frontier@.len(),
            forall|j: int| 0 <= j < i ==> frontier@[best as int].0 <= (#[trigger] frontier@[j]).0,
        decreases frontier@.len() - i,
    {
        if frontier[i].0 < frontier[best].0 {
            best = i;
        }
        i = i + 1;
    }
    let r = frontier[best];
    frontier.remove(best);
    r
}

/// Relax one arc out of `v` (whose recorded distance `c` is final) to its
/// neighbour `w` at arc cost `cw`: if `w` is reachable more cheaply through
/// `v` and within the budget, update its distance and predecessor and push
/// it on the frontier.
#[verifier::loop_isolation(false)]
#[verifier::rlimit(100)]
fn relax_one(
    w: usize,
    cw: u64,
    v: usize,
    c: u64,
    budget: u64,
    dist: &mut Vec<Option<u64>>,
    pred: &mut Vec<Option<usize>>,
    frontier: &mut Vec<(u64, usize)>,
    Ghost(links): Ghost<Seq<Link>>,
    Ghost(nn): Ghost<int>,
    Ghost(start): Ghost<int>,
    Ghost(processed): Ghost<Set<int>>,
    Ghost(hops_in): Ghost<Map<int, nat>>,
) -> (hops_out: Ghost<Map<int, nat>>)
    requires
        links_connect(links, v as int, w as int, cw as int),
        0 <= (w as int) < nn,
        (v as int) < nn,
        old(dist)@[v as int] == Some(c),
        c <= budget,
        cost_lower_bound(links, start, v as int, c as int),
        processed.contains(v as int),
        dij_base(links, nn, start, budget, old(dist)@),
        dij_opt(links, nn, start, old(dist)@, processed),
        dij_frontier(old(dist)@, budget, old(frontier)@),
        dij_pending(nn, old(dist)@, processed, old(frontier)@),
        pred_ok(links, start, old(dist)@, old(pred)@, hops_in),
        pred_parents_processed(old(pred)@, processed),
        hops_in.contains_key(start),
    ensures
        dij_base(links, nn, start, budget, final(dist)@),
        dij_opt(links, nn, start, final(dist)@, processed),
        dij_frontier(final(dist)@, budget, final(frontier)@),
        dij_pending(nn, final(dist)@, processed, final(frontier)@),
        pred_ok(links, start, final(dist)@, final(pred)@, hops_out@),
        pred_parents_processed(final(pred)@, processed),
        hops_out@.contains_key(start),
        final(pred)@.len() == old(pred)@.len(),
        final(dist)@[v as int] == Some(c),
        final(frontier)@.len() >= old(frontier)@.len(),
        // The arc is relaxed afterwards.
        c + cw > budget || (match final(dist)@[w as int] {
            Some(dw) => dw <= c + cw,
            None => false,
        }),
        // Distances never grow and are never forgotten.
        forall|x: int| 0 <= x < nn && x != w as int ==> final(dist)@[x] == old(dist)@[x],
        forall|x: int|
            0 <= x < nn && (#[trigger] old(dist)@[x]) is Some ==> final(dist)@[x] is Some
                && final(dist)@[x]->Some_0 <= old(dist)@[x]->Some_0,
        // Links relaxed at other vertices stay relaxed.
        forall|e: Link, u: int|
            #[trigger] relax_ok(e, u, old(dist)@, budget) && 0 <= u < nn && 0 <= e.0 < nn && 0
                <= e.1 < nn && u != w as int ==> relax_ok(e, u, final(dist)@, budget),
        // Only an unprocessed vertex's distance ever changes.
        final(dist)@[w as int] != old(dist)@[w as int] ==> !processed.contains(w as int),
        // If the arc was already relaxed, nothing changes at all.
        relax_ok_for(links, v as int, w as int, cw, old(dist)@, budget) ==> final(dist)@ == old(
            dist,
        )@ && final(frontier)@ == old(frontier)@ && final(pred)@ == old(pred)@ && hops_out@
            == hops_in,
{
    let ghost mut hops: Map<int, nat> = hops_in;
    let nc128 = (c as u128) + (cw as u128);
    if nc128 <= (budget as u128) {
        let nc = nc128 as u64;
        assert(nc == c + cw);
        let better = match dist[w] {
            Some(dw) => nc < dw,
            None => true,
        };
        if better {
            proof {
                // A walk to w of cost nc exists: the optimal walk to v
                // extended across this arc.
                let (wns, wcs) = choose|ns: Seq<int>, cs: Seq<int>|
                    connects(links, ns, cs, start, v as int) && sum(cs) == c as int;
                lemma_walk_extend(links, wns, wcs, start, v as int, w as int, cw as int);
                assert(has_walk_of(links, start, w as int, nc as int)) by {
                    assert(connects(links, wns.push(w as int), wcs.push(cw as int), start, w as int)
                        && sum(wcs.push(cw as int)) == nc as int);
                }
                // w cannot already be processed: its recorded distance
                // would be a lower bound that nc undercuts.
                if processed.contains(w as int) {
                    assert(sum(wcs.push(cw as int)) >= dist@[w as int]->Some_0);
                    assert(false);
                }
                // Crossing an arc out of v cannot undercut v's own
                // distance, nor the start's zero.
                assert(w as int != v as int);
                assert(w as int != start) by {
                    if w as int == start {
                        assert(dist@[start] == Some(0u64));
                    }
                }
                assert(hops.contains_key(v as int)) by {
                    if v as int != start {
                        assert(dist@[v as int] is Some);
                        assert(pred@[v as int] is Some);
                    }
                }
                hops = hops.insert(w as int, (hops[v as int] + 1) as nat);
            }
            dist.set(w, Some(nc));
            pred.set(w, Some(v));
            frontier.push((nc, w));
        }
    }
    proof {
        // Pending nodes keep a matching frontier entry: entries persist
        // under a push, and a changed distance (only w's can change) comes
        // with a fresh entry.
        assert forall|x: int|
            0 <= x < nn && (#[trigger] dist@[x]) is Some && !processed.contains(x) implies exists|
            j: int,
        |
            0 <= j < frontier@.len() && (#[trigger] frontier@[j]).1 == x && Some(frontier@[j].0)
                == dist@[x] by {
            if dist@[x] == old(dist)@[x] {
                let j = choose|j: int|
                    0 <= j < old(frontier)@.len() && (#[trigger] old(frontier)@[j]).1 == x && Some(
                        old(frontier)@[j].0,
                    ) == old(dist)@[x];
                assert(frontier@[j] == old(frontier)@[j]);
            } else {
                assert(x == w as int);
                assert(frontier@[frontier@.len() - 1].1 == w && Some(
                    frontier@[frontier@.len() - 1].0,
                ) == dist@[x]);
            }
        }
        // Relaxed links at vertices other than w stay relaxed: their own
        // distance is unchanged and far-endpoint distances only shrink.
        assert forall|e: Link, u: int|
            #[trigger] relax_ok(e, u, old(dist)@, budget) && 0 <= u < nn && 0 <= e.0 < nn && 0
                <= e.1 < nn && u != w as int implies relax_ok(e, u, dist@, budget) by {
            let ww = if e.0 == u {
                e.1
            } else {
                e.0
            };
            assert(dist@[u] == old(dist)@[u]);
            if ww != w as int {
                assert(dist@[ww] == old(dist)@[ww]);
            }
        }
    }
    Ghost(hops)
}

/// Whether the specific link from `v` to `w` at cost `cw` counts as relaxed
/// under the given distance table.
pub open spec fn relax_ok_for(
    links: Seq<Link>,
    v: int,
    w: int,
    cw: u64,
    dist: Seq<Option<u64>>,
    budget: u64,
) -> bool {
    match dist[v] {
        Some(dv) => dv + cw > budget || match dist[w] {
            Some(dw) => dw <= dv + cw,
            None => false,
        },
        None => false,
    }
}

/// Relax every arc incident to `v`, whose recorded distance `c` is final:
/// any neighbour reachable more cheaply through `v` (and within the budget)
/// has its distance and predecessor updated and is pushed on the frontier.
#[verifier::loop_isolation(false)]
#[verifier::rlimit(100)]
fn relax_incident(
    g: &UnGraph64,
    v: usize,
    c: u64,
    budget: u64,
    dist: &mut Vec<Option<u64>>,
    pred: &mut Vec<Option<usize>>,
    frontier: &mut Vec<(u64, usize)>,
    Ghost(start): Ghost<int>,
    Ghost(processed): Ghost<Set<int>>,
    Ghost(hops_in): Ghost<Map<int, nat>>,
) -> (hops_out: Ghost<Map<int, nat>>)
    requires
        (v as int) < graph_nodes(*g).len(),
        old(dist)@[v as int] == Some(c),
        c <= budget,
        cost_lower_bound(arc_links(graph_arcs(*g)), start, v as int, c as int),
        processed.contains(v as int),
        dij_base(arc_links(graph_arcs(*g)), graph_nodes(*g).len() as int, start, budget, old(dist)@),
        dij_opt(
            arc_links(graph_arcs(*g)),
            graph_nodes(*g).len() as int,
            start,
            old(dist)@,
            processed,
        ),
        dij_relax_except(arc_links(graph_arcs(*g)), old(dist)@, processed, budget, v as int),
        dij_frontier(old(dist)@, budget, old(frontier)@),
        dij_pending(graph_nodes(*g).len() as int, old(dist)@, processed, old(frontier)@),
        pred_ok(arc_links(graph_arcs(*g)), start, old(dist)@, old(pred)@, hops_in),
        pred_parents_processed(old(pred)@, processed),
        hops_in.contains_key(start),
    ensures
        dij_base(
            arc_links(graph_arcs(*g)),
            graph_nodes(*g).len() as int,
            start,
            budget,
            final(dist)@,
        ),
        dij_opt(
            arc_links(graph_arcs(*g)),
            graph_nodes(*g).len() as int,
            start,
            final(dist)@,
            processed,
        ),
        dij_relax(arc_links(graph_arcs(*g)), final(dist)@, processed, budget),
        dij_frontier(final(dist)@, budget, final(frontier)@),
        dij_pending(graph_nodes(*g).len() as int, final(dist)@, processed, final(frontier)@),
        pred_ok(arc_links(graph_arcs(*g)), start, final(dist)@, final(pred)@, hops_out@),
        pred_parents_processed(final(pred)@, processed),
        hops_out@.contains_key(start),
        final(pred)@.len() == old(pred)@.len(),
        final(frontier)@.len() >= old(frontier)@.len(),
        relax_done_at(arc_links(graph_arcs(*g)), v as int, old(dist)@, budget)
            ==> final(frontier)@.len() == old(frontier)@.len(),
{
    let ghost links = arc_links(graph_arcs(*g));
    let ghost nn = graph_nodes(*g).len() as int;
    let mut hops_g: Ghost<Map<int, nat>> = Ghost(hops_in);
    let inc = graph_incident(g, v);
    let mut i: usize = 0;
    while i < inc.len()
        invariant
            i <= inc@.len(),
            dist@[v as int] == Some(c),
            dij_base(links, nn, start, budget, dist@),
            dij_opt(links, nn, start, dist@, processed),
            forall|j: int|
                0 <= j < i ==> c + (#[trigger] inc@[j]).2 > budget || ((inc@[j].0 as int) < nn
                    && match dist@[inc@[j].0 as int] {
                    Some(dw) => dw <= c + inc@[j].2,
                    None => false,
                }),
            dij_frontier(dist@, budget, frontier@),
            dij_pending(nn, dist@, processed, frontier@),
            pred_ok(links, start, dist@, pred@, hops_g@),
            pred_parents_processed(pred@, processed),
            hops_g@.contains_key(start),
            pred@.len() == old(pred)@.len(),
            frontier@.len() >= old(frontier)@.len(),
            forall|e: Link, u: int|
                #[trigger] relax_ok(e, u, old(dist)@, budget) && 0 <= e.0 < nn && 0 <= e.1 < nn
                    && processed.contains(u) ==> relax_ok(e, u, dist@, budget),
            forall|x: int| 0 <= x < nn && (#[trigger] old(dist)@[x]) is Some ==> dist@[x] is Some
                && dist@[x]->Some_0 <= old(dist)@[x]->Some_0,
            relax_done_at(links, v as int, old(dist)@, budget) ==> frontier@.len() == old(
                frontier,
            )@.len() && dist@ == old(dist)@,
        decreases inc@.len() - i,
    {
        let (w, _eid, cw) = inc[i];
        proof {
            let k = choose|k: int|
                0 <= k < graph_arcs(*g).len() && arc_touches(graph_arcs(*g)[k], v as int)
                    && inc@[i as int] == arc_entry(graph_arcs(*g)[k], v as int);
            assert(links[k] == (
                graph_arcs(*g)[k].0 as int,
                graph_arcs(*g)[k].1 as int,
                graph_arcs(*g)[k].3 as int,
            ));
            assert(link_is(links[k], v as int, w as int, cw as int));
            assert(links_connect(links, v as int, w as int, cw as int));
            assert(0 <= (w as int) < nn && 0 <= cw) by {
                assert(links_wf(links, nn));
            }
            // If every arc of v was already relaxed at entry, so is this
            // one, and under the unchanged table it still is.
            if relax_done_at(links, v as int, old(dist)@, budget) {
                assert(arc_touches_link(links[k], v as int));
                assert(relax_ok(links[k], v as int, old(dist)@, budget));
                assert(relax_ok_for(links, v as int, w as int, cw, dist@, budget));
            }
        }
        let ghost pre_dist = dist@;
        let ghost pre_frontier = frontier@;
        hops_g = relax_one(
            w,
            cw,
            v,
            c,
            budget,
            dist,
            pred,
            frontier,
            Ghost(links),
            Ghost(nn),
            Ghost(start),
            Ghost(processed),
            hops_g,
        );
        proof {
            // Relaxations recorded at earlier entries persist: distances
            // only shrink and are never forgotten.
            assert forall|j: int| 0 <= j < i + 1 implies c + (#[trigger] inc@[j]).2 > budget || ((
            inc@[j].0 as int) < nn && match dist@[inc@[j].0 as int] {
                Some(dw) => dw <= c + inc@[j].2,
                None => false,
            }) by {
                if j < i {
                    if !(c + inc@[j].2 > budget) {
                        assert(pre_dist[inc@[j].0 as int] is Some);
                    }
                }
            }
            // Relaxed links at processed vertices stay relaxed: the only
            // vertex whose distance may have changed is w, and only if w is
            // unprocessed.
            assert forall|e: Link, u: int|
                #[trigger] relax_ok(e, u, old(dist)@, budget) && 0 <= e.0 < nn && 0 <= e.1 < nn
                    && processed.contains(u) implies relax_ok(e, u, dist@, budget) by {
                assert(relax_ok(e, u, pre_dist, budget));
                assert(0 <= u < nn);
                if u == w as int {
                    assert forall|x: int| 0 <= x < nn implies dist@[x] == pre_dist[x] by {}
                    assert(dist@ =~= pre_dist);
                }
            }
        }
        i = i + 1;
    }
    proof {
        // Every arc incident to v is now relaxed.
        assert forall|k: int|
            0 <= k < links.len() && arc_touches_link(#[trigger] links[k], v as int) implies relax_ok(
            links[k],
            v as int,
            dist@,
            budget,
        ) by {
            assert(arc_touches(graph_arcs(*g)[k], v as int));
            let j2 = choose|j2: int|
                0 <= j2 < inc@.len() && inc@[j2] == arc_entry(graph_arcs(*g)[k], v as int);
            assert(c + inc@[j2].2 > budget || ((inc@[j2].0 as int) < nn
                && match dist@[inc@[j2].0 as int] {
                Some(dw) => dw <= c + inc@[j2].2,
                None => false,
            }));
        }
        // Relaxations at other processed vertices carried through.
        assert forall|u: int| #[trigger] processed.contains(u) && u != v as int implies relax_done_at(
            links,
            u,
            dist@,
            budget,
        ) by {
            assert forall|k: int|
                0 <= k < links.len() && arc_touches_link(#[trigger] links[k], u) implies relax_ok(
                links[k],
                u,
                dist@,
                budget,
            ) by {
                assert(relax_ok(links[k], u, old(dist)@, budget));
            }
        }
    }
    hops_g
}

/// The single-source, cost-bounded least-cost search. Returns the distance
/// table (the least walk cost to each vertex, for each vertex one within
/// the budget can reach), the predecessor table for path reconstruction,
/// and the ghost hop counts that bound every predecessor chain.
#[verifier::loop_isolation(false)]
#[verifier::rlimit(100)]
pub(crate) fn dijkstra(g: &UnGraph64, start: usize, budget: u64) -> (res: (
    Vec<Option<u64>>,
    Vec<Option<usize>>,
    Ghost<Map<int, nat>>,
))
    requires
        (start as int) < graph_nodes(*g).len(),
        links_wf(arc_links(graph_arcs(*g)), graph_nodes(*g).len() as int),
    ensures
        res.0@.len() == graph_nodes(*g).len(),
        res.1@.len() == graph_nodes(*g).len(),
        res.0@[start as int] == Some(0u64),
        forall|v: int|
            0 <= v < graph_nodes(*g).len() ==> match #[trigger] res.0@[v] {
                Some(d) => min_cost_is(arc_links(graph_arcs(*g)), start as int, v, d as int) && d
                    <= budget,
                None => !reaches_within(
                    arc_links(graph_arcs(*g)),
                    start as int,
                    v,
                    budget as int,
                ),
            },
        pred_ok(arc_links(graph_arcs(*g)), start as int, res.0@, res.1@, res.2@),
{
    let ghost links = arc_links(graph_arcs(*g));
    let n = graph_node_count(g);
    let ghost nn = n as int;
    let mut dist: Vec<Option<u64>> = vec![None; n];
    let mut pred: Vec<Option<usize>> = vec![None; n];
    let mut frontier: Vec<(u64, usize)> = Vec::new();
    let ghost mut processed: Set<int> = Set::empty();
    let mut hops: Ghost<Map<int, nat>> = Ghost(Map::empty().insert(start as int, 0nat));
    dist.set(start, Some(0u64));
    frontier.push((0u64, start));
    proof {
        lemma_trivial_walk(links, start as int);
        assert(has_walk_of(links, start as int, start as int, 0)) by {
            assert(connects(
                links,
                seq![start as int],
                Seq::<int>::empty(),
                start as int,
                start as int,
            ) && sum(Seq::<int>::empty()) == 0);
        }
        vstd::set_lib::lemma_int_range(0, nn);
        assert forall|x: int|
            0 <= x < nn && (#[trigger] dist@[x]) is Some && !processed.contains(x) implies exists|
            j2: int,
        |
            0 <= j2 < frontier@.len() && (#[trigger] frontier@[j2]).1 == x && Some(frontier@[j2].0)
                == dist@[x] by {
            assert(x == start as int);
            assert(frontier@[0].1 == start && Some(frontier@[0].0) == dist@[start as int]);
        }
        assert(dij_inv(links, nn, start as int, budget, dist@, processed, frontier@));
    }
    while frontier.len() > 0
        invariant
            dij_inv(links, nn, start as int, budget, dist@, processed, frontier@),
            pred_ok(links, start as int, dist@, pred@, hops@),
            pred_parents_processed(pred@, processed),
            pred@.len() == nn,
            hops@.contains_key(start as int),
            processed.subset_of(vstd::set_lib::set_int_range(0, nn)),
            processed.finite(),
            processed.len() <= nn,
        decreases nn - processed.len(), frontier@.len(),
    {
        let ghost pre_frontier = frontier@;
        let ghost pre_processed = processed;
        let (c, v) = pop_min(&mut frontier);
        proof {
            let jrem = choose|j: int|
                0 <= j < pre_frontier.len() && pre_frontier[j] == (c, v) && frontier@
                    == pre_frontier.remove(j);
            assert(entry_ok(pre_frontier[jrem], dist@, budget));
            // Every pending node other than the taken entry's keeps a
            // matching frontier entry after the removal.
            assert forall|x: int|
                0 <= x < nn && (#[trigger] dist@[x]) is Some && !processed.contains(x) && !(x
                    == v as int && Some(c) == dist@[x]) implies exists|j2: int|
                0 <= j2 < frontier@.len() && (#[trigger] frontier@[j2]).1 == x && Some(
                    frontier@[j2].0,
                ) == dist@[x] by {
                let j = choose|j: int|
                    0 <= j < pre_frontier.len() && (#[trigger] pre_frontier[j]).1 == x && Some(
                        pre_frontier[j].0,
                    ) == dist@[x];
                if j == jrem {
                    assert(false);
                } else if j < jrem {
                    assert(frontier@[j] == pre_frontier[j]);
                } else {
                    assert(frontier@[j - 1] == pre_frontier[j]);
                }
            }
        }
        let dv = match dist[v] {
            Some(d) => d,
            None => vstd::pervasive::unreached(),
        };
        if c <= dv {
            // c == dv: the entry is current, so v's recorded distance is
            // final; process v by relaxing every incident arc.
            proof {
                assert(c == dv);
                if !processed.contains(v as int) {
                    assert forall|ns: Seq<int>, cs: Seq<int>|
                        connects(links, ns, cs, start as int, v as int) implies sum(cs)
                        >= c as int by {
                        lemma_pop_min_optimal(
                            links,
                            nn,
                            start as int,
                            budget,
                            dist@,
                            processed,
                            pre_frontier,
                            c,
                            ns,
                            cs,
                            v as int,
                        );
                    }
                }
                assert(cost_lower_bound(links, start as int, v as int, c as int));
                processed = processed.insert(v as int);
                vstd::set_lib::lemma_len_subset(processed, vstd::set_lib::set_int_range(0, nn));
            }
            hops = relax_incident(
                g,
                v,
                c,
                budget,
                &mut dist,
                &mut pred,
                &mut frontier,
                Ghost(start as int),
                Ghost(processed),
                hops,
            );
            proof {
                if pre_processed.contains(v as int) {
                    assert(processed =~= pre_processed);
                    assert(relax_done_at(links, v as int, dist@, budget));
                }
            }
        }
        // Otherwise the entry is stale (a cheaper one for v was already
        // taken) and is dropped.
    }
    proof {
        // The frontier is empty, so every reached node has been processed:
        // recorded distances are least costs, and nodes without one are out
        // of the budget's reach.
        assert forall|x: int| 0 <= x < nn implies match #[trigger] dist@[x] {
            Some(d) => min_cost_is(links, start as int, x, d as int) && d <= budget,
            None => !reaches_within(links, start as int, x, budget as int),
        } by {
            match dist@[x] {
                Some(d) => {
                    assert(processed.contains(x));
                },
                None => {
                    if reaches_within(links, start as int, x, budget as int) {
                        let (ns, cs) = choose|ns: Seq<int>, cs: Seq<int>|
                            connects(links, ns, cs, start as int, x) && sum(cs) <= budget as int;
                        lemma_exhausted_unreachable(
                            links,
                            nn,
                            start as int,
                            budget,
                            dist@,
                            processed,
                            ns,
                            cs,
                            x,
                        );
                    }
                },
            }
        }
    }
    (dist, pred, hops)
}

/// Rebuild a least-cost path from `start` to `target` by walking the
/// predecessor table backwards and reversing; each predecessor step crosses
/// a tight link, so the whole path costs exactly the recorded distance.
#[verifier::rlimit(100)]
pub(crate) fn reconstruct_path(
    dist: &Vec<Option<u64>>,
    pred: &Vec<Option<usize>>,
    start: usize,
    target: usize,
    Ghost(links): Ghost<Seq<Link>>,
    Ghost(hops): Ghost<Map<int, nat>>,
) -> (path: Vec<usize>)
    requires
        pred_ok(links, start as int, dist@, pred@, hops),
        (start as int) < dist@.len(),
        (target as int) < dist@.len(),
        dist@[start as int] == Some(0u64),
        dist@[target as int] is Some,
    ensures
        path@.len() >= 1,
        path@[0] == start,
        path@[path@.len() - 1] == target,
        forall|i: int| 0 <= i < path@.len() ==> ((#[trigger] path@[i]) as int) < dist@.len(),
        exists|cs: Seq<int>|
            connects(
                links,
                path@.map_values(|x: usize| x as int),
                cs,
                start as int,
                target as int,
            ) && sum(cs) == dist@[target as int]->Some_0,
{
    let mut rev: Vec<usize> = Vec::new();
    let mut cur: usize = target;
    rev.push(cur);
    let ghost mut ns_acc: Seq<int> = seq![target as int];
    let ghost mut cs_acc: Seq<int> = Seq::empty();
    proof {
        lemma_trivial_walk(links, target as int);
    }
    loop
        invariant
            pred_ok(links, start as int, dist@, pred@, hops),
            (start as int) < dist@.len(),
            (target as int) < dist@.len(),
            dist@[start as int] == Some(0u64),
            dist@[target as int] is Some,
            (cur as int) < dist@.len(),
            dist@[cur as int] is Some,
            rev@.len() >= 1,
            rev@[0] == target,
            rev@[rev@.len() - 1] == cur,
            ns_acc.len() == rev@.len(),
            forall|j: int|
                0 <= j < rev@.len() ==> ns_acc[j] == ((#[trigger] rev@[rev@.len() - 1 - j]) as int),
            forall|j: int| 0 <= j < rev@.len() ==> ((#[trigger] rev@[j]) as int) < dist@.len(),
            connects(links, ns_acc, cs_acc, cur as int, target as int),
            sum(cs_acc) == dist@[target as int]->Some_0 - dist@[cur as int]->Some_0,
        ensures
            pred@[cur as int] is None,
        decreases (if hops.contains_key(cur as int) {
            hops[cur as int]
        } else {
            0nat
        }),
    {
        let next = pred[cur];
        match next {
            Some(u) => {
                let ghost pre_rev = rev@;
                let ghost pre_ns = ns_acc;
                proof {
                    let du = dist@[u as int]->Some_0;
                    let dc = dist@[cur as int]->Some_0;
                    assert(links_connect(links, u as int, cur as int, dc - du));
                    lemma_walk_extend_front(
                        links,
                        ns_acc,
                        cs_acc,
                        cur as int,
                        target as int,
                        u as int,
                        dc - du,
                    );
                    ns_acc = seq![u as int] + ns_acc;
                    cs_acc = seq![dc - du] + cs_acc;
                    assert(hops[cur as int] == hops[u as int] + 1);
                }
                rev.push(u);
                cur = u;
                proof {
                    let l = pre_rev.len() as int;
                    assert forall|j: int| 0 <= j < rev@.len() implies ns_acc[j] == ((
                    #[trigger] rev@[rev@.len() - 1 - j]) as int) by {
                        if j == 0 {
                            assert(ns_acc[0] == u as int);
                            assert(rev@[rev@.len() - 1] == u);
                        } else {
                            assert(ns_acc[j] == pre_ns[j - 1]);
                            assert(pre_ns[j - 1] == (pre_rev[l - 1 - (j - 1)] as int));
                            assert(rev@[rev@.len() - 1 - j] == pre_rev[l - j]);
                        }
                    }
                }
            },
            None => {
                break ;
            },
        }
    }
    proof {
        // Only the start node is reached without a predecessor.
        assert(cur == start);
    }
    let mut path: Vec<usize> = Vec::new();
    let mut i: usize = rev.len();
    while i > 0
        invariant
            i <= rev@.len(),
            path@.len() == rev@.len() - i,
            forall|j: int|
                0 <= j < path@.len() ==> (#[trigger] path@[j]) == rev@[rev@.len() - 1 - j],
        decreases i,
    {
        i = i - 1;
        path.push(rev[i]);
    }
    proof {
        assert(path@.map_values(|x: usize| x as int) =~= ns_acc);
        assert(connects(
            links,
            path@.map_values(|x: usize| x as int),
            cs_acc,
            start as int,
            target as int,
        ) && sum(cs_acc) == dist@[target as int]->Some_0);
        assert(path@[0] == rev@[rev@.len() - 1]);
    }
    path
}

/// At the moment a cheapest frontier entry `(d, v)` is taken, no walk from
/// the start to any unprocessed node costs less than `d`.
proof fn lemma_pop_min_optimal(
    links: Seq<Link>,
    n: int,
    start: int,
    budget: u64,
    dist: Seq<Option<u64>>,
    processed: Set<int>,
    frontier: Seq<(u64, usize)>,
    d: u64,
    ns: Seq<int>,
    cs: Seq<int>,
    t: int,
)
    requires
        dij_inv(links, n, start, budget, dist, processed, frontier),
        forall|j: int| 0 <= j < frontier.len() ==> d <= (#[trigger] frontier[j]).0,
        d <= budget,
        connects(links, ns, cs, start, t),
        !processed.contains(t),
    ensures
        sum(cs) >= d,
    decreases ns.len(),
{
    lemma_walk_costs_nonneg(links, n, ns, cs);
    if ns.len() == 1 {
        // The walk is the trivial one at the start node, which is pending
        // with recorded distance 0, so d is at most 0.
        assert(t == start);
        assert(dist[start] is Some);
        let j = choose|j: int|
            0 <= j < frontier.len() && (#[trigger] frontier[j]).1 == start && Some(frontier[j].0)
                == dist[start];
        assert(frontier[j].0 == 0);
        assert(d <= 0);
        assert(sum(cs) >= 0);
    } else {
        let y = ns[ns.len() - 2];
        lemma_walk_split(links, ns, cs, start, t);
        let cl = cs.last();
        let prefix_ns = ns.drop_last();
        let prefix_cs = cs.drop_last();
        lemma_walk_costs_nonneg(links, n, prefix_ns, prefix_cs);
        if processed.contains(y) {
            let dy = dist[y]->Some_0;
            assert(cost_lower_bound(links, start, y, dy as int));
            assert(sum(prefix_cs) >= dy);
            // The link from y to t has been relaxed.
            let k = choose|k: int| 0 <= k < links.len() && link_is(#[trigger] links[k], y, t, cl);
            assert(arc_touches_link(links[k], y));
            assert(relax_ok(links[k], y, dist, budget));
            let w = if links[k].0 == y {
                links[k].1
            } else {
                links[k].0
            };
            if w == y {
                // A self-loop at y: then t == y, but t is unprocessed and y
                // is processed.
                assert(t == y);
                assert(false);
            }
            assert(w == t);
            if dy + cl > budget {
                assert(sum(cs) == sum(prefix_cs) + cl >= dy + cl > budget >= d);
            } else {
                let dt = dist[t]->Some_0;
                assert(dist[t] is Some && dt <= dy + cl);
                let j = choose|j: int|
                    0 <= j < frontier.len() && (#[trigger] frontier[j]).1 == t && Some(
                        frontier[j].0,
                    ) == dist[t];
                assert(d <= frontier[j].0 == dt);
                assert(sum(cs) == sum(prefix_cs) + cl >= dy + cl >= dt >= d);
            }
        } else {
            lemma_pop_min_optimal(
                links,
                n,
                start,
                budget,
                dist,
                processed,
                frontier,
                d,
                prefix_ns,
                prefix_cs,
                y,
            );
            assert(sum(cs) == sum(prefix_cs) + cl >= d);
        }
    }
}

/// When the frontier has emptied, every node still without a recorded
/// distance is beyond the budget: any walk to it costs more than the budget.
proof fn lemma_exhausted_unreachable(
    links: Seq<Link>,
    n: int,
    start: int,
    budget: u64,
    dist: Seq<Option<u64>>,
    processed: Set<int>,
    ns: Seq<int>,
    cs: Seq<int>,
    t: int,
)
    requires
        dij_inv(links, n, start, budget, dist, processed, Seq::<(u64, usize)>::empty()),
        connects(links, ns, cs, start, t),
        0 <= t < n,
        dist[t] is None,
    ensures
        sum(cs) > budget,
    decreases ns.len(),
{
    lemma_walk_costs_nonneg(links, n, ns, cs);
    if ns.len() == 1 {
        // Impossible: the start node always has a recorded distance.
        assert(t == start);
        assert(dist[start] is Some);
    } else {
        let y = ns[ns.len() - 2];
        lemma_walk_split(links, ns, cs, start, t);
        let cl = cs.last();
        let prefix_ns = ns.drop_last();
        let prefix_cs = cs.drop_last();
        lemma_walk_costs_nonneg(links, n, prefix_ns, prefix_cs);
        lemma_walk_nodes_in_range(links, n, ns, cs);
        assert(0 <= y < n);
        match dist[y] {
            None => {
                lemma_exhausted_unreachable(
                    links,
                    n,
                    start,
                    budget,
                    dist,
                    processed,
                    prefix_ns,
                    prefix_cs,
                    y,
                );
                assert(sum(cs) == sum(prefix_cs) + cl > budget);
            },
            Some(dy) => {
                // y has a distance and the frontier is empty, so y has been
                // processed and the link from y to t was relaxed; since t
                // has no distance, crossing the link must exceed the budget.
                assert(processed.contains(y));
                assert(cost_lower_bound(links, start, y, dy as int));
                assert(sum(prefix_cs) >= dy);
                let k = choose|k: int|
                    0 <= k < links.len() && link_is(#[trigger] links[k], y, t, cl);
                assert(arc_touches_link(links[k], y));
                assert(relax_ok(links[k], y, dist, budget));
                let w = if links[k].0 == y {
                    links[k].1
                } else {
                    links[k].0
                };
                if w == y {
                    assert(t == y);
                    assert(false);
                }
                assert(w == t);
                assert(dy + cl > budget);
                assert(sum(cs) == sum(prefix_cs) + cl >= dy + cl > budget);
            },
        }
    }
}

} // verus!
