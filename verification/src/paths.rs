//! Walks and least travel costs over a sequence of undirected links.
//!
//! A link joins two node labels at a nonnegative cost; a walk is a node
//! sequence together with the cost of each step. The searches' contracts are
//! stated in terms of these definitions: which nodes a walk of a given
//! budget can reach, and what the least cost of reaching one is.
use vstd::prelude::*;

verus! {

/// A link: two endpoint labels and the traversal cost. Links are
/// undirected: a step may cross a link in either direction.
pub type Link = (int, int, int);

/// Whether link `e` joins `u` and `v` (in either orientation) at cost `c`.
pub open spec fn link_is(e: Link, u: int, v: int, c: int) -> bool {
    c == e.2 && ((e.0 == u && e.1 == v) || (e.0 == v && e.1 == u))
}

/// Whether some link joins `u` and `v` at cost `c`.
pub open spec fn links_connect(links: Seq<Link>, u: int, v: int, c: int) -> bool {
    exists|k: int| 0 <= k < links.len() && link_is(#[trigger] links[k], u, v, c)
}

/// Whether `ns` visits nodes along existing links, paying `cs[i]` for the
/// step from `ns[i]` to `ns[i + 1]`.
pub open spec fn is_walk(links: Seq<Link>, ns: Seq<int>, cs: Seq<int>) -> bool {
    &&& ns.len() == cs.len() + 1
    &&& forall|i: int| 0 <= i < cs.len() ==> links_connect(links, ns[i], ns[i + 1], #[trigger] cs[i])
}

/// The total cost of a walk's steps.
pub open spec fn sum(cs: Seq<int>) -> int
    decreases cs.len(),
{
    if cs.len() == 0 {
        0
    } else {
        sum(cs.drop_last()) + cs.last()
    }
}

/// Whether `(ns, cs)` is a walk from `s` to `t`.
pub open spec fn connects(links: Seq<Link>, ns: Seq<int>, cs: Seq<int>, s: int, t: int) -> bool {
    &&& is_walk(links, ns, cs)
    &&& ns.first() == s
    &&& ns.last() == t
}

/// Whether some walk from `s` to `t` costs at most `budget`.
pub open spec fn reaches_within(links: Seq<Link>, s: int, t: int, budget: int) -> bool {
    exists|ns: Seq<int>, cs: Seq<int>| connects(links, ns, cs, s, t) && sum(cs) <= budget
}

/// Whether some walk from `s` to `t` costs exactly `d`.
pub open spec fn has_walk_of(links: Seq<Link>, s: int, t: int, d: int) -> bool {
    exists|ns: Seq<int>, cs: Seq<int>| connects(links, ns, cs, s, t) && sum(cs) == d
}

/// Whether every walk from `s` to `t` costs at least `d`.
pub open spec fn cost_lower_bound(links: Seq<Link>, s: int, t: int, d: int) -> bool {
    forall|ns: Seq<int>, cs: Seq<int>| connects(links, ns, cs, s, t) ==> sum(cs) >= d
}

/// Whether `d` is the least cost of any walk from `s` to `t`: some walk
/// costs exactly `d`, and no walk costs less.
pub open spec fn min_cost_is(links: Seq<Link>, s: int, t: int, d: int) -> bool {
    &&& has_walk_of(links, s, t, d)
    &&& cost_lower_bound(links, s, t, d)
}

/// Well-formedness of a link sequence over `n` node labels: endpoints lie in
/// `[0, n)` and costs are nonnegative.
pub open spec fn links_wf(links: Seq<Link>, n: int) -> bool {
    forall|k: int|
        0 <= k < links.len() ==> 0 <= (#[trigger] links[k]).0 < n && 0 <= links[k].1 < n && 0
            <= links[k].2
}

/// Appending one step's cost adds that cost to the total.
pub proof fn lemma_sum_push(cs: Seq<int>, c: int)
    ensures
        sum(cs.push(c)) == sum(cs) + c,
{
    assert(cs.push(c).drop_last() =~= cs);
    assert(cs.push(c).last() == c);
}

/// A walk over well-formed links pays a nonnegative cost at every step, so
/// its total is nonnegative and no prefix total exceeds the whole.
pub proof fn lemma_sum_nonneg(cs: Seq<int>)
    requires
        forall|i: int| 0 <= i < cs.len() ==> 0 <= #[trigger] cs[i],
    ensures
        sum(cs) >= 0,
    decreases cs.len(),
{
    if cs.len() > 0 {
        lemma_sum_nonneg(cs.drop_last());
    }
}

/// Every step of a walk over well-formed links has a nonnegative cost.
pub proof fn lemma_walk_costs_nonneg(links: Seq<Link>, n: int, ns: Seq<int>, cs: Seq<int>)
    requires
        links_wf(links, n),
        is_walk(links, ns, cs),
    ensures
        forall|i: int| 0 <= i < cs.len() ==> 0 <= #[trigger] cs[i],
        sum(cs) >= 0,
{
    assert forall|i: int| 0 <= i < cs.len() implies 0 <= #[trigger] cs[i] by {
        let k = choose|k: int| 0 <= k < links.len() && link_is(#[trigger] links[k], ns[i], ns[i + 1], cs[i]);
        assert(0 <= links[k].2);
    }
    lemma_sum_nonneg(cs);
}

/// Every node a walk over well-formed links visits after its first lies in
/// `[0, n)`.
pub proof fn lemma_walk_nodes_in_range(links: Seq<Link>, n: int, ns: Seq<int>, cs: Seq<int>)
    requires
        links_wf(links, n),
        is_walk(links, ns, cs),
    ensures
        forall|i: int| 1 <= i < ns.len() ==> 0 <= #[trigger] ns[i] < n,
{
    assert forall|i: int| 1 <= i < ns.len() implies 0 <= #[trigger] ns[i] < n by {
        assert(links_connect(links, ns[i - 1], ns[i], cs[i - 1]));
        let k = choose|k: int|
            0 <= k < links.len() && link_is(#[trigger] links[k], ns[i - 1], ns[i], cs[i - 1]);
        assert(0 <= links[k].0 < n && 0 <= links[k].1 < n);
    }
}

/// The one-node walk: a walk from `s` to `s` of cost 0.
pub proof fn lemma_trivial_walk(links: Seq<Link>, s: int)
    ensures
        connects(links, seq![s], Seq::<int>::empty(), s, s),
        sum(Seq::<int>::empty()) == 0,
{
}

/// Extending a walk to `t` across a link from `t` to `v` yields a walk to
/// `v` whose cost grows by the link's cost.
pub proof fn lemma_walk_extend(
    links: Seq<Link>,
    ns: Seq<int>,
    cs: Seq<int>,
    s: int,
    t: int,
    v: int,
    c: int,
)
    requires
        connects(links, ns, cs, s, t),
        links_connect(links, t, v, c),
    ensures
        connects(links, ns.push(v), cs.push(c), s, v),
        sum(cs.push(c)) == sum(cs) + c,
{
    lemma_sum_push(cs, c);
    let ns2 = ns.push(v);
    let cs2 = cs.push(c);
    assert forall|i: int| 0 <= i < cs2.len() implies links_connect(
        links,
        ns2[i],
        ns2[i + 1],
        #[trigger] cs2[i],
    ) by {
        if i < cs.len() {
            assert(links_connect(links, ns[i], ns[i + 1], cs[i]));
            assert(ns2[i] == ns[i] && ns2[i + 1] == ns[i + 1] && cs2[i] == cs[i]);
        } else {
            assert(ns2[i] == ns.last() && ns2[i + 1] == v && cs2[i] == c);
        }
    }
}

/// Prepending one step's cost adds that cost to the total.
pub proof fn lemma_sum_prepend(c: int, cs: Seq<int>)
    ensures
        sum(seq![c] + cs) == c + sum(cs),
    decreases cs.len(),
{
    if cs.len() == 0 {
        assert(seq![c] + cs =~= seq![c]);
        assert(sum(seq![c]) == sum(seq![c].drop_last()) + c);
        assert(seq![c].drop_last() =~= Seq::<int>::empty());
    } else {
        assert((seq![c] + cs).drop_last() =~= seq![c] + cs.drop_last());
        assert((seq![c] + cs).last() == cs.last());
        lemma_sum_prepend(c, cs.drop_last());
    }
}

/// Extending a walk from `s` backwards across a link from `u` to `s` yields
/// a walk from `u` whose cost grows by the link's cost.
pub proof fn lemma_walk_extend_front(
    links: Seq<Link>,
    ns: Seq<int>,
    cs: Seq<int>,
    s: int,
    t: int,
    u: int,
    c: int,
)
    requires
        connects(links, ns, cs, s, t),
        links_connect(links, u, s, c),
    ensures
        connects(links, seq![u] + ns, seq![c] + cs, u, t),
        sum(seq![c] + cs) == c + sum(cs),
{
    lemma_sum_prepend(c, cs);
    let ns2 = seq![u] + ns;
    let cs2 = seq![c] + cs;
    assert(ns2.len() == cs2.len() + 1);
    assert(ns2.first() == u);
    assert(ns2.last() == t);
    assert forall|i: int| 0 <= i < cs2.len() implies links_connect(
        links,
        ns2[i],
        ns2[i + 1],
        #[trigger] cs2[i],
    ) by {
        if i == 0 {
            assert(ns2[0] == u && ns2[1] == ns[0] && cs2[0] == c);
        } else {
            assert(ns2[i] == ns[i - 1] && ns2[i + 1] == ns[i] && cs2[i] == cs[i - 1]);
            assert(links_connect(links, ns[i - 1], ns[i], cs[i - 1]));
        }
    }
}

/// A walk of two or more nodes splits into a walk to its second-to-last
/// node and one final step.
pub proof fn lemma_walk_split(links: Seq<Link>, ns: Seq<int>, cs: Seq<int>, s: int, t: int)
    requires
        connects(links, ns, cs, s, t),
        ns.len() >= 2,
    ensures
        connects(links, ns.drop_last(), cs.drop_last(), s, ns[ns.len() - 2]),
        links_connect(links, ns[ns.len() - 2], t, cs.last()),
        sum(cs) == sum(cs.drop_last()) + cs.last(),
{
    let ns2 = ns.drop_last();
    let cs2 = cs.drop_last();
    assert(ns2.len() == cs2.len() + 1);
    assert forall|i: int| 0 <= i < cs2.len() implies links_connect(
        links,
        ns2[i],
        ns2[i + 1],
        #[trigger] cs2[i],
    ) by {
        assert(links_connect(links, ns[i], ns[i + 1], cs[i]));
    }
    assert(links_connect(links, ns[ns.len() - 2], ns[ns.len() - 1], cs[cs.len() - 1]));
}

/// Whether no two positions of `labels` hold the same label.
pub open spec fn labels_distinct(labels: Seq<u64>) -> bool {
    forall|i: int, j: int|
        0 <= i < labels.len() && 0 <= j < labels.len() && i != j ==> labels[i] != labels[j]
}

/// The position of label `a` in `labels` (meaningful when `a` occurs).
pub open spec fn label_idx(labels: Seq<u64>, a: int) -> int {
    choose|j: int| 0 <= j < labels.len() && labels[j] == a
}

/// Whether `links2` is `links1` with every endpoint replaced by its label:
/// the same links over node ids instead of vertex indices.
pub open spec fn relabeled(links1: Seq<Link>, links2: Seq<Link>, labels: Seq<u64>) -> bool {
    &&& links_wf(links1, labels.len() as int)
    &&& links2.len() == links1.len()
    &&& forall|k: int|
        0 <= k < links1.len() ==> #[trigger] links2[k] == (
            labels[links1[k].0] as int,
            labels[links1[k].1] as int,
            links1[k].2,
        )
    &&& labels_distinct(labels)
}

/// A walk's node sequence with every node replaced by its label.
pub open spec fn relabel_nodes(labels: Seq<u64>, ns: Seq<int>) -> Seq<int> {
    Seq::new(ns.len(), |i: int| labels[ns[i]] as int)
}

/// A walk over indices is a walk of the same step costs over labels.
pub proof fn lemma_relabel_walk_fwd(
    links1: Seq<Link>,
    links2: Seq<Link>,
    labels: Seq<u64>,
    ns: Seq<int>,
    cs: Seq<int>,
    u: int,
    t: int,
)
    requires
        relabeled(links1, links2, labels),
        connects(links1, ns, cs, u, t),
        0 <= u < labels.len(),
    ensures
        connects(links2, relabel_nodes(labels, ns), cs, labels[u] as int, labels[t] as int),
        0 <= t < labels.len(),
{
    lemma_walk_nodes_in_range(links1, labels.len() as int, ns, cs);
    let ns2 = relabel_nodes(labels, ns);
    assert(ns2.first() == labels[u] as int);
    assert(ns.last() == t);
    if ns.len() == 1 {
        assert(t == u);
    }
    assert(ns2.last() == labels[t] as int);
    assert forall|i: int| 0 <= i < cs.len() implies links_connect(
        links2,
        ns2[i],
        ns2[i + 1],
        #[trigger] cs[i],
    ) by {
        let k = choose|k: int|
            0 <= k < links1.len() && link_is(#[trigger] links1[k], ns[i], ns[i + 1], cs[i]);
        assert(link_is(links2[k], ns2[i], ns2[i + 1], cs[i]));
    }
}

/// A walk over labels is a walk of the same step costs over indices.
pub proof fn lemma_relabel_walk_bwd(
    links1: Seq<Link>,
    links2: Seq<Link>,
    labels: Seq<u64>,
    ns2: Seq<int>,
    cs: Seq<int>,
    u: int,
    t: int,
)
    requires
        relabeled(links1, links2, labels),
        connects(links2, ns2, cs, labels[u] as int, labels[t] as int),
        0 <= u < labels.len(),
        0 <= t < labels.len(),
    ensures
        connects(links1, Seq::new(ns2.len(), |i: int| label_idx(labels, ns2[i])), cs, u, t),
{
    let ns1 = Seq::new(ns2.len(), |i: int| label_idx(labels, ns2[i]));
    assert forall|i: int| 0 <= i < ns2.len() && (exists|j: int|
        0 <= j < labels.len() && labels[j] == ns2[i]) implies {
        &&& 0 <= ns1[i] < labels.len()
        &&& labels[ns1[i]] == ns2[i]
    } by {
        let j = choose|j: int| 0 <= j < labels.len() && labels[j] == ns2[i];
        assert(labels[label_idx(labels, ns2[i])] == ns2[i] && 0 <= label_idx(labels, ns2[i])
            < labels.len());
    }
    assert(exists|j: int| 0 <= j < labels.len() && labels[j] == ns2[0]) by {
        assert(labels[u] == ns2[0]);
    }
    assert(ns1[0] == u) by {
        assert(labels[ns1[0]] == ns2[0] && labels[u] == ns2[0]);
    }
    assert forall|i: int| 0 <= i < cs.len() implies links_connect(
        links1,
        ns1[i],
        ns1[i + 1],
        #[trigger] cs[i],
    ) by {
        let k = choose|k: int|
            0 <= k < links2.len() && link_is(#[trigger] links2[k], ns2[i], ns2[i + 1], cs[i]);
        assert(links2[k] == (labels[links1[k].0] as int, labels[links1[k].1] as int, links1[k].2));
        if links2[k].0 == ns2[i] && links2[k].1 == ns2[i + 1] {
            assert(labels[links1[k].0] == ns2[i] && labels[links1[k].1] == ns2[i + 1]);
            assert(exists|j: int| 0 <= j < labels.len() && labels[j] == ns2[i]);
            assert(exists|j: int| 0 <= j < labels.len() && labels[j] == ns2[i + 1]);
            assert(labels[ns1[i]] == ns2[i] && labels[ns1[i + 1]] == ns2[i + 1]);
            assert(ns1[i] == links1[k].0 && ns1[i + 1] == links1[k].1);
            assert(link_is(links1[k], ns1[i], ns1[i + 1], cs[i]));
        } else {
            assert(labels[links1[k].0] == ns2[i + 1] && labels[links1[k].1] == ns2[i]);
            assert(exists|j: int| 0 <= j < labels.len() && labels[j] == ns2[i]);
            assert(exists|j: int| 0 <= j < labels.len() && labels[j] == ns2[i + 1]);
            assert(labels[ns1[i]] == ns2[i] && labels[ns1[i + 1]] == ns2[i + 1]);
            assert(ns1[i] == links1[k].1 && ns1[i + 1] == links1[k].0);
            assert(link_is(links1[k], ns1[i], ns1[i + 1], cs[i]));
        }
    }
    assert(exists|j: int| 0 <= j < labels.len() && labels[j] == ns2.last()) by {
        assert(labels[t] == ns2.last());
    }
    assert(ns1.last() == t) by {
        assert(labels[ns1[ns1.len() - 1]] == ns2.last() && labels[t] == ns2.last());
    }
}

/// Reachability and least costs are the same over indices and over labels.
pub proof fn lemma_relabel_equiv(links1: Seq<Link>, links2: Seq<Link>, labels: Seq<u64>, u: int, t: int)
    requires
        relabeled(links1, links2, labels),
        0 <= u < labels.len(),
        0 <= t < labels.len(),
    ensures
        forall|d: int|
            #[trigger] min_cost_is(links1, u, t, d) <==> min_cost_is(
                links2,
                labels[u] as int,
                labels[t] as int,
                d,
            ),
        forall|b: int|
            #[trigger] reaches_within(links1, u, t, b) <==> reaches_within(
                links2,
                labels[u] as int,
                labels[t] as int,
                b,
            ),
{
    let lu = labels[u] as int;
    let lt = labels[t] as int;
    assert forall|d: int| #[trigger] has_walk_of(links1, u, t, d) implies has_walk_of(
        links2,
        lu,
        lt,
        d,
    ) by {
        let (ns, cs) = choose|ns: Seq<int>, cs: Seq<int>|
            connects(links1, ns, cs, u, t) && sum(cs) == d;
        lemma_relabel_walk_fwd(links1, links2, labels, ns, cs, u, t);
    }
    assert forall|d: int| #[trigger] has_walk_of(links2, lu, lt, d) implies has_walk_of(
        links1,
        u,
        t,
        d,
    ) by {
        let (ns2, cs) = choose|ns2: Seq<int>, cs: Seq<int>|
            connects(links2, ns2, cs, lu, lt) && sum(cs) == d;
        lemma_relabel_walk_bwd(links1, links2, labels, ns2, cs, u, t);
    }
    assert forall|d: int| #[trigger] cost_lower_bound(links1, u, t, d) implies cost_lower_bound(
        links2,
        lu,
        lt,
        d,
    ) by {
        assert forall|ns2: Seq<int>, cs: Seq<int>| connects(links2, ns2, cs, lu, lt) implies sum(cs)
            >= d by {
            lemma_relabel_walk_bwd(links1, links2, labels, ns2, cs, u, t);
        }
    }
    assert forall|d: int| #[trigger] cost_lower_bound(links2, lu, lt, d) implies cost_lower_bound(
        links1,
        u,
        t,
        d,
    ) by {
        assert forall|ns: Seq<int>, cs: Seq<int>| connects(links1, ns, cs, u, t) implies sum(cs)
            >= d by {
            lemma_relabel_walk_fwd(links1, links2, labels, ns, cs, u, t);
        }
    }
    assert forall|b: int| #[trigger] reaches_within(links1, u, t, b) implies reaches_within(
        links2,
        lu,
        lt,
        b,
    ) by {
        let (ns, cs) = choose|ns: Seq<int>, cs: Seq<int>|
            connects(links1, ns, cs, u, t) && sum(cs) <= b;
        lemma_relabel_walk_fwd(links1, links2, labels, ns, cs, u, t);
    }
    assert forall|b: int| #[trigger] reaches_within(links2, lu, lt, b) implies reaches_within(
        links1,
        u,
        t,
        b,
    ) by {
        let (ns2, cs) = choose|ns2: Seq<int>, cs: Seq<int>|
            connects(links2, ns2, cs, lu, lt) && sum(cs) <= b;
        lemma_relabel_walk_bwd(links1, links2, labels, ns2, cs, u, t);
    }
}

} // verus!
