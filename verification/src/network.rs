//! The in-memory network model: nodes, edges, routing modes and the
//! per-mode travel-cost model.
//!
//! All quantities are integers so that costs are exact: coordinates are
//! degrees scaled by `1e7` (the usual fixed-point encoding for geographic
//! data), lengths are millimeters, speeds are km/h and travel costs are
//! microseconds of travel time.
use crate::error::RoutingError;
use crate::graph_store::{
    graph_add_edge, graph_add_node, graph_arcs, graph_edge_count, graph_new, graph_node_count,
    graph_nodes, StoredArc, UnGraph64,
};
use std::collections::HashMap;
use vstd::prelude::*;

verus! {

/// Node identifier type.
pub type NodeId = u64;

/// Edge identifier type.
pub type EdgeId = u64;

/// Travel modes supported by the library.
#[derive(Debug, Clone, Copy, PartialEq, Eq, Hash, Structural)]
pub enum RoutingMode {
    Walking,
    Cycling,
    Car,
    Wheelchair,
}

/// Default travel speed of a mode, in km/h.
pub open spec fn default_speed_spec(mode: RoutingMode) -> u64 {
    match mode {
        RoutingMode::Walking => 5,
        RoutingMode::Cycling => 15,
        RoutingMode::Car => 50,
        RoutingMode::Wheelchair => 4,
    }
}

impl RoutingMode {
    /// Default travel speed for the routing mode, in km/h, used when an edge
    /// carries no speed of its own.
    pub fn default_speed(&self) -> (s: u64)
        ensures
            s == default_speed_spec(*self),
            1 <= s,
    {
        match self {
            RoutingMode::Walking => 5,
            RoutingMode::Cycling => 15,
            RoutingMode::Car => 50,
            RoutingMode::Wheelchair => 4,
        }
    }
}

/// Longest edge the cost model accepts, in millimeters (about 17.6 million
/// km). The bound keeps every travel cost well inside `u64` even at 1 km/h.
pub const MAX_EDGE_LENGTH_MM: u64 = 0x1000_0000_0000;

/// Travel time in microseconds for a way of `length_mm` millimeters at
/// `speed_kmh` km/h: `length_mm * 3600 / speed_kmh` (integer division).
///
/// This is the fixed-point form of `(length_m / 1000) / speed * 3600`
/// seconds.
pub open spec fn travel_cost_us(length_mm: int, speed_kmh: int) -> int
    recommends
        speed_kmh >= 1,
{
    length_mm * 3600 / speed_kmh
}

/// The speed used to cost an edge: the override if one is given, else the
/// mode's default.
pub open spec fn speed_for(mode: RoutingMode, override_kmh: Option<u64>) -> u64 {
    match override_kmh {
        Some(s) => s,
        None => default_speed_spec(mode),
    }
}

/// Cached per-mode travel costs of an edge, populated lazily: a mode's cost
/// is set when the edge is added to a network for that mode.
#[derive(Debug, Clone)]
pub struct ModeCosts {
    pub walking: Option<u64>,
    pub cycling: Option<u64>,
    pub car: Option<u64>,
    pub wheelchair: Option<u64>,
}

impl ModeCosts {
    /// The cached cost for `mode`, if one has been computed.
    pub open spec fn get_spec(self, mode: RoutingMode) -> Option<u64> {
        match mode {
            RoutingMode::Walking => self.walking,
            RoutingMode::Cycling => self.cycling,
            RoutingMode::Car => self.car,
            RoutingMode::Wheelchair => self.wheelchair,
        }
    }

    /// An empty cache: no mode has a cost yet.
    pub fn new() -> (r: ModeCosts)
        ensures
            forall|m: RoutingMode| r.get_spec(m) == Option::<u64>::None,
    {
        ModeCosts { walking: None, cycling: None, car: None, wheelchair: None }
    }

    /// The cached cost for `mode`, if one has been computed.
    pub fn get(&self, mode: RoutingMode) -> (r: Option<u64>)
        ensures
            r == self.get_spec(mode),
    {
        match mode {
            RoutingMode::Walking => self.walking,
            RoutingMode::Cycling => self.cycling,
            RoutingMode::Car => self.car,
            RoutingMode::Wheelchair => self.wheelchair,
        }
    }

    /// The cache with `cost` recorded for `mode` and the other modes
    /// unchanged.
    pub open spec fn set_spec(self, mode: RoutingMode, cost: u64) -> ModeCosts {
        match mode {
            RoutingMode::Walking => ModeCosts { walking: Some(cost), ..self },
            RoutingMode::Cycling => ModeCosts { cycling: Some(cost), ..self },
            RoutingMode::Car => ModeCosts { car: Some(cost), ..self },
            RoutingMode::Wheelchair => ModeCosts { wheelchair: Some(cost), ..self },
        }
    }

    /// Cache `cost` as the cost of `mode`, leaving the other modes unchanged.
    pub fn set(&mut self, mode: RoutingMode, cost: u64)
        ensures
            *final(self) == old(self).set_spec(mode, cost),
            final(self).get_spec(mode) == Some(cost),
            forall|m: RoutingMode| m != mode ==> final(self).get_spec(m) == old(self).get_spec(m),
    {
        match mode {
            RoutingMode::Walking => self.walking = Some(cost),
            RoutingMode::Cycling => self.cycling = Some(cost),
            RoutingMode::Car => self.car = Some(cost),
            RoutingMode::Wheelchair => self.wheelchair = Some(cost),
        }
    }
}

/// A node of the routing network: an identifier and a geographic location.
/// Coordinates are degrees scaled by `1e7`; elevation is millimeters.
#[derive(Debug, Clone)]
pub struct Node {
    pub id: NodeId,
    pub lon_e7: i64,
    pub lat_e7: i64,
    pub elevation_mm: Option<i64>,
}

impl Node {
    /// A node at the given location, with no elevation recorded.
    pub fn new(id: u64, lon_e7: i64, lat_e7: i64) -> (r: Node)
        ensures
            r.id == id,
            r.lon_e7 == lon_e7,
            r.lat_e7 == lat_e7,
            r.elevation_mm is None,
    {
        Node { id, lon_e7, lat_e7, elevation_mm: None }
    }

    /// The same node with an elevation recorded.
    pub fn with_elevation(self, elevation_mm: i64) -> (r: Node)
        ensures
            r.id == self.id,
            r.lon_e7 == self.lon_e7,
            r.lat_e7 == self.lat_e7,
            r.elevation_mm == Some(elevation_mm),
    {
        Node { elevation_mm: Some(elevation_mm), ..self }
    }
}

/// An edge of the routing network. The geometry describes the physical path
/// for export and visualization; the cost model uses only `length_mm`.
///
/// An edge is stored as traversable in both directions even though a one-way
/// flag is recorded; the flag is metadata that the search does not enforce.
#[derive(Debug, Clone)]
pub struct Edge {
    pub id: EdgeId,
    pub source: NodeId,
    pub target: NodeId,
    pub geometry: Vec<(i64, i64)>,
    pub length_mm: u64,
    pub costs: ModeCosts,
    pub max_speed: Option<u64>,
    pub oneway: bool,
    pub surface: Option<String>,
    pub highway_type: Option<String>,
}

impl Edge {
    /// Well-formedness of an edge: the length is within the cost model's
    /// bound and any speed of its own is at least 1 km/h, so every cost the
    /// model computes for it fits in `u64`.
    pub open spec fn wf(self) -> bool {
        &&& self.length_mm <= MAX_EDGE_LENGTH_MM
        &&& match self.max_speed {
            Some(s) => 1 <= s,
            None => true,
        }
    }

    /// A fresh edge with no cached costs, no speed of its own, not one-way,
    /// and no surface or road-class tags.
    pub fn new(id: u64, source: u64, target: u64, geometry: Vec<(i64, i64)>, length_mm: u64) -> (r:
        Edge)
        requires
            length_mm <= MAX_EDGE_LENGTH_MM,
        ensures
            r.wf(),
            r.id == id,
            r.source == source,
            r.target == target,
            r.geometry == geometry,
            r.length_mm == length_mm,
            forall|m: RoutingMode| r.costs.get_spec(m) == Option::<u64>::None,
            r.max_speed is None,
            r.oneway == false,
            r.surface is None,
            r.highway_type is None,
    {
        Edge {
            id,
            source,
            target,
            geometry,
            length_mm,
            costs: ModeCosts::new(),
            max_speed: None,
            oneway: false,
            surface: None,
            highway_type: None,
        }
    }

    /// Compute and cache the travel cost of this edge for `mode`, at
    /// `speed_kmh` if given, else at the mode's default speed.
    pub fn calculate_cost(&mut self, mode: RoutingMode, speed_kmh: Option<u64>)
        requires
            old(self).wf(),
            (match speed_kmh {
                Some(s) => 1 <= s,
                None => true,
            }),
        ensures
            final(self).costs == old(self).costs.set_spec(
                mode,
                travel_cost_us(old(self).length_mm as int, speed_for(mode, speed_kmh) as int) as u64,
            ),
            final(self).costs.get_spec(mode) == Some(
                travel_cost_us(old(self).length_mm as int, speed_for(mode, speed_kmh) as int) as u64,
            ),
            forall|m: RoutingMode|
                m != mode ==> final(self).costs.get_spec(m) == old(self).costs.get_spec(m),
            *final(self) == (Edge { costs: final(self).costs, ..*old(self) }),
            final(self).wf(),
    {
        let speed: u64 = match speed_kmh {
            Some(s) => s,
            None => mode.default_speed(),
        };
        let scaled: u128 = self.length_mm as u128 * 3600;
        let cost_us: u128 = scaled / speed as u128;
        proof {
            vstd::arithmetic::div_mod::lemma_div_is_ordered_by_denominator(scaled as int, 1, speed as int);
        }
        self.costs.set(mode, cost_us as u64);
    }

    /// The cached travel cost of this edge for `mode`, if one has been
    /// computed.
    pub fn get_cost(&self, mode: RoutingMode) -> (r: Option<u64>)
        ensures
            r == self.costs.get_spec(mode),
    {
        self.costs.get(mode)
    }

    /// Whether this edge may be traversed in `mode`, judging by its surface
    /// and road-class tags. A missing tag counts as accessible.
    ///
    /// This is a filter for callers to apply when building a network for a
    /// mode; the searches themselves do not consult it.
    pub open spec fn is_accessible_spec(self, mode: RoutingMode) -> bool {
        match mode {
            RoutingMode::Car => match self.highway_type {
                Some(h) => !(h@ == "footway"@ || h@ == "cycleway"@ || h@ == "path"@ || h@
                    == "steps"@),
                None => true,
            },
            RoutingMode::Walking => true,
            RoutingMode::Cycling => match self.highway_type {
                Some(h) => !(h@ == "motorway"@ || h@ == "trunk"@ || h@ == "steps"@),
                None => true,
            },
            RoutingMode::Wheelchair => {
                &&& match self.surface {
                    Some(s) => s@ == "paved"@ || s@ == "asphalt"@ || s@ == "concrete"@,
                    None => true,
                }
                &&& match self.highway_type {
                    Some(h) => !(h@ == "steps"@ || h@ == "path"@),
                    None => true,
                }
            },
        }
    }

    /// Whether this edge may be traversed in `mode`.
    pub fn is_accessible(&self, mode: RoutingMode) -> (r: bool)
        ensures
            r == self.is_accessible_spec(mode),
    {
        match mode {
            RoutingMode::Car => match &self.highway_type {
                Some(h) => !(str_eq(h.as_str(), "footway") || str_eq(h.as_str(), "cycleway")
                    || str_eq(h.as_str(), "path") || str_eq(h.as_str(), "steps")),
                None => true,
            },
            RoutingMode::Walking => true,
            RoutingMode::Cycling => match &self.highway_type {
                Some(h) => !(str_eq(h.as_str(), "motorway") || str_eq(h.as_str(), "trunk")
                    || str_eq(h.as_str(), "steps")),
                None => true,
            },
            RoutingMode::Wheelchair => {
                let surface_ok = match &self.surface {
                    Some(s) => str_eq(s.as_str(), "paved") || str_eq(s.as_str(), "asphalt")
                        || str_eq(s.as_str(), "concrete"),
                    None => true,
                };
                let highway_ok = match &self.highway_type {
                    Some(h) => !(str_eq(h.as_str(), "steps") || str_eq(h.as_str(), "path")),
                    None => true,
                };
                surface_ok && highway_ok
            },
        }
    }
}

/// Whether two string slices hold the same characters.
fn str_eq(a: &str, b: &str) -> (r: bool)
    ensures
        r == (a@ == b@),
{
    let x: String = a.to_owned();
    let y: String = b.to_owned();
    x == y
}

/// The cost at which an edge enters the adjacency structure for `mode`: its
/// cached cost if one is present, else the cost the model computes from its
/// length at the edge's own speed (or the mode's default).
pub open spec fn edge_cost_for(edge: Edge, mode: RoutingMode) -> u64 {
    match edge.costs.get_spec(mode) {
        Some(c) => c,
        None => travel_cost_us(
            edge.length_mm as int,
            speed_for(mode, edge.max_speed) as int,
        ) as u64,
    }
}

/// The edge as stored after insertion for `mode`: unchanged if its cost for
/// `mode` was already cached, else with that cost cached.
pub open spec fn edge_with_cost(edge: Edge, mode: RoutingMode) -> Edge {
    match edge.costs.get_spec(mode) {
        Some(_) => edge,
        None => Edge { costs: edge.costs.set_spec(mode, edge_cost_for(edge, mode)), ..edge },
    }
}

/// The routing network: nodes, edges, the undirected adjacency structure the
/// searches traverse, and id-to-index lookup maps kept in step with it.
pub struct Network {
    graph: UnGraph64,
    node_index_map: HashMap<u64, usize>,
    edge_index_map: HashMap<u64, usize>,
    nodes: HashMap<u64, Node>,
    edges: HashMap<u64, Edge>,
    node_ids: Vec<u64>,
    edge_ids: Vec<u64>,
}

impl Network {
    /// Node ids in insertion order; the position of an id is its vertex
    /// index in the adjacency structure.
    pub closed spec fn ids(self) -> Seq<u64> {
        graph_nodes(self.graph)
    }

    /// The stored arcs in insertion order, over vertex indices.
    pub closed spec fn arcs(self) -> Seq<StoredArc> {
        graph_arcs(self.graph)
    }

    /// The nodes of the network, by id.
    pub closed spec fn nodes_map(self) -> Map<u64, Node> {
        self.nodes@
    }

    /// The edges of the network, by id.
    pub closed spec fn edges_map(self) -> Map<u64, Edge> {
        self.edges@
    }

    /// The vertex index of a node id.
    pub closed spec fn idx_of(self, id: u64) -> usize {
        self.node_index_map@[id]
    }

    /// The arcs of the network over node ids: for each stored arc, the two
    /// endpoint ids and the cost.
    pub open spec fn links(self) -> Seq<(u64, u64, u64)> {
        Seq::new(
            self.arcs().len(),
            |k: int|
                (
                    self.ids()[self.arcs()[k].0 as int],
                    self.ids()[self.arcs()[k].1 as int],
                    self.arcs()[k].3,
                ),
        )
    }

    /// The network's arcs as abstract links over node ids: the model the
    /// search contracts are stated against.
    pub open spec fn links_model(self) -> Seq<crate::paths::Link> {
        Seq::new(
            self.links().len(),
            |k: int|
                (self.links()[k].0 as int, self.links()[k].1 as int, self.links()[k].2 as int),
        )
    }

    /// The undirected adjacency structure the searches traverse.
    pub(crate) fn adjacency(&self) -> (g: &UnGraph64)
        ensures
            graph_nodes(*g) == self.ids(),
            graph_arcs(*g) == self.arcs(),
    {
        &self.graph
    }

    /// The node id at a vertex index.
    pub(crate) fn node_id_at(&self, i: usize) -> (id: u64)
        requires
            self.wf(),
            (i as int) < self.ids().len(),
        ensures
            id == self.ids()[i as int],
    {
        self.node_ids[i]
    }

    /// Under well-formedness, the arcs over vertex indices are well-formed
    /// links, and the id-space model is their relabeling by node id.
    pub proof fn lemma_model_relabeled(self)
        requires
            self.wf(),
        ensures
            crate::paths::links_wf(
                crate::search::arc_links(self.arcs()),
                self.ids().len() as int,
            ),
            crate::paths::relabeled(
                crate::search::arc_links(self.arcs()),
                self.links_model(),
                self.ids(),
            ),
    {
        let l1 = crate::search::arc_links(self.arcs());
        let l2 = self.links_model();
        assert forall|k: int| 0 <= k < l1.len() implies #[trigger] l2[k] == (
            self.ids()[l1[k].0] as int,
            self.ids()[l1[k].1] as int,
            l1[k].2,
        ) by {
            assert(self.arcs()[k].0 < self.ids().len());
        }
    }

    /// Well-formedness: the lookup maps, the id mirrors and the adjacency
    /// structure all describe the same network, ids are unique, and every
    /// arc joins two registered nodes.
    pub closed spec fn wf(self) -> bool {
        let ids = graph_nodes(self.graph);
        let arcs = graph_arcs(self.graph);
        &&& self.node_ids@ == ids
        &&& forall|i: int, j: int|
            0 <= i < ids.len() && 0 <= j < ids.len() && i != j ==> ids[i] != ids[j]
        &&& forall|i: int|
            0 <= i < ids.len() ==> self.nodes@.contains_key(#[trigger] ids[i])
                && self.node_index_map@.contains_key(ids[i]) && self.node_index_map@[ids[i]] == i
        &&& forall|id: u64|
            #[trigger] self.node_index_map@.contains_key(id) ==> self.nodes@.contains_key(id)
                && self.node_index_map@[id] < ids.len() && ids[self.node_index_map@[id] as int]
                == id
        &&& forall|id: u64| #[trigger]
            self.nodes@.contains_key(id) ==> self.node_index_map@.contains_key(id)
                && self.nodes@[id].id == id
        &&& self.nodes@.dom() == self.node_ids@.to_set()
        &&& forall|k: int|
            0 <= k < arcs.len() ==> (#[trigger] arcs[k]).0 < ids.len() && arcs[k].1 < ids.len()
        &&& self.edge_ids@.len() == arcs.len()
        &&& forall|k: int| 0 <= k < arcs.len() ==> self.edge_ids@[k] == (#[trigger] arcs[k]).2
        &&& forall|k: int, l: int|
            0 <= k < arcs.len() && 0 <= l < arcs.len() && k != l ==> arcs[k].2 != arcs[l].2
        &&& forall|k: int|
            0 <= k < arcs.len() ==> {
                let e = self.edges@[(#[trigger] arcs[k]).2];
                &&& self.edges@.contains_key(arcs[k].2)
                &&& e.id == arcs[k].2
                &&& e.wf()
                &&& self.nodes@.contains_key(e.source)
                &&& self.nodes@.contains_key(e.target)
                &&& arcs[k].0 == self.node_index_map@[e.source]
                &&& arcs[k].1 == self.node_index_map@[e.target]
            }
        &&& forall|eid: u64| #[trigger]
            self.edges@.contains_key(eid) ==> exists|k: int|
                0 <= k < arcs.len() && arcs[k].2 == eid
        &&& forall|eid: u64|
            #[trigger] self.edge_index_map@.contains_key(eid) <==> self.edges@.contains_key(eid)
        &&& forall|eid: u64|
            #[trigger] self.edge_index_map@.contains_key(eid) ==> self.edge_index_map@[eid]
                < arcs.len() && arcs[self.edge_index_map@[eid] as int].2 == eid
        &&& self.edges@.dom() == self.edge_ids@.to_set()
    }

    /// A new, empty network.
    pub fn new() -> (r: Network)
        ensures
            r.wf(),
            r.ids() == Seq::<u64>::empty(),
            r.arcs() == Seq::<StoredArc>::empty(),
            r.nodes_map() == Map::<u64, Node>::empty(),
            r.edges_map() == Map::<u64, Edge>::empty(),
    {
        let r = Network {
            graph: graph_new(),
            node_index_map: HashMap::new(),
            edge_index_map: HashMap::new(),
            nodes: HashMap::new(),
            edges: HashMap::new(),
            node_ids: Vec::new(),
            edge_ids: Vec::new(),
        };
        proof {
            assert(r.nodes@.dom() =~= r.node_ids@.to_set());
            assert(r.edges@.dom() =~= r.edge_ids@.to_set());
        }
        r
    }

    /// Add a node. Fails when the id is already present: a duplicate would
    /// leave a stale vertex in the adjacency structure, so it is rejected
    /// rather than silently overwritten.
    pub fn add_node(&mut self, node: Node) -> (r: crate::RoutingResult<()>)
        requires
            old(self).wf(),
            old(self).ids().len() < 0xFFFF_FFFF,
        ensures
            final(self).wf(),
            (r is Ok <==> !old(self).nodes_map().contains_key(node.id)),
            r is Ok ==> {
                &&& final(self).ids() == old(self).ids().push(node.id)
                &&& final(self).nodes_map() == old(self).nodes_map().insert(node.id, node)
                &&& final(self).arcs() == old(self).arcs()
                &&& final(self).edges_map() == old(self).edges_map()
                &&& final(self).links() == old(self).links()
            },
            r is Err ==> *final(self) == *old(self),
    {
        let id = node.id;
        if self.nodes.contains_key(&id) {
            return Err(RoutingError::Network("node id already present in network".to_owned()));
        }
        let idx = graph_add_node(&mut self.graph, id);
        self.node_index_map.insert(id, idx);
        self.node_ids.push(id);
        self.nodes.insert(id, node);
        proof {
            let old_ids = old(self).node_ids@;
            let new_ids = self.node_ids@;
            assert forall|a: u64| self.nodes@.dom().contains(a) implies new_ids.to_set().contains(
                a,
            ) by {
                if a == id {
                    assert(new_ids[new_ids.len() - 1] == a);
                } else {
                    assert(old_ids.to_set().contains(a));
                    let i = choose|i: int| 0 <= i < old_ids.len() && old_ids[i] == a;
                    assert(new_ids[i] == a);
                }
            }
            assert forall|a: u64| new_ids.to_set().contains(a) implies self.nodes@.dom().contains(
                a,
            ) by {
                let i = choose|i: int| 0 <= i < new_ids.len() && new_ids[i] == a;
                if i < new_ids.len() - 1 {
                    assert(old_ids[i] == a);
                    assert(old_ids.to_set().contains(a));
                }
            }
            assert(self.nodes@.dom() =~= self.node_ids@.to_set());
        }
        Ok(())
    }

    /// Add an edge for a routing mode. If the edge has no cached cost for
    /// the mode, the cost is computed from its length at the edge's own
    /// speed if present, else the mode's default, and cached. Fails when
    /// either endpoint id is unknown, or when the edge id is already
    /// present (a duplicate would leave a stale arc in the adjacency
    /// structure, so it is rejected rather than silently overwritten).
    ///
    /// The arc is stored as traversable in both directions whatever the
    /// edge's one-way flag says: the flag is recorded but not enforced.
    pub fn add_edge(&mut self, edge: Edge, mode: RoutingMode) -> (r: crate::RoutingResult<()>)
        requires
            old(self).wf(),
            edge.wf(),
            old(self).arcs().len() < 0xFFFF_FFFF,
        ensures
            final(self).wf(),
            (r is Ok <==> {
                &&& old(self).nodes_map().contains_key(edge.source)
                &&& old(self).nodes_map().contains_key(edge.target)
                &&& !old(self).edges_map().contains_key(edge.id)
            }),
            r is Ok ==> {
                &&& final(self).ids() == old(self).ids()
                &&& final(self).nodes_map() == old(self).nodes_map()
                &&& final(self).arcs() == old(self).arcs().push(
                    (
                        old(self).idx_of(edge.source),
                        old(self).idx_of(edge.target),
                        edge.id,
                        edge_cost_for(edge, mode),
                    ),
                )
                &&& final(self).edges_map() == old(self).edges_map().insert(
                    edge.id,
                    edge_with_cost(edge, mode),
                )
                &&& final(self).links() == old(self).links().push(
                    (edge.source, edge.target, edge_cost_for(edge, mode)),
                )
            },
            r is Err ==> *final(self) == *old(self),
    {
        let mut edge = edge;
        if edge.get_cost(mode).is_none() {
            let own_speed = edge.max_speed;
            edge.calculate_cost(mode, own_speed);
        }
        let cost = match edge.get_cost(mode) {
            Some(c) => c,
            None => vstd::pervasive::unreached(),
        };
        let source_idx = match self.node_index_map.get(&edge.source) {
            Some(i) => *i,
            None => {
                return Err(RoutingError::Network("source node not found".to_owned()));
            },
        };
        let target_idx = match self.node_index_map.get(&edge.target) {
            Some(i) => *i,
            None => {
                return Err(RoutingError::Network("target node not found".to_owned()));
            },
        };
        if self.edges.contains_key(&edge.id) {
            return Err(RoutingError::Network("edge id already present in network".to_owned()));
        }
        let arc_idx = graph_add_edge(&mut self.graph, source_idx, target_idx, edge.id, cost);
        self.edge_index_map.insert(edge.id, arc_idx);
        self.edge_ids.push(edge.id);
        self.edges.insert(edge.id, edge);
        proof {
            let eid = edge.id;
            let old_eids = old(self).edge_ids@;
            let new_eids = self.edge_ids@;
            assert forall|a: u64| self.edges@.dom().contains(a) implies new_eids.to_set().contains(
                a,
            ) by {
                if a == eid {
                    assert(new_eids[new_eids.len() - 1] == a);
                } else {
                    assert(old_eids.to_set().contains(a));
                    let i = choose|i: int| 0 <= i < old_eids.len() && old_eids[i] == a;
                    assert(new_eids[i] == a);
                }
            }
            assert forall|a: u64| new_eids.to_set().contains(a) implies self.edges@.dom().contains(
                a,
            ) by {
                let i = choose|i: int| 0 <= i < new_eids.len() && new_eids[i] == a;
                if i < new_eids.len() - 1 {
                    assert(old_eids[i] == a);
                    assert(old_eids.to_set().contains(a));
                }
            }
            assert(self.edges@.dom() =~= self.edge_ids@.to_set());
            assert forall|a: u64| self.edges@.contains_key(a) implies exists|k: int|
                0 <= k < graph_arcs(self.graph).len() && graph_arcs(self.graph)[k].2 == a by {
                if a == eid {
                    assert(graph_arcs(self.graph)[graph_arcs(self.graph).len() - 1].2 == a);
                } else {
                    let k = choose|k: int|
                        0 <= k < graph_arcs(old(self).graph).len() && graph_arcs(old(self).graph)[k].2
                            == a;
                    assert(graph_arcs(self.graph)[k].2 == a);
                }
            }
        }
        Ok(())
    }

    /// The node with the given id, if it is in the network.
    pub fn get_node(&self, node_id: u64) -> (r: Option<&Node>)
        ensures
            (match r {
                Some(n) => self.nodes_map().contains_key(node_id) && *n == self.nodes_map()[node_id],
                None => !self.nodes_map().contains_key(node_id),
            }),
    {
        self.nodes.get(&node_id)
    }

    /// The edge with the given id, if it is in the network.
    pub fn get_edge(&self, edge_id: u64) -> (r: Option<&Edge>)
        ensures
            (match r {
                Some(e) => self.edges_map().contains_key(edge_id) && *e == self.edges_map()[edge_id],
                None => !self.edges_map().contains_key(edge_id),
            }),
    {
        self.edges.get(&edge_id)
    }

    /// The vertex index of the given node id in the adjacency structure, if
    /// the id is in the network.
    pub fn get_node_index(&self, node_id: u64) -> (r: Option<usize>)
        requires
            self.wf(),
        ensures
            (match r {
                Some(i) => self.nodes_map().contains_key(node_id) && i == self.idx_of(node_id)
                    && i < self.ids().len() && self.ids()[i as int] == node_id,
                None => !self.nodes_map().contains_key(node_id),
            }),
    {
        match self.node_index_map.get(&node_id) {
            Some(i) => Some(*i),
            None => None,
        }
    }

    /// The number of nodes in the network.
    pub fn node_count(&self) -> (n: usize)
        requires
            self.wf(),
        ensures
            n == self.ids().len(),
    {
        self.node_ids.len()
    }

    /// The number of edges in the network.
    pub fn edge_count(&self) -> (n: usize)
        requires
            self.wf(),
        ensures
            n == self.arcs().len(),
    {
        self.edge_ids.len()
    }

    /// All node ids, in insertion order.
    pub fn get_all_node_ids(&self) -> (r: Vec<u64>)
        requires
            self.wf(),
        ensures
            r@ == self.ids(),
    {
        let mut out: Vec<u64> = Vec::new();
        let mut i: usize = 0;
        while i < self.node_ids.len()
            invariant
                i <= self.node_ids@.len(),
                out@ == self.node_ids@.subrange(0, i as int),
            decreases self.node_ids@.len() - i,
        {
            out.push(self.node_ids[i]);
            proof {
                assert(out@ =~= self.node_ids@.subrange(0, i + 1));
            }
            i = i + 1;
        }
        proof {
            assert(out@ =~= self.node_ids@);
        }
        out
    }

    /// Re-run the network's consistency checks: every edge's endpoints must
    /// be registered nodes, and the adjacency structure's vertex and arc
    /// counts must equal the lookup maps' counts. On a network built through
    /// this library's operations the checks always pass, since every
    /// operation keeps the structures in step; `validate` re-establishes
    /// that by inspection rather than by trust.
    pub fn validate(&self) -> (r: crate::RoutingResult<()>)
        requires
            self.wf(),
        ensures
            r is Ok,
    {
        let mut i: usize = 0;
        while i < self.edge_ids.len()
            invariant
                self.wf(),
                i <= self.edge_ids@.len(),
            decreases self.edge_ids@.len() - i,
        {
            let eid = self.edge_ids[i];
            let edge = match self.edges.get(&eid) {
                Some(e) => e,
                None => {
                    return Err(
                        RoutingError::Network("edge listed but missing from edge map".to_owned()),
                    );
                },
            };
            if !self.nodes.contains_key(&edge.source) {
                return Err(
                    RoutingError::Network("edge references non-existent source node".to_owned()),
                );
            }
            if !self.nodes.contains_key(&edge.target) {
                return Err(
                    RoutingError::Network("edge references non-existent target node".to_owned()),
                );
            }
            i = i + 1;
        }
        let graph_nodes_n = graph_node_count(&self.graph);
        let map_nodes_n = self.nodes.len();
        if graph_nodes_n != map_nodes_n {
            proof {
                self.lemma_node_count_agrees();
            }
            return Err(RoutingError::Network("graph node count doesn't match node map".to_owned()));
        }
        let graph_edges_n = graph_edge_count(&self.graph);
        let map_edges_n = self.edges.len();
        if graph_edges_n != map_edges_n {
            proof {
                self.lemma_edge_count_agrees();
            }
            return Err(RoutingError::Network("graph edge count doesn't match edge map".to_owned()));
        }
        Ok(())
    }

    /// Under well-formedness the node lookup map has exactly one entry per
    /// vertex of the adjacency structure.
    proof fn lemma_node_count_agrees(&self)
        requires
            self.wf(),
        ensures
            self.nodes_map().dom().len() == self.ids().len(),
    {
        assert(self.node_ids@.no_duplicates());
        self.node_ids@.unique_seq_to_set();
    }

    /// Under well-formedness the edge lookup map has exactly one entry per
    /// arc of the adjacency structure.
    proof fn lemma_edge_count_agrees(&self)
        requires
            self.wf(),
        ensures
            self.edges_map().dom().len() == self.arcs().len(),
    {
        assert forall|i: int, j: int|
            0 <= i < self.edge_ids@.len() && 0 <= j < self.edge_ids@.len() && i
                != j implies self.edge_ids@[i] != self.edge_ids@[j] by {
            assert(self.edge_ids@[i] == self.arcs()[i].2);
            assert(self.edge_ids@[j] == self.arcs()[j].2);
        }
        assert(self.edge_ids@.no_duplicates());
        self.edge_ids@.unique_seq_to_set();
    }
}

/// The id of a nearest candidate: given `(node id, distance)` pairs, the id
/// of the first pair whose distance is strictly smaller than every distance
/// before it and no larger than any after it — the first minimum. Returns
/// `None` exactly when there are no candidates.
///
/// Distance computation (such as great-circle distance from a query point)
/// is the caller's concern; this function performs the selection scan.
pub fn nearest_by_distance(candidates: &Vec<(u64, u64)>) -> (r: Option<u64>)
    ensures
        (r is None <==> candidates@.len() == 0),
        (match r {
            Some(id) => exists|j: int|
                {
                    &&& 0 <= j < candidates@.len()
                    &&& (#[trigger] candidates@[j]).0 == id
                    &&& forall|i: int|
                        0 <= i < candidates@.len() ==> candidates@[j].1 <= (
                        #[trigger] candidates@[i]).1
                    &&& forall|i: int| 0 <= i < j ==> (#[trigger] candidates@[i]).1 > candidates@[j].1
                },
            None => true,
        }),
{
    if candidates.len() == 0 {
        return None;
    }
    let mut best_id: u64 = candidates[0].0;
    let ghost mut best_j: int = 0;
    let mut best_dist: u64 = candidates[0].1;
    let mut i: usize = 1;
    while i < candidates.len()
        invariant
            1 <= i <= candidates@.len(),
            0 <= best_j < i,
            candidates@[best_j].0 == best_id,
            candidates@[best_j].1 == best_dist,
            forall|k: int| 0 <= k < i ==> best_dist <= (#[trigger] candidates@[k]).1,
            forall|k: int| 0 <= k < best_j ==> (#[trigger] candidates@[k]).1 > best_dist,
        decreases candidates@.len() - i,
    {
        if candidates[i].1 < best_dist {
            best_id = candidates[i].0;
            best_dist = candidates[i].1;
            proof {
                best_j = i as int;
            }
        }
        i = i + 1;
    }
    Some(best_id)
}

} // verus!
