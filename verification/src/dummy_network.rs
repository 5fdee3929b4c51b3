//! Synthetic grid networks, a convenience for tests and demonstrations.
use crate::error::RoutingError;
use crate::network::{travel_cost_us, Edge, Network, Node, RoutingMode, MAX_EDGE_LENGTH_MM};
use vstd::prelude::*;

verus! {

/// The row-major cell number of column `x`, row `y` of a grid `w` cells
/// wide.
pub open spec fn grid_cell(w: int, x: int, y: int) -> int {
    y * w + x
}

/// The number of edges of a `w` by `h` grid: one per horizontally or
/// vertically neighbouring pair of cells.
pub open spec fn grid_edge_count(w: int, h: int) -> int {
    if w == 0 || h == 0 {
        0
    } else {
        (w - 1) * h + w * (h - 1)
    }
}

/// The number of grid edges contributed by the cells of row `y` up to (not
/// including) column `x`: one rightward edge per cell left of the last
/// column, and one downward edge per cell above the last row.
pub open spec fn grid_row_edges(w: int, h: int, y: int, x: int) -> int {
    if w == 0 {
        0
    } else {
        (if x <= w - 1 {
            x
        } else {
            w - 1
        }) + (if y + 1 < h {
            x
        } else {
            0
        })
    }
}

/// The number of grid edges contributed by all rows before `y`.
pub open spec fn grid_edges_before(w: int, h: int, y: int) -> int {
    if w == 0 || h == 0 {
        0
    } else if y < h {
        y * (2 * w - 1)
    } else {
        (h - 1) * (2 * w - 1) + (w - 1)
    }
}

/// Whether link `e` is a grid link of a `w` by `h` grid at cost `c0`: it
/// joins a cell to its right or lower neighbour.
pub open spec fn is_grid_link(w: int, h: int, c0: int, e: (u64, u64, u64)) -> bool {
    exists|x: int, y: int|
        0 <= x < w && 0 <= y < h && e.0 == (#[trigger] grid_cell(w, x, y) as u64) && e.2 == (
        c0 as u64) && (x + 1 < w && e.1 == ((grid_cell(w, x, y) + 1) as u64) || y + 1 < h && e.1
            == ((grid_cell(w, x, y) + w) as u64))
}

/// Whether some link of the sequence joins `a` to `b` at cost `c`.
pub open spec fn has_link(links: Seq<(u64, u64, u64)>, a: int, b: int, c: int) -> bool {
    exists|k: int|
        0 <= k < links.len() && (#[trigger] links[k]) == ((a as u64), (b as u64), (c as u64))
}

/// Links present before an append are present after it.
pub proof fn lemma_has_link_push(links: Seq<(u64, u64, u64)>, e: (u64, u64, u64))
    ensures
        forall|a: int, b: int, c: int|
            #[trigger] has_link(links, a, b, c) ==> has_link(links.push(e), a, b, c),
{
    assert forall|a: int, b: int, c: int| #[trigger] has_link(links, a, b, c) implies has_link(
        links.push(e),
        a,
        b,
        c,
    ) by {
        let k = choose|k: int|
            0 <= k < links.len() && (#[trigger] links[k]) == ((a as u64), (b as u64), (c as u64));
        assert(links.push(e)[k] == links[k]);
    }
}

/// Whether `net` is the `w` by `h` grid network with `spacing_mm`
/// millimeters between neighbours, costed for car travel at the default
/// speed: node ids are the row-major cell numbers, and the links join
/// exactly the neighbouring cells, each at the spacing's travel cost.
pub open spec fn is_grid_network(net: Network, w: int, h: int, spacing_mm: u64) -> bool {
    let c0 = travel_cost_us(spacing_mm as int, 50);
    &&& net.wf()
    &&& net.ids() == Seq::new((w * h) as nat, |i: int| i as u64)
    &&& forall|id: u64| net.nodes_map().contains_key(id) <==> (id as int) < w * h
    &&& net.links().len() == grid_edge_count(w, h)
    &&& forall|k: int|
        0 <= k < net.links().len() ==> is_grid_link(w, h, c0, #[trigger] net.links()[k])
    &&& forall|x: int, y: int|
        0 <= x < w - 1 && 0 <= y < h ==> has_link(
            net.links(),
            #[trigger] grid_cell(w, x, y),
            grid_cell(w, x, y) + 1,
            c0,
        )
    &&& forall|x: int, y: int|
        0 <= x < w && 0 <= y < h - 1 ==> has_link(
            net.links(),
            #[trigger] grid_cell(w, x, y),
            grid_cell(w, x, y) + w,
            c0,
        )
}

/// Generator for synthetic networks.
pub struct DummyNetworkGenerator;

impl DummyNetworkGenerator {
    /// A `width` by `height` grid with `spacing_mm` millimeters between
    /// neighbouring nodes, every edge added for car travel at the default
    /// speed. Node ids are row-major cell numbers; the synthetic coordinates
    /// grow by the spacing per cell.
    #[verifier::loop_isolation(false)]
    #[verifier::rlimit(100)]
    pub fn create_grid(width: usize, height: usize, spacing_mm: u64) -> (r: crate::RoutingResult<
        Network,
    >)
        requires
            width * height <= 0x4000_0000,
            spacing_mm <= MAX_EDGE_LENGTH_MM,
            (width as int) * (spacing_mm as int) <= 0x7fff_ffff_ffff_ffff,
            (height as int) * (spacing_mm as int) <= 0x7fff_ffff_ffff_ffff,
        ensures
            (match r {
                Ok(net) => is_grid_network(net, width as int, height as int, spacing_mm),
                Err(_) => false,
            }),
    {
        let ghost w = width as int;
        let ghost h = height as int;
        let ghost c0 = travel_cost_us(spacing_mm as int, 50);
        let mut network = Network::new();

        let mut y: usize = 0;
        while y < height
            invariant
                y <= height,
                network.wf(),
                network.ids() =~= Seq::new((y * width) as nat, |i: int| i as u64),
                forall|id: u64| network.nodes_map().contains_key(id) <==> (id as int) < y * width,
                network.arcs() == Seq::<crate::graph_store::StoredArc>::empty(),
                network.links() == Seq::<(u64, u64, u64)>::empty(),
                network.edges_map() == Map::<u64, Edge>::empty(),
            decreases height - y,
        {
            let mut x: usize = 0;
            while x < width
                invariant
                    y < height,
                    x <= width,
                    network.wf(),
                    network.ids() =~= Seq::new((y * width + x) as nat, |i: int| i as u64),
                    forall|id: u64|
                        network.nodes_map().contains_key(id) <==> (id as int) < y * width + x,
                    network.arcs() == Seq::<crate::graph_store::StoredArc>::empty(),
                    network.links() == Seq::<(u64, u64, u64)>::empty(),
                    network.edges_map() == Map::<u64, Edge>::empty(),
                decreases width - x,
            {
                proof {
                    assert(y * width + x < width * height && (y + 1) * width == y * width + width
                        && 0 <= y * width + x && x < 0x4000_0000 && y
                        < 0x4000_0000) by (nonlinear_arith)
                        requires
                            0 <= x < width && 0 <= y < height && width * height <= 0x4000_0000,
                    ;
                    assert(0 <= (x as int) * (spacing_mm as int) <= 0x7fff_ffff_ffff_ffff && 0 <= (
                    y as int) * (spacing_mm as int) <= 0x7fff_ffff_ffff_ffff) by (nonlinear_arith)
                        requires
                            0 <= x < width && 0 <= y < height && 0 <= spacing_mm && (width as int)
                                * (spacing_mm as int) <= 0x7fff_ffff_ffff_ffff && (height as int)
                                * (spacing_mm as int) <= 0x7fff_ffff_ffff_ffff,
                    ;
                }
                let node_id = (y * width + x) as u64;
                let lon_e7 = (x as i64) * (spacing_mm as i64);
                let lat_e7 = (y as i64) * (spacing_mm as i64);
                let node = Node::new(node_id, lon_e7, lat_e7);
                match network.add_node(node) {
                    Ok(_) => (),
                    Err(e) => {
                        return Err(e);
                    },
                };
                x = x + 1;
            }
            proof {
                assert((y + 1) * width == y * width + width) by (nonlinear_arith);
            }
            y = y + 1;
        }
        proof {
            assert((height as int) * (width as int) == (width as int) * (height
                as int)) by (nonlinear_arith);
            assert(network.ids() =~= Seq::new((width * height) as nat, |i: int| i as u64));
        }

        let mut edge_id: u64 = 0;
        let mut y2: usize = 0;
        while y2 < height
            invariant
                y2 <= height,
                network.wf(),
                network.ids() =~= Seq::new((width * height) as nat, |i: int| i as u64),
                forall|id: u64|
                    network.nodes_map().contains_key(id) <==> (id as int) < width * height,
                forall|eid: u64| network.edges_map().contains_key(eid) <==> (eid as int) < edge_id,
                edge_id == network.links().len(),
                edge_id == grid_edges_before(w, h, y2 as int),
                edge_id <= 2 * ((y2 as int) * w),
                forall|k: int|
                    0 <= k < network.links().len() ==> is_grid_link(
                        w,
                        h,
                        c0,
                        #[trigger] network.links()[k],
                    ),
                forall|x: int, yy: int|
                    0 <= x < w - 1 && 0 <= yy < y2 ==> has_link(
                        network.links(),
                        #[trigger] grid_cell(w, x, yy),
                        grid_cell(w, x, yy) + 1,
                        c0,
                    ),
                forall|x: int, yy: int|
                    0 <= x < w && 0 <= yy < y2 && yy < h - 1 ==> has_link(
                        network.links(),
                        #[trigger] grid_cell(w, x, yy),
                        grid_cell(w, x, yy) + w,
                        c0,
                    ),
            decreases height - y2,
        {
            let ghost row_base = edge_id as int;
            let mut x2: usize = 0;
            while x2 < width
                invariant
                    y2 < height,
                    x2 <= width,
                    network.wf(),
                    network.ids() =~= Seq::new((width * height) as nat, |i: int| i as u64),
                    forall|id: u64|
                        network.nodes_map().contains_key(id) <==> (id as int) < width * height,
                    forall|eid: u64|
                        network.edges_map().contains_key(eid) <==> (eid as int) < edge_id,
                    edge_id == network.links().len(),
                    row_base == grid_edges_before(w, h, y2 as int),
                    edge_id == row_base + grid_row_edges(w, h, y2 as int, x2 as int),
                    edge_id <= 2 * ((y2 as int) * w + x2),
                    forall|k: int|
                        0 <= k < network.links().len() ==> is_grid_link(
                            w,
                            h,
                            c0,
                            #[trigger] network.links()[k],
                        ),
                    forall|x: int, yy: int|
                        0 <= x < w - 1 && (0 <= yy < y2 || yy == y2 && x < x2) ==> has_link(
                            network.links(),
                            #[trigger] grid_cell(w, x, yy),
                            grid_cell(w, x, yy) + 1,
                            c0,
                        ),
                    forall|x: int, yy: int|
                        0 <= x < w && (0 <= yy < y2 || yy == y2 && x < x2) && yy < h - 1
                            ==> has_link(
                            network.links(),
                            #[trigger] grid_cell(w, x, yy),
                            grid_cell(w, x, yy) + w,
                            c0,
                        ),
                decreases width - x2,
            {
                proof {
                    assert(y2 * width + x2 < width * height && (y2 + 1) * width == y2 * width
                        + width && 2 * ((y2 as int) * width + x2) + 2 <= 2 * ((width
                        * height) as int) && (x2 + 1 < width ==> y2 * width + x2 + 1 < width
                        * height)) by (nonlinear_arith)
                        requires
                            0 <= x2 < width && 0 <= y2 < height,
                    ;
                    assert(grid_cell(w, x2 as int, y2 as int) == y2 * width + x2);
                }
                let current_node = (y2 * width + x2) as u64;
                if x2 + 1 < width {
                    let right_node = (y2 * width + x2 + 1) as u64;
                    let geometry: Vec<(i64, i64)> = Vec::new();
                    let edge = Edge::new(edge_id, current_node, right_node, geometry, spacing_mm);
                    let ghost pre_links = network.links();
                    match network.add_edge(edge, RoutingMode::Car) {
                        Ok(_) => (),
                        Err(e) => {
                            return Err(e);
                        },
                    };
                    proof {
                        lemma_has_link_push(
                            pre_links,
                            (current_node, right_node, (c0 as u64)),
                        );
                        let nl = network.links();
                        assert(nl[nl.len() - 1] == (
                            (grid_cell(w, x2 as int, y2 as int) as u64),
                            ((grid_cell(w, x2 as int, y2 as int) + 1) as u64),
                            (c0 as u64),
                        ));
                        assert(is_grid_link(w, h, c0, nl[nl.len() - 1]));
                        assert(has_link(
                            nl,
                            grid_cell(w, x2 as int, y2 as int),
                            grid_cell(w, x2 as int, y2 as int) + 1,
                            c0,
                        ));
                    }
                    edge_id = edge_id + 1;
                }
                if y2 + 1 < height {
                    proof {
                        assert((y2 + 1) * width + x2 < width * height) by (nonlinear_arith)
                            requires
                                0 <= x2 < width && 0 <= y2 && y2 + 1 < height,
                        ;
                    }
                    let bottom_node = ((y2 + 1) * width + x2) as u64;
                    let geometry: Vec<(i64, i64)> = Vec::new();
                    let edge = Edge::new(edge_id, current_node, bottom_node, geometry, spacing_mm);
                    let ghost pre_links = network.links();
                    match network.add_edge(edge, RoutingMode::Car) {
                        Ok(_) => (),
                        Err(e) => {
                            return Err(e);
                        },
                    };
                    proof {
                        lemma_has_link_push(
                            pre_links,
                            (current_node, bottom_node, (c0 as u64)),
                        );
                        let nl = network.links();
                        assert(nl[nl.len() - 1] == (
                            (grid_cell(w, x2 as int, y2 as int) as u64),
                            ((grid_cell(w, x2 as int, y2 as int) + w) as u64),
                            (c0 as u64),
                        ));
                        assert(is_grid_link(w, h, c0, nl[nl.len() - 1]));
                        assert(has_link(
                            nl,
                            grid_cell(w, x2 as int, y2 as int),
                            grid_cell(w, x2 as int, y2 as int) + w,
                            c0,
                        ));
                    }
                    edge_id = edge_id + 1;
                }
                x2 = x2 + 1;
            }
            proof {
                assert(grid_edges_before(w, h, y2 + 1) == row_base + grid_row_edges(
                    w,
                    h,
                    y2 as int,
                    w,
                )) by {
                    if y2 + 1 < h {
                        assert((y2 + 1) * (2 * w - 1) == y2 as int * (2 * w - 1) + (2 * w
                            - 1)) by (nonlinear_arith);
                    }
                }
                assert(2 * ((y2 as int) * w + w) == 2 * ((y2 + 1) * w)) by (nonlinear_arith);
                assert forall|x: int, yy: int|
                    0 <= x < w - 1 && 0 <= yy < y2 + 1 implies has_link(
                    network.links(),
                    #[trigger] grid_cell(w, x, yy),
                    grid_cell(w, x, yy) + 1,
                    c0,
                ) by {
                    if yy == y2 as int {
                        assert(x < x2);
                    }
                }
                assert forall|x: int, yy: int|
                    0 <= x < w && 0 <= yy < y2 + 1 && yy < h - 1 implies has_link(
                    network.links(),
                    #[trigger] grid_cell(w, x, yy),
                    grid_cell(w, x, yy) + w,
                    c0,
                ) by {
                    if yy == y2 as int {
                        assert(x < x2);
                    }
                }
            }
            y2 = y2 + 1;
        }
        proof {
            if w > 0 && h > 0 {
                assert((h - 1) * (2 * w - 1) + (w - 1) == (w - 1) * h + w * (h
                    - 1)) by (nonlinear_arith);
            }
            assert(network.links().len() == grid_edge_count(w, h));
        }
        Ok(network)
    }

    /// The simple test network: a 3 by 3 grid with one kilometer between
    /// neighbours.
    pub fn create_simple() -> (r: crate::RoutingResult<Network>)
        ensures
            (match r {
                Ok(net) => is_grid_network(net, 3, 3, 1000000),
                Err(_) => false,
            }),
    {
        Self::create_grid(3, 3, 1000000)
    }
}

} // verus!
