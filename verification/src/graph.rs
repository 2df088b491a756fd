//! The routing graph: a weighted directed multigraph mirroring the road
//! network's node set, with shortest-path queries.  The graph itself is
//! held in `petgraph`; its contents are named by uninterpreted spec
//! functions and every call goes through a trusted wrapper.

use vstd::multiset::Multiset;
use vstd::prelude::*;

use crate::network::{contains_node, Edge, Network, NodeId};
use crate::MMError;
use crate::MAX_EDGE_LENGTH;
use crate::MAX_GRAPH_NODES;

verus! {

broadcast use vstd::multiset::group_multiset_axioms;

/// The concrete routing graph type: node weights are unused markers,
/// edge weights are lengths in the library's linear unit.
pub type RouteGraph = petgraph::graph::Graph<u32, u64, petgraph::Directed, usize>;

#[verifier::external_type_specification]
#[verifier::external_body]
pub struct ExDirected(petgraph::Directed);

#[verifier::external_type_specification]
#[verifier::external_body]
#[verifier::reject_recursive_types(N)]
#[verifier::reject_recursive_types(E)]
#[verifier::reject_recursive_types(Ty)]
#[verifier::reject_recursive_types(Ix)]
pub struct ExGraph<N, E, Ty, Ix>(petgraph::graph::Graph<N, E, Ty, Ix>);

/// The arcs a routing graph holds: origin index, target index, weight.
pub uninterp spec fn graph_arcs(g: RouteGraph) -> Multiset<(usize, usize, u64)>;

/// How many nodes a routing graph holds.
pub uninterp spec fn graph_node_count(g: RouteGraph) -> nat;

/// The cost of the cheapest directed path from `from` to `to` over the
/// given arcs; `None` when no path exists.  The cost is a function of
/// the arcs alone.
pub uninterp spec fn shortest_cost(
    arcs: Multiset<(usize, usize, u64)>,
    from: usize,
    to: usize,
) -> Option<u64>;

/// The cost of the `k`-th cheapest directed walk from `from` to `to`
/// over the given arcs (the underlying ranking may revisit nodes, so
/// these are walks, not simple paths); `None` when there are fewer
/// than `k`.  With `k == 1` it is the shortest-path cost.
pub uninterp spec fn kth_shortest_cost(
    arcs: Multiset<(usize, usize, u64)>,
    from: usize,
    to: usize,
    k: usize,
) -> Option<u64>;

/// Relies on `petgraph::graph::Graph::with_capacity`: a graph with no
/// nodes and no edges.
#[verifier::external_body]
fn pg_with_capacity(nodes: usize, edges: usize) -> (g: RouteGraph)
    ensures
        graph_node_count(g) == 0,
        graph_arcs(g) == Multiset::<(usize, usize, u64)>::empty(),
{
    petgraph::graph::Graph::with_capacity(nodes, edges)
}

/// Relies on `petgraph::graph::Graph::add_node`: appends one node and
/// returns its index, the old node count.
#[verifier::external_body]
fn pg_add_node(g: &mut RouteGraph) -> (i: usize)
    requires
        graph_node_count(*old(g)) < usize::MAX,
    ensures
        i == graph_node_count(*old(g)),
        graph_node_count(*final(g)) == graph_node_count(*old(g)) + 1,
        graph_arcs(*final(g)) == graph_arcs(*old(g)),
{
    g.add_node(1).index()
}

/// Relies on `petgraph::graph::Graph::node_count`.
#[verifier::external_body]
fn pg_node_count(g: &RouteGraph) -> (n: usize)
    ensures
        n == graph_node_count(*g),
{
    g.node_count()
}

/// Relies on `petgraph::graph::Graph::add_edge`: inserts one directed
/// arc between existing nodes; parallel arcs are kept.
#[verifier::external_body]
fn pg_add_edge(g: &mut RouteGraph, a: usize, b: usize, w: u64)
    requires
        a < graph_node_count(*old(g)),
        b < graph_node_count(*old(g)),
        graph_arcs(*old(g)).len() < usize::MAX,
    ensures
        graph_node_count(*final(g)) == graph_node_count(*old(g)),
        graph_arcs(*final(g)) == graph_arcs(*old(g)).insert((a, b, w)),
{
    g.add_edge(
        petgraph::graph::NodeIndex::new(a),
        petgraph::graph::NodeIndex::new(b),
        w,
    );
}

/// Relies on `petgraph::algo::dijkstra`: the cost of the cheapest path
/// from `from` to `to`, `None` when `to` is unreachable.  The node and
/// weight bounds keep every relaxation sum inside `u64`.
#[verifier::external_body]
fn pg_dijkstra(g: &RouteGraph, from: usize, to: usize) -> (r: Option<u64>)
    requires
        from < graph_node_count(*g),
        to < graph_node_count(*g),
        graph_node_count(*g) <= MAX_GRAPH_NODES,
        forall|a: (usize, usize, u64)|
            graph_arcs(*g).count(a) > 0 ==> a.2 <= MAX_EDGE_LENGTH,
    ensures
        r == shortest_cost(graph_arcs(*g), from, to),
        from == to ==> r == Some(0u64),
{
    let result = petgraph::algo::dijkstra(
        g,
        petgraph::graph::NodeIndex::new(from),
        Some(petgraph::graph::NodeIndex::new(to)),
        |e| *petgraph::visit::EdgeRef::weight(&e),
    );
    result.get(&petgraph::graph::NodeIndex::new(to)).copied()
}

/// Relies on `petgraph::algo::k_shortest_path`: the cost of the `k`-th
/// cheapest walk from `from` to `to` (the ranking counts walks, which
/// may revisit nodes), `None` when there are fewer than `k`; with
/// `k == 1` it is the shortest-path cost, agreeing with Dijkstra.  The
/// bound on `k` times the node count keeps every relaxation sum inside
/// `u64`.
#[verifier::external_body]
fn pg_k_shortest(g: &RouteGraph, from: usize, to: usize, k: usize) -> (r: Option<u64>)
    requires
        from < graph_node_count(*g),
        to < graph_node_count(*g),
        k * graph_node_count(*g) <= MAX_GRAPH_NODES,
        forall|a: (usize, usize, u64)|
            graph_arcs(*g).count(a) > 0 ==> a.2 <= MAX_EDGE_LENGTH,
    ensures
        r == kth_shortest_cost(graph_arcs(*g), from, to, k),
        k == 1 ==> r == shortest_cost(graph_arcs(*g), from, to),
{
    let result = petgraph::algo::k_shortest_path(
        g,
        petgraph::graph::NodeIndex::new(from),
        Some(petgraph::graph::NodeIndex::new(to)),
        k,
        |e| *petgraph::visit::EdgeRef::weight(&e),
    );
    result.get(&petgraph::graph::NodeIndex::new(to)).copied()
}

/// Does the graph hold an arc for edge `i` of the network: from the
/// index of the edge's start node to the index of its end node,
/// weighted with the edge's length?
pub open spec fn edge_arc_present(g: RouteGraph, net: Network, i: int) -> bool {
    exists|fi: usize, ti: usize|
        fi < net.nodes@.len() && ti < net.nodes@.len() && net.nodes@[fi as int] == net.edges@[i].from
            && net.nodes@[ti as int] == net.edges@[i].to && graph_arcs(g).count(
            (fi, ti, net.edges@[i].length),
        ) > 0
}

/// An arc present before an insertion is still present after it.
proof fn lemma_arc_present_insert(
    g0: RouteGraph,
    g1: RouteGraph,
    x: (usize, usize, u64),
    net: Network,
    i: int,
)
    requires
        edge_arc_present(g0, net, i),
        graph_arcs(g1) == graph_arcs(g0).insert(x),
    ensures
        edge_arc_present(g1, net, i),
{
    let (fi, ti) = choose|fi: usize, ti: usize|
        fi < net.nodes@.len() && ti < net.nodes@.len() && net.nodes@[fi as int]
            == net.edges@[i].from && net.nodes@[ti as int] == net.edges@[i].to && graph_arcs(
            g0,
        ).count((fi, ti, net.edges@[i].length)) > 0;
    assert(graph_arcs(g1).count((fi, ti, net.edges@[i].length)) > 0);
}

/// The road network together with its routing graph.
pub struct RoadGraph {
    pub network: Network,
    pub graph: RouteGraph,
}

impl RoadGraph {
    /// Invariant: the graph mirrors the network's node set (same count),
    /// its node count is bounded, and every arc connects existing nodes
    /// with a routable weight.
    pub open spec fn wf(&self) -> bool {
        &&& self.network.wf()
        &&& graph_node_count(self.graph) == self.network.nodes@.len()
        &&& self.network.nodes@.len() <= MAX_GRAPH_NODES
        &&& forall|a: (usize, usize, u64)|
            graph_arcs(self.graph).count(a) > 0 ==> {
                &&& a.0 < graph_node_count(self.graph)
                &&& a.1 < graph_node_count(self.graph)
                &&& a.2 <= MAX_EDGE_LENGTH
            }
    }

    /// Builds the routing graph of a network: one graph node per network
    /// node, and exactly one weighted arc per edge, from the index of
    /// the edge's start node to the index of its end node.
    pub fn new(network: Network) -> (r: RoadGraph)
        requires
            network.wf(),
            network.nodes@.len() <= MAX_GRAPH_NODES,
        ensures
            r.wf(),
            r.network.nodes@ == network.nodes@,
            r.network.edges@ == network.edges@,
            graph_arcs(r.graph).len() == network.edges@.len(),
            forall|i: int|
                0 <= i < network.edges@.len() ==> edge_arc_present(r.graph, network, i),
    {
        let ghost net0 = network;
        let node_size = network.nodes.len();
        let edge_size = network.edges.len();
        let mut gh = RoadGraph { network, graph: pg_with_capacity(node_size, edge_size) };
        let mut i: usize = 0;
        while i < node_size
            invariant
                gh.network == net0,
                net0.wf(),
                node_size == net0.nodes@.len(),
                node_size <= MAX_GRAPH_NODES,
                0 <= i <= node_size,
                graph_node_count(gh.graph) == i,
                graph_arcs(gh.graph) == Multiset::<(usize, usize, u64)>::empty(),
            decreases node_size - i,
        {
            let _ = pg_add_node(&mut gh.graph);
            i = i + 1;
        }
        let mut j: usize = 0;
        while j < edge_size
            invariant
                gh.network == net0,
                net0.wf(),
                edge_size == net0.edges@.len(),
                node_size == net0.nodes@.len(),
                node_size <= MAX_GRAPH_NODES,
                0 <= j <= edge_size,
                graph_node_count(gh.graph) == node_size,
                graph_arcs(gh.graph).len() == j,
                forall|i2: int| 0 <= i2 < j ==> edge_arc_present(gh.graph, net0, i2),
                forall|a: (usize, usize, u64)|
                    graph_arcs(gh.graph).count(a) > 0 ==> {
                        &&& a.0 < graph_node_count(gh.graph)
                        &&& a.1 < graph_node_count(gh.graph)
                        &&& a.2 <= MAX_EDGE_LENGTH
                    },
            decreases edge_size - j,
        {
            let from_id = gh.network.edges[j].get_from_node();
            let to_id = gh.network.edges[j].get_to_node();
            let w = gh.network.edges[j].get_length();
            let from_idx = match gh.network.find_node_by_id(&from_id) {
                Some(f) => f,
                None => {
                    proof {
                        assert(contains_node(gh.network.nodes@, gh.network.edges@[j as int].from));
                        assert(false);
                    }
                    0
                },
            };
            let to_idx = match gh.network.find_node_by_id(&to_id) {
                Some(t) => t,
                None => {
                    proof {
                        assert(contains_node(gh.network.nodes@, gh.network.edges@[j as int].to));
                        assert(false);
                    }
                    0
                },
            };
            let ghost arcs0 = graph_arcs(gh.graph);
            let ghost g_before = gh.graph;
            pg_add_edge(&mut gh.graph, from_idx, to_idx, w);
            proof {
                vstd::multiset::lemma_insert_len(arcs0, (from_idx, to_idx, w));
                assert forall|i2: int| 0 <= i2 < j + 1 implies edge_arc_present(
                    gh.graph,
                    net0,
                    i2,
                ) by {
                    if i2 < j {
                        lemma_arc_present_insert(
                            g_before,
                            gh.graph,
                            (from_idx, to_idx, w),
                            net0,
                            i2,
                        );
                    } else {
                        assert(graph_arcs(gh.graph).count((from_idx, to_idx, w)) > 0);
                        assert(net0.nodes@[from_idx as int] == net0.edges@[i2].from);
                        assert(net0.nodes@[to_idx as int] == net0.edges@[i2].to);
                    }
                }
            }
            j = j + 1;
        }
        gh
    }

    /// Makes sure both endpoints of `edge` exist as nodes (adding any
    /// missing one to the network and to the graph alike), then inserts
    /// one directed arc weighted with the edge's length.  Fails with
    /// `Internal` only when a capacity bound would be crossed.
    pub fn update_graph(&mut self, edge: Edge) -> (r: Result<(), MMError>)
        requires
            old(self).wf(),
            edge.length <= MAX_EDGE_LENGTH,
        ensures
            final(self).wf(),
            final(self).network.edges@ == old(self).network.edges@,
            old(self).network.nodes@.len() <= final(self).network.nodes@.len(),
            forall|i: int|
                0 <= i < old(self).network.nodes@.len() ==> final(self).network.nodes@[i] == old(
                    self,
                ).network.nodes@[i],
            r is Ok ==> {
                &&& contains_node(final(self).network.nodes@, edge.from)
                &&& contains_node(final(self).network.nodes@, edge.to)
                &&& exists|fi: usize, ti: usize|
                    {
                        &&& fi < final(self).network.nodes@.len()
                        &&& ti < final(self).network.nodes@.len()
                        &&& final(self).network.nodes@[fi as int] == edge.from
                        &&& final(self).network.nodes@[ti as int] == edge.to
                        &&& graph_arcs(final(self).graph) == graph_arcs(old(self).graph).insert(
                            (fi, ti, edge.length),
                        )
                    }
            },
            old(self).network.nodes@.len() + 2 <= MAX_GRAPH_NODES && graph_arcs(
                old(self).graph,
            ).len() + 1 < usize::MAX ==> r is Ok,
            r is Err ==> r == Err::<(), MMError>(MMError::Internal) && *final(self) == *old(self),
            graph_arcs(old(self).graph).subset_of(graph_arcs(final(self).graph)),
            final(self).network.nodes@.len() <= old(self).network.nodes@.len() + 2,
            r is Ok ==> graph_arcs(final(self).graph).len() == graph_arcs(old(self).graph).len()
                + 1,
    {
        if self.network.nodes.len() + 2 > MAX_GRAPH_NODES {
            return Err(MMError::Internal);
        }
        if pg_edge_count(&self.graph) >= usize::MAX - 1 {
            return Err(MMError::Internal);
        }
        let from_idx: usize = match self.network.find_node_by_id(&edge.get_from_node()) {
            Some(f) => f,
            None => {
                let _ = pg_add_node(&mut self.graph);
                let r = self.network.add_node(edge.get_from_node());
                match r {
                    Ok(ni) => ni,
                    Err(_) => {
                        proof {
                            assert(false);
                        }
                        0
                    },
                }
            },
        };
        // The counts are re-checked as a defensive measure; the
        // invariant makes the failure branch unreachable.
        if self.network.nodes.len() != pg_node_count(&self.graph) {
            proof {
                assert(false);
            }
            return Err(MMError::Internal);
        }
        let to_idx: usize = match self.network.find_node_by_id(&edge.get_to_node()) {
            Some(t) => t,
            None => {
                let _ = pg_add_node(&mut self.graph);
                let r = self.network.add_node(edge.get_to_node());
                match r {
                    Ok(ni) => ni,
                    Err(_) => {
                        proof {
                            assert(false);
                        }
                        0
                    },
                }
            },
        };
        let ghost arcs0 = graph_arcs(self.graph);
        pg_add_edge(&mut self.graph, from_idx, to_idx, edge.get_length());
        proof {
            vstd::multiset::lemma_insert_len(arcs0, (from_idx, to_idx, edge.length));
            assert(self.network.nodes@[from_idx as int] == edge.from);
            assert(self.network.nodes@[to_idx as int] == edge.to);
        }
        Ok(())
    }

    /// How many arcs the routing graph holds.
    pub fn arc_count(&self) -> (n: usize)
        ensures
            n == graph_arcs(self.graph).len(),
    {
        pg_edge_count(&self.graph)
    }

    /// The cost of the cheapest path between two node indices; fails
    /// with `NoPath` exactly when `to` is unreachable from `from`.
    pub fn short_path(&self, from: usize, to: usize) -> (r: Result<u64, MMError>)
        requires
            self.wf(),
            from < self.network.nodes@.len(),
            to < self.network.nodes@.len(),
        ensures
            r matches Ok(c) ==> shortest_cost(graph_arcs(self.graph), from, to) == Some(c),
            r matches Err(e) ==> e == MMError::NoPath && shortest_cost(
                graph_arcs(self.graph),
                from,
                to,
            ) is None,
            from == to ==> r == Ok::<u64, MMError>(0u64),
    {
        match pg_dijkstra(&self.graph, from, to) {
            Some(c) => Ok(c),
            None => Err(MMError::NoPath),
        }
    }

    /// The cost of the `k`-th cheapest walk between two node indices
    /// (the ranking may revisit nodes); fails with `NoPath` when there
    /// are fewer than `k`.  With `k == 1` it agrees with `short_path`.
    pub fn short_k_path(&self, from: usize, to: usize, k: usize) -> (r: Result<u64, MMError>)
        requires
            self.wf(),
            from < self.network.nodes@.len(),
            to < self.network.nodes@.len(),
            k * self.network.nodes@.len() <= MAX_GRAPH_NODES,
        ensures
            r matches Ok(c) ==> kth_shortest_cost(graph_arcs(self.graph), from, to, k) == Some(c),
            r matches Err(e) ==> e == MMError::NoPath && kth_shortest_cost(
                graph_arcs(self.graph),
                from,
                to,
                k,
            ) is None,
            k == 1 ==> r == match shortest_cost(graph_arcs(self.graph), from, to) {
                Some(c) => Ok::<u64, MMError>(c),
                None => Err::<u64, MMError>(MMError::NoPath),
            },
    {
        match pg_k_shortest(&self.graph, from, to, k) {
            Some(c) => Ok(c),
            None => Err(MMError::NoPath),
        }
    }
}

/// Node-count invariant: a well-formed routing graph holds exactly as
/// many nodes as its road network, at every observable moment; every
/// operation of `RoadGraph` preserves `wf`.
pub proof fn lemma_node_count_invariant(g: &RoadGraph)
    requires
        g.wf(),
    ensures
        graph_node_count(g.graph) == g.network.nodes@.len(),
{
}

/// Relies on `petgraph::graph::Graph::edge_count`.
#[verifier::external_body]
fn pg_edge_count(g: &RouteGraph) -> (n: usize)
    ensures
        n == graph_arcs(*g).len(),
{
    g.edge_count()
}

} // verus!
