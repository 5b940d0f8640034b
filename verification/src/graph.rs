//! The directed multigraph that holds the time-expanded timetable.
//!
//! The graph itself is `petgraph`'s arena-backed `DiGraph`, used here only
//! through the small trusted interface below. Its contents are abstracted
//! by two uninterpreted sequences, `graph_nodes` and `graph_edges`: node
//! and edge indices are positions in them, in order of insertion. Nothing
//! is ever removed from the graph, so indices stay stable, exactly as
//! `petgraph` documents for a grow-only graph.

use vstd::prelude::*;

use crate::weights::EdgeWeight;
use crate::weights::NodeWeight;
use petgraph::graph::DiGraph;
use petgraph::graph::EdgeIndex;
use petgraph::graph::NodeIndex;
use petgraph::visit::EdgeRef;

verus! {

#[verifier::external_type_specification]
#[verifier::external_body]
#[verifier::reject_recursive_types(N)]
#[verifier::reject_recursive_types(E)]
#[verifier::reject_recursive_types(Ty)]
#[verifier::reject_recursive_types(Ix)]
pub struct ExGraph<N, E, Ty, Ix>(petgraph::graph::Graph<N, E, Ty, Ix>);

#[verifier::external_type_specification]
#[verifier::external_body]
pub struct ExDirected(petgraph::Directed);

/// The node weights the graph holds, in insertion order; a node index is a
/// position in this sequence.
pub uninterp spec fn graph_nodes(g: &DiGraph<NodeWeight, EdgeWeight>) -> Seq<NodeWeight>;

/// The edges the graph holds as (source, target, weight) triples, in
/// insertion order; an edge index is a position in this sequence.
pub uninterp spec fn graph_edges(g: &DiGraph<NodeWeight, EdgeWeight>) -> Seq<
    (usize, usize, EdgeWeight),
>;

/// The largest node or edge count the graph accepts before its 32-bit
/// indices run out.
pub open spec fn max_index() -> int {
    0xffff_ffff - 1
}

/// Relies on `petgraph::graph::Graph::new`: a graph with no nodes and no
/// edges.
#[verifier::external_body]
pub fn graph_new() -> (g: DiGraph<NodeWeight, EdgeWeight>)
    ensures
        graph_nodes(&g) == Seq::<NodeWeight>::empty(),
        graph_edges(&g) == Seq::<(usize, usize, EdgeWeight)>::empty(),
{
    DiGraph::new()
}

/// Relies on `petgraph::graph::Graph::node_count`: the number of nodes.
#[verifier::external_body]
pub fn graph_node_count(g: &DiGraph<NodeWeight, EdgeWeight>) -> (n: usize)
    ensures
        n == graph_nodes(g).len(),
{
    g.node_count()
}

/// Relies on `petgraph::graph::Graph::edge_count`: the number of edges.
#[verifier::external_body]
pub fn graph_edge_count(g: &DiGraph<NodeWeight, EdgeWeight>) -> (n: usize)
    ensures
        n == graph_edges(g).len(),
{
    g.edge_count()
}

/// Relies on `petgraph::graph::Graph::add_node`: appends a node and returns
/// its index, the previous node count. Existing nodes and edges are kept.
#[verifier::external_body]
pub fn graph_add_node(g: &mut DiGraph<NodeWeight, EdgeWeight>, w: NodeWeight) -> (i: usize)
    requires
        graph_nodes(&*old(g)).len() <= max_index(),
    ensures
        i == graph_nodes(&*old(g)).len(),
        graph_nodes(&*final(g)) == graph_nodes(&*old(g)).push(w),
        graph_edges(&*final(g)) == graph_edges(&*old(g)),
{
    g.add_node(w).index()
}

/// Relies on `petgraph::graph::Graph::add_edge`: appends an edge from `a`
/// to `b` and returns its index, the previous edge count. Parallel edges
/// are allowed; existing nodes and edges are kept.
#[verifier::external_body]
pub fn graph_add_edge(
    g: &mut DiGraph<NodeWeight, EdgeWeight>,
    a: usize,
    b: usize,
    w: EdgeWeight,
) -> (e: usize)
    requires
        a < graph_nodes(&*old(g)).len(),
        b < graph_nodes(&*old(g)).len(),
        graph_edges(&*old(g)).len() <= max_index(),
    ensures
        e == graph_edges(&*old(g)).len(),
        graph_edges(&*final(g)) == graph_edges(&*old(g)).push((a, b, w)),
        graph_nodes(&*final(g)) == graph_nodes(&*old(g)),
{
    g.add_edge(NodeIndex::new(a), NodeIndex::new(b), w).index()
}

/// Relies on `petgraph::graph::Graph::node_weight`: the weight stored for
/// a node index that exists.
#[verifier::external_body]
pub fn graph_node_weight<'a>(g: &'a DiGraph<NodeWeight, EdgeWeight>, i: usize) -> (w:
    &'a NodeWeight)
    requires
        i < graph_nodes(g).len(),
    ensures
        *w == graph_nodes(g)[i as int],
{
    g.node_weight(NodeIndex::new(i)).unwrap()
}

/// Relies on `petgraph::graph::Graph::edge_weight`: the weight stored for
/// an edge index that exists.
#[verifier::external_body]
pub fn graph_edge_weight<'a>(g: &'a DiGraph<NodeWeight, EdgeWeight>, e: usize) -> (w:
    &'a EdgeWeight)
    requires
        e < graph_edges(g).len(),
    ensures
        *w == graph_edges(g)[e as int].2,
{
    g.edge_weight(EdgeIndex::new(e)).unwrap()
}

/// Relies on `petgraph::graph::Graph::edge_endpoints`: the source and
/// target of an edge index that exists.
#[verifier::external_body]
pub fn graph_edge_endpoints(g: &DiGraph<NodeWeight, EdgeWeight>, e: usize) -> (r: (usize, usize))
    requires
        e < graph_edges(g).len(),
    ensures
        r.0 == graph_edges(g)[e as int].0,
        r.1 == graph_edges(g)[e as int].1,
{
    let (a, b) = g.edge_endpoints(EdgeIndex::new(e)).unwrap();
    (a.index(), b.index())
}

/// Relies on `petgraph::graph::Graph::edge_weight_mut`: replaces the
/// weight of an edge that exists; the endpoints and everything else stay.
#[verifier::external_body]
pub fn graph_set_edge_weight(g: &mut DiGraph<NodeWeight, EdgeWeight>, e: usize, w: EdgeWeight)
    requires
        e < graph_edges(&*old(g)).len(),
    ensures
        graph_edges(&*final(g)) == graph_edges(&*old(g)).update(
            e as int,
            (graph_edges(&*old(g))[e as int].0, graph_edges(&*old(g))[e as int].1, w),
        ),
        graph_nodes(&*final(g)) == graph_nodes(&*old(g)),
{
    *g.edge_weight_mut(EdgeIndex::new(e)).unwrap() = w;
}

/// Relies on `petgraph::graph::Graph::edges_directed` with the outgoing
/// direction: it yields, once each, exactly the edges whose source is the
/// given node. Each is returned as (edge index, target node index).
#[verifier::external_body]
pub fn graph_out_edges(g: &DiGraph<NodeWeight, EdgeWeight>, n: usize) -> (r: Vec<(usize, usize)>)
    requires
        n < graph_nodes(g).len(),
    ensures
        forall|k: int|
            0 <= k < r@.len() ==> {
                &&& #[trigger] r@[k].0 < graph_edges(g).len()
                &&& graph_edges(g)[r@[k].0 as int].0 == n
                &&& r@[k].1 == graph_edges(g)[r@[k].0 as int].1
            },
        forall|e: int|
            0 <= e < graph_edges(g).len() && graph_edges(g)[e].0 == n ==> exists|k: int|
                0 <= k < r@.len() && #[trigger] r@[k].0 == e,
        forall|k1: int, k2: int|
            0 <= k1 < r@.len() && 0 <= k2 < r@.len() && k1 != k2 ==> r@[k1].0 != r@[k2].0,
{
    g.edges_directed(NodeIndex::new(n), petgraph::Direction::Outgoing).map(
        |er| (er.id().index(), er.target().index()),
    ).collect()
}

/// What an edge of each kind connects and how its duration relates to the
/// event times of its endpoints. Together these clauses say that time never
/// runs backwards along an edge and that the aggregating sinks have no
/// outgoing edges.
pub open spec fn edge_shape(nodes: Seq<NodeWeight>, t: (usize, usize, EdgeWeight)) -> bool {
    let from = nodes[t.0 as int];
    let to = nodes[t.1 as int];
    match t.2 {
        EdgeWeight::Ride { duration, .. } => {
            &&& from matches NodeWeight::Departure { trip_id: ft, time: dt, .. } ==> {
                &&& to matches NodeWeight::Arrival { trip_id: tt, time: at, .. } && tt == ft && at
                    >= dt && duration == at - dt
            }
            &&& from is Departure
        },
        EdgeWeight::WaitInTrain { duration } => {
            &&& from matches NodeWeight::Arrival { trip_id: ft, time: at, .. } ==> {
                &&& to matches NodeWeight::Departure { trip_id: tt, time: dt, .. } && tt == ft && dt
                    >= at && duration == dt - at
            }
            &&& from is Arrival
        },
        EdgeWeight::Board => {
            &&& from matches NodeWeight::Transfer { time: t1, station_id: s1 } ==> {
                &&& to matches NodeWeight::Departure { time: t2, station_id: s2, .. } && t2 == t1
                    && s2@ == s1@
            }
            &&& from is Transfer
        },
        EdgeWeight::Alight { duration } => {
            &&& from matches NodeWeight::Arrival { time: t1, station_id: s1, .. } ==> {
                &&& to matches NodeWeight::Transfer { time: t2, station_id: s2 } && s2@ == s1@ && t2
                    >= t1 + duration
            }
            &&& from is Arrival
        },
        EdgeWeight::WaitAtStation { duration } => {
            &&& from matches NodeWeight::Transfer { time: t1, station_id: s1 } ==> {
                &&& to matches NodeWeight::Transfer { time: t2, station_id: s2 } && s2@ == s1@ && t2
                    >= t1 && duration == t2 - t1
            }
            &&& from is Transfer
        },
        EdgeWeight::Walk { duration } => {
            &&& from matches NodeWeight::Arrival { time: t1, .. } ==> {
                &&& to matches NodeWeight::Transfer { time: t2, .. } && t2 >= t1 + duration
            }
            &&& from is Arrival
        },
        EdgeWeight::MainArrivalRelation => {
            &&& from matches NodeWeight::Arrival { station_id: s1, .. } ==> {
                &&& to matches NodeWeight::MainArrival { station_id: s2 } && s2@ == s1@
            }
            &&& from is Arrival
        },
    }
}

/// One well-formed edge: endpoints in bounds, the shape of its kind, and a
/// utilization within capacity.
pub open spec fn wf_edge(
    nodes: Seq<NodeWeight>,
    edges: Seq<(usize, usize, EdgeWeight)>,
    e: int,
) -> bool {
    &&& edges[e].0 < nodes.len()
    &&& edges[e].1 < nodes.len()
    &&& edge_shape(nodes, edges[e])
    &&& edges[e].2.spec_utilization() <= edges[e].2.spec_capacity()
}

/// A well-formed time-expanded graph: every edge is well-formed.
pub open spec fn wf_graph(nodes: Seq<NodeWeight>, edges: Seq<(usize, usize, EdgeWeight)>) -> bool {
    forall|e: int| 0 <= e < edges.len() ==> wf_edge(nodes, edges, e)
}

/// In a well-formed graph, no edge leaves a `MainArrival` node, and an edge
/// of cost zero always enters one. This is what bounds the depth of the
/// path search: every step either spends budget or ends in a sink.
pub proof fn lemma_wf_edge_advances(
    nodes: Seq<NodeWeight>,
    edges: Seq<(usize, usize, EdgeWeight)>,
    e: int,
)
    requires
        wf_graph(nodes, edges),
        0 <= e < edges.len(),
    ensures
        !(nodes[edges[e].0 as int] is MainArrival),
        edges[e].2.spec_cost() == 0 ==> nodes[edges[e].1 as int] is MainArrival,
{
    assert(wf_edge(nodes, edges, e));
}

} // verus!
