//! Diagnostic subgraph extraction: a filtered copy of the timetable graph
//! holding exactly a chosen set of edges and the nodes incident to them.

use vstd::prelude::*;

use crate::graph::graph_add_edge;
use crate::graph::graph_add_node;
use crate::graph::graph_edges;
use crate::graph::graph_new;
use crate::graph::graph_nodes;
use crate::graph::max_index;
use crate::model::Model;
use crate::weights::EdgeWeight;
use crate::weights::NodeWeight;
use petgraph::graph::DiGraph;

verus! {

/// The subgraph edge at position `k` mirrors the model edge `e` through
/// the node map: same weight, endpoints renumbered.
pub open spec fn mirrors_edge(
    sub_edges: Seq<(usize, usize, EdgeWeight)>,
    k: int,
    model_edges: Seq<(usize, usize, EdgeWeight)>,
    e: int,
    node_map: Seq<Option<usize>>,
) -> bool {
    &&& 0 <= k < sub_edges.len()
    &&& 0 <= e < model_edges.len()
    &&& model_edges[e].0 < node_map.len()
    &&& model_edges[e].1 < node_map.len()
    &&& node_map[model_edges[e].0 as int] matches Some(a) && sub_edges[k].0 == a
    &&& node_map[model_edges[e].1 as int] matches Some(b) && sub_edges[k].1 == b
    &&& sub_edges[k].2 == model_edges[e].2
}

/// Subgraph edge `k` copies some listed model edge.
pub open spec fn sub_edge_covered(
    sub_edges: Seq<(usize, usize, EdgeWeight)>,
    k: int,
    listed: Seq<usize>,
    model_edges: Seq<(usize, usize, EdgeWeight)>,
    node_map: Seq<Option<usize>>,
) -> bool {
    exists|e: int|
        listed.contains(e as usize) && #[trigger] mirrors_edge(
            sub_edges,
            k,
            model_edges,
            e,
            node_map,
        )
}

/// The number of distinct edge ids in the list: its first occurrences.
pub open spec fn distinct_count(listed: Seq<usize>) -> int
    decreases listed.len(),
{
    if listed.len() == 0 {
        0
    } else {
        distinct_count(listed.drop_last()) + if listed.drop_last().contains(listed.last()) {
            0int
        } else {
            1int
        }
    }
}

/// Some original node maps to view position `ni`.
pub open spec fn node_mapped(node_map: Seq<Option<usize>>, ni: int) -> bool {
    exists|i: int| 0 <= i < node_map.len() && (#[trigger] node_map[i]) == Some(ni as usize)
}

/// The listed model edge `eid` has a copy in the subgraph.
pub open spec fn listed_edge_present(
    sub_edges: Seq<(usize, usize, EdgeWeight)>,
    eid: int,
    model_edges: Seq<(usize, usize, EdgeWeight)>,
    node_map: Seq<Option<usize>>,
) -> bool {
    exists|k: int| #[trigger] mirrors_edge(sub_edges, k, model_edges, eid, node_map)
}

/// Whether the edge id at position `q` already occurs earlier in the list.
fn contains_edge_prefix(edges: &Vec<usize>, q: usize) -> (r: bool)
    requires
        q < edges@.len(),
    ensures
        r == exists|qq: int| 0 <= qq < q && (#[trigger] edges@[qq]) == edges@[q as int],
{
    for qq in 0..q
        invariant
            q < edges@.len(),
            forall|j: int| 0 <= j < qq ==> (#[trigger] edges@[j]) != edges@[q as int],
    {
        if edges[qq] == edges[q] {
            return true;
        }
    }
    false
}

impl Model {
    /// Builds the filtered view: exactly one copy of each distinct listed
    /// edge (repeated ids count once), with its weight, between copies of
    /// its endpoint nodes; exactly the incident nodes are copied, each
    /// once, with their weights. The returned map gives each original
    /// node's position in the view; it maps exactly the nodes incident to
    /// a listed edge, and no two nodes to the same position.
    pub fn build_subgraph_with_edges(&self, edges: &Vec<usize>) -> (r: (
        DiGraph<NodeWeight, EdgeWeight>,
        Vec<Option<usize>>,
    ))
        requires
            self.wf(),
            forall|q: int| 0 <= q < edges@.len() ==> (#[trigger] edges@[q]) < self.edges().len(),
            2 * edges@.len() <= max_index(),
        ensures
            r.1@.len() == self.nodes().len(),
            forall|i: int|
                0 <= i < r.1@.len() ==> ((#[trigger] r.1@[i]) matches Some(ni) ==> ni
                    < graph_nodes(&r.0).len() && graph_nodes(&r.0)[ni as int] == self.nodes()[i]),
            forall|i: int|
                0 <= i < r.1@.len() ==> ((#[trigger] r.1@[i]) is Some ==> exists|q: int|
                    0 <= q < edges@.len() && (self.edges()[(#[trigger] edges@[q]) as int].0 == i
                        || self.edges()[edges@[q] as int].1 == i)),
            forall|i1: int, i2: int|
                0 <= i1 < i2 < r.1@.len() && (#[trigger] r.1@[i1]) is Some && (
                #[trigger] r.1@[i2]) is Some ==> r.1@[i1] != r.1@[i2],
            forall|ni: int|
                0 <= ni < graph_nodes(&r.0).len() ==> #[trigger] node_mapped(r.1@, ni),
            graph_edges(&r.0).len() == distinct_count(edges@),
            forall|k: int|
                0 <= k < graph_edges(&r.0).len() ==> sub_edge_covered(
                    graph_edges(&r.0),
                    k,
                    edges@,
                    self.edges(),
                    r.1@,
                ),
            forall|q: int|
                0 <= q < edges@.len() ==> listed_edge_present(
                    graph_edges(&r.0),
                    (#[trigger] edges@[q]) as int,
                    self.edges(),
                    r.1@,
                ),
    {
        let n_nodes = self.node_count();
        let mut sub = graph_new();
        let mut node_map: Vec<Option<usize>> = Vec::new();
        for i in 0..n_nodes
            invariant
                node_map@.len() == i,
                forall|ii: int| 0 <= ii < i ==> (#[trigger] node_map@[ii]) is None,
        {
            node_map.push(None);
        }
        let nq = edges.len();
        proof {
            assert(edges@.subrange(0, 0) =~= Seq::<usize>::empty());
        }
        for q in 0..nq
            invariant
                self.wf(),
                nq == edges@.len(),
                forall|qq: int|
                    0 <= qq < edges@.len() ==> (#[trigger] edges@[qq]) < self.edges().len(),
                node_map@.len() == self.nodes().len(),
                graph_nodes(&sub).len() <= 2 * q,
                graph_edges(&sub).len() == distinct_count(edges@.subrange(0, q as int)),
                graph_edges(&sub).len() <= q,
                2 * nq <= max_index(),
                forall|i: int|
                    0 <= i < node_map@.len() ==> ((#[trigger] node_map@[i]) matches Some(ni) ==> ni
                        < graph_nodes(&sub).len() && graph_nodes(&sub)[ni as int]
                        == self.nodes()[i]),
                forall|i: int|
                    0 <= i < node_map@.len() ==> ((#[trigger] node_map@[i]) is Some ==> exists|
                        qq: int,
                    |
                        0 <= qq < q && (self.edges()[(#[trigger] edges@[qq]) as int].0 == i
                            || self.edges()[edges@[qq] as int].1 == i)),
                forall|i1: int, i2: int|
                    0 <= i1 < i2 < node_map@.len() && (#[trigger] node_map@[i1]) is Some && (
                    #[trigger] node_map@[i2]) is Some ==> node_map@[i1] != node_map@[i2],
                forall|ni: int|
                    0 <= ni < graph_nodes(&sub).len() ==> #[trigger] node_mapped(node_map@, ni),
                forall|k: int|
                    0 <= k < graph_edges(&sub).len() ==> sub_edge_covered(
                        graph_edges(&sub),
                        k,
                        edges@,
                        self.edges(),
                        node_map@,
                    ),
                forall|qq: int|
                    0 <= qq < q ==> listed_edge_present(
                        graph_edges(&sub),
                        (#[trigger] edges@[qq]) as int,
                        self.edges(),
                        node_map@,
                    ),
        {
            let eid = edges[q];
            proof {
                assert(edges@.subrange(0, q + 1).drop_last() =~= edges@.subrange(0, q as int));
                assert(edges@.subrange(0, q + 1).last() == edges@[q as int]);
            }
            let seen = contains_edge_prefix(edges, q);
            if seen {
                proof {
                    let qq = choose|qq: int|
                        0 <= qq < q && (#[trigger] edges@[qq]) == edges@[q as int];
                    assert(listed_edge_present(
                        graph_edges(&sub),
                        edges@[qq] as int,
                        self.edges(),
                        node_map@,
                    ));
                    assert(edges@.subrange(0, q as int).contains(edges@[q as int])) by {
                        assert(edges@.subrange(0, q as int)[qq] == edges@[qq]);
                    }
                }
            } else {
                proof {
                    assert(crate::graph::wf_edge(
                        graph_nodes(&self.graph),
                        graph_edges(&self.graph),
                        eid as int,
                    ));
                }
                let ends = crate::graph::graph_edge_endpoints(&self.graph, eid);
                let w = crate::graph::graph_edge_weight(&self.graph, eid);
                let ghost nm0 = node_map@;
                let ghost sub_nodes0 = graph_nodes(&sub);
                let ghost sub_edges0 = graph_edges(&sub);
                let a = match node_map[ends.0] {
                    Some(ni) => ni,
                    None => {
                        let ni = graph_add_node(&mut sub, self.node_weight_at(ends.0));
                        node_map.set(ends.0, Some(ni));
                        ni
                    },
                };
                let ghost nm1 = node_map@;
                let ghost sub_nodes1 = graph_nodes(&sub);
                let b = match node_map[ends.1] {
                    Some(ni) => ni,
                    None => {
                        let ni = graph_add_node(&mut sub, self.node_weight_at(ends.1));
                        node_map.set(ends.1, Some(ni));
                        ni
                    },
                };
                graph_add_edge(&mut sub, a, b, w.clone_weight());
                proof {
                    assert(!edges@.subrange(0, q as int).contains(edges@[q as int])) by {
                        if edges@.subrange(0, q as int).contains(edges@[q as int]) {
                            let qq = choose|qq: int|
                                0 <= qq < q && #[trigger] edges@.subrange(0, q as int)[qq]
                                    == edges@[q as int];
                            assert(edges@[qq] == edges@[q as int]);
                        }
                    }
                    let se = graph_edges(&sub);
                    let nk = se.len() - 1;
                    assert(mirrors_edge(se, nk, self.edges(), eid as int, node_map@));
                    assert(edges@.contains(eid)) by {
                        assert(edges@[q as int] == eid);
                    }
                    assert forall|k: int|
                        0 <= k < se.len() implies sub_edge_covered(
                        se,
                        k,
                        edges@,
                        self.edges(),
                        node_map@,
                    ) by {
                        if k < sub_edges0.len() {
                            assert(sub_edge_covered(sub_edges0, k, edges@, self.edges(), nm0));
                            let e = choose|e: int|
                                edges@.contains(e as usize) && #[trigger] mirrors_edge(
                                    sub_edges0,
                                    k,
                                    self.edges(),
                                    e,
                                    nm0,
                                );
                            assert(mirrors_edge(se, k, self.edges(), e, node_map@));
                        } else {
                            assert(mirrors_edge(se, k, self.edges(), eid as int, node_map@));
                        }
                    }
                    assert forall|qq: int|
                        0 <= qq < q + 1 implies listed_edge_present(
                        graph_edges(&sub),
                        (edges@[qq]) as int,
                        self.edges(),
                        node_map@,
                    ) by {
                        if qq < q {
                            assert(listed_edge_present(
                                sub_edges0,
                                edges@[qq] as int,
                                self.edges(),
                                nm0,
                            ));
                            let k = choose|k: int|
                                #[trigger] mirrors_edge(
                                    sub_edges0,
                                    k,
                                    self.edges(),
                                    edges@[qq] as int,
                                    nm0,
                                );
                            assert(mirrors_edge(
                                graph_edges(&sub),
                                k,
                                self.edges(),
                                edges@[qq] as int,
                                node_map@,
                            ));
                        } else {
                            assert(mirrors_edge(
                                graph_edges(&sub),
                                nk,
                                self.edges(),
                                eid as int,
                                node_map@,
                            ));
                        }
                    }
                    assert forall|ni: int|
                        0 <= ni < graph_nodes(&sub).len() implies #[trigger] node_mapped(
                        node_map@,
                        ni,
                    ) by {
                        if ni < sub_nodes0.len() {
                            assert(node_mapped(nm0, ni));
                            let i = choose|i: int|
                                0 <= i < nm0.len() && (#[trigger] nm0[i]) == Some(ni as usize);
                            assert(node_map@[i] == Some(ni as usize));
                        } else if ni < sub_nodes1.len() {
                            assert(node_map@[ends.0 as int] == Some(ni as usize));
                        } else {
                            assert(node_map@[ends.1 as int] == Some(ni as usize));
                        }
                    }
                }
            }
        }
        proof {
            assert(edges@.subrange(0, nq as int) =~= edges@);
        }
        (sub, node_map)
    }

    /// The number of nodes in the model's graph.
    pub fn node_count(&self) -> (n: usize)
        ensures
            n == self.nodes().len(),
    {
        crate::graph::graph_node_count(&self.graph)
    }

    /// A copy of a node's weight.
    fn node_weight_at(&self, i: usize) -> (w: NodeWeight)
        requires
            i < self.nodes().len(),
        ensures
            w == self.nodes()[i as int],
    {
        let r = crate::graph::graph_node_weight(&self.graph, i);
        r.clone_weight()
    }
}

} // verus!
