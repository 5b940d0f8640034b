//! Paths through the time-expanded graph, and the iterative-deepening
//! depth-first enumerator over a cost budget.

use vstd::prelude::*;

use crate::graph::graph_edge_weight;
use crate::graph::graph_edges;
use crate::graph::graph_nodes;
use crate::graph::graph_out_edges;
use crate::graph::lemma_wf_edge_advances;
use crate::graph::wf_edge;
use crate::graph::wf_graph;
use crate::weights::EdgeWeight;
use crate::weights::NodeWeight;
use petgraph::graph::DiGraph;

verus! {

/// A path from a source node to a sink node, as the ordered edge indices
/// it traverses, together with its total duration, its total edge cost,
/// and the cost budget it left unused when it was emitted.
#[derive(Debug, Clone)]
pub struct Path {
    pub edges: Vec<usize>,
    pub duration: u64,
    pub cost: u64,
    pub remaining_budget: u64,
}

/// The sum of the durations of the edges a path traverses.
pub open spec fn path_duration(edges: Seq<(usize, usize, EdgeWeight)>, p: Seq<usize>) -> int
    decreases p.len(),
{
    if p.len() == 0 {
        0
    } else {
        edges[p[0] as int].2.spec_duration() + path_duration(edges, p.drop_first())
    }
}

/// The sum of the costs of the edges a path traverses.
pub open spec fn path_cost(edges: Seq<(usize, usize, EdgeWeight)>, p: Seq<usize>) -> int
    decreases p.len(),
{
    if p.len() == 0 {
        0
    } else {
        edges[p[0] as int].2.spec_cost() + path_cost(edges, p.drop_first())
    }
}

/// An edge may be taken: it is short enough for the remaining duration,
/// cheap enough for the remaining budget, and has enough seats left for
/// the party.
pub open spec fn edge_fits(w: EdgeWeight, min_capacity: u64, rem_dur: u64, rem_budget: u64) -> bool {
    &&& w.spec_duration() <= rem_dur
    &&& w.spec_cost() <= rem_budget
    &&& w.spec_remaining_capacity() >= min_capacity
}

/// The edge sequence `p` is a path the search may emit from `node`: it
/// ends exactly when it reaches the sink, every edge leaves the node the
/// previous one entered, and every step fits the remaining duration,
/// budget and capacity.
pub open spec fn path_feasible_from(
    edges: Seq<(usize, usize, EdgeWeight)>,
    node: int,
    sink: int,
    min_capacity: u64,
    rem_dur: u64,
    rem_budget: u64,
    p: Seq<usize>,
) -> bool
    decreases p.len(),
{
    if node == sink {
        p.len() == 0
    } else if p.len() == 0 {
        false
    } else {
        let e = p[0] as int;
        &&& 0 <= e < edges.len()
        &&& edges[e].0 == node
        &&& edge_fits(edges[e].2, min_capacity, rem_dur, rem_budget)
        &&& path_feasible_from(
            edges,
            edges[e].1 as int,
            sink,
            min_capacity,
            (rem_dur - edges[e].2.spec_duration()) as u64,
            (rem_budget - edges[e].2.spec_cost()) as u64,
            p.drop_first(),
        )
    }
}

/// The edge sequence `p` is a feasible path from `source` to `sink` for a
/// party of `min_capacity` within `max_duration` and the cost `budget`.
pub open spec fn path_feasible(
    edges: Seq<(usize, usize, EdgeWeight)>,
    source: int,
    sink: int,
    min_capacity: u64,
    max_duration: u64,
    budget: u64,
    p: Seq<usize>,
) -> bool {
    path_feasible_from(edges, source, sink, min_capacity, max_duration, budget, p)
}

/// A record the enumerator emits: its edge sequence is feasible within
/// `budget`, and its scalars are the true totals of that sequence.
pub open spec fn path_sound(
    edges: Seq<(usize, usize, EdgeWeight)>,
    source: int,
    sink: int,
    min_capacity: u64,
    max_duration: u64,
    budget: u64,
    p: Path,
) -> bool {
    &&& path_feasible(edges, source, sink, min_capacity, max_duration, budget, p.edges@)
    &&& p.duration == path_duration(edges, p.edges@)
    &&& p.cost == path_cost(edges, p.edges@)
    &&& p.duration <= max_duration
    &&& p.cost <= budget
    &&& p.remaining_budget == budget - p.cost
}

/// Every record of a result list is sound for one and the same budget.
pub open spec fn all_sound_at(
    edges: Seq<(usize, usize, EdgeWeight)>,
    source: int,
    sink: int,
    min_capacity: u64,
    max_duration: u64,
    budget: u64,
    r: Seq<Path>,
) -> bool {
    forall|i: int|
        0 <= i < r.len() ==> path_sound(
            edges,
            source,
            sink,
            min_capacity,
            max_duration,
            budget,
            #[trigger] r[i],
        )
}

/// Every feasible path is among the records: the result holds an entry
/// whose edge list is that path.
pub open spec fn all_found_at(
    edges: Seq<(usize, usize, EdgeWeight)>,
    source: int,
    sink: int,
    min_capacity: u64,
    max_duration: u64,
    budget: u64,
    r: Seq<Path>,
) -> bool {
    forall|p: Seq<usize>|
        #[trigger] path_feasible(edges, source, sink, min_capacity, max_duration, budget, p)
            ==> exists|i: int| 0 <= i < r.len() && (#[trigger] r[i]).edges@ == p
}

/// No path at all is feasible within the budget.
pub open spec fn none_feasible_at(
    edges: Seq<(usize, usize, EdgeWeight)>,
    source: int,
    sink: int,
    min_capacity: u64,
    max_duration: u64,
    budget: u64,
) -> bool {
    forall|p: Seq<usize>|
        !(#[trigger] path_feasible(edges, source, sink, min_capacity, max_duration, budget, p))
}

/// Budget monotonicity: a path that is feasible within a budget stays
/// feasible within any larger budget.
pub proof fn lemma_budget_monotonic(
    edges: Seq<(usize, usize, EdgeWeight)>,
    node: int,
    sink: int,
    min_capacity: u64,
    rem_dur: u64,
    b1: u64,
    b2: u64,
    p: Seq<usize>,
)
    requires
        b1 <= b2,
        path_feasible_from(edges, node, sink, min_capacity, rem_dur, b1, p),
    ensures
        path_feasible_from(edges, node, sink, min_capacity, rem_dur, b2, p),
    decreases p.len(),
{
    if node == sink || p.len() == 0 {
    } else {
        let e = p[0] as int;
        lemma_budget_monotonic(
            edges,
            edges[e].1 as int,
            sink,
            min_capacity,
            (rem_dur - edges[e].2.spec_duration()) as u64,
            (b1 - edges[e].2.spec_cost()) as u64,
            (b2 - edges[e].2.spec_cost()) as u64,
            p.drop_first(),
        );
    }
}

/// Budget monotonicity of the found sets: any result that is complete for
/// a budget holds every path that a smaller budget admits.
pub proof fn lemma_found_set_monotonic(
    edges: Seq<(usize, usize, EdgeWeight)>,
    source: int,
    sink: int,
    min_capacity: u64,
    max_duration: u64,
    b1: u64,
    b2: u64,
    p: Seq<usize>,
    r2: Seq<Path>,
)
    requires
        b1 <= b2,
        path_feasible(edges, source, sink, min_capacity, max_duration, b1, p),
        all_found_at(edges, source, sink, min_capacity, max_duration, b2, r2),
    ensures
        exists|i: int| 0 <= i < r2.len() && (#[trigger] r2[i]).edges@ == p,
{
    lemma_budget_monotonic(edges, source, sink, min_capacity, max_duration, b1, b2, p);
    assert(path_feasible(edges, source, sink, min_capacity, max_duration, b2, p));
}

/// Appending an edge adds its duration to the total.
proof fn lemma_path_duration_push(edges: Seq<(usize, usize, EdgeWeight)>, p: Seq<usize>, e: usize)
    ensures
        path_duration(edges, p.push(e)) == path_duration(edges, p) + edges[e as int].2.spec_duration(),
    decreases p.len(),
{
    if p.len() == 0 {
        assert(p.push(e).drop_first() =~= p);
    } else {
        assert(p.push(e).drop_first() =~= p.drop_first().push(e));
        lemma_path_duration_push(edges, p.drop_first(), e);
    }
}

/// Appending an edge adds its cost to the total.
proof fn lemma_path_cost_push(edges: Seq<(usize, usize, EdgeWeight)>, p: Seq<usize>, e: usize)
    ensures
        path_cost(edges, p.push(e)) == path_cost(edges, p) + edges[e as int].2.spec_cost(),
    decreases p.len(),
{
    if p.len() == 0 {
        assert(p.push(e).drop_first() =~= p);
    } else {
        assert(p.push(e).drop_first() =~= p.drop_first().push(e));
        lemma_path_cost_push(edges, p.drop_first(), e);
    }
}

/// Copies an edge-index list.
fn clone_edge_list(v: &Vec<usize>) -> (r: Vec<usize>)
    ensures
        r@ == v@,
{
    let mut r: Vec<usize> = Vec::new();
    let n = v.len();
    for i in 0..n
        invariant
            n == v@.len(),
            r@ == v@.subrange(0, i as int),
    {
        r.push(v[i]);
        proof {
            assert(r@ =~= v@.subrange(0, i + 1));
        }
    }
    proof {
        assert(r@ =~= v@);
    }
    r
}

/// Whether a search step from a node still outranks one from a sink, for
/// termination: a step that spends no budget can only enter a sink, which
/// has no outgoing edges.
pub open spec fn node_rank(nodes: Seq<NodeWeight>, node: int) -> int {
    if nodes[node] is MainArrival {
        0
    } else {
        1
    }
}

impl Path {
    /// The number of edges on the path.
    pub fn len(&self) -> (n: usize)
        ensures
            n == self.edges@.len(),
    {
        self.edges.len()
    }

    /// The total duration of the path in minutes.
    pub fn get_duration(&self) -> (d: u64)
        ensures
            d == self.duration,
    {
        self.duration
    }

    /// Enumerates candidate paths by iterative deepening over the cost
    /// budgets, smallest first: each step runs a full depth-first search,
    /// and the first step that yields any path ends the search. The result
    /// is empty exactly when no budget step admits a feasible path;
    /// otherwise it holds, for the first step that admits one, every
    /// feasible path and nothing else, each with its true totals.
    pub fn all_paths_iddfs(
        g: &DiGraph<NodeWeight, EdgeWeight>,
        source: usize,
        sink: usize,
        min_capacity: u64,
        max_duration: u64,
        budget_steps: &Vec<u64>,
    ) -> (r: Vec<Path>)
        requires
            wf_graph(graph_nodes(g), graph_edges(g)),
            source < graph_nodes(g).len(),
            sink < graph_nodes(g).len(),
        ensures
            r@.len() == 0 ==> forall|k: int|
                0 <= k < budget_steps@.len() ==> none_feasible_at(
                    graph_edges(g),
                    source as int,
                    sink as int,
                    min_capacity,
                    max_duration,
                    #[trigger] budget_steps@[k],
                ),
            r@.len() > 0 ==> exists|k: int|
                {
                    &&& 0 <= k < budget_steps@.len()
                    &&& #[trigger] all_sound_at(
                        graph_edges(g),
                        source as int,
                        sink as int,
                        min_capacity,
                        max_duration,
                        budget_steps@[k],
                        r@,
                    )
                    &&& all_found_at(
                        graph_edges(g),
                        source as int,
                        sink as int,
                        min_capacity,
                        max_duration,
                        budget_steps@[k],
                        r@,
                    )
                    &&& forall|kk: int|
                        0 <= kk < k ==> none_feasible_at(
                            graph_edges(g),
                            source as int,
                            sink as int,
                            min_capacity,
                            max_duration,
                            #[trigger] budget_steps@[kk],
                        )
                },
    {
        let ns = budget_steps.len();
        for k in 0..ns
            invariant
                ns == budget_steps@.len(),
                wf_graph(graph_nodes(g), graph_edges(g)),
                source < graph_nodes(g).len(),
                sink < graph_nodes(g).len(),
                forall|kk: int|
                    0 <= kk < k ==> none_feasible_at(
                        graph_edges(g),
                        source as int,
                        sink as int,
                        min_capacity,
                        max_duration,
                        #[trigger] budget_steps@[kk],
                    ),
        {
            let b = budget_steps[k];
            let mut prefix: Vec<usize> = Vec::new();
            let mut results: Vec<Path> = Vec::new();
            dfs(
                g,
                source,
                sink,
                min_capacity,
                max_duration,
                b,
                0,
                0,
                max_duration,
                b,
                &mut prefix,
                &mut results,
            );
            if results.len() > 0 {
                proof {
                    assert forall|i: int|
                        0 <= i < results@.len() implies path_sound(
                        graph_edges(g),
                        source as int,
                        sink as int,
                        min_capacity,
                        max_duration,
                        b,
                        #[trigger] results@[i],
                    ) by {
                        assert(results@[i].edges@.subrange(0, 0) =~= Seq::<usize>::empty());
                        assert(results@[i].edges@.skip(0) =~= results@[i].edges@);
                    }
                    assert(all_sound_at(
                        graph_edges(g),
                        source as int,
                        sink as int,
                        min_capacity,
                        max_duration,
                        budget_steps@[k as int],
                        results@,
                    ));
                    assert forall|p: Seq<usize>|
                        #[trigger] path_feasible(
                            graph_edges(g),
                            source as int,
                            sink as int,
                            min_capacity,
                            max_duration,
                            budget_steps@[k as int],
                            p,
                        ) implies exists|i: int|
                        0 <= i < results@.len() && (#[trigger] results@[i]).edges@ == p by {
                        let i = choose|i: int|
                            0 <= i < results@.len() && (#[trigger] results@[i]).edges@
                                == Seq::<usize>::empty() + p;
                        assert(Seq::<usize>::empty() + p =~= p);
                        assert(results@[i].edges@ == p);
                    }
                    assert(all_found_at(
                        graph_edges(g),
                        source as int,
                        sink as int,
                        min_capacity,
                        max_duration,
                        budget_steps@[k as int],
                        results@,
                    ));
                }
                return results;
            } else {
                proof {
                    assert forall|p: Seq<usize>|
                        !(#[trigger] path_feasible(
                            graph_edges(g),
                            source as int,
                            sink as int,
                            min_capacity,
                            max_duration,
                            budget_steps@[k as int],
                            p,
                        )) by {
                        if path_feasible(
                            graph_edges(g),
                            source as int,
                            sink as int,
                            min_capacity,
                            max_duration,
                            budget_steps@[k as int],
                            p,
                        ) {
                            assert(results@.len() > 0);
                        }
                    }
                    assert(none_feasible_at(
                        graph_edges(g),
                        source as int,
                        sink as int,
                        min_capacity,
                        max_duration,
                        budget_steps@[k as int],
                    ));
                }
            }
        }
        Vec::new()
    }
}

/// One depth-first step of the enumerator: explores every outgoing edge of
/// `node` that fits the remaining duration, budget and capacity, and
/// records the walked edge list whenever the sink is reached. Each record
/// appended to `results` extends the entry prefix with a feasible
/// continuation from `node`, and carries the true totals of its edges.
#[verifier::rlimit(100)]
#[verifier::spinoff_prover]
fn dfs(
    g: &DiGraph<NodeWeight, EdgeWeight>,
    node: usize,
    sink: usize,
    min_capacity: u64,
    rem_dur: u64,
    rem_budget: u64,
    dur_so_far: u64,
    cost_so_far: u64,
    max_duration: u64,
    budget: u64,
    prefix: &mut Vec<usize>,
    results: &mut Vec<Path>,
)
    requires
        wf_graph(graph_nodes(g), graph_edges(g)),
        node < graph_nodes(g).len(),
        dur_so_far + rem_dur == max_duration,
        cost_so_far + rem_budget == budget,
        dur_so_far == path_duration(graph_edges(g), old(prefix)@),
        cost_so_far == path_cost(graph_edges(g), old(prefix)@),
    ensures
        final(prefix)@ == old(prefix)@,
        final(results)@.len() >= old(results)@.len(),
        forall|i: int| 0 <= i < old(results)@.len() ==> final(results)@[i] == old(results)@[i],
        forall|i: int|
            old(results)@.len() <= i < final(results)@.len() ==> {
                let p = #[trigger] final(results)@[i];
                &&& p.edges@.len() >= old(prefix)@.len()
                &&& p.edges@.subrange(0, old(prefix)@.len() as int) == old(prefix)@
                &&& path_feasible_from(
                    graph_edges(g),
                    node as int,
                    sink as int,
                    min_capacity,
                    rem_dur,
                    rem_budget,
                    p.edges@.skip(old(prefix)@.len() as int),
                )
                &&& p.duration == path_duration(graph_edges(g), p.edges@)
                &&& p.cost == path_cost(graph_edges(g), p.edges@)
                &&& p.duration <= max_duration
                &&& p.cost <= budget
                &&& p.remaining_budget == budget - p.cost
            },
        forall|p: Seq<usize>|
            #[trigger] path_feasible_from(
                graph_edges(g),
                node as int,
                sink as int,
                min_capacity,
                rem_dur,
                rem_budget,
                p,
            ) ==> exists|i: int|
                old(results)@.len() <= i < final(results)@.len()
                    && (#[trigger] final(results)@[i]).edges@ == old(prefix)@ + p,
    decreases rem_budget, node_rank(graph_nodes(g), node as int),
{
    if node == sink {
        let recorded = Path {
            edges: clone_edge_list(prefix),
            duration: dur_so_far,
            cost: cost_so_far,
            remaining_budget: rem_budget,
        };
        results.push(recorded);
        proof {
            assert(prefix@.skip(old(prefix)@.len() as int) =~= Seq::<usize>::empty());
            assert(prefix@.subrange(0, old(prefix)@.len() as int) =~= old(prefix)@);
            assert forall|p: Seq<usize>|
                #[trigger] path_feasible_from(
                    graph_edges(g),
                    node as int,
                    sink as int,
                    min_capacity,
                    rem_dur,
                    rem_budget,
                    p,
                ) implies exists|i: int|
                old(results)@.len() <= i < results@.len() && (#[trigger] results@[i]).edges@ == old(
                    prefix,
                )@ + p by {
                assert(p.len() == 0);
                assert(p =~= Seq::<usize>::empty());
                assert(old(prefix)@ + p =~= old(prefix)@);
                assert(results@[old(results)@.len() as int].edges@ == old(prefix)@ + p);
            }
        }
    } else {
        let outs = graph_out_edges(g, node);
        let n_outs = outs.len();
        let ghost prefix0 = prefix@;
        let ghost results0 = results@;
        let mut idx: usize = 0;
        while idx < n_outs
            invariant
                idx <= n_outs,
                wf_graph(graph_nodes(g), graph_edges(g)),
                node < graph_nodes(g).len(),
                node != sink,
                n_outs == outs@.len(),
                dur_so_far + rem_dur == max_duration,
                cost_so_far + rem_budget == budget,
                dur_so_far == path_duration(graph_edges(g), prefix0),
                cost_so_far == path_cost(graph_edges(g), prefix0),
                prefix@ == prefix0,
                forall|kk: int|
                    0 <= kk < outs@.len() ==> {
                        &&& (#[trigger] outs@[kk]).0 < graph_edges(g).len()
                        &&& graph_edges(g)[outs@[kk].0 as int].0 == node
                        &&& outs@[kk].1 == graph_edges(g)[outs@[kk].0 as int].1
                    },
                results@.len() >= results0.len(),
                forall|i: int| 0 <= i < results0.len() ==> results@[i] == results0[i],
                forall|i: int|
                    results0.len() <= i < results@.len() ==> {
                        let p = #[trigger] results@[i];
                        &&& p.edges@.len() >= prefix0.len()
                        &&& p.edges@.subrange(0, prefix0.len() as int) == prefix0
                        &&& path_feasible_from(
                            graph_edges(g),
                            node as int,
                            sink as int,
                            min_capacity,
                            rem_dur,
                            rem_budget,
                            p.edges@.skip(prefix0.len() as int),
                        )
                        &&& p.duration == path_duration(graph_edges(g), p.edges@)
                        &&& p.cost == path_cost(graph_edges(g), p.edges@)
                        &&& p.duration <= max_duration
                        &&& p.cost <= budget
                        &&& p.remaining_budget == budget - p.cost
                    },
                forall|ii: int, p: Seq<usize>|
                    0 <= ii < idx && (#[trigger] outs@[ii]).0 == p[0]
                        && #[trigger] path_feasible_from(
                        graph_edges(g),
                        node as int,
                        sink as int,
                        min_capacity,
                        rem_dur,
                        rem_budget,
                        p,
                    ) ==> exists|i: int|
                        results0.len() <= i < results@.len() && (#[trigger] results@[i]).edges@
                            == prefix0 + p,
            decreases n_outs - idx,
        {
            let eid = outs[idx].0;
            let target = outs[idx].1;
            let w = graph_edge_weight(g, eid);
            proof {
                assert(wf_edge(graph_nodes(g), graph_edges(g), eid as int));
            }
            let dur = w.get_duration();
            let cost = w.cost();
            let rcap = w.get_remaining_capacity();
            if dur <= rem_dur && cost <= rem_budget && rcap >= min_capacity {
                prefix.push(eid);
                proof {
                    lemma_path_duration_push(graph_edges(g), prefix0, eid);
                    lemma_path_cost_push(graph_edges(g), prefix0, eid);
                    if cost == 0 {
                        lemma_wf_edge_advances(graph_nodes(g), graph_edges(g), eid as int);
                    }
                }
                let ghost res_before = results@;
                dfs(
                    g,
                    target,
                    sink,
                    min_capacity,
                    rem_dur - dur,
                    rem_budget - cost,
                    dur_so_far + dur,
                    cost_so_far + cost,
                    max_duration,
                    budget,
                    prefix,
                    results,
                );
                let _dropped = prefix.pop();
                proof {
                    assert(prefix@ =~= prefix0);
                    let pushed = prefix0.push(eid);
                    assert forall|i: int|
                        res_before.len() <= i < results@.len() implies {
                        let p = #[trigger] results@[i];
                        &&& p.edges@.len() >= prefix0.len()
                        &&& p.edges@.subrange(0, prefix0.len() as int) == prefix0
                        &&& path_feasible_from(
                            graph_edges(g),
                            node as int,
                            sink as int,
                            min_capacity,
                            rem_dur,
                            rem_budget,
                            p.edges@.skip(prefix0.len() as int),
                        )
                    } by {
                        let p = results@[i];
                        assert(p.edges@.subrange(0, pushed.len() as int) == pushed);
                        assert(p.edges@.subrange(0, prefix0.len() as int) =~= prefix0) by {
                            assert forall|q: int| 0 <= q < prefix0.len() implies p.edges@[q]
                                == prefix0[q] by {
                                assert(p.edges@.subrange(0, pushed.len() as int)[q] == pushed[q]);
                            }
                        }
                        let sfx = p.edges@.skip(prefix0.len() as int);
                        assert(sfx[0] == eid) by {
                            assert(p.edges@.subrange(0, pushed.len() as int)[prefix0.len() as int]
                                == pushed[prefix0.len() as int]);
                        }
                        assert(sfx.drop_first() =~= p.edges@.skip(pushed.len() as int));
                        assert(path_feasible_from(
                            graph_edges(g),
                            node as int,
                            sink as int,
                            min_capacity,
                            rem_dur,
                            rem_budget,
                            sfx,
                        ));
                    }
                    // Every feasible path starting with this edge now has
                    // its record: the recursion covered every feasible
                    // continuation beyond it.
                    assert forall|ii: int, p: Seq<usize>|
                        0 <= ii < idx + 1 && (#[trigger] outs@[ii]).0 == p[0]
                            && #[trigger] path_feasible_from(
                            graph_edges(g),
                            node as int,
                            sink as int,
                            min_capacity,
                            rem_dur,
                            rem_budget,
                            p,
                        ) implies exists|i: int|
                        results0.len() <= i < results@.len() && (#[trigger] results@[i]).edges@
                            == prefix0 + p by {
                        if p[0] == eid {
                            assert(p.len() > 0);
                            let q = p.drop_first();
                            assert(path_feasible_from(
                                graph_edges(g),
                                target as int,
                                sink as int,
                                min_capacity,
                                (rem_dur - dur) as u64,
                                (rem_budget - cost) as u64,
                                q,
                            ));
                            let i = choose|i: int|
                                res_before.len() <= i < results@.len() && (
                                #[trigger] results@[i]).edges@ == pushed + q;
                            assert(pushed + q =~= prefix0 + p);
                            assert(results@[i].edges@ == prefix0 + p);
                        }
                    }
                }
            } else {
                proof {
                    // A path through this edge would not fit; no feasible
                    // path starts with it.
                    assert forall|ii: int, p: Seq<usize>|
                        0 <= ii < idx + 1 && (#[trigger] outs@[ii]).0 == p[0]
                            && #[trigger] path_feasible_from(
                            graph_edges(g),
                            node as int,
                            sink as int,
                            min_capacity,
                            rem_dur,
                            rem_budget,
                            p,
                        ) implies exists|i: int|
                        results0.len() <= i < results@.len() && (#[trigger] results@[i]).edges@
                            == prefix0 + p by {
                        if p[0] == eid {
                            assert(p.len() > 0);
                            assert(edge_fits(
                                graph_edges(g)[eid as int].2,
                                min_capacity,
                                rem_dur,
                                rem_budget,
                            ));
                            assert(false);
                        }
                    }
                }
            }
            idx = idx + 1;
        }
        proof {
            // At exit every feasible path's first edge is among the
            // outgoing edges, so every feasible path is recorded.
            assert forall|p: Seq<usize>|
                #[trigger] path_feasible_from(
                    graph_edges(g),
                    node as int,
                    sink as int,
                    min_capacity,
                    rem_dur,
                    rem_budget,
                    p,
                ) implies exists|i: int|
                old(results)@.len() <= i < results@.len() && (#[trigger] results@[i]).edges@ == old(
                    prefix,
                )@ + p by {
                assert(p.len() > 0);
                let e = p[0] as int;
                assert(0 <= e < graph_edges(g).len() && graph_edges(g)[e].0 == node);
                let kk = choose|kk: int| 0 <= kk < outs@.len() && (#[trigger] outs@[kk]).0 == e;
                assert(outs@[kk].0 == p[0]);
            }
        }
    }
}

} // verus!
