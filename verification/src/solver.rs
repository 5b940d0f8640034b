//! The group solver: sorts groups by party size, enumerates candidate
//! paths per group, ranks them, and charges the best candidate's ride
//! edges with the party size.

use vstd::multiset::Multiset;
use vstd::prelude::*;

use crate::graph::graph_edges;
use crate::graph::graph_nodes;
use crate::graph::graph_edge_weight;
use crate::graph::graph_set_edge_weight;
use crate::graph::wf_edge;
use crate::graph::wf_graph;
use crate::model::first_at_or_after;
use crate::model::station_index_of;
use crate::model::trip_index_of;
use crate::model::Model;
use crate::paths::all_found_at;
use crate::paths::all_sound_at;
use crate::paths::none_feasible_at;
use crate::paths::path_feasible_from;
use crate::paths::Path;
use crate::records::Group;
use crate::weights::EdgeWeight;
use crate::weights::NodeWeight;
use petgraph::graph::DiGraph;

verus! {

/// A structural failure of capacity accounting: charging a chosen path
/// would drive a ride edge's utilization over its capacity. Under the
/// enumerator's capacity pruning this can only happen when one path rides
/// the same edge more than once.
#[derive(Debug, Clone, PartialEq, Eq, Structural)]
pub enum SolveError {
    CapacityOverflow,
}

/// How often edge `eid` occurs on the path `p`.
pub open spec fn count_in(p: Seq<usize>, eid: int) -> int
    decreases p.len(),
{
    if p.len() == 0 {
        0
    } else {
        count_in(p.drop_last(), eid) + if p.last() == eid {
            1int
        } else {
            0int
        }
    }
}

/// The passengers the first `n` groups charge onto edge `eid`: each group
/// with a candidate contributes its party size once per occurrence of the
/// edge on its best path.
pub open spec fn charged(groups: Seq<Group>, n: int, eid: int) -> int
    decreases n,
{
    if n <= 0 {
        0
    } else {
        charged(groups, n - 1, eid) + if groups[n - 1].paths@.len() > 0 {
            groups[n - 1].passengers * count_in(groups[n - 1].paths@[0].edges@, eid)
        } else {
            0int
        }
    }
}

/// Occurrence counts are never negative.
proof fn lemma_count_in_nonneg(p: Seq<usize>, eid: int)
    ensures
        count_in(p, eid) >= 0,
    decreases p.len(),
{
    if p.len() > 0 {
        lemma_count_in_nonneg(p.drop_last(), eid);
    }
}

/// An occurrence count over a prefix never exceeds the count over the
/// whole path.
proof fn lemma_count_in_prefix(p: Seq<usize>, k: int, eid: int)
    requires
        0 <= k <= p.len(),
    ensures
        count_in(p.subrange(0, k), eid) <= count_in(p, eid),
    decreases p.len() - k,
{
    if k == p.len() {
        assert(p.subrange(0, k) =~= p);
    } else {
        lemma_count_in_prefix(p, k + 1, eid);
        assert(p.subrange(0, k + 1).drop_last() =~= p.subrange(0, k));
        lemma_count_in_nonneg(p.subrange(0, k), eid);
    }
}

/// A prefix of the groups charges what it charges, whatever comes after.
proof fn lemma_charged_push(groups: Seq<Group>, grp: Group, n: int, eid: int)
    requires
        0 <= n <= groups.len(),
    ensures
        charged(groups.push(grp), n, eid) == charged(groups, n, eid),
    decreases n,
{
    if n > 0 {
        lemma_charged_push(groups, grp, n - 1, eid);
    }
}

/// Every edge of a feasible path names an edge of the graph.
pub proof fn lemma_feasible_edges_in_bounds(
    edges: Seq<(usize, usize, EdgeWeight)>,
    node: int,
    sink: int,
    min_capacity: u64,
    rem_dur: u64,
    rem_budget: u64,
    p: Seq<usize>,
)
    requires
        path_feasible_from(edges, node, sink, min_capacity, rem_dur, rem_budget, p),
    ensures
        forall|k: int| 0 <= k < p.len() ==> (#[trigger] p[k]) < edges.len(),
    decreases p.len(),
{
    if node == sink || p.len() == 0 {
    } else {
        let e = p[0] as int;
        lemma_feasible_edges_in_bounds(
            edges,
            edges[e].1 as int,
            sink,
            min_capacity,
            (rem_dur - edges[e].2.spec_duration()) as u64,
            (rem_budget - edges[e].2.spec_cost()) as u64,
            p.drop_first(),
        );
        assert forall|k: int| 0 <= k < p.len() implies (#[trigger] p[k]) < edges.len() by {
            if k > 0 {
                assert(p.drop_first()[k - 1] == p[k]);
            }
        }
    }
}

/// Counts how often an edge occurs on a path.
fn count_edge(path: &Vec<usize>, eid: usize) -> (c: usize)
    ensures
        c == count_in(path@, eid as int),
{
    let mut c: usize = 0;
    let n = path.len();
    for k in 0..n
        invariant
            n == path@.len(),
            c == count_in(path@.subrange(0, k as int), eid as int),
            c <= k,
    {
        proof {
            assert(path@.subrange(0, k + 1).drop_last() =~= path@.subrange(0, k as int));
            assert(path@.subrange(0, k + 1).last() == path@[k as int]);
        }
        if path[k] == eid {
            c = c + 1;
        }
    }
    proof {
        assert(path@.subrange(0, n as int) =~= path@);
    }
    c
}

/// Whether charging `pax` passengers per occurrence onto every ride edge
/// of the path keeps every utilization within its capacity.
pub open spec fn spec_can_augment(
    edges: Seq<(usize, usize, EdgeWeight)>,
    p: Seq<usize>,
    pax: u64,
) -> bool {
    forall|k: int|
        0 <= k < p.len() ==> {
            let w = edges[(#[trigger] p[k]) as int].2;
            w is Ride ==> w.spec_utilization() + pax * count_in(p, p[k] as int) <= w.spec_capacity()
        }
}

/// Checks that the path can be charged with `pax` passengers without
/// driving any ride edge over its capacity, occurrences counted.
fn can_augment(g: &DiGraph<NodeWeight, EdgeWeight>, path: &Vec<usize>, pax: u64) -> (r: bool)
    requires
        wf_graph(graph_nodes(g), graph_edges(g)),
        forall|k: int| 0 <= k < path@.len() ==> (#[trigger] path@[k]) < graph_edges(g).len(),
    ensures
        r == spec_can_augment(graph_edges(g), path@, pax),
{
    let n = path.len();
    for k in 0..n
        invariant
            wf_graph(graph_nodes(g), graph_edges(g)),
            n == path@.len(),
            forall|kk: int| 0 <= kk < path@.len() ==> (#[trigger] path@[kk]) < graph_edges(g).len(),
            forall|kk: int|
                0 <= kk < k ==> {
                    let w = graph_edges(g)[(#[trigger] path@[kk]) as int].2;
                    w is Ride ==> w.spec_utilization() + pax * count_in(path@, path@[kk] as int)
                        <= w.spec_capacity()
                },
    {
        let eid = path[k];
        let w = graph_edge_weight(g, eid);
        if w.is_ride() {
            let cnt = count_edge(path, eid);
            proof {
                let ui = w.spec_utilization() as int;
                let pi = pax as int;
                let ci = cnt as int;
                assert(ui + pi * ci < 0x100000000000000000000000000000000) by (nonlinear_arith)
                    requires
                        0 <= ui < 0x10000000000000000,
                        0 <= pi < 0x10000000000000000,
                        0 <= ci < 0x10000000000000000,
                ;
            }
            let need: u128 = (w.get_utilization() as u128) + (pax as u128) * (cnt as u128);
            if need > (w.get_capacity() as u128) {
                proof {
                    lemma_count_in_nonneg(path@, eid as int);
                }
                return false;
            }
        }
    }
    true
}

/// Charges `pax` passengers onto every ride edge of the path, once per
/// occurrence. Everything else about the graph is unchanged.
fn augment_path(g: &mut DiGraph<NodeWeight, EdgeWeight>, path: &Vec<usize>, pax: u64)
    requires
        wf_graph(graph_nodes(&*old(g)), graph_edges(&*old(g))),
        forall|k: int|
            0 <= k < path@.len() ==> (#[trigger] path@[k]) < graph_edges(&*old(g)).len(),
        spec_can_augment(graph_edges(&*old(g)), path@, pax),
    ensures
        graph_nodes(&*final(g)) == graph_nodes(&*old(g)),
        graph_edges(&*final(g)).len() == graph_edges(&*old(g)).len(),
        wf_graph(graph_nodes(&*final(g)), graph_edges(&*final(g))),
        forall|e: int|
            0 <= e < graph_edges(&*old(g)).len() ==> {
                let t0 = graph_edges(&*old(g))[e];
                let t1 = #[trigger] graph_edges(&*final(g))[e];
                &&& t1.0 == t0.0
                &&& t1.1 == t0.1
                &&& (t0.2 is Ride ==> t0.2.spec_utilization() + pax * count_in(path@, e)
                    <= t0.2.spec_capacity())
                &&& (t0.2 is Ride ==> t1.2 == (EdgeWeight::Ride {
                    duration: t0.2.spec_duration(),
                    capacity: t0.2.spec_capacity(),
                    utilization: (t0.2.spec_utilization() + pax * count_in(path@, e)) as u64,
                }))
                &&& (t0.2 is Ride ==> t1.2.spec_utilization() == t0.2.spec_utilization() + pax
                    * count_in(path@, e))
                &&& (!(t0.2 is Ride) ==> t1.2 == t0.2)
            },
{
    let ghost edges0 = graph_edges(&*old(g));
    proof {
        assert(path@.subrange(0, 0) =~= Seq::<usize>::empty());
        assert forall|e: int| true implies count_in(path@.subrange(0, 0), e) == 0 by {}
        assert forall|e: int|
            0 <= e < edges0.len() implies edges0[e].2.spec_utilization()
                <= edges0[e].2.spec_capacity() by {
            assert(wf_edge(graph_nodes(g), edges0, e));
        }
    }
    let n = path.len();
    let mut k: usize = 0;
    while k < n
        invariant
            k <= n,
            n == path@.len(),
            graph_nodes(g) == graph_nodes(&*old(g)),
            graph_edges(g).len() == edges0.len(),
            edges0 == graph_edges(&*old(g)),
            forall|kk: int| 0 <= kk < path@.len() ==> (#[trigger] path@[kk]) < edges0.len(),
            spec_can_augment(edges0, path@, pax),
            wf_graph(graph_nodes(g), graph_edges(g)),
            forall|e: int|
                0 <= e < edges0.len() ==> {
                    let t0 = edges0[e];
                    let t1 = #[trigger] graph_edges(g)[e];
                    &&& t1.0 == t0.0
                    &&& t1.1 == t0.1
                    &&& (t0.2 is Ride ==> t0.2.spec_utilization() + pax * count_in(
                        path@.subrange(0, k as int),
                        e,
                    ) <= t0.2.spec_capacity())
                    &&& (t0.2 is Ride ==> t1.2 == (EdgeWeight::Ride {
                        duration: t0.2.spec_duration(),
                        capacity: t0.2.spec_capacity(),
                        utilization: (t0.2.spec_utilization() + pax * count_in(
                            path@.subrange(0, k as int),
                            e,
                        )) as u64,
                    }))
                    &&& (!(t0.2 is Ride) ==> t1.2 == t0.2)
                },
        decreases n - k,
    {
        let eid = path[k];
        proof {
            assert(path@.subrange(0, k + 1).drop_last() =~= path@.subrange(0, k as int));
            assert(path@.subrange(0, k + 1).last() == path@[k as int]);
            assert forall|e: int|
                0 <= e < edges0.len() && e != eid as int implies count_in(
                path@.subrange(0, k + 1),
                e,
            ) == count_in(path@.subrange(0, k as int), e) by {}
        }
        let w = graph_edge_weight(&*g, eid);
        match *w {
            EdgeWeight::Ride { duration, capacity, utilization } => {
                proof {
                    let e = eid as int;
                    assert(spec_can_augment(edges0, path@, pax));
                    assert(edges0[e].2 is Ride);
                    assert(edges0[e].2.spec_utilization() + pax * count_in(path@, e)
                        <= edges0[e].2.spec_capacity());
                    lemma_count_in_prefix(path@, k + 1, e);
                    lemma_count_in_nonneg(path@.subrange(0, k as int), e);
                    let c1 = count_in(path@.subrange(0, k as int), e);
                    let c2 = count_in(path@, e);
                    assert(pax * (c1 + 1) <= pax * c2 && pax * (c1 + 1) == pax * c1 + pax) by (nonlinear_arith)
                        requires
                            c1 + 1 <= c2,
                            0 <= pax,
                    ;
                }
                let ghost edges_b = graph_edges(g);
                proof {
                    assert(wf_edge(graph_nodes(g), edges_b, eid as int));
                    assert(utilization == edges0[eid as int].2.spec_utilization() + pax * count_in(
                        path@.subrange(0, k as int),
                        eid as int,
                    ));
                }
                let nw = EdgeWeight::Ride { duration, capacity, utilization: utilization + pax };
                graph_set_edge_weight(g, eid, nw);
                proof {
                    assert forall|e: int| 0 <= e < graph_edges(g).len() implies wf_edge(
                        graph_nodes(g),
                        graph_edges(g),
                        e,
                    ) by {
                        if e != eid as int {
                            assert(wf_edge(graph_nodes(g), edges_b, e));
                            assert(graph_edges(g)[e] == edges_b[e]);
                        } else {
                            assert(wf_edge(graph_nodes(g), edges_b, e));
                            assert(graph_edges(g)[e].0 == edges_b[e].0);
                            assert(graph_edges(g)[e].1 == edges_b[e].1);
                        }
                    }
                }
            },
            _ => {
                proof {
                    assert(!(edges0[eid as int].2 is Ride));
                }
            },
        }
        k = k + 1;
    }
    proof {
        assert(path@.subrange(0, n as int) =~= path@);
        assert forall|e: int|
            0 <= e < edges0.len() implies {
            let t0 = #[trigger] edges0[e];
            let t1 = graph_edges(g)[e];
            &&& (t0.2 is Ride ==> t0.2.spec_utilization() + pax * count_in(path@, e)
                <= t0.2.spec_capacity())
            &&& (t0.2 is Ride ==> t1.2 == (EdgeWeight::Ride {
                duration: t0.2.spec_duration(),
                capacity: t0.2.spec_capacity(),
                utilization: (t0.2.spec_utilization() + pax * count_in(path@, e)) as u64,
            }))
            &&& (t0.2 is Ride ==> t1.2.spec_utilization() == t0.2.spec_utilization() + pax
                * count_in(path@, e))
        } by {
            assert(graph_edges(g)[e] == graph_edges(g)[e]);
            assert(count_in(path@.subrange(0, n as int), e) == count_in(path@, e));
            lemma_count_in_nonneg(path@, e);
            vstd::arithmetic::mul::lemma_mul_nonnegative(pax as int, count_in(path@, e));
        }
    }
}

/// Some position of the tag list carries the value `v`.
pub open spec fn tag_hit(tags: Seq<int>, v: int) -> bool {
    exists|i: int| 0 <= i < tags.len() && #[trigger] tags[i] == v
}

/// Some tagged pair carries the tag `v`.
pub open spec fn tag_hit_pairs(s: Seq<(usize, Group)>, v: int) -> bool {
    exists|k: int| 0 <= k < s.len() && (#[trigger] s[k]).0 == v
}

/// The strict processing order on tagged groups: larger parties first,
/// ties broken by the smaller input position.
pub open spec fn tagged_before(a: (usize, Group), b: (usize, Group)) -> bool {
    a.1.passengers > b.1.passengers || (a.1.passengers == b.1.passengers && a.0 < b.0)
}

/// Sorts groups by party size, largest first and stably: groups of equal
/// size keep their input order. The returned tags give each output
/// position's input position, so the order is a function of the input.
fn sort_groups_by_size(input: Vec<Group>) -> (r: (Vec<Group>, Ghost<Seq<int>>))
    ensures
        ({
            let out = r.0@;
            let tags = r.1@;
            &&& out.len() == input@.len()
            &&& tags.len() == input@.len()
            &&& forall|i: int| 0 <= i < tags.len() ==> 0 <= #[trigger] tags[i] < input@.len()
            &&& forall|i: int, j: int| 0 <= i < j < tags.len() ==> tags[i] != tags[j]
            &&& forall|i: int| 0 <= i < out.len() ==> #[trigger] out[i] == input@[tags[i]]
            &&& forall|i: int, j: int|
                0 <= i < j < out.len() ==> out[i].passengers > out[j].passengers || (
                out[i].passengers == out[j].passengers && tags[i] < tags[j])
            &&& forall|v: int| 0 <= v < input@.len() ==> #[trigger] tag_hit(tags, v)
        }),
{
    let mut inp = input;
    let mut rest: Vec<(usize, Group)> = Vec::new();
    let ghost orig = inp@;
    let total = inp.len();
    let mut idx: usize = 0;
    while inp.len() > 0
        invariant
            total == orig.len(),
            idx == rest@.len(),
            idx + inp@.len() == total,
            inp@ == orig.skip(idx as int),
            forall|k: int| 0 <= k < idx ==> #[trigger] rest@[k] == (k as usize, orig[k]),
        decreases inp@.len(),
    {
        let ghost pre = inp@;
        let g = inp.remove(0);
        rest.push((idx, g));
        proof {
            assert(g == pre[0]);
            assert(pre[0] == orig[idx as int]);
            assert(inp@ =~= orig.skip(idx + 1));
        }
        idx = idx + 1;
    }
    let n = rest.len();
    let mut out: Vec<(usize, Group)> = Vec::new();
    proof {
        assert forall|v: int| 0 <= v < n implies #[trigger] tag_hit_pairs(rest@, v) by {
            assert(rest@[v].0 == v);
        }
        assert forall|k1: int, k2: int|
            0 <= k1 < k2 < rest@.len() implies (#[trigger] rest@[k1]).0 != (
            #[trigger] rest@[k2]).0 by {
            assert(rest@[k1] == (k1 as usize, orig[k1]));
            assert(rest@[k2] == (k2 as usize, orig[k2]));
        }
        assert forall|k: int|
            0 <= k < rest@.len() implies (#[trigger] rest@[k]).0 < n && rest@[k] == (
                rest@[k].0,
                orig[rest@[k].0 as int],
            ) by {
            assert(rest@[k] == (k as usize, orig[k]));
        }
    }
    while rest.len() > 0
        invariant
            out@.len() + rest@.len() == n,
            n == orig.len(),
            forall|v: int|
                0 <= v < n ==> #[trigger] tag_hit_pairs(out@, v) || tag_hit_pairs(rest@, v),
            forall|k: int|
                0 <= k < out@.len() ==> (#[trigger] out@[k]).0 < n && out@[k] == (
                    out@[k].0,
                    orig[out@[k].0 as int],
                ),
            forall|k: int|
                0 <= k < rest@.len() ==> (#[trigger] rest@[k]).0 < n && rest@[k] == (
                    rest@[k].0,
                    orig[rest@[k].0 as int],
                ),
            forall|k1: int, k2: int|
                0 <= k1 < k2 < out@.len() ==> (#[trigger] out@[k1]).0 != (#[trigger] out@[k2]).0,
            forall|k1: int, k2: int|
                0 <= k1 < out@.len() && 0 <= k2 < rest@.len() ==> (#[trigger] out@[k1]).0 != (
                #[trigger] rest@[k2]).0,
            forall|k1: int, k2: int|
                0 <= k1 < k2 < rest@.len() ==> (#[trigger] rest@[k1]).0 != (
                #[trigger] rest@[k2]).0,
            forall|k1: int, k2: int|
                0 <= k1 < k2 < out@.len() ==> tagged_before(
                    #[trigger] out@[k1],
                    #[trigger] out@[k2],
                ),
            forall|k1: int, k2: int|
                0 <= k1 < out@.len() && 0 <= k2 < rest@.len() ==> tagged_before(
                    #[trigger] out@[k1],
                    #[trigger] rest@[k2],
                ),
        decreases rest@.len(),
    {
        let mut m: usize = 0;
        let nr = rest.len();
        for j in 1..nr
            invariant
                nr == rest@.len(),
                0 < nr,
                m < j,
                forall|k1: int, k2: int|
                    0 <= k1 < k2 < rest@.len() ==> (#[trigger] rest@[k1]).0 != (
                    #[trigger] rest@[k2]).0,
                forall|jj: int|
                    0 <= jj < j && jj != m ==> tagged_before(
                        rest@[m as int],
                        #[trigger] rest@[jj],
                    ),
        {
            let take_j = rest[j].1.passengers > rest[m].1.passengers || (rest[j].1.passengers
                == rest[m].1.passengers && rest[j].0 < rest[m].0);
            if take_j {
                m = j;
            }
        }
        let ghost pre = rest@;
        let x = rest.remove(m);
        proof {
            assert(x == pre[m as int]);
            assert forall|k2: int|
                0 <= k2 < rest@.len() implies tagged_before(x, #[trigger] rest@[k2]) && x.0 != (
                #[trigger] rest@[k2]).0 by {
                if k2 < m {
                    assert(rest@[k2] == pre[k2]);
                } else {
                    assert(rest@[k2] == pre[k2 + 1]);
                }
            }
            assert forall|k2: int|
                0 <= k2 < rest@.len() implies (#[trigger] rest@[k2]).0 < n && rest@[k2] == (
                    rest@[k2].0,
                    orig[rest@[k2].0 as int],
                ) by {
                if k2 < m {
                    assert(rest@[k2] == pre[k2]);
                } else {
                    assert(rest@[k2] == pre[k2 + 1]);
                }
            }
            assert forall|k1: int, k2: int|
                0 <= k1 < k2 < rest@.len() implies (#[trigger] rest@[k1]).0 != (
                #[trigger] rest@[k2]).0 by {
                let p1: int = if k1 < m {
                    k1
                } else {
                    k1 + 1
                };
                let p2: int = if k2 < m {
                    k2
                } else {
                    k2 + 1
                };
                assert(rest@[k1] == pre[p1]);
                assert(rest@[k2] == pre[p2]);
            }
        }
        let ghost out0 = out@;
        out.push(x);
        proof {
            assert forall|v: int|
                0 <= v < n implies #[trigger] tag_hit_pairs(out@, v) || tag_hit_pairs(
                rest@,
                v,
            ) by {
                if tag_hit_pairs(out0, v) {
                    let k = choose|k: int| 0 <= k < out0.len() && (#[trigger] out0[k]).0 == v;
                    assert(out@[k].0 == v);
                } else if tag_hit_pairs(pre, v) {
                    let k = choose|k: int| 0 <= k < pre.len() && (#[trigger] pre[k]).0 == v;
                    if k == m {
                        assert(out@[out@.len() - 1].0 == v);
                    } else if k < m {
                        assert(rest@[k].0 == v);
                    } else {
                        assert(rest@[k - 1].0 == v);
                    }
                }
            }
        }
    }
    let no = out.len();
    let mut out_groups: Vec<Group> = Vec::new();
    let ghost tags = Seq::<int>::new(out@.len() as nat, |i: int| out@[i].0 as int);
    proof {
        assert forall|v: int| 0 <= v < orig.len() implies #[trigger] tag_hit(tags, v) by {
            assert(tag_hit_pairs(out@, v));
            let k = choose|k: int| 0 <= k < out@.len() && (#[trigger] out@[k]).0 == v;
            assert(tags[k] == v);
        }
    }
    let mut rest2 = out;
    while rest2.len() > 0
        invariant
            out_groups@.len() + rest2@.len() == no,
            no == tags.len(),
            tags.len() == orig.len(),
            forall|v: int| 0 <= v < orig.len() ==> #[trigger] tag_hit(tags, v),
            forall|k: int|
                0 <= k < out_groups@.len() ==> #[trigger] out_groups@[k] == orig[tags[k]],
            forall|k: int| 0 <= k < tags.len() ==> 0 <= #[trigger] tags[k] < orig.len(),
            forall|k1: int, k2: int| 0 <= k1 < k2 < tags.len() ==> tags[k1] != tags[k2],
            forall|k1: int, k2: int|
                0 <= k1 < k2 < tags.len() ==> orig[tags[k1]].passengers
                    > orig[tags[k2]].passengers || (orig[tags[k1]].passengers
                    == orig[tags[k2]].passengers && tags[k1] < tags[k2]),
            forall|k: int|
                0 <= k < rest2@.len() ==> #[trigger] rest2@[k] == (
                    tags[out_groups@.len() + k] as usize,
                    orig[tags[out_groups@.len() + k]],
                ),
        decreases rest2@.len(),
    {
        let ghost pre = rest2@;
        let g = rest2.remove(0);
        proof {
            assert(g == pre[0]);
            assert forall|k: int|
                0 <= k < rest2@.len() implies #[trigger] rest2@[k] == (
                    tags[out_groups@.len() + 1 + k] as usize,
                    orig[tags[out_groups@.len() + 1 + k]],
                ) by {
                assert(rest2@[k] == pre[k + 1]);
            }
        }
        out_groups.push(g.1);
    }
    (out_groups, Ghost(tags))
}

/// Sorts candidate paths by the ranking contract: remaining budget
/// descending, ties broken by duration ascending.
pub fn rank_paths(input: Vec<Path>) -> (out: Vec<Path>)
    ensures
        out@.to_multiset() == input@.to_multiset(),
        out@.len() == input@.len(),
        forall|i: int, j: int| 0 <= i <= j < out@.len() ==> path_rank_le(out@[i], out@[j]),
        forall|i: int| 0 <= i < out@.len() ==> input@.contains(#[trigger] out@[i]),
{
    let mut rest = input;
    let mut out: Vec<Path> = Vec::new();
    let ghost orig = rest@;
    proof {
        broadcast use vstd::seq_lib::group_to_multiset_ensures;

        assert(out@.to_multiset() =~= Multiset::<Path>::empty());
        assert(out@.to_multiset().add(rest@.to_multiset()) =~= rest@.to_multiset());
    }
    while rest.len() > 0
        invariant
            out@.to_multiset().add(rest@.to_multiset()) == orig.to_multiset(),
            out@.len() + rest@.len() == orig.len(),
            forall|i: int, j: int| 0 <= i <= j < out@.len() ==> path_rank_le(out@[i], out@[j]),
            forall|i: int| 0 <= i < out@.len() ==> orig.contains(#[trigger] out@[i]),
            forall|i: int| 0 <= i < rest@.len() ==> orig.contains(#[trigger] rest@[i]),
            forall|i: int, j: int|
                0 <= i < out@.len() && 0 <= j < rest@.len() ==> path_rank_le(out@[i], rest@[j]),
        decreases rest@.len(),
    {
        let mut m: usize = 0;
        let n = rest.len();
        for j in 1..n
            invariant
                n == rest@.len(),
                0 < n,
                m < j,
                forall|jj: int|
                    0 <= jj < j ==> path_rank_le(rest@[m as int], #[trigger] rest@[jj]),
        {
            if path_rank_before(&rest[j], &rest[m]) {
                m = j;
            }
        }
        let ghost pre = rest@;
        let ghost out_pre = out@;
        let x = rest.remove(m);
        proof {
            crate::builder::lemma_sort_step(out_pre, pre, m as int, orig);
            assert forall|j: int| 0 <= j < rest@.len() implies path_rank_le(
                x,
                #[trigger] rest@[j],
            ) by {
                if j < m {
                    assert(rest@[j] == pre[j]);
                } else {
                    assert(rest@[j] == pre[j + 1]);
                }
            }
            assert forall|j: int| 0 <= j < rest@.len() implies orig.contains(
                #[trigger] rest@[j],
            ) by {
                if j < m {
                    assert(rest@[j] == pre[j]);
                } else {
                    assert(rest@[j] == pre[j + 1]);
                }
            }
            assert(orig.contains(x)) by {
                assert(x == pre[m as int]);
            }
        }
        out.push(x);
    }
    proof {
        broadcast use vstd::seq_lib::group_to_multiset_ensures;

        assert(rest@.to_multiset() =~= Multiset::<Path>::empty());
        assert(out@.to_multiset() =~= out@.to_multiset().add(rest@.to_multiset()));
    }
    out
}

/// The ranking order on candidate paths: a higher remaining budget ranks
/// first; at equal budgets the shorter duration ranks first.
pub open spec fn path_rank_le(a: Path, b: Path) -> bool {
    a.remaining_budget > b.remaining_budget || (a.remaining_budget == b.remaining_budget
        && a.duration <= b.duration)
}

/// Strict ranking comparison.
fn path_rank_before(a: &Path, b: &Path) -> (r: bool)
    ensures
        r ==> path_rank_le(*a, *b),
        !r ==> path_rank_le(*b, *a),
{
    a.remaining_budget > b.remaining_budget || (a.remaining_budget == b.remaining_budget
        && a.duration < b.duration)
}

/// The node a group's search starts from, as the model locates it: the
/// riding trip's arrival at the start station when the group is in a
/// trip, otherwise the earliest platform transfer at the start station at
/// or after the group's earliest departure.
pub open spec fn spec_group_source(m: Model, g: Group) -> Option<usize> {
    match g.in_trip {
        Some(t) => {
            let ti = trip_index_of(m.arrivals@, t as u64);
            if ti == -1 {
                None
            } else if m.stations@[m.arrivals@[ti].0 as int].id@ == g.start@ {
                Some(m.arrivals@[ti].2)
            } else {
                None
            }
        },
        None => {
            let si = station_index_of(m.stations@, g.start@);
            if si == -1 {
                None
            } else {
                let ff = first_at_or_after(m.stations_departures@[si]@, g.departure as int);
                if ff == -1 {
                    None
                } else {
                    Some(m.stations_departures@[si]@[ff].1)
                }
            }
        },
    }
}

/// The sink of a group's search: the destination station's aggregating
/// node, when the destination is known.
pub open spec fn spec_group_sink(m: Model, g: Group) -> Option<usize> {
    let si = station_index_of(m.stations@, g.destination@);
    if si == -1 {
        None
    } else {
        Some(m.station_arrival_main_node_indices@[si])
    }
}

/// The group's time box: twice the planned travel time plus the slack.
pub open spec fn spec_group_max_duration(g: Group) -> int {
    2 * (g.arrival - g.departure) + 50
}

impl Group {
    /// Finds and ranks the candidate paths for this group, from the node
    /// `spec_group_source` locates to the sink `spec_group_sink` locates,
    /// within the group's time box, deepening over the budget steps. The
    /// candidate list is replaced; nothing else changes. The search comes
    /// back empty exactly when the group's window is inverted, a station
    /// or trip cannot be located, or no budget step admits a feasible
    /// path; otherwise the list holds, ranked, every feasible path of the
    /// first budget step that admits one.
    pub fn search_paths(&mut self, model: &Model, budget_steps: &Vec<u64>) -> (found: bool)
        requires
            model.wf(),
            old(self).departure <= old(self).arrival ==> 2 * ((old(self).arrival - old(
                self,
            ).departure)) + 50 <= u64::MAX,
        ensures
            final(self).id == old(self).id,
            final(self).start == old(self).start,
            final(self).destination == old(self).destination,
            final(self).departure == old(self).departure,
            final(self).arrival == old(self).arrival,
            final(self).passengers == old(self).passengers,
            final(self).in_trip == old(self).in_trip,
            found == (final(self).paths@.len() > 0),
            old(self).departure > old(self).arrival ==> !found,
            forall|i: int, j: int|
                0 <= i <= j < final(self).paths@.len() ==> path_rank_le(
                    final(self).paths@[i],
                    final(self).paths@[j],
                ),
            forall|i: int, kk: int|
                0 <= i < final(self).paths@.len() && 0 <= kk
                    < (#[trigger] final(self).paths@[i]).edges@.len()
                    ==> (#[trigger] final(self).paths@[i].edges@[kk]) < model.edges().len(),
            old(self).departure <= old(self).arrival ==> match (
                spec_group_source(*model, *old(self)),
                spec_group_sink(*model, *old(self)),
            ) {
                (Some(src), Some(snk)) => {
                    &&& (!found <==> forall|k: int|
                        0 <= k < budget_steps@.len() ==> none_feasible_at(
                            model.edges(),
                            src as int,
                            snk as int,
                            old(self).passengers as u64,
                            spec_group_max_duration(*old(self)) as u64,
                            #[trigger] budget_steps@[k],
                        ))
                    &&& found ==> exists|k: int|
                        {
                            &&& 0 <= k < budget_steps@.len()
                            &&& #[trigger] all_sound_at(
                                model.edges(),
                                src as int,
                                snk as int,
                                old(self).passengers as u64,
                                spec_group_max_duration(*old(self)) as u64,
                                budget_steps@[k],
                                final(self).paths@,
                            )
                            &&& all_found_at(
                                model.edges(),
                                src as int,
                                snk as int,
                                old(self).passengers as u64,
                                spec_group_max_duration(*old(self)) as u64,
                                budget_steps@[k],
                                final(self).paths@,
                            )
                            &&& forall|kk: int|
                                0 <= kk < k ==> none_feasible_at(
                                    model.edges(),
                                    src as int,
                                    snk as int,
                                    old(self).passengers as u64,
                                    spec_group_max_duration(*old(self)) as u64,
                                    #[trigger] budget_steps@[kk],
                                )
                        }
                },
                _ => !found,
            },
    {
        self.paths = Vec::new();
        if self.departure > self.arrival {
            return false;
        }
        let src_opt = match self.in_trip {
            Some(t) => model.find_in_trip_source(t as u64, self.start.as_str()),
            None => model.find_start_node_index(self.start.as_str(), self.departure),
        };
        let snk_opt = model.find_end_node_index(self.destination.as_str());
        proof {
            assert(src_opt == spec_group_source(*model, *old(self)));
            assert(snk_opt == spec_group_sink(*model, *old(self)));
        }
        match (src_opt, snk_opt) {
            (Some(src), Some(snk)) => {
                let travel = self.arrival - self.departure;
                let max_duration = Group::calculate_max_travel_duration(travel);
                let ghost pax = old(self).passengers as u64;
                let found_paths = Path::all_paths_iddfs(
                    &model.graph,
                    src,
                    snk,
                    self.passengers as u64,
                    max_duration,
                    budget_steps,
                );
                let ranked = rank_paths(found_paths);
                proof {
                    broadcast use vstd::seq_lib::group_to_multiset_ensures;

                    assert(max_duration == spec_group_max_duration(*old(self)) as u64);
                    if ranked@.len() > 0 {
                        let k = choose|k: int|
                            {
                                &&& 0 <= k < budget_steps@.len()
                                &&& #[trigger] all_sound_at(
                                    model.edges(),
                                    src as int,
                                    snk as int,
                                    pax,
                                    max_duration,
                                    budget_steps@[k],
                                    found_paths@,
                                )
                                &&& all_found_at(
                                    model.edges(),
                                    src as int,
                                    snk as int,
                                    pax,
                                    max_duration,
                                    budget_steps@[k],
                                    found_paths@,
                                )
                                &&& forall|kk: int|
                                    0 <= kk < k ==> none_feasible_at(
                                        model.edges(),
                                        src as int,
                                        snk as int,
                                        pax,
                                        max_duration,
                                        #[trigger] budget_steps@[kk],
                                    )
                            };
                        assert forall|i: int|
                            0 <= i < ranked@.len() implies crate::paths::path_sound(
                            model.edges(),
                            src as int,
                            snk as int,
                            pax,
                            max_duration,
                            budget_steps@[k],
                            #[trigger] ranked@[i],
                        ) by {
                            let w = choose|w: int|
                                0 <= w < found_paths@.len() && found_paths@[w] == ranked@[i];
                            assert(crate::paths::path_sound(
                                model.edges(),
                                src as int,
                                snk as int,
                                pax,
                                max_duration,
                                budget_steps@[k],
                                found_paths@[w],
                            ));
                        }
                        assert forall|i: int, kk: int|
                            0 <= i < ranked@.len() && 0 <= kk < (
                            #[trigger] ranked@[i]).edges@.len() implies (
                        #[trigger] ranked@[i].edges@[kk]) < model.edges().len() by {
                            lemma_feasible_edges_in_bounds(
                                model.edges(),
                                src as int,
                                snk as int,
                                pax,
                                max_duration,
                                budget_steps@[k],
                                ranked@[i].edges@,
                            );
                        }
                        assert(all_sound_at(
                            model.edges(),
                            src as int,
                            snk as int,
                            pax,
                            max_duration,
                            budget_steps@[k],
                            ranked@,
                        ));
                        // Completeness survives the ranking: the ranked
                        // list is a permutation of the found list.
                        assert forall|p: Seq<usize>|
                            #[trigger] crate::paths::path_feasible(
                                model.edges(),
                                src as int,
                                snk as int,
                                pax,
                                max_duration,
                                budget_steps@[k],
                                p,
                            ) implies exists|i: int|
                            0 <= i < ranked@.len() && (#[trigger] ranked@[i]).edges@ == p by {
                            let w = choose|w: int|
                                0 <= w < found_paths@.len() && (#[trigger] found_paths@[w]).edges@
                                    == p;
                            assert(found_paths@.contains(found_paths@[w]));
                            assert(found_paths@.to_multiset().count(found_paths@[w]) > 0);
                            assert(ranked@.to_multiset().count(found_paths@[w]) > 0);
                            assert(ranked@.contains(found_paths@[w]));
                            let i = choose|i: int|
                                0 <= i < ranked@.len() && ranked@[i] == found_paths@[w];
                            assert(ranked@[i].edges@ == p);
                        }
                        assert(all_found_at(
                            model.edges(),
                            src as int,
                            snk as int,
                            pax,
                            max_duration,
                            budget_steps@[k],
                            ranked@,
                        ));
                        // A sound non-empty result refutes emptiness of
                        // the feasible set at its step.
                        assert(crate::paths::path_feasible(
                            model.edges(),
                            src as int,
                            snk as int,
                            pax,
                            max_duration,
                            budget_steps@[k],
                            ranked@[0].edges@,
                        ));
                        assert(!none_feasible_at(
                            model.edges(),
                            src as int,
                            snk as int,
                            pax,
                            max_duration,
                            budget_steps@[k],
                        ));
                    }
                }
                self.paths = ranked;
                self.paths.len() > 0
            },
            _ => false,
        }
    }
}

/// The graph's edge list after the first `n` returned groups' charges:
/// ride utilizations grown by what those groups put on each edge,
/// everything else untouched.
pub open spec fn charged_edges(
    edges0: Seq<(usize, usize, EdgeWeight)>,
    done: Seq<Group>,
    n: int,
) -> Seq<(usize, usize, EdgeWeight)> {
    Seq::new(
        edges0.len(),
        |e: int|
            {
                let t0 = edges0[e];
                if t0.2 is Ride {
                    (
                        t0.0,
                        t0.1,
                        EdgeWeight::Ride {
                            duration: t0.2.spec_duration(),
                            capacity: t0.2.spec_capacity(),
                            utilization: (t0.2.spec_utilization() + charged(done, n, e)) as u64,
                        },
                    )
                } else {
                    t0
                }
            },
    )
}

/// Charges read only the first `n` groups.
proof fn lemma_charged_agree(s1: Seq<Group>, s2: Seq<Group>, n: int, e: int)
    requires
        0 <= n <= s1.len(),
        n <= s2.len(),
        forall|i: int| 0 <= i < n ==> s1[i] == s2[i],
    ensures
        charged(s1, n, e) == charged(s2, n, e),
    decreases n,
{
    if n > 0 {
        lemma_charged_agree(s1, s2, n - 1, e);
    }
}

/// The mid-state reads only the first `n` groups.
proof fn lemma_charged_edges_agree(
    edges0: Seq<(usize, usize, EdgeWeight)>,
    s1: Seq<Group>,
    s2: Seq<Group>,
    n: int,
)
    requires
        0 <= n <= s1.len(),
        n <= s2.len(),
        forall|i: int| 0 <= i < n ==> s1[i] == s2[i],
    ensures
        charged_edges(edges0, s1, n) == charged_edges(edges0, s2, n),
{
    assert forall|e: int|
        0 <= e < edges0.len() implies charged_edges(edges0, s1, n)[e] == charged_edges(
        edges0,
        s2,
        n,
    )[e] by {
        lemma_charged_agree(s1, s2, n, e);
    }
    assert(charged_edges(edges0, s1, n) =~= charged_edges(edges0, s2, n));
}

/// The locators read only the model's index structures, which solving
/// never changes.
proof fn lemma_locators_agree(m1: Model, m2: Model, g1: Group, g2: Group)
    requires
        m1.stations == m2.stations,
        m1.stations_departures == m2.stations_departures,
        m1.station_arrival_main_node_indices == m2.station_arrival_main_node_indices,
        m1.arrivals == m2.arrivals,
        g1.start == g2.start,
        g1.destination == g2.destination,
        g1.departure == g2.departure,
        g1.in_trip == g2.in_trip,
    ensures
        spec_group_source(m1, g1) == spec_group_source(m2, g2),
        spec_group_sink(m1, g1) == spec_group_sink(m2, g2),
{
}

/// What a returned group's candidate list is: exactly the ranked search
/// result of its turn, taken against the original edges charged by the
/// groups placed before it. The locators read only index structures that
/// solving never changes, so the model before solving stands in for the
/// turn's model.
pub open spec fn group_solved_at(
    m: Model,
    edges0: Seq<(usize, usize, EdgeWeight)>,
    done: Seq<Group>,
    gi: int,
    steps: Seq<u64>,
) -> bool {
    let g = done[gi];
    let mid = charged_edges(edges0, done, gi);
    &&& (g.departure > g.arrival ==> g.paths@.len() == 0)
    &&& (g.departure <= g.arrival ==> match (spec_group_source(m, g), spec_group_sink(m, g)) {
        (Some(src), Some(snk)) => {
            &&& ((g.paths@.len() == 0) <==> forall|k: int|
                0 <= k < steps.len() ==> none_feasible_at(
                    mid,
                    src as int,
                    snk as int,
                    g.passengers as u64,
                    spec_group_max_duration(g) as u64,
                    #[trigger] steps[k],
                ))
            &&& (g.paths@.len() > 0 ==> exists|k: int|
                {
                    &&& 0 <= k < steps.len()
                    &&& #[trigger] all_sound_at(
                        mid,
                        src as int,
                        snk as int,
                        g.passengers as u64,
                        spec_group_max_duration(g) as u64,
                        steps[k],
                        g.paths@,
                    )
                    &&& all_found_at(
                        mid,
                        src as int,
                        snk as int,
                        g.passengers as u64,
                        spec_group_max_duration(g) as u64,
                        steps[k],
                        g.paths@,
                    )
                    &&& forall|kk: int|
                        0 <= kk < k ==> none_feasible_at(
                            mid,
                            src as int,
                            snk as int,
                            g.passengers as u64,
                            spec_group_max_duration(g) as u64,
                            #[trigger] steps[kk],
                        )
                })
        },
        _ => g.paths@.len() == 0,
    })
}

/// The returned groups are the input groups in the solver's order: tags
/// give each output position's input position, the order is party size
/// descending with ties by input position, so it is a function of the
/// input.
pub open spec fn solver_order(input: Seq<Group>, done: Seq<Group>, tags: Seq<int>) -> bool {
    &&& tags.len() == done.len()
    &&& done.len() == input.len()
    &&& forall|i: int| 0 <= i < tags.len() ==> 0 <= #[trigger] tags[i] < input.len()
    &&& forall|i: int, j: int| 0 <= i < j < tags.len() ==> tags[i] != tags[j]
    &&& forall|i: int|
        0 <= i < done.len() ==> group_core(#[trigger] done[i]) == group_core(input[tags[i]])
    &&& forall|i: int, j: int|
        0 <= i < j < done.len() ==> done[i].passengers > done[j].passengers || (done[i].passengers
            == done[j].passengers && tags[i] < tags[j])
}

/// The exact failure the solver can report: some prefix of groups was
/// solved in order, the next group's search found candidates, and its
/// best one cannot be charged against the graph as that turn left it.
/// Under the search's capacity pruning this needs a best path that rides
/// one edge more than once.
pub open spec fn solver_failure(
    m: Model,
    edges0: Seq<(usize, usize, EdgeWeight)>,
    steps: Seq<u64>,
    done_pre: Seq<Group>,
    g: Group,
) -> bool {
    let dp1 = done_pre.push(g);
    &&& forall|gi: int|
        0 <= gi < dp1.len() ==> #[trigger] group_solved_at(m, edges0, dp1, gi, steps)
    &&& g.paths@.len() > 0
    &&& !spec_can_augment(
        charged_edges(edges0, done_pre, done_pre.len() as int),
        g.paths@[0].edges@,
        g.passengers as u64,
    )
}

/// Some prefix and group witness the solver's exact failure condition.
pub open spec fn some_solver_failure(
    m: Model,
    edges0: Seq<(usize, usize, EdgeWeight)>,
    steps: Seq<u64>,
) -> bool {
    exists|done_pre: Seq<Group>, g: Group|
        #[trigger] solver_failure(m, edges0, steps, done_pre, g)
}

/// A group's identity and request: everything but its candidate paths.
pub open spec fn group_core(g: Group) -> (u64, Seq<char>, Seq<char>, u64, u64, usize, Option<
    usize,
>) {
    (g.id, g.start@, g.destination@, g.departure, g.arrival, g.passengers, g.in_trip)
}

/// Some group of the list has this group's identity and request.
pub open spec fn core_in(groups: Seq<Group>, g: Group) -> bool {
    exists|j: int| 0 <= j < groups.len() && group_core(#[trigger] groups[j]) == group_core(g)
}

/// The group's candidate list obeys the ranking contract.
pub open spec fn paths_ranked(g: Group) -> bool {
    forall|i: int, j: int|
        0 <= i <= j < g.paths@.len() ==> path_rank_le(g.paths@[i], g.paths@[j])
}

/// What the groups charge is never negative.
proof fn lemma_charged_nonneg(groups: Seq<Group>, n: int, eid: int)
    requires
        0 <= n <= groups.len(),
    ensures
        charged(groups, n, eid) >= 0,
    decreases n,
{
    if n > 0 {
        lemma_charged_nonneg(groups, n - 1, eid);
        if groups[n - 1].paths@.len() > 0 {
            lemma_count_in_nonneg(groups[n - 1].paths@[0].edges@, eid);
            vstd::arithmetic::mul::lemma_mul_nonnegative(
                groups[n - 1].passengers as int,
                count_in(groups[n - 1].paths@[0].edges@, eid),
            );
        }
    }
}

impl Model {
    /// Routes every group: sorts them by party size descending, finds and
    /// ranks each group's candidate paths, and charges the party size onto
    /// every ride edge of the best candidate. On success the returned
    /// groups are the input groups (same identities and requests), party
    /// size descending, each with a ranked candidate list, and every ride
    /// edge's utilization has grown by exactly the passengers the returned
    /// groups' best paths put on it, occurrences counted; a group without
    /// a path charges nothing, and utilization never exceeds capacity.
    /// The structural `CapacityOverflow` failure aborts the batch when a
    /// best path cannot be charged against the graph as it stands at that
    /// group's turn - under the capacity pruning only possible when one
    /// path rides the same edge more than once; that per-turn condition
    /// refers to an intermediate graph state and is documented here
    /// rather than stated as a contract. On the error the graph keeps its
    /// structure, with ride utilizations only grown.
    pub fn find_solutions(&mut self, groups: Vec<Group>, budget_steps: &Vec<u64>) -> (r: Result<
        Vec<Group>,
        SolveError,
    >)
        requires
            old(self).wf(),
            forall|gi: int|
                0 <= gi < groups@.len() ==> {
                    let grp = #[trigger] groups@[gi];
                    grp.departure <= grp.arrival ==> 2 * ((grp.arrival - grp.departure)) + 50
                        <= u64::MAX
                },
        ensures
            final(self).wf(),
            graph_nodes(&final(self).graph) == graph_nodes(&old(self).graph),
            graph_edges(&final(self).graph).len() == graph_edges(&old(self).graph).len(),
            final(self).stations == old(self).stations,
            final(self).stations_departures == old(self).stations_departures,
            final(self).station_arrival_main_node_indices == old(
                self,
            ).station_arrival_main_node_indices,
            final(self).arrivals == old(self).arrivals,
            forall|e: int|
                0 <= e < graph_edges(&old(self).graph).len() ==> {
                    let t0 = graph_edges(&old(self).graph)[e];
                    let t1 = #[trigger] graph_edges(&final(self).graph)[e];
                    &&& t1.0 == t0.0
                    &&& t1.1 == t0.1
                    &&& t1.2.spec_capacity() == t0.2.spec_capacity()
                    &&& t1.2.spec_duration() == t0.2.spec_duration()
                    &&& (t0.2 is Ride <==> t1.2 is Ride)
                    &&& (!(t0.2 is Ride) ==> t1.2 == t0.2)
                    &&& t1.2.spec_utilization() >= t0.2.spec_utilization()
                },
            r matches Ok(done) ==> {
                &&& done@.len() == groups@.len()
                &&& exists|tags: Seq<int>| #[trigger] solver_order(groups@, done@, tags)
                &&& forall|i: int, j: int|
                    0 <= i <= j < done@.len() ==> done@[i].passengers >= done@[j].passengers
                &&& forall|i: int| 0 <= i < done@.len() ==> core_in(groups@, #[trigger] done@[i])
                &&& forall|j: int| 0 <= j < groups@.len() ==> core_in(done@, #[trigger] groups@[j])
                &&& forall|i: int| 0 <= i < done@.len() ==> paths_ranked(#[trigger] done@[i])
                &&& forall|gi: int|
                    0 <= gi < done@.len() ==> #[trigger] group_solved_at(
                        *old(self),
                        graph_edges(&old(self).graph),
                        done@,
                        gi,
                        budget_steps@,
                    )
                &&& forall|e: int|
                    0 <= e < graph_edges(&old(self).graph).len() ==> {
                        let t0 = graph_edges(&old(self).graph)[e];
                        let t1 = #[trigger] graph_edges(&final(self).graph)[e];
                        t0.2 is Ride ==> t1.2.spec_utilization() == t0.2.spec_utilization()
                            + charged(done@, done@.len() as int, e)
                    }
            },
            r is Err ==> some_solver_failure(
                *old(self),
                graph_edges(&old(self).graph),
                budget_steps@,
            ),
    {
        let ghost groups0 = groups@;
        let mut done: Vec<Group> = Vec::new();
        let sorted_pair = sort_groups_by_size(groups);
        let mut rest = sorted_pair.0;
        let ghost tags0 = sorted_pair.1@;
        let ghost sorted0 = rest@;
        let ghost edges0 = graph_edges(&self.graph);
        let mut failed = false;
        proof {
            assert(rest@ =~= sorted0.skip(0));
        }
        while !failed && rest.len() > 0
            invariant
                sorted0.len() == groups0.len(),
                tags0.len() == groups0.len(),
                forall|i: int| 0 <= i < tags0.len() ==> 0 <= #[trigger] tags0[i] < groups0.len(),
                forall|i: int, j: int| 0 <= i < j < tags0.len() ==> tags0[i] != tags0[j],
                forall|v: int| 0 <= v < groups0.len() ==> #[trigger] tag_hit(tags0, v),
                forall|i: int| 0 <= i < sorted0.len() ==> #[trigger] sorted0[i] == groups0[tags0[i]],
                forall|i: int, j: int|
                    0 <= i < j < sorted0.len() ==> sorted0[i].passengers > sorted0[j].passengers
                        || (sorted0[i].passengers == sorted0[j].passengers && tags0[i] < tags0[j]),
                rest@ == sorted0.skip(done@.len() as int),
                forall|i: int|
                    0 <= i < done@.len() ==> group_core(#[trigger] done@[i]) == group_core(
                        sorted0[i],
                    ),
                forall|i: int| 0 <= i < done@.len() ==> paths_ranked(#[trigger] done@[i]),
                forall|gi: int|
                    0 <= gi < done@.len() ==> #[trigger] group_solved_at(
                        *old(self),
                        edges0,
                        done@,
                        gi,
                        budget_steps@,
                    ),
                self.wf(),
                graph_nodes(&self.graph) == graph_nodes(&old(self).graph),
                graph_edges(&self.graph).len() == edges0.len(),
                edges0 == graph_edges(&old(self).graph),
                self.stations == old(self).stations,
                self.stations_departures == old(self).stations_departures,
                self.station_arrival_main_node_indices == old(
                    self,
                ).station_arrival_main_node_indices,
                self.arrivals == old(self).arrivals,
                done@.len() + rest@.len() == groups0.len(),
                forall|gi: int| 0 <= gi < rest@.len() ==> groups0.contains(#[trigger] rest@[gi]),
                forall|gi: int|
                    0 <= gi < groups0.len() ==> {
                        let grp = #[trigger] groups0[gi];
                        grp.departure <= grp.arrival ==> 2 * ((grp.arrival - grp.departure)) + 50
                            <= u64::MAX
                    },
                forall|e: int|
                    0 <= e < edges0.len() ==> {
                        let t0 = edges0[e];
                        let t1 = #[trigger] graph_edges(&self.graph)[e];
                        &&& t1.0 == t0.0
                        &&& t1.1 == t0.1
                        &&& t1.2.spec_capacity() == t0.2.spec_capacity()
                        &&& t1.2.spec_duration() == t0.2.spec_duration()
                        &&& (t0.2 is Ride <==> t1.2 is Ride)
                        &&& (!(t0.2 is Ride) ==> t1.2 == t0.2)
                        &&& t1.2.spec_utilization() >= t0.2.spec_utilization()
                    },
                !failed ==> forall|e: int|
                    0 <= e < edges0.len() && (#[trigger] edges0[e]).2 is Ride ==> graph_edges(
                        &self.graph,
                    )[e].2.spec_utilization() == edges0[e].2.spec_utilization() + charged(
                        done@,
                        done@.len() as int,
                        e,
                    ),
                failed ==> some_solver_failure(*old(self), edges0, budget_steps@),
            decreases rest@.len(),
        {
            let ghost pre = rest@;
            let ghost n_done = done@.len() as int;
            let mut grp = rest.remove(0);
            proof {
                assert(grp == pre[0]);
                assert(pre[0] == sorted0[n_done]);
                assert(groups0.contains(pre[0])) by {
                    assert(sorted0[n_done] == groups0[tags0[n_done]]);
                }
                assert forall|gj: int| 0 <= gj < rest@.len() implies groups0.contains(
                    #[trigger] rest@[gj],
                ) by {
                    assert(rest@[gj] == pre[gj + 1]);
                    assert(sorted0[n_done + 1 + gj] == groups0[tags0[n_done + 1 + gj]]);
                }
                assert(rest@ =~= sorted0.skip(n_done + 1));
            }
            let ghost grp0 = grp;
            let ghost turn_edges = graph_edges(&self.graph);
            let found = grp.search_paths(self, budget_steps);
            let ghost done_pre = done@;
            proof {
                // The graph at this turn is the original charged by the
                // groups already placed.
                assert forall|e: int|
                    0 <= e < edges0.len() implies turn_edges[e] == charged_edges(
                    edges0,
                    done_pre,
                    n_done,
                )[e] by {
                    if edges0[e].2 is Ride {
                        assert(turn_edges[e].2 is Ride);
                    }
                }
                assert(turn_edges =~= charged_edges(edges0, done_pre, n_done));
                // This turn's search result matches `group_solved_at` for
                // the new entry, and the earlier entries keep theirs.
                lemma_locators_agree(*old(self), *self, grp, grp0);
                assert(spec_group_source(*old(self), grp) == spec_group_source(*self, grp0));
                assert(spec_group_sink(*old(self), grp) == spec_group_sink(*self, grp0));
                let dp1 = done_pre.push(grp);
                lemma_charged_edges_agree(edges0, dp1, done_pre, n_done);
                assert(group_solved_at(*old(self), edges0, dp1, n_done, budget_steps@)) by {
                    assert(dp1[n_done] == grp);
                    assert(charged_edges(edges0, dp1, n_done) == charged_edges(
                        edges0,
                        done_pre,
                        n_done,
                    ));
                    assert(charged_edges(edges0, done_pre, n_done) == turn_edges);
                    assert(turn_edges == graph_edges(&self.graph));
                    assert(grp.departure == grp0.departure);
                    assert(grp.arrival == grp0.arrival);
                    assert(grp.passengers == grp0.passengers);
                    assert(spec_group_max_duration(grp) == spec_group_max_duration(grp0));
                    assert(found == (grp.paths@.len() > 0));
                }
                assert forall|gi: int|
                    0 <= gi < dp1.len() implies #[trigger] group_solved_at(
                    *old(self),
                    edges0,
                    dp1,
                    gi,
                    budget_steps@,
                ) by {
                    if gi < n_done {
                        assert(group_solved_at(*old(self), edges0, done_pre, gi, budget_steps@));
                        assert(dp1[gi] == done_pre[gi]);
                        lemma_charged_edges_agree(edges0, dp1, done_pre, gi);
                    }
                }
            }
            if found {
                let chosen_edges = clone_usize_vec(&grp.paths[0].edges);
                let ok = can_augment(&self.graph, &chosen_edges, grp.passengers as u64);
                if ok {
                    let ghost model_pre = *self;
                    augment_path(&mut self.graph, &chosen_edges, grp.passengers as u64);
                    proof {
                        crate::model::lemma_wf_after_utilization_change(model_pre, *self);
                        assert forall|e: int| 0 <= e < edges0.len() implies charged(
                            done_pre.push(grp),
                            done_pre.len() as int + 1,
                            e,
                        ) == charged(done_pre, done_pre.len() as int, e) + grp.passengers
                            * count_in(grp.paths@[0].edges@, e) by {
                            lemma_charged_push(done_pre, grp, done_pre.len() as int, e);
                        }
                        assert(group_core(grp) == group_core(sorted0[n_done]));
                        assert forall|e: int|
                            0 <= e < edges0.len() implies graph_edges(
                            &self.graph,
                        )[e].2.spec_utilization() >= edges0[e].2.spec_utilization() by {
                            if edges0[e].2 is Ride {
                                lemma_charged_push(done_pre, grp, done_pre.len() as int, e);
                                lemma_charged_nonneg(done_pre.push(grp), n_done + 1, e);
                            } else {
                                assert(graph_edges(&self.graph)[e] == edges0[e]);
                            }
                        }
                    }
                    done.push(grp);
                } else {
                    proof {
                        // The exact failure witness: the groups placed so
                        // far, and this group's unchargeable best path.
                        assert(!spec_can_augment(
                            charged_edges(edges0, done_pre, n_done),
                            grp.paths@[0].edges@,
                            grp.passengers as u64,
                        )) by {
                            assert(charged_edges(edges0, done_pre, n_done) == turn_edges);
                            assert(turn_edges == graph_edges(&self.graph));
                        }
                        assert(solver_failure(*old(self), edges0, budget_steps@, done_pre, grp));
                        assert(group_core(grp) == group_core(sorted0[n_done]));
                    }
                    done.push(grp);
                    failed = true;
                }
            } else {
                proof {
                    assert forall|e: int| 0 <= e < edges0.len() implies charged(
                        done_pre.push(grp),
                        done_pre.len() as int + 1,
                        e,
                    ) == charged(done_pre, done_pre.len() as int, e) by {
                        lemma_charged_push(done_pre, grp, done_pre.len() as int, e);
                    }
                    assert(group_core(grp) == group_core(sorted0[n_done]));
                }
                done.push(grp);
            }
        }
        if failed {
            proof {
                assert(some_solver_failure(
                    *old(self),
                    graph_edges(&old(self).graph),
                    budget_steps@,
                ));
            }
            return Err(SolveError::CapacityOverflow);
        }
        proof {
            assert(done@.len() == sorted0.len());
            assert forall|i: int, j: int|
                0 <= i <= j < done@.len() implies done@[i].passengers >= done@[j].passengers by {
                assert(group_core(done@[i]) == group_core(sorted0[i]));
                assert(group_core(done@[j]) == group_core(sorted0[j]));
                if i < j {
                    assert(sorted0[i] == groups0[tags0[i]]);
                    assert(sorted0[j] == groups0[tags0[j]]);
                }
            }
            assert(solver_order(groups0, done@, tags0)) by {
                assert forall|i: int, j: int|
                    0 <= i < j < done@.len() implies done@[i].passengers > done@[j].passengers || (
                done@[i].passengers == done@[j].passengers && tags0[i] < tags0[j]) by {
                    assert(group_core(done@[i]) == group_core(sorted0[i]));
                    assert(group_core(done@[j]) == group_core(sorted0[j]));
                }
                assert forall|i: int| 0 <= i < done@.len() implies group_core(#[trigger] done@[i])
                    == group_core(groups0[tags0[i]]) by {
                    assert(group_core(done@[i]) == group_core(sorted0[i]));
                    assert(sorted0[i] == groups0[tags0[i]]);
                }
            }
            assert forall|i: int| 0 <= i < done@.len() implies core_in(
                groups0,
                #[trigger] done@[i],
            ) by {
                assert(group_core(done@[i]) == group_core(sorted0[i]));
                assert(sorted0[i] == groups0[tags0[i]]);
            }
            assert forall|j: int| 0 <= j < groups0.len() implies core_in(
                done@,
                #[trigger] groups0[j],
            ) by {
                assert(tag_hit(tags0, j));
                let i = choose|i: int| 0 <= i < tags0.len() && #[trigger] tags0[i] == j;
                assert(group_core(done@[i]) == group_core(sorted0[i]));
                assert(sorted0[i] == groups0[j]);
            }
            assert forall|e: int|
                0 <= e < edges0.len() implies graph_edges(&self.graph)[e].2.spec_utilization()
                >= edges0[e].2.spec_utilization() by {
                if edges0[e].2 is Ride {
                    lemma_charged_nonneg(done@, done@.len() as int, e);
                } else {
                    assert(graph_edges(&self.graph)[e] == edges0[e]);
                }
            }
        }
        Ok(done)
    }
}

/// Copies an edge-index list.
fn clone_usize_vec(v: &Vec<usize>) -> (r: Vec<usize>)
    ensures
        r@ == v@,
{
    let mut r: Vec<usize> = Vec::new();
    let n = v.len();
    for i in 0..n
        invariant
            n == v@.len(),
            r@ == v@.subrange(0, i as int),
    {
        r.push(v[i]);
        proof {
            assert(r@ =~= v@.subrange(0, i + 1));
        }
    }
    proof {
        assert(r@ =~= v@);
    }
    r
}

} // verus!
