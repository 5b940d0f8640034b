//! Construction of the time-expanded timetable graph from validated
//! station, trip and footpath records.
//!
//! The build is a deterministic sequence of passes: trip events first, then
//! per-station platform chains, then the per-station sinks with the
//! alighting edges, and finally the walking edges for footpaths. Records
//! that refer to unknown stations, repeat a trip id, or place a trip's
//! arrival before its departure are skipped and counted.

use vstd::multiset::Multiset;
use vstd::prelude::*;

use crate::graph::graph_add_edge;
use crate::graph::graph_add_node;
use crate::graph::graph_edges;
use crate::graph::graph_new;
use crate::graph::graph_nodes;
use crate::graph::max_index;
use crate::graph::wf_edge;
use crate::graph::wf_graph;
use crate::model::arr_event_ok;
use crate::model::alight_edge_exact;
use crate::model::alight_from;
use crate::model::arrival_alight_ok;
use crate::model::arrival_relation_ok;
use crate::model::relation_from;
use crate::model::chain_ok;
use crate::model::chain_sorted;
use crate::model::chain_complete;
use crate::model::first_at_or_after;
use crate::model::station_index_of;
use crate::model::trip_index_of;
use crate::model::Model;
use crate::records::Footpath;
use crate::records::Station;
use crate::records::Trip;
use crate::weights::EdgeWeight;
use crate::weights::NodeWeight;

verus! {

/// An arrival or departure event created for a trip:
/// (station index, time, node index, trip id).
pub type Event = (usize, u64, usize, u64);

/// A departure event record, the counterpart of `arr_event_ok`.
pub open spec fn dep_event_ok(nodes: Seq<NodeWeight>, stations: Seq<Station>, ev: Event) -> bool {
    &&& ev.0 < stations.len()
    &&& ev.2 < nodes.len()
    &&& nodes[ev.2 as int] is Departure
    &&& nodes[ev.2 as int].spec_time() == Some(ev.1)
    &&& nodes[ev.2 as int].spec_station() == stations[ev.0 as int].id@
    &&& nodes[ev.2 as int] matches NodeWeight::Departure { trip_id, .. } && trip_id == ev.3
}

/// The event records describe the graph: every record points at a node of
/// the right kind, trip ids are unique, arrival nodes are distinct, and
/// every arrival node of the graph has a record.
pub open spec fn events_ok(
    nodes: Seq<NodeWeight>,
    stations: Seq<Station>,
    arr_events: Seq<Event>,
    dep_events: Seq<Event>,
) -> bool {
    &&& forall|k: int|
        0 <= k < arr_events.len() ==> arr_event_ok(nodes, stations, #[trigger] arr_events[k])
    &&& forall|k: int|
        0 <= k < dep_events.len() ==> dep_event_ok(nodes, stations, #[trigger] dep_events[k])
    &&& forall|k1: int, k2: int|
        0 <= k1 < k2 < arr_events.len() ==> arr_events[k1].3 != arr_events[k2].3
    &&& forall|k1: int, k2: int|
        0 <= k1 < k2 < arr_events.len() ==> arr_events[k1].2 != arr_events[k2].2
    &&& forall|i: int|
        0 <= i < nodes.len() && (#[trigger] nodes[i]) is Arrival ==> exists|k: int|
            0 <= k < arr_events.len() && (#[trigger] arr_events[k]).2 == i
}

/// No two known stations share an id.
pub open spec fn stations_distinct(stations: Seq<Station>) -> bool {
    forall|i: int, j: int| 0 <= i < j < stations.len() ==> stations[i].id@ != stations[j].id@
}

/// Every transfer node of the graph appears in one of the chains.
pub open spec fn transfers_covered(nodes: Seq<NodeWeight>, chains: Seq<Vec<(u64, usize)>>) -> bool {
    forall|i: int|
        0 <= i < nodes.len() && (#[trigger] nodes[i]) is Transfer ==> exists|ci: int, k: int|
            0 <= ci < chains.len() && 0 <= k < chains[ci]@.len() && (#[trigger] chains[ci]@[k]).1
                == i
}

/// Every edge so far carries no utilization.
pub open spec fn edges_unused(edges: Seq<(usize, usize, EdgeWeight)>) -> bool {
    forall|e: int| 0 <= e < edges.len() ==> (#[trigger] edges[e]).2.spec_utilization() == 0
}

/// Departure events order: by station index, then by time.
pub open spec fn dep_le(a: Event, b: Event) -> bool {
    a.0 < b.0 || (a.0 == b.0 && a.1 <= b.1)
}

/// Counts of input records the builder skipped or could not link.
#[derive(Debug, Clone)]
pub struct BuildStats {
    /// Trips whose stations are unknown, whose id repeats an earlier
    /// trip's, or whose arrival lies before their departure.
    pub skipped_trips: u64,
    /// Footpaths naming an unknown station.
    pub skipped_footpaths: u64,
    /// Footpath-arrival pairs that produced a walking edge.
    pub successful_footpaths: u64,
    /// Footpath-arrival pairs with no transfer late enough to walk to.
    pub failed_footpaths: u64,
}

/// Looks a station up by id in a known-station list.
fn station_lookup(stations: &Vec<Station>, sid: &String) -> (r: Option<usize>)
    ensures
        r == {
            let si = station_index_of(stations@, sid@);
            if si == -1 {
                None::<usize>
            } else {
                Some(si as usize)
            }
        },
        r matches Some(i) ==> i < stations@.len() && stations@[i as int].id@ == sid@,
        r is None ==> forall|i: int| 0 <= i < stations@.len() ==> (#[trigger] stations@[i]).id@
            != sid@,
{
    proof {
        crate::model::lemma_station_index_of_bounds(stations@, sid@);
    }
    let n = stations.len();
    for j in 0..n
        invariant
            n == stations@.len(),
            forall|i: int| 0 <= i < j ==> (#[trigger] stations@[i]).id@ != sid@,
    {
        if stations[j].id == *sid {
            proof {
                crate::model::lemma_station_index_of_found(stations@, sid@, j as int);
            }
            return Some(j);
        }
    }
    proof {
        crate::model::lemma_station_index_of_missing(stations@, sid@);
    }
    None
}

/// Whether an arrival event for trip `tid` was already recorded.
fn has_trip(arr_events: &Vec<Event>, tid: u64) -> (r: bool)
    ensures
        r == (trip_index_of(arr_events@, tid) != -1),
{
    proof {
        crate::model::lemma_trip_index_of_bounds(arr_events@, tid);
    }
    let n = arr_events.len();
    for k in 0..n
        invariant
            n == arr_events@.len(),
            forall|j: int| 0 <= j < k ==> (#[trigger] arr_events@[j]).3 != tid,
    {
        if arr_events[k].3 == tid {
            proof {
                crate::model::lemma_trip_index_of_found(arr_events@, tid, k as int);
            }
            return true;
        }
    }
    proof {
        crate::model::lemma_trip_index_of_missing(arr_events@, tid);
    }
    false
}

/// The arrival event of trip `tid` at station `si`, as (time, node), if one
/// was recorded.
fn find_arrival_at(arr_events: &Vec<Event>, si: usize, tid: u64) -> (r: Option<(u64, usize)>)
    ensures
        r matches Some(p) ==> exists|k: int|
            0 <= k < arr_events@.len() && #[trigger] arr_events@[k] == (si, p.0, p.1, tid),
        r is None ==> forall|k: int|
            0 <= k < arr_events@.len() ==> !((#[trigger] arr_events@[k]).0 == si && arr_events@[k].3
                == tid),
{
    let n = arr_events.len();
    for k in 0..n
        invariant
            n == arr_events@.len(),
            forall|j: int|
                0 <= j < k ==> !((#[trigger] arr_events@[j]).0 == si && arr_events@[j].3 == tid),
    {
        let ev = arr_events[k];
        if ev.0 == si && ev.3 == tid {
            return Some((ev.1, ev.2));
        }
    }
    None
}

/// Strict version of the departure event order.
fn dep_lt(a: &Event, b: &Event) -> (r: bool)
    ensures
        r == (dep_le(*a, *b) && *a != *b) || (dep_le(*a, *b) && !dep_le(*b, *a)) == r,
        r ==> dep_le(*a, *b),
        !r ==> dep_le(*b, *a),
{
    a.0 < b.0 || (a.0 == b.0 && a.1 < b.1)
}

/// One selection-sort round keeps the whole a permutation: moving the
/// chosen element from the rest to the output preserves the multiset.
pub proof fn lemma_sort_step<T>(out0: Seq<T>, rest0: Seq<T>, m: int, orig: Seq<T>)
    requires
        0 <= m < rest0.len(),
        out0.to_multiset().add(rest0.to_multiset()) == orig.to_multiset(),
    ensures
        out0.push(rest0[m]).to_multiset().add(rest0.remove(m).to_multiset())
            == orig.to_multiset(),
{
    broadcast use vstd::seq_lib::group_to_multiset_ensures;

    let x = rest0[m];
    assert(rest0.contains(x));
    assert(rest0.to_multiset().count(x) > 0);
    assert(out0.push(x).to_multiset() =~= out0.to_multiset().insert(x));
    assert(rest0.remove(m).to_multiset() =~= rest0.to_multiset().remove(x));
    assert(out0.to_multiset().insert(x).add(rest0.to_multiset().remove(x))
        =~= out0.to_multiset().add(rest0.to_multiset()));
}

/// Sorts departure events by station index, then time, with a stable
/// selection sort. Every element of the result is one of the input's, and
/// the length is kept.
fn sort_dep_events(input: Vec<Event>) -> (out: Vec<Event>)
    ensures
        out@.to_multiset() == input@.to_multiset(),
        out@.len() == input@.len(),
        forall|k1: int, k2: int|
            0 <= k1 <= k2 < out@.len() ==> dep_le(#[trigger] out@[k1], #[trigger] out@[k2]),
        forall|k: int| 0 <= k < out@.len() ==> input@.contains(#[trigger] out@[k]),
{
    let mut rest = input;
    let mut out: Vec<Event> = Vec::new();
    let ghost orig = rest@;
    proof {
        broadcast use vstd::seq_lib::group_to_multiset_ensures;

        assert(out@.to_multiset() =~= Multiset::<Event>::empty());
        assert(out@.to_multiset().add(rest@.to_multiset()) =~= rest@.to_multiset());
    }
    while rest.len() > 0
        invariant
            out@.to_multiset().add(rest@.to_multiset()) == orig.to_multiset(),
            out@.len() + rest@.len() == orig.len(),
            forall|k1: int, k2: int|
                0 <= k1 <= k2 < out@.len() ==> dep_le(#[trigger] out@[k1], #[trigger] out@[k2]),
            forall|k: int| 0 <= k < out@.len() ==> orig.contains(#[trigger] out@[k]),
            forall|k: int| 0 <= k < rest@.len() ==> orig.contains(#[trigger] rest@[k]),
            forall|i: int, j: int|
                0 <= i < out@.len() && 0 <= j < rest@.len() ==> dep_le(
                    #[trigger] out@[i],
                    #[trigger] rest@[j],
                ),
        decreases rest@.len(),
    {
        let mut m: usize = 0;
        let n = rest.len();
        for j in 1..n
            invariant
                n == rest@.len(),
                0 < n,
                m < j,
                forall|jj: int| 0 <= jj < j ==> dep_le(rest@[m as int], #[trigger] rest@[jj]),
        {
            if dep_lt(&rest[j], &rest[m]) {
                m = j;
            }
        }
        let ghost pre = rest@;
        let ghost out_pre = out@;
        let x = rest.remove(m);
        proof {
            lemma_sort_step(out_pre, pre, m as int, orig);
            assert forall|j: int| 0 <= j < rest@.len() implies dep_le(x, #[trigger] rest@[j]) by {
                assert(rest@ == pre.remove(m as int));
                if j < m {
                    assert(rest@[j] == pre[j]);
                } else {
                    assert(rest@[j] == pre[j + 1]);
                }
            }
            assert forall|j: int| 0 <= j < rest@.len() implies orig.contains(
                #[trigger] rest@[j],
            ) by {
                if j < m {
                    assert(rest@[j] == pre[j]);
                } else {
                    assert(rest@[j] == pre[j + 1]);
                }
            }
            assert(orig.contains(x)) by {
                assert(x == pre[m as int]);
            }
        }
        out.push(x);
    }
    proof {
        broadcast use vstd::seq_lib::group_to_multiset_ensures;

        assert(rest@.to_multiset() =~= Multiset::<Event>::empty());
        assert(out@.to_multiset() =~= out@.to_multiset().add(rest@.to_multiset()));
    }
    out
}

/// The first chain position whose time is at or after `atime + tt`, the
/// earliest transfer a passenger arriving at `atime` can reach when the
/// move takes `tt` minutes.
fn find_first_fit(chain: &Vec<(u64, usize)>, atime: u64, tt: u64) -> (r: Option<usize>)
    ensures
        r matches Some(c) ==> first_at_or_after(chain@, atime + tt) == c as int,
        r is None ==> first_at_or_after(chain@, atime + tt) == -1,
        r matches Some(c) ==> c < chain@.len() && chain@[c as int].0 >= atime + tt,
{
    proof {
        crate::model::lemma_first_at_or_after_bounds(chain@, atime + tt);
    }
    let n = chain.len();
    for c in 0..n
        invariant
            n == chain@.len(),
            forall|cc: int| 0 <= cc < c ==> (#[trigger] chain@[cc]).0 < atime + tt,
    {
        if (chain[c].0 as u128) >= (atime as u128) + (tt as u128) {
            proof {
                crate::model::lemma_first_at_or_after_found(chain@, atime + tt, c as int);
            }
            return Some(c);
        }
    }
    proof {
        crate::model::lemma_first_at_or_after_missing(chain@, atime + tt);
    }
    None
}

/// Station `st` appears in `stations_in`, with id and transfer time.
pub open spec fn kept_station(stations_in: Seq<Station>, st: Station) -> bool {
    exists|j: int|
        0 <= j < stations_in.len() && st.id@ == (#[trigger] stations_in[j]).id@
            && st.transfer_time == stations_in[j].transfer_time
}

/// Some station in `stations` carries the id `sid`.
pub open spec fn covers_station(stations: Seq<Station>, sid: Seq<char>) -> bool {
    exists|i: int| 0 <= i < stations.len() && (#[trigger] stations[i]).id@ == sid
}

/// The known-station list is the input list with later repetitions of an id
/// dropped: ids are unique, every kept station is an input station, and
/// every input id is kept once.
pub open spec fn stations_from(stations: Seq<Station>, stations_in: Seq<Station>) -> bool {
    &&& stations_distinct(stations)
    &&& forall|i: int| 0 <= i < stations.len() ==> kept_station(stations_in, #[trigger] stations[i])
    &&& forall|j: int|
        0 <= j < stations_in.len() ==> covers_station(stations, (#[trigger] stations_in[j]).id@)
}

/// Some trip of the list carries this id.
pub open spec fn contains_trip_id(trips: Seq<Trip>, id: u64) -> bool {
    exists|k: int| 0 <= k < trips.len() && (#[trigger] trips[k]).id == id
}

/// A trip is accepted when it arrives no earlier than it departs, both its
/// stations are known, and no earlier accepted trip took its id.
pub open spec fn trip_accepted(stations: Seq<Station>, earlier: Seq<Trip>, t: Trip) -> bool {
    &&& t.departure <= t.arrival
    &&& station_index_of(stations, t.from_station@) != -1
    &&& station_index_of(stations, t.to_station@) != -1
    &&& !contains_trip_id(earlier, t.id)
}

/// The accepted trips, in input order.
pub open spec fn accepted_trips(stations: Seq<Station>, trips: Seq<Trip>) -> Seq<Trip>
    decreases trips.len(),
{
    if trips.len() == 0 {
        Seq::<Trip>::empty()
    } else {
        let earlier = accepted_trips(stations, trips.drop_last());
        if trip_accepted(stations, earlier, trips.last()) {
            earlier.push(trips.last())
        } else {
            earlier
        }
    }
}

/// The `k`-th accepted trip's exact mark on the graph: its arrival node
/// at position 2k, its departure node at 2k+1, its ride edge at position
/// k between them with its duration and capacity and nothing used, and
/// its arrival event record.
pub open spec fn ride_entry_ok(
    nodes: Seq<NodeWeight>,
    edges: Seq<(usize, usize, EdgeWeight)>,
    stations: Seq<Station>,
    arr_events: Seq<Event>,
    acc: Seq<Trip>,
    k: int,
) -> bool {
    let t = acc[k];
    &&& 2 * k + 1 < nodes.len()
    &&& k < edges.len()
    &&& k < arr_events.len()
    &&& nodes[2 * k] == (NodeWeight::Arrival {
        trip_id: t.id,
        time: t.arrival,
        station_id: t.to_station,
    })
    &&& nodes[2 * k + 1] == (NodeWeight::Departure {
        trip_id: t.id,
        time: t.departure,
        station_id: t.from_station,
    })
    &&& edges[k].0 == 2 * k + 1
    &&& edges[k].1 == 2 * k
    &&& edges[k].2 == (EdgeWeight::Ride {
        duration: (t.arrival - t.departure) as u64,
        capacity: t.capacity,
        utilization: 0,
    })
    &&& arr_events[k].0 == station_index_of(stations, t.to_station@)
    &&& arr_events[k].1 == t.arrival
    &&& arr_events[k].2 == 2 * k
    &&& arr_events[k].3 == t.id
}

/// The graph's ride edges are exactly the accepted trips' marks: one per
/// accepted trip, in order, and no ride edge beyond them.
pub open spec fn rides_exact(
    nodes: Seq<NodeWeight>,
    edges: Seq<(usize, usize, EdgeWeight)>,
    stations: Seq<Station>,
    arr_events: Seq<Event>,
    acc: Seq<Trip>,
) -> bool {
    &&& arr_events.len() == acc.len()
    &&& forall|k: int|
        0 <= k < acc.len() ==> #[trigger] ride_entry_ok(nodes, edges, stations, arr_events, acc, k)
    &&& forall|e: int| acc.len() <= e < edges.len() ==> !((#[trigger] edges[e]).2 is Ride)
}

/// Beyond the trip nodes the graph holds only transfers and sinks.
pub open spec fn later_nodes_kinds(nodes: Seq<NodeWeight>, from: int) -> bool {
    forall|i: int|
        from <= i < nodes.len() ==> ((#[trigger] nodes[i]) is Transfer || nodes[i] is MainArrival)
}

/// Ride edges pair the trip nodes one to one: no two ride edges share a
/// source or a target, so every departure node sends at most one ride and
/// every arrival node receives at most one.
pub proof fn lemma_ride_edges_one_to_one(
    nodes: Seq<NodeWeight>,
    edges: Seq<(usize, usize, EdgeWeight)>,
    stations: Seq<Station>,
    arr_events: Seq<Event>,
    acc: Seq<Trip>,
    e1: int,
    e2: int,
)
    requires
        rides_exact(nodes, edges, stations, arr_events, acc),
        0 <= e1 < edges.len(),
        0 <= e2 < edges.len(),
        edges[e1].2 is Ride,
        edges[e2].2 is Ride,
        edges[e1].0 == edges[e2].0 || edges[e1].1 == edges[e2].1,
    ensures
        e1 == e2,
{
    assert(e1 < acc.len());
    assert(e2 < acc.len());
    assert(ride_entry_ok(nodes, edges, stations, arr_events, acc, e1));
    assert(ride_entry_ok(nodes, edges, stations, arr_events, acc, e2));
}

/// Every departure node of the graph sends exactly one ride edge, its
/// accepted trip's.
pub proof fn lemma_departure_one_ride(
    nodes: Seq<NodeWeight>,
    edges: Seq<(usize, usize, EdgeWeight)>,
    stations: Seq<Station>,
    arr_events: Seq<Event>,
    acc: Seq<Trip>,
    i: int,
)
    requires
        rides_exact(nodes, edges, stations, arr_events, acc),
        later_nodes_kinds(nodes, 2 * acc.len() as int),
        0 <= i < nodes.len(),
        nodes[i] is Departure,
    ensures
        exists|e: int| 0 <= e < edges.len() && (#[trigger] edges[e]).0 == i && edges[e].2 is Ride,
        forall|e1: int, e2: int|
            0 <= e1 < edges.len() && (#[trigger] edges[e1]).0 == i && edges[e1].2 is Ride && 0
                <= e2 < edges.len() && (#[trigger] edges[e2]).0 == i && edges[e2].2 is Ride ==> e1
                == e2,
{
    assert(i < 2 * acc.len());
    vstd::arithmetic::div_mod::lemma_fundamental_div_mod(i, 2);
    let h = i / 2;
    assert(0 <= i % 2 < 2) by (nonlinear_arith)
        requires
            0 <= i,
    ;
    if i % 2 == 0 {
        assert(i == 2 * h);
        assert(ride_entry_ok(nodes, edges, stations, arr_events, acc, h));
        assert(nodes[2 * h] is Arrival);
        assert(false);
    } else {
        assert(i == 2 * h + 1);
        assert(ride_entry_ok(nodes, edges, stations, arr_events, acc, h));
        assert(edges[h].0 == i && edges[h].2 is Ride);
    }
    assert forall|e1: int, e2: int|
        0 <= e1 < edges.len() && (#[trigger] edges[e1]).0 == i && edges[e1].2 is Ride && 0 <= e2
            < edges.len() && (#[trigger] edges[e2]).0 == i && edges[e2].2 is Ride implies e1
        == e2 by {
        assert(e1 < acc.len());
        assert(e2 < acc.len());
        assert(ride_entry_ok(nodes, edges, stations, arr_events, acc, e1));
        assert(ride_entry_ok(nodes, edges, stations, arr_events, acc, e2));
    }
}

/// Every arrival node of the graph receives exactly one ride edge, its
/// accepted trip's.
pub proof fn lemma_arrival_one_ride(
    nodes: Seq<NodeWeight>,
    edges: Seq<(usize, usize, EdgeWeight)>,
    stations: Seq<Station>,
    arr_events: Seq<Event>,
    acc: Seq<Trip>,
    i: int,
)
    requires
        rides_exact(nodes, edges, stations, arr_events, acc),
        later_nodes_kinds(nodes, 2 * acc.len() as int),
        0 <= i < nodes.len(),
        nodes[i] is Arrival,
    ensures
        exists|e: int| 0 <= e < edges.len() && (#[trigger] edges[e]).1 == i && edges[e].2 is Ride,
        forall|e1: int, e2: int|
            0 <= e1 < edges.len() && (#[trigger] edges[e1]).1 == i && edges[e1].2 is Ride && 0
                <= e2 < edges.len() && (#[trigger] edges[e2]).1 == i && edges[e2].2 is Ride ==> e1
                == e2,
{
    assert(i < 2 * acc.len());
    vstd::arithmetic::div_mod::lemma_fundamental_div_mod(i, 2);
    let h = i / 2;
    assert(0 <= i % 2 < 2) by (nonlinear_arith)
        requires
            0 <= i,
    ;
    if i % 2 == 0 {
        assert(i == 2 * h);
        assert(ride_entry_ok(nodes, edges, stations, arr_events, acc, h));
        assert(edges[h].1 == i && edges[h].2 is Ride);
    } else {
        assert(i == 2 * h + 1);
        assert(ride_entry_ok(nodes, edges, stations, arr_events, acc, h));
        assert(nodes[2 * h + 1] is Departure);
        assert(false);
    }
    assert forall|e1: int, e2: int|
        0 <= e1 < edges.len() && (#[trigger] edges[e1]).1 == i && edges[e1].2 is Ride && 0 <= e2
            < edges.len() && (#[trigger] edges[e2]).1 == i && edges[e2].2 is Ride implies e1
        == e2 by {
        assert(e1 < acc.len());
        assert(e2 < acc.len());
        assert(ride_entry_ok(nodes, edges, stations, arr_events, acc, e1));
        assert(ride_entry_ok(nodes, edges, stations, arr_events, acc, e2));
    }
}

/// Appending edges that are not station-waits preserves the wait-edge
/// story.
proof fn lemma_waits_preserved(
    edges0: Seq<(usize, usize, EdgeWeight)>,
    edges2: Seq<(usize, usize, EdgeWeight)>,
    chains: Seq<Vec<(u64, usize)>>,
)
    requires
        edges0.len() <= edges2.len(),
        forall|e: int| 0 <= e < edges0.len() ==> #[trigger] edges2[e] == edges0[e],
        forall|e: int|
            edges0.len() <= e < edges2.len() ==> !((#[trigger] edges2[e]).2 is WaitAtStation),
        waits_are_adjacent(edges0, chains),
        waits_unique(edges0),
    ensures
        waits_are_adjacent(edges2, chains),
        waits_unique(edges2),
{
    assert forall|e: int|
        0 <= e < edges2.len() && (#[trigger] edges2[e]).2 is WaitAtStation implies adjacent_pair(
        chains,
        edges2[e].0 as int,
        edges2[e].1 as int,
    ) by {
        assert(e < edges0.len());
        assert(edges2[e] == edges0[e]);
        assert(adjacent_pair(chains, edges0[e].0 as int, edges0[e].1 as int));
    }
    assert forall|e1: int, e2: int|
        0 <= e1 < edges2.len() && 0 <= e2 < edges2.len() && edges2[e1].2 is WaitAtStation
            && edges2[e2].2 is WaitAtStation && edges2[e1].0 == edges2[e2].0 implies e1 == e2 by {
        assert(e1 < edges0.len());
        assert(e2 < edges0.len());
        assert(edges2[e1] == edges0[e1]);
        assert(edges2[e2] == edges0[e2]);
    }
}

/// Appending edges preserves the links of a chain.
proof fn lemma_linked_preserved(
    edges0: Seq<(usize, usize, EdgeWeight)>,
    edges2: Seq<(usize, usize, EdgeWeight)>,
    chain: Seq<(u64, usize)>,
)
    requires
        edges0.len() <= edges2.len(),
        forall|e: int| 0 <= e < edges0.len() ==> #[trigger] edges2[e] == edges0[e],
        chain_linked(edges0, chain),
    ensures
        chain_linked(edges2, chain),
{
    assert forall|c: int|
        0 <= c < chain.len() - 1 implies pair_linked(
        edges2,
        (#[trigger] chain[c]).1 as int,
        chain[c + 1].1 as int,
    ) by {
        assert(pair_linked(edges0, chain[c].1 as int, chain[c + 1].1 as int));
        let e0 = choose|e0: int|
            #[trigger] wait_between(edges0, chain[c].1 as int, chain[c + 1].1 as int, e0);
        assert(edges2[e0] == edges0[e0]);
        assert(wait_between(edges2, chain[c].1 as int, chain[c + 1].1 as int, e0));
    }
}

/// Edge `e` is a station-wait edge from node `a` to node `b`.
pub open spec fn wait_between(edges: Seq<(usize, usize, EdgeWeight)>, a: int, b: int, e: int) -> bool {
    &&& 0 <= e < edges.len()
    &&& edges[e].0 == a
    &&& edges[e].1 == b
    &&& edges[e].2 is WaitAtStation
}

/// Some station-wait edge runs from node `a` to node `b`.
pub open spec fn pair_linked(edges: Seq<(usize, usize, EdgeWeight)>, a: int, b: int) -> bool {
    exists|e: int| #[trigger] wait_between(edges, a, b, e)
}

/// Adjacent chain entries are linked by a station-wait edge.
pub open spec fn chain_linked(
    edges: Seq<(usize, usize, EdgeWeight)>,
    chain: Seq<(u64, usize)>,
) -> bool {
    forall|c: int|
        0 <= c < chain.len() - 1 ==> pair_linked(
            edges,
            (#[trigger] chain[c]).1 as int,
            chain[c + 1].1 as int,
        )
}

/// Nodes `a` and `b` sit in adjacent positions of one of the chains.
pub open spec fn adjacent_pair(chains: Seq<Vec<(u64, usize)>>, a: int, b: int) -> bool {
    exists|ci: int, c: int|
        0 <= ci < chains.len() && 0 <= c < chains[ci]@.len() - 1 && (#[trigger] chains[ci]@[c]).1
            == a && chains[ci]@[c + 1].1 == b
}

/// Every station-wait edge joins an adjacent pair of some chain.
pub open spec fn waits_are_adjacent(
    edges: Seq<(usize, usize, EdgeWeight)>,
    chains: Seq<Vec<(u64, usize)>>,
) -> bool {
    forall|e: int|
        0 <= e < edges.len() && (#[trigger] edges[e]).2 is WaitAtStation ==> adjacent_pair(
            chains,
            edges[e].0 as int,
            edges[e].1 as int,
        )
}

/// No two station-wait edges leave one node.
pub open spec fn waits_unique(edges: Seq<(usize, usize, EdgeWeight)>) -> bool {
    forall|e1: int, e2: int|
        0 <= e1 < edges.len() && 0 <= e2 < edges.len() && edges[e1].2 is WaitAtStation
            && edges[e2].2 is WaitAtStation && edges[e1].0 == edges[e2].0 ==> e1 == e2
}

/// Edge `e` is a boarding edge entering node `d`.
pub open spec fn board_into(edges: Seq<(usize, usize, EdgeWeight)>, d: int, e: int) -> bool {
    &&& 0 <= e < edges.len()
    &&& edges[e].1 == d
    &&& edges[e].2 is Board
}

/// Exactly one boarding edge enters node `i`.
pub open spec fn departure_boarded(edges: Seq<(usize, usize, EdgeWeight)>, i: int) -> bool {
    &&& exists|e: int| #[trigger] board_into(edges, i, e)
    &&& forall|e1: int, e2: int|
        board_into(edges, i, e1) && board_into(edges, i, e2) ==> e1 == e2
}

/// Some departure event names node `i`.
pub open spec fn dep_node_covered(deps: Seq<Event>, i: int) -> bool {
    exists|k: int| 0 <= k < deps.len() && (#[trigger] deps[k]).2 == i
}

/// A permutation of departure events keeps the departure nodes pairwise
/// distinct and keeps every node covered.
proof fn lemma_sorted_dep_events(dep0: Seq<Event>, sorted: Seq<Event>)
    requires
        sorted.to_multiset() == dep0.to_multiset(),
        forall|k1: int, k2: int| 0 <= k1 < k2 < dep0.len() ==> dep0[k1].2 != dep0[k2].2,
    ensures
        forall|k1: int, k2: int| 0 <= k1 < k2 < sorted.len() ==> sorted[k1].2 != sorted[k2].2,
        forall|i: int| #[trigger] dep_node_covered(dep0, i) ==> dep_node_covered(sorted, i),
{
    broadcast use vstd::seq_lib::group_to_multiset_ensures;

    assert(dep0.no_duplicates()) by {
        assert forall|k1: int, k2: int|
            0 <= k1 < dep0.len() && 0 <= k2 < dep0.len() && k1 != k2 implies dep0[k1]
            != dep0[k2] by {
            if k1 < k2 {
                assert(dep0[k1].2 != dep0[k2].2);
            } else {
                assert(dep0[k2].2 != dep0[k1].2);
            }
        }
    }
    dep0.lemma_multiset_has_no_duplicates();
    sorted.lemma_multiset_has_no_duplicates_conv();
    assert forall|k1: int, k2: int|
        0 <= k1 < k2 < sorted.len() implies sorted[k1].2 != sorted[k2].2 by {
        if sorted[k1].2 == sorted[k2].2 {
            assert(sorted.contains(sorted[k1]));
            assert(dep0.to_multiset().count(sorted[k1]) > 0);
            assert(dep0.contains(sorted[k1]));
            assert(sorted.contains(sorted[k2]));
            assert(dep0.to_multiset().count(sorted[k2]) > 0);
            assert(dep0.contains(sorted[k2]));
            let i1 = choose|i1: int| 0 <= i1 < dep0.len() && dep0[i1] == sorted[k1];
            let i2 = choose|i2: int| 0 <= i2 < dep0.len() && dep0[i2] == sorted[k2];
            assert(i1 == i2);
            assert(sorted[k1] == sorted[k2]);
        }
    }
    assert forall|i: int| #[trigger] dep_node_covered(dep0, i) implies dep_node_covered(
        sorted,
        i,
    ) by {
        let k = choose|k: int| 0 <= k < dep0.len() && (#[trigger] dep0[k]).2 == i;
        assert(dep0.contains(dep0[k]));
        assert(sorted.to_multiset().count(dep0[k]) > 0);
        assert(sorted.contains(dep0[k]));
        let j = choose|j: int| 0 <= j < sorted.len() && sorted[j] == dep0[k];
        assert(sorted[j].2 == i);
    }
}

/// Every aggregating sink node of the graph is one of the indexed ones.
pub open spec fn mains_covered(nodes: Seq<NodeWeight>, mains: Seq<usize>) -> bool {
    forall|i: int|
        0 <= i < nodes.len() && (#[trigger] nodes[i]) is MainArrival ==> exists|si: int|
            0 <= si < mains.len() && #[trigger] mains[si] == i
}

impl Model {
    /// Builds the time-expanded timetable graph in four deterministic
    /// passes: one ride edge per accepted trip; per station the platform
    /// chain with boarding, in-train and station-wait edges; per station
    /// the aggregating sink with the relation and alighting edges; and per
    /// footpath the walking edges. Records naming unknown stations,
    /// repeating a trip id, or arriving before departing are skipped and
    /// counted. The result is well formed with nothing utilized yet, the
    /// ride edges are exactly the accepted trips' (`rides_exact`), every
    /// departure node has exactly one boarding edge, every arrival exactly
    /// one ride in and one sink relation, adjacent chain entries are
    /// linked by exactly the station-wait edges, and beyond the trip
    /// nodes the graph holds only transfers and sinks.
    #[verifier::rlimit(100)]
    #[verifier::spinoff_prover]
    pub fn with_stations_footpaths_and_trips(
        stations_in: &Vec<Station>,
        trips: &Vec<Trip>,
        footpaths: &Vec<Footpath>,
    ) -> (r: (Model, BuildStats))
        requires
            stations_in@.len() + 3 * trips@.len() <= max_index(),
            6 * trips@.len() + footpaths@.len() * trips@.len() <= max_index(),
        ensures
            r.0.wf(),
            edges_unused(r.0.edges()),
            stations_from(r.0.stations@, stations_in@),
            rides_exact(
                r.0.nodes(),
                r.0.edges(),
                r.0.stations@,
                r.0.arrivals@,
                accepted_trips(r.0.stations@, trips@),
            ),
            mains_covered(r.0.nodes(), r.0.station_arrival_main_node_indices@),
            forall|i: int|
                0 <= i < r.0.nodes().len() && (#[trigger] r.0.nodes()[i]) is Departure
                    ==> departure_boarded(r.0.edges(), i),
            forall|ci: int|
                0 <= ci < r.0.stations_departures@.len() ==> chain_linked(
                    r.0.edges(),
                    (#[trigger] r.0.stations_departures@[ci])@,
                ),
            waits_are_adjacent(r.0.edges(), r.0.stations_departures@),
            waits_unique(r.0.edges()),
            later_nodes_kinds(
                r.0.nodes(),
                2 * accepted_trips(r.0.stations@, trips@).len() as int,
            ),
    {
        let ghost nt_g = trips@.len();
        let ghost ns_g = stations_in@.len();
        let ghost nf_g = footpaths@.len();
        proof {
            vstd::arithmetic::mul::lemma_mul_nonnegative(nf_g as int, nt_g as int);
            assert(6 * nt_g <= max_index());
        }
        // Known stations: drop later repetitions of an id.
        let mut stations: Vec<Station> = Vec::new();
        let ns = stations_in.len();
        let mut j: usize = 0;
        while j < ns
            invariant
                j <= ns,
                ns == stations_in@.len(),
                stations@.len() <= j,
                stations_distinct(stations@),
                forall|i: int|
                    0 <= i < stations@.len() ==> kept_station(
                        stations_in@,
                        #[trigger] stations@[i],
                    ),
                forall|jj: int|
                    0 <= jj < j ==> covers_station(stations@, (#[trigger] stations_in@[jj]).id@),
            decreases ns - j,
        {
            let st = &stations_in[j];
            let ghost st0 = stations@;
            match station_lookup(&stations, &st.id) {
                Some(si) => {
                    proof {
                        assert(stations@[si as int].id@ == stations_in@[j as int].id@);
                        assert forall|jj: int|
                            0 <= jj < j + 1 implies covers_station(
                            stations@,
                            (#[trigger] stations_in@[jj]).id@,
                        ) by {
                            if jj == j {
                                assert(stations_in@[jj].id@ == stations@[si as int].id@);
                            }
                        }
                    }
                },
                None => {
                    stations.push(Station { id: st.id.clone(), transfer_time: st.transfer_time });
                    proof {
                        let m = st0.len() as int;
                        assert(stations@[m].id@ == stations_in@[j as int].id@);
                        assert(stations@[m].transfer_time == stations_in@[j as int].transfer_time);
                        assert forall|i: int|
                            0 <= i < stations@.len() implies kept_station(
                            stations_in@,
                            #[trigger] stations@[i],
                        ) by {
                            if i < m {
                                assert(stations@[i] == st0[i]);
                                assert(kept_station(stations_in@, st0[i]));
                            } else {
                                assert(stations@[i].id@ == stations_in@[j as int].id@);
                                assert(stations@[i].transfer_time == stations_in@[j as int].transfer_time);
                            }
                        }
                        assert forall|jj: int|
                            0 <= jj < j + 1 implies covers_station(
                            stations@,
                            (#[trigger] stations_in@[jj]).id@,
                        ) by {
                            if jj < j {
                                assert(covers_station(st0, stations_in@[jj].id@));
                                let i = choose|i: int|
                                    0 <= i < st0.len() && (#[trigger] st0[i]).id@
                                        == stations_in@[jj].id@;
                                assert(stations@[i] == st0[i]);
                                assert(stations@[i].id@ == stations_in@[jj].id@);
                            } else {
                                assert(stations_in@[jj].id@ == stations@[m].id@);
                            }
                        }
                    }
                },
            }
            j = j + 1;
        }
        assert(stations_from(stations@, stations_in@));
        let nst = stations.len();

        // Trips pass: an arrival and a departure node and a ride edge per
        // accepted trip.
        let mut g = graph_new();
        let mut arr_events: Vec<Event> = Vec::new();
        let mut dep_events: Vec<Event> = Vec::new();
        let mut skipped_trips: u64 = 0;
        let nt = trips.len();
        proof {
            assert(trips@.subrange(0, 0) =~= Seq::<Trip>::empty());
        }
        for ti in 0..nt
            invariant
                nt == trips@.len(),
                nt == nt_g,
                ns_g == stations_in@.len(),
                nst == stations@.len(),
                ns_g + 3 * nt_g <= max_index(),
                6 * nt_g <= max_index(),
                stations@.len() <= ns_g,
                stations_from(stations@, stations_in@),
                arr_events@.len() == dep_events@.len(),
                arr_events@.len() <= ti,
                graph_nodes(&g).len() == 2 * arr_events@.len(),
                graph_edges(&g).len() == arr_events@.len(),
                events_ok(graph_nodes(&g), stations@, arr_events@, dep_events@),
                wf_graph(graph_nodes(&g), graph_edges(&g)),
                edges_unused(graph_edges(&g)),
                forall|i: int|
                    0 <= i < graph_nodes(&g).len() ==> (#[trigger] graph_nodes(&g)[i]) is Departure
                        || graph_nodes(&g)[i] is Arrival,
                forall|e: int|
                    0 <= e < graph_edges(&g).len() ==> (#[trigger] graph_edges(&g)[e]).2 is Ride,
                forall|k1: int, k2: int|
                    0 <= k1 < k2 < dep_events@.len() ==> dep_events@[k1].2 != dep_events@[k2].2,
                forall|i: int|
                    0 <= i < graph_nodes(&g).len() && (#[trigger] graph_nodes(&g)[i]) is Departure
                        ==> dep_node_covered(dep_events@, i),
                rides_exact(
                    graph_nodes(&g),
                    graph_edges(&g),
                    stations@,
                    arr_events@,
                    accepted_trips(stations@, trips@.subrange(0, ti as int)),
                ),
                skipped_trips <= ti,
        {
            let t = &trips[ti];
            let ghost acc_pre = accepted_trips(stations@, trips@.subrange(0, ti as int));
            proof {
                assert(trips@.subrange(0, ti + 1).drop_last() =~= trips@.subrange(0, ti as int));
                assert(trips@.subrange(0, ti + 1).last() == trips@[ti as int]);
            }
            if t.departure <= t.arrival && !has_trip(&arr_events, t.id) {
                proof {
                    crate::model::lemma_trip_index_of_none(arr_events@, t.id);
                    assert(!contains_trip_id(acc_pre, t.id)) by {
                        if contains_trip_id(acc_pre, t.id) {
                            let k = choose|k: int|
                                0 <= k < acc_pre.len() && (#[trigger] acc_pre[k]).id == t.id;
                            assert(ride_entry_ok(
                                graph_nodes(&g),
                                graph_edges(&g),
                                stations@,
                                arr_events@,
                                acc_pre,
                                k,
                            ));
                            assert(arr_events@[k].3 == t.id);
                        }
                    }
                }
                let fo = station_lookup(&stations, &t.from_station);
                let to = station_lookup(&stations, &t.to_station);
                proof {
                    crate::model::lemma_station_index_of_bounds(stations@, t.from_station@);
                    crate::model::lemma_station_index_of_bounds(stations@, t.to_station@);
                    vstd::std_specs::vec::axiom_spec_len(&stations);
                }
                let ghost nodes0 = graph_nodes(&g);
                let ghost edges0 = graph_edges(&g);
                let ghost arr0 = arr_events@;
                let ghost dep0v = dep_events@;
                match (fo, to) {
                    (Some(fsi), Some(tsi)) => {
                        let a_node = graph_add_node(
                            &mut g,
                            NodeWeight::Arrival {
                                trip_id: t.id,
                                time: t.arrival,
                                station_id: t.to_station.clone(),
                            },
                        );
                        arr_events.push((tsi, t.arrival, a_node, t.id));
                        let d_node = graph_add_node(
                            &mut g,
                            NodeWeight::Departure {
                                trip_id: t.id,
                                time: t.departure,
                                station_id: t.from_station.clone(),
                            },
                        );
                        dep_events.push((fsi, t.departure, d_node, t.id));
                        graph_add_edge(
                            &mut g,
                            d_node,
                            a_node,
                            EdgeWeight::Ride {
                                duration: t.arrival - t.departure,
                                capacity: t.capacity,
                                utilization: 0,
                            },
                        );
                        proof {
                            let nodes2 = graph_nodes(&g);
                            let edges2 = graph_edges(&g);
                            assert forall|e: int|
                                0 <= e < edges2.len() implies wf_edge(nodes2, edges2, e) by {
                                if e < edges0.len() {
                                    assert(wf_edge(nodes0, edges0, e));
                                    assert(edges2[e] == edges0[e]);
                                } else {
                                    assert(edges2[e] == edges2.last());
                                }
                            }
                            assert forall|k2: int|
                                0 <= k2 < arr_events@.len() implies arr_event_ok(
                                nodes2,
                                stations@,
                                #[trigger] arr_events@[k2],
                            ) by {
                                if k2 < arr0.len() {
                                    assert(arr_event_ok(nodes0, stations@, arr0[k2]));
                                    assert(arr_events@[k2] == arr0[k2]);
                                }
                            }
                            assert forall|k2: int|
                                0 <= k2 < dep_events@.len() implies dep_event_ok(
                                nodes2,
                                stations@,
                                #[trigger] dep_events@[k2],
                            ) by {
                                if k2 < dep0v.len() {
                                    assert(dep_event_ok(nodes0, stations@, dep0v[k2]));
                                    assert(dep_events@[k2] == dep0v[k2]);
                                }
                            }
                            assert forall|i: int|
                                0 <= i < nodes2.len() && (#[trigger] nodes2[i]) is Arrival
                                implies exists|k2: int|
                                0 <= k2 < arr_events@.len() && (#[trigger] arr_events@[k2]).2
                                    == i by {
                                if i < nodes0.len() {
                                    assert(nodes2[i] == nodes0[i]);
                                    let k2 = choose|k2: int|
                                        0 <= k2 < arr0.len() && (#[trigger] arr0[k2]).2 == i;
                                    assert(arr_events@[k2] == arr0[k2]);
                                } else if i == nodes0.len() {
                                    assert(arr_events@[arr0.len() as int].2 == i);
                                }
                            }
                            assert forall|i: int|
                                0 <= i < nodes2.len() && (#[trigger] nodes2[i]) is Departure
                                implies dep_node_covered(dep_events@, i) by {
                                if i < nodes0.len() {
                                    assert(nodes2[i] == nodes0[i]);
                                    assert(dep_node_covered(dep0v, i));
                                    let k2 = choose|k2: int|
                                        0 <= k2 < dep0v.len() && (#[trigger] dep0v[k2]).2 == i;
                                    assert(dep_events@[k2] == dep0v[k2]);
                                    assert(dep_events@[k2].2 == i);
                                } else {
                                    assert(dep_events@[dep0v.len() as int].2 == i);
                                }
                            }
                            let acc_post = accepted_trips(
                                stations@,
                                trips@.subrange(0, ti + 1),
                            );
                            assert(acc_post == acc_pre.push(trips@[ti as int]));
                            assert forall|k: int|
                                0 <= k < acc_post.len() implies #[trigger] ride_entry_ok(
                                nodes2,
                                edges2,
                                stations@,
                                arr_events@,
                                acc_post,
                                k,
                            ) by {
                                if k < acc_pre.len() {
                                    assert(ride_entry_ok(
                                        nodes0,
                                        edges0,
                                        stations@,
                                        arr_events@.subrange(0, arr0.len() as int),
                                        acc_pre,
                                        k,
                                    )) by {
                                        assert(arr_events@.subrange(0, arr0.len() as int)
                                            =~= arr0);
                                        assert(ride_entry_ok(
                                            nodes0,
                                            edges0,
                                            stations@,
                                            arr0,
                                            acc_pre,
                                            k,
                                        ));
                                    }
                                    assert(nodes2[2 * k] == nodes0[2 * k]);
                                    assert(nodes2[2 * k + 1] == nodes0[2 * k + 1]);
                                    assert(edges2[k] == edges0[k]);
                                    assert(arr_events@[k] == arr0[k]);
                                    assert(acc_post[k] == acc_pre[k]);
                                } else {
                                    assert(acc_post[k] == trips@[ti as int]);
                                    assert(k == arr0.len());
                                    assert(a_node == 2 * k);
                                    assert(d_node == 2 * k + 1);
                                    assert(nodes2[2 * k] == (NodeWeight::Arrival {
                                        trip_id: t.id,
                                        time: t.arrival,
                                        station_id: t.to_station,
                                    }));
                                    assert(nodes2[2 * k + 1] == (NodeWeight::Departure {
                                        trip_id: t.id,
                                        time: t.departure,
                                        station_id: t.from_station,
                                    }));
                                    assert(edges2[k].0 == 2 * k + 1);
                                    assert(edges2[k].1 == 2 * k);
                                    assert(edges2[k].2 == (EdgeWeight::Ride {
                                        duration: (t.arrival - t.departure) as u64,
                                        capacity: t.capacity,
                                        utilization: 0,
                                    }));
                                    assert(arr_events@[k] == (tsi, t.arrival, a_node, t.id));
                                    let si = station_index_of(stations@, t.to_station@);
                                    assert(si != -1);
                                    assert(tsi == si as usize);
                                    assert(0 <= si);
                                    assert(si < stations@.len());
                                    assert(stations@.len() <= usize::MAX);
                                    assert(tsi as int == si);
                                    assert(arr_events@[k].0 == station_index_of(
                                        stations@,
                                        t.to_station@,
                                    ));
                                }
                            }
                            assert(rides_exact(
                                nodes2,
                                edges2,
                                stations@,
                                arr_events@,
                                acc_post,
                            ));
                        }
                    },
                    _ => {
                        proof {
                            assert(!trip_accepted(stations@, acc_pre, trips@[ti as int]));
                            assert(accepted_trips(stations@, trips@.subrange(0, ti + 1))
                                == acc_pre);
                        }
                        skipped_trips = skipped_trips + 1;
                    },
                }
            } else {
                proof {
                    assert(!trip_accepted(stations@, acc_pre, trips@[ti as int])) by {
                        if t.departure <= t.arrival {
                            crate::model::lemma_trip_index_of_bounds(arr_events@, t.id);
                            let idx = trip_index_of(arr_events@, t.id);
                            assert(arr_events@[idx].3 == t.id);
                            let k = idx;
                            assert(ride_entry_ok(
                                graph_nodes(&g),
                                graph_edges(&g),
                                stations@,
                                arr_events@,
                                acc_pre,
                                k,
                            ));
                            assert(acc_pre[k].id == t.id);
                            assert(contains_trip_id(acc_pre, t.id));
                        }
                    }
                    assert(accepted_trips(stations@, trips@.subrange(0, ti + 1)) == acc_pre);
                }
                skipped_trips = skipped_trips + 1;
            }
        }
        let ghost a_total = arr_events@.len();
        let ghost acc_all = accepted_trips(stations@, trips@);
        let ghost nodes_a = graph_nodes(&g);
        let ghost edges_a = graph_edges(&g);
        proof {
            assert(trips@.subrange(0, nt as int) =~= trips@);
            assert(rides_exact(nodes_a, edges_a, stations@, arr_events@, acc_all));
            assert(nodes_a.len() == 2 * acc_all.len());
            assert(later_nodes_kinds(graph_nodes(&g), nodes_a.len() as int));
        }

        // Platform chains: sort the departures by station and time, then
        // one transfer node per departure, linked along each station.
        let ghost dep0 = dep_events@;
        let sorted = sort_dep_events(dep_events);
        proof {
            broadcast use vstd::seq_lib::group_to_multiset_ensures;

            assert forall|k: int|
                0 <= k < sorted@.len() implies dep_event_ok(
                graph_nodes(&g),
                stations@,
                #[trigger] sorted@[k],
            ) && (#[trigger] sorted@[k]).2 < nodes_a.len() by {
                assert(dep0.contains(sorted@[k]));
                let jj = choose|jj: int| 0 <= jj < dep0.len() && dep0[jj] == sorted@[k];
                assert(dep_event_ok(graph_nodes(&g), stations@, dep0[jj]));
            }
            lemma_sorted_dep_events(dep0, sorted@);
            assert forall|i: int|
                0 <= i < nodes_a.len() && (#[trigger] nodes_a[i]) is Departure
                implies dep_node_covered(sorted@, i) by {
                assert(dep_node_covered(dep0, i));
            }
        }
        proof {
            assert forall|j: int, e: int|
                0 <= j < sorted@.len() implies !(#[trigger] board_into(
                graph_edges(&g),
                sorted@[j].2 as int,
                e,
            )) by {
                if 0 <= e < graph_edges(&g).len() {
                    assert(graph_edges(&g)[e].2 is Ride);
                }
            }
        }
        let mut chains: Vec<Vec<(u64, usize)>> = Vec::new();
        proof {
            assert forall|e: int|
                0 <= e < graph_edges(&g).len() implies !((#[trigger] graph_edges(&g)[e]).2
                    is WaitAtStation) by {
                assert(graph_edges(&g)[e].2 is Ride);
            }
        }
        let mut k: usize = 0;
        let n_sorted = sorted.len();
        for si in 0..nst
            invariant
                nst == stations@.len(),
                ns_g + 3 * nt_g <= max_index(),
                6 * nt_g <= max_index(),
                nst <= ns_g,
                a_total <= nt_g,
                stations_from(stations@, stations_in@),
                chains@.len() == si,
                k <= n_sorted,
                n_sorted == sorted@.len(),
                sorted@.len() == a_total,
                arr_events@.len() == a_total,
                graph_nodes(&g).len() == 2 * a_total + k,
                graph_edges(&g).len() <= a_total + 3 * k,
                forall|k1: int, k2: int|
                    0 <= k1 <= k2 < sorted@.len() ==> dep_le(
                        #[trigger] sorted@[k1],
                        #[trigger] sorted@[k2],
                    ),
                forall|k1: int, k2: int|
                    0 <= k1 < k2 < sorted@.len() ==> sorted@[k1].2 != sorted@[k2].2,
                forall|j: int| 0 <= j < sorted@.len() ==> (#[trigger] sorted@[j]).2 < nodes_a.len(),
                forall|j: int|
                    0 <= j < k ==> departure_boarded(
                        graph_edges(&g),
                        (#[trigger] sorted@[j]).2 as int,
                    ),
                forall|j: int, e: int|
                    k <= j < sorted@.len() ==> !(#[trigger] board_into(
                        graph_edges(&g),
                        sorted@[j].2 as int,
                        e,
                    )),
                forall|j: int| 0 <= j < k ==> (#[trigger] sorted@[j]).0 < si,
                forall|j: int| k <= j < sorted@.len() ==> (#[trigger] sorted@[j]).0 >= si,
                events_ok(graph_nodes(&g), stations@, arr_events@, sorted@),
                graph_nodes(&g).subrange(0, nodes_a.len() as int) == nodes_a,
                graph_edges(&g).subrange(0, edges_a.len() as int) == edges_a,
                nodes_a.len() <= graph_nodes(&g).len(),
                edges_a.len() <= graph_edges(&g).len(),
                later_nodes_kinds(graph_nodes(&g), nodes_a.len() as int),
                forall|i: int|
                    0 <= i < nodes_a.len() && (#[trigger] nodes_a[i]) is Departure
                        ==> dep_node_covered(sorted@, i),
                arr_events@.len() == acc_all.len(),
                forall|e: int|
                    edges_a.len() <= e < graph_edges(&g).len() ==> !((
                    #[trigger] graph_edges(&g)[e]).2 is Ride),
                wf_graph(graph_nodes(&g), graph_edges(&g)),
                edges_unused(graph_edges(&g)),
                forall|i: int|
                    0 <= i < graph_nodes(&g).len() ==> (#[trigger] graph_nodes(&g)[i]) is Departure
                        || graph_nodes(&g)[i] is Arrival || graph_nodes(&g)[i] is Transfer,
                forall|ci: int|
                    0 <= ci < si ==> chain_ok(
                        graph_nodes(&g),
                        stations@[ci].id@,
                        (#[trigger] chains@[ci])@,
                    ),
                forall|ci: int| 0 <= ci < si ==> chain_sorted((#[trigger] chains@[ci])@),
                forall|ci: int|
                    0 <= ci < si ==> chain_linked(graph_edges(&g), (#[trigger] chains@[ci])@),
                waits_are_adjacent(graph_edges(&g), chains@),
                waits_unique(graph_edges(&g)),
                transfers_covered(graph_nodes(&g), chains@),
                forall|e: int|
                    0 <= e < graph_edges(&g).len() ==> {
                        let w = (#[trigger] graph_edges(&g)[e]).2;
                        w is Ride || w is Board || w is WaitInTrain || w is WaitAtStation
                    },
        {
            let mut chain: Vec<(u64, usize)> = Vec::new();
            proof {
                assert forall|e: int|
                    0 <= e < graph_edges(&g).len() && (#[trigger] graph_edges(&g)[e]).2
                        is WaitAtStation implies adjacent_pair(
                    chains@.push(chain),
                    graph_edges(&g)[e].0 as int,
                    graph_edges(&g)[e].1 as int,
                ) by {
                    assert(adjacent_pair(
                        chains@,
                        graph_edges(&g)[e].0 as int,
                        graph_edges(&g)[e].1 as int,
                    ));
                    let (ci, c) = choose|ci: int, c: int|
                        0 <= ci < chains@.len() && 0 <= c < chains@[ci]@.len() - 1 && (
                        #[trigger] chains@[ci]@[c]).1 == graph_edges(&g)[e].0 && chains@[ci]@[c
                            + 1].1 == graph_edges(&g)[e].1;
                    assert(chains@.push(chain)[ci] == chains@[ci]);
                    assert(chains@.push(chain)[ci]@[c].1 == graph_edges(&g)[e].0
                        && chains@.push(chain)[ci]@[c + 1].1 == graph_edges(&g)[e].1);
                }
                let nodes_c = graph_nodes(&g);
                assert forall|i: int|
                    0 <= i < nodes_c.len() && (#[trigger] nodes_c[i]) is Transfer implies exists|
                    ci: int,
                    kk: int,
                |
                    0 <= ci < chains@.push(chain).len() && 0 <= kk < chains@.push(chain)[ci]@.len()
                        && (#[trigger] chains@.push(chain)[ci]@[kk]).1 == i by {
                    let (ci, kk) = choose|ci: int, kk: int|
                        0 <= ci < chains@.len() && 0 <= kk < chains@[ci]@.len() && (
                        #[trigger] chains@[ci]@[kk]).1 == i;
                    assert(chains@.push(chain)[ci] == chains@[ci]);
                }
            }
            while k < n_sorted && sorted[k].0 == si
                invariant
                    nst == stations@.len(),
                    si < nst,
                    ns_g + 3 * nt_g <= max_index(),
                    6 * nt_g <= max_index(),
                    nst <= ns_g,
                    a_total <= nt_g,
                    chains@.len() == si,
                    k <= n_sorted,
                    n_sorted == sorted@.len(),
                    sorted@.len() == a_total,
                    arr_events@.len() == a_total,
                    graph_nodes(&g).len() == 2 * a_total + k,
                    graph_edges(&g).len() <= a_total + 3 * k,
                    forall|k1: int, k2: int|
                        0 <= k1 <= k2 < sorted@.len() ==> dep_le(
                            #[trigger] sorted@[k1],
                            #[trigger] sorted@[k2],
                        ),
                    forall|k1: int, k2: int|
                        0 <= k1 < k2 < sorted@.len() ==> sorted@[k1].2 != sorted@[k2].2,
                    forall|j: int|
                        0 <= j < sorted@.len() ==> (#[trigger] sorted@[j]).2 < nodes_a.len(),
                    forall|j: int|
                        0 <= j < k ==> departure_boarded(
                            graph_edges(&g),
                            (#[trigger] sorted@[j]).2 as int,
                        ),
                    forall|j: int, e: int|
                        k <= j < sorted@.len() ==> !(#[trigger] board_into(
                            graph_edges(&g),
                            sorted@[j].2 as int,
                            e,
                        )),
                    forall|j: int| 0 <= j < k ==> (#[trigger] sorted@[j]).0 <= si,
                    forall|j: int| k <= j < sorted@.len() ==> (#[trigger] sorted@[j]).0 >= si,
                    events_ok(graph_nodes(&g), stations@, arr_events@, sorted@),
                    graph_nodes(&g).subrange(0, nodes_a.len() as int) == nodes_a,
                    graph_edges(&g).subrange(0, edges_a.len() as int) == edges_a,
                    nodes_a.len() <= graph_nodes(&g).len(),
                    edges_a.len() <= graph_edges(&g).len(),
                    later_nodes_kinds(graph_nodes(&g), nodes_a.len() as int),
                    forall|i: int|
                        0 <= i < nodes_a.len() && (#[trigger] nodes_a[i]) is Departure
                            ==> dep_node_covered(sorted@, i),
                    arr_events@.len() == acc_all.len(),
                    forall|e: int|
                        edges_a.len() <= e < graph_edges(&g).len() ==> !((
                        #[trigger] graph_edges(&g)[e]).2 is Ride),
                    wf_graph(graph_nodes(&g), graph_edges(&g)),
                    edges_unused(graph_edges(&g)),
                    forall|i: int|
                        0 <= i < graph_nodes(&g).len() ==> (
                        #[trigger] graph_nodes(&g)[i]) is Departure || graph_nodes(&g)[i] is Arrival
                            || graph_nodes(&g)[i] is Transfer,
                    forall|ci: int|
                        0 <= ci < si ==> chain_ok(
                            graph_nodes(&g),
                            stations@[ci].id@,
                            (#[trigger] chains@[ci])@,
                        ),
                    forall|ci: int| 0 <= ci < si ==> chain_sorted((#[trigger] chains@[ci])@),
                    chain_ok(graph_nodes(&g), stations@[si as int].id@, chain@),
                    chain_sorted(chain@),
                    forall|ci: int|
                        0 <= ci < si ==> chain_linked(graph_edges(&g), (#[trigger] chains@[ci])@),
                    chain_linked(graph_edges(&g), chain@),
                    waits_are_adjacent(graph_edges(&g), chains@.push(chain)),
                    waits_unique(graph_edges(&g)),
                    chain@.len() > 0 ==> forall|e: int|
                        0 <= e < graph_edges(&g).len() && (#[trigger] graph_edges(&g)[e]).2
                            is WaitAtStation ==> graph_edges(&g)[e].0 != chain@.last().1,
                    forall|c: int, j: int|
                        0 <= c < chain@.len() && k <= j < sorted@.len() && (
                        #[trigger] sorted@[j]).0 == si ==> (#[trigger] chain@[c]).0 <= sorted@[j].1,
                    transfers_covered(graph_nodes(&g), chains@.push(chain)),
                    forall|e: int|
                        0 <= e < graph_edges(&g).len() ==> {
                            let w = (#[trigger] graph_edges(&g)[e]).2;
                            w is Ride || w is Board || w is WaitInTrain || w is WaitAtStation
                        },
                decreases n_sorted - k,
            {
                let ev = sorted[k];
                let dtime = ev.1;
                let dnode = ev.2;
                let dtrip = ev.3;
                let ghost nodes0 = graph_nodes(&g);
                let ghost edges0 = graph_edges(&g);
                let ghost chain0 = chain@;
                let ghost chain_vec0 = chain;
                proof {
                    assert(dep_event_ok(nodes0, stations@, sorted@[k as int]));
                }
                let tn = graph_add_node(
                    &mut g,
                    NodeWeight::Transfer { time: dtime, station_id: stations[si].id.clone() },
                );
                graph_add_edge(&mut g, tn, dnode, EdgeWeight::Board);
                match find_arrival_at(&arr_events, si, dtrip) {
                    Some(p) => {
                        let atime = p.0;
                        let anode = p.1;
                        if atime <= dtime {
                            graph_add_edge(
                                &mut g,
                                anode,
                                dnode,
                                EdgeWeight::WaitInTrain { duration: dtime - atime },
                            );
                        }
                    },
                    None => {},
                }
                if chain.len() > 0 {
                    let prev = chain[chain.len() - 1];
                    graph_add_edge(
                        &mut g,
                        prev.1,
                        tn,
                        EdgeWeight::WaitAtStation { duration: dtime - prev.0 },
                    );
                }
                proof {
                    let nodes2 = graph_nodes(&g);
                    let edges2 = graph_edges(&g);
                    assert forall|i: int|
                        0 <= i < nodes_a.len() implies graph_nodes(&g).subrange(
                            0,
                            nodes_a.len() as int,
                        )[i] == nodes_a[i] by {
                        assert(nodes0.subrange(0, nodes_a.len() as int)[i] == nodes_a[i]);
                        assert(graph_nodes(&g)[i] == nodes0[i]);
                    }
                    assert(graph_nodes(&g).subrange(0, nodes_a.len() as int) =~= nodes_a);
                    assert forall|i: int|
                        nodes_a.len() <= i < graph_nodes(&g).len() implies ((
                        #[trigger] graph_nodes(&g)[i]) is Transfer || graph_nodes(&g)[i]
                            is MainArrival) by {
                        if i < nodes0.len() {
                            assert(graph_nodes(&g)[i] == nodes0[i]);
                            assert(nodes0[i] is Transfer || nodes0[i] is MainArrival);
                        }
                    }
                    assert forall|i: int|
                        0 <= i < edges_a.len() implies graph_edges(&g).subrange(
                            0,
                            edges_a.len() as int,
                        )[i] == edges_a[i] by {
                        assert(edges0.subrange(0, edges_a.len() as int)[i] == edges_a[i]);
                        assert(graph_edges(&g)[i] == edges0[i]);
                    }
                    assert(graph_edges(&g).subrange(0, edges_a.len() as int) =~= edges_a);
                    assert forall|e: int|
                        edges_a.len() <= e < edges2.len() implies !((#[trigger] edges2[e]).2
                            is Ride) by {
                        if e < edges0.len() {
                            assert(!(edges0[e].2 is Ride));
                            assert(edges2[e] == edges0[e]);
                        }
                    }
                    assert forall|e: int|
                        0 <= e < edges2.len() implies wf_edge(nodes2, edges2, e) by {
                        if e < edges0.len() {
                            assert(wf_edge(nodes0, edges0, e));
                            assert(edges2[e] == edges0[e]);
                        }
                    }
                    assert forall|k2: int|
                        0 <= k2 < arr_events@.len() implies arr_event_ok(
                        nodes2,
                        stations@,
                        #[trigger] arr_events@[k2],
                    ) by {
                        assert(arr_event_ok(nodes0, stations@, arr_events@[k2]));
                    }
                    assert forall|k2: int|
                        0 <= k2 < sorted@.len() implies dep_event_ok(
                        nodes2,
                        stations@,
                        #[trigger] sorted@[k2],
                    ) by {
                        assert(dep_event_ok(nodes0, stations@, sorted@[k2]));
                    }
                    // Station-wait bookkeeping: the only new wait edge
                    // leaves the previous chain end, which had none; the
                    // fresh transfer has none either.
                    assert forall|e1: int, e2: int|
                        0 <= e1 < edges2.len() && 0 <= e2 < edges2.len() && edges2[e1].2
                            is WaitAtStation && edges2[e2].2 is WaitAtStation && edges2[e1].0
                            == edges2[e2].0 implies e1 == e2 by {
                        if e1 < edges0.len() && e2 < edges0.len() {
                            assert(edges2[e1] == edges0[e1]);
                            assert(edges2[e2] == edges0[e2]);
                        } else if e1 >= edges0.len() && e2 < edges0.len() {
                            assert(chain0.len() > 0);
                            assert(edges2[e1].0 == chain0.last().1);
                            assert(edges2[e2] == edges0[e2]);
                        } else if e1 < edges0.len() && e2 >= edges0.len() {
                            assert(chain0.len() > 0);
                            assert(edges2[e2].0 == chain0.last().1);
                            assert(edges2[e1] == edges0[e1]);
                        }
                    }
                    assert forall|e: int|
                        0 <= e < edges2.len() && (#[trigger] edges2[e]).2 is WaitAtStation
                        implies edges2[e].0 != tn by {
                        if e < edges0.len() {
                            assert(wf_edge(nodes0, edges0, e));
                            assert(edges0[e].0 < nodes0.len());
                            assert(edges2[e] == edges0[e]);
                        } else if chain0.len() > 0 {
                            assert(chain_ok(nodes0, stations@[si as int].id@, chain0));
                            assert(chain0.last().1 < nodes0.len());
                        }
                    }
                    assert forall|c: int|
                        0 <= c < chain0.len() - 1 implies pair_linked(
                        edges2,
                        (#[trigger] chain0[c]).1 as int,
                        chain0[c + 1].1 as int,
                    ) by {
                        assert(pair_linked(edges0, chain0[c].1 as int, chain0[c + 1].1 as int));
                        let e0 = choose|e0: int|
                            #[trigger] wait_between(
                                edges0,
                                chain0[c].1 as int,
                                chain0[c + 1].1 as int,
                                e0,
                            );
                        assert(edges2[e0] == edges0[e0]);
                        assert(wait_between(edges2, chain0[c].1 as int, chain0[c + 1].1 as int, e0));
                    }
                    assert forall|ci: int|
                        0 <= ci < si implies chain_linked(
                        edges2,
                        (#[trigger] chains@[ci])@,
                    ) by {
                        lemma_linked_preserved(edges0, edges2, chains@[ci]@);
                    }
                    // Boarding bookkeeping: this departure now has its one
                    // boarding edge, the earlier ones keep theirs, the
                    // later ones still have none.
                    assert(board_into(edges2, dnode as int, edges0.len() as int));
                    assert forall|j: int|
                        0 <= j < k + 1 implies departure_boarded(
                        edges2,
                        (#[trigger] sorted@[j]).2 as int,
                    ) by {
                        if j < k {
                            assert(departure_boarded(edges0, sorted@[j].2 as int));
                            let e0 = choose|e0: int|
                                #[trigger] board_into(edges0, sorted@[j].2 as int, e0);
                            assert(board_into(edges2, sorted@[j].2 as int, e0));
                            assert forall|e: int|
                                board_into(edges2, sorted@[j].2 as int, e) implies board_into(
                                edges0,
                                sorted@[j].2 as int,
                                e,
                            ) by {
                                if e >= edges0.len() {
                                    assert(sorted@[j].2 != sorted@[k as int].2);
                                    assert(sorted@[j].2 < nodes_a.len());
                                    assert(nodes_a.len() <= nodes0.len());
                                }
                            }
                        } else {
                            assert forall|e: int|
                                board_into(edges2, dnode as int, e) implies e == edges0.len() by {
                                if e < edges0.len() {
                                    assert(!board_into(edges0, sorted@[k as int].2 as int, e));
                                } else {
                                    assert(sorted@[k as int].2 < nodes_a.len());
                                    assert(nodes_a.len() <= nodes0.len());
                                }
                            }
                        }
                    }
                    assert forall|j: int, e: int|
                        k + 1 <= j < sorted@.len() implies !(#[trigger] board_into(
                        edges2,
                        sorted@[j].2 as int,
                        e,
                    )) by {
                        if e < edges0.len() {
                            assert(!board_into(edges0, sorted@[j].2 as int, e));
                        } else if 0 <= e < edges2.len() {
                            assert(sorted@[j].2 != sorted@[k as int].2);
                            assert(sorted@[j].2 < nodes_a.len());
                            assert(nodes_a.len() <= nodes0.len());
                        }
                    }
                    assert forall|i: int|
                        0 <= i < nodes2.len() && (#[trigger] nodes2[i]) is Arrival implies exists|
                        k2: int,
                    |
                        0 <= k2 < arr_events@.len() && (#[trigger] arr_events@[k2]).2 == i by {
                        assert(i < nodes0.len());
                        assert(nodes2[i] == nodes0[i]);
                    }
                    assert forall|ci: int|
                        0 <= ci < si implies chain_ok(
                        nodes2,
                        stations@[ci].id@,
                        (#[trigger] chains@[ci])@,
                    ) by {
                        assert(chain_ok(nodes0, stations@[ci].id@, chains@[ci]@));
                        assert forall|c: int|
                            0 <= c < chains@[ci]@.len() implies {
                            &&& (#[trigger] chains@[ci]@[c]).1 < nodes2.len()
                            &&& nodes2[chains@[ci]@[c].1 as int] is Transfer
                            &&& nodes2[chains@[ci]@[c].1 as int].spec_time() == Some(
                                chains@[ci]@[c].0,
                            )
                            &&& nodes2[chains@[ci]@[c].1 as int].spec_station()
                                == stations@[ci].id@
                        } by {
                            assert(chains@[ci]@[c].1 < nodes0.len());
                            assert(nodes2[chains@[ci]@[c].1 as int] == nodes0[chains@[ci]@[c].1 as int]);
                        }
                    }
                }
                chain.push((dtime, tn));
                proof {
                    let nodes2 = graph_nodes(&g);
                    assert(chain@ == chain0.push((dtime, tn)));
                    assert forall|c: int|
                        0 <= c < chain@.len() implies {
                        &&& (#[trigger] chain@[c]).1 < nodes2.len()
                        &&& nodes2[chain@[c].1 as int] is Transfer
                        &&& nodes2[chain@[c].1 as int].spec_time() == Some(chain@[c].0)
                        &&& nodes2[chain@[c].1 as int].spec_station() == stations@[si as int].id@
                    } by {
                        if c < chain0.len() {
                            assert(chain@[c] == chain0[c]);
                            assert(chain0[c].1 < nodes0.len());
                            assert(nodes2[chain0[c].1 as int] == nodes0[chain0[c].1 as int]);
                        }
                    }
                    assert forall|c1: int, c2: int|
                        0 <= c1 <= c2 < chain@.len() implies chain@[c1].0 <= chain@[c2].0 by {
                        if c2 < chain0.len() {
                            assert(chain@[c1] == chain0[c1]);
                            assert(chain@[c2] == chain0[c2]);
                        } else if c1 < chain0.len() {
                            assert(chain@[c1] == chain0[c1]);
                            assert(chain0[c1].0 <= dtime);
                        }
                    }
                    assert(chain_linked(graph_edges(&g), chain@)) by {
                        assert forall|c: int|
                            0 <= c < chain@.len() - 1 implies pair_linked(
                            graph_edges(&g),
                            (#[trigger] chain@[c]).1 as int,
                            chain@[c + 1].1 as int,
                        ) by {
                            if c < chain0.len() - 1 {
                                assert(chain@[c] == chain0[c]);
                                assert(chain@[c + 1] == chain0[c + 1]);
                                assert(pair_linked(
                                    graph_edges(&g),
                                    chain0[c].1 as int,
                                    chain0[c + 1].1 as int,
                                ));
                                let e0 = choose|e0: int|
                                    #[trigger] wait_between(
                                        graph_edges(&g),
                                        chain0[c].1 as int,
                                        chain0[c + 1].1 as int,
                                        e0,
                                    );
                                assert(wait_between(
                                    graph_edges(&g),
                                    chain@[c].1 as int,
                                    chain@[c + 1].1 as int,
                                    e0,
                                ));
                            } else {
                                assert(chain0.len() > 0);
                                assert(chain@[c] == chain0[c]);
                                assert(chain@[c + 1].1 == tn);
                                assert(wait_between(
                                    graph_edges(&g),
                                    chain@[c].1 as int,
                                    chain@[c + 1].1 as int,
                                    graph_edges(&g).len() - 1,
                                ));
                            }
                        }
                    }
                    assert forall|e: int|
                        0 <= e < graph_edges(&g).len() && (#[trigger] graph_edges(&g)[e]).2
                            is WaitAtStation implies adjacent_pair(
                        chains@.push(chain),
                        graph_edges(&g)[e].0 as int,
                        graph_edges(&g)[e].1 as int,
                    ) by {
                        if e < edges0.len() {
                            assert(graph_edges(&g)[e] == edges0[e]);
                            assert(edges0[e].2 is WaitAtStation);
                            assert(waits_are_adjacent(edges0, chains@.push(chain_vec0)));
                            assert(adjacent_pair(
                                chains@.push(chain_vec0),
                                edges0[e].0 as int,
                                edges0[e].1 as int,
                            ));
                            let (ci, c) = choose|ci: int, c: int|
                                0 <= ci < chains@.push(chain_vec0).len() && 0 <= c < chains@.push(
                                    chain_vec0,
                                )[ci]@.len() - 1 && (#[trigger] chains@.push(chain_vec0)[ci]@[c]).1
                                    == edges0[e].0 && chains@.push(chain_vec0)[ci]@[c + 1].1
                                    == edges0[e].1;
                            if ci < chains@.len() {
                                assert(chains@.push(chain)[ci] == chains@[ci]);
                                assert(chains@.push(chain_vec0)[ci] == chains@[ci]);
                                assert(chains@.push(chain)[ci]@[c].1 == graph_edges(&g)[e].0
                                    && chains@.push(chain)[ci]@[c + 1].1 == graph_edges(&g)[e].1);
                            } else {
                                assert(chains@.push(chain_vec0)[ci] == chain_vec0);
                                assert(chain_vec0@ == chain0);
                                assert(chain@[c] == chain0[c]);
                                assert(chain@[c + 1] == chain0[c + 1]);
                                assert(chains@.push(chain)[ci]@[c].1 == graph_edges(&g)[e].0
                                    && chains@.push(chain)[ci]@[c + 1].1 == graph_edges(&g)[e].1);
                            }
                        } else {
                            assert(chain0.len() > 0);
                            assert(e == graph_edges(&g).len() - 1);
                            assert(graph_edges(&g)[e].0 == chain0.last().1);
                            assert(graph_edges(&g)[e].1 == tn);
                            let ci = chains@.len() as int;
                            let c = chain@.len() - 2;
                            assert(chain@[c] == chain0[chain0.len() - 1]);
                            assert(chain@[c + 1] == (dtime, tn));
                            assert(chains@.push(chain)[ci] == chain);
                            assert(chains@.push(chain)[ci]@[c].1 == graph_edges(&g)[e].0);
                            assert(chains@.push(chain)[ci]@[c + 1].1 == graph_edges(&g)[e].1);
                        }
                    }
                    assert forall|i: int|
                        0 <= i < nodes2.len() && (#[trigger] nodes2[i]) is Transfer implies exists|
                        ci: int,
                        kk: int,
                    |
                        0 <= ci < chains@.push(chain).len() && 0 <= kk < chains@.push(
                            chain,
                        )[ci]@.len() && (#[trigger] chains@.push(chain)[ci]@[kk]).1 == i by {
                        if i < nodes0.len() {
                            assert(nodes2[i] == nodes0[i]);
                            let (ci, kk) = choose|ci: int, kk: int|
                                0 <= ci < chains@.push(chain_vec0).len() && 0 <= kk < chains@.push(
                                    chain_vec0,
                                )[ci]@.len() && (#[trigger] chains@.push(chain_vec0)[ci]@[kk]).1
                                    == i;
                            if ci < chains@.len() {
                                assert(chains@.push(chain)[ci] == chains@[ci]);
                                assert(chains@.push(chain_vec0)[ci] == chains@[ci]);
                                assert(chains@.push(chain)[ci]@[kk].1 == i);
                            } else {
                                assert(chains@.push(chain_vec0)[ci] == chain_vec0);
                                assert(chain_vec0@ == chain0);
                                assert(chain@[kk] == chain0[kk]);
                                assert(chains@.push(chain)[ci]@[kk].1 == i);
                            }
                        } else {
                            let ci = chains@.len() as int;
                            let kk = chain@.len() - 1;
                            assert(chains@.push(chain)[ci]@[kk].1 == i);
                        }
                    }
                }
                k = k + 1;
            }
            chains.push(chain);
        }

        // Sinks: one aggregating node per station.
        proof {
            assert(k == n_sorted) by {
                if k < n_sorted {
                    assert(dep_event_ok(graph_nodes(&g), stations@, sorted@[k as int]));
                    assert(sorted@[k as int].0 < nst);
                    assert(sorted@[k as int].0 >= nst);
                }
            }
        }
        let mut mains: Vec<usize> = Vec::new();
        proof {
            assert forall|i: int|
                0 <= i < graph_nodes(&g).len() && (#[trigger] graph_nodes(&g)[i]) is MainArrival
                implies exists|si: int|
                0 <= si < mains@.len() && #[trigger] mains@[si] == i by {
                assert(graph_nodes(&g)[i] is Departure || graph_nodes(&g)[i] is Arrival
                    || graph_nodes(&g)[i] is Transfer);
            }
        }
        let ghost nb = graph_nodes(&g).len();
        for si in 0..nst
            invariant
                nst == stations@.len(),
                ns_g + 3 * nt_g <= max_index(),
                6 * nt_g <= max_index(),
                nst <= ns_g,
                a_total <= nt_g,
                stations_from(stations@, stations_in@),
                chains@.len() == nst,
                arr_events@.len() == a_total,
                sorted@.len() == a_total,
                mains@.len() == si,
                mains_covered(graph_nodes(&g), mains@),
                forall|j: int|
                    0 <= j < sorted@.len() ==> departure_boarded(
                        graph_edges(&g),
                        (#[trigger] sorted@[j]).2 as int,
                    ),
                forall|ci: int|
                    0 <= ci < nst ==> chain_linked(graph_edges(&g), (#[trigger] chains@[ci])@),
                waits_are_adjacent(graph_edges(&g), chains@),
                waits_unique(graph_edges(&g)),
                graph_nodes(&g).len() == nb + si,
                nb <= 3 * a_total,
                graph_edges(&g).len() <= 4 * a_total,
                events_ok(graph_nodes(&g), stations@, arr_events@, sorted@),
                graph_nodes(&g).subrange(0, nodes_a.len() as int) == nodes_a,
                graph_edges(&g).subrange(0, edges_a.len() as int) == edges_a,
                nodes_a.len() <= graph_nodes(&g).len(),
                edges_a.len() <= graph_edges(&g).len(),
                later_nodes_kinds(graph_nodes(&g), nodes_a.len() as int),
                forall|i: int|
                    0 <= i < nodes_a.len() && (#[trigger] nodes_a[i]) is Departure
                        ==> dep_node_covered(sorted@, i),
                arr_events@.len() == acc_all.len(),
                forall|e: int|
                    edges_a.len() <= e < graph_edges(&g).len() ==> !((
                    #[trigger] graph_edges(&g)[e]).2 is Ride),
                wf_graph(graph_nodes(&g), graph_edges(&g)),
                edges_unused(graph_edges(&g)),
                forall|ci: int|
                    0 <= ci < nst ==> chain_ok(
                        graph_nodes(&g),
                        stations@[ci].id@,
                        (#[trigger] chains@[ci])@,
                    ),
                forall|ci: int| 0 <= ci < nst ==> chain_sorted((#[trigger] chains@[ci])@),
                transfers_covered(graph_nodes(&g), chains@),
                forall|k1: int, k2: int|
                    0 <= k1 < k2 < sorted@.len() ==> sorted@[k1].2 != sorted@[k2].2,
                forall|j: int| 0 <= j < sorted@.len() ==> (#[trigger] sorted@[j]).2 < nodes_a.len(),
                forall|e: int|
                    0 <= e < graph_edges(&g).len() ==> {
                        let w = (#[trigger] graph_edges(&g)[e]).2;
                        w is Ride || w is Board || w is WaitInTrain || w is WaitAtStation
                    },
                forall|i: int|
                    0 <= i < si ==> {
                        &&& (#[trigger] mains@[i]) < graph_nodes(&g).len()
                        &&& graph_nodes(&g)[mains@[i] as int] is MainArrival
                        &&& graph_nodes(&g)[mains@[i] as int].spec_station() == stations@[i].id@
                    },
        {
            let ghost nodes0 = graph_nodes(&g);
            let ghost edges0 = graph_edges(&g);
            let ghost mains0 = mains@;
            let mn = graph_add_node(
                &mut g,
                NodeWeight::MainArrival { station_id: stations[si].id.clone() },
            );
            mains.push(mn);
            proof {
                assert forall|i: int|
                    0 <= i < graph_nodes(&g).len() && (#[trigger] graph_nodes(&g)[i])
                        is MainArrival implies exists|si2: int|
                    0 <= si2 < mains@.len() && #[trigger] mains@[si2] == i by {
                    if i < nb + si {
                        let si2 = choose|si2: int|
                            0 <= si2 < mains0.len() && #[trigger] mains0[si2] == i;
                        assert(mains@[si2] == i);
                    } else {
                        assert(mains@[mains0.len() as int] == i);
                    }
                }
            }
            proof {
                let nodes2 = graph_nodes(&g);
                let edges2 = graph_edges(&g);
                assert forall|i: int|
                    0 <= i < nodes_a.len() implies graph_nodes(&g).subrange(
                        0,
                        nodes_a.len() as int,
                    )[i] == nodes_a[i] by {
                    assert(nodes0.subrange(0, nodes_a.len() as int)[i] == nodes_a[i]);
                    assert(graph_nodes(&g)[i] == nodes0[i]);
                }
                assert(graph_nodes(&g).subrange(0, nodes_a.len() as int) =~= nodes_a);
                assert forall|i: int|
                    nodes_a.len() <= i < graph_nodes(&g).len() implies ((
                    #[trigger] graph_nodes(&g)[i]) is Transfer || graph_nodes(&g)[i]
                        is MainArrival) by {
                    if i < nodes0.len() {
                        assert(graph_nodes(&g)[i] == nodes0[i]);
                        assert(nodes0[i] is Transfer || nodes0[i] is MainArrival);
                    }
                }
                assert forall|i: int|
                    0 <= i < edges_a.len() implies graph_edges(&g).subrange(
                        0,
                        edges_a.len() as int,
                    )[i] == edges_a[i] by {
                    assert(edges0.subrange(0, edges_a.len() as int)[i] == edges_a[i]);
                    assert(graph_edges(&g)[i] == edges0[i]);
                }
                assert(graph_edges(&g).subrange(0, edges_a.len() as int) =~= edges_a);
                assert forall|e: int|
                    edges_a.len() <= e < edges2.len() implies !((#[trigger] edges2[e]).2
                        is Ride) by {
                    if e < edges0.len() {
                        assert(!(edges0[e].2 is Ride));
                        assert(edges2[e] == edges0[e]);
                    }
                }
                assert forall|e: int| 0 <= e < edges2.len() implies wf_edge(nodes2, edges2, e) by {
                    assert(wf_edge(nodes0, edges0, e));
                }
                assert forall|k2: int|
                    0 <= k2 < arr_events@.len() implies arr_event_ok(
                    nodes2,
                    stations@,
                    #[trigger] arr_events@[k2],
                ) by {
                    assert(arr_event_ok(nodes0, stations@, arr_events@[k2]));
                }
                assert forall|k2: int|
                    0 <= k2 < sorted@.len() implies dep_event_ok(
                    nodes2,
                    stations@,
                    #[trigger] sorted@[k2],
                ) by {
                    assert(dep_event_ok(nodes0, stations@, sorted@[k2]));
                }
                assert forall|i: int|
                    0 <= i < nodes2.len() && (#[trigger] nodes2[i]) is Arrival implies exists|
                    k2: int,
                |
                    0 <= k2 < arr_events@.len() && (#[trigger] arr_events@[k2]).2 == i by {
                    assert(i < nodes0.len());
                    assert(nodes2[i] == nodes0[i]);
                }
                assert forall|ci: int|
                    0 <= ci < nst implies chain_ok(
                    nodes2,
                    stations@[ci].id@,
                    (#[trigger] chains@[ci])@,
                ) by {
                    assert(chain_ok(nodes0, stations@[ci].id@, chains@[ci]@));
                    assert forall|c: int|
                        0 <= c < chains@[ci]@.len() implies {
                        &&& (#[trigger] chains@[ci]@[c]).1 < nodes2.len()
                        &&& nodes2[chains@[ci]@[c].1 as int] is Transfer
                        &&& nodes2[chains@[ci]@[c].1 as int].spec_time() == Some(chains@[ci]@[c].0)
                        &&& nodes2[chains@[ci]@[c].1 as int].spec_station() == stations@[ci].id@
                    } by {
                        assert(chains@[ci]@[c].1 < nodes0.len());
                        assert(nodes2[chains@[ci]@[c].1 as int] == nodes0[chains@[ci]@[c].1 as int]);
                    }
                }
                assert forall|i: int|
                    0 <= i < nodes2.len() && (#[trigger] nodes2[i]) is Transfer implies exists|
                    ci: int,
                    kk: int,
                |
                    0 <= ci < chains@.len() && 0 <= kk < chains@[ci]@.len() && (
                    #[trigger] chains@[ci]@[kk]).1 == i by {
                    assert(i < nodes0.len());
                    assert(nodes2[i] == nodes0[i]);
                }
            }
        }

        // Arrivals: relate each arrival to its station's sink, and alight
        // to the earliest reachable transfer, when there is one.
        let ghost eb = graph_edges(&g).len();
        proof {
            assert forall|jj: int, e: int|
                0 <= jj < a_total implies !(#[trigger] relation_from(
                graph_edges(&g),
                arr_events@[jj].2 as int,
                e,
            )) by {
                if 0 <= e < graph_edges(&g).len() {
                    let w = graph_edges(&g)[e].2;
                    assert(w is Ride || w is Board || w is WaitInTrain || w is WaitAtStation);
                }
            }
        }
        let na = arr_events.len();
        for j in 0..na
            invariant
                nst == stations@.len(),
                ns_g + 3 * nt_g <= max_index(),
                6 * nt_g <= max_index(),
                nst <= ns_g,
                a_total <= nt_g,
                stations_from(stations@, stations_in@),
                chains@.len() == nst,
                mains@.len() == nst,
                mains_covered(graph_nodes(&g), mains@),
                forall|j: int|
                    0 <= j < sorted@.len() ==> departure_boarded(
                        graph_edges(&g),
                        (#[trigger] sorted@[j]).2 as int,
                    ),
                forall|ci: int|
                    0 <= ci < nst ==> chain_linked(graph_edges(&g), (#[trigger] chains@[ci])@),
                waits_are_adjacent(graph_edges(&g), chains@),
                waits_unique(graph_edges(&g)),
                na == a_total,
                arr_events@.len() == a_total,
                sorted@.len() == a_total,
                graph_nodes(&g).len() == nb + nst,
                nb <= 3 * a_total,
                graph_edges(&g).len() <= eb + 2 * j,
                eb <= 4 * a_total,
                events_ok(graph_nodes(&g), stations@, arr_events@, sorted@),
                graph_nodes(&g).subrange(0, nodes_a.len() as int) == nodes_a,
                graph_edges(&g).subrange(0, edges_a.len() as int) == edges_a,
                nodes_a.len() <= graph_nodes(&g).len(),
                edges_a.len() <= graph_edges(&g).len(),
                later_nodes_kinds(graph_nodes(&g), nodes_a.len() as int),
                forall|i: int|
                    0 <= i < nodes_a.len() && (#[trigger] nodes_a[i]) is Departure
                        ==> dep_node_covered(sorted@, i),
                arr_events@.len() == acc_all.len(),
                forall|e: int|
                    edges_a.len() <= e < graph_edges(&g).len() ==> !((
                    #[trigger] graph_edges(&g)[e]).2 is Ride),
                wf_graph(graph_nodes(&g), graph_edges(&g)),
                edges_unused(graph_edges(&g)),
                forall|ci: int|
                    0 <= ci < nst ==> chain_ok(
                        graph_nodes(&g),
                        stations@[ci].id@,
                        (#[trigger] chains@[ci])@,
                    ),
                forall|ci: int| 0 <= ci < nst ==> chain_sorted((#[trigger] chains@[ci])@),
                transfers_covered(graph_nodes(&g), chains@),
                forall|k1: int, k2: int|
                    0 <= k1 < k2 < sorted@.len() ==> sorted@[k1].2 != sorted@[k2].2,
                forall|j: int| 0 <= j < sorted@.len() ==> (#[trigger] sorted@[j]).2 < nodes_a.len(),
                forall|i: int|
                    0 <= i < nst ==> {
                        &&& (#[trigger] mains@[i]) < graph_nodes(&g).len()
                        &&& graph_nodes(&g)[mains@[i] as int] is MainArrival
                        &&& graph_nodes(&g)[mains@[i] as int].spec_station() == stations@[i].id@
                    },
                forall|jj: int|
                    0 <= jj < j ==> arrival_alight_ok(
                        graph_nodes(&g),
                        graph_edges(&g),
                        stations@,
                        chains@,
                        #[trigger] arr_events@[jj],
                    ),
                forall|jj: int, e: int|
                    j <= jj < a_total ==> !(#[trigger] alight_from(
                        graph_edges(&g),
                        arr_events@[jj].2 as int,
                        e,
                    )),
                forall|jj: int|
                    0 <= jj < j ==> arrival_relation_ok(
                        graph_edges(&g),
                        mains@,
                        #[trigger] arr_events@[jj],
                    ),
                forall|jj: int, e: int|
                    j <= jj < a_total ==> !(#[trigger] relation_from(
                        graph_edges(&g),
                        arr_events@[jj].2 as int,
                        e,
                    )),
        {
            let ev = arr_events[j];
            let asi = ev.0;
            let atime = ev.1;
            let anode = ev.2;
            let ghost nodes0 = graph_nodes(&g);
            let ghost edges0 = graph_edges(&g);
            proof {
                assert(arr_event_ok(nodes0, stations@, arr_events@[j as int]));
            }
            let mn = mains[asi];
            graph_add_edge(&mut g, anode, mn, EdgeWeight::MainArrivalRelation);
            let tt = stations[asi].transfer_time;
            let chain = &chains[asi];
            proof {
                assert(chain_ok(nodes0, stations@[asi as int].id@, chains@[asi as int]@));
                assert(chain@ == chains@[asi as int]@);
            }
            match find_first_fit(chain, atime, tt) {
                Some(c) => {
                    graph_add_edge(&mut g, anode, chain[c].1, EdgeWeight::Alight { duration: tt });
                    proof {
                        crate::model::lemma_first_at_or_after_bounds(
                            chains@[asi as int]@,
                            atime + tt,
                        );
                        assert(first_at_or_after(chains@[asi as int]@, atime + tt) == c as int);
                        assert(graph_edges(&g)[graph_edges(&g).len() - 1] == (
                            anode,
                            chains@[asi as int]@[c as int].1,
                            EdgeWeight::Alight { duration: tt },
                        ));
                    }
                },
                None => {
                    proof {
                        assert(first_at_or_after(chains@[asi as int]@, atime + tt) == -1);
                    }
                },
            }
            proof {
                let nodes2 = graph_nodes(&g);
                let edges2 = graph_edges(&g);
                assert forall|i: int|
                    0 <= i < nodes_a.len() implies graph_nodes(&g).subrange(
                        0,
                        nodes_a.len() as int,
                    )[i] == nodes_a[i] by {
                    assert(nodes0.subrange(0, nodes_a.len() as int)[i] == nodes_a[i]);
                    assert(graph_nodes(&g)[i] == nodes0[i]);
                }
                assert(graph_nodes(&g).subrange(0, nodes_a.len() as int) =~= nodes_a);
                assert forall|i: int|
                    nodes_a.len() <= i < graph_nodes(&g).len() implies ((
                    #[trigger] graph_nodes(&g)[i]) is Transfer || graph_nodes(&g)[i]
                        is MainArrival) by {
                    if i < nodes0.len() {
                        assert(graph_nodes(&g)[i] == nodes0[i]);
                        assert(nodes0[i] is Transfer || nodes0[i] is MainArrival);
                    }
                }
                assert forall|i: int|
                    0 <= i < edges_a.len() implies graph_edges(&g).subrange(
                        0,
                        edges_a.len() as int,
                    )[i] == edges_a[i] by {
                    assert(edges0.subrange(0, edges_a.len() as int)[i] == edges_a[i]);
                    assert(graph_edges(&g)[i] == edges0[i]);
                }
                assert(graph_edges(&g).subrange(0, edges_a.len() as int) =~= edges_a);
                assert forall|e: int|
                    edges_a.len() <= e < edges2.len() implies !((#[trigger] edges2[e]).2
                        is Ride) by {
                    if e < edges0.len() {
                        assert(!(edges0[e].2 is Ride));
                        assert(edges2[e] == edges0[e]);
                    }
                }
                assert(nodes2 == nodes0);
                // Old edges are unchanged and stay well formed; the new
                // relation and alighting edges have their shapes from the
                // arrival record, the sink entry and the chain entry.
                assert forall|e: int| 0 <= e < edges2.len() implies wf_edge(nodes2, edges2, e) by {
                    if e < edges0.len() {
                        assert(wf_edge(nodes0, edges0, e));
                        assert(edges2[e] == edges0[e]);
                    }
                }
                // New edges leave only this arrival's node, and only one of
                // them alights, so each record's alighting story survives.
                let i0 = anode as int;
                assert forall|jj: int|
                    0 <= jj < j + 1 implies arrival_alight_ok(
                    nodes2,
                    edges2,
                    stations@,
                    chains@,
                    #[trigger] arr_events@[jj],
                ) by {
                    let evj = arr_events@[jj];
                    let ij = evj.2 as int;
                    if jj < j {
                        assert(arrival_alight_ok(nodes0, edges0, stations@, chains@, evj));
                        assert(arr_events@[jj].2 != arr_events@[j as int].2);
                        let chn = chains@[evj.0 as int]@;
                        let ttj = stations@[evj.0 as int].transfer_time;
                        let ff = first_at_or_after(chn, evj.1 + ttj);
                        if ff >= 0 {
                            let e0 = choose|e0: int|
                                alight_edge_exact(edges0, ij, chn[ff].1, ttj, e0);
                            assert(edges2[e0] == edges0[e0]);
                            assert(alight_edge_exact(edges2, ij, chn[ff].1, ttj, e0));
                        }
                        assert forall|e: int| alight_from(edges2, ij, e) implies alight_from(
                            edges0,
                            ij,
                            e,
                        ) by {
                            if e >= edges0.len() {
                                assert(edges2[e].0 == anode);
                            }
                        }
                    } else {
                        let chn = chains@[asi as int]@;
                        let ff = first_at_or_after(chn, atime + tt);
                        assert forall|e: int| alight_from(edges2, i0, e) implies edges0.len() + 1
                            <= e < edges2.len() by {
                            if e < edges0.len() {
                                assert(!alight_from(edges0, i0, e));
                            } else if e == edges0.len() {
                                assert(edges2[e].2 is MainArrivalRelation);
                            }
                        }
                        if ff >= 0 {
                            assert(edges2.len() == edges0.len() + 2);
                            let en = edges0.len() as int + 1;
                            assert(alight_edge_exact(edges2, i0, chn[ff].1, tt, en));
                        } else {
                            assert(edges2.len() == edges0.len() + 1);
                        }
                    }
                }
                // Later records still have no alighting edge.
                assert forall|jj: int, e: int| j + 1 <= jj < a_total implies !(
                #[trigger] alight_from(edges2, arr_events@[jj].2 as int, e)) by {
                    assert(!alight_from(edges0, arr_events@[jj].2 as int, e));
                    assert(arr_events@[jj].2 != arr_events@[j as int].2);
                    if edges0.len() <= e < edges2.len() {
                        assert(edges2[e].0 == anode);
                    }
                }
                // This arrival now has exactly its one sink relation; the
                // other records' relations are untouched.
                assert forall|jj: int|
                    0 <= jj < j + 1 implies arrival_relation_ok(
                    edges2,
                    mains@,
                    #[trigger] arr_events@[jj],
                ) by {
                    let evj = arr_events@[jj];
                    let ij = evj.2 as int;
                    if jj < j {
                        assert(arrival_relation_ok(edges0, mains@, evj));
                        assert(arr_events@[jj].2 != arr_events@[j as int].2);
                        let e0 = choose|e0: int|
                            #[trigger] relation_from(edges0, ij, e0) && edges0[e0].1
                                == mains@[evj.0 as int];
                        assert(edges2[e0] == edges0[e0]);
                        assert(relation_from(edges2, ij, e0) && edges2[e0].1
                            == mains@[evj.0 as int]);
                        assert forall|e: int|
                            relation_from(edges2, ij, e) implies relation_from(
                            edges0,
                            ij,
                            e,
                        ) by {
                            if e >= edges0.len() {
                                assert(edges2[e].0 == anode);
                            }
                        }
                    } else {
                        let em = edges0.len() as int;
                        assert(relation_from(edges2, i0, em) && edges2[em].1
                            == mains@[asi as int]);
                        assert forall|e1: int, e2: int|
                            relation_from(edges2, i0, e1) && relation_from(edges2, i0, e2)
                            implies e1 == e2 by {
                            assert forall|e: int|
                                relation_from(edges2, i0, e) implies e == em by {
                                if e < edges0.len() {
                                    assert(!relation_from(edges0, i0, e));
                                } else if e > em {
                                    assert(edges2[e].2 is Alight);
                                }
                            }
                        }
                    }
                }
                assert forall|jj: int, e: int| j + 1 <= jj < a_total implies !(
                #[trigger] relation_from(edges2, arr_events@[jj].2 as int, e)) by {
                    assert(!relation_from(edges0, arr_events@[jj].2 as int, e));
                    assert(arr_events@[jj].2 != arr_events@[j as int].2);
                    if edges0.len() <= e < edges2.len() {
                        assert(edges2[e].0 == anode);
                    }
                }
                // Boarding edges are untouched by relations and alights.
                assert forall|jb: int|
                    0 <= jb < sorted@.len() implies departure_boarded(
                    edges2,
                    (#[trigger] sorted@[jb]).2 as int,
                ) by {
                    assert(departure_boarded(edges0, sorted@[jb].2 as int));
                    let e0 = choose|e0: int|
                        #[trigger] board_into(edges0, sorted@[jb].2 as int, e0);
                    assert(board_into(edges2, sorted@[jb].2 as int, e0));
                    assert forall|e: int|
                        board_into(edges2, sorted@[jb].2 as int, e) implies board_into(
                        edges0,
                        sorted@[jb].2 as int,
                        e,
                    ) by {}
                }
                lemma_waits_preserved(edges0, edges2, chains@);
                assert forall|ci: int|
                    0 <= ci < nst implies chain_linked(edges2, (#[trigger] chains@[ci])@) by {
                    lemma_linked_preserved(edges0, edges2, chains@[ci]@);
                }
            }
        }

        // Footpaths: walk from each arrival at the origin station to the
        // earliest reachable transfer at the other end.
        let ghost ec = graph_edges(&g).len();
        let mut skipped_footpaths: u64 = 0;
        let mut successful_footpaths: u64 = 0;
        let mut failed_footpaths: u64 = 0;
        let nf = footpaths.len();
        for fpi in 0..nf
            invariant
                nf == footpaths@.len(),
                nf == nf_g,
                nst == stations@.len(),
                6 * nt_g + nf_g * nt_g <= max_index(),
                6 * nt_g <= max_index(),
                na == a_total,
                nst <= ns_g,
                a_total <= nt_g,
                stations_from(stations@, stations_in@),
                chains@.len() == nst,
                mains@.len() == nst,
                mains_covered(graph_nodes(&g), mains@),
                forall|j: int|
                    0 <= j < sorted@.len() ==> departure_boarded(
                        graph_edges(&g),
                        (#[trigger] sorted@[j]).2 as int,
                    ),
                forall|ci: int|
                    0 <= ci < nst ==> chain_linked(graph_edges(&g), (#[trigger] chains@[ci])@),
                waits_are_adjacent(graph_edges(&g), chains@),
                waits_unique(graph_edges(&g)),
                arr_events@.len() == a_total,
                sorted@.len() == a_total,
                graph_edges(&g).len() <= ec + fpi * a_total,
                ec <= 6 * a_total,
                events_ok(graph_nodes(&g), stations@, arr_events@, sorted@),
                graph_nodes(&g).subrange(0, nodes_a.len() as int) == nodes_a,
                graph_edges(&g).subrange(0, edges_a.len() as int) == edges_a,
                nodes_a.len() <= graph_nodes(&g).len(),
                edges_a.len() <= graph_edges(&g).len(),
                later_nodes_kinds(graph_nodes(&g), nodes_a.len() as int),
                forall|i: int|
                    0 <= i < nodes_a.len() && (#[trigger] nodes_a[i]) is Departure
                        ==> dep_node_covered(sorted@, i),
                arr_events@.len() == acc_all.len(),
                forall|e: int|
                    edges_a.len() <= e < graph_edges(&g).len() ==> !((
                    #[trigger] graph_edges(&g)[e]).2 is Ride),
                wf_graph(graph_nodes(&g), graph_edges(&g)),
                edges_unused(graph_edges(&g)),
                forall|ci: int|
                    0 <= ci < nst ==> chain_ok(
                        graph_nodes(&g),
                        stations@[ci].id@,
                        (#[trigger] chains@[ci])@,
                    ),
                forall|ci: int| 0 <= ci < nst ==> chain_sorted((#[trigger] chains@[ci])@),
                transfers_covered(graph_nodes(&g), chains@),
                forall|k1: int, k2: int|
                    0 <= k1 < k2 < sorted@.len() ==> sorted@[k1].2 != sorted@[k2].2,
                forall|j: int| 0 <= j < sorted@.len() ==> (#[trigger] sorted@[j]).2 < nodes_a.len(),
                forall|i: int|
                    0 <= i < nst ==> {
                        &&& (#[trigger] mains@[i]) < graph_nodes(&g).len()
                        &&& graph_nodes(&g)[mains@[i] as int] is MainArrival
                        &&& graph_nodes(&g)[mains@[i] as int].spec_station() == stations@[i].id@
                    },
                forall|jj: int|
                    0 <= jj < a_total ==> arrival_alight_ok(
                        graph_nodes(&g),
                        graph_edges(&g),
                        stations@,
                        chains@,
                        #[trigger] arr_events@[jj],
                    ),
                forall|jj: int|
                    0 <= jj < a_total ==> arrival_relation_ok(
                        graph_edges(&g),
                        mains@,
                        #[trigger] arr_events@[jj],
                    ),
                skipped_footpaths <= fpi,
                successful_footpaths + failed_footpaths <= fpi * a_total,
        {
            let fp = &footpaths[fpi];
            let fo = station_lookup(&stations, &fp.from_station);
            let to = station_lookup(&stations, &fp.to_station);
            match (fo, to) {
                (Some(fsi), Some(tsi)) => {
                    let chain = &chains[tsi];
                    for j in 0..na
                        invariant
                            nst == stations@.len(),
                            6 * nt_g + nf_g * nt_g <= max_index(),
                            nst <= ns_g,
                            a_total <= nt_g,
                            fpi < nf_g,
                            na == a_total,
                            stations_from(stations@, stations_in@),
                            chains@.len() == nst,
                            mains@.len() == nst,
                mains_covered(graph_nodes(&g), mains@),
                forall|j: int|
                    0 <= j < sorted@.len() ==> departure_boarded(
                        graph_edges(&g),
                        (#[trigger] sorted@[j]).2 as int,
                    ),
                forall|ci: int|
                    0 <= ci < nst ==> chain_linked(graph_edges(&g), (#[trigger] chains@[ci])@),
                waits_are_adjacent(graph_edges(&g), chains@),
                waits_unique(graph_edges(&g)),
                            arr_events@.len() == a_total,
                            sorted@.len() == a_total,
                            fsi < nst,
                            tsi < nst,
                            chain == &chains@[tsi as int],
                            graph_edges(&g).len() <= ec + fpi * a_total + j,
                            ec <= 6 * a_total,
                            events_ok(graph_nodes(&g), stations@, arr_events@, sorted@),
                            graph_nodes(&g).subrange(0, nodes_a.len() as int) == nodes_a,
                            graph_edges(&g).subrange(0, edges_a.len() as int) == edges_a,
                            nodes_a.len() <= graph_nodes(&g).len(),
                            edges_a.len() <= graph_edges(&g).len(),
                            later_nodes_kinds(graph_nodes(&g), nodes_a.len() as int),
                            forall|i: int|
                                0 <= i < nodes_a.len() && (#[trigger] nodes_a[i]) is Departure
                                    ==> dep_node_covered(sorted@, i),
                            arr_events@.len() == acc_all.len(),
                            forall|e: int|
                                edges_a.len() <= e < graph_edges(&g).len() ==> !((
                                #[trigger] graph_edges(&g)[e]).2 is Ride),
                            wf_graph(graph_nodes(&g), graph_edges(&g)),
                            edges_unused(graph_edges(&g)),
                            forall|ci: int|
                                0 <= ci < nst ==> chain_ok(
                                    graph_nodes(&g),
                                    stations@[ci].id@,
                                    (#[trigger] chains@[ci])@,
                                ),
                            forall|ci: int| 0 <= ci < nst ==> chain_sorted((#[trigger] chains@[ci])@),
                            transfers_covered(graph_nodes(&g), chains@),
                            forall|k1: int, k2: int|
                                0 <= k1 < k2 < sorted@.len() ==> sorted@[k1].2 != sorted@[k2].2,
                            forall|j: int| 0 <= j < sorted@.len() ==> (#[trigger] sorted@[j]).2 < nodes_a.len(),
                            forall|i: int|
                                0 <= i < nst ==> {
                                    &&& (#[trigger] mains@[i]) < graph_nodes(&g).len()
                                    &&& graph_nodes(&g)[mains@[i] as int] is MainArrival
                                    &&& graph_nodes(&g)[mains@[i] as int].spec_station()
                                        == stations@[i].id@
                                },
                            forall|jj: int|
                                0 <= jj < a_total ==> arrival_alight_ok(
                                    graph_nodes(&g),
                                    graph_edges(&g),
                                    stations@,
                                    chains@,
                                    #[trigger] arr_events@[jj],
                                ),
                            forall|jj: int|
                                0 <= jj < a_total ==> arrival_relation_ok(
                                    graph_edges(&g),
                                    mains@,
                                    #[trigger] arr_events@[jj],
                                ),
                            successful_footpaths + failed_footpaths <= fpi * a_total + j,
                    {
                        let ev = arr_events[j];
                        if ev.0 == fsi {
                            proof {
                                assert(fpi * a_total + j + 1 <= nf_g * nt_g && nf_g * a_total
                                    <= nf_g * nt_g) by (nonlinear_arith)
                                    requires
                                        0 <= fpi < nf_g,
                                        0 <= j < a_total,
                                        a_total <= nt_g,
                                ;
                                assert(arr_event_ok(graph_nodes(&g), stations@, arr_events@[j as int]));
                                assert(chain_ok(
                                    graph_nodes(&g),
                                    stations@[tsi as int].id@,
                                    chains@[tsi as int]@,
                                ));
                            }
                            let ghost nodes0 = graph_nodes(&g);
                            let ghost edges0 = graph_edges(&g);
                            match find_first_fit(chain, ev.1, fp.duration) {
                                Some(c) => {
                                    graph_add_edge(
                                        &mut g,
                                        ev.2,
                                        chain[c].1,
                                        EdgeWeight::Walk { duration: fp.duration },
                                    );
                                    successful_footpaths = successful_footpaths + 1;
                                    proof {
                                        let nodes2 = graph_nodes(&g);
                                        let edges2 = graph_edges(&g);
                                        assert forall|i: int|
                                            0 <= i < nodes_a.len() implies graph_nodes(&g).subrange(
                                                0,
                                                nodes_a.len() as int,
                                            )[i] == nodes_a[i] by {
                                            assert(nodes0.subrange(0, nodes_a.len() as int)[i] == nodes_a[i]);
                                            assert(graph_nodes(&g)[i] == nodes0[i]);
                                        }
                                        assert(graph_nodes(&g).subrange(0, nodes_a.len() as int) =~= nodes_a);
                                        assert forall|i: int|
                                            nodes_a.len() <= i < graph_nodes(&g).len() implies ((
                                            #[trigger] graph_nodes(&g)[i]) is Transfer || graph_nodes(&g)[i]
                                                is MainArrival) by {
                                            if i < nodes0.len() {
                                                assert(graph_nodes(&g)[i] == nodes0[i]);
                                                assert(nodes0[i] is Transfer || nodes0[i] is MainArrival);
                                            }
                                        }
                                        assert forall|i: int|
                                            0 <= i < edges_a.len() implies graph_edges(&g).subrange(
                                                0,
                                                edges_a.len() as int,
                                            )[i] == edges_a[i] by {
                                            assert(edges0.subrange(0, edges_a.len() as int)[i] == edges_a[i]);
                                            assert(graph_edges(&g)[i] == edges0[i]);
                                        }
                                        assert(graph_edges(&g).subrange(0, edges_a.len() as int) =~= edges_a);
                                        assert forall|e: int|
                                            edges_a.len() <= e < edges2.len() implies !((#[trigger] edges2[e]).2
                                                is Ride) by {
                                            if e < edges0.len() {
                                                assert(!(edges0[e].2 is Ride));
                                                assert(edges2[e] == edges0[e]);
                                            }
                                        }
                                        assert forall|e: int|
                                            0 <= e < edges2.len() implies wf_edge(
                                            nodes2,
                                            edges2,
                                            e,
                                        ) by {
                                            if e < edges0.len() {
                                                assert(wf_edge(nodes0, edges0, e));
                                                assert(edges2[e] == edges0[e]);
                                            }
                                        }
                                        assert forall|jj: int|
                                            0 <= jj < a_total implies arrival_alight_ok(
                                            nodes2,
                                            edges2,
                                            stations@,
                                            chains@,
                                            #[trigger] arr_events@[jj],
                                        ) by {
                                            let evj = arr_events@[jj];
                                            let ij = evj.2 as int;
                                            assert(arrival_alight_ok(
                                                nodes0,
                                                edges0,
                                                stations@,
                                                chains@,
                                                evj,
                                            ));
                                            let chn = chains@[evj.0 as int]@;
                                            let ttj = stations@[evj.0 as int].transfer_time;
                                            let ff = first_at_or_after(chn, evj.1 + ttj);
                                            if ff >= 0 {
                                                let e0 = choose|e0: int|
                                                    alight_edge_exact(
                                                        edges0,
                                                        ij,
                                                        chn[ff].1,
                                                        ttj,
                                                        e0,
                                                    );
                                                assert(edges2[e0] == edges0[e0]);
                                                assert(alight_edge_exact(
                                                    edges2,
                                                    ij,
                                                    chn[ff].1,
                                                    ttj,
                                                    e0,
                                                ));
                                            }
                                            assert forall|e: int|
                                                alight_from(edges2, ij, e) implies alight_from(
                                                edges0,
                                                ij,
                                                e,
                                            ) by {
                                                if e >= edges0.len() {
                                                    assert(edges2[e].2 is Walk);
                                                }
                                            }
                                        }
                                        assert forall|jj: int|
                                            0 <= jj < a_total implies arrival_relation_ok(
                                            edges2,
                                            mains@,
                                            #[trigger] arr_events@[jj],
                                        ) by {
                                            let evj = arr_events@[jj];
                                            let ij = evj.2 as int;
                                            assert(arrival_relation_ok(edges0, mains@, evj));
                                            let e0 = choose|e0: int|
                                                #[trigger] relation_from(edges0, ij, e0)
                                                    && edges0[e0].1 == mains@[evj.0 as int];
                                            assert(edges2[e0] == edges0[e0]);
                                            assert(relation_from(edges2, ij, e0) && edges2[e0].1
                                                == mains@[evj.0 as int]);
                                            assert forall|e: int|
                                                relation_from(edges2, ij, e) implies relation_from(
                                                edges0,
                                                ij,
                                                e,
                                            ) by {
                                                if e >= edges0.len() {
                                                    assert(edges2[e].2 is Walk);
                                                }
                                            }
                                        }
                                    }
                                    proof {
                                        // Boarding edges are untouched by
                                        // walks.
                                        let edges2 = graph_edges(&g);
                                        lemma_waits_preserved(edges0, edges2, chains@);
                                        assert forall|ci: int|
                                            0 <= ci < nst implies chain_linked(
                                            edges2,
                                            (#[trigger] chains@[ci])@,
                                        ) by {
                                            lemma_linked_preserved(edges0, edges2, chains@[ci]@);
                                        }
                                        assert forall|jb: int|
                                            0 <= jb < sorted@.len() implies departure_boarded(
                                            edges2,
                                            (#[trigger] sorted@[jb]).2 as int,
                                        ) by {
                                            assert(departure_boarded(
                                                edges0,
                                                sorted@[jb].2 as int,
                                            ));
                                            let e0 = choose|e0: int|
                                                #[trigger] board_into(
                                                    edges0,
                                                    sorted@[jb].2 as int,
                                                    e0,
                                                );
                                            assert(board_into(edges2, sorted@[jb].2 as int, e0));
                                            assert forall|e: int|
                                                board_into(edges2, sorted@[jb].2 as int, e)
                                                implies board_into(
                                                edges0,
                                                sorted@[jb].2 as int,
                                                e,
                                            ) by {
                                                if e >= edges0.len() {
                                                    assert(edges2[e].2 is Walk);
                                                }
                                            }
                                        }
                                    }
                                },
                                None => {
                                    failed_footpaths = failed_footpaths + 1;
                                },
                            }
                        }
                    }
                },
                _ => {
                    skipped_footpaths = skipped_footpaths + 1;
                },
            }
            proof {
                assert(fpi * a_total + a_total == (fpi + 1) * a_total && fpi * a_total <= (fpi + 1)
                    * a_total) by (nonlinear_arith)
                    requires
                        0 <= fpi,
                        0 <= a_total,
                ;
            }
        }

        // Assemble, and close the per-station completeness of the chains
        // from coverage and the uniqueness of station ids.
        let model = Model {
            graph: g,
            stations,
            stations_departures: chains,
            station_arrival_main_node_indices: mains,
            arrivals: arr_events,
        };
        proof {
            let nodes = model.nodes();
            let chains_v = model.stations_departures@;
            let stations_v = model.stations@;
            assert forall|ci: int|
                0 <= ci < stations_v.len() implies chain_complete(
                nodes,
                stations_v[ci].id@,
                (#[trigger] chains_v[ci])@,
            ) by {
                assert forall|i: int|
                    0 <= i < nodes.len() && (#[trigger] nodes[i]) is Transfer
                        && nodes[i].spec_station() == stations_v[ci].id@ implies exists|kk: int|
                    0 <= kk < chains_v[ci]@.len() && (#[trigger] chains_v[ci]@[kk]).1 == i by {
                    let (cj, kk) = choose|cj: int, kk: int|
                        0 <= cj < chains_v.len() && 0 <= kk < chains_v[cj]@.len() && (
                        #[trigger] chains_v[cj]@[kk]).1 == i;
                    assert(chain_ok(nodes, stations_v[cj].id@, chains_v[cj]@));
                    assert(nodes[i].spec_station() == stations_v[cj].id@);
                    if cj != ci {
                        assert(stations_v[cj].id@ != stations_v[ci].id@);
                    }
                    assert(cj == ci);
                }
            }
        }
        proof {
            let nodes = model.nodes();
            let edges = model.edges();
            let stations_v = model.stations@;
            let chains_v = model.stations_departures@;
            let mains_v = model.station_arrival_main_node_indices@;
            assert(wf_graph(nodes, edges));
            assert(events_ok(nodes, stations_v, model.arrivals@, sorted@));
            assert(chains_v.len() == stations_v.len());
            assert(mains_v.len() == stations_v.len());
            assert(forall|i: int, j: int|
                0 <= i < j < stations_v.len() ==> stations_v[i].id@ != stations_v[j].id@);
            assert(forall|i: int|
                0 <= i < stations_v.len() ==> chain_ok(
                    nodes,
                    stations_v[i].id@,
                    #[trigger] chains_v[i]@,
                ));
            assert(forall|i: int| 0 <= i < stations_v.len() ==> chain_sorted(#[trigger] chains_v[i]@));
            assert(forall|i: int|
                0 <= i < stations_v.len() ==> chain_complete(
                    nodes,
                    stations_v[i].id@,
                    #[trigger] chains_v[i]@,
                ));
            assert(forall|i: int|
                0 <= i < stations_v.len() ==> {
                    &&& (#[trigger] mains_v[i]) < nodes.len()
                    &&& nodes[mains_v[i] as int] is MainArrival
                    &&& nodes[mains_v[i] as int].spec_station() == stations_v[i].id@
                });
            assert(forall|k: int|
                0 <= k < model.arrivals@.len() ==> arr_event_ok(
                    nodes,
                    stations_v,
                    #[trigger] model.arrivals@[k],
                ));
            assert(forall|k1: int, k2: int|
                0 <= k1 < k2 < model.arrivals@.len() ==> model.arrivals@[k1].3
                    != model.arrivals@[k2].3);
            assert(forall|i: int|
                0 <= i < nodes.len() && (#[trigger] nodes[i]) is Arrival ==> exists|k: int|
                    0 <= k < model.arrivals@.len() && (#[trigger] model.arrivals@[k]).2 == i);
            assert(forall|k: int|
                0 <= k < model.arrivals@.len() ==> arrival_alight_ok(
                    nodes,
                    edges,
                    stations_v,
                    chains_v,
                    #[trigger] model.arrivals@[k],
                ));
            assert(forall|k: int|
                0 <= k < model.arrivals@.len() ==> arrival_relation_ok(
                    edges,
                    model.station_arrival_main_node_indices@,
                    #[trigger] model.arrivals@[k],
                ));
            assert(model.wf());
            assert(graph_nodes(&model.graph).subrange(0, nodes_a.len() as int) == nodes_a);
            assert(graph_edges(&model.graph).subrange(0, edges_a.len() as int) == edges_a);
            assert(nodes_a.len() <= nodes.len());
            assert(edges_a.len() <= edges.len());
            assert forall|k: int|
                0 <= k < acc_all.len() implies #[trigger] ride_entry_ok(
                nodes,
                edges,
                stations_v,
                model.arrivals@,
                acc_all,
                k,
            ) by {
                assert(ride_entry_ok(nodes_a, edges_a, stations_v, model.arrivals@, acc_all, k));
                assert(2 * k + 1 < nodes_a.len());
                assert(nodes.subrange(0, nodes_a.len() as int)[2 * k] == nodes[2 * k]);
                assert(nodes.subrange(0, nodes_a.len() as int)[2 * k] == nodes_a[2 * k]);
                assert(nodes.subrange(0, nodes_a.len() as int)[2 * k + 1] == nodes[2 * k + 1]);
                assert(nodes.subrange(0, nodes_a.len() as int)[2 * k + 1] == nodes_a[2 * k + 1]);
                assert(edges.subrange(0, edges_a.len() as int)[k] == edges[k]);
                assert(edges.subrange(0, edges_a.len() as int)[k] == edges_a[k]);
            }
            assert forall|e: int|
                acc_all.len() <= e < edges.len() implies !((#[trigger] edges[e]).2 is Ride) by {
                if e < edges_a.len() {
                    assert(edges[e] == edges.subrange(0, edges_a.len() as int)[e]);
                    assert(edges[e] == edges_a[e]);
                }
            }
            assert(rides_exact(nodes, edges, stations_v, model.arrivals@, acc_all));
            assert(accepted_trips(stations_v, trips@) == acc_all);
            assert(mains_covered(nodes, model.station_arrival_main_node_indices@));
            assert(later_nodes_kinds(nodes, 2 * acc_all.len() as int));
            assert forall|i: int|
                0 <= i < nodes.len() && (#[trigger] nodes[i]) is Departure
                implies departure_boarded(edges, i) by {
                assert(i < nodes_a.len()) by {
                    if i >= nodes_a.len() {
                        assert(nodes[i] is Transfer || nodes[i] is MainArrival);
                    }
                }
                assert(nodes.subrange(0, nodes_a.len() as int)[i] == nodes[i]);
                assert(nodes.subrange(0, nodes_a.len() as int)[i] == nodes_a[i]);
                assert(dep_node_covered(sorted@, i));
                let j = choose|j: int| 0 <= j < sorted@.len() && (#[trigger] sorted@[j]).2 == i;
                assert(departure_boarded(edges, sorted@[j].2 as int));
            }
        }
        let stats = BuildStats {
            skipped_trips,
            skipped_footpaths,
            successful_footpaths,
            failed_footpaths,
        };
        (model, stats)
    }
}

} // verus!
