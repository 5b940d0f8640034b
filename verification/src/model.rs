//! The combined data model: the time-expanded graph plus the per-station
//! indices the solver needs to locate source and sink nodes.

use vstd::prelude::*;

use crate::graph::graph_edges;
use crate::graph::graph_nodes;
use crate::graph::wf_graph;
use crate::records::Station;
use crate::weights::EdgeWeight;
use crate::weights::NodeWeight;
use petgraph::graph::DiGraph;

verus! {

/// The first position in `stations` whose id reads `sid`, or -1 when no
/// station has that id.
pub open spec fn station_index_of(stations: Seq<Station>, sid: Seq<char>) -> int
    decreases stations.len(),
{
    if stations.len() == 0 {
        -1
    } else if stations[0].id@ == sid {
        0
    } else {
        let r = station_index_of(stations.drop_first(), sid);
        if r == -1 {
            -1
        } else {
            r + 1
        }
    }
}

/// The first position in `chain` whose time is at or after `t`, or -1 when
/// every entry is earlier.
pub open spec fn first_at_or_after(chain: Seq<(u64, usize)>, t: int) -> int
    decreases chain.len(),
{
    if chain.len() == 0 {
        -1
    } else if chain[0].0 >= t {
        0
    } else {
        let r = first_at_or_after(chain.drop_first(), t);
        if r == -1 {
            -1
        } else {
            r + 1
        }
    }
}

/// The first position in `arrivals` that belongs to trip `tid`, or -1.
pub open spec fn trip_index_of(arrivals: Seq<(usize, u64, usize, u64)>, tid: u64) -> int
    decreases arrivals.len(),
{
    if arrivals.len() == 0 {
        -1
    } else if arrivals[0].3 == tid {
        0
    } else {
        let r = trip_index_of(arrivals.drop_first(), tid);
        if r == -1 {
            -1
        } else {
            r + 1
        }
    }
}

/// A platform chain entry list is sorted by time, earliest first.
pub open spec fn chain_sorted(chain: Seq<(u64, usize)>) -> bool {
    forall|k1: int, k2: int| 0 <= k1 <= k2 < chain.len() ==> chain[k1].0 <= chain[k2].0
}

/// Every chain entry names a `Transfer` node of station `sid` at the
/// entry's time.
pub open spec fn chain_ok(nodes: Seq<NodeWeight>, sid: Seq<char>, chain: Seq<(u64, usize)>) -> bool {
    forall|k: int|
        0 <= k < chain.len() ==> {
            &&& (#[trigger] chain[k]).1 < nodes.len()
            &&& nodes[chain[k].1 as int] is Transfer
            &&& nodes[chain[k].1 as int].spec_time() == Some(chain[k].0)
            &&& nodes[chain[k].1 as int].spec_station() == sid
        }
}

/// Every `Transfer` node of station `sid` appears in the chain.
pub open spec fn chain_complete(
    nodes: Seq<NodeWeight>,
    sid: Seq<char>,
    chain: Seq<(u64, usize)>,
) -> bool {
    forall|i: int|
        0 <= i < nodes.len() && (#[trigger] nodes[i]) is Transfer && nodes[i].spec_station() == sid
            ==> exists|k: int| 0 <= k < chain.len() && (#[trigger] chain[k]).1 == i
}

/// An arrival event record: its station index, its time, its node, and the
/// trip it belongs to.
pub open spec fn arr_event_ok(
    nodes: Seq<NodeWeight>,
    stations: Seq<Station>,
    ev: (usize, u64, usize, u64),
) -> bool {
    &&& ev.0 < stations.len()
    &&& ev.2 < nodes.len()
    &&& nodes[ev.2 as int] is Arrival
    &&& nodes[ev.2 as int].spec_time() == Some(ev.1)
    &&& nodes[ev.2 as int].spec_station() == stations[ev.0 as int].id@
    &&& nodes[ev.2 as int] matches NodeWeight::Arrival { trip_id, .. } && trip_id == ev.3
}

/// Edge `e` is an alighting edge leaving node `i`.
pub open spec fn alight_from(edges: Seq<(usize, usize, EdgeWeight)>, i: int, e: int) -> bool {
    &&& 0 <= e < edges.len()
    &&& edges[e].0 == i
    &&& edges[e].2 is Alight
}

/// Edge `e` is the alighting edge from node `i` to `target`, lasting the
/// station's transfer time `tt`.
pub open spec fn alight_edge_exact(
    edges: Seq<(usize, usize, EdgeWeight)>,
    i: int,
    target: usize,
    tt: u64,
    e: int,
) -> bool {
    &&& alight_from(edges, i, e)
    &&& edges[e].1 == target
    &&& edges[e].2 matches EdgeWeight::Alight { duration } && duration == tt
}

/// Edge `e` is a relation edge into a sink, leaving node `i`.
pub open spec fn relation_from(edges: Seq<(usize, usize, EdgeWeight)>, i: int, e: int) -> bool {
    &&& 0 <= e < edges.len()
    &&& edges[e].0 == i
    &&& edges[e].2 is MainArrivalRelation
}

/// What sink relations an arrival event has: exactly one relation edge
/// leaves the arrival node, and it enters its station's sink.
pub open spec fn arrival_relation_ok(
    edges: Seq<(usize, usize, EdgeWeight)>,
    mains: Seq<usize>,
    ev: (usize, u64, usize, u64),
) -> bool {
    let i = ev.2 as int;
    &&& exists|e: int| #[trigger] relation_from(edges, i, e) && edges[e].1 == mains[ev.0 as int]
    &&& forall|e1: int, e2: int|
        relation_from(edges, i, e1) && relation_from(edges, i, e2) ==> e1 == e2
}

/// What alighting edges an arrival event has: when the station's chain has
/// a transfer at or after the arrival time plus the station's transfer
/// time, exactly one alighting edge leaves the arrival node and it targets
/// the earliest such transfer; otherwise none does.
pub open spec fn arrival_alight_ok(
    nodes: Seq<NodeWeight>,
    edges: Seq<(usize, usize, EdgeWeight)>,
    stations: Seq<Station>,
    chains: Seq<Vec<(u64, usize)>>,
    ev: (usize, u64, usize, u64),
) -> bool {
    let si = ev.0 as int;
    let i = ev.2 as int;
    let chain = chains[si]@;
    let tt = stations[si].transfer_time;
    let ff = first_at_or_after(chain, ev.1 + tt);
    &&& (ff >= 0 ==> exists|e: int| alight_edge_exact(edges, i, chain[ff].1, tt, e))
    &&& (ff == -1 ==> forall|e: int| !alight_from(edges, i, e))
    &&& forall|e1: int, e2: int|
        alight_from(edges, i, e1) && alight_from(edges, i, e2) ==> e1 == e2
}

/// The entire combined data model.
pub struct Model {
    pub graph: DiGraph<NodeWeight, EdgeWeight>,
    /// The known stations, one entry per distinct id, in input order.
    pub stations: Vec<Station>,
    /// Per station (aligned with `stations`): its platform chain, the
    /// `Transfer` nodes with their times, sorted by time.
    pub stations_departures: Vec<Vec<(u64, usize)>>,
    /// Per station (aligned with `stations`): its `MainArrival` sink node.
    pub station_arrival_main_node_indices: Vec<usize>,
    /// All arrival events: (station index, time, node, trip id), one per
    /// accepted trip.
    pub arrivals: Vec<(usize, u64, usize, u64)>,
}

impl Model {
    /// The node weights of the graph, by node index.
    pub open spec fn nodes(&self) -> Seq<NodeWeight> {
        graph_nodes(&self.graph)
    }

    /// The edges of the graph as (source, target, weight), by edge index.
    pub open spec fn edges(&self) -> Seq<(usize, usize, EdgeWeight)> {
        graph_edges(&self.graph)
    }

    /// Well-formedness: the graph's structural invariants, and the indices
    /// faithfully describing it.
    pub open spec fn wf(&self) -> bool {
        let nodes = self.nodes();
        let edges = self.edges();
        let stations = self.stations@;
        let chains = self.stations_departures@;
        let mains = self.station_arrival_main_node_indices@;
        &&& wf_graph(nodes, edges)
        &&& chains.len() == stations.len()
        &&& mains.len() == stations.len()
        &&& forall|i: int, j: int|
            0 <= i < j < stations.len() ==> stations[i].id@ != stations[j].id@
        &&& forall|i: int|
            0 <= i < stations.len() ==> chain_ok(nodes, stations[i].id@, #[trigger] chains[i]@)
        &&& forall|i: int| 0 <= i < stations.len() ==> chain_sorted(#[trigger] chains[i]@)
        &&& forall|i: int|
            0 <= i < stations.len() ==> chain_complete(
                nodes,
                stations[i].id@,
                #[trigger] chains[i]@,
            )
        &&& forall|i: int|
            0 <= i < stations.len() ==> {
                &&& (#[trigger] mains[i]) < nodes.len()
                &&& nodes[mains[i] as int] is MainArrival
                &&& nodes[mains[i] as int].spec_station() == stations[i].id@
            }
        &&& forall|k: int|
            0 <= k < self.arrivals@.len() ==> arr_event_ok(
                nodes,
                stations,
                #[trigger] self.arrivals@[k],
            )
        &&& forall|k1: int, k2: int|
            0 <= k1 < k2 < self.arrivals@.len() ==> self.arrivals@[k1].3 != self.arrivals@[k2].3
        &&& forall|i: int|
            0 <= i < nodes.len() && (#[trigger] nodes[i]) is Arrival ==> exists|k: int|
                0 <= k < self.arrivals@.len() && (#[trigger] self.arrivals@[k]).2 == i
        &&& forall|k: int|
            0 <= k < self.arrivals@.len() ==> arrival_alight_ok(
                nodes,
                edges,
                stations,
                chains,
                #[trigger] self.arrivals@[k],
            )
        &&& forall|k: int|
            0 <= k < self.arrivals@.len() ==> arrival_relation_ok(
                edges,
                mains,
                #[trigger] self.arrivals@[k],
            )
    }

    /// Looks a station up by id: the first (and only) entry with that id.
    pub fn find_station_index(&self, station_id: &str) -> (r: Option<usize>)
        ensures
            r == {
                let si = station_index_of(self.stations@, station_id@);
                if si == -1 {
                    None::<usize>
                } else {
                    Some(si as usize)
                }
            },
            r matches Some(si) ==> si < self.stations@.len() && self.stations@[si as int].id@
                == station_id@,
    {
        let key: String = String::from_str(station_id);
        let n = self.stations.len();
        for j in 0..n
            invariant
                n == self.stations@.len(),
                key@ == station_id@,
                forall|i: int| 0 <= i < j ==> (#[trigger] self.stations@[i]).id@ != station_id@,
        {
            if self.stations[j].id == key {
                proof {
                    lemma_station_index_of_found(self.stations@, station_id@, j as int);
                }
                return Some(j);
            }
        }
        proof {
            lemma_station_index_of_missing(self.stations@, station_id@);
        }
        None
    }

    /// The node a group waiting at `station_id` starts from: the earliest
    /// platform transfer there at or after `start_time`. `None` when the
    /// station is unknown or all its transfers are earlier.
    pub fn find_start_node_index(&self, station_id: &str, start_time: u64) -> (r: Option<usize>)
        requires
            self.wf(),
        ensures
            r == {
                let si = station_index_of(self.stations@, station_id@);
                if si == -1 {
                    None::<usize>
                } else {
                    let chain = self.stations_departures@[si]@;
                    let ff = first_at_or_after(chain, start_time as int);
                    if ff == -1 {
                        None::<usize>
                    } else {
                        Some(chain[ff].1)
                    }
                }
            },
            r matches Some(i) ==> {
                &&& i < self.nodes().len()
                &&& self.nodes()[i as int] is Transfer
                &&& self.nodes()[i as int].spec_station() == station_id@
                &&& self.nodes()[i as int].spec_time() matches Some(t) && t >= start_time
            },
    {
        proof {
            lemma_station_index_of_bounds(self.stations@, station_id@);
        }
        let si_opt = self.find_station_index(station_id);
        match si_opt {
            None => None,
            Some(si) => {
                let chain = &self.stations_departures[si];
                let n = chain.len();
                for k in 0..n
                    invariant
                        self.wf(),
                        si < self.stations@.len(),
                        si == station_index_of(self.stations@, station_id@),
                        self.stations@[si as int].id@ == station_id@,
                        n == chain@.len(),
                        chain == &self.stations_departures@[si as int],
                        forall|j: int| 0 <= j < k ==> (#[trigger] chain@[j]).0 < start_time,
                {
                    if chain[k].0 >= start_time {
                        proof {
                            lemma_first_at_or_after_found(chain@, start_time as int, k as int);
                            assert(chain_ok(
                                self.nodes(),
                                self.stations@[si as int].id@,
                                self.stations_departures@[si as int]@,
                            ));
                        }
                        return Some(chain[k].1);
                    }
                }
                proof {
                    lemma_first_at_or_after_missing(chain@, start_time as int);
                }
                None
            },
        }
    }

    /// The sink node for a destination: the station's `MainArrival`.
    /// `None` when the station is unknown.
    pub fn find_end_node_index(&self, station_id: &str) -> (r: Option<usize>)
        requires
            self.wf(),
        ensures
            r == {
                let si = station_index_of(self.stations@, station_id@);
                if si == -1 {
                    None::<usize>
                } else {
                    Some(self.station_arrival_main_node_indices@[si])
                }
            },
            r matches Some(i) ==> {
                &&& i < self.nodes().len()
                &&& self.nodes()[i as int] is MainArrival
                &&& self.nodes()[i as int].spec_station() == station_id@
            },
    {
        proof {
            lemma_station_index_of_bounds(self.stations@, station_id@);
        }
        match self.find_station_index(station_id) {
            None => None,
            Some(si) => Some(self.station_arrival_main_node_indices[si]),
        }
    }

    /// The node a group already riding trip `trip_id` starts from: that
    /// trip's arrival at `station_id`. `None` when the trip is unknown or
    /// does not arrive at that station.
    pub fn find_in_trip_source(&self, trip_id: u64, station_id: &str) -> (r: Option<usize>)
        requires
            self.wf(),
        ensures
            r == {
                let ti = trip_index_of(self.arrivals@, trip_id);
                if ti == -1 {
                    None::<usize>
                } else if self.stations@[self.arrivals@[ti].0 as int].id@ == station_id@ {
                    Some(self.arrivals@[ti].2)
                } else {
                    None::<usize>
                }
            },
            r matches Some(i) ==> {
                &&& i < self.nodes().len()
                &&& self.nodes()[i as int] matches NodeWeight::Arrival { trip_id: t, .. } && t
                    == trip_id
                &&& self.nodes()[i as int].spec_station() == station_id@
            },
    {
        let key: String = String::from_str(station_id);
        let n = self.arrivals.len();
        for k in 0..n
            invariant
                self.wf(),
                key@ == station_id@,
                n == self.arrivals@.len(),
                forall|j: int| 0 <= j < k ==> (#[trigger] self.arrivals@[j]).3 != trip_id,
        {
            if self.arrivals[k].3 == trip_id {
                proof {
                    lemma_trip_index_of_found(self.arrivals@, trip_id, k as int);
                }
                let si = self.arrivals[k].0;
                if self.stations[si].id == key {
                    return Some(self.arrivals[k].2);
                } else {
                    return None;
                }
            }
        }
        proof {
            lemma_trip_index_of_missing(self.arrivals@, trip_id);
        }
        None
    }
}

/// Capacity safety: in a well-formed model every ride edge's utilization
/// lies between zero and its capacity, and this is an invariant of every
/// operation that returns a well-formed model.
pub proof fn lemma_ride_capacity_respected(m: Model, e: int)
    requires
        m.wf(),
        0 <= e < m.edges().len(),
        m.edges()[e].2 is Ride,
    ensures
        0 <= m.edges()[e].2.spec_utilization() <= m.edges()[e].2.spec_capacity(),
{
    assert(crate::graph::wf_edge(m.nodes(), m.edges(), e));
}

/// Platform chains: in a well-formed model each station's transfer chain
/// is sorted by time, and every station-wait edge joins two transfers of
/// one station, lasting exactly the time between them.
pub proof fn lemma_transfer_chain_sorted(m: Model, si: int, e: int)
    requires
        m.wf(),
        0 <= si < m.stations@.len(),
        0 <= e < m.edges().len(),
    ensures
        chain_sorted(m.stations_departures@[si]@),
        m.edges()[e].2 matches EdgeWeight::WaitAtStation { duration } ==> {
            let from = m.nodes()[m.edges()[e].0 as int];
            let to = m.nodes()[m.edges()[e].1 as int];
            &&& from is Transfer
            &&& to is Transfer
            &&& from.spec_station() == to.spec_station()
            &&& from.spec_time() matches Some(t1) && to.spec_time() matches Some(t2) && t1 <= t2
                && duration == t2 - t1
        },
{
    assert(crate::graph::wf_edge(m.nodes(), m.edges(), e));
}

/// Alighting: in a well-formed model, an arrival with any reachable
/// transfer at its station has exactly one alighting edge, and it targets
/// the earliest transfer at or after the arrival time plus the station's
/// transfer time; an arrival without one has none.
pub proof fn lemma_alight_unique(m: Model, k: int)
    requires
        m.wf(),
        0 <= k < m.arrivals@.len(),
    ensures
        arrival_alight_ok(
            m.nodes(),
            m.edges(),
            m.stations@,
            m.stations_departures@,
            m.arrivals@[k],
        ),
        forall|e1: int, e2: int|
            alight_from(m.edges(), m.arrivals@[k].2 as int, e1) && alight_from(
                m.edges(),
                m.arrivals@[k].2 as int,
                e2,
            ) ==> e1 == e2,
{
    assert(arrival_alight_ok(
        m.nodes(),
        m.edges(),
        m.stations@,
        m.stations_departures@,
        m.arrivals@[k],
    ));
}

/// Charging passengers onto ride edges cannot break the model: a change
/// that keeps every edge's endpoints, kind, duration and capacity, touches
/// only ride utilizations, and keeps the graph well formed, keeps the
/// whole model well formed.
pub proof fn lemma_wf_after_utilization_change(m0: Model, m1: Model)
    requires
        m0.wf(),
        m1.stations == m0.stations,
        m1.stations_departures == m0.stations_departures,
        m1.station_arrival_main_node_indices == m0.station_arrival_main_node_indices,
        m1.arrivals == m0.arrivals,
        graph_nodes(&m1.graph) == graph_nodes(&m0.graph),
        graph_edges(&m1.graph).len() == graph_edges(&m0.graph).len(),
        wf_graph(graph_nodes(&m1.graph), graph_edges(&m1.graph)),
        forall|e: int|
            0 <= e < graph_edges(&m0.graph).len() ==> {
                let t0 = graph_edges(&m0.graph)[e];
                let t1 = #[trigger] graph_edges(&m1.graph)[e];
                &&& t1.0 == t0.0
                &&& t1.1 == t0.1
                &&& (t0.2 is Ride <==> t1.2 is Ride)
                &&& (!(t0.2 is Ride) ==> t1.2 == t0.2)
            },
    ensures
        m1.wf(),
{
    let nodes = m1.nodes();
    let edges0 = m0.edges();
    let edges1 = m1.edges();
    assert forall|k: int|
        0 <= k < m1.arrivals@.len() implies arrival_alight_ok(
        nodes,
        edges1,
        m1.stations@,
        m1.stations_departures@,
        #[trigger] m1.arrivals@[k],
    ) by {
        let ev = m1.arrivals@[k];
        let i = ev.2 as int;
        assert(arrival_alight_ok(nodes, edges0, m0.stations@, m0.stations_departures@, ev));
        assert forall|e: int| alight_from(edges1, i, e) implies alight_from(edges0, i, e) by {
            assert(!(edges0[e].2 is Ride) ==> edges1[e].2 == edges0[e].2);
        }
        let chain = m1.stations_departures@[ev.0 as int]@;
        let tt = m1.stations@[ev.0 as int].transfer_time;
        let ff = first_at_or_after(chain, ev.1 + tt);
        if ff >= 0 {
            let e0 = choose|e0: int| alight_edge_exact(edges0, i, chain[ff].1, tt, e0);
            assert(!(edges0[e0].2 is Ride));
            assert(edges1[e0] == edges0[e0]);
            assert(alight_edge_exact(edges1, i, chain[ff].1, tt, e0));
        }
    }
    let mains = m1.station_arrival_main_node_indices@;
    assert forall|k: int|
        0 <= k < m1.arrivals@.len() implies arrival_relation_ok(
        edges1,
        mains,
        #[trigger] m1.arrivals@[k],
    ) by {
        let ev = m1.arrivals@[k];
        let i = ev.2 as int;
        assert(arrival_relation_ok(edges0, mains, ev));
        assert forall|e: int| relation_from(edges1, i, e) implies relation_from(edges0, i, e) by {
            assert(!(edges0[e].2 is Ride) ==> edges1[e] == edges0[e]);
        }
        let e0 = choose|e0: int|
            #[trigger] relation_from(edges0, i, e0) && edges0[e0].1 == mains[ev.0 as int];
        assert(!(edges0[e0].2 is Ride));
        assert(edges1[e0] == edges0[e0]);
        assert(relation_from(edges1, i, e0) && edges1[e0].1 == mains[ev.0 as int]);
    }
}

/// A found station index is in bounds and names a station with that id.
pub proof fn lemma_station_index_of_bounds(stations: Seq<Station>, sid: Seq<char>)
    ensures
        -1 <= station_index_of(stations, sid) < stations.len(),
        station_index_of(stations, sid) != -1 ==> stations[station_index_of(stations, sid)].id@
            == sid,
    decreases stations.len(),
{
    if stations.len() == 0 {
    } else if stations[0].id@ == sid {
    } else {
        lemma_station_index_of_bounds(stations.drop_first(), sid);
    }
}

/// A found chain position is in bounds and is at or after the time asked
/// for.
pub proof fn lemma_first_at_or_after_bounds(chain: Seq<(u64, usize)>, t: int)
    ensures
        -1 <= first_at_or_after(chain, t) < chain.len(),
        first_at_or_after(chain, t) != -1 ==> chain[first_at_or_after(chain, t)].0 >= t,
    decreases chain.len(),
{
    if chain.len() == 0 {
    } else if chain[0].0 >= t {
    } else {
        lemma_first_at_or_after_bounds(chain.drop_first(), t);
    }
}

/// A found trip position is in bounds and belongs to that trip.
pub proof fn lemma_trip_index_of_bounds(arrivals: Seq<(usize, u64, usize, u64)>, tid: u64)
    ensures
        -1 <= trip_index_of(arrivals, tid) < arrivals.len(),
        trip_index_of(arrivals, tid) != -1 ==> arrivals[trip_index_of(arrivals, tid)].3 == tid,
    decreases arrivals.len(),
{
    if arrivals.len() == 0 {
    } else if arrivals[0].3 == tid {
    } else {
        lemma_trip_index_of_bounds(arrivals.drop_first(), tid);
    }
}

pub proof fn lemma_station_index_of_found(stations: Seq<Station>, sid: Seq<char>, i: int)
    requires
        0 <= i < stations.len(),
        stations[i].id@ == sid,
        forall|j: int| 0 <= j < i ==> (#[trigger] stations[j]).id@ != sid,
    ensures
        station_index_of(stations, sid) == i,
    decreases i,
{
    if i == 0 {
    } else {
        assert(stations[0].id@ != sid);
        lemma_station_index_of_found(stations.drop_first(), sid, i - 1);
    }
}

pub proof fn lemma_station_index_of_missing(stations: Seq<Station>, sid: Seq<char>)
    requires
        forall|j: int| 0 <= j < stations.len() ==> (#[trigger] stations[j]).id@ != sid,
    ensures
        station_index_of(stations, sid) == -1,
    decreases stations.len(),
{
    if stations.len() == 0 {
    } else {
        lemma_station_index_of_missing(stations.drop_first(), sid);
    }
}

pub proof fn lemma_first_at_or_after_found(chain: Seq<(u64, usize)>, t: int, k: int)
    requires
        0 <= k < chain.len(),
        chain[k].0 >= t,
        forall|j: int| 0 <= j < k ==> (#[trigger] chain[j]).0 < t,
    ensures
        first_at_or_after(chain, t) == k,
    decreases k,
{
    if k == 0 {
    } else {
        assert(chain[0].0 < t);
        lemma_first_at_or_after_found(chain.drop_first(), t, k - 1);
    }
}

pub proof fn lemma_first_at_or_after_missing(chain: Seq<(u64, usize)>, t: int)
    requires
        forall|j: int| 0 <= j < chain.len() ==> (#[trigger] chain[j]).0 < t,
    ensures
        first_at_or_after(chain, t) == -1,
    decreases chain.len(),
{
    if chain.len() == 0 {
    } else {
        lemma_first_at_or_after_missing(chain.drop_first(), t);
    }
}

pub proof fn lemma_trip_index_of_found(arrivals: Seq<(usize, u64, usize, u64)>, tid: u64, k: int)
    requires
        0 <= k < arrivals.len(),
        arrivals[k].3 == tid,
        forall|j: int| 0 <= j < k ==> (#[trigger] arrivals[j]).3 != tid,
    ensures
        trip_index_of(arrivals, tid) == k,
    decreases k,
{
    if k == 0 {
    } else {
        assert(arrivals[0].3 != tid);
        lemma_trip_index_of_found(arrivals.drop_first(), tid, k - 1);
    }
}

/// When no position holds trip `tid`, the search reports -1; conversely a
/// -1 answer means no entry belongs to the trip.
pub proof fn lemma_trip_index_of_none(arrivals: Seq<(usize, u64, usize, u64)>, tid: u64)
    requires
        trip_index_of(arrivals, tid) == -1,
    ensures
        forall|k: int| 0 <= k < arrivals.len() ==> (#[trigger] arrivals[k]).3 != tid,
    decreases arrivals.len(),
{
    if arrivals.len() == 0 {
    } else {
        assert(arrivals[0].3 != tid);
        lemma_trip_index_of_bounds(arrivals.drop_first(), tid);
        lemma_trip_index_of_none(arrivals.drop_first(), tid);
        assert forall|k: int| 0 <= k < arrivals.len() implies (#[trigger] arrivals[k]).3 != tid by {
            if k > 0 {
                assert(arrivals.drop_first()[k - 1] == arrivals[k]);
            }
        }
    }
}

pub proof fn lemma_trip_index_of_missing(arrivals: Seq<(usize, u64, usize, u64)>, tid: u64)
    requires
        forall|j: int| 0 <= j < arrivals.len() ==> (#[trigger] arrivals[j]).3 != tid,
    ensures
        trip_index_of(arrivals, tid) == -1,
    decreases arrivals.len(),
{
    if arrivals.len() == 0 {
    } else {
        lemma_trip_index_of_missing(arrivals.drop_first(), tid);
    }
}

} // verus!
