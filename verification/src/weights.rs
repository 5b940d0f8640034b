//! Node and edge kinds of the time-expanded timetable graph.
//!
//! A node is one of four event kinds; an edge is one of seven transition
//! kinds. Only `Ride` edges have a finite capacity and track utilization;
//! every other kind offers unbounded remaining capacity.

use vstd::prelude::*;

verus! {

/// One event in the time-expanded timetable graph.
#[derive(Debug, Clone)]
pub enum NodeWeight {
    /// A trip leaves a station at a time.
    Departure { trip_id: u64, time: u64, station_id: String },
    /// A trip arrives at a station at a time.
    Arrival { trip_id: u64, time: u64, station_id: String },
    /// A platform-side waiting slot at a station, paired with a departure
    /// at the same time.
    Transfer { time: u64, station_id: String },
    /// The single per-station sink that aggregates all arrivals there.
    MainArrival { station_id: String },
}

impl NodeWeight {
    /// The event time, if the kind carries one.
    pub open spec fn spec_time(&self) -> Option<u64> {
        match self {
            NodeWeight::Departure { time, .. } => Some(*time),
            NodeWeight::Arrival { time, .. } => Some(*time),
            NodeWeight::Transfer { time, .. } => Some(*time),
            NodeWeight::MainArrival { .. } => None,
        }
    }

    /// The station the event belongs to, as a character sequence.
    pub open spec fn spec_station(&self) -> Seq<char> {
        match self {
            NodeWeight::Departure { station_id, .. } => station_id@,
            NodeWeight::Arrival { station_id, .. } => station_id@,
            NodeWeight::Transfer { station_id, .. } => station_id@,
            NodeWeight::MainArrival { station_id } => station_id@,
        }
    }

    pub fn get_time(&self) -> (t: Option<u64>)
        ensures
            t == self.spec_time(),
    {
        match self {
            NodeWeight::Departure { time, .. } => Some(*time),
            NodeWeight::Arrival { time, .. } => Some(*time),
            NodeWeight::Transfer { time, .. } => Some(*time),
            NodeWeight::MainArrival { .. } => None,
        }
    }

    /// The station id of a departure or transfer event; arrivals and
    /// per-station sinks yield nothing here.
    pub fn get_station(&self) -> (s: Option<String>)
        ensures
            match s {
                Some(id) => (self is Departure || self is Transfer) && id@
                    == self.spec_station(),
                None => !(self is Departure) && !(self is Transfer),
            },
    {
        match self {
            NodeWeight::Departure { station_id, .. } => Some(station_id.clone()),
            NodeWeight::Transfer { station_id, .. } => Some(station_id.clone()),
            _ => None,
        }
    }

    /// An equal copy of the node weight.
    pub fn clone_weight(&self) -> (r: NodeWeight)
        ensures
            r == *self,
    {
        match self {
            NodeWeight::Departure { trip_id, time, station_id } => NodeWeight::Departure {
                trip_id: *trip_id,
                time: *time,
                station_id: station_id.clone(),
            },
            NodeWeight::Arrival { trip_id, time, station_id } => NodeWeight::Arrival {
                trip_id: *trip_id,
                time: *time,
                station_id: station_id.clone(),
            },
            NodeWeight::Transfer { time, station_id } => NodeWeight::Transfer {
                time: *time,
                station_id: station_id.clone(),
            },
            NodeWeight::MainArrival { station_id } => NodeWeight::MainArrival {
                station_id: station_id.clone(),
            },
        }
    }

    pub fn is_arrival_at_station(&self, target_station_id: &str) -> (r: bool)
        ensures
            r == (self is Arrival && self.spec_station() == target_station_id@),
    {
        match self {
            NodeWeight::Arrival { station_id, .. } => {
                let target: String = String::from_str(target_station_id);
                *station_id == target
            },
            _ => false,
        }
    }
}

/// One transition in the time-expanded timetable graph.
#[derive(Debug, Clone)]
pub enum EdgeWeight {
    /// Departure to arrival of the same trip; the only kind with a finite
    /// capacity and a tracked utilization.
    Ride { duration: u64, capacity: u64, utilization: u64 },
    /// Arrival to departure of the same trip at a stop: staying seated.
    WaitInTrain { duration: u64 },
    /// Transfer slot to the departure it is paired with.
    Board,
    /// Arrival to the earliest reachable transfer slot at the same station.
    Alight { duration: u64 },
    /// One transfer slot to the next one in time at the same station.
    WaitAtStation { duration: u64 },
    /// Arrival to the earliest reachable transfer slot at another station.
    Walk { duration: u64 },
    /// Arrival to the station's aggregating sink.
    MainArrivalRelation,
}

impl EdgeWeight {
    /// The search cost of taking the edge: the effort a path spends on it
    /// out of its cost budget.
    pub open spec fn spec_cost(&self) -> u64 {
        match self {
            EdgeWeight::Ride { .. } => 2,
            EdgeWeight::WaitInTrain { .. } => 1,
            EdgeWeight::Alight { .. } => 4,
            EdgeWeight::WaitAtStation { .. } => 3,
            EdgeWeight::Walk { .. } => 10,
            EdgeWeight::Board => 5,
            EdgeWeight::MainArrivalRelation => 0,
        }
    }

    /// The time the edge takes, in minutes; zero for the kinds that carry
    /// no duration.
    pub open spec fn spec_duration(&self) -> u64 {
        match self {
            EdgeWeight::Ride { duration, .. } => *duration,
            EdgeWeight::WaitInTrain { duration } => *duration,
            EdgeWeight::Alight { duration } => *duration,
            EdgeWeight::WaitAtStation { duration } => *duration,
            EdgeWeight::Walk { duration } => *duration,
            _ => 0,
        }
    }

    /// The seat limit; unbounded for every kind but `Ride`.
    pub open spec fn spec_capacity(&self) -> u64 {
        match self {
            EdgeWeight::Ride { capacity, .. } => *capacity,
            _ => u64::MAX,
        }
    }

    /// The passengers already charged onto the edge; zero for every kind
    /// but `Ride`.
    pub open spec fn spec_utilization(&self) -> u64 {
        match self {
            EdgeWeight::Ride { utilization, .. } => *utilization,
            _ => 0,
        }
    }

    /// Seats still free: capacity minus utilization, as a mathematical
    /// integer so that it is meaningful even if utilization were to exceed
    /// capacity.
    pub open spec fn spec_remaining_capacity(&self) -> int {
        match self {
            EdgeWeight::Ride { capacity, utilization, .. } => *capacity - *utilization,
            _ => u64::MAX as int,
        }
    }

    /// An equal copy of the edge weight.
    pub fn clone_weight(&self) -> (r: EdgeWeight)
        ensures
            r == *self,
    {
        match self {
            EdgeWeight::Ride { duration, capacity, utilization } => EdgeWeight::Ride {
                duration: *duration,
                capacity: *capacity,
                utilization: *utilization,
            },
            EdgeWeight::WaitInTrain { duration } => EdgeWeight::WaitInTrain {
                duration: *duration,
            },
            EdgeWeight::Board => EdgeWeight::Board,
            EdgeWeight::Alight { duration } => EdgeWeight::Alight { duration: *duration },
            EdgeWeight::WaitAtStation { duration } => EdgeWeight::WaitAtStation {
                duration: *duration,
            },
            EdgeWeight::Walk { duration } => EdgeWeight::Walk { duration: *duration },
            EdgeWeight::MainArrivalRelation => EdgeWeight::MainArrivalRelation,
        }
    }

    pub fn cost(&self) -> (c: u64)
        ensures
            c == self.spec_cost(),
    {
        match self {
            EdgeWeight::Ride { .. } => 2,
            EdgeWeight::WaitInTrain { .. } => 1,
            EdgeWeight::Alight { .. } => 4,
            EdgeWeight::WaitAtStation { .. } => 3,
            EdgeWeight::Walk { .. } => 10,
            EdgeWeight::Board => 5,
            EdgeWeight::MainArrivalRelation => 0,
        }
    }

    pub fn is_ride(&self) -> (r: bool)
        ensures
            r == (self is Ride),
    {
        match self {
            EdgeWeight::Ride { .. } => true,
            _ => false,
        }
    }

    pub fn is_walk(&self) -> (r: bool)
        ensures
            r == (self is Walk),
    {
        match self {
            EdgeWeight::Walk { .. } => true,
            _ => false,
        }
    }

    pub fn is_alight(&self) -> (r: bool)
        ensures
            r == (self is Alight),
    {
        match self {
            EdgeWeight::Alight { .. } => true,
            _ => false,
        }
    }

    pub fn get_duration(&self) -> (d: u64)
        ensures
            d == self.spec_duration(),
    {
        match self {
            EdgeWeight::Ride { duration, .. } => *duration,
            EdgeWeight::WaitInTrain { duration } => *duration,
            EdgeWeight::Alight { duration } => *duration,
            EdgeWeight::WaitAtStation { duration } => *duration,
            EdgeWeight::Walk { duration } => *duration,
            _ => 0,
        }
    }

    pub fn get_capacity(&self) -> (c: u64)
        ensures
            c == self.spec_capacity(),
    {
        match self {
            EdgeWeight::Ride { capacity, .. } => *capacity,
            _ => u64::MAX,
        }
    }

    /// Charges `addend` more passengers onto a ride edge; a no-op on every
    /// other kind. The caller must have checked that the passengers fit:
    /// utilization never exceeds capacity.
    pub fn increase_utilization(&mut self, addend: u64)
        requires
            old(self).spec_utilization() + addend <= old(self).spec_capacity(),
        ensures
            final(self).spec_utilization() == old(self).spec_utilization() + (if *old(self) is Ride {
                addend as int
            } else {
                0
            }),
            final(self).spec_capacity() == old(self).spec_capacity(),
            final(self).spec_duration() == old(self).spec_duration(),
            final(self).spec_cost() == old(self).spec_cost(),
            *old(self) is Ride ==> *final(self) == (EdgeWeight::Ride {
                duration: old(self).spec_duration(),
                capacity: old(self).spec_capacity(),
                utilization: (old(self).spec_utilization() + addend) as u64,
            }),
            !(*old(self) is Ride) ==> *final(self) == *old(self),
    {
        match self {
            EdgeWeight::Ride { utilization, .. } => {
                *utilization = *utilization + addend;
            },
            _ => {},
        }
    }

    pub fn get_utilization(&self) -> (u: u64)
        ensures
            u == self.spec_utilization(),
    {
        match self {
            EdgeWeight::Ride { utilization, .. } => *utilization,
            _ => 0,
        }
    }

    /// Seats still free on the edge. On a ride edge the utilization must
    /// not exceed the capacity, which the graph maintains as an invariant.
    pub fn get_remaining_capacity(&self) -> (r: u64)
        requires
            self.spec_utilization() <= self.spec_capacity(),
        ensures
            r == self.spec_remaining_capacity(),
    {
        match self {
            EdgeWeight::Ride { capacity, utilization, .. } => *capacity - *utilization,
            _ => u64::MAX,
        }
    }
}

} // verus!
