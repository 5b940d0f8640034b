//! The validated input records the core consumes: stations, trips,
//! footpaths, and the travel groups to be routed.

use vstd::prelude::*;

use crate::paths::Path;

verus! {

/// A station of the timetable, with the minutes a passenger needs to move
/// between platforms there.
#[derive(Debug, Clone)]
pub struct Station {
    pub id: String,
    pub transfer_time: u64,
}

/// A single scheduled movement between two stations, with a seat limit.
#[derive(Debug, Clone)]
pub struct Trip {
    pub id: u64,
    pub from_station: String,
    pub to_station: String,
    pub departure: u64,
    pub arrival: u64,
    pub capacity: u64,
}

/// A walking connection between two stations.
#[derive(Debug, Clone)]
pub struct Footpath {
    pub from_station: String,
    pub to_station: String,
    pub duration: u64,
}

/// A travel group: a party that wants to go from a start station to a
/// destination, leaving no earlier than `departure` and originally planned
/// to arrive at `arrival`. When `in_trip` is set the group is currently
/// riding that trip and starts at its arrival event instead of a platform.
#[derive(Debug, Clone)]
pub struct Group {
    pub id: u64,
    pub start: String,
    pub destination: String,
    pub departure: u64,
    pub arrival: u64,
    pub passengers: usize,
    pub in_trip: Option<usize>,
    /// The candidate paths found for this group, best first.
    pub paths: Vec<Path>,
}

impl Group {
    /// The time box a group's itinerary may use: twice the originally
    /// planned travel time plus a fixed slack of 50 minutes.
    pub open spec fn spec_max_travel_duration(travel_time: u64) -> int {
        2 * travel_time + 50
    }

    pub fn calculate_max_travel_duration(travel_time: u64) -> (d: u64)
        requires
            Self::spec_max_travel_duration(travel_time) <= u64::MAX,
        ensures
            d == Self::spec_max_travel_duration(travel_time),
    {
        2 * travel_time + 50
    }
}

} // verus!
