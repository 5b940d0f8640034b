use timetable_flow::builder::BuildStats;
use timetable_flow::codec::decode_assignments;
use timetable_flow::codec::encode_assignments;
use timetable_flow::codec::Assignment;
use timetable_flow::graph::graph_edge_count;
use timetable_flow::graph::graph_edge_endpoints;
use timetable_flow::graph::graph_edge_weight;
use timetable_flow::graph::graph_node_count;
use timetable_flow::graph::graph_node_weight;
use timetable_flow::model::Model;
use timetable_flow::paths::Path;
use timetable_flow::records::Footpath;
use timetable_flow::records::Group;
use timetable_flow::records::Station;
use timetable_flow::records::Trip;
use timetable_flow::weights::EdgeWeight;
use timetable_flow::weights::NodeWeight;

fn station(id: &str, tt: u64) -> Station {
    Station { id: id.to_string(), transfer_time: tt }
}

fn trip(id: u64, from: &str, to: &str, dep: u64, arr: u64, cap: u64) -> Trip {
    Trip {
        id,
        from_station: from.to_string(),
        to_station: to.to_string(),
        departure: dep,
        arrival: arr,
        capacity: cap,
    }
}

fn group(id: u64, start: &str, dest: &str, dep: u64, arr: u64, pax: usize) -> Group {
    Group {
        id,
        start: start.to_string(),
        destination: dest.to_string(),
        departure: dep,
        arrival: arr,
        passengers: pax,
        in_trip: None,
        paths: Vec::new(),
    }
}

fn ride_utilizations(m: &Model) -> Vec<u64> {
    let mut v = Vec::new();
    for e in 0..graph_edge_count(&m.graph) {
        let w = graph_edge_weight(&m.graph, e);
        if w.is_ride() {
            v.push(w.get_utilization());
        }
    }
    v
}

/// Single direct trip: one path of three edges, duration 10, and the ride
/// carries the party after augmentation.
#[test]
fn single_direct_trip() {
    let stations = vec![station("A", 0), station("B", 0)];
    let trips = vec![trip(1, "A", "B", 0, 10, 5)];
    let footpaths: Vec<Footpath> = Vec::new();
    let (mut model, _stats) = Model::with_stations_footpaths_and_trips(
        &stations,
        &trips,
        &footpaths,
    );
    let groups = vec![group(1, "A", "B", 0, 10, 3)];
    let steps = vec![40u64, 80, 120, 200];
    let solved = model.find_solutions(groups, &steps).expect("no overflow expected");
    assert_eq!(solved.len(), 1);
    assert!(!solved[0].paths.is_empty());
    let best: &Path = &solved[0].paths[0];
    assert_eq!(best.duration, 10);
    assert_eq!(best.edges.len(), 3);
    // Board, then the ride, then the relation into the sink.
    let w0 = graph_edge_weight(&model.graph, best.edges[0]);
    let w1 = graph_edge_weight(&model.graph, best.edges[1]);
    let w2 = graph_edge_weight(&model.graph, best.edges[2]);
    assert!(matches!(w0, EdgeWeight::Board));
    assert!(w1.is_ride());
    assert!(matches!(w2, EdgeWeight::MainArrivalRelation));
    assert_eq!(ride_utilizations(&model), vec![3]);
}

/// Capacity block: a party of three cannot take a two-seat trip.
#[test]
fn capacity_block() {
    let stations = vec![station("A", 0), station("B", 0)];
    let trips = vec![trip(1, "A", "B", 0, 10, 2)];
    let footpaths: Vec<Footpath> = Vec::new();
    let (mut model, _stats) = Model::with_stations_footpaths_and_trips(
        &stations,
        &trips,
        &footpaths,
    );
    let groups = vec![group(1, "A", "B", 0, 10, 3)];
    let steps = vec![40u64, 80, 120, 200];
    let solved = model.find_solutions(groups, &steps).expect("no overflow expected");
    assert_eq!(solved.len(), 1);
    assert!(solved[0].paths.is_empty());
    assert_eq!(ride_utilizations(&model), vec![0]);
}

fn transfer_scenario() -> (Vec<Station>, Vec<Trip>, Vec<Footpath>) {
    let stations = vec![station("A", 0), station("B", 5), station("C", 0)];
    let trips = vec![trip(1, "A", "B", 0, 10, 10), trip(2, "B", "C", 20, 30, 10)];
    (stations, trips, Vec::new())
}

/// Transfer via the platform at B: alight after the five-minute transfer
/// time onto B's chain and ride on to C. The edge durations sum to 25:
/// ten on each ride and five to alight.
#[test]
fn transfer_via_platform() {
    let (stations, trips, footpaths) = transfer_scenario();
    let (mut model, _stats) = Model::with_stations_footpaths_and_trips(
        &stations,
        &trips,
        &footpaths,
    );
    let groups = vec![group(1, "A", "C", 0, 30, 1)];
    let steps = vec![40u64];
    let solved = model.find_solutions(groups, &steps).expect("no overflow expected");
    assert!(!solved[0].paths.is_empty());
    let best = &solved[0].paths[0];
    assert_eq!(best.duration, 25);
    let kinds: Vec<bool> = best
        .edges
        .iter()
        .map(|e| graph_edge_weight(&model.graph, *e).is_alight())
        .collect();
    assert!(kinds.iter().any(|k| *k), "the path must alight at B");
}

/// A footpath is used when the same-station alighting leads nowhere early
/// enough.
#[test]
fn footpath_when_alight_too_late() {
    let stations = vec![
        station("A", 0),
        station("B", 0),
        station("C", 0),
        station("D", 0),
        station("E", 0),
    ];
    let trips = vec![
        trip(1, "A", "B", 0, 10, 10),
        trip(2, "C", "D", 15, 25, 10),
        trip(3, "B", "E", 100, 110, 10),
    ];
    let footpaths = vec![Footpath {
        from_station: "B".to_string(),
        to_station: "C".to_string(),
        duration: 3,
    }];
    let (mut model, _stats) = Model::with_stations_footpaths_and_trips(
        &stations,
        &trips,
        &footpaths,
    );
    let groups = vec![group(1, "A", "D", 0, 25, 1)];
    let steps = vec![40u64];
    let solved = model.find_solutions(groups, &steps).expect("no overflow expected");
    assert!(!solved[0].paths.is_empty());
    let best = &solved[0].paths[0];
    let used_walk = best
        .edges
        .iter()
        .any(|e| graph_edge_weight(&model.graph, *e).is_walk());
    assert!(used_walk, "the path must walk from B to C");
}

/// In-trip start: the group begins at its trip's arrival event, not at a
/// platform.
#[test]
fn in_trip_start() {
    let (stations, trips, footpaths) = transfer_scenario();
    let (model, _stats) = Model::with_stations_footpaths_and_trips(&stations, &trips, &footpaths);
    let mut g = group(1, "B", "C", 10, 30, 1);
    g.in_trip = Some(1);
    let steps = vec![40u64];
    let found = g.search_paths(&model, &steps);
    assert!(found);
    let best = &g.paths[0];
    let (src, _tgt) = graph_edge_endpoints(&model.graph, best.edges[0]);
    let w = graph_node_weight(&model.graph, src);
    match w {
        NodeWeight::Arrival { trip_id, .. } => assert_eq!(*trip_id, 1),
        _ => panic!("the path must start at the trip's arrival event"),
    }
}

/// Budget monotonicity across the deepening steps: a budget of six is too
/// small for any path to C; twenty suffices; and deepening from six to
/// twenty finds exactly what twenty alone finds.
#[test]
fn budget_monotonicity_steps() {
    let (stations, trips, footpaths) = transfer_scenario();
    let (model, _stats) = Model::with_stations_footpaths_and_trips(&stations, &trips, &footpaths);
    let steps_low = vec![6u64];
    let steps_high = vec![20u64];
    let steps_both = vec![6u64, 20];

    let mut g1 = group(1, "A", "C", 0, 30, 1);
    assert!(!g1.search_paths(&model, &steps_low));
    assert!(g1.paths.is_empty());

    let mut g2 = group(2, "A", "C", 0, 30, 1);
    assert!(g2.search_paths(&model, &steps_high));
    let high_count = g2.paths.len();
    assert!(high_count >= 1);

    let mut g3 = group(3, "A", "C", 0, 30, 1);
    assert!(g3.search_paths(&model, &steps_both));
    assert_eq!(g3.paths.len(), high_count);
    for (a, b) in g2.paths.iter().zip(g3.paths.iter()) {
        assert_eq!(a.edges, b.edges);
    }
}

/// Serialized assignments survive the round trip.
#[test]
fn codec_round_trip() {
    let assignments = vec![
        Assignment {
            group_id: 7,
            paths: vec![
                Path { edges: vec![0, 2, 5], duration: 25, cost: 18, remaining_budget: 2 },
                Path { edges: vec![], duration: 0, cost: 0, remaining_budget: 20 },
            ],
        },
        Assignment { group_id: 9, paths: vec![] },
    ];
    let bytes = encode_assignments(&assignments);
    let back = decode_assignments(&bytes).expect("an encoding must decode");
    assert_eq!(back.len(), 2);
    assert_eq!(back[0].group_id, 7);
    assert_eq!(back[0].paths.len(), 2);
    assert_eq!(back[0].paths[0].edges, vec![0, 2, 5]);
    assert_eq!(back[0].paths[0].duration, 25);
    assert_eq!(back[0].paths[0].cost, 18);
    assert_eq!(back[0].paths[0].remaining_budget, 2);
    assert_eq!(back[1].group_id, 9);
    assert!(back[1].paths.is_empty());
    // A truncated blob is rejected.
    let mut cut = bytes.clone();
    cut.pop();
    assert!(decode_assignments(&cut).is_none());
}

/// Records naming unknown stations are skipped and counted; nothing of
/// them reaches the graph.
#[test]
fn dangling_references_skipped() {
    let stations = vec![station("A", 0), station("B", 0)];
    let trips = vec![trip(1, "A", "B", 0, 10, 5), trip(2, "A", "X", 0, 10, 5)];
    let footpaths = vec![Footpath {
        from_station: "A".to_string(),
        to_station: "Y".to_string(),
        duration: 2,
    }];
    let (model, stats): (Model, BuildStats) = Model::with_stations_footpaths_and_trips(
        &stations,
        &trips,
        &footpaths,
    );
    assert_eq!(stats.skipped_trips, 1);
    assert_eq!(stats.skipped_footpaths, 1);
    // Two trip events, one transfer, two sinks.
    assert_eq!(graph_node_count(&model.graph), 5);
}

/// A trip arriving before it departs is malformed and skipped.
#[test]
fn malformed_trip_skipped() {
    let stations = vec![station("A", 0), station("B", 0)];
    let trips = vec![trip(1, "A", "B", 10, 5, 5)];
    let footpaths: Vec<Footpath> = Vec::new();
    let (model, stats) = Model::with_stations_footpaths_and_trips(&stations, &trips, &footpaths);
    assert_eq!(stats.skipped_trips, 1);
    assert_eq!(graph_edge_count(&model.graph), 0);
}

/// The time box formula: twice the planned travel time plus the slack.
#[test]
fn max_travel_duration_formula() {
    assert_eq!(Group::calculate_max_travel_duration(0), 50);
    assert_eq!(Group::calculate_max_travel_duration(30), 110);
}
