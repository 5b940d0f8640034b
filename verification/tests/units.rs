use timetable_flow::annealing::anneal_step;
use timetable_flow::annealing::best_neighbor;
use timetable_flow::annealing::initial_selection;
use timetable_flow::annealing::selection_cost;
use timetable_flow::model::Model;
use timetable_flow::paths::Path;
use timetable_flow::records::Footpath;
use timetable_flow::records::Group;
use timetable_flow::records::Station;
use timetable_flow::records::Trip;
use timetable_flow::solver::rank_paths;
use timetable_flow::weights::EdgeWeight;
use timetable_flow::weights::NodeWeight;

fn path(edges: Vec<usize>, duration: u64, cost: u64, remaining_budget: u64) -> Path {
    Path { edges, duration, cost, remaining_budget }
}

#[test]
fn edge_weight_dispatch() {
    let ride = EdgeWeight::Ride { duration: 10, capacity: 5, utilization: 2 };
    assert_eq!(ride.cost(), 2);
    assert_eq!(ride.get_duration(), 10);
    assert_eq!(ride.get_capacity(), 5);
    assert_eq!(ride.get_utilization(), 2);
    assert_eq!(ride.get_remaining_capacity(), 3);
    assert!(ride.is_ride());
    assert!(!ride.is_walk());
    let board = EdgeWeight::Board;
    assert_eq!(board.cost(), 5);
    assert_eq!(board.get_duration(), 0);
    assert_eq!(board.get_capacity(), u64::MAX);
    assert_eq!(board.get_remaining_capacity(), u64::MAX);
    let walk = EdgeWeight::Walk { duration: 7 };
    assert_eq!(walk.cost(), 10);
    assert!(walk.is_walk());
    let alight = EdgeWeight::Alight { duration: 4 };
    assert_eq!(alight.cost(), 4);
    assert!(alight.is_alight());
    let wait_train = EdgeWeight::WaitInTrain { duration: 3 };
    assert_eq!(wait_train.cost(), 1);
    let wait_station = EdgeWeight::WaitAtStation { duration: 2 };
    assert_eq!(wait_station.cost(), 3);
    let relation = EdgeWeight::MainArrivalRelation;
    assert_eq!(relation.cost(), 0);
}

#[test]
fn increase_utilization_only_on_rides() {
    let mut ride = EdgeWeight::Ride { duration: 10, capacity: 5, utilization: 2 };
    ride.increase_utilization(3);
    assert_eq!(ride.get_utilization(), 5);
    let mut board = EdgeWeight::Board;
    board.increase_utilization(3);
    assert_eq!(board.get_utilization(), 0);
}

#[test]
fn node_weight_accessors() {
    let dep = NodeWeight::Departure { trip_id: 1, time: 5, station_id: "A".to_string() };
    assert_eq!(dep.get_time(), Some(5));
    assert_eq!(dep.get_station(), Some("A".to_string()));
    let arr = NodeWeight::Arrival { trip_id: 1, time: 9, station_id: "B".to_string() };
    assert_eq!(arr.get_time(), Some(9));
    assert_eq!(arr.get_station(), None);
    assert!(arr.is_arrival_at_station("B"));
    assert!(!arr.is_arrival_at_station("A"));
    let main = NodeWeight::MainArrival { station_id: "B".to_string() };
    assert_eq!(main.get_time(), None);
}

#[test]
fn ranking_orders_by_budget_then_duration() {
    let paths = vec![
        path(vec![1], 30, 10, 5),
        path(vec![2], 10, 8, 12),
        path(vec![3], 5, 8, 12),
        path(vec![4], 50, 2, 1),
    ];
    let ranked = rank_paths(paths);
    assert_eq!(ranked[0].remaining_budget, 12);
    assert_eq!(ranked[0].duration, 5);
    assert_eq!(ranked[1].remaining_budget, 12);
    assert_eq!(ranked[1].duration, 10);
    assert_eq!(ranked[2].remaining_budget, 5);
    assert_eq!(ranked[3].remaining_budget, 1);
}

fn group_with_paths(id: u64, pax: usize, paths: Vec<Path>) -> Group {
    Group {
        id,
        start: "A".to_string(),
        destination: "B".to_string(),
        departure: 0,
        arrival: 10,
        passengers: pax,
        in_trip: None,
        paths,
    }
}

#[test]
fn selection_cost_and_step() {
    let groups = vec![
        group_with_paths(1, 2, vec![path(vec![], 30, 5, 5), path(vec![], 20, 9, 1)]),
        group_with_paths(2, 1, vec![]),
    ];
    let sel = initial_selection(&groups);
    assert_eq!(sel, vec![Some(0), None]);
    let cost = selection_cost(&groups, &sel);
    assert_eq!(cost, 30 + 10000);
    // The only neighbor switches the first group to its second candidate.
    let best = best_neighbor(&groups, &sel).expect("a neighbor exists");
    assert_eq!(best.0, vec![Some(1), None]);
    assert_eq!(best.1, 20 + 10000);
    // The improving neighbor is accepted even without the random draw.
    let (next, next_cost, moved) = anneal_step(&groups, sel, cost, false);
    assert!(moved);
    assert_eq!(next, vec![Some(1), None]);
    assert_eq!(next_cost, 20 + 10000);
    // From there the only neighbor worsens; it needs the draw.
    let (back, back_cost, moved2) = anneal_step(&groups, next.clone(), next_cost, false);
    assert!(!moved2);
    assert_eq!(back, next);
    assert_eq!(back_cost, next_cost);
    let (worse, worse_cost, moved3) = anneal_step(&groups, back, back_cost, true);
    assert!(moved3);
    assert_eq!(worse, vec![Some(0), None]);
    assert_eq!(worse_cost, 30 + 10000);
}

#[test]
fn subgraph_keeps_chosen_edges() {
    let stations = vec![Station { id: "A".to_string(), transfer_time: 0 }, Station {
        id: "B".to_string(),
        transfer_time: 0,
    }];
    let trips = vec![Trip {
        id: 1,
        from_station: "A".to_string(),
        to_station: "B".to_string(),
        departure: 0,
        arrival: 10,
        capacity: 5,
    }];
    let footpaths: Vec<Footpath> = Vec::new();
    let (model, _stats) = Model::with_stations_footpaths_and_trips(&stations, &trips, &footpaths);
    // Keep only the ride edge (edge 0, created first).
    let chosen = vec![0usize];
    let (sub, node_map) = model.build_subgraph_with_edges(&chosen);
    assert_eq!(timetable_flow::graph::graph_edge_count(&sub), 1);
    assert_eq!(timetable_flow::graph::graph_node_count(&sub), 2);
    let mapped: Vec<usize> = node_map.iter().filter_map(|x| *x).collect();
    assert_eq!(mapped.len(), 2);
    let w = timetable_flow::graph::graph_edge_weight(&sub, 0);
    assert!(w.is_ride());
}

#[test]
fn transfer_chain_sorted_with_duplicate_departure_times() {
    // Two departures at the same time and one later: the chain is sorted
    // and the station-wait durations bridge the gaps.
    let stations = vec![
        Station { id: "A".to_string(), transfer_time: 0 },
        Station { id: "B".to_string(), transfer_time: 0 },
    ];
    let trips = vec![
        Trip {
            id: 1,
            from_station: "A".to_string(),
            to_station: "B".to_string(),
            departure: 5,
            arrival: 10,
            capacity: 5,
        },
        Trip {
            id: 2,
            from_station: "A".to_string(),
            to_station: "B".to_string(),
            departure: 5,
            arrival: 12,
            capacity: 5,
        },
        Trip {
            id: 3,
            from_station: "A".to_string(),
            to_station: "B".to_string(),
            departure: 2,
            arrival: 20,
            capacity: 5,
        },
    ];
    let footpaths: Vec<Footpath> = Vec::new();
    let (model, _stats) = Model::with_stations_footpaths_and_trips(&stations, &trips, &footpaths);
    let mut wait_durations = Vec::new();
    for e in 0..timetable_flow::graph::graph_edge_count(&model.graph) {
        let w = timetable_flow::graph::graph_edge_weight(&model.graph, e);
        if let EdgeWeight::WaitAtStation { duration } = w {
            wait_durations.push(*duration);
        }
    }
    wait_durations.sort_unstable();
    assert_eq!(wait_durations, vec![0, 3]);
}
