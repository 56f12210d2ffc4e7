use yoyo::graph::TrackGraph;
use yoyo::model::{ConnectionRef, CouplerDef, PointLeg, RouteNode, Station, TrackLayout, TrackSegment, TrackSide};
use yoyo::pi_client::{PointDirection, TrackDirection};
use yoyo::route_planner::{
    plan_routes, plan_routes_with_graph, plan_target_routes_with, PlanError, PlannedRoute, RouteStep, TrackCommand,
};
use yoyo::state::{Destination, InitialiseRequest, RouteRequest, RouteTrainRequest, TrainDirection, TrainPosition};

fn s(id: u8) -> RouteNode {
    RouteNode::Sensor { id }
}

fn conn(id: u8, peer_track: u8, peer_side: TrackSide) -> RouteNode {
    RouteNode::Connection { id, peer_track, peer_side }
}

fn leg(nodes: Vec<RouteNode>) -> PointLeg {
    PointLeg { along_fwd: nodes }
}

fn point(id: u8, entry: Vec<RouteNode>, thru: Vec<RouteNode>, branch: Vec<RouteNode>) -> RouteNode {
    RouteNode::Point { id, entry: leg(entry), thru: leg(thru), branch: leg(branch) }
}

fn track(id: u8, along_fwd: Vec<RouteNode>) -> TrackSegment {
    TrackSegment { id, along_fwd }
}

fn port(track: u8, side: TrackSide) -> ConnectionRef {
    ConnectionRef::TrackPort { track, side }
}

fn station(name: &str, sensor_ids: Vec<u8>) -> Station {
    Station { name: name.to_string(), sensor_ids }
}

/// The layout of the railway: an outer loop of tracks 1 and 2, a branch line through
/// tracks 3 to 8, and the sidings of track 11.
fn canonical_layout() -> TrackLayout {
    TrackLayout {
        version: 2,
        tracks: vec![
            track(1, vec![conn(1, 2, TrackSide::Fwd), s(1), s(2), s(3), conn(2, 2, TrackSide::Bwd)]),
            track(2, vec![conn(2, 1, TrackSide::Fwd), s(4), RouteNode::Coupler { id: 1 }, RouteNode::Coupler { id: 3 }, s(5), conn(1, 1, TrackSide::Bwd)]),
            track(3, vec![conn(3, 4, TrackSide::Fwd), s(6), RouteNode::Coupler { id: 1 }, s(7), s(8), conn(4, 4, TrackSide::Bwd)]),
            track(4, vec![conn(4, 3, TrackSide::Fwd), s(9), s(10), point(5, vec![s(11)], vec![conn(3, 3, TrackSide::Bwd)], vec![conn(5, 5, TrackSide::Bwd)])]),
            track(5, vec![conn(5, 4, TrackSide::Fwd), s(12), RouteNode::Coupler { id: 3 }, s(13), conn(6, 6, TrackSide::Bwd)]),
            track(6, vec![conn(6, 5, TrackSide::Fwd), s(14), s(15), point(7, vec![s(16)], vec![conn(7, 7, TrackSide::Bwd)], vec![conn(8, 8, TrackSide::Bwd)])]),
            track(7, vec![conn(7, 6, TrackSide::Fwd), s(17), s(23), RouteNode::Buffer]),
            track(8, vec![conn(8, 6, TrackSide::Fwd), s(24), conn(9, 11, TrackSide::Bwd)]),
            track(9, vec![]),
            track(10, vec![]),
            track(
                11,
                vec![
                    conn(9, 8, TrackSide::Fwd),
                    point(
                        8,
                        vec![RouteNode::Inline],
                        vec![s(18), RouteNode::Buffer],
                        vec![point(
                            10,
                            vec![RouteNode::Inline],
                            vec![s(19), RouteNode::Buffer],
                            vec![point(11, vec![RouteNode::Inline], vec![s(20), RouteNode::Buffer], vec![s(21), RouteNode::Buffer])],
                        )],
                    ),
                ],
            ),
            track(12, vec![]),
        ],
        couplers: vec![
            CouplerDef { id: 1, entry_a: port(2, TrackSide::Bwd), thru_a: port(2, TrackSide::Fwd), entry_b: port(3, TrackSide::Bwd), thru_b: port(3, TrackSide::Fwd) },
            CouplerDef { id: 3, entry_a: port(2, TrackSide::Bwd), thru_a: port(2, TrackSide::Fwd), entry_b: port(5, TrackSide::Bwd), thru_b: port(5, TrackSide::Fwd) },
        ],
        stations: vec![
            station("waterloo", vec![2, 7, 12, 17]),
            station("bridge", vec![5, 9, 16]),
            station("sidings", vec![18, 19, 20, 21]),
            station("blackheath", vec![24]),
            station("industrial", vec![13, 23]),
        ],
        notes: None,
    }
}

fn canonical_graph() -> TrackGraph {
    let layout = canonical_layout();
    layout.validate().expect("validate");
    TrackGraph::from_layout(&layout)
}

fn make_train(train: u8, sensor: u8) -> TrainPosition {
    TrainPosition { train, sensor, direction: TrainDirection::Fwd, destination: None }
}

fn route_sensor(train: u8, sensor: u8) -> RouteTrainRequest {
    RouteTrainRequest { train, destination: Destination::Sensor(sensor), direction: TrainDirection::Fwd }
}

fn route_sensor_dir(train: u8, sensor: u8, direction: TrainDirection) -> RouteTrainRequest {
    RouteTrainRequest { train, destination: Destination::Sensor(sensor), direction }
}

fn route_station(train: u8, name: &str) -> RouteTrainRequest {
    RouteTrainRequest { train, destination: Destination::Station(name.to_string()), direction: TrainDirection::Fwd }
}

fn test_layout_and_graph() -> (TrackLayout, TrackGraph) {
    let layout = canonical_layout();
    layout.validate().expect("validate");
    let graph = TrackGraph::from_layout(&layout);
    (layout, graph)
}

fn one_train(train: u8, sensor: u8, destination: Option<u8>) -> Vec<TrainPosition> {
    vec![TrainPosition { train, sensor, direction: TrainDirection::default(), destination }]
}

#[test]
fn plan_same_sensor_no_commands() {
    let graph = canonical_graph();
    let plans = plan_routes_with_graph(&one_train(1, 5, Some(5)), &graph).unwrap();
    assert_eq!(plans.len(), 1);
    assert_eq!(plans[0].hop_count, 0);
    assert!(plans[0].commands.is_empty());
    assert!(plans[0].description.contains("already at"));
}

#[test]
fn plan_adjacent_sensors() {
    let graph = canonical_graph();
    let plans = plan_routes_with_graph(&one_train(1, 1, Some(2)), &graph).unwrap();
    assert_eq!(plans.len(), 1);
    assert_eq!(plans[0].from_sensor, 1);
    assert_eq!(plans[0].to_sensor, 2);
    assert_eq!(plans[0].hop_count, 1);
    assert!(plans[0].commands.iter().any(|c| matches!(c, TrackCommand::SetTrackSpeed { .. })));
}

#[test]
fn plan_route_to_siding_requires_points() {
    let graph = canonical_graph();
    let plans = plan_routes_with_graph(&one_train(1, 10, Some(18)), &graph).unwrap();
    assert_eq!(plans.len(), 1);
    let point_cmds: Vec<_> = plans[0].commands.iter().filter(|c| matches!(c, TrackCommand::SetPoint { .. })).collect();
    assert!(!point_cmds.is_empty(), "route to siding should require point settings");
}

#[test]
fn plan_cross_track_route() {
    let graph = canonical_graph();
    let plans = plan_routes_with_graph(&one_train(1, 3, Some(4)), &graph).unwrap();
    assert_eq!(plans.len(), 1);
    assert!(!plans[0].track_ids.is_empty());
    assert!(plans[0].description.contains("Crosses"));
}

#[test]
fn plan_multiple_trains() {
    let graph = canonical_graph();
    let trains = vec![
        TrainPosition { train: 1, sensor: 1, direction: TrainDirection::default(), destination: Some(5) },
        TrainPosition { train: 2, sensor: 10, direction: TrainDirection::default(), destination: Some(12) },
    ];
    let plans = plan_routes_with_graph(&trains, &graph).unwrap();
    assert_eq!(plans.len(), 2);
    assert_eq!(plans[0].train_index, 0);
    assert_eq!(plans[1].train_index, 1);
}

#[test]
fn plan_no_destination_errors() {
    let graph = canonical_graph();
    let err = plan_routes_with_graph(&one_train(1, 1, None), &graph).unwrap_err();
    assert!(err.to_string().contains("no destination"));
}

#[test]
fn plan_unreachable_sensor_errors() {
    let graph = canonical_graph();
    let err = plan_routes_with_graph(&one_train(1, 1, Some(99)), &graph).unwrap_err();
    assert!(err.to_string().contains("no route"));
}

#[test]
fn track_command_display() {
    let cmd = TrackCommand::SetPoint { point_id: 5, direction: PointDirection::Branch };
    assert_eq!(cmd.to_string(), "SET POINT 5 → BRANCH");
    let cmd = TrackCommand::SetTrackSpeed { track_id: 3, direction: TrackDirection::Fwd, speed: 40 };
    assert_eq!(cmd.to_string(), "SET TRACK 3 → FWD @ 40%");
    let cmd = TrackCommand::StopTrack { track_id: 7 };
    assert_eq!(cmd.to_string(), "STOP TRACK 7");
}

fn speed_commands(plan: &PlannedRoute) -> Vec<(u8, TrackDirection)> {
    plan.commands
        .iter()
        .filter_map(|c| match c {
            TrackCommand::SetTrackSpeed { track_id, direction, .. } => Some((*track_id, *direction)),
            _ => None,
        })
        .collect()
}

#[test]
fn forward_route_uses_fwd_direction() {
    let graph = canonical_graph();
    let plans = plan_routes_with_graph(&one_train(1, 1, Some(2)), &graph).unwrap();
    let track_cmds = speed_commands(&plans[0]);
    assert!(
        track_cmds.iter().any(|(tid, dir)| *tid == 1 && *dir == TrackDirection::Fwd),
        "route 1→2 should use FWD on track 1, got: {:?}",
        track_cmds
    );
}

#[test]
fn backward_route_uses_bck_direction() {
    let graph = canonical_graph();
    let plans = plan_routes_with_graph(&one_train(1, 2, Some(1)), &graph).unwrap();
    let track_cmds = speed_commands(&plans[0]);
    assert!(
        track_cmds.iter().any(|(tid, dir)| *tid == 1 && *dir == TrackDirection::Bck),
        "route 2→1 should use BCK on track 1, got: {:?}",
        track_cmds
    );
}

#[test]
fn target_route_already_there() {
    let (layout, graph) = test_layout_and_graph();
    let current = InitialiseRequest { trains: vec![make_train(1, 5)] };
    let target = RouteRequest { trains: vec![route_sensor(1, 5)] };
    let plan = plan_target_routes_with(&current, &target, &layout, &graph).unwrap();
    assert_eq!(plan.trains.len(), 1);
    assert!(plan.trains[0].already_there);
    assert!(plan.trains[0].steps.is_empty());
}

#[test]
fn target_route_adjacent_sensor() {
    let (layout, graph) = test_layout_and_graph();
    let current = InitialiseRequest { trains: vec![make_train(1, 1)] };
    let target = RouteRequest { trains: vec![route_sensor(1, 2)] };
    let plan = plan_target_routes_with(&current, &target, &layout, &graph).unwrap();
    assert_eq!(plan.trains.len(), 1);
    assert!(!plan.trains[0].already_there);
    assert_eq!(plan.trains[0].from_sensor, 1);
    assert_eq!(plan.trains[0].to_sensor, 2);
    let has_energise = plan.trains[0].steps.iter().any(|s| matches!(s, RouteStep::EnergiseTrack { .. }));
    let has_await = plan.trains[0].steps.iter().any(|s| matches!(s, RouteStep::AwaitSensor { .. }));
    let has_deenergise = plan.trains[0].steps.iter().any(|s| matches!(s, RouteStep::DeEnergiseTrack { .. }));
    assert!(has_energise, "should energise a track");
    assert!(has_await, "should await a sensor");
    assert!(has_deenergise, "should de-energise track after arrival");
}

#[test]
fn target_route_train_not_found() {
    let (layout, graph) = test_layout_and_graph();
    let current = InitialiseRequest { trains: vec![make_train(1, 1)] };
    let target = RouteRequest { trains: vec![route_sensor(99, 2)] };
    let err = plan_target_routes_with(&current, &target, &layout, &graph).unwrap_err();
    assert!(err.to_string().contains("train 99"));
}

#[test]
fn target_route_cross_track() {
    let (layout, graph) = test_layout_and_graph();
    let current = InitialiseRequest { trains: vec![make_train(1, 3)] };
    let target = RouteRequest { trains: vec![route_sensor(1, 4)] };
    let plan = plan_target_routes_with(&current, &target, &layout, &graph).unwrap();
    assert!(!plan.trains[0].already_there);
    assert!(!plan.trains[0].track_ids.is_empty(), "route should use at least one track");
    let deenergise_count = plan.trains[0].steps.iter().filter(|s| matches!(s, RouteStep::DeEnergiseTrack { .. })).count();
    assert!(deenergise_count >= 1, "should de-energise at least 1 track");
}

#[test]
fn target_route_two_trains_reserves_tracks() {
    let (layout, graph) = test_layout_and_graph();
    let current = InitialiseRequest { trains: vec![make_train(1, 1), make_train(2, 10)] };
    let target = RouteRequest { trains: vec![route_sensor(1, 3), route_sensor(2, 12)] };
    let plan = plan_target_routes_with(&current, &target, &layout, &graph).unwrap();
    assert_eq!(plan.trains.len(), 2);
    assert_eq!(plan.trains[0].train, 1);
    assert_eq!(plan.trains[1].train, 2);
}

#[test]
fn target_route_direction_warning() {
    let (layout, graph) = test_layout_and_graph();
    let current = InitialiseRequest { trains: vec![make_train(1, 1)] };
    let target = RouteRequest { trains: vec![route_sensor_dir(1, 2, TrainDirection::Bwd)] };
    let plan = plan_target_routes_with(&current, &target, &layout, &graph).unwrap();
    assert!(
        plan.trains[0].description.contains("WARNING"),
        "should warn about direction mismatch: {}",
        plan.trains[0].description
    );
}

#[test]
fn target_route_by_station_name() {
    let (layout, graph) = test_layout_and_graph();
    let current = InitialiseRequest { trains: vec![make_train(1, 1)] };
    let target = RouteRequest { trains: vec![route_station(1, "waterloo")] };
    let plan = plan_target_routes_with(&current, &target, &layout, &graph).unwrap();
    assert_eq!(plan.trains.len(), 1);
    assert!(!plan.trains[0].already_there);
    let waterloo_sensors = [2u8, 7, 12, 17];
    assert!(
        waterloo_sensors.contains(&plan.trains[0].to_sensor),
        "should route to a waterloo station sensor, got {}",
        plan.trains[0].to_sensor
    );
}

#[test]
fn target_route_unknown_station() {
    let (layout, graph) = test_layout_and_graph();
    let current = InitialiseRequest { trains: vec![make_train(1, 1)] };
    let target = RouteRequest { trains: vec![route_station(1, "nonexistent")] };
    let err = plan_target_routes_with(&current, &target, &layout, &graph).unwrap_err();
    assert!(err.to_string().contains("nonexistent"), "should mention station name: {}", err.to_string());
}

#[test]
fn target_route_step_display() {
    let step = RouteStep::SetPoint { train: 1, point_id: 5, direction: PointDirection::Branch };
    assert_eq!(step.to_string(), "Train 1: SET POINT 5 → BRANCH");
    let step = RouteStep::EnergiseTrack { train: 2, track_id: 3, direction: TrackDirection::Fwd, speed: 40 };
    assert_eq!(step.to_string(), "Train 2: ENERGISE TRACK 3 → FWD @ 40%");
    let step = RouteStep::AwaitSensor { train: 1, sensor: 7, note: "arriving".into() };
    assert_eq!(step.to_string(), "Train 1: AWAIT SENSOR 7 (arriving)");
    let step = RouteStep::DeEnergiseTrack { train: 1, track_id: 4 };
    assert_eq!(step.to_string(), "Train 1: DE-ENERGISE TRACK 4");
}

#[test]
fn route_train_at_sensor_21_to_waterloo() {
    let (layout, graph) = test_layout_and_graph();
    let current = InitialiseRequest { trains: vec![make_train(1, 21)] };
    let target = RouteRequest { trains: vec![route_station(1, "waterloo")] };
    let plan = plan_target_routes_with(&current, &target, &layout, &graph).unwrap();
    assert_eq!(plan.trains.len(), 1);
    assert!(!plan.trains[0].already_there);
    let waterloo_sensors = [2u8, 7, 12, 17];
    assert!(
        waterloo_sensors.contains(&plan.trains[0].to_sensor),
        "train 1 from sensor 21 should route to a waterloo sensor, got {}",
        plan.trains[0].to_sensor
    );
    assert!(!plan.trains[0].steps.is_empty(), "should have route steps");
}

#[test]
fn route_two_trains_from_sidings() {
    let (layout, graph) = test_layout_and_graph();
    let current = InitialiseRequest { trains: vec![make_train(1, 21), make_train(2, 20)] };
    let target = RouteRequest { trains: vec![route_station(1, "waterloo"), route_station(2, "bridge")] };
    let plan = plan_target_routes_with(&current, &target, &layout, &graph).unwrap();
    assert_eq!(plan.trains.len(), 2);
    let waterloo_sensors = [2u8, 7, 12, 17];
    let bridge_sensors = [5u8, 9, 16];
    assert!(
        waterloo_sensors.contains(&plan.trains[0].to_sensor),
        "train 1 should route to waterloo, got sensor {}",
        plan.trains[0].to_sensor
    );
    assert!(
        bridge_sensors.contains(&plan.trains[1].to_sensor),
        "train 2 should route to bridge, got sensor {}",
        plan.trains[1].to_sensor
    );
}

#[test]
fn sensor_22_does_not_exist_in_graph() {
    let graph = canonical_graph();
    assert!(graph.find_route(22, 1).is_none(), "there should be no route FROM sensor 22 (it doesn't exist)");
    assert!(graph.find_route(1, 22).is_none(), "there should be no route TO sensor 22 (it doesn't exist)");
}

#[test]
fn route_every_station_pair() {
    let (layout, graph) = test_layout_and_graph();
    for from_station in &layout.stations {
        for to_station in &layout.stations {
            if from_station.name == to_station.name {
                continue;
            }
            let from_sensor = from_station.sensor_ids[0];
            let current = InitialiseRequest { trains: vec![make_train(1, from_sensor)] };
            let target = RouteRequest { trains: vec![route_station(1, &to_station.name)] };
            let result = plan_target_routes_with(&current, &target, &layout, &graph);
            assert!(
                result.is_ok(),
                "should find route from {} (sensor {}) to {}: {:?}",
                from_station.name,
                from_sensor,
                to_station.name,
                result.err().map(|e| e.to_string())
            );
        }
    }
}

#[test]
fn plan_steps_switch_power_one_track_at_a_time() {
    let (layout, graph) = test_layout_and_graph();
    let current = InitialiseRequest { trains: vec![make_train(1, 1)] };
    let target = RouteRequest { trains: vec![route_sensor(1, 3)] };
    let plan = plan_target_routes_with(&current, &target, &layout, &graph).unwrap();
    let steps: Vec<String> = plan.trains[0].steps.iter().map(|s| s.to_string()).collect();
    assert_eq!(
        steps,
        vec![
            "Train 1: ENERGISE TRACK 1 → FWD @ 40%".to_string(),
            "Train 1: AWAIT SENSOR 2 (train 1 reaching sensor 2)".to_string(),
            "Train 1: AWAIT SENSOR 3 (train 1 reaching sensor 3)".to_string(),
            "Train 1: DE-ENERGISE TRACK 1".to_string(),
        ]
    );
    assert_eq!(plan.trains[0].target_direction, "fwd");
    assert_eq!(plan.trains[0].hop_count, 2);
    assert!(plan.warnings.is_empty());
}

#[test]
fn plan_description_lists_path_and_tracks() {
    let graph = canonical_graph();
    let plans = plan_routes_with_graph(&one_train(1, 1, Some(2)), &graph).unwrap();
    assert_eq!(plans[0].description, "Path: S1 → S2. Tracks: T1. 1 hop(s)");
    let plans = plan_routes_with_graph(&one_train(1, 5, Some(5)), &graph).unwrap();
    assert_eq!(plans[0].description, "Train already at sensor 5 — no movement needed.");
}

#[test]
fn plans_reusing_a_track_warn() {
    let (layout, graph) = test_layout_and_graph();
    let current = InitialiseRequest { trains: vec![make_train(1, 1), make_train(2, 2)] };
    let target = RouteRequest { trains: vec![route_sensor(1, 2), route_sensor(2, 3)] };
    let plan = plan_target_routes_with(&current, &target, &layout, &graph).unwrap();
    assert_eq!(
        plan.warnings,
        vec![
            "Train 2 needs track 1 which is reserved by another train — trains must be sequenced (move one at a time through shared tracks)"
                .to_string()
        ]
    );
}

#[test]
fn already_there_plan_text() {
    let (layout, graph) = test_layout_and_graph();
    let current = InitialiseRequest { trains: vec![make_train(3, 7)] };
    let target = RouteRequest { trains: vec![route_station(3, "WaterLoo")] };
    let plan = plan_target_routes_with(&current, &target, &layout, &graph).unwrap();
    assert!(plan.trains[0].already_there);
    assert_eq!(plan.trains[0].description, "Train 3 already at sensor 7 — no movement needed.");
    assert_eq!(plan.trains[0].from_station.as_deref(), Some("waterloo"));
    assert_eq!(plan.trains[0].to_station.as_deref(), Some("waterloo"));
}

#[test]
fn plan_error_messages() {
    assert_eq!(PlanError::NoCurrentState.to_string(), "no current train state — POST /initialise before /route");
    assert_eq!(PlanError::Layout("bad".to_string()).to_string(), "layout load/validate error: bad");
    assert_eq!(
        PlanError::NoRoute { train_index: 2, from: 1, to: 9 }.to_string(),
        "no route from sensor 1 to sensor 9 for train 2"
    );
    assert_eq!(
        PlanError::UnknownStation { train_id: 4, name: "x".to_string() }.to_string(),
        "unknown station \"x\" for train 4"
    );
}

#[test]
fn invalid_layout_is_reported_by_planner() {
    let mut layout = canonical_layout();
    layout.version = 1;
    let err = plan_routes(&one_train(1, 1, Some(2)), &layout).unwrap_err();
    assert_eq!(err.to_string(), "layout load/validate error: unsupported layout version: 1 (expected 2)");
    let ok = plan_routes(&one_train(1, 1, Some(2)), &canonical_layout()).unwrap();
    assert_eq!(ok[0].hop_count, 1);
}

#[test]
fn station_names_differing_in_case_keep_the_last_station() {
    let layout = TrackLayout {
        version: 2,
        tracks: vec![
            track(1, vec![conn(1, 2, TrackSide::Fwd), s(1), s(2), conn(2, 2, TrackSide::Bwd)]),
            track(2, vec![conn(2, 1, TrackSide::Fwd), s(3), s(4), conn(1, 1, TrackSide::Bwd)]),
        ],
        couplers: vec![],
        stations: vec![station("Central", vec![1]), station("central", vec![2])],
        notes: None,
    };
    layout.validate().expect("validate");
    let graph = TrackGraph::from_layout(&layout);
    let current = InitialiseRequest {
        trains: vec![TrainPosition { train: 1, sensor: 1, direction: TrainDirection::Fwd, destination: None }],
    };
    let target = RouteRequest { trains: vec![route_sensor(1, 2)] };
    let plan = plan_target_routes_with(&current, &target, &layout, &graph).unwrap();
    assert_eq!(plan.trains[0].from_station, None);
    assert_eq!(plan.trains[0].to_station, Some("central".to_string()));
    let target = RouteRequest { trains: vec![route_station(1, "CENTRAL")] };
    let plan = plan_target_routes_with(&current, &target, &layout, &graph).unwrap();
    assert_eq!(plan.trains[0].to_sensor, 2);
}
