use yoyo::model::{ConnectionRef, CouplerDef, PointLeg, RouteNode, Station, TrackLayout, TrackSegment, TrackSide};
use yoyo::route_planner::PlannedRoute;
use yoyo::state::{TrainDirection, TrainPosition};
use yoyo::train_controller::{ControllerError, TickAction, TrainController, TrainPhase};

fn s(id: u8) -> RouteNode {
    RouteNode::Sensor { id }
}

fn conn(id: u8, peer_track: u8, peer_side: TrackSide) -> RouteNode {
    RouteNode::Connection { id, peer_track, peer_side }
}

fn leg(nodes: Vec<RouteNode>) -> PointLeg {
    PointLeg { along_fwd: nodes }
}

fn point(id: u8, entry: Vec<RouteNode>, thru: Vec<RouteNode>, branch: Vec<RouteNode>) -> RouteNode {
    RouteNode::Point { id, entry: leg(entry), thru: leg(thru), branch: leg(branch) }
}

fn track(id: u8, along_fwd: Vec<RouteNode>) -> TrackSegment {
    TrackSegment { id, along_fwd }
}

fn port(track: u8, side: TrackSide) -> ConnectionRef {
    ConnectionRef::TrackPort { track, side }
}

fn station(name: &str, sensor_ids: Vec<u8>) -> Station {
    Station { name: name.to_string(), sensor_ids }
}

/// The layout of the railway: an outer loop of tracks 1 and 2, a branch line through
/// tracks 3 to 8, and the sidings of track 11.
fn canonical_layout() -> TrackLayout {
    TrackLayout {
        version: 2,
        tracks: vec![
            track(1, vec![conn(1, 2, TrackSide::Fwd), s(1), s(2), s(3), conn(2, 2, TrackSide::Bwd)]),
            track(2, vec![conn(2, 1, TrackSide::Fwd), s(4), RouteNode::Coupler { id: 1 }, RouteNode::Coupler { id: 3 }, s(5), conn(1, 1, TrackSide::Bwd)]),
            track(3, vec![conn(3, 4, TrackSide::Fwd), s(6), RouteNode::Coupler { id: 1 }, s(7), s(8), conn(4, 4, TrackSide::Bwd)]),
            track(4, vec![conn(4, 3, TrackSide::Fwd), s(9), s(10), point(5, vec![s(11)], vec![conn(3, 3, TrackSide::Bwd)], vec![conn(5, 5, TrackSide::Bwd)])]),
            track(5, vec![conn(5, 4, TrackSide::Fwd), s(12), RouteNode::Coupler { id: 3 }, s(13), conn(6, 6, TrackSide::Bwd)]),
            track(6, vec![conn(6, 5, TrackSide::Fwd), s(14), s(15), point(7, vec![s(16)], vec![conn(7, 7, TrackSide::Bwd)], vec![conn(8, 8, TrackSide::Bwd)])]),
            track(7, vec![conn(7, 6, TrackSide::Fwd), s(17), s(23), RouteNode::Buffer]),
            track(8, vec![conn(8, 6, TrackSide::Fwd), s(24), conn(9, 11, TrackSide::Bwd)]),
            track(9, vec![]),
            track(10, vec![]),
            track(
                11,
                vec![
                    conn(9, 8, TrackSide::Fwd),
                    point(
                        8,
                        vec![RouteNode::Inline],
                        vec![s(18), RouteNode::Buffer],
                        vec![point(
                            10,
                            vec![RouteNode::Inline],
                            vec![s(19), RouteNode::Buffer],
                            vec![point(11, vec![RouteNode::Inline], vec![s(20), RouteNode::Buffer], vec![s(21), RouteNode::Buffer])],
                        )],
                    ),
                ],
            ),
            track(12, vec![]),
        ],
        couplers: vec![
            CouplerDef { id: 1, entry_a: port(2, TrackSide::Bwd), thru_a: port(2, TrackSide::Fwd), entry_b: port(3, TrackSide::Bwd), thru_b: port(3, TrackSide::Fwd) },
            CouplerDef { id: 3, entry_a: port(2, TrackSide::Bwd), thru_a: port(2, TrackSide::Fwd), entry_b: port(5, TrackSide::Bwd), thru_b: port(5, TrackSide::Fwd) },
        ],
        stations: vec![
            station("waterloo", vec![2, 7, 12, 17]),
            station("bridge", vec![5, 9, 16]),
            station("sidings", vec![18, 19, 20, 21]),
            station("blackheath", vec![24]),
            station("industrial", vec![13, 23]),
        ],
        notes: None,
    }
}

fn test_positions() -> Vec<TrainPosition> {
    vec![
        TrainPosition { train: 1, sensor: 1, direction: TrainDirection::default(), destination: None },
        TrainPosition { train: 2, sensor: 10, direction: TrainDirection::default(), destination: None },
    ]
}

fn new_controller() -> TrainController {
    TrainController::new(canonical_layout(), &test_positions()).unwrap()
}

fn station_of(ctrl: &TrainController, sensor: u8) -> Option<String> {
    ctrl.station_sensors.iter().rev().find(|(s, _)| *s == sensor).map(|(_, n)| n.clone())
}

fn usage_of(ctrl: &TrainController, track: u8) -> u32 {
    ctrl.track_usage.iter().find(|(t, _)| *t == track).map(|(_, c)| *c).unwrap_or(0)
}

#[test]
fn controller_creates_from_positions() {
    let ctrl = new_controller();
    assert_eq!(ctrl.trains.len(), 2);
    assert_eq!(ctrl.trains[0].current_sensor, 1);
    assert_eq!(ctrl.trains[1].current_sensor, 10);
    assert!(matches!(ctrl.trains[0].phase, TrainPhase::Idle));
}

#[test]
fn station_sensors_loaded() {
    let ctrl = new_controller();
    assert_eq!(station_of(&ctrl, 2), Some("waterloo".to_string()));
    assert_eq!(station_of(&ctrl, 7), Some("waterloo".to_string()));
    assert_eq!(station_of(&ctrl, 18), Some("sidings".to_string()));
    assert_eq!(station_of(&ctrl, 24), Some("blackheath".to_string()));
}

#[test]
fn pick_destination_avoids_other_trains() {
    let ctrl = new_controller();
    let dest = ctrl.pick_destination(0);
    assert!(dest.is_some());
    assert_ne!(dest.unwrap(), 10);
    assert_ne!(dest.unwrap(), 1);
}

#[test]
fn pick_destination_prefers_stations() {
    let ctrl = new_controller();
    let dest = ctrl.pick_destination(0);
    assert!(dest.is_some());
    assert!(
        ctrl.all_station_sensors.contains(&dest.unwrap()),
        "destination {} should be a station sensor",
        dest.unwrap()
    );
}

#[test]
fn plan_route_reserves_segments() {
    let mut ctrl = new_controller();
    let dest = ctrl.pick_destination(0).unwrap();
    let route = ctrl.plan_route(0, dest).unwrap();
    assert!(!route.track_ids.is_empty() || route.hop_count == 0);
    if !route.track_ids.is_empty() {
        assert!(!ctrl.trains[0].reserved_segments.is_empty());
    }
}

#[test]
fn collision_avoidance_reserves_disjoint() {
    let mut ctrl = new_controller();
    let dest0 = ctrl.pick_destination(0).unwrap();
    let _route0 = ctrl.plan_route(0, dest0).unwrap();
    let reserved0 = ctrl.trains[0].reserved_segments.clone();
    let dest1 = ctrl.pick_destination(1).unwrap();
    let _route1 = ctrl.plan_route(1, dest1).unwrap();
    let reserved1 = ctrl.trains[1].reserved_segments.clone();
    assert!(
        reserved0.iter().all(|t| !reserved1.contains(t)),
        "reserved segments should not overlap: train 0 = {:?}, train 1 = {:?}",
        reserved0,
        reserved1
    );
}

#[test]
fn arrive_at_station_starts_dwelling() {
    let mut ctrl = new_controller();
    ctrl.arrive(0, 2, 1_000);
    assert_eq!(ctrl.trains[0].current_sensor, 2);
    assert!(matches!(ctrl.trains[0].phase, TrainPhase::Dwelling { .. }));
    assert!(ctrl.trains[0].visited_stations.contains(&2));
}

#[test]
fn arrive_at_non_station_goes_idle() {
    let mut ctrl = new_controller();
    ctrl.arrive(0, 3, 1_000);
    assert_eq!(ctrl.trains[0].current_sensor, 3);
    assert!(matches!(ctrl.trains[0].phase, TrainPhase::Idle));
}

#[test]
fn dwell_check_not_expired() {
    let mut ctrl = new_controller();
    ctrl.arrive(0, 2, 1_000);
    assert!(!ctrl.check_dwell_complete(0, 1_000));
}

#[test]
fn dwell_check_expired() {
    let mut ctrl = new_controller();
    let now = 100_000;
    ctrl.trains[0].phase = TrainPhase::Dwelling { sensor: 2, station_name: "waterloo".into(), until_ms: now - 1_000 };
    assert!(ctrl.check_dwell_complete(0, now));
    assert!(matches!(ctrl.trains[0].phase, TrainPhase::Idle));
}

#[test]
fn should_wait_for_adjacent_when_en_route() {
    let mut ctrl = new_controller();
    ctrl.arrive(0, 2, 1_000);
    ctrl.trains[1].phase = TrainPhase::EnRoute {
        destination: 7,
        route: PlannedRoute {
            train_index: 1,
            from_sensor: 10,
            to_sensor: 7,
            track_ids: vec![5],
            hop_count: 1,
            description: "test".into(),
            commands: vec![],
        },
    };
    assert!(ctrl.should_wait_for_adjacent(0));
}

#[test]
fn all_reserved_segments_union() {
    let mut ctrl = new_controller();
    ctrl.trains[0].reserved_segments = vec![1, 2];
    ctrl.trains[1].reserved_segments = vec![3];
    let all = ctrl.all_reserved_segments();
    assert_eq!(all, vec![1, 2, 3]);
}

#[test]
fn track_usage_increments_on_plan() {
    let mut ctrl = new_controller();
    for &(_, count) in &ctrl.track_usage {
        assert_eq!(count, 0);
    }
    let dest = ctrl.pick_destination(0).unwrap();
    let route = ctrl.plan_route(0, dest).unwrap();
    for &tid in &route.track_ids {
        assert!(usage_of(&ctrl, tid) > 0, "track {tid} should have usage > 0 after planning");
    }
}

#[test]
fn track_usage_initialized_for_all_tracks() {
    let ctrl = new_controller();
    assert!(ctrl.track_usage.len() >= 12);
}

#[test]
fn snapshot_idle_trains() {
    let ctrl = new_controller();
    let snap = ctrl.snapshot(0, 0);
    assert!(snap.running);
    assert_eq!(snap.trains.len(), 2);
    assert_eq!(snap.trains[0].phase, "idle");
    assert_eq!(snap.trains[0].current_sensor, 1);
    assert_eq!(snap.trains[1].current_sensor, 10);
    assert_eq!(snap.tick_count, 0);
}

#[test]
fn snapshot_dwelling_train() {
    let mut ctrl = new_controller();
    ctrl.arrive(0, 2, 5_000);
    let snap = ctrl.snapshot(42, 5_000);
    assert_eq!(snap.trains[0].phase, "dwelling");
    assert_eq!(snap.trains[0].station.as_deref(), Some("waterloo"));
    assert!(snap.trains[0].dwell_remaining_secs.is_some());
    assert_eq!(snap.tick_count, 42);
}

#[test]
fn snapshot_en_route_train() {
    let mut ctrl = new_controller();
    let dest = ctrl.pick_destination(0).unwrap();
    let _route = ctrl.plan_route(0, dest).unwrap();
    let snap = ctrl.snapshot(1, 0);
    assert_eq!(snap.trains[0].phase, "en_route");
    assert_eq!(snap.trains[0].destination, Some(dest));
    assert!(!snap.trains[0].reserved_segments.is_empty());
}

#[test]
fn dwell_lasts_fifteen_seconds() {
    let mut ctrl = new_controller();
    ctrl.arrive(0, 2, 10_000);
    let snap = ctrl.snapshot(0, 10_000);
    assert_eq!(snap.trains[0].dwell_remaining_secs, Some(15));
    assert!(!ctrl.check_dwell_complete(0, 24_999));
    assert!(ctrl.check_dwell_complete(0, 25_000));
    assert!(matches!(ctrl.trains[0].phase, TrainPhase::Idle));
}

#[test]
fn first_destination_is_nearest_station_in_sensor_order() {
    let ctrl = new_controller();
    assert_eq!(ctrl.pick_destination(0), Some(2));
}

#[test]
fn planned_route_counts_usage_once_per_track() {
    let mut ctrl = new_controller();
    let route = ctrl.plan_route(0, 3).unwrap();
    assert_eq!(route.track_ids, vec![1]);
    assert_eq!(usage_of(&ctrl, 1), 1);
    assert_eq!(usage_of(&ctrl, 2), 0);
    assert_eq!(ctrl.trains[0].reserved_segments, vec![1]);
}

#[test]
fn unreachable_destination_is_a_route_error() {
    let mut ctrl = new_controller();
    match ctrl.plan_route(0, 99) {
        Err(ControllerError::Route(m)) => assert_eq!(m, "no route from sensor 1 to sensor 99 for train 0"),
        other => panic!("unexpected {:?}", other.map(|p| p.to_sensor)),
    }
    assert!(matches!(ctrl.trains[0].phase, TrainPhase::Idle));
}

#[test]
fn invalid_layout_is_refused() {
    let mut layout = canonical_layout();
    layout.tracks.clear();
    match TrainController::new(layout, &test_positions()) {
        Err(ControllerError::Layout(m)) => assert_eq!(m, "no track segments defined"),
        _ => panic!("layout without tracks should be refused"),
    }
}

#[test]
fn tick_runs_a_train_through_its_cycle() {
    let mut ctrl = new_controller();
    let action = ctrl.tick_train(0, &None, 0);
    let dest = match action {
        TickAction::Depart { destination, .. } => destination,
        other => panic!("expected departure, got {:?}", other),
    };
    assert!(matches!(ctrl.tick_train(0, &None, 500), TickAction::Travelling));
    assert!(matches!(ctrl.tick_train(0, &Some(vec![dest]), 1_000), TickAction::Arrived { .. }));
    assert_eq!(ctrl.trains[0].current_sensor, dest);
    assert!(matches!(ctrl.tick_train(0, &None, 2_000), TickAction::StillDwelling { remaining_secs: 14 }));
    assert!(matches!(ctrl.tick_train(0, &None, 16_000), TickAction::DwellDone { .. }));
    assert!(matches!(ctrl.trains[0].phase, TrainPhase::Idle));
}

#[test]
fn aborted_route_releases_reservations() {
    let mut ctrl = new_controller();
    let _ = ctrl.plan_route(0, 3).unwrap();
    ctrl.abort_route(0);
    assert!(ctrl.trains[0].reserved_segments.is_empty());
    assert!(matches!(ctrl.trains[0].phase, TrainPhase::Idle));
}

/// Two tracks forming a loop, with stations at sensors 2 and 4.
fn loop_layout() -> TrackLayout {
    TrackLayout {
        version: 2,
        tracks: vec![
            track(1, vec![conn(1, 2, TrackSide::Fwd), s(1), s(2), conn(2, 2, TrackSide::Bwd)]),
            track(2, vec![conn(2, 1, TrackSide::Fwd), s(3), s(4), conn(1, 1, TrackSide::Bwd)]),
        ],
        couplers: vec![],
        stations: vec![station("a", vec![2]), station("b", vec![4])],
        notes: None,
    }
}

#[test]
fn pick_destination_prefers_least_recently_visited_station() {
    let positions = vec![TrainPosition { train: 1, sensor: 1, direction: TrainDirection::Fwd, destination: None }];
    let mut ctrl = TrainController::new(loop_layout(), &positions).unwrap();
    ctrl.trains[0].visited_stations = vec![2, 4];
    assert_eq!(ctrl.pick_destination(0), Some(2));
    ctrl.trains[0].visited_stations = vec![4, 2];
    assert_eq!(ctrl.pick_destination(0), Some(4));
}

#[test]
fn tick_arrival_dwells_from_arrival_time() {
    let mut ctrl = new_controller();
    let dest = match ctrl.tick_train(0, &None, 0) {
        TickAction::Depart { destination, .. } => destination,
        other => panic!("expected a departure, got {:?}", other),
    };
    assert_eq!(dest, 2);
    let before_other = ctrl.trains[1].clone();
    let usage = ctrl.track_usage.clone();
    match ctrl.tick_train(0, &Some(vec![dest]), 5_000) {
        TickAction::Arrived { destination, .. } => assert_eq!(destination, dest),
        other => panic!("expected an arrival, got {:?}", other),
    }
    assert_eq!(ctrl.trains[0].current_sensor, dest);
    assert!(ctrl.trains[0].reserved_segments.is_empty());
    assert_eq!(ctrl.trains[0].visited_stations, vec![dest]);
    assert_eq!(
        ctrl.trains[0].phase,
        TrainPhase::Dwelling { sensor: dest, station_name: "waterloo".to_string(), until_ms: 20_000 }
    );
    assert_eq!(ctrl.trains[1].current_sensor, before_other.current_sensor);
    assert_eq!(ctrl.trains[1].reserved_segments, before_other.reserved_segments);
    assert_eq!(ctrl.track_usage, usage);
}
