use yoyo::service::{plan_error_status, positions_after, state_error_status};
use yoyo::state::{
    automatic_start_path, program_path, stats_path, trains_path, Destination, EvolutionStats, InitialiseRequest,
    RouteRequest, RouteTrainRequest, StateError, TrainDirection, TrainPosition,
};
use yoyo::route_planner::{PlanError, RoutePlan, TrainRoutePlan};

fn tp(train: u8, sensor: u8) -> TrainPosition {
    TrainPosition { train, sensor, direction: TrainDirection::Fwd, destination: None }
}

#[test]
fn validate_max_trains() {
    let mut trains = vec![];
    for i in 0..7 {
        trains.push(tp(i + 1, 1));
    }
    let req = InitialiseRequest { trains };
    assert!(req.validate().is_err());
}

#[test]
fn validate_ok_trains() {
    let req = InitialiseRequest { trains: vec![tp(1, 1), tp(2, 12), tp(3, 24)] };
    assert!(req.validate().is_ok());
}

#[test]
fn validate_invalid_sensor_zero() {
    let req = InitialiseRequest { trains: vec![tp(1, 0)] };
    assert!(matches!(req.validate(), Err(StateError::InvalidSensor(0))));
}

#[test]
fn validate_invalid_sensor_high() {
    let req = InitialiseRequest { trains: vec![tp(1, 25)] };
    assert!(matches!(req.validate(), Err(StateError::InvalidSensor(25))));
}

#[test]
fn validate_invalid_destination() {
    let req = InitialiseRequest {
        trains: vec![TrainPosition { train: 1, sensor: 1, direction: TrainDirection::Fwd, destination: Some(99) }],
    };
    assert!(matches!(req.validate(), Err(StateError::InvalidSensor(99))));
}

#[test]
fn validate_train_ids() {
    let req = InitialiseRequest { trains: vec![tp(0, 1)] };
    assert!(matches!(req.validate(), Err(StateError::InvalidTrainId(0))));
    let req = InitialiseRequest { trains: vec![tp(2, 1), tp(2, 3)] };
    assert!(matches!(req.validate(), Err(StateError::DuplicateTrainId(2))));
    let req = InitialiseRequest { trains: vec![tp(1, 1); 7] };
    assert!(matches!(req.validate(), Err(StateError::TooManyTrains(7))));
}

#[test]
fn validate_route_request() {
    let ok = RouteRequest {
        trains: vec![RouteTrainRequest { train: 1, destination: Destination::Station("bridge".into()), direction: TrainDirection::Fwd }],
    };
    assert!(ok.validate().is_ok());
    let bad = RouteRequest {
        trains: vec![RouteTrainRequest { train: 1, destination: Destination::Sensor(30), direction: TrainDirection::Bwd }],
    };
    assert!(matches!(bad.validate(), Err(StateError::InvalidSensor(30))));
}

#[test]
fn evolution_stats_default() {
    let stats = EvolutionStats::default();
    assert_eq!(stats.sessions_completed, 0);
    assert_eq!(stats.total_tokens_in, 0);
    assert_eq!(stats.total_tokens_out, 0);
    assert!(stats.last_session_at.is_empty());
    assert!(stats.last_version.is_empty());
}

#[test]
fn evolution_stats_record_session() {
    let mut stats = EvolutionStats::default();
    stats.record_session(1000, 500, "1.0.7", "2026-03-28");
    assert_eq!(stats.sessions_completed, 1);
    assert_eq!(stats.total_tokens_in, 1000);
    assert_eq!(stats.total_tokens_out, 500);
    assert_eq!(stats.last_session_at, "2026-03-28");
    assert_eq!(stats.last_version, "1.0.7");
    stats.record_session(2000, 800, "1.0.8", "2026-03-29");
    assert_eq!(stats.sessions_completed, 2);
    assert_eq!(stats.total_tokens_in, 3000);
    assert_eq!(stats.total_tokens_out, 1300);
    assert_eq!(stats.last_version, "1.0.8");
}

#[test]
fn runtime_paths() {
    assert_eq!(trains_path(), "data/runtime/trains.json");
    assert_eq!(program_path(), "data/runtime/program.json");
    assert_eq!(automatic_start_path(), "data/runtime/automatic_start.json");
    assert_eq!(stats_path(), "data/runtime/stats.json");
}

#[test]
fn train_direction_texts() {
    assert_eq!(TrainDirection::default(), TrainDirection::Fwd);
    assert_eq!(TrainDirection::Bwd.as_str(), "bwd");
    assert_eq!(TrainDirection::from_text("fwd"), Some(TrainDirection::Fwd));
    assert_eq!(TrainDirection::from_text("bwd"), Some(TrainDirection::Bwd));
    assert_eq!(TrainDirection::from_text("FWD"), None);
}

#[test]
fn state_error_messages_and_statuses() {
    assert_eq!(StateError::TooManyTrains(7).to_string(), "at most 6 trains allowed, got 7");
    assert_eq!(StateError::InvalidSensor(25).to_string(), "invalid sensor id 25: must be 1..=24");
    assert_eq!(state_error_status(&StateError::DuplicateTrainId(2)), 400);
    assert_eq!(state_error_status(&StateError::Io("disk".into())), 500);
}

#[test]
fn plan_error_statuses() {
    assert_eq!(plan_error_status(&PlanError::NoRoute { train_index: 0, from: 1, to: 2 }), 404);
    assert_eq!(plan_error_status(&PlanError::NoCurrentState), 400);
    assert_eq!(plan_error_status(&PlanError::Layout("x".into())), 500);
}

#[test]
fn positions_after_execution() {
    let plan = RoutePlan {
        trains: vec![TrainRoutePlan {
            train: 4,
            from_sensor: 1,
            to_sensor: 5,
            target_direction: "bwd".into(),
            track_ids: vec![1, 2],
            hop_count: 4,
            description: String::new(),
            steps: vec![],
            already_there: false,
            from_station: None,
            to_station: None,
        }],
        warnings: vec![],
    };
    let after = positions_after(&plan);
    assert_eq!(after.trains, vec![TrainPosition { train: 4, sensor: 5, direction: TrainDirection::Bwd, destination: None }]);
}
