//! Decisions of the HTTP service that do not touch the network or the files: the status
//! code of each error, the messages of state errors, the plan answered for a route request,
//! and the positions trains have after their routes were executed.

use vstd::prelude::*;

use crate::model::TrackLayout;
use crate::route_planner::{plan_target_routes, PlanError, RoutePlan, TrainRoutePlan};
use crate::state::{
    as_result, initialise_error, route_request_error, train_direction_text, InitialiseRequest, RouteRequest,
    StateError, TrainDirection, TrainPosition, MAX_TRAINS,
};
use crate::text::{decimal, push_decimal, push_str};
use crate::validate::validate_spec;

verus! {

/// Path of the evolution journal.
pub const JOURNAL_FILE: &'static str = "JOURNAL.md";

/// Path of the planned curriculum.
pub const ROADMAP_FILE: &'static str = "ROADMAP.md";

/// HTTP status answered for a planning error: 404 when there is no route, 500 for a layout
/// problem, 400 otherwise.
pub open spec fn plan_error_status_spec(e: PlanError) -> u16 {
    match e {
        PlanError::NoDestination { .. } => 400,
        PlanError::NoRoute { .. } => 404,
        PlanError::TrainNotFound { .. } => 400,
        PlanError::UnknownStation { .. } => 400,
        PlanError::NoCurrentState => 400,
        PlanError::Layout(_) => 500,
    }
}

/// HTTP status answered for a planning error.
pub fn plan_error_status(e: &PlanError) -> (code: u16)
    ensures
        code == plan_error_status_spec(*e),
{
    match e {
        PlanError::NoDestination { .. } => 400,
        PlanError::NoRoute { .. } => 404,
        PlanError::TrainNotFound { .. } => 400,
        PlanError::UnknownStation { .. } => 400,
        PlanError::NoCurrentState => 400,
        PlanError::Layout(_) => 500,
    }
}

/// HTTP status answered for a state error: 400 for a request that breaks a rule, 500 for a
/// file that could not be read or written.
pub open spec fn state_error_status_spec(e: StateError) -> u16 {
    match e {
        StateError::TooManyTrains(_) => 400,
        StateError::InvalidSensor(_) => 400,
        StateError::InvalidTrainId(_) => 400,
        StateError::DuplicateTrainId(_) => 400,
        _ => 500,
    }
}

/// HTTP status answered for a state error.
pub fn state_error_status(e: &StateError) -> (code: u16)
    ensures
        code == state_error_status_spec(*e),
{
    match e {
        StateError::TooManyTrains(_) => 400,
        StateError::InvalidSensor(_) => 400,
        StateError::InvalidTrainId(_) => 400,
        StateError::DuplicateTrainId(_) => 400,
        _ => 500,
    }
}

/// Message of a state error.
pub open spec fn state_error_text(e: StateError) -> Seq<char> {
    match e {
        StateError::TooManyTrains(n) => "at most "@ + decimal(MAX_TRAINS as nat) + " trains allowed, got "@ + decimal(
            n as nat,
        ),
        StateError::InvalidTrainId(id) => "invalid train id "@ + decimal(id as nat) + ": must be at least 1"@,
        StateError::DuplicateTrainId(id) => "duplicate train id "@ + decimal(id as nat),
        StateError::InvalidSensor(s) => "invalid sensor id "@ + decimal(s as nat) + ": must be 1..=24"@,
        StateError::Io(m) => "I/O error: "@ + m@,
        StateError::Json(m) => "JSON error: "@ + m@,
    }
}

impl StateError {
    /// The error's message.
    pub fn to_string(&self) -> (s: String)
        ensures
            s@ == state_error_text(*self),
    {
        let mut s = String::new();
        match self {
            StateError::TooManyTrains(n) => {
                push_str(&mut s, "at most ");
                push_decimal(&mut s, MAX_TRAINS as u64);
                push_str(&mut s, " trains allowed, got ");
                push_decimal(&mut s, *n as u64);
            },
            StateError::InvalidTrainId(id) => {
                push_str(&mut s, "invalid train id ");
                push_decimal(&mut s, *id as u64);
                push_str(&mut s, ": must be at least 1");
            },
            StateError::DuplicateTrainId(id) => {
                push_str(&mut s, "duplicate train id ");
                push_decimal(&mut s, *id as u64);
            },
            StateError::InvalidSensor(v) => {
                push_str(&mut s, "invalid sensor id ");
                push_decimal(&mut s, *v as u64);
                push_str(&mut s, ": must be 1..=24");
            },
            StateError::Io(m) => {
                push_str(&mut s, "I/O error: ");
                push_str(&mut s, m.as_str());
            },
            StateError::Json(m) => {
                push_str(&mut s, "JSON error: ");
                push_str(&mut s, m.as_str());
            },
        }
        assert(s@ =~= state_error_text(*self));
        s
    }
}

/// The plan answered for a route request, given what loading the current positions gave
/// (an error message, no saved positions, or the positions) and the layout: the request is
/// checked first, then the current positions, then the routes are planned.
pub fn route_plan_for(
    target: &RouteRequest,
    current: &Result<Option<InitialiseRequest>, String>,
    layout: &TrackLayout,
) -> (r: Result<RoutePlan, PlanError>)
    ensures
        match route_request_error(target.trains@) {
            Some(e) => r matches Err(PlanError::Layout(m)) && m@ == state_error_text(e),
            None => match current {
                Err(msg) => r matches Err(PlanError::Layout(m)) && m@ == msg@,
                Ok(None) => r matches Err(PlanError::NoCurrentState),
                Ok(Some(cur)) => match validate_spec(*layout) {
                    Err(le) => r matches Err(PlanError::Layout(m)) && m@ == crate::validate::layout_error_text(le),
                    Ok(()) => match r {
                        Ok(p) => crate::route_planner::target_plan_spec(
                            crate::graph::layout_graph(*layout),
                            layout.stations@,
                            cur.trains@,
                            target.trains@,
                        ) == Ok::<(Seq<crate::route_planner::TrainRoutePlanView>, Seq<Seq<char>>), PlanError>(
                            (crate::route_planner::plans_view(p.trains@), crate::route_planner::texts_view(p.warnings@)),
                        ),
                        Err(e) => crate::route_planner::target_plan_spec(
                            crate::graph::layout_graph(*layout),
                            layout.stations@,
                            cur.trains@,
                            target.trains@,
                        ) == Err::<(Seq<crate::route_planner::TrainRoutePlanView>, Seq<Seq<char>>), PlanError>(e),
                    },
                },
            },
        },
{
    if let Err(e) = target.validate() {
        return Err(PlanError::Layout(e.to_string()));
    }
    match current {
        Err(msg) => Err(PlanError::Layout(msg.clone())),
        Ok(None) => Err(PlanError::NoCurrentState),
        Ok(Some(cur)) => plan_target_routes(cur, target, layout),
    }
}

/// Where a train stands after its planned route was run: at the plan's target, facing the
/// target direction (`fwd` unless it reads `bwd`), with no destination left.
pub open spec fn position_after(p: crate::route_planner::TrainRoutePlanView) -> TrainPosition {
    TrainPosition {
        train: p.train,
        sensor: p.to_sensor,
        direction: if p.target_direction == "bwd"@ {
            TrainDirection::Bwd
        } else {
            TrainDirection::Fwd
        },
        destination: None,
    }
}

/// The positions trains have after the routes of a plan were run.
pub fn positions_after(plan: &RoutePlan) -> (r: InitialiseRequest)
    ensures
        r.trains@.len() == plan.trains@.len(),
        forall|i: int| 0 <= i < plan.trains@.len() ==> #[trigger] r.trains@[i] == position_after(plan.trains@[i]@),
{
    let mut trains: Vec<TrainPosition> = Vec::new();
    let mut i: usize = 0;
    while i < plan.trains.len()
        invariant
            0 <= i <= plan.trains@.len(),
            trains@.len() == i,
            forall|k: int| 0 <= k < i ==> #[trigger] trains@[k] == position_after(plan.trains@[k]@),
        decreases plan.trains.len() - i,
    {
        proof {
            reveal_strlit("fwd");
            reveal_strlit("bwd");
        }
        let tp: &TrainRoutePlan = &plan.trains[i];
        let direction = match TrainDirection::from_text(tp.target_direction.as_str()) {
            Some(d) => d,
            None => TrainDirection::Fwd,
        };
        let ghost before = trains@;
        assert(*tp == plan.trains@[i as int]);
        assert(tp.target_direction@ == plan.trains@[i as int]@.target_direction);
        assert("fwd"@ != "bwd"@) by {
            assert("fwd"@[0] != "bwd"@[0]);
        }
        assert(direction == (if tp.target_direction@ == "bwd"@ { TrainDirection::Bwd } else { TrainDirection::Fwd }));
        let pos = TrainPosition { train: tp.train, sensor: tp.to_sensor, direction, destination: None };
        assert(pos == position_after(plan.trains@[i as int]@));
        trains.push(pos);
        assert(forall|k: int| 0 <= k < i ==> trains@[k] == before[k]);
        i = i + 1;
    }
    InitialiseRequest { trains }
}

} // verus!
