//! Route planner: given train positions and destinations, compute routes and track commands.
//!
//! Uses [`TrackGraph`] for shortest-route search and converts the resulting [`Route`] into
//! commands for the Pi hardware, or into an ordered plan of steps per train.

use vstd::prelude::*;

use crate::graph::{
    contains_u8, dedup, edges_view, point_setting_text, hop_points, hop_tracks, last_track_of, EdgeView, PointSetting, Route,
    layout_graph, GraphView, TrackGraph, TraverseDirection,
};
use crate::pi_client::{point_direction_text, track_direction_text, PointDirection, TrackDirection};
use crate::model::{Station, TrackLayout};
use crate::validate::{layout_error_text, validate_spec, LayoutError};
use crate::state::{
    train_direction_text, Destination, InitialiseRequest, RouteRequest, RouteTrainRequest, TrainDirection,
    TrainPosition,
};
use crate::text::{
    decimal, id_list_text, join, lemma_join_push, lowercase, push_decimal, push_id_list, push_str,
    to_lowercase,
};

verus! {

/// Default speed percentage for powered tracks in a route (safe for curves).
pub const DEFAULT_ROUTE_SPEED: u8 = 40;

/// A single command to be sent to the Pi track hardware.
#[derive(Debug, Clone, Copy, PartialEq, Eq, Structural)]
pub enum TrackCommand {
    /// Set a point (switch).
    SetPoint { point_id: u8, direction: PointDirection },
    /// Set a track segment's speed and direction.
    SetTrackSpeed { track_id: u8, direction: TrackDirection, speed: u8 },
    /// Stop a specific track segment.
    StopTrack { track_id: u8 },
}

/// A planned route for one train: source, destination, the hops, and the commands to execute.
#[derive(Debug, Clone, PartialEq, Eq)]
pub struct PlannedRoute {
    /// Train index (0-based) in the request.
    pub train_index: usize,
    /// Starting sensor.
    pub from_sensor: u8,
    /// Destination sensor.
    pub to_sensor: u8,
    /// Track segments traversed (in order).
    pub track_ids: Vec<u8>,
    /// Number of sensor hops.
    pub hop_count: usize,
    /// Human-readable description.
    pub description: String,
    /// Commands to execute (in order: points first, then tracks).
    pub commands: Vec<TrackCommand>,
}

/// Value of a [`PlannedRoute`].
pub struct PlannedRouteView {
    pub train_index: usize,
    pub from_sensor: u8,
    pub to_sensor: u8,
    pub track_ids: Seq<u8>,
    pub hop_count: nat,
    pub description: Seq<char>,
    pub commands: Seq<TrackCommand>,
}

impl View for PlannedRoute {
    type V = PlannedRouteView;

    open spec fn view(&self) -> PlannedRouteView {
        PlannedRouteView {
            train_index: self.train_index,
            from_sensor: self.from_sensor,
            to_sensor: self.to_sensor,
            track_ids: self.track_ids@,
            hop_count: self.hop_count as nat,
            description: self.description@,
            commands: self.commands@,
        }
    }
}

/// Error from the route planner.
#[derive(Debug, Clone, PartialEq, Eq)]
pub enum PlanError {
    NoDestination { train_index: usize, sensor: u8 },
    NoRoute { train_index: usize, from: u8, to: u8 },
    TrainNotFound { train_id: u8 },
    UnknownStation { train_id: u8, name: String },
    NoCurrentState,
    Layout(String),
}

/// Track power direction for a direction of travel along a segment.
pub open spec fn power_for(d: TraverseDirection) -> TrackDirection {
    match d {
        TraverseDirection::Fwd => TrackDirection::Fwd,
        TraverseDirection::Bck => TrackDirection::Bck,
    }
}

/// Power direction of track `t`: that of the first hop on `t` (FWD when there is none).
pub open spec fn track_power(hops: Seq<EdgeView>, t: u8) -> TrackDirection
    decreases hops.len(),
{
    if hops.len() == 0 {
        TrackDirection::Fwd
    } else if hops[0].track_id == t {
        power_for(hops[0].traverse_direction)
    } else {
        track_power(hops.drop_first(), t)
    }
}

/// Point settings of a route (deduplicated, in order).
pub open spec fn route_points(hops: Seq<EdgeView>) -> Seq<PointSetting> {
    dedup(hop_points(hops))
}

/// Tracks of a route (deduplicated, in order).
pub open spec fn route_tracks(hops: Seq<EdgeView>) -> Seq<u8> {
    dedup(hop_tracks(hops))
}

/// Commands of a route: set every point first, then power every track at the default speed.
pub open spec fn route_commands(hops: Seq<EdgeView>) -> Seq<TrackCommand> {
    route_points(hops).map_values(
        |ps: PointSetting| TrackCommand::SetPoint { point_id: ps.point_id, direction: ps.direction },
    ) + route_tracks(hops).map_values(
        |t: u8|
            TrackCommand::SetTrackSpeed {
                track_id: t,
                direction: track_power(hops, t),
                speed: DEFAULT_ROUTE_SPEED,
            },
    )
}

/// Sensors visited by a route, starting with its source.
pub open spec fn sensor_path(from: u8, hops: Seq<EdgeView>) -> Seq<u8> {
    seq![from] + hops.map_values(|e: EdgeView| e.to)
}

/// Human-readable description of a route with the given point settings and tracks.
pub open spec fn describe_text(
    from: u8,
    hops: Seq<EdgeView>,
    points: Seq<PointSetting>,
    tracks: Seq<u8>,
    from_track: Option<u8>,
    to_track: Option<u8>,
) -> Seq<char> {
    if hops.len() == 0 {
        "Train already at sensor "@ + decimal(from as nat) + " — no movement needed."@
    } else {
        "Path: "@ + id_list_text(sensor_path(from, hops), "S"@, " → "@) + ". "@ + "Tracks: "@
            + id_list_text(tracks, "T"@, ", "@) + (if points.len() > 0 {
            ". "@ + "Points: "@ + join(points.map_values(|ps: PointSetting| point_setting_text(ps)), ", "@)
        } else {
            Seq::empty()
        }) + (match (from_track, to_track) {
            (Some(a), Some(b)) => if a != b {
                ". "@ + "Crosses from track "@ + decimal(a as nat) + " to track "@ + decimal(b as nat)
            } else {
                Seq::empty()
            },
            _ => Seq::empty(),
        }) + ". "@ + decimal(hops.len()) + " hop(s)"@
    }
}

/// The description of a route of `graph` (its points and tracks deduplicated).
pub open spec fn route_description(graph: GraphView, from: u8, to: u8, hops: Seq<EdgeView>) -> Seq<char> {
    describe_text(
        from,
        hops,
        route_points(hops),
        route_tracks(hops),
        last_track_of(graph.sensor_track, from),
        last_track_of(graph.sensor_track, to),
    )
}

/// The planned route of train `i` from `from` to `to` along `hops`.
pub open spec fn planned_route_spec(
    graph: GraphView,
    i: usize,
    from: u8,
    to: u8,
    hops: Seq<EdgeView>,
) -> PlannedRouteView {
    PlannedRouteView {
        train_index: i,
        from_sensor: from,
        to_sensor: to,
        track_ids: route_tracks(hops),
        hop_count: hops.len(),
        description: route_description(graph, from, to, hops),
        commands: route_commands(hops),
    }
}

/// Power direction of track `t` along the hops of `route` (see [`track_power`]).
fn power_of_track(hops: &Vec<crate::graph::SensorEdge>, t: u8) -> (d: TrackDirection)
    ensures
        d == track_power(edges_view(hops@), t),
{
    let ghost hv = edges_view(hops@);
    let mut i: usize = 0;
    assert(hv.skip(0) =~= hv);
    while i < hops.len()
        invariant
            0 <= i <= hops@.len(),
            hv == edges_view(hops@),
            track_power(hv, t) == track_power(hv.skip(i as int), t),
        decreases hops.len() - i,
    {
        assert(hv.skip(i as int)[0] == hv[i as int]);
        if hops[i].track_id == t {
            return match hops[i].traverse_direction {
                TraverseDirection::Fwd => TrackDirection::Fwd,
                TraverseDirection::Bck => TrackDirection::Bck,
            };
        }
        assert(hv.skip(i as int).drop_first() =~= hv.skip(i + 1));
        i = i + 1;
    }
    TrackDirection::Fwd
}

/// Appends the texts of point settings separated by `, `.
fn push_point_list(s: &mut String, points: &Vec<PointSetting>)
    ensures
        final(s)@ == old(s)@ + join(points@.map_values(|ps: PointSetting| point_setting_text(ps)), ", "@),
{
    let ghost start = s@;
    let ghost f = |ps: PointSetting| point_setting_text(ps);
    let mut i: usize = 0;
    while i < points.len()
        invariant
            0 <= i <= points@.len(),
            f == (|ps: PointSetting| point_setting_text(ps)),
            s@ == start + join(points@.take(i as int).map_values(f), ", "@),
        decreases points.len() - i,
    {
        if i > 0 {
            push_str(s, ", ");
        }
        let ghost mid = s@;
        push_str(s, "P");
        push_decimal(s, points[i].point_id as u64);
        push_str(s, "=");
        push_str(s, points[i].direction.as_str());
        proof {
            let items = points@.take(i as int).map_values(f);
            let x = f(points@[i as int]);
            assert(s@ =~= mid + x);
            assert(points@.take(i + 1).map_values(f) =~= items.push(x));
            lemma_join_push(items, ", "@, x);
        }
        i = i + 1;
    }
    assert(points@.take(points.len() as int) =~= points@);
}

/// The sensors visited by a route, starting with its source.
fn route_sensor_path(route: &Route) -> (out: Vec<u8>)
    ensures
        out@ == sensor_path(route.from, route.hop_views()),
{
    let mut out: Vec<u8> = Vec::new();
    out.push(route.from);
    let mut i: usize = 0;
    while i < route.hops.len()
        invariant
            0 <= i <= route.hops@.len(),
            out@ == seq![route.from] + route.hop_views().take(i as int).map_values(|e: EdgeView| e.to),
        decreases route.hops.len() - i,
    {
        out.push(route.hops[i].to);
        i = i + 1;
        assert(out@ =~= seq![route.from] + route.hop_views().take(i as int).map_values(|e: EdgeView| e.to));
    }
    assert(route.hop_views().take(route.hops.len() as int) =~= route.hop_views());
    out
}

/// Human-readable description of a route.
#[verifier::rlimit(60)]
fn describe_route(
    route: &Route,
    point_settings: &Vec<PointSetting>,
    track_ids: &Vec<u8>,
    graph: &TrackGraph,
) -> (s: String)
    ensures
        s@ == describe_text(
            route.from,
            route.hop_views(),
            point_settings@,
            track_ids@,
            last_track_of(graph.sensor_track@, route.from),
            last_track_of(graph.sensor_track@, route.to),
        ),
{
    let mut s = String::new();
    if route.hops.len() == 0 {
        push_str(&mut s, "Train already at sensor ");
        push_decimal(&mut s, route.from as u64);
        push_str(&mut s, " — no movement needed.");
        assert(s@ =~= "Train already at sensor "@ + decimal(route.from as nat) + " — no movement needed."@);
        return s;
    }
    let path = route_sensor_path(route);
    push_str(&mut s, "Path: ");
    push_id_list(&mut s, &path, "S", " → ");
    push_str(&mut s, ". ");
    push_str(&mut s, "Tracks: ");
    push_id_list(&mut s, track_ids, "T", ", ");
    let ghost s1 = s@;
    if point_settings.len() > 0 {
        push_str(&mut s, ". ");
        push_str(&mut s, "Points: ");
        push_point_list(&mut s, point_settings);
    }
    let ghost s2 = s@;
    let from_track = graph.track_of(route.from);
    let to_track = graph.track_of(route.to);
    match (from_track, to_track) {
        (Some(a), Some(b)) => {
            if a != b {
                push_str(&mut s, ". ");
                push_str(&mut s, "Crosses from track ");
                push_decimal(&mut s, a as u64);
                push_str(&mut s, " to track ");
                push_decimal(&mut s, b as u64);
            }
        },
        _ => {},
    }
    let ghost s3 = s@;
    push_str(&mut s, ". ");
    push_decimal(&mut s, route.hops.len() as u64);
    push_str(&mut s, " hop(s)");
    assert(s@ =~= describe_text(
        route.from,
        route.hop_views(),
        point_settings@,
        track_ids@,
        from_track,
        to_track,
    ));
    s
}

/// Converts a graph route into a planned route with commands and description.
fn route_to_plan(train_index: usize, route: &Route, graph: &TrackGraph) -> (p: PlannedRoute)
    ensures
        p@ == planned_route_spec(graph@, train_index, route.from, route.to, route.hop_views()),
{
    let point_settings = route.point_settings();
    let track_ids = route.track_ids();
    let ghost hv = route.hop_views();
    let mut commands: Vec<TrackCommand> = Vec::new();
    let mut i: usize = 0;
    while i < point_settings.len()
        invariant
            0 <= i <= point_settings@.len(),
            commands@ == point_settings@.take(i as int).map_values(
                |ps: PointSetting| TrackCommand::SetPoint { point_id: ps.point_id, direction: ps.direction },
            ),
        decreases point_settings.len() - i,
    {
        let ps = point_settings[i];
        commands.push(TrackCommand::SetPoint { point_id: ps.point_id, direction: ps.direction });
        i = i + 1;
        assert(commands@ =~= point_settings@.take(i as int).map_values(
            |ps: PointSetting| TrackCommand::SetPoint { point_id: ps.point_id, direction: ps.direction },
        ));
    }
    assert(point_settings@.take(point_settings.len() as int) =~= point_settings@);
    let ghost c1 = commands@;
    let mut j: usize = 0;
    while j < track_ids.len()
        invariant
            0 <= j <= track_ids@.len(),
            hv == route.hop_views(),
            commands@ == c1 + track_ids@.take(j as int).map_values(
                |t: u8| TrackCommand::SetTrackSpeed { track_id: t, direction: track_power(hv, t), speed: DEFAULT_ROUTE_SPEED },
            ),
        decreases track_ids.len() - j,
    {
        let tid = track_ids[j];
        let direction = power_of_track(&route.hops, tid);
        commands.push(TrackCommand::SetTrackSpeed { track_id: tid, direction, speed: DEFAULT_ROUTE_SPEED });
        j = j + 1;
        assert(commands@ =~= c1 + track_ids@.take(j as int).map_values(
            |t: u8| TrackCommand::SetTrackSpeed { track_id: t, direction: track_power(hv, t), speed: DEFAULT_ROUTE_SPEED },
        ));
    }
    assert(track_ids@.take(track_ids.len() as int) =~= track_ids@);
    let description = describe_route(route, &point_settings, &track_ids, graph);
    PlannedRoute {
        train_index,
        from_sensor: route.from,
        to_sensor: route.to,
        track_ids,
        hop_count: route.hops.len(),
        description,
        commands,
    }
}

/// The planned route of train `i` of `trains`, or why none can be planned.
pub open spec fn train_route_result(graph: GraphView, trains: Seq<TrainPosition>, i: int) -> Result<
    PlannedRouteView,
    PlanError,
> {
    let t = trains[i];
    match t.destination {
        None => Err(PlanError::NoDestination { train_index: i as usize, sensor: t.sensor }),
        Some(d) => match graph.route_hops(t.sensor, d) {
            None => Err(PlanError::NoRoute { train_index: i as usize, from: t.sensor, to: d }),
            Some(h) => Ok(planned_route_spec(graph, i as usize, t.sensor, d, h)),
        },
    }
}

/// `r` is what planning every train of `trains` on `graph` gives: a plan for each train in
/// order, or the error of the first train that has no destination or no route.
pub open spec fn routes_outcome(graph: GraphView, trains: Seq<TrainPosition>, r: Result<Vec<PlannedRoute>, PlanError>) -> bool {
    match r {
        Ok(plans) => plans@.len() == trains.len() && forall|i: int|
            0 <= i < trains.len() ==> train_route_result(graph, trains, i) == Ok::<PlannedRouteView, PlanError>(
                (#[trigger] plans@[i])@,
            ),
        Err(e) => exists|i: int|
            0 <= i < trains.len() && train_route_result(graph, trains, i) == Err::<PlannedRouteView, PlanError>(e)
                && forall|j: int| 0 <= j < i ==> (#[trigger] train_route_result(graph, trains, j)) is Ok,
    }
}

/// Plans a route for every train from its sensor to its destination on a pre-built graph.
/// Fails with the error of the first train that has no destination or no route.
pub fn plan_routes_with_graph(trains: &Vec<TrainPosition>, graph: &TrackGraph) -> (r: Result<
    Vec<PlannedRoute>,
    PlanError,
>)
    ensures
        routes_outcome(graph@, trains@, r),
{
    let mut planned: Vec<PlannedRoute> = Vec::new();
    let mut i: usize = 0;
    while i < trains.len()
        invariant
            0 <= i <= trains@.len(),
            planned@.len() == i,
            forall|k: int| 0 <= k < i ==> train_route_result(graph@, trains@, k) == Ok::<
                PlannedRouteView,
                PlanError,
            >((#[trigger] planned@[k])@),
        decreases trains.len() - i,
    {
        let train = trains[i];
        let dest = match train.destination {
            Some(d) => d,
            None => {
                let e = PlanError::NoDestination { train_index: i, sensor: train.sensor };
                assert(train_route_result(graph@, trains@, i as int) == Err::<PlannedRouteView, PlanError>(e));
                assert(forall|j: int| 0 <= j < i ==> (#[trigger] train_route_result(graph@, trains@, j)) is Ok) by {
                    assert forall|j: int| 0 <= j < i implies (#[trigger] train_route_result(graph@, trains@, j)) is Ok by {
                        assert(train_route_result(graph@, trains@, j) == Ok::<PlannedRouteView, PlanError>(planned@[j]@));
                    }
                }
                return Err(e);
            },
        };
        let route = match graph.find_route(train.sensor, dest) {
            Some(r) => r,
            None => {
                let e = PlanError::NoRoute { train_index: i, from: train.sensor, to: dest };
                assert(train_route_result(graph@, trains@, i as int) == Err::<PlannedRouteView, PlanError>(e));
                assert(forall|j: int| 0 <= j < i ==> (#[trigger] train_route_result(graph@, trains@, j)) is Ok) by {
                    assert forall|j: int| 0 <= j < i implies (#[trigger] train_route_result(graph@, trains@, j)) is Ok by {
                        assert(train_route_result(graph@, trains@, j) == Ok::<PlannedRouteView, PlanError>(planned@[j]@));
                    }
                }
                return Err(e);
            },
        };
        let p = route_to_plan(i, &route, graph);
        planned.push(p);
        i = i + 1;
    }
    Ok(planned)
}


/// One step in a route execution plan.
#[derive(Debug, Clone, PartialEq, Eq)]
pub enum RouteStep {
    /// Set a point before a train enters the next track.
    SetPoint { train: u8, point_id: u8, direction: PointDirection },
    /// Energise a track segment so a train can move onto it.
    EnergiseTrack { train: u8, track_id: u8, direction: TrackDirection, speed: u8 },
    /// Wait for a train to reach a sensor (confirms the train has arrived).
    AwaitSensor { train: u8, sensor: u8, note: String },
    /// De-energise a track after the train has left it.
    DeEnergiseTrack { train: u8, track_id: u8 },
}

/// Value of a [`RouteStep`].
pub enum StepView {
    SetPoint { train: u8, point_id: u8, direction: PointDirection },
    EnergiseTrack { train: u8, track_id: u8, direction: TrackDirection, speed: u8 },
    AwaitSensor { train: u8, sensor: u8, note: Seq<char> },
    DeEnergiseTrack { train: u8, track_id: u8 },
}

impl View for RouteStep {
    type V = StepView;

    open spec fn view(&self) -> StepView {
        match self {
            RouteStep::SetPoint { train, point_id, direction } => StepView::SetPoint {
                train: *train,
                point_id: *point_id,
                direction: *direction,
            },
            RouteStep::EnergiseTrack { train, track_id, direction, speed } => StepView::EnergiseTrack {
                train: *train,
                track_id: *track_id,
                direction: *direction,
                speed: *speed,
            },
            RouteStep::AwaitSensor { train, sensor, note } => StepView::AwaitSensor {
                train: *train,
                sensor: *sensor,
                note: note@,
            },
            RouteStep::DeEnergiseTrack { train, track_id } => StepView::DeEnergiseTrack {
                train: *train,
                track_id: *track_id,
            },
        }
    }
}

/// Values of a list of steps.
pub open spec fn steps_view(s: Seq<RouteStep>) -> Seq<StepView> {
    s.map_values(|x: RouteStep| x@)
}

/// A complete plan for routing one train from its current position to a target.
#[derive(Debug, Clone)]
pub struct TrainRoutePlan {
    /// Train identifier.
    pub train: u8,
    /// Current sensor.
    pub from_sensor: u8,
    /// Target sensor.
    pub to_sensor: u8,
    /// Target direction the train should face on arrival (`fwd` / `bwd`).
    pub target_direction: String,
    /// Track segments this route passes through (in order).
    pub track_ids: Vec<u8>,
    /// Number of sensor hops.
    pub hop_count: usize,
    /// Human-readable description of the route.
    pub description: String,
    /// Ordered steps to execute.
    pub steps: Vec<RouteStep>,
    /// True if the train is already at the target.
    pub already_there: bool,
    /// Station name at the departure sensor (if any).
    pub from_station: Option<String>,
    /// Station name at the destination sensor (if any).
    pub to_station: Option<String>,
}

/// Value of a [`TrainRoutePlan`].
pub struct TrainRoutePlanView {
    pub train: u8,
    pub from_sensor: u8,
    pub to_sensor: u8,
    pub target_direction: Seq<char>,
    pub track_ids: Seq<u8>,
    pub hop_count: nat,
    pub description: Seq<char>,
    pub steps: Seq<StepView>,
    pub already_there: bool,
    pub from_station: Option<Seq<char>>,
    pub to_station: Option<Seq<char>>,
}

/// Text of an optional string.
pub open spec fn text_of(o: Option<String>) -> Option<Seq<char>> {
    match o {
        Some(s) => Some(s@),
        None => None,
    }
}

impl View for TrainRoutePlan {
    type V = TrainRoutePlanView;

    open spec fn view(&self) -> TrainRoutePlanView {
        TrainRoutePlanView {
            train: self.train,
            from_sensor: self.from_sensor,
            to_sensor: self.to_sensor,
            target_direction: self.target_direction@,
            track_ids: self.track_ids@,
            hop_count: self.hop_count as nat,
            description: self.description@,
            steps: steps_view(self.steps@),
            already_there: self.already_there,
            from_station: text_of(self.from_station),
            to_station: text_of(self.to_station),
        }
    }
}

/// Full route plan for all trains.
#[derive(Debug, Clone)]
pub struct RoutePlan {
    /// Per-train plans.
    pub trains: Vec<TrainRoutePlan>,
    /// Warnings (e.g. track conflicts requiring sequencing).
    pub warnings: Vec<String>,
}

/// Values of per-train plans.
pub open spec fn plans_view(s: Seq<TrainRoutePlan>) -> Seq<TrainRoutePlanView> {
    s.map_values(|p: TrainRoutePlan| p@)
}

/// Texts of a list of strings.
pub open spec fn texts_view(s: Seq<String>) -> Seq<Seq<char>> {
    s.map_values(|x: String| x@)
}

/// Note of the step that waits for `train` at `sensor`.
pub open spec fn await_note(train: u8, sensor: u8) -> Seq<char> {
    "train "@ + decimal(train as nat) + " reaching sensor "@ + decimal(sensor as nat)
}

/// Steps for hop `k` of a walk: leave the previous track when the track changes, power the
/// hop's track when it was not powered yet, then wait for the hop's sensor.
pub open spec fn hop_step_group(train: u8, hops: Seq<EdgeView>, k: int) -> Seq<StepView> {
    let cur = hops[k].track_id;
    let changed = k > 0 && hops[k - 1].track_id != cur;
    (if changed {
        seq![StepView::DeEnergiseTrack { train, track_id: hops[k - 1].track_id }]
    } else {
        Seq::empty()
    }) + (if k == 0 || changed {
        seq![
            StepView::EnergiseTrack {
                train,
                track_id: cur,
                direction: track_power(hops, cur),
                speed: DEFAULT_ROUTE_SPEED,
            },
        ]
    } else {
        Seq::empty()
    }) + seq![StepView::AwaitSensor { train, sensor: hops[k].to, note: await_note(train, hops[k].to) }]
}

/// Steps for the first `n` hops of a walk.
pub open spec fn hop_steps(train: u8, hops: Seq<EdgeView>, n: int) -> Seq<StepView>
    decreases n,
{
    if n <= 0 {
        Seq::empty()
    } else {
        hop_steps(train, hops, n - 1) + hop_step_group(train, hops, n - 1)
    }
}

/// All steps of a route: set every point up front, walk the hops, then de-energise the
/// last track.
pub open spec fn route_steps(train: u8, hops: Seq<EdgeView>) -> Seq<StepView> {
    route_points(hops).map_values(
        |ps: PointSetting| StepView::SetPoint { train, point_id: ps.point_id, direction: ps.direction },
    ) + hop_steps(train, hops, hops.len() as int) + (if hops.len() > 0 {
        seq![StepView::DeEnergiseTrack { train, track_id: hops.last().track_id }]
    } else {
        Seq::empty()
    })
}

/// The walk reaches its last sensor moving forward (true for an empty walk).
pub open spec fn arrives_fwd(hops: Seq<EdgeView>) -> bool {
    hops.len() == 0 || hops.last().traverse_direction == TraverseDirection::Fwd
}

/// Warning given when a train arrives facing the other way than its target direction.
pub open spec fn direction_warning(train: u8, to: u8, dir: TrainDirection, fwd: bool) -> Seq<char> {
    "Train "@ + decimal(train as nat) + " arrives "@ + (if fwd {
        "fwd"@
    } else {
        "bwd"@
    }) + " but target direction is "@ + train_direction_text(dir) + " — the route reaches sensor "@
        + decimal(to as nat) + " from the "@ + (if fwd {
        "forward"@
    } else {
        "backward"@
    }) + " direction"@
}

/// A station in lookup form: lower-case name and its sensors.
pub struct StationIndex {
    pub name: String,
    pub sensors: Vec<u8>,
}

/// Lookup entries of the stations of a layout, in layout order.
pub open spec fn station_entries(stations: Seq<Station>) -> Seq<(Seq<char>, Seq<u8>)> {
    stations.map_values(|s: Station| (lowercase(s.name@), s.sensor_ids@))
}

/// Values of station lookup entries.
pub open spec fn index_view(s: Seq<StationIndex>) -> Seq<(Seq<char>, Seq<u8>)> {
    s.map_values(|e: StationIndex| (e.name@, e.sensors@))
}

/// The sensors of the last station entry named `key`.
pub open spec fn lookup_station(entries: Seq<(Seq<char>, Seq<u8>)>, key: Seq<char>) -> Option<Seq<u8>>
    decreases entries.len(),
{
    if entries.len() == 0 {
        None
    } else if entries.last().0 == key {
        Some(entries.last().1)
    } else {
        lookup_station(entries.drop_last(), key)
    }
}

/// Some entry is named `key`.
pub open spec fn name_used(entries: Seq<(Seq<char>, Seq<u8>)>, key: Seq<char>) -> bool {
    exists|q: int| 0 <= q < entries.len() && (#[trigger] entries[q]).0 == key
}

/// The station of `sensor` in the lookup by name: entries that a later entry of the same
/// name replaces are skipped, and among the others the first that holds `sensor` gives
/// its name.
pub open spec fn station_of_sensor(entries: Seq<(Seq<char>, Seq<u8>)>, sensor: u8) -> Option<Seq<char>>
    decreases entries.len(),
{
    if entries.len() == 0 {
        None
    } else if entries[0].1.contains(sensor) && !name_used(entries.drop_first(), entries[0].0) {
        Some(entries[0].0)
    } else {
        station_of_sensor(entries.drop_first(), sensor)
    }
}

/// Text of a train that is already at its target.
pub open spec fn already_there_text(train: u8, sensor: u8) -> Seq<char> {
    "Train "@ + decimal(train as nat) + " already at sensor "@ + decimal(sensor as nat)
        + " — no movement needed."@
}

/// The plan for one train from `from` to `to` facing `dir`, or why there is none.
pub open spec fn single_plan_spec(
    graph: GraphView,
    entries: Seq<(Seq<char>, Seq<u8>)>,
    train: u8,
    from: u8,
    to: u8,
    dir: TrainDirection,
) -> Result<TrainRoutePlanView, PlanError> {
    let from_station = station_of_sensor(entries, from);
    let to_station = station_of_sensor(entries, to);
    if from == to {
        Ok(
            TrainRoutePlanView {
                train,
                from_sensor: from,
                to_sensor: to,
                target_direction: train_direction_text(dir),
                track_ids: Seq::empty(),
                hop_count: 0,
                description: already_there_text(train, from),
                steps: Seq::empty(),
                already_there: true,
                from_station,
                to_station,
            },
        )
    } else {
        match graph.route_hops(from, to) {
            None => Err(PlanError::NoRoute { train_index: 0, from, to }),
            Some(h) => {
                let fwd = arrives_fwd(h);
                let desc = route_description(graph, from, to, h);
                Ok(
                    TrainRoutePlanView {
                        train,
                        from_sensor: from,
                        to_sensor: to,
                        target_direction: train_direction_text(dir),
                        track_ids: route_tracks(h),
                        hop_count: h.len(),
                        description: if fwd == (dir == TrainDirection::Fwd) {
                            desc
                        } else {
                            desc + ". WARNING: "@ + direction_warning(train, to, dir, fwd)
                        },
                        steps: route_steps(train, h),
                        already_there: false,
                        from_station,
                        to_station,
                    },
                )
            },
        }
    }
}


/// A copy of a list of ids.
fn copy_ids(v: &Vec<u8>) -> (r: Vec<u8>)
    ensures
        r@ == v@,
{
    let mut r: Vec<u8> = Vec::new();
    let mut i: usize = 0;
    while i < v.len()
        invariant
            0 <= i <= v@.len(),
            r@ == v@.take(i as int),
        decreases v.len() - i,
    {
        r.push(v[i]);
        i = i + 1;
        assert(r@ =~= v@.take(i as int));
    }
    assert(v@.take(v.len() as int) =~= v@);
    r
}

/// Lookup entries for the stations of a layout: lower-case names with their sensors.
fn build_station_index(stations: &Vec<Station>) -> (r: Vec<StationIndex>)
    ensures
        index_view(r@) == station_entries(stations@),
{
    let mut r: Vec<StationIndex> = Vec::new();
    let mut i: usize = 0;
    while i < stations.len()
        invariant
            0 <= i <= stations@.len(),
            index_view(r@) == station_entries(stations@.take(i as int)),
        decreases stations.len() - i,
    {
        let name = to_lowercase(stations[i].name.as_str());
        let sensors = copy_ids(&stations[i].sensor_ids);
        let ghost before = r@;
        r.push(StationIndex { name, sensors });
        i = i + 1;
        assert(index_view(r@) =~= index_view(before).push((lowercase(stations@[i - 1].name@), stations@[i - 1].sensor_ids@)));
        assert(station_entries(stations@.take(i as int)) =~= station_entries(stations@.take(i - 1)).push(
            (lowercase(stations@[i - 1].name@), stations@[i - 1].sensor_ids@),
        ));
    }
    assert(stations@.take(stations.len() as int) =~= stations@);
    r
}

/// Whether an entry after entry `i` has the name of entry `i`.
fn renamed_later(index: &Vec<StationIndex>, i: usize) -> (b: bool)
    requires
        i < index@.len(),
    ensures
        b == name_used(index_view(index@).skip(i + 1), index@[i as int].name@),
{
    let ghost iv = index_view(index@);
    let ghost rest = iv.skip(i + 1);
    let n = index.len();
    assert(i < n);
    let mut j: usize = i + 1;
    while j < index.len()
        invariant
            i < j <= index@.len(),
            iv == index_view(index@),
            rest == iv.skip(i + 1),
            forall|q: int| 0 <= q < j - i - 1 ==> (#[trigger] rest[q]).0 != index@[i as int].name@,
        decreases index.len() - j,
    {
        if index[j].name == index[i].name {
            assert(rest[j - i - 1].0 == index@[i as int].name@);
            return true;
        }
        assert(rest[j - i - 1].0 == index@[j as int].name@);
        j = j + 1;
    }
    false
}

/// The station of `sensor` (see [`station_of_sensor`]).
fn station_for_sensor(sensor: u8, index: &Vec<StationIndex>) -> (r: Option<String>)
    ensures
        text_of(r) == station_of_sensor(index_view(index@), sensor),
{
    let ghost iv = index_view(index@);
    let mut i: usize = 0;
    assert(iv.skip(0) =~= iv);
    while i < index.len()
        invariant
            0 <= i <= index@.len(),
            iv == index_view(index@),
            station_of_sensor(iv, sensor) == station_of_sensor(iv.skip(i as int), sensor),
        decreases index.len() - i,
    {
        assert(iv.skip(i as int)[0] == iv[i as int]);
        assert(iv.skip(i as int).drop_first() =~= iv.skip(i + 1));
        if contains_u8(&index[i].sensors, sensor) && !renamed_later(index, i) {
            return Some(index[i].name.clone());
        }
        i = i + 1;
    }
    None
}

/// The index of the last station entry named `key`.
fn find_station(index: &Vec<StationIndex>, key: &String) -> (r: Option<usize>)
    ensures
        match r {
            Some(i) => i < index@.len() && lookup_station(index_view(index@), key@) == Some(index@[i as int].sensors@),
            None => lookup_station(index_view(index@), key@) is None,
        },
{
    let ghost iv = index_view(index@);
    let mut i: usize = index.len();
    assert(iv.take(i as int) =~= iv);
    while i > 0
        invariant
            0 <= i <= index@.len(),
            iv == index_view(index@),
            lookup_station(iv, key@) == lookup_station(iv.take(i as int), key@),
        decreases i,
    {
        assert(iv.take(i as int).last() == iv[i - 1]);
        if index[i - 1].name == *key {
            return Some(i - 1);
        }
        assert(iv.take(i as int).drop_last() =~= iv.take(i - 1));
        i = i - 1;
    }
    None
}

/// Appends a step.
fn push_step(steps: &mut Vec<RouteStep>, s: RouteStep)
    ensures
        steps_view(final(steps)@) == steps_view(old(steps)@).push(s@),
{
    steps.push(s);
    assert(steps_view(steps@) =~= steps_view(old(steps)@).push(s@));
}

/// The note of the step that waits for `train` at `sensor`.
fn await_note_text(train: u8, sensor: u8) -> (s: String)
    ensures
        s@ == await_note(train, sensor),
{
    let mut s = String::new();
    push_str(&mut s, "train ");
    push_decimal(&mut s, train as u64);
    push_str(&mut s, " reaching sensor ");
    push_decimal(&mut s, sensor as u64);
    assert(s@ =~= await_note(train, sensor));
    s
}

/// The ordered steps that move `train` along `route`.
#[verifier::rlimit(40)]
fn build_steps(train: u8, route: &Route) -> (steps: Vec<RouteStep>)
    ensures
        steps_view(steps@) == route_steps(train, route.hop_views()),
{
    let point_settings = route.point_settings();
    let ghost hv = route.hop_views();
    let ghost pf = |ps: PointSetting| StepView::SetPoint { train, point_id: ps.point_id, direction: ps.direction };
    let mut steps: Vec<RouteStep> = Vec::new();
    let mut i: usize = 0;
    while i < point_settings.len()
        invariant
            0 <= i <= point_settings@.len(),
            pf == (|ps: PointSetting| StepView::SetPoint { train, point_id: ps.point_id, direction: ps.direction }),
            steps_view(steps@) == point_settings@.take(i as int).map_values(pf),
        decreases point_settings.len() - i,
    {
        let ps = point_settings[i];
        push_step(&mut steps, RouteStep::SetPoint { train, point_id: ps.point_id, direction: ps.direction });
        i = i + 1;
        assert(point_settings@.take(i as int).map_values(pf) =~= point_settings@.take(i - 1).map_values(pf).push(
            pf(point_settings@[i - 1]),
        ));
    }
    assert(point_settings@.take(point_settings.len() as int) =~= point_settings@);
    let ghost base = steps_view(steps@);
    let n = route.hops.len();
    let mut k: usize = 0;
    while k < n
        invariant
            0 <= k <= n,
            n == route.hops@.len(),
            hv == route.hop_views(),
            hv.len() == n,
            steps_view(steps@) == base + hop_steps(train, hv, k as int),
        decreases n - k,
    {
        let ghost before = steps_view(steps@);
        let cur = route.hops[k].track_id;
        assert(cur == hv[k as int].track_id);
        let changed = k > 0 && route.hops[k - 1].track_id != cur;
        if changed {
            push_step(&mut steps, RouteStep::DeEnergiseTrack { train, track_id: route.hops[k - 1].track_id });
        }
        let ghost mid1 = steps_view(steps@);
        if k == 0 || changed {
            let direction = power_of_track(&route.hops, cur);
            push_step(
                &mut steps,
                RouteStep::EnergiseTrack { train, track_id: cur, direction, speed: DEFAULT_ROUTE_SPEED },
            );
        }
        let ghost mid2 = steps_view(steps@);
        let to = route.hops[k].to;
        let note = await_note_text(train, to);
        push_step(&mut steps, RouteStep::AwaitSensor { train, sensor: to, note });
        proof {
            assert(hv[k as int].to == to);
            if k > 0 {
                assert(hv[k - 1].track_id == route.hops@[k - 1].track_id);
            }
            assert(steps_view(steps@) =~= before + hop_step_group(train, hv, k as int));
        }
        k = k + 1;
    }
    if n > 0 {
        assert(hv.last().track_id == route.hops@[n - 1].track_id);
        push_step(&mut steps, RouteStep::DeEnergiseTrack { train, track_id: route.hops[n - 1].track_id });
    }
    assert(steps_view(steps@) =~= route_steps(train, hv));
    steps
}


/// The description of a train that is already at its target.
fn already_there_description(train: u8, sensor: u8) -> (s: String)
    ensures
        s@ == already_there_text(train, sensor),
{
    let mut s = String::new();
    push_str(&mut s, "Train ");
    push_decimal(&mut s, train as u64);
    push_str(&mut s, " already at sensor ");
    push_decimal(&mut s, sensor as u64);
    push_str(&mut s, " — no movement needed.");
    assert(s@ =~= already_there_text(train, sensor));
    s
}

/// Appends ". WARNING: " and the direction warning to a description.
fn push_direction_warning(s: &mut String, train: u8, to: u8, dir: TrainDirection, fwd: bool)
    ensures
        final(s)@ == old(s)@ + ". WARNING: "@ + direction_warning(train, to, dir, fwd),
{
    push_str(s, ". WARNING: ");
    push_str(s, "Train ");
    push_decimal(s, train as u64);
    push_str(s, " arrives ");
    push_str(s, if fwd { "fwd" } else { "bwd" });
    push_str(s, " but target direction is ");
    push_str(s, dir.as_str());
    push_str(s, " — the route reaches sensor ");
    push_decimal(s, to as u64);
    push_str(s, " from the ");
    push_str(s, if fwd { "forward" } else { "backward" });
    push_str(s, " direction");
    assert(s@ =~= old(s)@ + ". WARNING: "@ + direction_warning(train, to, dir, fwd));
}

/// Plans one train's route from its current sensor to a target sensor.
fn plan_single_train(
    train_id: u8,
    from_sensor: u8,
    to_sensor: u8,
    target_direction: TrainDirection,
    graph: &TrackGraph,
    index: &Vec<StationIndex>,
) -> (r: Result<TrainRoutePlan, PlanError>)
    ensures
        match r {
            Ok(p) => single_plan_spec(graph@, index_view(index@), train_id, from_sensor, to_sensor, target_direction) == Ok::<TrainRoutePlanView, PlanError>(p@),
            Err(e) => single_plan_spec(graph@, index_view(index@), train_id, from_sensor, to_sensor, target_direction) == Err::<TrainRoutePlanView, PlanError>(e),
        },
{
    let from_station = station_for_sensor(from_sensor, index);
    let to_station = station_for_sensor(to_sensor, index);
    let mut target_text = String::new();
    push_str(&mut target_text, target_direction.as_str());
    if from_sensor == to_sensor {
        let p = TrainRoutePlan {
            train: train_id,
            from_sensor,
            to_sensor,
            target_direction: target_text,
            track_ids: Vec::new(),
            hop_count: 0,
            description: already_there_description(train_id, from_sensor),
            steps: Vec::new(),
            already_there: true,
            from_station,
            to_station,
        };
        assert(p.track_ids@ =~= Seq::<u8>::empty());
        assert(steps_view(p.steps@) =~= Seq::<StepView>::empty());
        assert(p@ == single_plan_spec(graph@, index_view(index@), train_id, from_sensor, to_sensor, target_direction)->Ok_0);
        return Ok(p);
    }
    let route = match graph.find_route(from_sensor, to_sensor) {
        Some(r) => r,
        None => {
            return Err(PlanError::NoRoute { train_index: 0, from: from_sensor, to: to_sensor });
        },
    };
    let ghost hv = route.hop_views();
    let n = route.hops.len();
    let arrives_fwd_now = route_arrives_fwd(&route);
    let target_fwd = match target_direction {
        TrainDirection::Fwd => true,
        TrainDirection::Bwd => false,
    };
    let point_settings = route.point_settings();
    let track_ids = route.track_ids();
    let steps = build_steps(train_id, &route);
    let mut description = describe_route(&route, &point_settings, &track_ids, graph);
    if arrives_fwd_now != target_fwd {
        push_direction_warning(&mut description, train_id, to_sensor, target_direction, arrives_fwd_now);
    }
    let p = TrainRoutePlan {
        train: train_id,
        from_sensor,
        to_sensor,
        target_direction: target_text,
        track_ids,
        hop_count: n,
        description,
        steps,
        already_there: false,
        from_station,
        to_station,
    };
    assert(p@ == single_plan_spec(graph@, index_view(index@), train_id, from_sensor, to_sensor, target_direction)->Ok_0);
    Ok(p)
}


/// No hop of the walk runs on a reserved track.
pub open spec fn avoids(hops: Seq<EdgeView>, reserved: Set<u8>) -> bool {
    forall|k: int| 0 <= k < hops.len() ==> !reserved.contains(#[trigger] hops[k].track_id)
}

/// Sensor `s` may be chosen for a train at `from`: it is free, it has a route, and that
/// route avoids every reserved track.
pub open spec fn candidate_ok(graph: GraphView, from: u8, s: u8, occupied: Set<u8>, reserved: Set<u8>) -> bool {
    !occupied.contains(s) && match graph.route_hops(from, s) {
        Some(h) => avoids(h, reserved),
        None => false,
    }
}

/// Rank of a candidate sensor (lower is better): arriving against the target direction
/// first, then the number of hops.
pub open spec fn candidate_rank(graph: GraphView, from: u8, s: u8, dir: TrainDirection) -> (int, int) {
    match graph.route_hops(from, s) {
        Some(h) => (if arrives_fwd(h) == (dir == TrainDirection::Fwd) {
            0int
        } else {
            1int
        }, h.len() as int),
        None => (2int, 0int),
    }
}

/// Lexicographic order of ranks.
pub open spec fn rank_lt(a: (int, int), b: (int, int)) -> bool {
    a.0 < b.0 || (a.0 == b.0 && a.1 < b.1)
}

/// Entry `i` of `sensors` is the best candidate among the first `n`: it may be chosen, no
/// candidate among them ranks better, and every candidate before it ranks worse.
pub open spec fn is_best_upto(
    graph: GraphView,
    from: u8,
    sensors: Seq<u8>,
    dir: TrainDirection,
    occupied: Set<u8>,
    reserved: Set<u8>,
    n: int,
    i: int,
) -> bool {
    &&& 0 <= i < n <= sensors.len()
    &&& candidate_ok(graph, from, sensors[i], occupied, reserved)
    &&& forall|j: int|
        0 <= j < n && #[trigger] candidate_ok(graph, from, sensors[j], occupied, reserved) ==> !rank_lt(
            candidate_rank(graph, from, sensors[j], dir),
            candidate_rank(graph, from, sensors[i], dir),
        )
    &&& forall|j: int|
        0 <= j < i && #[trigger] candidate_ok(graph, from, sensors[j], occupied, reserved) ==> rank_lt(
            candidate_rank(graph, from, sensors[i], dir),
            candidate_rank(graph, from, sensors[j], dir),
        )
}

/// Entry `i` is the best candidate of the whole list.
pub open spec fn is_best_candidate(
    graph: GraphView,
    from: u8,
    sensors: Seq<u8>,
    dir: TrainDirection,
    occupied: Set<u8>,
    reserved: Set<u8>,
    i: int,
) -> bool {
    is_best_upto(graph, from, sensors, dir, occupied, reserved, sensors.len() as int, i)
}

/// At most one entry is the best candidate.
pub proof fn lemma_best_candidate_unique(
    graph: GraphView,
    from: u8,
    sensors: Seq<u8>,
    dir: TrainDirection,
    occupied: Set<u8>,
    reserved: Set<u8>,
    i: int,
    j: int,
)
    requires
        is_best_candidate(graph, from, sensors, dir, occupied, reserved, i),
        is_best_candidate(graph, from, sensors, dir, occupied, reserved, j),
    ensures
        i == j,
{
    if i < j {
        assert(candidate_ok(graph, from, sensors[i], occupied, reserved));
    } else if j < i {
        assert(candidate_ok(graph, from, sensors[j], occupied, reserved));
    }
}

/// The first entry of `sensors` that has a route from `from`.
pub open spec fn first_routable(graph: GraphView, from: u8, sensors: Seq<u8>) -> Option<u8>
    decreases sensors.len(),
{
    if sensors.len() == 0 {
        None
    } else if graph.route_hops(from, sensors[0]) is Some {
        Some(sensors[0])
    } else {
        first_routable(graph, from, sensors.drop_first())
    }
}

/// The sensor of a station that a train at `from` goes to: where it already is, else the
/// best candidate, else the first sensor with a route (occupied or not), else no route.
pub open spec fn station_target(
    graph: GraphView,
    from: u8,
    sensors: Seq<u8>,
    dir: TrainDirection,
    occupied: Set<u8>,
    reserved: Set<u8>,
) -> Result<u8, PlanError> {
    if sensors.contains(from) {
        Ok(from)
    } else if exists|i: int| is_best_candidate(graph, from, sensors, dir, occupied, reserved, i) {
        Ok(sensors[choose|i: int| is_best_candidate(graph, from, sensors, dir, occupied, reserved, i)])
    } else {
        match first_routable(graph, from, sensors) {
            Some(s) => Ok(s),
            None => Err(
                PlanError::NoRoute {
                    train_index: 0,
                    from,
                    to: if sensors.len() > 0 {
                        sensors[0]
                    } else {
                        0
                    },
                },
            ),
        }
    }
}

/// The concrete sensor a destination names for a train at `from`.
pub open spec fn resolve_spec(
    graph: GraphView,
    entries: Seq<(Seq<char>, Seq<u8>)>,
    train_id: u8,
    from: u8,
    dest: Destination,
    dir: TrainDirection,
    occupied: Set<u8>,
    reserved: Set<u8>,
) -> Result<u8, PlanError> {
    match dest {
        Destination::Sensor(s) => Ok(s),
        Destination::Station(name) => match lookup_station(entries, lowercase(name@)) {
            None => Err(PlanError::UnknownStation { train_id, name }),
            Some(sensors) => station_target(graph, from, sensors, dir, occupied, reserved),
        },
    }
}

/// A sensor a train at `from` may be sent to: nobody is there, and it has a route that uses
/// no reserved track.
pub open spec fn eligible(graph: GraphView, from: u8, s: u8, occupied: Set<u8>, reserved: Set<u8>) -> bool {
    &&& !occupied.contains(s)
    &&& graph.route_hops(from, s) is Some
    &&& forall|k: int|
        0 <= k < graph.route_hops(from, s)->Some_0.len() ==> !reserved.contains(
            #[trigger] graph.route_hops(from, s)->Some_0[k].track_id,
        )
}

/// The route to `s` arrives facing the target direction.
pub open spec fn arrives_as(graph: GraphView, from: u8, s: u8, dir: TrainDirection) -> bool {
    arrives_fwd(graph.route_hops(from, s)->Some_0) == (dir == TrainDirection::Fwd)
}

/// Some entry below `n` has a better rank than entry `i`, or none is eligible.
proof fn lemma_best_exists(
    graph: GraphView,
    from: u8,
    sensors: Seq<u8>,
    dir: TrainDirection,
    occupied: Set<u8>,
    reserved: Set<u8>,
    n: int,
)
    requires
        0 <= n <= sensors.len(),
        exists|j: int| 0 <= j < n && #[trigger] candidate_ok(graph, from, sensors[j], occupied, reserved),
    ensures
        exists|i: int| is_best_upto(graph, from, sensors, dir, occupied, reserved, n, i),
    decreases n,
{
    let last = n - 1;
    if exists|j: int| 0 <= j < last && #[trigger] candidate_ok(graph, from, sensors[j], occupied, reserved) {
        lemma_best_exists(graph, from, sensors, dir, occupied, reserved, last);
        let i = choose|i: int| is_best_upto(graph, from, sensors, dir, occupied, reserved, last, i);
        if candidate_ok(graph, from, sensors[last], occupied, reserved) && rank_lt(
            candidate_rank(graph, from, sensors[last], dir),
            candidate_rank(graph, from, sensors[i], dir),
        ) {
            assert(is_best_upto(graph, from, sensors, dir, occupied, reserved, n, last));
        } else {
            assert(is_best_upto(graph, from, sensors, dir, occupied, reserved, n, i));
        }
    } else {
        assert(candidate_ok(graph, from, sensors[last], occupied, reserved));
        assert(is_best_upto(graph, from, sensors, dir, occupied, reserved, n, last));
    }
}

/// Which sensor of a station a train is sent to, when it is not already at the station and
/// some sensor of the station is eligible (free, with a route avoiding reserved tracks):
/// an eligible sensor; one whose route arrives facing the target direction whenever any
/// eligible sensor's does; and, among the eligible sensors whose routes arrive the same way
/// as the chosen one's, one with the fewest hops.
pub proof fn lemma_station_target_shortest(
    graph: GraphView,
    from: u8,
    sensors: Seq<u8>,
    dir: TrainDirection,
    occupied: Set<u8>,
    reserved: Set<u8>,
)
    requires
        !sensors.contains(from),
        exists|j: int| 0 <= j < sensors.len() && eligible(graph, from, #[trigger] sensors[j], occupied, reserved),
    ensures
        station_target(graph, from, sensors, dir, occupied, reserved) matches Ok(s) && {
            &&& sensors.contains(s)
            &&& eligible(graph, from, s, occupied, reserved)
            &&& forall|j: int|
                0 <= j < sensors.len() && eligible(graph, from, #[trigger] sensors[j], occupied, reserved)
                    && arrives_as(graph, from, sensors[j], dir) ==> arrives_as(graph, from, s, dir)
            &&& forall|j: int|
                0 <= j < sensors.len() && eligible(graph, from, #[trigger] sensors[j], occupied, reserved)
                    && arrives_as(graph, from, sensors[j], dir) == arrives_as(graph, from, s, dir)
                    ==> graph.route_hops(from, s)->Some_0.len() <= graph.route_hops(from, sensors[j])->Some_0.len()
        },
{
    let j0 = choose|j: int| 0 <= j < sensors.len() && eligible(graph, from, #[trigger] sensors[j], occupied, reserved);
    assert(candidate_ok(graph, from, sensors[j0], occupied, reserved));
    lemma_best_exists(graph, from, sensors, dir, occupied, reserved, sensors.len() as int);
    let i0 = choose|i: int| is_best_upto(graph, from, sensors, dir, occupied, reserved, sensors.len() as int, i);
    assert(is_best_candidate(graph, from, sensors, dir, occupied, reserved, i0));
    let i = choose|i: int| is_best_candidate(graph, from, sensors, dir, occupied, reserved, i);
    assert(is_best_candidate(graph, from, sensors, dir, occupied, reserved, i));
    let s = sensors[i];
    assert(station_target(graph, from, sensors, dir, occupied, reserved) == Ok::<u8, PlanError>(s));
    assert(candidate_ok(graph, from, s, occupied, reserved));
    assert forall|j: int|
        0 <= j < sensors.len() && eligible(graph, from, #[trigger] sensors[j], occupied, reserved) implies (arrives_as(
        graph,
        from,
        sensors[j],
        dir,
    ) ==> arrives_as(graph, from, s, dir)) && (arrives_as(graph, from, sensors[j], dir) == arrives_as(graph, from, s, dir)
        ==> graph.route_hops(from, s)->Some_0.len() <= graph.route_hops(from, sensors[j])->Some_0.len()) by {
        assert(candidate_ok(graph, from, sensors[j], occupied, reserved));
        assert(!rank_lt(candidate_rank(graph, from, sensors[j], dir), candidate_rank(graph, from, s, dir)));
    }
}

/// The route avoids every reserved track.
pub(crate) fn route_avoids(route: &Route, reserved: &Vec<u8>) -> (b: bool)
    ensures
        b == avoids(route.hop_views(), reserved@.to_set()),
{
    let ghost hv = route.hop_views();
    let mut k: usize = 0;
    while k < route.hops.len()
        invariant
            0 <= k <= route.hops@.len(),
            hv == route.hop_views(),
            forall|j: int| 0 <= j < k ==> !reserved@.to_set().contains(#[trigger] hv[j].track_id),
        decreases route.hops.len() - k,
    {
        assert(hv[k as int].track_id == route.hops@[k as int].track_id);
        if contains_u8(reserved, route.hops[k].track_id) {
            return false;
        }
        k = k + 1;
    }
    true
}

/// The route reaches its last sensor moving forward (true for an empty route).
fn route_arrives_fwd(route: &Route) -> (b: bool)
    ensures
        b == arrives_fwd(route.hop_views()),
{
    let n = route.hops.len();
    if n == 0 {
        true
    } else {
        match route.hops[n - 1].traverse_direction {
            TraverseDirection::Fwd => true,
            TraverseDirection::Bck => false,
        }
    }
}

/// The best candidate among `sensors`, if any may be chosen.
#[verifier::rlimit(40)]
fn best_candidate(
    from_sensor: u8,
    sensors: &Vec<u8>,
    target_direction: TrainDirection,
    occupied: &Vec<u8>,
    reserved: &Vec<u8>,
    graph: &TrackGraph,
) -> (r: Option<usize>)
    ensures
        match r {
            Some(i) => is_best_candidate(graph@, from_sensor, sensors@, target_direction, occupied@.to_set(), reserved@.to_set(), i as int),
            None => forall|j: int| 0 <= j < sensors@.len() ==> !#[trigger] candidate_ok(graph@, from_sensor, sensors@[j], occupied@.to_set(), reserved@.to_set()),
        },
{
    let ghost occ = occupied@.to_set();
    let ghost res = reserved@.to_set();
    let target_fwd = match target_direction {
        TrainDirection::Fwd => true,
        TrainDirection::Bwd => false,
    };
    let mut best: Option<(usize, u8, usize)> = None;
    let mut i: usize = 0;
    while i < sensors.len()
        invariant
            0 <= i <= sensors@.len(),
            occ == occupied@.to_set(),
            res == reserved@.to_set(),
            target_fwd == (target_direction == TrainDirection::Fwd),
            match best {
                Some(b) => is_best_upto(graph@, from_sensor, sensors@, target_direction, occ, res, i as int, b.0 as int)
                    && candidate_rank(graph@, from_sensor, sensors@[b.0 as int], target_direction) == (b.1 as int, b.2 as int),
                None => forall|j: int| 0 <= j < i ==> !#[trigger] candidate_ok(graph@, from_sensor, sensors@[j], occ, res),
            },
        decreases sensors.len() - i,
    {
        let ss = sensors[i];
        let mut ok = false;
        let mut mismatch: u8 = 2;
        let mut hops: usize = 0;
        if !contains_u8(occupied, ss) {
            match graph.find_route(from_sensor, ss) {
                Some(route) => {
                    if route_avoids(&route, reserved) {
                        ok = true;
                        mismatch = if route_arrives_fwd(&route) == target_fwd { 0 } else { 1 };
                        hops = route.hops.len();
                    }
                },
                None => {},
            }
        }
        assert(ok == candidate_ok(graph@, from_sensor, sensors@[i as int], occ, res));
        assert(ok ==> candidate_rank(graph@, from_sensor, sensors@[i as int], target_direction) == (mismatch as int, hops as int));
        if ok {
            let better = match best {
                None => true,
                Some(b) => mismatch < b.1 || (mismatch == b.1 && hops < b.2),
            };
            if better {
                best = Some((i, mismatch, hops));
            }
        }
        i = i + 1;
    }
    match best {
        Some(b) => Some(b.0),
        None => None,
    }
}

/// The first entry of `sensors` that has a route from `from_sensor`.
fn first_routable_sensor(from_sensor: u8, sensors: &Vec<u8>, graph: &TrackGraph) -> (r: Option<u8>)
    ensures
        r == first_routable(graph@, from_sensor, sensors@),
{
    let mut j: usize = 0;
    assert(sensors@.skip(0) =~= sensors@);
    while j < sensors.len()
        invariant
            0 <= j <= sensors@.len(),
            first_routable(graph@, from_sensor, sensors@) == first_routable(graph@, from_sensor, sensors@.skip(j as int)),
        decreases sensors.len() - j,
    {
        assert(sensors@.skip(j as int)[0] == sensors@[j as int]);
        if graph.find_route(from_sensor, sensors[j]).is_some() {
            return Some(sensors[j]);
        }
        assert(sensors@.skip(j as int).drop_first() =~= sensors@.skip(j + 1));
        j = j + 1;
    }
    None
}

/// Resolves a destination (sensor number or station name) to a concrete sensor.
fn resolve_destination(
    train_id: u8,
    from_sensor: u8,
    destination: &Destination,
    target_direction: TrainDirection,
    index: &Vec<StationIndex>,
    occupied: &Vec<u8>,
    reserved: &Vec<u8>,
    graph: &TrackGraph,
) -> (r: Result<u8, PlanError>)
    ensures
        r == resolve_spec(graph@, index_view(index@), train_id, from_sensor, *destination, target_direction, occupied@.to_set(), reserved@.to_set()),
{
    match destination {
        Destination::Sensor(s) => Ok(*s),
        Destination::Station(name) => {
            let key = to_lowercase(name.as_str());
            let idx = match find_station(index, &key) {
                Some(i) => i,
                None => {
                    return Err(PlanError::UnknownStation { train_id, name: name.clone() });
                },
            };
            let sensors = &index[idx].sensors;
            if contains_u8(sensors, from_sensor) {
                return Ok(from_sensor);
            }
            let ghost occ = occupied@.to_set();
            let ghost res = reserved@.to_set();
            match best_candidate(from_sensor, sensors, target_direction, occupied, reserved, graph) {
                Some(b) => {
                    proof {
                        let c = choose|c: int| is_best_candidate(graph@, from_sensor, sensors@, target_direction, occ, res, c);
                        lemma_best_candidate_unique(graph@, from_sensor, sensors@, target_direction, occ, res, b as int, c);
                    }
                    Ok(sensors[b])
                },
                None => {
                    assert(!exists|i: int| is_best_candidate(graph@, from_sensor, sensors@, target_direction, occ, res, i)) by {
                        if exists|i: int| is_best_candidate(graph@, from_sensor, sensors@, target_direction, occ, res, i) {
                            let i = choose|i: int| is_best_candidate(graph@, from_sensor, sensors@, target_direction, occ, res, i);
                            assert(candidate_ok(graph@, from_sensor, sensors@[i], occ, res));
                        }
                    }
                    match first_routable_sensor(from_sensor, sensors, graph) {
                        Some(s) => Ok(s),
                        None => {
                            let to = if sensors.len() > 0 { sensors[0] } else { 0 };
                            Err(PlanError::NoRoute { train_index: 0, from: from_sensor, to })
                        },
                    }
                },
            }
        },
    }
}


/// What the target planner carries from one train to the next.
pub struct PlannerState {
    /// Tracks reserved by trains planned so far.
    pub reserved: Set<u8>,
    /// Sensors occupied, with planned trains counted at their targets.
    pub occupied: Set<u8>,
    /// Plans made so far.
    pub plans: Seq<TrainRoutePlanView>,
    /// Warnings given so far.
    pub warnings: Seq<Seq<char>>,
}

/// The last registered position of train `id`.
pub open spec fn find_current(trains: Seq<TrainPosition>, id: u8) -> Option<TrainPosition>
    decreases trains.len(),
{
    if trains.len() == 0 {
        None
    } else if trains.last().train == id {
        Some(trains.last())
    } else {
        find_current(trains.drop_last(), id)
    }
}

/// Warning given when a train needs a track that an earlier train reserved.
pub open spec fn conflict_warning(train: u8, track: u8) -> Seq<char> {
    "Train "@ + decimal(train as nat) + " needs track "@ + decimal(track as nat)
        + " which is reserved by another train — trains must be sequenced (move one at a time through shared tracks)"@
}

/// One warning for each of `tracks` that is reserved, in order.
pub open spec fn conflict_warnings(train: u8, tracks: Seq<u8>, reserved: Set<u8>) -> Seq<Seq<char>>
    decreases tracks.len(),
{
    if tracks.len() == 0 {
        Seq::empty()
    } else {
        conflict_warnings(train, tracks.drop_last(), reserved) + if reserved.contains(tracks.last()) {
            seq![conflict_warning(train, tracks.last())]
        } else {
            Seq::empty()
        }
    }
}

/// The planner state before any train: every current sensor occupied, nothing reserved.
pub open spec fn initial_planner_state(current: Seq<TrainPosition>) -> PlannerState {
    PlannerState {
        reserved: Set::empty(),
        occupied: current.map_values(|t: TrainPosition| t.sensor).to_set(),
        plans: Seq::empty(),
        warnings: Seq::empty(),
    }
}

/// Plans one more target: find the train, resolve its destination, plan its route, warn
/// about reserved tracks, reserve the route's tracks and move the train's occupancy.
pub open spec fn plan_one(
    graph: GraphView,
    entries: Seq<(Seq<char>, Seq<u8>)>,
    current: Seq<TrainPosition>,
    st: PlannerState,
    t: RouteTrainRequest,
) -> Result<PlannerState, PlanError> {
    match find_current(current, t.train) {
        None => Err(PlanError::TrainNotFound { train_id: t.train }),
        Some(cur) => match resolve_spec(
            graph,
            entries,
            t.train,
            cur.sensor,
            t.destination,
            t.direction,
            st.occupied,
            st.reserved,
        ) {
            Err(e) => Err(e),
            Ok(to) => match single_plan_spec(graph, entries, t.train, cur.sensor, to, t.direction) {
                Err(e) => Err(e),
                Ok(p) => Ok(
                    PlannerState {
                        reserved: st.reserved + p.track_ids.to_set(),
                        occupied: if to != cur.sensor {
                            st.occupied.insert(to).remove(cur.sensor)
                        } else {
                            st.occupied.insert(to)
                        },
                        plans: st.plans.push(p),
                        warnings: st.warnings + conflict_warnings(t.train, p.track_ids, st.reserved),
                    },
                ),
            },
        },
    }
}

/// The planner state after the first `n` targets, or the first error.
pub open spec fn plan_fold(
    graph: GraphView,
    entries: Seq<(Seq<char>, Seq<u8>)>,
    current: Seq<TrainPosition>,
    targets: Seq<RouteTrainRequest>,
    n: int,
) -> Result<PlannerState, PlanError>
    decreases n,
{
    if n <= 0 {
        Ok(initial_planner_state(current))
    } else {
        match plan_fold(graph, entries, current, targets, n - 1) {
            Err(e) => Err(e),
            Ok(st) => plan_one(graph, entries, current, st, targets[n - 1]),
        }
    }
}

/// The plans and warnings for a whole target request, or the first error.
pub open spec fn target_plan_spec(
    graph: GraphView,
    stations: Seq<Station>,
    current: Seq<TrainPosition>,
    targets: Seq<RouteTrainRequest>,
) -> Result<(Seq<TrainRoutePlanView>, Seq<Seq<char>>), PlanError> {
    match plan_fold(graph, station_entries(stations), current, targets, targets.len() as int) {
        Ok(st) => Ok((st.plans, st.warnings)),
        Err(e) => Err(e),
    }
}

/// The last registered position of train `id`.
fn current_position(trains: &Vec<TrainPosition>, id: u8) -> (r: Option<TrainPosition>)
    ensures
        r == find_current(trains@, id),
{
    let mut i: usize = trains.len();
    assert(trains@.take(i as int) =~= trains@);
    while i > 0
        invariant
            0 <= i <= trains@.len(),
            find_current(trains@, id) == find_current(trains@.take(i as int), id),
        decreases i,
    {
        assert(trains@.take(i as int).last() == trains@[i - 1]);
        if trains[i - 1].train == id {
            return Some(trains[i - 1]);
        }
        assert(trains@.take(i as int).drop_last() =~= trains@.take(i - 1));
        i = i - 1;
    }
    None
}

/// The sensors of the given positions.
fn sensors_of(trains: &Vec<TrainPosition>) -> (r: Vec<u8>)
    ensures
        r@ == trains@.map_values(|t: TrainPosition| t.sensor),
{
    let mut r: Vec<u8> = Vec::new();
    let mut i: usize = 0;
    while i < trains.len()
        invariant
            0 <= i <= trains@.len(),
            r@ == trains@.take(i as int).map_values(|t: TrainPosition| t.sensor),
        decreases trains.len() - i,
    {
        r.push(trains[i].sensor);
        i = i + 1;
        assert(r@ =~= trains@.take(i as int).map_values(|t: TrainPosition| t.sensor));
    }
    assert(trains@.take(trains.len() as int) =~= trains@);
    r
}

/// `v` without any occurrence of `x`.
fn without(v: &Vec<u8>, x: u8) -> (r: Vec<u8>)
    ensures
        r@.to_set() == v@.to_set().remove(x),
{
    let mut r: Vec<u8> = Vec::new();
    let mut i: usize = 0;
    while i < v.len()
        invariant
            0 <= i <= v@.len(),
            forall|y: u8| #[trigger] r@.contains(y) <==> (y != x && exists|k: int| 0 <= k < i && v@[k] == y),
        decreases v.len() - i,
    {
        let ghost before = r@;
        if v[i] != x {
            r.push(v[i]);
        }
        proof {
            assert forall|y: u8| #[trigger] r@.contains(y) <==> (y != x && exists|k: int| 0 <= k < i + 1 && v@[k] == y) by {
                if r@.contains(y) && !before.contains(y) {
                    let k = choose|k: int| 0 <= k < r@.len() && r@[k] == y;
                    assert(k == before.len());
                    assert(v@[i as int] == y);
                }
                if before.contains(y) {
                    let k = choose|k: int| 0 <= k < before.len() && before[k] == y;
                    assert(r@[k] == y);
                }
                if y != x && (exists|k: int| 0 <= k < i + 1 && v@[k] == y) {
                    let k = choose|k: int| 0 <= k < i + 1 && v@[k] == y;
                    if k == i {
                        assert(r@[r@.len() - 1] == y);
                    } else {
                        assert(before.contains(y));
                        let m = choose|m: int| 0 <= m < before.len() && before[m] == y;
                        assert(r@[m] == y);
                    }
                }
            }
        }
        i = i + 1;
    }
    assert forall|y: u8| r@.to_set().contains(y) <==> v@.to_set().remove(x).contains(y) by {
        if v@.contains(y) && y != x {
            let k = choose|k: int| 0 <= k < v@.len() && v@[k] == y;
            assert(r@.contains(y));
        }
    }
    assert(r@.to_set() =~= v@.to_set().remove(x));
    r
}

/// Adds `x` to `v` unless it is there already.
fn insert_id(v: &mut Vec<u8>, x: u8)
    ensures
        final(v)@.to_set() == old(v)@.to_set().insert(x),
{
    if !contains_u8(v, x) {
        v.push(x);
    }
    proof {
        assert forall|y: u8| final(v)@.contains(y) <==> old(v)@.contains(y) || y == x by {
            if old(v)@.contains(y) {
                let k = choose|k: int| 0 <= k < old(v)@.len() && old(v)@[k] == y;
                assert(final(v)@[k] == y);
            }
            if final(v)@.contains(y) && !old(v)@.contains(y) {
                let k = choose|k: int| 0 <= k < final(v)@.len() && final(v)@[k] == y;
                assert(k == old(v)@.len());
            }
            if y == x && !old(v)@.contains(x) {
                assert(final(v)@[old(v)@.len() as int] == x);
            }
        }
        assert(final(v)@.to_set() =~= old(v)@.to_set().insert(x));
    }
}

/// Appends the conflict warning for `train` and `track`.
fn conflict_warning_text(train: u8, track: u8) -> (s: String)
    ensures
        s@ == conflict_warning(train, track),
{
    let mut s = String::new();
    push_str(&mut s, "Train ");
    push_decimal(&mut s, train as u64);
    push_str(&mut s, " needs track ");
    push_decimal(&mut s, track as u64);
    push_str(&mut s, " which is reserved by another train — trains must be sequenced (move one at a time through shared tracks)");
    assert(s@ =~= conflict_warning(train, track));
    s
}


/// Once planning has failed, later targets do not change the outcome.
pub proof fn lemma_plan_fold_error_stays(
    graph: GraphView,
    entries: Seq<(Seq<char>, Seq<u8>)>,
    current: Seq<TrainPosition>,
    targets: Seq<RouteTrainRequest>,
    i: int,
    n: int,
)
    requires
        0 <= i <= n,
        plan_fold(graph, entries, current, targets, i) is Err,
    ensures
        plan_fold(graph, entries, current, targets, n) == plan_fold(graph, entries, current, targets, i),
    decreases n - i,
{
    if n > i {
        lemma_plan_fold_error_stays(graph, entries, current, targets, i, n - 1);
    }
}

/// Appends one warning for each of `tracks` that is already reserved.
fn push_conflict_warnings(warnings: &mut Vec<String>, train: u8, tracks: &Vec<u8>, reserved: &Vec<u8>)
    ensures
        texts_view(final(warnings)@) == texts_view(old(warnings)@) + conflict_warnings(
            train,
            tracks@,
            reserved@.to_set(),
        ),
{
    let ghost start = texts_view(warnings@);
    let mut i: usize = 0;
    while i < tracks.len()
        invariant
            0 <= i <= tracks@.len(),
            texts_view(warnings@) == start + conflict_warnings(train, tracks@.take(i as int), reserved@.to_set()),
        decreases tracks.len() - i,
    {
        let ghost before = texts_view(warnings@);
        assert(tracks@.take(i + 1).drop_last() =~= tracks@.take(i as int));
        assert(tracks@.take(i + 1).last() == tracks@[i as int]);
        if contains_u8(reserved, tracks[i]) {
            let w = conflict_warning_text(train, tracks[i]);
            warnings.push(w);
            assert(texts_view(warnings@) =~= before.push(conflict_warning(train, tracks@[i as int])));
        }
        i = i + 1;
        assert(texts_view(warnings@) =~= start + conflict_warnings(train, tracks@.take(i as int), reserved@.to_set()));
    }
    assert(tracks@.take(tracks.len() as int) =~= tracks@);
}

/// Plans routes from the current positions to the targets on a pre-built graph.
///
/// Targets are planned in order. Each train must have a current position (the last one
/// registered for its id); its destination is resolved to a sensor (a station picks a free,
/// reachable sensor whose route avoids the tracks reserved by earlier trains, preferring the
/// target direction and then fewer hops); its plan sets points, powers each track as the
/// train enters it and de-energises it after the train has left. Tracks of earlier plans
/// reserved again give a warning. The first failure is returned.
pub fn plan_target_routes_with(
    current: &InitialiseRequest,
    target: &RouteRequest,
    layout: &TrackLayout,
    graph: &TrackGraph,
) -> (r: Result<RoutePlan, PlanError>)
    ensures
        match r {
            Ok(p) => target_plan_spec(graph@, layout.stations@, current.trains@, target.trains@) == Ok::<
                (Seq<TrainRoutePlanView>, Seq<Seq<char>>),
                PlanError,
            >((plans_view(p.trains@), texts_view(p.warnings@))),
            Err(e) => target_plan_spec(graph@, layout.stations@, current.trains@, target.trains@) == Err::<
                (Seq<TrainRoutePlanView>, Seq<Seq<char>>),
                PlanError,
            >(e),
        },
{
    let index = build_station_index(&layout.stations);
    let ghost entries = station_entries(layout.stations@);
    let mut train_plans: Vec<TrainRoutePlan> = Vec::new();
    let mut warnings: Vec<String> = Vec::new();
    let mut reserved: Vec<u8> = Vec::new();
    let mut occupied = sensors_of(&current.trains);
    proof {
        assert(reserved@.to_set() =~= Set::<u8>::empty());
        assert(plans_view(train_plans@) =~= Seq::<TrainRoutePlanView>::empty());
        assert(texts_view(warnings@) =~= Seq::<Seq<char>>::empty());
    }
    let mut i: usize = 0;
    while i < target.trains.len()
        invariant
            0 <= i <= target.trains@.len(),
            index_view(index@) == entries,
            entries == station_entries(layout.stations@),
            plan_fold(graph@, entries, current.trains@, target.trains@, i as int) == Ok::<PlannerState, PlanError>(
                PlannerState {
                    reserved: reserved@.to_set(),
                    occupied: occupied@.to_set(),
                    plans: plans_view(train_plans@),
                    warnings: texts_view(warnings@),
                },
            ),
        decreases target.trains.len() - i,
    {
        let ghost st = PlannerState {
            reserved: reserved@.to_set(),
            occupied: occupied@.to_set(),
            plans: plans_view(train_plans@),
            warnings: texts_view(warnings@),
        };
        let t = &target.trains[i];
        let cur = match current_position(&current.trains, t.train) {
            Some(c) => c,
            None => {
                proof {
                    lemma_plan_fold_error_stays(graph@, entries, current.trains@, target.trains@, i + 1, target.trains@.len() as int);
                }
                return Err(PlanError::TrainNotFound { train_id: t.train });
            },
        };
        let to_sensor = match resolve_destination(
            t.train,
            cur.sensor,
            &t.destination,
            t.direction,
            &index,
            &occupied,
            &reserved,
            graph,
        ) {
            Ok(s) => s,
            Err(e) => {
                proof {
                    lemma_plan_fold_error_stays(graph@, entries, current.trains@, target.trains@, i + 1, target.trains@.len() as int);
                }
                return Err(e);
            },
        };
        let plan = match plan_single_train(t.train, cur.sensor, to_sensor, t.direction, graph, &index) {
            Ok(p) => p,
            Err(e) => {
                proof {
                    lemma_plan_fold_error_stays(graph@, entries, current.trains@, target.trains@, i + 1, target.trains@.len() as int);
                }
                return Err(e);
            },
        };
        push_conflict_warnings(&mut warnings, t.train, &plan.track_ids, &reserved);
        let ghost reserved_before = reserved@.to_set();
        let mut k: usize = 0;
        while k < plan.track_ids.len()
            invariant
                0 <= k <= plan.track_ids@.len(),
                reserved@.to_set() == reserved_before + plan.track_ids@.take(k as int).to_set(),
            decreases plan.track_ids.len() - k,
        {
            insert_id(&mut reserved, plan.track_ids[k]);
            k = k + 1;
            proof {
                let tk = plan.track_ids@.take(k as int);
                let tp = plan.track_ids@.take(k - 1);
                assert(tk =~= tp.push(plan.track_ids@[k - 1]));
                assert forall|y: u8| tk.contains(y) <==> (tp.contains(y) || y == plan.track_ids@[k - 1]) by {
                    if tp.contains(y) {
                        let m = choose|m: int| 0 <= m < tp.len() && tp[m] == y;
                        assert(tk[m] == y);
                    }
                    if tk.contains(y) && !tp.contains(y) {
                        let m = choose|m: int| 0 <= m < tk.len() && tk[m] == y;
                        if m < tp.len() {
                            assert(tp[m] == y);
                        }
                    }
                    if y == plan.track_ids@[k - 1] {
                        assert(tk[k - 1] == y);
                    }
                }
                assert(reserved@.to_set() =~= reserved_before + tk.to_set());
            }
        }
        assert(plan.track_ids@.take(plan.track_ids.len() as int) =~= plan.track_ids@);
        insert_id(&mut occupied, to_sensor);
        if to_sensor != cur.sensor {
            occupied = without(&occupied, cur.sensor);
        }
        let ghost plans_before = plans_view(train_plans@);
        train_plans.push(plan);
        assert(plans_view(train_plans@) =~= plans_before.push(plan@));
        i = i + 1;
        assert(target.trains@[i - 1] == *t);
    }
    Ok(RoutePlan { trains: train_plans, warnings })
}


/// Text of a track command, such as `SET TRACK 3 → FWD @ 40%`.
pub open spec fn track_command_text(c: TrackCommand) -> Seq<char> {
    match c {
        TrackCommand::SetPoint { point_id, direction } => "SET POINT "@ + decimal(point_id as nat) + " → "@
            + point_direction_text(direction),
        TrackCommand::SetTrackSpeed { track_id, direction, speed } => "SET TRACK "@ + decimal(track_id as nat)
            + " → "@ + track_direction_text(direction) + " @ "@ + decimal(speed as nat) + "%"@,
        TrackCommand::StopTrack { track_id } => "STOP TRACK "@ + decimal(track_id as nat),
    }
}

impl TrackCommand {
    /// The command as text, such as `SET POINT 5 → BRANCH`.
    pub fn to_string(&self) -> (s: String)
        ensures
            s@ == track_command_text(*self),
    {
        let mut s = String::new();
        match self {
            TrackCommand::SetPoint { point_id, direction } => {
                push_str(&mut s, "SET POINT ");
                push_decimal(&mut s, *point_id as u64);
                push_str(&mut s, " → ");
                push_str(&mut s, direction.as_str());
            },
            TrackCommand::SetTrackSpeed { track_id, direction, speed } => {
                push_str(&mut s, "SET TRACK ");
                push_decimal(&mut s, *track_id as u64);
                push_str(&mut s, " → ");
                push_str(&mut s, direction.as_str());
                push_str(&mut s, " @ ");
                push_decimal(&mut s, *speed as u64);
                push_str(&mut s, "%");
            },
            TrackCommand::StopTrack { track_id } => {
                push_str(&mut s, "STOP TRACK ");
                push_decimal(&mut s, *track_id as u64);
            },
        }
        assert(s@ =~= track_command_text(*self));
        s
    }
}

/// Text of a route step, such as `Train 1: AWAIT SENSOR 7 (arriving)`.
pub open spec fn step_text(s: StepView) -> Seq<char> {
    match s {
        StepView::SetPoint { train, point_id, direction } => "Train "@ + decimal(train as nat) + ": SET POINT "@
            + decimal(point_id as nat) + " → "@ + point_direction_text(direction),
        StepView::EnergiseTrack { train, track_id, direction, speed } => "Train "@ + decimal(train as nat)
            + ": ENERGISE TRACK "@ + decimal(track_id as nat) + " → "@ + track_direction_text(direction) + " @ "@
            + decimal(speed as nat) + "%"@,
        StepView::AwaitSensor { train, sensor, note } => "Train "@ + decimal(train as nat) + ": AWAIT SENSOR "@
            + decimal(sensor as nat) + " ("@ + note + ")"@,
        StepView::DeEnergiseTrack { train, track_id } => "Train "@ + decimal(train as nat)
            + ": DE-ENERGISE TRACK "@ + decimal(track_id as nat),
    }
}

impl RouteStep {
    /// The step as text, such as `Train 1: DE-ENERGISE TRACK 4`.
    pub fn to_string(&self) -> (s: String)
        ensures
            s@ == step_text(self@),
    {
        let mut s = String::new();
        match self {
            RouteStep::SetPoint { train, point_id, direction } => {
                push_str(&mut s, "Train ");
                push_decimal(&mut s, *train as u64);
                push_str(&mut s, ": SET POINT ");
                push_decimal(&mut s, *point_id as u64);
                push_str(&mut s, " → ");
                push_str(&mut s, direction.as_str());
            },
            RouteStep::EnergiseTrack { train, track_id, direction, speed } => {
                push_str(&mut s, "Train ");
                push_decimal(&mut s, *train as u64);
                push_str(&mut s, ": ENERGISE TRACK ");
                push_decimal(&mut s, *track_id as u64);
                push_str(&mut s, " → ");
                push_str(&mut s, direction.as_str());
                push_str(&mut s, " @ ");
                push_decimal(&mut s, *speed as u64);
                push_str(&mut s, "%");
            },
            RouteStep::AwaitSensor { train, sensor, note } => {
                push_str(&mut s, "Train ");
                push_decimal(&mut s, *train as u64);
                push_str(&mut s, ": AWAIT SENSOR ");
                push_decimal(&mut s, *sensor as u64);
                push_str(&mut s, " (");
                push_str(&mut s, note.as_str());
                push_str(&mut s, ")");
            },
            RouteStep::DeEnergiseTrack { train, track_id } => {
                push_str(&mut s, "Train ");
                push_decimal(&mut s, *train as u64);
                push_str(&mut s, ": DE-ENERGISE TRACK ");
                push_decimal(&mut s, *track_id as u64);
            },
        }
        assert(s@ =~= step_text(self@));
        s
    }
}

/// Message of a planning error.
pub open spec fn plan_error_text(e: PlanError) -> Seq<char> {
    match e {
        PlanError::NoDestination { train_index, sensor } => "no destination set for train "@ + decimal(
            train_index as nat,
        ) + " (sensor "@ + decimal(sensor as nat) + ")"@,
        PlanError::NoRoute { train_index, from, to } => "no route from sensor "@ + decimal(from as nat)
            + " to sensor "@ + decimal(to as nat) + " for train "@ + decimal(train_index as nat),
        PlanError::TrainNotFound { train_id } => "train "@ + decimal(train_id as nat)
            + " not found in current positions — run /initialise first"@,
        PlanError::UnknownStation { train_id, name } => "unknown station \""@ + name@ + "\" for train "@
            + decimal(train_id as nat),
        PlanError::NoCurrentState => "no current train state — POST /initialise before /route"@,
        PlanError::Layout(m) => "layout load/validate error: "@ + m@,
    }
}

impl PlanError {
    /// The error's message.
    pub fn to_string(&self) -> (s: String)
        ensures
            s@ == plan_error_text(*self),
    {
        let mut s = String::new();
        match self {
            PlanError::NoDestination { train_index, sensor } => {
                push_str(&mut s, "no destination set for train ");
                push_decimal(&mut s, *train_index as u64);
                push_str(&mut s, " (sensor ");
                push_decimal(&mut s, *sensor as u64);
                push_str(&mut s, ")");
            },
            PlanError::NoRoute { train_index, from, to } => {
                push_str(&mut s, "no route from sensor ");
                push_decimal(&mut s, *from as u64);
                push_str(&mut s, " to sensor ");
                push_decimal(&mut s, *to as u64);
                push_str(&mut s, " for train ");
                push_decimal(&mut s, *train_index as u64);
            },
            PlanError::TrainNotFound { train_id } => {
                push_str(&mut s, "train ");
                push_decimal(&mut s, *train_id as u64);
                push_str(&mut s, " not found in current positions — run /initialise first");
            },
            PlanError::UnknownStation { train_id, name } => {
                push_str(&mut s, "unknown station \"");
                push_str(&mut s, name.as_str());
                push_str(&mut s, "\" for train ");
                push_decimal(&mut s, *train_id as u64);
            },
            PlanError::NoCurrentState => {
                push_str(&mut s, "no current train state — POST /initialise before /route");
            },
            PlanError::Layout(m) => {
                push_str(&mut s, "layout load/validate error: ");
                push_str(&mut s, m.as_str());
            },
        }
        assert(s@ =~= plan_error_text(*self));
        s
    }
}


/// `e` as a planning error: its message under [`PlanError::Layout`].
fn layout_failure(e: &LayoutError) -> (r: PlanError)
    ensures
        r matches PlanError::Layout(m) && m@ == layout_error_text(*e),
{
    PlanError::Layout(e.to_string())
}

/// Validates the layout, builds its graph and plans a route for every train (see
/// [`plan_routes_with_graph`]). An invalid layout fails with its message.
pub fn plan_routes(trains: &Vec<TrainPosition>, layout: &TrackLayout) -> (r: Result<Vec<PlannedRoute>, PlanError>)
    ensures
        match validate_spec(*layout) {
            Err(le) => r matches Err(PlanError::Layout(m)) && m@ == layout_error_text(le),
            Ok(()) => routes_outcome(layout_graph(*layout), trains@, r),
        },
{
    if let Err(e) = layout.validate() {
        return Err(layout_failure(&e));
    }
    let graph = TrackGraph::from_layout(layout);
    plan_routes_with_graph(trains, &graph)
}

/// Validates the layout, builds its graph and plans routes from the current positions to
/// the targets (see [`plan_target_routes_with`]). An invalid layout fails with its message.
pub fn plan_target_routes(
    current: &InitialiseRequest,
    target: &RouteRequest,
    layout: &TrackLayout,
) -> (r: Result<RoutePlan, PlanError>)
    ensures
        match validate_spec(*layout) {
            Err(le) => r matches Err(PlanError::Layout(m)) && m@ == layout_error_text(le),
            Ok(()) => match r {
                Ok(p) => target_plan_spec(layout_graph(*layout), layout.stations@, current.trains@, target.trains@)
                    == Ok::<(Seq<TrainRoutePlanView>, Seq<Seq<char>>), PlanError>(
                    (plans_view(p.trains@), texts_view(p.warnings@)),
                ),
                Err(e) => target_plan_spec(layout_graph(*layout), layout.stations@, current.trains@, target.trains@)
                    == Err::<(Seq<TrainRoutePlanView>, Seq<Seq<char>>), PlanError>(e),
            },
        },
{
    if let Err(e) = layout.validate() {
        return Err(layout_failure(&e));
    }
    let graph = TrackGraph::from_layout(layout);
    plan_target_routes_with(current, target, layout, &graph)
}


impl PlannedRoute {
    /// A copy of this planned route.
    pub fn duplicate(&self) -> (p: PlannedRoute)
        ensures
            p@ == self@,
    {
        let mut track_ids: Vec<u8> = Vec::new();
        let mut i: usize = 0;
        while i < self.track_ids.len()
            invariant
                0 <= i <= self.track_ids@.len(),
                track_ids@ == self.track_ids@.take(i as int),
            decreases self.track_ids.len() - i,
        {
            track_ids.push(self.track_ids[i]);
            i = i + 1;
            assert(track_ids@ =~= self.track_ids@.take(i as int));
        }
        let mut commands: Vec<TrackCommand> = Vec::new();
        let mut k: usize = 0;
        while k < self.commands.len()
            invariant
                0 <= k <= self.commands@.len(),
                commands@ == self.commands@.take(k as int),
            decreases self.commands.len() - k,
        {
            commands.push(self.commands[k]);
            k = k + 1;
            assert(commands@ =~= self.commands@.take(k as int));
        }
        assert(self.track_ids@.take(self.track_ids.len() as int) =~= self.track_ids@);
        assert(self.commands@.take(self.commands.len() as int) =~= self.commands@);
        PlannedRoute {
            train_index: self.train_index,
            from_sensor: self.from_sensor,
            to_sensor: self.to_sensor,
            track_ids,
            hop_count: self.hop_count,
            description: self.description.clone(),
            commands,
        }
    }
}


/// The power switching of a list of steps, in order: `(true, t)` for energising track `t`,
/// `(false, t)` for de-energising it.
pub open spec fn power_events(s: Seq<StepView>) -> Seq<(bool, u8)>
    decreases s.len(),
{
    if s.len() == 0 {
        Seq::empty()
    } else {
        power_events(s.drop_last()) + match s.last() {
            StepView::EnergiseTrack { track_id, .. } => seq![(true, track_id)],
            StepView::DeEnergiseTrack { track_id, .. } => seq![(false, track_id)],
            _ => Seq::empty(),
        }
    }
}

/// Power switching alternates: each track is energised and then de-energised before the
/// next one is energised.
pub open spec fn alternating(p: Seq<(bool, u8)>) -> bool {
    &&& p.len() % 2 == 0
    &&& forall|k: int| 0 <= k < p.len() / 2 ==> (#[trigger] p[2 * k]).0 && !p[2 * k + 1].0 && p[2 * k].1 == p[2 * k + 1].1
}

/// The power switching of two step lists run one after the other.
pub proof fn lemma_power_events_concat(a: Seq<StepView>, b: Seq<StepView>)
    ensures
        power_events(a + b) == power_events(a) + power_events(b),
    decreases b.len(),
{
    if b.len() == 0 {
        assert(a + b =~= a);
        assert(power_events(b) =~= Seq::<(bool, u8)>::empty());
        assert(power_events(a) + power_events(b) =~= power_events(a));
    } else {
        lemma_power_events_concat(a, b.drop_last());
        assert((a + b).drop_last() =~= a + b.drop_last());
        assert((a + b).last() == b.last());
    }
}

/// The power switching of one step.
proof fn lemma_power_events_single(x: StepView)
    ensures
        power_events(seq![x]) == match x {
            StepView::EnergiseTrack { track_id, .. } => seq![(true, track_id)],
            StepView::DeEnergiseTrack { track_id, .. } => seq![(false, track_id)],
            _ => Seq::<(bool, u8)>::empty(),
        },
{
    assert(seq![x].drop_last() =~= Seq::<StepView>::empty());
    assert(power_events(Seq::<StepView>::empty()) =~= Seq::<(bool, u8)>::empty());
    assert(seq![x].last() == x);
    let tail = match x {
        StepView::EnergiseTrack { track_id, .. } => seq![(true, track_id)],
        StepView::DeEnergiseTrack { track_id, .. } => seq![(false, track_id)],
        _ => Seq::<(bool, u8)>::empty(),
    };
    assert(Seq::<(bool, u8)>::empty() + tail =~= tail);
}

/// Setting points switches no power.
proof fn lemma_power_events_points(train: u8, pts: Seq<PointSetting>)
    ensures
        power_events(
            pts.map_values(|ps: PointSetting| StepView::SetPoint { train, point_id: ps.point_id, direction: ps.direction }),
        ) == Seq::<(bool, u8)>::empty(),
    decreases pts.len(),
{
    let f = |ps: PointSetting| StepView::SetPoint { train, point_id: ps.point_id, direction: ps.direction };
    if pts.len() > 0 {
        lemma_power_events_points(train, pts.drop_last());
        assert(pts.map_values(f).drop_last() =~= pts.drop_last().map_values(f));
    }
}

/// After the first `n` hops (`n` at least 1) the power switching is alternating except for
/// the track of hop `n - 1`, which is still energised.
proof fn lemma_hop_steps_power(train: u8, hops: Seq<EdgeView>, n: int)
    requires
        1 <= n <= hops.len(),
    ensures
        power_events(hop_steps(train, hops, n)).len() > 0,
        alternating(power_events(hop_steps(train, hops, n)).drop_last()),
        power_events(hop_steps(train, hops, n)).last() == (true, hops[n - 1].track_id),
    decreases n,
{
    let g = hop_step_group(train, hops, n - 1);
    let cur = hops[n - 1].track_id;
    lemma_power_events_concat(hop_steps(train, hops, n - 1), g);
    let await_step = StepView::AwaitSensor { train, sensor: hops[n - 1].to, note: await_note(train, hops[n - 1].to) };
    let energise = StepView::EnergiseTrack {
        train,
        track_id: cur,
        direction: track_power(hops, cur),
        speed: DEFAULT_ROUTE_SPEED,
    };
    if n == 1 {
        assert(hop_steps(train, hops, 0) =~= Seq::<StepView>::empty());
        assert(g =~= seq![energise, await_step]);
        lemma_power_events_single(energise);
        assert(seq![energise, await_step].drop_last() =~= seq![energise]);
        assert(power_events(g) =~= seq![(true, cur)]);
        assert(power_events(hop_steps(train, hops, 0)) =~= Seq::<(bool, u8)>::empty());
        assert(power_events(hop_steps(train, hops, n)) =~= seq![(true, cur)]);
        assert(power_events(hop_steps(train, hops, n)).drop_last() =~= Seq::<(bool, u8)>::empty());
        assert(alternating(Seq::<(bool, u8)>::empty()));
    } else {
        lemma_hop_steps_power(train, hops, n - 1);
        let prev = hops[n - 2].track_id;
        let p0 = power_events(hop_steps(train, hops, n - 1));
        if prev != cur {
            let de = StepView::DeEnergiseTrack { train, track_id: prev };
            assert(g =~= seq![de, energise, await_step]);
            assert(seq![de, energise, await_step].drop_last() =~= seq![de, energise]);
            assert(seq![de, energise].drop_last() =~= seq![de]);
            lemma_power_events_single(de);
            lemma_power_events_single(energise);
            assert(seq![de, energise] =~= seq![de] + seq![energise]);
            lemma_power_events_concat(seq![de], seq![energise]);
            assert(power_events(g) =~= seq![(false, prev), (true, cur)]);
            let p1 = p0 + seq![(false, prev), (true, cur)];
            assert(power_events(hop_steps(train, hops, n)) == p1);
            let q = p1.drop_last();
            assert(q =~= p0.drop_last().push((true, prev)).push((false, prev)));
            let a = p0.drop_last();
            assert forall|k: int| 0 <= k < q.len() / 2 implies (#[trigger] q[2 * k]).0 && !q[2 * k + 1].0 && q[2 * k].1
                == q[2 * k + 1].1 by {
                if k < a.len() / 2 {
                    assert(q[2 * k] == a[2 * k]);
                    assert(q[2 * k + 1] == a[2 * k + 1]);
                } else {
                    assert(k == a.len() / 2);
                }
            }
            assert(q.len() == a.len() + 2);
            assert(alternating(q));
        } else {
            assert(g =~= seq![await_step]);
            lemma_power_events_single(await_step);
            assert(power_events(g) =~= Seq::<(bool, u8)>::empty());
            assert(power_events(hop_steps(train, hops, n)) =~= p0);
        }
    }
}

/// The power switching of a route's steps alternates: each track is energised, then
/// de-energised once the train has left it, before the next one is energised, and no
/// track is left energised at the end.
pub proof fn lemma_route_steps_power_alternates(train: u8, hops: Seq<EdgeView>)
    ensures
        alternating(power_events(route_steps(train, hops))),
{
    let f = |ps: PointSetting| StepView::SetPoint { train, point_id: ps.point_id, direction: ps.direction };
    let pts = route_points(hops).map_values(f);
    let hs = hop_steps(train, hops, hops.len() as int);
    let tail: Seq<StepView> = if hops.len() > 0 {
        seq![StepView::DeEnergiseTrack { train, track_id: hops.last().track_id }]
    } else {
        Seq::empty()
    };
    assert(route_steps(train, hops) == pts + hs + tail);
    lemma_power_events_concat(pts + hs, tail);
    lemma_power_events_concat(pts, hs);
    lemma_power_events_points(train, route_points(hops));
    assert(power_events(pts) + power_events(hs) =~= power_events(hs));
    if hops.len() == 0 {
        assert(hs =~= Seq::<StepView>::empty());
        assert(power_events(tail) =~= Seq::<(bool, u8)>::empty());
        assert(power_events(route_steps(train, hops)) =~= Seq::<(bool, u8)>::empty());
    } else {
        lemma_hop_steps_power(train, hops, hops.len() as int);
        let p = power_events(hs);
        lemma_power_events_single(StepView::DeEnergiseTrack { train, track_id: hops.last().track_id });
        assert(power_events(tail) =~= seq![(false, hops.last().track_id)]);
        let all = p + seq![(false, hops.last().track_id)];
        assert(power_events(route_steps(train, hops)) == all);
        let a = p.drop_last();
        assert(all =~= a.push((true, hops.last().track_id)).push((false, hops.last().track_id)));
        assert forall|k: int| 0 <= k < all.len() / 2 implies (#[trigger] all[2 * k]).0 && !all[2 * k + 1].0 && all[2
            * k].1 == all[2 * k + 1].1 by {
            if k < a.len() / 2 {
                assert(all[2 * k] == a[2 * k]);
                assert(all[2 * k + 1] == a[2 * k + 1]);
            } else {
                assert(k == a.len() / 2);
            }
        }
    }
}


/// The steps of the hops set no point.
proof fn lemma_hop_steps_no_points(train: u8, hops: Seq<EdgeView>, n: int)
    ensures
        forall|k: int| 0 <= k < hop_steps(train, hops, n).len() ==> !(#[trigger] hop_steps(train, hops, n)[k] is SetPoint),
    decreases n,
{
    if n > 0 {
        lemma_hop_steps_no_points(train, hops, n - 1);
        let a = hop_steps(train, hops, n - 1);
        let g = hop_step_group(train, hops, n - 1);
        assert forall|k: int| 0 <= k < (a + g).len() implies !((a + g)[k] is SetPoint) by {
            if k < a.len() {
                assert((a + g)[k] == a[k]);
            } else {
                assert((a + g)[k] == g[k - a.len()]);
            }
        }
    }
}

/// In a route's steps every point is set before any other step is taken.
pub proof fn lemma_route_steps_points_first(train: u8, hops: Seq<EdgeView>)
    ensures
        forall|i: int, j: int|
            0 <= i < j < route_steps(train, hops).len() && (#[trigger] route_steps(train, hops)[j]) is SetPoint
                ==> (#[trigger] route_steps(train, hops)[i]) is SetPoint,
{
    let f = |ps: PointSetting| StepView::SetPoint { train, point_id: ps.point_id, direction: ps.direction };
    let pts = route_points(hops).map_values(f);
    let hs = hop_steps(train, hops, hops.len() as int);
    let tail: Seq<StepView> = if hops.len() > 0 {
        seq![StepView::DeEnergiseTrack { train, track_id: hops.last().track_id }]
    } else {
        Seq::empty()
    };
    let s = route_steps(train, hops);
    assert(s == pts + hs + tail);
    lemma_hop_steps_no_points(train, hops, hops.len() as int);
    assert forall|k: int| 0 <= k < s.len() implies (#[trigger] s[k] is SetPoint) <==> k < pts.len() by {
        if k < pts.len() {
            assert(s[k] == pts[k]);
        } else if k < pts.len() + hs.len() {
            assert(s[k] == hs[k - pts.len()]);
        } else {
            assert(s[k] == tail[k - pts.len() - hs.len()]);
        }
    }
}

/// No warning is given for tracks none of which is reserved.
proof fn lemma_no_conflict_warnings(train: u8, tracks: Seq<u8>, reserved: Set<u8>)
    requires
        conflict_warnings(train, tracks, reserved).len() == 0,
    ensures
        forall|k: int| 0 <= k < tracks.len() ==> !reserved.contains(#[trigger] tracks[k]),
    decreases tracks.len(),
{
    if tracks.len() > 0 {
        lemma_no_conflict_warnings(train, tracks.drop_last(), reserved);
        assert forall|k: int| 0 <= k < tracks.len() implies !reserved.contains(#[trigger] tracks[k]) by {
            if k < tracks.len() - 1 {
                assert(tracks.drop_last()[k] == tracks[k]);
            }
        }
    }
}

/// What the target planner carries after `n` targets: the reserved tracks are exactly the
/// tracks of the plans made, and while no warning has been given the plans' tracks are
/// pairwise disjoint.
#[verifier::spinoff_prover]
#[verifier::rlimit(40)]
proof fn lemma_plan_fold_reserved(
    graph: GraphView,
    entries: Seq<(Seq<char>, Seq<u8>)>,
    current: Seq<TrainPosition>,
    targets: Seq<RouteTrainRequest>,
    n: int,
)
    requires
        0 <= n <= targets.len(),
    ensures
        plan_fold(graph, entries, current, targets, n) matches Ok(st) ==> {
            &&& st.plans.len() == n
            &&& forall|t: u8| #[trigger] st.reserved.contains(t) <==> exists|k: int|
                0 <= k < st.plans.len() && st.plans[k].track_ids.contains(t)
            &&& st.warnings.len() == 0 ==> forall|i: int, j: int, t: u8|
                0 <= i < j < st.plans.len() && (#[trigger] st.plans[i].track_ids.contains(t)) ==> !(#[trigger] st.plans[j].track_ids.contains(t))
        },
    decreases n,
{
    if n > 0 {
        lemma_plan_fold_reserved(graph, entries, current, targets, n - 1);
        if let Ok(st0) = plan_fold(graph, entries, current, targets, n - 1) {
            if let Ok(st) = plan_one(graph, entries, current, st0, targets[n - 1]) {
                let p = st.plans.last();
                assert(st.plans == st0.plans.push(p));
                assert(st.reserved == st0.reserved + p.track_ids.to_set());
                assert(st.warnings == st0.warnings + conflict_warnings(targets[n - 1].train, p.track_ids, st0.reserved));
                assert forall|t: u8| #[trigger] st.reserved.contains(t) <==> exists|k: int|
                    0 <= k < st.plans.len() && st.plans[k].track_ids.contains(t) by {
                    if st0.reserved.contains(t) {
                        let k = choose|k: int| 0 <= k < st0.plans.len() && st0.plans[k].track_ids.contains(t);
                        assert(st.plans[k] == st0.plans[k]);
                    }
                    if p.track_ids.contains(t) {
                        assert(st.plans[n - 1] == p);
                    }
                    if exists|k: int| 0 <= k < st.plans.len() && st.plans[k].track_ids.contains(t) {
                        let k = choose|k: int| 0 <= k < st.plans.len() && st.plans[k].track_ids.contains(t);
                        if k < n - 1 {
                            assert(st0.plans[k] == st.plans[k]);
                        }
                    }
                }
                if st.warnings.len() == 0 {
                    let w = conflict_warnings(targets[n - 1].train, p.track_ids, st0.reserved);
                    assert(w.len() == 0);
                    lemma_no_conflict_warnings(targets[n - 1].train, p.track_ids, st0.reserved);
                    assert forall|i: int, j: int, t: u8|
                        0 <= i < j < st.plans.len() && (#[trigger] st.plans[i].track_ids.contains(t)) implies !(
                        #[trigger] st.plans[j].track_ids.contains(t)) by {
                        if j < n - 1 {
                            assert(st.plans[i] == st0.plans[i]);
                            assert(st.plans[j] == st0.plans[j]);
                        } else {
                            assert(st.plans[i] == st0.plans[i]);
                            assert(st0.reserved.contains(t));
                            if p.track_ids.contains(t) {
                                let q = choose|q: int| 0 <= q < p.track_ids.len() && p.track_ids[q] == t;
                                assert(!st0.reserved.contains(p.track_ids[q]));
                            }
                        }
                    }
                }
            }
        }
    }
}

/// A target plan that gives no warning never routes two trains over the same track: the
/// track lists of its per-train plans are pairwise disjoint.
pub proof fn lemma_target_plan_disjoint_without_warnings(
    graph: GraphView,
    stations: Seq<Station>,
    current: Seq<TrainPosition>,
    targets: Seq<RouteTrainRequest>,
)
    requires
        target_plan_spec(graph, stations, current, targets) matches Ok(r) && r.1.len() == 0,
    ensures
        target_plan_spec(graph, stations, current, targets) matches Ok(r) && forall|i: int, j: int, t: u8|
            0 <= i < j < r.0.len() && (#[trigger] r.0[i].track_ids.contains(t)) ==> !(#[trigger] r.0[j].track_ids.contains(t)),
{
    lemma_plan_fold_reserved(graph, station_entries(stations), current, targets, targets.len() as int);
}

} // verus!
