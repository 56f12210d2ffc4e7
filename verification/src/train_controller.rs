//! Train controller: continuous routing with collision avoidance and station stops.
//!
//! The [`TrainController`] keeps the state of several trains on the layout: it picks
//! destinations (preferring stations, unvisited sensors and little-used tracks), plans
//! routes on the sensor graph while avoiding track segments reserved by other trains,
//! records arrivals and station dwells, and reports snapshots of its state.
//!
//! Collision avoidance is segment-based: each train reserves the track segments of its
//! planned route, and no other train is routed through a reserved segment.
//!
//! Time is given by the caller as milliseconds on a monotonic clock.

use vstd::prelude::*;

use crate::graph::{contains_u8, distinct, layout_graph, strictly_ascending, EdgeView, GraphView, TrackGraph};
use crate::model::{Station, TrackLayout};
use crate::pi_client::PiError;
use crate::route_planner::{
    avoids, plan_error_text, plan_routes_with_graph, route_tracks, train_route_result, PlannedRoute,
    PlannedRouteView, DEFAULT_ROUTE_SPEED,
};
use crate::state::{TrainDirection, TrainPosition};
use crate::validate::{layout_error_text, validate_spec};

verus! {

/// How long a train dwells at a station sensor (seconds).
pub const STATION_DWELL_SECS: u64 = 15;

/// How often the controller polls sensors (milliseconds).
pub const POLL_INTERVAL_MS: u64 = 500;

/// Speed for route execution (percentage).
pub const ROUTE_SPEED: u8 = DEFAULT_ROUTE_SPEED;

/// The phase a single train is in.
#[derive(Debug, Clone, PartialEq, Eq)]
pub enum TrainPhase {
    /// Waiting for a route to be planned.
    Idle,
    /// Moving along a planned route toward `destination`.
    EnRoute { destination: u8, route: PlannedRoute },
    /// Dwelling at a station sensor until the clock reaches `until_ms`.
    Dwelling { sensor: u8, station_name: String, until_ms: u64 },
}

/// Value of a [`TrainPhase`].
pub enum PhaseView {
    Idle,
    EnRoute { destination: u8, route: PlannedRouteView },
    Dwelling { sensor: u8, station_name: Seq<char>, until_ms: u64 },
}

impl View for TrainPhase {
    type V = PhaseView;

    open spec fn view(&self) -> PhaseView {
        match self {
            TrainPhase::Idle => PhaseView::Idle,
            TrainPhase::EnRoute { destination, route } => PhaseView::EnRoute {
                destination: *destination,
                route: route@,
            },
            TrainPhase::Dwelling { sensor, station_name, until_ms } => PhaseView::Dwelling {
                sensor: *sensor,
                station_name: station_name@,
                until_ms: *until_ms,
            },
        }
    }
}

/// Runtime state for one train.
#[derive(Debug, Clone)]
pub struct TrainState {
    /// Train index (0-based).
    pub index: usize,
    /// Current known sensor position.
    pub current_sensor: u8,
    /// Track segments reserved by this train's current route (ascending).
    pub reserved_segments: Vec<u8>,
    /// Current phase.
    pub phase: TrainPhase,
    /// History of visited stations (to avoid repeating the same one).
    pub visited_stations: Vec<u8>,
}

/// Value of a [`TrainState`].
pub struct TrainStateView {
    pub index: usize,
    pub current_sensor: u8,
    pub reserved: Seq<u8>,
    pub phase: PhaseView,
    pub visited: Seq<u8>,
}

impl View for TrainState {
    type V = TrainStateView;

    open spec fn view(&self) -> TrainStateView {
        TrainStateView {
            index: self.index,
            current_sensor: self.current_sensor,
            reserved: self.reserved_segments@,
            phase: self.phase@,
            visited: self.visited_stations@,
        }
    }
}

/// Values of a list of train states.
pub open spec fn trains_view(s: Seq<TrainState>) -> Seq<TrainStateView> {
    s.map_values(|t: TrainState| t@)
}

/// Manages multiple trains with collision avoidance and station stops.
#[derive(Debug)]
pub struct TrainController {
    pub trains: Vec<TrainState>,
    pub graph: TrackGraph,
    pub layout: TrackLayout,
    /// `(sensor, station name)` for every sensor of every station, in layout order; a
    /// sensor listed by several stations belongs to the last of them.
    pub station_sensors: Vec<(u8, String)>,
    /// All station sensor ids (ascending).
    pub all_station_sensors: Vec<u8>,
    /// All known sensor ids in the layout (ascending).
    pub all_sensors: Vec<u8>,
    /// `(track id, count)`: how many routes have been planned through each track.
    pub track_usage: Vec<(u8, u32)>,
}

/// Errors from the controller.
#[derive(Debug)]
pub enum ControllerError {
    Layout(String),
    Pi(PiError),
    Route(String),
}

/// `(sensor, station name)` for every sensor of every station, in layout order.
pub open spec fn station_pairs(stations: Seq<Station>) -> Seq<(u8, Seq<char>)>
    decreases stations.len(),
{
    if stations.len() == 0 {
        Seq::empty()
    } else {
        station_pairs(stations.drop_last()) + stations.last().sensor_ids@.map_values(
            |s: u8| (s, stations.last().name@),
        )
    }
}

/// Values of `(sensor, name)` pairs.
pub open spec fn pairs_view(p: Seq<(u8, String)>) -> Seq<(u8, Seq<char>)> {
    p.map_values(|x: (u8, String)| (x.0, x.1@))
}

/// The station name of sensor `s`: that of its last pair.
pub open spec fn station_name_of(pairs: Seq<(u8, Seq<char>)>, s: u8) -> Option<Seq<char>>
    decreases pairs.len(),
{
    if pairs.len() == 0 {
        None
    } else if pairs.last().0 == s {
        Some(pairs.last().1)
    } else {
        station_name_of(pairs.drop_last(), s)
    }
}

/// The index of the first usage entry of track `t`.
pub open spec fn usage_index(usage: Seq<(u8, u32)>, t: u8) -> Option<int>
    decreases usage.len(),
{
    if usage.len() == 0 {
        None
    } else {
        match usage_index(usage.drop_last(), t) {
            Some(k) => Some(k),
            None => if usage.last().0 == t {
                Some(usage.len() - 1)
            } else {
                None
            },
        }
    }
}

/// How many routes have been planned through track `t` (0 when it has no entry).
pub open spec fn usage_of(usage: Seq<(u8, u32)>, t: u8) -> nat {
    match usage_index(usage, t) {
        Some(k) => usage[k].1 as nat,
        None => 0,
    }
}

/// The union of the reserved segments of the trains `j` with `keep(j)`.
pub open spec fn reserved_union(trains: Seq<TrainStateView>, keep: spec_fn(TrainStateView) -> bool) -> Set<u8> {
    Set::new(|t: u8| exists|j: int| 0 <= j < trains.len() && keep(trains[j]) && trains[j].reserved.contains(t))
}

/// The segments reserved by every train except those with index `except`.
pub open spec fn reserved_by_others(trains: Seq<TrainStateView>, except: usize) -> Set<u8> {
    reserved_union(trains, |t: TrainStateView| t.index != except)
}

/// The segments reserved by any train.
pub open spec fn reserved_by_all(trains: Seq<TrainStateView>) -> Set<u8> {
    reserved_union(trains, |t: TrainStateView| true)
}

/// A list holds exactly the ids of a set, ascending.
pub open spec fn ascending_list_of(v: Seq<u8>, s: Set<u8>) -> bool {
    strictly_ascending(v) && forall|x: u8| #[trigger] v.contains(x) <==> s.contains(x)
}

/// The ascending list of the ids whose flag is set.
fn ascending_flags(flags: &Vec<bool>) -> (v: Vec<u8>)
    requires
        flags@.len() == 256,
    ensures
        strictly_ascending(v@),
        forall|x: u8| #[trigger] v@.contains(x) <==> flags@[x as int],
{
    let mut v: Vec<u8> = Vec::new();
    let mut k: u16 = 0;
    while k < 256
        invariant
            0 <= k <= 256,
            flags@.len() == 256,
            strictly_ascending(v@),
            forall|i: int| 0 <= i < v@.len() ==> v@[i] < k,
            forall|x: u8| #[trigger] v@.contains(x) <==> (x < k && flags@[x as int]),
        decreases 256 - k,
    {
        if flags[k as usize] {
            let ghost before = v@;
            v.push(k as u8);
            proof {
                assert forall|x: u8| #[trigger] v@.contains(x) <==> (x < k + 1 && flags@[x as int]) by {
                    if x == k as u8 {
                        assert(v@[before.len() as int] == x);
                    } else if before.contains(x) {
                        let i = choose|i: int| 0 <= i < before.len() && before[i] == x;
                        assert(v@[i] == x);
                    } else if v@.contains(x) {
                        let i = choose|i: int| 0 <= i < v@.len() && v@[i] == x;
                        assert(i < before.len());
                        assert(before[i] == x);
                    }
                }
            }
        }
        k = k + 1;
    }
    v
}

/// 256 cleared flags.
fn cleared_flags() -> (v: Vec<bool>)
    ensures
        v@.len() == 256,
        forall|i: int| 0 <= i < 256 ==> !v@[i],
{
    let mut v: Vec<bool> = Vec::new();
    let mut i: usize = 0;
    while i < 256
        invariant
            0 <= i <= 256,
            v@.len() == i,
            forall|k: int| 0 <= k < i ==> !v@[k],
        decreases 256 - i,
    {
        v.push(false);
        i = i + 1;
    }
    v
}

impl TrainController {
    /// The union of the reserved segments of the trains, except those whose index is
    /// `except` when one is given.
    fn reserved_union_except(&self, except: Option<usize>) -> (v: Vec<u8>)
        ensures
            strictly_ascending(v@),
            forall|x: u8| #[trigger] v@.contains(x) <==> (exists|j: int|
                0 <= j < self.trains@.len() && (except matches Some(e) ==> self.trains@[j].index != e)
                    && self.trains@[j].reserved_segments@.contains(x)),
    {
        let mut flags = cleared_flags();
        let mut j: usize = 0;
        while j < self.trains.len()
            invariant
                0 <= j <= self.trains@.len(),
                flags@.len() == 256,
                forall|x: u8| #[trigger] flags@[x as int] <==> (exists|k: int|
                    0 <= k < j && (except matches Some(e) ==> self.trains@[k].index != e)
                        && self.trains@[k].reserved_segments@.contains(x)),
            decreases self.trains.len() - j,
        {
            let keep = match except {
                Some(e) => self.trains[j].index != e,
                None => true,
            };
            if keep {
                let segs = &self.trains[j].reserved_segments;
                let mut k: usize = 0;
                while k < segs.len()
                    invariant
                        0 <= k <= segs@.len(),
                        j < self.trains@.len(),
                        *segs == self.trains@[j as int].reserved_segments,
                        keep == (except matches Some(e) ==> self.trains@[j as int].index != e),
                        keep,
                        flags@.len() == 256,
                        forall|x: u8| #[trigger] flags@[x as int] <==> ((exists|m: int|
                            0 <= m < j && (except matches Some(e) ==> self.trains@[m].index != e)
                                && self.trains@[m].reserved_segments@.contains(x)) || exists|q: int|
                            0 <= q < k && segs@[q] == x),
                    decreases segs.len() - k,
                {
                    let x = segs[k];
                    flags.set(x as usize, true);
                    proof {
                        assert forall|y: u8| #[trigger] flags@[y as int] <==> ((exists|m: int|
                            0 <= m < j && (except matches Some(e) ==> self.trains@[m].index != e)
                                && self.trains@[m].reserved_segments@.contains(y)) || exists|q: int|
                            0 <= q < k + 1 && segs@[q] == y) by {
                            if y == x {
                                assert(segs@[k as int] == y);
                            }
                        }
                    }
                    k = k + 1;
                }
                proof {
                    assert forall|y: u8| #[trigger] flags@[y as int] <==> (exists|m: int|
                        0 <= m < j + 1 && (except matches Some(e) ==> self.trains@[m].index != e)
                            && self.trains@[m].reserved_segments@.contains(y)) by {
                        if exists|q: int| 0 <= q < segs@.len() && segs@[q] == y {
                            let q = choose|q: int| 0 <= q < segs@.len() && segs@[q] == y;
                            assert(self.trains@[j as int].reserved_segments@.contains(y));
                        }
                        if self.trains@[j as int].reserved_segments@.contains(y) {
                            let q = choose|q: int| 0 <= q < segs@.len() && segs@[q] == y;
                            assert(segs@[q] == y);
                        }
                    }
                }
            }
            j = j + 1;
        }
        ascending_flags(&flags)
    }

    /// Segments reserved by all trains (union), ascending.
    pub fn all_reserved_segments(&self) -> (v: Vec<u8>)
        ensures
            ascending_list_of(v@, reserved_by_all(trains_view(self.trains@))),
    {
        let v = self.reserved_union_except(None);
        proof {
            let tv = trains_view(self.trains@);
            assert forall|x: u8| #[trigger] v@.contains(x) <==> reserved_by_all(tv).contains(x) by {
                if v@.contains(x) {
                    let j = choose|j: int| 0 <= j < self.trains@.len() && self.trains@[j].reserved_segments@.contains(x);
                    assert(tv[j].reserved.contains(x));
                }
                if reserved_by_all(tv).contains(x) {
                    let j = choose|j: int| 0 <= j < tv.len() && tv[j].reserved.contains(x);
                    assert(self.trains@[j].reserved_segments@.contains(x));
                }
            }
        }
        v
    }

    /// Segments reserved by all trains except those with index `except_index`, ascending.
    pub fn segments_reserved_by_others(&self, except_index: usize) -> (v: Vec<u8>)
        ensures
            ascending_list_of(v@, reserved_by_others(trains_view(self.trains@), except_index)),
    {
        let v = self.reserved_union_except(Some(except_index));
        proof {
            let tv = trains_view(self.trains@);
            assert forall|x: u8| #[trigger] v@.contains(x) <==> reserved_by_others(tv, except_index).contains(x) by {
                if v@.contains(x) {
                    let j = choose|j: int|
                        0 <= j < self.trains@.len() && self.trains@[j].index != except_index
                            && self.trains@[j].reserved_segments@.contains(x);
                    assert(tv[j].reserved.contains(x) && tv[j].index != except_index);
                }
                if reserved_by_others(tv, except_index).contains(x) {
                    let j = choose|j: int| 0 <= j < tv.len() && tv[j].index != except_index && tv[j].reserved.contains(x);
                    assert(self.trains@[j].reserved_segments@.contains(x));
                }
            }
        }
        v
    }
}


/// The station sensor ids of a layout.
pub open spec fn station_sensor_set(stations: Seq<Station>) -> Set<u8> {
    Set::new(|s: u8| exists|k: int| 0 <= k < station_pairs(stations).len() && station_pairs(stations)[k].0 == s)
}

/// A train that has just been registered at `p`, as train number `i`.
pub open spec fn fresh_train(t: TrainStateView, i: int, p: TrainPosition) -> bool {
    &&& t.index == i
    &&& t.current_sensor == p.sensor
    &&& t.reserved == Seq::<u8>::empty()
    &&& t.phase == PhaseView::Idle
    &&& t.visited == Seq::<u8>::empty()
}

/// A copy of a list of ids.
fn copy_u8s(v: &Vec<u8>) -> (r: Vec<u8>)
    ensures
        r@ == v@,
{
    let mut r: Vec<u8> = Vec::new();
    let mut i: usize = 0;
    while i < v.len()
        invariant
            0 <= i <= v@.len(),
            r@ == v@.take(i as int),
        decreases v.len() - i,
    {
        r.push(v[i]);
        i = i + 1;
        assert(r@ =~= v@.take(i as int));
    }
    assert(v@.take(v.len() as int) =~= v@);
    r
}

impl TrainController {
    /// Creates a controller for trains at the given positions on a layout. Fails with the
    /// layout's message when the layout is not valid.
    pub fn new(layout: TrackLayout, positions: &Vec<TrainPosition>) -> (r: Result<TrainController, ControllerError>)
        ensures
            match validate_spec(layout) {
                Err(le) => r matches Err(ControllerError::Layout(m)) && m@ == layout_error_text(le),
                Ok(()) => r matches Ok(c) && {
                    &&& c.layout == layout
                    &&& c.graph@ == layout_graph(layout)
                    &&& c.trains@.len() == positions@.len()
                    &&& forall|i: int| 0 <= i < positions@.len() ==> fresh_train(#[trigger] c.trains@[i]@, i, positions@[i])
                    &&& pairs_view(c.station_sensors@) == station_pairs(layout.stations@)
                    &&& ascending_list_of(c.all_station_sensors@, station_sensor_set(layout.stations@))
                    &&& c.all_sensors@ == c.graph.sensors@
                    &&& c.track_usage@ == layout.tracks@.map_values(|t: crate::model::TrackSegment| (t.id, 0u32))
                },
            },
    {
        if let Err(e) = layout.validate() {
            return Err(ControllerError::Layout(e.to_string()));
        }
        let graph = TrackGraph::from_layout(&layout);
        let mut station_sensors: Vec<(u8, String)> = Vec::new();
        let mut flags = cleared_flags();
        let ghost sts = layout.stations@;
        let mut i: usize = 0;
        while i < layout.stations.len()
            invariant
                0 <= i <= sts.len(),
                sts == layout.stations@,
                flags@.len() == 256,
                pairs_view(station_sensors@) == station_pairs(sts.take(i as int)),
                forall|x: u8| #[trigger] flags@[x as int] <==> station_sensor_set(sts.take(i as int)).contains(x),
            decreases sts.len() - i,
        {
            let st = &layout.stations[i];
            let ghost before = pairs_view(station_sensors@);
            let ghost f = |s: u8| (s, st.name@);
            let mut k: usize = 0;
            while k < st.sensor_ids.len()
                invariant
                    0 <= k <= st.sensor_ids@.len(),
                    i < sts.len(),
                    *st == sts[i as int],
                    flags@.len() == 256,
                    f == (|s: u8| (s, st.name@)),
                    pairs_view(station_sensors@) == before + st.sensor_ids@.take(k as int).map_values(f),
                    forall|x: u8| #[trigger] flags@[x as int] <==> (station_sensor_set(sts.take(i as int)).contains(x)
                        || st.sensor_ids@.take(k as int).contains(x)),
                decreases st.sensor_ids.len() - k,
            {
                let sid = st.sensor_ids[k];
                let ghost prev_pairs = station_sensors@;
                let name = st.name.clone();
                station_sensors.push((sid, name));
                flags.set(sid as usize, true);
                proof {
                    assert(st.sensor_ids@.take(k + 1) =~= st.sensor_ids@.take(k as int).push(sid));
                    assert(pairs_view(station_sensors@) =~= pairs_view(prev_pairs).push((sid, st.name@)));
                    assert(st.sensor_ids@.take(k + 1).map_values(f) =~= st.sensor_ids@.take(k as int).map_values(f).push(f(sid)));
                    assert(pairs_view(station_sensors@) =~= before + st.sensor_ids@.take(k + 1).map_values(f));
                    let tk = st.sensor_ids@.take(k as int);
                    let tk1 = st.sensor_ids@.take(k + 1);
                    assert forall|x: u8| #[trigger] flags@[x as int] <==> (station_sensor_set(sts.take(i as int)).contains(x)
                        || tk1.contains(x)) by {
                        if tk.contains(x) {
                            let q = choose|q: int| 0 <= q < tk.len() && tk[q] == x;
                            assert(tk1[q] == x);
                        }
                        if x == sid {
                            assert(tk1[k as int] == x);
                        }
                        if tk1.contains(x) && x != sid {
                            let q = choose|q: int| 0 <= q < tk1.len() && tk1[q] == x;
                            assert(tk[q] == x);
                        }
                    }
                }
                k = k + 1;
            }
            proof {
                assert(st.sensor_ids@.take(st.sensor_ids@.len() as int) =~= st.sensor_ids@);
                let prev = sts.take(i as int);
                let next = sts.take(i + 1);
                assert(next.drop_last() =~= prev);
                assert(next.last() == *st);
                assert(station_pairs(next) == station_pairs(prev) + st.sensor_ids@.map_values(f));
                assert forall|x: u8| #[trigger] flags@[x as int] <==> station_sensor_set(next).contains(x) by {
                    let pp = station_pairs(prev);
                    let np = station_pairs(next);
                    let add = st.sensor_ids@.map_values(f);
                    if station_sensor_set(prev).contains(x) {
                        let q = choose|q: int| 0 <= q < pp.len() && pp[q].0 == x;
                        assert(np[q] == pp[q]);
                    }
                    if st.sensor_ids@.contains(x) {
                        let q = choose|q: int| 0 <= q < st.sensor_ids@.len() && st.sensor_ids@[q] == x;
                        assert(np[pp.len() + q] == add[q]);
                    }
                    if station_sensor_set(next).contains(x) {
                        let q = choose|q: int| 0 <= q < np.len() && np[q].0 == x;
                        if q < pp.len() {
                            assert(pp[q] == np[q]);
                        } else {
                            assert(add[q - pp.len()] == np[q]);
                            assert(st.sensor_ids@[q - pp.len()] == x);
                        }
                    }
                }
            }
            i = i + 1;
        }
        assert(sts.take(sts.len() as int) =~= sts);
        let all_station_sensors = ascending_flags(&flags);
        let mut trains: Vec<TrainState> = Vec::new();
        let mut p: usize = 0;
        while p < positions.len()
            invariant
                0 <= p <= positions@.len(),
                trains@.len() == p,
                forall|q: int| 0 <= q < p ==> fresh_train(#[trigger] trains@[q]@, q, positions@[q]),
            decreases positions.len() - p,
        {
            let t = TrainState {
                index: p,
                current_sensor: positions[p].sensor,
                reserved_segments: Vec::new(),
                phase: TrainPhase::Idle,
                visited_stations: Vec::new(),
            };
            assert(fresh_train(t@, p as int, positions@[p as int]));
            trains.push(t);
            p = p + 1;
        }
        let all_sensors = copy_u8s(&graph.sensors);
        let mut track_usage: Vec<(u8, u32)> = Vec::new();
        let mut t: usize = 0;
        while t < layout.tracks.len()
            invariant
                0 <= t <= layout.tracks@.len(),
                track_usage@ == layout.tracks@.take(t as int).map_values(|t: crate::model::TrackSegment| (t.id, 0u32)),
            decreases layout.tracks.len() - t,
        {
            track_usage.push((layout.tracks[t].id, 0));
            t = t + 1;
            assert(track_usage@ =~= layout.tracks@.take(t as int).map_values(|t: crate::model::TrackSegment| (t.id, 0u32)));
        }
        assert(layout.tracks@.take(layout.tracks.len() as int) =~= layout.tracks@);
        let c = TrainController {
            trains,
            graph,
            layout,
            station_sensors,
            all_station_sensors,
            all_sensors,
            track_usage,
        };
        Ok(c)
    }
}


/// Another train (one whose index is not `i`) is at sensor `s`.
pub open spec fn other_train_at(trains: Seq<TrainStateView>, i: usize, s: u8) -> bool {
    exists|j: int| 0 <= j < trains.len() && trains[j].index != i && trains[j].current_sensor == s
}

/// The position of the last visit of `s`.
pub open spec fn last_visit(visited: Seq<u8>, s: u8) -> Option<int>
    decreases visited.len(),
{
    if visited.len() == 0 {
        None
    } else if visited.last() == s {
        Some(visited.len() - 1)
    } else {
        last_visit(visited.drop_last(), s)
    }
}

/// Penalty for going back to `s`: one more than the position of its last visit in the
/// history, so the longer ago it was visited the lower the penalty (least recently visited
/// first); -500 when it was never visited.
pub open spec fn visit_penalty(visited: Seq<u8>, s: u8) -> int {
    match last_visit(visited, s) {
        Some(p) => p + 1,
        None => -500,
    }
}

/// Total usage of the given tracks.
pub open spec fn usage_sum(usage: Seq<(u8, u32)>, tracks: Seq<u8>) -> int
    decreases tracks.len(),
{
    if tracks.len() == 0 {
        0
    } else {
        usage_sum(usage, tracks.drop_last()) + usage_of(usage, tracks.last())
    }
}

/// Sensor `s` may be the next destination of train `i`: it is not where the train is, no
/// other train is there, and it has a route that avoids the segments other trains reserve.
pub open spec fn pick_ok(g: GraphView, trains: Seq<TrainStateView>, i: usize, s: u8) -> bool {
    let cur = trains[i as int].current_sensor;
    &&& s != cur
    &&& !other_train_at(trains, i, s)
    &&& match g.route_hops(cur, s) {
        Some(h) => avoids(h, reserved_by_others(trains, i)),
        None => false,
    }
}

/// Score of destination `s` for train `i` (lower is better): -1000 for a station sensor,
/// plus the visit penalty, plus the usage of the route's tracks.
pub open spec fn pick_score(
    g: GraphView,
    trains: Seq<TrainStateView>,
    i: usize,
    stations: Seq<u8>,
    usage: Seq<(u8, u32)>,
    s: u8,
) -> int {
    let cur = trains[i as int].current_sensor;
    match g.route_hops(cur, s) {
        Some(h) => (if stations.contains(s) {
            -1000int
        } else {
            0int
        }) + visit_penalty(trains[i as int].visited, s) + usage_sum(usage, route_tracks(h)),
        None => 0,
    }
}

/// Entry `k` of `sensors` is the best destination among the first `n`: it may be chosen,
/// none scores lower, and every one before it scores higher.
pub open spec fn is_best_pick_upto(
    g: GraphView,
    trains: Seq<TrainStateView>,
    i: usize,
    sensors: Seq<u8>,
    stations: Seq<u8>,
    usage: Seq<(u8, u32)>,
    n: int,
    k: int,
) -> bool {
    &&& 0 <= k < n <= sensors.len()
    &&& pick_ok(g, trains, i, sensors[k])
    &&& forall|j: int|
        0 <= j < n && #[trigger] pick_ok(g, trains, i, sensors[j]) ==> pick_score(g, trains, i, stations, usage, sensors[k])
            <= pick_score(g, trains, i, stations, usage, sensors[j])
    &&& forall|j: int|
        0 <= j < k && #[trigger] pick_ok(g, trains, i, sensors[j]) ==> pick_score(g, trains, i, stations, usage, sensors[k])
            < pick_score(g, trains, i, stations, usage, sensors[j])
}

/// The destination picked for train `i` among `sensors`: the first with the lowest score
/// among those that may be chosen, if any.
pub open spec fn pick_spec(
    g: GraphView,
    trains: Seq<TrainStateView>,
    i: usize,
    sensors: Seq<u8>,
    stations: Seq<u8>,
    usage: Seq<(u8, u32)>,
) -> Option<u8> {
    if exists|k: int| is_best_pick_upto(g, trains, i, sensors, stations, usage, sensors.len() as int, k) {
        Some(sensors[choose|k: int| is_best_pick_upto(g, trains, i, sensors, stations, usage, sensors.len() as int, k)])
    } else {
        None
    }
}

/// Route usage prefers little-used tracks: among the sensors train `i` may go to that are
/// alike in everything else the choice weighs (both station sensors or both not, and the
/// same standing in the train's visit history), the picked destination's route carries no
/// more usage than any other's. So a destination whose route is more used than another
/// such one is never picked.
pub proof fn lemma_pick_prefers_less_used(
    g: GraphView,
    trains: Seq<TrainStateView>,
    i: usize,
    sensors: Seq<u8>,
    stations: Seq<u8>,
    usage: Seq<(u8, u32)>,
    j: int,
)
    requires
        i < trains.len(),
        pick_spec(g, trains, i, sensors, stations, usage) is Some,
        0 <= j < sensors.len(),
        pick_ok(g, trains, i, sensors[j]),
        stations.contains(sensors[j]) == stations.contains(pick_spec(g, trains, i, sensors, stations, usage)->Some_0),
        last_visit(trains[i as int].visited, sensors[j]) == last_visit(
            trains[i as int].visited,
            pick_spec(g, trains, i, sensors, stations, usage)->Some_0,
        ),
    ensures
        ({
            let d = pick_spec(g, trains, i, sensors, stations, usage)->Some_0;
            let cur = trains[i as int].current_sensor;
            &&& g.route_hops(cur, d) is Some
            &&& usage_sum(usage, route_tracks(g.route_hops(cur, d)->Some_0)) <= usage_sum(
                usage,
                route_tracks(g.route_hops(cur, sensors[j])->Some_0),
            )
        }),
{
    let k = choose|k: int| is_best_pick_upto(g, trains, i, sensors, stations, usage, sensors.len() as int, k);
    assert(is_best_pick_upto(g, trains, i, sensors, stations, usage, sensors.len() as int, k));
    assert(pick_ok(g, trains, i, sensors[k]));
    assert(pick_score(g, trains, i, stations, usage, sensors[k]) <= pick_score(g, trains, i, stations, usage, sensors[j]));
}

/// At most one entry is the best destination.
pub proof fn lemma_best_pick_unique(
    g: GraphView,
    trains: Seq<TrainStateView>,
    i: usize,
    sensors: Seq<u8>,
    stations: Seq<u8>,
    usage: Seq<(u8, u32)>,
    a: int,
    b: int,
)
    requires
        is_best_pick_upto(g, trains, i, sensors, stations, usage, sensors.len() as int, a),
        is_best_pick_upto(g, trains, i, sensors, stations, usage, sensors.len() as int, b),
    ensures
        a == b,
{
    if a < b {
        assert(pick_ok(g, trains, i, sensors[a]));
    } else if b < a {
        assert(pick_ok(g, trains, i, sensors[b]));
    }
}

/// The visit penalty of `s`.
fn visit_penalty_of(visited: &Vec<u8>, s: u8) -> (p: i128)
    ensures
        p == visit_penalty(visited@, s),
        -500 <= p <= visited@.len(),
{
    let mut i: usize = visited.len();
    assert(visited@.take(i as int) =~= visited@);
    while i > 0
        invariant
            0 <= i <= visited@.len(),
            last_visit(visited@, s) == last_visit(visited@.take(i as int), s),
        decreases i,
    {
        assert(visited@.take(i as int).last() == visited@[i - 1]);
        if visited[i - 1] == s {
            return i as i128;
        }
        assert(visited@.take(i as int).drop_last() =~= visited@.take(i - 1));
        i = i - 1;
    }
    -500
}

/// The usage of track `t`.
fn usage_lookup(usage: &Vec<(u8, u32)>, t: u8) -> (c: u32)
    ensures
        c as nat == usage_of(usage@, t),
{
    let mut i: usize = 0;
    while i < usage.len()
        invariant
            0 <= i <= usage@.len(),
            usage_index(usage@.take(i as int), t) is None,
        decreases usage.len() - i,
    {
        assert(usage@.take(i + 1).drop_last() =~= usage@.take(i as int));
        if usage[i].0 == t {
            proof {
                lemma_usage_index_prefix(usage@, t, i + 1);
            }
            return usage[i].1;
        }
        i = i + 1;
    }
    assert(usage@.take(usage.len() as int) =~= usage@);
    0
}

/// The first entry found in a prefix is the first entry of the whole list.
proof fn lemma_usage_index_prefix(usage: Seq<(u8, u32)>, t: u8, n: int)
    requires
        0 <= n <= usage.len(),
        usage_index(usage.take(n), t) is Some,
    ensures
        usage_index(usage, t) == usage_index(usage.take(n), t),
    decreases usage.len() - n,
{
    if n < usage.len() {
        assert(usage.take(n + 1).drop_last() =~= usage.take(n));
        lemma_usage_index_prefix(usage, t, n + 1);
    } else {
        assert(usage.take(n) =~= usage);
    }
}

/// Total usage of the given tracks.
fn usage_total(usage: &Vec<(u8, u32)>, tracks: &Vec<u8>) -> (sum: u128)
    ensures
        sum == usage_sum(usage@, tracks@),
        sum <= tracks@.len() * 0xFFFF_FFFF,
{
    let mut sum: u128 = 0;
    let mut i: usize = 0;
    while i < tracks.len()
        invariant
            0 <= i <= tracks@.len(),
            sum == usage_sum(usage@, tracks@.take(i as int)),
            sum <= i * 0xFFFF_FFFF,
        decreases tracks.len() - i,
    {
        assert(tracks@.take(i + 1).drop_last() =~= tracks@.take(i as int));
        let c = usage_lookup(usage, tracks[i]);
        sum = sum + c as u128;
        i = i + 1;
    }
    assert(tracks@.take(tracks.len() as int) =~= tracks@);
    sum
}

impl TrainController {
    /// Another train (one whose index is not `i`) is at sensor `s`.
    fn other_train_at_sensor(&self, i: usize, s: u8) -> (b: bool)
        ensures
            b == other_train_at(trains_view(self.trains@), i, s),
    {
        let ghost tv = trains_view(self.trains@);
        let mut j: usize = 0;
        while j < self.trains.len()
            invariant
                0 <= j <= self.trains@.len(),
                tv == trains_view(self.trains@),
                forall|k: int| 0 <= k < j ==> !(tv[k].index != i && tv[k].current_sensor == s),
            decreases self.trains.len() - j,
        {
            if self.trains[j].index != i && self.trains[j].current_sensor == s {
                assert(tv[j as int].index != i && tv[j as int].current_sensor == s);
                return true;
            }
            j = j + 1;
        }
        false
    }

    /// Picks a destination for a train: a sensor where it is not and no other train is,
    /// whose route avoids the segments other trains reserve, with the lowest score
    /// (stations first, then sensors not visited recently, then routes over little-used
    /// tracks); the first in ascending sensor order among equal scores.
    #[verifier::rlimit(60)]
    pub fn pick_destination(&self, train_index: usize) -> (r: Option<u8>)
        requires
            train_index < self.trains@.len(),
        ensures
            r == pick_spec(
                self.graph@,
                trains_view(self.trains@),
                train_index,
                self.all_sensors@,
                self.all_station_sensors@,
                self.track_usage@,
            ),
    {
        let ghost g = self.graph@;
        let ghost tv = trains_view(self.trains@);
        let ghost sensors = self.all_sensors@;
        let ghost stations = self.all_station_sensors@;
        let ghost usage = self.track_usage@;
        let cur = self.trains[train_index].current_sensor;
        assert(cur == tv[train_index as int].current_sensor);
        let reserved = self.segments_reserved_by_others(train_index);
        assert(reserved@.to_set() =~= reserved_by_others(tv, train_index));
        let mut best: Option<(usize, i128)> = None;
        let mut k: usize = 0;
        while k < self.all_sensors.len()
            invariant
                0 <= k <= sensors.len(),
                train_index < tv.len(),
                g == self.graph@,
                tv == trains_view(self.trains@),
                sensors == self.all_sensors@,
                stations == self.all_station_sensors@,
                usage == self.track_usage@,
                cur == tv[train_index as int].current_sensor,
                reserved@.to_set() == reserved_by_others(tv, train_index),
                match best {
                    Some(b) => is_best_pick_upto(g, tv, train_index, sensors, stations, usage, k as int, b.0 as int)
                        && pick_score(g, tv, train_index, stations, usage, sensors[b.0 as int]) == b.1 as int,
                    None => forall|j: int| 0 <= j < k ==> !#[trigger] pick_ok(g, tv, train_index, sensors[j]),
                },
            decreases sensors.len() - k,
        {
            let s = self.all_sensors[k];
            let mut ok = false;
            let mut score: i128 = 0;
            if s != cur && !self.other_train_at_sensor(train_index, s) {
                match self.graph.find_route(cur, s) {
                    Some(route) => {
                        if crate::route_planner::route_avoids(&route, &reserved) {
                            ok = true;
                            let tracks = route.track_ids();
                            let bonus: i128 = if contains_u8(&self.all_station_sensors, s) { -1000 } else { 0 };
                            let penalty = visit_penalty_of(&self.trains[train_index].visited_stations, s);
                            let total = usage_total(&self.track_usage, &tracks);
                            let n_tracks = tracks.len() as u64;
                            let n_visited = self.trains[train_index].visited_stations.len() as u64;
                            proof {
                                assert(total <= n_tracks * 0xFFFF_FFFF);
                                assert(n_tracks * 0xFFFF_FFFF <= 0xFFFF_FFFF_FFFF_FFFF * 0xFFFF_FFFF) by (nonlinear_arith)
                                    requires n_tracks <= 0xFFFF_FFFF_FFFF_FFFFu64;
                                assert(penalty <= n_visited);
                                assert(self.trains@[train_index as int].visited_stations@ == tv[train_index as int].visited);
                                assert(-500 <= penalty <= tv[train_index as int].visited.len());
                            }
                            score = bonus + penalty + total as i128;
                        }
                    },
                    None => {},
                }
            }
            assert(ok == pick_ok(g, tv, train_index, sensors[k as int]));
            assert(ok ==> score == pick_score(g, tv, train_index, stations, usage, sensors[k as int]));
            if ok {
                let better = match best {
                    None => true,
                    Some(b) => score < b.1,
                };
                if better {
                    best = Some((k, score));
                }
            }
            k = k + 1;
        }
        match best {
            Some(b) => {
                proof {
                    let c = choose|c: int| is_best_pick_upto(g, tv, train_index, sensors, stations, usage, sensors.len() as int, c);
                    lemma_best_pick_unique(g, tv, train_index, sensors, stations, usage, b.0 as int, c);
                }
                Some(self.all_sensors[b.0])
            },
            None => {
                assert(!exists|c: int| is_best_pick_upto(g, tv, train_index, sensors, stations, usage, sensors.len() as int, c)) by {
                    if exists|c: int| is_best_pick_upto(g, tv, train_index, sensors, stations, usage, sensors.len() as int, c) {
                        let c = choose|c: int| is_best_pick_upto(g, tv, train_index, sensors, stations, usage, sensors.len() as int, c);
                        assert(pick_ok(g, tv, train_index, sensors[c]));
                    }
                }
                None
            },
        }
    }
}


/// The usage list after one more route through track `t`: its first entry counts one more,
/// or a new entry with count 1 is added.
pub open spec fn bump_usage(usage: Seq<(u8, u32)>, t: u8) -> Seq<(u8, u32)> {
    match usage_index(usage, t) {
        Some(k) => usage.update(k, (t, (usage[k].1 + 1) as u32)),
        None => usage.push((t, 1u32)),
    }
}

/// The usage list after one more route through each of `tracks`, in order.
pub open spec fn bump_all(usage: Seq<(u8, u32)>, tracks: Seq<u8>) -> Seq<(u8, u32)>
    decreases tracks.len(),
{
    if tracks.len() == 0 {
        usage
    } else {
        bump_usage(bump_all(usage, tracks.drop_last()), tracks.last())
    }
}

/// Every usage count can still grow by one.
pub open spec fn usage_below_max(usage: Seq<(u8, u32)>) -> bool {
    forall|k: int| 0 <= k < usage.len() ==> (#[trigger] usage[k]).1 < u32::MAX
}

/// A deduplicated list has no repeated element.
pub proof fn lemma_dedup_distinct(s: Seq<u8>)
    ensures
        distinct(crate::graph::dedup(s)),
    decreases s.len(),
{
    if s.len() > 0 {
        lemma_dedup_distinct(s.drop_last());
        let d = crate::graph::dedup(s.drop_last());
        if !d.contains(s.last()) {
            let e = d.push(s.last());
            assert forall|i: int, j: int| 0 <= i < j < e.len() implies e[i] != e[j] by {
                if j == d.len() {
                    assert(d[i] == e[i]);
                }
            }
        }
    }
}

/// The first entry of a track, when there is one, is an entry of that track.
proof fn lemma_usage_index_found(usage: Seq<(u8, u32)>, t: u8)
    ensures
        usage_index(usage, t) matches Some(k) ==> 0 <= k < usage.len() && usage[k].0 == t,
        usage_index(usage, t) is None ==> forall|k: int| 0 <= k < usage.len() ==> usage[k].0 != t,
    decreases usage.len(),
{
    if usage.len() > 0 {
        lemma_usage_index_found(usage.drop_last(), t);
        assert forall|k: int| 0 <= k < usage.len() - 1 implies usage.drop_last()[k] == usage[k] by {}
    }
}

/// Adds one route through track `t` to the usage list.
fn bump_track(usage: &mut Vec<(u8, u32)>, t: u8)
    requires
        usage_index(old(usage)@, t) matches Some(k) ==> old(usage)@[k].1 < u32::MAX,
    ensures
        final(usage)@ == bump_usage(old(usage)@, t),
{
    let mut i: usize = 0;
    while i < usage.len()
        invariant
            0 <= i <= usage@.len(),
            usage@ == old(usage)@,
            usage_index(old(usage)@, t) matches Some(k) ==> old(usage)@[k].1 < u32::MAX,
            usage_index(usage@.take(i as int), t) is None,
        decreases usage.len() - i,
    {
        assert(usage@.take(i + 1).drop_last() =~= usage@.take(i as int));
        if usage[i].0 == t {
            proof {
                assert(usage_index(usage@.take(i + 1), t) == Some(i as int));
                lemma_usage_index_prefix(usage@, t, i + 1);
                assert(usage_index(old(usage)@, t) == Some(i as int));
                assert(old(usage)@[i as int].1 < u32::MAX);
            }
            let c = usage[i].1;
            usage.set(i, (t, c + 1));
            return;
        }
        i = i + 1;
    }
    assert(usage@.take(usage.len() as int) =~= usage@);
    usage.push((t, 1));
}

/// The single-train request the controller plans for train `i` at `sensor`.
pub open spec fn controller_request(i: usize, sensor: u8, destination: u8) -> TrainPosition {
    TrainPosition { train: (i + 1) as u8, sensor, direction: TrainDirection::Fwd, destination: Some(destination) }
}

impl TrainController {
    /// Plans a route for a train to a destination: the train reserves the route's tracks,
    /// each of them counts one more use, and the train goes en route.
    pub fn plan_route(&mut self, train_index: usize, destination: u8) -> (r: Result<PlannedRoute, ControllerError>)
        requires
            train_index < old(self).trains@.len(),
            usage_below_max(old(self).track_usage@),
        ensures
            ({
                let req = seq![controller_request(train_index, old(self).trains@[train_index as int].current_sensor, destination)];
                match train_route_result(old(self).graph@, req, 0) {
                    Err(e) => r matches Err(ControllerError::Route(m)) && m@ == plan_error_text(e) && *final(self) == *old(self),
                    Ok(pv) => r matches Ok(p) && {
                        let t = final(self).trains@[train_index as int]@;
                        let t0 = old(self).trains@[train_index as int]@;
                        &&& p@ == pv
                        &&& final(self).track_usage@ == bump_all(old(self).track_usage@, pv.track_ids)
                        &&& final(self).trains@.len() == old(self).trains@.len()
                        &&& forall|j: int| 0 <= j < old(self).trains@.len() && j != train_index ==> #[trigger] final(self).trains@[j] == old(self).trains@[j]
                        &&& t.index == t0.index
                        &&& t.current_sensor == t0.current_sensor
                        &&& t.visited == t0.visited
                        &&& ascending_list_of(t.reserved, pv.track_ids.to_set())
                        &&& t.phase == PhaseView::EnRoute { destination, route: pv }
                        &&& final(self).graph == old(self).graph
                        &&& final(self).layout == old(self).layout
                        &&& final(self).station_sensors == old(self).station_sensors
                        &&& final(self).all_station_sensors == old(self).all_station_sensors
                        &&& final(self).all_sensors == old(self).all_sensors
                    },
                }
            }),
    {
        let cur = self.trains[train_index].current_sensor;
        let count = self.trains.len();
        assert(train_index < count);
        let number = train_index + 1;
        let req = TrainPosition {
            train: #[verifier::truncate] (number as u8),
            sensor: cur,
            direction: TrainDirection::Fwd,
            destination: Some(destination),
        };
        let mut reqs: Vec<TrainPosition> = Vec::new();
        reqs.push(req);
        assert(reqs@ =~= seq![controller_request(train_index, cur, destination)]);
        let mut plans = match plan_routes_with_graph(&reqs, &self.graph) {
            Ok(p) => p,
            Err(e) => {
                return Err(ControllerError::Route(e.to_string()));
            },
        };
        let plan = match plans.pop() {
            Some(p) => p,
            None => {
                assert(false);
                return Err(ControllerError::Route(String::from_str("no route planned")));
            },
        };
        let ghost pv = plan@;
        let ghost tids = plan.track_ids@;
        proof {
            lemma_dedup_distinct(crate::graph::hop_tracks(self.graph@.route_hops(cur, destination)->Some_0));
        }
        assert(distinct(tids));
        let mut k: usize = 0;
        while k < plan.track_ids.len()
            invariant
                0 <= k <= tids.len(),
                tids == plan.track_ids@,
                distinct(tids),
                self.track_usage@ == bump_all(old(self).track_usage@, tids.take(k as int)),
                forall|m: int| 0 <= m < self.track_usage@.len() ==> (#[trigger] self.track_usage@[m]).1 < u32::MAX
                    || tids.take(k as int).contains(self.track_usage@[m].0),
                self.trains == old(self).trains,
                self.graph == old(self).graph,
                self.layout == old(self).layout,
                self.station_sensors == old(self).station_sensors,
                self.all_station_sensors == old(self).all_station_sensors,
                self.all_sensors == old(self).all_sensors,
            decreases tids.len() - k,
        {
            let t = plan.track_ids[k];
            let ghost u0 = self.track_usage@;
            proof {
                lemma_usage_index_found(u0, t);
                if let Some(m) = usage_index(u0, t) {
                    let tk = tids.take(k as int);
                    if tk.contains(u0[m].0) {
                        let q = choose|q: int| 0 <= q < tk.len() && tk[q] == u0[m].0;
                        assert(tids[q] == tids[k as int]);
                    }
                }
            }
            bump_track(&mut self.track_usage, t);
            k = k + 1;
            proof {
                assert(tids.take(k as int).drop_last() =~= tids.take(k - 1));
                assert(tids.take(k as int).last() == t);
                let u1 = self.track_usage@;
                let prev = tids.take(k - 1);
                let now = tids.take(k as int);
                assert forall|m: int| 0 <= m < u1.len() implies (#[trigger] u1[m]).1 < u32::MAX
                    || now.contains(u1[m].0) by {
                    if m < u0.len() && u1[m] == u0[m] {
                        if prev.contains(u0[m].0) {
                            let q = choose|q: int| 0 <= q < prev.len() && prev[q] == u0[m].0;
                            assert(now[q] == u0[m].0);
                        }
                    } else {
                        assert(u1[m].0 == t);
                        assert(now[k - 1] == t);
                    }
                }
            }
        }
        assert(tids.take(tids.len() as int) =~= tids);
        let mut flags = cleared_flags();
        let mut q: usize = 0;
        while q < plan.track_ids.len()
            invariant
                0 <= q <= tids.len(),
                tids == plan.track_ids@,
                flags@.len() == 256,
                forall|x: u8| #[trigger] flags@[x as int] <==> tids.take(q as int).contains(x),
            decreases tids.len() - q,
        {
            let t = plan.track_ids[q];
            flags.set(t as usize, true);
            proof {
                let a = tids.take(q as int);
                let b = tids.take(q + 1);
                assert forall|x: u8| #[trigger] flags@[x as int] <==> b.contains(x) by {
                    if a.contains(x) {
                        let w = choose|w: int| 0 <= w < a.len() && a[w] == x;
                        assert(b[w] == x);
                    }
                    if x == t {
                        assert(b[q as int] == x);
                    }
                    if b.contains(x) && x != t {
                        let w = choose|w: int| 0 <= w < b.len() && b[w] == x;
                        assert(a[w] == x);
                    }
                }
            }
            q = q + 1;
        }
        let segments = ascending_flags(&flags);
        let visited = copy_u8s(&self.trains[train_index].visited_stations);
        let index = self.trains[train_index].index;
        let route = plan.duplicate();
        let st = TrainState {
            index,
            current_sensor: cur,
            reserved_segments: segments,
            phase: TrainPhase::EnRoute { destination, route },
            visited_stations: visited,
        };
        self.trains.set(train_index, st);
        Ok(plan)
    }
}


/// Serializable snapshot of one train's state.
#[derive(Debug, Clone)]
pub struct TrainSnapshot {
    pub index: usize,
    pub current_sensor: u8,
    /// `idle`, `en_route` or `dwelling`.
    pub phase: String,
    /// For `en_route`: the destination sensor.
    pub destination: Option<u8>,
    /// For `dwelling`: the station name.
    pub station: Option<String>,
    /// For `dwelling`: whole seconds remaining.
    pub dwell_remaining_secs: Option<u64>,
    pub reserved_segments: Vec<u8>,
    pub visited_stations: Vec<u8>,
}

/// Value of a [`TrainSnapshot`].
pub struct TrainSnapshotView {
    pub index: usize,
    pub current_sensor: u8,
    pub phase: Seq<char>,
    pub destination: Option<u8>,
    pub station: Option<Seq<char>>,
    pub dwell_remaining_secs: Option<u64>,
    pub reserved_segments: Seq<u8>,
    pub visited_stations: Seq<u8>,
}

impl View for TrainSnapshot {
    type V = TrainSnapshotView;

    open spec fn view(&self) -> TrainSnapshotView {
        TrainSnapshotView {
            index: self.index,
            current_sensor: self.current_sensor,
            phase: self.phase@,
            destination: self.destination,
            station: crate::route_planner::text_of(self.station),
            dwell_remaining_secs: self.dwell_remaining_secs,
            reserved_segments: self.reserved_segments@,
            visited_stations: self.visited_stations@,
        }
    }
}

/// Serializable snapshot of the entire automatic controller.
#[derive(Debug, Clone)]
pub struct AutomaticStatus {
    pub running: bool,
    pub trains: Vec<TrainSnapshot>,
    /// `(track id, count)` as in [`TrainController::track_usage`].
    pub track_usage: Vec<(u8, u32)>,
    pub tick_count: u64,
}

/// Whole seconds from `now_ms` until `until_ms` (0 once reached).
pub open spec fn remaining_secs(until_ms: u64, now_ms: u64) -> u64 {
    if until_ms > now_ms {
        ((until_ms - now_ms) / 1000) as u64
    } else {
        0
    }
}

/// The snapshot of a train at time `now_ms`.
pub open spec fn snapshot_of(t: TrainStateView, now_ms: u64) -> TrainSnapshotView {
    TrainSnapshotView {
        index: t.index,
        current_sensor: t.current_sensor,
        phase: match t.phase {
            PhaseView::Idle => "idle"@,
            PhaseView::EnRoute { .. } => "en_route"@,
            PhaseView::Dwelling { .. } => "dwelling"@,
        },
        destination: match t.phase {
            PhaseView::EnRoute { destination, .. } => Some(destination),
            _ => None,
        },
        station: match t.phase {
            PhaseView::Dwelling { station_name, .. } => Some(station_name),
            _ => None,
        },
        dwell_remaining_secs: match t.phase {
            PhaseView::Dwelling { until_ms, .. } => Some(remaining_secs(until_ms, now_ms)),
            _ => None,
        },
        reserved_segments: t.reserved,
        visited_stations: t.visited,
    }
}

/// The first station named `name`.
pub open spec fn first_station_named(stations: Seq<Station>, name: Seq<char>) -> Option<Station>
    decreases stations.len(),
{
    if stations.len() == 0 {
        None
    } else if stations[0].name@ == name {
        Some(stations[0])
    } else {
        first_station_named(stations.drop_first(), name)
    }
}

/// Train `i` should keep dwelling: its sensor belongs to a station that another train is
/// en route to.
pub open spec fn should_wait_spec(
    trains: Seq<TrainStateView>,
    i: usize,
    pairs: Seq<(u8, Seq<char>)>,
    stations: Seq<Station>,
) -> bool {
    match station_name_of(pairs, trains[i as int].current_sensor) {
        None => false,
        Some(n) => match first_station_named(stations, n) {
            None => false,
            Some(st) => exists|j: int|
                0 <= j < trains.len() && trains[j].index != i && (#[trigger] trains[j].phase matches PhaseView::EnRoute {
                    destination,
                    ..
                } && st.sensor_ids@.contains(destination)),
        },
    }
}

proof fn lemma_first_station_named_found(stations: Seq<Station>, name: Seq<char>)
    ensures
        first_station_named(stations, name) matches Some(st) ==> exists|k: int|
            0 <= k < stations.len() && #[trigger] stations[k] == st && st.name@ == name,
    decreases stations.len(),
{
    if stations.len() > 0 && stations[0].name@ != name {
        lemma_first_station_named_found(stations.drop_first(), name);
        if let Some(st) = first_station_named(stations, name) {
            let k = choose|k: int| 0 <= k < stations.drop_first().len() && #[trigger] stations.drop_first()[k] == st
                && st.name@ == name;
            assert(stations[k + 1] == st);
        }
    } else if stations.len() > 0 {
        assert(stations[0].name@ == name);
    }
}

/// A dwelling train waits only for a train heading to its own station: when train `i`
/// should keep waiting, another train is en route to a sensor of a station that bears the
/// name of the station at train `i`'s sensor. A train en route anywhere else never makes it
/// wait.
pub proof fn lemma_wait_only_for_own_station(
    trains: Seq<TrainStateView>,
    i: usize,
    pairs: Seq<(u8, Seq<char>)>,
    stations: Seq<Station>,
)
    requires
        i < trains.len(),
        should_wait_spec(trains, i, pairs, stations),
    ensures
        exists|j: int, k: int|
            0 <= j < trains.len() && 0 <= k < stations.len() && trains[j].index != i && (#[trigger] trains[j].phase
                matches PhaseView::EnRoute { destination, .. } && (#[trigger] stations[k]).sensor_ids@.contains(destination))
                && station_name_of(pairs, trains[i as int].current_sensor) == Some(stations[k].name@),
{
    let n = station_name_of(pairs, trains[i as int].current_sensor)->Some_0;
    let st = first_station_named(stations, n)->Some_0;
    lemma_first_station_named_found(stations, n);
    let k = choose|k: int| 0 <= k < stations.len() && #[trigger] stations[k] == st && st.name@ == n;
    let j = choose|j: int|
        0 <= j < trains.len() && trains[j].index != i && (#[trigger] trains[j].phase matches PhaseView::EnRoute {
            destination,
            ..
        } && st.sensor_ids@.contains(destination));
    assert(stations[k] == st);
}

proof fn lemma_first_station_named_unique(stations: Seq<Station>, k: int)
    requires
        0 <= k < stations.len(),
        forall|q: int| 0 <= q < stations.len() && q != k ==> (#[trigger] stations[q]).name@ != stations[k].name@,
    ensures
        first_station_named(stations, stations[k].name@) == Some(stations[k]),
    decreases stations.len(),
{
    if k > 0 {
        let rest = stations.drop_first();
        assert(stations[0].name@ != stations[k].name@);
        assert(rest[k - 1] == stations[k]);
        assert forall|q: int| 0 <= q < rest.len() && q != k - 1 implies (#[trigger] rest[q]).name@ != rest[k - 1].name@ by {
            assert(rest[q] == stations[q + 1]);
        }
        lemma_first_station_named_unique(rest, k - 1);
    }
}

/// A dwelling train waits for a train heading to its own station: when the station at train
/// `i`'s sensor is the only station of that name and another train is en route to one of
/// its sensors, train `i` keeps waiting.
pub proof fn lemma_wait_for_own_station(
    trains: Seq<TrainStateView>,
    i: usize,
    pairs: Seq<(u8, Seq<char>)>,
    stations: Seq<Station>,
    j: int,
    k: int,
)
    requires
        i < trains.len(),
        0 <= j < trains.len(),
        0 <= k < stations.len(),
        trains[j].index != i,
        trains[j].phase matches PhaseView::EnRoute { destination, .. } && stations[k].sensor_ids@.contains(destination),
        station_name_of(pairs, trains[i as int].current_sensor) == Some(stations[k].name@),
        forall|q: int| 0 <= q < stations.len() && q != k ==> (#[trigger] stations[q]).name@ != stations[k].name@,
    ensures
        should_wait_spec(trains, i, pairs, stations),
{
    lemma_first_station_named_unique(stations, k);
    assert(trains[j].phase matches PhaseView::EnRoute { destination, .. } && stations[k].sensor_ids@.contains(destination));
}

impl TrainController {
    /// The station name of `sensor`, if it is a station sensor.
    fn station_name_for(&self, sensor: u8) -> (r: Option<String>)
        ensures
            crate::route_planner::text_of(r) == station_name_of(pairs_view(self.station_sensors@), sensor),
    {
        let ghost pv = pairs_view(self.station_sensors@);
        let mut i: usize = self.station_sensors.len();
        assert(pv.take(i as int) =~= pv);
        while i > 0
            invariant
                0 <= i <= self.station_sensors@.len(),
                pv == pairs_view(self.station_sensors@),
                station_name_of(pv, sensor) == station_name_of(pv.take(i as int), sensor),
            decreases i,
        {
            assert(pv.take(i as int).last() == pv[i - 1]);
            if self.station_sensors[i - 1].0 == sensor {
                return Some(self.station_sensors[i - 1].1.clone());
            }
            assert(pv.take(i as int).drop_last() =~= pv.take(i - 1));
            i = i - 1;
        }
        None
    }

    /// Records a train's arrival at `sensor` at time `now_ms`: the train is there, its
    /// reservations are released, and it dwells until `now_ms` plus the dwell time if the
    /// sensor is a station sensor (recording the visit), or goes idle otherwise.
    pub fn arrive(&mut self, train_index: usize, sensor: u8, now_ms: u64)
        requires
            train_index < old(self).trains@.len(),
            now_ms + STATION_DWELL_SECS * 1000 <= u64::MAX,
        ensures
            final(self).trains@.len() == old(self).trains@.len(),
            forall|j: int| 0 <= j < old(self).trains@.len() && j != train_index ==> #[trigger] final(self).trains@[j] == old(self).trains@[j],
            ({
                let t = final(self).trains@[train_index as int]@;
                let t0 = old(self).trains@[train_index as int]@;
                &&& t.index == t0.index
                &&& t.current_sensor == sensor
                &&& t.reserved == Seq::<u8>::empty()
                &&& match station_name_of(pairs_view(old(self).station_sensors@), sensor) {
                    Some(n) => t.visited == t0.visited.push(sensor) && t.phase == PhaseView::Dwelling {
                        sensor,
                        station_name: n,
                        until_ms: (now_ms + STATION_DWELL_SECS * 1000) as u64,
                    },
                    None => t.visited == t0.visited && t.phase == PhaseView::Idle,
                }
            }),
            final(self).graph == old(self).graph,
            final(self).layout == old(self).layout,
            final(self).station_sensors == old(self).station_sensors,
            final(self).all_station_sensors == old(self).all_station_sensors,
            final(self).all_sensors == old(self).all_sensors,
            final(self).track_usage == old(self).track_usage,
    {
        let name = self.station_name_for(sensor);
        let index = self.trains[train_index].index;
        let mut visited = copy_u8s(&self.trains[train_index].visited_stations);
        let phase = match name {
            Some(n) => {
                visited.push(sensor);
                TrainPhase::Dwelling { sensor, station_name: n, until_ms: now_ms + STATION_DWELL_SECS * 1000 }
            },
            None => TrainPhase::Idle,
        };
        let st = TrainState {
            index,
            current_sensor: sensor,
            reserved_segments: Vec::new(),
            phase,
            visited_stations: visited,
        };
        assert(st.reserved_segments@ =~= Seq::<u8>::empty());
        self.trains.set(train_index, st);
    }

    /// Ends a train's dwell when its time is up at `now_ms`: the train goes idle and the
    /// result is true. Otherwise nothing changes and the result is false.
    pub fn check_dwell_complete(&mut self, train_index: usize, now_ms: u64) -> (done: bool)
        requires
            train_index < old(self).trains@.len(),
        ensures
            done == (old(self).trains@[train_index as int].phase@ matches PhaseView::Dwelling { until_ms, .. }
                && now_ms >= until_ms),
            done ==> {
                let t = final(self).trains@[train_index as int]@;
                let t0 = old(self).trains@[train_index as int]@;
                &&& final(self).trains@.len() == old(self).trains@.len()
                &&& forall|j: int| 0 <= j < old(self).trains@.len() && j != train_index ==> #[trigger] final(self).trains@[j] == old(self).trains@[j]
                &&& t.index == t0.index
                &&& t.current_sensor == t0.current_sensor
                &&& t.reserved == t0.reserved
                &&& t.visited == t0.visited
                &&& t.phase == PhaseView::Idle
            },
            !done ==> final(self).trains == old(self).trains,
            final(self).graph == old(self).graph,
            final(self).layout == old(self).layout,
            final(self).station_sensors == old(self).station_sensors,
            final(self).all_station_sensors == old(self).all_station_sensors,
            final(self).all_sensors == old(self).all_sensors,
            final(self).track_usage == old(self).track_usage,
    {
        let expired = match &self.trains[train_index].phase {
            TrainPhase::Dwelling { until_ms, .. } => now_ms >= *until_ms,
            _ => false,
        };
        if !expired {
            return false;
        }
        let t = &self.trains[train_index];
        let st = TrainState {
            index: t.index,
            current_sensor: t.current_sensor,
            reserved_segments: copy_u8s(&t.reserved_segments),
            phase: TrainPhase::Idle,
            visited_stations: copy_u8s(&t.visited_stations),
        };
        self.trains.set(train_index, st);
        true
    }

    /// Whether a dwelling train should keep waiting: its sensor belongs to a station (the
    /// first station with the sensor's station name) and another train is en route to a
    /// sensor of that station.
    pub fn should_wait_for_adjacent(&self, train_index: usize) -> (b: bool)
        requires
            train_index < self.trains@.len(),
        ensures
            b == should_wait_spec(
                trains_view(self.trains@),
                train_index,
                pairs_view(self.station_sensors@),
                self.layout.stations@,
            ),
    {
        let ghost tv = trains_view(self.trains@);
        let sensor = self.trains[train_index].current_sensor;
        assert(sensor == tv[train_index as int].current_sensor);
        let name = match self.station_name_for(sensor) {
            Some(n) => n,
            None => {
                return false;
            },
        };
        let stations = &self.layout.stations;
        let ghost sv = stations@;
        let mut k: usize = 0;
        assert(sv.skip(0) =~= sv);
        while k < stations.len()
            invariant
                0 <= k <= sv.len(),
                sv == stations@,
                sv == self.layout.stations@,
                tv == trains_view(self.trains@),
                train_index < tv.len(),
                station_name_of(pairs_view(self.station_sensors@), tv[train_index as int].current_sensor) == Some(name@),
                first_station_named(sv, name@) == first_station_named(sv.skip(k as int), name@),
            decreases sv.len() - k,
        {
            assert(sv.skip(k as int)[0] == sv[k as int]);
            if stations[k].name == name {
                let st = &stations[k];
                assert(first_station_named(sv, name@) == Some(*st));
                let mut j: usize = 0;
                while j < self.trains.len()
                    invariant
                        0 <= j <= tv.len(),
                        tv == trains_view(self.trains@),
                        train_index < tv.len(),
                        sv == self.layout.stations@,
                        station_name_of(pairs_view(self.station_sensors@), tv[train_index as int].current_sensor) == Some(name@),
                        first_station_named(sv, name@) == Some(*st),
                        forall|q: int| 0 <= q < j ==> !(tv[q].index != train_index && (#[trigger] tv[q].phase matches PhaseView::EnRoute {
                            destination,
                            ..
                        } && st.sensor_ids@.contains(destination))),
                    decreases tv.len() - j,
                {
                    if self.trains[j].index != train_index {
                        match &self.trains[j].phase {
                            TrainPhase::EnRoute { destination, .. } => {
                                if contains_u8(&st.sensor_ids, *destination) {
                                    assert(tv[j as int].phase matches PhaseView::EnRoute { destination: d, .. } && d == *destination);
                                    return true;
                                }
                            },
                            _ => {},
                        }
                    }
                    j = j + 1;
                }
                return false;
            }
            assert(sv.skip(k as int).drop_first() =~= sv.skip(k + 1));
            k = k + 1;
        }
        false
    }

    /// A snapshot of the controller at time `now_ms`, numbered `tick_count`.
    pub fn snapshot(&self, tick_count: u64, now_ms: u64) -> (s: AutomaticStatus)
        ensures
            s.running,
            s.tick_count == tick_count,
            s.track_usage@ == self.track_usage@,
            s.trains@.len() == self.trains@.len(),
            forall|i: int| 0 <= i < self.trains@.len() ==> (#[trigger] s.trains@[i])@ == snapshot_of(self.trains@[i]@, now_ms),
    {
        let mut trains: Vec<TrainSnapshot> = Vec::new();
        let mut i: usize = 0;
        while i < self.trains.len()
            invariant
                0 <= i <= self.trains@.len(),
                trains@.len() == i,
                forall|k: int| 0 <= k < i ==> (#[trigger] trains@[k])@ == snapshot_of(self.trains@[k]@, now_ms),
            decreases self.trains.len() - i,
        {
            let t = &self.trains[i];
            let (phase, destination, station, remaining) = match &t.phase {
                TrainPhase::Idle => (String::from_str("idle"), None, None, None),
                TrainPhase::EnRoute { destination, .. } => (String::from_str("en_route"), Some(*destination), None, None),
                TrainPhase::Dwelling { station_name, until_ms, .. } => {
                    let left: u64 = if *until_ms > now_ms { (*until_ms - now_ms) / 1000 } else { 0 };
                    (String::from_str("dwelling"), None, Some(station_name.clone()), Some(left))
                },
            };
            let snap = TrainSnapshot {
                index: t.index,
                current_sensor: t.current_sensor,
                phase,
                destination,
                station,
                dwell_remaining_secs: remaining,
                reserved_segments: copy_u8s(&t.reserved_segments),
                visited_stations: copy_u8s(&t.visited_stations),
            };
            proof {
                reveal_strlit("idle");
                reveal_strlit("en_route");
                reveal_strlit("dwelling");
            }
            assert(snap@ == snapshot_of(self.trains@[i as int]@, now_ms));
            trains.push(snap);
            i = i + 1;
        }
        let mut usage: Vec<(u8, u32)> = Vec::new();
        let mut k: usize = 0;
        while k < self.track_usage.len()
            invariant
                0 <= k <= self.track_usage@.len(),
                usage@ == self.track_usage@.take(k as int),
            decreases self.track_usage.len() - k,
        {
            usage.push(self.track_usage[k]);
            k = k + 1;
            assert(usage@ =~= self.track_usage@.take(k as int));
        }
        assert(self.track_usage@.take(self.track_usage.len() as int) =~= self.track_usage@);
        AutomaticStatus { running: true, trains, track_usage: usage, tick_count }
    }
}


/// The parts of a controller that no step changes: the graph, the layout and the sensor
/// lists.
pub open spec fn fixed_parts_same(a: TrainController, b: TrainController) -> bool {
    &&& a.graph == b.graph
    &&& a.layout == b.layout
    &&& a.station_sensors == b.station_sensors
    &&& a.all_station_sensors == b.all_station_sensors
    &&& a.all_sensors == b.all_sensors
}

/// Every train but train `i` is as it was.
pub open spec fn others_same(a: Seq<TrainState>, b: Seq<TrainState>, i: usize) -> bool {
    &&& b.len() == a.len()
    &&& forall|j: int| 0 <= j < a.len() && j != i ==> #[trigger] b[j] == a[j]
}

/// A train after arriving at `sensor` at time `now_ms`: it is there with no reservations;
/// at a station sensor (named `station`) it records the visit and dwells for the dwell
/// time, elsewhere it goes idle.
pub open spec fn arrival_view(t0: TrainStateView, sensor: u8, station: Option<Seq<char>>, now_ms: u64) -> TrainStateView {
    TrainStateView {
        index: t0.index,
        current_sensor: sensor,
        reserved: Seq::empty(),
        phase: match station {
            Some(n) => PhaseView::Dwelling { sensor, station_name: n, until_ms: (now_ms + STATION_DWELL_SECS * 1000) as u64 },
            None => PhaseView::Idle,
        },
        visited: match station {
            Some(_) => t0.visited.push(sensor),
            None => t0.visited,
        },
    }
}

/// What the automatic loop does for one train on one tick.
#[derive(Debug)]
pub enum TickAction {
    /// A route was planned: send its commands to the Pi (on failure, call
    /// [`TrainController::abort_route`]).
    Depart { destination: u8, route: PlannedRoute },
    /// Planning the route to the picked destination failed with this message.
    PlanFailed(String),
    /// No destination can be reached now.
    NoDestination,
    /// The train has reached its destination: stop the tracks of its route.
    Arrived { destination: u8, route: PlannedRoute },
    /// The train is still travelling.
    Travelling,
    /// The train keeps dwelling because another train is heading for the same station.
    HoldForAdjacent,
    /// The train has finished dwelling at this sensor and station.
    DwellDone { sensor: u8, station_name: String },
    /// The train keeps dwelling for about this many whole seconds.
    StillDwelling { remaining_secs: u64 },
}

impl TrainController {
    /// Gives up the route of a train whose commands could not be sent: its reservations
    /// are released and it goes idle.
    pub fn abort_route(&mut self, train_index: usize)
        requires
            train_index < old(self).trains@.len(),
        ensures
            final(self).trains@.len() == old(self).trains@.len(),
            forall|j: int| 0 <= j < old(self).trains@.len() && j != train_index ==> #[trigger] final(self).trains@[j] == old(self).trains@[j],
            ({
                let t = final(self).trains@[train_index as int]@;
                let t0 = old(self).trains@[train_index as int]@;
                &&& t.index == t0.index
                &&& t.current_sensor == t0.current_sensor
                &&& t.visited == t0.visited
                &&& t.reserved == Seq::<u8>::empty()
                &&& t.phase == PhaseView::Idle
            }),
            final(self).graph == old(self).graph,
            final(self).layout == old(self).layout,
            final(self).station_sensors == old(self).station_sensors,
            final(self).all_station_sensors == old(self).all_station_sensors,
            final(self).all_sensors == old(self).all_sensors,
            final(self).track_usage == old(self).track_usage,
    {
        let t = &self.trains[train_index];
        let st = TrainState {
            index: t.index,
            current_sensor: t.current_sensor,
            reserved_segments: Vec::new(),
            phase: TrainPhase::Idle,
            visited_stations: copy_u8s(&t.visited_stations),
        };
        assert(st.reserved_segments@ =~= Seq::<u8>::empty());
        self.trains.set(train_index, st);
    }

    /// Decides what one train does on one tick of the automatic loop, given the sensors
    /// that read active (`None` when they were not read) and the time `now_ms`:
    /// an idle train picks a destination and plans a route to it; a train en route arrives
    /// when its destination sensor is active; a dwelling train holds while another train is
    /// heading for its station, and otherwise goes idle once its dwell time is up.
    pub fn tick_train(&mut self, train_index: usize, active: &Option<Vec<u8>>, now_ms: u64) -> (a: TickAction)
        requires
            train_index < old(self).trains@.len(),
            usage_below_max(old(self).track_usage@),
            now_ms + STATION_DWELL_SECS * 1000 <= u64::MAX,
        ensures
            fixed_parts_same(*old(self), *final(self)),
            others_same(old(self).trains@, final(self).trains@, train_index),
            ({
                let t0 = old(self).trains@[train_index as int]@;
                let t = final(self).trains@[train_index as int]@;
                let tv = trains_view(old(self).trains@);
                match t0.phase {
                    PhaseView::Idle => match pick_spec(
                        old(self).graph@,
                        tv,
                        train_index,
                        old(self).all_sensors@,
                        old(self).all_station_sensors@,
                        old(self).track_usage@,
                    ) {
                        None => a is NoDestination && *final(self) == *old(self),
                        Some(d) => match train_route_result(
                            old(self).graph@,
                            seq![controller_request(train_index, t0.current_sensor, d)],
                            0,
                        ) {
                            Ok(pv) => {
                                &&& a matches TickAction::Depart { destination, route } && destination == d && route@ == pv
                                &&& t.index == t0.index
                                &&& t.current_sensor == t0.current_sensor
                                &&& t.visited == t0.visited
                                &&& ascending_list_of(t.reserved, pv.track_ids.to_set())
                                &&& t.phase == PhaseView::EnRoute { destination: d, route: pv }
                                &&& final(self).track_usage@ == bump_all(old(self).track_usage@, pv.track_ids)
                            },
                            Err(e) => a matches TickAction::PlanFailed(m) && m@ == plan_error_text(e) && *final(self)
                                == *old(self),
                        },
                    },
                    PhaseView::EnRoute { destination, route } => if active matches Some(v) && v@.contains(destination) {
                        &&& a matches TickAction::Arrived { destination: d, route: r } && d == destination && r@ == route
                        &&& t == arrival_view(
                            t0,
                            destination,
                            station_name_of(pairs_view(old(self).station_sensors@), destination),
                            now_ms,
                        )
                        &&& final(self).track_usage == old(self).track_usage
                    } else {
                        a is Travelling && *final(self) == *old(self)
                    },
                    PhaseView::Dwelling { sensor, station_name, until_ms } => if should_wait_spec(
                        tv,
                        train_index,
                        pairs_view(old(self).station_sensors@),
                        old(self).layout.stations@,
                    ) {
                        a is HoldForAdjacent && *final(self) == *old(self)
                    } else if now_ms >= until_ms {
                        &&& a matches TickAction::DwellDone { sensor: s, station_name: n } && s == sensor && n@ == station_name
                        &&& t.index == t0.index
                        &&& t.current_sensor == t0.current_sensor
                        &&& t.reserved == t0.reserved
                        &&& t.visited == t0.visited
                        &&& t.phase == PhaseView::Idle
                        &&& final(self).track_usage == old(self).track_usage
                    } else {
                        a matches TickAction::StillDwelling { remaining_secs: left } && left == remaining_secs(
                            until_ms,
                            now_ms,
                        ) && *final(self) == *old(self)
                    },
                }
            }),
    {
        match &self.trains[train_index].phase {
            TrainPhase::Idle => {
                match self.pick_destination(train_index) {
                    Some(d) => {
                        match self.plan_route(train_index, d) {
                            Ok(route) => TickAction::Depart { destination: d, route },
                            Err(e) => {
                                let m = match e {
                                    ControllerError::Route(m) => m,
                                    ControllerError::Layout(m) => m,
                                    ControllerError::Pi(p) => p.to_string(),
                                };
                                TickAction::PlanFailed(m)
                            },
                        }
                    },
                    None => TickAction::NoDestination,
                }
            },
            TrainPhase::EnRoute { destination, route } => {
                let arrived = match active {
                    Some(v) => contains_u8(v, *destination),
                    None => false,
                };
                if arrived {
                    let d = *destination;
                    let r = route.duplicate();
                    self.arrive(train_index, d, now_ms);
                    TickAction::Arrived { destination: d, route: r }
                } else {
                    TickAction::Travelling
                }
            },
            TrainPhase::Dwelling { sensor, station_name, until_ms } => {
                let s = *sensor;
                let n = station_name.clone();
                let until = *until_ms;
                if self.should_wait_for_adjacent(train_index) {
                    TickAction::HoldForAdjacent
                } else if self.check_dwell_complete(train_index, now_ms) {
                    TickAction::DwellDone { sensor: s, station_name: n }
                } else {
                    let left: u64 = if until > now_ms { (until - now_ms) / 1000 } else { 0 };
                    TickAction::StillDwelling { remaining_secs: left }
                }
            },
        }
    }
}


/// A deduplicated list holds only elements of the list.
proof fn lemma_dedup_within(s: Seq<u8>, x: u8)
    requires
        crate::graph::dedup(s).contains(x),
    ensures
        s.contains(x),
    decreases s.len(),
{
    if s.len() > 0 {
        let d = crate::graph::dedup(s.drop_last());
        if d.contains(x) {
            lemma_dedup_within(s.drop_last(), x);
            let k = choose|k: int| 0 <= k < s.drop_last().len() && s.drop_last()[k] == x;
            assert(s[k] == x);
        } else {
            assert(x == s.last());
            assert(s[s.len() - 1] == x);
        }
    }
}

/// Collision avoidance: when a destination is picked for train `i`, planning a route to it
/// succeeds, and none of the route's tracks is reserved by another train.
pub proof fn lemma_picked_route_avoids_others(
    g: GraphView,
    trains: Seq<TrainStateView>,
    i: usize,
    sensors: Seq<u8>,
    stations: Seq<u8>,
    usage: Seq<(u8, u32)>,
)
    requires
        i < trains.len(),
        pick_spec(g, trains, i, sensors, stations, usage) is Some,
    ensures
        ({
            let d = pick_spec(g, trains, i, sensors, stations, usage)->Some_0;
            train_route_result(g, seq![controller_request(i, trains[i as int].current_sensor, d)], 0) matches Ok(pv)
                && forall|t: u8| #[trigger] pv.track_ids.contains(t) ==> !reserved_by_others(trains, i).contains(t)
        }),
{
    let k = choose|k: int| is_best_pick_upto(g, trains, i, sensors, stations, usage, sensors.len() as int, k);
    let d = sensors[k];
    let cur = trains[i as int].current_sensor;
    assert(pick_ok(g, trains, i, d));
    let h = g.route_hops(cur, d)->Some_0;
    let req = seq![controller_request(i, cur, d)];
    assert(req[0].destination == Some(d));
    assert(train_route_result(g, req, 0) == Ok::<PlannedRouteView, crate::route_planner::PlanError>(
        crate::route_planner::planned_route_spec(g, 0, cur, d, h),
    ));
    assert forall|t: u8| #[trigger] route_tracks(h).contains(t) implies !reserved_by_others(trains, i).contains(t) by {
        lemma_dedup_within(crate::graph::hop_tracks(h), t);
        let q = choose|q: int| 0 <= q < crate::graph::hop_tracks(h).len() && crate::graph::hop_tracks(h)[q] == t;
        assert(h[q].track_id == t);
    }
}

/// No track is reserved by two trains.
pub open spec fn reservations_disjoint(trains: Seq<TrainStateView>) -> bool {
    forall|j: int, k: int, x: u8|
        0 <= j < trains.len() && 0 <= k < trains.len() && j != k && #[trigger] trains[j].reserved.contains(x)
            ==> !#[trigger] trains[k].reserved.contains(x)
}

/// Collision avoidance is kept from step to step: when no track is reserved by two trains
/// and train `i` plans its route to the destination picked for it (it then reserves exactly
/// the route's tracks, and the other trains are unchanged), still no track is reserved by
/// two trains.
pub proof fn lemma_plan_keeps_reservations_disjoint(
    g: GraphView,
    before: Seq<TrainStateView>,
    after: Seq<TrainStateView>,
    i: usize,
    sensors: Seq<u8>,
    stations: Seq<u8>,
    usage: Seq<(u8, u32)>,
)
    requires
        i < before.len(),
        forall|k: int| 0 <= k < before.len() ==> (#[trigger] before[k]).index == k,
        reservations_disjoint(before),
        pick_spec(g, before, i, sensors, stations, usage) is Some,
        after.len() == before.len(),
        forall|k: int| 0 <= k < before.len() && k != i ==> #[trigger] after[k] == before[k],
        train_route_result(
            g,
            seq![controller_request(i, before[i as int].current_sensor, pick_spec(g, before, i, sensors, stations, usage)->Some_0)],
            0,
        ) matches Ok(pv) && ascending_list_of(after[i as int].reserved, pv.track_ids.to_set()),
    ensures
        reservations_disjoint(after),
{
    lemma_picked_route_avoids_others(g, before, i, sensors, stations, usage);
    let d = pick_spec(g, before, i, sensors, stations, usage)->Some_0;
    let pv = train_route_result(g, seq![controller_request(i, before[i as int].current_sensor, d)], 0)->Ok_0;
    assert forall|j: int, k: int, x: u8|
        0 <= j < after.len() && 0 <= k < after.len() && j != k && #[trigger] after[j].reserved.contains(x)
            implies !#[trigger] after[k].reserved.contains(x) by {
        if j == i as int {
            assert(pv.track_ids.contains(x));
            if after[k].reserved.contains(x) {
                assert(before[k].index != i);
                assert(reserved_by_others(before, i).contains(x));
            }
        } else if k == i as int {
            if after[k].reserved.contains(x) {
                assert(pv.track_ids.contains(x));
                assert(before[j].index != i);
                assert(reserved_by_others(before, i).contains(x));
            }
        } else {
            assert(before[j].reserved.contains(x));
        }
    }
}

/// No track has two usage entries.
pub open spec fn usage_keys_distinct(usage: Seq<(u8, u32)>) -> bool {
    forall|i: int, j: int| 0 <= i < j < usage.len() ==> (#[trigger] usage[i]).0 != (#[trigger] usage[j]).0
}

/// The usage list keeps one entry per track however many routes are planned: as a map
/// from track to count, planning never adds a second entry for a track.
pub proof fn lemma_bump_all_keys_distinct(usage: Seq<(u8, u32)>, tracks: Seq<u8>)
    requires
        usage_keys_distinct(usage),
    ensures
        usage_keys_distinct(bump_all(usage, tracks)),
    decreases tracks.len(),
{
    if tracks.len() > 0 {
        lemma_bump_all_keys_distinct(usage, tracks.drop_last());
        let u = bump_all(usage, tracks.drop_last());
        let t = tracks.last();
        lemma_usage_index_found(u, t);
        let v = bump_usage(u, t);
        assert forall|i: int, j: int| 0 <= i < j < v.len() implies (#[trigger] v[i]).0 != (#[trigger] v[j]).0 by {
            match usage_index(u, t) {
                Some(k) => {
                    assert(v[i].0 == u[i].0);
                    assert(v[j].0 == u[j].0);
                },
                None => {
                    if j == u.len() {
                        assert(v[i] == u[i]);
                    } else {
                        assert(v[i] == u[i] && v[j] == u[j]);
                    }
                },
            }
        }
    }
}

/// A new controller has one usage entry per track of a valid layout, each at zero.
pub proof fn lemma_initial_usage_keys_distinct(layout: TrackLayout)
    requires
        validate_spec(layout) is Ok,
    ensures
        usage_keys_distinct(layout.tracks@.map_values(|t: crate::model::TrackSegment| (t.id, 0u32))),
{
    crate::validate::lemma_valid_layout(layout);
    let u = layout.tracks@.map_values(|t: crate::model::TrackSegment| (t.id, 0u32));
    assert forall|i: int, j: int| 0 <= i < j < u.len() implies (#[trigger] u[i]).0 != (#[trigger] u[j]).0 by {
        assert(u[i].0 == layout.tracks@[i].id);
        assert(u[j].0 == layout.tracks@[j].id);
    }
}

/// Planning adds one use to each track of the route and leaves every other count as it was.
pub proof fn lemma_bump_all_counts(usage: Seq<(u8, u32)>, tracks: Seq<u8>, t: u8)
    requires
        distinct(tracks),
        usage_below_max(usage),
    ensures
        usage_of(bump_all(usage, tracks), t) == usage_of(usage, t) + if tracks.contains(t) {
            1nat
        } else {
            0nat
        },
    decreases tracks.len(),
{
    if tracks.len() > 0 {
        let init = tracks.drop_last();
        let x = tracks.last();
        assert(distinct(init)) by {
            assert forall|a: int, b: int| 0 <= a < b < init.len() implies init[a] != init[b] by {
                assert(init[a] == tracks[a] && init[b] == tracks[b]);
            }
        }
        lemma_bump_all_counts(usage, init, t);
        lemma_bump_all_counts(usage, init, x);
        let u = bump_all(usage, init);
        lemma_usage_index_found(u, x);
        lemma_usage_index_found(u, t);
        assert(!init.contains(x)) by {
            if init.contains(x) {
                let a = choose|a: int| 0 <= a < init.len() && init[a] == x;
                assert(tracks[a] == tracks[tracks.len() - 1]);
            }
        }
        lemma_bump_all_bound(usage, init);
        if let Some(m) = usage_index(u, x) {
            assert(u[m].1 < u32::MAX || init.contains(u[m].0));
        }
        lemma_bump_usage_count(u, x, t);
        assert(tracks.contains(t) <==> (init.contains(t) || t == x)) by {
            if tracks.contains(t) {
                let a = choose|a: int| 0 <= a < tracks.len() && tracks[a] == t;
                if a < init.len() {
                    assert(init[a] == t);
                }
            }
            if init.contains(t) {
                let a = choose|a: int| 0 <= a < init.len() && init[a] == t;
                assert(tracks[a] == t);
            }
            if t == x {
                assert(tracks[tracks.len() - 1] == t);
            }
        }
    }
}

/// One more use of track `x` adds one to its count and leaves the others.
proof fn lemma_bump_usage_count(u: Seq<(u8, u32)>, x: u8, t: u8)
    requires
        usage_index(u, x) matches Some(k) ==> u[k].1 < u32::MAX,
    ensures
        usage_of(bump_usage(u, x), t) == usage_of(u, t) + if t == x {
            1nat
        } else {
            0nat
        },
{
    lemma_usage_index_found(u, x);
    lemma_usage_index_found(u, t);
    let b = bump_usage(u, x);
    match usage_index(u, x) {
        Some(k) => {
            lemma_usage_index_same_keys(u, b, t);
        },
        None => {
            lemma_usage_index_push(u, (x, 1u32), t);
        },
    }
}

/// Changing counts but not keys keeps the first entry of every track.
proof fn lemma_usage_index_same_keys(u: Seq<(u8, u32)>, v: Seq<(u8, u32)>, t: u8)
    requires
        u.len() == v.len(),
        forall|k: int| 0 <= k < u.len() ==> (#[trigger] u[k]).0 == v[k].0,
    ensures
        usage_index(v, t) == usage_index(u, t),
    decreases u.len(),
{
    if u.len() > 0 {
        lemma_usage_index_same_keys(u.drop_last(), v.drop_last(), t);
        assert(u.drop_last().len() == v.drop_last().len());
        assert(u.last().0 == v.last().0);
    }
}

/// Adding an entry at the end keeps the first entry of every track that had one.
proof fn lemma_usage_index_push(u: Seq<(u8, u32)>, e: (u8, u32), t: u8)
    ensures
        usage_index(u.push(e), t) == match usage_index(u, t) {
            Some(k) => Some(k),
            None => if e.0 == t {
                Some(u.len() as int)
            } else {
                None
            },
        },
{
    assert(u.push(e).drop_last() =~= u);
}


/// After using some tracks once more, every count that may have reached the maximum
/// belongs to one of those tracks.
proof fn lemma_bump_all_bound(usage: Seq<(u8, u32)>, tracks: Seq<u8>)
    requires
        distinct(tracks),
        usage_below_max(usage),
    ensures
        forall|k: int| 0 <= k < bump_all(usage, tracks).len() ==> (#[trigger] bump_all(usage, tracks)[k]).1 < u32::MAX
            || tracks.contains(bump_all(usage, tracks)[k].0),
    decreases tracks.len(),
{
    if tracks.len() > 0 {
        let init = tracks.drop_last();
        let x = tracks.last();
        assert(distinct(init)) by {
            assert forall|a: int, b: int| 0 <= a < b < init.len() implies init[a] != init[b] by {
                assert(init[a] == tracks[a] && init[b] == tracks[b]);
            }
        }
        lemma_bump_all_bound(usage, init);
        let u = bump_all(usage, init);
        let b = bump_all(usage, tracks);
        lemma_usage_index_found(u, x);
        assert forall|k: int| 0 <= k < b.len() implies (#[trigger] b[k]).1 < u32::MAX || tracks.contains(b[k].0) by {
            if k < u.len() && b[k] == u[k] {
                if init.contains(u[k].0) {
                    let a = choose|a: int| 0 <= a < init.len() && init[a] == u[k].0;
                    assert(tracks[a] == u[k].0);
                }
            } else {
                assert(b[k].0 == x);
                assert(tracks[tracks.len() - 1] == x);
            }
        }
    }
}

} // verus!
