//! Runtime train state (INITIALISE), route targets (ROUTE) and cumulative evolution statistics.

use vstd::prelude::*;

use crate::ids::sensor_id_in_range;

verus! {

/// At most this many trains may be registered.
pub const MAX_TRAINS: usize = 6;

/// Direction a train is facing.
#[derive(Debug, Clone, Copy, PartialEq, Eq, Hash, Structural)]
pub enum TrainDirection {
    Fwd,
    Bwd,
}

impl Default for TrainDirection {
    fn default() -> (d: TrainDirection)
        ensures
            d == TrainDirection::Fwd,
    {
        TrainDirection::Fwd
    }
}

/// Text of a train direction (`fwd` / `bwd`).
pub open spec fn train_direction_text(d: TrainDirection) -> Seq<char> {
    match d {
        TrainDirection::Fwd => "fwd"@,
        TrainDirection::Bwd => "bwd"@,
    }
}

impl TrainDirection {
    /// The direction's text (`fwd` / `bwd`).
    pub fn as_str(&self) -> (s: &'static str)
        ensures
            s@ == train_direction_text(*self),
    {
        match self {
            TrainDirection::Fwd => "fwd",
            TrainDirection::Bwd => "bwd",
        }
    }

    /// Reads a direction from its text; `None` for anything but `fwd` or `bwd`.
    pub fn from_text(s: &str) -> (d: Option<TrainDirection>)
        ensures
            d == (if s@ == "fwd"@ {
                Some(TrainDirection::Fwd)
            } else if s@ == "bwd"@ {
                Some(TrainDirection::Bwd)
            } else {
                None::<TrainDirection>
            }),
    {
        let fwd = String::from_str("fwd");
        let bwd = String::from_str("bwd");
        let t = String::from_str(s);
        if t == fwd {
            Some(TrainDirection::Fwd)
        } else if t == bwd {
            Some(TrainDirection::Bwd)
        } else {
            None
        }
    }
}

/// Where one train is, which way it faces, and optionally where it should go.
#[derive(Debug, Clone, Copy, PartialEq, Eq, Structural)]
pub struct TrainPosition {
    /// Train identifier (at least 1, unique within a request).
    pub train: u8,
    /// Which sensor currently detects this train (1–24).
    pub sensor: u8,
    /// Direction the train is facing.
    pub direction: TrainDirection,
    /// Target sensor for this train (optional; used by the route planner).
    pub destination: Option<u8>,
}

/// Train positions registered on the layout.
#[derive(Debug, Clone, PartialEq, Eq)]
pub struct InitialiseRequest {
    pub trains: Vec<TrainPosition>,
}

/// A route target: a sensor number or a station name.
#[derive(Debug, Clone, PartialEq, Eq)]
pub enum Destination {
    Sensor(u8),
    Station(String),
}

/// Where one train should end up and which way it should face.
#[derive(Debug, Clone, PartialEq, Eq)]
pub struct RouteTrainRequest {
    pub train: u8,
    pub destination: Destination,
    pub direction: TrainDirection,
}

/// Target state for a set of trains.
#[derive(Debug, Clone, PartialEq, Eq)]
pub struct RouteRequest {
    pub trains: Vec<RouteTrainRequest>,
}

/// Errors about runtime train state.
#[derive(Debug, Clone, PartialEq, Eq)]
pub enum StateError {
    /// More than [`MAX_TRAINS`] trains.
    TooManyTrains(usize),
    /// A train id of 0.
    InvalidTrainId(u8),
    /// The same train id twice.
    DuplicateTrainId(u8),
    /// A sensor outside 1–24.
    InvalidSensor(u8),
    /// Reading or writing the state file failed (message).
    Io(String),
    /// The state file is not valid JSON of the expected shape (message).
    Json(String),
}

/// Some train among the first `i` has id `id`.
pub open spec fn id_seen(ids: Seq<u8>, i: int, id: u8) -> bool {
    exists|j: int| 0 <= j < i && ids[j] == id
}

/// The error of train `i` of an INITIALISE request, given the trains before it.
pub open spec fn position_error(trains: Seq<TrainPosition>, i: int) -> Option<StateError> {
    let t = trains[i];
    if t.train < 1 {
        Some(StateError::InvalidTrainId(t.train))
    } else if id_seen(trains.map_values(|p: TrainPosition| p.train), i, t.train) {
        Some(StateError::DuplicateTrainId(t.train))
    } else if !sensor_id_in_range(t.sensor) {
        Some(StateError::InvalidSensor(t.sensor))
    } else if t.destination is Some && !sensor_id_in_range(t.destination->0) {
        Some(StateError::InvalidSensor(t.destination->0))
    } else {
        None
    }
}

/// The first error among the first `n` trains of an INITIALISE request.
pub open spec fn first_position_error(trains: Seq<TrainPosition>, n: int) -> Option<StateError>
    decreases n,
{
    if n <= 0 {
        None
    } else {
        match first_position_error(trains, n - 1) {
            Some(e) => Some(e),
            None => position_error(trains, n - 1),
        }
    }
}

/// The validation outcome of an INITIALISE request: too many trains, or the first
/// train error (id 0, repeated id, sensor or destination outside 1–24).
pub open spec fn initialise_error(trains: Seq<TrainPosition>) -> Option<StateError> {
    if trains.len() > MAX_TRAINS {
        Some(StateError::TooManyTrains(trains.len() as usize))
    } else {
        first_position_error(trains, trains.len() as int)
    }
}

/// The error of train `i` of a ROUTE request, given the trains before it.
pub open spec fn target_error(trains: Seq<RouteTrainRequest>, i: int) -> Option<StateError> {
    let t = trains[i];
    if t.train < 1 {
        Some(StateError::InvalidTrainId(t.train))
    } else if id_seen(trains.map_values(|p: RouteTrainRequest| p.train), i, t.train) {
        Some(StateError::DuplicateTrainId(t.train))
    } else {
        match t.destination {
            Destination::Sensor(s) => if !sensor_id_in_range(s) {
                Some(StateError::InvalidSensor(s))
            } else {
                None
            },
            Destination::Station(_) => None,
        }
    }
}

/// The first error among the first `n` trains of a ROUTE request.
pub open spec fn first_target_error(trains: Seq<RouteTrainRequest>, n: int) -> Option<StateError>
    decreases n,
{
    if n <= 0 {
        None
    } else {
        match first_target_error(trains, n - 1) {
            Some(e) => Some(e),
            None => target_error(trains, n - 1),
        }
    }
}

/// The validation outcome of a ROUTE request.
pub open spec fn route_request_error(trains: Seq<RouteTrainRequest>) -> Option<StateError> {
    if trains.len() > MAX_TRAINS {
        Some(StateError::TooManyTrains(trains.len() as usize))
    } else {
        first_target_error(trains, trains.len() as int)
    }
}

/// `Ok(())` when there is no error, else the error.
pub open spec fn as_result(e: Option<StateError>) -> Result<(), StateError> {
    match e {
        Some(e) => Err(e),
        None => Ok(()),
    }
}

proof fn lemma_position_error_stable(trains: Seq<TrainPosition>, n: int, m: int)
    requires
        0 <= n <= m,
        first_position_error(trains, n) is Some,
    ensures
        first_position_error(trains, m) == first_position_error(trains, n),
    decreases m - n,
{
    if n < m {
        lemma_position_error_stable(trains, n, m - 1);
    }
}

proof fn lemma_target_error_stable(trains: Seq<RouteTrainRequest>, n: int, m: int)
    requires
        0 <= n <= m,
        first_target_error(trains, n) is Some,
    ensures
        first_target_error(trains, m) == first_target_error(trains, n),
    decreases m - n,
{
    if n < m {
        lemma_target_error_stable(trains, n, m - 1);
    }
}

/// Whether some train among the first `i` of `ids` has id `id`.
fn seen_before(ids: &Vec<u8>, i: usize, id: u8) -> (r: bool)
    requires
        i <= ids@.len(),
    ensures
        r == id_seen(ids@, i as int, id),
{
    let mut j: usize = 0;
    while j < i
        invariant
            0 <= j <= i <= ids@.len(),
            forall|k: int| 0 <= k < j ==> ids@[k] != id,
        decreases i - j,
    {
        if ids[j] == id {
            return true;
        }
        j = j + 1;
    }
    false
}

impl InitialiseRequest {
    /// Checks the request: at most [`MAX_TRAINS`] trains; each with id at least 1, not
    /// repeated, sensor in 1–24 and destination (if any) in 1–24.
    pub fn validate(&self) -> (r: Result<(), StateError>)
        ensures
            r == as_result(initialise_error(self.trains@)),
    {
        if self.trains.len() > MAX_TRAINS {
            return Err(StateError::TooManyTrains(self.trains.len()));
        }
        let ghost tv = self.trains@;
        let mut ids: Vec<u8> = Vec::new();
        let mut i: usize = 0;
        while i < self.trains.len()
            invariant
                0 <= i <= tv.len(),
                tv.len() <= MAX_TRAINS,
                tv == self.trains@,
                ids@ == tv.map_values(|p: TrainPosition| p.train).take(i as int),
                first_position_error(tv, i as int) is None,
            decreases self.trains.len() - i,
        {
            let t = self.trains[i];
            proof {
                let all = tv.map_values(|p: TrainPosition| p.train);
                assert forall|j: int| 0 <= j < i implies #[trigger] ids@[j] == all[j] by {}
                if id_seen(ids@, i as int, t.train) {
                    let j = choose|j: int| 0 <= j < i && ids@[j] == t.train;
                    assert(all[j] == t.train);
                }
                if id_seen(all, i as int, t.train) {
                    let j = choose|j: int| 0 <= j < i && all[j] == t.train;
                    assert(ids@[j] == t.train);
                }
                assert(t.train == tv[i as int].train);
                if position_error(tv, i as int) is Some {
                    lemma_position_error_stable(tv, i + 1, tv.len() as int);
                }
            }
            if t.train < 1 {
                return Err(StateError::InvalidTrainId(t.train));
            }
            if seen_before(&ids, i, t.train) {
                return Err(StateError::DuplicateTrainId(t.train));
            }
            if !(1 <= t.sensor && t.sensor <= 24) {
                return Err(StateError::InvalidSensor(t.sensor));
            }
            if let Some(d) = t.destination {
                if !(1 <= d && d <= 24) {
                    return Err(StateError::InvalidSensor(d));
                }
            }
            ids.push(t.train);
            i = i + 1;
            assert(ids@ =~= tv.map_values(|p: TrainPosition| p.train).take(i as int));
        }
        Ok(())
    }
}

impl RouteRequest {
    /// Checks the request: at most [`MAX_TRAINS`] trains; each with id at least 1, not
    /// repeated, and a sensor destination (if a sensor) in 1–24.
    pub fn validate(&self) -> (r: Result<(), StateError>)
        ensures
            r == as_result(route_request_error(self.trains@)),
    {
        if self.trains.len() > MAX_TRAINS {
            return Err(StateError::TooManyTrains(self.trains.len()));
        }
        let ghost tv = self.trains@;
        let mut ids: Vec<u8> = Vec::new();
        let mut i: usize = 0;
        while i < self.trains.len()
            invariant
                0 <= i <= tv.len(),
                tv.len() <= MAX_TRAINS,
                tv == self.trains@,
                ids@ == tv.map_values(|p: RouteTrainRequest| p.train).take(i as int),
                first_target_error(tv, i as int) is None,
            decreases self.trains.len() - i,
        {
            let t = &self.trains[i];
            proof {
                let all = tv.map_values(|p: RouteTrainRequest| p.train);
                assert forall|j: int| 0 <= j < i implies #[trigger] ids@[j] == all[j] by {}
                if id_seen(ids@, i as int, t.train) {
                    let j = choose|j: int| 0 <= j < i && ids@[j] == t.train;
                    assert(all[j] == t.train);
                }
                if id_seen(all, i as int, t.train) {
                    let j = choose|j: int| 0 <= j < i && all[j] == t.train;
                    assert(ids@[j] == t.train);
                }
                assert(t.train == tv[i as int].train);
                if target_error(tv, i as int) is Some {
                    lemma_target_error_stable(tv, i + 1, tv.len() as int);
                }
            }
            if t.train < 1 {
                return Err(StateError::InvalidTrainId(t.train));
            }
            if seen_before(&ids, i, t.train) {
                return Err(StateError::DuplicateTrainId(t.train));
            }
            match &t.destination {
                Destination::Sensor(s) => {
                    if !(1 <= *s && *s <= 24) {
                        return Err(StateError::InvalidSensor(*s));
                    }
                },
                Destination::Station(_) => {},
            }
            ids.push(t.train);
            i = i + 1;
            assert(ids@ =~= tv.map_values(|p: RouteTrainRequest| p.train).take(i as int));
        }
        Ok(())
    }
}

/// Path of the INITIALISE payload, relative to the working directory.
pub fn trains_path() -> (p: String)
    ensures
        p@ == "data/runtime/trains.json"@,
{
    String::from_str("data/runtime/trains.json")
}

/// Path of the PROGRAM placeholder payload.
pub fn program_path() -> (p: String)
    ensures
        p@ == "data/runtime/program.json"@,
{
    String::from_str("data/runtime/program.json")
}

/// Path of the snapshot of INITIALISE taken when automatic mode starts.
pub fn automatic_start_path() -> (p: String)
    ensures
        p@ == "data/runtime/automatic_start.json"@,
{
    String::from_str("data/runtime/automatic_start.json")
}

/// Path of the persistent evolution statistics.
pub fn stats_path() -> (p: String)
    ensures
        p@ == "data/runtime/stats.json"@,
{
    String::from_str("data/runtime/stats.json")
}

/// Persistent cumulative statistics across all evolution sessions.
#[derive(Debug, Clone, PartialEq, Eq)]
pub struct EvolutionStats {
    /// Total number of completed evolution sessions.
    pub sessions_completed: u32,
    /// Cumulative input tokens across all sessions.
    pub total_tokens_in: u64,
    /// Cumulative output tokens across all sessions.
    pub total_tokens_out: u64,
    /// Date of the last completed session.
    pub last_session_at: String,
    /// Version at the last completed session.
    pub last_version: String,
}

impl Default for EvolutionStats {
    fn default() -> (s: EvolutionStats)
        ensures
            s.sessions_completed == 0,
            s.total_tokens_in == 0,
            s.total_tokens_out == 0,
            s.last_session_at@ == Seq::<char>::empty(),
            s.last_version@ == Seq::<char>::empty(),
    {
        EvolutionStats {
            sessions_completed: 0,
            total_tokens_in: 0,
            total_tokens_out: 0,
            last_session_at: String::new(),
            last_version: String::new(),
        }
    }
}

impl EvolutionStats {
    /// Records a completed evolution session.
    pub fn record_session(&mut self, tokens_in: u64, tokens_out: u64, version: &str, date: &str)
        requires
            old(self).sessions_completed < u32::MAX,
            old(self).total_tokens_in + tokens_in <= u64::MAX,
            old(self).total_tokens_out + tokens_out <= u64::MAX,
        ensures
            final(self).sessions_completed == old(self).sessions_completed + 1,
            final(self).total_tokens_in == old(self).total_tokens_in + tokens_in,
            final(self).total_tokens_out == old(self).total_tokens_out + tokens_out,
            final(self).last_session_at@ == date@,
            final(self).last_version@ == version@,
    {
        self.sessions_completed = self.sessions_completed + 1;
        self.total_tokens_in = self.total_tokens_in + tokens_in;
        self.total_tokens_out = self.total_tokens_out + tokens_out;
        self.last_session_at = String::from_str(date);
        self.last_version = String::from_str(version);
    }
}


/// No error among the first `n` trains means each of them has an id of at least 1 not used
/// by an earlier one, a sensor in 1–24 and a destination (if any) in 1–24.
proof fn lemma_positions_ok(trains: Seq<TrainPosition>, n: int)
    requires
        0 <= n <= trains.len(),
        first_position_error(trains, n) is None,
    ensures
        forall|i: int|
            0 <= i < n ==> (#[trigger] trains[i]).train >= 1 && sensor_id_in_range(trains[i].sensor) && (
            trains[i].destination matches Some(d) ==> sensor_id_in_range(d)),
        forall|i: int, j: int| 0 <= i < j < n ==> (#[trigger] trains[i]).train != (#[trigger] trains[j]).train,
    decreases n,
{
    if n > 0 {
        lemma_positions_ok(trains, n - 1);
        assert(position_error(trains, n - 1) is None);
        let ids = trains.map_values(|p: TrainPosition| p.train);
        assert forall|i: int| 0 <= i < n - 1 implies (#[trigger] trains[i]).train != trains[n - 1].train by {
            assert(ids[i] == trains[i].train);
        }
    }
}

/// What an accepted INITIALISE request guarantees: at most [`MAX_TRAINS`] trains, with
/// distinct ids of at least 1, sensors in 1–24 and destinations (if any) in 1–24.
pub proof fn lemma_valid_initialise(trains: Seq<TrainPosition>)
    requires
        initialise_error(trains) is None,
    ensures
        trains.len() <= MAX_TRAINS,
        forall|i: int|
            0 <= i < trains.len() ==> (#[trigger] trains[i]).train >= 1 && sensor_id_in_range(trains[i].sensor) && (
            trains[i].destination matches Some(d) ==> sensor_id_in_range(d)),
        forall|i: int, j: int|
            0 <= i < j < trains.len() ==> (#[trigger] trains[i]).train != (#[trigger] trains[j]).train,
{
    lemma_positions_ok(trains, trains.len() as int);
}

} // verus!
