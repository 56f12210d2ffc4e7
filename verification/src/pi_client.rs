//! Vocabulary of the Raspberry Pi track-control API and the client's configuration.
//!
//! The HTTP exchanges themselves happen outside this library; what is here is the data
//! the controller decides on and sends (directions, speeds) and the client's base URL.

use vstd::prelude::*;

verus! {

/// Default base URL for the Pi API.
pub const DEFAULT_PI_URL: &'static str = "http://192.168.1.80:5000";

/// Setting of a point (switch).
#[derive(Debug, Clone, Copy, PartialEq, Eq, Hash, Structural)]
pub enum PointDirection {
    Thru,
    Branch,
}

/// Power state requested for a track segment.
#[derive(Debug, Clone, Copy, PartialEq, Eq, Hash, Structural)]
pub enum TrackDirection {
    Off,
    Fwd,
    Bck,
}

/// Text of a point direction as the Pi API spells it.
pub open spec fn point_direction_text(d: PointDirection) -> Seq<char> {
    match d {
        PointDirection::Thru => "THRU"@,
        PointDirection::Branch => "BRANCH"@,
    }
}

/// Text of a track direction as the Pi API spells it.
pub open spec fn track_direction_text(d: TrackDirection) -> Seq<char> {
    match d {
        TrackDirection::Off => "OFF"@,
        TrackDirection::Fwd => "FWD"@,
        TrackDirection::Bck => "BCK"@,
    }
}

impl PointDirection {
    /// API spelling (`THRU` / `BRANCH`).
    pub fn as_str(&self) -> (s: &'static str)
        ensures
            s@ == point_direction_text(*self),
    {
        match self {
            PointDirection::Thru => "THRU",
            PointDirection::Branch => "BRANCH",
        }
    }
}

impl TrackDirection {
    /// API spelling (`OFF` / `FWD` / `BCK`).
    pub fn as_str(&self) -> (s: &'static str)
        ensures
            s@ == track_direction_text(*self),
    {
        match self {
            TrackDirection::Off => "OFF",
            TrackDirection::Fwd => "FWD",
            TrackDirection::Bck => "BCK",
        }
    }
}


/// One track segment's live state.
#[derive(Debug, Clone, PartialEq, Eq)]
pub struct TrackStatus {
    pub id: String,
    pub direction: String,
    pub speed: u8,
    pub held: bool,
}

/// One point's live state.
#[derive(Debug, Clone, PartialEq, Eq)]
pub struct PointStatus {
    pub id: String,
    pub direction: String,
    pub thru: bool,
}

/// Overall status snapshot from `GET /api/status`; the maps are keyed by the Pi's id text.
#[derive(Debug, Clone, PartialEq, Eq)]
pub struct PiStatus {
    pub tracks: Vec<(String, TrackStatus)>,
    pub points: Vec<(String, PointStatus)>,
    pub sensors: u32,
    pub indicators: Vec<(String, String)>,
}

/// One sensor value from `GET /api/sensors`.
#[derive(Debug, Clone, Copy, PartialEq, Eq)]
pub struct SensorState {
    pub id: u8,
    pub value: bool,
}

/// Errors from Pi API calls.
#[derive(Debug, Clone, PartialEq, Eq)]
pub enum PiError {
    Unreachable(String),
    ApiError(String),
    BadResponse(String),
}

/// Message of a Pi error.
pub open spec fn pi_error_text(e: PiError) -> Seq<char> {
    match e {
        PiError::Unreachable(m) => "Pi unreachable: "@ + m@,
        PiError::ApiError(m) => "Pi returned non-success: "@ + m@,
        PiError::BadResponse(m) => "unexpected response shape: "@ + m@,
    }
}

impl PiError {
    /// The error's message.
    pub fn to_string(&self) -> (s: String)
        ensures
            s@ == pi_error_text(*self),
    {
        let mut s = String::new();
        match self {
            PiError::Unreachable(m) => {
                s.append("Pi unreachable: ");
                s.append(m.as_str());
            },
            PiError::ApiError(m) => {
                s.append("Pi returned non-success: ");
                s.append(m.as_str());
            },
            PiError::BadResponse(m) => {
                s.append("unexpected response shape: ");
                s.append(m.as_str());
            },
        }
        assert(s@ =~= pi_error_text(*self));
        s
    }
}

/// A text without its trailing `/` characters.
pub open spec fn trim_trailing_slashes(s: Seq<char>) -> Seq<char>
    decreases s.len(),
{
    if s.len() > 0 && s.last() == '/' {
        trim_trailing_slashes(s.drop_last())
    } else {
        s
    }
}

/// Where the Pi API is reached; the requests themselves are made outside this library.
#[derive(Debug, Clone)]
pub struct PiClient {
    base_url: String,
}

impl PiClient {
    /// A client for the API at `base_url` (trailing `/` characters removed).
    pub fn new(base_url: &str) -> (c: PiClient)
        ensures
            c.base_url_text() == trim_trailing_slashes(base_url@),
    {
        let mut n = base_url.unicode_len();
        assert(base_url@.take(n as int) =~= base_url@);
        while n > 0 && base_url.get_char(n - 1) == '/'
            invariant
                0 <= n <= base_url@.len(),
                trim_trailing_slashes(base_url@) == trim_trailing_slashes(base_url@.take(n as int)),
            decreases n,
        {
            assert(base_url@.take(n as int).drop_last() =~= base_url@.take(n - 1));
            n = n - 1;
        }
        let kept = base_url.substring_char(0, n);
        assert(kept@ =~= base_url@.take(n as int));
        PiClient { base_url: String::from_str(kept) }
    }

    /// The base URL requests go to.
    pub closed spec fn base_url_text(&self) -> Seq<char> {
        self.base_url@
    }

    /// The base URL requests go to.
    pub fn base_url(&self) -> (s: &String)
        ensures
            s@ == self.base_url_text(),
    {
        &self.base_url
    }
}

impl Default for PiClient {
    fn default() -> (c: PiClient)
        ensures
            c.base_url_text() == trim_trailing_slashes(DEFAULT_PI_URL@),
    {
        PiClient::new(DEFAULT_PI_URL)
    }
}

} // verus!
