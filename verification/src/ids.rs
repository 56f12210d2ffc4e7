//! Typed identifiers with documented numeric ranges (hardware numbering).

use vstd::prelude::*;

verus! {

/// Lowest track segment id.
pub const TRACK_ID_MIN: u8 = 1;
/// Highest track segment id.
pub const TRACK_ID_MAX: u8 = 12;
/// Lowest sensor id.
pub const SENSOR_ID_MIN: u8 = 1;
/// Highest sensor id.
pub const SENSOR_ID_MAX: u8 = 24;
/// Lowest point (and coupler) id.
pub const POINT_ID_MIN: u8 = 1;
/// Highest point (and coupler) id.
pub const POINT_ID_MAX: u8 = 13;

/// Track segment id (1–12).
#[derive(Debug, Clone, Copy, PartialEq, Eq, Hash)]
pub struct TrackId(pub u8);

/// Sensor id (1–24).
#[derive(Debug, Clone, Copy, PartialEq, Eq, Hash)]
pub struct SensorId(pub u8);

/// Point (switch) id (1–13).
#[derive(Debug, Clone, Copy, PartialEq, Eq, Hash)]
pub struct PointId(pub u8);

/// A raw track id is in the hardware range.
pub open spec fn track_id_in_range(raw: u8) -> bool {
    TRACK_ID_MIN <= raw <= TRACK_ID_MAX
}

/// A raw sensor id is in the hardware range.
pub open spec fn sensor_id_in_range(raw: u8) -> bool {
    SENSOR_ID_MIN <= raw <= SENSOR_ID_MAX
}

/// A raw point or coupler id is in the hardware range.
pub open spec fn point_id_in_range(raw: u8) -> bool {
    POINT_ID_MIN <= raw <= POINT_ID_MAX
}

impl TrackId {
    /// Returns `Some(TrackId)` if `raw` is in range.
    pub fn try_new(raw: u8) -> (res: Option<TrackId>)
        ensures
            res == (if track_id_in_range(raw) { Some(TrackId(raw)) } else { None::<TrackId> }),
    {
        if TRACK_ID_MIN <= raw && raw <= TRACK_ID_MAX {
            Some(TrackId(raw))
        } else {
            None
        }
    }
}

impl SensorId {
    /// Returns `Some(SensorId)` if `raw` is in range.
    pub fn try_new(raw: u8) -> (res: Option<SensorId>)
        ensures
            res == (if sensor_id_in_range(raw) { Some(SensorId(raw)) } else { None::<SensorId> }),
    {
        if SENSOR_ID_MIN <= raw && raw <= SENSOR_ID_MAX {
            Some(SensorId(raw))
        } else {
            None
        }
    }
}

impl PointId {
    /// Returns `Some(PointId)` if `raw` is in range.
    pub fn try_new(raw: u8) -> (res: Option<PointId>)
        ensures
            res == (if point_id_in_range(raw) { Some(PointId(raw)) } else { None::<PointId> }),
    {
        if POINT_ID_MIN <= raw && raw <= POINT_ID_MAX {
            Some(PointId(raw))
        } else {
            None
        }
    }
}

} // verus!
