//! Validation rules for a [`TrackLayout`]: numeric ranges, uniqueness, connection pairing
//! and reference integrity.
//!
//! Validation stops at the first rule that fails. The order is: version, presence of tracks,
//! track ids, coupler ids, the checks met while walking each track's route tree (ids of
//! sensors, couplers and points, connection peers), ids used both as point and coupler,
//! connection pairing, coupler references, station sensors.

use vstd::prelude::*;

use crate::ids::{
    point_id_in_range, sensor_id_in_range, track_id_in_range, PointId, SensorId, TrackId, POINT_ID_MAX,
    POINT_ID_MIN, SENSOR_ID_MAX, SENSOR_ID_MIN, TRACK_ID_MAX, TRACK_ID_MIN,
};
use crate::text::{debug_quote, debug_text, decimal, push_decimal, push_str};
use crate::graph::{distinct, layout_sensor_list};
use crate::model::{sensors_of_node, sensors_of_nodes, ConnectionRef, CouplerDef, RouteNode, Station, TrackLayout, TrackSegment, TrackSide};

verus! {

/// Layout validation error.
#[derive(Debug, Clone, PartialEq, Eq)]
pub enum LayoutError {
    UnsupportedVersion(u32),
    NoTracks,
    DuplicateTrackId(u8),
    InvalidTrackId(u8),
    DuplicateSensorId(u8),
    InvalidSensorId(u8),
    DuplicatePointOnTrack { track: u8, point: u8 },
    DuplicateCouplerOnTrack { track: u8, coupler: u8 },
    UnknownCouplerOnTrack { track: u8, coupler: u8 },
    DuplicateCouplerId(u8),
    InvalidPointId(u8),
    InvalidCouplerId(u8),
    IdPointAndCoupler(u8),
    UnknownPeerTrack(u8),
    UnknownTrackRef(u8),
    ConnectionEndpointCount { id: u8, count: usize },
    ConnectionNotReciprocal { id: u8 },
    /// Both endpoints of a connection lie on the same track.
    ConnectionSameTrack { id: u8, track: u8 },
    UnknownCouplerRef(u8),
    UnknownStationSensor { name: String, sensor: u8 },
}

/// One check met while walking a route tree.
#[derive(Debug, Clone, Copy, PartialEq, Eq, Structural)]
pub enum RouteCheck {
    /// A sensor node: its id must be in range and not seen before on the layout.
    Sensor(u8),
    /// A coupler node: its id must be in range, listed in the couplers table, and not seen
    /// before on this track.
    Coupler(u8),
    /// A point node: its id must be in range and not seen before on this track.
    Point(u8),
    /// A connection's peer must be a track id in range.
    PeerInRange(u8),
    /// A connection's peer must be a track of the layout.
    PeerKnown(u8),
}

/// Id checks of a node list, in preorder (points: the point, then entry, thru, branch legs).
pub open spec fn nodes_id_checks(nodes: Seq<RouteNode>) -> Seq<RouteCheck>
    decreases nodes,
{
    if nodes.len() == 0 {
        Seq::empty()
    } else {
        nodes_id_checks(nodes.drop_last()) + node_id_checks(nodes.last())
    }
}

/// Id checks of one node, in preorder.
pub open spec fn node_id_checks(node: RouteNode) -> Seq<RouteCheck>
    decreases node,
{
    match node {
        RouteNode::Sensor { id } => seq![RouteCheck::Sensor(id)],
        RouteNode::Coupler { id } => seq![RouteCheck::Coupler(id)],
        RouteNode::Point { id, entry, thru, branch } => seq![RouteCheck::Point(id)] + nodes_id_checks(
            entry.along_fwd@,
        ) + nodes_id_checks(thru.along_fwd@) + nodes_id_checks(branch.along_fwd@),
        RouteNode::Connection { peer_track, .. } => seq![RouteCheck::PeerInRange(peer_track)],
        _ => Seq::empty(),
    }
}

/// Peer checks of the connections in a node list, in preorder.
pub open spec fn nodes_peer_checks(nodes: Seq<RouteNode>) -> Seq<RouteCheck>
    decreases nodes,
{
    if nodes.len() == 0 {
        Seq::empty()
    } else {
        nodes_peer_checks(nodes.drop_last()) + node_peer_checks(nodes.last())
    }
}

/// Peer checks of the connections in one node, in preorder.
pub open spec fn node_peer_checks(node: RouteNode) -> Seq<RouteCheck>
    decreases node,
{
    match node {
        RouteNode::Connection { peer_track, .. } => seq![RouteCheck::PeerKnown(peer_track)],
        RouteNode::Point { entry, thru, branch, .. } => nodes_peer_checks(entry.along_fwd@)
            + nodes_peer_checks(thru.along_fwd@) + nodes_peer_checks(branch.along_fwd@),
        _ => Seq::empty(),
    }
}

/// Checks of a track's route: for each top-level node, its id checks, then its peer checks.
pub open spec fn route_checks(nodes: Seq<RouteNode>) -> Seq<RouteCheck>
    decreases nodes.len(),
{
    if nodes.len() == 0 {
        Seq::empty()
    } else {
        route_checks(nodes.drop_last()) + node_id_checks(nodes.last()) + node_peer_checks(nodes.last())
    }
}

/// Appends the id checks of every node of `nodes`.
fn collect_id_checks_nodes(nodes: &Vec<RouteNode>, out: &mut Vec<RouteCheck>)
    ensures
        final(out)@ == old(out)@ + nodes_id_checks(nodes@),
    decreases nodes@,
{
    let ghost start = out@;
    let n = nodes.len();
    let mut i: usize = 0;
    while i < n
        invariant
            n == nodes@.len(),
            0 <= i <= n,
            out@ == start + nodes_id_checks(nodes@.take(i as int)),
        decreases n - i,
    {
        assert(nodes@.take(i + 1).drop_last() =~= nodes@.take(i as int));
        collect_id_checks(&nodes[i], out);
        i = i + 1;
    }
    assert(nodes@.take(n as int) =~= nodes@);
}

/// Appends the id checks of one node.
fn collect_id_checks(node: &RouteNode, out: &mut Vec<RouteCheck>)
    ensures
        final(out)@ == old(out)@ + node_id_checks(*node),
    decreases node,
{
    let ghost start = out@;
    match node {
        RouteNode::Sensor { id } => {
            out.push(RouteCheck::Sensor(*id));
        },
        RouteNode::Coupler { id } => {
            out.push(RouteCheck::Coupler(*id));
        },
        RouteNode::Point { id, entry, thru, branch } => {
            out.push(RouteCheck::Point(*id));
            collect_id_checks_nodes(&entry.along_fwd, out);
            collect_id_checks_nodes(&thru.along_fwd, out);
            collect_id_checks_nodes(&branch.along_fwd, out);
        },
        RouteNode::Connection { peer_track, .. } => {
            out.push(RouteCheck::PeerInRange(*peer_track));
        },
        _ => {},
    }
    assert(out@ =~= start + node_id_checks(*node));
}

/// Appends the peer checks of every node of `nodes`.
fn collect_peer_checks_nodes(nodes: &Vec<RouteNode>, out: &mut Vec<RouteCheck>)
    ensures
        final(out)@ == old(out)@ + nodes_peer_checks(nodes@),
    decreases nodes@,
{
    let ghost start = out@;
    let n = nodes.len();
    let mut i: usize = 0;
    while i < n
        invariant
            n == nodes@.len(),
            0 <= i <= n,
            out@ == start + nodes_peer_checks(nodes@.take(i as int)),
        decreases n - i,
    {
        assert(nodes@.take(i + 1).drop_last() =~= nodes@.take(i as int));
        collect_peer_checks(&nodes[i], out);
        i = i + 1;
    }
    assert(nodes@.take(n as int) =~= nodes@);
}

/// Appends the peer checks of one node.
fn collect_peer_checks(node: &RouteNode, out: &mut Vec<RouteCheck>)
    ensures
        final(out)@ == old(out)@ + node_peer_checks(*node),
    decreases node,
{
    let ghost start = out@;
    match node {
        RouteNode::Connection { peer_track, .. } => {
            out.push(RouteCheck::PeerKnown(*peer_track));
        },
        RouteNode::Point { entry, thru, branch, .. } => {
            collect_peer_checks_nodes(&entry.along_fwd, out);
            collect_peer_checks_nodes(&thru.along_fwd, out);
            collect_peer_checks_nodes(&branch.along_fwd, out);
        },
        _ => {},
    }
    assert(out@ =~= start + node_peer_checks(*node));
}

/// The checks of a track's route tree.
fn track_route_checks(nodes: &Vec<RouteNode>) -> (out: Vec<RouteCheck>)
    ensures
        out@ == route_checks(nodes@),
{
    let mut out: Vec<RouteCheck> = Vec::new();
    let n = nodes.len();
    let mut i: usize = 0;
    while i < n
        invariant
            n == nodes@.len(),
            0 <= i <= n,
            out@ == route_checks(nodes@.take(i as int)),
        decreases n - i,
    {
        assert(nodes@.take(i + 1).drop_last() =~= nodes@.take(i as int));
        collect_id_checks(&nodes[i], &mut out);
        collect_peer_checks(&nodes[i], &mut out);
        i = i + 1;
    }
    assert(nodes@.take(n as int) =~= nodes@);
    out
}


/// Ids seen so far while walking the route trees.
pub struct ScanState {
    /// Sensors seen anywhere on the layout.
    pub sensors: Set<u8>,
    /// Points seen on the current track.
    pub points_here: Set<u8>,
    /// Couplers seen on the current track.
    pub couplers_here: Set<u8>,
    /// Points seen anywhere on the layout.
    pub points: Set<u8>,
    /// Couplers seen anywhere on the layout.
    pub couplers: Set<u8>,
}

/// The outcome of one check on track `track`: the updated ids seen, or the error.
pub open spec fn check_step(
    c: RouteCheck,
    track: u8,
    st: ScanState,
    track_ids: Set<u8>,
    coupler_ids: Set<u8>,
) -> Result<ScanState, LayoutError> {
    match c {
        RouteCheck::Sensor(id) => if !sensor_id_in_range(id) {
            Err(LayoutError::InvalidSensorId(id))
        } else if st.sensors.contains(id) {
            Err(LayoutError::DuplicateSensorId(id))
        } else {
            Ok(
                ScanState {
                    sensors: st.sensors.insert(id),
                    points_here: st.points_here,
                    couplers_here: st.couplers_here,
                    points: st.points,
                    couplers: st.couplers,
                },
            )
        },
        RouteCheck::Coupler(id) => if !point_id_in_range(id) {
            Err(LayoutError::InvalidCouplerId(id))
        } else if !coupler_ids.contains(id) {
            Err(LayoutError::UnknownCouplerOnTrack { track, coupler: id })
        } else if st.couplers_here.contains(id) {
            Err(LayoutError::DuplicateCouplerOnTrack { track, coupler: id })
        } else {
            Ok(
                ScanState {
                    sensors: st.sensors,
                    points_here: st.points_here,
                    couplers_here: st.couplers_here.insert(id),
                    points: st.points,
                    couplers: st.couplers.insert(id),
                },
            )
        },
        RouteCheck::Point(id) => if !point_id_in_range(id) {
            Err(LayoutError::InvalidPointId(id))
        } else if st.points_here.contains(id) {
            Err(LayoutError::DuplicatePointOnTrack { track, point: id })
        } else {
            Ok(
                ScanState {
                    sensors: st.sensors,
                    points_here: st.points_here.insert(id),
                    couplers_here: st.couplers_here,
                    points: st.points.insert(id),
                    couplers: st.couplers,
                },
            )
        },
        RouteCheck::PeerInRange(p) => if !track_id_in_range(p) {
            Err(LayoutError::UnknownPeerTrack(p))
        } else {
            Ok(st)
        },
        RouteCheck::PeerKnown(p) => if !track_ids.contains(p) {
            Err(LayoutError::UnknownPeerTrack(p))
        } else {
            Ok(st)
        },
    }
}

/// The outcome of a list of checks on track `track`, stopping at the first error.
pub open spec fn scan_checks(
    cs: Seq<RouteCheck>,
    track: u8,
    st: ScanState,
    track_ids: Set<u8>,
    coupler_ids: Set<u8>,
) -> Result<ScanState, LayoutError>
    decreases cs.len(),
{
    if cs.len() == 0 {
        Ok(st)
    } else {
        match scan_checks(cs.drop_last(), track, st, track_ids, coupler_ids) {
            Err(e) => Err(e),
            Ok(s) => check_step(cs.last(), track, s, track_ids, coupler_ids),
        }
    }
}

/// No ids seen yet.
pub open spec fn empty_scan() -> ScanState {
    ScanState {
        sensors: Set::empty(),
        points_here: Set::empty(),
        couplers_here: Set::empty(),
        points: Set::empty(),
        couplers: Set::empty(),
    }
}

/// The outcome of walking the route trees of the first `m` tracks (per-track sets start
/// empty on each track).
pub open spec fn scan_tracks(
    tracks: Seq<TrackSegment>,
    m: int,
    track_ids: Set<u8>,
    coupler_ids: Set<u8>,
) -> Result<ScanState, LayoutError>
    decreases m,
{
    if m <= 0 {
        Ok(empty_scan())
    } else {
        match scan_tracks(tracks, m - 1, track_ids, coupler_ids) {
            Err(e) => Err(e),
            Ok(s) => scan_checks(
                route_checks(tracks[m - 1].along_fwd@),
                tracks[m - 1].id,
                ScanState {
                    sensors: s.sensors,
                    points_here: Set::empty(),
                    couplers_here: Set::empty(),
                    points: s.points,
                    couplers: s.couplers,
                },
                track_ids,
                coupler_ids,
            ),
        }
    }
}

/// The ids whose flag is set.
pub open spec fn flag_set(flags: Seq<bool>) -> Set<u8> {
    Set::new(|x: u8| flags[x as int])
}

/// A table of 256 cleared flags.
fn no_flags() -> (v: Vec<bool>)
    ensures
        v@.len() == 256,
        flag_set(v@) == Set::<u8>::empty(),
{
    let mut v: Vec<bool> = Vec::new();
    let mut i: usize = 0;
    while i < 256
        invariant
            0 <= i <= 256,
            v@.len() == i,
            forall|k: int| 0 <= k < i ==> !v@[k],
        decreases 256 - i,
    {
        v.push(false);
        i = i + 1;
    }
    assert(flag_set(v@) =~= Set::<u8>::empty());
    v
}

/// Sets the flag of `x`.
fn set_flag(v: &mut Vec<bool>, x: u8)
    requires
        old(v)@.len() == 256,
    ensures
        final(v)@.len() == 256,
        flag_set(final(v)@) == flag_set(old(v)@).insert(x),
{
    v.set(x as usize, true);
    assert(flag_set(v@) =~= flag_set(old(v)@).insert(x));
}

/// Flags for the ids of a list.
fn flags_of(ids: &Vec<u8>) -> (v: Vec<bool>)
    ensures
        v@.len() == 256,
        flag_set(v@) == ids@.to_set(),
{
    let mut v = no_flags();
    let mut i: usize = 0;
    while i < ids.len()
        invariant
            0 <= i <= ids@.len(),
            v@.len() == 256,
            flag_set(v@) == ids@.take(i as int).to_set(),
        decreases ids.len() - i,
    {
        set_flag(&mut v, ids[i]);
        proof {
            let a = ids@.take(i + 1);
            let b = ids@.take(i as int);
            assert(a =~= b.push(ids@[i as int]));
            assert forall|y: u8| a.contains(y) <==> (b.contains(y) || y == ids@[i as int]) by {
                if b.contains(y) {
                    let k = choose|k: int| 0 <= k < b.len() && b[k] == y;
                    assert(a[k] == y);
                }
                if a.contains(y) && !b.contains(y) {
                    let k = choose|k: int| 0 <= k < a.len() && a[k] == y;
                    if k < b.len() {
                        assert(b[k] == y);
                    }
                }
                if y == ids@[i as int] {
                    assert(a[i as int] == y);
                }
            }
            assert(flag_set(v@) =~= a.to_set());
        }
        i = i + 1;
    }
    assert(ids@.take(ids.len() as int) =~= ids@);
    v
}

/// Exec form of [`ScanState`].
struct ScanFlags {
    sensors: Vec<bool>,
    points_here: Vec<bool>,
    couplers_here: Vec<bool>,
    points: Vec<bool>,
    couplers: Vec<bool>,
}

impl ScanFlags {
    spec fn wf(&self) -> bool {
        &&& self.sensors@.len() == 256
        &&& self.points_here@.len() == 256
        &&& self.couplers_here@.len() == 256
        &&& self.points@.len() == 256
        &&& self.couplers@.len() == 256
    }

    spec fn state(&self) -> ScanState {
        ScanState {
            sensors: flag_set(self.sensors@),
            points_here: flag_set(self.points_here@),
            couplers_here: flag_set(self.couplers_here@),
            points: flag_set(self.points@),
            couplers: flag_set(self.couplers@),
        }
    }

    /// Performs one check on track `track`.
    fn step(&mut self, c: RouteCheck, track: u8, track_flags: &Vec<bool>, coupler_flags: &Vec<bool>) -> (r: Result<
        (),
        LayoutError,
    >)
        requires
            old(self).wf(),
            track_flags@.len() == 256,
            coupler_flags@.len() == 256,
        ensures
            final(self).wf(),
            match r {
                Ok(()) => check_step(c, track, old(self).state(), flag_set(track_flags@), flag_set(coupler_flags@))
                    == Ok::<ScanState, LayoutError>(final(self).state()),
                Err(e) => check_step(c, track, old(self).state(), flag_set(track_flags@), flag_set(coupler_flags@))
                    == Err::<ScanState, LayoutError>(e),
            },
    {
        match c {
            RouteCheck::Sensor(id) => {
                if SensorId::try_new(id).is_none() {
                    return Err(LayoutError::InvalidSensorId(id));
                }
                if self.sensors[id as usize] {
                    return Err(LayoutError::DuplicateSensorId(id));
                }
                set_flag(&mut self.sensors, id);
            },
            RouteCheck::Coupler(id) => {
                if PointId::try_new(id).is_none() {
                    return Err(LayoutError::InvalidCouplerId(id));
                }
                if !coupler_flags[id as usize] {
                    return Err(LayoutError::UnknownCouplerOnTrack { track, coupler: id });
                }
                if self.couplers_here[id as usize] {
                    return Err(LayoutError::DuplicateCouplerOnTrack { track, coupler: id });
                }
                set_flag(&mut self.couplers_here, id);
                set_flag(&mut self.couplers, id);
            },
            RouteCheck::Point(id) => {
                if PointId::try_new(id).is_none() {
                    return Err(LayoutError::InvalidPointId(id));
                }
                if self.points_here[id as usize] {
                    return Err(LayoutError::DuplicatePointOnTrack { track, point: id });
                }
                set_flag(&mut self.points_here, id);
                set_flag(&mut self.points, id);
            },
            RouteCheck::PeerInRange(p) => {
                if TrackId::try_new(p).is_none() {
                    return Err(LayoutError::UnknownPeerTrack(p));
                }
            },
            RouteCheck::PeerKnown(p) => {
                if !track_flags[p as usize] {
                    return Err(LayoutError::UnknownPeerTrack(p));
                }
            },
        }
        Ok(())
    }
}

/// Walks the route trees of all tracks, stopping at the first failed check.
fn scan_layout_tracks(tracks: &Vec<TrackSegment>, track_flags: &Vec<bool>, coupler_flags: &Vec<bool>) -> (r: Result<
    ScanFlags,
    LayoutError,
>)
    requires
        track_flags@.len() == 256,
        coupler_flags@.len() == 256,
    ensures
        match r {
            Ok(f) => f.wf() && scan_tracks(tracks@, tracks@.len() as int, flag_set(track_flags@), flag_set(coupler_flags@))
                == Ok::<ScanState, LayoutError>(f.state()),
            Err(e) => scan_tracks(tracks@, tracks@.len() as int, flag_set(track_flags@), flag_set(coupler_flags@))
                == Err::<ScanState, LayoutError>(e),
        },
{
    let ghost tids = flag_set(track_flags@);
    let ghost cids = flag_set(coupler_flags@);
    let mut flags = ScanFlags {
        sensors: no_flags(),
        points_here: no_flags(),
        couplers_here: no_flags(),
        points: no_flags(),
        couplers: no_flags(),
    };
    let mut t: usize = 0;
    while t < tracks.len()
        invariant
            0 <= t <= tracks@.len(),
            track_flags@.len() == 256,
            coupler_flags@.len() == 256,
            tids == flag_set(track_flags@),
            cids == flag_set(coupler_flags@),
            flags.wf(),
            scan_tracks(tracks@, t as int, tids, cids) == Ok::<ScanState, LayoutError>(flags.state()),
        decreases tracks.len() - t,
    {
        let ghost prev = flags.state();
        flags.points_here = no_flags();
        flags.couplers_here = no_flags();
        let ghost start = flags.state();
        assert(start == ScanState {
            sensors: prev.sensors,
            points_here: Set::empty(),
            couplers_here: Set::empty(),
            points: prev.points,
            couplers: prev.couplers,
        });
        let track = tracks[t].id;
        let checks = track_route_checks(&tracks[t].along_fwd);
        let mut k: usize = 0;
        while k < checks.len()
            invariant
                0 <= k <= checks@.len(),
                t < tracks@.len(),
                track == tracks@[t as int].id,
                checks@ == route_checks(tracks@[t as int].along_fwd@),
                scan_tracks(tracks@, t as int, tids, cids) == Ok::<ScanState, LayoutError>(prev),
                start == (ScanState {
                    sensors: prev.sensors,
                    points_here: Set::empty(),
                    couplers_here: Set::empty(),
                    points: prev.points,
                    couplers: prev.couplers,
                }),
                track_flags@.len() == 256,
                coupler_flags@.len() == 256,
                tids == flag_set(track_flags@),
                cids == flag_set(coupler_flags@),
                flags.wf(),
                scan_checks(checks@.take(k as int), track, start, tids, cids) == Ok::<ScanState, LayoutError>(
                    flags.state(),
                ),
            decreases checks.len() - k,
        {
            assert(checks@.take(k + 1).drop_last() =~= checks@.take(k as int));
            match flags.step(checks[k], track, track_flags, coupler_flags) {
                Ok(()) => {},
                Err(e) => {
                    proof {
                        lemma_scan_checks_error_stays(checks@, track, start, tids, cids, k + 1);
                        assert(checks@.take(checks@.len() as int) =~= checks@);
                        lemma_scan_tracks_error_stays(tracks@, tids, cids, t + 1, tracks@.len() as int);
                    }
                    return Err(e);
                },
            }
            k = k + 1;
        }
        assert(checks@.take(checks@.len() as int) =~= checks@);
        t = t + 1;
    }
    Ok(flags)
}

/// Once a check has failed, later checks do not change the outcome.
proof fn lemma_scan_checks_error_stays(
    cs: Seq<RouteCheck>,
    track: u8,
    st: ScanState,
    tids: Set<u8>,
    cids: Set<u8>,
    i: int,
)
    requires
        0 <= i <= cs.len(),
        scan_checks(cs.take(i), track, st, tids, cids) is Err,
    ensures
        scan_checks(cs, track, st, tids, cids) == scan_checks(cs.take(i), track, st, tids, cids),
    decreases cs.len() - i,
{
    if i < cs.len() {
        assert(cs.take(i + 1).drop_last() =~= cs.take(i));
        lemma_scan_checks_error_stays(cs, track, st, tids, cids, i + 1);
    } else {
        assert(cs.take(i) =~= cs);
    }
}

/// Once a track has failed, later tracks do not change the outcome.
proof fn lemma_scan_tracks_error_stays(tracks: Seq<TrackSegment>, tids: Set<u8>, cids: Set<u8>, i: int, n: int)
    requires
        0 <= i <= n,
        scan_tracks(tracks, i, tids, cids) is Err,
    ensures
        scan_tracks(tracks, n, tids, cids) == scan_tracks(tracks, i, tids, cids),
    decreases n - i,
{
    if n > i {
        lemma_scan_tracks_error_stays(tracks, tids, cids, i, n - 1);
    }
}


/// The error of track `i` in the track-id pass: an id seen on an earlier track, or one out
/// of range.
pub open spec fn track_id_error(tracks: Seq<TrackSegment>, i: int) -> Option<LayoutError> {
    let id = tracks[i].id;
    if exists|j: int| 0 <= j < i && tracks[j].id == id {
        Some(LayoutError::DuplicateTrackId(id))
    } else if !track_id_in_range(id) {
        Some(LayoutError::InvalidTrackId(id))
    } else {
        None
    }
}

/// The first track-id error among the first `m` tracks.
pub open spec fn first_track_id_error(tracks: Seq<TrackSegment>, m: int) -> Option<LayoutError>
    decreases m,
{
    if m <= 0 {
        None
    } else {
        match first_track_id_error(tracks, m - 1) {
            Some(e) => Some(e),
            None => track_id_error(tracks, m - 1),
        }
    }
}

/// The error of coupler `i` in the coupler-id pass: an id out of range, or one seen on an
/// earlier coupler.
pub open spec fn coupler_id_error(couplers: Seq<CouplerDef>, i: int) -> Option<LayoutError> {
    let id = couplers[i].id;
    if !point_id_in_range(id) {
        Some(LayoutError::InvalidCouplerId(id))
    } else if exists|j: int| 0 <= j < i && couplers[j].id == id {
        Some(LayoutError::DuplicateCouplerId(id))
    } else {
        None
    }
}

/// The first coupler-id error among the first `m` couplers.
pub open spec fn first_coupler_id_error(couplers: Seq<CouplerDef>, m: int) -> Option<LayoutError>
    decreases m,
{
    if m <= 0 {
        None
    } else {
        match first_coupler_id_error(couplers, m - 1) {
            Some(e) => Some(e),
            None => coupler_id_error(couplers, m - 1),
        }
    }
}

/// The track ids of a layout.
pub open spec fn track_id_set(tracks: Seq<TrackSegment>) -> Set<u8> {
    tracks.map_values(|t: TrackSegment| t.id).to_set()
}

/// The coupler ids of a layout.
pub open spec fn coupler_id_set(couplers: Seq<CouplerDef>) -> Set<u8> {
    couplers.map_values(|c: CouplerDef| c.id).to_set()
}

/// The smallest id below `k` that is both a point and a coupler.
pub open spec fn first_common_id(points: Set<u8>, couplers: Set<u8>, k: int) -> Option<u8>
    decreases k,
{
    if k <= 0 {
        None
    } else {
        match first_common_id(points, couplers, k - 1) {
            Some(x) => Some(x),
            None => if points.contains((k - 1) as u8) && couplers.contains((k - 1) as u8) {
                Some((k - 1) as u8)
            } else {
                None
            },
        }
    }
}

/// The first track-id error of the layout.
fn check_track_ids(tracks: &Vec<TrackSegment>) -> (r: Option<LayoutError>)
    ensures
        r == first_track_id_error(tracks@, tracks@.len() as int),
{
    let mut i: usize = 0;
    while i < tracks.len()
        invariant
            0 <= i <= tracks@.len(),
            first_track_id_error(tracks@, i as int) is None,
        decreases tracks.len() - i,
    {
        let id = tracks[i].id;
        let mut j: usize = 0;
        while j < i
            invariant
                0 <= j <= i < tracks@.len(),
                id == tracks@[i as int].id,
                first_track_id_error(tracks@, i as int) is None,
                forall|k: int| 0 <= k < j ==> tracks@[k].id != id,
            decreases i - j,
        {
            if tracks[j].id == id {
                proof {
                    assert(tracks@[j as int].id == id);
                    lemma_first_error_stays_track(tracks@, i + 1, tracks@.len() as int);
                }
                return Some(LayoutError::DuplicateTrackId(id));
            }
            j = j + 1;
        }
        if TrackId::try_new(id).is_none() {
            proof {
                lemma_first_error_stays_track(tracks@, i + 1, tracks@.len() as int);
            }
            return Some(LayoutError::InvalidTrackId(id));
        }
        i = i + 1;
    }
    None
}

/// Once a track-id error is found, later tracks do not change it.
proof fn lemma_first_error_stays_track(tracks: Seq<TrackSegment>, i: int, n: int)
    requires
        0 <= i <= n,
        first_track_id_error(tracks, i) is Some,
    ensures
        first_track_id_error(tracks, n) == first_track_id_error(tracks, i),
    decreases n - i,
{
    if n > i {
        lemma_first_error_stays_track(tracks, i, n - 1);
    }
}

/// The first coupler-id error of the layout.
fn check_coupler_ids(couplers: &Vec<CouplerDef>) -> (r: Option<LayoutError>)
    ensures
        r == first_coupler_id_error(couplers@, couplers@.len() as int),
{
    let mut i: usize = 0;
    while i < couplers.len()
        invariant
            0 <= i <= couplers@.len(),
            first_coupler_id_error(couplers@, i as int) is None,
        decreases couplers.len() - i,
    {
        let id = couplers[i].id;
        if PointId::try_new(id).is_none() {
            proof {
                lemma_first_error_stays_coupler(couplers@, i + 1, couplers@.len() as int);
            }
            return Some(LayoutError::InvalidCouplerId(id));
        }
        let mut j: usize = 0;
        while j < i
            invariant
                0 <= j <= i < couplers@.len(),
                id == couplers@[i as int].id,
                point_id_in_range(id),
                first_coupler_id_error(couplers@, i as int) is None,
                forall|k: int| 0 <= k < j ==> couplers@[k].id != id,
            decreases i - j,
        {
            if couplers[j].id == id {
                proof {
                    assert(couplers@[j as int].id == id);
                    lemma_first_error_stays_coupler(couplers@, i + 1, couplers@.len() as int);
                }
                return Some(LayoutError::DuplicateCouplerId(id));
            }
            j = j + 1;
        }
        i = i + 1;
    }
    None
}

/// Once a coupler-id error is found, later couplers do not change it.
proof fn lemma_first_error_stays_coupler(couplers: Seq<CouplerDef>, i: int, n: int)
    requires
        0 <= i <= n,
        first_coupler_id_error(couplers, i) is Some,
    ensures
        first_coupler_id_error(couplers, n) == first_coupler_id_error(couplers, i),
    decreases n - i,
{
    if n > i {
        lemma_first_error_stays_coupler(couplers, i, n - 1);
    }
}

/// Flags for the track ids of a layout.
fn track_flags_of(tracks: &Vec<TrackSegment>) -> (v: Vec<bool>)
    ensures
        v@.len() == 256,
        flag_set(v@) == track_id_set(tracks@),
{
    let mut ids: Vec<u8> = Vec::new();
    let mut i: usize = 0;
    while i < tracks.len()
        invariant
            0 <= i <= tracks@.len(),
            ids@ == tracks@.take(i as int).map_values(|t: TrackSegment| t.id),
        decreases tracks.len() - i,
    {
        ids.push(tracks[i].id);
        i = i + 1;
        assert(ids@ =~= tracks@.take(i as int).map_values(|t: TrackSegment| t.id));
    }
    assert(tracks@.take(tracks.len() as int) =~= tracks@);
    flags_of(&ids)
}

/// Flags for the coupler ids of a layout.
fn coupler_flags_of(couplers: &Vec<CouplerDef>) -> (v: Vec<bool>)
    ensures
        v@.len() == 256,
        flag_set(v@) == coupler_id_set(couplers@),
{
    let mut ids: Vec<u8> = Vec::new();
    let mut i: usize = 0;
    while i < couplers.len()
        invariant
            0 <= i <= couplers@.len(),
            ids@ == couplers@.take(i as int).map_values(|c: CouplerDef| c.id),
        decreases couplers.len() - i,
    {
        ids.push(couplers[i].id);
        i = i + 1;
        assert(ids@ =~= couplers@.take(i as int).map_values(|c: CouplerDef| c.id));
    }
    assert(couplers@.take(couplers.len() as int) =~= couplers@);
    flags_of(&ids)
}

/// The smallest id that is both a point and a coupler.
fn common_id(points: &Vec<bool>, couplers: &Vec<bool>) -> (r: Option<u8>)
    requires
        points@.len() == 256,
        couplers@.len() == 256,
    ensures
        r == first_common_id(flag_set(points@), flag_set(couplers@), 256),
{
    let ghost ps = flag_set(points@);
    let ghost cs = flag_set(couplers@);
    let mut k: u16 = 0;
    while k < 256
        invariant
            0 <= k <= 256,
            points@.len() == 256,
            couplers@.len() == 256,
            ps == flag_set(points@),
            cs == flag_set(couplers@),
            first_common_id(ps, cs, k as int) is None,
        decreases 256 - k,
    {
        if points[k as usize] && couplers[k as usize] {
            proof {
                assert(ps.contains(k as u8) && cs.contains(k as u8));
                lemma_first_common_stays(ps, cs, k + 1, 256);
            }
            return Some(k as u8);
        }
        assert(!(ps.contains(k as u8) && cs.contains(k as u8)));
        k = k + 1;
    }
    None
}

/// Once a common id is found, larger bounds do not change it.
proof fn lemma_first_common_stays(ps: Set<u8>, cs: Set<u8>, i: int, n: int)
    requires
        0 <= i <= n,
        first_common_id(ps, cs, i) is Some,
    ensures
        first_common_id(ps, cs, n) == first_common_id(ps, cs, i),
    decreases n - i,
{
    if n > i {
        lemma_first_common_stays(ps, cs, i, n - 1);
    }
}


/// One endpoint of a connection: the track whose route holds it and the peer port it uses.
#[derive(Debug, Clone, Copy, PartialEq, Eq, Structural)]
pub struct ConnEnd {
    pub id: u8,
    pub this_track: u8,
    pub peer_track: u8,
    pub peer_side: TrackSide,
}

/// Connection endpoints of a node list on track `track`, in preorder.
pub open spec fn nodes_conn_ends(track: u8, nodes: Seq<RouteNode>) -> Seq<ConnEnd>
    decreases nodes,
{
    if nodes.len() == 0 {
        Seq::empty()
    } else {
        nodes_conn_ends(track, nodes.drop_last()) + node_conn_ends(track, nodes.last())
    }
}

/// Connection endpoints of one node on track `track`, in preorder.
pub open spec fn node_conn_ends(track: u8, node: RouteNode) -> Seq<ConnEnd>
    decreases node,
{
    match node {
        RouteNode::Connection { id, peer_track, peer_side } => seq![
            ConnEnd { id, this_track: track, peer_track, peer_side },
        ],
        RouteNode::Point { entry, thru, branch, .. } => nodes_conn_ends(track, entry.along_fwd@)
            + nodes_conn_ends(track, thru.along_fwd@) + nodes_conn_ends(track, branch.along_fwd@),
        _ => Seq::empty(),
    }
}

/// Connection endpoints of the first `m` tracks, in layout order.
pub open spec fn layout_conn_ends(tracks: Seq<TrackSegment>, m: int) -> Seq<ConnEnd>
    decreases m,
{
    if m <= 0 {
        Seq::empty()
    } else {
        layout_conn_ends(tracks, m - 1) + nodes_conn_ends(tracks[m - 1].id, tracks[m - 1].along_fwd@)
    }
}

/// The distinct endpoints of connection `id`, in order of first appearance.
pub open spec fn conn_group(ends: Seq<ConnEnd>, id: u8) -> Seq<ConnEnd>
    decreases ends.len(),
{
    if ends.len() == 0 {
        Seq::empty()
    } else {
        let g = conn_group(ends.drop_last(), id);
        let e = ends.last();
        if e.id == id && !g.contains(e) {
            g.push(e)
        } else {
            g
        }
    }
}

/// The error of connection `id`: it must have exactly two distinct endpoints, on two
/// different tracks, whose peers are tracks of the layout and which point at each other's
/// tracks. An id with no
/// endpoint is not a connection and has no error.
pub open spec fn group_error(ends: Seq<ConnEnd>, id: u8, track_ids: Set<u8>) -> Option<LayoutError> {
    let g = conn_group(ends, id);
    if g.len() == 0 {
        None
    } else if g.len() != 2 {
        Some(LayoutError::ConnectionEndpointCount { id, count: g.len() as usize })
    } else if g[0].this_track == g[1].this_track {
        Some(LayoutError::ConnectionSameTrack { id, track: g[0].this_track })
    } else if !track_ids.contains(g[0].peer_track) || !track_ids.contains(g[1].peer_track) {
        Some(LayoutError::UnknownPeerTrack(g[0].peer_track))
    } else if g[0].this_track != g[1].peer_track || g[0].peer_track != g[1].this_track {
        Some(LayoutError::ConnectionNotReciprocal { id })
    } else {
        None
    }
}

/// The first connection error among ids below `k`, in ascending id order.
pub open spec fn first_group_error(ends: Seq<ConnEnd>, track_ids: Set<u8>, k: int) -> Option<LayoutError>
    decreases k,
{
    if k <= 0 {
        None
    } else {
        match first_group_error(ends, track_ids, k - 1) {
            Some(e) => Some(e),
            None => group_error(ends, (k - 1) as u8, track_ids),
        }
    }
}

/// Appends the connection endpoints of a node list on track `track`.
fn collect_conn_ends_nodes(track: u8, nodes: &Vec<RouteNode>, out: &mut Vec<ConnEnd>)
    ensures
        final(out)@ == old(out)@ + nodes_conn_ends(track, nodes@),
    decreases nodes@,
{
    let ghost start = out@;
    let n = nodes.len();
    let mut i: usize = 0;
    while i < n
        invariant
            n == nodes@.len(),
            0 <= i <= n,
            out@ == start + nodes_conn_ends(track, nodes@.take(i as int)),
        decreases n - i,
    {
        assert(nodes@.take(i + 1).drop_last() =~= nodes@.take(i as int));
        collect_conn_ends(track, &nodes[i], out);
        i = i + 1;
    }
    assert(nodes@.take(n as int) =~= nodes@);
}

/// Appends the connection endpoints of one node on track `track`.
fn collect_conn_ends(track: u8, node: &RouteNode, out: &mut Vec<ConnEnd>)
    ensures
        final(out)@ == old(out)@ + node_conn_ends(track, *node),
    decreases node,
{
    let ghost start = out@;
    match node {
        RouteNode::Connection { id, peer_track, peer_side } => {
            out.push(ConnEnd { id: *id, this_track: track, peer_track: *peer_track, peer_side: *peer_side });
        },
        RouteNode::Point { entry, thru, branch, .. } => {
            collect_conn_ends_nodes(track, &entry.along_fwd, out);
            collect_conn_ends_nodes(track, &thru.along_fwd, out);
            collect_conn_ends_nodes(track, &branch.along_fwd, out);
        },
        _ => {},
    }
    assert(out@ =~= start + node_conn_ends(track, *node));
}

/// All connection endpoints of the layout.
fn all_conn_ends(tracks: &Vec<TrackSegment>) -> (out: Vec<ConnEnd>)
    ensures
        out@ == layout_conn_ends(tracks@, tracks@.len() as int),
{
    let mut out: Vec<ConnEnd> = Vec::new();
    let mut t: usize = 0;
    while t < tracks.len()
        invariant
            0 <= t <= tracks@.len(),
            out@ == layout_conn_ends(tracks@, t as int),
        decreases tracks.len() - t,
    {
        collect_conn_ends_nodes(tracks[t].id, &tracks[t].along_fwd, &mut out);
        t = t + 1;
    }
    out
}

/// `v` holds `x`.
fn contains_end(v: &Vec<ConnEnd>, x: ConnEnd) -> (r: bool)
    ensures
        r == v@.contains(x),
{
    let mut i: usize = 0;
    while i < v.len()
        invariant
            0 <= i <= v@.len(),
            forall|k: int| 0 <= k < i ==> v@[k] != x,
        decreases v.len() - i,
    {
        if v[i] == x {
            return true;
        }
        i = i + 1;
    }
    false
}

/// The distinct endpoints of connection `id`.
fn group_of(ends: &Vec<ConnEnd>, id: u8) -> (g: Vec<ConnEnd>)
    ensures
        g@ == conn_group(ends@, id),
{
    let mut g: Vec<ConnEnd> = Vec::new();
    let mut i: usize = 0;
    while i < ends.len()
        invariant
            0 <= i <= ends@.len(),
            g@ == conn_group(ends@.take(i as int), id),
        decreases ends.len() - i,
    {
        assert(ends@.take(i + 1).drop_last() =~= ends@.take(i as int));
        let e = ends[i];
        if e.id == id && !contains_end(&g, e) {
            g.push(e);
        }
        i = i + 1;
    }
    assert(ends@.take(ends.len() as int) =~= ends@);
    g
}

/// The first connection error, in ascending id order.
fn check_connections(ends: &Vec<ConnEnd>, track_flags: &Vec<bool>) -> (r: Option<LayoutError>)
    requires
        track_flags@.len() == 256,
    ensures
        r == first_group_error(ends@, flag_set(track_flags@), 256),
{
    let ghost tids = flag_set(track_flags@);
    let mut k: u16 = 0;
    while k < 256
        invariant
            0 <= k <= 256,
            track_flags@.len() == 256,
            tids == flag_set(track_flags@),
            first_group_error(ends@, tids, k as int) is None,
        decreases 256 - k,
    {
        let id = k as u8;
        let g = group_of(ends, id);
        let mut err: Option<LayoutError> = None;
        if g.len() != 0 {
            if g.len() != 2 {
                err = Some(LayoutError::ConnectionEndpointCount { id, count: g.len() });
            } else {
                let a = g[0];
                let b = g[1];
                if a.this_track == b.this_track {
                    err = Some(LayoutError::ConnectionSameTrack { id, track: a.this_track });
                } else if !track_flags[a.peer_track as usize] || !track_flags[b.peer_track as usize] {
                    err = Some(LayoutError::UnknownPeerTrack(a.peer_track));
                } else if a.this_track != b.peer_track || a.peer_track != b.this_track {
                    err = Some(LayoutError::ConnectionNotReciprocal { id });
                }
            }
        }
        assert(err == group_error(ends@, id, tids));
        if err.is_some() {
            proof {
                lemma_first_group_error_stays(ends@, tids, k + 1, 256);
            }
            return err;
        }
        k = k + 1;
    }
    None
}

/// Once a connection error is found, larger bounds do not change it.
proof fn lemma_first_group_error_stays(ends: Seq<ConnEnd>, tids: Set<u8>, i: int, n: int)
    requires
        0 <= i <= n,
        first_group_error(ends, tids, i) is Some,
    ensures
        first_group_error(ends, tids, n) == first_group_error(ends, tids, i),
    decreases n - i,
{
    if n > i {
        lemma_first_group_error_stays(ends, tids, i, n - 1);
    }
}


/// The error of one leg reference of a coupler.
pub open spec fn ref_error(r: ConnectionRef, track_ids: Set<u8>, coupler_ids: Set<u8>) -> Option<LayoutError> {
    match r {
        ConnectionRef::TrackPort { track, .. } => if !track_id_in_range(track) {
            Some(LayoutError::InvalidTrackId(track))
        } else if !track_ids.contains(track) {
            Some(LayoutError::UnknownTrackRef(track))
        } else {
            None
        },
        ConnectionRef::CouplerLeg { coupler, .. } => if !point_id_in_range(coupler) {
            Some(LayoutError::InvalidCouplerId(coupler))
        } else if !coupler_ids.contains(coupler) {
            Some(LayoutError::UnknownCouplerRef(coupler))
        } else {
            None
        },
    }
}

/// `a` if it holds an error, else `b`.
pub open spec fn first_of(a: Option<LayoutError>, b: Option<LayoutError>) -> Option<LayoutError> {
    match a {
        Some(_) => a,
        None => b,
    }
}

/// The first error among the four legs of a coupler (entry A, thru A, entry B, thru B).
pub open spec fn coupler_ref_error(c: CouplerDef, track_ids: Set<u8>, coupler_ids: Set<u8>) -> Option<LayoutError> {
    first_of(
        ref_error(c.entry_a, track_ids, coupler_ids),
        first_of(
            ref_error(c.thru_a, track_ids, coupler_ids),
            first_of(ref_error(c.entry_b, track_ids, coupler_ids), ref_error(c.thru_b, track_ids, coupler_ids)),
        ),
    )
}

/// The first leg-reference error among the first `m` couplers.
pub open spec fn first_ref_error(
    couplers: Seq<CouplerDef>,
    m: int,
    track_ids: Set<u8>,
    coupler_ids: Set<u8>,
) -> Option<LayoutError>
    decreases m,
{
    if m <= 0 {
        None
    } else {
        first_of(
            first_ref_error(couplers, m - 1, track_ids, coupler_ids),
            coupler_ref_error(couplers[m - 1], track_ids, coupler_ids),
        )
    }
}

/// The error of sensor `s` listed by a station named `name`.
pub open spec fn station_sensor_error(name: String, s: u8, sensors: Set<u8>) -> Option<LayoutError> {
    if !sensor_id_in_range(s) {
        Some(LayoutError::InvalidSensorId(s))
    } else if !sensors.contains(s) {
        Some(LayoutError::UnknownStationSensor { name, sensor: s })
    } else {
        None
    }
}

/// The first error among the first `k` sensors of a station.
pub open spec fn station_error_upto(st: Station, k: int, sensors: Set<u8>) -> Option<LayoutError>
    decreases k,
{
    if k <= 0 {
        None
    } else {
        first_of(
            station_error_upto(st, k - 1, sensors),
            station_sensor_error(st.name, st.sensor_ids@[k - 1], sensors),
        )
    }
}

/// The first station error among the first `m` stations.
pub open spec fn first_station_error(stations: Seq<Station>, m: int, sensors: Set<u8>) -> Option<LayoutError>
    decreases m,
{
    if m <= 0 {
        None
    } else {
        first_of(
            first_station_error(stations, m - 1, sensors),
            station_error_upto(stations[m - 1], stations[m - 1].sensor_ids@.len() as int, sensors),
        )
    }
}

/// The outcome of validating a layout: the first rule that fails, in the order of the
/// passes, or success.
pub open spec fn validate_spec(layout: TrackLayout) -> Result<(), LayoutError> {
    let tracks = layout.tracks@;
    let couplers = layout.couplers@;
    let tids = track_id_set(tracks);
    let cids = coupler_id_set(couplers);
    if layout.version != 2 {
        Err(LayoutError::UnsupportedVersion(layout.version))
    } else if tracks.len() == 0 {
        Err(LayoutError::NoTracks)
    } else if let Some(e) = first_track_id_error(tracks, tracks.len() as int) {
        Err(e)
    } else if let Some(e) = first_coupler_id_error(couplers, couplers.len() as int) {
        Err(e)
    } else {
        match scan_tracks(tracks, tracks.len() as int, tids, cids) {
            Err(e) => Err(e),
            Ok(st) => if let Some(x) = first_common_id(st.points, st.couplers, 256) {
                Err(LayoutError::IdPointAndCoupler(x))
            } else if let Some(e) = first_group_error(layout_conn_ends(tracks, tracks.len() as int), tids, 256) {
                Err(e)
            } else if let Some(e) = first_ref_error(couplers, couplers.len() as int, tids, cids) {
                Err(e)
            } else if let Some(e) = first_station_error(layout.stations@, layout.stations@.len() as int, st.sensors) {
                Err(e)
            } else {
                Ok(())
            },
        }
    }
}

/// The error of one leg reference of a coupler.
fn check_ref(r: &ConnectionRef, track_flags: &Vec<bool>, coupler_flags: &Vec<bool>) -> (e: Option<LayoutError>)
    requires
        track_flags@.len() == 256,
        coupler_flags@.len() == 256,
    ensures
        e == ref_error(*r, flag_set(track_flags@), flag_set(coupler_flags@)),
{
    match r {
        ConnectionRef::TrackPort { track, .. } => {
            if TrackId::try_new(*track).is_none() {
                Some(LayoutError::InvalidTrackId(*track))
            } else if !track_flags[*track as usize] {
                Some(LayoutError::UnknownTrackRef(*track))
            } else {
                None
            }
        },
        ConnectionRef::CouplerLeg { coupler, .. } => {
            if PointId::try_new(*coupler).is_none() {
                Some(LayoutError::InvalidCouplerId(*coupler))
            } else if !coupler_flags[*coupler as usize] {
                Some(LayoutError::UnknownCouplerRef(*coupler))
            } else {
                None
            }
        },
    }
}

/// The first leg-reference error of the couplers.
fn check_coupler_refs(couplers: &Vec<CouplerDef>, track_flags: &Vec<bool>, coupler_flags: &Vec<bool>) -> (r: Option<
    LayoutError,
>)
    requires
        track_flags@.len() == 256,
        coupler_flags@.len() == 256,
    ensures
        r == first_ref_error(couplers@, couplers@.len() as int, flag_set(track_flags@), flag_set(coupler_flags@)),
{
    let ghost tids = flag_set(track_flags@);
    let ghost cids = flag_set(coupler_flags@);
    let mut i: usize = 0;
    while i < couplers.len()
        invariant
            0 <= i <= couplers@.len(),
            track_flags@.len() == 256,
            coupler_flags@.len() == 256,
            tids == flag_set(track_flags@),
            cids == flag_set(coupler_flags@),
            first_ref_error(couplers@, i as int, tids, cids) is None,
        decreases couplers.len() - i,
    {
        let c = &couplers[i];
        let mut e = check_ref(&c.entry_a, track_flags, coupler_flags);
        if e.is_none() {
            e = check_ref(&c.thru_a, track_flags, coupler_flags);
        }
        if e.is_none() {
            e = check_ref(&c.entry_b, track_flags, coupler_flags);
        }
        if e.is_none() {
            e = check_ref(&c.thru_b, track_flags, coupler_flags);
        }
        assert(e == coupler_ref_error(couplers@[i as int], tids, cids));
        if e.is_some() {
            proof {
                lemma_first_ref_error_stays(couplers@, tids, cids, i + 1, couplers@.len() as int);
            }
            return e;
        }
        i = i + 1;
    }
    None
}

/// Once a leg-reference error is found, later couplers do not change it.
proof fn lemma_first_ref_error_stays(couplers: Seq<CouplerDef>, tids: Set<u8>, cids: Set<u8>, i: int, n: int)
    requires
        0 <= i <= n,
        first_ref_error(couplers, i, tids, cids) is Some,
    ensures
        first_ref_error(couplers, n, tids, cids) == first_ref_error(couplers, i, tids, cids),
    decreases n - i,
{
    if n > i {
        lemma_first_ref_error_stays(couplers, tids, cids, i, n - 1);
    }
}

/// The first station error.
fn check_stations(stations: &Vec<Station>, sensor_flags: &Vec<bool>) -> (r: Option<LayoutError>)
    requires
        sensor_flags@.len() == 256,
    ensures
        r == first_station_error(stations@, stations@.len() as int, flag_set(sensor_flags@)),
{
    let ghost seen = flag_set(sensor_flags@);
    let mut i: usize = 0;
    while i < stations.len()
        invariant
            0 <= i <= stations@.len(),
            sensor_flags@.len() == 256,
            seen == flag_set(sensor_flags@),
            first_station_error(stations@, i as int, seen) is None,
        decreases stations.len() - i,
    {
        let st = &stations[i];
        let mut k: usize = 0;
        while k < st.sensor_ids.len()
            invariant
                0 <= k <= st.sensor_ids@.len(),
                i < stations@.len(),
                *st == stations@[i as int],
                sensor_flags@.len() == 256,
                seen == flag_set(sensor_flags@),
                first_station_error(stations@, i as int, seen) is None,
                station_error_upto(*st, k as int, seen) is None,
            decreases st.sensor_ids.len() - k,
        {
            let s = st.sensor_ids[k];
            let mut e: Option<LayoutError> = None;
            if SensorId::try_new(s).is_none() {
                e = Some(LayoutError::InvalidSensorId(s));
            } else if !sensor_flags[s as usize] {
                e = Some(LayoutError::UnknownStationSensor { name: st.name.clone(), sensor: s });
            }
            assert(e == station_sensor_error(st.name, s, seen));
            if e.is_some() {
                proof {
                    lemma_station_error_stays(*st, seen, k + 1, st.sensor_ids@.len() as int);
                    lemma_first_station_error_stays(stations@, seen, i + 1, stations@.len() as int);
                }
                return e;
            }
            k = k + 1;
        }
        i = i + 1;
    }
    None
}

/// Once a sensor error is found, later sensors of the station do not change it.
proof fn lemma_station_error_stays(st: Station, seen: Set<u8>, i: int, n: int)
    requires
        0 <= i <= n,
        station_error_upto(st, i, seen) is Some,
    ensures
        station_error_upto(st, n, seen) == station_error_upto(st, i, seen),
    decreases n - i,
{
    if n > i {
        lemma_station_error_stays(st, seen, i, n - 1);
    }
}

/// Once a station error is found, later stations do not change it.
proof fn lemma_first_station_error_stays(stations: Seq<Station>, seen: Set<u8>, i: int, n: int)
    requires
        0 <= i <= n,
        first_station_error(stations, i, seen) is Some,
    ensures
        first_station_error(stations, n, seen) == first_station_error(stations, i, seen),
    decreases n - i,
{
    if n > i {
        lemma_first_station_error_stays(stations, seen, i, n - 1);
    }
}

impl TrackLayout {
    /// Validates numeric ranges, uniqueness, connection pairing and reference integrity,
    /// and returns the first rule that fails (see [`validate_spec`]).
    pub fn validate(&self) -> (r: Result<(), LayoutError>)
        ensures
            r == validate_spec(*self),
    {
        if self.version != 2 {
            return Err(LayoutError::UnsupportedVersion(self.version));
        }
        if self.tracks.len() == 0 {
            return Err(LayoutError::NoTracks);
        }
        if let Some(e) = check_track_ids(&self.tracks) {
            return Err(e);
        }
        if let Some(e) = check_coupler_ids(&self.couplers) {
            return Err(e);
        }
        let track_flags = track_flags_of(&self.tracks);
        let coupler_flags = coupler_flags_of(&self.couplers);
        let scan = match scan_layout_tracks(&self.tracks, &track_flags, &coupler_flags) {
            Ok(f) => f,
            Err(e) => {
                return Err(e);
            },
        };
        if let Some(x) = common_id(&scan.points, &scan.couplers) {
            return Err(LayoutError::IdPointAndCoupler(x));
        }
        let ends = all_conn_ends(&self.tracks);
        if let Some(e) = check_connections(&ends, &track_flags) {
            return Err(e);
        }
        if let Some(e) = check_coupler_refs(&self.couplers, &track_flags, &coupler_flags) {
            return Err(e);
        }
        if let Some(e) = check_stations(&self.stations, &scan.sensors) {
            return Err(e);
        }
        Ok(())
    }
}


/// Message of a layout error.
pub open spec fn layout_error_text(e: LayoutError) -> Seq<char> {
    match e {
        LayoutError::UnsupportedVersion(v) => "unsupported layout version: "@ + decimal(v as nat) + " (expected 2)"@,
        LayoutError::NoTracks => "no track segments defined"@,
        LayoutError::DuplicateTrackId(id) => "duplicate track id: "@ + decimal(id as nat),
        LayoutError::InvalidTrackId(id) => "invalid track id "@ + decimal(id as nat) + ": must be "@ + decimal(
            TRACK_ID_MIN as nat,
        ) + "..="@ + decimal(TRACK_ID_MAX as nat),
        LayoutError::DuplicateSensorId(id) => "duplicate sensor id "@ + decimal(id as nat) + " across tracks"@,
        LayoutError::InvalidSensorId(id) => "invalid sensor id "@ + decimal(id as nat) + ": must be "@ + decimal(
            SENSOR_ID_MIN as nat,
        ) + "..="@ + decimal(SENSOR_ID_MAX as nat),
        LayoutError::DuplicatePointOnTrack { track, point } => "track "@ + decimal(track as nat) + " lists point id "@
            + decimal(point as nat) + " more than once in its route tree"@,
        LayoutError::DuplicateCouplerOnTrack { track, coupler } => "track "@ + decimal(track as nat)
            + " lists coupler id "@ + decimal(coupler as nat) + " more than once in its route tree"@,
        LayoutError::UnknownCouplerOnTrack { track, coupler } => "track "@ + decimal(track as nat)
            + " references unknown coupler id "@ + decimal(coupler as nat),
        LayoutError::DuplicateCouplerId(id) => "duplicate coupler id in couplers list: "@ + decimal(id as nat),
        LayoutError::InvalidPointId(id) => "invalid point id "@ + decimal(id as nat) + ": must be "@ + decimal(
            POINT_ID_MIN as nat,
        ) + "..="@ + decimal(POINT_ID_MAX as nat),
        LayoutError::InvalidCouplerId(id) => "invalid coupler id "@ + decimal(id as nat) + ": must be "@ + decimal(
            POINT_ID_MIN as nat,
        ) + "..="@ + decimal(POINT_ID_MAX as nat),
        LayoutError::IdPointAndCoupler(id) => "id "@ + decimal(id as nat)
            + " is used as both a point and a coupler on the same layout"@,
        LayoutError::UnknownPeerTrack(id) => "connection references unknown peer track "@ + decimal(id as nat),
        LayoutError::UnknownTrackRef(id) => "connection references unknown track id "@ + decimal(id as nat),
        LayoutError::ConnectionEndpointCount { id, count } => "connection id "@ + decimal(id as nat)
            + ": expected exactly 2 endpoints, found "@ + decimal(count as nat),
        LayoutError::ConnectionNotReciprocal { id } => "connection id "@ + decimal(id as nat)
            + ": endpoints are not reciprocal between the two tracks"@,
        LayoutError::ConnectionSameTrack { id, track } => "connection id "@ + decimal(id as nat)
            + ": both endpoints are on track "@ + decimal(track as nat),
        LayoutError::UnknownCouplerRef(id) => "connection references unknown coupler id "@ + decimal(id as nat),
        LayoutError::UnknownStationSensor { name, sensor } => "station "@ + debug_text(name@)
            + " references unknown sensor id "@ + decimal(sensor as nat),
    }
}

/// Appends ": must be MIN..=MAX".
fn push_range(s: &mut String, min: u8, max: u8)
    ensures
        final(s)@ == old(s)@ + ": must be "@ + decimal(min as nat) + "..="@ + decimal(max as nat),
{
    push_str(s, ": must be ");
    push_decimal(s, min as u64);
    push_str(s, "..=");
    push_decimal(s, max as u64);
    assert(s@ =~= old(s)@ + ": must be "@ + decimal(min as nat) + "..="@ + decimal(max as nat));
}

impl LayoutError {
    /// The error's message.
    #[verifier::rlimit(40)]
    pub fn to_string(&self) -> (s: String)
        ensures
            s@ == layout_error_text(*self),
    {
        let mut s = String::new();
        match self {
            LayoutError::UnsupportedVersion(v) => {
                push_str(&mut s, "unsupported layout version: ");
                push_decimal(&mut s, *v as u64);
                push_str(&mut s, " (expected 2)");
            },
            LayoutError::NoTracks => {
                push_str(&mut s, "no track segments defined");
            },
            LayoutError::DuplicateTrackId(id) => {
                push_str(&mut s, "duplicate track id: ");
                push_decimal(&mut s, *id as u64);
            },
            LayoutError::InvalidTrackId(id) => {
                push_str(&mut s, "invalid track id ");
                push_decimal(&mut s, *id as u64);
                push_range(&mut s, TRACK_ID_MIN, TRACK_ID_MAX);
            },
            LayoutError::DuplicateSensorId(id) => {
                push_str(&mut s, "duplicate sensor id ");
                push_decimal(&mut s, *id as u64);
                push_str(&mut s, " across tracks");
            },
            LayoutError::InvalidSensorId(id) => {
                push_str(&mut s, "invalid sensor id ");
                push_decimal(&mut s, *id as u64);
                push_range(&mut s, SENSOR_ID_MIN, SENSOR_ID_MAX);
            },
            LayoutError::DuplicatePointOnTrack { track, point } => {
                push_str(&mut s, "track ");
                push_decimal(&mut s, *track as u64);
                push_str(&mut s, " lists point id ");
                push_decimal(&mut s, *point as u64);
                push_str(&mut s, " more than once in its route tree");
            },
            LayoutError::DuplicateCouplerOnTrack { track, coupler } => {
                push_str(&mut s, "track ");
                push_decimal(&mut s, *track as u64);
                push_str(&mut s, " lists coupler id ");
                push_decimal(&mut s, *coupler as u64);
                push_str(&mut s, " more than once in its route tree");
            },
            LayoutError::UnknownCouplerOnTrack { track, coupler } => {
                push_str(&mut s, "track ");
                push_decimal(&mut s, *track as u64);
                push_str(&mut s, " references unknown coupler id ");
                push_decimal(&mut s, *coupler as u64);
            },
            LayoutError::DuplicateCouplerId(id) => {
                push_str(&mut s, "duplicate coupler id in couplers list: ");
                push_decimal(&mut s, *id as u64);
            },
            LayoutError::InvalidPointId(id) => {
                push_str(&mut s, "invalid point id ");
                push_decimal(&mut s, *id as u64);
                push_range(&mut s, POINT_ID_MIN, POINT_ID_MAX);
            },
            LayoutError::InvalidCouplerId(id) => {
                push_str(&mut s, "invalid coupler id ");
                push_decimal(&mut s, *id as u64);
                push_range(&mut s, POINT_ID_MIN, POINT_ID_MAX);
            },
            LayoutError::IdPointAndCoupler(id) => {
                push_str(&mut s, "id ");
                push_decimal(&mut s, *id as u64);
                push_str(&mut s, " is used as both a point and a coupler on the same layout");
            },
            LayoutError::UnknownPeerTrack(id) => {
                push_str(&mut s, "connection references unknown peer track ");
                push_decimal(&mut s, *id as u64);
            },
            LayoutError::UnknownTrackRef(id) => {
                push_str(&mut s, "connection references unknown track id ");
                push_decimal(&mut s, *id as u64);
            },
            LayoutError::ConnectionEndpointCount { id, count } => {
                push_str(&mut s, "connection id ");
                push_decimal(&mut s, *id as u64);
                push_str(&mut s, ": expected exactly 2 endpoints, found ");
                push_decimal(&mut s, *count as u64);
            },
            LayoutError::ConnectionNotReciprocal { id } => {
                push_str(&mut s, "connection id ");
                push_decimal(&mut s, *id as u64);
                push_str(&mut s, ": endpoints are not reciprocal between the two tracks");
            },
            LayoutError::ConnectionSameTrack { id, track } => {
                push_str(&mut s, "connection id ");
                push_decimal(&mut s, *id as u64);
                push_str(&mut s, ": both endpoints are on track ");
                push_decimal(&mut s, *track as u64);
            },
            LayoutError::UnknownCouplerRef(id) => {
                push_str(&mut s, "connection references unknown coupler id ");
                push_decimal(&mut s, *id as u64);
            },
            LayoutError::UnknownStationSensor { name, sensor } => {
                push_str(&mut s, "station ");
                let quoted = debug_quote(name.as_str());
                push_str(&mut s, quoted.as_str());
                push_str(&mut s, " references unknown sensor id ");
                push_decimal(&mut s, *sensor as u64);
            },
        }
        assert(s@ =~= layout_error_text(*self));
        s
    }
}


/// The sensor ids named by sensor checks, in order.
pub open spec fn check_sensors(cs: Seq<RouteCheck>) -> Seq<u8>
    decreases cs.len(),
{
    if cs.len() == 0 {
        Seq::empty()
    } else {
        check_sensors(cs.drop_last()) + match cs.last() {
            RouteCheck::Sensor(id) => seq![id],
            _ => Seq::empty(),
        }
    }
}

proof fn lemma_check_sensors_concat(a: Seq<RouteCheck>, b: Seq<RouteCheck>)
    ensures
        check_sensors(a + b) == check_sensors(a) + check_sensors(b),
    decreases b.len(),
{
    if b.len() == 0 {
        assert(a + b =~= a);
        assert(check_sensors(a) + check_sensors(b) =~= check_sensors(a));
    } else {
        lemma_check_sensors_concat(a, b.drop_last());
        assert((a + b).drop_last() =~= a + b.drop_last());
        assert((a + b).last() == b.last());
    }
}

proof fn lemma_check_sensors_single(c: RouteCheck)
    ensures
        check_sensors(seq![c]) == match c {
            RouteCheck::Sensor(id) => seq![id],
            _ => Seq::<u8>::empty(),
        },
{
    assert(seq![c].drop_last() =~= Seq::<RouteCheck>::empty());
    assert(check_sensors(Seq::<RouteCheck>::empty()) =~= Seq::<u8>::empty());
    assert(seq![c].last() == c);
    let t = match c {
        RouteCheck::Sensor(id) => seq![id],
        _ => Seq::<u8>::empty(),
    };
    assert(Seq::<u8>::empty() + t =~= t);
}

/// The sensor checks of a node list name exactly its sensors, in order; its peer checks
/// name none.
proof fn lemma_nodes_check_sensors(nodes: Seq<RouteNode>)
    ensures
        check_sensors(nodes_id_checks(nodes)) == sensors_of_nodes(nodes),
        check_sensors(nodes_peer_checks(nodes)) == Seq::<u8>::empty(),
    decreases nodes,
{
    if nodes.len() > 0 {
        lemma_nodes_check_sensors(nodes.drop_last());
        lemma_node_check_sensors(nodes.last());
        lemma_check_sensors_concat(nodes_id_checks(nodes.drop_last()), node_id_checks(nodes.last()));
        lemma_check_sensors_concat(nodes_peer_checks(nodes.drop_last()), node_peer_checks(nodes.last()));
        assert(Seq::<u8>::empty() + Seq::<u8>::empty() =~= Seq::<u8>::empty());
    } else {
        assert(check_sensors(Seq::<RouteCheck>::empty()) =~= Seq::<u8>::empty());
    }
}

/// The sensor checks of a node name exactly its sensors, in order; its peer checks name
/// none.
proof fn lemma_node_check_sensors(node: RouteNode)
    ensures
        check_sensors(node_id_checks(node)) == sensors_of_node(node),
        check_sensors(node_peer_checks(node)) == Seq::<u8>::empty(),
    decreases node,
{
    match node {
        RouteNode::Point { id, entry, thru, branch } => {
            lemma_nodes_check_sensors(entry.along_fwd@);
            lemma_nodes_check_sensors(thru.along_fwd@);
            lemma_nodes_check_sensors(branch.along_fwd@);
            let a = nodes_id_checks(entry.along_fwd@);
            let b = nodes_id_checks(thru.along_fwd@);
            let c = nodes_id_checks(branch.along_fwd@);
            lemma_check_sensors_single(RouteCheck::Point(id));
            lemma_check_sensors_concat(seq![RouteCheck::Point(id)], a);
            lemma_check_sensors_concat(seq![RouteCheck::Point(id)] + a, b);
            lemma_check_sensors_concat(seq![RouteCheck::Point(id)] + a + b, c);
            assert(Seq::<u8>::empty() + sensors_of_nodes(entry.along_fwd@) =~= sensors_of_nodes(entry.along_fwd@));
            let pa = nodes_peer_checks(entry.along_fwd@);
            let pb = nodes_peer_checks(thru.along_fwd@);
            let pc = nodes_peer_checks(branch.along_fwd@);
            lemma_check_sensors_concat(pa, pb);
            lemma_check_sensors_concat(pa + pb, pc);
            assert(Seq::<u8>::empty() + Seq::<u8>::empty() =~= Seq::<u8>::empty());
        },
        RouteNode::Sensor { id } => {
            lemma_check_sensors_single(RouteCheck::Sensor(id));
            assert(check_sensors(Seq::<RouteCheck>::empty()) =~= Seq::<u8>::empty());
        },
        RouteNode::Coupler { id } => {
            lemma_check_sensors_single(RouteCheck::Coupler(id));
            assert(check_sensors(Seq::<RouteCheck>::empty()) =~= Seq::<u8>::empty());
        },
        RouteNode::Connection { peer_track, .. } => {
            lemma_check_sensors_single(RouteCheck::PeerInRange(peer_track));
            lemma_check_sensors_single(RouteCheck::PeerKnown(peer_track));
        },
        _ => {
            assert(check_sensors(Seq::<RouteCheck>::empty()) =~= Seq::<u8>::empty());
        },
    }
}

/// The sensor checks of a track's route name exactly its sensors, in order.
proof fn lemma_route_check_sensors(nodes: Seq<RouteNode>)
    ensures
        check_sensors(route_checks(nodes)) == sensors_of_nodes(nodes),
    decreases nodes.len(),
{
    if nodes.len() > 0 {
        lemma_route_check_sensors(nodes.drop_last());
        lemma_node_check_sensors(nodes.last());
        let r = route_checks(nodes.drop_last());
        let a = node_id_checks(nodes.last());
        let b = node_peer_checks(nodes.last());
        lemma_check_sensors_concat(r, a);
        lemma_check_sensors_concat(r + a, b);
        assert(check_sensors(r) + check_sensors(a) + Seq::<u8>::empty() =~= check_sensors(r) + check_sensors(a));
    } else {
        assert(check_sensors(Seq::<RouteCheck>::empty()) =~= Seq::<u8>::empty());
    }
}

/// A successful run of checks adds exactly the sensors its sensor checks name, which are
/// distinct, new, and in range.
proof fn lemma_scan_checks_sensors(cs: Seq<RouteCheck>, track: u8, st: ScanState, tids: Set<u8>, cids: Set<u8>)
    requires
        scan_checks(cs, track, st, tids, cids) is Ok,
    ensures
        ({
            let st2 = scan_checks(cs, track, st, tids, cids)->Ok_0;
            let ss = check_sensors(cs);
            &&& distinct(ss)
            &&& forall|k: int| 0 <= k < ss.len() ==> sensor_id_in_range(#[trigger] ss[k]) && !st.sensors.contains(ss[k])
            &&& forall|x: u8| #[trigger] st2.sensors.contains(x) <==> (st.sensors.contains(x) || ss.contains(x))
        }),
    decreases cs.len(),
{
    if cs.len() > 0 {
        lemma_scan_checks_sensors(cs.drop_last(), track, st, tids, cids);
        let s1 = scan_checks(cs.drop_last(), track, st, tids, cids)->Ok_0;
        let ss1 = check_sensors(cs.drop_last());
        let ss = check_sensors(cs);
        match cs.last() {
            RouteCheck::Sensor(id) => {
                assert(ss == ss1.push(id));
                assert(!s1.sensors.contains(id));
                assert(!ss1.contains(id));
                assert forall|a: int, b: int| 0 <= a < b < ss.len() implies ss[a] != ss[b] by {
                    if b == ss1.len() {
                        assert(ss[a] == ss1[a]);
                    } else {
                        assert(ss[a] == ss1[a] && ss[b] == ss1[b]);
                    }
                }
                assert forall|k: int| 0 <= k < ss.len() implies sensor_id_in_range(#[trigger] ss[k]) && !st.sensors.contains(ss[k]) by {
                    if k < ss1.len() {
                        assert(ss[k] == ss1[k]);
                    }
                }
                assert forall|x: u8| #[trigger] scan_checks(cs, track, st, tids, cids)->Ok_0.sensors.contains(x) <==> (st.sensors.contains(x) || ss.contains(x)) by {
                    if ss1.contains(x) {
                        let k = choose|k: int| 0 <= k < ss1.len() && ss1[k] == x;
                        assert(ss[k] == x);
                    }
                    if x == id {
                        assert(ss[ss1.len() as int] == x);
                    }
                    if ss.contains(x) && x != id {
                        let k = choose|k: int| 0 <= k < ss.len() && ss[k] == x;
                        assert(ss1[k] == x);
                    }
                }
            },
            _ => {
                assert(ss =~= ss1);
            },
        }
    }
}

/// A successful walk of the first `m` tracks has seen exactly the sensors of their route
/// trees, which are distinct and in range.
proof fn lemma_scan_tracks_sensors(tracks: Seq<TrackSegment>, m: int, tids: Set<u8>, cids: Set<u8>)
    requires
        0 <= m <= tracks.len(),
        scan_tracks(tracks, m, tids, cids) is Ok,
    ensures
        ({
            let st = scan_tracks(tracks, m, tids, cids)->Ok_0;
            let ss = layout_sensor_list(tracks, m);
            &&& distinct(ss)
            &&& forall|k: int| 0 <= k < ss.len() ==> sensor_id_in_range(#[trigger] ss[k])
            &&& forall|x: u8| #[trigger] st.sensors.contains(x) <==> ss.contains(x)
        }),
    decreases m,
{
    if m > 0 {
        lemma_scan_tracks_sensors(tracks, m - 1, tids, cids);
        let s0 = scan_tracks(tracks, m - 1, tids, cids)->Ok_0;
        let start = ScanState {
            sensors: s0.sensors,
            points_here: Set::empty(),
            couplers_here: Set::empty(),
            points: s0.points,
            couplers: s0.couplers,
        };
        let cs = route_checks(tracks[m - 1].along_fwd@);
        lemma_scan_checks_sensors(cs, tracks[m - 1].id, start, tids, cids);
        lemma_route_check_sensors(tracks[m - 1].along_fwd@);
        let a = layout_sensor_list(tracks, m - 1);
        let b = sensors_of_nodes(tracks[m - 1].along_fwd@);
        let ss = layout_sensor_list(tracks, m);
        assert(ss == a + b);
        assert forall|i: int, j: int| 0 <= i < j < ss.len() implies ss[i] != ss[j] by {
            if j < a.len() {
                assert(ss[i] == a[i] && ss[j] == a[j]);
            } else if i >= a.len() {
                assert(ss[i] == b[i - a.len()] && ss[j] == b[j - a.len()]);
            } else {
                assert(ss[i] == a[i] && ss[j] == b[j - a.len()]);
                assert(s0.sensors.contains(a[i]));
                assert(!start.sensors.contains(b[j - a.len()]));
            }
        }
        assert forall|k: int| 0 <= k < ss.len() implies sensor_id_in_range(#[trigger] ss[k]) by {
            if k < a.len() {
                assert(ss[k] == a[k]);
            } else {
                assert(ss[k] == b[k - a.len()]);
            }
        }
        assert forall|x: u8| #[trigger] scan_tracks(tracks, m, tids, cids)->Ok_0.sensors.contains(x) <==> ss.contains(x) by {
            if a.contains(x) {
                let k = choose|k: int| 0 <= k < a.len() && a[k] == x;
                assert(ss[k] == x);
            }
            if b.contains(x) {
                let k = choose|k: int| 0 <= k < b.len() && b[k] == x;
                assert(ss[a.len() + k] == x);
            }
            if ss.contains(x) {
                let k = choose|k: int| 0 <= k < ss.len() && ss[k] == x;
                if k < a.len() {
                    assert(a[k] == x);
                } else {
                    assert(b[k - a.len()] == x);
                }
            }
        }
    } else {
        assert(layout_sensor_list(tracks, 0) =~= Seq::<u8>::empty());
    }
}

/// No track-id error among the first `m` tracks means their ids are distinct and in range.
proof fn lemma_track_ids_ok(tracks: Seq<TrackSegment>, m: int)
    requires
        0 <= m <= tracks.len(),
        first_track_id_error(tracks, m) is None,
    ensures
        forall|i: int| 0 <= i < m ==> track_id_in_range(#[trigger] tracks[i].id),
        forall|i: int, j: int| 0 <= i < j < m ==> (#[trigger] tracks[i]).id != (#[trigger] tracks[j]).id,
    decreases m,
{
    if m > 0 {
        lemma_track_ids_ok(tracks, m - 1);
        assert(track_id_error(tracks, m - 1) is None);
    }
}

/// No coupler-id error among the first `m` couplers means their ids are distinct and in range.
proof fn lemma_coupler_ids_ok(couplers: Seq<CouplerDef>, m: int)
    requires
        0 <= m <= couplers.len(),
        first_coupler_id_error(couplers, m) is None,
    ensures
        forall|i: int| 0 <= i < m ==> point_id_in_range(#[trigger] couplers[i].id),
        forall|i: int, j: int| 0 <= i < j < m ==> (#[trigger] couplers[i]).id != (#[trigger] couplers[j]).id,
    decreases m,
{
    if m > 0 {
        lemma_coupler_ids_ok(couplers, m - 1);
        assert(coupler_id_error(couplers, m - 1) is None);
    }
}

/// No connection error for ids below `k`: each such id has no endpoint, or exactly two
/// distinct ones on tracks of the layout that point at each other.
proof fn lemma_groups_ok(ends: Seq<ConnEnd>, tids: Set<u8>, k: int)
    requires
        0 <= k <= 256,
        first_group_error(ends, tids, k) is None,
    ensures
        forall|id: u8| id < k ==> #[trigger] group_error(ends, id, tids) is None,
    decreases k,
{
    if k > 0 {
        lemma_groups_ok(ends, tids, k - 1);
        assert(group_error(ends, (k - 1) as u8, tids) is None);
    }
}

/// No station error among the first `m` stations means every station sensor is in range
/// and among `seen`.
proof fn lemma_stations_ok(stations: Seq<Station>, m: int, seen: Set<u8>)
    requires
        0 <= m <= stations.len(),
        first_station_error(stations, m, seen) is None,
    ensures
        forall|i: int, k: int|
            0 <= i < m && 0 <= k < stations[i].sensor_ids@.len() ==> sensor_id_in_range(#[trigger] stations[i].sensor_ids@[k])
                && seen.contains(stations[i].sensor_ids@[k]),
    decreases m,
{
    if m > 0 {
        lemma_stations_ok(stations, m - 1, seen);
        lemma_station_sensors_ok(stations[m - 1], stations[m - 1].sensor_ids@.len() as int, seen);
    }
}

proof fn lemma_station_sensors_ok(st: Station, k: int, seen: Set<u8>)
    requires
        0 <= k <= st.sensor_ids@.len(),
        station_error_upto(st, k, seen) is None,
    ensures
        forall|q: int| 0 <= q < k ==> sensor_id_in_range(#[trigger] st.sensor_ids@[q]) && seen.contains(st.sensor_ids@[q]),
    decreases k,
{
    if k > 0 {
        lemma_station_sensors_ok(st, k - 1, seen);
        assert(station_sensor_error(st.name, st.sensor_ids@[k - 1], seen) is None);
    }
}

/// A coupler leg names a track of the layout (a track port) or a coupler of the layout (a
/// coupler leg).
pub open spec fn leg_known(r: ConnectionRef, tracks: Seq<TrackSegment>, couplers: Seq<CouplerDef>) -> bool {
    match r {
        ConnectionRef::TrackPort { track, .. } => exists|k: int| 0 <= k < tracks.len() && (#[trigger] tracks[k]).id == track,
        ConnectionRef::CouplerLeg { coupler, .. } => exists|k: int|
            0 <= k < couplers.len() && (#[trigger] couplers[k]).id == coupler,
    }
}

proof fn lemma_ref_ok_known(r: ConnectionRef, tracks: Seq<TrackSegment>, couplers: Seq<CouplerDef>)
    requires
        ref_error(r, track_id_set(tracks), coupler_id_set(couplers)) is None,
    ensures
        leg_known(r, tracks, couplers),
{
    match r {
        ConnectionRef::TrackPort { track, .. } => {
            let ids = tracks.map_values(|t: TrackSegment| t.id);
            assert(ids.to_set().contains(track));
            let q = choose|q: int| 0 <= q < ids.len() && ids[q] == track;
            assert(tracks[q].id == track);
        },
        ConnectionRef::CouplerLeg { coupler, .. } => {
            let ids = couplers.map_values(|c: CouplerDef| c.id);
            assert(ids.to_set().contains(coupler));
            let q = choose|q: int| 0 <= q < ids.len() && ids[q] == coupler;
            assert(couplers[q].id == coupler);
        },
    }
}

proof fn lemma_no_ref_error_each(couplers: Seq<CouplerDef>, m: int, tids: Set<u8>, cids: Set<u8>)
    requires
        0 <= m <= couplers.len(),
        first_ref_error(couplers, m, tids, cids) is None,
    ensures
        forall|i: int| 0 <= i < m ==> coupler_ref_error(#[trigger] couplers[i], tids, cids) is None,
    decreases m,
{
    if m > 0 {
        lemma_no_ref_error_each(couplers, m - 1, tids, cids);
    }
}

/// Every leg of every coupler of a valid layout (entry A, thru A, entry B and thru B) names a
/// track of the layout or a coupler of the layout.
pub proof fn lemma_valid_coupler_legs(layout: TrackLayout)
    requires
        validate_spec(layout) is Ok,
    ensures
        forall|i: int|
            0 <= i < layout.couplers@.len() ==> {
                let c = #[trigger] layout.couplers@[i];
                &&& leg_known(c.entry_a, layout.tracks@, layout.couplers@)
                &&& leg_known(c.thru_a, layout.tracks@, layout.couplers@)
                &&& leg_known(c.entry_b, layout.tracks@, layout.couplers@)
                &&& leg_known(c.thru_b, layout.tracks@, layout.couplers@)
            },
{
    let tracks = layout.tracks@;
    let couplers = layout.couplers@;
    let tids = track_id_set(tracks);
    let cids = coupler_id_set(couplers);
    lemma_no_ref_error_each(couplers, couplers.len() as int, tids, cids);
    assert forall|i: int| 0 <= i < couplers.len() implies {
        let c = #[trigger] couplers[i];
        &&& leg_known(c.entry_a, tracks, couplers)
        &&& leg_known(c.thru_a, tracks, couplers)
        &&& leg_known(c.entry_b, tracks, couplers)
        &&& leg_known(c.thru_b, tracks, couplers)
    } by {
        let c = couplers[i];
        assert(coupler_ref_error(c, tids, cids) is None);
        lemma_ref_ok_known(c.entry_a, tracks, couplers);
        lemma_ref_ok_known(c.thru_a, tracks, couplers);
        lemma_ref_ok_known(c.entry_b, tracks, couplers);
        lemma_ref_ok_known(c.thru_b, tracks, couplers);
    }
}

/// A check that passes whatever was seen before: ids in range, couplers in the couplers
/// table, peers tracks of the layout.
pub open spec fn check_ok(c: RouteCheck, track_ids: Set<u8>, coupler_ids: Set<u8>) -> bool {
    match c {
        RouteCheck::Sensor(id) => sensor_id_in_range(id),
        RouteCheck::Coupler(id) => point_id_in_range(id) && coupler_ids.contains(id),
        RouteCheck::Point(id) => point_id_in_range(id),
        RouteCheck::PeerInRange(p) => track_id_in_range(p),
        RouteCheck::PeerKnown(p) => track_ids.contains(p),
    }
}

/// No point and no coupler is named twice among the checks.
pub open spec fn points_couplers_once(cs: Seq<RouteCheck>) -> bool {
    forall|i: int, j: int|
        0 <= i < j < cs.len() ==> match (#[trigger] cs[i], #[trigger] cs[j]) {
            (RouteCheck::Point(a), RouteCheck::Point(b)) => a != b,
            (RouteCheck::Coupler(a), RouteCheck::Coupler(b)) => a != b,
            _ => true,
        }
}

proof fn lemma_scan_checks_ok(cs: Seq<RouteCheck>, track: u8, st: ScanState, tids: Set<u8>, cids: Set<u8>)
    requires
        scan_checks(cs, track, st, tids, cids) is Ok,
    ensures
        forall|q: int| 0 <= q < cs.len() ==> check_ok(#[trigger] cs[q], tids, cids),
        points_couplers_once(cs),
        forall|q: int| 0 <= q < cs.len() ==> match #[trigger] cs[q] {
            RouteCheck::Point(a) => !st.points_here.contains(a) && scan_checks(cs, track, st, tids, cids)->Ok_0.points_here.contains(a),
            RouteCheck::Coupler(a) => !st.couplers_here.contains(a) && scan_checks(cs, track, st, tids, cids)->Ok_0.couplers_here.contains(a),
            _ => true,
        },
        st.points_here.subset_of(scan_checks(cs, track, st, tids, cids)->Ok_0.points_here),
        st.couplers_here.subset_of(scan_checks(cs, track, st, tids, cids)->Ok_0.couplers_here),
    decreases cs.len(),
{
    if cs.len() > 0 {
        let init = cs.drop_last();
        lemma_scan_checks_ok(init, track, st, tids, cids);
        let s1 = scan_checks(init, track, st, tids, cids)->Ok_0;
        let s2 = scan_checks(cs, track, st, tids, cids)->Ok_0;
        let c = cs.last();
        assert(check_step(c, track, s1, tids, cids) == Ok::<ScanState, LayoutError>(s2));
        assert(s1.points_here.subset_of(s2.points_here));
        assert(s1.couplers_here.subset_of(s2.couplers_here));
        assert forall|q: int| 0 <= q < cs.len() implies check_ok(#[trigger] cs[q], tids, cids) by {
            if q < init.len() {
                assert(cs[q] == init[q]);
            }
        }
        assert forall|q: int| 0 <= q < cs.len() implies match #[trigger] cs[q] {
            RouteCheck::Point(a) => !st.points_here.contains(a) && s2.points_here.contains(a),
            RouteCheck::Coupler(a) => !st.couplers_here.contains(a) && s2.couplers_here.contains(a),
            _ => true,
        } by {
            if q < init.len() {
                assert(cs[q] == init[q]);
                match init[q] {
                    RouteCheck::Point(a) => {
                        assert(s1.points_here.contains(a));
                    },
                    RouteCheck::Coupler(a) => {
                        assert(s1.couplers_here.contains(a));
                    },
                    _ => {},
                }
            } else {
                match c {
                    RouteCheck::Point(a) => {
                        assert(!s1.points_here.contains(a));
                    },
                    RouteCheck::Coupler(a) => {
                        assert(!s1.couplers_here.contains(a));
                    },
                    _ => {},
                }
            }
        }
        assert forall|i: int, j: int| 0 <= i < j < cs.len() implies match (#[trigger] cs[i], #[trigger] cs[j]) {
            (RouteCheck::Point(a), RouteCheck::Point(b)) => a != b,
            (RouteCheck::Coupler(a), RouteCheck::Coupler(b)) => a != b,
            _ => true,
        } by {
            assert(cs[i] == init[i]);
            if j < init.len() {
                assert(cs[j] == init[j]);
            } else {
                match (init[i], c) {
                    (RouteCheck::Point(a), RouteCheck::Point(b)) => {
                        assert(s1.points_here.contains(a));
                        assert(!s1.points_here.contains(b));
                    },
                    (RouteCheck::Coupler(a), RouteCheck::Coupler(b)) => {
                        assert(s1.couplers_here.contains(a));
                        assert(!s1.couplers_here.contains(b));
                    },
                    _ => {},
                }
            }
        }
    }
}

proof fn lemma_scan_tracks_checks_ok(tracks: Seq<TrackSegment>, m: int, tids: Set<u8>, cids: Set<u8>)
    requires
        0 <= m <= tracks.len(),
        scan_tracks(tracks, m, tids, cids) is Ok,
    ensures
        forall|k: int| 0 <= k < m ==> {
            let cs = route_checks(#[trigger] tracks[k].along_fwd@);
            &&& forall|q: int| 0 <= q < cs.len() ==> check_ok(#[trigger] cs[q], tids, cids)
            &&& points_couplers_once(cs)
        },
    decreases m,
{
    if m > 0 {
        lemma_scan_tracks_checks_ok(tracks, m - 1, tids, cids);
        let s0 = scan_tracks(tracks, m - 1, tids, cids)->Ok_0;
        let start = ScanState {
            sensors: s0.sensors,
            points_here: Set::empty(),
            couplers_here: Set::empty(),
            points: s0.points,
            couplers: s0.couplers,
        };
        lemma_scan_checks_ok(route_checks(tracks[m - 1].along_fwd@), tracks[m - 1].id, start, tids, cids);
    }
}

/// What a valid layout guarantees: version 2 with at least one track; distinct track ids
/// and coupler ids in range; the sensors of all route trees distinct and in range; every
/// connection id either unused or joining exactly two endpoints on two different tracks of
/// the layout that point at each other; every station sensor one of the route sensors.
pub proof fn lemma_valid_layout(layout: TrackLayout)
    requires
        validate_spec(layout) is Ok,
    ensures
        layout.version == 2,
        layout.tracks@.len() > 0,
        forall|i: int| 0 <= i < layout.tracks@.len() ==> track_id_in_range(#[trigger] layout.tracks@[i].id),
        forall|i: int, j: int|
            0 <= i < j < layout.tracks@.len() ==> (#[trigger] layout.tracks@[i]).id != (#[trigger] layout.tracks@[j]).id,
        forall|i: int| 0 <= i < layout.couplers@.len() ==> point_id_in_range(#[trigger] layout.couplers@[i].id),
        forall|i: int, j: int|
            0 <= i < j < layout.couplers@.len() ==> (#[trigger] layout.couplers@[i]).id != (#[trigger] layout.couplers@[j]).id,
        ({
            let ss = layout_sensor_list(layout.tracks@, layout.tracks@.len() as int);
            &&& distinct(ss)
            &&& forall|k: int| 0 <= k < ss.len() ==> sensor_id_in_range(#[trigger] ss[k])
            &&& forall|i: int, k: int|
                0 <= i < layout.stations@.len() && 0 <= k < layout.stations@[i].sensor_ids@.len() ==> ss.contains(
                    #[trigger] layout.stations@[i].sensor_ids@[k],
                )
        }),
        forall|id: u8|
            {
                let g = #[trigger] conn_group(layout_conn_ends(layout.tracks@, layout.tracks@.len() as int), id);
                g.len() == 0 || (g.len() == 2 && g[0].this_track != g[1].this_track
                    && track_id_set(layout.tracks@).contains(g[0].peer_track)
                    && track_id_set(layout.tracks@).contains(g[1].peer_track) && g[0].this_track == g[1].peer_track
                    && g[0].peer_track == g[1].this_track)
            },
        forall|k: int| 0 <= k < layout.tracks@.len() ==> {
            let cs = route_checks(#[trigger] layout.tracks@[k].along_fwd@);
            &&& forall|q: int| 0 <= q < cs.len() ==> check_ok(
                #[trigger] cs[q],
                track_id_set(layout.tracks@),
                coupler_id_set(layout.couplers@),
            )
            &&& points_couplers_once(cs)
        },
{
    let tracks = layout.tracks@;
    let couplers = layout.couplers@;
    let tids = track_id_set(tracks);
    let cids = coupler_id_set(couplers);
    lemma_track_ids_ok(tracks, tracks.len() as int);
    lemma_coupler_ids_ok(couplers, couplers.len() as int);
    lemma_scan_tracks_sensors(tracks, tracks.len() as int, tids, cids);
    lemma_scan_tracks_checks_ok(tracks, tracks.len() as int, tids, cids);
    let st = scan_tracks(tracks, tracks.len() as int, tids, cids)->Ok_0;
    let ends = layout_conn_ends(tracks, tracks.len() as int);
    lemma_groups_ok(ends, tids, 256);
    lemma_stations_ok(layout.stations@, layout.stations@.len() as int, st.sensors);
    assert forall|id: u8|
        {
            let g = #[trigger] conn_group(ends, id);
            g.len() == 0 || (g.len() == 2 && g[0].this_track != g[1].this_track && tids.contains(g[0].peer_track)
                && tids.contains(g[1].peer_track)
                && g[0].this_track == g[1].peer_track && g[0].peer_track == g[1].this_track)
        } by {
        assert(group_error(ends, id, tids) is None);
    }
}

} // verus!
