use yoyo::model::{
    ConnectionRef, CouplerDef, CouplerLegRole, CouplerSide, PointLeg, RouteNode, Station, TrackLayout, TrackSegment, TrackSide,
};
use yoyo::validate::LayoutError;

fn s(id: u8) -> RouteNode {
    RouteNode::Sensor { id }
}

fn conn(id: u8, peer_track: u8, peer_side: TrackSide) -> RouteNode {
    RouteNode::Connection { id, peer_track, peer_side }
}

fn leg(nodes: Vec<RouteNode>) -> PointLeg {
    PointLeg { along_fwd: nodes }
}

fn point(id: u8, entry: Vec<RouteNode>, thru: Vec<RouteNode>, branch: Vec<RouteNode>) -> RouteNode {
    RouteNode::Point { id, entry: leg(entry), thru: leg(thru), branch: leg(branch) }
}

fn track(id: u8, along_fwd: Vec<RouteNode>) -> TrackSegment {
    TrackSegment { id, along_fwd }
}

fn port(track: u8, side: TrackSide) -> ConnectionRef {
    ConnectionRef::TrackPort { track, side }
}

fn station(name: &str, sensor_ids: Vec<u8>) -> Station {
    Station { name: name.to_string(), sensor_ids }
}

/// The layout of the railway: an outer loop of tracks 1 and 2, a branch line through
/// tracks 3 to 8, and the sidings of track 11.
fn canonical_layout() -> TrackLayout {
    TrackLayout {
        version: 2,
        tracks: vec![
            track(1, vec![conn(1, 2, TrackSide::Fwd), s(1), s(2), s(3), conn(2, 2, TrackSide::Bwd)]),
            track(2, vec![conn(2, 1, TrackSide::Fwd), s(4), RouteNode::Coupler { id: 1 }, RouteNode::Coupler { id: 3 }, s(5), conn(1, 1, TrackSide::Bwd)]),
            track(3, vec![conn(3, 4, TrackSide::Fwd), s(6), RouteNode::Coupler { id: 1 }, s(7), s(8), conn(4, 4, TrackSide::Bwd)]),
            track(4, vec![conn(4, 3, TrackSide::Fwd), s(9), s(10), point(5, vec![s(11)], vec![conn(3, 3, TrackSide::Bwd)], vec![conn(5, 5, TrackSide::Bwd)])]),
            track(5, vec![conn(5, 4, TrackSide::Fwd), s(12), RouteNode::Coupler { id: 3 }, s(13), conn(6, 6, TrackSide::Bwd)]),
            track(6, vec![conn(6, 5, TrackSide::Fwd), s(14), s(15), point(7, vec![s(16)], vec![conn(7, 7, TrackSide::Bwd)], vec![conn(8, 8, TrackSide::Bwd)])]),
            track(7, vec![conn(7, 6, TrackSide::Fwd), s(17), s(23), RouteNode::Buffer]),
            track(8, vec![conn(8, 6, TrackSide::Fwd), s(24), conn(9, 11, TrackSide::Bwd)]),
            track(9, vec![]),
            track(10, vec![]),
            track(
                11,
                vec![
                    conn(9, 8, TrackSide::Fwd),
                    point(
                        8,
                        vec![RouteNode::Inline],
                        vec![s(18), RouteNode::Buffer],
                        vec![point(
                            10,
                            vec![RouteNode::Inline],
                            vec![s(19), RouteNode::Buffer],
                            vec![point(11, vec![RouteNode::Inline], vec![s(20), RouteNode::Buffer], vec![s(21), RouteNode::Buffer])],
                        )],
                    ),
                ],
            ),
            track(12, vec![]),
        ],
        couplers: vec![
            CouplerDef { id: 1, entry_a: port(2, TrackSide::Bwd), thru_a: port(2, TrackSide::Fwd), entry_b: port(3, TrackSide::Bwd), thru_b: port(3, TrackSide::Fwd) },
            CouplerDef { id: 3, entry_a: port(2, TrackSide::Bwd), thru_a: port(2, TrackSide::Fwd), entry_b: port(5, TrackSide::Bwd), thru_b: port(5, TrackSide::Fwd) },
        ],
        stations: vec![
            station("waterloo", vec![2, 7, 12, 17]),
            station("bridge", vec![5, 9, 16]),
            station("sidings", vec![18, 19, 20, 21]),
            station("blackheath", vec![24]),
            station("industrial", vec![13, 23]),
        ],
        notes: None,
    }
}

/// Minimal valid layout: a sensor on track 1 and a point on track 3.
fn stub() -> TrackLayout {
    TrackLayout {
        version: 2,
        tracks: vec![
            track(1, vec![s(1)]),
            track(3, vec![point(5, vec![RouteNode::Inline], vec![RouteNode::Buffer], vec![RouteNode::Buffer])]),
        ],
        couplers: vec![],
        stations: vec![station("s", vec![1])],
        notes: None,
    }
}

#[test]
fn stub_parses_and_validates() {
    let layout = stub();
    layout.validate().expect("valid stub");
}

#[test]
fn duplicate_sensor_fails() {
    let mut layout = stub();
    if let Some(t) = layout.tracks.first_mut() {
        t.along_fwd.push(RouteNode::Sensor { id: 1 });
    }
    assert_eq!(layout.validate(), Err(LayoutError::DuplicateSensorId(1)));
}

#[test]
fn invalid_track_id_fails() {
    let mut layout = stub();
    layout.tracks.push(TrackSegment { id: 99, along_fwd: vec![] });
    assert_eq!(layout.validate(), Err(LayoutError::InvalidTrackId(99)));
}

#[test]
fn two_track_connection_reciprocal_ok() {
    let layout = TrackLayout {
        version: 2,
        tracks: vec![track(1, vec![conn(1, 2, TrackSide::Bwd)]), track(2, vec![conn(1, 1, TrackSide::Fwd)])],
        couplers: vec![],
        stations: vec![],
        notes: None,
    };
    layout.validate().expect("reciprocal connection");
}

#[test]
fn duplicate_identical_connection_endpoints_ok() {
    let layout = TrackLayout {
        version: 2,
        tracks: vec![
            track(1, vec![conn(1, 2, TrackSide::Bwd), conn(1, 2, TrackSide::Bwd)]),
            track(2, vec![conn(1, 1, TrackSide::Fwd)]),
        ],
        couplers: vec![],
        stations: vec![],
        notes: None,
    };
    layout.validate().expect("deduped reciprocal connection");
}

#[test]
fn connection_not_reciprocal_fails() {
    let layout = TrackLayout {
        version: 2,
        tracks: vec![track(1, vec![conn(1, 2, TrackSide::Bwd)]), track(2, vec![])],
        couplers: vec![],
        stations: vec![],
        notes: None,
    };
    assert!(matches!(
        layout.validate(),
        Err(LayoutError::ConnectionEndpointCount { .. }) | Err(LayoutError::ConnectionNotReciprocal { .. })
    ));
}

#[test]
fn duplicate_point_on_same_track_fails() {
    let mut layout = stub();
    if let Some(t) = layout.tracks.iter_mut().find(|x| x.id == 3) {
        t.along_fwd.push(point(5, vec![], vec![], vec![]));
    }
    assert_eq!(layout.validate(), Err(LayoutError::DuplicatePointOnTrack { track: 3, point: 5 }));
}

#[test]
fn unknown_station_sensor_fails() {
    let mut layout = stub();
    layout.stations.push(Station { name: "Ghost".into(), sensor_ids: vec![22] });
    assert!(matches!(layout.validate(), Err(LayoutError::UnknownStationSensor { .. })));
}

#[test]
fn canonical_layout_validates() {
    canonical_layout().validate().expect("canonical layout");
}

#[test]
fn each_error_kind_is_reported() {
    let mut l = stub();
    l.version = 3;
    assert_eq!(l.validate(), Err(LayoutError::UnsupportedVersion(3)));

    let mut l = stub();
    l.tracks.clear();
    assert_eq!(l.validate(), Err(LayoutError::NoTracks));

    let mut l = stub();
    l.tracks.push(track(1, vec![]));
    assert_eq!(l.validate(), Err(LayoutError::DuplicateTrackId(1)));

    let mut l = stub();
    l.tracks[0].along_fwd.push(s(30));
    assert_eq!(l.validate(), Err(LayoutError::InvalidSensorId(30)));

    let mut l = stub();
    l.tracks[0].along_fwd.push(RouteNode::Coupler { id: 2 });
    assert_eq!(l.validate(), Err(LayoutError::UnknownCouplerOnTrack { track: 1, coupler: 2 }));

    let mut l = stub();
    l.couplers.push(CouplerDef { id: 2, entry_a: port(1, TrackSide::Bwd), thru_a: port(1, TrackSide::Fwd), entry_b: port(3, TrackSide::Bwd), thru_b: port(3, TrackSide::Fwd) });
    l.tracks[0].along_fwd.push(RouteNode::Coupler { id: 2 });
    l.tracks[0].along_fwd.push(RouteNode::Coupler { id: 2 });
    assert_eq!(l.validate(), Err(LayoutError::DuplicateCouplerOnTrack { track: 1, coupler: 2 }));

    let mut l = stub();
    let c = CouplerDef { id: 2, entry_a: port(1, TrackSide::Bwd), thru_a: port(1, TrackSide::Fwd), entry_b: port(3, TrackSide::Bwd), thru_b: port(3, TrackSide::Fwd) };
    l.couplers.push(c.clone());
    l.couplers.push(c);
    assert_eq!(l.validate(), Err(LayoutError::DuplicateCouplerId(2)));

    let mut l = stub();
    l.tracks[0].along_fwd.push(point(14, vec![], vec![], vec![]));
    assert_eq!(l.validate(), Err(LayoutError::InvalidPointId(14)));

    let mut l = stub();
    l.couplers.push(CouplerDef { id: 20, entry_a: port(1, TrackSide::Bwd), thru_a: port(1, TrackSide::Fwd), entry_b: port(3, TrackSide::Bwd), thru_b: port(3, TrackSide::Fwd) });
    assert_eq!(l.validate(), Err(LayoutError::InvalidCouplerId(20)));

    let mut l = stub();
    l.couplers.push(CouplerDef { id: 5, entry_a: port(1, TrackSide::Bwd), thru_a: port(1, TrackSide::Fwd), entry_b: port(3, TrackSide::Bwd), thru_b: port(3, TrackSide::Fwd) });
    l.tracks[0].along_fwd.push(RouteNode::Coupler { id: 5 });
    assert_eq!(l.validate(), Err(LayoutError::IdPointAndCoupler(5)));

    let mut l = stub();
    l.tracks[0].along_fwd.push(conn(4, 7, TrackSide::Bwd));
    assert_eq!(l.validate(), Err(LayoutError::UnknownPeerTrack(7)));

    let mut l = stub();
    l.couplers.push(CouplerDef { id: 2, entry_a: port(9, TrackSide::Bwd), thru_a: port(1, TrackSide::Fwd), entry_b: port(3, TrackSide::Bwd), thru_b: port(3, TrackSide::Fwd) });
    assert_eq!(l.validate(), Err(LayoutError::UnknownTrackRef(9)));

    let mut l = stub();
    l.couplers.push(CouplerDef {
        id: 2,
        entry_a: ConnectionRef::CouplerLeg { coupler: 4, side: CouplerSide::A, leg: CouplerLegRole::Entry },
        thru_a: port(1, TrackSide::Fwd),
        entry_b: port(3, TrackSide::Bwd),
        thru_b: port(3, TrackSide::Fwd),
    });
    assert_eq!(l.validate(), Err(LayoutError::UnknownCouplerRef(4)));

    let l = TrackLayout {
        version: 2,
        tracks: vec![track(1, vec![conn(1, 2, TrackSide::Bwd)]), track(2, vec![conn(1, 3, TrackSide::Fwd)]), track(3, vec![])],
        couplers: vec![],
        stations: vec![],
        notes: None,
    };
    assert_eq!(l.validate(), Err(LayoutError::ConnectionNotReciprocal { id: 1 }));
}

#[test]
fn layout_error_messages() {
    assert_eq!(LayoutError::InvalidTrackId(99).to_string(), "invalid track id 99: must be 1..=12");
    assert_eq!(LayoutError::DuplicateSensorId(4).to_string(), "duplicate sensor id 4 across tracks");
    assert_eq!(
        LayoutError::ConnectionEndpointCount { id: 1, count: 1 }.to_string(),
        "connection id 1: expected exactly 2 endpoints, found 1"
    );
    assert_eq!(
        LayoutError::UnknownStationSensor { name: "Ghost".into(), sensor: 22 }.to_string(),
        "station \"Ghost\" references unknown sensor id 22"
    );
}

#[test]
fn connection_with_both_ends_on_one_track_is_rejected() {
    let l = TrackLayout {
        version: 2,
        tracks: vec![TrackSegment { id: 1, along_fwd: vec![conn(1, 1, TrackSide::Bwd), conn(1, 1, TrackSide::Fwd)] }],
        couplers: vec![],
        stations: vec![],
        notes: None,
    };
    assert_eq!(l.validate(), Err(LayoutError::ConnectionSameTrack { id: 1, track: 1 }));
    assert_eq!(
        LayoutError::ConnectionSameTrack { id: 1, track: 1 }.to_string(),
        "connection id 1: both endpoints are on track 1"
    );
}
