use yoyo::graph::{PointSetting, TrackGraph};
use yoyo::model::{ConnectionRef, CouplerDef, PointLeg, RouteNode, Station, TrackLayout, TrackSegment, TrackSide};
use yoyo::pi_client::PointDirection;

fn s(id: u8) -> RouteNode {
    RouteNode::Sensor { id }
}

fn conn(id: u8, peer_track: u8, peer_side: TrackSide) -> RouteNode {
    RouteNode::Connection { id, peer_track, peer_side }
}

fn leg(nodes: Vec<RouteNode>) -> PointLeg {
    PointLeg { along_fwd: nodes }
}

fn point(id: u8, entry: Vec<RouteNode>, thru: Vec<RouteNode>, branch: Vec<RouteNode>) -> RouteNode {
    RouteNode::Point { id, entry: leg(entry), thru: leg(thru), branch: leg(branch) }
}

fn track(id: u8, along_fwd: Vec<RouteNode>) -> TrackSegment {
    TrackSegment { id, along_fwd }
}

fn port(track: u8, side: TrackSide) -> ConnectionRef {
    ConnectionRef::TrackPort { track, side }
}

fn station(name: &str, sensor_ids: Vec<u8>) -> Station {
    Station { name: name.to_string(), sensor_ids }
}

/// The layout of the railway: an outer loop of tracks 1 and 2, a branch line through
/// tracks 3 to 8, and the sidings of track 11.
fn canonical_layout() -> TrackLayout {
    TrackLayout {
        version: 2,
        tracks: vec![
            track(1, vec![conn(1, 2, TrackSide::Fwd), s(1), s(2), s(3), conn(2, 2, TrackSide::Bwd)]),
            track(2, vec![conn(2, 1, TrackSide::Fwd), s(4), RouteNode::Coupler { id: 1 }, RouteNode::Coupler { id: 3 }, s(5), conn(1, 1, TrackSide::Bwd)]),
            track(3, vec![conn(3, 4, TrackSide::Fwd), s(6), RouteNode::Coupler { id: 1 }, s(7), s(8), conn(4, 4, TrackSide::Bwd)]),
            track(4, vec![conn(4, 3, TrackSide::Fwd), s(9), s(10), point(5, vec![s(11)], vec![conn(3, 3, TrackSide::Bwd)], vec![conn(5, 5, TrackSide::Bwd)])]),
            track(5, vec![conn(5, 4, TrackSide::Fwd), s(12), RouteNode::Coupler { id: 3 }, s(13), conn(6, 6, TrackSide::Bwd)]),
            track(6, vec![conn(6, 5, TrackSide::Fwd), s(14), s(15), point(7, vec![s(16)], vec![conn(7, 7, TrackSide::Bwd)], vec![conn(8, 8, TrackSide::Bwd)])]),
            track(7, vec![conn(7, 6, TrackSide::Fwd), s(17), s(23), RouteNode::Buffer]),
            track(8, vec![conn(8, 6, TrackSide::Fwd), s(24), conn(9, 11, TrackSide::Bwd)]),
            track(9, vec![]),
            track(10, vec![]),
            track(
                11,
                vec![
                    conn(9, 8, TrackSide::Fwd),
                    point(
                        8,
                        vec![RouteNode::Inline],
                        vec![s(18), RouteNode::Buffer],
                        vec![point(
                            10,
                            vec![RouteNode::Inline],
                            vec![s(19), RouteNode::Buffer],
                            vec![point(11, vec![RouteNode::Inline], vec![s(20), RouteNode::Buffer], vec![s(21), RouteNode::Buffer])],
                        )],
                    ),
                ],
            ),
            track(12, vec![]),
        ],
        couplers: vec![
            CouplerDef { id: 1, entry_a: port(2, TrackSide::Bwd), thru_a: port(2, TrackSide::Fwd), entry_b: port(3, TrackSide::Bwd), thru_b: port(3, TrackSide::Fwd) },
            CouplerDef { id: 3, entry_a: port(2, TrackSide::Bwd), thru_a: port(2, TrackSide::Fwd), entry_b: port(5, TrackSide::Bwd), thru_b: port(5, TrackSide::Fwd) },
        ],
        stations: vec![
            station("waterloo", vec![2, 7, 12, 17]),
            station("bridge", vec![5, 9, 16]),
            station("sidings", vec![18, 19, 20, 21]),
            station("blackheath", vec![24]),
            station("industrial", vec![13, 23]),
        ],
        notes: None,
    }
}

fn canonical_graph() -> TrackGraph {
    let layout = canonical_layout();
    layout.validate().expect("validate");
    TrackGraph::from_layout(&layout)
}

#[test]
fn graph_finds_all_sensors() {
    let graph = canonical_graph();
    assert!(graph.sensors.len() >= 22, "expected at least 22 sensors, got {}", graph.sensors.len());
    for s in [1u8, 2, 3, 4, 5, 6, 7, 8, 9, 10, 11, 12, 13, 14, 15, 16, 17, 18, 19, 20, 21, 23, 24] {
        assert!(graph.sensors.contains(&s), "missing sensor {s}");
    }
}

#[test]
fn graph_has_edges() {
    let graph = canonical_graph();
    let total_edges: usize = graph.edges.len();
    assert!(total_edges > 20, "expected at least 20 edges, got {total_edges}");
}

#[test]
fn adjacent_sensors_on_track_1() {
    let graph = canonical_graph();
    let edges_from_1 = graph.edges_from(1);
    assert!(!edges_from_1.is_empty(), "sensor 1 should have edges");
    assert!(edges_from_1.iter().any(|e| e.to == 2), "sensor 1 should connect to sensor 2, edges: {edges_from_1:?}");
    let edges_from_2 = graph.edges_from(2);
    assert!(edges_from_2.iter().any(|e| e.to == 1), "sensor 2 should connect to sensor 1");
    assert!(edges_from_2.iter().any(|e| e.to == 3), "sensor 2 should connect to sensor 3");
}

#[test]
fn route_same_sensor_is_empty() {
    let graph = canonical_graph();
    let route = graph.find_route(1, 1).expect("same sensor route");
    assert!(route.hops.is_empty());
}

#[test]
fn route_adjacent_sensors() {
    let graph = canonical_graph();
    let route = graph.find_route(1, 2).expect("route 1→2 should exist");
    assert_eq!(route.hops.len(), 1, "adjacent sensors = 1 hop");
    assert_eq!(route.hops[0].from, 1);
    assert_eq!(route.hops[0].to, 2);
}

#[test]
fn route_across_track_boundary() {
    let graph = canonical_graph();
    let route = graph.find_route(3, 4);
    assert!(route.is_some(), "should find route from sensor 3 (track 1) to sensor 4 (track 2)");
}

#[test]
fn route_to_siding() {
    let graph = canonical_graph();
    let route = graph.find_route(10, 18);
    assert!(route.is_some(), "should find route from sensor 10 to siding sensor 18");
    let route = route.unwrap();
    let point_settings = route.point_settings();
    assert!(!point_settings.is_empty(), "route to siding should require point settings");
}

#[test]
fn reachable_from_sensor_1() {
    let graph = canonical_graph();
    let reachable = graph.reachable_from(1);
    assert!(reachable.len() >= 10, "sensor 1 should reach at least 10 other sensors, got {}", reachable.len());
}

#[test]
fn nonexistent_sensor_returns_none() {
    let graph = canonical_graph();
    assert!(graph.find_route(99, 1).is_none());
    assert!(graph.find_route(1, 99).is_none());
}

#[test]
fn sensor_track_mapping() {
    let graph = canonical_graph();
    assert_eq!(graph.track_of(1), Some(1));
    assert_eq!(graph.track_of(2), Some(1));
    assert_eq!(graph.track_of(3), Some(1));
    assert_eq!(graph.track_of(4), Some(2));
    assert_eq!(graph.track_of(5), Some(2));
}

#[test]
fn point_setting_display() {
    let ps = PointSetting { point_id: 5, direction: PointDirection::Thru };
    assert_eq!(ps.to_string(), "P5=THRU");
}

#[test]
fn minimal_two_track_graph() {
    let layout = TrackLayout {
        version: 2,
        tracks: vec![
            track(1, vec![s(1), s(2), conn(1, 2, TrackSide::Bwd)]),
            track(2, vec![conn(1, 1, TrackSide::Fwd), s(3), s(4)]),
        ],
        couplers: vec![],
        stations: vec![],
        notes: None,
    };
    layout.validate().expect("validate");
    let graph = TrackGraph::from_layout(&layout);
    assert_eq!(graph.sensors.len(), 4);
    let route = graph.find_route(1, 2).expect("1→2");
    assert_eq!(route.hops.len(), 1);
    let route = graph.find_route(1, 3).expect("1→3");
    assert_eq!(route.hops.len(), 2);
    let route = graph.find_route(1, 4).expect("1→4");
    assert_eq!(route.hops.len(), 3);
}

#[test]
fn graph_with_point() {
    let layout = TrackLayout {
        version: 2,
        tracks: vec![track(1, vec![s(1), point(1, vec![RouteNode::Inline], vec![s(2)], vec![s(3)])])],
        couplers: vec![],
        stations: vec![],
        notes: None,
    };
    layout.validate().expect("validate");
    let graph = TrackGraph::from_layout(&layout);
    assert_eq!(graph.sensors.len(), 3);
    let route = graph.find_route(1, 2).expect("1→2");
    assert_eq!(route.hops.len(), 1);
    assert!(route.point_settings().iter().any(|ps| ps.point_id == 1 && ps.direction == PointDirection::Thru));
    let route = graph.find_route(1, 3).expect("1→3");
    assert_eq!(route.hops.len(), 1);
    assert!(route.point_settings().iter().any(|ps| ps.point_id == 1 && ps.direction == PointDirection::Branch));
}

#[test]
fn shortest_route_goes_around_the_loop_the_short_way() {
    let graph = canonical_graph();
    // On the loop 1-2-3-4-5-1, sensor 5 is one hop back from sensor 1.
    let route = graph.find_route(1, 5).expect("1→5");
    assert_eq!(route.hops.len(), 1);
    assert_eq!(route.track_ids(), vec![2]);
}

#[test]
fn reachable_from_agrees_with_find_route() {
    let graph = canonical_graph();
    let reachable = graph.reachable_from(1);
    for &w in &graph.sensors {
        if w != 1 {
            assert_eq!(reachable.contains(&w), graph.find_route(1, w).is_some(), "sensor {w}");
        }
    }
    assert!(!reachable.contains(&1));
}

#[test]
fn route_track_ids_are_distinct_in_order() {
    let graph = canonical_graph();
    let route = graph.find_route(2, 4).expect("2→4");
    assert_eq!(route.hops.len(), 2);
    assert_eq!(route.track_ids(), vec![1]);
}

#[test]
fn only_edges_through_a_connection_cross_it() {
    let l = TrackLayout {
        version: 2,
        tracks: vec![
            TrackSegment { id: 1, along_fwd: vec![s(1), s(2), conn(1, 2, TrackSide::Bwd)] },
            TrackSegment { id: 2, along_fwd: vec![conn(1, 1, TrackSide::Fwd), s(3), s(4)] },
        ],
        couplers: vec![],
        stations: vec![],
        notes: None,
    };
    let g = TrackGraph::from_layout(&l);
    let mut seen = Vec::new();
    for e in &g.edges {
        let through = (e.from, e.to) == (2, 3) || (e.from, e.to) == (3, 2);
        assert_eq!(e.crosses_connection, through, "edge {} -> {}", e.from, e.to);
        seen.push((e.from, e.to));
    }
    for pair in [(1, 2), (2, 1), (2, 3), (3, 2), (3, 4), (4, 3)] {
        assert!(seen.contains(&pair), "missing edge {:?}", pair);
    }
}

#[test]
fn every_hop_can_be_travelled_back() {
    let g = canonical_graph();
    for e in &g.edges {
        if e.to != 0 {
            assert!(g.edges.iter().any(|r| r.from == e.to && r.to == e.from), "no reverse of {} -> {}", e.from, e.to);
        }
    }
}

#[test]
fn edges_join_layout_sensors() {
    let g = canonical_graph();
    for e in &g.edges {
        assert!(g.sensors.contains(&e.from));
        assert!(e.to == 0 || g.sensors.contains(&e.to));
    }
}

#[test]
fn routes_exist_exactly_to_reachable_sensors() {
    let g = canonical_graph();
    for &a in &g.sensors {
        let reach = g.reachable_from(a);
        for &b in &g.sensors {
            if a != b {
                assert_eq!(g.find_route(a, b).is_some(), reach.contains(&b), "{} -> {}", a, b);
            }
        }
    }
}

#[test]
fn each_sensor_maps_to_its_track() {
    let layout = canonical_layout();
    let g = canonical_graph();
    for t in &layout.tracks {
        for x in t.sensors_in_route() {
            assert_eq!(g.track_of(x), Some(t.id));
        }
    }
    for x in 0..=255u8 {
        assert_eq!(g.track_of(x).is_some(), g.sensors.contains(&x));
    }
}
