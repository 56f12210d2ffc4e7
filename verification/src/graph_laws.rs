//! Laws of the sensor graph of a layout: every edge joins sensors of the layout (or ends at
//! a buffer), so a route exists exactly when the target can be reached.

use vstd::prelude::*;

use crate::graph::{
    adjacent_spec, coupler_edges_spec, coupler_edges_upto, cross_inner, cross_outer, flatten_nodes_spec,
    flatten_one_spec, last_track_of, sensor_track_pairs, distinct, group_edges, group_of, group_row, layout_locs, locs_spec, pair_edges, sensor_after,
    sensor_before, track_locs, FlatView, LocView, conn_edges, find_track, first_reach, last_reach, layout_edges, layout_graph, layout_sensor_list, reachable,
    track_edges_upto, walk_nodes_spec, walk_one_spec, EdgeView, PointSetting,
};
use crate::model::{sensors_of_node, sensors_of_nodes, RouteNode, TrackLayout, TrackSegment};

verus! {

/// Every element of `xs` is in `s`.
pub open spec fn seq_within(xs: Seq<u8>, s: Set<u8>) -> bool {
    forall|i: int| 0 <= i < xs.len() ==> s.contains(#[trigger] xs[i])
}

/// Every edge leaves a sensor of `s` and ends at a sensor of `s` or at a buffer (0).
pub open spec fn edges_within(es: Seq<EdgeView>, s: Set<u8>) -> bool {
    forall|i: int| 0 <= i < es.len() ==> s.contains(#[trigger] es[i].from) && (es[i].to == 0 || s.contains(es[i].to))
}

/// The sensors of every track are in `s`.
pub open spec fn tracks_within(tracks: Seq<TrackSegment>, s: Set<u8>) -> bool {
    forall|k: int| 0 <= k < tracks.len() ==> seq_within(sensors_of_nodes(#[trigger] tracks[k].along_fwd@), s)
}

/// Every reached sensor of `r` is in `s`.
pub open spec fn reached_within(r: Seq<(u8, Seq<PointSetting>)>, s: Set<u8>) -> bool {
    forall|k: int| 0 <= k < r.len() ==> s.contains(#[trigger] r[k].0)
}

proof fn lemma_reached_concat(a: Seq<(u8, Seq<PointSetting>)>, b: Seq<(u8, Seq<PointSetting>)>, s: Set<u8>)
    requires
        reached_within(a, s),
        reached_within(b, s),
    ensures
        reached_within(a + b, s),
{
    assert forall|k: int| 0 <= k < (a + b).len() implies s.contains(#[trigger] (a + b)[k].0) by {
        if k < a.len() {
            assert((a + b)[k] == a[k]);
        } else {
            assert((a + b)[k] == b[k - a.len()]);
        }
    }
}

proof fn lemma_edges_concat(a: Seq<EdgeView>, b: Seq<EdgeView>, s: Set<u8>)
    requires
        edges_within(a, s),
        edges_within(b, s),
    ensures
        edges_within(a + b, s),
{
    assert forall|k: int| 0 <= k < (a + b).len() implies s.contains(#[trigger] (a + b)[k].from) && ((a + b)[k].to == 0
        || s.contains((a + b)[k].to)) by {
        if k < a.len() {
            assert((a + b)[k] == a[k]);
            assert(s.contains(a[k].from));
        } else {
            let j = k - a.len();
            assert((a + b)[k] == b[j]);
            assert(s.contains(b[j].from));
        }
    }
}

proof fn lemma_sensors_concat(a: Seq<RouteNode>, b: Seq<RouteNode>)
    ensures
        sensors_of_nodes(a + b) == sensors_of_nodes(a) + sensors_of_nodes(b),
    decreases b.len(),
{
    if b.len() == 0 {
        assert(a + b =~= a);
        assert(sensors_of_nodes(a) + sensors_of_nodes(b) =~= sensors_of_nodes(a));
    } else {
        lemma_sensors_concat(a, b.drop_last());
        assert((a + b).drop_last() =~= a + b.drop_last());
        assert((a + b).last() == b.last());
        assert(sensors_of_nodes(a + b) =~= sensors_of_nodes(a) + sensors_of_nodes(b));
    }
}

/// The sensors of a non-empty node list: those of its first node, then of the rest.
proof fn lemma_sensors_first(nodes: Seq<RouteNode>)
    requires
        nodes.len() > 0,
    ensures
        sensors_of_nodes(nodes) == sensors_of_node(nodes[0]) + sensors_of_nodes(nodes.drop_first()),
{
    let head = seq![nodes[0]];
    assert(nodes =~= head + nodes.drop_first());
    lemma_sensors_concat(head, nodes.drop_first());
    assert(head.drop_last() =~= Seq::<RouteNode>::empty());
    assert(head.last() == nodes[0]);
    assert(sensors_of_nodes(Seq::<RouteNode>::empty()) =~= Seq::<u8>::empty());
    assert(sensors_of_nodes(head) =~= sensors_of_nodes(head.drop_last()) + sensors_of_node(head.last()));
    assert(sensors_of_nodes(head) =~= sensors_of_node(nodes[0]));
}

proof fn lemma_first_reach_within(nodes: Seq<RouteNode>, pts: Seq<PointSetting>, s: Set<u8>)
    requires
        seq_within(sensors_of_nodes(nodes), s),
    ensures
        reached_within(first_reach(nodes, pts), s),
    decreases nodes,
{
    if nodes.len() > 0 {
        lemma_sensors_first(nodes);
        let sn = sensors_of_node(nodes[0]);
        let rest = sensors_of_nodes(nodes.drop_first());
        assert forall|i: int| 0 <= i < sn.len() implies s.contains(#[trigger] sn[i]) by {
            assert(sensors_of_nodes(nodes)[i] == sn[i]);
        }
        assert forall|i: int| 0 <= i < rest.len() implies s.contains(#[trigger] rest[i]) by {
            assert(sensors_of_nodes(nodes)[sn.len() + i] == rest[i]);
        }
        match nodes[0] {
            RouteNode::Sensor { id } => {
                assert(sn[0] == id);
            },
            RouteNode::Point { id, entry, thru, branch } => {
                let se = sensors_of_nodes(entry.along_fwd@);
                let st = sensors_of_nodes(thru.along_fwd@);
                let sb = sensors_of_nodes(branch.along_fwd@);
                assert(sn == se + st + sb);
                assert forall|i: int| 0 <= i < se.len() implies s.contains(#[trigger] se[i]) by {
                    assert(sn[i] == se[i]);
                }
                assert forall|i: int| 0 <= i < st.len() implies s.contains(#[trigger] st[i]) by {
                    assert(sn[se.len() + i] == st[i]);
                }
                assert forall|i: int| 0 <= i < sb.len() implies s.contains(#[trigger] sb[i]) by {
                    assert(sn[se.len() + st.len() + i] == sb[i]);
                }
                lemma_first_reach_within(entry.along_fwd@, pts, s);
                lemma_first_reach_within(
                    thru.along_fwd@,
                    crate::graph::with_setting(pts, id, crate::pi_client::PointDirection::Thru),
                    s,
                );
                lemma_first_reach_within(
                    branch.along_fwd@,
                    crate::graph::with_setting(pts, id, crate::pi_client::PointDirection::Branch),
                    s,
                );
                lemma_reached_concat(
                    first_reach(thru.along_fwd@, crate::graph::with_setting(pts, id, crate::pi_client::PointDirection::Thru)),
                    first_reach(branch.along_fwd@, crate::graph::with_setting(pts, id, crate::pi_client::PointDirection::Branch)),
                    s,
                );
            },
            _ => {
                lemma_first_reach_within(nodes.drop_first(), pts, s);
            },
        }
    }
}

proof fn lemma_last_reach_within(nodes: Seq<RouteNode>, pts: Seq<PointSetting>, s: Set<u8>)
    requires
        seq_within(sensors_of_nodes(nodes), s),
    ensures
        reached_within(last_reach(nodes, pts), s),
    decreases nodes,
{
    if nodes.len() > 0 {
        let sn = sensors_of_node(nodes.last());
        let init = sensors_of_nodes(nodes.drop_last());
        assert(sensors_of_nodes(nodes) == init + sn);
        assert forall|i: int| 0 <= i < sn.len() implies s.contains(#[trigger] sn[i]) by {
            assert(sensors_of_nodes(nodes)[init.len() + i] == sn[i]);
        }
        assert forall|i: int| 0 <= i < init.len() implies s.contains(#[trigger] init[i]) by {
            assert(sensors_of_nodes(nodes)[i] == init[i]);
        }
        match nodes.last() {
            RouteNode::Sensor { id } => {
                assert(sn[0] == id);
            },
            RouteNode::Point { id, entry, thru, branch } => {
                let se = sensors_of_nodes(entry.along_fwd@);
                let st = sensors_of_nodes(thru.along_fwd@);
                let sb = sensors_of_nodes(branch.along_fwd@);
                assert(sn == se + st + sb);
                assert forall|i: int| 0 <= i < se.len() implies s.contains(#[trigger] se[i]) by {
                    assert(sn[i] == se[i]);
                }
                assert forall|i: int| 0 <= i < st.len() implies s.contains(#[trigger] st[i]) by {
                    assert(sn[se.len() + i] == st[i]);
                }
                assert forall|i: int| 0 <= i < sb.len() implies s.contains(#[trigger] sb[i]) by {
                    assert(sn[se.len() + st.len() + i] == sb[i]);
                }
                lemma_last_reach_within(entry.along_fwd@, pts, s);
                lemma_last_reach_within(
                    thru.along_fwd@,
                    crate::graph::with_setting(pts, id, crate::pi_client::PointDirection::Thru),
                    s,
                );
                lemma_last_reach_within(
                    branch.along_fwd@,
                    crate::graph::with_setting(pts, id, crate::pi_client::PointDirection::Branch),
                    s,
                );
                let a = last_reach(thru.along_fwd@, crate::graph::with_setting(pts, id, crate::pi_client::PointDirection::Thru));
                let b = last_reach(branch.along_fwd@, crate::graph::with_setting(pts, id, crate::pi_client::PointDirection::Branch));
                lemma_reached_concat(a, b, s);
                lemma_reached_concat(a + b, last_reach(entry.along_fwd@, pts), s);
            },
            _ => {
                lemma_last_reach_within(nodes.drop_last(), pts, s);
            },
        }
    }
}

proof fn lemma_conn_edges_within(prev: u8, tid: u8, points: Seq<PointSetting>, targets: Seq<(u8, Seq<PointSetting>)>, s: Set<u8>)
    requires
        s.contains(prev),
        forall|k: int| 0 <= k < targets.len() ==> s.contains(#[trigger] targets[k].0),
    ensures
        edges_within(conn_edges(prev, tid, points, targets), s),
    decreases targets.len(),
{
    if targets.len() > 0 {
        let rest = targets.drop_last();
        assert forall|k: int| 0 <= k < rest.len() implies s.contains(#[trigger] rest[k].0) by {
            assert(rest[k] == targets[k]);
        }
        lemma_conn_edges_within(prev, tid, points, rest, s);
        let (t, pts) = targets.last();
        assert(s.contains(targets[targets.len() - 1].0));
        let pair = seq![
            crate::graph::mk_edge(prev, t, tid, points + pts, true, crate::graph::TraverseDirection::Fwd),
            crate::graph::mk_edge(t, prev, tid, points + pts, true, crate::graph::TraverseDirection::Bck),
        ];
        assert(edges_within(pair, s));
        lemma_edges_concat(conn_edges(prev, tid, points, rest), pair, s);
        assert(conn_edges(prev, tid, points, targets) == conn_edges(prev, tid, points, rest) + pair);
    }
}

proof fn lemma_find_track_index(tracks: Seq<TrackSegment>, id: u8)
    ensures
        find_track(tracks, id) matches Some(k) ==> 0 <= k < tracks.len(),
    decreases tracks.len(),
{
    if tracks.len() > 0 {
        lemma_find_track_index(tracks.drop_last(), id);
    }
}

proof fn lemma_walk_nodes_within(
    tracks: Seq<TrackSegment>,
    tid: u8,
    nodes: Seq<RouteNode>,
    points: Seq<PointSetting>,
    crossed: bool,
    last: Option<u8>,
    s: Set<u8>,
)
    requires
        tracks_within(tracks, s),
        seq_within(sensors_of_nodes(nodes), s),
        last matches Some(p) ==> s.contains(p),
    ensures
        edges_within(walk_nodes_spec(tracks, tid, nodes, points, crossed, last).0, s),
        walk_nodes_spec(tracks, tid, nodes, points, crossed, last).2 matches Some(p) ==> s.contains(p),
    decreases nodes,
{
    if nodes.len() > 0 {
        let sn = sensors_of_node(nodes.last());
        let init = sensors_of_nodes(nodes.drop_last());
        assert(sensors_of_nodes(nodes) == init + sn);
        assert forall|i: int| 0 <= i < sn.len() implies s.contains(#[trigger] sn[i]) by {
            assert(sensors_of_nodes(nodes)[init.len() + i] == sn[i]);
        }
        assert forall|i: int| 0 <= i < init.len() implies s.contains(#[trigger] init[i]) by {
            assert(sensors_of_nodes(nodes)[i] == init[i]);
        }
        lemma_walk_nodes_within(tracks, tid, nodes.drop_last(), points, crossed, last, s);
        let r1 = walk_nodes_spec(tracks, tid, nodes.drop_last(), points, crossed, last);
        lemma_walk_one_within(tracks, tid, nodes.last(), points, r1.1, r1.2, s);
        let r2 = walk_one_spec(tracks, tid, nodes.last(), points, r1.1, r1.2);
        lemma_edges_concat(r1.0, r2.0, s);
    }
}

proof fn lemma_walk_one_within(
    tracks: Seq<TrackSegment>,
    tid: u8,
    node: RouteNode,
    points: Seq<PointSetting>,
    crossed: bool,
    last: Option<u8>,
    s: Set<u8>,
)
    requires
        tracks_within(tracks, s),
        seq_within(sensors_of_node(node), s),
        last matches Some(p) ==> s.contains(p),
    ensures
        edges_within(walk_one_spec(tracks, tid, node, points, crossed, last).0, s),
        walk_one_spec(tracks, tid, node, points, crossed, last).2 matches Some(p) ==> s.contains(p),
    decreases node,
{
    let sn = sensors_of_node(node);
    match node {
        RouteNode::Sensor { id } => {
            assert(sn[0] == id);
            let r = walk_one_spec(tracks, tid, node, points, crossed, last);
            assert forall|i: int| 0 <= i < r.0.len() implies s.contains(#[trigger] r.0[i].from) && (r.0[i].to == 0
                || s.contains(r.0[i].to)) by {
                assert(last is Some);
            }
        },
        RouteNode::Connection { peer_track, peer_side, .. } => {
            lemma_find_track_index(tracks, peer_track);
            match find_track(tracks, peer_track) {
                Some(k) => {
                    assert(seq_within(sensors_of_nodes(tracks[k].along_fwd@), s));
                    lemma_first_reach_within(tracks[k].along_fwd@, Seq::empty(), s);
                    lemma_last_reach_within(tracks[k].along_fwd@, Seq::empty(), s);
                    match last {
                        Some(prev) => {
                            match peer_side {
                                crate::model::TrackSide::Bwd => lemma_conn_edges_within(
                                    prev,
                                    tid,
                                    points,
                                    first_reach(tracks[k].along_fwd@, Seq::empty()),
                                    s,
                                ),
                                crate::model::TrackSide::Fwd => lemma_conn_edges_within(
                                    prev,
                                    tid,
                                    points,
                                    last_reach(tracks[k].along_fwd@, Seq::empty()),
                                    s,
                                ),
                            }
                        },
                        None => {},
                    }
                },
                None => {},
            }
        },
        RouteNode::Point { id, entry, thru, branch } => {
            let se = sensors_of_nodes(entry.along_fwd@);
            let st = sensors_of_nodes(thru.along_fwd@);
            let sb = sensors_of_nodes(branch.along_fwd@);
            assert(sn == se + st + sb);
            assert forall|i: int| 0 <= i < se.len() implies s.contains(#[trigger] se[i]) by {
                assert(sn[i] == se[i]);
            }
            assert forall|i: int| 0 <= i < st.len() implies s.contains(#[trigger] st[i]) by {
                assert(sn[se.len() + i] == st[i]);
            }
            assert forall|i: int| 0 <= i < sb.len() implies s.contains(#[trigger] sb[i]) by {
                assert(sn[se.len() + st.len() + i] == sb[i]);
            }
            lemma_walk_nodes_within(tracks, tid, entry.along_fwd@, points, crossed, last, s);
            let r1 = walk_nodes_spec(tracks, tid, entry.along_fwd@, points, crossed, last);
            let tp = crate::graph::with_setting(points, id, crate::pi_client::PointDirection::Thru);
            let bp = crate::graph::with_setting(points, id, crate::pi_client::PointDirection::Branch);
            lemma_walk_nodes_within(tracks, tid, thru.along_fwd@, tp, r1.1, r1.2, s);
            lemma_walk_nodes_within(tracks, tid, branch.along_fwd@, bp, r1.1, r1.2, s);
            let r2 = walk_nodes_spec(tracks, tid, thru.along_fwd@, tp, r1.1, r1.2);
            let r3 = walk_nodes_spec(tracks, tid, branch.along_fwd@, bp, r1.1, r1.2);
            lemma_edges_concat(r1.0, r2.0, s);
            lemma_edges_concat(r1.0 + r2.0, r3.0, s);
        },
        _ => {},
    }
}

proof fn lemma_track_edges_within(tracks: Seq<TrackSegment>, m: int, s: Set<u8>)
    requires
        0 <= m <= tracks.len(),
        tracks_within(tracks, s),
    ensures
        edges_within(track_edges_upto(tracks, m), s),
    decreases m,
{
    if m > 0 {
        lemma_track_edges_within(tracks, m - 1, s);
        assert(seq_within(sensors_of_nodes(tracks[m - 1].along_fwd@), s));
        lemma_walk_nodes_within(tracks, tracks[m - 1].id, tracks[m - 1].along_fwd@, Seq::empty(), false, None, s);
        lemma_edges_concat(
            track_edges_upto(tracks, m - 1),
            walk_nodes_spec(tracks, tracks[m - 1].id, tracks[m - 1].along_fwd@, Seq::empty(), false, None).0,
            s,
        );
    }
}

/// The sensors of each of the first `m` tracks are listed among the layout's sensors.
proof fn lemma_tracks_listed(tracks: Seq<TrackSegment>, m: int)
    requires
        0 <= m <= tracks.len(),
    ensures
        forall|k: int| 0 <= k < m ==> seq_within(
            sensors_of_nodes(#[trigger] tracks[k].along_fwd@),
            layout_sensor_list(tracks, m).to_set(),
        ),
    decreases m,
{
    if m > 0 {
        lemma_tracks_listed(tracks, m - 1);
        let prev = layout_sensor_list(tracks, m - 1);
        let cur = sensors_of_nodes(tracks[m - 1].along_fwd@);
        assert(layout_sensor_list(tracks, m) == prev + cur);
        assert forall|k: int| 0 <= k < m implies seq_within(
            sensors_of_nodes(#[trigger] tracks[k].along_fwd@),
            layout_sensor_list(tracks, m).to_set(),
        ) by {
            let xs = sensors_of_nodes(tracks[k].along_fwd@);
            assert forall|i: int| 0 <= i < xs.len() implies layout_sensor_list(tracks, m).to_set().contains(
                #[trigger] xs[i],
            ) by {
                if k < m - 1 {
                    assert(prev.to_set().contains(xs[i]));
                    let q = choose|q: int| 0 <= q < prev.len() && prev[q] == xs[i];
                    assert((prev + cur)[q] == xs[i]);
                } else {
                    assert((prev + cur)[prev.len() + i] == xs[i]);
                }
            }
        }
    }
}

/// Every sensor item of a flattened route is in `s`.
pub open spec fn flat_within(flat: Seq<FlatView>, s: Set<u8>) -> bool {
    forall|i: int| 0 <= i < flat.len() ==> (#[trigger] flat[i] matches FlatView::Sensor(x) ==> s.contains(x))
}

/// A sensor id that is 0 (none) or in `s`.
pub open spec fn none_or_in(x: u8, s: Set<u8>) -> bool {
    x == 0 || s.contains(x)
}

/// The sensors next to every coupler occurrence are none or in `s`.
pub open spec fn locs_within(ls: Seq<LocView>, s: Set<u8>) -> bool {
    forall|i: int| 0 <= i < ls.len() ==> none_or_in((#[trigger] ls[i]).before, s) && none_or_in(ls[i].after, s)
}

proof fn lemma_flat_concat(a: Seq<FlatView>, b: Seq<FlatView>, s: Set<u8>)
    requires
        flat_within(a, s),
        flat_within(b, s),
    ensures
        flat_within(a + b, s),
{
    assert forall|i: int| 0 <= i < (a + b).len() implies (#[trigger] (a + b)[i] matches FlatView::Sensor(x) ==> s.contains(x)) by {
        if i < a.len() {
            assert((a + b)[i] == a[i]);
        } else {
            assert((a + b)[i] == b[i - a.len()]);
        }
    }
}

proof fn lemma_flatten_nodes_within(nodes: Seq<RouteNode>, ctx: Seq<PointSetting>, s: Set<u8>)
    requires
        seq_within(sensors_of_nodes(nodes), s),
    ensures
        flat_within(flatten_nodes_spec(nodes, ctx), s),
    decreases nodes,
{
    if nodes.len() > 0 {
        let sn = sensors_of_node(nodes.last());
        let init = sensors_of_nodes(nodes.drop_last());
        assert(sensors_of_nodes(nodes) == init + sn);
        assert forall|i: int| 0 <= i < sn.len() implies s.contains(#[trigger] sn[i]) by {
            assert(sensors_of_nodes(nodes)[init.len() + i] == sn[i]);
        }
        assert forall|i: int| 0 <= i < init.len() implies s.contains(#[trigger] init[i]) by {
            assert(sensors_of_nodes(nodes)[i] == init[i]);
        }
        lemma_flatten_nodes_within(nodes.drop_last(), ctx, s);
        lemma_flatten_one_within(nodes.last(), ctx, s);
        lemma_flat_concat(flatten_nodes_spec(nodes.drop_last(), ctx), flatten_one_spec(nodes.last(), ctx), s);
    }
}

proof fn lemma_flatten_one_within(node: RouteNode, ctx: Seq<PointSetting>, s: Set<u8>)
    requires
        seq_within(sensors_of_node(node), s),
    ensures
        flat_within(flatten_one_spec(node, ctx), s),
    decreases node,
{
    let sn = sensors_of_node(node);
    match node {
        RouteNode::Sensor { id } => {
            assert(sn[0] == id);
        },
        RouteNode::Point { id, entry, thru, branch } => {
            let se = sensors_of_nodes(entry.along_fwd@);
            let st = sensors_of_nodes(thru.along_fwd@);
            let sb = sensors_of_nodes(branch.along_fwd@);
            assert(sn == se + st + sb);
            assert forall|i: int| 0 <= i < se.len() implies s.contains(#[trigger] se[i]) by {
                assert(sn[i] == se[i]);
            }
            assert forall|i: int| 0 <= i < st.len() implies s.contains(#[trigger] st[i]) by {
                assert(sn[se.len() + i] == st[i]);
            }
            assert forall|i: int| 0 <= i < sb.len() implies s.contains(#[trigger] sb[i]) by {
                assert(sn[se.len() + st.len() + i] == sb[i]);
            }
            let tp = crate::graph::with_setting(ctx, id, crate::pi_client::PointDirection::Thru);
            let bp = crate::graph::with_setting(ctx, id, crate::pi_client::PointDirection::Branch);
            lemma_flatten_nodes_within(entry.along_fwd@, ctx, s);
            lemma_flatten_nodes_within(thru.along_fwd@, tp, s);
            lemma_flatten_nodes_within(branch.along_fwd@, bp, s);
            lemma_flat_concat(flatten_nodes_spec(entry.along_fwd@, ctx), flatten_nodes_spec(thru.along_fwd@, tp), s);
            lemma_flat_concat(
                flatten_nodes_spec(entry.along_fwd@, ctx) + flatten_nodes_spec(thru.along_fwd@, tp),
                flatten_nodes_spec(branch.along_fwd@, bp),
                s,
            );
        },
        _ => {},
    }
}

proof fn lemma_sensor_before_within(flat: Seq<FlatView>, k: int, s: Set<u8>)
    requires
        flat_within(flat, s),
        k <= flat.len(),
    ensures
        none_or_in(sensor_before(flat, k), s),
    decreases k,
{
    if k > 0 {
        assert(flat[k - 1] matches FlatView::Sensor(x) ==> s.contains(x));
        lemma_sensor_before_within(flat, k - 1, s);
    }
}

proof fn lemma_sensor_after_within(flat: Seq<FlatView>, k: int, s: Set<u8>)
    requires
        flat_within(flat, s),
    ensures
        none_or_in(sensor_after(flat, k), s),
    decreases flat.len() - k,
{
    if 0 <= k < flat.len() {
        assert(flat[k] matches FlatView::Sensor(x) ==> s.contains(x));
        lemma_sensor_after_within(flat, k + 1, s);
    }
}

proof fn lemma_locs_within(flat: Seq<FlatView>, tid: u8, n: int, s: Set<u8>)
    requires
        flat_within(flat, s),
        n <= flat.len(),
    ensures
        locs_within(locs_spec(flat, tid, n), s),
    decreases n,
{
    if n > 0 {
        lemma_locs_within(flat, tid, n - 1, s);
        lemma_sensor_before_within(flat, n - 1, s);
        lemma_sensor_after_within(flat, n, s);
        let a = locs_spec(flat, tid, n - 1);
        let b = locs_spec(flat, tid, n).skip(a.len() as int);
        assert(locs_spec(flat, tid, n) =~= a + b);
        assert forall|i: int| 0 <= i < locs_spec(flat, tid, n).len() implies none_or_in(
            (#[trigger] locs_spec(flat, tid, n)[i]).before,
            s,
        ) && none_or_in(locs_spec(flat, tid, n)[i].after, s) by {
            if i < a.len() {
                assert(locs_spec(flat, tid, n)[i] == a[i]);
            }
        }
    }
}

proof fn lemma_layout_locs_within(tracks: Seq<TrackSegment>, m: int, s: Set<u8>)
    requires
        0 <= m <= tracks.len(),
        tracks_within(tracks, s),
    ensures
        locs_within(layout_locs(tracks, m), s),
    decreases m,
{
    if m > 0 {
        lemma_layout_locs_within(tracks, m - 1, s);
        let t = tracks[m - 1];
        assert(seq_within(sensors_of_nodes(t.along_fwd@), s));
        let flat = flatten_nodes_spec(t.along_fwd@, Seq::empty());
        lemma_flatten_nodes_within(t.along_fwd@, Seq::empty(), s);
        lemma_locs_within(flat, t.id, flat.len() as int, s);
        let a = layout_locs(tracks, m - 1);
        let b = track_locs(t);
        assert forall|i: int| 0 <= i < (a + b).len() implies none_or_in((#[trigger] (a + b)[i]).before, s)
            && none_or_in((a + b)[i].after, s) by {
            if i < a.len() {
                assert((a + b)[i] == a[i]);
            } else {
                assert((a + b)[i] == b[i - a.len()]);
            }
        }
    }
}

proof fn lemma_group_within(locs: Seq<LocView>, id: u8, s: Set<u8>)
    requires
        locs_within(locs, s),
    ensures
        locs_within(group_of(locs, id), s),
    decreases locs.len(),
{
    if locs.len() > 0 {
        let init = locs.drop_last();
        assert forall|i: int| 0 <= i < init.len() implies none_or_in((#[trigger] init[i]).before, s) && none_or_in(
            init[i].after,
            s,
        ) by {
            assert(init[i] == locs[i]);
        }
        lemma_group_within(init, id, s);
        let a = group_of(init, id);
        let b: Seq<LocView> = if locs.last().coupler == id {
            seq![locs.last()]
        } else {
            Seq::empty()
        };
        assert(locs.last() == locs[locs.len() - 1]);
        assert forall|i: int| 0 <= i < (a + b).len() implies none_or_in((#[trigger] (a + b)[i]).before, s)
            && none_or_in((a + b)[i].after, s) by {
            if i < a.len() {
                assert((a + b)[i] == a[i]);
            } else {
                assert((a + b)[i] == b[i - a.len()]);
            }
        }
    }
}

proof fn lemma_cross_inner_within(a: LocView, b: LocView, sa: u8, sbs: Seq<u8>, s: Set<u8>)
    requires
        none_or_in(sa, s),
        forall|i: int| 0 <= i < sbs.len() ==> none_or_in(#[trigger] sbs[i], s),
    ensures
        edges_within(cross_inner(a, b, sa, sbs), s),
    decreases sbs.len(),
{
    if sbs.len() > 0 {
        let init = sbs.drop_last();
        assert forall|i: int| 0 <= i < init.len() implies none_or_in(#[trigger] init[i], s) by {
            assert(init[i] == sbs[i]);
        }
        lemma_cross_inner_within(a, b, sa, init, s);
        let sb = sbs.last();
        assert(none_or_in(sbs[sbs.len() - 1], s));
        let tail: Seq<EdgeView> = if sa != 0 && sb != 0 {
            seq![
                crate::graph::mk_edge(sa, sb, a.track_id, a.points + b.points, true, crate::graph::TraverseDirection::Fwd),
                crate::graph::mk_edge(sb, sa, b.track_id, a.points + b.points, true, crate::graph::TraverseDirection::Bck),
            ]
        } else {
            Seq::empty()
        };
        assert(edges_within(tail, s));
        lemma_edges_concat(cross_inner(a, b, sa, init), tail, s);
    }
}

proof fn lemma_adjacent_within(l: LocView, s: Set<u8>)
    requires
        none_or_in(l.before, s),
        none_or_in(l.after, s),
    ensures
        forall|i: int| 0 <= i < adjacent_spec(l).len() ==> none_or_in(#[trigger] adjacent_spec(l)[i], s),
{
    let x: Seq<u8> = if l.before != 0 { seq![l.before] } else { Seq::empty() };
    let y: Seq<u8> = if l.after != 0 { seq![l.after] } else { Seq::empty() };
    assert(adjacent_spec(l) == x + y);
    assert forall|i: int| 0 <= i < (x + y).len() implies none_or_in(#[trigger] (x + y)[i], s) by {
        if i < x.len() {
            assert((x + y)[i] == x[i]);
        } else {
            assert((x + y)[i] == y[i - x.len()]);
        }
    }
}

proof fn lemma_cross_outer_within(a: LocView, b: LocView, sas: Seq<u8>, s: Set<u8>)
    requires
        forall|i: int| 0 <= i < sas.len() ==> none_or_in(#[trigger] sas[i], s),
        none_or_in(b.before, s),
        none_or_in(b.after, s),
    ensures
        edges_within(cross_outer(a, b, sas), s),
    decreases sas.len(),
{
    if sas.len() > 0 {
        let init = sas.drop_last();
        assert forall|i: int| 0 <= i < init.len() implies none_or_in(#[trigger] init[i], s) by {
            assert(init[i] == sas[i]);
        }
        lemma_cross_outer_within(a, b, init, s);
        assert(none_or_in(sas[sas.len() - 1], s));
        lemma_adjacent_within(b, s);
        lemma_cross_inner_within(a, b, sas.last(), adjacent_spec(b), s);
        lemma_edges_concat(cross_outer(a, b, init), cross_inner(a, b, sas.last(), adjacent_spec(b)), s);
    }
}

proof fn lemma_group_row_within(g: Seq<LocView>, i: int, j: int, s: Set<u8>)
    requires
        locs_within(g, s),
        0 <= i,
        j <= g.len(),
    ensures
        edges_within(group_row(g, i, j), s),
    decreases j - i,
{
    if j > i + 1 {
        lemma_group_row_within(g, i, j - 1, s);
        let a = g[i];
        let b = g[j - 1];
        if a.track_id != b.track_id {
            lemma_adjacent_within(a, s);
            lemma_cross_outer_within(a, b, adjacent_spec(a), s);
        }
        assert(edges_within(pair_edges(a, b), s));
        lemma_edges_concat(group_row(g, i, j - 1), pair_edges(a, b), s);
    }
}

proof fn lemma_group_edges_within(g: Seq<LocView>, n: int, s: Set<u8>)
    requires
        locs_within(g, s),
        n <= g.len(),
    ensures
        edges_within(group_edges(g, n), s),
    decreases n,
{
    if n > 0 {
        lemma_group_edges_within(g, n - 1, s);
        lemma_group_row_within(g, n - 1, g.len() as int, s);
        lemma_edges_concat(group_edges(g, n - 1), group_row(g, n - 1, g.len() as int), s);
    }
}

proof fn lemma_coupler_edges_within(locs: Seq<LocView>, c: int, s: Set<u8>)
    requires
        locs_within(locs, s),
    ensures
        edges_within(coupler_edges_upto(locs, c), s),
    decreases c,
{
    if c > 0 {
        lemma_coupler_edges_within(locs, c - 1, s);
        let g = group_of(locs, (c - 1) as u8);
        lemma_group_within(locs, (c - 1) as u8, s);
        lemma_group_edges_within(g, g.len() as int, s);
        lemma_edges_concat(coupler_edges_upto(locs, c - 1), group_edges(g, g.len() as int), s);
    }
}

/// Every edge of the graph of a layout leaves a sensor of the layout and ends at a sensor
/// of the layout or at a buffer.
pub proof fn lemma_layout_edges_join_sensors(layout: TrackLayout)
    ensures
        edges_within(layout_graph(layout).edges, layout_graph(layout).sensors),
{
    let tracks = layout.tracks@;
    let s = layout_sensor_list(tracks, tracks.len() as int).to_set();
    lemma_tracks_listed(tracks, tracks.len() as int);
    lemma_track_edges_within(tracks, tracks.len() as int, s);
    lemma_layout_locs_within(tracks, tracks.len() as int, s);
    lemma_coupler_edges_within(layout_locs(tracks, tracks.len() as int), 256, s);
    lemma_edges_concat(track_edges_upto(tracks, tracks.len() as int), coupler_edges_spec(tracks), s);
}

/// In the graph of a layout, a route between two different sensors exists exactly when the
/// second can be reached from the first: `find_route` finds a route exactly to the sensors
/// that `reachable_from` lists.
pub proof fn lemma_layout_route_iff_reachable(layout: TrackLayout, from: u8, to: u8)
    requires
        from != to,
    ensures
        layout_graph(layout).route_hops(from, to) is Some <==> reachable(layout_graph(layout).edges, from, to),
{
    let g = layout_graph(layout);
    lemma_layout_edges_join_sensors(layout);
    if reachable(g.edges, from, to) {
        let hops = choose|hops: Seq<EdgeView>| #[trigger] crate::graph::is_walk(g.edges, from, to, hops);
        assert(crate::graph::is_walk(g.edges, from, to, hops));
        assert(hops.len() > 0);
        assert(g.edges.contains(hops[0]));
        let i = choose|i: int| 0 <= i < g.edges.len() && g.edges[i] == hops[0];
        assert(g.sensors.contains(g.edges[i].from));
        assert(g.edges.contains(hops[hops.len() - 1]));
        let j = choose|j: int| 0 <= j < g.edges.len() && g.edges[j] == hops[hops.len() - 1];
        assert(g.edges[j].to != 0);
        assert(g.sensors.contains(g.edges[j].from));
        assert(g.sensors.contains(g.edges[j].to));
    }
}

proof fn lemma_last_track_concat(a: Seq<(u8, u8)>, b: Seq<(u8, u8)>, x: u8)
    ensures
        last_track_of(a + b, x) == (if last_track_of(b, x) is Some {
            last_track_of(b, x)
        } else {
            last_track_of(a, x)
        }),
    decreases b.len(),
{
    if b.len() == 0 {
        assert(a + b =~= a);
    } else {
        lemma_last_track_concat(a, b.drop_last(), x);
        assert((a + b).drop_last() =~= a + b.drop_last());
        assert((a + b).last() == b.last());
    }
}

proof fn lemma_last_track_mapped(xs: Seq<u8>, t: u8, x: u8)
    ensures
        last_track_of(xs.map_values(|v: u8| (v, t)), x) == (if xs.contains(x) {
            Some(t)
        } else {
            None::<u8>
        }),
    decreases xs.len(),
{
    let m = xs.map_values(|v: u8| (v, t));
    if xs.len() > 0 {
        lemma_last_track_mapped(xs.drop_last(), t, x);
        assert(m.drop_last() =~= xs.drop_last().map_values(|v: u8| (v, t)));
        assert(m.last() == (xs.last(), t));
        if xs.drop_last().contains(x) {
            let q = choose|q: int| 0 <= q < xs.drop_last().len() && xs.drop_last()[q] == x;
            assert(xs[q] == x);
        }
        if xs.contains(x) && xs.last() != x {
            let q = choose|q: int| 0 <= q < xs.len() && xs[q] == x;
            assert(q < xs.len() - 1);
            assert(xs.drop_last()[q] == x);
        }
    }
}

/// The sensor list of the first `m` tracks begins the sensor list of the first `n`.
proof fn lemma_sensor_list_prefix(tracks: Seq<TrackSegment>, m: int, n: int)
    requires
        0 <= m <= n <= tracks.len(),
    ensures
        layout_sensor_list(tracks, m).len() <= layout_sensor_list(tracks, n).len(),
        forall|i: int| 0 <= i < layout_sensor_list(tracks, m).len() ==> #[trigger] layout_sensor_list(tracks, n)[i]
            == layout_sensor_list(tracks, m)[i],
    decreases n - m,
{
    if m < n {
        lemma_sensor_list_prefix(tracks, m, n - 1);
        let a = layout_sensor_list(tracks, n - 1);
        assert(layout_sensor_list(tracks, n) == a + sensors_of_nodes(tracks[n - 1].along_fwd@));
        assert forall|i: int| 0 <= i < layout_sensor_list(tracks, m).len() implies #[trigger] layout_sensor_list(tracks, n)[i]
            == layout_sensor_list(tracks, m)[i] by {
            assert(layout_sensor_list(tracks, n)[i] == a[i]);
        }
    }
}

/// Where each sensor's track is looked up: for the first `m` tracks, a sensor has a track
/// exactly when it is listed, and a sensor of track `k` that no later track among them
/// holds has track `k`'s id.
proof fn lemma_sensor_track_upto(tracks: Seq<TrackSegment>, m: int, x: u8)
    requires
        0 <= m <= tracks.len(),
    ensures
        last_track_of(sensor_track_pairs(tracks, m), x) is Some <==> layout_sensor_list(tracks, m).contains(x),
        forall|k: int|
            0 <= k < m && sensors_of_nodes(#[trigger] tracks[k].along_fwd@).contains(x) && (forall|j: int|
                k < j < m ==> !sensors_of_nodes(#[trigger] tracks[j].along_fwd@).contains(x)) ==> last_track_of(
                sensor_track_pairs(tracks, m),
                x,
            ) == Some(tracks[k].id),
    decreases m,
{
    if m > 0 {
        lemma_sensor_track_upto(tracks, m - 1, x);
        let t = tracks[m - 1];
        let xs = sensors_of_nodes(t.along_fwd@);
        let a = sensor_track_pairs(tracks, m - 1);
        let b = xs.map_values(|v: u8| (v, t.id));
        assert(sensor_track_pairs(tracks, m) == a + b);
        lemma_last_track_concat(a, b, x);
        lemma_last_track_mapped(xs, t.id, x);
        let la = layout_sensor_list(tracks, m - 1);
        assert(layout_sensor_list(tracks, m) == la + xs);
        if (la + xs).contains(x) {
            let q = choose|q: int| 0 <= q < (la + xs).len() && (la + xs)[q] == x;
            if q < la.len() {
                assert(la[q] == x);
            } else {
                assert(xs[q - la.len()] == x);
            }
        }
        if la.contains(x) {
            let q = choose|q: int| 0 <= q < la.len() && la[q] == x;
            assert((la + xs)[q] == x);
        }
        if xs.contains(x) {
            let q = choose|q: int| 0 <= q < xs.len() && xs[q] == x;
            assert((la + xs)[la.len() + q] == x);
        }
    }
}

/// With no sensor listed twice, a sensor of track `k` is on no later track.
proof fn lemma_sensor_on_one_track(tracks: Seq<TrackSegment>, k: int, j: int, x: u8)
    requires
        0 <= k < j < tracks.len(),
        distinct(layout_sensor_list(tracks, tracks.len() as int)),
        sensors_of_nodes(tracks[k].along_fwd@).contains(x),
    ensures
        !sensors_of_nodes(tracks[j].along_fwd@).contains(x),
{
    let n = tracks.len() as int;
    if sensors_of_nodes(tracks[j].along_fwd@).contains(x) {
        let xk = sensors_of_nodes(tracks[k].along_fwd@);
        let xj = sensors_of_nodes(tracks[j].along_fwd@);
        let p = choose|p: int| 0 <= p < xk.len() && xk[p] == x;
        let q = choose|q: int| 0 <= q < xj.len() && xj[q] == x;
        let lk = layout_sensor_list(tracks, k);
        let lj = layout_sensor_list(tracks, j);
        assert(layout_sensor_list(tracks, k + 1) == lk + xk);
        assert(layout_sensor_list(tracks, j + 1) == lj + xj);
        lemma_sensor_list_prefix(tracks, k + 1, j);
        lemma_sensor_list_prefix(tracks, k + 1, n);
        lemma_sensor_list_prefix(tracks, j + 1, n);
        let all = layout_sensor_list(tracks, n);
        assert((lk + xk)[lk.len() + p] == x);
        assert(all[lk.len() + p] == x);
        assert((lj + xj)[lj.len() + q] == x);
        assert(all[lj.len() + q] == x);
        assert(lk.len() + p < lj.len() + q);
    }
}

/// The track of each sensor in the graph of a valid layout: exactly the layout's sensors
/// have a track, and every sensor of a track's route tree (points included) maps to that
/// track's id.
pub proof fn lemma_sensor_tracks(layout: TrackLayout, k: int, x: u8)
    requires
        crate::validate::validate_spec(layout) is Ok,
    ensures
        last_track_of(layout_graph(layout).sensor_track, x) is Some <==> layout_graph(layout).sensors.contains(x),
        0 <= k < layout.tracks@.len() && sensors_of_nodes(layout.tracks@[k].along_fwd@).contains(x) ==> last_track_of(
            layout_graph(layout).sensor_track,
            x,
        ) == Some(layout.tracks@[k].id),
{
    let tracks = layout.tracks@;
    let n = tracks.len() as int;
    assert(distinct(layout_sensor_list(tracks, n))) by {
        crate::validate::lemma_valid_layout(layout);
    }
    lemma_sensor_track_upto(tracks, n, x);
    if 0 <= k < n && sensors_of_nodes(tracks[k].along_fwd@).contains(x) {
        assert forall|j: int| k < j < n implies !sensors_of_nodes(#[trigger] tracks[j].along_fwd@).contains(x) by {
            lemma_sensor_on_one_track(tracks, k, j, x);
        }
    }
}

/// Some edge of `es` goes from the end of `e` back to its start.
pub open spec fn has_reverse(es: Seq<EdgeView>, e: EdgeView) -> bool {
    exists|j: int| 0 <= j < es.len() && (#[trigger] es[j]).from == e.to && es[j].to == e.from
}

/// Every edge that does not end at a buffer has an edge in the other direction.
pub open spec fn edges_paired(es: Seq<EdgeView>) -> bool {
    forall|i: int| 0 <= i < es.len() && (#[trigger] es[i]).to != 0 ==> has_reverse(es, es[i])
}

proof fn lemma_reverse_left(a: Seq<EdgeView>, b: Seq<EdgeView>, e: EdgeView)
    requires
        has_reverse(a, e),
    ensures
        has_reverse(a + b, e),
{
    let j = choose|j: int| 0 <= j < a.len() && (#[trigger] a[j]).from == e.to && a[j].to == e.from;
    assert((a + b)[j] == a[j]);
}

proof fn lemma_reverse_right(a: Seq<EdgeView>, b: Seq<EdgeView>, e: EdgeView)
    requires
        has_reverse(b, e),
    ensures
        has_reverse(a + b, e),
{
    let j = choose|j: int| 0 <= j < b.len() && (#[trigger] b[j]).from == e.to && b[j].to == e.from;
    assert((a + b)[a.len() + j] == b[j]);
}

proof fn lemma_paired_concat(a: Seq<EdgeView>, b: Seq<EdgeView>)
    requires
        edges_paired(a),
        edges_paired(b),
    ensures
        edges_paired(a + b),
{
    let c = a + b;
    assert forall|i: int| 0 <= i < c.len() && (#[trigger] c[i]).to != 0 implies has_reverse(c, c[i]) by {
        if i < a.len() {
            assert(c[i] == a[i]);
            assert(has_reverse(a, a[i]));
            lemma_reverse_left(a, b, a[i]);
        } else {
            let k = i - a.len();
            assert(c[i] == b[k]);
            assert(has_reverse(b, b[k]));
            lemma_reverse_right(a, b, b[k]);
        }
    }
}

proof fn lemma_pair_paired(x: EdgeView, y: EdgeView)
    requires
        x.from == y.to,
        x.to == y.from,
    ensures
        edges_paired(seq![x, y]),
{
    let p = seq![x, y];
    assert forall|i: int| 0 <= i < p.len() && (#[trigger] p[i]).to != 0 implies has_reverse(p, p[i]) by {
        if i == 0 {
            assert(p[1] == y);
        } else {
            assert(p[0] == x);
        }
    }
}

proof fn lemma_conn_edges_paired(prev: u8, tid: u8, points: Seq<PointSetting>, targets: Seq<(u8, Seq<PointSetting>)>)
    ensures
        edges_paired(conn_edges(prev, tid, points, targets)),
    decreases targets.len(),
{
    if targets.len() > 0 {
        let rest = targets.drop_last();
        lemma_conn_edges_paired(prev, tid, points, rest);
        let (t, pts) = targets.last();
        let x = crate::graph::mk_edge(prev, t, tid, points + pts, true, crate::graph::TraverseDirection::Fwd);
        let y = crate::graph::mk_edge(t, prev, tid, points + pts, true, crate::graph::TraverseDirection::Bck);
        lemma_pair_paired(x, y);
        lemma_paired_concat(conn_edges(prev, tid, points, rest), seq![x, y]);
        assert(conn_edges(prev, tid, points, targets) == conn_edges(prev, tid, points, rest) + seq![x, y]);
    }
}

proof fn lemma_walk_nodes_paired(
    tracks: Seq<TrackSegment>,
    tid: u8,
    nodes: Seq<RouteNode>,
    points: Seq<PointSetting>,
    crossed: bool,
    last: Option<u8>,
)
    ensures
        edges_paired(walk_nodes_spec(tracks, tid, nodes, points, crossed, last).0),
    decreases nodes,
{
    if nodes.len() > 0 {
        lemma_walk_nodes_paired(tracks, tid, nodes.drop_last(), points, crossed, last);
        let r1 = walk_nodes_spec(tracks, tid, nodes.drop_last(), points, crossed, last);
        lemma_walk_one_paired(tracks, tid, nodes.last(), points, r1.1, r1.2);
        let r2 = walk_one_spec(tracks, tid, nodes.last(), points, r1.1, r1.2);
        lemma_paired_concat(r1.0, r2.0);
    }
}

proof fn lemma_walk_one_paired(
    tracks: Seq<TrackSegment>,
    tid: u8,
    node: RouteNode,
    points: Seq<PointSetting>,
    crossed: bool,
    last: Option<u8>,
)
    ensures
        edges_paired(walk_one_spec(tracks, tid, node, points, crossed, last).0),
    decreases node,
{
    match node {
        RouteNode::Sensor { id } => {
            if let Some(prev) = last {
                lemma_pair_paired(
                    crate::graph::mk_edge(prev, id, tid, points, crossed, crate::graph::TraverseDirection::Fwd),
                    crate::graph::mk_edge(id, prev, tid, points, crossed, crate::graph::TraverseDirection::Bck),
                );
            }
        },
        RouteNode::Connection { peer_track, peer_side, .. } => {
            match find_track(tracks, peer_track) {
                Some(k) => {
                    match last {
                        Some(prev) => {
                            lemma_conn_edges_paired(prev, tid, points, first_reach(tracks[k].along_fwd@, Seq::empty()));
                            lemma_conn_edges_paired(prev, tid, points, last_reach(tracks[k].along_fwd@, Seq::empty()));
                        },
                        None => {},
                    }
                },
                None => {},
            }
        },
        RouteNode::Point { id, entry, thru, branch } => {
            lemma_walk_nodes_paired(tracks, tid, entry.along_fwd@, points, crossed, last);
            let r1 = walk_nodes_spec(tracks, tid, entry.along_fwd@, points, crossed, last);
            let tp = crate::graph::with_setting(points, id, crate::pi_client::PointDirection::Thru);
            let bp = crate::graph::with_setting(points, id, crate::pi_client::PointDirection::Branch);
            lemma_walk_nodes_paired(tracks, tid, thru.along_fwd@, tp, r1.1, r1.2);
            lemma_walk_nodes_paired(tracks, tid, branch.along_fwd@, bp, r1.1, r1.2);
            let r2 = walk_nodes_spec(tracks, tid, thru.along_fwd@, tp, r1.1, r1.2);
            let r3 = walk_nodes_spec(tracks, tid, branch.along_fwd@, bp, r1.1, r1.2);
            lemma_paired_concat(r1.0, r2.0);
            lemma_paired_concat(r1.0 + r2.0, r3.0);
        },
        RouteNode::Buffer => {
            let r = walk_one_spec(tracks, tid, node, points, crossed, last);
            assert forall|i: int| 0 <= i < r.0.len() implies (#[trigger] r.0[i]).to == 0 by {}
        },
        _ => {},
    }
}

proof fn lemma_track_edges_paired(tracks: Seq<TrackSegment>, m: int)
    ensures
        edges_paired(track_edges_upto(tracks, m)),
    decreases m,
{
    if m > 0 {
        lemma_track_edges_paired(tracks, m - 1);
        lemma_walk_nodes_paired(tracks, tracks[m - 1].id, tracks[m - 1].along_fwd@, Seq::empty(), false, None);
        lemma_paired_concat(
            track_edges_upto(tracks, m - 1),
            walk_nodes_spec(tracks, tracks[m - 1].id, tracks[m - 1].along_fwd@, Seq::empty(), false, None).0,
        );
    }
}

proof fn lemma_cross_inner_paired(a: LocView, b: LocView, sa: u8, sbs: Seq<u8>)
    ensures
        edges_paired(cross_inner(a, b, sa, sbs)),
    decreases sbs.len(),
{
    if sbs.len() > 0 {
        lemma_cross_inner_paired(a, b, sa, sbs.drop_last());
        let sb = sbs.last();
        let x = crate::graph::mk_edge(sa, sb, a.track_id, a.points + b.points, true, crate::graph::TraverseDirection::Fwd);
        let y = crate::graph::mk_edge(sb, sa, b.track_id, a.points + b.points, true, crate::graph::TraverseDirection::Bck);
        lemma_pair_paired(x, y);
        let tail: Seq<EdgeView> = if sa != 0 && sb != 0 { seq![x, y] } else { Seq::empty() };
        lemma_paired_concat(cross_inner(a, b, sa, sbs.drop_last()), tail);
    }
}

proof fn lemma_cross_outer_paired(a: LocView, b: LocView, sas: Seq<u8>)
    ensures
        edges_paired(cross_outer(a, b, sas)),
    decreases sas.len(),
{
    if sas.len() > 0 {
        lemma_cross_outer_paired(a, b, sas.drop_last());
        lemma_cross_inner_paired(a, b, sas.last(), adjacent_spec(b));
        lemma_paired_concat(cross_outer(a, b, sas.drop_last()), cross_inner(a, b, sas.last(), adjacent_spec(b)));
    }
}

proof fn lemma_group_row_paired(g: Seq<LocView>, i: int, j: int)
    ensures
        edges_paired(group_row(g, i, j)),
    decreases j - i,
{
    if j > i + 1 {
        lemma_group_row_paired(g, i, j - 1);
        lemma_cross_outer_paired(g[i], g[j - 1], adjacent_spec(g[i]));
        assert(edges_paired(pair_edges(g[i], g[j - 1])));
        lemma_paired_concat(group_row(g, i, j - 1), pair_edges(g[i], g[j - 1]));
    }
}

proof fn lemma_group_edges_paired(g: Seq<LocView>, n: int)
    ensures
        edges_paired(group_edges(g, n)),
    decreases n,
{
    if n > 0 {
        lemma_group_edges_paired(g, n - 1);
        lemma_group_row_paired(g, n - 1, g.len() as int);
        lemma_paired_concat(group_edges(g, n - 1), group_row(g, n - 1, g.len() as int));
    }
}

proof fn lemma_coupler_edges_paired(locs: Seq<LocView>, c: int)
    ensures
        edges_paired(coupler_edges_upto(locs, c)),
    decreases c,
{
    if c > 0 {
        lemma_coupler_edges_paired(locs, c - 1);
        let g = group_of(locs, (c - 1) as u8);
        lemma_group_edges_paired(g, g.len() as int);
        lemma_paired_concat(coupler_edges_upto(locs, c - 1), group_edges(g, g.len() as int));
    }
}

/// Every hop of the graph of a layout that does not end at a buffer can also be travelled
/// in reverse: the graph has an edge from its end back to its start.
pub proof fn lemma_layout_edges_reversible(layout: TrackLayout)
    ensures
        edges_paired(layout_graph(layout).edges),
{
    let tracks = layout.tracks@;
    lemma_track_edges_paired(tracks, tracks.len() as int);
    lemma_coupler_edges_paired(layout_locs(tracks, tracks.len() as int), 256);
    lemma_paired_concat(track_edges_upto(tracks, tracks.len() as int), coupler_edges_spec(tracks));
}

/// Every sensor a connection reaches gets an edge from the sensor before the connection, and
/// one back, carrying the point settings the walk had so far followed by those that lead to
/// the reached sensor.
pub proof fn lemma_conn_edges_carry_settings(
    prev: u8,
    tid: u8,
    points: Seq<PointSetting>,
    targets: Seq<(u8, Seq<PointSetting>)>,
    k: int,
)
    requires
        0 <= k < targets.len(),
    ensures
        exists|q: int|
            0 <= q < conn_edges(prev, tid, points, targets).len() && {
                let e = #[trigger] conn_edges(prev, tid, points, targets)[q];
                e.from == prev && e.to == targets[k].0 && e.points == points + targets[k].1
            },
        exists|q: int|
            0 <= q < conn_edges(prev, tid, points, targets).len() && {
                let e = #[trigger] conn_edges(prev, tid, points, targets)[q];
                e.from == targets[k].0 && e.to == prev && e.points == points + targets[k].1
            },
    decreases targets.len(),
{
    let rest = targets.drop_last();
    let all = conn_edges(prev, tid, points, targets);
    let a = conn_edges(prev, tid, points, rest);
    let (t, pts) = targets.last();
    let pair = seq![
        crate::graph::mk_edge(prev, t, tid, points + pts, true, crate::graph::TraverseDirection::Fwd),
        crate::graph::mk_edge(t, prev, tid, points + pts, true, crate::graph::TraverseDirection::Bck),
    ];
    assert(all == a + pair);
    if k < targets.len() - 1 {
        lemma_conn_edges_carry_settings(prev, tid, points, rest, k);
        assert(rest[k] == targets[k]);
        let q1 = choose|q: int|
            0 <= q < a.len() && {
                let e = #[trigger] a[q];
                e.from == prev && e.to == rest[k].0 && e.points == points + rest[k].1
            };
        assert(all[q1] == a[q1]);
        let q2 = choose|q: int|
            0 <= q < a.len() && {
                let e = #[trigger] a[q];
                e.from == rest[k].0 && e.to == prev && e.points == points + rest[k].1
            };
        assert(all[q2] == a[q2]);
    } else {
        assert(all[a.len() as int] == pair[0]);
        assert(all[a.len() as int + 1] == pair[1]);
    }
}

/// At a connection met after sensor `prev`, the walk of a track adds, for every sensor of
/// the peer track reached through that port, an edge from `prev` to it whose point
/// settings end with those that lead to it.
pub proof fn lemma_connection_edge_settings(
    tracks: Seq<TrackSegment>,
    tid: u8,
    id: u8,
    peer_track: u8,
    peer_side: crate::model::TrackSide,
    points: Seq<PointSetting>,
    crossed: bool,
    prev: u8,
    j: int,
)
    requires
        find_track(tracks, peer_track) is Some,
        ({
            let k = find_track(tracks, peer_track)->Some_0;
            let reach = match peer_side {
                crate::model::TrackSide::Bwd => first_reach(tracks[k].along_fwd@, Seq::empty()),
                crate::model::TrackSide::Fwd => last_reach(tracks[k].along_fwd@, Seq::empty()),
            };
            0 <= j < reach.len()
        }),
    ensures
        ({
            let k = find_track(tracks, peer_track)->Some_0;
            let reach = match peer_side {
                crate::model::TrackSide::Bwd => first_reach(tracks[k].along_fwd@, Seq::empty()),
                crate::model::TrackSide::Fwd => last_reach(tracks[k].along_fwd@, Seq::empty()),
            };
            let es = walk_one_spec(tracks, tid, RouteNode::Connection { id, peer_track, peer_side }, points, crossed, Some(prev)).0;
            exists|q: int|
                0 <= q < es.len() && (#[trigger] es[q]).from == prev && es[q].to == reach[j].0 && es[q].points == points
                    + reach[j].1
        }),
{
    let k = find_track(tracks, peer_track)->Some_0;
    let reach = match peer_side {
        crate::model::TrackSide::Bwd => first_reach(tracks[k].along_fwd@, Seq::empty()),
        crate::model::TrackSide::Fwd => last_reach(tracks[k].along_fwd@, Seq::empty()),
    };
    lemma_conn_edges_carry_settings(prev, tid, points, reach, j);
    let es = walk_one_spec(tracks, tid, RouteNode::Connection { id, peer_track, peer_side }, points, crossed, Some(prev)).0;
    assert(es == conn_edges(prev, tid, points, reach));
    let q = choose|q: int|
        0 <= q < conn_edges(prev, tid, points, reach).len() && {
            let e = #[trigger] conn_edges(prev, tid, points, reach)[q];
            e.from == prev && e.to == reach[j].0 && e.points == points + reach[j].1
        };
    assert(es[q].from == prev);
}

/// The settings of a reached sensor start with the settings the search began with.
proof fn lemma_first_reach_prefix(nodes: Seq<RouteNode>, pts: Seq<PointSetting>)
    ensures
        forall|i: int|
            0 <= i < first_reach(nodes, pts).len() ==> (#[trigger] first_reach(nodes, pts)[i]).1.len() >= pts.len()
                && first_reach(nodes, pts)[i].1.take(pts.len() as int) == pts,
    decreases nodes,
{
    if nodes.len() > 0 {
        match nodes[0] {
            RouteNode::Sensor { id } => {
                assert(first_reach(nodes, pts) == seq![(id, pts)]);
                assert(first_reach(nodes, pts)[0].1.take(pts.len() as int) =~= pts);
            },
            RouteNode::Point { id, entry, thru, branch } => {
                let tp = crate::graph::with_setting(pts, id, crate::pi_client::PointDirection::Thru);
                let bp = crate::graph::with_setting(pts, id, crate::pi_client::PointDirection::Branch);
                lemma_first_reach_prefix(entry.along_fwd@, pts);
                lemma_first_reach_prefix(thru.along_fwd@, tp);
                lemma_first_reach_prefix(branch.along_fwd@, bp);
                let er = first_reach(entry.along_fwd@, pts);
                if er.len() > 0 {
                    assert(first_reach(nodes, pts) == er);
                } else {
                    let a = first_reach(thru.along_fwd@, tp);
                    let b = first_reach(branch.along_fwd@, bp);
                    assert(first_reach(nodes, pts) == a + b);
                    assert forall|i: int| 0 <= i < (a + b).len() implies (#[trigger] (a + b)[i]).1.len() >= pts.len()
                        && (a + b)[i].1.take(pts.len() as int) == pts by {
                        if i < a.len() {
                            assert((a + b)[i] == a[i]);
                            assert(a[i].1.take(tp.len() as int) == tp);
                            assert(a[i].1.take(pts.len() as int) =~= tp.take(pts.len() as int));
                            assert(tp.take(pts.len() as int) =~= pts);
                        } else {
                            let x = i - a.len();
                            assert((a + b)[i] == b[x]);
                            assert(b[x].1.take(bp.len() as int) == bp);
                            assert(b[x].1.take(pts.len() as int) =~= bp.take(pts.len() as int));
                            assert(bp.take(pts.len() as int) =~= pts);
                        }
                    }
                }
            },
            _ => {
                lemma_first_reach_prefix(nodes.drop_first(), pts);
                assert(first_reach(nodes, pts) == first_reach(nodes.drop_first(), pts));
            },
        }
    }
}

/// Different sensors reached through a track's BWD port need different point settings: no
/// two entries of the search share their settings, so two sidings behind the same point are
/// told apart by that point's setting.
pub proof fn lemma_first_reach_settings_distinct(nodes: Seq<RouteNode>, pts: Seq<PointSetting>)
    ensures
        forall|i: int, j: int|
            0 <= i < j < first_reach(nodes, pts).len() ==> (#[trigger] first_reach(nodes, pts)[i]).1 != (
            #[trigger] first_reach(nodes, pts)[j]).1,
    decreases nodes,
{
    if nodes.len() > 0 {
        match nodes[0] {
            RouteNode::Sensor { id } => {
                assert(first_reach(nodes, pts) == seq![(id, pts)]);
            },
            RouteNode::Point { id, entry, thru, branch } => {
                let tp = crate::graph::with_setting(pts, id, crate::pi_client::PointDirection::Thru);
                let bp = crate::graph::with_setting(pts, id, crate::pi_client::PointDirection::Branch);
                lemma_first_reach_settings_distinct(entry.along_fwd@, pts);
                lemma_first_reach_settings_distinct(thru.along_fwd@, tp);
                lemma_first_reach_settings_distinct(branch.along_fwd@, bp);
                lemma_first_reach_prefix(thru.along_fwd@, tp);
                lemma_first_reach_prefix(branch.along_fwd@, bp);
                let er = first_reach(entry.along_fwd@, pts);
                if er.len() > 0 {
                    assert(first_reach(nodes, pts) == er);
                } else {
                    let a = first_reach(thru.along_fwd@, tp);
                    let b = first_reach(branch.along_fwd@, bp);
                    assert(first_reach(nodes, pts) == a + b);
                    let n = pts.len() as int;
                    assert forall|i: int, j: int| 0 <= i < j < (a + b).len() implies (#[trigger] (a + b)[i]).1 != (
                    #[trigger] (a + b)[j]).1 by {
                        if j < a.len() {
                            assert((a + b)[i] == a[i] && (a + b)[j] == a[j]);
                        } else if i >= a.len() {
                            assert((a + b)[i] == b[i - a.len()] && (a + b)[j] == b[j - a.len()]);
                        } else {
                            let x = j - a.len();
                            assert((a + b)[i] == a[i] && (a + b)[j] == b[x]);
                            assert(a[i].1.take(tp.len() as int) == tp);
                            assert(b[x].1.take(bp.len() as int) == bp);
                            assert(a[i].1[n] == tp.take(tp.len() as int)[n]);
                            assert(b[x].1[n] == bp.take(bp.len() as int)[n]);
                            assert(tp[n].direction != bp[n].direction);
                        }
                    }
                }
            },
            _ => {
                lemma_first_reach_settings_distinct(nodes.drop_first(), pts);
                assert(first_reach(nodes, pts) == first_reach(nodes.drop_first(), pts));
            },
        }
    }
}

} // verus!
