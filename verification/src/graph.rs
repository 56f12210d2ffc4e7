//! Sensor-to-sensor adjacency graph built from a [`TrackLayout`].
//!
//! The graph holds every one-hop movement between adjacent sensors on the layout, annotated
//! with the track segment traversed, the point settings required and the direction of travel
//! along the segment. Routes are shortest walks in this graph.

use vstd::prelude::*;

use crate::model::{sensors_of_nodes, RouteNode, TrackLayout, TrackSegment, TrackSide};
use crate::pi_client::{point_direction_text, PointDirection};
use crate::text::{decimal, push_decimal, push_str};

verus! {

/// Direction of travel along a segment's `along_fwd` order.
#[derive(Debug, Clone, Copy, PartialEq, Eq, Hash, Structural)]
pub enum TraverseDirection {
    Fwd,
    Bck,
}

/// A point switch setting required for a hop.
#[derive(Debug, Clone, Copy, PartialEq, Eq, Hash, Structural)]
pub struct PointSetting {
    pub point_id: u8,
    pub direction: PointDirection,
}

/// Text of one point setting, such as `P5=THRU`.
pub open spec fn point_setting_text(ps: PointSetting) -> Seq<char> {
    "P"@ + decimal(ps.point_id as nat) + "="@ + point_direction_text(ps.direction)
}

impl PointSetting {
    /// The setting as text, such as `P5=THRU`.
    pub fn to_string(&self) -> (s: String)
        ensures
            s@ == point_setting_text(*self),
    {
        let mut s = String::new();
        push_str(&mut s, "P");
        push_decimal(&mut s, self.point_id as u64);
        push_str(&mut s, "=");
        push_str(&mut s, self.direction.as_str());
        assert(s@ =~= point_setting_text(*self));
        s
    }
}

/// One edge in the sensor graph: a direct hop from one sensor to another (or to a dead end).
#[derive(Debug, PartialEq, Eq)]
pub struct SensorEdge {
    /// Source sensor id.
    pub from: u8,
    /// Destination sensor id (0 if dead end / buffer).
    pub to: u8,
    /// Track segment this edge is attributed to.
    pub track_id: u8,
    /// Points that must be set for this hop to be valid.
    pub points: Vec<PointSetting>,
    /// True if this edge crosses a connection or coupler to a different track segment.
    pub crosses_connection: bool,
    /// Direction of travel along the segment's `along_fwd` order.
    pub traverse_direction: TraverseDirection,
}

/// Mathematical value of a [`SensorEdge`].
pub struct EdgeView {
    pub from: u8,
    pub to: u8,
    pub track_id: u8,
    pub points: Seq<PointSetting>,
    pub crosses_connection: bool,
    pub traverse_direction: TraverseDirection,
}

impl View for SensorEdge {
    type V = EdgeView;

    open spec fn view(&self) -> EdgeView {
        EdgeView {
            from: self.from,
            to: self.to,
            track_id: self.track_id,
            points: self.points@,
            crosses_connection: self.crosses_connection,
            traverse_direction: self.traverse_direction,
        }
    }
}

/// Views of a sequence of edges.
pub open spec fn edges_view(s: Seq<SensorEdge>) -> Seq<EdgeView> {
    s.map_values(|e: SensorEdge| e@)
}

/// The edge value with the given fields.
pub open spec fn mk_edge(
    from: u8,
    to: u8,
    track_id: u8,
    points: Seq<PointSetting>,
    crosses: bool,
    dir: TraverseDirection,
) -> EdgeView {
    EdgeView {
        from,
        to,
        track_id,
        points,
        crosses_connection: crosses,
        traverse_direction: dir,
    }
}

/// `points` followed by the setting of point `id` to `d`.
pub open spec fn with_setting(points: Seq<PointSetting>, id: u8, d: PointDirection) -> Seq<
    PointSetting,
> {
    points.push(PointSetting { point_id: id, direction: d })
}

/// Sensors first met when entering a node list from its BWD (start) side, each with the point
/// settings needed to reach it. A point explores its entry leg; only when the entry leg holds no
/// reachable sensor are the thru and branch legs explored.
pub open spec fn first_reach(nodes: Seq<RouteNode>, pts: Seq<PointSetting>) -> Seq<
    (u8, Seq<PointSetting>),
>
    decreases nodes,
{
    if nodes.len() == 0 {
        Seq::empty()
    } else {
        match nodes[0] {
            RouteNode::Sensor { id } => seq![(id, pts)],
            RouteNode::Point { id, entry, thru, branch } => {
                let er = first_reach(entry.along_fwd@, pts);
                if er.len() > 0 {
                    er
                } else {
                    first_reach(thru.along_fwd@, with_setting(pts, id, PointDirection::Thru))
                        + first_reach(
                        branch.along_fwd@,
                        with_setting(pts, id, PointDirection::Branch),
                    )
                }
            },
            _ => first_reach(nodes.drop_first(), pts),
        }
    }
}

/// Sensors first met when entering a node list from its FWD (end) side: a point explores its
/// thru leg, then its branch leg, then its entry leg.
pub open spec fn last_reach(nodes: Seq<RouteNode>, pts: Seq<PointSetting>) -> Seq<
    (u8, Seq<PointSetting>),
>
    decreases nodes,
{
    if nodes.len() == 0 {
        Seq::empty()
    } else {
        match nodes.last() {
            RouteNode::Sensor { id } => seq![(id, pts)],
            RouteNode::Point { id, entry, thru, branch } => last_reach(
                thru.along_fwd@,
                with_setting(pts, id, PointDirection::Thru),
            ) + last_reach(branch.along_fwd@, with_setting(pts, id, PointDirection::Branch))
                + last_reach(entry.along_fwd@, pts),
            _ => last_reach(nodes.drop_last(), pts),
        }
    }
}

/// Index of the first track with the given id.
pub open spec fn find_track(tracks: Seq<TrackSegment>, id: u8) -> Option<int>
    decreases tracks.len(),
{
    if tracks.len() == 0 {
        None
    } else {
        match find_track(tracks.drop_last(), id) {
            Some(k) => Some(k),
            None => if tracks.last().id == id {
                Some(tracks.len() - 1)
            } else {
                None
            },
        }
    }
}

/// Edges in both directions between `prev` and every reached sensor of a connection.
pub open spec fn conn_edges(
    prev: u8,
    tid: u8,
    points: Seq<PointSetting>,
    targets: Seq<(u8, Seq<PointSetting>)>,
) -> Seq<EdgeView>
    decreases targets.len(),
{
    if targets.len() == 0 {
        Seq::empty()
    } else {
        let (t, pts) = targets.last();
        conn_edges(prev, tid, points, targets.drop_last()) + seq![
            mk_edge(prev, t, tid, points + pts, true, TraverseDirection::Fwd),
            mk_edge(t, prev, tid, points + pts, true, TraverseDirection::Bck),
        ]
    }
}

/// Edges produced by walking a node list of track `tid` with the given point context,
/// "crossed a connection" flag and last sensor seen; with the final flag and last sensor.
/// The flag tells whether a connection lies between the last sensor seen and the next
/// one: every sensor clears it, and a connection sets it.
pub open spec fn walk_nodes_spec(
    tracks: Seq<TrackSegment>,
    tid: u8,
    nodes: Seq<RouteNode>,
    points: Seq<PointSetting>,
    crossed: bool,
    last: Option<u8>,
) -> (Seq<EdgeView>, bool, Option<u8>)
    decreases nodes,
{
    if nodes.len() == 0 {
        (Seq::empty(), crossed, last)
    } else {
        let r1 = walk_nodes_spec(tracks, tid, nodes.drop_last(), points, crossed, last);
        let r2 = walk_one_spec(tracks, tid, nodes.last(), points, r1.1, r1.2);
        (r1.0 + r2.0, r2.1, r2.2)
    }
}

/// Edges produced by walking one node (see [`walk_nodes_spec`]).
pub open spec fn walk_one_spec(
    tracks: Seq<TrackSegment>,
    tid: u8,
    node: RouteNode,
    points: Seq<PointSetting>,
    crossed: bool,
    last: Option<u8>,
) -> (Seq<EdgeView>, bool, Option<u8>)
    decreases node,
{
    match node {
        RouteNode::Sensor { id } => match last {
            Some(prev) => (
                seq![
                    mk_edge(prev, id, tid, points, crossed, TraverseDirection::Fwd),
                    mk_edge(id, prev, tid, points, crossed, TraverseDirection::Bck),
                ],
                false,
                Some(id),
            ),
            None => (Seq::empty(), false, Some(id)),
        },
        RouteNode::Connection { peer_track, peer_side, .. } => {
            let es = match find_track(tracks, peer_track) {
                Some(k) => match last {
                    Some(prev) => conn_edges(
                        prev,
                        tid,
                        points,
                        match peer_side {
                            TrackSide::Bwd => first_reach(tracks[k].along_fwd@, Seq::empty()),
                            TrackSide::Fwd => last_reach(tracks[k].along_fwd@, Seq::empty()),
                        },
                    ),
                    None => Seq::empty(),
                },
                None => Seq::empty(),
            };
            (es, true, last)
        },
        RouteNode::Point { id, entry, thru, branch } => {
            let r1 = walk_nodes_spec(tracks, tid, entry.along_fwd@, points, crossed, last);
            let r2 = walk_nodes_spec(
                tracks,
                tid,
                thru.along_fwd@,
                with_setting(points, id, PointDirection::Thru),
                r1.1,
                r1.2,
            );
            let r3 = walk_nodes_spec(
                tracks,
                tid,
                branch.along_fwd@,
                with_setting(points, id, PointDirection::Branch),
                r1.1,
                r1.2,
            );
            (r1.0 + r2.0 + r3.0, r1.1, r1.2)
        },
        RouteNode::Buffer => match last {
            Some(prev) => (
                seq![mk_edge(prev, 0, tid, points, false, TraverseDirection::Fwd)],
                crossed,
                last,
            ),
            None => (Seq::empty(), crossed, last),
        },
        _ => (Seq::empty(), crossed, last),
    }
}

/// A sensor reached through a connection, with the point settings needed to reach it.
struct Reached {
    sensor: u8,
    points: Vec<PointSetting>,
}

spec fn reached_view(s: Seq<Reached>) -> Seq<(u8, Seq<PointSetting>)> {
    s.map_values(|r: Reached| (r.sensor, r.points@))
}

/// A copy of a list of point settings.
fn copy_points(v: &Vec<PointSetting>) -> (r: Vec<PointSetting>)
    ensures
        r@ == v@,
{
    let mut r: Vec<PointSetting> = Vec::new();
    let mut i: usize = 0;
    while i < v.len()
        invariant
            0 <= i <= v.len(),
            r@ == v@.take(i as int),
        decreases v.len() - i,
    {
        r.push(v[i]);
        i = i + 1;
        assert(r@ =~= v@.take(i as int));
    }
    assert(v@.take(v.len() as int) =~= v@);
    r
}

/// `a` followed by `b`.
fn concat_points(a: &Vec<PointSetting>, b: &Vec<PointSetting>) -> (r: Vec<PointSetting>)
    ensures
        r@ == a@ + b@,
{
    let mut r = copy_points(a);
    let mut i: usize = 0;
    while i < b.len()
        invariant
            0 <= i <= b.len(),
            r@ == a@ + b@.take(i as int),
        decreases b.len() - i,
    {
        r.push(b[i]);
        i = i + 1;
        assert(r@ =~= a@ + b@.take(i as int));
    }
    assert(b@.take(b.len() as int) =~= b@);
    r
}

/// `points` followed by one more setting.
fn push_setting(points: &Vec<PointSetting>, id: u8, d: PointDirection) -> (r: Vec<PointSetting>)
    ensures
        r@ == with_setting(points@, id, d),
{
    let mut r = copy_points(points);
    r.push(PointSetting { point_id: id, direction: d });
    r
}

/// An edge with the given fields.
fn make_edge(
    from: u8,
    to: u8,
    track_id: u8,
    points: &Vec<PointSetting>,
    crosses: bool,
    dir: TraverseDirection,
) -> (e: SensorEdge)
    ensures
        e@ == mk_edge(from, to, track_id, points@, crosses, dir),
{
    SensorEdge {
        from,
        to,
        track_id,
        points: copy_points(points),
        crosses_connection: crosses,
        traverse_direction: dir,
    }
}

impl SensorEdge {
    /// A copy of this edge.
    pub fn duplicate(&self) -> (e: SensorEdge)
        ensures
            e@ == self@,
    {
        make_edge(
            self.from,
            self.to,
            self.track_id,
            &self.points,
            self.crosses_connection,
            self.traverse_direction,
        )
    }
}

/// Appends `e` to `edges`.
fn push_edge(edges: &mut Vec<SensorEdge>, e: SensorEdge)
    ensures
        edges_view(final(edges)@) == edges_view(old(edges)@).push(e@),
{
    edges.push(e);
    assert(edges_view(edges@) =~= edges_view(old(edges)@).push(e@));
}

/// Sensors first reached when entering `nodes` from the BWD side.
fn first_reachable_sensors(nodes: &Vec<RouteNode>, pts: &Vec<PointSetting>) -> (res: Vec<Reached>)
    ensures
        reached_view(res@) == first_reach(nodes@, pts@),
    decreases nodes@,
{
    let n = nodes.len();
    let mut i: usize = 0;
    assert(nodes@.skip(0) =~= nodes@);
    while i < n
        invariant
            n == nodes@.len(),
            0 <= i <= n,
            first_reach(nodes@, pts@) == first_reach(nodes@.skip(i as int), pts@),
        decreases n - i,
    {
        assert(nodes@.skip(i as int)[0] == nodes@[i as int]);
        match &nodes[i] {
            RouteNode::Sensor { id } => {
                let mut res: Vec<Reached> = Vec::new();
                res.push(Reached { sensor: *id, points: copy_points(pts) });
                assert(reached_view(res@) =~= first_reach(nodes@, pts@));
                return res;
            },
            RouteNode::Point { id, entry, thru, branch } => {
                let er = first_reachable_sensors(&entry.along_fwd, pts);
                if er.len() > 0 {
                    return er;
                }
                let thru_pts = push_setting(pts, *id, PointDirection::Thru);
                let mut res = first_reachable_sensors(&thru.along_fwd, &thru_pts);
                let branch_pts = push_setting(pts, *id, PointDirection::Branch);
                let mut br = first_reachable_sensors(&branch.along_fwd, &branch_pts);
                let ghost r1 = reached_view(res@);
                let ghost r2 = reached_view(br@);
                res.append(&mut br);
                assert(reached_view(res@) =~= r1 + r2);
                return res;
            },
            _ => {
                assert(nodes@.skip(i as int).drop_first() =~= nodes@.skip(i + 1));
            },
        }
        i = i + 1;
    }
    assert(nodes@.skip(n as int) =~= Seq::<RouteNode>::empty());
    Vec::new()
}

/// Sensors first reached when entering `nodes` from the FWD side.
fn last_reachable_sensors(nodes: &Vec<RouteNode>, pts: &Vec<PointSetting>) -> (res: Vec<Reached>)
    ensures
        reached_view(res@) == last_reach(nodes@, pts@),
    decreases nodes@,
{
    let mut i: usize = nodes.len();
    assert(nodes@.take(i as int) =~= nodes@);
    while i > 0
        invariant
            0 <= i <= nodes@.len(),
            last_reach(nodes@, pts@) == last_reach(nodes@.take(i as int), pts@),
        decreases i,
    {
        assert(nodes@.take(i as int).last() == nodes@[i - 1]);
        match &nodes[i - 1] {
            RouteNode::Sensor { id } => {
                let mut res: Vec<Reached> = Vec::new();
                res.push(Reached { sensor: *id, points: copy_points(pts) });
                assert(reached_view(res@) =~= last_reach(nodes@, pts@));
                return res;
            },
            RouteNode::Point { id, entry, thru, branch } => {
                let thru_pts = push_setting(pts, *id, PointDirection::Thru);
                let mut res = last_reachable_sensors(&thru.along_fwd, &thru_pts);
                let branch_pts = push_setting(pts, *id, PointDirection::Branch);
                let mut br = last_reachable_sensors(&branch.along_fwd, &branch_pts);
                let mut en = last_reachable_sensors(&entry.along_fwd, pts);
                let ghost r1 = reached_view(res@);
                let ghost r2 = reached_view(br@);
                let ghost r3 = reached_view(en@);
                res.append(&mut br);
                res.append(&mut en);
                assert(reached_view(res@) =~= r1 + r2 + r3);
                return res;
            },
            _ => {
                assert(nodes@.take(i as int).drop_last() =~= nodes@.take(i - 1));
            },
        }
        i = i - 1;
    }
    assert(nodes@.take(0) =~= Seq::<RouteNode>::empty());
    Vec::new()
}

/// Index of the first track with id `id`.
fn find_track_index(tracks: &Vec<TrackSegment>, id: u8) -> (res: Option<usize>)
    ensures
        match res {
            Some(k) => k < tracks@.len() && find_track(tracks@, id) == Some(k as int),
            None => find_track(tracks@, id) is None,
        },
{
    let mut k: usize = 0;
    while k < tracks.len()
        invariant
            0 <= k <= tracks@.len(),
            find_track(tracks@.take(k as int), id) is None,
        decreases tracks.len() - k,
    {
        assert(tracks@.take(k + 1).drop_last() =~= tracks@.take(k as int));
        if tracks[k].id == id {
            proof {
                lemma_find_track_prefix(tracks@, id, k + 1);
            }
            return Some(k);
        }
        k = k + 1;
    }
    assert(tracks@.take(tracks.len() as int) =~= tracks@);
    None
}

/// A match found in a prefix is the match of the whole list.
proof fn lemma_find_track_prefix(tracks: Seq<TrackSegment>, id: u8, n: int)
    requires
        0 <= n <= tracks.len(),
        find_track(tracks.take(n), id) is Some,
    ensures
        find_track(tracks, id) == find_track(tracks.take(n), id),
    decreases tracks.len() - n,
{
    if n < tracks.len() {
        assert(tracks.take(n + 1).drop_last() =~= tracks.take(n));
        lemma_find_track_prefix(tracks, id, n + 1);
    } else {
        assert(tracks.take(n) =~= tracks);
    }
}

/// Appends the connection edges between `prev` and every target.
fn push_conn_edges(
    prev: u8,
    tid: u8,
    points: &Vec<PointSetting>,
    targets: &Vec<Reached>,
    edges: &mut Vec<SensorEdge>,
)
    ensures
        edges_view(final(edges)@) == edges_view(old(edges)@) + conn_edges(
            prev,
            tid,
            points@,
            reached_view(targets@),
        ),
{
    let ghost start = edges_view(edges@);
    let mut j: usize = 0;
    while j < targets.len()
        invariant
            0 <= j <= targets@.len(),
            edges_view(edges@) == start + conn_edges(
                prev,
                tid,
                points@,
                reached_view(targets@.take(j as int)),
            ),
        decreases targets.len() - j,
    {
        let pts = concat_points(points, &targets[j].points);
        let t = targets[j].sensor;
        push_edge(edges, make_edge(prev, t, tid, &pts, true, TraverseDirection::Fwd));
        push_edge(edges, make_edge(t, prev, tid, &pts, true, TraverseDirection::Bck));
        proof {
            let tv = reached_view(targets@.take(j + 1));
            assert(tv.drop_last() =~= reached_view(targets@.take(j as int)));
            assert(tv.last() == (t, targets@[j as int].points@));
        }
        j = j + 1;
        assert(edges_view(edges@) =~= start + conn_edges(
            prev,
            tid,
            points@,
            reached_view(targets@.take(j as int)),
        ));
    }
    assert(targets@.take(targets.len() as int) =~= targets@);
}

/// Walks a node list of track `tid`, appending the edges found (see [`walk_nodes_spec`]).
fn walk_nodes(
    tracks: &Vec<TrackSegment>,
    tid: u8,
    nodes: &Vec<RouteNode>,
    points: &Vec<PointSetting>,
    crossed: &mut bool,
    last: Option<u8>,
    edges: &mut Vec<SensorEdge>,
) -> (res: Option<u8>)
    ensures
        ({
            let r = walk_nodes_spec(tracks@, tid, nodes@, points@, *old(crossed), last);
            &&& edges_view(final(edges)@) == edges_view(old(edges)@) + r.0
            &&& *final(crossed) == r.1
            &&& res == r.2
        }),
    decreases nodes@,
{
    let ghost start = edges_view(edges@);
    let ghost c0 = *crossed;
    let mut current = last;
    let mut i: usize = 0;
    assert(nodes@.take(0) =~= Seq::<RouteNode>::empty());
    while i < nodes.len()
        invariant
            0 <= i <= nodes@.len(),
            ({
                let r = walk_nodes_spec(tracks@, tid, nodes@.take(i as int), points@, c0, last);
                &&& edges_view(edges@) == start + r.0
                &&& *crossed == r.1
                &&& current == r.2
            }),
        decreases nodes.len() - i,
    {
        assert(nodes@.take(i + 1).drop_last() =~= nodes@.take(i as int));
        assert(nodes@.take(i + 1).last() == nodes@[i as int]);
        current = walk_one_node(tracks, tid, &nodes[i], points, crossed, current, edges);
        i = i + 1;
        proof {
            let r = walk_nodes_spec(tracks@, tid, nodes@.take(i as int), points@, c0, last);
            assert(edges_view(edges@) =~= start + r.0);
        }
    }
    assert(nodes@.take(nodes.len() as int) =~= nodes@);
    current
}

/// Walks one node of track `tid` (see [`walk_one_spec`]).
fn walk_one_node(
    tracks: &Vec<TrackSegment>,
    tid: u8,
    node: &RouteNode,
    points: &Vec<PointSetting>,
    crossed: &mut bool,
    last: Option<u8>,
    edges: &mut Vec<SensorEdge>,
) -> (res: Option<u8>)
    ensures
        ({
            let r = walk_one_spec(tracks@, tid, *node, points@, *old(crossed), last);
            &&& edges_view(final(edges)@) == edges_view(old(edges)@) + r.0
            &&& *final(crossed) == r.1
            &&& res == r.2
        }),
    decreases node,
{
    let ghost start = edges_view(edges@);
    match node {
        RouteNode::Sensor { id } => {
            if let Some(prev) = last {
                push_edge(edges, make_edge(prev, *id, tid, points, *crossed, TraverseDirection::Fwd));
                push_edge(edges, make_edge(*id, prev, tid, points, *crossed, TraverseDirection::Bck));
                *crossed = false;
                assert(edges_view(edges@) =~= start + walk_one_spec(
                    tracks@,
                    tid,
                    *node,
                    points@,
                    *old(crossed),
                    last,
                ).0);
            } else {
                *crossed = false;
                assert(edges_view(edges@) =~= start + Seq::empty());
            }
            Some(*id)
        },
        RouteNode::Connection { peer_track, peer_side, .. } => {
            *crossed = true;
            let found = find_track_index(tracks, *peer_track);
            match found {
                Some(k) => {
                    match last {
                        Some(prev) => {
                            let empty: Vec<PointSetting> = Vec::new();
                            let targets = match peer_side {
                                TrackSide::Bwd => first_reachable_sensors(
                                    &tracks[k].along_fwd,
                                    &empty,
                                ),
                                TrackSide::Fwd => last_reachable_sensors(
                                    &tracks[k].along_fwd,
                                    &empty,
                                ),
                            };
                            assert(empty@ =~= Seq::<PointSetting>::empty());
                            push_conn_edges(prev, tid, points, &targets, edges);
                        },
                        None => {
                            assert(edges_view(edges@) =~= start + Seq::empty());
                        },
                    }
                },
                None => {
                    assert(edges_view(edges@) =~= start + Seq::empty());
                },
            }
            last
        },
        RouteNode::Point { id, entry, thru, branch } => {
            let after_entry = walk_nodes(tracks, tid, &entry.along_fwd, points, crossed, last, edges);
            let saved = *crossed;
            let thru_pts = push_setting(points, *id, PointDirection::Thru);
            walk_nodes(tracks, tid, &thru.along_fwd, &thru_pts, crossed, after_entry, edges);
            *crossed = saved;
            let branch_pts = push_setting(points, *id, PointDirection::Branch);
            walk_nodes(tracks, tid, &branch.along_fwd, &branch_pts, crossed, after_entry, edges);
            *crossed = saved;
            assert(edges_view(edges@) =~= start + walk_one_spec(
                tracks@,
                tid,
                *node,
                points@,
                *old(crossed),
                last,
            ).0);
            after_entry
        },
        RouteNode::Buffer => {
            if let Some(prev) = last {
                push_edge(edges, make_edge(prev, 0, tid, points, false, TraverseDirection::Fwd));
                assert(edges_view(edges@) =~= start + walk_one_spec(
                    tracks@,
                    tid,
                    *node,
                    points@,
                    *old(crossed),
                    last,
                ).0);
            } else {
                assert(edges_view(edges@) =~= start + Seq::empty());
            }
            last
        },
        _ => {
            assert(edges_view(edges@) =~= start + Seq::empty());
            last
        },
    }
}

/// An item of a route flattened for coupler scanning (view).
pub enum FlatView {
    Sensor(u8),
    Coupler(u8, Seq<PointSetting>),
}

/// Sensors and couplers of a node list in preorder, each coupler with its point context.
pub open spec fn flatten_nodes_spec(nodes: Seq<RouteNode>, ctx: Seq<PointSetting>) -> Seq<FlatView>
    decreases nodes,
{
    if nodes.len() == 0 {
        Seq::empty()
    } else {
        flatten_nodes_spec(nodes.drop_last(), ctx) + flatten_one_spec(nodes.last(), ctx)
    }
}

/// Sensors and couplers of one node (see [`flatten_nodes_spec`]).
pub open spec fn flatten_one_spec(node: RouteNode, ctx: Seq<PointSetting>) -> Seq<FlatView>
    decreases node,
{
    match node {
        RouteNode::Sensor { id } => seq![FlatView::Sensor(id)],
        RouteNode::Coupler { id } => seq![FlatView::Coupler(id, ctx)],
        RouteNode::Point { id, entry, thru, branch } => flatten_nodes_spec(entry.along_fwd@, ctx)
            + flatten_nodes_spec(thru.along_fwd@, with_setting(ctx, id, PointDirection::Thru))
            + flatten_nodes_spec(branch.along_fwd@, with_setting(ctx, id, PointDirection::Branch)),
        _ => Seq::empty(),
    }
}

/// The last sensor strictly before position `k` of a flattened route (0 if none).
pub open spec fn sensor_before(flat: Seq<FlatView>, k: int) -> u8
    decreases k,
{
    if k <= 0 {
        0
    } else {
        match flat[k - 1] {
            FlatView::Sensor(s) => s,
            _ => sensor_before(flat, k - 1),
        }
    }
}

/// The first sensor at or after position `k` of a flattened route (0 if none).
pub open spec fn sensor_after(flat: Seq<FlatView>, k: int) -> u8
    decreases flat.len() - k,
{
    if k < 0 || k >= flat.len() {
        0
    } else {
        match flat[k] {
            FlatView::Sensor(s) => s,
            _ => sensor_after(flat, k + 1),
        }
    }
}

/// Where a coupler occurs on a track, and the sensors next to it (view).
pub struct LocView {
    pub coupler: u8,
    pub track_id: u8,
    pub before: u8,
    pub after: u8,
    pub points: Seq<PointSetting>,
}

/// Coupler occurrences among the first `n` items of a flattened route of track `tid`.
pub open spec fn locs_spec(flat: Seq<FlatView>, tid: u8, n: int) -> Seq<LocView>
    decreases n,
{
    if n <= 0 {
        Seq::empty()
    } else {
        locs_spec(flat, tid, n - 1) + match flat[n - 1] {
            FlatView::Coupler(id, pts) => seq![
                LocView {
                    coupler: id,
                    track_id: tid,
                    before: sensor_before(flat, n - 1),
                    after: sensor_after(flat, n),
                    points: pts,
                },
            ],
            _ => Seq::empty(),
        }
    }
}

/// Coupler occurrences of one track.
pub open spec fn track_locs(t: TrackSegment) -> Seq<LocView> {
    let flat = flatten_nodes_spec(t.along_fwd@, Seq::empty());
    locs_spec(flat, t.id, flat.len() as int)
}

/// Coupler occurrences of the first `m` tracks, in track order.
pub open spec fn layout_locs(tracks: Seq<TrackSegment>, m: int) -> Seq<LocView>
    decreases m,
{
    if m <= 0 {
        Seq::empty()
    } else {
        layout_locs(tracks, m - 1) + track_locs(tracks[m - 1])
    }
}

/// The occurrences of coupler `id`, in order.
pub open spec fn group_of(locs: Seq<LocView>, id: u8) -> Seq<LocView>
    decreases locs.len(),
{
    if locs.len() == 0 {
        Seq::empty()
    } else {
        group_of(locs.drop_last(), id) + if locs.last().coupler == id {
            seq![locs.last()]
        } else {
            Seq::empty()
        }
    }
}

/// Nonzero sensors next to a coupler occurrence (before, then after).
pub open spec fn adjacent_spec(l: LocView) -> Seq<u8> {
    (if l.before != 0 {
        seq![l.before]
    } else {
        Seq::empty()
    }) + (if l.after != 0 {
        seq![l.after]
    } else {
        Seq::empty()
    })
}

/// Edges between sensor `sa` next to `a` and each of `sbs` next to `b`.
pub open spec fn cross_inner(a: LocView, b: LocView, sa: u8, sbs: Seq<u8>) -> Seq<EdgeView>
    decreases sbs.len(),
{
    if sbs.len() == 0 {
        Seq::empty()
    } else {
        let sb = sbs.last();
        cross_inner(a, b, sa, sbs.drop_last()) + if sa != 0 && sb != 0 {
            seq![
                mk_edge(sa, sb, a.track_id, a.points + b.points, true, TraverseDirection::Fwd),
                mk_edge(sb, sa, b.track_id, a.points + b.points, true, TraverseDirection::Bck),
            ]
        } else {
            Seq::empty()
        }
    }
}

/// Edges between each of `sas` next to `a` and each sensor next to `b`.
pub open spec fn cross_outer(a: LocView, b: LocView, sas: Seq<u8>) -> Seq<EdgeView>
    decreases sas.len(),
{
    if sas.len() == 0 {
        Seq::empty()
    } else {
        cross_outer(a, b, sas.drop_last()) + cross_inner(a, b, sas.last(), adjacent_spec(b))
    }
}

/// Edges through a coupler between two of its occurrences (none on the same track).
pub open spec fn pair_edges(a: LocView, b: LocView) -> Seq<EdgeView> {
    if a.track_id == b.track_id {
        Seq::empty()
    } else {
        cross_outer(a, b, adjacent_spec(a))
    }
}

/// Edges between occurrence `i` and occurrences `i+1 .. j` of a group.
pub open spec fn group_row(g: Seq<LocView>, i: int, j: int) -> Seq<EdgeView>
    decreases j - i,
{
    if j <= i + 1 {
        Seq::empty()
    } else {
        group_row(g, i, j - 1) + pair_edges(g[i], g[j - 1])
    }
}

/// Edges between all pairs `i < j` of a group with `i < n`.
pub open spec fn group_edges(g: Seq<LocView>, n: int) -> Seq<EdgeView>
    decreases n,
{
    if n <= 0 {
        Seq::empty()
    } else {
        group_edges(g, n - 1) + group_row(g, n - 1, g.len() as int)
    }
}

/// Coupler edges of all coupler ids below `c`, by ascending id.
pub open spec fn coupler_edges_upto(locs: Seq<LocView>, c: int) -> Seq<EdgeView>
    decreases c,
{
    if c <= 0 {
        Seq::empty()
    } else {
        let g = group_of(locs, (c - 1) as u8);
        coupler_edges_upto(locs, c - 1) + group_edges(g, g.len() as int)
    }
}

/// All edges through couplers of a layout.
pub open spec fn coupler_edges_spec(tracks: Seq<TrackSegment>) -> Seq<EdgeView> {
    coupler_edges_upto(layout_locs(tracks, tracks.len() as int), 256)
}

/// A sensor or a coupler occurrence in a flattened route.
enum FlatItem {
    Sensor(u8),
    Coupler(u8, Vec<PointSetting>),
}

spec fn flat_view(s: Seq<FlatItem>) -> Seq<FlatView> {
    s.map_values(
        |f: FlatItem|
            match f {
                FlatItem::Sensor(x) => FlatView::Sensor(x),
                FlatItem::Coupler(x, p) => FlatView::Coupler(x, p@),
            },
    )
}

fn push_flat(out: &mut Vec<FlatItem>, f: FlatItem)
    ensures
        flat_view(final(out)@) == flat_view(old(out)@) + flat_view(seq![f]),
{
    out.push(f);
    assert(flat_view(out@) =~= flat_view(old(out)@) + flat_view(seq![f]));
}

fn flatten_nodes(nodes: &Vec<RouteNode>, ctx: &Vec<PointSetting>, out: &mut Vec<FlatItem>)
    ensures
        flat_view(final(out)@) == flat_view(old(out)@) + flatten_nodes_spec(nodes@, ctx@),
    decreases nodes@,
{
    let ghost start = flat_view(out@);
    let mut i: usize = 0;
    while i < nodes.len()
        invariant
            0 <= i <= nodes@.len(),
            flat_view(out@) == start + flatten_nodes_spec(nodes@.take(i as int), ctx@),
        decreases nodes.len() - i,
    {
        assert(nodes@.take(i + 1).drop_last() =~= nodes@.take(i as int));
        flatten_one(&nodes[i], ctx, out);
        i = i + 1;
        assert(flat_view(out@) =~= start + flatten_nodes_spec(nodes@.take(i as int), ctx@));
    }
    assert(nodes@.take(nodes.len() as int) =~= nodes@);
}

fn flatten_one(node: &RouteNode, ctx: &Vec<PointSetting>, out: &mut Vec<FlatItem>)
    ensures
        flat_view(final(out)@) == flat_view(old(out)@) + flatten_one_spec(*node, ctx@),
    decreases node,
{
    let ghost start = flat_view(out@);
    match node {
        RouteNode::Sensor { id } => {
            push_flat(out, FlatItem::Sensor(*id));
            assert(flat_view(seq![FlatItem::Sensor(*id)]) =~= seq![FlatView::Sensor(*id)]);
        },
        RouteNode::Coupler { id } => {
            let f = FlatItem::Coupler(*id, copy_points(ctx));
            proof {
                assert(flat_view(seq![f]) =~= seq![FlatView::Coupler(*id, ctx@)]);
            }
            push_flat(out, f);
        },
        RouteNode::Point { id, entry, thru, branch } => {
            flatten_nodes(&entry.along_fwd, ctx, out);
            let thru_ctx = push_setting(ctx, *id, PointDirection::Thru);
            flatten_nodes(&thru.along_fwd, &thru_ctx, out);
            let branch_ctx = push_setting(ctx, *id, PointDirection::Branch);
            flatten_nodes(&branch.along_fwd, &branch_ctx, out);
            assert(flat_view(out@) =~= start + flatten_one_spec(*node, ctx@));
        },
        _ => {
            assert(flat_view(out@) =~= start + flatten_one_spec(*node, ctx@));
        },
    }
}

/// First sensor at or after position `k` (0 if none).
fn next_sensor_from(flat: &Vec<FlatItem>, k: usize) -> (s: u8)
    requires
        k <= flat@.len(),
    ensures
        s == sensor_after(flat_view(flat@), k as int),
{
    let ghost fv = flat_view(flat@);
    let mut j = k;
    while j < flat.len()
        invariant
            k <= j <= flat@.len(),
            fv == flat_view(flat@),
            sensor_after(fv, k as int) == sensor_after(fv, j as int),
        decreases flat.len() - j,
    {
        match &flat[j] {
            FlatItem::Sensor(s) => {
                return *s;
            },
            _ => {},
        }
        j = j + 1;
    }
    0
}

/// A coupler occurrence with its adjacent sensors.
struct CouplerLocation {
    coupler: u8,
    track_id: u8,
    before: u8,
    after: u8,
    points: Vec<PointSetting>,
}

spec fn loc_view(l: CouplerLocation) -> LocView {
    LocView {
        coupler: l.coupler,
        track_id: l.track_id,
        before: l.before,
        after: l.after,
        points: l.points@,
    }
}

spec fn locs_view(s: Seq<CouplerLocation>) -> Seq<LocView> {
    s.map_values(|l: CouplerLocation| loc_view(l))
}

fn push_loc(out: &mut Vec<CouplerLocation>, l: CouplerLocation)
    ensures
        locs_view(final(out)@) == locs_view(old(out)@).push(loc_view(l)),
{
    out.push(l);
    assert(locs_view(out@) =~= locs_view(old(out)@).push(loc_view(l)));
}

impl CouplerLocation {
    /// Nonzero sensors next to this occurrence.
    fn adjacent_sensors(&self) -> (out: Vec<u8>)
        ensures
            out@ == adjacent_spec(loc_view(*self)),
    {
        let mut out = Vec::new();
        if self.before != 0 {
            out.push(self.before);
        }
        if self.after != 0 {
            out.push(self.after);
        }
        assert(out@ =~= adjacent_spec(loc_view(*self)));
        out
    }

    fn duplicate(&self) -> (l: CouplerLocation)
        ensures
            loc_view(l) == loc_view(*self),
    {
        CouplerLocation {
            coupler: self.coupler,
            track_id: self.track_id,
            before: self.before,
            after: self.after,
            points: copy_points(&self.points),
        }
    }
}

/// Appends the coupler occurrences of one track.
fn find_coupler_locations(track: &TrackSegment, out: &mut Vec<CouplerLocation>)
    ensures
        locs_view(final(out)@) == locs_view(old(out)@) + track_locs(*track),
{
    let ghost start = locs_view(out@);
    let mut flat: Vec<FlatItem> = Vec::new();
    let empty: Vec<PointSetting> = Vec::new();
    flatten_nodes(&track.along_fwd, &empty, &mut flat);
    assert(empty@ =~= Seq::<PointSetting>::empty());
    let ghost fv = flat_view(flat@);
    assert(fv =~= flatten_nodes_spec(track.along_fwd@, Seq::empty()));
    let mut last_sensor: u8 = 0;
    let mut k: usize = 0;
    while k < flat.len()
        invariant
            0 <= k <= flat@.len(),
            fv == flat_view(flat@),
            last_sensor == sensor_before(fv, k as int),
            locs_view(out@) == start + locs_spec(fv, track.id, k as int),
        decreases flat.len() - k,
    {
        assert(fv[k as int] == match flat@[k as int] {
            FlatItem::Sensor(x) => FlatView::Sensor(x),
            FlatItem::Coupler(x, p) => FlatView::Coupler(x, p@),
        });
        match &flat[k] {
            FlatItem::Sensor(s) => {
                last_sensor = *s;
                assert(locs_view(out@) =~= start + locs_spec(fv, track.id, k + 1));
            },
            FlatItem::Coupler(id, pts) => {
                let after = next_sensor_from(&flat, k + 1);
                push_loc(
                    out,
                    CouplerLocation {
                        coupler: *id,
                        track_id: track.id,
                        before: last_sensor,
                        after,
                        points: copy_points(pts),
                    },
                );
                assert(locs_view(out@) =~= start + locs_spec(fv, track.id, k + 1));
            },
        }
        k = k + 1;
    }
}

/// Appends the edges between the sensors next to two occurrences of one coupler.
fn push_pair_edges(a: &CouplerLocation, b: &CouplerLocation, edges: &mut Vec<SensorEdge>)
    ensures
        edges_view(final(edges)@) == edges_view(old(edges)@) + pair_edges(
            loc_view(*a),
            loc_view(*b),
        ),
{
    if a.track_id == b.track_id {
        assert(edges_view(edges@) =~= edges_view(old(edges)@) + Seq::empty());
        return ;
    }
    let ghost start = edges_view(edges@);
    let ghost av = loc_view(*a);
    let ghost bv = loc_view(*b);
    let sas = a.adjacent_sensors();
    let sbs = b.adjacent_sensors();
    let pts = concat_points(&a.points, &b.points);
    let mut i: usize = 0;
    while i < sas.len()
        invariant
            0 <= i <= sas@.len(),
            sas@ == adjacent_spec(av),
            sbs@ == adjacent_spec(bv),
            pts@ == av.points + bv.points,
            av.track_id == a.track_id,
            bv.track_id == b.track_id,
            edges_view(edges@) == start + cross_outer(av, bv, sas@.take(i as int)),
        decreases sas.len() - i,
    {
        let sa = sas[i];
        let ghost mid = edges_view(edges@);
        let mut j: usize = 0;
        while j < sbs.len()
            invariant
                0 <= j <= sbs@.len(),
                sbs@ == adjacent_spec(bv),
                pts@ == av.points + bv.points,
                av.track_id == a.track_id,
                bv.track_id == b.track_id,
                edges_view(edges@) == mid + cross_inner(av, bv, sa, sbs@.take(j as int)),
            decreases sbs.len() - j,
        {
            let sb = sbs[j];
            assert(sbs@.take(j + 1).drop_last() =~= sbs@.take(j as int));
            if sa != 0 && sb != 0 {
                push_edge(edges, make_edge(sa, sb, a.track_id, &pts, true, TraverseDirection::Fwd));
                push_edge(edges, make_edge(sb, sa, b.track_id, &pts, true, TraverseDirection::Bck));
            }
            j = j + 1;
            assert(edges_view(edges@) =~= mid + cross_inner(av, bv, sa, sbs@.take(j as int)));
        }
        assert(sbs@.take(sbs.len() as int) =~= sbs@);
        assert(sas@.take(i + 1).drop_last() =~= sas@.take(i as int));
        i = i + 1;
        assert(edges_view(edges@) =~= start + cross_outer(av, bv, sas@.take(i as int)));
    }
    assert(sas@.take(sas.len() as int) =~= sas@);
}

/// Edges through couplers between different tracks, grouped by ascending coupler id.
fn build_coupler_edges(layout: &TrackLayout) -> (edges: Vec<SensorEdge>)
    ensures
        edges_view(edges@) == coupler_edges_spec(layout.tracks@),
{
    let tracks = &layout.tracks;
    let mut locs: Vec<CouplerLocation> = Vec::new();
    let mut t: usize = 0;
    while t < tracks.len()
        invariant
            0 <= t <= tracks@.len(),
            locs_view(locs@) == layout_locs(tracks@, t as int),
        decreases tracks.len() - t,
    {
        find_coupler_locations(&tracks[t], &mut locs);
        t = t + 1;
    }
    let ghost lv = locs_view(locs@);
    let mut edges: Vec<SensorEdge> = Vec::new();
    assert(edges_view(edges@) =~= coupler_edges_upto(lv, 0));
    let mut c: u16 = 0;
    while c < 256
        invariant
            0 <= c <= 256,
            lv == locs_view(locs@),
            edges_view(edges@) == coupler_edges_upto(lv, c as int),
        decreases 256 - c,
    {
        let cid = c as u8;
        let mut group: Vec<CouplerLocation> = Vec::new();
        let mut k: usize = 0;
        while k < locs.len()
            invariant
                0 <= k <= locs@.len(),
                lv == locs_view(locs@),
                locs_view(group@) == group_of(lv.take(k as int), cid),
            decreases locs.len() - k,
        {
            assert(lv.take(k + 1).drop_last() =~= lv.take(k as int));
            if locs[k].coupler == cid {
                push_loc(&mut group, locs[k].duplicate());
            }
            k = k + 1;
        }
        assert(lv.take(locs.len() as int) =~= lv);
        let ghost g = locs_view(group@);
        let ghost before = edges_view(edges@);
        let mut i: usize = 0;
        while i < group.len()
            invariant
                0 <= i <= group@.len(),
                g == locs_view(group@),
                edges_view(edges@) == before + group_edges(g, i as int),
            decreases group.len() - i,
        {
            let ghost mid = edges_view(edges@);
            let mut j: usize = i + 1;
            assert(group_row(g, i as int, j as int) =~= Seq::<EdgeView>::empty());
            while j < group.len()
                invariant
                    i + 1 <= j <= group@.len(),
                    g == locs_view(group@),
                    edges_view(edges@) == mid + group_row(g, i as int, j as int),
                decreases group.len() - j,
            {
                push_pair_edges(&group[i], &group[j], &mut edges);
                j = j + 1;
                assert(edges_view(edges@) =~= mid + group_row(g, i as int, j as int));
            }
            i = i + 1;
            assert(edges_view(edges@) =~= before + group_edges(g, i as int));
        }
        c = c + 1;
        assert(cid == (c - 1) as u8);
        assert(edges_view(edges@) =~= coupler_edges_upto(lv, c as int));
    }
    edges
}

/// `hops` is a walk from `from` to `to` through edges of `es` that never enter a dead end.
pub open spec fn is_walk(es: Seq<EdgeView>, from: u8, to: u8, hops: Seq<EdgeView>) -> bool {
    &&& hops.len() == 0 ==> from == to
    &&& hops.len() > 0 ==> hops[0].from == from && hops[hops.len() - 1].to == to
    &&& forall|i: int| 0 <= i < hops.len() ==> #[trigger] es.contains(hops[i]) && hops[i].to != 0
    &&& forall|i: int, j: int|
        #![trigger hops[i], hops[j]]
        0 <= i && j == i + 1 && j < hops.len() ==> hops[i].to == hops[j].from
}

/// `to` can be reached from `from` in at most `n` hops.
pub open spec fn within(es: Seq<EdgeView>, from: u8, n: int, to: u8) -> bool {
    exists|hops: Seq<EdgeView>| #[trigger] is_walk(es, from, to, hops) && hops.len() <= n
}

/// `to` can be reached from `from` at all.
pub open spec fn reachable(es: Seq<EdgeView>, from: u8, to: u8) -> bool {
    exists|hops: Seq<EdgeView>| #[trigger] is_walk(es, from, to, hops)
}

/// `hops` is a walk from `from` to `to` and no walk between them is shorter.
pub open spec fn is_shortest_walk(es: Seq<EdgeView>, from: u8, to: u8, hops: Seq<EdgeView>) -> bool {
    &&& is_walk(es, from, to, hops)
    &&& forall|other: Seq<EdgeView>| #[trigger] is_walk(es, from, to, other) ==> hops.len() <= other.len()
}

/// A walk extended by one more non-dead-end edge leaving its end.
proof fn lemma_walk_extend(es: Seq<EdgeView>, from: u8, u: u8, hops: Seq<EdgeView>, e: EdgeView)
    requires
        is_walk(es, from, u, hops),
        es.contains(e),
        e.from == u,
        e.to != 0,
    ensures
        is_walk(es, from, e.to, hops.push(e)),
{
    let h2 = hops.push(e);
    assert forall|i: int| 0 <= i < h2.len() implies #[trigger] es.contains(h2[i]) && h2[i].to != 0 by {
        if i < hops.len() {
            assert(h2[i] == hops[i]);
        }
    }
    assert forall|i: int, j: int|
        #![trigger h2[i], h2[j]]
        0 <= i && j == i + 1 && j < h2.len() implies h2[i].to == h2[j].from by {
        if j < hops.len() {
            assert(h2[i] == hops[i] && h2[j] == hops[j]);
        } else {
            assert(h2[i] == hops[hops.len() - 1]);
        }
    }
}

/// Removing the last hop of a walk leaves a walk to that hop's source.
proof fn lemma_walk_prefix(es: Seq<EdgeView>, from: u8, to: u8, hops: Seq<EdgeView>)
    requires
        is_walk(es, from, to, hops),
        hops.len() > 0,
    ensures
        is_walk(es, from, hops.last().from, hops.drop_last()),
        es.contains(hops.last()),
        hops.last().to == to,
        hops.last().to != 0,
{
    let h = hops.drop_last();
    assert(es.contains(hops[hops.len() - 1]));
    if h.len() > 0 {
        assert(hops[h.len() - 1].to == hops[h.len() as int].from);
    }
    assert forall|i: int| 0 <= i < h.len() implies #[trigger] es.contains(h[i]) && h[i].to != 0 by {
        assert(h[i] == hops[i]);
    }
    assert forall|i: int, j: int|
        #![trigger h[i], h[j]]
        0 <= i && j == i + 1 && j < h.len() implies h[i].to == h[j].from by {
        assert(h[i] == hops[i] && h[j] == hops[j]);
    }
}

/// The empty walk.
proof fn lemma_walk_empty(es: Seq<EdgeView>, from: u8)
    ensures
        is_walk(es, from, from, Seq::empty()),
        within(es, from, 0, from),
{
    assert(is_walk(es, from, from, Seq::empty()));
}

/// Nodes first discovered from the first `fi` frontier nodes, plus the first `ei` edges tried
/// from frontier node `fi`.
spec fn disc(es: Seq<EdgeView>, fnodes: Seq<u8>, fi: int, ei: int, w: u8) -> bool {
    exists|k: int, j: int|
        #![trigger fnodes[k], es[j]]
        0 <= k < fnodes.len() && 0 <= j < es.len() && (k < fi || (k == fi && j < ei))
            && es[j].from == fnodes[k] && es[j].to == w && w != 0
}

/// One BFS level: what lies within `n + 1` hops is what lies within `n` hops plus the
/// successors of the nodes at exact distance `n`.
proof fn lemma_level_step(es: Seq<EdgeView>, from: u8, n: int, fnodes: Seq<u8>, w: u8)
    requires
        n >= 0,
        forall|k: int| 0 <= k < fnodes.len() ==> within(es, from, n, #[trigger] fnodes[k]),
        forall|x: u8| within(es, from, n, x) && !within(es, from, n - 1, x) ==> fnodes.contains(x),
    ensures
        within(es, from, n + 1, w) <==> (within(es, from, n, w) || disc(
            es,
            fnodes,
            fnodes.len() as int,
            0,
            w,
        )),
{
    if within(es, from, n + 1, w) {
        let hops = choose|hops: Seq<EdgeView>| #[trigger] is_walk(es, from, w, hops) && hops.len() <= n + 1;
        if hops.len() == n + 1 {
            lemma_walk_prefix(es, from, w, hops);
            let x = hops.last().from;
            let pre = hops.drop_last();
            assert(is_walk(es, from, x, pre) && pre.len() <= n);
            if within(es, from, n - 1, x) {
                let h2 = choose|h: Seq<EdgeView>| #[trigger] is_walk(es, from, x, h) && h.len() <= n - 1;
                lemma_walk_extend(es, from, x, h2, hops.last());
                assert(is_walk(es, from, w, h2.push(hops.last())));
            } else {
                assert(fnodes.contains(x));
                let k = choose|k: int| 0 <= k < fnodes.len() && fnodes[k] == x;
                let j = choose|j: int| 0 <= j < es.len() && es[j] == hops.last();
                assert(fnodes[k] == x && es[j] == hops.last());
            }
        }
    }
    if disc(es, fnodes, fnodes.len() as int, 0, w) {
        let (k, j) = choose|k: int, j: int|
            #![trigger fnodes[k], es[j]]
            0 <= k < fnodes.len() && 0 <= j < es.len() && (k < fnodes.len() || (k == fnodes.len() && j < 0))
                && es[j].from == fnodes[k] && es[j].to == w && w != 0;
        assert(within(es, from, n, fnodes[k]));
        let h = choose|h: Seq<EdgeView>| #[trigger] is_walk(es, from, fnodes[k], h) && h.len() <= n;
        lemma_walk_extend(es, from, fnodes[k], h, es[j]);
        assert(is_walk(es, from, w, h.push(es[j])));
    }
    if within(es, from, n, w) {
        let h = choose|h: Seq<EdgeView>| #[trigger] is_walk(es, from, w, h) && h.len() <= n;
        assert(is_walk(es, from, w, h) && h.len() <= n + 1);
    }
}

/// When no node lies at exact distance `n`, nothing is farther: whatever is reachable lies
/// within `n - 1` hops.
proof fn lemma_closure(es: Seq<EdgeView>, from: u8, n: int, w: u8, hops: Seq<EdgeView>)
    requires
        n >= 1,
        forall|x: u8| within(es, from, n, x) ==> within(es, from, n - 1, x),
        is_walk(es, from, w, hops),
    ensures
        within(es, from, n - 1, w),
    decreases hops.len(),
{
    if hops.len() <= n - 1 {
    } else {
        lemma_walk_prefix(es, from, w, hops);
        let x = hops.last().from;
        lemma_closure(es, from, n, x, hops.drop_last());
        let h = choose|h: Seq<EdgeView>| #[trigger] is_walk(es, from, x, h) && h.len() <= n - 1;
        lemma_walk_extend(es, from, x, h, hops.last());
        assert(is_walk(es, from, w, h.push(hops.last())));
        assert(within(es, from, n, w));
    }
}

/// Number of `true` entries among the first `n` of `v`.
spec fn count_true(v: Seq<bool>, n: int) -> int
    decreases n,
{
    if n <= 0 {
        0
    } else {
        count_true(v, n - 1) + if v[n - 1] {
            1int
        } else {
            0int
        }
    }
}

proof fn lemma_count_bound(v: Seq<bool>, n: int)
    requires
        0 <= n,
    ensures
        0 <= count_true(v, n) <= n,
    decreases n,
{
    if n > 0 {
        lemma_count_bound(v, n - 1);
    }
}

proof fn lemma_count_set(v: Seq<bool>, n: int, w: int)
    requires
        0 <= w < n <= v.len(),
        !v[w],
    ensures
        count_true(v.update(w, true), n) == count_true(v, n) + 1,
    decreases n,
{
    let v2 = v.update(w, true);
    if n - 1 == w {
        lemma_count_prefix_same(v, v2, n - 1);
    } else {
        lemma_count_set(v, n - 1, w);
        assert(v2[n - 1] == v[n - 1]);
    }
}

proof fn lemma_count_prefix_same(a: Seq<bool>, b: Seq<bool>, m: int)
    requires
        0 <= m <= a.len(),
        m <= b.len(),
        forall|i: int| 0 <= i < m ==> a[i] == b[i],
    ensures
        count_true(a, m) == count_true(b, m),
    decreases m,
{
    if m > 0 {
        lemma_count_prefix_same(a, b, m - 1);
    }
}

/// Edges of `es` at the given indices.
pub open spec fn hops_of(es: Seq<EdgeView>, p: Seq<usize>) -> Seq<EdgeView> {
    p.map_values(|i: usize| es[i as int])
}

/// `p` indexes a walk of exactly `len` hops from `from` to `node`.
spec fn path_ok(es: Seq<EdgeView>, from: u8, node: u8, p: Seq<usize>, len: int) -> bool {
    &&& p.len() == len
    &&& forall|k: int| 0 <= k < p.len() ==> #[trigger] p[k] < es.len()
    &&& is_walk(es, from, node, hops_of(es, p))
}

/// A node of the BFS frontier with the edge indices of the walk that reached it.
struct FrontierEntry {
    node: u8,
    path: Vec<usize>,
}

spec fn frontier_nodes(f: Seq<FrontierEntry>) -> Seq<u8> {
    f.map_values(|e: FrontierEntry| e.node)
}

/// Outcome of a breadth-first search.
enum BfsOutcome {
    /// Edge indices of a shortest walk to the target.
    Found(Vec<usize>),
    /// The search was exhausted; `true` marks every reachable node.
    Exhausted(Vec<bool>),
}

/// `a` comes strictly before `b` in lexicographic order (at the first position where they
/// differ, `a` holds the smaller index).
pub open spec fn lex_lt(a: Seq<usize>, b: Seq<usize>) -> bool {
    exists|k: int|
        #![trigger a[k], b[k]]
        0 <= k < a.len() && k < b.len() && a.take(k) == b.take(k) && a[k] < b[k]
}

/// `q` indexes edges of `es`.
pub open spec fn idx_ok(es: Seq<EdgeView>, q: Seq<usize>) -> bool {
    forall|k: int| 0 <= k < q.len() ==> #[trigger] q[k] < es.len()
}

/// `q` indexes a walk from `from` to `to`.
pub open spec fn walk_idx(es: Seq<EdgeView>, from: u8, to: u8, q: Seq<usize>) -> bool {
    idx_ok(es, q) && is_walk(es, from, to, hops_of(es, q))
}

/// `p` comes first, in lexicographic order of edge indices, among the walks of its length
/// from `from` to `to`.
pub open spec fn first_among(es: Seq<EdgeView>, from: u8, to: u8, p: Seq<usize>) -> bool {
    forall|q: Seq<usize>|
        #[trigger] walk_idx(es, from, to, q) && q.len() == p.len() ==> p == q || lex_lt(p, q)
}

/// `p` indexes the shortest walk from `from` to `to` that comes first in lexicographic order
/// of edge indices among the shortest walks.
pub open spec fn is_first_shortest(es: Seq<EdgeView>, from: u8, to: u8, p: Seq<usize>) -> bool {
    &&& walk_idx(es, from, to, p)
    &&& forall|q: Seq<usize>| #[trigger] walk_idx(es, from, to, q) ==> p.len() <= q.len()
    &&& first_among(es, from, to, p)
}

proof fn lemma_lex_push_lt(a: Seq<usize>, b: Seq<usize>, x: usize, y: usize)
    requires
        a.len() == b.len(),
        lex_lt(a, b),
    ensures
        lex_lt(a.push(x), b.push(y)),
{
    let k = choose|k: int|
        #![trigger a[k], b[k]]
        0 <= k < a.len() && k < b.len() && a.take(k) == b.take(k) && a[k] < b[k];
    assert(a.push(x).take(k) =~= a.take(k));
    assert(b.push(y).take(k) =~= b.take(k));
    assert(a.push(x)[k] == a[k] && b.push(y)[k] == b[k]);
}

proof fn lemma_lex_push_same(a: Seq<usize>, x: usize, y: usize)
    requires
        x < y,
    ensures
        lex_lt(a.push(x), a.push(y)),
{
    let k = a.len() as int;
    assert(a.push(x).take(k) =~= a);
    assert(a.push(y).take(k) =~= a);
    assert(a.push(x)[k] == x && a.push(y)[k] == y);
}

proof fn lemma_lex_trans(a: Seq<usize>, b: Seq<usize>, c: Seq<usize>)
    requires
        a.len() == b.len() == c.len(),
        lex_lt(a, b),
        lex_lt(b, c),
    ensures
        lex_lt(a, c),
{
    let k1 = choose|k: int|
        #![trigger a[k], b[k]]
        0 <= k < a.len() && k < b.len() && a.take(k) == b.take(k) && a[k] < b[k];
    let k2 = choose|k: int|
        #![trigger b[k], c[k]]
        0 <= k < b.len() && k < c.len() && b.take(k) == c.take(k) && b[k] < c[k];
    if k1 < k2 {
        assert(b.take(k2).take(k1) =~= b.take(k1));
        assert(c.take(k2).take(k1) =~= c.take(k1));
        assert(b.take(k2)[k1] == b[k1] && c.take(k2)[k1] == c[k1]);
        assert(a[k1] < c[k1]);
    } else if k2 < k1 {
        assert(a.take(k1).take(k2) =~= a.take(k2));
        assert(b.take(k1).take(k2) =~= b.take(k2));
        assert(a.take(k1)[k2] == a[k2] && b.take(k1)[k2] == b[k2]);
        assert(a[k2] < c[k2]);
    } else {
        assert(a[k1] < c[k1]);
    }
}

proof fn lemma_lex_asym(a: Seq<usize>, b: Seq<usize>)
    requires
        a.len() == b.len(),
        lex_lt(a, b),
    ensures
        !lex_lt(b, a),
        a != b,
{
    let k1 = choose|k: int|
        #![trigger a[k], b[k]]
        0 <= k < a.len() && k < b.len() && a.take(k) == b.take(k) && a[k] < b[k];
    if lex_lt(b, a) {
        let k2 = choose|k: int|
            #![trigger b[k], a[k]]
            0 <= k < b.len() && k < a.len() && b.take(k) == a.take(k) && b[k] < a[k];
        if k1 < k2 {
            assert(b.take(k2)[k1] == b[k1] && a.take(k2)[k1] == a[k1]);
        } else if k2 < k1 {
            assert(b.take(k1)[k2] == b[k2] && a.take(k1)[k2] == a[k2]);
        }
    }
}

/// Two first shortest walks between the same sensors are the same walk.
pub proof fn lemma_first_shortest_unique(es: Seq<EdgeView>, from: u8, to: u8, p: Seq<usize>, q: Seq<usize>)
    requires
        is_first_shortest(es, from, to, p),
        is_first_shortest(es, from, to, q),
    ensures
        p == q,
{
    assert(walk_idx(es, from, to, q));
    assert(walk_idx(es, from, to, p));
    if p != q {
        assert(lex_lt(p, q));
        assert(lex_lt(q, p));
        lemma_lex_asym(p, q);
    }
}

/// The edge indices of a walk without its last hop index a walk to that hop's source.
proof fn lemma_walk_idx_prefix(es: Seq<EdgeView>, from: u8, to: u8, q: Seq<usize>)
    requires
        walk_idx(es, from, to, q),
        q.len() > 0,
    ensures
        walk_idx(es, from, es[q.last() as int].from, q.drop_last()),
        es[q.last() as int].to == to,
        es[q.last() as int].to != 0,
        q.last() < es.len(),
{
    let h = hops_of(es, q);
    lemma_walk_prefix(es, from, to, h);
    assert(hops_of(es, q.drop_last()) =~= h.drop_last());
    assert(h.last() == es[q.last() as int]);
    assert(q[q.len() - 1] < es.len());
}

/// A node discovered first from frontier position `fi` through edge `ei` gets the first
/// walk of length `n + 1` among all walks to it.
proof fn lemma_first_extension(
    es: Seq<EdgeView>,
    from: u8,
    n: int,
    fnodes: Seq<u8>,
    fpaths: Seq<Seq<usize>>,
    fi: int,
    ei: int,
    w: u8,
    q: Seq<usize>,
)
    requires
        n >= 0,
        fnodes.len() == fpaths.len(),
        0 <= fi < fnodes.len(),
        0 <= ei < es.len(),
        forall|k: int| 0 <= k < fnodes.len() ==> (#[trigger] fpaths[k]).len() == n,
        forall|a: int, b: int| 0 <= a < b < fpaths.len() ==> lex_lt(#[trigger] fpaths[a], #[trigger] fpaths[b]),
        forall|k: int| 0 <= k < fnodes.len() ==> first_among(es, from, #[trigger] fnodes[k], fpaths[k]),
        forall|x: u8| within(es, from, n, x) && !within(es, from, n - 1, x) ==> fnodes.contains(x),
        !within(es, from, n, w),
        !disc(es, fnodes, fi, ei, w),
        es[ei].from == fnodes[fi],
        es[ei].to == w,
        w != 0,
        walk_idx(es, from, w, q),
        q.len() == n + 1,
    ensures
        fpaths[fi].push(ei as usize) == q || lex_lt(fpaths[fi].push(ei as usize), q),
{
    lemma_walk_idx_prefix(es, from, w, q);
    let qp = q.drop_last();
    let e2 = q.last();
    let x = es[e2 as int].from;
    assert(is_walk(es, from, x, hops_of(es, qp)) && hops_of(es, qp).len() <= n);
    assert(within(es, from, n, x));
    if within(es, from, n - 1, x) {
        let h = choose|h: Seq<EdgeView>| #[trigger] is_walk(es, from, x, h) && h.len() <= n - 1;
        assert(es.contains(es[e2 as int]));
        lemma_walk_extend(es, from, x, h, es[e2 as int]);
        assert(is_walk(es, from, w, h.push(es[e2 as int])));
        assert(false);
    }
    assert(fnodes.contains(x));
    let a = choose|a: int| 0 <= a < fnodes.len() && fnodes[a] == x;
    assert(first_among(es, from, fnodes[a], fpaths[a]));
    assert(walk_idx(es, from, x, qp));
    assert(fpaths[a] == qp || lex_lt(fpaths[a], qp));
    let p = fpaths[fi].push(ei as usize);
    assert(q =~= qp.push(e2));
    // The pair (a, e2) also reaches w, so it does not come before (fi, ei).
    if a < fi || (a == fi && (e2 as int) < ei) {
        assert(fnodes[a] == fnodes[a] && es[e2 as int] == es[e2 as int]);
        assert(disc(es, fnodes, fi, ei, w));
    }
    if a > fi {
        assert(lex_lt(fpaths[fi], fpaths[a]));
        if fpaths[a] != qp {
            lemma_lex_trans(fpaths[fi], fpaths[a], qp);
        }
        lemma_lex_push_lt(fpaths[fi], qp, ei as usize, e2);
    } else {
        assert(a == fi);
        if fpaths[a] == qp {
            if (ei as usize) < e2 {
                lemma_lex_push_same(qp, ei as usize, e2);
            }
        } else {
            lemma_lex_push_lt(fpaths[fi], qp, ei as usize, e2);
        }
    }
}

spec fn frontier_paths(f: Seq<FrontierEntry>) -> Seq<Seq<usize>> {
    f.map_values(|e: FrontierEntry| e.path@)
}

/// Every next-frontier path extends the path of a frontier node scanned before `(fi, ei)`.
spec fn sourced(es: Seq<EdgeView>, fpaths: Seq<Seq<usize>>, p: Seq<usize>, fi: int, ei: int) -> bool {
    exists|a: int| 0 <= a < fpaths.len() && #[trigger] sourced_from(es, fpaths, p, fi, ei, a)
}

spec fn sourced_from(es: Seq<EdgeView>, fpaths: Seq<Seq<usize>>, p: Seq<usize>, fi: int, ei: int, a: int) -> bool {
    exists|j: usize|
        #![trigger fpaths[a].push(j)]
        j < es.len() && (a < fi || (a == fi && j < ei)) && p == fpaths[a].push(j)
}

proof fn lemma_sourced_mono(es: Seq<EdgeView>, fpaths: Seq<Seq<usize>>, p: Seq<usize>, fi: int, ei: int, fi2: int, ei2: int)
    requires
        sourced(es, fpaths, p, fi, ei),
        fi < fi2 || (fi == fi2 && ei <= ei2),
    ensures
        sourced(es, fpaths, p, fi2, ei2),
{
    let a = choose|a: int| 0 <= a < fpaths.len() && #[trigger] sourced_from(es, fpaths, p, fi, ei, a);
    let j = choose|j: usize|
        #![trigger fpaths[a].push(j)]
        j < es.len() && (a < fi || (a == fi && j < ei)) && p == fpaths[a].push(j);
    assert(j < es.len() && (a < fi2 || (a == fi2 && j < ei2)) && p == fpaths[a].push(j));
    assert(sourced_from(es, fpaths, p, fi2, ei2, a));
}

/// Breadth-first search over `edges` from `from`, level by level, trying each frontier
/// node's edges in list order. Stops at the first discovery of `target`.
fn bfs(edges: &Vec<SensorEdge>, from: u8, target: Option<u8>) -> (res: BfsOutcome)
    requires
        target != Some(from),
    ensures
        ({
            let es = edges_view(edges@);
            match res {
                BfsOutcome::Found(p) => target matches Some(t) && p@.len() > 0
                    && (forall|k: int| 0 <= k < p@.len() ==> #[trigger] p@[k] < es.len())
                    && is_shortest_walk(es, from, t, hops_of(es, p@))
                    && is_first_shortest(es, from, t, p@),
                BfsOutcome::Exhausted(v) => {
                    &&& v@.len() == 256
                    &&& forall|w: u8| #[trigger] v@[w as int] <==> reachable(es, from, w)
                    &&& target matches Some(t) ==> !reachable(es, from, t)
                },
            }
        }),
{
    let ghost es = edges_view(edges@);
    let mut visited: Vec<bool> = Vec::new();
    let mut w0: usize = 0;
    while w0 < 256
        invariant
            0 <= w0 <= 256,
            visited@.len() == w0,
            forall|i: int| 0 <= i < w0 ==> #[trigger] visited@[i] == (i == from as int),
        decreases 256 - w0,
    {
        visited.push(w0 == from as usize);
        w0 = w0 + 1;
    }
    proof {
        lemma_walk_empty(es, from);
        assert forall|w: u8| #[trigger] visited@[w as int] <==> within(es, from, 0, w) by {
            if within(es, from, 0, w) {
                let h = choose|h: Seq<EdgeView>| #[trigger] is_walk(es, from, w, h) && h.len() <= 0;
                assert(h.len() == 0);
            }
        }
    }
    let mut frontier: Vec<FrontierEntry> = Vec::new();
    frontier.push(FrontierEntry { node: from, path: Vec::new() });
    let ghost mut level: int = 0;
    let ghost mut count: int = count_true(visited@, 256);
    proof {
        lemma_count_bound(visited@, 256);
        assert(hops_of(es, frontier@[0].path@) =~= Seq::<EdgeView>::empty());
        assert forall|x: u8| within(es, from, level, x) && !within(es, from, level - 1, x) implies frontier_nodes(
            frontier@,
        ).contains(x) by {
            let h = choose|h: Seq<EdgeView>| #[trigger] is_walk(es, from, x, h) && h.len() <= 0;
            assert(frontier_nodes(frontier@)[0] == from);
        }
        assert forall|k: int| 0 <= k < frontier@.len() implies first_among(es, from, #[trigger] frontier_nodes(frontier@)[k], frontier_paths(frontier@)[k]) by {
            assert forall|q: Seq<usize>| #[trigger] walk_idx(es, from, frontier_nodes(frontier@)[k], q) && q.len() == frontier_paths(frontier@)[k].len()
                implies frontier_paths(frontier@)[k] == q || lex_lt(frontier_paths(frontier@)[k], q) by {
                assert(q =~= frontier_paths(frontier@)[k]);
            }
        }
    }
    loop
        invariant
            es == edges_view(edges@),
            target != Some(from),
            level >= 0,
            visited@.len() == 256,
            forall|w: u8| #[trigger] visited@[w as int] <==> within(es, from, level, w),
            forall|k: int| 0 <= k < frontier@.len() ==> path_ok(es, from, #[trigger] frontier@[k].node, frontier@[k].path@, level),
            forall|x: u8| within(es, from, level, x) && !within(es, from, level - 1, x) ==> frontier_nodes(frontier@).contains(x),
            target matches Some(t) ==> !within(es, from, level, t),
            count == count_true(visited@, 256),
            0 <= count <= 256,
            forall|a: int, b: int| 0 <= a < b < frontier@.len() ==> lex_lt(#[trigger] frontier_paths(frontier@)[a], #[trigger] frontier_paths(frontier@)[b]),
            forall|k: int| 0 <= k < frontier@.len() ==> first_among(es, from, #[trigger] frontier_nodes(frontier@)[k], frontier_paths(frontier@)[k]),
        decreases 256 - count,
    {
        let ghost fnodes = frontier_nodes(frontier@);
        let ghost fpaths = frontier_paths(frontier@);
        let ghost start_count = count;
        let mut next: Vec<FrontierEntry> = Vec::new();
        let mut fi: usize = 0;
        while fi < frontier.len()
            invariant
                es == edges_view(edges@),
                fnodes == frontier_nodes(frontier@),
                target != Some(from),
                level >= 0,
                0 <= fi <= frontier@.len(),
                visited@.len() == 256,
                forall|k: int| 0 <= k < frontier@.len() ==> path_ok(es, from, #[trigger] frontier@[k].node, frontier@[k].path@, level),
                forall|w: u8| #[trigger] visited@[w as int] <==> (within(es, from, level, w) || disc(es, fnodes, fi as int, 0, w)),
                forall|k: int| 0 <= k < next@.len() ==> path_ok(es, from, #[trigger] next@[k].node, next@[k].path@, level + 1),
                forall|w: u8| disc(es, fnodes, fi as int, 0, w) && !within(es, from, level, w) ==> frontier_nodes(next@).contains(w),
                target matches Some(t) ==> !visited@[t as int],
                count == count_true(visited@, 256),
                count == start_count + next@.len(),
                0 <= start_count,
                fpaths == frontier_paths(frontier@),
                forall|a: int, b: int| 0 <= a < b < fpaths.len() ==> lex_lt(#[trigger] fpaths[a], #[trigger] fpaths[b]),
                forall|k: int| 0 <= k < fnodes.len() ==> first_among(es, from, #[trigger] fnodes[k], fpaths[k]),
                forall|x: u8| within(es, from, level, x) && !within(es, from, level - 1, x) ==> fnodes.contains(x),
                forall|a: int, b: int| 0 <= a < b < next@.len() ==> lex_lt(#[trigger] frontier_paths(next@)[a], #[trigger] frontier_paths(next@)[b]),
                forall|k: int| 0 <= k < next@.len() ==> first_among(es, from, #[trigger] frontier_nodes(next@)[k], frontier_paths(next@)[k]),
                forall|k: int| 0 <= k < next@.len() ==> sourced(es, fpaths, #[trigger] frontier_paths(next@)[k], fi as int, 0),
            decreases frontier.len() - fi,
        {
            let u = frontier[fi].node;
            let mut ei: usize = 0;
            proof {
                assert forall|w: u8| disc(es, fnodes, fi as int, 0, w) == disc(es, fnodes, fi as int, ei as int, w) by {
                    if disc(es, fnodes, fi as int, 0, w) {
                        let (k, j) = choose|k: int, j: int| #![trigger fnodes[k], es[j]]
                            0 <= k < fnodes.len() && 0 <= j < es.len() && (k < fi || (k == fi && j < 0))
                                && es[j].from == fnodes[k] && es[j].to == w && w != 0;
                        assert(fnodes[k] == fnodes[k] && es[j] == es[j]);
                    }
                    if disc(es, fnodes, fi as int, ei as int, w) {
                        let (k, j) = choose|k: int, j: int| #![trigger fnodes[k], es[j]]
                            0 <= k < fnodes.len() && 0 <= j < es.len() && (k < fi || (k == fi && j < ei))
                                && es[j].from == fnodes[k] && es[j].to == w && w != 0;
                        assert(fnodes[k] == fnodes[k] && es[j] == es[j]);
                    }
                }
            }
            while ei < edges.len()
                invariant
                    es == edges_view(edges@),
                    fnodes == frontier_nodes(frontier@),
                    target != Some(from),
                    level >= 0,
                    0 <= fi < frontier@.len(),
                    u == fnodes[fi as int],
                    0 <= ei <= edges@.len(),
                    visited@.len() == 256,
                    forall|k: int| 0 <= k < frontier@.len() ==> path_ok(es, from, #[trigger] frontier@[k].node, frontier@[k].path@, level),
                    forall|w: u8| #[trigger] visited@[w as int] <==> (within(es, from, level, w) || disc(es, fnodes, fi as int, ei as int, w)),
                    forall|k: int| 0 <= k < next@.len() ==> path_ok(es, from, #[trigger] next@[k].node, next@[k].path@, level + 1),
                    forall|w: u8| disc(es, fnodes, fi as int, ei as int, w) && !within(es, from, level, w) ==> frontier_nodes(next@).contains(w),
                    target matches Some(t) ==> !visited@[t as int],
                    count == count_true(visited@, 256),
                    count == start_count + next@.len(),
                    0 <= start_count,
                    fpaths == frontier_paths(frontier@),
                    forall|a: int, b: int| 0 <= a < b < fpaths.len() ==> lex_lt(#[trigger] fpaths[a], #[trigger] fpaths[b]),
                    forall|k: int| 0 <= k < fnodes.len() ==> first_among(es, from, #[trigger] fnodes[k], fpaths[k]),
                    forall|x: u8| within(es, from, level, x) && !within(es, from, level - 1, x) ==> fnodes.contains(x),
                    forall|a: int, b: int| 0 <= a < b < next@.len() ==> lex_lt(#[trigger] frontier_paths(next@)[a], #[trigger] frontier_paths(next@)[b]),
                    forall|k: int| 0 <= k < next@.len() ==> first_among(es, from, #[trigger] frontier_nodes(next@)[k], frontier_paths(next@)[k]),
                    forall|k: int| 0 <= k < next@.len() ==> sourced(es, fpaths, #[trigger] frontier_paths(next@)[k], fi as int, ei as int),
                decreases edges.len() - ei,
            {
                let ghost nn_before = frontier_nodes(next@);
                let ghost vis_before = visited@;
                let e_from = edges[ei].from;
                let e_to = edges[ei].to;
                assert(es[ei as int] == edges@[ei as int]@);
                if e_from == u && e_to != 0 && !visited[e_to as usize] {
                    // A newly discovered node: its walk is the frontier node's walk plus this edge.
                    let fpath = &frontier[fi].path;
                    let mut p: Vec<usize> = Vec::new();
                    let mut q: usize = 0;
                    while q < fpath.len()
                        invariant
                            0 <= q <= fpath@.len(),
                            p@ == fpath@.take(q as int),
                        decreases fpath@.len() - q,
                    {
                        p.push(fpath[q]);
                        q = q + 1;
                        assert(p@ =~= fpath@.take(q as int));
                    }
                    assert(fpath@.take(q as int) =~= fpath@);
                    p.push(ei);
                    proof {
                        let fp = frontier@[fi as int].path@;
                        assert(path_ok(es, from, frontier@[fi as int].node, fp, level));
                        assert(hops_of(es, p@) =~= hops_of(es, fp).push(es[ei as int]));
                        assert(es.contains(es[ei as int]));
                        lemma_walk_extend(es, from, u, hops_of(es, fp), es[ei as int]);
                        assert forall|k: int| 0 <= k < p@.len() implies #[trigger] p@[k] < es.len() by {
                            if k < fp.len() {
                                assert(p@[k] == fp[k]);
                            }
                        }
                        assert(path_ok(es, from, e_to, p@, level + 1));
                        assert(p@ =~= fpaths[fi as int].push(ei));
                        assert(!within(es, from, level, e_to) && !disc(es, fnodes, fi as int, ei as int, e_to));
                        assert forall|k: int| 0 <= k < fnodes.len() implies (#[trigger] fpaths[k]).len() == level by {
                            assert(path_ok(es, from, frontier@[k].node, frontier@[k].path@, level));
                        }
                        assert forall|q: Seq<usize>| #[trigger] walk_idx(es, from, e_to, q) && q.len() == p@.len()
                            implies p@ == q || lex_lt(p@, q) by {
                            lemma_first_extension(es, from, level, fnodes, fpaths, fi as int, ei as int, e_to, q);
                        }
                        assert(walk_idx(es, from, e_to, p@));
                    }
                    if target == Some(e_to) {
                        proof {
                            assert forall|q: Seq<usize>| #[trigger] walk_idx(es, from, e_to, q) implies p@.len() <= q.len() by {
                                if q.len() <= level {
                                    assert(is_walk(es, from, e_to, hops_of(es, q)));
                                    assert(within(es, from, level, e_to));
                                }
                            }
                            let hp = hops_of(es, p@);
                            assert forall|other: Seq<EdgeView>| #[trigger] is_walk(es, from, e_to, other) implies hp.len() <= other.len() by {
                                if other.len() <= level {
                                    assert(within(es, from, level, e_to));
                                }
                            }
                        }
                        return BfsOutcome::Found(p);
                    }
                    let ghost old_visited = visited@;
                    let ghost old_next = frontier_nodes(next@);
                    let ghost old_paths = frontier_paths(next@);
                    let ghost old_len = next@.len();
                    visited.set(e_to as usize, true);
                    next.push(FrontierEntry { node: e_to, path: p });
                    proof {
                        lemma_count_set(old_visited, 256, e_to as int);
                        count = count + 1;
                        assert(frontier_nodes(next@) =~= old_next.push(e_to));
                        assert(frontier_paths(next@) =~= old_paths.push(p@));
                        assert(!within(es, from, level, e_to));
                        assert forall|k: int| 0 <= k < old_len implies lex_lt(#[trigger] old_paths[k], p@) by {
                            assert(sourced(es, fpaths, old_paths[k], fi as int, ei as int));
                            let a = choose|a: int| 0 <= a < fpaths.len() && #[trigger] sourced_from(es, fpaths, old_paths[k], fi as int, ei as int, a);
                            let j = choose|j: usize|
                                #![trigger fpaths[a].push(j)]
                                j < es.len() && (a < fi || (a == fi && j < ei)) && old_paths[k] == fpaths[a].push(j);
                            assert(0 <= a < frontier@.len());
                            let fa = frontier@[a].node;
                            let ff = frontier@[fi as int].node;
                            assert(path_ok(es, from, frontier@[a].node, frontier@[a].path@, level));
                            assert(path_ok(es, from, frontier@[fi as int].node, frontier@[fi as int].path@, level));
                            assert(fpaths[a] == frontier@[a].path@ && fpaths[fi as int] == frontier@[fi as int].path@);
                            if a < fi {
                                assert(lex_lt(fpaths[a], fpaths[fi as int]));
                                lemma_lex_push_lt(fpaths[a], fpaths[fi as int], j, ei);
                            } else {
                                lemma_lex_push_same(fpaths[fi as int], j, ei);
                            }
                        }
                        assert(sourced(es, fpaths, p@, fi as int, ei + 1)) by {
                            assert(p@ == fpaths[fi as int].push(ei));
                            assert(sourced_from(es, fpaths, p@, fi as int, ei + 1, fi as int));
                        }
                        assert forall|k: int| 0 <= k < old_len implies sourced(es, fpaths, #[trigger] old_paths[k], fi as int, ei + 1) by {
                            lemma_sourced_mono(es, fpaths, old_paths[k], fi as int, ei as int, fi as int, ei + 1);
                        }
                        assert forall|k: int| 0 <= k < next@.len() implies sourced(es, fpaths, #[trigger] frontier_paths(next@)[k], fi as int, ei + 1) by {
                            if k < old_len {
                                assert(frontier_paths(next@)[k] == old_paths[k]);
                            }
                        }
                        assert forall|a: int, b: int| 0 <= a < b < next@.len() implies lex_lt(#[trigger] frontier_paths(next@)[a], #[trigger] frontier_paths(next@)[b]) by {
                            if b < old_len {
                                assert(frontier_paths(next@)[a] == old_paths[a] && frontier_paths(next@)[b] == old_paths[b]);
                            } else {
                                assert(frontier_paths(next@)[a] == old_paths[a] && frontier_paths(next@)[b] == p@);
                            }
                        }
                        assert forall|k: int| 0 <= k < next@.len() implies first_among(es, from, #[trigger] frontier_nodes(next@)[k], frontier_paths(next@)[k]) by {
                            if k < old_len {
                                assert(frontier_nodes(next@)[k] == old_next[k] && frontier_paths(next@)[k] == old_paths[k]);
                            }
                        }
                    }
                }
                proof {
                    assert forall|w: u8| disc(es, fnodes, fi as int, ei + 1, w) <==> (disc(es, fnodes, fi as int, ei as int, w)
                        || (es[ei as int].from == u && es[ei as int].to == w && w != 0)) by {
                        if disc(es, fnodes, fi as int, ei + 1, w) {
                            let (k, j) = choose|k: int, j: int| #![trigger fnodes[k], es[j]]
                                0 <= k < fnodes.len() && 0 <= j < es.len() && (k < fi || (k == fi && j < ei + 1))
                                    && es[j].from == fnodes[k] && es[j].to == w && w != 0;
                            if j != ei || k != fi {
                                assert(fnodes[k] == fnodes[k] && es[j] == es[j]);
                            }
                        }
                        if disc(es, fnodes, fi as int, ei as int, w) {
                            let (k, j) = choose|k: int, j: int| #![trigger fnodes[k], es[j]]
                                0 <= k < fnodes.len() && 0 <= j < es.len() && (k < fi || (k == fi && j < ei))
                                    && es[j].from == fnodes[k] && es[j].to == w && w != 0;
                            assert(fnodes[k] == fnodes[k] && es[j] == es[j]);
                        }
                        if es[ei as int].from == u && es[ei as int].to == w && w != 0 {
                            assert(fnodes[fi as int] == u && es[ei as int] == es[ei as int]);
                        }
                    }
                    assert(frontier_nodes(next@) == nn_before || frontier_nodes(next@) == nn_before.push(e_to));
                    if frontier_nodes(next@) == nn_before {
                        assert forall|k: int| 0 <= k < next@.len() implies sourced(es, fpaths, #[trigger] frontier_paths(next@)[k], fi as int, ei + 1) by {
                            lemma_sourced_mono(es, fpaths, frontier_paths(next@)[k], fi as int, ei as int, fi as int, ei + 1);
                        }
                    }
                    assert forall|w: u8| disc(es, fnodes, fi as int, ei + 1, w) && !within(es, from, level, w)
                        implies frontier_nodes(next@).contains(w) by {
                        if disc(es, fnodes, fi as int, ei as int, w) {
                            assert(nn_before.contains(w));
                            let k = choose|k: int| 0 <= k < nn_before.len() && nn_before[k] == w;
                            assert(frontier_nodes(next@)[k] == w);
                        } else {
                            assert(w == e_to && e_from == u);
                            if vis_before[w as int] {
                                assert(false);
                            } else {
                                assert(frontier_nodes(next@) == nn_before.push(e_to));
                                assert(frontier_nodes(next@)[nn_before.len() as int] == w);
                            }
                        }
                    }
                }
                ei = ei + 1;
            }
            proof {
                assert forall|w: u8| disc(es, fnodes, fi as int, ei as int, w) == disc(es, fnodes, fi + 1, 0, w) by {
                    if disc(es, fnodes, fi as int, ei as int, w) {
                        let (k, j) = choose|k: int, j: int| #![trigger fnodes[k], es[j]]
                            0 <= k < fnodes.len() && 0 <= j < es.len() && (k < fi || (k == fi && j < ei))
                                && es[j].from == fnodes[k] && es[j].to == w && w != 0;
                        assert(fnodes[k] == fnodes[k] && es[j] == es[j]);
                    }
                    if disc(es, fnodes, fi + 1, 0, w) {
                        let (k, j) = choose|k: int, j: int| #![trigger fnodes[k], es[j]]
                            0 <= k < fnodes.len() && 0 <= j < es.len() && (k < fi + 1 || (k == fi + 1 && j < 0))
                                && es[j].from == fnodes[k] && es[j].to == w && w != 0;
                        assert(fnodes[k] == fnodes[k] && es[j] == es[j]);
                    }
                }
            }
            proof {
                assert forall|k: int| 0 <= k < next@.len() implies sourced(es, fpaths, #[trigger] frontier_paths(next@)[k], fi + 1, 0) by {
                    lemma_sourced_mono(es, fpaths, frontier_paths(next@)[k], fi as int, ei as int, fi + 1, 0);
                }
            }
            fi = fi + 1;
        }
        proof {
            assert forall|k: int| 0 <= k < fnodes.len() implies within(es, from, level, #[trigger] fnodes[k]) by {
                assert(path_ok(es, from, frontier@[k].node, frontier@[k].path@, level));
                assert(is_walk(es, from, fnodes[k], hops_of(es, frontier@[k].path@)));
            }
            assert forall|w: u8| within(es, from, level + 1, w) <==> (within(es, from, level, w)
                || disc(es, fnodes, fnodes.len() as int, 0, w)) by {
                lemma_level_step(es, from, level, fnodes, w);
            }
        }
        if next.len() == 0 {
            proof {
                assert forall|x: u8| within(es, from, level + 1, x) implies within(es, from, level, x) by {
                    lemma_level_step(es, from, level, fnodes, x);
                    if disc(es, fnodes, fnodes.len() as int, 0, x) && !within(es, from, level, x) {
                        assert(frontier_nodes(next@).contains(x));
                    }
                }
                assert forall|w: u8| #[trigger] visited@[w as int] <==> reachable(es, from, w) by {
                    if reachable(es, from, w) {
                        let h = choose|h: Seq<EdgeView>| #[trigger] is_walk(es, from, w, h);
                        lemma_closure(es, from, level + 1, w, h);
                    }
                    if visited@[w as int] {
                        assert(within(es, from, level, w));
                        let h = choose|h: Seq<EdgeView>| #[trigger] is_walk(es, from, w, h) && h.len() <= level;
                        assert(is_walk(es, from, w, h));
                    }
                }
            }
            return BfsOutcome::Exhausted(visited);
        }
        proof {
            assert forall|x: u8| within(es, from, level + 1, x) && !within(es, from, level, x) implies frontier_nodes(next@).contains(x) by {
                lemma_level_step(es, from, level, fnodes, x);
            }
            lemma_count_bound(visited@, 256);
            level = level + 1;
        }
        frontier = next;
    }
}


/// The hops of the first shortest walk from `from` to `to` (meaningful when one exists).
pub open spec fn first_shortest_hops(es: Seq<EdgeView>, from: u8, to: u8) -> Seq<EdgeView> {
    hops_of(es, choose|p: Seq<usize>| is_first_shortest(es, from, to, p))
}

/// Value of a [`TrackGraph`]: its sensors, its edges in order, and the `(sensor, track)`
/// pairs in layout order.
pub struct GraphView {
    pub sensors: Set<u8>,
    pub edges: Seq<EdgeView>,
    pub sensor_track: Seq<(u8, u8)>,
}

impl GraphView {
    /// The hops of the route this graph gives from `from` to `to`: none when they coincide;
    /// otherwise, when both are sensors and `to` is reachable, the shortest walk that comes
    /// first in order of edge indices; otherwise no route.
    pub open spec fn route_hops(self, from: u8, to: u8) -> Option<Seq<EdgeView>> {
        if from == to {
            Some(Seq::empty())
        } else if self.sensors.contains(from) && self.sensors.contains(to) && reachable(self.edges, from, to) {
            Some(first_shortest_hops(self.edges, from, to))
        } else {
            None
        }
    }
}

impl View for TrackGraph {
    type V = GraphView;

    open spec fn view(&self) -> GraphView {
        GraphView { sensors: self.sensors@.to_set(), edges: self.edge_views(), sensor_track: self.sensor_track@ }
    }
}

impl TrackGraph {
    /// The hops of the route this graph gives from `from` to `to` (see [`GraphView::route_hops`]).
    pub open spec fn route_hops(&self, from: u8, to: u8) -> Option<Seq<EdgeView>> {
        self@.route_hops(from, to)
    }
}

/// The graph of a layout: its sensors, the edges of its track walks then its couplers, and
/// the track of each sensor occurrence.
pub open spec fn layout_graph(layout: TrackLayout) -> GraphView {
    GraphView {
        sensors: layout_sensor_list(layout.tracks@, layout.tracks@.len() as int).to_set(),
        edges: layout_edges(layout.tracks@),
        sensor_track: sensor_track_pairs(layout.tracks@, layout.tracks@.len() as int),
    }
}

/// No id occurs twice.
pub open spec fn distinct(s: Seq<u8>) -> bool {
    forall|i: int, j: int| 0 <= i < j < s.len() ==> s[i] != s[j]
}

/// `s` is strictly increasing.
pub open spec fn strictly_ascending(s: Seq<u8>) -> bool {
    forall|i: int, j: int| 0 <= i < j < s.len() ==> s[i] < s[j]
}

/// `s` without repeats, keeping first occurrences in order.
pub open spec fn dedup<A>(s: Seq<A>) -> Seq<A>
    decreases s.len(),
{
    if s.len() == 0 {
        Seq::empty()
    } else {
        let d = dedup(s.drop_last());
        if d.contains(s.last()) {
            d
        } else {
            d.push(s.last())
        }
    }
}

/// Sensor ids of the first `m` tracks, in track order (with repeats).
pub open spec fn layout_sensor_list(tracks: Seq<TrackSegment>, m: int) -> Seq<u8>
    decreases m,
{
    if m <= 0 {
        Seq::empty()
    } else {
        layout_sensor_list(tracks, m - 1) + sensors_of_nodes(tracks[m - 1].along_fwd@)
    }
}

/// `(sensor, track)` for every sensor occurrence of the first `m` tracks.
pub open spec fn sensor_track_pairs(tracks: Seq<TrackSegment>, m: int) -> Seq<(u8, u8)>
    decreases m,
{
    if m <= 0 {
        Seq::empty()
    } else {
        let t = tracks[m - 1];
        sensor_track_pairs(tracks, m - 1) + sensors_of_nodes(t.along_fwd@).map_values(
            |s: u8| (s, t.id),
        )
    }
}

/// Edges found by walking the first `m` tracks.
pub open spec fn track_edges_upto(tracks: Seq<TrackSegment>, m: int) -> Seq<EdgeView>
    decreases m,
{
    if m <= 0 {
        Seq::empty()
    } else {
        track_edges_upto(tracks, m - 1) + walk_nodes_spec(
            tracks,
            tracks[m - 1].id,
            tracks[m - 1].along_fwd@,
            Seq::empty(),
            false,
            None,
        ).0
    }
}

/// All edges of the graph of a layout: track walks in track order, then coupler edges.
pub open spec fn layout_edges(tracks: Seq<TrackSegment>) -> Seq<EdgeView> {
    track_edges_upto(tracks, tracks.len() as int) + coupler_edges_spec(tracks)
}

/// The track of the last occurrence of sensor `s` among the pairs.
pub open spec fn last_track_of(pairs: Seq<(u8, u8)>, s: u8) -> Option<u8>
    decreases pairs.len(),
{
    if pairs.len() == 0 {
        None
    } else if pairs.last().0 == s {
        Some(pairs.last().1)
    } else {
        last_track_of(pairs.drop_last(), s)
    }
}

/// The full sensor adjacency graph.
#[derive(Debug)]
pub struct TrackGraph {
    /// All sensor ids found in the layout, strictly ascending.
    pub sensors: Vec<u8>,
    /// Every edge, grouped by nothing: edges from one sensor keep their insertion order.
    pub edges: Vec<SensorEdge>,
    /// `(sensor, track)` for each sensor occurrence, in layout order.
    pub sensor_track: Vec<(u8, u8)>,
}

/// A route from one sensor to another: sequence of hops.
#[derive(Debug, PartialEq, Eq)]
pub struct Route {
    pub from: u8,
    pub to: u8,
    /// Ordered hops (edges) from source to destination.
    pub hops: Vec<SensorEdge>,
}

impl TrackGraph {
    /// Edge values of the graph.
    pub open spec fn edge_views(&self) -> Seq<EdgeView> {
        edges_view(self.edges@)
    }
}

impl Route {
    /// Hop values of the route.
    pub open spec fn hop_views(&self) -> Seq<EdgeView> {
        edges_view(self.hops@)
    }
}

/// Point settings of all hops of a walk, in order (with repeats).
pub open spec fn hop_points(hops: Seq<EdgeView>) -> Seq<PointSetting>
    decreases hops.len(),
{
    if hops.len() == 0 {
        Seq::empty()
    } else {
        hop_points(hops.drop_last()) + hops.last().points
    }
}

/// Track ids of the hops of a walk, in order (with repeats).
pub open spec fn hop_tracks(hops: Seq<EdgeView>) -> Seq<u8> {
    hops.map_values(|e: EdgeView| e.track_id)
}

/// `v` holds `x`.
pub fn contains_u8(v: &Vec<u8>, x: u8) -> (r: bool)
    ensures
        r == v@.contains(x),
{
    let mut i: usize = 0;
    while i < v.len()
        invariant
            0 <= i <= v@.len(),
            forall|k: int| 0 <= k < i ==> v@[k] != x,
        decreases v.len() - i,
    {
        if v[i] == x {
            return true;
        }
        i = i + 1;
    }
    false
}

/// `v` holds `x`.
fn contains_setting(v: &Vec<PointSetting>, x: PointSetting) -> (r: bool)
    ensures
        r == v@.contains(x),
{
    let mut i: usize = 0;
    while i < v.len()
        invariant
            0 <= i <= v@.len(),
            forall|k: int| 0 <= k < i ==> v@[k] != x,
        decreases v.len() - i,
    {
        if v[i] == x {
            return true;
        }
        i = i + 1;
    }
    false
}

impl Route {
    /// All point settings needed for this route (deduplicated, first occurrences in order).
    pub fn point_settings(&self) -> (out: Vec<PointSetting>)
        ensures
            out@ == dedup(hop_points(self.hop_views())),
    {
        let ghost hv = self.hop_views();
        let mut out: Vec<PointSetting> = Vec::new();
        let ghost mut flat: Seq<PointSetting> = Seq::empty();
        let mut h: usize = 0;
        while h < self.hops.len()
            invariant
                0 <= h <= self.hops@.len(),
                hv == self.hop_views(),
                flat == hop_points(hv.take(h as int)),
                out@ == dedup(flat),
            decreases self.hops.len() - h,
        {
            let pts = &self.hops[h].points;
            let ghost f0 = flat;
            let mut k: usize = 0;
            while k < pts.len()
                invariant
                    0 <= k <= pts@.len(),
                    flat == f0 + pts@.take(k as int),
                    out@ == dedup(flat),
                decreases pts.len() - k,
            {
                let ps = pts[k];
                let ghost before = flat;
                proof {
                    flat = flat.push(ps);
                    assert(flat.drop_last() =~= before);
                    assert(flat =~= f0 + pts@.take(k + 1));
                }
                if !contains_setting(&out, ps) {
                    out.push(ps);
                }
                k = k + 1;
            }
            assert(pts@.take(pts.len() as int) =~= pts@);
            assert(hv.take(h + 1).drop_last() =~= hv.take(h as int));
            assert(hv[h as int].points == pts@);
            h = h + 1;
        }
        assert(hv.take(self.hops.len() as int) =~= hv);
        out
    }

    /// All track segments involved in this route (deduplicated, first occurrences in order).
    pub fn track_ids(&self) -> (out: Vec<u8>)
        ensures
            out@ == dedup(hop_tracks(self.hop_views())),
    {
        let ghost hv = self.hop_views();
        let mut out: Vec<u8> = Vec::new();
        let mut h: usize = 0;
        while h < self.hops.len()
            invariant
                0 <= h <= self.hops@.len(),
                hv == self.hop_views(),
                out@ == dedup(hop_tracks(hv.take(h as int))),
            decreases self.hops.len() - h,
        {
            let t = self.hops[h].track_id;
            assert(hop_tracks(hv.take(h + 1)).drop_last() =~= hop_tracks(hv.take(h as int)));
            assert(hop_tracks(hv.take(h + 1)).last() == t);
            if !contains_u8(&out, t) {
                out.push(t);
            }
            h = h + 1;
        }
        assert(hv.take(self.hops.len() as int) =~= hv);
        out
    }
}

/// The walk of track `t` (see [`walk_nodes_spec`]).
fn walk_track_edges(tracks: &Vec<TrackSegment>, t: usize, edges: &mut Vec<SensorEdge>)
    requires
        t < tracks@.len(),
    ensures
        edges_view(final(edges)@) == edges_view(old(edges)@) + walk_nodes_spec(
            tracks@,
            tracks@[t as int].id,
            tracks@[t as int].along_fwd@,
            Seq::empty(),
            false,
            None,
        ).0,
{
    let empty: Vec<PointSetting> = Vec::new();
    let mut crossed = false;
    let track = &tracks[t];
    walk_nodes(tracks, track.id, &track.along_fwd, &empty, &mut crossed, None, edges);
    assert(empty@ =~= Seq::<PointSetting>::empty());
}

impl TrackGraph {
    /// Builds the sensor graph of a layout: the sensors of every track, the edges found by
    /// walking every track's route tree (through points and across connections), then the
    /// edges through couplers shared by different tracks.
    pub fn from_layout(layout: &TrackLayout) -> (g: TrackGraph)
        ensures
            g@ == layout_graph(*layout),
            g.edge_views() == layout_edges(layout.tracks@),
            g.sensor_track@ == sensor_track_pairs(layout.tracks@, layout.tracks@.len() as int),
            strictly_ascending(g.sensors@),
            forall|v: u8| #[trigger] g.sensors@.contains(v) <==> layout_sensor_list(
                layout.tracks@,
                layout.tracks@.len() as int,
            ).contains(v),
    {
        let tracks = &layout.tracks;
        let ghost tv = tracks@;
        // First pass: sensors and their owning tracks.
        let mut present: Vec<bool> = Vec::new();
        let mut w: usize = 0;
        while w < 256
            invariant
                0 <= w <= 256,
                present@.len() == w,
                forall|i: int| 0 <= i < w ==> !#[trigger] present@[i],
            decreases 256 - w,
        {
            present.push(false);
            w = w + 1;
        }
        let mut sensor_track: Vec<(u8, u8)> = Vec::new();
        let mut t: usize = 0;
        while t < tracks.len()
            invariant
                0 <= t <= tv.len(),
                tv == tracks@,
                present@.len() == 256,
                forall|v: u8| #[trigger] present@[v as int] <==> layout_sensor_list(tv, t as int).contains(v),
                sensor_track@ == sensor_track_pairs(tv, t as int),
            decreases tracks.len() - t,
        {
            let ss = tracks[t].sensors_in_route();
            let tid = tracks[t].id;
            let ghost prev_list = layout_sensor_list(tv, t as int);
            let ghost prev_pairs = sensor_track@;
            let mut k: usize = 0;
            while k < ss.len()
                invariant
                    0 <= k <= ss@.len(),
                    present@.len() == 256,
                    forall|v: u8| #[trigger] present@[v as int] <==> (prev_list + ss@.take(k as int)).contains(v),
                    sensor_track@ == prev_pairs + ss@.take(k as int).map_values(|s: u8| (s, tid)),
                decreases ss.len() - k,
            {
                let s = ss[k];
                present.set(s as usize, true);
                sensor_track.push((s, tid));
                proof {
                    let a = prev_list + ss@.take(k as int);
                    let b = prev_list + ss@.take(k + 1);
                    assert(b =~= a.push(s));
                    assert forall|v: u8| #[trigger] present@[v as int] <==> b.contains(v) by {
                        if v == s {
                            assert(b[b.len() - 1] == s);
                        } else {
                            if a.contains(v) {
                                let i = choose|i: int| 0 <= i < a.len() && a[i] == v;
                                assert(b[i] == v);
                            }
                            if b.contains(v) {
                                let i = choose|i: int| 0 <= i < b.len() && b[i] == v;
                                assert(i < a.len());
                                assert(a[i] == v);
                            }
                        }
                    }
                    assert(ss@.take(k + 1).map_values(|s: u8| (s, tid)) =~= ss@.take(k as int).map_values(
                        |s: u8| (s, tid),
                    ).push((s, tid)));
                }
                k = k + 1;
            }
            assert(ss@.take(ss.len() as int) =~= ss@);
            t = t + 1;
        }
        let mut sensors: Vec<u8> = Vec::new();
        let mut v: u16 = 0;
        while v < 256
            invariant
                0 <= v <= 256,
                present@.len() == 256,
                strictly_ascending(sensors@),
                forall|i: int| 0 <= i < sensors@.len() ==> sensors@[i] < v,
                forall|x: u8| #[trigger] sensors@.contains(x) <==> (x < v && present@[x as int]),
            decreases 256 - v,
        {
            if present[v as usize] {
                let ghost before = sensors@;
                sensors.push(v as u8);
                proof {
                    assert forall|x: u8| #[trigger] sensors@.contains(x) <==> (x < v + 1 && present@[x as int]) by {
                        if x == v as u8 {
                            assert(sensors@[before.len() as int] == x);
                        } else if before.contains(x) {
                            let i = choose|i: int| 0 <= i < before.len() && before[i] == x;
                            assert(sensors@[i] == x);
                        } else if sensors@.contains(x) {
                            let i = choose|i: int| 0 <= i < sensors@.len() && sensors@[i] == x;
                            assert(i < before.len());
                            assert(before[i] == x);
                        }
                    }
                }
            }
            v = v + 1;
        }
        // Second pass: edges along each track's route tree.
        let mut edges: Vec<SensorEdge> = Vec::new();
        let mut t2: usize = 0;
        while t2 < tracks.len()
            invariant
                0 <= t2 <= tv.len(),
                tv == tracks@,
                edges_view(edges@) == track_edges_upto(tv, t2 as int),
            decreases tracks.len() - t2,
        {
            walk_track_edges(tracks, t2, &mut edges);
            t2 = t2 + 1;
        }
        // Third pass: edges through couplers shared by different tracks.
        let mut ce = build_coupler_edges(layout);
        let ghost e1 = edges_view(edges@);
        let ghost e2 = edges_view(ce@);
        edges.append(&mut ce);
        assert(edges_view(edges@) =~= e1 + e2);
        let g = TrackGraph { sensors, edges, sensor_track };
        assert(g@.sensors =~= layout_graph(*layout).sensors);
        g
    }

    /// The track owning sensor `s` (its last occurrence in layout order).
    pub fn track_of(&self, s: u8) -> (r: Option<u8>)
        ensures
            r == last_track_of(self.sensor_track@, s),
    {
        let mut i: usize = self.sensor_track.len();
        assert(self.sensor_track@.take(i as int) =~= self.sensor_track@);
        while i > 0
            invariant
                0 <= i <= self.sensor_track@.len(),
                last_track_of(self.sensor_track@, s) == last_track_of(
                    self.sensor_track@.take(i as int),
                    s,
                ),
            decreases i,
        {
            let (a, b) = self.sensor_track[i - 1];
            assert(self.sensor_track@.take(i as int).last() == (a, b));
            if a == s {
                return Some(b);
            }
            assert(self.sensor_track@.take(i as int).drop_last() =~= self.sensor_track@.take(i - 1));
            i = i - 1;
        }
        None
    }

    /// The edges leaving sensor `s`, in graph order.
    pub fn edges_from(&self, s: u8) -> (out: Vec<SensorEdge>)
        ensures
            edges_view(out@) == self.edge_views().filter(|e: EdgeView| e.from == s),
    {
        let ghost ev = self.edge_views();
        let mut out: Vec<SensorEdge> = Vec::new();
        let mut i: usize = 0;
        while i < self.edges.len()
            invariant
                0 <= i <= self.edges@.len(),
                ev == self.edge_views(),
                edges_view(out@) == ev.take(i as int).filter(|e: EdgeView| e.from == s),
            decreases self.edges.len() - i,
        {
            assert(ev.take(i + 1).drop_last() =~= ev.take(i as int));
            reveal_with_fuel(Seq::filter, 1);
            if self.edges[i].from == s {
                push_edge(&mut out, self.edges[i].duplicate());
            }
            i = i + 1;
        }
        assert(ev.take(self.edges.len() as int) =~= ev);
        out
    }

    /// The edges with the given indices, in order.
    fn edges_at(&self, p: &Vec<usize>) -> (hops: Vec<SensorEdge>)
        requires
            forall|k: int| 0 <= k < p@.len() ==> #[trigger] p@[k] < self.edges@.len(),
        ensures
            edges_view(hops@) == hops_of(self.edge_views(), p@),
    {
        let mut hops: Vec<SensorEdge> = Vec::new();
        let mut k: usize = 0;
        while k < p.len()
            invariant
                0 <= k <= p@.len(),
                forall|k: int| 0 <= k < p@.len() ==> #[trigger] p@[k] < self.edges@.len(),
                edges_view(hops@) == hops_of(self.edge_views(), p@.take(k as int)),
            decreases p.len() - k,
        {
            push_edge(&mut hops, self.edges[p[k]].duplicate());
            k = k + 1;
            assert(hops_of(self.edge_views(), p@.take(k as int)) =~= hops_of(
                self.edge_views(),
                p@.take(k - 1),
            ).push(self.edge_views()[p@[k - 1] as int]));
        }
        assert(p@.take(p.len() as int) =~= p@);
        hops
    }

    /// Finds the shortest route (fewest sensor hops) from `from` to `to` by breadth-first
    /// search. Returns `None` if no walk exists or either sensor is not on the layout.
    pub fn find_route(&self, from: u8, to: u8) -> (res: Option<Route>)
        ensures
            from == to ==> (res matches Some(r) && r.from == from && r.to == to && r.hops@.len() == 0),
            from != to ==> (res is Some <==> (self.sensors@.contains(from) && self.sensors@.contains(to)
                && reachable(self.edge_views(), from, to))),
            res matches Some(r) ==> r.from == from && r.to == to && is_shortest_walk(
                self.edge_views(),
                from,
                to,
                r.hop_views(),
            ),
            match res {
                Some(r) => self.route_hops(from, to) == Some(r.hop_views()),
                None => self.route_hops(from, to) is None,
            },
    {
        if from == to {
            let r = Route { from, to, hops: Vec::new() };
            proof {
                assert(r.hop_views() =~= Seq::<EdgeView>::empty());
                assert(is_walk(self.edge_views(), from, to, r.hop_views()));
            }
            return Some(r);
        }
        if !contains_u8(&self.sensors, from) || !contains_u8(&self.sensors, to) {
            return None;
        }
        match bfs(&self.edges, from, Some(to)) {
            BfsOutcome::Found(p) => {
                let hops = self.edges_at(&p);
                proof {
                    let es = self.edge_views();
                    let q = choose|q: Seq<usize>| is_first_shortest(es, from, to, q);
                    lemma_first_shortest_unique(es, from, to, p@, q);
                    assert(is_walk(es, from, to, hops_of(es, p@)));
                }
                Some(Route { from, to, hops })
            },
            BfsOutcome::Exhausted(_) => None,
        }
    }

    /// All sensors reachable from `sensor` (excluding `sensor` itself), ascending.
    pub fn reachable_from(&self, sensor: u8) -> (out: Vec<u8>)
        ensures
            strictly_ascending(out@),
            forall|w: u8| #[trigger] out@.contains(w) <==> (w != sensor && reachable(
                self.edge_views(),
                sensor,
                w,
            )),
    {
        match bfs(&self.edges, sensor, None) {
            BfsOutcome::Found(_) => {
                assert(false);
                Vec::new()
            },
            BfsOutcome::Exhausted(visited) => {
                let mut out: Vec<u8> = Vec::new();
                let mut v: u16 = 0;
                while v < 256
                    invariant
                        0 <= v <= 256,
                        visited@.len() == 256,
                        strictly_ascending(out@),
                        forall|i: int| 0 <= i < out@.len() ==> out@[i] < v,
                        forall|x: u8| #[trigger] out@.contains(x) <==> (x < v && visited@[x as int] && x != sensor),
                    decreases 256 - v,
                {
                    if visited[v as usize] && v as u8 != sensor {
                        let ghost before = out@;
                        out.push(v as u8);
                        proof {
                            assert forall|x: u8| #[trigger] out@.contains(x) <==> (x < v + 1 && visited@[x as int] && x != sensor) by {
                                if x == v as u8 {
                                    assert(out@[before.len() as int] == x);
                                } else if before.contains(x) {
                                    let i = choose|i: int| 0 <= i < before.len() && before[i] == x;
                                    assert(out@[i] == x);
                                } else if out@.contains(x) {
                                    let i = choose|i: int| 0 <= i < out@.len() && out@[i] == x;
                                    assert(i < before.len());
                                    assert(before[i] == x);
                                }
                            }
                        }
                    }
                    v = v + 1;
                }
                out
            },
        }
    }
}


/// For two different sensors of a graph, a route exists exactly when the second can be
/// reached from the first; so the sensors `reachable_from` lists are exactly those
/// `find_route` finds a route to.
pub proof fn lemma_route_iff_reachable(g: GraphView, from: u8, to: u8)
    requires
        g.sensors.contains(from),
        g.sensors.contains(to),
        from != to,
    ensures
        g.route_hops(from, to) is Some <==> reachable(g.edges, from, to),
{
}

} // verus!
