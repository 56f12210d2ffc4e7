//! Layout structures (v2): tracks with ordered route trees, couplers and stations.

use vstd::prelude::*;

verus! {

/// Which port of a peer track a [`RouteNode::Connection`] attaches to.
#[derive(Debug, Clone, Copy, PartialEq, Eq, Hash, Structural)]
pub enum TrackSide {
    Fwd,
    Bwd,
}

/// One node in an ordered route: sensors, couplers, connections, nested points, terminals.
#[derive(Debug, PartialEq, Eq)]
pub enum RouteNode {
    Sensor { id: u8 },
    Coupler { id: u8 },
    /// Global connection id; this endpoint sits on `peer_track`'s `peer_side` port.
    Connection { id: u8, peer_track: u8, peer_side: TrackSide },
    Point { id: u8, entry: PointLeg, thru: PointLeg, branch: PointLeg },
    /// End of a spur (buffer stop).
    Buffer,
    /// Continuation along the same leg with no additional hop (placeholder).
    Inline,
}

/// One leg of a [`RouteNode::Point`]: ordered nodes along that leg.
#[derive(Debug, PartialEq, Eq)]
pub struct PointLeg {
    pub along_fwd: Vec<RouteNode>,
}

/// One segment of track: ordered spine from BWD toward FWD.
#[derive(Debug, PartialEq, Eq)]
pub struct TrackSegment {
    pub id: u8,
    pub along_fwd: Vec<RouteNode>,
}

/// Role of a point leg.
#[derive(Debug, Clone, Copy, PartialEq, Eq)]
pub enum PointLegRole {
    Entry,
    Thru,
    Branch,
}

/// Side of a coupler.
#[derive(Debug, Clone, Copy, PartialEq, Eq)]
pub enum CouplerSide {
    A,
    B,
}

/// Straight leg of a coupler.
#[derive(Debug, Clone, Copy, PartialEq, Eq)]
pub enum CouplerLegRole {
    Entry,
    Thru,
}

/// Used only by [`CouplerDef`] to name physical legs (track port or another coupler's straight leg).
#[derive(Debug, Clone, PartialEq, Eq)]
pub enum ConnectionRef {
    TrackPort { track: u8, side: TrackSide },
    CouplerLeg { coupler: u8, side: CouplerSide, leg: CouplerLegRole },
}

/// A named station and the sensors that form its platforms.
#[derive(Debug, Clone, PartialEq, Eq)]
pub struct Station {
    pub name: String,
    pub sensor_ids: Vec<u8>,
}

/// Two fused turnouts sharing one motor id (four straight legs; branches fused internally).
#[derive(Debug, Clone, PartialEq, Eq)]
pub struct CouplerDef {
    pub id: u8,
    pub entry_a: ConnectionRef,
    pub thru_a: ConnectionRef,
    pub entry_b: ConnectionRef,
    pub thru_b: ConnectionRef,
}

/// Root document of a track layout.
#[derive(Debug, PartialEq, Eq)]
pub struct TrackLayout {
    /// Must be `2` for the connection-based route model.
    pub version: u32,
    pub tracks: Vec<TrackSegment>,
    pub couplers: Vec<CouplerDef>,
    pub stations: Vec<Station>,
    pub notes: Option<String>,
}

/// Sensor ids met in a preorder walk of a node list (points: entry, then thru, then branch).
pub open spec fn sensors_of_nodes(nodes: Seq<RouteNode>) -> Seq<u8>
    decreases nodes,
{
    if nodes.len() == 0 {
        Seq::empty()
    } else {
        sensors_of_nodes(nodes.drop_last()) + sensors_of_node(nodes.last())
    }
}

/// Sensor ids met in a preorder walk of one node.
pub open spec fn sensors_of_node(node: RouteNode) -> Seq<u8>
    decreases node,
{
    match node {
        RouteNode::Sensor { id } => seq![id],
        RouteNode::Point { entry, thru, branch, .. } => sensors_of_nodes(entry.along_fwd@)
            + sensors_of_nodes(thru.along_fwd@) + sensors_of_nodes(branch.along_fwd@),
        _ => Seq::empty(),
    }
}

/// Appends the sensors of every node in `nodes` to `out`, in order.
pub fn collect_sensors_of_nodes(nodes: &Vec<RouteNode>, out: &mut Vec<u8>)
    ensures
        final(out)@ == old(out)@ + sensors_of_nodes(nodes@),
    decreases nodes@,
{
    let ghost start = out@;
    let n = nodes.len();
    let mut i: usize = 0;
    while i < n
        invariant
            n == nodes@.len(),
            0 <= i <= n,
            out@ == start + sensors_of_nodes(nodes@.take(i as int)),
        decreases n - i,
    {
        assert(nodes@.take(i + 1).drop_last() =~= nodes@.take(i as int));
        collect_sensors(&nodes[i], out);
        i = i + 1;
    }
    assert(nodes@.take(n as int) =~= nodes@);
}

/// Appends the sensor ids of one node (recursively through point legs) to `out`.
pub fn collect_sensors(node: &RouteNode, out: &mut Vec<u8>)
    ensures
        final(out)@ == old(out)@ + sensors_of_node(*node),
    decreases node,
{
    match node {
        RouteNode::Sensor { id } => {
            out.push(*id);
        },
        RouteNode::Point { entry, thru, branch, .. } => {
            let ghost start = out@;
            collect_sensors_of_nodes(&entry.along_fwd, out);
            collect_sensors_of_nodes(&thru.along_fwd, out);
            collect_sensors_of_nodes(&branch.along_fwd, out);
            assert(out@ =~= start + sensors_of_node(*node));
        },
        _ => {},
    }
}

impl TrackSegment {
    /// Sensor ids in preorder walk of `along_fwd` (not deduplicated).
    pub fn sensors_in_route(&self) -> (out: Vec<u8>)
        ensures
            out@ == sensors_of_nodes(self.along_fwd@),
    {
        let mut out = Vec::new();
        collect_sensors_of_nodes(&self.along_fwd, &mut out);
        assert(out@ =~= sensors_of_nodes(self.along_fwd@));
        out
    }
}

} // verus!
