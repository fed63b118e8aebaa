//! Legs of edge routes: each abstract route is cut into the legs that run
//! along one channel between two connectors, and the slots of the ports and
//! connectors it uses are counted.

use vstd::prelude::*;

use crate::layoutalg::ortho::routing::{
    lemma_bend_side_matches_orientation, lemma_side_opposite_same_orientation, AbstractEdgeRoute, BendDirection,
    Orientation, RNode, RNodeType, Side,
};
use crate::layoutalg::ortho::routing_slots::{
    bend_keeps_order, connector_bend_position, connector_port_position, is_bend_connector, ChannelConnector,
    ChannelConnectorSide, ChannelConnectorType, ChannelConnectors, ChannelLeg, LegOrderState, PortSides,
};

verus! {

/// The routing graph as the slot assignment reads it. Its nodes come in a
/// fixed order: first the node boxes, then four ports per node, then the
/// channels, then the bend points. The channels themselves (their geometry)
/// are only counted here: vertical channels are numbered first, then the
/// horizontal ones.
pub struct RoutingGraph {
    pub nodes: Vec<RNode>,
    pub nodes_len: usize,
    pub vchannels_len: usize,
    pub hchannels_len: usize,
}

impl RoutingGraph {
    /// Global index of a channel: vertical channels first, then horizontal.
    pub open spec fn spec_channel_idx(&self, channel_idx: usize, orientation: Orientation) -> int {
        match orientation {
            Orientation::Vertical => channel_idx as int,
            Orientation::Horizontal => self.vchannels_len + channel_idx,
        }
    }

    pub fn channel_idx(&self, channel_idx: usize, orientation: Orientation) -> (res: usize)
        requires
            orientation == Orientation::Horizontal ==> self.vchannels_len + channel_idx <= usize::MAX,
        ensures
            res == self.spec_channel_idx(channel_idx, orientation),
    {
        match orientation {
            Orientation::Vertical => channel_idx,
            Orientation::Horizontal => self.vchannels_len + channel_idx,
        }
    }

    /// The kind of the node with this index.
    pub open spec fn node_type(&self, i: int) -> RNodeType {
        self.nodes@[i].node_type
    }

    /// The bend points form a run of nodes after the boxes and their four
    /// ports each; from the node at `idx` on, the channels that cross the
    /// given channel at a bend point of that run, in node order.
    pub open spec fn bend_crossings(&self, channel_idx: usize, orientation: Orientation, idx: int) -> Seq<usize>
        decreases self.nodes@.len() - idx,
    {
        if idx < 0 || idx >= self.nodes@.len() {
            Seq::empty()
        } else {
            match self.node_type(idx) {
                RNodeType::BendPoint(v, h) => {
                    let rest = self.bend_crossings(channel_idx, orientation, idx + 1);
                    match orientation {
                        Orientation::Vertical => if v == channel_idx {
                            seq![h] + rest
                        } else {
                            rest
                        },
                        Orientation::Horizontal => if h == channel_idx {
                            seq![v] + rest
                        } else {
                            rest
                        },
                    }
                },
                _ => Seq::empty(),
            }
        }
    }

    /// The channels that cross the given channel at a bend point, in the
    /// order of the bend points (which follow the boxes and their ports).
    pub fn bend_iterator(&self, channel_idx: usize, orientation: Orientation) -> (res: Vec<usize>)
        requires
            self.nodes_len * 5 <= usize::MAX,
        ensures
            res@ == self.bend_crossings(channel_idx, orientation, self.nodes_len * 5),
    {
        let start = self.nodes_len + self.nodes_len * 4;
        let mut res: Vec<usize> = Vec::new();
        let mut idx = start;
        while idx < self.nodes.len()
            invariant
                start == self.nodes_len * 5,
                res@ + self.bend_crossings(channel_idx, orientation, idx as int) == self.bend_crossings(
                    channel_idx,
                    orientation,
                    start as int,
                ),
            decreases self.nodes@.len() - idx,
        {
            let ghost before = res@;
            match self.nodes[idx].node_type {
                RNodeType::BendPoint(v, h) => {
                    match orientation {
                        Orientation::Vertical => if v == channel_idx {
                            res.push(h);
                            proof {
                                assert(before + seq![h] + self.bend_crossings(channel_idx, orientation, idx + 1) =~= before + (seq![h]
                                    + self.bend_crossings(channel_idx, orientation, idx + 1)));
                            }
                        },
                        Orientation::Horizontal => if h == channel_idx {
                            res.push(v);
                            proof {
                                assert(before + seq![v] + self.bend_crossings(channel_idx, orientation, idx + 1) =~= before + (seq![v]
                                    + self.bend_crossings(channel_idx, orientation, idx + 1)));
                            }
                        },
                    }
                    idx += 1;
                },
                _ => {
                    proof {
                        assert(res@ + self.bend_crossings(channel_idx, orientation, self.nodes@.len() as int) =~= res@);
                    }
                    idx = self.nodes.len();
                },
            }
        }
        proof {
            assert(res@ + self.bend_crossings(channel_idx, orientation, idx as int) =~= res@);
        }
        res
    }

    /// Joins two nodes: each becomes the last neighbour of the other.
    pub fn add_edge(&mut self, from: usize, to: usize)
        requires
            from < old(self).nodes@.len(),
            to < old(self).nodes@.len(),
        ensures
            final(self).nodes_len == old(self).nodes_len,
            final(self).vchannels_len == old(self).vchannels_len,
            final(self).hchannels_len == old(self).hchannels_len,
            final(self).nodes@.len() == old(self).nodes@.len(),
            forall|i: int| 0 <= i < final(self).nodes@.len() ==> (#[trigger] final(self).nodes@[i]).node_type == old(self).nodes@[i].node_type,
            forall|i: int|
                0 <= i < final(self).nodes@.len() && i != from && i != to ==> (#[trigger] final(self).nodes@[i]).neighbors@
                    == old(self).nodes@[i].neighbors@,
            from != to ==> final(self).nodes@[from as int].neighbors@ == old(self).nodes@[from as int].neighbors@.push(to),
            from != to ==> final(self).nodes@[to as int].neighbors@ == old(self).nodes@[to as int].neighbors@.push(from),
            from == to ==> final(self).nodes@[from as int].neighbors@ == old(self).nodes@[from as int].neighbors@.push(to).push(from),
    {
        self.nodes[from].neighbors.push(to);
        self.nodes[to].neighbors.push(from);
    }
}

/// An edge to route: its end nodes and whether it runs in the global
/// direction (its start box left of its end box, or above it when both
/// share the same horizontal position).
#[derive(Debug, Clone, Copy, PartialEq, Eq, Structural)]
pub struct RouteEdge {
    pub from: usize,
    pub to: usize,
    pub start_before_end: bool,
}

/// The slots of one edge route: for each element of its abstract route the
/// port slot and the channel slot it takes.
pub struct EdgeRoute {
    pub abstract_route: usize,
    pub edge_idx: usize,
    pub port_slots: Vec<u16>,
    pub channel_slots: Vec<u16>,
}

/// The slots of all edge routes, with the number of slots each port and
/// each channel needs (vertical channels first, then horizontal).
pub struct GraphEdgeRouting {
    pub edge_routes: Vec<EdgeRoute>,
    pub port_slots: Vec<u16>,
    pub channel_slots: Vec<u16>,
}

// ---------------------------------------------------------------------------
// The layout of connectors: what a connector is, apart from its slot count.

/// Type, side and circular index of a connector.
pub open spec fn layout_of(cs: Seq<ChannelConnector>) -> Seq<(ChannelConnectorType, ChannelConnectorSide, usize)> {
    cs.map_values(|c: ChannelConnector| (c.connector_type, c.connector_side, c.circular_index))
}

/// The connectors of one channel.
pub open spec fn channel_seq(cc: ChannelConnectors, gid: int) -> Seq<ChannelConnector> {
    cc.connectors@.subrange(cc.range_start(gid), cc.range_end(gid))
}

/// The layout of the connectors of one channel.
pub open spec fn channel_layout(cc: ChannelConnectors, gid: int) -> Seq<
    (ChannelConnectorType, ChannelConnectorSide, usize),
> {
    layout_of(channel_seq(cc, gid))
}

/// Two sets of channel connectors that differ at most in slot counts.
pub open spec fn same_layout(a: ChannelConnectors, b: ChannelConnectors) -> bool {
    &&& a.channel_offsets@ == b.channel_offsets@
    &&& layout_of(a.connectors@) == layout_of(b.connectors@)
}

/// Every connector's circular index lies within its channel.
pub open spec fn circular_within(cc: ChannelConnectors) -> bool {
    forall|gid: int, j: int|
        0 <= gid < cc.channel_offsets@.len() && 0 <= j < cc.range_end(gid) - cc.range_start(gid)
            ==> #[trigger] cc.connectors@[cc.range_start(gid) + j].circular_index < cc.range_end(gid) - cc.range_start(
            gid,
        )
}

/// Position of the first port connector of a node, from `i` on (the
/// length when there is none).
pub open spec fn port_position(lay: Seq<(ChannelConnectorType, ChannelConnectorSide, usize)>, node_id: usize, i: int) -> int
    decreases lay.len() - i,
{
    if i < 0 || i >= lay.len() {
        lay.len() as int
    } else if lay[i].0 == ChannelConnectorType::Port(node_id) {
        i
    } else {
        port_position(lay, node_id, i + 1)
    }
}

/// Position of the first bend connector with a channel on a side, from `i`
/// on (the length when there is none).
pub open spec fn bend_position(
    lay: Seq<(ChannelConnectorType, ChannelConnectorSide, usize)>,
    crossing_channel_id: usize,
    side: ChannelConnectorSide,
    i: int,
) -> int
    decreases lay.len() - i,
{
    if i < 0 || i >= lay.len() {
        lay.len() as int
    } else if lay[i].0 == ChannelConnectorType::Bend(crossing_channel_id) && lay[i].1 == side {
        i
    } else {
        bend_position(lay, crossing_channel_id, side, i + 1)
    }
}

/// Circular distance between two connectors of a channel.
pub open spec fn layout_circular_distance(
    lay: Seq<(ChannelConnectorType, ChannelConnectorSide, usize)>,
    from: int,
    to: int,
) -> u16 {
    let diff = if lay[from].2 >= lay[to].2 {
        lay[from].2 - lay[to].2
    } else {
        lay[to].2 - lay[from].2
    };
    if diff > lay.len() / 2 {
        (lay.len() - diff) as u16
    } else {
        diff as u16
    }
}

proof fn lemma_port_position_found(
    lay: Seq<(ChannelConnectorType, ChannelConnectorSide, usize)>,
    node_id: usize,
    pos: int,
    i: int,
)
    requires
        0 <= i <= pos < lay.len(),
        lay[pos].0 == ChannelConnectorType::Port(node_id),
        forall|j: int| 0 <= j < pos ==> #[trigger] lay[j].0 != ChannelConnectorType::Port(node_id),
    ensures
        port_position(lay, node_id, i) == pos,
    decreases pos - i,
{
    if i < pos {
        lemma_port_position_found(lay, node_id, pos, i + 1);
    }
}

proof fn lemma_bend_position_found(
    lay: Seq<(ChannelConnectorType, ChannelConnectorSide, usize)>,
    crossing_channel_id: usize,
    side: ChannelConnectorSide,
    pos: int,
    i: int,
)
    requires
        0 <= i <= pos < lay.len(),
        lay[pos].0 == ChannelConnectorType::Bend(crossing_channel_id) && lay[pos].1 == side,
        forall|j: int|
            0 <= j < pos ==> !(#[trigger] lay[j].0 == ChannelConnectorType::Bend(crossing_channel_id) && lay[j].1
                == side),
    ensures
        bend_position(lay, crossing_channel_id, side, i) == pos,
    decreases pos - i,
{
    if i < pos {
        lemma_bend_position_found(lay, crossing_channel_id, side, pos, i + 1);
    }
}

/// A port position inside the channel names a port of that node.
proof fn lemma_port_position_exists(
    lay: Seq<(ChannelConnectorType, ChannelConnectorSide, usize)>,
    node_id: usize,
    i: int,
)
    requires
        0 <= i,
    ensures
        port_position(lay, node_id, i) < lay.len() ==> i <= port_position(lay, node_id, i) && lay[port_position(
            lay,
            node_id,
            i,
        )].0 == ChannelConnectorType::Port(node_id),
    decreases lay.len() - i,
{
    if i < lay.len() && lay[i].0 != ChannelConnectorType::Port(node_id) {
        lemma_port_position_exists(lay, node_id, i + 1);
    }
}

proof fn lemma_bend_position_exists(
    lay: Seq<(ChannelConnectorType, ChannelConnectorSide, usize)>,
    crossing_channel_id: usize,
    side: ChannelConnectorSide,
    i: int,
)
    requires
        0 <= i,
    ensures
        bend_position(lay, crossing_channel_id, side, i) < lay.len() ==> i <= bend_position(
            lay,
            crossing_channel_id,
            side,
            i,
        ) && lay[bend_position(lay, crossing_channel_id, side, i)].0 == ChannelConnectorType::Bend(crossing_channel_id)
            && lay[bend_position(lay, crossing_channel_id, side, i)].1 == side,
    decreases lay.len() - i,
{
    if i < lay.len() && !(lay[i].0 == ChannelConnectorType::Bend(crossing_channel_id) && lay[i].1 == side) {
        lemma_bend_position_exists(lay, crossing_channel_id, side, i + 1);
    }
}

/// Finds the first port connector of a node among the connectors of a
/// channel.
fn find_port(connectors: &[ChannelConnector], node_id: usize) -> (pos: usize)
    requires
        port_position(layout_of(connectors@), node_id, 0) < connectors@.len(),
    ensures
        pos == port_position(layout_of(connectors@), node_id, 0),
{
    let ghost lay = layout_of(connectors@);
    proof {
        lemma_port_position_exists(lay, node_id, 0);
        let p = port_position(lay, node_id, 0);
        assert(connectors@[p].connector_type == ChannelConnectorType::Port(node_id));
    }
    let pos = connector_port_position(connectors, node_id);
    proof {
        assert forall|j: int| 0 <= j < pos implies #[trigger] lay[j].0 != ChannelConnectorType::Port(node_id) by {
            assert(connectors@[j].connector_type != ChannelConnectorType::Port(node_id));
        }
        lemma_port_position_found(lay, node_id, pos as int, 0);
    }
    pos
}

/// Finds the first bend connector with a channel, on the channel side that
/// faces the given node side.
fn find_bend(connectors: &[ChannelConnector], crossing_channel_id: usize, side: Side) -> (pos: usize)
    requires
        bend_position(layout_of(connectors@), crossing_channel_id, ChannelConnectorSide::spec_from_side(side), 0)
            < connectors@.len(),
    ensures
        pos == bend_position(layout_of(connectors@), crossing_channel_id, ChannelConnectorSide::spec_from_side(side), 0),
{
    let ghost lay = layout_of(connectors@);
    let ghost cs = ChannelConnectorSide::spec_from_side(side);
    proof {
        lemma_bend_position_exists(lay, crossing_channel_id, cs, 0);
        let p = bend_position(lay, crossing_channel_id, cs, 0);
        assert(is_bend_connector(connectors@[p], crossing_channel_id, cs));
    }
    let pos = connector_bend_position(connectors, crossing_channel_id, side);
    proof {
        assert forall|j: int|
            0 <= j < pos implies !(#[trigger] lay[j].0 == ChannelConnectorType::Bend(crossing_channel_id) && lay[j].1
            == cs) by {
            assert(!is_bend_connector(connectors@[j], crossing_channel_id, cs));
        }
        lemma_bend_position_found(lay, crossing_channel_id, cs, pos as int, 0);
    }
    pos
}

impl ChannelConnectors {
    /// Counts one more route through a connector of a channel.
    pub fn add_slot(&mut self, channel_idx: usize, idx: usize)
        requires
            old(self).wf(),
            channel_idx < old(self).channel_offsets@.len(),
            idx < old(self).range_end(channel_idx as int) - old(self).range_start(channel_idx as int),
            old(self).connectors@[old(self).range_start(channel_idx as int) + idx].slots < u16::MAX,
        ensures
            final(self).wf(),
            same_layout(*old(self), *final(self)),
            final(self).connectors@.len() == old(self).connectors@.len(),
            forall|i: int|
                0 <= i < old(self).connectors@.len() ==> #[trigger] final(self).connectors@[i].slots == old(
                    self,
                ).connectors@[i].slots + if i == old(self).range_start(channel_idx as int) + idx {
                    1int
                } else {
                    0int
                },
    {
        let n = self.connectors.len();
        assert(self.range_end(channel_idx as int) <= n);
        let pos = self.channel_offsets[channel_idx] + idx;
        let c = &self.connectors[pos];
        let updated = ChannelConnector {
            slots: c.slots + 1,
            connector_type: c.connector_type,
            connector_side: c.connector_side,
            circular_index: c.circular_index,
        };
        self.connectors.set(pos, updated);
        assert(layout_of(self.connectors@) =~= layout_of(old(self).connectors@));
    }
}

proof fn lemma_channel_layout_same(a: ChannelConnectors, b: ChannelConnectors, gid: int)
    requires
        same_layout(a, b),
        a.wf(),
        0 <= gid < a.channel_offsets@.len(),
    ensures
        channel_layout(a, gid) == channel_layout(b, gid),
        channel_seq(a, gid).len() == channel_seq(b, gid).len(),
{
    let la = layout_of(a.connectors@);
    let lb = layout_of(b.connectors@);
    assert(a.connectors@.len() == la.len());
    assert(b.connectors@.len() == lb.len());
    assert(a.range_start(gid) <= a.range_end(gid) <= a.connectors@.len());
    assert(channel_layout(a, gid) =~= la.subrange(a.range_start(gid), a.range_end(gid)));
    assert(channel_layout(b, gid) =~= lb.subrange(b.range_start(gid), b.range_end(gid)));
}

proof fn lemma_circular_within_same(a: ChannelConnectors, b: ChannelConnectors)
    requires
        same_layout(a, b),
        circular_within(a),
        a.wf(),
    ensures
        circular_within(b),
{
    let la = layout_of(a.connectors@);
    let lb = layout_of(b.connectors@);
    assert(a.connectors@.len() == la.len());
    assert(b.connectors@.len() == lb.len());
    assert forall|gid: int, j: int|
        0 <= gid < b.channel_offsets@.len() && 0 <= j < b.range_end(gid) - b.range_start(gid) implies #[trigger] b.connectors@[b.range_start(gid) + j].circular_index
        < b.range_end(gid) - b.range_start(gid) by {
        assert(a.range_end(gid) <= a.connectors@.len());
        assert(a.connectors@[a.range_start(gid) + j].circular_index < a.range_end(gid) - a.range_start(gid));
        assert(la[a.range_start(gid) + j].2 == lb[b.range_start(gid) + j].2);
    }
}

// ---------------------------------------------------------------------------
// The shape of a route and its legs.

/// Channel of the given orientation that a bend point lies on.
pub open spec fn crossing_channel(t: RNodeType, orientation: Orientation) -> usize {
    match t {
        RNodeType::BendPoint(v, h) => if orientation == Orientation::Vertical {
            h
        } else {
            v
        },
        _ => 0,
    }
}

pub open spec fn port_node(t: RNodeType) -> usize {
    match t {
        RNodeType::Port(node_id, _, _) => node_id,
        _ => 0,
    }
}

pub open spec fn port_channel(t: RNodeType) -> usize {
    match t {
        RNodeType::Port(_, channel_id, _) => channel_id,
        _ => 0,
    }
}

pub open spec fn port_side(t: RNodeType) -> Side {
    match t {
        RNodeType::Port(_, _, side) => side,
        _ => Side::Right,
    }
}

/// The orientation after turning `k` times.
pub open spec fn flip_times(orientation: Orientation, k: int) -> Orientation {
    if k % 2 == 0 {
        orientation
    } else {
        orientation.spec_opposite()
    }
}

/// Whether the leg after `k` bends follows the global order.
pub open spec fn global_at(start: bool, bends: Seq<BendDirection>, k: int) -> bool
    decreases k,
{
    if k <= 0 {
        start
    } else {
        bend_keeps_order(bends[k - 1]) == global_at(start, bends, k - 1)
    }
}

/// Kind of the `k`-th element of a route.
pub open spec fn rtype(g: RoutingGraph, r: AbstractEdgeRoute, k: int) -> RNodeType {
    g.node_type(r.route@[k] as int)
}

/// The route starts with a port, runs over `m` bend points and reaches a
/// port; there is a bend direction for each bend point.
pub open spec fn route_shape(g: RoutingGraph, r: AbstractEdgeRoute, m: int) -> bool {
    &&& 0 <= m
    &&& m + 2 <= r.route@.len()
    &&& forall|k: int| 0 <= k <= m + 1 ==> (#[trigger] r.route@[k] as int) < g.nodes@.len()
    &&& rtype(g, r, 0) is Port
    &&& rtype(g, r, m + 1) is Port
    &&& forall|k: int| 1 <= k <= m ==> #[trigger] rtype(g, r, k) is BendPoint
    &&& m <= r.bend_directions@.len()
}

proof fn lemma_route_shape_unique(g: RoutingGraph, r: AbstractEdgeRoute, m1: int, m2: int)
    requires
        route_shape(g, r, m1),
        route_shape(g, r, m2),
    ensures
        m1 == m2,
{
    if m1 < m2 {
        assert(rtype(g, r, m1 + 1) is BendPoint);
    } else if m2 < m1 {
        assert(rtype(g, r, m2 + 1) is BendPoint);
    }
}

/// Orientation of the `k`-th leg.
pub open spec fn leg_orientation(g: RoutingGraph, r: AbstractEdgeRoute, k: int) -> Orientation {
    flip_times(port_side(rtype(g, r, 0)).spec_orientation(), k)
}

/// Global channel index of the `k`-th leg of a route with `m` bends.
pub open spec fn leg_channel(g: RoutingGraph, r: AbstractEdgeRoute, m: int, k: int) -> int {
    if k == m {
        g.spec_channel_idx(port_channel(rtype(g, r, m + 1)), port_side(rtype(g, r, m + 1)).spec_orientation())
    } else if k == 0 {
        g.spec_channel_idx(port_channel(rtype(g, r, 0)), leg_orientation(g, r, 0))
    } else {
        g.spec_channel_idx(crossing_channel(rtype(g, r, k), leg_orientation(g, r, k - 1)), leg_orientation(g, r, k))
    }
}

/// Side at which the `k`-th leg starts.
pub open spec fn leg_start_side(g: RoutingGraph, r: AbstractEdgeRoute, k: int) -> Side {
    if k == 0 {
        port_side(rtype(g, r, 0)).spec_opposite()
    } else {
        r.bend_directions@[k - 1].spec_side_for_orientation(leg_orientation(g, r, k))
    }
}

/// Side at which the `k`-th leg ends.
pub open spec fn leg_end_side(g: RoutingGraph, r: AbstractEdgeRoute, m: int, k: int) -> Side {
    if k == m {
        port_side(rtype(g, r, m + 1)).spec_opposite()
    } else {
        r.bend_directions@[k].spec_side_for_orientation(leg_orientation(g, r, k))
    }
}

/// Connector at which the `k`-th leg starts, in the layout of its channel.
pub open spec fn leg_start_connector(
    lay: Seq<(ChannelConnectorType, ChannelConnectorSide, usize)>,
    g: RoutingGraph,
    r: AbstractEdgeRoute,
    k: int,
) -> int {
    if k == 0 {
        port_position(lay, port_node(rtype(g, r, 0)), 0)
    } else {
        bend_position(
            lay,
            crossing_channel(rtype(g, r, k), leg_orientation(g, r, k)),
            ChannelConnectorSide::spec_from_side(leg_start_side(g, r, k)),
            0,
        )
    }
}

/// Connector at which the `k`-th leg ends, in the layout of its channel.
pub open spec fn leg_end_connector(
    lay: Seq<(ChannelConnectorType, ChannelConnectorSide, usize)>,
    g: RoutingGraph,
    r: AbstractEdgeRoute,
    m: int,
    k: int,
) -> int {
    if k == m {
        port_position(lay, port_node(rtype(g, r, m + 1)), 0)
    } else {
        bend_position(
            lay,
            crossing_channel(rtype(g, r, k + 1), leg_orientation(g, r, k)),
            ChannelConnectorSide::spec_from_side(leg_end_side(g, r, m, k)),
            0,
        )
    }
}

/// The `k`-th leg of the route of an edge, with `m` bends on the route.
pub open spec fn route_leg(
    cc: ChannelConnectors,
    g: RoutingGraph,
    r: AbstractEdgeRoute,
    m: int,
    edge_idx: usize,
    start_before_end: bool,
    k: int,
) -> ChannelLeg {
    let lay = channel_layout(cc, leg_channel(g, r, m, k));
    let s = leg_start_connector(lay, g, r, k);
    let e = leg_end_connector(lay, g, r, m, k);
    ChannelLeg {
        start_connector: s as usize,
        end_connector: e as usize,
        edge_idx,
        route_start_idx: k as usize,
        route_channel_idx: k as usize,
        route_end_idx: (k + 1) as usize,
        circular_distance: layout_circular_distance(lay, s, e),
        port_sides: PortSides::spec_from_sides(leg_start_side(g, r, k), leg_end_side(g, r, m, k), s as usize, e as usize),
        route_order: 0,
        is_global_order: if m == 0 {
            true
        } else {
            global_at(start_before_end, r.bend_directions@, k)
        },
    }
}

/// The legs of a route with their channels, in route order.
pub open spec fn route_legs(
    cc: ChannelConnectors,
    g: RoutingGraph,
    r: AbstractEdgeRoute,
    m: int,
    edge_idx: usize,
    start_before_end: bool,
) -> Seq<(usize, ChannelLeg)> {
    Seq::new(
        (m + 1) as nat,
        |k: int| (leg_channel(g, r, m, k) as usize, route_leg(cc, g, r, m, edge_idx, start_before_end, k)),
    )
}

/// The route can be cut into legs: every leg lies on a channel that has
/// connectors for both of its ends, and the last port opens into a channel
/// of the orientation the route arrives in.
pub open spec fn route_legs_valid(cc: ChannelConnectors, g: RoutingGraph, r: AbstractEdgeRoute, m: int) -> bool {
    &&& route_shape(g, r, m)
    &&& port_side(rtype(g, r, m + 1)).spec_orientation() == leg_orientation(g, r, m)
    &&& port_node(rtype(g, r, 0)) < g.nodes_len
    &&& port_node(rtype(g, r, m + 1)) < g.nodes_len
    &&& forall|k: int|
        0 <= k <= m ==> {
            let gid = #[trigger] leg_channel(g, r, m, k);
            let lay = channel_layout(cc, gid);
            &&& 0 <= gid < cc.channel_offsets@.len()
            &&& leg_start_connector(lay, g, r, k) < lay.len()
            &&& leg_end_connector(lay, g, r, m, k) < lay.len()
            &&& leg_start_connector(lay, g, r, k) != leg_end_connector(lay, g, r, m, k)
        }
}

/// How many ends of the legs lie on connector `j` of channel `c`.
pub open spec fn connector_uses(legs: Seq<(usize, ChannelLeg)>, c: int, j: int) -> nat
    decreases legs.len(),
{
    if legs.len() == 0 {
        0
    } else {
        let (gid, leg) = legs.last();
        connector_uses(legs.drop_last(), c, j) + if gid as int == c && leg.start_connector == j {
            1nat
        } else {
            0nat
        } + if gid as int == c && leg.end_connector == j {
            1nat
        } else {
            0nat
        }
    }
}

proof fn lemma_connector_uses_le(legs: Seq<(usize, ChannelLeg)>, c: int, j: int)
    ensures
        connector_uses(legs, c, j) <= 2 * legs.len(),
    decreases legs.len(),
{
    if legs.len() > 0 {
        lemma_connector_uses_le(legs.drop_last(), c, j);
    }
}

/// The legs that lie on channel `c`, in order.
pub open spec fn legs_in_channel(legs: Seq<(usize, ChannelLeg)>, c: int) -> Seq<ChannelLeg>
    decreases legs.len(),
{
    if legs.len() == 0 {
        Seq::empty()
    } else {
        let (gid, leg) = legs.last();
        if gid as int == c {
            legs_in_channel(legs.drop_last(), c).push(leg)
        } else {
            legs_in_channel(legs.drop_last(), c)
        }
    }
}

/// Slot count of connector `j` of channel `c`.
pub open spec fn slots_at(cc: ChannelConnectors, c: int, j: int) -> int {
    cc.connectors@[cc.range_start(c) + j].slots as int
}

/// Connectors of channel `c` are distinct from those of channel `d`.
proof fn lemma_ranges_disjoint(cc: ChannelConnectors, c: int, j: int, d: int, i: int)
    requires
        cc.wf(),
        0 <= c < cc.channel_offsets@.len(),
        0 <= d < cc.channel_offsets@.len(),
        0 <= j < cc.range_end(c) - cc.range_start(c),
        0 <= i < cc.range_end(d) - cc.range_start(d),
        cc.range_start(c) + j == cc.range_start(d) + i,
    ensures
        c == d && j == i,
{
    if c < d {
        assert(cc.channel_offsets@[c + 1] <= cc.channel_offsets@[d]);
    } else if d < c {
        assert(cc.channel_offsets@[d + 1] <= cc.channel_offsets@[c]);
    }
}

fn crossing_of(t: RNodeType, orientation: Orientation) -> (res: usize)
    ensures
        res == crossing_channel(t, orientation),
{
    match t {
        RNodeType::BendPoint(v, h) => if orientation == Orientation::Vertical {
            h
        } else {
            v
        },
        _ => 0,
    }
}

/// Index of the port slot of a port (four per node).
pub open spec fn port_slot_index(t: RNodeType) -> int {
    port_node(t) * 4 + port_side(t).spec_index()
}

proof fn lemma_flip_step(o: Orientation, k: int)
    requires
        k >= 0,
    ensures
        flip_times(o, k + 1) == flip_times(o, k).spec_opposite(),
        flip_times(o, k) == flip_times(o, k + 1).spec_opposite(),
{
}

/// The connectors of a leg of a valid route lie within its channel.
proof fn lemma_leg_connectors_within(cc: ChannelConnectors, g: RoutingGraph, r: AbstractEdgeRoute, m: int, k: int)
    requires
        route_legs_valid(cc, g, r, m),
        0 <= k <= m,
    ensures
        ({
            let gid = leg_channel(g, r, m, k);
            let lay = channel_layout(cc, gid);
            &&& 0 <= gid < cc.channel_offsets@.len()
            &&& 0 <= leg_start_connector(lay, g, r, k) < lay.len()
            &&& 0 <= leg_end_connector(lay, g, r, m, k) < lay.len()
        }),
{
    let gid = leg_channel(g, r, m, k);
    let lay = channel_layout(cc, gid);
    assert(0 <= gid < cc.channel_offsets@.len());
    if k == 0 {
        lemma_port_position_exists(lay, port_node(rtype(g, r, 0)), 0);
    } else {
        lemma_bend_position_exists(
            lay,
            crossing_channel(rtype(g, r, k), leg_orientation(g, r, k)),
            ChannelConnectorSide::spec_from_side(leg_start_side(g, r, k)),
            0,
        );
    }
    if k == m {
        lemma_port_position_exists(lay, port_node(rtype(g, r, m + 1)), 0);
    } else {
        lemma_bend_position_exists(
            lay,
            crossing_channel(rtype(g, r, k + 1), leg_orientation(g, r, k)),
            ChannelConnectorSide::spec_from_side(leg_end_side(g, r, m, k)),
            0,
        );
    }
}

/// Layouts that differ only in slot counts give the same legs.
proof fn lemma_route_legs_same_layout(a: ChannelConnectors, b: ChannelConnectors, g: RoutingGraph, r: AbstractEdgeRoute, m: int)
    requires
        same_layout(a, b),
        a.wf(),
        route_legs_valid(a, g, r, m),
    ensures
        route_legs_valid(b, g, r, m),
        forall|edge_idx: usize, sbe: bool, k: int|
            0 <= k <= m ==> #[trigger] route_leg(a, g, r, m, edge_idx, sbe, k) == route_leg(b, g, r, m, edge_idx, sbe, k),
{
    assert forall|k: int| 0 <= k <= m implies channel_layout(a, #[trigger] leg_channel(g, r, m, k)) == channel_layout(
        b,
        leg_channel(g, r, m, k),
    ) by {
        lemma_channel_layout_same(a, b, leg_channel(g, r, m, k));
    }
}

/// The `k`-th leg of a route, built from the route and the connectors of
/// its channel, with its global channel index.
#[verifier::rlimit(40)]
fn leg_at(
    g: &RoutingGraph,
    cc: &ChannelConnectors,
    r: &AbstractEdgeRoute,
    Ghost(m): Ghost<int>,
    edge_idx: usize,
    Ghost(start_before_end): Ghost<bool>,
    k: usize,
    orientation: Orientation,
    is_global: bool,
) -> (res: (usize, ChannelLeg))
    requires
        cc.wf(),
        circular_within(*cc),
        route_legs_valid(*cc, *g, *r, m),
        0 <= k <= m,
        orientation == leg_orientation(*g, *r, k as int),
        is_global == if m == 0 {
            true
        } else {
            global_at(start_before_end, r.bend_directions@, k as int)
        },
    ensures
        res.0 == leg_channel(*g, *r, m, k as int),
        res.0 < cc.channel_offsets@.len(),
        res.1 == route_leg(*cc, *g, *r, m, edge_idx, start_before_end, k as int),
{
    let route_len = r.route.len();
    let offsets_len = cc.channel_offsets.len();
    assert((r.route@[0] as int) < g.nodes@.len());
    assert((r.route@[k + 1] as int) < g.nodes@.len());
    let first = g.nodes[r.route[0]].node_type;
    let next_t = g.nodes[r.route[k + 1]].node_type;
    let (start_node, start_channel, side_start) = match first {
        RNodeType::Port(n, c, s) => (n, c, s),
        _ => (0, 0, Side::Right),
    };
    let is_last = match next_t {
        RNodeType::Port(_, _, _) => true,
        _ => false,
    };
    proof {
        if k < m {
            assert(rtype(*g, *r, k + 1) is BendPoint);
        }
    }
    let ghost gid_spec = leg_channel(*g, *r, m, k as int);
    assert(0 <= gid_spec < offsets_len);
    let gid: usize = if is_last {
        match next_t {
            RNodeType::Port(_, ch, side) => g.channel_idx(ch, side.orientation()),
            _ => 0,
        }
    } else if k == 0 {
        g.channel_idx(start_channel, orientation)
    } else {
        assert((r.route@[k as int] as int) < g.nodes@.len());
        let cur_t = g.nodes[r.route[k]].node_type;
        proof {
            lemma_flip_step(port_side(rtype(*g, *r, 0)).spec_orientation(), k - 1);
        }
        g.channel_idx(crossing_of(cur_t, orientation.opposite()), orientation)
    };
    assert(gid == gid_spec);
    let ghost lay = channel_layout(*cc, gid as int);
    let connectors = cc.connector_range(gid);
    assert(layout_of(connectors@) =~= lay);
    let (start_conn, start_side) = if k == 0 {
        (find_port(connectors, start_node), side_start.opposite())
    } else {
        let side = r.bend_directions[k - 1].side_for_orientation(orientation);
        assert((r.route@[k as int] as int) < g.nodes@.len());
        let cur_t = g.nodes[r.route[k]].node_type;
        (find_bend(connectors, crossing_of(cur_t, orientation), side), side)
    };
    let (end_conn, end_side) = if is_last {
        let (end_node, side_end) = match next_t {
            RNodeType::Port(n, _, s) => (n, s),
            _ => (0, Side::Right),
        };
        (find_port(connectors, end_node), side_end.opposite())
    } else {
        let side = r.bend_directions[k].side_for_orientation(orientation);
        (find_bend(connectors, crossing_of(next_t, orientation), side), side)
    };
    proof {
        assert(cc.range_end(gid as int) <= cc.connectors@.len());
        assert(cc.connectors@[cc.range_start(gid as int) + start_conn].circular_index < connectors@.len());
        assert(connectors@[start_conn as int] == cc.connectors@[cc.range_start(gid as int) + start_conn]);
        assert(cc.connectors@[cc.range_start(gid as int) + end_conn].circular_index < connectors@.len());
        assert(connectors@[end_conn as int] == cc.connectors@[cc.range_start(gid as int) + end_conn]);
        if k == 0 {
            lemma_side_opposite_same_orientation(side_start);
        } else {
            lemma_bend_side_matches_orientation(r.bend_directions@[k - 1], orientation);
        }
        if is_last {
            lemma_side_opposite_same_orientation(port_side(rtype(*g, *r, m + 1)));
        } else {
            lemma_bend_side_matches_orientation(r.bend_directions@[k as int], orientation);
        }
    }
    let distance = ChannelConnectors::circular_distance(start_conn, end_conn, connectors);
    assert(lay[start_conn as int].2 == connectors@[start_conn as int].circular_index);
    assert(lay[end_conn as int].2 == connectors@[end_conn as int].circular_index);
    let port_sides = PortSides::from_sides(start_side, end_side, start_conn, end_conn);
    let leg = ChannelLeg {
        start_connector: start_conn,
        end_connector: end_conn,
        edge_idx,
        route_start_idx: k,
        route_channel_idx: k,
        route_end_idx: k + 1,
        circular_distance: distance,
        port_sides,
        route_order: 0,
        is_global_order: is_global,
    };
    (gid, leg)
}

/// Appends a leg to the legs of its channel and counts its two ends on
/// their connectors.
fn record_leg(cc: &mut ChannelConnectors, channels_legs: &mut Vec<Vec<ChannelLeg>>, gid: usize, leg: ChannelLeg)
    requires
        old(cc).wf(),
        gid < old(cc).channel_offsets@.len(),
        old(channels_legs)@.len() == old(cc).channel_offsets@.len(),
        leg.start_connector < old(cc).range_end(gid as int) - old(cc).range_start(gid as int),
        leg.end_connector < old(cc).range_end(gid as int) - old(cc).range_start(gid as int),
        slots_at(*old(cc), gid as int, leg.start_connector as int) + 2 <= u16::MAX,
        slots_at(*old(cc), gid as int, leg.end_connector as int) + 2 <= u16::MAX,
    ensures
        final(cc).wf(),
        same_layout(*old(cc), *final(cc)),
        final(channels_legs)@.len() == old(channels_legs)@.len(),
        final(channels_legs)@[gid as int]@ == old(channels_legs)@[gid as int]@.push(leg),
        forall|c: int| 0 <= c < old(channels_legs)@.len() && c != gid ==> #[trigger] final(channels_legs)@[c] == old(
            channels_legs,
        )@[c],
        forall|c: int, j: int|
            0 <= c < old(cc).channel_offsets@.len() && 0 <= j < old(cc).range_end(c) - old(cc).range_start(c)
                ==> #[trigger] slots_at(*final(cc), c, j) == slots_at(*old(cc), c, j) + (if c == gid
                && j == leg.start_connector {
                1int
            } else {
                0int
            }) + (if c == gid && j == leg.end_connector {
                1int
            } else {
                0int
            }),
{
    let ghost cc0 = *cc;
    channels_legs[gid].push(leg);
    cc.add_slot(gid, leg.start_connector);
    let ghost cc1 = *cc;
    cc.add_slot(gid, leg.end_connector);
    proof {
        assert forall|c: int, j: int|
            0 <= c < cc0.channel_offsets@.len() && 0 <= j < cc0.range_end(c) - cc0.range_start(c) implies #[trigger] slots_at(*cc, c, j)
            == slots_at(cc0, c, j) + (if c == gid && j == leg.start_connector {
            1int
        } else {
            0int
        }) + (if c == gid && j == leg.end_connector {
            1int
        } else {
            0int
        }) by {
            assert(cc0.range_end(c) <= cc0.connectors@.len());
            if cc0.range_start(c) + j == cc0.range_start(gid as int) + leg.start_connector {
                lemma_ranges_disjoint(cc0, c, j, gid as int, leg.start_connector as int);
            }
            if cc0.range_start(c) + j == cc0.range_start(gid as int) + leg.end_connector {
                lemma_ranges_disjoint(cc0, c, j, gid as int, leg.end_connector as int);
            }
        }
    }
}

/// Cuts the route of an edge into its legs: each leg is appended to the
/// legs of its channel, each end of a leg counted on its connector, and the
/// two ports of the route counted in the port slots.
#[verifier::rlimit(60)]
fn add_route_legs(
    g: &RoutingGraph,
    cc: &mut ChannelConnectors,
    r: &AbstractEdgeRoute,
    Ghost(m): Ghost<int>,
    edge_idx: usize,
    start_before_end: bool,
    channels_legs: &mut Vec<Vec<ChannelLeg>>,
    port_slots: &mut Vec<u16>,
    Ghost(flat0): Ghost<Seq<(usize, ChannelLeg)>>,
)
    requires
        old(cc).wf(),
        circular_within(*old(cc)),
        route_legs_valid(*old(cc), *g, *r, m),
        old(channels_legs)@.len() == old(cc).channel_offsets@.len(),
        forall|c: int| 0 <= c < old(channels_legs)@.len() ==> (#[trigger] old(channels_legs)@[c])@ == legs_in_channel(flat0, c),
        old(port_slots)@.len() == g.nodes_len * 4,
        forall|i: int| 0 <= i < old(port_slots)@.len() ==> #[trigger] old(port_slots)@[i] + 2 <= u16::MAX,
        forall|c: int, j: int|
            0 <= c < old(cc).channel_offsets@.len() && 0 <= j < old(cc).range_end(c) - old(cc).range_start(c)
                ==> #[trigger] slots_at(*old(cc), c, j) + 2 * (m + 1) <= u16::MAX,
    ensures
        final(cc).wf(),
        same_layout(*old(cc), *final(cc)),
        forall|c: int, j: int|
            0 <= c < old(cc).channel_offsets@.len() && 0 <= j < old(cc).range_end(c) - old(cc).range_start(c)
                ==> #[trigger] slots_at(*final(cc), c, j) == slots_at(*old(cc), c, j) + connector_uses(
                route_legs(*old(cc), *g, *r, m, edge_idx, start_before_end),
                c,
                j,
            ),
        final(channels_legs)@.len() == old(channels_legs)@.len(),
        forall|c: int|
            0 <= c < final(channels_legs)@.len() ==> (#[trigger] final(channels_legs)@[c])@ == legs_in_channel(
                flat0 + route_legs(*old(cc), *g, *r, m, edge_idx, start_before_end),
                c,
            ),
        final(port_slots)@.len() == old(port_slots)@.len(),
        forall|i: int|
            0 <= i < old(port_slots)@.len() ==> #[trigger] final(port_slots)@[i] == old(port_slots)@[i] + (if i
                == port_slot_index(rtype(*g, *r, 0)) {
                1int
            } else {
                0int
            }) + (if i == port_slot_index(rtype(*g, *r, m + 1)) {
                1int
            } else {
                0int
            }),
{
    let ghost cc0 = *cc;
    let ghost ps0 = port_slots@;
    let ghost all = route_legs(cc0, *g, *r, m, edge_idx, start_before_end);
    let ghost t0 = rtype(*g, *r, 0);
    let ghost tm = rtype(*g, *r, m + 1);
    let ps_len = port_slots.len();
    let route_len = r.route.len();
    assert((r.route@[0] as int) < g.nodes@.len());
    let first = g.nodes[r.route[0]].node_type;
    let side_start = match first {
        RNodeType::Port(_, _, s) => s,
        _ => Side::Right,
    };
    let start_node = match first {
        RNodeType::Port(n, _, _) => n,
        _ => 0,
    };
    let start_idx = start_node * 4 + side_start.index();
    port_slots.set(start_idx, port_slots[start_idx] + 1);
    let orient0 = side_start.orientation();
    let mut orientation = orient0;
    let mut state = LegOrderState::with_direction(start_before_end);
    let mut k: usize = 0;
    let mut done = false;
    let ghost mut end_idx: int = 0;
    assert(all.subrange(0, 0) =~= Seq::<(usize, ChannelLeg)>::empty());
    assert(flat0 + all.subrange(0, 0) =~= flat0);
    while !done
        invariant
            cc.wf(),
            same_layout(cc0, *cc),
            cc.connectors@.len() == cc0.connectors@.len(),
            circular_within(*cc),
            cc0.wf(),
            circular_within(cc0),
            route_legs_valid(cc0, *g, *r, m),
            all == route_legs(cc0, *g, *r, m, edge_idx, start_before_end),
            t0 == rtype(*g, *r, 0),
            tm == rtype(*g, *r, m + 1),
            route_len == r.route@.len(),
            start_idx == port_slot_index(t0),
            orient0 == port_side(t0).spec_orientation(),
            0 <= k <= m,
            done ==> k == m,
            orientation == leg_orientation(*g, *r, k as int),
            !done ==> state.current_is_global == global_at(start_before_end, r.bend_directions@, k as int),
            channels_legs@.len() == cc0.channel_offsets@.len(),
            forall|c: int|
                0 <= c < channels_legs@.len() ==> (#[trigger] channels_legs@[c])@ == legs_in_channel(
                    flat0 + all.subrange(0, k + if done { 1int } else { 0int }),
                    c,
                ),
            forall|c: int, j: int|
                0 <= c < cc0.channel_offsets@.len() && 0 <= j < cc0.range_end(c) - cc0.range_start(c)
                    ==> #[trigger] slots_at(*cc, c, j) == slots_at(cc0, c, j) + connector_uses(
                    all.subrange(0, k + if done { 1int } else { 0int }),
                    c,
                    j,
                ),
            forall|c: int, j: int|
                0 <= c < cc0.channel_offsets@.len() && 0 <= j < cc0.range_end(c) - cc0.range_start(c)
                    ==> #[trigger] slots_at(cc0, c, j) + 2 * (m + 1) <= u16::MAX,
            port_slots@.len() == ps0.len(),
            ps_len == ps0.len(),
            ps0.len() == g.nodes_len * 4,
            forall|i: int| 0 <= i < ps0.len() ==> #[trigger] ps0[i] + 2 <= u16::MAX,
            done ==> end_idx == port_slot_index(tm),
            forall|i: int|
                0 <= i < ps0.len() ==> #[trigger] port_slots@[i] == ps0[i] + (if i == start_idx {
                    1int
                } else {
                    0int
                }) + (if done && i == end_idx {
                    1int
                } else {
                    0int
                }),
        decreases m + 1 - k + if done { 0int } else { 1int },
    {
        assert((r.route@[k + 1] as int) < g.nodes@.len());
        let next_t = g.nodes[r.route[k + 1]].node_type;
        let is_last = match next_t {
            RNodeType::Port(_, _, _) => true,
            _ => false,
        };
        proof {
            if k < m {
                assert(rtype(*g, *r, k + 1) is BendPoint);
            }
            lemma_route_legs_same_layout(cc0, *cc, *g, *r, m);
        }
        let is_global = if is_last {
            if k == 0 {
                true
            } else {
                state.is_current_global()
            }
        } else {
            state.is_global_order(r.bend_directions[k])
        };
        let (gid, leg) = leg_at(g, cc, r, Ghost(m), edge_idx, Ghost(start_before_end), k, orientation, is_global);
        let ghost pushed = k + if done { 1int } else { 0int };
        assert(pushed == k);
        assert(all[pushed] == (gid, leg));
        let ghost before = all.subrange(0, pushed);
        assert(all.subrange(0, pushed + 1) =~= before.push((gid, leg)));
        assert((flat0 + before.push((gid, leg))) =~= (flat0 + before).push((gid, leg)));
        assert((flat0 + before).push((gid, leg)).drop_last() =~= flat0 + before);
        assert(before.push((gid, leg)).drop_last() =~= before);
        proof {
            assert(route_leg(*cc, *g, *r, m, edge_idx, start_before_end, k as int) == route_leg(
                cc0,
                *g,
                *r,
                m,
                edge_idx,
                start_before_end,
                k as int,
            ));
            lemma_leg_connectors_within(cc0, *g, *r, m, k as int);
            assert(cc0.range_end(gid as int) <= cc0.connectors@.len());
            let lay0 = channel_layout(cc0, gid as int);
            assert(lay0.len() == cc0.range_end(gid as int) - cc0.range_start(gid as int));
            assert(leg.start_connector < lay0.len());
            assert(leg.end_connector < lay0.len());
            lemma_connector_uses_le(before, gid as int, leg.start_connector as int);
            lemma_connector_uses_le(before, gid as int, leg.end_connector as int);
            assert(slots_at(cc0, gid as int, leg.start_connector as int) + 2 * (m + 1) <= u16::MAX);
            assert(slots_at(cc0, gid as int, leg.end_connector as int) + 2 * (m + 1) <= u16::MAX);
        }
        let ghost legs_before = channels_legs@;
        let ghost cc_before = *cc;
        assert(slots_at(*cc, gid as int, leg.start_connector as int) == slots_at(cc0, gid as int, leg.start_connector as int)
            + connector_uses(before, gid as int, leg.start_connector as int));
        assert(slots_at(*cc, gid as int, leg.end_connector as int) == slots_at(cc0, gid as int, leg.end_connector as int)
            + connector_uses(before, gid as int, leg.end_connector as int));
        record_leg(cc, channels_legs, gid, leg);
        proof {
            assert(layout_of(cc.connectors@).len() == cc.connectors@.len());
            assert(layout_of(cc0.connectors@).len() == cc0.connectors@.len());
            lemma_circular_within_same(cc0, *cc);
            assert forall|c: int| 0 <= c < channels_legs@.len() implies (#[trigger] channels_legs@[c])@ == legs_in_channel(
                flat0 + all.subrange(0, pushed + 1),
                c,
            ) by {
                let x = (gid, leg);
                assert(legs_before[c]@ == legs_in_channel(flat0 + before, c));
                assert(flat0 + all.subrange(0, pushed + 1) == (flat0 + before).push(x));
                if c == gid {
                    assert(channels_legs@[c]@ == legs_before[c]@.push(leg));
                }
                assert(legs_in_channel((flat0 + before).push(x), c) == if gid as int == c {
                    legs_in_channel(flat0 + before, c).push(leg)
                } else {
                    legs_in_channel(flat0 + before, c)
                });
                if c != gid {
                    assert(channels_legs@[c] == legs_before[c]);
                }
            }
            assert forall|c: int, j: int|
                0 <= c < cc0.channel_offsets@.len() && 0 <= j < cc0.range_end(c) - cc0.range_start(c)
                    implies #[trigger] slots_at(*cc, c, j) == slots_at(cc0, c, j) + connector_uses(
                    all.subrange(0, pushed + 1),
                    c,
                    j,
                ) by {
                assert(slots_at(cc_before, c, j) == slots_at(cc0, c, j) + connector_uses(before, c, j));
                assert(connector_uses(before.push((gid, leg)), c, j) == connector_uses(before, c, j)
                    + (if gid as int == c && leg.start_connector == j {
                    1nat
                } else {
                    0nat
                }) + (if gid as int == c && leg.end_connector == j {
                    1nat
                } else {
                    0nat
                }));
            }
        }
        if is_last {
            let side_end = match next_t {
                RNodeType::Port(_, _, s) => s,
                _ => Side::Right,
            };
            let end_node = match next_t {
                RNodeType::Port(n, _, _) => n,
                _ => 0,
            };
            let e_idx = end_node * 4 + side_end.index();
            proof {
                end_idx = e_idx as int;
            }
            port_slots.set(e_idx, port_slots[e_idx] + 1);
            done = true;
        } else {
            proof {
                lemma_flip_step(orient0, k as int);
            }
            orientation = orientation.opposite();
            k += 1;
        }
    }
    assert(all.subrange(0, m + 1) =~= all);
}

// ---------------------------------------------------------------------------
// All edges.

/// `(a0, a1)` comes before `(b0, b1)` lexicographically.
pub open spec fn pair_lt(a0: usize, a1: usize, b0: usize, b1: usize) -> bool {
    a0 < b0 || (a0 == b0 && a1 < b1)
}

/// Routes are sorted by their end nodes, one route per pair of nodes.
pub open spec fn routes_sorted(routes: Seq<AbstractEdgeRoute>) -> bool {
    forall|i: int, j: int|
        0 <= i < j < routes.len() ==> pair_lt(
            #[trigger] routes[i].from,
            routes[i].to,
            #[trigger] routes[j].from,
            routes[j].to,
        )
}

/// Index of the route between `a` and `b`.
pub open spec fn route_for(routes: Seq<AbstractEdgeRoute>, a: usize, b: usize) -> int {
    choose|i: int| 0 <= i < routes.len() && routes[i].from == a && routes[i].to == b
}

/// There is a route between `a` and `b`.
pub open spec fn has_route(routes: Seq<AbstractEdgeRoute>, a: usize, b: usize) -> bool {
    exists|i: int| 0 <= i < routes.len() && routes[i].from == a && routes[i].to == b
}

/// The end nodes of an edge, smaller first.
pub open spec fn edge_pair(e: RouteEdge) -> (usize, usize) {
    if e.from < e.to {
        (e.from, e.to)
    } else {
        (e.to, e.from)
    }
}

/// The route of an edge.
pub open spec fn edge_route(routes: Seq<AbstractEdgeRoute>, e: RouteEdge) -> AbstractEdgeRoute {
    routes[route_for(routes, edge_pair(e).0, edge_pair(e).1)]
}

/// The number of bends of a route.
pub open spec fn route_bends(g: RoutingGraph, r: AbstractEdgeRoute) -> int {
    choose|m: int| route_shape(g, r, m)
}

/// The edge has a route that can be cut into legs.
pub open spec fn edge_routable(cc: ChannelConnectors, g: RoutingGraph, routes: Seq<AbstractEdgeRoute>, e: RouteEdge) -> bool {
    &&& has_route(routes, edge_pair(e).0, edge_pair(e).1)
    &&& exists|m: int| route_legs_valid(cc, g, edge_route(routes, e), m)
}

/// The legs of the routes of the first `n` edges, edge after edge.
pub open spec fn legs_upto(
    cc: ChannelConnectors,
    g: RoutingGraph,
    routes: Seq<AbstractEdgeRoute>,
    edges: Seq<RouteEdge>,
    n: int,
) -> Seq<(usize, ChannelLeg)>
    decreases n,
{
    if n <= 0 {
        Seq::empty()
    } else {
        let e = edges[n - 1];
        let r = edge_route(routes, e);
        legs_upto(cc, g, routes, edges, n - 1) + route_legs(cc, g, r, route_bends(g, r), (n - 1) as usize, e.start_before_end)
    }
}

/// How many route ends of the first `n` edges lie on port slot `i`.
pub open spec fn port_uses(g: RoutingGraph, routes: Seq<AbstractEdgeRoute>, edges: Seq<RouteEdge>, n: int, i: int) -> nat
    decreases n,
{
    if n <= 0 {
        0
    } else {
        let r = edge_route(routes, edges[n - 1]);
        let m = route_bends(g, r);
        port_uses(g, routes, edges, n - 1, i) + (if i == port_slot_index(rtype(g, r, 0)) {
            1nat
        } else {
            0nat
        }) + (if i == port_slot_index(rtype(g, r, m + 1)) {
            1nat
        } else {
            0nat
        })
    }
}

proof fn lemma_port_uses_le(g: RoutingGraph, routes: Seq<AbstractEdgeRoute>, edges: Seq<RouteEdge>, n: int, i: int)
    ensures
        port_uses(g, routes, edges, n, i) <= 2 * (if n < 0 { 0 } else { n }),
    decreases n,
{
    if n > 0 {
        lemma_port_uses_le(g, routes, edges, n - 1, i);
    }
}

proof fn lemma_legs_upto_mono(
    cc: ChannelConnectors,
    g: RoutingGraph,
    routes: Seq<AbstractEdgeRoute>,
    edges: Seq<RouteEdge>,
    a: int,
    b: int,
)
    requires
        0 <= a <= b,
    ensures
        legs_upto(cc, g, routes, edges, a).len() <= legs_upto(cc, g, routes, edges, b).len(),
    decreases b - a,
{
    if a < b {
        lemma_legs_upto_mono(cc, g, routes, edges, a, b - 1);
    }
}

/// Index of the route between `a` and `b` (binary search).
fn find_route(routes: &Vec<AbstractEdgeRoute>, a: usize, b: usize) -> (res: usize)
    requires
        routes_sorted(routes@),
        has_route(routes@, a, b),
    ensures
        res == route_for(routes@, a, b),
        res < routes@.len(),
{
    let mut lo: usize = 0;
    let mut hi: usize = routes.len();
    while lo < hi
        invariant
            hi <= routes@.len(),
            routes_sorted(routes@),
            has_route(routes@, a, b),
            forall|i: int| 0 <= i < lo ==> pair_lt(#[trigger] routes@[i].from, routes@[i].to, a, b),
            forall|i: int| hi <= i < routes@.len() ==> pair_lt(a, b, #[trigger] routes@[i].from, routes@[i].to),
        decreases hi - lo,
    {
        let mid = lo + (hi - lo) / 2;
        let rf = routes[mid].from;
        let rt = routes[mid].to;
        if rf == a && rt == b {
            proof {
                let i = route_for(routes@, a, b);
                if i < mid {
                    assert(pair_lt(routes@[i].from, routes@[i].to, routes@[mid as int].from, routes@[mid as int].to));
                } else if i > mid {
                    assert(pair_lt(routes@[mid as int].from, routes@[mid as int].to, routes@[i].from, routes@[i].to));
                }
            }
            return mid;
        } else if rf < a || (rf == a && rt < b) {
            proof {
                assert forall|i: int| 0 <= i < mid + 1 implies pair_lt(#[trigger] routes@[i].from, routes@[i].to, a, b) by {
                    if i < mid {
                        assert(pair_lt(routes@[i].from, routes@[i].to, routes@[mid as int].from, routes@[mid as int].to));
                    }
                }
            }
            lo = mid + 1;
        } else {
            proof {
                assert forall|i: int| mid <= i < routes@.len() implies pair_lt(a, b, #[trigger] routes@[i].from, routes@[i].to) by {
                    if i > mid {
                        assert(pair_lt(routes@[mid as int].from, routes@[mid as int].to, routes@[i].from, routes@[i].to));
                    }
                }
            }
            hi = mid;
        }
    }
    proof {
        let i = choose|i: int| 0 <= i < routes@.len() && routes@[i].from == a && routes@[i].to == b;
        assert(pair_lt(routes@[i].from, routes@[i].to, a, b) || pair_lt(a, b, routes@[i].from, routes@[i].to));
    }
    0
}

/// A vector of zeros.
fn zeros(n: usize) -> (res: Vec<u16>)
    ensures
        res@ == Seq::new(n as nat, |i: int| 0u16),
{
    let mut v: Vec<u16> = Vec::new();
    let mut i: usize = 0;
    while i < n
        invariant
            i <= n,
            v@ == Seq::new(i as nat, |k: int| 0u16),
        decreases n - i,
    {
        v.push(0);
        i += 1;
        assert(v@ =~= Seq::new(i as nat, |k: int| 0u16));
    }
    v
}

/// The slots of an edge route before assignment: an entry for each element
/// of its abstract route, all zero.
pub open spec fn empty_edge_route(routes: Seq<AbstractEdgeRoute>, edges: Seq<RouteEdge>, e: int, route: EdgeRoute) -> bool {
    let r = route_for(routes, edge_pair(edges[e]).0, edge_pair(edges[e]).1);
    &&& route.abstract_route == r
    &&& route.edge_idx == e
    &&& route.port_slots@ == Seq::new(routes[r].route@.len(), |i: int| 0u16)
    &&& route.channel_slots@ == Seq::new(routes[r].route@.len(), |i: int| 0u16)
}

/// Cuts the routes of all edges into legs per channel. Returns the legs of
/// each channel (in edge order, then route order), the number of route ends
/// on each port, and an empty slot record per edge; counts on every
/// connector the legs that end there.
#[verifier::rlimit(60)]
pub fn compute_channel_legs(
    g: &RoutingGraph,
    cc: &mut ChannelConnectors,
    edges: &Vec<RouteEdge>,
    routes: &Vec<AbstractEdgeRoute>,
) -> (res: (Vec<Vec<ChannelLeg>>, Vec<u16>, Vec<EdgeRoute>))
    requires
        old(cc).wf(),
        circular_within(*old(cc)),
        routes_sorted(routes@),
        forall|e: int| 0 <= e < edges@.len() ==> #[trigger] edge_routable(*old(cc), *g, routes@, edges@[e]),
        g.nodes_len * 4 <= usize::MAX,
        2 * edges@.len() <= u16::MAX,
        forall|c: int, j: int|
            0 <= c < old(cc).channel_offsets@.len() && 0 <= j < old(cc).range_end(c) - old(cc).range_start(c)
                ==> #[trigger] slots_at(*old(cc), c, j) + 2 * legs_upto(*old(cc), *g, routes@, edges@, edges@.len() as int).len()
                <= u16::MAX,
    ensures
        final(cc).wf(),
        same_layout(*old(cc), *final(cc)),
        forall|c: int, j: int|
            0 <= c < old(cc).channel_offsets@.len() && 0 <= j < old(cc).range_end(c) - old(cc).range_start(c)
                ==> #[trigger] slots_at(*final(cc), c, j) == slots_at(*old(cc), c, j) + connector_uses(
                legs_upto(*old(cc), *g, routes@, edges@, edges@.len() as int),
                c,
                j,
            ),
        res.0@.len() == old(cc).channel_offsets@.len(),
        forall|c: int|
            0 <= c < res.0@.len() ==> (#[trigger] res.0@[c])@ == legs_in_channel(
                legs_upto(*old(cc), *g, routes@, edges@, edges@.len() as int),
                c,
            ),
        res.1@.len() == g.nodes_len * 4,
        forall|i: int| 0 <= i < res.1@.len() ==> #[trigger] res.1@[i] == port_uses(*g, routes@, edges@, edges@.len() as int, i),
        res.2@.len() == edges@.len(),
        forall|e: int| 0 <= e < edges@.len() ==> #[trigger] empty_edge_route(routes@, edges@, e, res.2@[e]),
{
    let ghost cc0 = *cc;
    let ghost total = legs_upto(cc0, *g, routes@, edges@, edges@.len() as int).len();
    let channels = cc.channel_offsets.len();
    let mut channels_legs: Vec<Vec<ChannelLeg>> = Vec::new();
    let mut c: usize = 0;
    while c < channels
        invariant
            c <= channels,
            channels == cc0.channel_offsets@.len(),
            channels_legs@.len() == c,
            forall|i: int| 0 <= i < c ==> (#[trigger] channels_legs@[i])@ == Seq::<ChannelLeg>::empty(),
        decreases channels - c,
    {
        channels_legs.push(Vec::new());
        c += 1;
    }
    let mut port_slots = zeros(g.nodes_len * 4);
    let mut edge_routes: Vec<EdgeRoute> = Vec::new();
    let mut e: usize = 0;
    while e < edges.len()
        invariant
            e <= edges@.len(),
            cc.wf(),
            cc0.wf(),
            same_layout(cc0, *cc),
            cc.connectors@.len() == cc0.connectors@.len(),
            circular_within(*cc),
            circular_within(cc0),
            routes_sorted(routes@),
            forall|i: int| 0 <= i < edges@.len() ==> #[trigger] edge_routable(cc0, *g, routes@, edges@[i]),
            channels_legs@.len() == cc0.channel_offsets@.len(),
            forall|i: int|
                0 <= i < channels_legs@.len() ==> (#[trigger] channels_legs@[i])@ == legs_in_channel(
                    legs_upto(cc0, *g, routes@, edges@, e as int),
                    i,
                ),
            forall|i: int, j: int|
                0 <= i < cc0.channel_offsets@.len() && 0 <= j < cc0.range_end(i) - cc0.range_start(i)
                    ==> #[trigger] slots_at(*cc, i, j) == slots_at(cc0, i, j) + connector_uses(
                    legs_upto(cc0, *g, routes@, edges@, e as int),
                    i,
                    j,
                ),
            total == legs_upto(cc0, *g, routes@, edges@, edges@.len() as int).len(),
            forall|i: int, j: int|
                0 <= i < cc0.channel_offsets@.len() && 0 <= j < cc0.range_end(i) - cc0.range_start(i)
                    ==> #[trigger] slots_at(cc0, i, j) + 2 * total <= u16::MAX,
            g.nodes_len * 4 <= usize::MAX,
            2 * edges@.len() <= u16::MAX,
            port_slots@.len() == g.nodes_len * 4,
            forall|i: int| 0 <= i < port_slots@.len() ==> #[trigger] port_slots@[i] == port_uses(*g, routes@, edges@, e as int, i),
            edge_routes@.len() == e,
            forall|i: int| 0 <= i < e ==> #[trigger] empty_edge_route(routes@, edges@, i, edge_routes@[i]),
        decreases edges@.len() - e,
    {
        let edge = edges[e];
        let (node_min, node_max) = if edge.from < edge.to {
            (edge.from, edge.to)
        } else {
            (edge.to, edge.from)
        };
        assert(edge_routable(cc0, *g, routes@, edges@[e as int]));
        let route_idx = find_route(routes, node_min, node_max);
        let route = &routes[route_idx];
        let ghost m = route_bends(*g, *route);
        proof {
            let mw = choose|mw: int| route_legs_valid(cc0, *g, edge_route(routes@, edge), mw);
            lemma_route_shape_unique(*g, *route, mw, m);
            lemma_route_legs_same_layout(cc0, *cc, *g, *route, m);
            lemma_legs_upto_mono(cc0, *g, routes@, edges@, e + 1, edges@.len() as int);
            assert(legs_upto(cc0, *g, routes@, edges@, e + 1) == legs_upto(cc0, *g, routes@, edges@, e as int) + route_legs(
                cc0,
                *g,
                *route,
                m,
                e,
                edge.start_before_end,
            ));
            assert(route_legs(cc0, *g, *route, m, e, edge.start_before_end).len() == m + 1);
            assert forall|i: int, j: int|
                0 <= i < cc.channel_offsets@.len() && 0 <= j < cc.range_end(i) - cc.range_start(i)
                    implies #[trigger] slots_at(*cc, i, j) + 2 * (m + 1) <= u16::MAX by {
                lemma_connector_uses_le(legs_upto(cc0, *g, routes@, edges@, e as int), i, j);
                assert(slots_at(cc0, i, j) + 2 * total <= u16::MAX);
            }
            lemma_port_uses_le(*g, routes@, edges@, e as int, 0);
            assert forall|i: int| 0 <= i < port_slots@.len() implies #[trigger] port_slots@[i] + 2 <= u16::MAX by {
                lemma_port_uses_le(*g, routes@, edges@, e as int, i);
            }
            assert(route_legs(*cc, *g, *route, m, e, edge.start_before_end) =~= route_legs(
                cc0,
                *g,
                *route,
                m,
                e,
                edge.start_before_end,
            ));
        }
        let ghost cc_before = *cc;
        add_route_legs(
            g,
            cc,
            route,
            Ghost(m),
            e,
            edge.start_before_end,
            &mut channels_legs,
            &mut port_slots,
            Ghost(legs_upto(cc0, *g, routes@, edges@, e as int)),
        );
        proof {
            assert(layout_of(cc.connectors@).len() == cc.connectors@.len());
            assert(layout_of(cc0.connectors@).len() == cc0.connectors@.len());
            lemma_circular_within_same(cc0, *cc);
            assert forall|i: int, j: int|
                0 <= i < cc0.channel_offsets@.len() && 0 <= j < cc0.range_end(i) - cc0.range_start(i)
                    implies #[trigger] slots_at(*cc, i, j) == slots_at(cc0, i, j) + connector_uses(
                    legs_upto(cc0, *g, routes@, edges@, e + 1),
                    i,
                    j,
                ) by {
                lemma_connector_uses_concat(
                    legs_upto(cc0, *g, routes@, edges@, e as int),
                    route_legs(cc0, *g, *route, m, e, edge.start_before_end),
                    i,
                    j,
                );
            }
        }
        let n = route.route.len();
        edge_routes.push(EdgeRoute { abstract_route: route_idx, edge_idx: e, port_slots: zeros(n), channel_slots: zeros(n) });
        e += 1;
    }
    (channels_legs, port_slots, edge_routes)
}

proof fn lemma_connector_uses_concat(a: Seq<(usize, ChannelLeg)>, b: Seq<(usize, ChannelLeg)>, c: int, j: int)
    ensures
        connector_uses(a + b, c, j) == connector_uses(a, c, j) + connector_uses(b, c, j),
    decreases b.len(),
{
    if b.len() == 0 {
        assert(a + b =~= a);
    } else {
        assert((a + b).drop_last() =~= a + b.drop_last());
        assert((a + b).last() == b.last());
        lemma_connector_uses_concat(a, b.drop_last(), c, j);
    }
}

// ---------------------------------------------------------------------------
// Facts about the legs of all routes.

/// A leg names its edge and consecutive elements of the edge's route.
pub open spec fn leg_fits(leg: ChannelLeg, routes: Seq<AbstractEdgeRoute>, edges: Seq<RouteEdge>) -> bool {
    &&& leg.edge_idx < edges.len()
    &&& leg.route_channel_idx == leg.route_start_idx
    &&& leg.route_end_idx == leg.route_start_idx + 1
    &&& leg.route_end_idx < edge_route(routes, edges[leg.edge_idx as int]).route@.len()
}

/// A leg on channel `gid` joins two distinct connectors of that channel.
pub open spec fn leg_on_channel(cc: ChannelConnectors, gid: int, leg: ChannelLeg) -> bool {
    &&& 0 <= gid < cc.channel_offsets@.len()
    &&& leg.start_connector < cc.range_end(gid) - cc.range_start(gid)
    &&& leg.end_connector < cc.range_end(gid) - cc.range_start(gid)
    &&& leg.start_connector != leg.end_connector
}

/// Every leg of the routes of the first `n` edges lies on its channel and
/// fits its route.
pub open spec fn legs_well_placed(
    cc: ChannelConnectors,
    routes: Seq<AbstractEdgeRoute>,
    edges: Seq<RouteEdge>,
    legs: Seq<(usize, ChannelLeg)>,
) -> bool {
    forall|i: int|
        0 <= i < legs.len() ==> leg_on_channel(cc, (#[trigger] legs[i]).0 as int, legs[i].1) && leg_fits(
            legs[i].1,
            routes,
            edges,
        ) && legs[i].1.route_order == 0
}

pub proof fn lemma_legs_upto_placed(
    cc: ChannelConnectors,
    g: RoutingGraph,
    routes: Seq<AbstractEdgeRoute>,
    edges: Seq<RouteEdge>,
    n: int,
)
    requires
        cc.wf(),
        0 <= n <= edges.len(),
        edges.len() <= usize::MAX,
        forall|e: int| 0 <= e < edges.len() ==> #[trigger] edge_routable(cc, g, routes, edges[e]),
    ensures
        legs_well_placed(cc, routes, edges, legs_upto(cc, g, routes, edges, n)),
    decreases n,
{
    if n > 0 {
        lemma_legs_upto_placed(cc, g, routes, edges, n - 1);
        let e = edges[n - 1];
        let r = edge_route(routes, e);
        let m = route_bends(g, r);
        assert(edge_routable(cc, g, routes, edges[n - 1]));
        let mw = choose|mw: int| route_legs_valid(cc, g, edge_route(routes, e), mw);
        lemma_route_shape_unique(g, r, mw, m);
        let prev = legs_upto(cc, g, routes, edges, n - 1);
        let new = route_legs(cc, g, r, m, (n - 1) as usize, e.start_before_end);
        let all = legs_upto(cc, g, routes, edges, n);
        assert(all == prev + new);
        assert forall|i: int| 0 <= i < all.len() implies leg_on_channel(cc, (#[trigger] all[i]).0 as int, all[i].1)
            && leg_fits(all[i].1, routes, edges) && all[i].1.route_order == 0 by {
            if i >= prev.len() {
                let k = i - prev.len();
                assert(all[i] == new[k]);
                lemma_leg_connectors_within(cc, g, r, m, k);
                let gid = leg_channel(g, r, m, k);
                assert(cc.range_start(gid) <= cc.range_end(gid) <= cc.connectors@.len());
                assert(channel_layout(cc, gid).len() == cc.range_end(gid) - cc.range_start(gid));
                assert(r.route.len() == r.route@.len());
                assert(cc.channel_offsets.len() == cc.channel_offsets@.len());
                assert(cc.connectors.len() == cc.connectors@.len());
                let leg = route_leg(cc, g, r, m, (n - 1) as usize, e.start_before_end, k);
                assert(all[i].1 == leg);
                assert(leg.edge_idx == n - 1);
                assert(edges[leg.edge_idx as int] == e);
                assert(route_shape(g, r, m));
                assert(leg.route_end_idx == k + 1);
                assert(leg_fits(leg, routes, edges));
                let lay = channel_layout(cc, gid);
                assert(all[i].0 as int == gid);
                assert(leg.start_connector as int == leg_start_connector(lay, g, r, k));
                assert(leg.end_connector as int == leg_end_connector(lay, g, r, m, k));
                assert(leg_on_channel(cc, all[i].0 as int, leg));
            } else {
                assert(all[i] == prev[i]);
            }
        }
    }
}

/// Every leg of channel `c` comes from an entry of `legs` on channel `c`.
pub proof fn lemma_legs_in_channel_from(legs: Seq<(usize, ChannelLeg)>, c: int, x: ChannelLeg)
    requires
        legs_in_channel(legs, c).contains(x),
    ensures
        exists|i: int| 0 <= i < legs.len() && #[trigger] legs[i] == (c as usize, x) && c == legs[i].0 as int,
    decreases legs.len(),
{
    if legs.len() > 0 {
        let (gid, leg) = legs.last();
        let init = legs.drop_last();
        if gid as int == c && leg == x {
            assert(legs[legs.len() - 1] == (c as usize, x));
        } else {
            if gid as int == c {
                let k = choose|k: int| 0 <= k < legs_in_channel(legs, c).len() && legs_in_channel(legs, c)[k] == x;
                assert(legs_in_channel(init, c).contains(x)) by {
                    assert(legs_in_channel(legs, c) == legs_in_channel(init, c).push(leg));
                    assert(legs_in_channel(init, c)[k] == x);
                }
            }
            lemma_legs_in_channel_from(init, c, x);
            let i = choose|i: int| 0 <= i < init.len() && #[trigger] init[i] == (c as usize, x) && c == init[i].0 as int;
            assert(legs[i] == init[i]);
        }
    }
}

/// Total number of legs over the first `count` channels.
pub open spec fn channel_lens_sum(legs: Seq<(usize, ChannelLeg)>, count: int) -> nat
    decreases count,
{
    if count <= 0 {
        0
    } else {
        channel_lens_sum(legs, count - 1) + legs_in_channel(legs, count - 1).len()
    }
}

proof fn lemma_channel_lens_sum_push(legs: Seq<(usize, ChannelLeg)>, x: (usize, ChannelLeg), count: int)
    requires
        count >= 0,
    ensures
        channel_lens_sum(legs.push(x), count) == channel_lens_sum(legs, count) + if (x.0 as int) < count {
            1nat
        } else {
            0nat
        },
    decreases count,
{
    assert(legs.push(x).drop_last() =~= legs);
    if count > 0 {
        lemma_channel_lens_sum_push(legs, x, count - 1);
    }
}

/// The channels share out the legs: together they hold at most all of them.
pub proof fn lemma_channel_lens_sum_le(legs: Seq<(usize, ChannelLeg)>, count: int)
    requires
        count >= 0,
    ensures
        channel_lens_sum(legs, count) <= legs.len(),
    decreases legs.len(),
{
    if legs.len() == 0 {
        lemma_channel_lens_sum_empty(legs, count);
    } else {
        lemma_channel_lens_sum_le(legs.drop_last(), count);
        assert(legs.drop_last().push(legs.last()) =~= legs);
        lemma_channel_lens_sum_push(legs.drop_last(), legs.last(), count);
    }
}

proof fn lemma_channel_lens_sum_empty(legs: Seq<(usize, ChannelLeg)>, count: int)
    requires
        legs.len() == 0,
    ensures
        channel_lens_sum(legs, count) == 0,
    decreases count,
{
    if count > 0 {
        lemma_channel_lens_sum_empty(legs, count - 1);
    }
}

/// Fewer channels hold fewer legs.
pub proof fn lemma_channel_lens_sum_mono(legs: Seq<(usize, ChannelLeg)>, a: int, b: int)
    requires
        0 <= a <= b,
    ensures
        channel_lens_sum(legs, a) <= channel_lens_sum(legs, b),
    decreases b - a,
{
    if a < b {
        lemma_channel_lens_sum_mono(legs, a, b - 1);
    }
}

} // verus!
