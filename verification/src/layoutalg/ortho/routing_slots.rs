//! Assignment of port and channel slots to edge routes.
//!
//! Each channel is crossed by legs (the parts of edge routes that run along
//! the channel). Legs are ordered so that routes cross as little as
//! possible, and every leg then takes a slot of its channel and slots of the
//! ports it connects.

use std::cmp::Ordering;
use std::ops::Range;
use vstd::prelude::*;

use crate::layoutalg::ortho::route_sorting::{
    edge, edges_total, lemma_add_edge_supergraph, lemma_reaches_subgraph, reaches, subgraph, TopologyRouting,
};
use crate::layoutalg::ortho::route_legs::{
    circular_within, compute_channel_legs, edge_routable, edge_route, empty_edge_route, legs_in_channel, legs_upto,
    lemma_legs_upto_placed, port_uses, route_for, routes_sorted, same_layout, slots_at, EdgeRoute,
    GraphEdgeRouting, RouteEdge, RoutingGraph, edge_pair, connector_uses, leg_fits, leg_on_channel,
};
use crate::layoutalg::ortho::routing::{AbstractEdgeRoute, BendDirection, Side};
use crate::layoutalg::ortho::slot_assignment::{
    apply_writes, assign_channels, assignment_writes, channel_slot_counts, honours_demands, leg_fits_tables, legs_on_channels,
    positions_of_order, route_order_positions, tables_of, with_route_order, SlotTables,
};

verus! {

/// The side of a channel a connector lies on.
#[derive(Debug, PartialEq, Eq, Clone, Copy, Structural)]
pub enum ChannelConnectorSide {
    RightOrButton,
    LeftOrTop,
}

impl ChannelConnectorSide {
    pub open spec fn spec_from_side(side: Side) -> ChannelConnectorSide {
        match side {
            Side::Right | Side::Bottom => ChannelConnectorSide::LeftOrTop,
            Side::Left | Side::Top => ChannelConnectorSide::RightOrButton,
        }
    }

    /// The channel side that a port on the given node side touches: the
    /// right side of a node faces the left side of the channel.
    pub fn from_side(side: Side) -> (res: Self)
        ensures
            res == Self::spec_from_side(side),
    {
        match side {
            Side::Right | Side::Bottom => ChannelConnectorSide::LeftOrTop,
            Side::Left | Side::Top => ChannelConnectorSide::RightOrButton,
        }
    }
}

/// What a channel connector connects to.
#[derive(Debug, PartialEq, Eq, Clone, Copy, Structural)]
pub enum ChannelConnectorType {
    /// A port of the node with this index.
    Port(usize),
    /// A crossing with the channel of this index.
    Bend(usize),
}

/// A point where routes enter or leave a channel, in channel order.
#[derive(Debug)]
pub struct ChannelConnector {
    pub slots: u16,
    pub connector_type: ChannelConnectorType,
    pub connector_side: ChannelConnectorSide,
    pub circular_index: usize,
}

/// The connectors of all channels, stored one channel after another.
#[derive(Debug)]
pub struct ChannelConnectors {
    pub connectors: Vec<ChannelConnector>,
    pub channel_offsets: Vec<usize>,
}

impl ChannelConnectors {
    /// Offsets ascend and stay within the connectors.
    pub open spec fn wf(&self) -> bool {
        &&& forall|i: int, j: int| 0 <= i <= j < self.channel_offsets@.len()
            ==> #[trigger] self.channel_offsets@[i] <= #[trigger] self.channel_offsets@[j]
        &&& forall|i: int| 0 <= i < self.channel_offsets@.len()
            ==> #[trigger] self.channel_offsets@[i] <= self.connectors@.len()
    }

    /// Start of the connectors of a channel.
    pub open spec fn range_start(&self, channel_idx: int) -> int {
        self.channel_offsets@[channel_idx] as int
    }

    /// End (exclusive) of the connectors of a channel.
    pub open spec fn range_end(&self, channel_idx: int) -> int {
        if channel_idx + 1 < self.channel_offsets@.len() {
            self.channel_offsets@[channel_idx + 1] as int
        } else {
            self.connectors@.len() as int
        }
    }

    pub fn new() -> (res: Self)
        ensures
            res.wf(),
            res.connectors@.len() == 0,
            res.channel_offsets@.len() == 0,
    {
        ChannelConnectors { connectors: Vec::new(), channel_offsets: Vec::new() }
    }

    /// Appends the connectors of the next channel.
    pub fn add_connectors(&mut self, connectors: Vec<ChannelConnector>)
        requires
            old(self).wf(),
        ensures
            final(self).wf(),
            final(self).channel_offsets@ == old(self).channel_offsets@.push(old(self).connectors@.len() as usize),
            final(self).connectors@ == old(self).connectors@ + connectors@,
    {
        let ghost offsets0 = self.channel_offsets@;
        self.channel_offsets.push(self.connectors.len());
        let mut connectors = connectors;
        self.connectors.append(&mut connectors);
        assert forall|i: int, j: int| 0 <= i <= j < self.channel_offsets@.len()
            implies #[trigger] self.channel_offsets@[i] <= #[trigger] self.channel_offsets@[j] by {
            if j < offsets0.len() {
                assert(offsets0[i] <= offsets0[j]);
            }
        }
    }

    /// The connectors of one channel.
    pub fn connector_range(&self, channel_idx: usize) -> (res: &[ChannelConnector])
        requires
            self.wf(),
            channel_idx < self.channel_offsets@.len(),
        ensures
            res@ == self.connectors@.subrange(self.range_start(channel_idx as int), self.range_end(channel_idx as int)),
    {
        let start = self.channel_offsets[channel_idx];
        let end = if channel_idx < self.channel_offsets.len() - 1 {
            self.channel_offsets[channel_idx + 1]
        } else {
            self.connectors.len()
        };
        &self.connectors.as_slice()[start..end]
    }

    pub open spec fn spec_circular_distance(from: int, to: int, connectors: Seq<ChannelConnector>) -> u16 {
        let diff = if connectors[from].circular_index >= connectors[to].circular_index {
            connectors[from].circular_index - connectors[to].circular_index
        } else {
            connectors[to].circular_index - connectors[from].circular_index
        };
        if diff > connectors.len() / 2 {
            (connectors.len() - diff) as u16
        } else {
            diff as u16
        }
    }

    /// Distance between two connectors going round the channel (down one
    /// side and up the other), whichever way is shorter.
    pub fn circular_distance(from_idx: usize, to_idx: usize, connectors: &[ChannelConnector]) -> (res: u16)
        requires
            from_idx < connectors@.len(),
            to_idx < connectors@.len(),
            connectors@[from_idx as int].circular_index < connectors@.len(),
            connectors@[to_idx as int].circular_index < connectors@.len(),
        ensures
            res == Self::spec_circular_distance(from_idx as int, to_idx as int, connectors@),
    {
        let circular_idx_from = connectors[from_idx].circular_index;
        let circular_idx_to = connectors[to_idx].circular_index;
        let diff = if circular_idx_from >= circular_idx_to {
            circular_idx_from - circular_idx_to
        } else {
            circular_idx_to - circular_idx_from
        };
        if diff > connectors.len() / 2 {
            (connectors.len() - diff) as u16
        } else {
            diff as u16
        }
    }
}

/// Which channel sides the two ends of a leg lie on.
#[derive(Debug, PartialEq, Eq, Copy, Clone, Structural)]
pub enum PortSides {
    BothLeftOrTop,
    /// The ends change sides and the leg goes up when read from the left
    /// (or top) side to the other.
    ChangeUp,
    ChangeDown,
    BothRightOrBottom,
}

impl PortSides {
    pub open spec fn spec_stack_order(self) -> u16 {
        match self {
            PortSides::BothLeftOrTop => 0,
            PortSides::ChangeUp => 1,
            PortSides::ChangeDown => 2,
            PortSides::BothRightOrBottom => 3,
        }
    }

    /// Position of the kind in the stacking order of legs.
    pub fn stack_order(self) -> (res: u16)
        ensures
            res == self.spec_stack_order(),
    {
        match self {
            PortSides::BothLeftOrTop => 0,
            PortSides::ChangeUp => 1,
            PortSides::ChangeDown => 2,
            PortSides::BothRightOrBottom => 3,
        }
    }

    pub open spec fn spec_from_sides(side_a: Side, side_b: Side, connector_a: usize, connector_b: usize) -> PortSides {
        if side_a == side_b {
            match side_a {
                Side::Right | Side::Bottom => PortSides::BothRightOrBottom,
                Side::Left | Side::Top => PortSides::BothLeftOrTop,
            }
        } else if side_a == Side::Left || side_a == Side::Top {
            if connector_a < connector_b {
                PortSides::ChangeDown
            } else {
                PortSides::ChangeUp
            }
        } else {
            if connector_a > connector_b {
                PortSides::ChangeDown
            } else {
                PortSides::ChangeUp
            }
        }
    }

    /// Kind of a leg from its end sides (both of the same orientation) and
    /// the positions of its connectors.
    pub fn from_sides(side_a: Side, side_b: Side, connector_a: usize, connector_b: usize) -> (res: Self)
        requires
            side_a.spec_orientation() == side_b.spec_orientation(),
        ensures
            res == Self::spec_from_sides(side_a, side_b, connector_a, connector_b),
    {
        if side_a == side_b {
            match side_a {
                Side::Right | Side::Bottom => PortSides::BothRightOrBottom,
                Side::Left | Side::Top => PortSides::BothLeftOrTop,
            }
        } else {
            match side_a {
                Side::Left | Side::Top => {
                    if connector_a < connector_b {
                        PortSides::ChangeDown
                    } else {
                        PortSides::ChangeUp
                    }
                },
                Side::Right | Side::Bottom => {
                    if connector_a > connector_b {
                        PortSides::ChangeDown
                    } else {
                        PortSides::ChangeUp
                    }
                },
            }
        }
    }

    pub open spec fn spec_pack_order(self) -> ChannelConnectorSide {
        match self {
            PortSides::BothRightOrBottom => ChannelConnectorSide::RightOrButton,
            _ => ChannelConnectorSide::LeftOrTop,
        }
    }

    /// The side of the channel whose slots the leg takes first.
    pub fn pack_order(&self) -> (res: ChannelConnectorSide)
        ensures
            res == self.spec_pack_order(),
    {
        match self {
            PortSides::BothLeftOrTop | PortSides::ChangeDown | PortSides::ChangeUp => ChannelConnectorSide::LeftOrTop,
            PortSides::BothRightOrBottom => ChannelConnectorSide::RightOrButton,
        }
    }
}

/// A segment of an edge route that runs along one channel.
#[derive(Debug, Eq, PartialEq, Structural, Clone, Copy)]
pub struct ChannelLeg {
    pub start_connector: usize,
    pub end_connector: usize,
    pub edge_idx: usize,
    pub route_start_idx: usize,
    pub route_channel_idx: usize,
    pub route_end_idx: usize,
    pub circular_distance: u16,
    pub port_sides: PortSides,
    pub route_order: i32,
    /// Whether the leg follows the global route order (towards the origin).
    pub is_global_order: bool,
}

/// Three-way comparison of two integers.
pub open spec fn order_of(a: int, b: int) -> Ordering {
    if a < b {
        Ordering::Less
    } else if a == b {
        Ordering::Equal
    } else {
        Ordering::Greater
    }
}

/// Lexicographic combination: the second comparison decides ties of the first.
pub open spec fn order_then(first: Ordering, second: Ordering) -> Ordering {
    match first {
        Ordering::Equal => second,
        _ => first,
    }
}

pub open spec fn order_reverse(o: Ordering) -> Ordering {
    match o {
        Ordering::Less => Ordering::Greater,
        Ordering::Equal => Ordering::Equal,
        Ordering::Greater => Ordering::Less,
    }
}

pub open spec fn leg_kind(leg: ChannelLeg) -> int {
    leg.port_sides.spec_stack_order() as int
}

pub open spec fn leg_distance(leg: ChannelLeg) -> int {
    leg.circular_distance as int
}

pub open spec fn leg_route(leg: ChannelLeg) -> int {
    leg.route_order as int
}

pub open spec fn leg_min(leg: ChannelLeg) -> int {
    if leg.start_connector < leg.end_connector {
        leg.start_connector as int
    } else {
        leg.end_connector as int
    }
}

pub open spec fn leg_max(leg: ChannelLeg) -> int {
    if leg.start_connector < leg.end_connector {
        leg.end_connector as int
    } else {
        leg.start_connector as int
    }
}

/// The stacking order of legs in a channel: by kind, then by circular
/// distance (legs with both ends on one side) or by connector span (legs
/// that change sides), then by route order (reversed on the right side).
pub open spec fn leg_order(a: ChannelLeg, b: ChannelLeg) -> Ordering {
    order_then(
        order_of(leg_kind(a), leg_kind(b)),
        order_then(
            match a.port_sides {
                PortSides::BothLeftOrTop | PortSides::BothRightOrBottom => order_of(leg_distance(a), leg_distance(b)),
                PortSides::ChangeUp => order_then(order_of(leg_min(a), leg_min(b)), order_of(leg_max(a), leg_max(b))),
                PortSides::ChangeDown => order_then(order_of(leg_max(b), leg_max(a)), order_of(leg_min(b), leg_min(a))),
            },
            match a.port_sides {
                PortSides::BothRightOrBottom => order_of(leg_route(b), leg_route(a)),
                _ => order_of(leg_route(a), leg_route(b)),
            },
        ),
    )
}

/// The global order of legs in a channel: the stacking order, except that
/// legs with both ends on the right (bottom) side are reversed.
pub open spec fn leg_relative_order_spec(a: ChannelLeg, b: ChannelLeg) -> Ordering {
    if a.port_sides == b.port_sides && a.port_sides == PortSides::BothRightOrBottom {
        order_reverse(leg_order(a, b))
    } else {
        leg_order(a, b)
    }
}

/// The sort key that `leg_order` compares lexicographically.
pub open spec fn leg_key(a: ChannelLeg) -> (int, int, int, int) {
    let k2 = match a.port_sides {
        PortSides::BothLeftOrTop | PortSides::BothRightOrBottom => (a.circular_distance as int, 0int),
        PortSides::ChangeUp => (leg_min(a), leg_max(a)),
        PortSides::ChangeDown => (-leg_max(a), -leg_min(a)),
    };
    let k3 = match a.port_sides {
        PortSides::BothRightOrBottom => -(a.route_order as int),
        _ => a.route_order as int,
    };
    (a.port_sides.spec_stack_order() as int, k2.0, k2.1, k3)
}

pub open spec fn key_order(a: (int, int, int, int), b: (int, int, int, int)) -> Ordering {
    order_then(order_of(a.0, b.0), order_then(order_of(a.1, b.1), order_then(order_of(a.2, b.2), order_of(a.3, b.3))))
}

proof fn lemma_leg_order_by_key(a: ChannelLeg, b: ChannelLeg)
    ensures
        leg_order(a, b) == key_order(leg_key(a), leg_key(b)),
{
}

/// The stacking order of legs is antisymmetric: swapping the legs reverses
/// the comparison.
pub proof fn lemma_leg_order_antisymmetric(a: ChannelLeg, b: ChannelLeg)
    ensures
        leg_order(a, b) == order_reverse(leg_order(b, a)),
{
    lemma_leg_order_by_key(a, b);
    lemma_leg_order_by_key(b, a);
}

/// The stacking order of legs is transitive.
pub proof fn lemma_leg_order_transitive(a: ChannelLeg, b: ChannelLeg, c: ChannelLeg)
    ensures
        leg_order(a, b) != Ordering::Greater && leg_order(b, c) != Ordering::Greater
            ==> leg_order(a, c) != Ordering::Greater,
        leg_order(a, b) == Ordering::Less && leg_order(b, c) != Ordering::Greater
            ==> leg_order(a, c) == Ordering::Less,
{
    lemma_leg_order_by_key(a, b);
    lemma_leg_order_by_key(b, c);
    lemma_leg_order_by_key(a, c);
}

/// The relative order is antisymmetric as well.
pub proof fn lemma_leg_relative_order_antisymmetric(a: ChannelLeg, b: ChannelLeg)
    ensures
        leg_relative_order_spec(a, b) == order_reverse(leg_relative_order_spec(b, a)),
{
    lemma_leg_order_antisymmetric(a, b);
}

fn compare_u64(a: u64, b: u64) -> (res: Ordering)
    ensures
        res == (if a < b {
            Ordering::Less
        } else if a == b {
            Ordering::Equal
        } else {
            Ordering::Greater
        }),
{
    if a < b {
        Ordering::Less
    } else if a == b {
        Ordering::Equal
    } else {
        Ordering::Greater
    }
}

fn compare_usize(a: usize, b: usize) -> (res: Ordering)
    ensures
        res == (if a < b {
            Ordering::Less
        } else if a == b {
            Ordering::Equal
        } else {
            Ordering::Greater
        }),
{
    if a < b {
        Ordering::Less
    } else if a == b {
        Ordering::Equal
    } else {
        Ordering::Greater
    }
}

fn compare_i64(a: i64, b: i64) -> (res: Ordering)
    ensures
        res == (if a < b {
            Ordering::Less
        } else if a == b {
            Ordering::Equal
        } else {
            Ordering::Greater
        }),
{
    if a < b {
        Ordering::Less
    } else if a == b {
        Ordering::Equal
    } else {
        Ordering::Greater
    }
}

fn then_order(first: Ordering, second: Ordering) -> (res: Ordering)
    ensures
        res == order_then(first, second),
{
    match first {
        Ordering::Equal => second,
        _ => first,
    }
}

fn reverse_order(o: Ordering) -> (res: Ordering)
    ensures
        res == order_reverse(o),
{
    match o {
        Ordering::Less => Ordering::Greater,
        Ordering::Equal => Ordering::Equal,
        Ordering::Greater => Ordering::Less,
    }
}

impl ChannelLeg {
    fn span(&self) -> (res: (usize, usize))
        ensures
            res.0 == leg_min(*self),
            res.1 == leg_max(*self),
    {
        if self.start_connector < self.end_connector {
            (self.start_connector, self.end_connector)
        } else {
            (self.end_connector, self.start_connector)
        }
    }

    /// The stacking order of two legs in one channel.
    pub fn compare_legs(&self, other: &Self) -> (res: Ordering)
        ensures
            res == leg_order(*self, *other),
    {
        let by_kind = compare_u64(u64::from(self.port_sides.stack_order()), u64::from(other.port_sides.stack_order()));
        let by_position = match self.port_sides {
            PortSides::BothLeftOrTop | PortSides::BothRightOrBottom => compare_u64(
                u64::from(self.circular_distance),
                u64::from(other.circular_distance),
            ),
            PortSides::ChangeUp => {
                let (self_min, self_max) = self.span();
                let (other_min, other_max) = other.span();
                then_order(compare_usize(self_min, other_min), compare_usize(self_max, other_max))
            },
            PortSides::ChangeDown => {
                let (self_min, self_max) = self.span();
                let (other_min, other_max) = other.span();
                then_order(compare_usize(other_max, self_max), compare_usize(other_min, self_min))
            },
        };
        let by_route = match self.port_sides {
            PortSides::BothLeftOrTop | PortSides::ChangeUp | PortSides::ChangeDown => compare_i64(
                i64::from(self.route_order),
                i64::from(other.route_order),
            ),
            PortSides::BothRightOrBottom => compare_i64(i64::from(other.route_order), i64::from(self.route_order)),
        };
        then_order(by_kind, then_order(by_position, by_route))
    }

    /// Global order of two legs of one channel: the stacking order, except
    /// for legs with both ends on the right (bottom) side, whose local order
    /// takes slots from the other end of the channel.
    pub fn leg_relative_order(&self, other: &Self) -> (res: Ordering)
        ensures
            res == leg_relative_order_spec(*self, *other),
    {
        if self.port_sides == other.port_sides {
            match self.port_sides {
                PortSides::BothRightOrBottom => reverse_order(self.compare_legs(other)),
                _ => self.compare_legs(other),
            }
        } else {
            compare_u64(u64::from(self.port_sides.stack_order()), u64::from(other.port_sides.stack_order()))
        }
    }
}

impl PartialOrd for ChannelLeg {
    fn partial_cmp(&self, other: &Self) -> (res: Option<Ordering>) {
        Some(self.compare_legs(other))
    }
}

impl vstd::std_specs::cmp::PartialOrdSpecImpl for ChannelLeg {
    open spec fn obeys_partial_cmp_spec() -> bool {
        true
    }

    open spec fn partial_cmp_spec(&self, other: &ChannelLeg) -> Option<Ordering> {
        Some(leg_order(*self, *other))
    }
}

/// Whether a leg that reaches a bend in this direction follows the global
/// order when its previous leg did.
pub open spec fn bend_keeps_order(bend: BendDirection) -> bool {
    match bend {
        BendDirection::UpRight | BendDirection::DownLeft => false,
        BendDirection::UpLeft | BendDirection::DownRight => true,
    }
}

/// Tracks, along an edge route, whether the current leg follows the global
/// route order.
pub struct LegOrderState {
    pub current_is_global: bool,
}

impl LegOrderState {
    /// State at the start of a route; `start_before_end` tells whether the
    /// route runs in the global direction (left to right, then top to
    /// bottom).
    pub fn with_direction(start_before_end: bool) -> (res: Self)
        ensures
            res.current_is_global == start_before_end,
    {
        LegOrderState { current_is_global: start_before_end }
    }

    /// Returns whether the leg that ends at this bend follows the global
    /// order, and moves on to the leg after the bend.
    pub fn is_global_order(&mut self, bend: BendDirection) -> (res: bool)
        ensures
            res == old(self).current_is_global,
            final(self).current_is_global == (bend_keeps_order(bend) == old(self).current_is_global),
    {
        let mut is_global = match bend {
            BendDirection::UpRight | BendDirection::DownLeft => false,
            BendDirection::UpLeft | BendDirection::DownRight => true,
        };
        let last_current_global = self.current_is_global;
        if !self.current_is_global {
            is_global = !is_global;
        }
        self.current_is_global = is_global;
        last_current_global
    }

    pub fn is_current_global(&self) -> (res: bool)
        ensures
            res == self.current_is_global,
    {
        self.current_is_global
    }
}

/// Takes a slot from a range of free slots: from the top when
/// `right_direction`, else from the bottom.
pub fn consume_slot(range: &mut Range<u16>, right_direction: bool) -> (slot: u16)
    requires
        !right_direction ==> old(range).start < u16::MAX,
    ensures
        right_direction ==> slot == old(range).end && final(range).start == old(range).start
            && final(range).end == if old(range).end > 0 { (old(range).end - 1) as u16 } else { 0 },
        !right_direction ==> slot == old(range).start && final(range).end == old(range).end
            && final(range).start == old(range).start + 1,
{
    if right_direction {
        let slot = range.end;
        if range.end > 0 {
            range.end -= 1;
        }
        slot
    } else {
        let slot = range.start;
        range.start += 1;
        slot
    }
}

/// Position of the first connector that is a port of the given node.
pub fn connector_port_position(connectors: &[ChannelConnector], node_id: usize) -> (pos: usize)
    requires
        exists|i: int| 0 <= i < connectors@.len() && #[trigger] connectors@[i].connector_type == ChannelConnectorType::Port(node_id),
    ensures
        pos < connectors@.len(),
        connectors@[pos as int].connector_type == ChannelConnectorType::Port(node_id),
        forall|i: int| 0 <= i < pos ==> #[trigger] connectors@[i].connector_type != ChannelConnectorType::Port(node_id),
{
    let mut i: usize = 0;
    while i < connectors.len()
        invariant
            i <= connectors@.len(),
            forall|k: int| 0 <= k < i ==> #[trigger] connectors@[k].connector_type != ChannelConnectorType::Port(node_id),
            exists|k: int| 0 <= k < connectors@.len() && #[trigger] connectors@[k].connector_type == ChannelConnectorType::Port(node_id),
        decreases connectors@.len() - i,
    {
        if connectors[i].connector_type == ChannelConnectorType::Port(node_id) {
            return i;
        }
        i += 1;
    }
    i
}

/// Whether a connector is the crossing with the given channel on the given
/// channel side.
pub open spec fn is_bend_connector(c: ChannelConnector, crossing_channel_id: usize, connector_side: ChannelConnectorSide) -> bool {
    c.connector_side == connector_side && c.connector_type == ChannelConnectorType::Bend(crossing_channel_id)
}

/// Position of the first connector that is the crossing with the given
/// channel on the channel side facing the given node side.
pub fn connector_bend_position(connectors: &[ChannelConnector], crossing_channel_id: usize, side: Side) -> (pos: usize)
    requires
        exists|i: int| 0 <= i < connectors@.len()
            && #[trigger] is_bend_connector(connectors@[i], crossing_channel_id, ChannelConnectorSide::spec_from_side(side)),
    ensures
        pos < connectors@.len(),
        is_bend_connector(connectors@[pos as int], crossing_channel_id, ChannelConnectorSide::spec_from_side(side)),
        forall|i: int| 0 <= i < pos ==> !#[trigger] is_bend_connector(connectors@[i], crossing_channel_id, ChannelConnectorSide::spec_from_side(side)),
{
    let connector_side = ChannelConnectorSide::from_side(side);
    let mut i: usize = 0;
    while i < connectors.len()
        invariant
            i <= connectors@.len(),
            connector_side == ChannelConnectorSide::spec_from_side(side),
            forall|k: int| 0 <= k < i ==> !#[trigger] is_bend_connector(connectors@[k], crossing_channel_id, connector_side),
            exists|k: int| 0 <= k < connectors@.len() && #[trigger] is_bend_connector(connectors@[k], crossing_channel_id, connector_side),
        decreases connectors@.len() - i,
    {
        let c = &connectors[i];
        if c.connector_side == connector_side && c.connector_type == ChannelConnectorType::Bend(crossing_channel_id) {
            return i;
        }
        i += 1;
    }
    i
}

/// `a` may stand before `b` in the stacking order.
pub open spec fn leg_le(a: ChannelLeg, b: ChannelLeg) -> bool {
    leg_order(a, b) != Ordering::Greater
}

/// `a` must stand before `b` in the stacking order.
pub open spec fn leg_lt(a: ChannelLeg, b: ChannelLeg) -> bool {
    leg_order(a, b) == Ordering::Less
}

proof fn lemma_leg_le_facts(a: ChannelLeg, b: ChannelLeg, c: ChannelLeg)
    ensures
        leg_lt(a, b) <==> !leg_le(b, a),
        leg_le(a, b) || leg_le(b, a),
        leg_le(a, b) && leg_le(b, c) ==> leg_le(a, c),
        leg_lt(a, b) && leg_le(b, c) ==> leg_lt(a, c),
        leg_le(a, b) && leg_lt(b, c) ==> leg_lt(a, c),
{
    lemma_leg_order_antisymmetric(a, b);
    lemma_leg_order_transitive(a, b, c);
    lemma_leg_order_by_key(a, b);
    lemma_leg_order_by_key(b, c);
    lemma_leg_order_by_key(a, c);
}

/// Whether `a` must stand after `b`.
fn leg_after(a: &ChannelLeg, b: &ChannelLeg) -> (res: bool)
    ensures
        res == !leg_le(*a, *b),
{
    match a.compare_legs(b) {
        Ordering::Greater => true,
        _ => false,
    }
}

/// Legs in stacking order (equal legs in any order).
pub open spec fn legs_sorted(legs: Seq<ChannelLeg>) -> bool {
    forall|i: int, j: int| 0 <= i < j < legs.len() ==> leg_le(#[trigger] legs[i], #[trigger] legs[j])
}

/// Sorts the legs of a channel into stacking order.
pub fn sort_legs(legs: &mut Vec<ChannelLeg>)
    ensures
        final(legs)@.to_multiset() == old(legs)@.to_multiset(),
        final(legs)@.len() == old(legs)@.len(),
        legs_sorted(final(legs)@),
{
    let n = legs.len();
    if n == 0 {
        return;
    }
    let mut i: usize = 1;
    while i < n
        invariant
            1 <= i <= n,
            n == legs@.len(),
            legs@.to_multiset() == old(legs)@.to_multiset(),
            forall|a: int, b: int| 0 <= a < b < i ==> leg_le(#[trigger] legs@[a], #[trigger] legs@[b]),
        decreases n - i,
    {
        let mut j: usize = i;
        while j > 0 && leg_after(&legs[j - 1], &legs[j])
            invariant
                0 <= j <= i < n,
                n == legs@.len(),
                legs@.to_multiset() == old(legs)@.to_multiset(),
                forall|a: int, b: int| 0 <= a < b <= i && a != j && b != j ==> leg_le(#[trigger] legs@[a], #[trigger] legs@[b]),
                forall|b: int| j < b <= i ==> leg_lt(legs@[j as int], #[trigger] legs@[b]),
                0 < j < i ==> leg_le(legs@[j - 1], legs@[j + 1]),
            decreases j,
        {
            let ghost before = legs@;
            let a = legs[j - 1];
            let b = legs[j];
            legs.set(j - 1, b);
            legs.set(j, a);
            proof {
                assert(legs@ =~= before.update(j - 1, b).update(j as int, a));
                lemma_swap_multiset(before, j - 1, j as int);
                lemma_leg_le_facts(a, b, b);
                assert forall|x: int, y: int| 0 <= x < y <= i && x != j - 1 && y != j - 1 implies
                    leg_le(#[trigger] legs@[x], #[trigger] legs@[y]) by {
                    if x == j {
                        if y == j + 1 {
                            assert(leg_le(before[j - 1], before[j + 1]));
                        } else {
                            assert(leg_le(before[j - 1], before[y]));
                        }
                    } else if y == j {
                        assert(leg_le(before[x], before[j - 1]));
                    } else {
                        assert(legs@[x] == before[x] && legs@[y] == before[y]);
                    }
                }
                assert forall|y: int| j - 1 < y <= i implies leg_lt(legs@[j - 1], #[trigger] legs@[y]) by {
                    if y != j {
                        assert(leg_lt(b, before[y]));
                        lemma_leg_le_facts(b, a, before[y]);
                    }
                }
                if j - 1 > 0 {
                    lemma_leg_le_facts(before[j - 2], a, b);
                    assert(leg_le(before[j - 2], before[j - 1]));
                }
            }
            j -= 1;
        }
        proof {
            assert forall|x: int, y: int| 0 <= x < y < i + 1 implies leg_le(#[trigger] legs@[x], #[trigger] legs@[y]) by {
                if x == j {
                    lemma_leg_le_facts(legs@[x], legs@[y], legs@[y]);
                } else if y == j {
                    if j > 0 {
                        lemma_leg_le_facts(legs@[j - 1], legs@[j as int], legs@[j as int]);
                        if x < j - 1 {
                            lemma_leg_le_facts(legs@[x], legs@[j - 1], legs@[j as int]);
                        }
                    }
                }
            }
        }
        i += 1;
    }
    assert forall|a: int, b: int| 0 <= a < b < legs@.len() implies leg_le(#[trigger] legs@[a], #[trigger] legs@[b]) by {
    }
}

proof fn lemma_swap_multiset(s: Seq<ChannelLeg>, i: int, j: int)
    requires
        0 <= i < s.len(),
        0 <= j < s.len(),
    ensures
        s.update(i, s[j]).update(j, s[i]).to_multiset() == s.to_multiset(),
{
    let t = s.update(i, s[j]);
    vstd::seq_lib::to_multiset_update(s, i, s[j]);
    vstd::seq_lib::to_multiset_update(t, j, s[i]);
    if i != j {
        assert(t[j] == s[j]);
        assert(s.to_multiset().count(s[i]) > 0) by { s.to_multiset_ensures(); assert(s.contains(s[i])); }
        assert(s.to_multiset().insert(s[j]).remove(s[i]).insert(s[i]).remove(s[j]) =~= s.to_multiset());
    } else {
        assert(s.update(i, s[j]).update(j, s[i]) =~= s);
    }
}

/// The leg runs over the gap between connector `gap` and connector `gap + 1`.
pub open spec fn leg_covers(leg: ChannelLeg, gap: int) -> bool {
    leg_min(leg) <= gap < leg_max(leg)
}

/// Number of legs that run over a gap.
pub open spec fn gap_load(legs: Seq<ChannelLeg>, gap: int) -> nat
    decreases legs.len(),
{
    if legs.len() == 0 {
        0
    } else {
        gap_load(legs.drop_last(), gap) + if leg_covers(legs.last(), gap) { 1nat } else { 0nat }
    }
}

/// Largest number of legs over one of the first `k` gaps (0 when there is none).
pub open spec fn max_gap_load(legs: Seq<ChannelLeg>, k: int) -> nat
    decreases k,
{
    if k <= 0 {
        0
    } else {
        let rest = max_gap_load(legs, k - 1);
        if gap_load(legs, k - 1) > rest {
            gap_load(legs, k - 1)
        } else {
            rest
        }
    }
}

proof fn lemma_gap_load_le(legs: Seq<ChannelLeg>, gap: int)
    ensures
        gap_load(legs, gap) <= legs.len(),
    decreases legs.len(),
{
    if legs.len() > 0 {
        lemma_gap_load_le(legs.drop_last(), gap);
    }
}

proof fn lemma_max_gap_load_le(legs: Seq<ChannelLeg>, k: int)
    ensures
        max_gap_load(legs, k) <= legs.len(),
        forall|g: int| 0 <= g < k ==> gap_load(legs, g) <= #[trigger] max_gap_load(legs, k),
    decreases k,
{
    if k > 0 {
        lemma_max_gap_load_le(legs, k - 1);
        lemma_gap_load_le(legs, k - 1);
    }
}

/// The legs of a channel only name connectors of the channel.
pub open spec fn legs_within(legs: Seq<ChannelLeg>, connectors_len: int) -> bool {
    forall|i: int| 0 <= i < legs.len() ==> #[trigger] legs[i].start_connector < connectors_len
        && legs[i].end_connector < connectors_len
}

/// Number of slots a channel needs: the largest number of legs that run
/// over the same gap between two neighbouring connectors.
pub fn channel_max_slots(connectors_len: usize, legs: &Vec<ChannelLeg>) -> (res: u16)
    requires
        legs_within(legs@, connectors_len as int),
        legs@.len() <= u16::MAX,
    ensures
        res == max_gap_load(legs@, connectors_len as int),
{
    let mut loads: Vec<u16> = Vec::new();
    let mut g: usize = 0;
    while g < connectors_len
        invariant
            g <= connectors_len,
            loads@.len() == g,
            forall|k: int| 0 <= k < g ==> #[trigger] loads@[k] == 0,
        decreases connectors_len - g,
    {
        loads.push(0);
        g += 1;
    }
    let mut k: usize = 0;
    while k < legs.len()
        invariant
            k <= legs@.len(),
            legs@.len() <= u16::MAX,
            loads@.len() == connectors_len,
            legs_within(legs@, connectors_len as int),
            forall|gap: int| 0 <= gap < connectors_len ==> #[trigger] loads@[gap] == gap_load(legs@.subrange(0, k as int), gap),
        decreases legs@.len() - k,
    {
        let leg = &legs[k];
        let (from, to) = if leg.start_connector < leg.end_connector {
            (leg.start_connector, leg.end_connector)
        } else {
            (leg.end_connector, leg.start_connector)
        };
        assert(legs@.subrange(0, k + 1).drop_last() =~= legs@.subrange(0, k as int));
        assert(legs@.subrange(0, k + 1).last() == legs@[k as int]);
        let mut idx = from;
        while idx < to
            invariant
                from <= idx <= to,
                from == leg_min(legs@[k as int]),
                to == leg_max(legs@[k as int]),
                to < connectors_len,
                k < legs@.len(),
                legs@.len() <= u16::MAX,
                loads@.len() == connectors_len,
                forall|gap: int| 0 <= gap < connectors_len ==> #[trigger] loads@[gap] == gap_load(legs@.subrange(0, k as int), gap)
                    + if from <= gap < idx { 1nat } else { 0nat },
            decreases to - idx,
        {
            proof {
                lemma_gap_load_le(legs@.subrange(0, k as int), idx as int);
            }
            loads[idx] = loads[idx] + 1;
            idx += 1;
        }
        k += 1;
    }
    assert(legs@.subrange(0, legs@.len() as int) =~= legs@);
    let mut max_slots: u16 = 0;
    let mut g: usize = 0;
    while g < connectors_len
        invariant
            g <= connectors_len,
            loads@.len() == connectors_len,
            forall|gap: int| 0 <= gap < connectors_len ==> #[trigger] loads@[gap] == gap_load(legs@, gap),
            max_slots == max_gap_load(legs@, g as int),
        decreases connectors_len - g,
    {
        if loads[g] > max_slots {
            max_slots = loads[g];
        }
        g += 1;
    }
    max_slots
}

/// Whether two legs of a channel demand an order between their routes.
pub open spec fn legs_demand_order(a: ChannelLeg, b: ChannelLeg) -> bool {
    leg_relative_order_spec(a, b) != Ordering::Equal
}

/// The first leg comes before the second in the global order.
pub open spec fn leg_before(a: ChannelLeg, b: ChannelLeg) -> bool {
    leg_relative_order_spec(a, b) == Ordering::Less
}

/// The order that a pair of legs demands: `None` when they are equal in the
/// global order, else whether the first comes before the second.
fn leg_pair_demand(a: &ChannelLeg, b: &ChannelLeg) -> (res: Option<bool>)
    ensures
        res == if legs_demand_order(*a, *b) { Some(leg_before(*a, *b)) } else { None::<bool> },
{
    match a.leg_relative_order(b) {
        Ordering::Less => Some(true),
        Ordering::Greater => Some(false),
        Ordering::Equal => None,
    }
}

/// Whether the route of the first leg is demanded to be the greater one:
/// the earlier leg comes first, unless neither leg follows the global order.
pub open spec fn first_route_greater(a: ChannelLeg, b: ChannelLeg) -> bool {
    let first = leg_before(a, b);
    if !a.is_global_order && !b.is_global_order {
        !first
    } else {
        first
    }
}

/// The greater route of a demanded pair.
pub open spec fn demanded_greater(a: ChannelLeg, b: ChannelLeg) -> usize {
    if first_route_greater(a, b) {
        a.edge_idx
    } else {
        b.edge_idx
    }
}

/// The lesser route of a demanded pair.
pub open spec fn demanded_less(a: ChannelLeg, b: ChannelLeg) -> usize {
    if first_route_greater(a, b) {
        b.edge_idx
    } else {
        a.edge_idx
    }
}

/// Route orders demanded by the legs `i < j` of one channel.
pub open spec fn channel_demands(legs: Seq<ChannelLeg>, greater: usize, less: usize) -> bool {
    exists|i: int, j: int|
        0 <= i < j < legs.len() && #[trigger] legs_demand_order(legs[i], legs[j])
            && demanded_greater(legs[i], legs[j]) == greater && demanded_less(legs[i], legs[j]) == less
}

/// The legs name routes of the order graph.
pub open spec fn legs_routes_within(legs: Seq<ChannelLeg>, n: int) -> bool {
    forall|i: int| 0 <= i < legs.len() ==> #[trigger] legs[i].edge_idx < n
}

/// Records in the order graph the route orders that the legs of one channel
/// demand, pair by pair in stacking order. A demand that would close a cycle
/// is refused; it is then overruled by the opposite order already there.
pub fn add_channel_route_orders(route_sort: &mut TopologyRouting, legs: &Vec<ChannelLeg>)
    requires
        old(route_sort).wf(),
        legs_routes_within(legs@, old(route_sort).graph().len() as int),
        old(route_sort).detected_cycles + legs@.len() * legs@.len() < usize::MAX,
    ensures
        final(route_sort).wf(),
        subgraph(old(route_sort).graph(), final(route_sort).graph()),
        forall|u: usize, v: usize| #[trigger] edge(final(route_sort).graph(), u, v)
            ==> edge(old(route_sort).graph(), u, v) || channel_demands(legs@, u, v),
        forall|i: int, j: int| 0 <= i < j < legs@.len() && #[trigger] legs_demand_order(legs@[i], legs@[j]) ==> {
            let g = demanded_greater(legs@[i], legs@[j]);
            let l = demanded_less(legs@[i], legs@[j]);
            edge(final(route_sort).graph(), g, l) || reaches(final(route_sort).graph(), l, g)
        },
        final(route_sort).detected_cycles <= old(route_sort).detected_cycles + legs@.len() * legs@.len(),
        edges_total(final(route_sort).graph(), final(route_sort).graph().len() as int)
            <= edges_total(old(route_sort).graph(), old(route_sort).graph().len() as int) + legs@.len() * legs@.len(),
{
    let ghost g0 = route_sort.graph();
    let ghost n = g0.len();
    let ghost d0 = route_sort.detected_cycles;
    let ghost e0 = edges_total(g0, n as int);
    let len = legs.len();
    if len <= 1 {
        return;
    }
    let mut i: usize = 0;
    while i < len - 1
        invariant
            len == legs@.len(),
            len >= 2,
            i <= len - 1,
            route_sort.wf(),
            route_sort.graph().len() == n,
            legs_routes_within(legs@, n as int),
            d0 + len * len < usize::MAX,
            subgraph(g0, route_sort.graph()),
            forall|u: usize, v: usize| #[trigger] edge(route_sort.graph(), u, v) ==> edge(g0, u, v) || channel_demands(legs@, u, v),
            forall|a: int, b: int| 0 <= a < b < legs@.len() && a < i && #[trigger] legs_demand_order(legs@[a], legs@[b]) ==>
                edge(route_sort.graph(), demanded_greater(legs@[a], legs@[b]), demanded_less(legs@[a], legs@[b]))
                || reaches(route_sort.graph(), demanded_less(legs@[a], legs@[b]), demanded_greater(legs@[a], legs@[b])),
            route_sort.detected_cycles + edges_total(route_sort.graph(), n as int) <= d0 + e0 + i * len,
            route_sort.detected_cycles >= d0,
            edges_total(route_sort.graph(), n as int) >= e0,
        decreases len - 1 - i,
    {
        let mut j: usize = i + 1;
        while j < len
            invariant
                len == legs@.len(),
                len >= 2,
                i < len - 1,
                i + 1 <= j <= len,
                route_sort.wf(),
                route_sort.graph().len() == n,
                legs_routes_within(legs@, n as int),
                d0 + len * len < usize::MAX,
                subgraph(g0, route_sort.graph()),
                forall|u: usize, v: usize| #[trigger] edge(route_sort.graph(), u, v) ==> edge(g0, u, v) || channel_demands(legs@, u, v),
                forall|a: int, b: int| 0 <= a < b < legs@.len() && (a < i || (a == i && b < j)) && #[trigger] legs_demand_order(legs@[a], legs@[b]) ==>
                    edge(route_sort.graph(), demanded_greater(legs@[a], legs@[b]), demanded_less(legs@[a], legs@[b]))
                    || reaches(route_sort.graph(), demanded_less(legs@[a], legs@[b]), demanded_greater(legs@[a], legs@[b])),
                route_sort.detected_cycles + edges_total(route_sort.graph(), n as int) <= d0 + e0 + i * len + (j - i - 1),
                route_sort.detected_cycles >= d0,
                edges_total(route_sort.graph(), n as int) >= e0,
            decreases len - j,
        {
            proof {
                assert(i * len + (j - i - 1) < len * len) by (nonlinear_arith)
                    requires i < len - 1, j < len, i + 1 <= j;
            }
            let ri = &legs[i];
            let rj = &legs[j];
            let demanded = leg_pair_demand(ri, rj);
            if let Some(first) = demanded {
                let mut is_order_ij: bool = first;
                if !ri.is_global_order && !rj.is_global_order {
                    is_order_ij = !is_order_ij;
                }
                let (greater, less) = if is_order_ij { (ri.edge_idx, rj.edge_idx) } else { (rj.edge_idx, ri.edge_idx) };
                let ghost gb = route_sort.graph();
                assert(greater == demanded_greater(legs@[i as int], legs@[j as int]));
                assert(less == demanded_less(legs@[i as int], legs@[j as int]));
                assert(legs_demand_order(legs@[i as int], legs@[j as int]));
                assert(channel_demands(legs@, greater, less));
                let added = route_sort.add_route_ord(greater, less);
                proof {
                    let ga = route_sort.graph();
                    if added {
                        lemma_add_edge_supergraph(gb, greater, less);
                        assert forall|u: usize, v: usize| #[trigger] edge(g0, u, v) implies edge(ga, u, v) by {
                            assert(edge(gb, u, v));
                        }
                        assert forall|a: int, b: int| 0 <= a < b < legs@.len() && (a < i || (a == i && b < j + 1)) && #[trigger] legs_demand_order(legs@[a], legs@[b]) implies
                            edge(ga, demanded_greater(legs@[a], legs@[b]), demanded_less(legs@[a], legs@[b]))
                            || reaches(ga, demanded_less(legs@[a], legs@[b]), demanded_greater(legs@[a], legs@[b])) by {
                            if a == i && b == j {
                            } else if edge(gb, demanded_greater(legs@[a], legs@[b]), demanded_less(legs@[a], legs@[b])) {
                            } else {
                                lemma_reaches_subgraph(gb, ga, demanded_less(legs@[a], legs@[b]), demanded_greater(legs@[a], legs@[b]));
                            }
                        }
                    } else {
                        assert(reaches(gb, less, greater));
                    }
                }
            }
            j += 1;
        }
        proof {
            assert(i * len + (len - i - 1) <= (i + 1) * len) by (nonlinear_arith)
                requires i < len;
        }
        i += 1;
    }
    proof {
        assert((len - 1) * len <= len * len) by (nonlinear_arith);
    }
}

// ---------------------------------------------------------------------------
// Slots of all edge routes.

/// The slot tables of edge routes before any slot is given: zeros for each
/// element of each route.
pub open spec fn empty_tables(routes: Seq<AbstractEdgeRoute>, edges: Seq<RouteEdge>) -> SlotTables {
    Seq::new(
        edges.len(),
        |e: int|
            (
                Seq::new(edge_route(routes, edges[e]).route@.len(), |i: int| 0u16),
                Seq::new(edge_route(routes, edges[e]).route@.len(), |i: int| 0u16),
            ),
    )
}

/// The legs of the routes of all edges.
pub open spec fn all_legs(
    cc: ChannelConnectors,
    g: RoutingGraph,
    routes: Seq<AbstractEdgeRoute>,
    edges: Seq<RouteEdge>,
) -> Seq<(usize, ChannelLeg)> {
    legs_upto(cc, g, routes, edges, edges.len() as int)
}

/// The slots of the edge routes are those that the legs of each channel
/// take in stacking order, once the routes are numbered by `positions`
/// (the positions of a route order that honours the route orders the legs
/// of the channels demand) and the legs of each channel sorted under those
/// numbers into `ordered`.
pub open spec fn slots_from_orders(
    legs: Seq<(usize, ChannelLeg)>,
    positions: Seq<i32>,
    ordered: Seq<Seq<ChannelLeg>>,
    cc: ChannelConnectors,
    res: GraphEdgeRouting,
    routes: Seq<AbstractEdgeRoute>,
    edges: Seq<RouteEdge>,
) -> bool {
    let count = cc.channel_offsets@.len();
    &&& positions_of_order(positions, edges.len() as int)
    &&& honours_demands(positions, legs, count as int)
    &&& ordered.len() == count
    &&& forall|c: int|
        0 <= c < count ==> legs_sorted(#[trigger] ordered[c]) && ordered[c].to_multiset() == legs_in_channel(
            legs,
            c,
        ).map_values(|l: ChannelLeg| with_route_order(l, positions)).to_multiset()
    &&& routing_tables(res.edge_routes@) == apply_writes(
        empty_tables(routes, edges),
        assignment_writes(ordered, cc, res.channel_slots@, count as int),
    )
}

/// The slot tables of edge routes.
pub open spec fn routing_tables(routes: Seq<EdgeRoute>) -> SlotTables {
    Seq::new(routes.len(), |e: int| (routes[e].port_slots@, routes[e].channel_slots@))
}

fn copy_slots(v: &Vec<u16>) -> (res: Vec<u16>)
    ensures
        res@ == v@,
{
    let mut out: Vec<u16> = Vec::new();
    let mut i: usize = 0;
    while i < v.len()
        invariant
            i <= v@.len(),
            out@ == v@.subrange(0, i as int),
        decreases v@.len() - i,
    {
        out.push(v[i]);
        assert(out@ =~= v@.subrange(0, i + 1));
        i += 1;
    }
    assert(v@.subrange(0, v@.len() as int) =~= v@);
    out
}

/// Slots for all edge routes. Each route is cut into legs per channel; each
/// connector counts the legs that end there and each port the routes that
/// end there; each channel needs as many slots as legs run over its busiest
/// gap. The routes are then ordered so that they cross as little as
/// possible, the legs of each channel sorted into stacking order under that
/// route order, and every leg given its channel and port slots.
#[verifier::rlimit(80)]
pub fn calculate_edge_routes(
    routing_graph: &RoutingGraph,
    channel_connectors: &mut ChannelConnectors,
    edges: &Vec<RouteEdge>,
    routes: &Vec<AbstractEdgeRoute>,
) -> (res: GraphEdgeRouting)
    requires
        old(channel_connectors).wf(),
        circular_within(*old(channel_connectors)),
        routes_sorted(routes@),
        forall|e: int|
            0 <= e < edges@.len() ==> #[trigger] edge_routable(*old(channel_connectors), *routing_graph, routes@, edges@[e]),
        routing_graph.nodes_len * 4 <= usize::MAX,
        2 * edges@.len() <= u16::MAX,
        3 * legs_upto(*old(channel_connectors), *routing_graph, routes@, edges@, edges@.len() as int).len() < u16::MAX,
        forall|c: int, j: int|
            0 <= c < old(channel_connectors).channel_offsets@.len() && 0 <= j < old(channel_connectors).range_end(c)
                - old(channel_connectors).range_start(c) ==> #[trigger] slots_at(*old(channel_connectors), c, j) + 2
                * legs_upto(*old(channel_connectors), *routing_graph, routes@, edges@, edges@.len() as int).len()
                <= u16::MAX,
    ensures
        same_layout(*old(channel_connectors), *final(channel_connectors)),
        final(channel_connectors).wf(),
        forall|c: int, j: int|
            0 <= c < old(channel_connectors).channel_offsets@.len() && 0 <= j < old(channel_connectors).range_end(c)
                - old(channel_connectors).range_start(c) ==> #[trigger] slots_at(*final(channel_connectors), c, j)
                == slots_at(*old(channel_connectors), c, j) + connector_uses(
                all_legs(*old(channel_connectors), *routing_graph, routes@, edges@),
                c,
                j,
            ),
        res.port_slots@.len() == routing_graph.nodes_len * 4,
        forall|i: int|
            0 <= i < res.port_slots@.len() ==> #[trigger] res.port_slots@[i] == port_uses(
                *routing_graph,
                routes@,
                edges@,
                edges@.len() as int,
                i,
            ),
        res.channel_slots@.len() == old(channel_connectors).channel_offsets@.len(),
        forall|c: int|
            0 <= c < res.channel_slots@.len() ==> #[trigger] res.channel_slots@[c] == max_gap_load(
                legs_in_channel(all_legs(*old(channel_connectors), *routing_graph, routes@, edges@), c),
                old(channel_connectors).range_end(c) - old(channel_connectors).range_start(c),
            ),
        res.edge_routes@.len() == edges@.len(),
        forall|e: int|
            0 <= e < edges@.len() ==> (#[trigger] res.edge_routes@[e]).edge_idx == e && res.edge_routes@[e].abstract_route
                == route_for(routes@, edge_pair(edges@[e]).0, edge_pair(edges@[e]).1),
        exists|positions: Seq<i32>, ordered: Seq<Seq<ChannelLeg>>|
            slots_from_orders(
                all_legs(*old(channel_connectors), *routing_graph, routes@, edges@),
                positions,
                ordered,
                *final(channel_connectors),
                res,
                routes@,
                edges@,
            ),
{
    let ghost cc0 = *channel_connectors;
    let ghost legs = legs_upto(cc0, *routing_graph, routes@, edges@, edges@.len() as int);
    let n = edges.len();
    let (channels_legs, port_slots, edge_routes0) = compute_channel_legs(routing_graph, channel_connectors, edges, routes);
    proof {
        lemma_legs_upto_placed(cc0, *routing_graph, routes@, edges@, n as int);
        assert(channel_connectors.connectors@.len() == cc0.connectors@.len()) by {
            assert(crate::layoutalg::ortho::route_legs::layout_of(channel_connectors.connectors@).len()
                == channel_connectors.connectors@.len());
            assert(crate::layoutalg::ortho::route_legs::layout_of(cc0.connectors@).len() == cc0.connectors@.len());
        }
        assert(legs_on_channels(*channel_connectors, legs)) by {
            assert forall|i: int| 0 <= i < legs.len() implies leg_on_channel(
                *channel_connectors,
                (#[trigger] legs[i]).0 as int,
                legs[i].1,
            ) by {
                assert(leg_on_channel(cc0, legs[i].0 as int, legs[i].1));
            }
        }
    }
    let channel_slots = channel_slot_counts(channel_connectors, &channels_legs, Ghost(legs));
    let positions = route_order_positions(&channels_legs, n, Ghost(legs));
    let mut port_tables: Vec<Vec<u16>> = Vec::new();
    let mut channel_tables: Vec<Vec<u16>> = Vec::new();
    let mut e: usize = 0;
    while e < n
        invariant
            e <= n,
            n == edges@.len(),
            edge_routes0@.len() == n,
            forall|i: int| 0 <= i < n ==> #[trigger] empty_edge_route(routes@, edges@, i, edge_routes0@[i]),
            port_tables@.len() == e,
            channel_tables@.len() == e,
            forall|i: int|
                0 <= i < e ==> (#[trigger] port_tables@[i])@ == empty_tables(routes@, edges@)[i].0 && channel_tables@[i]@
                    == empty_tables(routes@, edges@)[i].1,
        decreases n - e,
    {
        assert(empty_edge_route(routes@, edges@, e as int, edge_routes0@[e as int]));
        assert(edge_routes0@[e as int].port_slots@ =~= empty_tables(routes@, edges@)[e as int].0);
        assert(edge_routes0@[e as int].channel_slots@ =~= empty_tables(routes@, edges@)[e as int].1);
        port_tables.push(copy_slots(&edge_routes0[e].port_slots));
        channel_tables.push(copy_slots(&edge_routes0[e].channel_slots));
        e += 1;
    }
    proof {
        assert(tables_of(port_tables@, channel_tables@) =~= empty_tables(routes@, edges@));
        assert forall|i: int| 0 <= i < legs.len() implies leg_fits_tables(
            (#[trigger] legs[i]).1,
            tables_of(port_tables@, channel_tables@),
        ) by {
            assert(leg_fits(legs[i].1, routes@, edges@));
        }
        assert forall|i: int| 0 <= i < legs.len() implies (#[trigger] legs[i]).1.edge_idx < positions@.len() by {
            assert(leg_fits(legs[i].1, routes@, edges@));
        }
    }
    let ghost tables0 = tables_of(port_tables@, channel_tables@);
    let ordered = assign_channels(
        channel_connectors,
        &channels_legs,
        &positions,
        &channel_slots,
        &mut port_tables,
        &mut channel_tables,
        Ghost(legs),
    );
    let mut edge_routes: Vec<EdgeRoute> = Vec::new();
    let mut e: usize = 0;
    while e < n
        invariant
            e <= n,
            n == edges@.len(),
            edge_routes0@.len() == n,
            port_tables@.len() == n,
            channel_tables@.len() == n,
            forall|i: int| 0 <= i < n ==> #[trigger] empty_edge_route(routes@, edges@, i, edge_routes0@[i]),
            edge_routes@.len() == e,
            forall|i: int|
                0 <= i < e ==> (#[trigger] edge_routes@[i]).edge_idx == i && edge_routes@[i].abstract_route
                    == edge_routes0@[i].abstract_route && edge_routes@[i].port_slots@ == port_tables@[i]@
                    && edge_routes@[i].channel_slots@ == channel_tables@[i]@,
        decreases n - e,
    {
        edge_routes.push(
            EdgeRoute {
                abstract_route: edge_routes0[e].abstract_route,
                edge_idx: e,
                port_slots: copy_slots(&port_tables[e]),
                channel_slots: copy_slots(&channel_tables[e]),
            },
        );
        e += 1;
    }
    proof {
        assert(routing_tables(edge_routes@) =~= tables_of(port_tables@, channel_tables@));
        assert forall|i: int| 0 <= i < edges@.len() implies (#[trigger] edge_routes@[i]).edge_idx == i
            && edge_routes@[i].abstract_route == route_for(routes@, edge_pair(edges@[i]).0, edge_pair(edges@[i]).1) by {
            assert(empty_edge_route(routes@, edges@, i, edge_routes0@[i]));
        }
    }
    let res = GraphEdgeRouting { edge_routes, port_slots, channel_slots };
    proof {
        assert(all_legs(cc0, *routing_graph, routes@, edges@) == legs);
        assert(slots_from_orders(
            all_legs(cc0, *routing_graph, routes@, edges@),
            positions@,
            ordered@,
            *channel_connectors,
            res,
            routes@,
            edges@,
        ));
    }
    res
}

} // verus!
