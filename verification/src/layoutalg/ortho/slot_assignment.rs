//! Slots for the legs of one channel: each leg, in stacking order, takes a
//! channel slot free over all the gaps it runs over, and port slots on the
//! connectors it joins.

use std::ops::Range;
use vstd::prelude::*;

use crate::layoutalg::ortho::route_legs::{
    channel_lens_sum, channel_seq, lemma_channel_lens_sum_le, lemma_channel_lens_sum_mono, lemma_legs_in_channel_from,
    leg_on_channel, legs_in_channel,
};
use crate::layoutalg::ortho::route_sorting::{
    acyclic, edge, edges_total, graph_wf, is_topological_order, lemma_distinct_bounded, lemma_reaches_subgraph, reaches,
    TopologyRouting,
};
use crate::layoutalg::ortho::routing_slots::{
    add_channel_route_orders, channel_demands, channel_max_slots, consume_slot, demanded_greater, demanded_less, leg_max,
    leg_min, legs_demand_order, legs_routes_within, legs_sorted,
    legs_within, max_gap_load, sort_legs, ChannelConnector, ChannelConnectorSide, ChannelConnectors, ChannelLeg,
    PortSides,
};

verus! {

/// A slot given to an element of an edge route: a channel slot, or a port
/// slot when `is_port`.
#[derive(Debug, Clone, Copy, PartialEq, Eq, Structural)]
pub struct SlotWrite {
    pub edge_idx: usize,
    pub route_idx: usize,
    pub slot: u16,
    pub is_port: bool,
}

/// `v - 1`, but not below zero.
pub open spec fn sat_dec(v: u16) -> u16 {
    if v > 0 {
        (v - 1) as u16
    } else {
        0
    }
}

/// A slot taken from a range of free slots: its top when `right`, else its
/// bottom; and the range left.
pub open spec fn consume_spec(r: Range<u16>, right: bool) -> (u16, Range<u16>) {
    if right {
        (r.end, Range { start: r.start, end: sat_dec(r.end) })
    } else {
        (r.start, Range { start: (r.start + 1) as u16, end: r.end })
    }
}

/// Largest free start over the gaps `from..to`.
pub open spec fn max_start(b: Seq<Range<u16>>, from: int, to: int) -> u16
    decreases to - from,
{
    if to <= from + 1 {
        b[from].start
    } else {
        let rest = max_start(b, from + 1, to);
        if b[from].start >= rest {
            b[from].start
        } else {
            rest
        }
    }
}

/// Smallest free end over the gaps `from..to`.
pub open spec fn min_end(b: Seq<Range<u16>>, from: int, to: int) -> u16
    decreases to - from,
{
    if to <= from + 1 {
        b[from].end
    } else {
        let rest = min_end(b, from + 1, to);
        if b[from].end <= rest {
            b[from].end
        } else {
            rest
        }
    }
}

pub open spec fn set_starts(b: Seq<Range<u16>>, from: int, to: int, v: u16) -> Seq<Range<u16>> {
    Seq::new(b.len(), |g: int| if from <= g < to { Range { start: v, end: b[g].end } } else { b[g] })
}

pub open spec fn set_ends(b: Seq<Range<u16>>, from: int, to: int, v: u16) -> Seq<Range<u16>> {
    Seq::new(b.len(), |g: int| if from <= g < to { Range { start: b[g].start, end: v } } else { b[g] })
}

/// Free channel slots over each gap, free port slots on each connector, and
/// the slots given so far.
pub type SlotState = (Seq<Range<u16>>, Seq<Range<u16>>, Seq<SlotWrite>);

pub open spec fn port_write(leg: ChannelLeg, route_idx: usize, slot: u16) -> SlotWrite {
    SlotWrite { edge_idx: leg.edge_idx, route_idx, slot, is_port: true }
}

/// A port slot taken for the start of the leg.
pub open spec fn take_start(st: SlotState, leg: ChannelLeg) -> SlotState {
    let s = leg.start_connector as int;
    let e = leg.end_connector as int;
    let (slot, rest) = consume_spec(st.1[s], e > s);
    (st.0, st.1.update(s, rest), st.2.push(port_write(leg, leg.route_start_idx, slot)))
}

/// A port slot taken for the end of the leg.
pub open spec fn take_end(st: SlotState, leg: ChannelLeg) -> SlotState {
    let s = leg.start_connector as int;
    let e = leg.end_connector as int;
    let (slot, rest) = consume_spec(st.1[e], e < s);
    (st.0, st.1.update(e, rest), st.2.push(port_write(leg, leg.route_end_idx, slot)))
}

/// A leg in stacking order: it takes the channel slot packed from its side
/// over all its gaps, then port slots: both ports for legs with both ends
/// on one side, else the port on the side it is packed from.
pub open spec fn forward_step(st: SlotState, leg: ChannelLeg) -> SlotState {
    let from = leg_min(leg);
    let to = leg_max(leg);
    let left = leg.port_sides.spec_pack_order() == ChannelConnectorSide::LeftOrTop;
    let free = if left {
        max_start(st.0, from, to)
    } else {
        min_end(st.0, from, to)
    };
    let between = if left {
        set_starts(st.0, from, to, (free + 1) as u16)
    } else {
        set_ends(st.0, from, to, sat_dec(free))
    };
    let st1: SlotState = (
        between,
        st.1,
        st.2.push(SlotWrite { edge_idx: leg.edge_idx, route_idx: leg.route_channel_idx, slot: free, is_port: false }),
    );
    let s = leg.start_connector;
    let e = leg.end_connector;
    match leg.port_sides {
        PortSides::BothLeftOrTop | PortSides::BothRightOrBottom => take_end(take_start(st1, leg), leg),
        PortSides::ChangeDown => if s > e {
            take_end(st1, leg)
        } else {
            take_start(st1, leg)
        },
        PortSides::ChangeUp => if s < e {
            take_end(st1, leg)
        } else {
            take_start(st1, leg)
        },
    }
}

/// A leg in reverse stacking order: legs that change sides take their
/// second port slot.
pub open spec fn backward_step(st: SlotState, leg: ChannelLeg) -> SlotState {
    let s = leg.start_connector;
    let e = leg.end_connector;
    match leg.port_sides {
        PortSides::ChangeDown => if s < e {
            take_end(st, leg)
        } else {
            take_start(st, leg)
        },
        PortSides::ChangeUp => if s > e {
            take_end(st, leg)
        } else {
            take_start(st, leg)
        },
        _ => st,
    }
}

/// The free ranges at the start: all slots of the channel over each gap,
/// and all slots of each connector.
pub open spec fn initial_state(connector_slots: Seq<u16>, max_slots: u16) -> SlotState {
    (
        Seq::new(connector_slots.len(), |g: int| Range { start: 0u16, end: sat_dec(max_slots) }),
        Seq::new(connector_slots.len(), |i: int| Range { start: 0u16, end: sat_dec(connector_slots[i]) }),
        Seq::empty(),
    )
}

/// The state after the first `k` legs in stacking order.
pub open spec fn forward_state(legs: Seq<ChannelLeg>, init: SlotState, k: int) -> SlotState
    decreases k,
{
    if k <= 0 {
        init
    } else {
        forward_step(forward_state(legs, init, k - 1), legs[k - 1])
    }
}

/// The state after the last `k` legs taken in reverse order.
pub open spec fn backward_state(legs: Seq<ChannelLeg>, init: SlotState, k: int) -> SlotState
    decreases k,
{
    if k <= 0 {
        init
    } else {
        backward_step(backward_state(legs, init, k - 1), legs[legs.len() - k])
    }
}

/// The slots given to the legs of a channel, in the order they are given.
pub open spec fn channel_assignment(legs: Seq<ChannelLeg>, connector_slots: Seq<u16>, max_slots: u16) -> Seq<SlotWrite> {
    let fwd = forward_state(legs, initial_state(connector_slots, max_slots), legs.len() as int);
    backward_state(legs, fwd, legs.len() as int).2
}

/// The legs can take their slots: both ends name distinct connectors of the
/// channel.
pub open spec fn legs_assignable(legs: Seq<ChannelLeg>, connectors_len: int) -> bool {
    forall|i: int|
        0 <= i < legs.len() ==> #[trigger] legs[i].start_connector < connectors_len && legs[i].end_connector
            < connectors_len && legs[i].start_connector != legs[i].end_connector
}

fn max_start_exec(b: &Vec<Range<u16>>, from: usize, to: usize) -> (res: u16)
    requires
        from < to <= b@.len(),
    ensures
        res == max_start(b@, from as int, to as int),
        exists|g: int| from <= g < to && res == #[trigger] b@[g].start,
        forall|g: int| from <= g < to ==> #[trigger] b@[g].start <= res,
    decreases to - from,
{
    if to == from + 1 {
        b[from].start
    } else {
        let rest = max_start_exec(b, from + 1, to);
        if b[from].start >= rest {
            b[from].start
        } else {
            rest
        }
    }
}

fn min_end_exec(b: &Vec<Range<u16>>, from: usize, to: usize) -> (res: u16)
    requires
        from < to <= b@.len(),
    ensures
        res == min_end(b@, from as int, to as int),
    decreases to - from,
{
    if to == from + 1 {
        b[from].end
    } else {
        let rest = min_end_exec(b, from + 1, to);
        if b[from].end <= rest {
            b[from].end
        } else {
            rest
        }
    }
}

/// Takes a port slot on connector `idx`.
fn take_port(conn: &mut Vec<Range<u16>>, writes: &mut Vec<SlotWrite>, idx: usize, right: bool, edge_idx: usize, route_idx: usize)
    requires
        idx < old(conn)@.len(),
        !right ==> old(conn)@[idx as int].start < u16::MAX,
    ensures
        ({
            let (slot, rest) = consume_spec(old(conn)@[idx as int], right);
            &&& final(conn)@ == old(conn)@.update(idx as int, rest)
            &&& final(writes)@ == old(writes)@.push(
                SlotWrite { edge_idx, route_idx, slot, is_port: true },
            )
        }),
{
    let mut r = Range { start: conn[idx].start, end: conn[idx].end };
    let slot = consume_slot(&mut r, right);
    conn.set(idx, r);
    writes.push(SlotWrite { edge_idx, route_idx, slot, is_port: true });
}

/// Sets the free start (or end) of the gaps `from..to`.
fn set_range_bounds(b: &mut Vec<Range<u16>>, from: usize, to: usize, v: u16, starts: bool)
    requires
        from <= to <= old(b)@.len(),
    ensures
        starts ==> final(b)@ == set_starts(old(b)@, from as int, to as int, v),
        !starts ==> final(b)@ == set_ends(old(b)@, from as int, to as int, v),
{
    let mut g = from;
    while g < to
        invariant
            from <= g <= to,
            to <= old(b)@.len(),
            b@.len() == old(b)@.len(),
            forall|i: int| 0 <= i < b@.len() ==> #[trigger] b@[i] == if from <= i < g {
                if starts {
                    Range { start: v, end: old(b)@[i].end }
                } else {
                    Range { start: old(b)@[i].start, end: v }
                }
            } else {
                old(b)@[i]
            },
        decreases to - g,
    {
        let r = if starts {
            Range { start: v, end: b[g].end }
        } else {
            Range { start: b[g].start, end: v }
        };
        b.set(g, r);
        g += 1;
    }
    if starts {
        assert(b@ =~= set_starts(old(b)@, from as int, to as int, v));
    } else {
        assert(b@ =~= set_ends(old(b)@, from as int, to as int, v));
    }
}

/// Assigns the slots of the legs of one channel, in stacking order.
#[verifier::rlimit(80)]
pub fn assign_channel_slots(legs: &Vec<ChannelLeg>, connector_slots: &Vec<u16>, max_slots: u16) -> (res: Vec<SlotWrite>)
    requires
        legs_assignable(legs@, connector_slots@.len() as int),
        3 * legs@.len() < u16::MAX,
    ensures
        res@ == channel_assignment(legs@, connector_slots@, max_slots),
{
    let n = connector_slots.len();
    let ghost init = initial_state(connector_slots@, max_slots);
    let mut between: Vec<Range<u16>> = Vec::new();
    let mut conn: Vec<Range<u16>> = Vec::new();
    let top = if max_slots > 0 {
        max_slots - 1
    } else {
        0
    };
    let mut i: usize = 0;
    while i < n
        invariant
            i <= n,
            n == connector_slots@.len(),
            top == sat_dec(max_slots),
            between@.len() == i,
            conn@.len() == i,
            forall|g: int| 0 <= g < i ==> #[trigger] between@[g] == (Range { start: 0u16, end: top }),
            forall|g: int| 0 <= g < i ==> #[trigger] conn@[g] == (Range { start: 0u16, end: sat_dec(connector_slots@[g]) }),
        decreases n - i,
    {
        between.push(Range { start: 0, end: top });
        let s = connector_slots[i];
        conn.push(Range {
            start: 0,
            end: if s > 0 {
                s - 1
            } else {
                0
            },
        });
        i += 1;
    }
    let mut writes: Vec<SlotWrite> = Vec::new();
    assert(between@ =~= init.0);
    assert(conn@ =~= init.1);
    assert(writes@ =~= init.2);
    let len = legs.len();
    let mut k: usize = 0;
    while k < len
        invariant
            k <= len,
            len == legs@.len(),
            3 * len < u16::MAX,
            n == connector_slots@.len(),
            init == initial_state(connector_slots@, max_slots),
            legs_assignable(legs@, n as int),
            (between@, conn@, writes@) == forward_state(legs@, init, k as int),
            between@.len() == n,
            conn@.len() == n,
            forall|g: int| 0 <= g < between@.len() ==> #[trigger] between@[g].start <= k,
            forall|i: int| 0 <= i < conn@.len() ==> #[trigger] conn@[i].start <= 2 * k,
        decreases len - k,
    {
        let leg = legs[k];
        let ghost st0: SlotState = (between@, conn@, writes@);
        assert(legs_assignable(legs@, n as int) ==> legs@[k as int].start_connector < n);
        let s = leg.start_connector;
        let e = leg.end_connector;
        let (from, to) = if s < e {
            (s, e)
        } else {
            (e, s)
        };
        let left = match leg.port_sides.pack_order() {
            ChannelConnectorSide::LeftOrTop => true,
            ChannelConnectorSide::RightOrButton => false,
        };
        let free = if left {
            max_start_exec(&between, from, to)
        } else {
            min_end_exec(&between, from, to)
        };
        proof {
            if left {
                let g = choose|g: int| from <= g < to && free == #[trigger] between@[g].start;
                assert(between@[g].start <= k);
            }
        }
        if left {
            set_range_bounds(&mut between, from, to, free + 1, true);
        } else {
            let v = if free > 0 {
                free - 1
            } else {
                0
            };
            set_range_bounds(&mut between, from, to, v, false);
        }
        writes.push(SlotWrite { edge_idx: leg.edge_idx, route_idx: leg.route_channel_idx, slot: free, is_port: false });
        let ghost st1: SlotState = (between@, conn@, writes@);
        match leg.port_sides {
            PortSides::BothLeftOrTop | PortSides::BothRightOrBottom => {
                take_port(&mut conn, &mut writes, s, e > s, leg.edge_idx, leg.route_start_idx);
                take_port(&mut conn, &mut writes, e, e < s, leg.edge_idx, leg.route_end_idx);
            },
            PortSides::ChangeDown => {
                if s > e {
                    take_port(&mut conn, &mut writes, e, e < s, leg.edge_idx, leg.route_end_idx);
                } else {
                    take_port(&mut conn, &mut writes, s, e > s, leg.edge_idx, leg.route_start_idx);
                }
            },
            PortSides::ChangeUp => {
                if s < e {
                    take_port(&mut conn, &mut writes, e, e < s, leg.edge_idx, leg.route_end_idx);
                } else {
                    take_port(&mut conn, &mut writes, s, e > s, leg.edge_idx, leg.route_start_idx);
                }
            },
        }
        assert((between@, conn@, writes@) == forward_step(st0, leg));
        k += 1;
    }
    let ghost fwd: SlotState = (between@, conn@, writes@);
    assert forall|i: int| 0 <= i < conn@.len() implies #[trigger] conn@[i].start <= 2 * len + 0 by {
        assert(conn@[i].start <= 2 * k);
    }
    let mut k2: usize = 0;
    while k2 < len
        invariant
            k2 <= len,
            len == legs@.len(),
            3 * len < u16::MAX,
            n == connector_slots@.len(),
            legs_assignable(legs@, n as int),
            fwd == forward_state(legs@, init, len as int),
            (between@, conn@, writes@) == backward_state(legs@, fwd, k2 as int),
            between@.len() == n,
            conn@.len() == n,
            forall|i: int| 0 <= i < conn@.len() ==> #[trigger] conn@[i].start <= 2 * len + k2,
        decreases len - k2,
    {
        let leg = legs[len - 1 - k2];
        assert(legs_assignable(legs@, n as int) ==> legs@[len - 1 - k2].start_connector < n);
        let ghost st0: SlotState = (between@, conn@, writes@);
        let s = leg.start_connector;
        let e = leg.end_connector;
        match leg.port_sides {
            PortSides::ChangeDown => {
                if s < e {
                    take_port(&mut conn, &mut writes, e, e < s, leg.edge_idx, leg.route_end_idx);
                } else {
                    take_port(&mut conn, &mut writes, s, e > s, leg.edge_idx, leg.route_start_idx);
                }
            },
            PortSides::ChangeUp => {
                if s > e {
                    take_port(&mut conn, &mut writes, e, e < s, leg.edge_idx, leg.route_end_idx);
                } else {
                    take_port(&mut conn, &mut writes, s, e > s, leg.edge_idx, leg.route_start_idx);
                }
            },
            _ => {},
        }
        assert((between@, conn@, writes@) == backward_step(st0, leg));
        k2 += 1;
    }
    writes
}

// ---------------------------------------------------------------------------
// Writes come from the legs.

/// The write gives a slot to an element of the route of one of the legs.
pub open spec fn write_from_legs(w: SlotWrite, legs: Seq<ChannelLeg>) -> bool {
    exists|i: int|
        0 <= i < legs.len() && w.edge_idx == (#[trigger] legs[i]).edge_idx && (w.route_idx == legs[i].route_channel_idx
            || w.route_idx == legs[i].route_start_idx || w.route_idx == legs[i].route_end_idx)
}

pub open spec fn writes_from_legs(ws: Seq<SlotWrite>, legs: Seq<ChannelLeg>) -> bool {
    forall|j: int| 0 <= j < ws.len() ==> write_from_legs(#[trigger] ws[j], legs)
}

proof fn lemma_step_writes(st: SlotState, leg: ChannelLeg, legs: Seq<ChannelLeg>, i: int)
    requires
        writes_from_legs(st.2, legs),
        0 <= i < legs.len(),
        legs[i] == leg,
    ensures
        writes_from_legs(forward_step(st, leg).2, legs),
        writes_from_legs(backward_step(st, leg).2, legs),
{
    let fwd = forward_step(st, leg).2;
    assert forall|j: int| 0 <= j < fwd.len() implies write_from_legs(#[trigger] fwd[j], legs) by {
        if j >= st.2.len() {
            assert(fwd[j].edge_idx == legs[i].edge_idx);
        } else {
            assert(fwd[j] == st.2[j]);
        }
    }
    let bwd = backward_step(st, leg).2;
    assert forall|j: int| 0 <= j < bwd.len() implies write_from_legs(#[trigger] bwd[j], legs) by {
        if j >= st.2.len() {
            assert(bwd[j].edge_idx == legs[i].edge_idx);
        } else {
            assert(bwd[j] == st.2[j]);
        }
    }
}

proof fn lemma_forward_writes(legs: Seq<ChannelLeg>, init: SlotState, k: int)
    requires
        writes_from_legs(init.2, legs),
        0 <= k <= legs.len(),
    ensures
        writes_from_legs(forward_state(legs, init, k).2, legs),
    decreases k,
{
    if k > 0 {
        lemma_forward_writes(legs, init, k - 1);
        lemma_step_writes(forward_state(legs, init, k - 1), legs[k - 1], legs, k - 1);
    }
}

proof fn lemma_backward_writes(legs: Seq<ChannelLeg>, init: SlotState, k: int)
    requires
        writes_from_legs(init.2, legs),
        0 <= k <= legs.len(),
    ensures
        writes_from_legs(backward_state(legs, init, k).2, legs),
    decreases k,
{
    if k > 0 {
        lemma_backward_writes(legs, init, k - 1);
        lemma_step_writes(backward_state(legs, init, k - 1), legs[legs.len() - k], legs, legs.len() - k);
    }
}

/// Every slot given to the legs of a channel goes to an element of the
/// route of one of them.
pub proof fn lemma_assignment_from_legs(legs: Seq<ChannelLeg>, connector_slots: Seq<u16>, max_slots: u16)
    ensures
        writes_from_legs(channel_assignment(legs, connector_slots, max_slots), legs),
{
    let init = initial_state(connector_slots, max_slots);
    lemma_forward_writes(legs, init, legs.len() as int);
    lemma_backward_writes(legs, forward_state(legs, init, legs.len() as int), legs.len() as int);
}

// ---------------------------------------------------------------------------
// Route orders.

/// The leg with the route order of its edge: the edge's position in the
/// route order, negated for legs that run against the global order.
pub open spec fn with_route_order(leg: ChannelLeg, positions: Seq<i32>) -> ChannelLeg {
    ChannelLeg {
        start_connector: leg.start_connector,
        end_connector: leg.end_connector,
        edge_idx: leg.edge_idx,
        route_start_idx: leg.route_start_idx,
        route_channel_idx: leg.route_channel_idx,
        route_end_idx: leg.route_end_idx,
        circular_distance: leg.circular_distance,
        port_sides: leg.port_sides,
        route_order: if leg.is_global_order {
            positions[leg.edge_idx as int]
        } else {
            (-positions[leg.edge_idx as int]) as i32
        },
        is_global_order: leg.is_global_order,
    }
}

/// Position of each route in a route order.
pub fn route_positions(order: &Vec<usize>, n: usize) -> (res: Vec<i32>)
    requires
        order@.len() == n,
        forall|k: int| 0 <= k < n ==> #[trigger] order@[k] < n,
        order@.no_duplicates(),
        n <= i32::MAX,
    ensures
        res@.len() == n,
        forall|k: int| 0 <= k < n ==> res@[#[trigger] order@[k] as int] == k,
        forall|i: int| 0 <= i < n ==> 0 <= #[trigger] res@[i] < n,
{
    let mut res: Vec<i32> = Vec::new();
    let mut i: usize = 0;
    while i < n
        invariant
            i <= n,
            res@.len() == i,
            forall|j: int| 0 <= j < i ==> #[trigger] res@[j] == 0,
        decreases n - i,
    {
        res.push(0);
        i += 1;
    }
    let mut k: usize = 0;
    while k < n
        invariant
            k <= n,
            n <= i32::MAX,
            order@.len() == n,
            forall|j: int| 0 <= j < n ==> #[trigger] order@[j] < n,
            order@.no_duplicates(),
            res@.len() == n,
            forall|j: int| 0 <= j < k ==> res@[#[trigger] order@[j] as int] == j,
            forall|j: int| 0 <= j < n ==> 0 <= #[trigger] res@[j] < n,
        decreases n - k,
    {
        let idx = order[k];
        res.set(idx, k as i32);
        proof {
            assert forall|j: int| 0 <= j < k + 1 implies res@[#[trigger] order@[j] as int] == j by {
                if j < k {
                    assert(order@[j] != order@[k as int]);
                }
            }
        }
        k += 1;
    }
    res
}

/// The legs of a channel with the route orders of their edges, sorted into
/// stacking order.
pub fn order_channel_legs(legs: &Vec<ChannelLeg>, positions: &Vec<i32>) -> (res: Vec<ChannelLeg>)
    requires
        forall|i: int| 0 <= i < legs@.len() ==> (#[trigger] legs@[i]).edge_idx < positions@.len(),
        forall|i: int| 0 <= i < positions@.len() ==> 0 <= #[trigger] positions@[i] <= i32::MAX,
    ensures
        res@.to_multiset() == legs@.map_values(|l: ChannelLeg| with_route_order(l, positions@)).to_multiset(),
        res@.len() == legs@.len(),
        legs_sorted(res@),
{
    let mut out: Vec<ChannelLeg> = Vec::new();
    let mut i: usize = 0;
    while i < legs.len()
        invariant
            i <= legs@.len(),
            forall|j: int| 0 <= j < legs@.len() ==> (#[trigger] legs@[j]).edge_idx < positions@.len(),
            forall|j: int| 0 <= j < positions@.len() ==> 0 <= #[trigger] positions@[j] <= i32::MAX,
            out@ == legs@.subrange(0, i as int).map_values(|l: ChannelLeg| with_route_order(l, positions@)),
        decreases legs@.len() - i,
    {
        let leg = legs[i];
        let p = positions[leg.edge_idx];
        let order = if leg.is_global_order {
            p
        } else {
            -p
        };
        out.push(ChannelLeg {
            start_connector: leg.start_connector,
            end_connector: leg.end_connector,
            edge_idx: leg.edge_idx,
            route_start_idx: leg.route_start_idx,
            route_channel_idx: leg.route_channel_idx,
            route_end_idx: leg.route_end_idx,
            circular_distance: leg.circular_distance,
            port_sides: leg.port_sides,
            route_order: order,
            is_global_order: leg.is_global_order,
        });
        assert(out@ =~= legs@.subrange(0, i + 1).map_values(|l: ChannelLeg| with_route_order(l, positions@)));
        i += 1;
    }
    assert(legs@.subrange(0, legs@.len() as int) =~= legs@);
    sort_legs(&mut out);
    out
}

// ---------------------------------------------------------------------------
// Slot tables of the edge routes.

/// For each edge, its port slots and channel slots.
pub type SlotTables = Seq<(Seq<u16>, Seq<u16>)>;

pub open spec fn apply_write(tables: SlotTables, w: SlotWrite) -> SlotTables {
    let e = w.edge_idx as int;
    if w.is_port {
        tables.update(e, (tables[e].0.update(w.route_idx as int, w.slot), tables[e].1))
    } else {
        tables.update(e, (tables[e].0, tables[e].1.update(w.route_idx as int, w.slot)))
    }
}

/// The slot tables after the writes, in order (a later write wins).
pub open spec fn apply_writes(tables: SlotTables, ws: Seq<SlotWrite>) -> SlotTables
    decreases ws.len(),
{
    if ws.len() == 0 {
        tables
    } else {
        apply_write(apply_writes(tables, ws.drop_last()), ws.last())
    }
}

pub open spec fn tables_of(port_tables: Seq<Vec<u16>>, channel_tables: Seq<Vec<u16>>) -> SlotTables {
    Seq::new(port_tables.len(), |e: int| (port_tables[e]@, channel_tables[e]@))
}

/// Every write names an edge and an element of its route.
pub open spec fn writes_fit(ws: Seq<SlotWrite>, tables: SlotTables) -> bool {
    forall|j: int|
        0 <= j < ws.len() ==> (#[trigger] ws[j]).edge_idx < tables.len() && ws[j].route_idx < tables[ws[j].edge_idx as int].0.len()
            && ws[j].route_idx < tables[ws[j].edge_idx as int].1.len()
}

proof fn lemma_apply_writes_shape(tables: SlotTables, ws: Seq<SlotWrite>)
    requires
        writes_fit(ws, tables),
    ensures
        apply_writes(tables, ws).len() == tables.len(),
        forall|e: int|
            0 <= e < tables.len() ==> (#[trigger] apply_writes(tables, ws)[e]).0.len() == tables[e].0.len()
                && apply_writes(tables, ws)[e].1.len() == tables[e].1.len(),
    decreases ws.len(),
{
    if ws.len() > 0 {
        assert forall|j: int| 0 <= j < ws.drop_last().len() implies (#[trigger] ws.drop_last()[j]).edge_idx < tables.len()
            && ws.drop_last()[j].route_idx < tables[ws.drop_last()[j].edge_idx as int].0.len()
            && ws.drop_last()[j].route_idx < tables[ws.drop_last()[j].edge_idx as int].1.len() by {
            assert(ws.drop_last()[j] == ws[j]);
        }
        lemma_apply_writes_shape(tables, ws.drop_last());
        assert(ws[ws.len() - 1] == ws.last());
    }
}

/// Gives the slots of the writes to the edge routes.
pub fn apply_slot_writes(port_tables: &mut Vec<Vec<u16>>, channel_tables: &mut Vec<Vec<u16>>, writes: &Vec<SlotWrite>)
    requires
        old(port_tables)@.len() == old(channel_tables)@.len(),
        writes_fit(writes@, tables_of(old(port_tables)@, old(channel_tables)@)),
    ensures
        final(port_tables)@.len() == old(port_tables)@.len(),
        final(channel_tables)@.len() == old(channel_tables)@.len(),
        tables_of(final(port_tables)@, final(channel_tables)@) == apply_writes(
            tables_of(old(port_tables)@, old(channel_tables)@),
            writes@,
        ),
{
    let ghost t0 = tables_of(port_tables@, channel_tables@);
    let mut k: usize = 0;
    assert(writes@.subrange(0, 0) =~= Seq::<SlotWrite>::empty());
    assert(tables_of(port_tables@, channel_tables@) =~= t0);
    while k < writes.len()
        invariant
            k <= writes@.len(),
            port_tables@.len() == channel_tables@.len(),
            port_tables@.len() == t0.len(),
            writes_fit(writes@, t0),
            tables_of(port_tables@, channel_tables@) == apply_writes(t0, writes@.subrange(0, k as int)),
        decreases writes@.len() - k,
    {
        let w = writes[k];
        proof {
            assert forall|j: int| 0 <= j < k implies (#[trigger] writes@.subrange(0, k as int)[j]).edge_idx < t0.len()
                && writes@.subrange(0, k as int)[j].route_idx < t0[writes@.subrange(0, k as int)[j].edge_idx as int].0.len()
                && writes@.subrange(0, k as int)[j].route_idx < t0[writes@.subrange(0, k as int)[j].edge_idx as int].1.len() by {
                assert(writes@.subrange(0, k as int)[j] == writes@[j]);
            }
            lemma_apply_writes_shape(t0, writes@.subrange(0, k as int));
            assert(writes@[k as int] == w);
        }
        let ghost before = tables_of(port_tables@, channel_tables@);
        assert(before[w.edge_idx as int].0 == port_tables@[w.edge_idx as int]@);
        if w.is_port {
            port_tables[w.edge_idx].set(w.route_idx, w.slot);
        } else {
            channel_tables[w.edge_idx].set(w.route_idx, w.slot);
        }
        proof {
            assert(writes@.subrange(0, k + 1).drop_last() =~= writes@.subrange(0, k as int));
            assert(tables_of(port_tables@, channel_tables@) =~= apply_write(before, w));
        }
        k += 1;
    }
    assert(writes@.subrange(0, writes@.len() as int) =~= writes@);
}

// ---------------------------------------------------------------------------
// The phases of slot assignment over all channels.

/// Every entry lies on its channel.
pub open spec fn legs_on_channels(cc: ChannelConnectors, legs: Seq<(usize, ChannelLeg)>) -> bool {
    forall|i: int| 0 <= i < legs.len() ==> leg_on_channel(cc, (#[trigger] legs[i]).0 as int, legs[i].1)
}

proof fn lemma_legs_in_channel_len(legs: Seq<(usize, ChannelLeg)>, c: int)
    ensures
        legs_in_channel(legs, c).len() <= legs.len(),
    decreases legs.len(),
{
    if legs.len() > 0 {
        lemma_legs_in_channel_len(legs.drop_last(), c);
    }
}

/// The legs of channel `c` lie on it.
proof fn lemma_channel_legs_on(cc: ChannelConnectors, legs: Seq<(usize, ChannelLeg)>, c: int)
    requires
        legs_on_channels(cc, legs),
    ensures
        forall|i: int|
            0 <= i < legs_in_channel(legs, c).len() ==> leg_on_channel(cc, c, #[trigger] legs_in_channel(legs, c)[i]),
{
    assert forall|i: int| 0 <= i < legs_in_channel(legs, c).len() implies leg_on_channel(
        cc,
        c,
        #[trigger] legs_in_channel(legs, c)[i],
    ) by {
        let x = legs_in_channel(legs, c)[i];
        assert(legs_in_channel(legs, c).contains(x));
        lemma_legs_in_channel_from(legs, c, x);
        let j = choose|j: int| 0 <= j < legs.len() && #[trigger] legs[j] == (c as usize, x) && c == legs[j].0 as int;
        assert(leg_on_channel(cc, legs[j].0 as int, legs[j].1));
    }
}

/// Number of connectors of a channel.
fn channel_len(cc: &ChannelConnectors, c: usize) -> (res: usize)
    requires
        cc.wf(),
        c < cc.channel_offsets@.len(),
    ensures
        res == cc.range_end(c as int) - cc.range_start(c as int),
{
    cc.connector_range(c).len()
}

/// The number of slots each channel needs.
pub fn channel_slot_counts(
    cc: &ChannelConnectors,
    channels_legs: &Vec<Vec<ChannelLeg>>,
    Ghost(legs): Ghost<Seq<(usize, ChannelLeg)>>,
) -> (res: Vec<u16>)
    requires
        cc.wf(),
        channels_legs@.len() == cc.channel_offsets@.len(),
        forall|c: int| 0 <= c < channels_legs@.len() ==> (#[trigger] channels_legs@[c])@ == legs_in_channel(legs, c),
        legs_on_channels(*cc, legs),
        legs.len() <= u16::MAX,
    ensures
        res@.len() == channels_legs@.len(),
        forall|c: int|
            0 <= c < res@.len() ==> #[trigger] res@[c] == max_gap_load(
                legs_in_channel(legs, c),
                cc.range_end(c) - cc.range_start(c),
            ),
{
    let count = channels_legs.len();
    let mut res: Vec<u16> = Vec::new();
    let mut c: usize = 0;
    while c < count
        invariant
            c <= count,
            count == channels_legs@.len(),
            cc.wf(),
            channels_legs@.len() == cc.channel_offsets@.len(),
            forall|i: int| 0 <= i < channels_legs@.len() ==> (#[trigger] channels_legs@[i])@ == legs_in_channel(legs, i),
            legs_on_channels(*cc, legs),
            legs.len() <= u16::MAX,
            res@.len() == c,
            forall|i: int|
                0 <= i < c ==> #[trigger] res@[i] == max_gap_load(
                    legs_in_channel(legs, i),
                    cc.range_end(i) - cc.range_start(i),
                ),
        decreases count - c,
    {
        let len = channel_len(cc, c);
        proof {
            lemma_channel_legs_on(*cc, legs, c as int);
            lemma_legs_in_channel_len(legs, c as int);
            assert(legs_within(channels_legs@[c as int]@, len as int)) by {
                assert forall|i: int| 0 <= i < channels_legs@[c as int]@.len() implies #[trigger] channels_legs@[c as int]@[i].start_connector
                    < len && channels_legs@[c as int]@[i].end_connector < len by {
                    assert(leg_on_channel(*cc, c as int, legs_in_channel(legs, c as int)[i]));
                }
            }
        }
        let slots = channel_max_slots(len, &channels_legs[c]);
        res.push(slots);
        c += 1;
    }
    res
}

/// A copy of the legs.
fn copy_legs(legs: &Vec<ChannelLeg>) -> (res: Vec<ChannelLeg>)
    ensures
        res@ == legs@,
{
    let mut out: Vec<ChannelLeg> = Vec::new();
    let mut i: usize = 0;
    while i < legs.len()
        invariant
            i <= legs@.len(),
            out@ == legs@.subrange(0, i as int),
        decreases legs@.len() - i,
    {
        out.push(legs[i]);
        assert(out@ =~= legs@.subrange(0, i + 1));
        i += 1;
    }
    assert(legs@.subrange(0, legs@.len() as int) =~= legs@);
    out
}

proof fn lemma_empty_graph_total(g: Seq<Seq<usize>>, k: int)
    requires
        forall|i: int| 0 <= i < g.len() ==> (#[trigger] g[i]).len() == 0,
        k <= g.len(),
    ensures
        edges_total(g, k) == 0,
    decreases k,
{
    if k > 0 {
        lemma_empty_graph_total(g, k - 1);
    }
}

/// A position vector of a route order: route `order[k]` stands at `k`.
pub open spec fn positions_of_order(positions: Seq<i32>, n: int) -> bool {
    &&& positions.len() == n
    &&& forall|i: int| 0 <= i < n ==> 0 <= #[trigger] positions[i] < n
    &&& exists|order: Seq<usize>|
        order.len() == n && order.no_duplicates() && (forall|k: int| 0 <= k < n ==> #[trigger] order[k] < n) && (
        forall|k: int| 0 <= k < n ==> positions[#[trigger] order[k] as int] == k)
}

/// `g` is an order graph between routes that the legs of the channels
/// demand: `sorted` holds the legs of each of the first `count` channels in
/// stacking order; every pair of legs that demands an order between its
/// routes has it in `g`, or has the opposite order reachable there (the
/// demand was overruled); every order of `g` is demanded by some channel;
/// `g` has no cycle and the positions number the routes along it.
pub open spec fn demand_graph(
    g: Seq<Seq<usize>>,
    sorted: Seq<Seq<ChannelLeg>>,
    legs: Seq<(usize, ChannelLeg)>,
    count: int,
    positions: Seq<i32>,
) -> bool {
    &&& g.len() == positions.len()
    &&& graph_wf(g)
    &&& acyclic(g)
    &&& sorted.len() == count
    &&& forall|c: int|
        0 <= c < count ==> legs_sorted(#[trigger] sorted[c]) && sorted[c].to_multiset() == legs_in_channel(legs, c).to_multiset()
    &&& forall|c: int, i: int, j: int|
        0 <= c < count && 0 <= i < j < sorted[c].len() && #[trigger] legs_demand_order(sorted[c][i], sorted[c][j]) ==> edge(
            g,
            demanded_greater(sorted[c][i], sorted[c][j]),
            demanded_less(sorted[c][i], sorted[c][j]),
        ) || reaches(g, demanded_less(sorted[c][i], sorted[c][j]), demanded_greater(sorted[c][i], sorted[c][j]))
    &&& forall|u: usize, v: usize| #[trigger] edge(g, u, v) ==> exists|c: int| 0 <= c < count && #[trigger] channel_demands(sorted[c], u, v)
    &&& forall|u: usize, v: usize| #[trigger] edge(g, u, v) ==> positions[u as int] < positions[v as int]
}

/// The route positions honour the orders that the legs of the first
/// `count` channels demand, as far as the demands agree.
pub open spec fn honours_demands(positions: Seq<i32>, legs: Seq<(usize, ChannelLeg)>, count: int) -> bool {
    exists|g: Seq<Seq<usize>>, sorted: Seq<Seq<ChannelLeg>>| #[trigger] demand_graph(g, sorted, legs, count, positions)
}

/// Orders the routes: the legs of each channel, in stacking order, demand
/// an order between their routes; the routes are then numbered along a
/// topological order of those demands.
pub fn route_order_positions(channels_legs: &Vec<Vec<ChannelLeg>>, n: usize, Ghost(legs): Ghost<Seq<(usize, ChannelLeg)>>) -> (res: Vec<i32>)
    requires
        forall|c: int| 0 <= c < channels_legs@.len() ==> (#[trigger] channels_legs@[c])@ == legs_in_channel(legs, c),
        forall|i: int| 0 <= i < legs.len() ==> (#[trigger] legs[i]).1.edge_idx < n,
        3 * legs.len() < u16::MAX,
        n <= i32::MAX,
    ensures
        positions_of_order(res@, n as int),
        honours_demands(res@, legs, channels_legs@.len() as int),
{
    let count = channels_legs.len();
    let ghost total = legs.len();
    let mut route_sort = TopologyRouting::new(n);
    let ghost mut sorted_all: Seq<Seq<ChannelLeg>> = Seq::empty();
    proof {
        lemma_empty_graph_total(route_sort.graph(), n as int);
    }
    let mut c: usize = 0;
    while c < count
        invariant
            c <= count,
            count == channels_legs@.len(),
            forall|i: int| 0 <= i < channels_legs@.len() ==> (#[trigger] channels_legs@[i])@ == legs_in_channel(legs, i),
            forall|i: int| 0 <= i < legs.len() ==> (#[trigger] legs[i]).1.edge_idx < n,
            total == legs.len(),
            3 * total < u16::MAX,
            route_sort.wf(),
            route_sort.graph().len() == n,
            route_sort.detected_cycles <= total * channel_lens_sum(legs, c as int),
            edges_total(route_sort.graph(), n as int) <= total * channel_lens_sum(legs, c as int),
            sorted_all.len() == c,
            forall|k: int|
                0 <= k < c ==> legs_sorted(#[trigger] sorted_all[k]) && sorted_all[k].to_multiset() == legs_in_channel(
                    legs,
                    k,
                ).to_multiset(),
            forall|k: int, i: int, j: int|
                0 <= k < c && 0 <= i < j < sorted_all[k].len() && #[trigger] legs_demand_order(
                    sorted_all[k][i],
                    sorted_all[k][j],
                ) ==> edge(
                    route_sort.graph(),
                    demanded_greater(sorted_all[k][i], sorted_all[k][j]),
                    demanded_less(sorted_all[k][i], sorted_all[k][j]),
                ) || reaches(
                    route_sort.graph(),
                    demanded_less(sorted_all[k][i], sorted_all[k][j]),
                    demanded_greater(sorted_all[k][i], sorted_all[k][j]),
                ),
            forall|u: usize, v: usize|
                #[trigger] edge(route_sort.graph(), u, v) ==> exists|k: int| 0 <= k < c && #[trigger] channel_demands(sorted_all[k], u, v),
        decreases count - c,
    {
        let mut sorted = copy_legs(&channels_legs[c]);
        sort_legs(&mut sorted);
        let ghost lc = legs_in_channel(legs, c as int);
        assert(channels_legs@[c as int]@ == lc);
        assert(sorted@.to_multiset() == lc.to_multiset());
        proof {
            lemma_channel_lens_sum_mono(legs, c + 1, count as int);
            lemma_channel_lens_sum_le(legs, count as int);
            lemma_channel_lens_sum_le(legs, c + 1);
            assert(channel_lens_sum(legs, c + 1) == channel_lens_sum(legs, c as int) + lc.len());
            assert(lc.len() <= total);
            assert(total * lc.len() <= total * total) by (nonlinear_arith)
                requires lc.len() <= total;
            assert(lc.len() * lc.len() <= total * lc.len()) by (nonlinear_arith)
                requires lc.len() <= total;
            assert(total * channel_lens_sum(legs, c as int) + total * lc.len() == total * channel_lens_sum(legs, c + 1)) by (nonlinear_arith)
                requires channel_lens_sum(legs, c + 1) == channel_lens_sum(legs, c as int) + lc.len();
            assert(total * channel_lens_sum(legs, c + 1) <= total * total) by (nonlinear_arith)
                requires channel_lens_sum(legs, c + 1) <= total;
            assert(total * total < 0x8000_0000) by (nonlinear_arith)
                requires 3 * total < u16::MAX;
            assert(sorted@.len() == lc.len());
            assert(route_sort.detected_cycles + sorted@.len() * sorted@.len() < usize::MAX);
            assert(legs_routes_within(sorted@, n as int)) by {
                assert forall|i: int| 0 <= i < sorted@.len() implies #[trigger] sorted@[i].edge_idx < n by {
                    let x = sorted@[i];
                    sorted@.to_multiset_ensures();
                    lc.to_multiset_ensures();
                    assert(sorted@.contains(x));
                    assert(sorted@.to_multiset().count(x) > 0);
                    assert(lc.to_multiset().count(x) > 0);
                    assert(lc.contains(x));
                    lemma_legs_in_channel_from(legs, c as int, x);
                    let j = choose|j: int| 0 <= j < legs.len() && #[trigger] legs[j] == (c as usize, x) && c == legs[j].0 as int;
                    assert(legs[j].1.edge_idx < n);
                }
            }
        }
        let ghost g0 = route_sort.graph();
        let ghost sorted0 = sorted_all;
        add_channel_route_orders(&mut route_sort, &sorted);
        proof {
            sorted_all = sorted0.push(sorted@);
            let g1 = route_sort.graph();
            assert forall|k: int, i: int, j: int|
                0 <= k < c + 1 && 0 <= i < j < sorted_all[k].len() && #[trigger] legs_demand_order(
                    sorted_all[k][i],
                    sorted_all[k][j],
                ) implies edge(
                    g1,
                    demanded_greater(sorted_all[k][i], sorted_all[k][j]),
                    demanded_less(sorted_all[k][i], sorted_all[k][j]),
                ) || reaches(
                    g1,
                    demanded_less(sorted_all[k][i], sorted_all[k][j]),
                    demanded_greater(sorted_all[k][i], sorted_all[k][j]),
                ) by {
                if k < c {
                    let a = sorted0[k][i];
                    let b = sorted0[k][j];
                    assert(sorted_all[k] == sorted0[k]);
                    if edge(g0, demanded_greater(a, b), demanded_less(a, b)) {
                    } else {
                        lemma_reaches_subgraph(g0, g1, demanded_less(a, b), demanded_greater(a, b));
                    }
                } else {
                    assert(sorted_all[k] == sorted@);
                }
            }
            assert forall|u: usize, v: usize| #[trigger] edge(g1, u, v) implies exists|k: int|
                0 <= k < c + 1 && #[trigger] channel_demands(sorted_all[k], u, v) by {
                if edge(g0, u, v) {
                    let k = choose|k: int| 0 <= k < c && #[trigger] channel_demands(sorted0[k], u, v);
                    assert(sorted_all[k] == sorted0[k]);
                } else {
                    assert(channel_demands(sorted@, u, v));
                    assert(sorted_all[c as int] == sorted@);
                }
            }
        }
        c += 1;
    }
    proof {
        lemma_channel_lens_sum_le(legs, count as int);
        assert(total * channel_lens_sum(legs, count as int) <= total * total) by (nonlinear_arith)
            requires channel_lens_sum(legs, count as int) <= total;
        assert(total * total < 0x1_0000_0000) by (nonlinear_arith)
            requires 3 * total < u16::MAX;
    }
    let order = match route_sort.topological_sort() {
        Some(order) => order,
        None => {
            proof {
                assert(route_sort.wf());
            }
            Vec::new()
        },
    };
    let positions = route_positions(&order, n);
    proof {
        assert(order@.len() == n && order@.no_duplicates() && (forall|k: int| 0 <= k < n ==> #[trigger] order@[k] < n)
            && (forall|k: int| 0 <= k < n ==> positions@[#[trigger] order@[k] as int] == k));
        let g = route_sort.graph();
        lemma_distinct_bounded(order@, n as nat);
        assert forall|u: usize, v: usize| #[trigger] edge(g, u, v) implies positions@[u as int] < positions@[v as int] by {
            assert(g[u as int].contains(v));
            let w = choose|w: int| 0 <= w < g[u as int].len() && g[u as int][w] == v;
            assert(v < n);
            assert(u < n);
            assert(order@.contains(u));
            assert(order@.contains(v));
            let i = choose|i: int| 0 <= i < order@.len() && order@[i] == u;
            let j = choose|j: int| 0 <= j < order@.len() && order@[j] == v;
            assert(edge(g, order@[i], order@[j]));
        }
        assert(demand_graph(g, sorted_all, legs, count as int, positions@));
    }
    positions
}

/// The slot counts of the connectors of a channel.
pub open spec fn channel_connector_slots(cc: ChannelConnectors, c: int) -> Seq<u16> {
    channel_seq(cc, c).map_values(|x: ChannelConnector| x.slots)
}

/// The slots given to the ordered legs of the first `count` channels, channel
/// after channel.
pub open spec fn assignment_writes(
    ordered: Seq<Seq<ChannelLeg>>,
    cc: ChannelConnectors,
    channel_slots: Seq<u16>,
    count: int,
) -> Seq<SlotWrite>
    decreases count,
{
    if count <= 0 {
        Seq::empty()
    } else {
        assignment_writes(ordered, cc, channel_slots, count - 1) + channel_assignment(
            ordered[count - 1],
            channel_connector_slots(cc, count - 1),
            channel_slots[count - 1],
        )
    }
}

proof fn lemma_apply_writes_concat(t: SlotTables, a: Seq<SlotWrite>, b: Seq<SlotWrite>)
    ensures
        apply_writes(t, a + b) == apply_writes(apply_writes(t, a), b),
    decreases b.len(),
{
    if b.len() == 0 {
        assert(a + b =~= a);
    } else {
        assert((a + b).drop_last() =~= a + b.drop_last());
        assert((a + b).last() == b.last());
        lemma_apply_writes_concat(t, a, b.drop_last());
    }
}

/// The elements of the route of a leg have entries in the slot tables.
pub open spec fn leg_fits_tables(leg: ChannelLeg, tables: SlotTables) -> bool {
    let e = leg.edge_idx as int;
    &&& e < tables.len()
    &&& tables[e].0.len() == tables[e].1.len()
    &&& leg.route_start_idx < tables[e].0.len()
    &&& leg.route_channel_idx < tables[e].0.len()
    &&& leg.route_end_idx < tables[e].0.len()
}

/// The slot counts of the connectors of one channel.
fn connector_slot_counts(cc: &ChannelConnectors, c: usize) -> (res: Vec<u16>)
    requires
        cc.wf(),
        c < cc.channel_offsets@.len(),
    ensures
        res@ == channel_connector_slots(*cc, c as int),
{
    let connectors = cc.connector_range(c);
    let mut res: Vec<u16> = Vec::new();
    let mut i: usize = 0;
    while i < connectors.len()
        invariant
            i <= connectors@.len(),
            res@ == connectors@.subrange(0, i as int).map_values(|x: ChannelConnector| x.slots),
        decreases connectors@.len() - i,
    {
        res.push(connectors[i].slots);
        assert(res@ =~= connectors@.subrange(0, i + 1).map_values(|x: ChannelConnector| x.slots));
        i += 1;
    }
    assert(connectors@.subrange(0, connectors@.len() as int) =~= connectors@);
    res
}

/// An ordered leg comes from a leg of the channel, with its route order set.
proof fn lemma_ordered_leg_from(
    lc: Seq<ChannelLeg>,
    ordered: Seq<ChannelLeg>,
    positions: Seq<i32>,
    x: ChannelLeg,
) -> (i: int)
    requires
        ordered.to_multiset() == lc.map_values(|l: ChannelLeg| with_route_order(l, positions)).to_multiset(),
        ordered.contains(x),
    ensures
        0 <= i < lc.len(),
        x == with_route_order(lc[i], positions),
{
    let mapped = lc.map_values(|l: ChannelLeg| with_route_order(l, positions));
    ordered.to_multiset_ensures();
    mapped.to_multiset_ensures();
    assert(ordered.to_multiset().count(x) > 0);
    assert(mapped.to_multiset().count(x) > 0);
    assert(mapped.contains(x));
    let i = choose|i: int| 0 <= i < mapped.len() && mapped[i] == x;
    i
}

/// Assigns the slots of every channel, in channel order, and gives them to
/// the edge routes. Returns the legs of each channel in the order they were
/// placed.
#[verifier::rlimit(60)]
pub fn assign_channels(
    cc: &ChannelConnectors,
    channels_legs: &Vec<Vec<ChannelLeg>>,
    positions: &Vec<i32>,
    channel_slots: &Vec<u16>,
    port_tables: &mut Vec<Vec<u16>>,
    channel_tables: &mut Vec<Vec<u16>>,
    Ghost(legs): Ghost<Seq<(usize, ChannelLeg)>>,
) -> (ordered: Ghost<Seq<Seq<ChannelLeg>>>)
    requires
        cc.wf(),
        channels_legs@.len() == cc.channel_offsets@.len(),
        channel_slots@.len() == channels_legs@.len(),
        forall|c: int| 0 <= c < channels_legs@.len() ==> (#[trigger] channels_legs@[c])@ == legs_in_channel(legs, c),
        legs_on_channels(*cc, legs),
        forall|i: int| 0 <= i < legs.len() ==> leg_fits_tables((#[trigger] legs[i]).1, tables_of(old(port_tables)@, old(channel_tables)@)),
        forall|i: int| 0 <= i < legs.len() ==> (#[trigger] legs[i]).1.edge_idx < positions@.len(),
        forall|i: int| 0 <= i < positions@.len() ==> 0 <= #[trigger] positions@[i] <= i32::MAX,
        3 * legs.len() < u16::MAX,
        old(port_tables)@.len() == old(channel_tables)@.len(),
    ensures
        ordered@.len() == channels_legs@.len(),
        forall|c: int|
            0 <= c < ordered@.len() ==> legs_sorted(#[trigger] ordered@[c]) && ordered@[c].to_multiset() == legs_in_channel(
                legs,
                c,
            ).map_values(|l: ChannelLeg| with_route_order(l, positions@)).to_multiset(),
        final(port_tables)@.len() == old(port_tables)@.len(),
        final(channel_tables)@.len() == old(channel_tables)@.len(),
        tables_of(final(port_tables)@, final(channel_tables)@) == apply_writes(
            tables_of(old(port_tables)@, old(channel_tables)@),
            assignment_writes(ordered@, *cc, channel_slots@, channels_legs@.len() as int),
        ),
{
    let ghost t0 = tables_of(port_tables@, channel_tables@);
    let count = channels_legs.len();
    let ghost mut ordered: Seq<Seq<ChannelLeg>> = Seq::empty();
    let mut c: usize = 0;
    while c < count
        invariant
            c <= count,
            count == channels_legs@.len(),
            cc.wf(),
            channels_legs@.len() == cc.channel_offsets@.len(),
            channel_slots@.len() == count,
            forall|i: int| 0 <= i < channels_legs@.len() ==> (#[trigger] channels_legs@[i])@ == legs_in_channel(legs, i),
            legs_on_channels(*cc, legs),
            forall|i: int| 0 <= i < legs.len() ==> leg_fits_tables((#[trigger] legs[i]).1, t0),
            forall|i: int| 0 <= i < legs.len() ==> (#[trigger] legs[i]).1.edge_idx < positions@.len(),
            forall|i: int| 0 <= i < positions@.len() ==> 0 <= #[trigger] positions@[i] <= i32::MAX,
            3 * legs.len() < u16::MAX,
            port_tables@.len() == channel_tables@.len(),
            port_tables@.len() == t0.len(),
            ordered.len() == c,
            forall|i: int|
                0 <= i < c ==> legs_sorted(#[trigger] ordered[i]) && ordered[i].to_multiset() == legs_in_channel(
                    legs,
                    i,
                ).map_values(|l: ChannelLeg| with_route_order(l, positions@)).to_multiset(),
            writes_fit(assignment_writes(ordered, *cc, channel_slots@, c as int), t0),
            tables_of(port_tables@, channel_tables@) == apply_writes(
                t0,
                assignment_writes(ordered, *cc, channel_slots@, c as int),
            ),
        decreases count - c,
    {
        let ghost lc = legs_in_channel(legs, c as int);
        assert(channels_legs@[c as int]@ == lc);
        proof {
            lemma_channel_legs_on(*cc, legs, c as int);
            assert forall|i: int| 0 <= i < channels_legs@[c as int]@.len() implies (#[trigger] channels_legs@[c as int]@[i]).edge_idx
                < positions@.len() by {
                let x = lc[i];
                assert(lc.contains(x));
                lemma_legs_in_channel_from(legs, c as int, x);
                let j = choose|j: int| 0 <= j < legs.len() && #[trigger] legs[j] == (c as usize, x) && c == legs[j].0 as int;
                assert(legs[j].1.edge_idx < positions@.len());
            }
        }
        let ord = order_channel_legs(&channels_legs[c], positions);
        let conn_slots = connector_slot_counts(cc, c);
        proof {
            assert(conn_slots@.len() == cc.range_end(c as int) - cc.range_start(c as int)) by {
                assert(cc.range_end(c as int) <= cc.connectors@.len());
            }
            lemma_legs_in_channel_len(legs, c as int);
            assert(legs_assignable(ord@, conn_slots@.len() as int)) by {
                assert forall|i: int| 0 <= i < ord@.len() implies #[trigger] ord@[i].start_connector < conn_slots@.len()
                    && ord@[i].end_connector < conn_slots@.len() && ord@[i].start_connector != ord@[i].end_connector by {
                    assert(ord@.contains(ord@[i]));
                    let k = lemma_ordered_leg_from(lc, ord@, positions@, ord@[i]);
                    assert(leg_on_channel(*cc, c as int, lc[k]));
                }
            }
        }
        let writes = assign_channel_slots(&ord, &conn_slots, channel_slots[c]);
        let ghost prev = assignment_writes(ordered, *cc, channel_slots@, c as int);
        let ghost cur_tables = tables_of(port_tables@, channel_tables@);
        proof {
            lemma_assignment_from_legs(ord@, conn_slots@, channel_slots@[c as int]);
            lemma_apply_writes_shape(t0, prev);
            assert(writes_fit(writes@, t0)) by {
                assert forall|j: int| 0 <= j < writes@.len() implies (#[trigger] writes@[j]).edge_idx < t0.len()
                    && writes@[j].route_idx < t0[writes@[j].edge_idx as int].0.len() && writes@[j].route_idx
                    < t0[writes@[j].edge_idx as int].1.len() by {
                    assert(write_from_legs(writes@[j], ord@));
                    let i = choose|i: int|
                        0 <= i < ord@.len() && writes@[j].edge_idx == (#[trigger] ord@[i]).edge_idx && (
                        writes@[j].route_idx == ord@[i].route_channel_idx || writes@[j].route_idx
                            == ord@[i].route_start_idx || writes@[j].route_idx == ord@[i].route_end_idx);
                    assert(ord@.contains(ord@[i]));
                    let k = lemma_ordered_leg_from(lc, ord@, positions@, ord@[i]);
                    assert(lc.contains(lc[k]));
                    lemma_legs_in_channel_from(legs, c as int, lc[k]);
                    let q = choose|q: int| 0 <= q < legs.len() && #[trigger] legs[q] == (c as usize, lc[k]) && c == legs[q].0 as int;
                    assert(leg_fits_tables(legs[q].1, t0));
                }
            }
            assert(writes_fit(writes@, cur_tables)) by {
                assert forall|j: int| 0 <= j < writes@.len() implies (#[trigger] writes@[j]).edge_idx < cur_tables.len()
                    && writes@[j].route_idx < cur_tables[writes@[j].edge_idx as int].0.len() && writes@[j].route_idx
                    < cur_tables[writes@[j].edge_idx as int].1.len() by {
                    assert(cur_tables[writes@[j].edge_idx as int].0.len() == t0[writes@[j].edge_idx as int].0.len());
                }
            }
        }
        apply_slot_writes(port_tables, channel_tables, &writes);
        proof {
            let new_ordered = ordered.push(ord@);
            assert(assignment_writes(new_ordered, *cc, channel_slots@, c as int) == prev) by {
                lemma_assignment_writes_prefix(ordered, ord@, *cc, channel_slots@, c as int);
            }
            assert(channel_connector_slots(*cc, c as int) == conn_slots@);
            assert(assignment_writes(new_ordered, *cc, channel_slots@, c + 1) == prev + writes@);
            lemma_apply_writes_concat(t0, prev, writes@);
            assert forall|j: int| 0 <= j < (prev + writes@).len() implies (#[trigger] (prev + writes@)[j]).edge_idx < t0.len()
                && (prev + writes@)[j].route_idx < t0[(prev + writes@)[j].edge_idx as int].0.len() && (prev + writes@)[j].route_idx
                < t0[(prev + writes@)[j].edge_idx as int].1.len() by {
                if j < prev.len() {
                    assert((prev + writes@)[j] == prev[j]);
                } else {
                    assert((prev + writes@)[j] == writes@[j - prev.len()]);
                }
            }
            assert forall|i: int|
                0 <= i < c + 1 implies legs_sorted(#[trigger] new_ordered[i]) && new_ordered[i].to_multiset() == legs_in_channel(
                legs,
                i,
            ).map_values(|l: ChannelLeg| with_route_order(l, positions@)).to_multiset() by {
                if i < c {
                    assert(new_ordered[i] == ordered[i]);
                }
            }
            ordered = new_ordered;
        }
        c += 1;
    }
    Ghost(ordered)
}

proof fn lemma_assignment_writes_prefix(
    ordered: Seq<Seq<ChannelLeg>>,
    more: Seq<ChannelLeg>,
    cc: ChannelConnectors,
    channel_slots: Seq<u16>,
    count: int,
)
    requires
        0 <= count <= ordered.len(),
    ensures
        assignment_writes(ordered.push(more), cc, channel_slots, count) == assignment_writes(ordered, cc, channel_slots, count),
    decreases count,
{
    if count > 0 {
        lemma_assignment_writes_prefix(ordered, more, cc, channel_slots, count - 1);
        assert(ordered.push(more)[count - 1] == ordered[count - 1]);
    }
}

} // verus!
