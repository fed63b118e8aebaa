//! Searching routes through the routing graph: breadth first from a node
//! box to the boxes it has edges to, then keeping only the elements where
//! a route changes channel.

use vstd::prelude::*;

use crate::layoutalg::ortho::route_legs::{pair_lt, RoutingGraph};
use crate::layoutalg::ortho::routing::{ChannelOrientation, Orientation, RNodeType};

verus! {

/// The channel a walk is on at a port (the port's channel) or at a bend
/// point (the channel through it of the given orientation).
pub open spec fn channel_of(t: RNodeType, orientation: Orientation) -> ChannelOrientation {
    match t {
        RNodeType::Port(_, channel_id, side) => ChannelOrientation {
            channel_idx: channel_id,
            orientation: side.spec_orientation(),
        },
        RNodeType::BendPoint(vertical, horizontal) => match orientation {
            Orientation::Vertical => ChannelOrientation { channel_idx: vertical, orientation: Orientation::Vertical },
            Orientation::Horizontal => ChannelOrientation { channel_idx: horizontal, orientation: Orientation::Horizontal },
        },
        RNodeType::Node(_) => ChannelOrientation { channel_idx: 0, orientation },
    }
}

/// The rest of a route after its first element, on channel `co`: ports
/// in the middle are dropped, and so is every bend point after which the
/// route stays on the same channel; the last element is kept.
pub open spec fn clean_tail(g: RoutingGraph, rest: Seq<usize>, co: ChannelOrientation) -> Seq<usize>
    decreases rest.len(),
{
    if rest.len() <= 1 {
        rest
    } else {
        let t = g.node_type(rest[0] as int);
        if t is Port {
            clean_tail(g, rest.drop_first(), co)
        } else if channel_of(t, co.orientation) == channel_of(g.node_type(rest[1] as int), co.orientation) {
            clean_tail(g, rest.drop_first(), co)
        } else {
            seq![rest[0]] + clean_tail(g, rest.drop_first(), channel_of(t, co.orientation.spec_opposite()))
        }
    }
}

/// A route reduced to its first port, the bend points where it changes
/// channel, and its last element.
pub open spec fn cleaned_route(g: RoutingGraph, route: Seq<usize>) -> Seq<usize> {
    if route.len() < 2 {
        route
    } else {
        seq![route[0]] + clean_tail(g, route.drop_first(), channel_of(g.node_type(route[0] as int), Orientation::Vertical))
    }
}

/// The route starts at a port and runs over ports and bend points of the
/// graph.
pub open spec fn route_over_channels(g: RoutingGraph, route: Seq<usize>) -> bool {
    &&& forall|k: int| 0 <= k < route.len() ==> (#[trigger] route[k] as int) < g.nodes@.len()
    &&& route.len() >= 2 ==> g.node_type(route[0] as int) is Port
    &&& forall|k: int| 1 <= k < route.len() ==> !(g.node_type(#[trigger] route[k] as int) is Node)
}

proof fn lemma_channel_id_is_channel_of(t: RNodeType, o: Orientation, res: ChannelOrientation)
    requires
        !(t is Node),
        res == match t {
            RNodeType::Port(_, channel_id, side) => ChannelOrientation {
                channel_idx: channel_id,
                orientation: side.spec_orientation(),
            },
            RNodeType::BendPoint(vertical, horizontal) => match o {
                Orientation::Vertical => ChannelOrientation { channel_idx: vertical, orientation: Orientation::Vertical },
                Orientation::Horizontal => ChannelOrientation {
                    channel_idx: horizontal,
                    orientation: Orientation::Horizontal,
                },
            },
            RNodeType::Node(_) => res,
        },
    ensures
        res == channel_of(t, o),
{
}

/// Keeps of a route only its first port, the bend points where it changes
/// channel, and its last element.
pub fn remove_no_bend_edges(route: &mut Vec<usize>, routing_graph: &RoutingGraph)
    requires
        route_over_channels(*routing_graph, old(route)@),
    ensures
        final(route)@ == cleaned_route(*routing_graph, old(route)@),
{
    let ghost g = *routing_graph;
    if route.len() >= 2 {
        let mut channel_orientation = routing_graph.nodes[route[0]].node_type.get_channel_ref().unwrap();
        let ghost first = route@[0];
        let mut idx: usize = 1;
        proof {
            assert(route@.subrange(0, 1) =~= seq![first]);
            assert(route@.subrange(1, route@.len() as int) =~= route@.drop_first());
        }
        loop
            invariant
                1 <= idx <= route@.len(),
                route@.len() >= 2,
                route@[0] == first,
                g == *routing_graph,
                forall|k: int| 0 <= k < route@.len() ==> (#[trigger] route@[k] as int) < g.nodes@.len(),
                forall|k: int| 1 <= k < route@.len() ==> !(g.node_type(#[trigger] route@[k] as int) is Node),
                cleaned_route(g, old(route)@) == route@.subrange(0, idx as int) + clean_tail(
                    g,
                    route@.subrange(idx as int, route@.len() as int),
                    channel_orientation,
                ),
            ensures
                route@ == cleaned_route(g, old(route)@),
            decreases route@.len() - idx,
        {
            if idx >= route.len() - 1 {
                proof {
                    let rest = route@.subrange(idx as int, route@.len() as int);
                    assert(rest.len() <= 1);
                    assert(route@.subrange(0, idx as int) + rest =~= route@);
                }
                break;
            }
            let ghost before = route@;
            let ghost rest = before.subrange(idx as int, before.len() as int);
            proof {
                assert(rest[0] == before[idx as int]);
                assert(rest[1] == before[idx + 1]);
                assert(rest.drop_first() =~= before.subrange(idx + 1, before.len() as int));
            }
            let current_node = &routing_graph.nodes[route[idx]];
            if matches!(current_node.node_type, RNodeType::Port(_, _, _)) {
                route.remove(idx);
                proof {
                    assert(route@.subrange(0, idx as int) =~= before.subrange(0, idx as int));
                    assert(route@.subrange(idx as int, route@.len() as int) =~= rest.drop_first());
                }
                continue;
            }
            let current_channel_orientation = current_node.node_type.get_channel_id(channel_orientation.orientation);
            let next_node = &routing_graph.nodes[route[idx + 1]];
            let next_channel_orientation = next_node.node_type.get_channel_id(channel_orientation.orientation);
            proof {
                lemma_channel_id_is_channel_of(current_node.node_type, channel_orientation.orientation, current_channel_orientation);
                lemma_channel_id_is_channel_of(next_node.node_type, channel_orientation.orientation, next_channel_orientation);
            }
            if current_channel_orientation == next_channel_orientation {
                route.remove(idx);
                proof {
                    assert(route@.subrange(0, idx as int) =~= before.subrange(0, idx as int));
                    assert(route@.subrange(idx as int, route@.len() as int) =~= rest.drop_first());
                }
                continue;
            }
            let ghost old_co = channel_orientation;
            channel_orientation = current_node.node_type.get_channel_id(channel_orientation.orientation.opposite());
            proof {
                lemma_channel_id_is_channel_of(
                    current_node.node_type,
                    old_co.orientation.spec_opposite(),
                    channel_orientation,
                );
                assert(route@.subrange(0, idx + 1) =~= route@.subrange(0, idx as int) + seq![rest[0]]);
            }
            idx += 1;
        }
    } else {
    }
}

// ---------------------------------------------------------------------------
// Breadth first search from a node box.

/// Number of marked entries.
pub open spec fn count_marked(s: Seq<bool>) -> nat
    decreases s.len(),
{
    if s.len() == 0 {
        0
    } else {
        count_marked(s.drop_last()) + if s.last() { 1nat } else { 0nat }
    }
}

proof fn lemma_count_marked_bound(s: Seq<bool>)
    ensures
        count_marked(s) <= s.len(),
    decreases s.len(),
{
    if s.len() > 0 {
        lemma_count_marked_bound(s.drop_last());
    }
}

proof fn lemma_count_marked_update(s: Seq<bool>, i: int)
    requires
        0 <= i < s.len(),
    ensures
        count_marked(s.update(i, true)) == count_marked(s) + if s[i] { 0nat } else { 1nat },
    decreases s.len(),
{
    let t = s.update(i, true);
    if i == s.len() - 1 {
        assert(t.drop_last() =~= s.drop_last());
    } else {
        lemma_count_marked_update(s.drop_last(), i);
        assert(t.drop_last() =~= s.drop_last().update(i, true));
    }
}

/// The routing graph as the search reads it: neighbours name nodes of the
/// graph, each node box sits at its own index, and `from` is a box that
/// touches only ports.
pub open spec fn search_graph(g: RoutingGraph, from: usize) -> bool {
    &&& (from as int) < g.nodes@.len()
    &&& g.node_type(from as int) is Node
    &&& forall|i: int, j: int|
        0 <= i < g.nodes@.len() && 0 <= j < g.nodes@[i].neighbors@.len() ==> (#[trigger] g.nodes@[i].neighbors@[j] as int)
            < g.nodes@.len()
    &&& forall|i: int| 0 <= i < g.nodes@.len() ==> (#[trigger] g.node_type(i) matches RNodeType::Node(k) ==> k == i)
    &&& forall|j: int|
        0 <= j < g.nodes@[from as int].neighbors@.len() ==> g.node_type(
            #[trigger] g.nodes@[from as int].neighbors@[j] as int,
        ) is Port
}

/// `walk` leads from a neighbour of the box `from`, node to neighbour, over
/// ports and bend points, to a neighbour of the node `target`.
pub open spec fn box_walk(g: RoutingGraph, from: usize, target: usize, walk: Seq<usize>) -> bool {
    &&& walk.len() >= 1
    &&& route_over_channels(g, walk)
    &&& !(g.node_type(walk[0] as int) is Node)
    &&& g.nodes@[from as int].neighbors@.contains(walk[0])
    &&& forall|k: int| 0 <= k < walk.len() - 1 ==> g.nodes@[#[trigger] walk[k] as int].neighbors@.contains(walk[k + 1])
    &&& g.nodes@[walk.last() as int].neighbors@.contains(target)
}

/// The route of the entry is a cleaned walk from the box `from` to the
/// entry's box.
pub open spec fn route_to_box(g: RoutingGraph, from: usize, entry: (usize, Vec<usize>)) -> bool {
    exists|walk: Seq<usize>| #[trigger] box_walk(g, from, entry.0, walk) && entry.1@ == cleaned_route(g, walk)
}

/// Each found box with its route: the box is one of the targets, other
/// than `from`; the route is a walk from `from` to it, cleaned.
pub open spec fn found_routes(g: RoutingGraph, from: usize, to: Seq<usize>, found: Seq<(usize, Vec<usize>)>) -> bool {
    &&& forall|r: int| 0 <= r < found.len() ==> to.contains((#[trigger] found[r]).0) && found[r].0 != from
    &&& forall|r: int| 0 <= r < found.len() ==> #[trigger] route_to_box(g, from, found[r])
    &&& forall|r1: int, r2: int| 0 <= r1 < r2 < found.len() ==> (#[trigger] found[r1]).0 != (#[trigger] found[r2]).0
}

/// The predecessor of `y` in the search: the box `from` for the ports
/// next to it, else a visited port or bend point next to `y` that has a
/// predecessor itself and a lower rank.
pub open spec fn pred_ok(
    g: RoutingGraph,
    from: usize,
    v: Seq<bool>,
    p: Seq<usize>,
    rank: Seq<nat>,
    y: int,
) -> bool {
    let n = g.nodes@.len();
    if p[y] == from {
        &&& g.nodes@[from as int].neighbors@.contains(y as usize)
        &&& g.node_type(y) is Port
    } else {
        &&& (p[y] as int) < n
        &&& v[p[y] as int]
        &&& p[p[y] as int] != usize::MAX
        &&& !(g.node_type(p[y] as int) is Node)
        &&& g.nodes@[p[y] as int].neighbors@.contains(y as usize)
        &&& rank[p[y] as int] < rank[y]
    }
}

/// The state of the search: visited marks, predecessors, ranks and the
/// queue (its first `init` entries are the ports next to `from`).
pub open spec fn search_inv(
    g: RoutingGraph,
    from: usize,
    v: Seq<bool>,
    p: Seq<usize>,
    rank: Seq<nat>,
    q: Seq<(usize, Orientation)>,
    init: int,
) -> bool {
    let n = g.nodes@.len();
    &&& v.len() == n
    &&& p.len() == n
    &&& rank.len() == n
    &&& (from as int) < n
    &&& n <= usize::MAX
    &&& v[from as int]
    &&& 0 <= init <= q.len()
    &&& forall|a: int| 0 <= a < q.len() ==> (#[trigger] q[a]).0 < n && q[a].0 != from && p[q[a].0 as int] != usize::MAX
    &&& forall|a: int| 0 <= a < init ==> g.node_type((#[trigger] q[a]).0 as int) is Port
    &&& forall|a: int| init <= a < q.len() ==> v[(#[trigger] q[a]).0 as int]
    &&& forall|a: int, b: int| init <= a < b < q.len() ==> (#[trigger] q[a]).0 != (#[trigger] q[b]).0
    &&& forall|y: int| 0 <= y < n && #[trigger] p[y] != usize::MAX ==> pred_ok(g, from, v, p, rank, y)
}

/// Marking a node visited keeps the search state.
proof fn lemma_visit_keeps(
    g: RoutingGraph,
    from: usize,
    v: Seq<bool>,
    p: Seq<usize>,
    rank: Seq<nat>,
    q: Seq<(usize, Orientation)>,
    init: int,
    x: int,
)
    requires
        search_inv(g, from, v, p, rank, q, init),
        0 <= x < v.len(),
    ensures
        search_inv(g, from, v.update(x, true), p, rank, q, init),
{
    let v2 = v.update(x, true);
    assert forall|y: int| 0 <= y < g.nodes@.len() && #[trigger] p[y] != usize::MAX implies pred_ok(g, from, v2, p, rank, y) by {
        assert(pred_ok(g, from, v, p, rank, y));
    }
    assert forall|a: int| init <= a < q.len() implies v2[(#[trigger] q[a]).0 as int] by {
        assert(v[q[a].0 as int]);
    }
}

/// Queueing an unvisited neighbour of a visited port or bend point keeps
/// the search state.
proof fn lemma_push_keeps(
    g: RoutingGraph,
    from: usize,
    v: Seq<bool>,
    p: Seq<usize>,
    rank: Seq<nat>,
    q: Seq<(usize, Orientation)>,
    init: int,
    node_idx: usize,
    t: usize,
    o: Orientation,
)
    requires
        search_inv(g, from, v, p, rank, q, init),
        (node_idx as int) < g.nodes@.len(),
        node_idx != from,
        v[node_idx as int],
        p[node_idx as int] != usize::MAX,
        !(g.node_type(node_idx as int) is Node),
        (t as int) < g.nodes@.len(),
        !v[t as int],
        g.nodes@[node_idx as int].neighbors@.contains(t),
    ensures
        search_inv(
            g,
            from,
            v.update(t as int, true),
            p.update(t as int, node_idx),
            rank.update(t as int, rank[node_idx as int] + 1),
            q.push((t, o)),
            init,
        ),
{
    let v2 = v.update(t as int, true);
    let p2 = p.update(t as int, node_idx);
    let r2 = rank.update(t as int, rank[node_idx as int] + 1);
    let q2 = q.push((t, o));
    assert(t != from);
    assert(node_idx != usize::MAX);
    assert forall|a: int| 0 <= a < q2.len() implies (#[trigger] q2[a]).0 < g.nodes@.len() && q2[a].0 != from && p2[q2[a].0 as int]
        != usize::MAX by {
        if a < q.len() {
            assert(q2[a] == q[a]);
            if q[a].0 != t {
                assert(p2[q[a].0 as int] == p[q[a].0 as int]);
            }
        }
    }
    assert forall|a: int| 0 <= a < init implies g.node_type((#[trigger] q2[a]).0 as int) is Port by {
        assert(q2[a] == q[a]);
    }
    assert forall|a: int| init <= a < q2.len() implies v2[(#[trigger] q2[a]).0 as int] by {
        if a < q.len() {
            assert(q2[a] == q[a]);
        }
    }
    assert forall|a: int, b: int| init <= a < b < q2.len() implies (#[trigger] q2[a]).0 != (#[trigger] q2[b]).0 by {
        if b == q.len() {
            assert(q2[a] == q[a]);
            assert(v[q[a].0 as int]);
        } else {
            assert(q2[a] == q[a] && q2[b] == q[b]);
        }
    }
    assert forall|y: int| 0 <= y < g.nodes@.len() && #[trigger] p2[y] != usize::MAX implies pred_ok(g, from, v2, p2, r2, y) by {
        if y == t {
        } else {
            assert(p2[y] == p[y]);
            assert(pred_ok(g, from, v, p, rank, y));
            if p[y] != from {
                assert(p[y] != t);
            }
        }
    }
}

/// No two distinct items of a list are missing from a list of at least as
/// many: a list without duplicates inside another list is not longer.
proof fn lemma_distinct_within_len(a: Seq<usize>, b: Seq<usize>)
    requires
        a.no_duplicates(),
        forall|i: int| 0 <= i < a.len() ==> b.contains(#[trigger] a[i]),
    ensures
        a.len() <= b.len(),
{
    a.unique_seq_to_set();
    b.lemma_cardinality_of_set();
    assert(a.to_set().subset_of(b.to_set())) by {
        assert forall|x: usize| a.to_set().contains(x) implies b.to_set().contains(x) by {
            let i = choose|i: int| 0 <= i < a.len() && a[i] == x;
        }
    }
    vstd::set_lib::lemma_len_subset(a.to_set(), b.to_set());
}

/// The node has an entry in the queue.
pub open spec fn queued(q: Seq<(usize, Orientation)>, y: usize) -> bool {
    exists|a: int| 0 <= a < q.len() && (#[trigger] q[a]).0 == y
}

/// Every neighbour of `x` is visited.
pub open spec fn expanded(g: RoutingGraph, v: Seq<bool>, x: usize) -> bool {
    forall|j: int|
        0 <= j < g.nodes@[x as int].neighbors@.len() ==> v[#[trigger] g.nodes@[x as int].neighbors@[j] as int]
}

/// Some found entry is for the box `x`.
pub open spec fn has_box(found: Seq<(usize, Vec<usize>)>, x: usize) -> bool {
    exists|r: int| 0 <= r < found.len() && (#[trigger] found[r]).0 == x
}

/// Some walk leads from the box `from` over ports and bend points to the
/// node `t`.
pub open spec fn reaches(g: RoutingGraph, from: usize, t: usize) -> bool {
    exists|walk: Seq<usize>| #[trigger] box_walk(g, from, t, walk)
}

/// What the search has covered once its first `done` queue entries are
/// handled: the queue starts with the neighbours of `from`, every visited
/// node is queued, every handled port or bend point has all its
/// neighbours visited, and every handled box that is a target is found.
pub open spec fn cover_inv(
    g: RoutingGraph,
    from: usize,
    to: Seq<usize>,
    v: Seq<bool>,
    q: Seq<(usize, Orientation)>,
    init: int,
    done: int,
    found: Seq<(usize, Vec<usize>)>,
) -> bool {
    let n = g.nodes@.len();
    &&& init == g.nodes@[from as int].neighbors@.len()
    &&& init <= q.len()
    &&& forall|a: int| 0 <= a < init ==> (#[trigger] q[a]).0 == g.nodes@[from as int].neighbors@[a]
    &&& 0 <= done <= q.len()
    &&& forall|a: int| 0 <= a < q.len() ==> ((#[trigger] q[a]).0 as int) < n
    &&& forall|y: int| 0 <= y < n && #[trigger] v[y] && y != from ==> queued(q, y as usize)
    &&& forall|a: int|
        0 <= a < done && !(g.node_type(q[a].0 as int) is Node) ==> expanded(g, v, (#[trigger] q[a]).0)
    &&& forall|a: int|
        0 <= a < done && g.node_type(q[a].0 as int) is Node && to.contains(q[a].0) ==> has_box(found, (#[trigger] q[a]).0)
}

/// Visiting a queued node keeps what the search has covered.
proof fn lemma_cover_visit(
    g: RoutingGraph,
    from: usize,
    to: Seq<usize>,
    v: Seq<bool>,
    q: Seq<(usize, Orientation)>,
    init: int,
    done: int,
    found: Seq<(usize, Vec<usize>)>,
    x: usize,
)
    requires
        search_graph(g, from),
        cover_inv(g, from, to, v, q, init, done, found),
        v.len() == g.nodes@.len(),
        (x as int) < v.len(),
        queued(q, x),
    ensures
        cover_inv(g, from, to, v.update(x as int, true), q, init, done, found),
{
    let v2 = v.update(x as int, true);
    assert forall|a: int| 0 <= a < done && !(g.node_type(q[a].0 as int) is Node) implies expanded(g, v2, (#[trigger] q[a]).0) by {
        assert(expanded(g, v, q[a].0));
        let nb = g.nodes@[q[a].0 as int].neighbors@;
        assert forall|j: int| 0 <= j < nb.len() implies v2[#[trigger] nb[j] as int] by {
            assert(v[nb[j] as int]);
        }
    }
    assert forall|y: int| 0 <= y < g.nodes@.len() && #[trigger] v2[y] && y != from implies queued(q, y as usize) by {
        if y != x {
            assert(v[y]);
        }
    }
}

/// Queueing a node as visited keeps what the search has covered.
proof fn lemma_cover_push(
    g: RoutingGraph,
    from: usize,
    to: Seq<usize>,
    v: Seq<bool>,
    q: Seq<(usize, Orientation)>,
    init: int,
    done: int,
    found: Seq<(usize, Vec<usize>)>,
    t: usize,
    o: Orientation,
)
    requires
        search_graph(g, from),
        cover_inv(g, from, to, v, q, init, done, found),
        v.len() == g.nodes@.len(),
        (t as int) < g.nodes@.len(),
    ensures
        cover_inv(g, from, to, v.update(t as int, true), q.push((t, o)), init, done, found),
{
    let v2 = v.update(t as int, true);
    let q2 = q.push((t, o));
    assert forall|a: int| 0 <= a < q2.len() implies ((#[trigger] q2[a]).0 as int) < g.nodes@.len() by {
        if a < q.len() {
            assert(q2[a] == q[a]);
        }
    }
    assert forall|a: int| 0 <= a < init implies (#[trigger] q2[a]).0 == g.nodes@[from as int].neighbors@[a] by {
        assert(q2[a] == q[a]);
    }
    assert forall|y: int| 0 <= y < g.nodes@.len() && #[trigger] v2[y] && y != from implies queued(q2, y as usize) by {
        if y == t {
            assert(q2[q.len() as int].0 == t);
        } else {
            assert(v[y]);
            let a = choose|a: int| 0 <= a < q.len() && (#[trigger] q[a]).0 == y as usize;
            assert(q2[a] == q[a]);
        }
    }
    assert forall|a: int| 0 <= a < done && !(g.node_type(q2[a].0 as int) is Node) implies expanded(g, v2, (#[trigger] q2[a]).0) by {
        assert(q2[a] == q[a]);
        assert(expanded(g, v, q[a].0));
        let nb = g.nodes@[q[a].0 as int].neighbors@;
        assert forall|j: int| 0 <= j < nb.len() implies v2[#[trigger] nb[j] as int] by {
            assert(v[nb[j] as int]);
        }
    }
    assert forall|a: int|
        0 <= a < done && g.node_type(q2[a].0 as int) is Node && to.contains(q2[a].0) implies has_box(found, (#[trigger] q2[a]).0) by {
        assert(q2[a] == q[a]);
    }
}

/// Finding one more entry keeps what the search has covered.
proof fn lemma_cover_found(
    g: RoutingGraph,
    from: usize,
    to: Seq<usize>,
    v: Seq<bool>,
    q: Seq<(usize, Orientation)>,
    init: int,
    done: int,
    found: Seq<(usize, Vec<usize>)>,
    e: (usize, Vec<usize>),
)
    requires
        cover_inv(g, from, to, v, q, init, done, found),
    ensures
        cover_inv(g, from, to, v, q, init, done, found.push(e)),
        has_box(found.push(e), e.0),
{
    let f2 = found.push(e);
    assert(f2[found.len() as int].0 == e.0);
    assert forall|a: int|
        0 <= a < done && g.node_type(q[a].0 as int) is Node && to.contains(q[a].0) implies has_box(f2, (#[trigger] q[a]).0) by {
        let r = choose|r: int| 0 <= r < found.len() && (#[trigger] found[r]).0 == q[a].0;
        assert(f2[r] == found[r]);
    }
}

/// Handling the next queue entry: a port or bend point once all its
/// neighbours are visited, a target box once it is found.
proof fn lemma_cover_step(
    g: RoutingGraph,
    from: usize,
    to: Seq<usize>,
    v: Seq<bool>,
    q: Seq<(usize, Orientation)>,
    init: int,
    done: int,
    found: Seq<(usize, Vec<usize>)>,
)
    requires
        cover_inv(g, from, to, v, q, init, done, found),
        done < q.len(),
        !(g.node_type(q[done].0 as int) is Node) ==> expanded(g, v, q[done].0),
        g.node_type(q[done].0 as int) is Node && to.contains(q[done].0) ==> has_box(found, q[done].0),
    ensures
        cover_inv(g, from, to, v, q, init, done + 1, found),
{
}

/// Every node of a walk from `from` is queued once the search has handled
/// its whole queue.
proof fn lemma_walk_queued(
    g: RoutingGraph,
    from: usize,
    to: Seq<usize>,
    v: Seq<bool>,
    q: Seq<(usize, Orientation)>,
    init: int,
    found: Seq<(usize, Vec<usize>)>,
    t: usize,
    walk: Seq<usize>,
    i: int,
)
    requires
        search_graph(g, from),
        cover_inv(g, from, to, v, q, init, q.len() as int, found),
        v.len() == g.nodes@.len(),
        box_walk(g, from, t, walk),
        0 <= i < walk.len(),
    ensures
        queued(q, walk[i]),
        (walk[i] as int) < g.nodes@.len(),
        !(g.node_type(walk[i] as int) is Node),
    decreases i,
{
    let nbf = g.nodes@[from as int].neighbors@;
    if i == 0 {
        let j = choose|j: int| 0 <= j < nbf.len() && nbf[j] == walk[0];
        assert(q[j].0 == walk[0]);
    } else {
        lemma_walk_queued(g, from, to, v, q, init, found, t, walk, i - 1);
        let x = walk[i - 1];
        let a = choose|a: int| 0 <= a < q.len() && (#[trigger] q[a]).0 == x;
        assert(expanded(g, v, q[a].0));
        let nb = g.nodes@[x as int].neighbors@;
        assert(g.nodes@[walk[i - 1] as int].neighbors@.contains(walk[i - 1 + 1]));
        let j = choose|j: int| 0 <= j < nb.len() && nb[j] == walk[i];
        assert(v[nb[j] as int]);
        assert((walk[i] as int) < g.nodes@.len());
        assert(!(g.node_type(walk[i] as int) is Node));
        assert(walk[i] != from);
        assert(v[walk[i] as int]);
    }
}

/// Once the search has handled its whole queue, every target that some
/// walk from `from` reaches is found.
proof fn lemma_cover_complete(
    g: RoutingGraph,
    from: usize,
    to: Seq<usize>,
    v: Seq<bool>,
    q: Seq<(usize, Orientation)>,
    init: int,
    found: Seq<(usize, Vec<usize>)>,
    t: usize,
)
    requires
        search_graph(g, from),
        cover_inv(g, from, to, v, q, init, q.len() as int, found),
        v.len() == g.nodes@.len(),
        reaches(g, from, t),
        to.contains(t),
        t != from,
        (t as int) < g.nodes@.len(),
        g.node_type(t as int) is Node,
    ensures
        has_box(found, t),
{
    let walk = choose|walk: Seq<usize>| #[trigger] box_walk(g, from, t, walk);
    let m = walk.len() - 1;
    lemma_walk_queued(g, from, to, v, q, init, found, t, walk, m);
    let x = walk[m];
    let a = choose|a: int| 0 <= a < q.len() && (#[trigger] q[a]).0 == x;
    assert(expanded(g, v, q[a].0));
    let nb = g.nodes@[x as int].neighbors@;
    let j = choose|j: int| 0 <= j < nb.len() && nb[j] == t;
    assert(v[nb[j] as int]);
    assert(queued(q, t));
    let b = choose|b: int| 0 <= b < q.len() && (#[trigger] q[b]).0 == t;
    assert(has_box(found, q[b].0));
}

/// When as many distinct boxes are found as there are distinct targets,
/// every target is found.
proof fn lemma_all_found(to: Seq<usize>, found: Seq<(usize, Vec<usize>)>, t: usize)
    requires
        to.no_duplicates(),
        found.len() == to.len(),
        forall|r: int| 0 <= r < found.len() ==> to.contains((#[trigger] found[r]).0),
        forall|r1: int, r2: int| 0 <= r1 < r2 < found.len() ==> (#[trigger] found[r1]).0 != (#[trigger] found[r2]).0,
        to.contains(t),
    ensures
        has_box(found, t),
{
    let boxes = found_boxes(found);
    if !has_box(found, t) {
        assert(boxes.no_duplicates()) by {
            assert forall|x: int, y: int| 0 <= x < boxes.len() && 0 <= y < boxes.len() && x != y implies boxes[x] != boxes[y] by {
                if x < y {
                    assert(found[x].0 != found[y].0);
                } else {
                    assert(found[y].0 != found[x].0);
                }
            }
        }
        boxes.unique_seq_to_set();
        to.unique_seq_to_set();
        let rest = to.to_set().remove(t);
        assert(boxes.to_set().subset_of(rest)) by {
            assert forall|x: usize| boxes.to_set().contains(x) implies rest.contains(x) by {
                let i = choose|i: int| 0 <= i < boxes.len() && boxes[i] == x;
                assert(boxes[i] == found[i].0);
                assert(to.contains(found[i].0));
                if x == t {
                    assert(found[i].0 == t);
                }
            }
        }
        vstd::set_lib::lemma_len_subset(boxes.to_set(), rest);
        assert(to.to_set().contains(t));
    }
}

/// The boxes of the found entries.
pub open spec fn found_boxes(found: Seq<(usize, Vec<usize>)>) -> Seq<usize> {
    found.map_values(|e: (usize, Vec<usize>)| e.0)
}

/// Searches breadth first from the box `from` for routes to the boxes in
/// `to`. The search leaves `from` through its ports and, at each port or
/// bend point, first follows the neighbours on the same channel, turning
/// only where it cannot go straight on. Each box found comes with its
/// route cleaned to the elements where it changes channel; boxes come in
/// the order found, and the search ends once as many are found as `to`
/// lists.
#[verifier::rlimit(100)]
pub fn search_routes_from(routing_graph: &RoutingGraph, from: usize, to: &[usize]) -> (found: Vec<(usize, Vec<usize>)>)
    requires
        search_graph(*routing_graph, from),
    ensures
        found_routes(*routing_graph, from, to@, found@),
        found@.len() <= to@.len(),
        to@.no_duplicates() ==> forall|t: usize|
            to@.contains(t) && t != from && (t as int) < routing_graph.nodes@.len() && routing_graph.node_type(t as int) is Node
                && #[trigger] reaches(*routing_graph, from, t) ==> has_box(found@, t),
{
    let ghost g = *routing_graph;
    let n = routing_graph.nodes.len();
    let mut visited: Vec<bool> = Vec::new();
    let mut predecessor: Vec<usize> = Vec::new();
    let mut i: usize = 0;
    while i < n
        invariant
            i <= n,
            visited@.len() == i,
            predecessor@.len() == i,
            forall|k: int| 0 <= k < i ==> !(#[trigger] visited@[k]),
            forall|k: int| 0 <= k < i ==> #[trigger] predecessor@[k] == usize::MAX,
        decreases n - i,
    {
        visited.push(false);
        predecessor.push(usize::MAX);
        i += 1;
    }
    let ghost mut rank: Seq<nat> = Seq::new(n as nat, |k: int| 0nat);
    let mut queue: Vec<(usize, Orientation)> = Vec::new();
    visited.set(from, true);
    let neighbors = &routing_graph.nodes[from].neighbors;
    let mut j: usize = 0;
    while j < neighbors.len()
        invariant
            g == *routing_graph,
            search_graph(g, from),
            n == g.nodes@.len(),
            neighbors@ == g.nodes@[from as int].neighbors@,
            j <= neighbors@.len(),
            queue@.len() == j,
            forall|k: int| 0 <= k < j ==> (#[trigger] queue@[k]).0 == neighbors@[k],
            visited@.len() == n,
            predecessor@.len() == n,
            rank.len() == n,
            visited@[from as int],
            forall|y: int| 0 <= y < n && y != from ==> !(#[trigger] visited@[y]),
            forall|y: int| 0 <= y < n && #[trigger] predecessor@[y] != usize::MAX ==> predecessor@[y] == from
                && neighbors@.contains(y as usize),
            forall|k: int| 0 <= k < j ==> predecessor@[neighbors@[k] as int] == from,
        decreases neighbors@.len() - j,
    {
        let nb = neighbors[j];
        proof {
            assert(g.node_type(nb as int) is Port);
        }
        match routing_graph.nodes[nb].node_type {
            RNodeType::Port(_node_id, _channel_id, side) => {
                let orientation = side.orientation();
                predecessor.set(nb, from);
                proof {
                    rank = rank.update(nb as int, 1);
                }
                queue.push((nb, orientation));
            },
            _ => {},
        }
        proof {
            assert forall|y: int| 0 <= y < n && #[trigger] predecessor@[y] != usize::MAX implies predecessor@[y] == from
                && neighbors@.contains(y as usize) by {
                if y == nb {
                    assert(neighbors@[j as int] == nb);
                }
            }
        }
        j += 1;
    }
    let init = queue.len();
    proof {
        assert(search_inv(g, from, visited@, predecessor@, rank, queue@, init as int)) by {
            assert forall|a: int| 0 <= a < queue@.len() implies (#[trigger] queue@[a]).0 < n && queue@[a].0 != from
                && predecessor@[queue@[a].0 as int] != usize::MAX by {
                assert(g.node_type(neighbors@[a] as int) is Port);
                assert(g.node_type(from as int) is Node);
            }
            assert forall|y: int| 0 <= y < n && #[trigger] predecessor@[y] != usize::MAX implies pred_ok(
                g,
                from,
                visited@,
                predecessor@,
                rank,
                y,
            ) by {
                let w = choose|w: int| 0 <= w < neighbors@.len() && neighbors@[w] == y as usize;
                assert(g.node_type(neighbors@[w] as int) is Port);
            }
        }
    }
    let mut to_find = to.len();
    let mut found: Vec<(usize, Vec<usize>)> = Vec::new();
    let mut head: usize = 0;
    proof {
        assert(cover_inv(g, from, to@, visited@, queue@, init as int, 0, found@)) by {
            assert forall|y: int| 0 <= y < n && #[trigger] visited@[y] && y != from implies queued(queue@, y as usize) by {
            }
            assert forall|a: int| 0 <= a < queue@.len() implies ((#[trigger] queue@[a]).0 as int) < n by {
            }
        }
    }
    while head < queue.len()
        invariant
            cover_inv(g, from, to@, visited@, queue@, init as int, head as int, found@),
            g == *routing_graph,
            search_graph(g, from),
            n == g.nodes@.len(),
            search_inv(g, from, visited@, predecessor@, rank, queue@, init as int),
            head <= queue@.len(),
            forall|a: int| 0 <= a < head ==> visited@[(#[trigger] queue@[a]).0 as int],
            found_routes(g, from, to@, found@),
            forall|r: int| 0 <= r < found@.len() ==> exists|a: int| 0 <= a < head && (#[trigger] queue@[a]).0 == (#[trigger] found@[r]).0,
            forall|r: int| 0 <= r < found@.len() ==> g.node_type((#[trigger] found@[r]).0 as int) is Node,
            found@.len() <= to@.len(),
            to_find == to@.len() - found@.len(),
        ensures
            to_find == 0 || head >= queue@.len(),
        decreases n - count_marked(visited@), queue@.len() - head,
    {
        let ghost v0 = visited@;
        let ghost q0 = queue@;
        let ghost head0 = head;
        let (node_idx, orientation) = queue[head];
        head += 1;
        proof {
            lemma_visit_keeps(g, from, visited@, predecessor@, rank, queue@, init as int, node_idx as int);
            lemma_count_marked_update(visited@, node_idx as int);
            lemma_count_marked_bound(visited@.update(node_idx as int, true));
            assert(queue@[head0 as int].0 == node_idx);
            lemma_cover_visit(g, from, to@, visited@, queue@, init as int, head0 as int, found@, node_idx);
        }
        visited.set(node_idx, true);
        let node = &routing_graph.nodes[node_idx];
        match node.node_type {
            RNodeType::Node(node_index) if node_index != from => {
                if contains_box(to, node_index) {
                    proof {
                        assert(node_index == node_idx);
                        assert(predecessor@[node_idx as int] != usize::MAX);
                        assert(pred_ok(g, from, visited@, predecessor@, rank, node_idx as int));
                    }
                    let route = walk_back(routing_graph, from, node_idx, &predecessor, Ghost(visited@), Ghost(rank), Ghost(queue@), Ghost(init as int));
                    let ghost walk = route@;
                    let mut route = route;
                    remove_no_bend_edges(&mut route, routing_graph);
                    let ghost cleaned = route@;
                    let ghost found0 = found@;
                    proof {
                        // The box is new: an earlier found box sits earlier in the queue.
                        assert forall|r: int| 0 <= r < found0.len() implies (#[trigger] found0[r]).0 != node_index by {
                            let a = choose|a: int| 0 <= a < head0 && (#[trigger] queue@[a]).0 == found0[r].0;
                            if found0[r].0 == node_index {
                                if a < init {
                                    assert(g.node_type(queue@[a].0 as int) is Port);
                                } else {
                                    assert(queue@[a].0 != queue@[head0 as int].0);
                                }
                            }
                        }
                        let boxes = found_boxes(found0).push(node_index);
                        assert forall|x: int, y: int| 0 <= x < y < boxes.len() implies boxes[x] != boxes[y] by {
                            if y == found0.len() {
                                assert(boxes[x] == found0[x].0);
                            } else {
                                assert(boxes[x] == found0[x].0 && boxes[y] == found0[y].0);
                            }
                        }
                        assert forall|x: int| 0 <= x < boxes.len() implies to@.contains(#[trigger] boxes[x]) by {
                            if x < found0.len() {
                                assert(boxes[x] == found0[x].0);
                            }
                        }
                        lemma_distinct_within_len(boxes, to@);
                    }
                    found.push((node_index, route));
                    proof {
                        assert(route_to_box(g, from, found@[found@.len() - 1])) by {
                            let entry = found@[found@.len() - 1];
                            assert(entry.0 == node_index);
                            assert(entry.1@ == cleaned);
                            assert(cleaned == cleaned_route(g, walk));
                            assert(box_walk(g, from, entry.0, walk));
                        }
                        assert forall|r: int| 0 <= r < found@.len() implies #[trigger] route_to_box(g, from, found@[r]) by {
                            if r < found0.len() {
                                assert(found@[r] == found0[r]);
                            }
                        }
                        assert forall|r1: int, r2: int| 0 <= r1 < r2 < found@.len() implies (#[trigger] found@[r1]).0
                            != (#[trigger] found@[r2]).0 by {
                            if r2 < found0.len() {
                                assert(found@[r1] == found0[r1] && found@[r2] == found0[r2]);
                            } else {
                                assert(found@[r1] == found0[r1]);
                            }
                        }
                        assert forall|r: int| 0 <= r < found@.len() implies exists|a: int| 0 <= a < head && (#[trigger] queue@[a]).0
                            == (#[trigger] found@[r]).0 by {
                            if r < found0.len() {
                                assert(found@[r] == found0[r]);
                                let a = choose|a: int| 0 <= a < head0 && (#[trigger] queue@[a]).0 == found0[r].0;
                            } else {
                                assert(queue@[head0 as int].0 == found@[r].0);
                            }
                        }
                        assert forall|r: int| 0 <= r < found@.len() implies g.node_type((#[trigger] found@[r]).0 as int) is Node by {
                            if r < found0.len() {
                                assert(found@[r] == found0[r]);
                            }
                        }
                    }
                    proof {
                        let e = found@[found@.len() - 1];
                        assert(found@ =~= found0.push(e));
                        lemma_cover_found(g, from, to@, visited@, queue@, init as int, head0 as int, found0, e);
                        lemma_cover_step(g, from, to@, visited@, queue@, init as int, head0 as int, found@);
                    }
                    to_find -= 1;
                    if to_find == 0 {
                        break;
                    }
                } else {
                    proof {
                        lemma_cover_step(g, from, to@, visited@, queue@, init as int, head0 as int, found@);
                    }
                }
            },
            _ => {
                proof {
                    assert(!(g.node_type(node_idx as int) is Node)) by {
                        if g.node_type(node_idx as int) is Node {
                            assert(g.node_type(node_idx as int) matches RNodeType::Node(k) ==> k == node_idx);
                        }
                    }
                }
                let current_channel_orientation = node.node_type.get_channel_id(orientation);
                let mut was_skip = false;
                let mut k: usize = 0;
                while k < node.neighbors.len()
                    invariant
                        g == *routing_graph,
                        search_graph(g, from),
                        n == g.nodes@.len(),
                        node == &g.nodes@[node_idx as int],
                        (node_idx as int) < n,
                        node_idx != from,
                        visited@[node_idx as int],
                        predecessor@[node_idx as int] != usize::MAX,
                        !(g.node_type(node_idx as int) is Node),
                        search_inv(g, from, visited@, predecessor@, rank, queue@, init as int),
                        k <= node.neighbors@.len(),
                        head <= queue@.len(),
                        forall|a: int| 0 <= a < head ==> visited@[(#[trigger] queue@[a]).0 as int],
                        head <= q0.len(),
                        forall|a: int| 0 <= a < head ==> (#[trigger] queue@[a]) == q0[a],
                        count_marked(visited@) <= n,
                        count_marked(visited@) >= count_marked(v0),
                        queue@.len() > q0.len() ==> count_marked(visited@) > count_marked(v0),
                        queue@.len() >= q0.len(),
                        head0 < head,
                        cover_inv(g, from, to@, visited@, queue@, init as int, head0 as int, found@),
                        !was_skip ==> forall|kk: int| 0 <= kk < k ==> visited@[(#[trigger] node.neighbors@[kk]) as int],
                    decreases node.neighbors@.len() - k,
                {
                    let target = node.neighbors[k];
                    if !visited[target] {
                        let target_node = &routing_graph.nodes[target];
                        let visit_first = match target_node.node_type {
                            RNodeType::BendPoint(_, _) | RNodeType::Port(_, _, _) => {
                                let new_channel_orientation = target_node.node_type.get_channel_id(orientation);
                                current_channel_orientation.channel_idx == new_channel_orientation.channel_idx
                            },
                            _ => true,
                        };
                        if visit_first {
                            proof {
                                assert(node.neighbors@.contains(target)) by {
                                    assert(node.neighbors@[k as int] == target);
                                }
                                lemma_push_keeps(g, from, visited@, predecessor@, rank, queue@, init as int, node_idx, target, orientation);
                                lemma_cover_push(g, from, to@, visited@, queue@, init as int, head0 as int, found@, target, orientation);
                                lemma_count_marked_update(visited@, target as int);
                                lemma_count_marked_bound(visited@.update(target as int, true));
                                rank = rank.update(target as int, rank[node_idx as int] + 1);
                            }
                            visited.set(target, true);
                            predecessor.set(target, node_idx);
                            queue.push((target, orientation));
                        } else {
                            was_skip = true;
                        }
                    }
                    k += 1;
                }
                if was_skip {
                    let orientation = orientation.opposite();
                    let mut k: usize = 0;
                    while k < node.neighbors.len()
                        invariant
                            g == *routing_graph,
                            search_graph(g, from),
                            n == g.nodes@.len(),
                            node == &g.nodes@[node_idx as int],
                            (node_idx as int) < n,
                            node_idx != from,
                            visited@[node_idx as int],
                            predecessor@[node_idx as int] != usize::MAX,
                            !(g.node_type(node_idx as int) is Node),
                            search_inv(g, from, visited@, predecessor@, rank, queue@, init as int),
                            k <= node.neighbors@.len(),
                            head <= queue@.len(),
                            forall|a: int| 0 <= a < head ==> visited@[(#[trigger] queue@[a]).0 as int],
                            head <= q0.len(),
                        forall|a: int| 0 <= a < head ==> (#[trigger] queue@[a]) == q0[a],
                            count_marked(visited@) <= n,
                            count_marked(visited@) >= count_marked(v0),
                            queue@.len() > q0.len() ==> count_marked(visited@) > count_marked(v0),
                            queue@.len() >= q0.len(),
                            head0 < head,
                            cover_inv(g, from, to@, visited@, queue@, init as int, head0 as int, found@),
                            forall|kk: int| 0 <= kk < k ==> visited@[(#[trigger] node.neighbors@[kk]) as int],
                        decreases node.neighbors@.len() - k,
                    {
                        let target = node.neighbors[k];
                        if !visited[target] {
                            proof {
                                assert(node.neighbors@.contains(target)) by {
                                    assert(node.neighbors@[k as int] == target);
                                }
                                lemma_push_keeps(g, from, visited@, predecessor@, rank, queue@, init as int, node_idx, target, orientation);
                                lemma_cover_push(g, from, to@, visited@, queue@, init as int, head0 as int, found@, target, orientation);
                                lemma_count_marked_update(visited@, target as int);
                                lemma_count_marked_bound(visited@.update(target as int, true));
                                rank = rank.update(target as int, rank[node_idx as int] + 1);
                            }
                            visited.set(target, true);
                            predecessor.set(target, node_idx);
                            queue.push((target, orientation));
                        }
                        k += 1;
                    }
                }
                proof {
                    assert forall|r: int| 0 <= r < found@.len() implies exists|a: int| 0 <= a < head && (#[trigger] queue@[a]).0
                        == (#[trigger] found@[r]).0 by {
                        let a = choose|a: int| 0 <= a < head0 && (#[trigger] q0[a]).0 == found@[r].0;
                        assert(queue@[a] == q0[a]);
                    }
                    assert(expanded(g, visited@, node_idx));
                    assert(queue@[head0 as int] == q0[head0 as int]);
                    lemma_cover_step(g, from, to@, visited@, queue@, init as int, head0 as int, found@);
                }
            },
        }
    }
    proof {
        assert forall|t: usize|
            to@.no_duplicates() && to@.contains(t) && t != from && (t as int) < n && g.node_type(t as int) is Node
                && #[trigger] reaches(g, from, t) implies has_box(found@, t) by {
            if to_find == 0 {
                lemma_all_found(to@, found@, t);
            } else {
                lemma_cover_complete(g, from, to@, visited@, queue@, init as int, found@, t);
            }
        }
    }
    found
}

/// Whether the list holds the box.
fn contains_box(to: &[usize], x: usize) -> (res: bool)
    ensures
        res == to@.contains(x),
{
    let mut i: usize = 0;
    while i < to.len()
        invariant
            i <= to@.len(),
            forall|j: int| 0 <= j < i ==> to@[j] != x,
        decreases to@.len() - i,
    {
        if to[i] == x {
            return true;
        }
        i += 1;
    }
    false
}

/// The walk that the predecessors lead back from the box at `target` to
/// the box `from`, in forward order.
fn walk_back(
    routing_graph: &RoutingGraph,
    from: usize,
    target: usize,
    predecessor: &Vec<usize>,
    Ghost(v): Ghost<Seq<bool>>,
    Ghost(rank): Ghost<Seq<nat>>,
    Ghost(q): Ghost<Seq<(usize, Orientation)>>,
    Ghost(init): Ghost<int>,
) -> (walk: Vec<usize>)
    requires
        search_graph(*routing_graph, from),
        search_inv(*routing_graph, from, v, predecessor@, rank, q, init),
        (target as int) < routing_graph.nodes@.len(),
        routing_graph.node_type(target as int) is Node,
        predecessor@[target as int] != usize::MAX,
    ensures
        box_walk(*routing_graph, from, target, walk@),
{
    let ghost g = *routing_graph;
    let ghost p = predecessor@;
    let ghost n = g.nodes@.len();
    proof {
        assert(pred_ok(g, from, v, p, rank, target as int));
    }
    let mut chain: Vec<usize> = Vec::new();
    let mut current = target;
    loop
        invariant
            g == *routing_graph,
            p == predecessor@,
            n == g.nodes@.len(),
            search_inv(g, from, v, p, rank, q, init),
            (current as int) < n,
            p[current as int] != usize::MAX,
            p[target as int] != from,
            chain@.len() == 0 ==> current == target,
            chain@.len() > 0 ==> current == chain@.last(),
            chain@.len() > 0 ==> g.nodes@[chain@[0] as int].neighbors@.contains(target),
            forall|k: int| 0 <= k < chain@.len() ==> (#[trigger] chain@[k] as int) < n && !(g.node_type(chain@[k] as int) is Node),
            forall|k: int| 0 <= k < chain@.len() - 1 ==> g.nodes@[#[trigger] chain@[k + 1] as int].neighbors@.contains(chain@[k]),
        ensures
            chain@.len() > 0,
            g.nodes@[from as int].neighbors@.contains(chain@.last()),
            g.node_type(chain@.last() as int) is Port,
            g.nodes@[chain@[0] as int].neighbors@.contains(target),
            forall|k: int| 0 <= k < chain@.len() ==> (#[trigger] chain@[k] as int) < n && !(g.node_type(chain@[k] as int) is Node),
            forall|k: int| 0 <= k < chain@.len() - 1 ==> g.nodes@[#[trigger] chain@[k + 1] as int].neighbors@.contains(chain@[k]),
        decreases rank[current as int],
    {
        assert(pred_ok(g, from, v, p, rank, current as int));
        if current >= predecessor.len() {
            break;
        }
        let prev = predecessor[current];
        if prev == from {
            break;
        }
        let ghost before = chain@;
        current = prev;
        chain.push(current);
        proof {
            if before.len() > 0 {
                assert(chain@[0] == before[0]);
            }
            assert forall|k: int| 0 <= k < chain@.len() - 1 implies g.nodes@[#[trigger] chain@[k + 1] as int].neighbors@.contains(
                chain@[k],
            ) by {
                if k + 1 < before.len() {
                    assert(chain@[k] == before[k] && chain@[k + 1] == before[k + 1]);
                } else {
                    assert(chain@[k] == before.last());
                }
            }
        }
    }
    // Forward order: from the port next to `from` to the port next to the box.
    let m = chain.len();
    let mut walk: Vec<usize> = Vec::new();
    let mut k: usize = m;
    while k > 0
        invariant
            k <= m == chain@.len(),
            walk@.len() == m - k,
            forall|i: int| 0 <= i < m - k ==> walk@[i] == chain@[m - 1 - i],
        decreases k,
    {
        k -= 1;
        walk.push(chain[k]);
    }
    proof {
        assert(walk@[0] == chain@.last());
        assert(walk@.last() == chain@[0]);
        assert forall|i: int| 0 <= i < walk@.len() - 1 implies g.nodes@[#[trigger] walk@[i] as int].neighbors@.contains(walk@[i + 1]) by {
            let c = m - 2 - i;
            assert(walk@[i] == chain@[c + 1]);
            assert(walk@[i + 1] == chain@[c]);
        }
        assert forall|i: int| 0 <= i < walk@.len() implies (#[trigger] walk@[i] as int) < n by {
            assert(walk@[i] == chain@[m - 1 - i]);
        }
        assert forall|i: int| 1 <= i < walk@.len() implies !(g.node_type(#[trigger] walk@[i] as int) is Node) by {
            assert(walk@[i] == chain@[m - 1 - i]);
        }
    }
    walk
}

// ---------------------------------------------------------------------------
// The node pairs to route.

/// An edge with its smaller node first.
pub open spec fn normalized(e: (usize, usize)) -> (usize, usize) {
    if e.0 < e.1 {
        e
    } else {
        (e.1, e.0)
    }
}

/// Some edge between two different nodes joins the pair (smaller node
/// first).
pub open spec fn is_route_pair(edges: Seq<(usize, usize)>, p: (usize, usize)) -> bool {
    exists|i: int| 0 <= i < edges.len() && edges[i].0 != edges[i].1 && #[trigger] normalized(edges[i]) == p
}

/// `(a0, a1)` comes no later than `(b0, b1)`.
pub open spec fn pair_le(a: (usize, usize), b: (usize, usize)) -> bool {
    a.0 < b.0 || (a.0 == b.0 && a.1 <= b.1)
}

/// Sorts pairs lexicographically.
fn sort_pairs(v: &mut Vec<(usize, usize)>)
    ensures
        final(v)@.to_multiset() == old(v)@.to_multiset(),
        final(v)@.len() == old(v)@.len(),
        forall|i: int, j: int| 0 <= i < j < final(v)@.len() ==> pair_le(#[trigger] final(v)@[i], #[trigger] final(v)@[j]),
{
    let n = v.len();
    if n == 0 {
        return;
    }
    let mut i: usize = 1;
    while i < n
        invariant
            1 <= i <= n,
            n == v@.len(),
            v@.to_multiset() == old(v)@.to_multiset(),
            forall|a: int, b: int| 0 <= a < b < i ==> pair_le(#[trigger] v@[a], #[trigger] v@[b]),
        decreases n - i,
    {
        let mut j: usize = i;
        while j > 0 && (v[j - 1].0 > v[j].0 || (v[j - 1].0 == v[j].0 && v[j - 1].1 > v[j].1))
            invariant
                0 <= j <= i < n,
                n == v@.len(),
                v@.to_multiset() == old(v)@.to_multiset(),
                forall|a: int, b: int| 0 <= a < b <= i && a != j && b != j ==> pair_le(#[trigger] v@[a], #[trigger] v@[b]),
                forall|b: int| j < b <= i ==> pair_lt(v@[j as int].0, v@[j as int].1, (#[trigger] v@[b]).0, v@[b].1),
                0 < j < i ==> pair_le(v@[j - 1], v@[j + 1]),
            decreases j,
        {
            let ghost before = v@;
            let a = v[j - 1];
            let b = v[j];
            v.set(j - 1, b);
            v.set(j, a);
            proof {
                assert(v@ =~= before.update(j - 1, b).update(j as int, a));
                lemma_swap_pairs_multiset(before, j - 1, j as int);
            }
            j -= 1;
        }
        i += 1;
    }
}

proof fn lemma_swap_pairs_multiset(s: Seq<(usize, usize)>, i: int, j: int)
    requires
        0 <= i < s.len(),
        0 <= j < s.len(),
    ensures
        s.update(i, s[j]).update(j, s[i]).to_multiset() == s.to_multiset(),
{
    let t = s.update(i, s[j]);
    vstd::seq_lib::to_multiset_update(s, i, s[j]);
    vstd::seq_lib::to_multiset_update(t, j, s[i]);
    if i != j {
        assert(t[j] == s[j]);
        assert(s.to_multiset().count(s[i]) > 0) by {
            s.to_multiset_ensures();
            assert(s.contains(s[i]));
        }
        assert(s.to_multiset().insert(s[j]).remove(s[i]).insert(s[i]).remove(s[j]) =~= s.to_multiset());
    } else {
        assert(s.update(i, s[j]).update(j, s[i]) =~= s);
    }
}

/// The node pairs to route: each edge between two different nodes, smaller
/// node first, each pair once, in ascending order.
pub fn route_pairs(edges: &Vec<(usize, usize)>) -> (pairs: Vec<(usize, usize)>)
    ensures
        forall|i: int, j: int| 0 <= i < j < pairs@.len() ==> pair_lt(
            (#[trigger] pairs@[i]).0,
            pairs@[i].1,
            (#[trigger] pairs@[j]).0,
            pairs@[j].1,
        ),
        forall|i: int| 0 <= i < pairs@.len() ==> (#[trigger] pairs@[i]).0 < pairs@[i].1,
        forall|p: (usize, usize)| pairs@.contains(p) <==> is_route_pair(edges@, p),
{
    let mut v: Vec<(usize, usize)> = Vec::new();
    let mut i: usize = 0;
    while i < edges.len()
        invariant
            i <= edges@.len(),
            forall|k: int| 0 <= k < v@.len() ==> (#[trigger] v@[k]).0 < v@[k].1,
            forall|p: (usize, usize)|
                v@.contains(p) <==> exists|k: int| 0 <= k < i && edges@[k].0 != edges@[k].1 && #[trigger] normalized(edges@[k]) == p,
        decreases edges@.len() - i,
    {
        let (a, b) = edges[i];
        let ghost before = v@;
        if a != b {
            let p = if a < b {
                (a, b)
            } else {
                (b, a)
            };
            v.push(p);
            proof {
                assert(normalized(edges@[i as int]) == p);
                assert forall|q: (usize, usize)| v@.contains(q) <==> exists|k: int|
                    0 <= k < i + 1 && edges@[k].0 != edges@[k].1 && #[trigger] normalized(edges@[k]) == q by {
                    if before.contains(q) {
                        let w = choose|w: int| 0 <= w < before.len() && before[w] == q;
                        assert(v@[w] == q);
                    }
                    if v@.contains(q) && q != p {
                        let w = choose|w: int| 0 <= w < v@.len() && v@[w] == q;
                        assert(before[w] == q);
                    }
                    if q == p {
                        assert(v@[before.len() as int] == q);
                    }
                }
            }
        }
        i += 1;
    }
    let ghost unsorted = v@;
    proof {
        assert forall|p: (usize, usize)| unsorted.contains(p) <==> is_route_pair(edges@, p) by {
            if is_route_pair(edges@, p) {
                let k = choose|k: int| 0 <= k < edges@.len() && edges@[k].0 != edges@[k].1 && #[trigger] normalized(edges@[k]) == p;
                assert(exists|k: int| 0 <= k < i && edges@[k].0 != edges@[k].1 && #[trigger] normalized(edges@[k]) == p);
            }
        }
    }
    sort_pairs(&mut v);
    proof {
        unsorted.to_multiset_ensures();
        v@.to_multiset_ensures();
        assert forall|p: (usize, usize)| v@.contains(p) <==> unsorted.contains(p) by {
            assert(v@.to_multiset().count(p) == unsorted.to_multiset().count(p));
        }
        assert forall|p: (usize, usize)| v@.contains(p) <==> is_route_pair(edges@, p) by {
            assert(v@.contains(p) <==> unsorted.contains(p));
        }
        assert forall|a: int| 0 <= a < v@.len() implies (#[trigger] v@[a]).0 < v@[a].1 by {
            assert(v@.contains(v@[a]));
            assert(unsorted.contains(v@[a]));
            let w = choose|w: int| 0 <= w < unsorted.len() && unsorted[w] == v@[a];
        }
    }
    let mut pairs: Vec<(usize, usize)> = Vec::new();
    let mut k: usize = 0;
    while k < v.len()
        invariant
            k <= v@.len(),
            forall|a: int, b: int| 0 <= a < b < v@.len() ==> pair_le(#[trigger] v@[a], #[trigger] v@[b]),
            forall|a: int| 0 <= a < v@.len() ==> (#[trigger] v@[a]).0 < v@[a].1,
            forall|a: int, b: int| 0 <= a < b < pairs@.len() ==> pair_lt(
                (#[trigger] pairs@[a]).0,
                pairs@[a].1,
                (#[trigger] pairs@[b]).0,
                pairs@[b].1,
            ),
            pairs@.len() > 0 ==> k > 0 && pairs@.last() == v@[k - 1],
            forall|p: (usize, usize)| v@.contains(p) <==> is_route_pair(edges@, p),
            forall|p: (usize, usize)| pairs@.contains(p) <==> exists|a: int| 0 <= a < k && #[trigger] v@[a] == p,
        decreases v@.len() - k,
    {
        let ghost before = pairs@;
        let x = v[k];
        let n = pairs.len();
        if n == 0 || pairs[n - 1].0 != x.0 || pairs[n - 1].1 != x.1 {
            pairs.push(x);
            proof {
                assert forall|a: int, b: int| 0 <= a < b < pairs@.len() implies pair_lt(
                    (#[trigger] pairs@[a]).0,
                    pairs@[a].1,
                    (#[trigger] pairs@[b]).0,
                    pairs@[b].1,
                ) by {
                    if b == before.len() {
                        let last = before.last();
                        assert(pair_le(v@[k - 1], x));
                        if a < before.len() - 1 {
                            assert(pair_lt(before[a].0, before[a].1, last.0, last.1));
                        }
                    }
                }
                assert forall|p: (usize, usize)| pairs@.contains(p) <==> exists|a: int| 0 <= a < k + 1 && #[trigger] v@[a] == p by {
                    if before.contains(p) {
                        let w = choose|w: int| 0 <= w < before.len() && before[w] == p;
                        assert(pairs@[w] == p);
                    }
                    if pairs@.contains(p) && p != x {
                        let w = choose|w: int| 0 <= w < pairs@.len() && pairs@[w] == p;
                        assert(before[w] == p);
                    }
                    if p == x {
                        assert(pairs@[before.len() as int] == p);
                    }
                }
            }
        } else {
            proof {
                assert forall|p: (usize, usize)| pairs@.contains(p) <==> exists|a: int| 0 <= a < k + 1 && #[trigger] v@[a] == p by {
                    if p == x {
                        assert(pairs@[n - 1] == p);
                    }
                }
            }
        }
        k += 1;
    }
    proof {
        assert forall|a: int| 0 <= a < pairs@.len() implies (#[trigger] pairs@[a]).0 < pairs@[a].1 by {
            assert(pairs@.contains(pairs@[a]));
        }
        assert forall|p: (usize, usize)| pairs@.contains(p) <==> is_route_pair(edges@, p) by {
            if pairs@.contains(p) {
                let a = choose|a: int| 0 <= a < k && #[trigger] v@[a] == p;
                assert(v@.contains(p));
                assert(unsorted.contains(p));
                assert(is_route_pair(edges@, p));
            }
            if is_route_pair(edges@, p) {
                assert(unsorted.contains(p));
                assert(v@.contains(p));
                let a = choose|a: int| 0 <= a < v@.len() && v@[a] == p;
                assert(exists|b: int| 0 <= b < v@.len() && #[trigger] v@[b] == p);
            }
        }
    }
    pairs
}


/// What the search needs to route the node pair `p`: the box `p.0`
/// touches only ports, `p.1` is a box of the graph, and some walk over
/// ports and bend points leads from one to the other.
pub open spec fn routable(g: RoutingGraph, p: (usize, usize)) -> bool {
    &&& search_graph(g, p.0)
    &&& (p.1 as int) < g.nodes@.len()
    &&& g.node_type(p.1 as int) is Node
    &&& reaches(g, p.0, p.1)
}

/// The position of the entry for the box `t`.
fn find_box(found: &Vec<(usize, Vec<usize>)>, t: usize) -> (idx: usize)
    requires
        has_box(found@, t),
    ensures
        idx < found@.len(),
        found@[idx as int].0 == t,
{
    let mut i: usize = 0;
    while i < found.len()
        invariant
            i <= found@.len(),
            has_box(found@, t),
            forall|r: int| 0 <= r < i ==> (#[trigger] found@[r]).0 != t,
        decreases found@.len() - i,
    {
        if found[i].0 == t {
            return i;
        }
        i += 1;
    }
    proof {
        let r = choose|r: int| 0 <= r < found@.len() && (#[trigger] found@[r]).0 == t;
        assert(found@[r].0 != t);
    }
    0
}

/// Routes for the node pairs of the edges, without bend directions: one
/// per pair of different nodes joined by an edge, smaller node first,
/// sorted by the pair. Each route runs from a port of the first box over
/// ports and bend points to the second box, reduced to the elements where
/// it changes channel.
pub fn route_edges(routing_graph: &RoutingGraph, edges: &Vec<(usize, usize)>) -> (routes: Vec<(usize, usize, Vec<usize>)>)
    requires
        forall|p: (usize, usize)| #[trigger] is_route_pair(edges@, p) ==> routable(*routing_graph, p),
    ensures
        forall|i: int, j: int|
            0 <= i < j < routes@.len() ==> pair_lt(
                (#[trigger] routes@[i]).0,
                routes@[i].1,
                (#[trigger] routes@[j]).0,
                routes@[j].1,
            ),
        forall|p: (usize, usize)|
            is_route_pair(edges@, p) <==> exists|i: int| 0 <= i < routes@.len() && (#[trigger] routes@[i]).0 == p.0 && routes@[i].1 == p.1,
        forall|i: int|
            0 <= i < routes@.len() ==> route_to_box(*routing_graph, (#[trigger] routes@[i]).0, (routes@[i].1, routes@[i].2)),
{
    let ghost g = *routing_graph;
    let pairs = route_pairs(edges);
    let mut routes: Vec<(usize, usize, Vec<usize>)> = Vec::new();
    let mut i: usize = 0;
    while i < pairs.len()
        invariant
            g == *routing_graph,
            forall|p: (usize, usize)| #[trigger] is_route_pair(edges@, p) ==> routable(g, p),
            forall|a: int, b: int| 0 <= a < b < pairs@.len() ==> pair_lt(
                (#[trigger] pairs@[a]).0,
                pairs@[a].1,
                (#[trigger] pairs@[b]).0,
                pairs@[b].1,
            ),
            forall|a: int| 0 <= a < pairs@.len() ==> (#[trigger] pairs@[a]).0 < pairs@[a].1,
            forall|p: (usize, usize)| pairs@.contains(p) <==> is_route_pair(edges@, p),
            i <= pairs@.len(),
            routes@.len() == i,
            forall|k: int| 0 <= k < i ==> (#[trigger] routes@[k]).0 == pairs@[k].0 && routes@[k].1 == pairs@[k].1,
            forall|k: int| 0 <= k < i ==> route_to_box(g, (#[trigger] routes@[k]).0, (routes@[k].1, routes@[k].2)),
        decreases pairs@.len() - i,
    {
        let from = pairs[i].0;
        let mut targets: Vec<usize> = Vec::new();
        let mut j: usize = i;
        while j < pairs.len() && pairs[j].0 == from
            invariant
                i < pairs@.len(),
                from == pairs@[i as int].0,
                i <= j <= pairs@.len(),
                targets@.len() == j - i,
                forall|k: int| 0 <= k < j - i ==> targets@[k] == pairs@[i + k].1,
                forall|k: int| i <= k < j ==> (#[trigger] pairs@[k]).0 == from,
            decreases pairs@.len() - j,
        {
            targets.push(pairs[j].1);
            j += 1;
        }
        proof {
            assert(j > i) by {
                assert(pairs@[i as int].0 == from);
            }
            assert(pairs@.contains(pairs@[i as int]));
            assert(routable(g, pairs@[i as int]));
            assert(targets@.no_duplicates()) by {
                assert forall|x: int, y: int| 0 <= x < targets@.len() && 0 <= y < targets@.len() && x != y implies targets@[x]
                    != targets@[y] by {
                    assert(pairs@[i + x].0 == from && pairs@[i + y].0 == from);
                    if x < y {
                        assert(pair_lt(pairs@[i + x].0, pairs@[i + x].1, pairs@[i + y].0, pairs@[i + y].1));
                    } else {
                        assert(pair_lt(pairs@[i + y].0, pairs@[i + y].1, pairs@[i + x].0, pairs@[i + x].1));
                    }
                }
            }
        }
        let found = search_routes_from(routing_graph, from, &targets);
        let mut k: usize = 0;
        while k < targets.len()
            invariant
                g == *routing_graph,
                forall|p: (usize, usize)| #[trigger] is_route_pair(edges@, p) ==> routable(g, p),
                forall|a: int| 0 <= a < pairs@.len() ==> (#[trigger] pairs@[a]).0 < pairs@[a].1,
                forall|p: (usize, usize)| pairs@.contains(p) <==> is_route_pair(edges@, p),
                i < j <= pairs@.len(),
                targets@.len() == j - i,
                forall|kk: int| 0 <= kk < j - i ==> targets@[kk] == pairs@[i + kk].1,
                forall|kk: int| i <= kk < j ==> (#[trigger] pairs@[kk]).0 == from,
                targets@.no_duplicates(),
                found_routes(g, from, targets@, found@),
                forall|t: usize|
                    targets@.contains(t) && t != from && (t as int) < g.nodes@.len() && g.node_type(t as int) is Node
                        && #[trigger] reaches(g, from, t) ==> has_box(found@, t),
                k <= targets@.len(),
                routes@.len() == i + k,
                forall|kk: int| 0 <= kk < i + k ==> (#[trigger] routes@[kk]).0 == pairs@[kk].0 && routes@[kk].1 == pairs@[kk].1,
                forall|kk: int| 0 <= kk < i + k ==> route_to_box(g, (#[trigger] routes@[kk]).0, (routes@[kk].1, routes@[kk].2)),
            decreases targets@.len() - k,
        {
            let t = targets[k];
            let ghost pr = pairs@[i + k];
            proof {
                assert(pr.0 == from && pr.1 == t);
                assert(pairs@.contains(pr));
                assert(routable(g, pr));
                assert(targets@.contains(t)) by {
                    assert(targets@[k as int] == t);
                }
                assert(reaches(g, from, t));
            }
            let idx = find_box(&found, t);
            let route = found[idx].1.clone();
            let ghost before = routes@;
            proof {
                assert(route@ =~= found@[idx as int].1@);
                assert(route_to_box(g, from, found@[idx as int]));
                let walk = choose|walk: Seq<usize>| #[trigger] box_walk(g, from, found@[idx as int].0, walk)
                    && found@[idx as int].1@ == cleaned_route(g, walk);
                assert(box_walk(g, from, (t, route).0, walk));
            }
            routes.push((from, t, route));
            proof {
                assert forall|kk: int| 0 <= kk < i + k + 1 implies route_to_box(g, (#[trigger] routes@[kk]).0, (routes@[kk].1, routes@[kk].2)) by {
                    if kk < i + k {
                        assert(routes@[kk] == before[kk]);
                    }
                }
                assert forall|kk: int| 0 <= kk < i + k + 1 implies (#[trigger] routes@[kk]).0 == pairs@[kk].0 && routes@[kk].1 == pairs@[kk].1 by {
                    if kk < i + k {
                        assert(routes@[kk] == before[kk]);
                    }
                }
            }
            k += 1;
        }
        i = j;
    }
    proof {
        assert forall|p: (usize, usize)| is_route_pair(edges@, p) implies exists|a: int| 0 <= a < routes@.len() && (#[trigger] routes@[a]).0 == p.0 && routes@[a].1 == p.1 by {
            assert(pairs@.contains(p));
            let a = choose|a: int| 0 <= a < pairs@.len() && pairs@[a] == p;
            assert(routes@[a].0 == p.0);
        }
        assert forall|p: (usize, usize)| (exists|a: int| 0 <= a < routes@.len() && (#[trigger] routes@[a]).0 == p.0 && routes@[a].1 == p.1) implies is_route_pair(edges@, p) by {
            let a = choose|a: int| 0 <= a < routes@.len() && (#[trigger] routes@[a]).0 == p.0 && routes@[a].1 == p.1;
            assert(pairs@[a] == p);
            assert(pairs@.contains(p));
        }
        assert forall|a: int, b: int| 0 <= a < b < routes@.len() implies pair_lt(
                (#[trigger] routes@[a]).0,
                routes@[a].1,
                (#[trigger] routes@[b]).0,
                routes@[b].1,
            ) by {
            assert(pair_lt(pairs@[a].0, pairs@[a].1, pairs@[b].0, pairs@[b].1));
        }
    }
    routes
}

} // verus!
