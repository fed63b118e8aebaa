//! Circular layout support: connected components of the node graph.

use rand::rngs::ThreadRng;
use rand::seq::SliceRandom;
use rand::RngExt;
use std::collections::{HashMap, HashSet};
use vstd::prelude::*;

use crate::layoutalg::depth_first::{dfs_preorder, dfs_preorder_of, lemma_dfs_preorder_searches};

verus! {

broadcast use vstd::std_specs::hash::group_hash_axioms;

/// An edge between two nodes of the layout.
#[derive(Debug, Clone, Copy, PartialEq, Eq, Structural)]
pub struct GEdge {
    pub from: usize,
    pub to: usize,
}

// ---------------------------------------------------------------------------
// Graph vocabulary over node positions.

/// The position of each node id among the first `k` nodes: the last one
/// where it occurs.
pub open spec fn node_positions(nodes: Seq<usize>, k: int) -> Map<usize, usize>
    decreases k,
{
    if k <= 0 {
        Map::empty()
    } else {
        node_positions(nodes, k - 1).insert(nodes[k - 1], (k - 1) as usize)
    }
}

/// The position of each node id: the last one where it occurs.
pub open spec fn positions(nodes: Seq<usize>) -> Map<usize, usize> {
    node_positions(nodes, nodes.len() as int)
}

/// The edge links the nodes at positions `i` and `j` (in either direction);
/// an edge with an end that is not a listed node links nothing.
pub open spec fn edge_joins(pos: Map<usize, usize>, e: GEdge, i: int, j: int) -> bool {
    &&& pos.contains_key(e.from)
    &&& pos.contains_key(e.to)
    &&& ((pos[e.from] == i && pos[e.to] == j) || (pos[e.from] == j && pos[e.to] == i))
}

/// Some edge links the nodes at positions `i` and `j`.
pub open spec fn joined(nodes: Seq<usize>, edges: Seq<GEdge>, i: int, j: int) -> bool {
    exists|e: int| 0 <= e < edges.len() && #[trigger] edge_joins(positions(nodes), edges[e], i, j)
}

/// A walk over node positions along edges.
pub open spec fn is_path(nodes: Seq<usize>, edges: Seq<GEdge>, p: Seq<int>) -> bool {
    &&& p.len() >= 1
    &&& forall|k: int| 0 <= k < p.len() ==> 0 <= #[trigger] p[k] < nodes.len()
    &&& forall|k: int| 0 <= k < p.len() - 1 ==> #[trigger] joined(nodes, edges, p[k], p[k + 1])
}

/// A walk leads from position `i` to position `j`.
pub open spec fn connected(nodes: Seq<usize>, edges: Seq<GEdge>, i: int, j: int) -> bool {
    exists|p: Seq<int>| #[trigger] is_path(nodes, edges, p) && p[0] == i && p.last() == j
}

// ---------------------------------------------------------------------------
// Walks.

proof fn lemma_connected_refl(nodes: Seq<usize>, edges: Seq<GEdge>, i: int)
    requires
        0 <= i < nodes.len(),
    ensures
        connected(nodes, edges, i, i),
{
    let p = seq![i];
    assert(is_path(nodes, edges, p));
}

proof fn lemma_joined_symmetric(nodes: Seq<usize>, edges: Seq<GEdge>, i: int, j: int)
    requires
        joined(nodes, edges, i, j),
    ensures
        joined(nodes, edges, j, i),
{
    let e = choose|e: int| 0 <= e < edges.len() && #[trigger] edge_joins(positions(nodes), edges[e], i, j);
    assert(edge_joins(positions(nodes), edges[e], j, i));
}

proof fn lemma_connected_symmetric(nodes: Seq<usize>, edges: Seq<GEdge>, i: int, j: int)
    requires
        connected(nodes, edges, i, j),
    ensures
        connected(nodes, edges, j, i),
{
    let p = choose|p: Seq<int>| #[trigger] is_path(nodes, edges, p) && p[0] == i && p.last() == j;
    let q = p.reverse();
    assert forall|k: int| 0 <= k < q.len() - 1 implies #[trigger] joined(nodes, edges, q[k], q[k + 1]) by {
        let m = p.len() - 2 - k;
        assert(joined(nodes, edges, p[m], p[m + 1]));
        lemma_joined_symmetric(nodes, edges, p[m], p[m + 1]);
    }
    assert(q[0] == j);
    assert(is_path(nodes, edges, q));
}

proof fn lemma_connected_trans(nodes: Seq<usize>, edges: Seq<GEdge>, i: int, j: int, l: int)
    requires
        connected(nodes, edges, i, j),
        connected(nodes, edges, j, l),
    ensures
        connected(nodes, edges, i, l),
{
    let p = choose|p: Seq<int>| #[trigger] is_path(nodes, edges, p) && p[0] == i && p.last() == j;
    let q = choose|q: Seq<int>| #[trigger] is_path(nodes, edges, q) && q[0] == j && q.last() == l;
    let r = p + q.drop_first();
    assert forall|k: int| 0 <= k < r.len() - 1 implies #[trigger] joined(nodes, edges, r[k], r[k + 1]) by {
        if k < p.len() - 1 {
            assert(joined(nodes, edges, p[k], p[k + 1]));
        } else {
            let m = k - p.len() + 1;
            assert(joined(nodes, edges, q[m], q[m + 1]));
        }
    }
    assert(r.last() == l);
    assert(is_path(nodes, edges, r));
}

proof fn lemma_joined_connected(nodes: Seq<usize>, edges: Seq<GEdge>, i: int, j: int)
    requires
        joined(nodes, edges, i, j),
        0 <= i < nodes.len(),
        0 <= j < nodes.len(),
    ensures
        connected(nodes, edges, i, j),
{
    let p = seq![i, j];
    assert(joined(nodes, edges, p[0], p[1]));
    assert(is_path(nodes, edges, p));
}

/// A label that agrees on every linked pair agrees along every walk.
proof fn lemma_path_keeps_label(nodes: Seq<usize>, edges: Seq<GEdge>, p: Seq<int>, label: spec_fn(int) -> int)
    requires
        is_path(nodes, edges, p),
        forall|a: int, b: int| #[trigger] joined(nodes, edges, a, b) ==> label(a) == label(b),
    ensures
        label(p[0]) == label(p.last()),
    decreases p.len(),
{
    if p.len() > 1 {
        let q = p.drop_last();
        assert forall|k: int| 0 <= k < q.len() - 1 implies #[trigger] joined(nodes, edges, q[k], q[k + 1]) by {
            assert(joined(nodes, edges, p[k], p[k + 1]));
        }
        lemma_path_keeps_label(nodes, edges, q, label);
        let k = p.len() - 2;
        assert(joined(nodes, edges, p[k], p[k + 1]));
        assert(q.last() == p[k]);
    }
}

// ---------------------------------------------------------------------------
// Union-find over node positions.

/// The union-find forest: `rt` names the root of each element, every
/// parent pointer stays within its tree and climbs strictly in `level`
/// (so following parents ends at the root).
pub open spec fn uf_inv(parent: Seq<usize>, rt: Seq<int>, level: Seq<nat>, top: nat) -> bool {
    &&& rt.len() == parent.len()
    &&& level.len() == parent.len()
    &&& forall|x: int| 0 <= x < parent.len() ==> (#[trigger] parent[x] as int) < parent.len()
    &&& forall|x: int| 0 <= x < parent.len() ==> 0 <= #[trigger] rt[x] < parent.len()
    &&& forall|x: int| 0 <= x < parent.len() ==> parent[#[trigger] rt[x]] == rt[x]
    &&& forall|x: int| 0 <= x < parent.len() && #[trigger] parent[x] == x ==> rt[x] == x
    &&& forall|x: int| 0 <= x < parent.len() ==> rt[#[trigger] parent[x] as int] == rt[x]
    &&& forall|x: int| 0 <= x < parent.len() && #[trigger] parent[x] != x ==> level[parent[x] as int] > level[x]
    &&& forall|x: int| 0 <= x < parent.len() && #[trigger] rt[x] != x ==> level[rt[x]] > level[x]
    &&& forall|x: int| 0 <= x < parent.len() ==> #[trigger] level[x] <= top
}

/// The root of `x`, shortening the path on the way (every element passed
/// is hung directly under the root).
fn find(parent: &mut Vec<usize>, x: usize, Ghost(rt): Ghost<Seq<int>>, Ghost(level): Ghost<Seq<nat>>, Ghost(top): Ghost<nat>) -> (r: usize)
    requires
        uf_inv(old(parent)@, rt, level, top),
        x < old(parent)@.len(),
    ensures
        uf_inv(final(parent)@, rt, level, top),
        final(parent)@.len() == old(parent)@.len(),
        r == rt[x as int],
    decreases top - level[x as int],
{
    let p = parent[x];
    if p != x {
        assert(level[p as int] > level[x as int]);
        let r = find(parent, p, Ghost(rt), Ghost(level), Ghost(top));
        let ghost before = parent@;
        parent.set(x, r);
        proof {
            let after = parent@;
            assert(rt[r as int] == r);
            assert forall|y: int| 0 <= y < after.len() implies parent@[#[trigger] rt[y]] == rt[y] by {
                assert(before[rt[y]] == rt[y]);
                if rt[y] == x {
                    assert(before[x as int] == x);
                }
            }
            assert forall|y: int| 0 <= y < after.len() && #[trigger] after[y] == y implies rt[y] == y by {
                if y != x {
                    assert(before[y] == y);
                }
            }
            assert forall|y: int| 0 <= y < after.len() implies rt[#[trigger] after[y] as int] == rt[y] by {
                if y != x {
                    assert(rt[before[y] as int] == rt[y]);
                }
            }
            assert forall|y: int| 0 <= y < after.len() && #[trigger] after[y] != y implies level[after[y] as int] > level[y] by {
                if y != x {
                    assert(before[y] != y);
                } else {
                    assert(before[x as int] != x);
                    assert(rt[x as int] != x);
                }
            }
            assert(uf_inv(after, rt, level, top));
        }
        r
    } else {
        x
    }
}

/// The root map after hanging root `pb` under root `pa`.
pub open spec fn merged_roots(rt: Seq<int>, pa: int, pb: int) -> Seq<int> {
    Seq::new(rt.len(), |y: int| if rt[y] == pb { pa } else { rt[y] })
}

/// Merges the sets of `a` and `b`.
fn union(
    parent: &mut Vec<usize>,
    a: usize,
    b: usize,
    Ghost(rt): Ghost<Seq<int>>,
    Ghost(level): Ghost<Seq<nat>>,
    Ghost(top): Ghost<nat>,
) -> (res: Ghost<(Seq<int>, Seq<nat>, nat)>)
    requires
        uf_inv(old(parent)@, rt, level, top),
        a < old(parent)@.len(),
        b < old(parent)@.len(),
    ensures
        uf_inv(final(parent)@, res@.0, res@.1, res@.2),
        final(parent)@.len() == old(parent)@.len(),
        res@.0 == merged_roots(rt, rt[a as int], rt[b as int]),
{
    let pa = find(parent, a, Ghost(rt), Ghost(level), Ghost(top));
    let pb = find(parent, b, Ghost(rt), Ghost(level), Ghost(top));
    if pa != pb {
        let ghost before = parent@;
        parent.set(pb, pa);
        let ghost rt2 = merged_roots(rt, pa as int, pb as int);
        let ghost lv = if level[pa as int] > level[pb as int] { level[pa as int] } else { (level[pb as int] + 1) as nat };
        let ghost level2 = level.update(pa as int, lv);
        let ghost top2: nat = if top > lv { top } else { lv };
        proof {
            let after = parent@;
            assert(before[pa as int] == pa && before[pb as int] == pb);
            assert(rt[pa as int] == pa && rt[pb as int] == pb);
            assert forall|y: int| 0 <= y < after.len() implies 0 <= #[trigger] rt2[y] < after.len() by {}
            assert forall|y: int| 0 <= y < after.len() implies after[#[trigger] rt2[y]] == rt2[y] by {
                assert(before[rt[y]] == rt[y]);
            }
            assert forall|y: int| 0 <= y < after.len() && #[trigger] after[y] == y implies rt2[y] == y by {
                assert(before[y] == y);
            }
            assert forall|y: int| 0 <= y < after.len() implies rt2[#[trigger] after[y] as int] == rt2[y] by {
                if y != pb {
                    assert(rt[before[y] as int] == rt[y]);
                }
            }
            assert forall|y: int| 0 <= y < after.len() && #[trigger] after[y] != y implies level2[after[y] as int] > level2[y] by {
                if y != pb {
                    assert(before[y] != y);
                    assert(level[before[y] as int] > level[y]);
                }
            }
            assert forall|y: int| 0 <= y < after.len() && #[trigger] rt2[y] != y implies level2[rt2[y]] > level2[y] by {
                if rt[y] == pb {
                    if y != pb {
                        assert(level[pb as int] > level[y]);
                    }
                } else {
                    assert(rt[y] != y);
                }
            }
            assert forall|y: int| 0 <= y < after.len() implies #[trigger] level2[y] <= top2 by {
                assert(level[y] <= top);
            }
            assert(uf_inv(after, rt2, level2, top2));
        }
        Ghost((rt2, level2, top2))
    } else {
        proof {
            assert(merged_roots(rt, pa as int, pb as int) =~= rt);
        }
        Ghost((rt, level, top))
    }
}

// ---------------------------------------------------------------------------
// Components.

/// The nodes (in position order) whose position is labelled `c`, among the
/// first `k`.
pub open spec fn members(nodes: Seq<usize>, comp: Seq<int>, c: int, k: int) -> Seq<usize>
    decreases k,
{
    if k <= 0 {
        Seq::empty()
    } else if comp[k - 1] == c {
        members(nodes, comp, c, k - 1).push(nodes[k - 1])
    } else {
        members(nodes, comp, c, k - 1)
    }
}

/// The contents of each component.
pub open spec fn comps_view(comps: Seq<Vec<usize>>) -> Seq<Seq<usize>> {
    comps.map_values(|v: Vec<usize>| v@)
}

/// `comps` lists the connected components of the graph: `comp` labels each
/// node position with its component, each component holds the nodes of its
/// positions in order and is not empty, and two positions share a label
/// exactly when a walk links them.
pub open spec fn components_of(nodes: Seq<usize>, edges: Seq<GEdge>, comps: Seq<Seq<usize>>, comp: Seq<int>) -> bool {
    &&& comp.len() == nodes.len()
    &&& forall|i: int| 0 <= i < nodes.len() ==> 0 <= #[trigger] comp[i] < comps.len()
    &&& forall|c: int| 0 <= c < comps.len() ==> #[trigger] comps[c] == members(nodes, comp, c, nodes.len() as int)
    &&& forall|c: int| 0 <= c < comps.len() ==> #[trigger] comps[c].len() > 0
    &&& forall|i: int, j: int|
        0 <= i < nodes.len() && 0 <= j < nodes.len() ==> (#[trigger] comp[i] == #[trigger] comp[j] <==> connected(
            nodes,
            edges,
            i,
            j,
        ))
}

proof fn lemma_node_positions(nodes: Seq<usize>, k: int)
    requires
        0 <= k <= nodes.len(),
        nodes.len() <= usize::MAX,
    ensures
        forall|v: usize| #[trigger] node_positions(nodes, k).contains_key(v) ==> node_positions(nodes, k)[v] < k
            && nodes[node_positions(nodes, k)[v] as int] == v,
        forall|i: int| 0 <= i < k ==> node_positions(nodes, k).contains_key(#[trigger] nodes[i]),
    decreases k,
{
    if k > 0 {
        lemma_node_positions(nodes, k - 1);
        let prev = node_positions(nodes, k - 1);
        assert forall|v: usize| #[trigger] node_positions(nodes, k).contains_key(v) implies node_positions(nodes, k)[v]
            < k && nodes[node_positions(nodes, k)[v] as int] == v by {
            if v != nodes[k - 1] {
                assert(prev.contains_key(v));
            }
        }
        assert forall|i: int| 0 <= i < k implies node_positions(nodes, k).contains_key(#[trigger] nodes[i]) by {
            if i < k - 1 {
                assert(node_positions(nodes, k - 1).contains_key(nodes[i]));
            }
        }
    }
}

/// Linked pairs lie within the nodes.
proof fn lemma_joined_in_range(nodes: Seq<usize>, edges: Seq<GEdge>, i: int, j: int)
    requires
        joined(nodes, edges, i, j),
        nodes.len() <= usize::MAX,
    ensures
        0 <= i < nodes.len(),
        0 <= j < nodes.len(),
{
    lemma_node_positions(nodes, nodes.len() as int);
    let e = choose|e: int| 0 <= e < edges.len() && #[trigger] edge_joins(positions(nodes), edges[e], i, j);
    assert(positions(nodes).contains_key(edges[e].from));
    assert(positions(nodes).contains_key(edges[e].to));
}

/// A longer list of edges links at least the same pairs.
proof fn lemma_connected_prefix(nodes: Seq<usize>, edges: Seq<GEdge>, k: int, l: int, i: int, j: int)
    requires
        0 <= k <= l <= edges.len(),
        connected(nodes, edges.subrange(0, k), i, j),
    ensures
        connected(nodes, edges.subrange(0, l), i, j),
{
    let e0 = edges.subrange(0, k);
    let e1 = edges.subrange(0, l);
    let p = choose|p: Seq<int>| #[trigger] is_path(nodes, e0, p) && p[0] == i && p.last() == j;
    assert forall|m: int| 0 <= m < p.len() - 1 implies #[trigger] joined(nodes, e1, p[m], p[m + 1]) by {
        assert(joined(nodes, e0, p[m], p[m + 1]));
        let e = choose|e: int| 0 <= e < e0.len() && #[trigger] edge_joins(positions(nodes), e0[e], p[m], p[m + 1]);
        assert(e1[e] == e0[e]);
    }
    assert(is_path(nodes, e1, p));
}

/// Labels that agree exactly on the linked pairs of the first `k` edges,
/// after merging the classes of the ends of edge `k`, agree exactly on the
/// linked pairs of the first `k + 1` edges.
proof fn lemma_union_step(nodes: Seq<usize>, edges: Seq<GEdge>, k: int, rt: Seq<int>, a: int, b: int)
    requires
        0 <= k < edges.len(),
        nodes.len() <= usize::MAX,
        rt.len() == nodes.len(),
        0 <= a < nodes.len(),
        0 <= b < nodes.len(),
        edge_joins(positions(nodes), edges[k], a, b),
        forall|i: int, j: int|
            0 <= i < nodes.len() && 0 <= j < nodes.len() ==> (#[trigger] rt[i] == #[trigger] rt[j] <==> connected(
                nodes,
                edges.subrange(0, k),
                i,
                j,
            )),
    ensures
        forall|i: int, j: int|
            0 <= i < nodes.len() && 0 <= j < nodes.len() ==> (#[trigger] merged_roots(rt, rt[a], rt[b])[i]
                == #[trigger] merged_roots(rt, rt[a], rt[b])[j] <==> connected(nodes, edges.subrange(0, k + 1), i, j)),
{
    let e0 = edges.subrange(0, k);
    let e1 = edges.subrange(0, k + 1);
    let rt2 = merged_roots(rt, rt[a], rt[b]);
    assert(e1[k] == edges[k]);
    assert(joined(nodes, e1, a, b));
    lemma_joined_connected(nodes, e1, a, b);
    assert forall|i: int, j: int|
        0 <= i < nodes.len() && 0 <= j < nodes.len() && #[trigger] rt2[i] == #[trigger] rt2[j] implies connected(
        nodes,
        e1,
        i,
        j,
    ) by {
        if rt[i] == rt[j] {
            lemma_connected_prefix(nodes, edges, k, k + 1, i, j);
        } else if rt[i] == rt[a] {
            assert(rt[j] == rt[b]);
            assert(rt[i] == rt[a]);
            lemma_connected_prefix(nodes, edges, k, k + 1, i, a);
            lemma_connected_prefix(nodes, edges, k, k + 1, b, j);
            lemma_connected_trans(nodes, e1, i, a, b);
            lemma_connected_trans(nodes, e1, i, b, j);
        } else {
            assert(rt[i] == rt[b]);
            assert(rt[j] == rt[a]);
            lemma_connected_prefix(nodes, edges, k, k + 1, i, b);
            lemma_connected_prefix(nodes, edges, k, k + 1, a, j);
            lemma_connected_symmetric(nodes, e1, a, b);
            lemma_connected_trans(nodes, e1, i, b, a);
            lemma_connected_trans(nodes, e1, i, a, j);
        }
    }
    let label = |x: int| rt2[x];
    assert forall|x: int, y: int| #[trigger] joined(nodes, e1, x, y) implies label(x) == label(y) by {
        lemma_joined_in_range(nodes, e1, x, y);
        let e = choose|e: int| 0 <= e < e1.len() && #[trigger] edge_joins(positions(nodes), e1[e], x, y);
        if e < k {
            assert(e0[e] == e1[e]);
            assert(joined(nodes, e0, x, y));
            lemma_joined_connected(nodes, e0, x, y);
        } else {
            assert(e1[e] == edges[k]);
            assert((x == a && y == b) || (x == b && y == a));
        }
    }
    assert forall|i: int, j: int|
        0 <= i < nodes.len() && 0 <= j < nodes.len() && connected(nodes, e1, i, j) implies #[trigger] rt2[i]
        == #[trigger] rt2[j] by {
        let p = choose|p: Seq<int>| #[trigger] is_path(nodes, e1, p) && p[0] == i && p.last() == j;
        lemma_path_keeps_label(nodes, e1, p, label);
    }
}

/// An edge with an end that is not a listed node links nothing new.
proof fn lemma_skip_step(nodes: Seq<usize>, edges: Seq<GEdge>, k: int, i: int, j: int)
    requires
        0 <= k < edges.len(),
        !positions(nodes).contains_key(edges[k].from) || !positions(nodes).contains_key(edges[k].to),
    ensures
        connected(nodes, edges.subrange(0, k + 1), i, j) == connected(nodes, edges.subrange(0, k), i, j),
{
    let e0 = edges.subrange(0, k);
    let e1 = edges.subrange(0, k + 1);
    if connected(nodes, e1, i, j) {
        let p = choose|p: Seq<int>| #[trigger] is_path(nodes, e1, p) && p[0] == i && p.last() == j;
        assert forall|m: int| 0 <= m < p.len() - 1 implies #[trigger] joined(nodes, e0, p[m], p[m + 1]) by {
            assert(joined(nodes, e1, p[m], p[m + 1]));
            let e = choose|e: int| 0 <= e < e1.len() && #[trigger] edge_joins(positions(nodes), e1[e], p[m], p[m + 1]);
            assert(e < k);
            assert(e0[e] == e1[e]);
        }
        assert(is_path(nodes, e0, p));
    }
    if connected(nodes, e0, i, j) {
        lemma_connected_prefix(nodes, edges, k, k + 1, i, j);
    }
}

proof fn lemma_members_prefix(nodes: Seq<usize>, comp1: Seq<int>, comp2: Seq<int>, c: int, k: int)
    requires
        0 <= k,
        k <= comp1.len(),
        k <= comp2.len(),
        forall|j: int| 0 <= j < k ==> comp1[j] == comp2[j],
    ensures
        members(nodes, comp1, c, k) == members(nodes, comp2, c, k),
    decreases k,
{
    if k > 0 {
        lemma_members_prefix(nodes, comp1, comp2, c, k - 1);
    }
}

proof fn lemma_members_absent(nodes: Seq<usize>, comp: Seq<int>, c: int, k: int)
    requires
        0 <= k <= comp.len(),
        forall|j: int| 0 <= j < k ==> comp[j] != c,
    ensures
        members(nodes, comp, c, k) == Seq::<usize>::empty(),
    decreases k,
{
    if k > 0 {
        lemma_members_absent(nodes, comp, c, k - 1);
    }
}

/// With no edges, a walk never leaves its start.
proof fn lemma_connected_no_edges(nodes: Seq<usize>, edges: Seq<GEdge>, i: int, j: int)
    requires
        0 <= i < nodes.len(),
        0 <= j < nodes.len(),
    ensures
        connected(nodes, edges.subrange(0, 0), i, j) <==> i == j,
{
    let e0 = edges.subrange(0, 0);
    if i == j {
        lemma_connected_refl(nodes, e0, i);
    }
    if connected(nodes, e0, i, j) {
        let p = choose|p: Seq<int>| #[trigger] is_path(nodes, e0, p) && p[0] == i && p.last() == j;
        if p.len() > 1 {
            let k: int = 0;
            assert(joined(nodes, e0, p[k], p[k + 1]));
            assert(e0.len() == 0);
        }
    }
}

/// Groups the nodes into the connected components of the graph: edges
/// link node ids (an edge with an end that is not among the nodes is
/// ignored; a node id listed twice is linked at its last position).
/// Components come in the order of their first node.
pub fn find_components(edges: &Vec<GEdge>, nodes: &Vec<usize>) -> (res: Vec<Vec<usize>>)
    ensures
        exists|comp: Seq<int>| #[trigger] components_of(nodes@, edges@, comps_view(res@), comp),
{
    let n = nodes.len();
    // Positions of the node ids.
    let mut index_map: HashMap<usize, usize> = HashMap::new();
    let mut i: usize = 0;
    while i < n
        invariant
            i <= n,
            n == nodes@.len(),
            index_map@ == node_positions(nodes@, i as int),
        decreases n - i,
    {
        index_map.insert(nodes[i], i);
        i += 1;
    }
    // One set per position.
    let mut parent: Vec<usize> = Vec::new();
    let mut i: usize = 0;
    while i < n
        invariant
            i <= n,
            parent@.len() == i,
            forall|x: int| 0 <= x < i ==> parent@[x] == x,
        decreases n - i,
    {
        parent.push(i);
        i += 1;
    }
    let ghost mut rt: Seq<int> = Seq::new(n as nat, |x: int| x);
    let ghost mut level: Seq<nat> = Seq::new(n as nat, |x: int| 0nat);
    let ghost mut top: nat = 0;
    proof {
        assert(uf_inv(parent@, rt, level, top));
        assert forall|i: int, j: int| 0 <= i < n && 0 <= j < n implies (#[trigger] rt[i] == #[trigger] rt[j]
            <==> connected(nodes@, edges@.subrange(0, 0), i, j)) by {
            lemma_connected_no_edges(nodes@, edges@, i, j);
        }
    }
    // Merge the sets of the ends of each edge.
    let mut k: usize = 0;
    while k < edges.len()
        invariant
            k <= edges@.len(),
            n == nodes@.len(),
            parent@.len() == n,
            index_map@ == positions(nodes@),
            uf_inv(parent@, rt, level, top),
            forall|i: int, j: int|
                0 <= i < n && 0 <= j < n ==> (#[trigger] rt[i] == #[trigger] rt[j] <==> connected(
                    nodes@,
                    edges@.subrange(0, k as int),
                    i,
                    j,
                )),
        decreases edges@.len() - k,
    {
        let edge = edges[k];
        proof {
            lemma_node_positions(nodes@, n as int);
        }
        match (index_map.get(&edge.from), index_map.get(&edge.to)) {
            (Some(from_ref), Some(to_ref)) => {
                let i_from = *from_ref;
                let i_to = *to_ref;
                proof {
                    lemma_union_step(nodes@, edges@, k as int, rt, i_from as int, i_to as int);
                }
                let Ghost(next) = union(&mut parent, i_from, i_to, Ghost(rt), Ghost(level), Ghost(top));
                proof {
                    rt = next.0;
                    level = next.1;
                    top = next.2;
                }
            },
            _ => {
                assert forall|i: int, j: int| 0 <= i < n && 0 <= j < n implies (#[trigger] rt[i] == #[trigger] rt[j]
                    <==> connected(nodes@, edges@.subrange(0, k + 1), i, j)) by {
                    lemma_skip_step(nodes@, edges@, k as int, i, j);
                }
            },
        }
        k += 1;
    }
    assert(edges@.subrange(0, edges@.len() as int) =~= edges@);
    // Group the nodes by root, components in order of their first node.
    let mut comp_idx: HashMap<usize, usize> = HashMap::new();
    let mut components: Vec<Vec<usize>> = Vec::new();
    let ghost mut comp: Seq<int> = Seq::empty();
    let mut i: usize = 0;
    while i < n
        invariant
            i <= n,
            n == nodes@.len(),
            parent@.len() == n,
            uf_inv(parent@, rt, level, top),
            comp.len() == i,
            components@.len() <= i,
            forall|j: int| 0 <= j < i ==> 0 <= #[trigger] comp[j] < components@.len(),
            forall|j: int|
                0 <= j < i ==> comp_idx@.contains_key(#[trigger] rt[j] as usize) && comp_idx@[rt[j] as usize] == comp[j],
            forall|r: usize|
                #[trigger] comp_idx@.contains_key(r) ==> exists|j: int| 0 <= j < i && #[trigger] rt[j] == r,
            forall|j1: int, j2: int|
                0 <= j1 < i && 0 <= j2 < i ==> (#[trigger] comp[j1] == #[trigger] comp[j2] <==> rt[j1] == rt[j2]),
            forall|c: int| 0 <= c < components@.len() ==> (#[trigger] components@[c])@ == members(nodes@, comp, c, i as int),
            forall|c: int| 0 <= c < components@.len() ==> (#[trigger] components@[c])@.len() > 0,
            forall|i: int, j: int|
                0 <= i < n && 0 <= j < n ==> (#[trigger] rt[i] == #[trigger] rt[j] <==> connected(nodes@, edges@, i, j)),
        decreases n - i,
    {
        let r = find(&mut parent, i, Ghost(rt), Ghost(level), Ghost(top));
        let ghost old_comp = comp;
        let ghost old_components = components@;
        match comp_idx.get(&r) {
            Some(c_ref) => {
                let c = *c_ref;
                let ghost w = choose|j: int| 0 <= j < i && #[trigger] rt[j] == r;
                assert(comp_idx@[rt[w] as usize] == comp[w]);
                components[c].push(nodes[i]);
                proof {
                    comp = comp.push(c as int);
                }
            },
            None => {
                let c = components.len();
                comp_idx.insert(r, c);
                components.push(vec![nodes[i]]);
                proof {
                    comp = comp.push(c as int);
                    lemma_members_absent(nodes@, old_comp, c as int, i as int);
                }
            },
        }
        proof {
            assert forall|d: int| 0 <= d < components@.len() implies (#[trigger] components@[d])@ == members(
                nodes@,
                comp,
                d,
                i + 1,
            ) by {
                lemma_members_prefix(nodes@, old_comp, comp, d, i as int);
                if d < old_components.len() {
                    assert(old_components[d]@ == members(nodes@, old_comp, d, i as int));
                } else {
                    lemma_members_absent(nodes@, old_comp, d, i as int);
                }
            }
            assert forall|r2: usize| #[trigger] comp_idx@.contains_key(r2) implies exists|j: int|
                0 <= j < i + 1 && #[trigger] rt[j] == r2 by {
                if r2 != r {
                    let w = choose|j: int| 0 <= j < i && #[trigger] rt[j] == r2;
                    assert(0 <= w < i + 1 && rt[w] == r2);
                } else {
                    assert(rt[i as int] == r2);
                }
            }
        }
        i += 1;
    }
    proof {
        let view = comps_view(components@);
        assert forall|c: int| 0 <= c < view.len() implies #[trigger] view[c] == members(nodes@, comp, c, n as int) by {
            assert(view[c] == components@[c]@);
        }
        assert forall|c: int| 0 <= c < view.len() implies #[trigger] view[c].len() > 0 by {
            assert(view[c] == components@[c]@);
        }
        assert(components_of(nodes@, edges@, view, comp));
    }
    components
}

// ---------------------------------------------------------------------------
// Neighbour lists and the start of a search.

/// The neighbour list of a node (empty when the node has none).
pub open spec fn list_of(m: Map<usize, Seq<usize>>, node: usize) -> Seq<usize> {
    if m.contains_key(node) {
        m[node]
    } else {
        Seq::empty()
    }
}

/// The lists with `neighbor` appended to the list of `node`.
pub open spec fn with_neighbor(m: Map<usize, Seq<usize>>, node: usize, neighbor: usize) -> Map<usize, Seq<usize>> {
    m.insert(node, list_of(m, node).push(neighbor))
}

/// Neighbour lists after the first `k` edges: each edge appends its end to
/// the list of its start, then its start to the list of its end.
pub open spec fn adjacency(edges: Seq<GEdge>, k: int) -> Map<usize, Seq<usize>>
    decreases k,
{
    if k <= 0 {
        Map::empty()
    } else {
        let e = edges[k - 1];
        with_neighbor(with_neighbor(adjacency(edges, k - 1), e.from, e.to), e.to, e.from)
    }
}

/// The neighbour lists held by a hash map of vectors.
pub open spec fn lists_view(m: Map<usize, Vec<usize>>) -> Map<usize, Seq<usize>> {
    m.map_values(|v: Vec<usize>| v@)
}

fn add_neighbor(adj: &mut HashMap<usize, Vec<usize>>, node: usize, neighbor: usize)
    ensures
        lists_view(final(adj)@) == with_neighbor(lists_view(old(adj)@), node, neighbor),
{
    let mut list = match adj.remove(&node) {
        Some(v) => v,
        None => Vec::new(),
    };
    list.push(neighbor);
    adj.insert(node, list);
    assert(lists_view(adj@) =~= with_neighbor(lists_view(old(adj)@), node, neighbor));
}

/// Edge `e`, one of the first `k`, has `node` as an end.
pub open spec fn end_of_edge(edges: Seq<GEdge>, k: int, e: int, node: usize) -> bool {
    0 <= e < k && (edges[e].from == node || edges[e].to == node)
}

/// The nodes of the first `k` edges are exactly the nodes with a list, and
/// no list is empty.
proof fn lemma_adjacency_nodes(edges: Seq<GEdge>, k: int)
    requires
        0 <= k <= edges.len(),
    ensures
        forall|node: usize| #[trigger] adjacency(edges, k).contains_key(node) ==> adjacency(edges, k)[node].len() > 0,
        forall|node: usize|
            #[trigger] adjacency(edges, k).contains_key(node) ==> exists|e: int| #[trigger] end_of_edge(edges, k, e, node),
        forall|e: int|
            0 <= e < k ==> adjacency(edges, k).contains_key(#[trigger] edges[e].from) && adjacency(edges, k).contains_key(
                edges[e].to,
            ),
    decreases k,
{
    if k > 0 {
        lemma_adjacency_nodes(edges, k - 1);
        let prev = adjacency(edges, k - 1);
        let cur = adjacency(edges, k);
        assert forall|node: usize| #[trigger] cur.contains_key(node) implies exists|e: int|
            #[trigger] end_of_edge(edges, k, e, node) by {
            if node != edges[k - 1].from && node != edges[k - 1].to {
                assert(prev.contains_key(node));
                let e = choose|e: int| #[trigger] end_of_edge(edges, k - 1, e, node);
                assert(end_of_edge(edges, k, e, node));
            } else {
                assert(end_of_edge(edges, k, k - 1, node));
            }
        }
        assert forall|e: int| 0 <= e < k implies cur.contains_key(#[trigger] edges[e].from) && cur.contains_key(
            edges[e].to,
        ) by {
            if e < k - 1 {
                assert(prev.contains_key(edges[e].from));
                assert(prev.contains_key(edges[e].to));
            }
        }
    }
}

/// Builds the neighbour lists of the edges and picks a node with the fewest
/// neighbours to start a search from (the first such node met along the
/// edges; a node with a single neighbour ends the search at once).
pub fn gen_adj_start_node(edges: &Vec<GEdge>) -> (res: (HashMap<usize, Vec<usize>>, usize))
    requires
        edges@.len() > 0,
    ensures
        lists_view(res.0@) == adjacency(edges@, edges@.len() as int),
        res.0@.contains_key(res.1),
        forall|node: usize| #[trigger] res.0@.contains_key(node) ==> res.0@[res.1]@.len() <= res.0@[node]@.len(),
{
    let mut adj_map: HashMap<usize, Vec<usize>> = HashMap::new();
    let mut i: usize = 0;
    assert(lists_view(adj_map@) =~= adjacency(edges@, 0));
    while i < edges.len()
        invariant
            i <= edges@.len(),
            lists_view(adj_map@) == adjacency(edges@, i as int),
        decreases edges@.len() - i,
    {
        let e = edges[i];
        add_neighbor(&mut adj_map, e.from, e.to);
        add_neighbor(&mut adj_map, e.to, e.from);
        i += 1;
    }
    let ghost adj = adjacency(edges@, edges@.len() as int);
    proof {
        lemma_adjacency_nodes(edges@, edges@.len() as int);
        assert(adj.contains_key(edges@[0].from));
        assert(lists_view(adj_map@)[edges@[0].from] == adj_map@[edges@[0].from]@);
    }
    let mut min_node = edges[0].from;
    let mut min_neighbors = adj_map.get(&min_node).unwrap().len();
    let mut i: usize = 0;
    while i < edges.len()
        invariant
            i <= edges@.len(),
            lists_view(adj_map@) == adj,
            forall|node: usize| #[trigger] adj.contains_key(node) ==> adj[node].len() > 0,
            forall|e: int| 0 <= e < edges@.len() ==> adj.contains_key(#[trigger] edges@[e].from) && adj.contains_key(edges@[e].to),
            adj_map@.contains_key(min_node),
            min_neighbors == adj_map@[min_node]@.len(),
            forall|e: int|
                0 <= e < i ==> min_neighbors <= adj_map@[(#[trigger] edges@[e]).from]@.len() && min_neighbors
                    <= adj_map@[edges@[e].to]@.len(),
        ensures
            i == edges@.len() || min_neighbors == 1,
        decreases edges@.len() - i,
    {
        let e = edges[i];
        assert(lists_view(adj_map@)[e.from] == adj_map@[e.from]@);
        assert(lists_view(adj_map@)[e.to] == adj_map@[e.to]@);
        let from_len = adj_map.get(&e.from).unwrap().len();
        if from_len < min_neighbors {
            min_node = e.from;
            min_neighbors = from_len;
        }
        let to_len = adj_map.get(&e.to).unwrap().len();
        if to_len < min_neighbors {
            min_node = e.to;
            min_neighbors = to_len;
        }
        i += 1;
        if min_neighbors == 1 {
            break;
        }
    }
    proof {
        assert forall|node: usize| #[trigger] adj_map@.contains_key(node) implies adj_map@[min_node]@.len()
            <= adj_map@[node]@.len() by {
            assert(lists_view(adj_map@).contains_key(node));
            assert(lists_view(adj_map@)[node] == adj_map@[node]@);
            if min_neighbors != 1 {
                let e = choose|e: int| #[trigger] end_of_edge(edges@, edges@.len() as int, e, node);
                assert(min_neighbors <= adj_map@[edges@[e].from]@.len());
                assert(min_neighbors <= adj_map@[edges@[e].to]@.len());
            }
        }
    }
    (adj_map, min_node)
}

// ---------------------------------------------------------------------------
// Random depth-first search.

#[verifier::external_type_specification]
#[verifier::external_body]
pub struct ExThreadRng(ThreadRng);

/// `SliceRandom::shuffle` on a copy of the list: the same items, in an
/// order drawn from the generator. (The generator panics only if the
/// operating system cannot reseed it.)
#[verifier::external_body]
fn shuffled(items: &Vec<usize>, rng: &mut ThreadRng) -> (res: Vec<usize>)
    ensures
        res@.to_multiset() == items@.to_multiset(),
{
    let mut copy = items.clone();
    copy.shuffle(rng);
    copy
}

/// `lists` holds a list for the same nodes as `adj`, each a reordering of
/// the list in `adj`.
pub open spec fn reordered_lists(lists: Map<usize, Seq<usize>>, adj: Map<usize, Seq<usize>>) -> bool {
    &&& lists.dom() == adj.dom()
    &&& forall|k: usize| #[trigger] adj.contains_key(k) ==> lists[k].to_multiset() == adj[k].to_multiset()
}

/// Each neighbour list, shuffled on its own.
fn shuffled_lists(adj_map: &HashMap<usize, Vec<usize>>, rng: &mut ThreadRng) -> (lists: HashMap<usize, Vec<usize>>)
    ensures
        reordered_lists(lists_view(lists@), lists_view(adj_map@)),
{
    let mut lists: HashMap<usize, Vec<usize>> = HashMap::new();
    let ghost keys: Seq<usize> = vstd::std_specs::iter::IteratorSpec::remaining(&adj_map.keys()).unref();
    for key in it: adj_map.keys()
        invariant
            keys.to_set() == adj_map@.dom(),
            it.seq().unref() == keys,
            forall|k: usize|
                #[trigger] lists@.contains_key(k) ==> adj_map@.contains_key(k) && lists@[k]@.to_multiset()
                    == adj_map@[k]@.to_multiset(),
            forall|i: int| 0 <= i < it.index() ==> lists@.contains_key(*it.seq()[i]),
    {
        assert(it.seq().unref()[it.index()] == *key);
        assert(adj_map@.contains_key(*key));
        match adj_map.get(key) {
            Some(list) => {
                let s = shuffled(list, rng);
                lists.insert(*key, s);
            },
            None => {},
        }
    }
    proof {
        let adj = lists_view(adj_map@);
        let l = lists_view(lists@);
        assert forall|k: usize| #[trigger] adj.contains_key(k) implies l.contains_key(k) by {
            assert(keys.to_set().contains(k));
            let i = choose|i: int| 0 <= i < keys.len() && keys[i] == k;
            assert(lists@.contains_key(keys[i]));
        }
        assert(l.dom() =~= adj.dom());
    }
    lists
}

/// `node` is in the neighbour list of `from`.
pub open spec fn is_neighbor(adj: Map<usize, Seq<usize>>, from: usize, node: usize) -> bool {
    adj.contains_key(from) && adj[from].contains(node)
}

/// A walk along neighbour lists.
pub open spec fn is_walk(adj: Map<usize, Seq<usize>>, p: Seq<usize>) -> bool {
    &&& p.len() >= 1
    &&& forall|k: int| 0 <= k < p.len() - 1 ==> #[trigger] is_neighbor(adj, p[k], p[k + 1])
}

/// A walk along neighbour lists leads from `start` to `node`.
pub open spec fn reachable(adj: Map<usize, Seq<usize>>, start: usize, node: usize) -> bool {
    exists|p: Seq<usize>| #[trigger] is_walk(adj, p) && p[0] == start && p.last() == node
}

pub(crate) proof fn lemma_reachable_start(adj: Map<usize, Seq<usize>>, start: usize)
    ensures
        reachable(adj, start, start),
{
    assert(is_walk(adj, seq![start]));
}

pub(crate) proof fn lemma_reachable_step(adj: Map<usize, Seq<usize>>, start: usize, from: usize, node: usize)
    requires
        reachable(adj, start, from),
        is_neighbor(adj, from, node),
    ensures
        reachable(adj, start, node),
{
    let p = choose|p: Seq<usize>| #[trigger] is_walk(adj, p) && p[0] == start && p.last() == from;
    let q = p.push(node);
    assert forall|k: int| 0 <= k < q.len() - 1 implies #[trigger] is_neighbor(adj, q[k], q[k + 1]) by {
        if k < p.len() - 1 {
            assert(is_neighbor(adj, p[k], p[k + 1]));
        }
    }
    assert(is_walk(adj, q));
}

/// A set that holds `start` and every neighbour of its members holds every
/// node reachable from `start`.
pub(crate) proof fn lemma_closed_holds_reachable(adj: Map<usize, Seq<usize>>, start: usize, s: Set<usize>, node: usize)
    requires
        s.contains(start),
        forall|v: usize, t: usize| s.contains(v) && #[trigger] is_neighbor(adj, v, t) ==> s.contains(t),
        reachable(adj, start, node),
    ensures
        s.contains(node),
{
    let p = choose|p: Seq<usize>| #[trigger] is_walk(adj, p) && p[0] == start && p.last() == node;
    lemma_walk_in_closed(adj, s, p, p.len() - 1);
}

proof fn lemma_walk_in_closed(adj: Map<usize, Seq<usize>>, s: Set<usize>, p: Seq<usize>, k: int)
    requires
        is_walk(adj, p),
        0 <= k < p.len(),
        s.contains(p[0]),
        forall|v: usize, t: usize| s.contains(v) && #[trigger] is_neighbor(adj, v, t) ==> s.contains(t),
    ensures
        s.contains(p[k]),
    decreases k,
{
    if k > 0 {
        lemma_walk_in_closed(adj, s, p, k - 1);
        let j = k - 1;
        assert(is_neighbor(adj, p[j], p[j + 1]));
    }
}

/// `order` is a search order from `start`: it starts there, holds no node
/// twice, and each later node is a neighbour of an earlier one.
pub open spec fn search_order(adj: Map<usize, Seq<usize>>, start: usize, order: Seq<usize>) -> bool {
    &&& order.len() > 0
    &&& order[0] == start
    &&& order.no_duplicates()
    &&& forall|i: int| 0 < i < order.len() ==> #[trigger] has_earlier_neighbor(adj, order, i)
}

/// The node at position `i` is a neighbour of a node before it.
pub open spec fn has_earlier_neighbor(adj: Map<usize, Seq<usize>>, order: Seq<usize>, i: int) -> bool {
    exists|j: int| 0 <= j < i && #[trigger] is_neighbor(adj, order[j], order[i])
}

/// Lists that are reorderings of each other give the same neighbours.
proof fn lemma_reordered_neighbors(lists: Map<usize, Seq<usize>>, adj: Map<usize, Seq<usize>>)
    requires
        reordered_lists(lists, adj),
    ensures
        forall|v: usize, n: usize| #[trigger] is_neighbor(lists, v, n) == is_neighbor(adj, v, n),
{
    assert forall|v: usize, n: usize| #[trigger] is_neighbor(lists, v, n) == is_neighbor(adj, v, n) by {
        if adj.contains_key(v) {
            lists[v].to_multiset_ensures();
            adj[v].to_multiset_ensures();
            assert(lists[v].contains(n) == (lists[v].to_multiset().count(n) > 0));
            assert(adj[v].contains(n) == (adj[v].to_multiset().count(n) > 0));
        }
    }
}

/// Lists that are reorderings of each other give the same search orders
/// and the same reachable nodes.
proof fn lemma_reordered_search(lists: Map<usize, Seq<usize>>, adj: Map<usize, Seq<usize>>, start: usize, order: Seq<usize>)
    requires
        reordered_lists(lists, adj),
    ensures
        search_order(lists, start, order) == search_order(adj, start, order),
        forall|node: usize| #[trigger] reachable(lists, start, node) == reachable(adj, start, node),
{
    lemma_reordered_neighbors(lists, adj);
    assert forall|i: int|
        #![trigger has_earlier_neighbor(lists, order, i)]
        #![trigger has_earlier_neighbor(adj, order, i)]
        has_earlier_neighbor(lists, order, i) == has_earlier_neighbor(adj, order, i) by {
        if has_earlier_neighbor(lists, order, i) {
            let j = choose|j: int| 0 <= j < i && #[trigger] is_neighbor(lists, order[j], order[i]);
            assert(is_neighbor(adj, order[j], order[i]));
        }
        if has_earlier_neighbor(adj, order, i) {
            let j = choose|j: int| 0 <= j < i && #[trigger] is_neighbor(adj, order[j], order[i]);
            assert(is_neighbor(lists, order[j], order[i]));
        }
    }
    assert forall|p: Seq<usize>|
        #![trigger is_walk(lists, p)]
        #![trigger is_walk(adj, p)]
        is_walk(lists, p) == is_walk(adj, p) by {
        if is_walk(lists, p) {
            assert forall|k: int| 0 <= k < p.len() - 1 implies #[trigger] is_neighbor(adj, p[k], p[k + 1]) by {
                assert(is_neighbor(lists, p[k], p[k + 1]));
            }
        }
        if is_walk(adj, p) {
            assert forall|k: int| 0 <= k < p.len() - 1 implies #[trigger] is_neighbor(lists, p[k], p[k + 1]) by {
                assert(is_neighbor(adj, p[k], p[k + 1]));
            }
        }
    }
    assert forall|node: usize| #[trigger] reachable(lists, start, node) == reachable(adj, start, node) by {
        if reachable(lists, start, node) {
            let p = choose|p: Seq<usize>| #[trigger] is_walk(lists, p) && p[0] == start && p.last() == node;
            assert(is_walk(adj, p));
        }
        if reachable(adj, start, node) {
            let p = choose|p: Seq<usize>| #[trigger] is_walk(adj, p) && p[0] == start && p.last() == node;
            assert(is_walk(lists, p));
        }
    }
}

/// Visits the nodes reachable from `start_node` depth first, each node's
/// neighbours shuffled: the order is the depth-first pre-order over some
/// reordering of the neighbour lists. So every reachable node comes once,
/// and each after the first is a neighbour of one before it.
pub fn random_dfs(adj_map: &HashMap<usize, Vec<usize>>, start_node: usize, rng: &mut ThreadRng) -> (order: Vec<usize>)
    ensures
        exists|lists: Map<usize, Seq<usize>>|
            reordered_lists(lists, lists_view(adj_map@)) && #[trigger] dfs_preorder(lists, start_node, order@),
        search_order(lists_view(adj_map@), start_node, order@),
        forall|node: usize| reachable(lists_view(adj_map@), start_node, node) <==> order@.contains(node),
{
    let lists = shuffled_lists(adj_map, rng);
    let order = dfs_preorder_of(&lists, start_node);
    proof {
        lemma_dfs_preorder_searches(lists_view(lists@), start_node, order@);
        lemma_reordered_search(lists_view(lists@), lists_view(adj_map@), start_node, order@);
    }
    order
}

// ---------------------------------------------------------------------------
// Order crossover.

/// `RngExt::random_range(0..n)`: a number below `n` drawn from the
/// generator (the range must not be empty).
#[verifier::external_body]
fn random_below(rng: &mut ThreadRng, n: usize) -> (res: usize)
    requires
        n > 0,
    ensures
        res < n,
{
    rng.random_range(0..n)
}

/// Two parents for a crossover: orders of the same distinct nodes (none of
/// them `usize::MAX`, which marks a free place).
pub open spec fn crossover_parents(parent1: Seq<usize>, parent2: Seq<usize>) -> bool {
    &&& parent1.len() > 0
    &&& parent1.no_duplicates()
    &&& parent2.to_multiset() == parent1.to_multiset()
    &&& !parent1.contains(usize::MAX)
}

/// The nodes of `parent2` that are not in `parent1[a..b]`, in `parent2`
/// order.
pub open spec fn ox_fill(parent1: Seq<usize>, parent2: Seq<usize>, a: int, b: int) -> Seq<usize> {
    parent2.filter(|x: usize| !parent1.subrange(a, b).contains(x))
}

/// The child of an order crossover: `parent1[a..b]` in place, the other
/// places filled left to right with the remaining nodes in `parent2` order.
pub open spec fn ox_child(parent1: Seq<usize>, parent2: Seq<usize>, a: int, b: int) -> Seq<usize> {
    let fill = ox_fill(parent1, parent2, a, b);
    Seq::new(
        parent1.len(),
        |i: int|
            if a <= i < b {
                parent1[i]
            } else if i < a {
                fill[i]
            } else {
                fill[i - (b - a)]
            },
    )
}

proof fn lemma_filter_congruent(s: Seq<usize>, p: spec_fn(usize) -> bool, q: spec_fn(usize) -> bool)
    requires
        forall|i: int| 0 <= i < s.len() ==> p(s[i]) == q(s[i]),
    ensures
        s.filter(p) == s.filter(q),
    decreases s.len(),
{
    reveal(Seq::filter);
    if s.len() > 0 {
        lemma_filter_congruent(s.drop_last(), p, q);
        assert(p(s[s.len() - 1]) == q(s[s.len() - 1]));
    }
}

/// Dropping the members of a set from a list without duplicates that holds
/// the whole set leaves as many items as the list has beyond the set.
proof fn lemma_filter_out_set_len(s: Seq<usize>, set: Set<usize>)
    requires
        s.no_duplicates(),
        set.finite(),
        forall|x: usize| #[trigger] set.contains(x) ==> s.contains(x),
    ensures
        s.filter(|x: usize| !set.contains(x)).len() == s.len() - set.len(),
    decreases s.len(),
{
    reveal(Seq::filter);
    if s.len() == 0 {
        assert(set =~= Set::empty());
    } else {
        let x = s.last();
        let q = s.drop_last();
        assert(!q.contains(x)) by {
            if q.contains(x) {
                let w = choose|w: int| 0 <= w < q.len() && q[w] == x;
                assert(s[w] == s[s.len() - 1]);
            }
        }
        if set.contains(x) {
            let smaller = set.remove(x);
            assert forall|y: usize| #[trigger] smaller.contains(y) implies q.contains(y) by {
                let w = choose|w: int| 0 <= w < s.len() && s[w] == y;
                assert(w != s.len() - 1);
                assert(q[w] == y);
            }
            lemma_filter_out_set_len(q, smaller);
            lemma_filter_congruent(q, |y: usize| !set.contains(y), |y: usize| !smaller.contains(y));
        } else {
            assert forall|y: usize| #[trigger] set.contains(y) implies q.contains(y) by {
                let w = choose|w: int| 0 <= w < s.len() && s[w] == y;
                assert(w != s.len() - 1);
                assert(q[w] == y);
            }
            lemma_filter_out_set_len(q, set);
        }
    }
}

proof fn lemma_filter_no_duplicates(s: Seq<usize>, p: spec_fn(usize) -> bool)
    requires
        s.no_duplicates(),
    ensures
        s.filter(p).no_duplicates(),
        forall|x: usize| #[trigger] s.filter(p).contains(x) ==> s.contains(x) && p(x),
    decreases s.len(),
{
    reveal(Seq::filter);
    if s.len() > 0 {
        let q = s.drop_last();
        assert(q.no_duplicates());
        lemma_filter_no_duplicates(q, p);
        let fq = q.filter(p);
        assert forall|x: usize| #[trigger] s.filter(p).contains(x) implies s.contains(x) && p(x) by {
            if fq.contains(x) {
                let w = choose|w: int| 0 <= w < q.len() && q[w] == x;
                assert(s[w] == x);
            } else {
                assert(x == s.last());
            }
        }
        if p(s.last()) {
            assert(!fq.contains(s.last())) by {
                if fq.contains(s.last()) {
                    let w = choose|w: int| 0 <= w < q.len() && q[w] == s.last();
                    assert(s[w] == s[s.len() - 1]);
                }
            }
            assert forall|i: int, j: int| 0 <= i < j < s.filter(p).len() implies s.filter(p)[i] != s.filter(p)[j] by {
                if j == fq.len() {
                    assert(fq.contains(fq[i]));
                }
            }
        }
    }
}

/// The fill holds exactly the places outside the kept segment.
proof fn lemma_ox_fill_len(parent1: Seq<usize>, parent2: Seq<usize>, a: int, b: int)
    requires
        crossover_parents(parent1, parent2),
        0 <= a <= b <= parent1.len(),
    ensures
        ox_fill(parent1, parent2, a, b).len() == parent1.len() - (b - a),
        parent2.no_duplicates(),
        parent2.len() == parent1.len(),
{
    let seg = parent1.subrange(a, b);
    parent1.lemma_multiset_has_no_duplicates();
    assert forall|x: usize| parent2.to_multiset().contains(x) implies parent2.to_multiset().count(x) == 1 by {}
    parent2.lemma_multiset_has_no_duplicates_conv();
    parent1.to_multiset_ensures();
    parent2.to_multiset_ensures();
    assert(parent2.len() == parent1.len()) by {
        assert(parent2.to_multiset().len() == parent1.to_multiset().len());
    }
    assert(seg.no_duplicates());
    seg.unique_seq_to_set();
    let set = seg.to_set();
    assert forall|x: usize| #[trigger] set.contains(x) implies parent2.contains(x) by {
        let w = choose|w: int| 0 <= w < seg.len() && seg[w] == x;
        assert(parent1[a + w] == x);
        assert(parent1.to_multiset().count(x) > 0);
    }
    lemma_filter_out_set_len(parent2, set);
    lemma_filter_congruent(parent2, |x: usize| !seg.contains(x), |x: usize| !set.contains(x));
}

/// The child of an order crossover holds each node of the parents once.
pub proof fn lemma_ox_child_permutes(parent1: Seq<usize>, parent2: Seq<usize>, a: int, b: int)
    requires
        crossover_parents(parent1, parent2),
        0 <= a <= b <= parent1.len(),
    ensures
        ox_child(parent1, parent2, a, b).no_duplicates(),
        ox_child(parent1, parent2, a, b).to_set() == parent1.to_set(),
{
    let seg = parent1.subrange(a, b);
    let pred = |x: usize| !parent1.subrange(a, b).contains(x);
    let fill = ox_fill(parent1, parent2, a, b);
    let child = ox_child(parent1, parent2, a, b);
    lemma_ox_fill_len(parent1, parent2, a, b);
    lemma_filter_no_duplicates(parent2, pred);
    parent1.to_multiset_ensures();
    parent2.to_multiset_ensures();
    // Every place holds a node of parent1; segment nodes and fill nodes differ.
    assert forall|i: int| 0 <= i < child.len() implies parent1.contains(#[trigger] child[i]) && (!(a <= i < b)
        ==> !seg.contains(child[i])) by {
        if a <= i < b {
            assert(child[i] == parent1[i]);
        } else {
            let f = if i < a { i } else { i - (b - a) };
            assert(child[i] == fill[f]);
            assert(fill.contains(fill[f]));
            assert(parent2.to_multiset().count(fill[f]) > 0);
        }
    }
    assert forall|i: int, j: int| 0 <= i < j < child.len() implies child[i] != child[j] by {
        if a <= i < b && a <= j < b {
        } else if a <= i < b {
            assert(seg.contains(child[i])) by {
                assert(seg[i - a] == child[i]);
            }
        } else if a <= j < b {
            assert(seg.contains(child[j])) by {
                assert(seg[j - a] == child[j]);
            }
        } else {
            let fi = if i < a { i } else { i - (b - a) };
            let fj = if j < a { j } else { j - (b - a) };
            assert(fi < fj);
        }
    }
    assert forall|x: usize| child.to_set().contains(x) == parent1.to_set().contains(x) by {
        if parent1.contains(x) {
            let w = choose|w: int| 0 <= w < parent1.len() && parent1[w] == x;
            if a <= w < b {
                assert(child[w] == x);
            } else {
                assert(!seg.contains(x)) by {
                    if seg.contains(x) {
                        let v = choose|v: int| 0 <= v < seg.len() && seg[v] == x;
                        assert(parent1[a + v] == parent1[w]);
                    }
                }
                assert(parent1.to_multiset().count(x) > 0);
                let u = choose|u: int| 0 <= u < parent2.len() && parent2[u] == x;
                parent2.lemma_filter_contains(pred, u);
                let f = choose|f: int| 0 <= f < fill.len() && fill[f] == x;
                let i = if f < a { f } else { f + (b - a) };
                assert(child[i] == x);
            }
        }
        if child.to_set().contains(x) {
            let i = choose|i: int| 0 <= i < child.len() && child[i] == x;
            assert(parent1.contains(child[i]));
        }
    }
    assert(child.to_set() =~= parent1.to_set());
}

/// Whether the list holds the value.
fn contains_value(v: &Vec<usize>, x: usize) -> (res: bool)
    ensures
        res == v@.contains(x),
{
    let mut i: usize = 0;
    while i < v.len()
        invariant
            i <= v@.len(),
            forall|j: int| 0 <= j < i ==> v@[j] != x,
        decreases v@.len() - i,
    {
        if v[i] == x {
            return true;
        }
        i += 1;
    }
    false
}

/// Order crossover of two node orders: a random segment of `parent1` stays
/// in place and the other places take the remaining nodes in `parent2`
/// order. The child orders the same nodes.
pub fn crossover(parent1: &Vec<usize>, parent2: &Vec<usize>, rng: &mut ThreadRng) -> (child: Vec<usize>)
    requires
        crossover_parents(parent1@, parent2@),
    ensures
        exists|a: int, b: int| 0 <= a <= b < parent1@.len() && #[trigger] ox_child(parent1@, parent2@, a, b) == child@,
        child@.no_duplicates(),
        child@.to_set() == parent1@.to_set(),
{
    let size = parent1.len();
    let i = random_below(rng, size);
    let j = random_below(rng, size);
    let (a, b) = if i <= j {
        (i, j)
    } else {
        (j, i)
    };
    ox_crossover(parent1, parent2, a, b)
}

/// Order crossover with the kept segment `a..b`: the places `a..b` keep
/// `parent1`'s nodes, the other places take the nodes of `parent2` that are
/// not in that segment, in `parent2` order.
pub fn ox_crossover(parent1: &Vec<usize>, parent2: &Vec<usize>, a: usize, b: usize) -> (child: Vec<usize>)
    requires
        crossover_parents(parent1@, parent2@),
        a <= b < parent1@.len(),
    ensures
        child@ == ox_child(parent1@, parent2@, a as int, b as int),
        child@.no_duplicates(),
        child@.to_set() == parent1@.to_set(),
{
    let size = parent1.len();
    let ghost seg = parent1@.subrange(a as int, b as int);
    let ghost pred = |x: usize| !parent1@.subrange(a as int, b as int).contains(x);
    proof {
        lemma_ox_fill_len(parent1@, parent2@, a as int, b as int);
        lemma_ox_child_permutes(parent1@, parent2@, a as int, b as int);
        parent1@.to_multiset_ensures();
        parent2@.to_multiset_ensures();
    }
    let mut child: Vec<usize> = Vec::new();
    let mut k: usize = 0;
    while k < size
        invariant
            k <= size,
            child@.len() == k,
            forall|m: int| 0 <= m < k ==> child@[m] == usize::MAX,
        decreases size - k,
    {
        child.push(usize::MAX);
        k += 1;
    }
    let mut k: usize = a;
    while k < b
        invariant
            a <= k <= b < size == parent1@.len(),
            child@.len() == size,
            forall|m: int| 0 <= m < size ==> #[trigger] child@[m] == if a <= m < k { parent1@[m] } else { usize::MAX },
        decreases b - k,
    {
        child.set(k, parent1[k]);
        k += 1;
    }
    // The nodes of parent2 that the child does not hold yet.
    let mut fill: Vec<usize> = Vec::new();
    let mut k: usize = 0;
    while k < parent2.len()
        invariant
            k <= parent2@.len(),
            size == parent1@.len(),
            crossover_parents(parent1@, parent2@),
            child@.len() == size,
            forall|m: int| 0 <= m < size ==> #[trigger] child@[m] == if a <= m < b { parent1@[m] } else { usize::MAX },
            fill@ == parent2@.subrange(0, k as int).filter(pred),
            a <= b < size,
            seg == parent1@.subrange(a as int, b as int),
            pred == (|x: usize| !parent1@.subrange(a as int, b as int).contains(x)),
        decreases parent2@.len() - k,
    {
        let x = parent2[k];
        proof {
            reveal(Seq::filter);
            parent1@.to_multiset_ensures();
            parent2@.to_multiset_ensures();
            assert(parent2@.contains(x));
            assert(parent1@.to_multiset().count(x) > 0);
            assert(parent2@.subrange(0, k + 1).drop_last() =~= parent2@.subrange(0, k as int));
            assert(parent2@.to_multiset().count(x) > 0);
            assert(x != usize::MAX);
            assert(child@.contains(x) == seg.contains(x)) by {
                if child@.contains(x) {
                    let w = choose|w: int| 0 <= w < child@.len() && child@[w] == x;
                    assert(seg[w - a] == x);
                }
                if seg.contains(x) {
                    let w = choose|w: int| 0 <= w < seg.len() && seg[w] == x;
                    assert(child@[a + w] == x);
                }
            }
        }
        if !contains_value(&child, x) {
            fill.push(x);
        }
        k += 1;
    }
    assert(parent2@.subrange(0, parent2@.len() as int) =~= parent2@);
    let ghost fill_all = fill@;
    assert(fill_all == ox_fill(parent1@, parent2@, a as int, b as int));
    let mut used: usize = 0;
    let mut k: usize = 0;
    while k < size
        invariant
            k <= size,
            size == parent1@.len(),
            a <= b < size,
            !parent1@.contains(usize::MAX),
            fill@ == fill_all,
            fill_all.len() == size - (b - a),
            child@.len() == size,
            used == if k <= a { k as int } else if k <= b { a as int } else { k - (b - a) },
            forall|m: int|
                0 <= m < size ==> #[trigger] child@[m] == if a <= m < b {
                    parent1@[m]
                } else if m >= k {
                    usize::MAX
                } else if m < a {
                    fill_all[m]
                } else {
                    fill_all[m - (b - a)]
                },
        decreases size - k,
    {
        proof {
            if a <= k < b {
                assert(parent1@.contains(parent1@[k as int]));
            }
        }
        if child[k] == usize::MAX {
            child.set(k, fill[used]);
            used += 1;
        }
        k += 1;
    }
    proof {
        assert(child@ =~= ox_child(parent1@, parent2@, a as int, b as int));
    }
    child
}

} // verus!
