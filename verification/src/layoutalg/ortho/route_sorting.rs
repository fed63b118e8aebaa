//! Ordering of routes by their topology.
//!
//! A directed graph holds the "greater than" relation between routes; edges
//! that would close a cycle are refused, so a topological order always exists.

use std::collections::VecDeque;
use vstd::prelude::*;

verus! {

/// There is an edge from `u` to `v`.
pub open spec fn edge(g: Seq<Seq<usize>>, u: usize, v: usize) -> bool {
    u < g.len() && g[u as int].contains(v)
}

/// `p` is a non-empty walk along edges of `g`.
pub open spec fn is_path(g: Seq<Seq<usize>>, p: Seq<usize>) -> bool {
    &&& p.len() >= 1
    &&& forall|i: int| 0 <= i < p.len() - 1 ==> #[trigger] edge(g, p[i], p[i + 1])
}

/// `b` can be reached from `a` (every node reaches itself).
pub open spec fn reaches(g: Seq<Seq<usize>>, a: usize, b: usize) -> bool {
    exists|p: Seq<usize>| #[trigger] is_path(g, p) && p[0] == a && p.last() == b
}

/// Every edge target names a node of the graph.
pub open spec fn graph_wf(g: Seq<Seq<usize>>) -> bool {
    forall|u: int, j: int| 0 <= u < g.len() && 0 <= j < g[u].len() ==> #[trigger] g[u][j] < g.len()
}

/// No edge lies on a cycle.
pub open spec fn acyclic(g: Seq<Seq<usize>>) -> bool {
    forall|u: usize, v: usize| #[trigger] edge(g, u, v) ==> !reaches(g, v, u)
}

/// `order` lists every node of `g` once, and each edge points forward in it.
pub open spec fn is_topological_order(g: Seq<Seq<usize>>, order: Seq<usize>) -> bool {
    &&& order.len() == g.len()
    &&& order.no_duplicates()
    &&& forall|i: int| 0 <= i < order.len() ==> #[trigger] order[i] < g.len()
    &&& forall|i: int, j: int|
        0 <= i < order.len() && 0 <= j < order.len() && #[trigger] edge(g, order[i], order[j])
            ==> i < j
}

pub proof fn lemma_reaches_refl(g: Seq<Seq<usize>>, a: usize)
    ensures
        reaches(g, a, a),
{
    assert(is_path(g, seq![a]));
}

pub proof fn lemma_reaches_step(g: Seq<Seq<usize>>, a: usize, b: usize, c: usize)
    requires
        reaches(g, a, b),
        edge(g, b, c),
    ensures
        reaches(g, a, c),
{
    let p = choose|p: Seq<usize>| #[trigger] is_path(g, p) && p[0] == a && p.last() == b;
    let q = p.push(c);
    assert forall|i: int| 0 <= i < q.len() - 1 implies #[trigger] edge(g, q[i], q[i + 1]) by {
        if i < p.len() - 1 {
            assert(edge(g, p[i], p[i + 1]));
        }
    }
    assert(is_path(g, q));
}

pub proof fn lemma_reaches_trans(g: Seq<Seq<usize>>, a: usize, b: usize, c: usize)
    requires
        reaches(g, a, b),
        reaches(g, b, c),
    ensures
        reaches(g, a, c),
{
    let p = choose|p: Seq<usize>| #[trigger] is_path(g, p) && p[0] == b && p.last() == c;
    lemma_reaches_along(g, a, p, p.len() as int);
}

proof fn lemma_reaches_along(g: Seq<Seq<usize>>, a: usize, p: Seq<usize>, k: int)
    requires
        is_path(g, p),
        reaches(g, a, p[0]),
        1 <= k <= p.len(),
    ensures
        reaches(g, a, p[k - 1]),
    decreases k,
{
    if k > 1 {
        lemma_reaches_along(g, a, p, k - 1);
        let i = k - 2;
        assert(edge(g, p[i], p[i + 1]));
        lemma_reaches_step(g, a, p[k - 2], p[k - 1]);
    }
}

/// A set of nodes closed under edges holds every node reachable from it.
proof fn lemma_closed_contains_reachable(
    g: Seq<Seq<usize>>,
    in_set: spec_fn(usize) -> bool,
    a: usize,
    b: usize,
)
    requires
        in_set(a),
        reaches(g, a, b),
        forall|u: usize, v: usize| in_set(u) && #[trigger] edge(g, u, v) ==> in_set(v),
    ensures
        in_set(b),
{
    let p = choose|p: Seq<usize>| #[trigger] is_path(g, p) && p[0] == a && p.last() == b;
    lemma_closed_path(g, in_set, p, p.len() as int);
}

proof fn lemma_closed_path(g: Seq<Seq<usize>>, in_set: spec_fn(usize) -> bool, p: Seq<usize>, k: int)
    requires
        is_path(g, p),
        in_set(p[0]),
        1 <= k <= p.len(),
        forall|u: usize, v: usize| in_set(u) && #[trigger] edge(g, u, v) ==> in_set(v),
    ensures
        in_set(p[k - 1]),
    decreases k,
{
    if k > 1 {
        lemma_closed_path(g, in_set, p, k - 1);
        let i = k - 2;
        assert(edge(g, p[i], p[i + 1]));
    }
}

/// The graph after adding the edge `from -> to`.
pub open spec fn graph_add_edge(g: Seq<Seq<usize>>, from: usize, to: usize) -> Seq<Seq<usize>> {
    g.update(from as int, g[from as int].push(to))
}

/// Reachability after adding an edge: either the old graph already connected
/// the two nodes, or the new edge is used.
proof fn lemma_reaches_after_add(g: Seq<Seq<usize>>, from: usize, to: usize, a: usize, b: usize)
    requires
        from < g.len(),
        reaches(graph_add_edge(g, from, to), a, b),
    ensures
        reaches(g, a, b) || (reaches(g, a, from) && reaches(g, to, b)),
{
    let g2 = graph_add_edge(g, from, to);
    let p = choose|p: Seq<usize>| #[trigger] is_path(g2, p) && p[0] == a && p.last() == b;
    lemma_reaches_after_add_prefix(g, from, to, p, p.len() as int);
}

proof fn lemma_reaches_after_add_prefix(g: Seq<Seq<usize>>, from: usize, to: usize, p: Seq<usize>, k: int)
    requires
        from < g.len(),
        is_path(graph_add_edge(g, from, to), p),
        1 <= k <= p.len(),
    ensures
        reaches(g, p[0], p[k - 1]) || (reaches(g, p[0], from) && reaches(g, to, p[k - 1])),
    decreases k,
{
    let g2 = graph_add_edge(g, from, to);
    if k == 1 {
        lemma_reaches_refl(g, p[0]);
    } else {
        lemma_reaches_after_add_prefix(g, from, to, p, k - 1);
        let i = k - 2;
        let y = p[i];
        let z = p[i + 1];
        assert(edge(g2, y, z));
        if edge(g, y, z) {
            if reaches(g, p[0], y) {
                lemma_reaches_step(g, p[0], y, z);
            } else {
                lemma_reaches_step(g, to, y, z);
            }
        } else {
            // the new edge: y == from, z == to
            assert(y == from && z == to) by {
                if y != from {
                    assert(g2[y as int] == g[y as int]);
                } else {
                    let s = g[from as int].push(to);
                    let j = choose|j: int| 0 <= j < s.len() && s[j] == z;
                    if j < g[from as int].len() {
                        assert(g[from as int][j] == z);
                    }
                }
            }
            if reaches(g, p[0], y) {
                lemma_reaches_refl(g, to);
            } else {
                lemma_reaches_refl(g, to);
            }
        }
    }
}

/// Adding `from -> to` to an acyclic graph in which `to` does not reach
/// `from` keeps it acyclic.
pub proof fn lemma_add_edge_keeps_acyclic(g: Seq<Seq<usize>>, from: usize, to: usize)
    requires
        from < g.len(),
        acyclic(g),
        !reaches(g, to, from),
    ensures
        acyclic(graph_add_edge(g, from, to)),
{
    let g2 = graph_add_edge(g, from, to);
    assert forall|u: usize, v: usize| #[trigger] edge(g2, u, v) implies !reaches(g2, v, u) by {
        if reaches(g2, v, u) {
            lemma_reaches_after_add(g, from, to, v, u);
            let old_edge = edge(g, u, v);
            if !old_edge {
                assert(u == from && v == to) by {
                    if u != from {
                        assert(g2[u as int] == g[u as int]);
                    } else {
                        let s = g[from as int].push(to);
                        let j = choose|j: int| 0 <= j < s.len() && s[j] == v;
                        if j < g[from as int].len() {
                            assert(g[from as int][j] == v);
                        }
                    }
                }
                // to reaches from in the old graph: either directly or through from
                if !reaches(g, v, u) {
                    lemma_reaches_refl(g, from);
                }
            } else {
                if !reaches(g, v, u) {
                    // v reaches from, to reaches u, u -> v
                    lemma_reaches_step(g, to, u, v);
                    lemma_reaches_trans(g, to, v, from);
                }
            }
        }
    }
}

/// Every edge of `g1` is an edge of `g2`.
pub open spec fn subgraph(g1: Seq<Seq<usize>>, g2: Seq<Seq<usize>>) -> bool {
    &&& g1.len() == g2.len()
    &&& forall|u: usize, v: usize| #[trigger] edge(g1, u, v) ==> edge(g2, u, v)
}

/// Reachability is kept when edges are added.
pub proof fn lemma_reaches_subgraph(g1: Seq<Seq<usize>>, g2: Seq<Seq<usize>>, a: usize, b: usize)
    requires
        subgraph(g1, g2),
        reaches(g1, a, b),
    ensures
        reaches(g2, a, b),
{
    let p = choose|p: Seq<usize>| #[trigger] is_path(g1, p) && p[0] == a && p.last() == b;
    assert forall|i: int| 0 <= i < p.len() - 1 implies #[trigger] edge(g2, p[i], p[i + 1]) by {
        assert(edge(g1, p[i], p[i + 1]));
    }
    assert(is_path(g2, p));
}

/// Adding an edge gives a supergraph with one more edge.
pub proof fn lemma_add_edge_supergraph(g: Seq<Seq<usize>>, from: usize, to: usize)
    requires
        from < g.len(),
    ensures
        subgraph(g, graph_add_edge(g, from, to)),
        edge(graph_add_edge(g, from, to), from, to),
        forall|u: usize, v: usize| #[trigger] edge(graph_add_edge(g, from, to), u, v) ==> edge(g, u, v) || (u == from && v == to),
        edges_total(graph_add_edge(g, from, to), g.len() as int) == edges_total(g, g.len() as int) + 1,
{
    let g2 = graph_add_edge(g, from, to);
    assert forall|u: usize, v: usize| #[trigger] edge(g, u, v) implies edge(g2, u, v) by {
        let j = choose|j: int| 0 <= j < g[u as int].len() && #[trigger] g[u as int][j] == v;
        assert(g2[u as int][j] == v);
    }
    assert(g2[from as int][g[from as int].len() as int] == to);
    assert forall|u: usize, v: usize| #[trigger] edge(g2, u, v) implies edge(g, u, v) || (u == from && v == to) by {
        if u != from {
            assert(g2[u as int] == g[u as int]);
        } else {
            let j = choose|j: int| 0 <= j < g2[u as int].len() && g2[u as int][j] == v;
            if j < g[u as int].len() {
                assert(g[u as int][j] == v);
            }
        }
    }
    lemma_edges_total_add(g, from, to, g.len() as int);
}

proof fn lemma_edges_total_add(g: Seq<Seq<usize>>, from: usize, to: usize, k: int)
    requires
        from < g.len(),
        0 <= k <= g.len(),
    ensures
        edges_total(graph_add_edge(g, from, to), k) == edges_total(g, k) + if from < k { 1nat } else { 0nat },
    decreases k,
{
    if k > 0 {
        lemma_edges_total_add(g, from, to, k - 1);
    }
}

/// Number of occurrences of `v` in `s`.
pub open spec fn count_of(s: Seq<usize>, v: usize) -> nat
    decreases s.len(),
{
    if s.len() == 0 {
        0
    } else {
        count_of(s.drop_last(), v) + if s.last() == v { 1nat } else { 0nat }
    }
}

proof fn lemma_count_split(s: Seq<usize>, v: usize, i: int)
    requires
        0 <= i <= s.len(),
    ensures
        count_of(s, v) == count_of(s.subrange(0, i), v) + count_of(s.subrange(i, s.len() as int), v),
    decreases s.len(),
{
    if i == s.len() {
        assert(s.subrange(0, i) =~= s);
        assert(s.subrange(i, s.len() as int) =~= Seq::<usize>::empty());
    } else {
        lemma_count_split(s.drop_last(), v, i);
        assert(s.drop_last().subrange(0, i) =~= s.subrange(0, i));
        assert(s.subrange(i, s.len() as int).drop_last() =~= s.drop_last().subrange(i, s.len() - 1));
    }
}

proof fn lemma_count_positive(s: Seq<usize>, v: usize)
    ensures
        count_of(s, v) > 0 <==> s.contains(v),
    decreases s.len(),
{
    if s.len() > 0 {
        lemma_count_positive(s.drop_last(), v);
        if s.drop_last().contains(v) {
            let j = choose|j: int| 0 <= j < s.drop_last().len() && s.drop_last()[j] == v;
            assert(s[j] == v);
        }
        if s.contains(v) && s.last() != v {
            let j = choose|j: int| 0 <= j < s.len() && s[j] == v;
            assert(s.drop_last()[j] == v);
        }
    }
}

proof fn lemma_count_le_len(s: Seq<usize>, v: usize)
    ensures
        count_of(s, v) <= s.len(),
    decreases s.len(),
{
    if s.len() > 0 {
        lemma_count_le_len(s.drop_last(), v);
    }
}

/// Number of edges into `v` from the nodes below `k` that are not removed.
pub open spec fn in_count(g: Seq<Seq<usize>>, removed: Set<usize>, v: usize, k: int) -> nat
    decreases k,
{
    if k <= 0 {
        0
    } else {
        in_count(g, removed, v, k - 1) + if removed.contains((k - 1) as usize) {
            0nat
        } else {
            count_of(g[k - 1], v)
        }
    }
}

/// Total number of edges from the nodes below `k`.
pub open spec fn edges_total(g: Seq<Seq<usize>>, k: int) -> nat
    decreases k,
{
    if k <= 0 {
        0
    } else {
        edges_total(g, k - 1) + g[k - 1].len()
    }
}

proof fn lemma_in_count_le_total(g: Seq<Seq<usize>>, removed: Set<usize>, v: usize, k: int)
    ensures
        in_count(g, removed, v, k) <= edges_total(g, k),
    decreases k,
{
    if k > 0 {
        lemma_in_count_le_total(g, removed, v, k - 1);
        lemma_count_le_len(g[k - 1], v);
    }
}

proof fn lemma_in_count_remove(g: Seq<Seq<usize>>, removed: Set<usize>, x: usize, v: usize, k: int)
    requires
        !removed.contains(x),
        0 <= k <= usize::MAX + 1,
    ensures
        x < k ==> in_count(g, removed, v, k) == in_count(g, removed.insert(x), v, k) + count_of(g[x as int], v),
        x >= k ==> in_count(g, removed, v, k) == in_count(g, removed.insert(x), v, k),
    decreases k,
{
    if k > 0 {
        lemma_in_count_remove(g, removed, x, v, k - 1);
    }
}

proof fn lemma_in_count_source(g: Seq<Seq<usize>>, removed: Set<usize>, x: usize, v: usize, k: int)
    requires
        !removed.contains(x),
        x < k,
        g[x as int].contains(v),
    ensures
        in_count(g, removed, v, k) > 0,
    decreases k,
{
    if x < k - 1 {
        lemma_in_count_source(g, removed, x, v, k - 1);
    } else {
        lemma_count_positive(g[x as int], v);
    }
}

proof fn lemma_in_count_has_source(g: Seq<Seq<usize>>, removed: Set<usize>, v: usize, k: int) -> (u: usize)
    requires
        in_count(g, removed, v, k) > 0,
        k <= g.len(),
        g.len() <= usize::MAX,
    ensures
        u < k,
        !removed.contains(u),
        edge(g, u, v),
    decreases k,
{
    if in_count(g, removed, v, k - 1) > 0 {
        lemma_in_count_has_source(g, removed, v, k - 1)
    } else {
        let u = (k - 1) as usize;
        lemma_count_positive(g[u as int], v);
        u
    }
}

/// Distinct values below `n`: at most `n` of them, and if exactly `n`, every
/// value below `n` occurs.
pub(crate) proof fn lemma_distinct_bounded(s: Seq<usize>, n: nat)
    requires
        s.no_duplicates(),
        forall|i: int| 0 <= i < s.len() ==> #[trigger] s[i] < n,
    ensures
        s.len() <= n,
        s.len() == n ==> forall|v: usize| v < n ==> s.contains(v),
{
    let full = Set::new(|v: usize| v < n);
    assert(full =~= Set::<int>::new(|i: int| 0 <= i < n).map(|i: int| i as usize)) by {
        assert forall|v: usize| full.contains(v) implies Set::<int>::new(|i: int| 0 <= i < n).map(
            |i: int| i as usize,
        ).contains(v) by {
            assert(Set::<int>::new(|i: int| 0 <= i < n).contains(v as int));
        }
    }
    lemma_full_set_len(n);
    s.unique_seq_to_set();
    assert(s.to_set().subset_of(full));
    vstd::set_lib::lemma_len_subset(s.to_set(), full);
    if s.len() == n {
        assert forall|v: usize| v < n implies s.contains(v) by {
            if !s.contains(v) {
                assert(s.to_set().subset_of(full.remove(v)));
                vstd::set_lib::lemma_len_subset(s.to_set(), full.remove(v));
            }
        }
    }
}

proof fn lemma_full_set_len(n: nat)
    ensures
        Set::new(|v: usize| v < n).finite(),
        Set::new(|v: usize| v < n).len() <= n,
        n <= usize::MAX + 1 ==> Set::new(|v: usize| v < n).len() == n,
    decreases n,
{
    let full = Set::new(|v: usize| v < n);
    if n == 0 {
        assert(full =~= Set::<usize>::empty());
    } else {
        lemma_full_set_len((n - 1) as nat);
        let smaller = Set::new(|v: usize| v < (n - 1) as nat);
        if n - 1 <= usize::MAX {
            assert(full =~= smaller.insert((n - 1) as usize));
        } else {
            assert(full =~= smaller);
        }
    }
}

/// Fewer than `n` distinct values leave some value below `n` out.
proof fn lemma_distinct_missing(s: Seq<usize>, n: nat) -> (v: usize)
    requires
        s.no_duplicates(),
        s.len() < n,
        n <= usize::MAX + 1,
    ensures
        v < n,
        !s.contains(v),
{
    let full = Set::new(|v: usize| v < n);
    lemma_full_set_len(n);
    s.unique_seq_to_set();
    if full.subset_of(s.to_set()) {
        vstd::set_lib::lemma_len_subset(full, s.to_set());
        assert(false);
    }
    let v = choose|v: usize| full.contains(v) && !s.to_set().contains(v);
    v
}

proof fn lemma_edges_total_mono(g: Seq<Seq<usize>>, a: int, b: int)
    requires
        a <= b,
    ensures
        edges_total(g, a) <= edges_total(g, b),
    decreases b - a,
{
    if a < b {
        lemma_edges_total_mono(g, a, b - 1);
    }
}

proof fn lemma_count_single(a: usize, w: usize)
    ensures
        count_of(seq![a], w) == if a == w { 1nat } else { 0nat },
{
    assert(seq![a].drop_last() =~= Seq::<usize>::empty());
    assert(count_of(Seq::<usize>::empty(), w) == 0);
}

/// A sequence of values below `n` longer than `n` repeats a value.
proof fn lemma_pigeonhole(s: Seq<usize>, n: nat) -> (ij: (int, int))
    requires
        forall|i: int| 0 <= i < s.len() ==> #[trigger] s[i] < n,
        s.len() > n,
    ensures
        0 <= ij.0 < ij.1 < s.len(),
        s[ij.0] == s[ij.1],
{
    if s.no_duplicates() {
        lemma_distinct_bounded(s, n);
        assert(false);
        (0, 1)
    } else {
        choose|i: int, j: int| 0 <= i < j < s.len() && s[i] == s[j]
    }
}

/// A walk in which every node is entered from its successor in the sequence.
spec fn backward_walk(g: Seq<Seq<usize>>, w: Seq<usize>) -> bool {
    forall|k: int| 0 <= k < w.len() - 1 ==> #[trigger] edge(g, w[k + 1], w[k])
}

proof fn lemma_backward_walk_reaches(g: Seq<Seq<usize>>, w: Seq<usize>, i: int, j: int)
    requires
        backward_walk(g, w),
        0 <= i <= j < w.len(),
    ensures
        reaches(g, w[j], w[i]),
    decreases j - i,
{
    if i == j {
        lemma_reaches_refl(g, w[i]);
    } else {
        lemma_backward_walk_reaches(g, w, i, j - 1);
        let k = j - 1;
        assert(edge(g, w[k + 1], w[k]));
        assert(is_path(g, seq![w[j], w[j - 1]]));
        lemma_reaches_trans(g, w[j], w[j - 1], w[i]);
    }
}

/// In an acyclic graph, a non-empty set of nodes in which every node has an
/// incoming edge from the set cannot exist.
proof fn lemma_acyclic_has_source(g: Seq<Seq<usize>>, in_set: spec_fn(usize) -> bool, start: usize)
    requires
        acyclic(g),
        g.len() <= usize::MAX,
        forall|v: usize| #[trigger] in_set(v) ==> v < g.len(),
        forall|v: usize| #[trigger] in_set(v) ==> exists|u: usize| in_set(u) && #[trigger] edge(g, u, v),
    ensures
        !in_set(start),
{
    if in_set(start) {
        lemma_acyclic_walk_contradiction(g, in_set, start);
    }
}

#[verifier::rlimit(40)]
proof fn lemma_acyclic_walk_contradiction(g: Seq<Seq<usize>>, in_set: spec_fn(usize) -> bool, start: usize)
    requires
        acyclic(g),
        g.len() <= usize::MAX,
        in_set(start),
        forall|v: usize| #[trigger] in_set(v) ==> v < g.len(),
        forall|v: usize| #[trigger] in_set(v) ==> exists|u: usize| in_set(u) && #[trigger] edge(g, u, v),
    ensures
        g.len() > usize::MAX,
{
    let w = build_backward_walk(g, in_set, start, g.len() + 1);
    let (i, j) = lemma_pigeonhole(w, g.len());
    // w[j] -> w[j-1] ... -> w[i] == w[j]
    let k = j - 1;
    assert(edge(g, w[k + 1], w[k]));
    lemma_backward_walk_reaches(g, w, i, j - 1);
    let a = w[k + 1];
    let b = w[k];
    assert(a == w[j] && b == w[j - 1]);
    assert(reaches(g, b, a));
    assert(edge(g, a, b));
    assert(!reaches(g, b, a));
}

#[verifier::rlimit(40)]
proof fn build_backward_walk(g: Seq<Seq<usize>>, in_set: spec_fn(usize) -> bool, start: usize, len: nat) -> (w: Seq<usize>)
    requires
        in_set(start),
        len >= 1,
        forall|v: usize| #[trigger] in_set(v) ==> v < g.len(),
        forall|v: usize| #[trigger] in_set(v) ==> exists|u: usize| in_set(u) && #[trigger] edge(g, u, v),
    ensures
        w.len() == len,
        backward_walk(g, w),
        forall|k: int| 0 <= k < w.len() ==> in_set(#[trigger] w[k]),
        forall|k: int| 0 <= k < w.len() ==> #[trigger] w[k] < g.len(),
    decreases len,
{
    if len == 1 {
        seq![start]
    } else {
        let w = build_backward_walk(g, in_set, start, (len - 1) as nat);
        let last = w.last();
        assert(in_set(last));
        let u = choose|u: usize| in_set(u) && #[trigger] edge(g, u, last);
        let w2 = w.push(u);
        assert forall|k: int| 0 <= k < w2.len() - 1 implies #[trigger] edge(g, w2[k + 1], w2[k]) by {
            if k < w.len() - 1 {
                assert(edge(g, w[k + 1], w[k]));
            }
        }
        w2
    }
}

/// The position of node `v` in `order`, for a node it holds.
spec fn position_of(order: Seq<usize>, v: usize) -> int {
    choose|i: int| 0 <= i < order.len() && order[i] == v
}

/// Along a path, positions in a topological order do not go back.
proof fn lemma_path_goes_forward(g: Seq<Seq<usize>>, order: Seq<usize>, p: Seq<usize>, k: int)
    requires
        graph_wf(g),
        is_topological_order(g, order),
        is_path(g, p),
        (p[0] as int) < g.len(),
        0 <= k < p.len(),
    ensures
        (p[k] as int) < g.len(),
        position_of(order, p[0]) <= position_of(order, p[k]),
        0 <= position_of(order, p[k]) < order.len() && order[position_of(order, p[k])] == p[k],
    decreases k,
{
    lemma_distinct_bounded(order, g.len() as nat);
    if k == 0 {
        assert(order.contains(p[0]));
    } else {
        lemma_path_goes_forward(g, order, p, k - 1);
        let i = k - 1;
        assert(edge(g, p[i], p[i + 1]));
        assert(i + 1 == k);
        let j = choose|j: int| 0 <= j < g[p[k - 1] as int].len() && #[trigger] g[p[k - 1] as int][j] == p[k];
        assert((p[k] as int) < g.len());
        assert(order.contains(p[k]));
        let a = position_of(order, p[k - 1]);
        let b = position_of(order, p[k]);
        assert(edge(g, order[a], order[b]));
    }
}

/// A graph with a topological order has no cycle.
pub proof fn lemma_topological_order_acyclic(g: Seq<Seq<usize>>, order: Seq<usize>)
    requires
        graph_wf(g),
        is_topological_order(g, order),
    ensures
        acyclic(g),
{
    assert forall|u: usize, v: usize| #[trigger] edge(g, u, v) implies !reaches(g, v, u) by {
        lemma_distinct_bounded(order, g.len() as nat);
        let j = choose|j: int| 0 <= j < g[u as int].len() && #[trigger] g[u as int][j] == v;
        assert((v as int) < g.len());
        if reaches(g, v, u) {
            let p = choose|p: Seq<usize>| #[trigger] is_path(g, p) && p[0] == v && p.last() == u;
            lemma_path_goes_forward(g, order, p, p.len() - 1);
            assert(order.contains(u));
            assert(order.contains(v));
            let a = position_of(order, u);
            let b = position_of(order, v);
            assert(order[a] == u && order[b] == v);
            assert(edge(g, order[a], order[b]));
        }
    }
}

/// The order graph over `n` routes after the relations `calls` (each a
/// greater and a less route) were offered in turn, a relation being
/// refused when its less route already reaches its greater route.
pub open spec fn orders_applied(n: nat, calls: Seq<(usize, usize)>) -> Seq<Seq<usize>>
    decreases calls.len(),
{
    if calls.len() == 0 {
        Seq::new(n, |i: int| Seq::<usize>::empty())
    } else {
        let g = orders_applied(n, calls.drop_last());
        let (greater, less) = calls.last();
        if reaches(g, less, greater) {
            g
        } else {
            graph_add_edge(g, greater, less)
        }
    }
}

/// How many of the relations `calls` were refused.
pub open spec fn orders_refused(n: nat, calls: Seq<(usize, usize)>) -> nat
    decreases calls.len(),
{
    if calls.len() == 0 {
        0
    } else {
        let g = orders_applied(n, calls.drop_last());
        let (greater, less) = calls.last();
        orders_refused(n, calls.drop_last()) + if reaches(g, less, greater) {
            1nat
        } else {
            0nat
        }
    }
}

/// Whatever relations between the `n` routes are offered, in whatever
/// order, the order graph stays a graph over the `n` routes without a
/// cycle, so it can always be sorted topologically.
pub proof fn lemma_orders_stay_acyclic(n: nat, calls: Seq<(usize, usize)>)
    requires
        forall|k: int| 0 <= k < calls.len() ==> (#[trigger] calls[k]).0 < n && calls[k].1 < n,
    ensures
        orders_applied(n, calls).len() == n,
        graph_wf(orders_applied(n, calls)),
        acyclic(orders_applied(n, calls)),
    decreases calls.len(),
{
    let g = orders_applied(n, calls);
    if calls.len() == 0 {
        assert forall|u: usize, v: usize| #[trigger] edge(g, u, v) implies !reaches(g, v, u) by {
            assert(g[u as int].len() == 0);
        }
    } else {
        let rest = calls.drop_last();
        assert forall|k: int| 0 <= k < rest.len() implies (#[trigger] rest[k]).0 < n && rest[k].1 < n by {
            assert(rest[k] == calls[k]);
        }
        lemma_orders_stay_acyclic(n, rest);
        let g0 = orders_applied(n, rest);
        let (greater, less) = calls.last();
        assert(calls.last() == calls[calls.len() - 1]);
        if !reaches(g0, less, greater) {
            lemma_add_edge_keeps_acyclic(g0, greater, less);
            assert forall|u: int, j: int| 0 <= u < g.len() && 0 <= j < g[u].len() implies #[trigger] g[u][j] < g.len() by {
                if u == greater as int && j == g0[u].len() {
                } else {
                    assert(g[u][j] == g0[u][j]);
                }
            }
        }
    }
}

/// Routes ordered by a directed "is greater than" graph.
pub struct TopologyRouting {
    pub routes_order_graph: Vec<Vec<usize>>,
    pub detected_cycles: usize,
}

impl TopologyRouting {
    /// The order graph as adjacency lists.
    pub open spec fn graph(&self) -> Seq<Seq<usize>> {
        Seq::new(self.routes_order_graph@.len(), |i: int| self.routes_order_graph@[i]@)
    }

    /// Every edge target is a route, and the graph has no cycle.
    pub open spec fn wf(&self) -> bool {
        &&& graph_wf(self.graph())
        &&& acyclic(self.graph())
    }

    /// An order graph over `routes_count` routes without any relation.
    pub fn new(routes_count: usize) -> (res: Self)
        ensures
            res.wf(),
            res.graph() == Seq::new(routes_count as nat, |i: int| Seq::<usize>::empty()),
            res.detected_cycles == 0,
            res.graph() == orders_applied(routes_count as nat, Seq::empty()),
            res.detected_cycles == orders_refused(routes_count as nat, Seq::empty()),
    {
        let mut graph: Vec<Vec<usize>> = Vec::new();
        let mut i: usize = 0;
        while i < routes_count
            invariant
                i <= routes_count,
                graph@.len() == i,
                forall|k: int| 0 <= k < i ==> (#[trigger] graph@[k])@ == Seq::<usize>::empty(),
            decreases routes_count - i,
        {
            graph.push(Vec::new());
            i += 1;
        }
        let res = TopologyRouting { routes_order_graph: graph, detected_cycles: 0 };
        assert(res.graph() =~= Seq::new(routes_count as nat, |i: int| Seq::<usize>::empty()));
        assert forall|u: usize, v: usize| #[trigger] edge(res.graph(), u, v) implies !reaches(res.graph(), v, u) by {
            assert(res.graph()[u as int].len() == 0);
        }
        res
    }

    /// Records that `route_greater` is ordered before `route_less`. The
    /// relation is refused (and counted) when it would close a cycle, that is
    /// when `route_less` already reaches `route_greater`.
    pub fn add_route_ord(&mut self, route_greater: usize, route_less: usize) -> (added: bool)
        requires
            old(self).wf(),
            route_greater < old(self).graph().len(),
            route_less < old(self).graph().len(),
            old(self).detected_cycles < usize::MAX,
        ensures
            final(self).wf(),
            added == !reaches(old(self).graph(), route_less, route_greater),
            added ==> final(self).graph() == graph_add_edge(old(self).graph(), route_greater, route_less),
            added ==> final(self).detected_cycles == old(self).detected_cycles,
            !added ==> final(self).graph() == old(self).graph(),
            !added ==> final(self).detected_cycles == old(self).detected_cycles + 1,
            forall|calls: Seq<(usize, usize)>|
                old(self).graph() == #[trigger] orders_applied(old(self).graph().len(), calls)
                    && old(self).detected_cycles == orders_refused(old(self).graph().len(), calls) ==> final(self).graph()
                    == orders_applied(old(self).graph().len(), calls.push((route_greater, route_less)))
                    && final(self).detected_cycles == orders_refused(
                    old(self).graph().len(),
                    calls.push((route_greater, route_less)),
                ),
    {
        proof {
            assert forall|calls: Seq<(usize, usize)>| #[trigger] calls.push((route_greater, route_less)).drop_last() == calls by {
                assert(calls.push((route_greater, route_less)).drop_last() =~= calls);
            }
        }
        if self.has_path_bfs(route_less, route_greater) {
            self.detected_cycles += 1;
            return false;
        }
        let ghost g = self.graph();
        self.routes_order_graph[route_greater].push(route_less);
        assert(self.graph() =~= graph_add_edge(g, route_greater, route_less));
        proof {
            lemma_add_edge_keeps_acyclic(g, route_greater, route_less);
            let g2 = self.graph();
            assert forall|u: int, j: int| 0 <= u < g2.len() && 0 <= j < g2[u].len() implies #[trigger] g2[u][j] < g2.len() by {
                if u == route_greater && j == g[u].len() {
                } else {
                    assert(g2[u][j] == g[u][j]);
                }
            }
        }
        true
    }

    /// Kahn's algorithm: lists every route once, a greater route before each
    /// route it was ordered above.
    pub fn topological_sort(&self) -> (res: Option<Vec<usize>>)
        requires
            graph_wf(self.graph()),
            edges_total(self.graph(), self.graph().len() as int) <= usize::MAX,
        ensures
            res is Some <==> acyclic(self.graph()),
            res matches Some(sorted) ==> is_topological_order(self.graph(), sorted@),
    {
        let ghost g = self.graph();
        let n = self.routes_order_graph.len();
        let mut in_degree: Vec<usize> = Vec::new();
        let mut i: usize = 0;
        while i < n
            invariant
                i <= n,
                in_degree@.len() == i,
                forall|k: int| 0 <= k < i ==> #[trigger] in_degree@[k] == 0,
            decreases n - i,
        {
            in_degree.push(0);
            i += 1;
        }
        let mut u: usize = 0;
        while u < n
            invariant
                n == g.len(),
                g == self.graph(),
                graph_wf(g),
                edges_total(g, n as int) <= usize::MAX,
                u <= n,
                in_degree@.len() == n,
                forall|w: usize| w < n ==> #[trigger] in_degree@[w as int] == in_count(g, Set::empty(), w, u as int),
            decreases n - u,
        {
            let row = &self.routes_order_graph[u];
            assert(row@ == g[u as int]);
            let mut j: usize = 0;
            proof { lemma_edges_total_mono(g, u + 1, n as int); }
            while j < row.len()
                invariant
                    n == g.len(),
                    graph_wf(g),
                    u < n,
                    row@ == g[u as int],
                    edges_total(g, u + 1) <= usize::MAX,
                    j <= row@.len(),
                    in_degree@.len() == n,
                    forall|w: usize| w < n ==> #[trigger] in_degree@[w as int] == in_count(g, Set::empty(), w, u as int)
                        + count_of(row@.subrange(0, j as int), w),
                decreases row@.len() - j,
            {
                let to = row[j];
                assert(g[u as int][j as int] == to);
                proof {
                    assert(row@.subrange(0, j + 1).drop_last() =~= row@.subrange(0, j as int));
                    lemma_in_count_le_total(g, Set::empty(), to, u as int);
                    lemma_count_le_len(row@.subrange(0, j as int), to);
                }
                in_degree[to] = in_degree[to] + 1;
                proof {
                    assert forall|w: usize| w < n implies #[trigger] in_degree@[w as int] == in_count(g, Set::empty(), w, u as int)
                        + count_of(row@.subrange(0, j + 1), w) by {
                        assert(row@.subrange(0, j + 1).last() == to);
                    }
                }
                j += 1;
            }
            assert(row@.subrange(0, row@.len() as int) =~= row@);
            u += 1;
        }
        let mut stack: Vec<usize> = Vec::new();
        let mut i: usize = 0;
        while i < n
            invariant
                n == g.len(),
                i <= n,
                in_degree@.len() == n,
                stack@.no_duplicates(),
                forall|k: int| 0 <= k < stack@.len() ==> #[trigger] stack@[k] < i && in_degree@[stack@[k] as int] == 0,
                forall|v: usize| v < i && #[trigger] in_degree@[v as int] == 0 ==> stack@.contains(v),
            decreases n - i,
        {
            if in_degree[i] == 0 {
                let ghost s0 = stack@;
                stack.push(i);
                assert forall|v: usize| s0.contains(v) implies stack@.contains(v) by {
                    let k = choose|k: int| 0 <= k < s0.len() && s0[k] == v;
                    assert(stack@[k] == v);
                }
                assert(stack@[s0.len() as int] == i);
            }
            i += 1;
        }
        let mut sorted: Vec<usize> = Vec::new();
        let ghost mut removed: Set<usize> = Set::empty();
        assert(sorted@.to_set() =~= removed);
        loop
            invariant
                n == g.len(),
                g == self.graph(),
                graph_wf(g),
                in_degree@.len() == n,
                removed == sorted@.to_set(),
                sorted@.no_duplicates(),
                forall|k: int| 0 <= k < sorted@.len() ==> #[trigger] sorted@[k] < n,
                forall|w: usize| w < n ==> #[trigger] in_degree@[w as int] == in_count(g, removed, w, n as int),
                forall|w: usize| w < n && #[trigger] removed.contains(w) ==> in_degree@[w as int] == 0,
                stack@.no_duplicates(),
                forall|k: int| 0 <= k < stack@.len() ==> #[trigger] stack@[k] < n && !removed.contains(stack@[k])
                    && in_degree@[stack@[k] as int] == 0,
                forall|v: usize| v < n && !removed.contains(v) && #[trigger] in_degree@[v as int] == 0 ==> stack@.contains(v),
                forall|i: int, j: int| 0 <= i < sorted@.len() && 0 <= j < sorted@.len()
                    && #[trigger] edge(g, sorted@[i], sorted@[j]) ==> i < j,
            decreases n - sorted@.len(),
        {
            let ghost st0 = stack@;
            let x = match stack.pop() {
                Some(x) => x,
                None => {
                    if sorted.len() < n {
                        proof {
                            let missing = lemma_distinct_missing(sorted@, n as nat);
                            let in_set = |v: usize| v < n && !sorted@.contains(v);
                            assert forall|v: usize| #[trigger] in_set(v) implies exists|u: usize| in_set(u) && #[trigger] edge(g, u, v) by {
                                assert(!removed.contains(v));
                                assert(in_degree@[v as int] != 0);
                                let u = lemma_in_count_has_source(g, removed, v, n as int);
                                assert(in_set(u));
                            }
                            if acyclic(g) {
                                lemma_acyclic_has_source(g, in_set, missing);
                            }
                        }
                        return None;
                    }
                    proof {
                        lemma_distinct_bounded(sorted@, n as nat);
                        lemma_topological_order_acyclic(g, sorted@);
                    }
                    return Some(sorted);
                },
            };
            assert(st0.last() == x);
            assert(st0[st0.len() - 1] == x);
            assert forall|v: usize| st0.contains(v) && v != x implies stack@.contains(v) by {
                let k = choose|k: int| 0 <= k < st0.len() && st0[k] == v;
                assert(stack@[k] == v);
            }
            assert forall|k: int| 0 <= k < stack@.len() implies #[trigger] stack@[k] != x by {
                assert(st0[k] == stack@[k]);
            }
            proof {
                if sorted@.len() >= n {
                    lemma_distinct_bounded(sorted@, n as nat);
                    assert(sorted@.contains(x));
                }
            }
            let ghost sorted0 = sorted@;
            let ghost removed0 = removed;
            // every successor of x is still waiting for it
            assert forall|w: usize| #[trigger] edge(g, x, w) implies !removed0.contains(w) && in_degree@[w as int] >= 1 by {
                lemma_in_count_source(g, removed0, x, w, n as int);
            }
            sorted.push(x);
            proof {
                removed = removed.insert(x);
                assert(sorted@.to_set() =~= removed) by {
                    assert forall|v: usize| sorted@.to_set().contains(v) <==> removed.contains(v) by {
                        if sorted@.contains(v) {
                            let k = choose|k: int| 0 <= k < sorted@.len() && sorted@[k] == v;
                            if k < sorted0.len() {
                                assert(sorted0[k] == v);
                            }
                        }
                        if sorted0.contains(v) {
                            let k = choose|k: int| 0 <= k < sorted0.len() && sorted0[k] == v;
                            assert(sorted@[k] == v);
                        }
                        if v == x {
                            assert(sorted@[sorted0.len() as int] == x);
                        }
                    }
                }
                assert forall|i: int, j: int| 0 <= i < sorted@.len() && 0 <= j < sorted@.len()
                    && #[trigger] edge(g, sorted@[i], sorted@[j]) implies i < j by {
                    if i == sorted0.len() {
                        if j < sorted0.len() {
                            assert(removed0.contains(sorted0[j]));
                        }
                    } else if j < sorted0.len() {
                        assert(sorted0[i] == sorted@[i] && sorted0[j] == sorted@[j]);
                    }
                }
                assert forall|w: usize| w < n implies in_count(g, removed0, w, n as int)
                    == in_count(g, removed, w, n as int) + count_of(g[x as int], w) by {
                    lemma_in_count_remove(g, removed0, x, w, n as int);
                }
            }
            let row = &self.routes_order_graph[x];
            assert(row@ == g[x as int]);
            assert(row@.subrange(0, row@.len() as int) =~= row@);
            let mut j: usize = 0;
            while j < row.len()
                invariant
                    n == g.len(),
                    graph_wf(g),
                    x < n,
                    row@ == g[x as int],
                    j <= row@.len(),
                    in_degree@.len() == n,
                    removed.contains(x),
                    forall|w: usize| w < n ==> #[trigger] in_degree@[w as int] == in_count(g, removed, w, n as int)
                        + count_of(row@.subrange(j as int, row@.len() as int), w),
                    forall|w: usize| w < n && #[trigger] removed.contains(w) ==> in_degree@[w as int] == 0,
                    stack@.no_duplicates(),
                    forall|k: int| 0 <= k < stack@.len() ==> #[trigger] stack@[k] < n && !removed.contains(stack@[k])
                        && in_degree@[stack@[k] as int] == 0,
                    forall|v: usize| v < n && !removed.contains(v) && #[trigger] in_degree@[v as int] == 0 ==> stack@.contains(v),
                decreases row@.len() - j,
            {
                let neighbor = row[j];
                assert(g[x as int][j as int] == neighbor);
                let ghost rest = row@.subrange(j as int, row@.len() as int);
                proof {
                    lemma_count_split(rest, neighbor, 1);
                    assert(rest.subrange(0, 1) =~= seq![neighbor]);
                    lemma_count_single(neighbor, neighbor);
                    assert(rest.subrange(1, rest.len() as int) =~= row@.subrange(j + 1, row@.len() as int));
                    assert forall|w: usize| w < n implies count_of(rest, w)
                        == (if neighbor == w { 1nat } else { 0nat }) + count_of(row@.subrange(j + 1, row@.len() as int), w) by {
                        lemma_count_split(rest, w, 1);
                        lemma_count_single(neighbor, w);
                    }
                }
                assert(in_degree@[neighbor as int] >= 1);
                in_degree[neighbor] = in_degree[neighbor] - 1;
                if in_degree[neighbor] == 0 {
                    let ghost s0 = stack@;
                    assert(!s0.contains(neighbor));
                    stack.push(neighbor);
                    assert forall|v: usize| s0.contains(v) implies stack@.contains(v) by {
                        let k = choose|k: int| 0 <= k < s0.len() && s0[k] == v;
                        assert(stack@[k] == v);
                    }
                    assert(stack@[s0.len() as int] == neighbor);
                }
                j += 1;
            }
            assert(row@.subrange(row@.len() as int, row@.len() as int) =~= Seq::<usize>::empty());
        }
    }

    /// Breadth-first search: whether `end` can be reached from `start`.
    fn has_path_bfs(&self, start: usize, end: usize) -> (res: bool)
        requires
            graph_wf(self.graph()),
            start < self.graph().len(),
            end < self.graph().len(),
        ensures
            res == reaches(self.graph(), start, end),
    {
        let ghost g = self.graph();
        if start == end {
            proof { lemma_reaches_refl(g, start); }
            return true;
        }
        let n = self.routes_order_graph.len();
        let mut visited: Vec<bool> = Vec::new();
        let mut i: usize = 0;
        while i < n
            invariant
                i <= n,
                visited@.len() == i,
                forall|k: int| 0 <= k < i ==> !(#[trigger] visited@[k]),
            decreases n - i,
        {
            visited.push(false);
            i += 1;
        }
        let mut queue: VecDeque<usize> = VecDeque::new();
        queue.push_back(start);
        assert(queue@[0] == start);
        proof {
            lemma_reaches_refl(g, start);
            lemma_count_visited_none(visited@, n as int);
        }
        loop
            invariant
                n == g.len(),
                g == self.graph(),
                graph_wf(g),
                start < n,
                end < n,
                start != end,
                visited@.len() == n,
                visited@[start as int] || queue@.contains(start),
                !visited@[end as int],
                !queue@.contains(end),
                forall|k: int| 0 <= k < queue@.len() ==> #[trigger] queue@[k] < n && reaches(g, start, queue@[k]),
                forall|v: usize| v < n && #[trigger] visited@[v as int] ==> reaches(g, start, v),
                forall|v: usize, w: usize| v < n && visited@[v as int] && #[trigger] edge(g, v, w)
                    ==> visited@[w as int] || queue@.contains(w),
                count_visited(visited@, n as int) <= n,
            decreases n - count_visited(visited@, n as int), queue@.len(),
        {
            let ghost q0 = queue@;
            let node = match queue.pop_front() {
                Some(node) => node,
                None => {
                    proof {
                        let in_set = |v: usize| v < n && visited@[v as int];
                        assert forall|u: usize, v: usize| in_set(u) && #[trigger] edge(g, u, v) implies in_set(v) by {
                            assert(v < n);
                        }
                        if reaches(g, start, end) {
                            lemma_closed_contains_reachable(g, in_set, start, end);
                        }
                    }
                    return false;
                },
            };
            assert(q0[0] == node);
            assert(reaches(g, start, node) && node < n);
            assert forall|w: usize| q0.contains(w) && w != node implies queue@.contains(w) by {
                let k = choose|k: int| 0 <= k < q0.len() && q0[k] == w;
                assert(queue@[k - 1] == w);
            }
            if visited[node] {
                continue;
            }
            let ghost vis0 = visited@;
            visited.set(node, true);
            proof {
                lemma_count_visited_set(vis0, node as int, n as int);
                lemma_count_visited_le(visited@, n as int);
            }
            let row = &self.routes_order_graph[node];
            assert(row@ == g[node as int]);
            let mut j: usize = 0;
            while j < row.len()
                invariant
                    n == g.len(),
                    g == self.graph(),
                    graph_wf(g),
                    start < n,
                    end < n,
                    start != end,
                    node < n,
                    row@ == g[node as int],
                    j <= row@.len(),
                    visited@.len() == n,
                    visited@[node as int],
                    visited@[start as int] || queue@.contains(start),
                    !visited@[end as int],
                    !queue@.contains(end),
                    forall|k: int| 0 <= k < queue@.len() ==> #[trigger] queue@[k] < n && reaches(g, start, queue@[k]),
                    forall|v: usize| v < n && #[trigger] visited@[v as int] ==> reaches(g, start, v),
                    forall|v: usize, w: usize| v < n && v != node && visited@[v as int] && #[trigger] edge(g, v, w)
                        ==> visited@[w as int] || queue@.contains(w),
                    forall|k: int| 0 <= k < j ==> visited@[#[trigger] row@[k] as int] || queue@.contains(row@[k]),
                    count_visited(visited@, n as int) <= n,
                    count_visited(visited@, n as int) == count_visited(vis0, n as int) + 1,
                decreases row@.len() - j,
            {
                let neighbor = row[j];
                assert(g[node as int][j as int] == neighbor);
                assert(edge(g, node, neighbor));
                proof { lemma_reaches_step(g, start, node, neighbor); }
                if neighbor == end {
                    return true;
                }
                if !visited[neighbor] {
                    let ghost qb = queue@;
                    queue.push_back(neighbor);
                    assert forall|w: usize| qb.contains(w) implies queue@.contains(w) by {
                        let k = choose|k: int| 0 <= k < qb.len() && qb[k] == w;
                        assert(queue@[k] == w);
                    }
                    assert(queue@[qb.len() as int] == neighbor);
                    assert(!queue@.contains(end)) by {
                        if queue@.contains(end) {
                            let k = choose|k: int| 0 <= k < queue@.len() && queue@[k] == end;
                            if k < qb.len() {
                                assert(qb[k] == end);
                            }
                        }
                    }
                }
                j += 1;
            }
            assert forall|v: usize, w: usize| v < n && visited@[v as int] && #[trigger] edge(g, v, w)
                implies visited@[w as int] || queue@.contains(w) by {
                if v == node {
                    let k = choose|k: int| 0 <= k < row@.len() && row@[k] == w;
                    assert(visited@[row@[k] as int] || queue@.contains(row@[k]));
                }
            }
        }
    }
}

proof fn lemma_count_visited_none(visited: Seq<bool>, k: int)
    requires
        0 <= k <= visited.len(),
        forall|i: int| 0 <= i < visited.len() ==> !#[trigger] visited[i],
    ensures
        count_visited(visited, k) == 0,
    decreases k,
{
    if k > 0 {
        lemma_count_visited_none(visited, k - 1);
    }
}

proof fn lemma_count_visited_le(visited: Seq<bool>, k: int)
    requires
        0 <= k <= visited.len(),
    ensures
        count_visited(visited, k) <= k,
    decreases k,
{
    if k > 0 {
        lemma_count_visited_le(visited, k - 1);
    }
}

proof fn lemma_count_visited_set(visited: Seq<bool>, x: int, k: int)
    requires
        0 <= x < visited.len(),
        !visited[x],
        0 <= k <= visited.len(),
    ensures
        count_visited(visited.update(x, true), k) == count_visited(visited, k) + if x < k { 1nat } else { 0nat },
        count_visited(visited, k) <= k,
    decreases k,
{
    if k > 0 {
        lemma_count_visited_set(visited, x, k - 1);
    }
}

/// Number of visited nodes below `k`.
spec fn count_visited(visited: Seq<bool>, k: int) -> nat
    decreases k,
{
    if k <= 0 {
        0
    } else {
        count_visited(visited, k - 1) + if visited[k - 1] { 1nat } else { 0nat }
    }
}

} // verus!
