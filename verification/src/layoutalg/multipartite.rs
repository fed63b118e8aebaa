//! Multipartite layout support: the order of node groups and of the nodes
//! within each group.

use std::collections::{HashMap, HashSet};
use vstd::prelude::*;

use crate::layoutalg::circular::lists_view;
use crate::IriIndex;

verus! {

/// Position in the list of the `i`-th item of its mountain arrangement of
/// `n` items: the even positions rising, then the odd positions falling.
pub open spec fn mountain_index(n: int, i: int) -> int {
    let rising = (n + 1) / 2;
    if i < rising {
        2 * i
    } else {
        let start = if n % 2 == 0 {
            n - 1
        } else {
            n - 2
        };
        start - 2 * (i - rising)
    }
}

/// The mountain arrangement takes each position once.
pub proof fn lemma_mountain_index_permutes(n: int)
    requires
        n >= 3,
    ensures
        forall|i: int| 0 <= i < n ==> 0 <= #[trigger] mountain_index(n, i) < n,
        forall|i: int, j: int| 0 <= i < j < n ==> #[trigger] mountain_index(n, i) != #[trigger] mountain_index(n, j),
{
    let rising = (n + 1) / 2;
    assert forall|i: int| 0 <= i < n implies 0 <= #[trigger] mountain_index(n, i) < n by {
        if i >= rising {
            assert((i - rising) < n / 2);
        }
    }
    assert forall|i: int, j: int| 0 <= i < j < n implies #[trigger] mountain_index(n, i) != #[trigger] mountain_index(
        n,
        j,
    ) by {
        if i < rising && j >= rising {
            let start = if n % 2 == 0 { n - 1 } else { n - 2 };
            assert(start % 2 == 1);
            assert((start - 2 * (j - rising)) % 2 == 1);
            assert((2 * i) % 2 == 0);
        }
    }
}

/// Rearranges the items as a mountain: every other item rising from the
/// start, then the rest falling back (lists of fewer than three items stay
/// as they are).
pub fn mountain_order<T: Clone>(v: &mut Vec<T>)
    ensures
        final(v)@.len() == old(v)@.len(),
        old(v)@.len() < 3 ==> final(v)@ == old(v)@,
        old(v)@.len() >= 3 ==> forall|i: int|
            0 <= i < old(v)@.len() ==> cloned(
                old(v)@[mountain_index(old(v)@.len() as int, i)],
                #[trigger] final(v)@[i],
            ),
{
    let n = v.len();
    if n < 3 {
        return;
    }
    let rising = n / 2 + n % 2;
    let mut result: Vec<T> = Vec::new();
    // Every other item, rising from the start.
    let mut c: usize = 0;
    while c < rising
        invariant
            n == v@.len(),
            n >= 3,
            rising == (n + 1) / 2,
            c <= rising,
            result@.len() == c,
            forall|k: int| 0 <= k < result@.len() ==> cloned(v@[mountain_index(n as int, k)], #[trigger] result@[k]),
        decreases rising - c,
    {
        let item = v[2 * c].clone();
        result.push(item);
        c += 1;
    }
    // The others, falling back from the last odd position.
    let start = if n % 2 == 0 {
        n - 1
    } else {
        n - 2
    };
    let falling = n / 2;
    let mut c: usize = 0;
    while c < falling
        invariant
            n == v@.len(),
            n >= 3,
            rising == (n + 1) / 2,
            falling == n / 2,
            start == if n % 2 == 0 { n - 1 } else { n - 2 },
            c <= falling,
            result@.len() == rising + c,
            forall|k: int| 0 <= k < result@.len() ==> cloned(v@[mountain_index(n as int, k)], #[trigger] result@[k]),
        decreases falling - c,
    {
        let item = v[start - 2 * c].clone();
        result.push(item);
        c += 1;
    }
    *v = result;
}

/// The group types of the table, in the order the table lists them.
fn group_keys(nodes: &HashMap<IriIndex, Vec<usize>>) -> (res: Vec<IriIndex>)
    ensures
        res@.no_duplicates(),
        res@.to_set() == nodes@.dom(),
{
    let ghost all = vstd::std_specs::iter::IteratorSpec::remaining(&vstd::std_specs::hash::spec_keys_iter(nodes));
    let mut keys: Vec<IriIndex> = Vec::new();
    for k in it: nodes.keys()
        invariant
            it.seq() == all,
            keys@.len() == it.index(),
            forall|i: int| 0 <= i < keys@.len() ==> keys@[i] == *it.seq()[i],
    {
        keys.push(*k);
    }
    assert(keys@ =~= all.unref());
    keys
}

proof fn lemma_swap_multiset<A>(s: Seq<A>, i: int, j: int)
    requires
        0 <= i < s.len(),
        0 <= j < s.len(),
    ensures
        s.update(i, s[j]).update(j, s[i]).to_multiset() == s.to_multiset(),
{
    let t = s.update(i, s[j]);
    vstd::seq_lib::to_multiset_update(s, i, s[j]);
    vstd::seq_lib::to_multiset_update(t, j, s[i]);
    if i != j {
        assert(t[j] == s[j]);
        assert(s.to_multiset().count(s[i]) > 0) by {
            s.to_multiset_ensures();
            assert(s.contains(s[i]));
        }
        assert(s.to_multiset().insert(s[j]).remove(s[i]).insert(s[i]).remove(s[j]) =~= s.to_multiset());
    } else {
        assert(s.update(i, s[j]).update(j, s[i]) =~= s);
    }
}

/// Number of neighbours of a node (none when it has no list).
pub open spec fn degree(adj: Map<usize, Seq<usize>>, x: usize) -> int {
    if adj.contains_key(x) {
        adj[x].len() as int
    } else {
        0
    }
}

fn degree_of(adj_map: &HashMap<usize, Vec<usize>>, x: usize) -> (res: usize)
    ensures
        res == degree(lists_view(adj_map@), x),
{
    match adj_map.get(&x) {
        Some(v) => v.len(),
        None => 0,
    }
}

/// The nodes sorted by their number of neighbours.
pub open spec fn sorted_by_degree(adj: Map<usize, Seq<usize>>, s: Seq<usize>) -> bool {
    forall|i: int, j: int| 0 <= i < j < s.len() ==> degree(adj, #[trigger] s[i]) <= degree(adj, #[trigger] s[j])
}

/// Sorts the nodes by their number of neighbours (nodes with equal numbers
/// keep their order).
fn sort_by_degree(v: &mut Vec<usize>, adj_map: &HashMap<usize, Vec<usize>>)
    ensures
        final(v)@.to_multiset() == old(v)@.to_multiset(),
        final(v)@.len() == old(v)@.len(),
        sorted_by_degree(lists_view(adj_map@), final(v)@),
{
    let ghost adj = lists_view(adj_map@);
    let n = v.len();
    if n == 0 {
        return;
    }
    let mut i: usize = 1;
    while i < n
        invariant
            1 <= i <= n,
            n == v@.len(),
            adj == lists_view(adj_map@),
            v@.to_multiset() == old(v)@.to_multiset(),
            forall|a: int, b: int| 0 <= a < b < i ==> degree(adj, #[trigger] v@[a]) <= degree(adj, #[trigger] v@[b]),
        decreases n - i,
    {
        let mut j: usize = i;
        while j > 0 && degree_of(adj_map, v[j - 1]) > degree_of(adj_map, v[j])
            invariant
                0 <= j <= i < n,
                n == v@.len(),
                adj == lists_view(adj_map@),
                v@.to_multiset() == old(v)@.to_multiset(),
                forall|a: int, b: int|
                    0 <= a < b <= i && a != j && b != j ==> degree(adj, #[trigger] v@[a]) <= degree(adj, #[trigger] v@[b]),
                forall|b: int| j < b <= i ==> degree(adj, v@[j as int]) < degree(adj, #[trigger] v@[b]),
                0 < j < i ==> degree(adj, v@[j - 1]) <= degree(adj, v@[j + 1]),
            decreases j,
        {
            let ghost before = v@;
            let a = v[j - 1];
            let b = v[j];
            v.set(j - 1, b);
            v.set(j, a);
            proof {
                assert(v@ =~= before.update(j - 1, b).update(j as int, a));
                lemma_swap_multiset(before, j - 1, j as int);
            }
            j -= 1;
        }
        i += 1;
    }
}

/// Sorts group types by the size of their groups (equal sizes keep their
/// order).
fn sort_by_group_size(v: &mut Vec<IriIndex>, nodes: &HashMap<IriIndex, Vec<usize>>)
    requires
        forall|i: int| 0 <= i < old(v)@.len() ==> nodes@.contains_key(#[trigger] old(v)@[i]),
    ensures
        final(v)@.to_multiset() == old(v)@.to_multiset(),
        final(v)@.len() == old(v)@.len(),
        forall|i: int, j: int|
            0 <= i < j < final(v)@.len() ==> nodes@[#[trigger] final(v)@[i]]@.len() <= nodes@[#[trigger] final(v)@[j]]@.len(),
{
    let n = v.len();
    if n == 0 {
        return;
    }
    proof {
        old(v)@.to_multiset_ensures();
    }
    let mut i: usize = 1;
    while i < n
        invariant
            1 <= i <= n,
            n == v@.len(),
            v@.to_multiset() == old(v)@.to_multiset(),
            forall|k: int| 0 <= k < n ==> nodes@.contains_key(#[trigger] v@[k]),
            forall|a: int, b: int| 0 <= a < b < i ==> nodes@[#[trigger] v@[a]]@.len() <= nodes@[#[trigger] v@[b]]@.len(),
        decreases n - i,
    {
        let mut j: usize = i;
        while j > 0 && nodes.get(&v[j - 1]).unwrap().len() > nodes.get(&v[j]).unwrap().len()
            invariant
                0 <= j <= i < n,
                n == v@.len(),
                v@.to_multiset() == old(v)@.to_multiset(),
                forall|k: int| 0 <= k < n ==> nodes@.contains_key(#[trigger] v@[k]),
                forall|a: int, b: int|
                    0 <= a < b <= i && a != j && b != j ==> nodes@[#[trigger] v@[a]]@.len() <= nodes@[#[trigger] v@[b]]@.len(),
                forall|b: int| j < b <= i ==> nodes@[v@[j as int]]@.len() < nodes@[#[trigger] v@[b]]@.len(),
                0 < j < i ==> nodes@[v@[j - 1]]@.len() <= nodes@[v@[j + 1]]@.len(),
            decreases j,
        {
            let ghost before = v@;
            let a = v[j - 1];
            let b = v[j];
            v.set(j - 1, b);
            v.set(j, a);
            proof {
                assert(v@ =~= before.update(j - 1, b).update(j as int, a));
                lemma_swap_multiset(before, j - 1, j as int);
            }
            j -= 1;
        }
        i += 1;
    }
}

/// The node at position `p` of `in_list` has `x` as a neighbour.
pub open spec fn links(adj: Map<usize, Seq<usize>>, in_list: Seq<usize>, p: int, x: usize) -> bool {
    adj.contains_key(in_list[p]) && adj[in_list[p]].contains(x)
}

/// Position of the first node of `in_list`, from `p` on, that has `x` as a
/// neighbour (the length of the list when none has).
pub open spec fn first_link(adj: Map<usize, Seq<usize>>, in_list: Seq<usize>, x: usize, p: int) -> int
    decreases in_list.len() - p,
{
    if p < 0 || p >= in_list.len() {
        in_list.len() as int
    } else if links(adj, in_list, p, x) {
        p
    } else {
        first_link(adj, in_list, x, p + 1)
    }
}

/// `x` comes no later than `y` when nodes are ordered by the first node of
/// `in_list` they are linked to, then (among linked nodes) by their number
/// of neighbours; unlinked nodes come last.
pub open spec fn link_before(adj: Map<usize, Seq<usize>>, in_list: Seq<usize>, x: usize, y: usize) -> bool {
    let gx = first_link(adj, in_list, x, 0);
    let gy = first_link(adj, in_list, y, 0);
    ||| gx < gy
    ||| (gx == gy && gx < in_list.len() && degree(adj, x) <= degree(adj, y))
    ||| (gx == gy && gx == in_list.len())
}

/// `out` holds each node of `group` once, ordered by its links to `in_list`.
pub open spec fn linked_order(adj: Map<usize, Seq<usize>>, in_list: Seq<usize>, group: Seq<usize>, out: Seq<usize>) -> bool {
    &&& out.no_duplicates()
    &&& out.to_set() == group.to_set()
    &&& forall|i: int, j: int| 0 <= i < j < out.len() ==> link_before(adj, in_list, #[trigger] out[i], #[trigger] out[j])
}

proof fn lemma_first_link_range(adj: Map<usize, Seq<usize>>, in_list: Seq<usize>, x: usize, p: int)
    requires
        0 <= p,
    ensures
        p <= first_link(adj, in_list, x, p) <= in_list.len() || (p > in_list.len() && first_link(adj, in_list, x, p) == in_list.len()),
        first_link(adj, in_list, x, p) < in_list.len() ==> links(adj, in_list, first_link(adj, in_list, x, p), x),
        forall|q: int| p <= q < first_link(adj, in_list, x, p) ==> !#[trigger] links(adj, in_list, q, x),
    decreases in_list.len() - p,
{
    if p < in_list.len() && !links(adj, in_list, p, x) {
        lemma_first_link_range(adj, in_list, x, p + 1);
    }
}

/// The first link of a node is the first position that links it.
proof fn lemma_first_link_at(adj: Map<usize, Seq<usize>>, in_list: Seq<usize>, x: usize, p: int)
    requires
        0 <= p < in_list.len(),
        links(adj, in_list, p, x),
        first_link(adj, in_list, x, 0) >= p,
    ensures
        first_link(adj, in_list, x, 0) == p,
{
    lemma_first_link_range(adj, in_list, x, 0);
}

/// Orders the nodes of `group` by their links to `in_list`: for each node of
/// `in_list` in turn, its neighbours from the group not taken yet, fewest
/// neighbours first; then the group nodes that no node links, in an order
/// left open (each once). A node listed twice in the group is taken once.
pub fn linked_group_order(in_list: &Vec<usize>, group: &Vec<usize>, adj_map: &HashMap<usize, Vec<usize>>) -> (out: Vec<usize>)
    ensures
        linked_order(lists_view(adj_map@), in_list@, group@, out@),
{
    let ghost adj = lists_view(adj_map@);
    let ghost gset = group@.to_set();
    let mut free: HashSet<usize> = HashSet::new();
    let mut k: usize = 0;
    while k < group.len()
        invariant
            k <= group@.len(),
            free@ == group@.subrange(0, k as int).to_set(),
        decreases group@.len() - k,
    {
        proof {
            assert(group@.subrange(0, k + 1) == group@.subrange(0, k as int).push(group@[k as int]));
            group@.subrange(0, k as int).lemma_push_to_set_commute(group@[k as int]);
        }
        free.insert(group[k]);
        k += 1;
    }
    assert(group@.subrange(0, group@.len() as int) =~= group@);
    assert forall|x: usize| first_link(adj, in_list@, x, 0) >= 0 by {
        lemma_first_link_range(adj, in_list@, x, 0);
    }
    let mut out: Vec<usize> = Vec::new();
    let mut p: usize = 0;
    while p < in_list.len()
        invariant
            p <= in_list@.len(),
            adj == lists_view(adj_map@),
            gset == group@.to_set(),
            out@.no_duplicates(),
            forall|x: usize| free@.contains(x) <==> gset.contains(x) && !out@.contains(x),
            forall|i: int| 0 <= i < out@.len() ==> gset.contains(#[trigger] out@[i]) && first_link(adj, in_list@, out@[i], 0) < p,
            forall|x: usize| gset.contains(x) && first_link(adj, in_list@, x, 0) < p ==> #[trigger] out@.contains(x),
            forall|i: int, j: int| 0 <= i < j < out@.len() ==> link_before(adj, in_list@, #[trigger] out@[i], #[trigger] out@[j]),
        decreases in_list@.len() - p,
    {
        let in_node = in_list[p];
        let mut connected: Vec<usize> = Vec::new();
        match adj_map.get(&in_node) {
            Some(neighbors) => {
                let mut r: usize = 0;
                while r < neighbors.len()
                    invariant
                        r <= neighbors@.len(),
                        p < in_list@.len(),
                        in_node == in_list@[p as int],
                        adj == lists_view(adj_map@),
                        adj.contains_key(in_node),
                        adj[in_node] == neighbors@,
                        gset == group@.to_set(),
                        out@.no_duplicates(),
                        connected@.no_duplicates(),
                        forall|x: usize| free@.contains(x) <==> gset.contains(x) && !out@.contains(x) && !connected@.contains(x),
                        forall|i: int| 0 <= i < out@.len() ==> gset.contains(#[trigger] out@[i]) && first_link(adj, in_list@, out@[i], 0) < p,
                        forall|x: usize| gset.contains(x) && first_link(adj, in_list@, x, 0) < p ==> #[trigger] out@.contains(x),
                        forall|i: int| 0 <= i < connected@.len() ==> gset.contains(#[trigger] connected@[i]) && first_link(adj, in_list@, connected@[i], 0) == p,
                        forall|q: int| 0 <= q < r ==> gset.contains(#[trigger] neighbors@[q]) ==> out@.contains(neighbors@[q]) || connected@.contains(neighbors@[q]),
                    decreases neighbors@.len() - r,
                {
                    let x = neighbors[r];
                    let ghost before = connected@;
                    if free.contains(&x) {
                        proof {
                            assert(links(adj, in_list@, p as int, x)) by {
                                assert(adj[in_list@[p as int]][r as int] == x);
                            }
                            assert(first_link(adj, in_list@, x, 0) >= p) by {
                                if first_link(adj, in_list@, x, 0) < p {
                                    assert(out@.contains(x));
                                }
                            }
                            lemma_first_link_at(adj, in_list@, x, p as int);
                        }
                        connected.push(x);
                        free.remove(&x);
                        proof {
                            assert forall|i: int, j: int| 0 <= i < j < connected@.len() implies connected@[i] != connected@[j] by {
                                if j == before.len() {
                                    assert(before.contains(connected@[i]));
                                }
                            }
                            assert forall|y: usize| free@.contains(y) <==> gset.contains(y) && !out@.contains(y) && !connected@.contains(y) by {
                                if before.contains(y) {
                                    let w = choose|w: int| 0 <= w < before.len() && before[w] == y;
                                    assert(connected@[w] == y);
                                }
                                if connected@.contains(y) && y != x {
                                    let w = choose|w: int| 0 <= w < connected@.len() && connected@[w] == y;
                                    assert(before[w] == y);
                                }
                                if y == x {
                                    assert(connected@[before.len() as int] == x);
                                }
                            }
                            assert forall|q: int| 0 <= q < r + 1 && gset.contains(#[trigger] neighbors@[q]) implies out@.contains(neighbors@[q]) || connected@.contains(neighbors@[q]) by {
                                if q < r && before.contains(neighbors@[q]) {
                                    let w = choose|w: int| 0 <= w < before.len() && before[w] == neighbors@[q];
                                    assert(connected@[w] == neighbors@[q]);
                                }
                                if q == r {
                                    assert(connected@[before.len() as int] == x);
                                }
                            }
                        }
                    }
                    r += 1;
                }
            },
            None => {},
        }
        let ghost before_sort = connected@;
        sort_by_degree(&mut connected, adj_map);
        proof {
            connected@.to_multiset_ensures();
            before_sort.to_multiset_ensures();
            assert forall|y: usize| connected@.contains(y) <==> before_sort.contains(y) by {
                assert(connected@.to_multiset().count(y) == before_sort.to_multiset().count(y));
            }
            before_sort.lemma_multiset_has_no_duplicates();
            assert forall|y: usize| connected@.to_multiset().contains(y) implies connected@.to_multiset().count(y) == 1 by {}
            connected@.lemma_multiset_has_no_duplicates_conv();
        }
        let ghost out0 = out@;
        let mut c: usize = 0;
        while c < connected.len()
            invariant
                c <= connected@.len(),
                p < in_list@.len(),
                out@.len() == out0.len() + c,
                forall|i: int| 0 <= i < out0.len() ==> out@[i] == out0[i],
                forall|i: int| 0 <= i < c ==> out@[out0.len() + i] == connected@[i],
            decreases connected@.len() - c,
        {
            out.push(connected[c]);
            c += 1;
        }
        proof {
            assert(out@ =~= out0 + connected@);
            assert forall|i: int| 0 <= i < connected@.len() implies gset.contains(#[trigger] connected@[i]) && first_link(adj, in_list@, connected@[i], 0) == p by {
                assert(before_sort.contains(connected@[i]));
            }
            assert forall|i: int, j: int| 0 <= i < j < out@.len() implies out@[i] != out@[j] by {
                if i < out0.len() && j >= out0.len() {
                    assert(first_link(adj, in_list@, out@[i], 0) < p);
                    assert(out@[j] == connected@[j - out0.len()]);
                } else if i >= out0.len() {
                    assert(out@[i] == connected@[i - out0.len()]);
                    assert(out@[j] == connected@[j - out0.len()]);
                }
            }
            assert forall|y: usize| free@.contains(y) <==> gset.contains(y) && !out@.contains(y) by {
                if connected@.contains(y) {
                    let w = choose|w: int| 0 <= w < connected@.len() && connected@[w] == y;
                    assert(out@[out0.len() + w] == y);
                }
                if out@.contains(y) {
                    let w = choose|w: int| 0 <= w < out@.len() && out@[w] == y;
                    if w < out0.len() {
                        assert(out0.contains(y));
                    } else {
                        assert(connected@[w - out0.len()] == y);
                    }
                }
                if before_sort.contains(y) {
                    assert(connected@.contains(y));
                }
                if out0.contains(y) {
                    let w = choose|w: int| 0 <= w < out0.len() && out0[w] == y;
                    assert(out@[w] == y);
                }
            }
            assert forall|i: int| 0 <= i < out@.len() implies gset.contains(#[trigger] out@[i]) && first_link(adj, in_list@, out@[i], 0) < p + 1 by {
                if i >= out0.len() {
                    assert(out@[i] == connected@[i - out0.len()]);
                }
            }
            assert forall|x: usize| gset.contains(x) && first_link(adj, in_list@, x, 0) < p + 1 implies #[trigger] out@.contains(x) by {
                if first_link(adj, in_list@, x, 0) < p {
                    let w = choose|w: int| 0 <= w < out0.len() && out0[w] == x;
                    assert(out@[w] == x);
                } else {
                    lemma_first_link_range(adj, in_list@, x, 0);
                    assert(links(adj, in_list@, p as int, x));
                    let neighbors = adj[in_node];
                    let q = choose|q: int| 0 <= q < neighbors.len() && neighbors[q] == x;
                    if before_sort.contains(x) {
                        assert(connected@.contains(x));
                        let w = choose|w: int| 0 <= w < connected@.len() && connected@[w] == x;
                        assert(out@[out0.len() + w] == x);
                    } else {
                        assert(out0.contains(x));
                        let w = choose|w: int| 0 <= w < out0.len() && out0[w] == x;
                        assert(out@[w] == x);
                    }
                }
            }
            assert forall|i: int, j: int| 0 <= i < j < out@.len() implies link_before(adj, in_list@, #[trigger] out@[i], #[trigger] out@[j]) by {
                if j >= out0.len() {
                    assert(out@[j] == connected@[j - out0.len()]);
                    if i >= out0.len() {
                        assert(out@[i] == connected@[i - out0.len()]);
                    }
                }
            }
        }
        p += 1;
    }
    // The group nodes that no node of `in_list` links, in group order.
    let ghost out1 = out@;
    let mut k: usize = 0;
    while k < group.len()
        invariant
            k <= group@.len(),
            adj == lists_view(adj_map@),
            gset == group@.to_set(),
            out@.no_duplicates(),
            out1.len() <= out@.len(),
            forall|i: int| 0 <= i < out1.len() ==> out@[i] == out1[i],
            forall|i: int| 0 <= i < out1.len() ==> first_link(adj, in_list@, #[trigger] out1[i], 0) < in_list@.len(),
            forall|i: int| out1.len() <= i < out@.len() ==> first_link(adj, in_list@, #[trigger] out@[i], 0) == in_list@.len(),
            forall|x: usize| free@.contains(x) <==> gset.contains(x) && !out@.contains(x),
            forall|i: int| 0 <= i < out@.len() ==> gset.contains(#[trigger] out@[i]),
            forall|x: usize| gset.contains(x) && first_link(adj, in_list@, x, 0) < in_list@.len() ==> #[trigger] out@.contains(x),
            forall|q: int| 0 <= q < k ==> out@.contains(#[trigger] group@[q]),
            forall|i: int, j: int| 0 <= i < j < out@.len() ==> link_before(adj, in_list@, #[trigger] out@[i], #[trigger] out@[j]),
        decreases group@.len() - k,
    {
        let x = group[k];
        let ghost before = out@;
        if free.contains(&x) {
            out.push(x);
            free.remove(&x);
            proof {
                assert(gset.contains(x));
                lemma_first_link_range(adj, in_list@, x, 0);
                assert(first_link(adj, in_list@, x, 0) == in_list@.len()) by {
                    if first_link(adj, in_list@, x, 0) < in_list@.len() {
                        assert(before.contains(x));
                    }
                }
                assert forall|i: int, j: int| 0 <= i < j < out@.len() implies out@[i] != out@[j] by {
                    if j == before.len() {
                        assert(before.contains(out@[i]));
                    }
                }
                assert forall|y: usize| free@.contains(y) <==> gset.contains(y) && !out@.contains(y) by {
                    if before.contains(y) {
                        let w = choose|w: int| 0 <= w < before.len() && before[w] == y;
                        assert(out@[w] == y);
                    }
                    if out@.contains(y) && y != x {
                        let w = choose|w: int| 0 <= w < out@.len() && out@[w] == y;
                        assert(before[w] == y);
                    }
                    if y == x {
                        assert(out@[before.len() as int] == x);
                    }
                }
                assert forall|y: usize| gset.contains(y) && first_link(adj, in_list@, y, 0) < in_list@.len() implies #[trigger] out@.contains(y) by {
                    let w = choose|w: int| 0 <= w < before.len() && before[w] == y;
                    assert(out@[w] == y);
                }
                assert forall|q: int| 0 <= q < k + 1 implies out@.contains(#[trigger] group@[q]) by {
                    if q < k {
                        let w = choose|w: int| 0 <= w < before.len() && before[w] == group@[q];
                        assert(out@[w] == group@[q]);
                    } else {
                        assert(out@[before.len() as int] == x);
                    }
                }
                assert forall|i: int, j: int| 0 <= i < j < out@.len() implies link_before(adj, in_list@, #[trigger] out@[i], #[trigger] out@[j]) by {
                    if j == before.len() && i < out1.len() {
                        assert(first_link(adj, in_list@, out1[i], 0) < in_list@.len());
                    }
                }
            }
        } else {
            proof {
                assert(gset.contains(x)) by {
                    assert(group@.contains(x));
                }
            }
        }
        k += 1;
    }
    proof {
        assert forall|y: usize| out@.to_set().contains(y) == gset.contains(y) by {
            if gset.contains(y) {
                let q = choose|q: int| 0 <= q < group@.len() && group@[q] == y;
                assert(out@.contains(group@[q]));
            }
            if out@.contains(y) {
                let w = choose|w: int| 0 <= w < out@.len() && out@[w] == y;
                assert(gset.contains(out@[w]));
            }
        }
        assert(out@.to_set() =~= gset);
    }
    out
}

/// `result` is the mountain arrangement of `sorted`, a copy of `nodes`
/// sorted by number of neighbours.
pub open spec fn mountain_of_sorted(
    adj: Map<usize, Seq<usize>>,
    nodes: Seq<usize>,
    sorted: Seq<usize>,
    result: Seq<usize>,
) -> bool {
    &&& sorted.to_multiset() == nodes.to_multiset()
    &&& sorted_by_degree(adj, sorted)
    &&& result.len() == sorted.len()
    &&& sorted.len() < 3 ==> result == sorted
    &&& sorted.len() >= 3 ==> forall|i: int| 0 <= i < sorted.len() ==> #[trigger] result[i] == sorted[mountain_index(sorted.len() as int, i)]
}

/// Orders the node groups of a multipartite layout and the nodes within
/// them: groups from smallest to largest; the nodes of the first group by
/// number of neighbours, arranged as a mountain; the nodes of each later
/// group by their links to the nodes of the group before it.
pub fn optimize_order(nodes: &mut HashMap<IriIndex, Vec<usize>>, adj_map: &HashMap<usize, Vec<usize>>) -> (order: Vec<IriIndex>)
    requires
        old(nodes)@.dom().len() >= 2,
    ensures
        order@.no_duplicates(),
        order@.to_set() == old(nodes)@.dom(),
        forall|i: int, j: int|
            0 <= i < j < order@.len() ==> old(nodes)@[#[trigger] order@[i]]@.len() <= old(nodes)@[#[trigger] order@[j]]@.len(),
        final(nodes)@.dom() == old(nodes)@.dom(),
        exists|sorted: Seq<usize>|
            #[trigger] mountain_of_sorted(
                lists_view(adj_map@),
                old(nodes)@[order@[0]]@,
                sorted,
                final(nodes)@[order@[0]]@,
            ),
        forall|i: int|
            1 <= i < order@.len() ==> linked_order(
                lists_view(adj_map@),
                final(nodes)@[order@[i - 1]]@,
                old(nodes)@[order@[i]]@,
                #[trigger] final(nodes)@[order@[i]]@,
            ),
{
    let ghost adj = lists_view(adj_map@);
    let ghost old_nodes = nodes@;
    let mut order = group_keys(nodes);
    proof {
        order@.unique_seq_to_set();
        assert forall|i: int| 0 <= i < order@.len() implies nodes@.contains_key(#[trigger] order@[i]) by {
            assert(order@.to_set().contains(order@[i]));
        }
    }
    let ghost keys = order@;
    sort_by_group_size(&mut order, nodes);
    proof {
        order@.to_multiset_ensures();
        keys.to_multiset_ensures();
        keys.lemma_multiset_has_no_duplicates();
        assert forall|x: IriIndex| order@.to_multiset().contains(x) implies order@.to_multiset().count(x) == 1 by {}
        order@.lemma_multiset_has_no_duplicates_conv();
        assert forall|x: IriIndex| order@.to_set().contains(x) == keys.to_set().contains(x) by {
            assert(order@.to_multiset().count(x) == keys.to_multiset().count(x));
        }
        assert(order@.to_set() =~= old_nodes.dom());
        order@.unique_seq_to_set();
        assert(order@.len() >= 2);
    }
    // The first group: by number of neighbours, as a mountain.
    let first = order[0];
    proof {
        assert(order@.to_set().contains(first));
    }
    let mut first_nodes = nodes.remove(&first).unwrap();
    let ghost first_before = first_nodes@;
    sort_by_degree(&mut first_nodes, adj_map);
    let ghost sorted = first_nodes@;
    mountain_order(&mut first_nodes);
    nodes.insert(first, first_nodes);
    proof {
        assert(nodes@.dom() =~= old_nodes.dom());
        assert(mountain_of_sorted(adj, first_before, sorted, nodes@[first]@));
    }
    // Each later group: by links to the group before it.
    let mut w: usize = 1;
    while w < order.len()
        invariant
            1 <= w <= order@.len(),
            order@.len() >= 2,
            adj == lists_view(adj_map@),
            order@.no_duplicates(),
            order@.to_set() == old_nodes.dom(),
            nodes@.dom() == old_nodes.dom(),
            first == order@[0],
            mountain_of_sorted(adj, old_nodes[first]@, sorted, nodes@[first]@),
            forall|i: int| w <= i < order@.len() ==> nodes@[#[trigger] order@[i]] == old_nodes[order@[i]],
            forall|i: int|
                1 <= i < w ==> linked_order(adj, nodes@[order@[i - 1]]@, old_nodes[order@[i]]@, #[trigger] nodes@[order@[i]]@),
        decreases order@.len() - w,
    {
        let t0 = order[w - 1];
        let t1 = order[w];
        proof {
            assert(order@.to_set().contains(t0));
            assert(order@.to_set().contains(t1));
            assert(t0 != t1);
        }
        let new_list = {
            let in_list = nodes.get(&t0).unwrap();
            let group = nodes.get(&t1).unwrap();
            linked_group_order(in_list, group, adj_map)
        };
        let ghost before = nodes@;
        nodes.insert(t1, new_list);
        proof {
            assert(nodes@.dom() =~= old_nodes.dom());
            assert(order@[w as int] != order@[0]);
            assert forall|i: int| w + 1 <= i < order@.len() implies nodes@[#[trigger] order@[i]] == old_nodes[order@[i]] by {
                assert(order@[i] != order@[w as int]);
            }
            assert forall|i: int| 1 <= i < w + 1 implies linked_order(
                adj,
                nodes@[order@[i - 1]]@,
                old_nodes[order@[i]]@,
                #[trigger] nodes@[order@[i]]@,
            ) by {
                if i < w {
                    assert(order@[i] != order@[w as int]);
                    assert(order@[i - 1] != order@[w as int]);
                    assert(linked_order(adj, before[order@[i - 1]]@, old_nodes[order@[i]]@, before[order@[i]]@));
                }
            }
        }
        w += 1;
    }
    order
}

} // verus!
