//! Depth-first pre-order over given neighbour lists.
//!
//! A stack holds, for each visited node, the neighbours that were not
//! visited when it was visited, in list order; the next node is the one on
//! top that is still not visited. So each node after the first is the last
//! unvisited entry in the list of the latest visited node that still has an
//! unvisited neighbour.

use std::collections::{HashMap, HashSet};
use vstd::prelude::*;

use crate::layoutalg::circular::{has_earlier_neighbor, is_neighbor, lists_view, reachable, search_order};

verus! {

broadcast use vstd::std_specs::hash::group_hash_axioms;

/// Entry `q` of the list of `v` is a node that `seen` does not hold.
pub open spec fn fresh_at(lists: Map<usize, Seq<usize>>, v: usize, seen: Seq<usize>, q: int) -> bool {
    &&& lists.contains_key(v)
    &&& 0 <= q < lists[v].len()
    &&& !seen.contains(lists[v][q])
}

/// The list of `v` holds a node that `seen` does not hold.
pub open spec fn has_fresh(lists: Map<usize, Seq<usize>>, v: usize, seen: Seq<usize>) -> bool {
    exists|q: int| #[trigger] fresh_at(lists, v, seen, q)
}

/// Entry `q` is the last entry of the list of `v` that `seen` does not hold.
pub open spec fn last_fresh(lists: Map<usize, Seq<usize>>, v: usize, seen: Seq<usize>, q: int) -> bool {
    &&& fresh_at(lists, v, seen, q)
    &&& forall|r: int| q < r ==> !#[trigger] fresh_at(lists, v, seen, r)
}

/// Node `i` of the order is the last unvisited entry in the list of the
/// latest earlier node that still has an unvisited neighbour.
pub open spec fn dfs_next(lists: Map<usize, Seq<usize>>, order: Seq<usize>, i: int) -> bool {
    exists|j: int, q: int|
        #![trigger last_fresh(lists, order[j], order.take(i), q)]
        0 <= j < i && last_fresh(lists, order[j], order.take(i), q) && lists[order[j]][q] == order[i]
            && forall|k: int| j < k < i ==> !#[trigger] has_fresh(lists, order[k], order.take(i))
}

/// `order` is the depth-first pre-order from `start` that takes the
/// neighbours of each node from the end of its list: it starts at `start`,
/// every later node is chosen as `dfs_next` says, and it ends when no node of
/// it has an unvisited neighbour.
pub open spec fn dfs_preorder(lists: Map<usize, Seq<usize>>, start: usize, order: Seq<usize>) -> bool {
    &&& order.len() > 0
    &&& order[0] == start
    &&& order.no_duplicates()
    &&& forall|i: int| 0 < i < order.len() ==> #[trigger] dfs_next(lists, order, i)
    &&& forall|j: int| 0 <= j < order.len() ==> !#[trigger] has_fresh(lists, order[j], order)
}

/// The stack entries: entry `t` is entry `pos[t]` of the list of the
/// visited node `order[par[t]]`; entries are grouped by that node in visit
/// order, and within a group by list position.
spec fn stack_ok(lists: Map<usize, Seq<usize>>, order: Seq<usize>, stack: Seq<usize>, par: Seq<int>, pos: Seq<int>) -> bool {
    &&& par.len() == stack.len()
    &&& pos.len() == stack.len()
    &&& forall|t: int|
        #![trigger par[t]]
        0 <= t < stack.len() ==> 0 <= par[t] < order.len() && lists.contains_key(order[par[t]]) && 0 <= pos[t]
            < lists[order[par[t]]].len() && stack[t] == lists[order[par[t]]][pos[t]]
    &&& forall|t: int, u: int|
        #![trigger par[t], par[u]]
        0 <= t < u < stack.len() ==> par[t] <= par[u] && (par[t] == par[u] ==> pos[t] < pos[u])
}

/// Every unvisited neighbour of each of the first `upto` visited nodes is
/// on the stack as an entry of that node.
spec fn stack_complete(lists: Map<usize, Seq<usize>>, order: Seq<usize>, par: Seq<int>, pos: Seq<int>, upto: int) -> bool {
    forall|j: int, q: int|
        0 <= j < upto && #[trigger] fresh_at(lists, order[j], order, q) ==> exists|t: int|
            0 <= t < par.len() && #[trigger] par[t] == j && pos[t] == q
}

/// Pushes the items of the list that are not visited, in list order, and
/// gives their list positions.
fn push_fresh(list: &Vec<usize>, visited: &HashSet<usize>, stack: &mut Vec<usize>) -> (pos: Ghost<Seq<int>>)
    ensures
        final(stack)@.len() == old(stack)@.len() + pos@.len(),
        final(stack)@.subrange(0, old(stack)@.len() as int) == old(stack)@,
        forall|k: int|
            0 <= k < pos@.len() ==> 0 <= #[trigger] pos@[k] < list@.len() && final(stack)@[old(stack)@.len() + k]
                == list@[pos@[k]],
        forall|k: int, l: int| 0 <= k < l < pos@.len() ==> pos@[k] < pos@[l],
        forall|q: int|
            0 <= q < list@.len() && !visited@.contains(#[trigger] list@[q]) ==> exists|k: int|
                0 <= k < pos@.len() && pos@[k] == q,
{
    let ghost start = stack@;
    let ghost mut p: Seq<int> = Seq::empty();
    let mut k: usize = 0;
    while k < list.len()
        invariant
            k <= list@.len(),
            stack@.len() == start.len() + p.len(),
            stack@.subrange(0, start.len() as int) == start,
            forall|m: int|
                0 <= m < p.len() ==> 0 <= #[trigger] p[m] < k && stack@[start.len() + m] == list@[p[m]],
            forall|m: int, l: int| 0 <= m < l < p.len() ==> p[m] < p[l],
            forall|q: int|
                0 <= q < k && !visited@.contains(#[trigger] list@[q]) ==> exists|m: int| 0 <= m < p.len() && p[m] == q,
        decreases list@.len() - k,
    {
        let n = list[k];
        let ghost before = stack@;
        let ghost p0 = p;
        if !visited.contains(&n) {
            stack.push(n);
            proof {
                p = p0.push(k as int);
                assert(stack@.subrange(0, start.len() as int) =~= before.subrange(0, start.len() as int));
                assert forall|m: int| 0 <= m < p.len() implies 0 <= #[trigger] p[m] < k + 1 && stack@[start.len() + m]
                    == list@[p[m]] by {
                    if m < p0.len() {
                        assert(p[m] == p0[m]);
                        assert(stack@[start.len() + m] == before[start.len() + m]);
                    }
                }
                assert forall|q: int| 0 <= q < k + 1 && !visited@.contains(#[trigger] list@[q]) implies exists|m: int|
                    0 <= m < p.len() && p[m] == q by {
                    if q < k {
                        let m = choose|m: int| 0 <= m < p0.len() && p0[m] == q;
                        assert(p[m] == q);
                    } else {
                        assert(p[p0.len() as int] == q);
                    }
                }
            }
        }
        k += 1;
    }
    Ghost(p)
}

/// After a node is added to the order, the stack without its top entry is
/// still in shape, and it still holds every unvisited neighbour of the
/// earlier nodes.
proof fn lemma_visit(
    lists: Map<usize, Seq<usize>>,
    order: Seq<usize>,
    stack: Seq<usize>,
    par: Seq<int>,
    pos: Seq<int>,
)
    requires
        stack.len() > 0,
        stack_ok(lists, order, stack, par, pos),
        stack_complete(lists, order, par, pos, order.len() as int),
        !order.contains(stack.last()),
    ensures
        dfs_next(lists, order.push(stack.last()), order.len() as int),
        stack_ok(lists, order.push(stack.last()), stack.drop_last(), par.drop_last(), pos.drop_last()),
        stack_complete(
            lists,
            order.push(stack.last()),
            par.drop_last(),
            pos.drop_last(),
            order.len() as int,
        ),
{
    let n = stack.last();
    let o2 = order.push(n);
    let i = order.len() as int;
    let last = stack.len() - 1;
    let j = par[last];
    let q = pos[last];
    assert(o2.take(i) =~= order);
    assert(o2[j] == order[j]);
    assert(fresh_at(lists, order[j], order, q));
    assert forall|r: int| q < r implies !#[trigger] fresh_at(lists, order[j], order, r) by {
        if fresh_at(lists, order[j], order, r) {
            let t = choose|t: int| 0 <= t < par.len() && #[trigger] par[t] == j && pos[t] == r;
            if t < last {
                assert(par[t] <= par[last] && (par[t] == par[last] ==> pos[t] < pos[last]));
            }
        }
    }
    assert forall|k: int| j < k < i implies !#[trigger] has_fresh(lists, o2[k], o2.take(i)) by {
        assert(o2[k] == order[k]);
        if has_fresh(lists, order[k], order) {
            let r = choose|r: int| #[trigger] fresh_at(lists, order[k], order, r);
            let t = choose|t: int| 0 <= t < par.len() && #[trigger] par[t] == k && pos[t] == r;
            if t < last {
                assert(par[t] <= par[last]);
            }
        }
    }
    assert(last_fresh(lists, o2[j], o2.take(i), q));
    assert(lists[o2[j]][q] == o2[i]);
    let par2 = par.drop_last();
    let pos2 = pos.drop_last();
    let st2 = stack.drop_last();
    assert forall|t: int| #![trigger par2[t]] 0 <= t < st2.len() implies 0 <= par2[t] < o2.len() && lists.contains_key(
        o2[par2[t]],
    ) && 0 <= pos2[t] < lists[o2[par2[t]]].len() && st2[t] == lists[o2[par2[t]]][pos2[t]] by {
        assert(par2[t] == par[t] && pos2[t] == pos[t] && st2[t] == stack[t]);
        assert(o2[par[t]] == order[par[t]]);
    }
    assert forall|t: int, u: int| #![trigger par2[t], par2[u]] 0 <= t < u < st2.len() implies par2[t] <= par2[u] && (
    par2[t] == par2[u] ==> pos2[t] < pos2[u]) by {
        assert(par[t] <= par[u] && (par[t] == par[u] ==> pos[t] < pos[u]));
    }
    assert forall|jj: int, qq: int| 0 <= jj < i && #[trigger] fresh_at(lists, o2[jj], o2, qq) implies exists|t: int|
        0 <= t < par2.len() && #[trigger] par2[t] == jj && pos2[t] == qq by {
        assert(o2[jj] == order[jj]);
        assert(!order.contains(lists[order[jj]][qq])) by {
            if order.contains(lists[order[jj]][qq]) {
                let w = choose|w: int| 0 <= w < order.len() && order[w] == lists[order[jj]][qq];
                assert(o2[w] == order[w]);
            }
        }
        assert(fresh_at(lists, order[jj], order, qq));
        let t = choose|t: int| 0 <= t < par.len() && #[trigger] par[t] == jj && pos[t] == qq;
        if t == last {
            assert(o2[i] == n);
            assert(o2.contains(n));
        }
        assert(par2[t] == jj && pos2[t] == qq);
    }
}

/// Dropping a top entry whose node is visited keeps the stack in shape and
/// complete.
proof fn lemma_skip(
    lists: Map<usize, Seq<usize>>,
    order: Seq<usize>,
    stack: Seq<usize>,
    par: Seq<int>,
    pos: Seq<int>,
)
    requires
        stack.len() > 0,
        stack_ok(lists, order, stack, par, pos),
        stack_complete(lists, order, par, pos, order.len() as int),
        order.contains(stack.last()),
    ensures
        stack_ok(lists, order, stack.drop_last(), par.drop_last(), pos.drop_last()),
        stack_complete(lists, order, par.drop_last(), pos.drop_last(), order.len() as int),
{
    let last = stack.len() - 1;
    let par2 = par.drop_last();
    let pos2 = pos.drop_last();
    let st2 = stack.drop_last();
    assert forall|t: int| #![trigger par2[t]] 0 <= t < st2.len() implies 0 <= par2[t] < order.len()
        && lists.contains_key(order[par2[t]]) && 0 <= pos2[t] < lists[order[par2[t]]].len() && st2[t]
        == lists[order[par2[t]]][pos2[t]] by {
        assert(par2[t] == par[t] && pos2[t] == pos[t] && st2[t] == stack[t]);
    }
    assert forall|t: int, u: int| #![trigger par2[t], par2[u]] 0 <= t < u < st2.len() implies par2[t] <= par2[u] && (
    par2[t] == par2[u] ==> pos2[t] < pos2[u]) by {
        assert(par[t] <= par[u] && (par[t] == par[u] ==> pos[t] < pos[u]));
    }
    assert forall|jj: int, qq: int| 0 <= jj < order.len() && #[trigger] fresh_at(lists, order[jj], order, qq) implies exists|
        t: int,
    | 0 <= t < par2.len() && #[trigger] par2[t] == jj && pos2[t] == qq by {
        let t = choose|t: int| 0 <= t < par.len() && #[trigger] par[t] == jj && pos[t] == qq;
        assert(t != last);
        assert(par2[t] == jj && pos2[t] == qq);
    }
}

/// Pushing the unvisited entries of the list of the newest node, as its
/// group, keeps the stack in shape and makes it complete for every node.
proof fn lemma_push(
    lists: Map<usize, Seq<usize>>,
    order: Seq<usize>,
    stack: Seq<usize>,
    par: Seq<int>,
    pos: Seq<int>,
    stack2: Seq<usize>,
    p: Seq<int>,
)
    requires
        order.len() > 0,
        stack_ok(lists, order, stack, par, pos),
        stack_complete(lists, order, par, pos, order.len() - 1),
        forall|t: int| 0 <= t < par.len() ==> par[t] < order.len() - 1,
        lists.contains_key(order.last()),
        stack2.len() == stack.len() + p.len(),
        stack2.subrange(0, stack.len() as int) == stack,
        forall|k: int|
            0 <= k < p.len() ==> 0 <= #[trigger] p[k] < lists[order.last()].len() && stack2[stack.len() + k]
                == lists[order.last()][p[k]],
        forall|k: int, l: int| 0 <= k < l < p.len() ==> p[k] < p[l],
        forall|q: int|
            0 <= q < lists[order.last()].len() && !order.contains(#[trigger] lists[order.last()][q]) ==> exists|k: int|
                0 <= k < p.len() && p[k] == q,
    ensures
        stack_ok(
            lists,
            order,
            stack2,
            par + Seq::new(p.len(), |k: int| order.len() - 1),
            pos + p,
        ),
        stack_complete(lists, order, par + Seq::new(p.len(), |k: int| order.len() - 1), pos + p, order.len() as int),
{
    let i = order.len() - 1;
    let par2 = par + Seq::new(p.len(), |k: int| i);
    let pos2 = pos + p;
    let s = stack.len() as int;
    assert forall|t: int| #![trigger par2[t]] 0 <= t < stack2.len() implies 0 <= par2[t] < order.len()
        && lists.contains_key(order[par2[t]]) && 0 <= pos2[t] < lists[order[par2[t]]].len() && stack2[t]
        == lists[order[par2[t]]][pos2[t]] by {
        if t < s {
            assert(par2[t] == par[t] && pos2[t] == pos[t]);
            assert(stack2[t] == stack2.subrange(0, s)[t]);
        } else {
            assert(par2[t] == i && pos2[t] == p[t - s]);
        }
    }
    assert forall|t: int, u: int| #![trigger par2[t], par2[u]] 0 <= t < u < stack2.len() implies par2[t] <= par2[u] && (
    par2[t] == par2[u] ==> pos2[t] < pos2[u]) by {
        if u < s {
            assert(par[t] <= par[u] && (par[t] == par[u] ==> pos[t] < pos[u]));
        } else if t < s {
            assert(par2[t] == par[t]);
        } else {
            assert(p[t - s] < p[u - s]);
        }
    }
    assert forall|jj: int, qq: int| 0 <= jj < order.len() && #[trigger] fresh_at(lists, order[jj], order, qq) implies exists|
        t: int,
    | 0 <= t < par2.len() && #[trigger] par2[t] == jj && pos2[t] == qq by {
        if jj < i {
            let t = choose|t: int| 0 <= t < par.len() && #[trigger] par[t] == jj && pos[t] == qq;
            assert(par2[t] == jj && pos2[t] == qq);
        } else {
            assert(order[jj] == order.last());
            assert(!order.contains(lists[order.last()][qq]));
            let k = choose|k: int| 0 <= k < p.len() && p[k] == qq;
            assert(par2[s + k] == jj && pos2[s + k] == qq);
        }
    }
}

/// The depth-first pre-order from `start_node` over the given neighbour
/// lists, taking the neighbours of each node from the end of its list.
pub fn dfs_preorder_of(lists: &HashMap<usize, Vec<usize>>, start_node: usize) -> (order: Vec<usize>)
    ensures
        dfs_preorder(lists_view(lists@), start_node, order@),
{
    let ghost adj = lists_view(lists@);
    let ghost dom = lists@.dom();
    let mut visited: HashSet<usize> = HashSet::new();
    let mut stack: Vec<usize> = Vec::new();
    let mut order: Vec<usize> = Vec::new();
    visited.insert(start_node);
    order.push(start_node);
    let ghost mut par: Seq<int> = Seq::empty();
    let ghost mut pos: Seq<int> = Seq::empty();
    proof {
        assert(order@.take(1) =~= order@);
        assert forall|x: usize| visited@.contains(x) <==> order@.contains(x) by {
            if x == start_node {
                assert(order@[0] == x);
            }
        }
    }
    match lists.get(&start_node) {
        Some(list) => {
            let ghost stack0 = stack@;
            let p = push_fresh(list, &visited, &mut stack);
            proof {
                assert(adj[start_node] == list@);
                assert(order@.last() == start_node);
                assert forall|q: int|
                    0 <= q < adj[order@.last()].len() && !order@.contains(#[trigger] adj[order@.last()][q]) implies exists|
                    k: int,
                | 0 <= k < p@.len() && p@[k] == q by {
                    assert(!visited@.contains(list@[q]));
                }
                lemma_push(adj, order@, stack0, par, pos, stack@, p@);
                par = par + Seq::new(p@.len(), |k: int| order@.len() - 1);
                pos = pos + p@;
            }
        },
        None => {
            proof {
                assert forall|jj: int, qq: int| 0 <= jj < order@.len() && #[trigger] fresh_at(adj, order@[jj], order@, qq) implies exists|
                    t: int,
                | 0 <= t < par.len() && #[trigger] par[t] == jj && pos[t] == qq by {
                    assert(order@[jj] == start_node);
                }
            }
        },
    }
    while stack.len() > 0
        invariant
            adj == lists_view(lists@),
            dom == lists@.dom(),
            dom.finite(),
            forall|x: usize| visited@.contains(x) <==> order@.contains(x),
            order@.len() > 0,
            order@[0] == start_node,
            order@.no_duplicates(),
            forall|i: int| 0 < i < order@.len() ==> #[trigger] dfs_next(adj, order@, i),
            stack_ok(adj, order@, stack@, par, pos),
            stack_complete(adj, order@, par, pos, order@.len() as int),
        decreases dom.difference(visited@).len(), stack@.len(),
    {
        let ghost stack0 = stack@;
        let ghost order0 = order@;
        let ghost visited0 = visited@;
        let node = stack.pop().unwrap();
        proof {
            assert(stack@ =~= stack0.drop_last());
            assert(node == stack0.last());
        }
        if visited.insert(node) {
            order.push(node);
            proof {
                lemma_visit(adj, order0, stack0, par, pos);
                par = par.drop_last();
                pos = pos.drop_last();
                assert(order@ == order0.push(node));
                assert forall|x: usize| visited@.contains(x) <==> order@.contains(x) by {
                    if order0.contains(x) {
                        let w = choose|w: int| 0 <= w < order0.len() && order0[w] == x;
                        assert(order@[w] == x);
                    }
                    if x == node {
                        assert(order@[order0.len() as int] == x);
                    }
                    if order@.contains(x) && x != node {
                        let w = choose|w: int| 0 <= w < order@.len() && order@[w] == x;
                        assert(order0[w] == x);
                    }
                }
                assert forall|i: int, j: int| 0 <= i < j < order@.len() implies order@[i] != order@[j] by {
                    if j == order0.len() {
                        assert(order0.contains(order@[i]));
                    }
                }
                assert forall|i: int| 0 < i < order@.len() implies #[trigger] dfs_next(adj, order@, i) by {
                    if i < order0.len() {
                        assert(order@.take(i) =~= order0.take(i));
                        assert(dfs_next(adj, order0, i));
                        let (j, q) = choose|j: int, q: int|
                            #![trigger last_fresh(adj, order0[j], order0.take(i), q)]
                            0 <= j < i && last_fresh(adj, order0[j], order0.take(i), q) && adj[order0[j]][q]
                                == order0[i] && forall|k: int|
                                j < k < i ==> !#[trigger] has_fresh(adj, order0[k], order0.take(i));
                        assert(order@[j] == order0[j]);
                        assert forall|k: int| j < k < i implies !#[trigger] has_fresh(adj, order@[k], order@.take(i)) by {
                            assert(order@[k] == order0[k]);
                        }
                        assert(last_fresh(adj, order@[j], order@.take(i), q));
                    }
                }
                if dom.contains(node) {
                    assert(dom.difference(visited@) =~= dom.difference(visited0).remove(node));
                    assert(dom.difference(visited0).contains(node));
                } else {
                    assert(dom.difference(visited@) =~= dom.difference(visited0));
                }
                assert forall|t: int| 0 <= t < par.len() implies par[t] < order@.len() - 1 by {
                    assert(par[t] < order0.len());
                }
            }
            match lists.get(&node) {
                Some(list) => {
                    let ghost stack1 = stack@;
                    let p = push_fresh(list, &visited, &mut stack);
                    proof {
                        assert(adj[node] == list@);
                        assert(order@.last() == node);
                        assert forall|q: int|
                            0 <= q < adj[order@.last()].len() && !order@.contains(#[trigger] adj[order@.last()][q])
                            implies exists|k: int| 0 <= k < p@.len() && p@[k] == q by {
                            assert(!visited@.contains(list@[q]));
                        }
                        lemma_push(adj, order@, stack1, par, pos, stack@, p@);
                        par = par + Seq::new(p@.len(), |k: int| order@.len() - 1);
                        pos = pos + p@;
                    }
                },
                None => {
                    proof {
                        assert forall|jj: int, qq: int|
                            0 <= jj < order@.len() && #[trigger] fresh_at(adj, order@[jj], order@, qq) implies exists|
                            t: int,
                        | 0 <= t < par.len() && #[trigger] par[t] == jj && pos[t] == qq by {
                            if jj == order@.len() - 1 {
                                assert(order@[jj] == node);
                            }
                        }
                        assert forall|t: int| #![trigger par[t]] 0 <= t < stack@.len() implies 0 <= par[t] < order@.len()
                            && adj.contains_key(order@[par[t]]) && 0 <= pos[t] < adj[order@[par[t]]].len()
                            && stack@[t] == adj[order@[par[t]]][pos[t]] by {
                        }
                    }
                },
            }
        } else {
            proof {
                assert(order0.contains(node));
                lemma_skip(adj, order0, stack0, par, pos);
                par = par.drop_last();
                pos = pos.drop_last();
                assert(visited@ =~= visited0);
            }
        }
    }
    proof {
        assert forall|j: int| 0 <= j < order@.len() implies !#[trigger] has_fresh(adj, order@[j], order@) by {
            if has_fresh(adj, order@[j], order@) {
                let q = choose|q: int| #[trigger] fresh_at(adj, order@[j], order@, q);
            }
        }
    }
    order
}

/// A depth-first pre-order is a search order, and it holds exactly the
/// nodes reachable from its start.
pub proof fn lemma_dfs_preorder_searches(lists: Map<usize, Seq<usize>>, start: usize, order: Seq<usize>)
    requires
        dfs_preorder(lists, start, order),
    ensures
        search_order(lists, start, order),
        forall|node: usize| reachable(lists, start, node) <==> order.contains(node),
{
    assert forall|i: int| 0 < i < order.len() implies #[trigger] has_earlier_neighbor(lists, order, i) by {
        assert(dfs_next(lists, order, i));
        let (j, q) = choose|j: int, q: int|
            #![trigger last_fresh(lists, order[j], order.take(i), q)]
            0 <= j < i && last_fresh(lists, order[j], order.take(i), q) && lists[order[j]][q] == order[i] && forall|
                k: int,
            | j < k < i ==> !#[trigger] has_fresh(lists, order[k], order.take(i));
        assert(lists[order[j]].contains(order[i]));
        assert(is_neighbor(lists, order[j], order[i]));
    }
    lemma_order_reachable(lists, start, order, order.len() as int);
    assert forall|node: usize| reachable(lists, start, node) implies order.contains(node) by {
        let s = order.to_set();
        assert forall|v: usize, t: usize| s.contains(v) && #[trigger] is_neighbor(lists, v, t) implies s.contains(t) by {
            let j = choose|j: int| 0 <= j < order.len() && order[j] == v;
            let q = choose|q: int| 0 <= q < lists[v].len() && lists[v][q] == t;
            if !order.contains(t) {
                assert(fresh_at(lists, order[j], order, q));
                assert(has_fresh(lists, order[j], order));
            }
        }
        assert(s.contains(start)) by {
            assert(order[0] == start);
        }
        crate::layoutalg::circular::lemma_closed_holds_reachable(lists, start, s, node);
    }
}

/// The first `k` nodes of a search order are reachable from its start.
proof fn lemma_order_reachable(lists: Map<usize, Seq<usize>>, start: usize, order: Seq<usize>, k: int)
    requires
        0 <= k <= order.len(),
        order.len() > 0,
        order[0] == start,
        forall|i: int| 0 < i < order.len() ==> #[trigger] has_earlier_neighbor(lists, order, i),
    ensures
        forall|i: int| 0 <= i < k ==> reachable(lists, start, #[trigger] order[i]),
    decreases k,
{
    if k > 0 {
        lemma_order_reachable(lists, start, order, k - 1);
        let i = k - 1;
        if i == 0 {
            crate::layoutalg::circular::lemma_reachable_start(lists, start);
        } else {
            assert(has_earlier_neighbor(lists, order, i));
            let j = choose|j: int| 0 <= j < i && #[trigger] is_neighbor(lists, order[j], order[i]);
            crate::layoutalg::circular::lemma_reachable_step(lists, start, order[j], order[i]);
        }
    }
}

} // verus!
