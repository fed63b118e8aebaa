//! The order of a connected component for the linear layout.

use rand::rngs::ThreadRng;
use vstd::prelude::*;

use crate::layoutalg::circular::{
    adjacency, gen_adj_start_node, lists_view, random_dfs, reachable, reordered_lists, search_order, GEdge,
};
use crate::layoutalg::depth_first::dfs_preorder;

verus! {

/// `rand::rng`: the thread's random number generator; nothing is promised
/// of the numbers it gives.
#[verifier::external_body]
fn thread_rng() -> ThreadRng {
    rand::rng()
}

/// `order` is a depth-first order of the edges' graph from `start`, a node
/// with the fewest neighbours: the depth-first pre-order over some
/// reordering of the neighbour lists, so every node reachable from `start`
/// comes once, each after a node it is a neighbour of.
pub open spec fn dfs_order_from(edges: Seq<GEdge>, start: usize, order: Seq<usize>) -> bool {
    let adj = adjacency(edges, edges.len() as int);
    &&& adj.contains_key(start)
    &&& forall|node: usize| #[trigger] adj.contains_key(node) ==> adj[start].len() <= adj[node].len()
    &&& search_order(adj, start, order)
    &&& forall|node: usize| reachable(adj, start, node) <==> order.contains(node)
    &&& exists|lists: Map<usize, Seq<usize>>| reordered_lists(lists, adj) && #[trigger] dfs_preorder(lists, start, order)
}

/// A depth-first order of the nodes of the edges, from a node with the
/// fewest neighbours, visiting neighbours in random order: every node the
/// edges reach from it comes once, each after a node it is a neighbour of.
pub fn linear_order(edges: &Vec<GEdge>) -> (order: Vec<usize>)
    requires
        edges@.len() > 0,
    ensures
        exists|start: usize| #[trigger] dfs_order_from(edges@, start, order@),
{
    let (adj_map, start_node) = gen_adj_start_node(edges);
    let mut rng = thread_rng();
    let order = random_dfs(&adj_map, start_node, &mut rng);
    proof {
        let adj = adjacency(edges@, edges@.len() as int);
        assert(lists_view(adj_map@) == adj);
        assert(adj.contains_key(start_node));
        assert forall|node: usize| #[trigger] adj.contains_key(node) implies adj[start_node].len() <= adj[node].len() by {
            assert(adj_map@.contains_key(node));
        }
        assert(dfs_order_from(edges@, start_node, order@));
    }
    order
}

} // verus!
