use std::collections::HashMap;

use rdf_glance::layoutalg::multipartite::{linked_group_order, mountain_order, optimize_order};

#[test]
fn mountain_order_rises_then_falls() {
    let mut v = vec![1, 2, 3, 4, 5, 6];
    mountain_order(&mut v);
    assert_eq!(v, vec![1, 3, 5, 6, 4, 2]);
    let mut odd = vec![10, 20, 30, 40, 50];
    mountain_order(&mut odd);
    assert_eq!(odd, vec![10, 30, 50, 40, 20]);
    let mut short = vec!["b", "a"];
    mountain_order(&mut short);
    assert_eq!(short, vec!["b", "a"]);
}

fn adjacency(edges: &[(usize, usize)]) -> HashMap<usize, Vec<usize>> {
    let mut adj: HashMap<usize, Vec<usize>> = HashMap::new();
    for &(a, b) in edges {
        adj.entry(a).or_default().push(b);
        adj.entry(b).or_default().push(a);
    }
    adj
}

#[test]
fn linked_group_order_follows_the_previous_group() {
    // 1 links 12 and 11, 2 links 10; 13 is not linked.
    let adj = adjacency(&[(1, 12), (1, 11), (2, 10), (11, 2), (11, 3)]);
    let out = linked_group_order(&vec![1, 2], &vec![10, 11, 12, 13, 10], &adj);
    // group of 1: 12 (one neighbour) before 11 (three); then 10; then 13
    assert_eq!(out, vec![12, 11, 10, 13]);
}

#[test]
fn optimize_order_sorts_groups_by_size() {
    let adj = adjacency(&[(1, 10), (2, 10), (3, 11), (10, 20), (11, 21)]);
    let mut nodes: HashMap<usize, Vec<usize>> = HashMap::new();
    nodes.insert(100, vec![10, 11]);
    nodes.insert(200, vec![1, 2, 3]);
    nodes.insert(300, vec![20]);
    let order = optimize_order(&mut nodes, &adj);
    assert_eq!(order, vec![300, 100, 200]);
    assert_eq!(nodes[&300], vec![20]);
    // 20 links 10 only; 11 is not linked
    assert_eq!(nodes[&100], vec![10, 11]);
    // 10 links 1 and 2 (one neighbour each), 11 links 3
    assert_eq!(nodes[&200], vec![1, 2, 3]);
}

#[test]
fn optimize_order_arranges_the_first_group_as_a_mountain() {
    let adj = adjacency(&[(1, 9), (2, 9), (2, 8), (3, 9), (3, 8), (3, 7)]);
    let mut nodes: HashMap<usize, Vec<usize>> = HashMap::new();
    nodes.insert(0, vec![3, 2, 1]);
    nodes.insert(1, vec![7, 8, 9, 6]);
    let order = optimize_order(&mut nodes, &adj);
    assert_eq!(order, vec![0, 1]);
    // by degree: 1, 2, 3; as a mountain: 1, 3, 2
    assert_eq!(nodes[&0], vec![1, 3, 2]);
    // 1 links 9; 3 links 9 (taken), 8, 7 -> 7 (one), 8 (two); 2 adds nothing; 6 unlinked
    assert_eq!(nodes[&1], vec![9, 7, 8, 6]);
}
