use std::collections::HashMap;
use rdf_glance::layoutalg::depth_first::dfs_preorder_of;
use rdf_glance::layoutalg::circular::{crossover, find_components, gen_adj_start_node, ox_crossover, random_dfs, GEdge};

fn sorted(mut components: Vec<Vec<usize>>) -> Vec<Vec<usize>> {
    for c in components.iter_mut() {
        c.sort();
    }
    components.sort();
    components
}

#[test]
fn test_find_components() {
    let edges = vec![GEdge { from: 1, to: 2 }, GEdge { from: 2, to: 3 }, GEdge { from: 4, to: 5 }];
    let nodes = vec![1, 2, 3, 4, 5, 6];

    let components = find_components(&edges, &nodes);
    assert_eq!(3, components.len());
    println!("{:?}", components);
}

#[test]
fn components_partition_the_nodes() {
    let edges = vec![GEdge { from: 1, to: 2 }, GEdge { from: 2, to: 3 }, GEdge { from: 4, to: 5 }];
    let nodes = vec![1, 2, 3, 4, 5, 6];
    let components = find_components(&edges, &nodes);
    // components come in the order of their first node, nodes in list order
    assert_eq!(components, vec![vec![1, 2, 3], vec![4, 5], vec![6]]);
}

#[test]
fn edges_to_unknown_nodes_are_ignored() {
    let edges = vec![GEdge { from: 10, to: 20 }, GEdge { from: 7, to: 99 }, GEdge { from: 20, to: 30 }];
    let nodes = vec![30, 7, 10, 20];
    let components = find_components(&edges, &nodes);
    assert_eq!(sorted(components), vec![vec![7], vec![10, 20, 30]]);
}

#[test]
fn no_nodes_no_components() {
    assert!(find_components(&vec![GEdge { from: 1, to: 2 }], &vec![]).is_empty());
}

#[test]
fn cycle_and_self_loop_make_one_component() {
    let edges = vec![
        GEdge { from: 0, to: 1 },
        GEdge { from: 1, to: 2 },
        GEdge { from: 2, to: 0 },
        GEdge { from: 3, to: 3 },
    ];
    let nodes = vec![0, 1, 2, 3];
    assert_eq!(find_components(&edges, &nodes), vec![vec![0, 1, 2], vec![3]]);
}

#[test]
fn a_node_listed_twice_is_linked_at_its_last_position() {
    // node 5 is listed at positions 0 and 2; the edge reaches position 2 only
    let edges = vec![GEdge { from: 5, to: 8 }];
    let nodes = vec![5, 8, 5];
    assert_eq!(find_components(&edges, &nodes), vec![vec![5], vec![8, 5]]);
}


#[test]
fn start_node_has_fewest_neighbours() {
    let edges = vec![GEdge { from: 1, to: 2 }, GEdge { from: 2, to: 3 }, GEdge { from: 3, to: 1 }, GEdge { from: 3, to: 4 }];
    let (adj, start) = gen_adj_start_node(&edges);
    assert_eq!(adj.len(), 4);
    assert_eq!(adj[&3], vec![2, 1, 4]);
    assert_eq!(adj[&1], vec![2, 3]);
    assert_eq!(start, 4);
}

#[test]
fn start_node_among_equal_degrees() {
    let edges = vec![GEdge { from: 7, to: 8 }, GEdge { from: 8, to: 9 }, GEdge { from: 9, to: 7 }];
    let (adj, start) = gen_adj_start_node(&edges);
    assert_eq!(adj[&start].len(), 2);
    assert!(adj.contains_key(&start));
}

#[test]
fn random_dfs_visits_the_reachable_nodes_once() {
    let edges = vec![
        GEdge { from: 0, to: 1 },
        GEdge { from: 1, to: 2 },
        GEdge { from: 2, to: 0 },
        GEdge { from: 2, to: 3 },
        GEdge { from: 10, to: 11 },
    ];
    let (adj, _) = gen_adj_start_node(&edges);
    let mut rng = rand::rng();
    for _ in 0..20 {
        let order = random_dfs(&adj, 3, &mut rng);
        assert_eq!(order[0], 3);
        let mut sorted = order.clone();
        sorted.sort();
        assert_eq!(sorted, vec![0, 1, 2, 3]);
        for i in 1..order.len() {
            assert!((0..i).any(|j| adj[&order[j]].contains(&order[i])));
        }
    }
    assert_eq!(random_dfs(&adj, 42, &mut rng), vec![42]);
}

#[test]
fn crossover_keeps_every_node_once() {
    let parent1 = vec![0, 1, 2, 3, 4, 5, 6, 7];
    let parent2 = vec![7, 6, 5, 4, 3, 2, 1, 0];
    let mut rng = rand::rng();
    for _ in 0..50 {
        let child = crossover(&parent1, &parent2, &mut rng);
        let mut sorted = child.clone();
        sorted.sort();
        assert_eq!(sorted, parent1);
        let from_some_segment = (0..8).any(|b| (0..=b).any(|a| ox_child(&parent1, &parent2, a, b) == child));
        assert!(from_some_segment);
    }
}

/// Order crossover with the kept segment `a..b` of `parent1`.
fn ox_child(parent1: &[usize], parent2: &[usize], a: usize, b: usize) -> Vec<usize> {
    let segment = &parent1[a..b];
    let mut fill = parent2.iter().filter(|x| !segment.contains(x));
    (0..parent1.len()).map(|i| if a <= i && i < b { parent1[i] } else { *fill.next().unwrap() }).collect()
}

#[test]
fn crossover_of_single_node() {
    let mut rng = rand::rng();
    assert_eq!(crossover(&vec![5], &vec![5], &mut rng), vec![5]);
}

#[test]
fn linear_order_walks_a_path_from_an_end() {
    let edges = vec![GEdge { from: 0, to: 1 }, GEdge { from: 1, to: 2 }, GEdge { from: 2, to: 3 }];
    let order = rdf_glance::layoutalg::linear::linear_order(&edges);
    assert!(order == vec![0, 1, 2, 3] || order == vec![3, 2, 1, 0], "{:?}", order);
}

#[test]
fn linear_order_covers_a_star_from_a_leaf() {
    let edges = vec![GEdge { from: 0, to: 1 }, GEdge { from: 0, to: 2 }, GEdge { from: 0, to: 3 }];
    let order = rdf_glance::layoutalg::linear::linear_order(&edges);
    assert_eq!(order.len(), 4);
    assert_ne!(order[0], 0);
    assert_eq!(order[1], 0);
    let mut sorted = order.clone();
    sorted.sort();
    assert_eq!(sorted, vec![0, 1, 2, 3]);
}

#[test]
fn ox_crossover_keeps_segment_and_fills_in_parent2_order() {
    let parent1 = vec![0, 1, 2, 3, 4, 5, 6, 7];
    let parent2 = vec![7, 6, 5, 4, 3, 2, 1, 0];
    assert_eq!(ox_crossover(&parent1, &parent2, 2, 5), vec![7, 6, 2, 3, 4, 5, 1, 0]);
    assert_eq!(ox_crossover(&parent1, &parent2, 0, 0), parent2);
    assert_eq!(ox_crossover(&parent1, &parent2, 0, 7), vec![0, 1, 2, 3, 4, 5, 6, 7]);
}

#[test]
fn dfs_preorder_takes_neighbours_from_the_end_of_each_list() {
    let mut lists: HashMap<usize, Vec<usize>> = HashMap::new();
    lists.insert(0, vec![1, 2]);
    lists.insert(1, vec![3]);
    lists.insert(2, vec![0]);
    lists.insert(3, vec![]);
    assert_eq!(dfs_preorder_of(&lists, 0), vec![0, 2, 1, 3]);
    let mut diamond: HashMap<usize, Vec<usize>> = HashMap::new();
    diamond.insert(0, vec![1, 2]);
    diamond.insert(1, vec![2]);
    diamond.insert(2, vec![1]);
    assert_eq!(dfs_preorder_of(&diamond, 0), vec![0, 2, 1]);
    // A node without a list is visited and has no neighbours.
    assert_eq!(dfs_preorder_of(&diamond, 7), vec![7]);
    // A path is walked to its end before backing up.
    let mut tree: HashMap<usize, Vec<usize>> = HashMap::new();
    tree.insert(0, vec![1, 4]);
    tree.insert(4, vec![0, 5]);
    tree.insert(5, vec![4]);
    tree.insert(1, vec![0]);
    assert_eq!(dfs_preorder_of(&tree, 0), vec![0, 4, 5, 1]);
}
