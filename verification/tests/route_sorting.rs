use rdf_glance::layoutalg::ortho::route_sorting::TopologyRouting;

#[test]
fn test_topological_sort_no_cycle() {
    let mut topo = TopologyRouting::new(4);
    assert!(topo.add_route_ord(0, 1));
    assert!(topo.add_route_ord(0, 2));
    assert!(topo.add_route_ord(1, 3));
    assert!(topo.add_route_ord(2, 3));

    let sorted = topo.topological_sort().unwrap();
    // Possible valid orders: [0,1,2,3] or [0,2,1,3]
    assert_eq!(sorted[0], 0);
    assert_eq!(sorted[3], 3);
}

#[test]
fn test_add_cycle() {
    let mut topo = TopologyRouting::new(3);
    assert!(topo.add_route_ord(0, 1));
    assert!(topo.add_route_ord(1, 2));
    assert!(!topo.add_route_ord(2, 0)); // This should create a cycle
    assert_eq!(topo.detected_cycles, 1);
    let sorted = topo.topological_sort().unwrap();

    assert_eq!(sorted[0], 0);
    assert_eq!(sorted[1], 1);
    assert_eq!(sorted[2], 2);
}

#[test]
fn refused_relation_leaves_the_graph_unchanged() {
    let mut topo = TopologyRouting::new(2);
    assert!(topo.add_route_ord(0, 1));
    let before = topo.routes_order_graph.clone();
    assert!(!topo.add_route_ord(1, 0));
    assert!(!topo.add_route_ord(0, 0));
    assert_eq!(topo.detected_cycles, 2);
    assert_eq!(topo.routes_order_graph, before);
}

#[test]
fn topological_sort_lists_every_route_once() {
    let mut topo = TopologyRouting::new(5);
    assert!(topo.add_route_ord(4, 0));
    assert!(topo.add_route_ord(3, 4));
    assert!(topo.add_route_ord(1, 2));
    let sorted = topo.topological_sort().unwrap();
    assert_eq!(sorted.len(), 5);
    let pos = |r: usize| sorted.iter().position(|x| *x == r).unwrap();
    assert!(pos(3) < pos(4));
    assert!(pos(4) < pos(0));
    assert!(pos(1) < pos(2));
    let mut all = sorted.clone();
    all.sort();
    assert_eq!(all, vec![0, 1, 2, 3, 4]);
}

#[test]
fn topological_sort_of_empty_graph() {
    let topo = TopologyRouting::new(0);
    assert!(topo.topological_sort().unwrap().is_empty());
}

#[test]
fn offered_relations_keep_the_order_graph_sortable() {
    let mut t = TopologyRouting::new(4);
    let calls = [(0, 1), (1, 2), (2, 0), (2, 3), (3, 0), (0, 3), (3, 1)];
    let mut refused = 0;
    for (a, b) in calls {
        if !t.add_route_ord(a, b) {
            refused += 1;
        }
    }
    assert_eq!(t.detected_cycles, refused);
    assert_eq!(refused, 3);
    let order = t.topological_sort().unwrap();
    assert_eq!(order.len(), 4);
    let pos = |x: usize| order.iter().position(|&y| y == x).unwrap();
    for a in 0..4 {
        for &b in &t.routes_order_graph[a] {
            assert!(pos(a) < pos(b));
        }
    }
}

#[test]
fn topological_sort_reports_a_cycle() {
    let mut topo = TopologyRouting::new(2);
    topo.routes_order_graph = vec![vec![1], vec![0]];
    assert_eq!(topo.topological_sort(), None);
    topo.routes_order_graph = vec![vec![0], vec![]];
    assert_eq!(topo.topological_sort(), None);
    topo.routes_order_graph = vec![vec![1], vec![]];
    assert_eq!(topo.topological_sort(), Some(vec![0, 1]));
}
