use rdf_glance::layoutalg::ortho::route_legs::RoutingGraph;
use rdf_glance::layoutalg::ortho::route_search::{remove_no_bend_edges, route_edges, route_pairs, search_routes_from};
use rdf_glance::layoutalg::ortho::routing::{Orientation, RNode, RNodeType, Side};

/// Box 0 opens to the right into vertical channel 0, box 1 opens to the
/// top into horizontal channel 0; the two channels cross at a bend point.
///
/// 0: box 0, 1: box 1, 2: right port of box 0, 3: top port of box 1,
/// 4: bend point of the two channels.
fn corner_graph() -> RoutingGraph {
    let mut graph = RoutingGraph {
        nodes: vec![
            RNode::from_type(RNodeType::Node(0)),
            RNode::from_type(RNodeType::Node(1)),
            RNode::from_type(RNodeType::Port(0, 0, Side::Right)),
            RNode::from_type(RNodeType::Port(1, 0, Side::Top)),
            RNode::from_type(RNodeType::BendPoint(0, 0)),
        ],
        nodes_len: 2,
        vchannels_len: 1,
        hchannels_len: 1,
    };
    graph.add_edge(0, 2);
    graph.add_edge(2, 4);
    graph.add_edge(4, 3);
    graph.add_edge(3, 1);
    graph
}

/// Three boxes in a row, joined by one vertical channel between 0 and 1
/// and another between 1 and 2; box 3 stands alone.
///
/// 0..=3: boxes, 4: right port of 0, 5: left port of 1, 6: right port
/// of 1, 7: left port of 2.
fn row_graph() -> RoutingGraph {
    let mut graph = RoutingGraph {
        nodes: vec![
            RNode::from_type(RNodeType::Node(0)),
            RNode::from_type(RNodeType::Node(1)),
            RNode::from_type(RNodeType::Node(2)),
            RNode::from_type(RNodeType::Node(3)),
            RNode::from_type(RNodeType::Port(0, 0, Side::Right)),
            RNode::from_type(RNodeType::Port(1, 0, Side::Left)),
            RNode::from_type(RNodeType::Port(1, 1, Side::Right)),
            RNode::from_type(RNodeType::Port(2, 1, Side::Left)),
        ],
        nodes_len: 4,
        vchannels_len: 2,
        hchannels_len: 0,
    };
    graph.add_edge(0, 4);
    graph.add_edge(1, 5);
    graph.add_edge(1, 6);
    graph.add_edge(2, 7);
    graph.add_edge(4, 5);
    graph.add_edge(6, 7);
    graph
}

#[test]
fn add_edge_makes_both_neighbours() {
    let graph = corner_graph();
    assert_eq!(graph.nodes[0].neighbors, vec![2]);
    assert_eq!(graph.nodes[2].neighbors, vec![0, 4]);
    assert_eq!(graph.nodes[4].neighbors, vec![2, 3]);
    assert_eq!(graph.nodes[3].neighbors, vec![4, 1]);
    assert_eq!(graph.nodes[1].neighbors, vec![3]);
}

#[test]
fn bend_points_list_crossing_channels() {
    // two boxes, then 8 ports, then bend points
    let mut nodes = vec![RNode::from_type(RNodeType::Node(0)), RNode::from_type(RNodeType::Node(1))];
    for i in 0..8 {
        nodes.push(RNode::from_type(RNodeType::Port(i / 4, 0, Side::Left)));
    }
    nodes.push(RNode::from_type(RNodeType::BendPoint(0, 1)));
    nodes.push(RNode::from_type(RNodeType::BendPoint(1, 1)));
    nodes.push(RNode::from_type(RNodeType::BendPoint(0, 2)));
    let graph = RoutingGraph { nodes, nodes_len: 2, vchannels_len: 2, hchannels_len: 3 };
    assert_eq!(graph.bend_iterator(0, Orientation::Vertical), vec![1, 2]);
    assert_eq!(graph.bend_iterator(1, Orientation::Vertical), vec![1]);
    assert_eq!(graph.bend_iterator(1, Orientation::Horizontal), vec![0, 1]);
    assert_eq!(graph.bend_iterator(5, Orientation::Horizontal), Vec::<usize>::new());
}

#[test]
fn straight_ports_and_bends_are_removed() {
    let mut graph = row_graph();
    // a bend point on vertical channel 0 crossing horizontal channel 0
    graph.nodes.push(RNode::from_type(RNodeType::BendPoint(0, 0)));
    // port 4, a port in the middle, a bend point staying on channel 0, port 5
    let mut route = vec![4, 6, 8, 5];
    remove_no_bend_edges(&mut route, &graph);
    assert_eq!(route, vec![4, 5]);
}

#[test]
fn a_real_bend_is_kept() {
    let graph = corner_graph();
    let mut route = vec![2, 4, 3];
    remove_no_bend_edges(&mut route, &graph);
    assert_eq!(route, vec![2, 4, 3]);
}

#[test]
fn short_routes_stay_as_they_are() {
    let graph = corner_graph();
    let mut route = vec![2];
    remove_no_bend_edges(&mut route, &graph);
    assert_eq!(route, vec![2]);
    let mut route: Vec<usize> = vec![];
    remove_no_bend_edges(&mut route, &graph);
    assert!(route.is_empty());
}

#[test]
fn search_finds_the_corner_route() {
    let graph = corner_graph();
    let found = search_routes_from(&graph, 0, &[1]);
    assert_eq!(found.len(), 1);
    assert_eq!(found[0].0, 1);
    assert_eq!(found[0].1, vec![2, 4, 3]);
}

#[test]
fn search_does_not_pass_through_boxes() {
    let graph = row_graph();
    // box 2 lies behind box 1: no walk over ports reaches it from box 0
    let found = search_routes_from(&graph, 0, &[2, 1]);
    assert_eq!(found.len(), 1);
    assert_eq!(found[0].0, 1);
    assert_eq!(found[0].1, vec![4, 5]);
}

#[test]
fn search_finds_every_reachable_target() {
    let graph = row_graph();
    let found = search_routes_from(&graph, 1, &[2, 0]);
    let mut boxes: Vec<usize> = found.iter().map(|e| e.0).collect();
    boxes.sort();
    assert_eq!(boxes, vec![0, 2]);
    for (b, route) in found.iter() {
        if *b == 0 {
            assert_eq!(route, &vec![5, 4]);
        } else {
            assert_eq!(route, &vec![6, 7]);
        }
    }
}

#[test]
fn search_skips_unreachable_targets() {
    let graph = row_graph();
    let found = search_routes_from(&graph, 0, &[3]);
    assert!(found.is_empty());
}

#[test]
fn pairs_are_normalized_sorted_and_unique() {
    let edges = vec![(3, 1), (1, 3), (2, 2), (0, 5), (1, 0), (0, 1)];
    assert_eq!(route_pairs(&edges), vec![(0, 1), (0, 5), (1, 3)]);
    assert!(route_pairs(&vec![(4, 4)]).is_empty());
    assert!(route_pairs(&vec![]).is_empty());
}

#[test]
fn route_edges_routes_each_pair_once() {
    let graph = corner_graph();
    let routes = route_edges(&graph, &vec![(1, 0), (0, 1), (1, 1)]);
    assert_eq!(routes, vec![(0, 1, vec![2, 4, 3])]);
}

#[test]
fn route_edges_sorts_by_pair() {
    let graph = row_graph();
    let routes = route_edges(&graph, &vec![(2, 1), (1, 0)]);
    assert_eq!(routes.len(), 2);
    assert_eq!((routes[0].0, routes[0].1), (0, 1));
    assert_eq!(routes[0].2, vec![4, 5]);
    assert_eq!((routes[1].0, routes[1].1), (1, 2));
    assert_eq!(routes[1].2, vec![6, 7]);
}
