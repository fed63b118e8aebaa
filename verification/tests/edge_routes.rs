use rdf_glance::layoutalg::ortho::route_legs::{RouteEdge, RoutingGraph};
use rdf_glance::layoutalg::ortho::routing::{AbstractEdgeRoute, RNode, RNodeType, Side};
use rdf_glance::layoutalg::ortho::routing_slots::{
    calculate_edge_routes, ChannelConnector, ChannelConnectorSide, ChannelConnectorType, ChannelConnectors,
};

/// Two node boxes side by side with one vertical channel between them; the
/// right port of node 0 and the left port of node 1 open into it.
fn two_boxes() -> (RoutingGraph, ChannelConnectors, Vec<AbstractEdgeRoute>) {
    let graph = RoutingGraph {
        nodes: vec![
            RNode::from_type(RNodeType::Node(0)),
            RNode::from_type(RNodeType::Node(1)),
            RNode::from_type(RNodeType::Port(0, 0, Side::Right)),
            RNode::from_type(RNodeType::Port(1, 0, Side::Left)),
        ],
        nodes_len: 2,
        vchannels_len: 1,
        hchannels_len: 0,
    };
    let mut connectors = ChannelConnectors::new();
    connectors.add_connectors(vec![
        ChannelConnector {
            slots: 0,
            connector_type: ChannelConnectorType::Port(0),
            connector_side: ChannelConnectorSide::LeftOrTop,
            circular_index: 0,
        },
        ChannelConnector {
            slots: 0,
            connector_type: ChannelConnectorType::Port(1),
            connector_side: ChannelConnectorSide::RightOrButton,
            circular_index: 1,
        },
    ]);
    let routes = vec![AbstractEdgeRoute { from: 0, to: 1, route: vec![2, 3], bend_directions: vec![] }];
    (graph, connectors, routes)
}

#[test]
fn one_edge_takes_one_slot_everywhere() {
    let (graph, mut connectors, routes) = two_boxes();
    let edges = vec![RouteEdge { from: 0, to: 1, start_before_end: true }];
    let routing = calculate_edge_routes(&graph, &mut connectors, &edges, &routes);
    assert_eq!(routing.channel_slots, vec![1]);
    // four port slots per node: right, left, top, bottom
    assert_eq!(routing.port_slots, vec![1, 0, 0, 0, 0, 1, 0, 0]);
    assert_eq!(routing.edge_routes.len(), 1);
    assert_eq!(routing.edge_routes[0].edge_idx, 0);
    assert_eq!(routing.edge_routes[0].abstract_route, 0);
    assert_eq!(connectors.connectors[0].slots, 1);
    assert_eq!(connectors.connectors[1].slots, 1);
}

#[test]
fn parallel_edges_share_the_route_and_stack() {
    let (graph, mut connectors, routes) = two_boxes();
    let edges = vec![
        RouteEdge { from: 0, to: 1, start_before_end: true },
        RouteEdge { from: 1, to: 0, start_before_end: false },
    ];
    let routing = calculate_edge_routes(&graph, &mut connectors, &edges, &routes);
    assert_eq!(routing.channel_slots, vec![2]);
    assert_eq!(routing.port_slots, vec![2, 0, 0, 0, 0, 2, 0, 0]);
    assert_eq!(routing.edge_routes.len(), 2);
    for (i, r) in routing.edge_routes.iter().enumerate() {
        assert_eq!(r.edge_idx, i);
        assert_eq!(r.abstract_route, 0);
    }
    assert_eq!(connectors.connectors[0].slots, 2);
    assert_eq!(connectors.connectors[1].slots, 2);
    let a = &routing.edge_routes[0];
    let b = &routing.edge_routes[1];
    println!("{:?} {:?} {:?} {:?}", a.port_slots, a.channel_slots, b.port_slots, b.channel_slots);
    assert_ne!(a.channel_slots[0], b.channel_slots[0]);
    assert_ne!(a.port_slots, b.port_slots);
}
