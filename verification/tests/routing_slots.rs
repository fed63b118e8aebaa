use rdf_glance::layoutalg::ortho::routing::{BendDirection, Side};
use rdf_glance::layoutalg::ortho::routing_slots::{
    channel_max_slots, consume_slot, sort_legs, ChannelConnector, ChannelConnectorSide, ChannelConnectorType,
    ChannelConnectors, ChannelLeg, LegOrderState, PortSides,
};

/// Whether a route from `start` to `end` runs in the global direction:
/// left to right, or top to bottom when both lie on one vertical line.
fn start_before_end(start: (f32, f32), end: (f32, f32)) -> bool {
    if start.0 < end.0 {
        true
    } else if start.0 == end.0 {
        start.1 < end.1
    } else {
        false
    }
}

#[test]
fn test_leg_ordering_state() {
    //DRight +---------------------------+0  DownLeft
    //       |  +-------------------+1   |
    //       |  |                   |    |
    //       |  |                   |    |
    //       0  1                   0    1
    //   0 - is global order
    //   We follow the route DownRight and DownLeft
    let mut order_state = LegOrderState::with_direction(start_before_end((0.0, 0.0), (20.0, 0.0)));
    assert!(order_state.is_global_order(BendDirection::DownRight));
    assert!(order_state.is_global_order(BendDirection::DownLeft));
    assert!(!order_state.current_is_global);

    let mut order_state = LegOrderState::with_direction(start_before_end((20.0, 0.0), (0.0, 0.0)));
    assert!(!order_state.is_global_order(BendDirection::DownLeft));
    assert!(order_state.is_global_order(BendDirection::DownRight));
    assert!(order_state.current_is_global);
}

fn test_leg(start_connector: usize, end_connector: usize, circular_distance: u16, port_sides: PortSides) -> ChannelLeg {
    ChannelLeg {
        start_connector,
        end_connector,
        route_start_idx: 0,
        route_channel_idx: 0,
        route_end_idx: 1,
        edge_idx: 0,
        circular_distance,
        port_sides,
        route_order: 0,
        is_global_order: true,
    }
}

#[test]
fn test_channel_leg_cmp() {
    let leg1 = test_leg(0, 2, 2, PortSides::BothLeftOrTop);
    let leg2 = test_leg(1, 3, 3, PortSides::BothLeftOrTop);
    let leg3 = test_leg(1, 3, 1, PortSides::BothRightOrBottom);
    let leg4 = test_leg(1, 3, 1, PortSides::BothRightOrBottom);
    assert!(leg1 < leg2);
    assert!(leg2 < leg3);
    assert!(leg1 < leg3);
    assert!(leg3 == leg4);
    let leg5 = test_leg(3, 1, 1, PortSides::ChangeUp);
    let leg6 = test_leg(3, 2, 1, PortSides::ChangeUp);
    // leg5 is more left as leg6 because the connector orders 1<2
    assert!(leg5 < leg6);
    println!("Leg5 vs Leg6: {:?}", leg5.leg_relative_order(&leg6));
    assert_eq!(leg5.leg_relative_order(&leg6), std::cmp::Ordering::Less);

    let leg7 = test_leg(4, 2, 1, PortSides::ChangeUp);
    assert!(leg6 < leg7);
    let leg8 = test_leg(2, 8, 1, PortSides::ChangeUp);
    let leg9 = test_leg(2, 9, 1, PortSides::ChangeUp);
    assert!(leg9 > leg8);

    let leg10 = test_leg(3, 1, 1, PortSides::ChangeDown);
    let leg11 = test_leg(3, 2, 1, PortSides::ChangeDown);
    assert!(leg10 > leg11);

    let leg12 = test_leg(9, 14, 1, PortSides::ChangeDown);
    let leg13 = test_leg(9, 15, 1, PortSides::ChangeDown);
    let leg14 = test_leg(10, 15, 1, PortSides::ChangeDown);
    assert!(leg13 < leg12);
    assert!(leg14 < leg13);
    assert!(leg14 < leg12);

    let leg15 = test_leg(1, 3, 2, PortSides::BothRightOrBottom);
    let leg16 = test_leg(1, 4, 3, PortSides::BothRightOrBottom);
    assert!(leg15 < leg16);
    // Exception local order is not global order
    assert_eq!(leg15.leg_relative_order(&leg16), std::cmp::Ordering::Greater);
}

#[test]
fn test_port_sides() {
    let ps1 = PortSides::from_sides(Side::Left, Side::Left, 0, 1);
    assert_eq!(ps1, PortSides::BothLeftOrTop);
    let ps2 = PortSides::from_sides(Side::Right, Side::Right, 0, 1);
    assert_eq!(ps2, PortSides::BothRightOrBottom);
    let ps3 = PortSides::from_sides(Side::Left, Side::Right, 1, 0);
    assert_eq!(ps3, PortSides::ChangeUp);
    let ps4 = PortSides::from_sides(Side::Right, Side::Left, 1, 0);
    assert_eq!(ps4, PortSides::ChangeDown);
    let ps5 = PortSides::from_sides(Side::Left, Side::Right, 0, 1);
    assert_eq!(ps5, PortSides::ChangeDown);
    let ps6 = PortSides::from_sides(Side::Right, Side::Left, 0, 1);
    assert_eq!(ps6, PortSides::ChangeUp);
}

#[test]
fn leg_order_is_antisymmetric_on_examples() {
    let a = test_leg(0, 2, 2, PortSides::BothLeftOrTop);
    let b = test_leg(1, 3, 1, PortSides::BothRightOrBottom);
    assert_eq!(a.compare_legs(&b), b.compare_legs(&a).reverse());
    assert_eq!(a.compare_legs(&a), std::cmp::Ordering::Equal);
}

#[test]
fn consume_slot_takes_from_either_end() {
    let mut range = 2u16..5u16;
    assert_eq!(consume_slot(&mut range, true), 5);
    assert_eq!(range, 2..4);
    assert_eq!(consume_slot(&mut range, false), 2);
    assert_eq!(range, 3..4);
    let mut empty_top = 0u16..0u16;
    assert_eq!(consume_slot(&mut empty_top, true), 0);
    assert_eq!(empty_top, 0..0);
}

fn connector(circular_index: usize) -> ChannelConnector {
    ChannelConnector {
        slots: 0,
        connector_type: ChannelConnectorType::Port(circular_index),
        connector_side: ChannelConnectorSide::LeftOrTop,
        circular_index,
    }
}

#[test]
fn circular_distance_takes_the_shorter_way_round() {
    let cs: Vec<ChannelConnector> = (0..6).map(connector).collect();
    assert_eq!(ChannelConnectors::circular_distance(0, 2, &cs), 2);
    assert_eq!(ChannelConnectors::circular_distance(0, 3, &cs), 3);
    assert_eq!(ChannelConnectors::circular_distance(0, 5, &cs), 1);
    assert_eq!(ChannelConnectors::circular_distance(4, 1, &cs), 3);
}

#[test]
fn channel_max_slots_counts_the_busiest_gap() {
    let legs = vec![
        test_leg(0, 3, 3, PortSides::BothLeftOrTop),
        test_leg(2, 1, 1, PortSides::BothLeftOrTop),
        test_leg(3, 4, 1, PortSides::BothLeftOrTop),
    ];
    // gaps 0-1: 1 leg, 1-2: 2 legs, 2-3: 1 leg, 3-4: 1 leg
    assert_eq!(channel_max_slots(5, &legs), 2);
    assert_eq!(channel_max_slots(5, &Vec::new()), 0);
}

#[test]
fn sort_legs_orders_into_stacking_order() {
    let mut legs = vec![
        test_leg(1, 3, 3, PortSides::BothLeftOrTop),
        test_leg(1, 3, 1, PortSides::BothRightOrBottom),
        test_leg(0, 2, 2, PortSides::BothLeftOrTop),
    ];
    sort_legs(&mut legs);
    assert_eq!(legs[0], test_leg(0, 2, 2, PortSides::BothLeftOrTop));
    assert_eq!(legs[1], test_leg(1, 3, 3, PortSides::BothLeftOrTop));
    assert_eq!(legs[2], test_leg(1, 3, 1, PortSides::BothRightOrBottom));
}

#[test]
fn connectors_are_kept_per_channel() {
    let mut cc = ChannelConnectors::new();
    cc.add_connectors(vec![connector(0), connector(1)]);
    cc.add_connectors(vec![connector(0)]);
    assert_eq!(cc.channel_offsets, vec![0, 2]);
    assert_eq!(cc.connector_range(0).len(), 2);
    assert_eq!(cc.connector_range(1).len(), 1);
}
