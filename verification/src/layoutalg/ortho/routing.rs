//! The routing graph vocabulary: node kinds, sides, orientations and bends.

use vstd::prelude::*;

verus! {

/// A node of the routing graph.
#[derive(Debug, Clone, Copy, PartialEq, Eq, Structural)]
pub enum RNodeType {
    /// Crossing of a vertical channel (first index) and a horizontal channel (second index).
    BendPoint(usize, usize),
    /// Port of a node (node index, channel index, side of the node where the port is).
    Port(usize, usize, Side),
    /// A node box.
    Node(usize),
}

/// A channel named by its index among the channels of one orientation.
#[derive(Debug, PartialEq, Eq, Structural, Clone, Copy)]
pub struct ChannelOrientation {
    pub channel_idx: usize,
    pub orientation: Orientation,
}

impl RNodeType {
    /// The channel a port lies on; `None` for other nodes.
    pub fn get_channel_ref(&self) -> (res: Option<ChannelOrientation>)
        ensures
            res == match *self {
                RNodeType::Port(_, channel_id, side) => Some(
                    ChannelOrientation { channel_idx: channel_id, orientation: side.spec_orientation() },
                ),
                _ => None,
            },
    {
        match self {
            RNodeType::Port(_node_id, channel_id, side) => {
                Some(ChannelOrientation { channel_idx: *channel_id, orientation: side.orientation() })
            },
            _ => None,
        }
    }

    /// The channel of a port, or the channel of the requested orientation
    /// through a bend point.
    pub fn get_channel_id(&self, orientation: Orientation) -> (res: ChannelOrientation)
        requires
            !(*self is Node),
        ensures
            res == match *self {
                RNodeType::Port(_, channel_id, side) => ChannelOrientation {
                    channel_idx: channel_id,
                    orientation: side.spec_orientation(),
                },
                RNodeType::BendPoint(vertical, horizontal) => match orientation {
                    Orientation::Vertical => ChannelOrientation { channel_idx: vertical, orientation: Orientation::Vertical },
                    Orientation::Horizontal => ChannelOrientation {
                        channel_idx: horizontal,
                        orientation: Orientation::Horizontal,
                    },
                },
                RNodeType::Node(_) => res,
            },
    {
        match self {
            RNodeType::Port(_node_id, channel_id, side) => {
                ChannelOrientation { channel_idx: *channel_id, orientation: side.orientation() }
            },
            RNodeType::BendPoint(vertical, horizontal) => {
                match orientation {
                    Orientation::Vertical => ChannelOrientation {
                        channel_idx: *vertical,
                        orientation: Orientation::Vertical,
                    },
                    Orientation::Horizontal => ChannelOrientation {
                        channel_idx: *horizontal,
                        orientation: Orientation::Horizontal,
                    },
                }
            },
            RNodeType::Node(_) => {
                // excluded by the precondition
                ChannelOrientation { channel_idx: 0, orientation: orientation }
            },
        }
    }

    /// The channel that a walk continues on when it enters this node from
    /// `channel_orientation`; `None` when it stays on the same channel.
    pub fn new_channel_orientation(&self, channel_orientation: &ChannelOrientation) -> (res: Option<ChannelOrientation>)
        ensures
            res == match *self {
                RNodeType::Port(_, channel_id, side) => if channel_orientation.channel_idx == channel_id
                    && side.spec_orientation() == channel_orientation.orientation {
                    None
                } else {
                    Some(ChannelOrientation { channel_idx: channel_id, orientation: side.spec_orientation() })
                },
                RNodeType::BendPoint(vertical, horizontal) => {
                    let channel_id = match channel_orientation.orientation {
                        Orientation::Vertical => vertical,
                        Orientation::Horizontal => horizontal,
                    };
                    if channel_orientation.channel_idx == channel_id {
                        None
                    } else {
                        Some(ChannelOrientation {
                            channel_idx: channel_id,
                            orientation: channel_orientation.orientation.spec_opposite(),
                        })
                    }
                },
                RNodeType::Node(_) => None,
            },
    {
        match self {
            RNodeType::Port(_node_id, channel_id, side) => {
                let orientation = side.orientation();
                if channel_orientation.channel_idx == *channel_id && orientation == channel_orientation.orientation {
                    return None;
                }
                Some(ChannelOrientation { channel_idx: *channel_id, orientation })
            },
            RNodeType::BendPoint(vertical, horizontal) => {
                let (channel_id, orientation) = match channel_orientation.orientation {
                    Orientation::Vertical => (*vertical, Orientation::Vertical),
                    Orientation::Horizontal => (*horizontal, Orientation::Horizontal),
                };
                if channel_orientation.channel_idx == channel_id && orientation == channel_orientation.orientation {
                    return None;
                }
                Some(ChannelOrientation { channel_idx: channel_id, orientation: orientation.opposite() })
            },
            _ => None,
        }
    }
}

/// An undirected edge of the routing graph.
pub struct REdge {
    pub from: usize,
    pub to: usize,
}

/// A node of the routing graph with its neighbors.
#[derive(Debug)]
pub struct RNode {
    pub node_type: RNodeType,
    pub neighbors: Vec<usize>,
}

impl RNode {
    /// A node of the given kind without neighbors.
    pub fn from_type(node_type: RNodeType) -> (res: Self)
        ensures
            res.node_type == node_type,
            res.neighbors@ == Seq::<usize>::empty(),
    {
        RNode { node_type: node_type, neighbors: Vec::new() }
    }
}

/// A side of a node box.
#[derive(Clone, PartialEq, Eq, Copy, Debug, Structural)]
pub enum Side {
    Right,
    Left,
    Top,
    Bottom,
}

impl Side {
    /// The side across the box.
    pub open spec fn spec_opposite(self) -> Side {
        match self {
            Side::Right => Side::Left,
            Side::Left => Side::Right,
            Side::Top => Side::Bottom,
            Side::Bottom => Side::Top,
        }
    }

    /// The orientation of the channel that a port on this side opens into.
    pub open spec fn spec_orientation(self) -> Orientation {
        match self {
            Side::Right | Side::Left => Orientation::Vertical,
            Side::Top | Side::Bottom => Orientation::Horizontal,
        }
    }

    /// Position of the side in the four port slots kept per node.
    pub open spec fn spec_index(self) -> usize {
        match self {
            Side::Right => 0,
            Side::Left => 1,
            Side::Top => 2,
            Side::Bottom => 3,
        }
    }

    pub fn opposite(&self) -> (res: Side)
        ensures
            res == self.spec_opposite(),
    {
        match self {
            Side::Right => Side::Left,
            Side::Left => Side::Right,
            Side::Top => Side::Bottom,
            Side::Bottom => Side::Top,
        }
    }

    pub fn is_opposite(&self, side: Side) -> (res: bool)
        ensures
            res == (side == self.spec_opposite()),
    {
        match self {
            Side::Right => side == Side::Left,
            Side::Left => side == Side::Right,
            Side::Top => side == Side::Bottom,
            Side::Bottom => side == Side::Top,
        }
    }

    pub fn orientation(&self) -> (res: Orientation)
        ensures
            res == self.spec_orientation(),
    {
        match self {
            Side::Right | Side::Left => Orientation::Vertical,
            Side::Top | Side::Bottom => Orientation::Horizontal,
        }
    }

    /// Position of the side in the four port slots kept per node.
    pub fn index(&self) -> (res: usize)
        ensures
            res == self.spec_index(),
            res < 4,
    {
        match self {
            Side::Right => 0,
            Side::Left => 1,
            Side::Top => 2,
            Side::Bottom => 3,
        }
    }
}

/// Orientation of a channel.
#[derive(Debug, Clone, Copy, PartialEq, Eq, Structural)]
pub enum Orientation {
    Vertical,
    Horizontal,
}

impl Orientation {
    pub open spec fn spec_opposite(self) -> Orientation {
        match self {
            Orientation::Vertical => Orientation::Horizontal,
            Orientation::Horizontal => Orientation::Vertical,
        }
    }

    pub fn opposite(&self) -> (res: Orientation)
        ensures
            res == self.spec_opposite(),
    {
        match self {
            Orientation::Vertical => Orientation::Horizontal,
            Orientation::Horizontal => Orientation::Vertical,
        }
    }
}

/// A route between two nodes through the routing graph, without slots.
/// It starts and ends with a port; every bend point in between has a bend
/// direction.
pub struct AbstractEdgeRoute {
    pub from: usize,
    pub to: usize,
    pub route: Vec<usize>,
    pub bend_directions: Vec<BendDirection>,
}

/// Direction of a bend where a route changes channel.
#[derive(Debug, Clone, Copy, PartialEq, Eq, Structural)]
pub enum BendDirection {
    UpRight,
    UpLeft,
    DownRight,
    DownLeft,
}

impl BendDirection {
    pub open spec fn spec_side_for_orientation(self, orientation: Orientation) -> Side {
        match orientation {
            Orientation::Vertical => match self {
                BendDirection::UpRight | BendDirection::DownRight => Side::Right,
                BendDirection::UpLeft | BendDirection::DownLeft => Side::Left,
            },
            Orientation::Horizontal => match self {
                BendDirection::UpRight | BendDirection::UpLeft => Side::Top,
                BendDirection::DownRight | BendDirection::DownLeft => Side::Bottom,
            },
        }
    }

    /// The side of a channel of the given orientation that the bend leaves by.
    pub fn side_for_orientation(&self, orientation: Orientation) -> (res: Side)
        ensures
            res == self.spec_side_for_orientation(orientation),
    {
        match orientation {
            Orientation::Vertical => {
                match self {
                    BendDirection::UpRight | BendDirection::DownRight => Side::Right,
                    BendDirection::UpLeft | BendDirection::DownLeft => Side::Left,
                }
            },
            Orientation::Horizontal => {
                match self {
                    BendDirection::UpRight | BendDirection::UpLeft => Side::Top,
                    BendDirection::DownRight | BendDirection::DownLeft => Side::Bottom,
                }
            },
        }
    }
}

/// A port: a side of a node box.
#[derive(Debug)]
pub struct NodePort {
    pub node_id: usize,
    pub side: Side,
}

/// Taking the opposite side twice gives the side back.
pub proof fn lemma_side_opposite_involution(side: Side)
    ensures
        side.spec_opposite().spec_opposite() == side,
        side.spec_opposite() != side,
{
}

/// Two sides are opposite exactly when one is the opposite of the other, in
/// either order.
pub proof fn lemma_side_is_opposite_symmetric(a: Side, b: Side)
    ensures
        (b == a.spec_opposite()) == (a == b.spec_opposite()),
{
}

/// A side and its opposite open into channels of the same orientation.
pub proof fn lemma_side_opposite_same_orientation(side: Side)
    ensures
        side.spec_opposite().spec_orientation() == side.spec_orientation(),
{
}

/// The opposite orientation differs and taking it twice gives it back.
pub proof fn lemma_orientation_opposite_involution(orientation: Orientation)
    ensures
        orientation.spec_opposite().spec_opposite() == orientation,
        orientation.spec_opposite() != orientation,
{
}

/// The side that a bend leaves a channel by lies along that channel.
pub proof fn lemma_bend_side_matches_orientation(bend: BendDirection, orientation: Orientation)
    ensures
        bend.spec_side_for_orientation(orientation).spec_orientation() == orientation,
{
}

} // verus!
