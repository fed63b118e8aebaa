//! What the ports of a channel connect to.

use vstd::prelude::*;

use crate::layoutalg::ortho::routing::Side;

verus! {

/// A port of a channel: the side of a node box, or a crossing with another
/// channel.
#[derive(Debug, Clone, Copy, PartialEq, Eq, Structural)]
pub enum ChannelPortType {
    NodePort { node_id: usize, side: Side },
    Bend { channel_id: usize },
}

} // verus!
