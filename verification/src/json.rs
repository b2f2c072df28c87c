//! The node list as the upstream map server publishes it, reduced to what
//! the update reads.

use vstd::prelude::*;
use crate::models::NodeView;

verus! {

/// What a node says of itself in the node list. A node that is not yet fully
/// published lacks its id or its name.
pub struct NodeInfo {
    pub node_id: Option<String>,
    pub hostname: Option<String>,
}

/// The state flags of a node in the node list.
pub struct Flags {
    pub online: bool,
}

/// One entry of the node list.
pub struct Node {
    pub nodeinfo: NodeInfo,
    pub flags: Flags,
}

/// The node list as the upstream server publishes it.
pub struct Nodes {
    pub version: usize,
    pub nodes: Vec<Node>,
}

/// Mathematical value of an entry of the node list.
pub struct EntryView {
    pub id: Option<Seq<char>>,
    pub name: Option<Seq<char>>,
    pub online: bool,
}

impl View for Node {
    type V = EntryView;

    open spec fn view(&self) -> EntryView {
        EntryView {
            id: match self.nodeinfo.node_id {
                Some(s) => Some(s@),
                None => None,
            },
            name: match self.nodeinfo.hostname {
                Some(s) => Some(s@),
                None => None,
            },
            online: self.flags.online,
        }
    }
}

impl EntryView {
    /// The directory row that the entry stands for: it has one only if it
    /// carries both an id and a name.
    pub open spec fn row(self) -> Option<NodeView> {
        match (self.id, self.name) {
            (Some(id), Some(name)) => Some(NodeView { id, name, online: self.online }),
            _ => None,
        }
    }
}

/// The entries of a node list, each taken by its view.
pub open spec fn entry_views(nodes: Seq<Node>) -> Seq<EntryView> {
    nodes.map_values(|n: Node| n@)
}

/// The only version of the node list that is understood.
pub const SUPPORTED_VERSION: usize = 2;

} // verus!
