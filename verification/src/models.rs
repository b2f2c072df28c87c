//! The rows of the two tables, nodes and subscriptions, owned and borrowed.

use vstd::prelude::*;

verus! {

/// The name and the online flag of a node: what the directory holds under the node's id.
#[derive(Debug, PartialEq, Eq)]
pub struct NodeData {
    pub name: String,
    pub online: bool,
}

/// Mathematical value of a [`NodeData`].
pub struct NodeDataView {
    pub name: Seq<char>,
    pub online: bool,
}

impl View for NodeData {
    type V = NodeDataView;

    open spec fn view(&self) -> NodeDataView {
        NodeDataView { name: self.name@, online: self.online }
    }
}

/// A row of the node directory as it is read back.
#[derive(Debug, PartialEq, Eq)]
pub struct NodeQuery {
    pub id: String,
    pub name: String,
    pub online: bool,
}

/// Mathematical value of a node row.
pub struct NodeView {
    pub id: Seq<char>,
    pub name: Seq<char>,
    pub online: bool,
}

impl NodeView {
    /// The part of the row that is stored under its id.
    pub open spec fn data(self) -> NodeDataView {
        NodeDataView { name: self.name, online: self.online }
    }
}

impl View for NodeQuery {
    type V = NodeView;

    open spec fn view(&self) -> NodeView {
        NodeView { id: self.id@, name: self.name@, online: self.online }
    }
}

impl Clone for NodeQuery {
    fn clone(&self) -> (r: Self)
        ensures
            r@ == self@,
    {
        NodeQuery { id: self.id.clone(), name: self.name.clone(), online: self.online }
    }
}

/// A node row in the borrowed form in which it is written to the directory.
#[derive(Clone, Copy, Debug, PartialEq, Eq)]
pub struct Node<'a> {
    pub id: &'a str,
    pub name: &'a str,
    pub online: bool,
}

impl<'a> View for Node<'a> {
    type V = NodeView;

    open spec fn view(&self) -> NodeView {
        NodeView { id: self.id@, name: self.name@, online: self.online }
    }
}

/// A subscription row as it is read back: `email` watches the node `id`.
#[derive(Debug, PartialEq, Eq)]
pub struct MonitorQuery {
    pub id: String,
    pub email: String,
}

/// Mathematical value of a subscription: the node's id and the subscriber's address.
pub struct MonitorView {
    pub id: Seq<char>,
    pub email: Seq<char>,
}

impl View for MonitorQuery {
    type V = MonitorView;

    open spec fn view(&self) -> MonitorView {
        MonitorView { id: self.id@, email: self.email@ }
    }
}

impl Clone for MonitorQuery {
    fn clone(&self) -> (r: Self)
        ensures
            r@ == self@,
    {
        MonitorQuery { id: self.id.clone(), email: self.email.clone() }
    }
}

/// A subscription in the borrowed form in which it is inserted and deleted.
#[derive(Clone, Copy, Debug, PartialEq, Eq)]
pub struct Monitor<'a> {
    pub id: &'a str,
    pub email: &'a str,
}

impl<'a> View for Monitor<'a> {
    type V = MonitorView;

    open spec fn view(&self) -> MonitorView {
        MonitorView { id: self.id@, email: self.email@ }
    }
}

/// A subscription joined with the node it watches, if that node still exists.
#[derive(Debug, PartialEq, Eq)]
pub struct MonitorNodeQuery {
    /// Details for what is being monitored
    pub monitor: MonitorQuery,
    /// If this monitors an existing node, information about that node
    pub node: Option<NodeQuery>,
}

/// The rows of a vector of node rows, each taken by its view.
pub open spec fn node_views(rows: Seq<NodeQuery>) -> Seq<NodeView> {
    rows.map_values(|r: NodeQuery| r@)
}

/// The rows of a vector of subscriptions, each taken by its view.
pub open spec fn monitor_views(rows: Seq<MonitorQuery>) -> Seq<MonitorView> {
    rows.map_values(|r: MonitorQuery| r@)
}

} // verus!
