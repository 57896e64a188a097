use vstd::prelude::*;

verus! {

/// The role of a vertex when a graph is drawn.
#[derive(Clone, Copy, Debug, PartialEq, Eq, Structural)]
pub enum NodeType {
    Source,
    Sink,
    Other,
}

/// What is drawn with a vertex: its role.
#[derive(Clone, Copy, Debug, PartialEq, Eq, Structural)]
pub struct NodeData {
    pub node_type: NodeType,
}

impl NodeData {
    /// A vertex that is neither source nor sink.
    pub fn new() -> (r: Self)
        ensures
            r.node_type == NodeType::Other,
    {
        NodeData { node_type: NodeType::Other }
    }

    pub fn new_source() -> (r: Self)
        ensures
            r.node_type == NodeType::Source,
    {
        NodeData { node_type: NodeType::Source }
    }

    pub fn new_sink() -> (r: Self)
        ensures
            r.node_type == NodeType::Sink,
    {
        NodeData { node_type: NodeType::Sink }
    }

    pub fn get_node_type(&self) -> (r: NodeType)
        ensures
            r == self.node_type,
    {
        self.node_type
    }
}

} // verus!
