//! The nodes of a builder.
use crate::text;
use vstd::prelude::*;

verus! {

/// A node that runs builds.
#[derive(Debug, Clone)]
pub struct Node {
    pub name: String,
    pub endpoint: String,
    pub platforms: Vec<String>,
}

/// A node with the builder that was made for it in this run.
#[derive(Debug, Clone)]
pub struct ShardNode {
    pub name: String,
    pub shard_builder: String,
    pub platforms: Vec<String>,
}

/// What a node holds.
#[verifier::ext_equal]
pub struct NodeView {
    pub name: Seq<char>,
    pub endpoint: Seq<char>,
    pub platforms: Seq<Seq<char>>,
}

impl View for Node {
    type V = NodeView;

    open spec fn view(&self) -> NodeView {
        NodeView {
            name: self.name@,
            endpoint: self.endpoint@,
            platforms: text::texts(self.platforms@),
        }
    }
}

impl Node {
    /// A copy of the node.
    pub fn copy(&self) -> (r: Node)
        ensures
            r@ == self@,
    {
        Node {
            name: self.name.clone(),
            endpoint: self.endpoint.clone(),
            platforms: text::copy_texts(self.platforms.as_slice()),
        }
    }
}

/// What some nodes hold.
pub open spec fn node_views(nodes: Seq<Node>) -> Seq<NodeView> {
    nodes.map_values(|n: Node| n@)
}

}
