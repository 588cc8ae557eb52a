//! Nodes: what the graph stores for a node, what a pattern asks of one, and
//! the template from which a new one is made.

use crate::condition::Condition;
use crate::value::Value;
use std::collections::HashMap;
use vstd::prelude::*;
use vstd::string::StringExecFns;

verus! {

/// What the graph stores for a node: a name, and named scalar attributes.
#[derive(Clone, Debug)]
pub struct Node {
    pub name: String,
    pub values: HashMap<String, Value>,
}

impl Node {
    /// A node with the given name and no attributes.
    pub fn new(name: &str) -> (n: Node)
        ensures
            n.name@ == name@,
            n.values@ == Map::<String, Value>::empty(),
    {
        Node { name: String::from_str(name), values: HashMap::new() }
    }
}

impl Default for Node {
    /// The node without a name and without attributes.
    fn default() -> (n: Node)
        ensures
            n.name@ == Seq::<char>::empty(),
            n.values@ == Map::<String, Value>::empty(),
    {
        Node { name: String::new(), values: HashMap::new() }
    }
}

/// What a pattern asks of one node.
#[derive(Clone, Debug)]
pub struct FromNode {
    /// Identifies the node within its pattern. It is no id of the graph.
    pub id: i32,
    /// The name that the graph node must have, if any is asked for.
    pub name: Option<String>,
    /// Conditions on attributes. They are carried with the pattern; matching
    /// goes by the name alone and does not consult them.
    pub values: HashMap<String, Condition>,
}

impl FromNode {
    /// Whether a graph node is a candidate for this pattern node: the
    /// pattern asks for no name, or for the name that the node has.
    pub open spec fn admits(self, node: Node) -> bool {
        match self.name {
            Some(name) => name@ == node.name@,
            None => true,
        }
    }

    /// Checks whether the pattern node can match the given node.
    pub fn match_node(&self, node: &Node) -> (r: bool)
        ensures
            r == self.admits(*node),
    {
        match &self.name {
            Some(name) => *name == node.name,
            None => true,
        }
    }
}

/// The template of a node that a rule creates or puts in place of another:
/// a name, and for each attribute an arithmetic expression. The expressions
/// may use the attributes of a base node as variables.
#[derive(Clone, Debug)]
pub struct ToNode {
    pub name: String,
    pub values: HashMap<String, String>,
}

} // verus!
