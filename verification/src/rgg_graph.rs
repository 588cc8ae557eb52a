//! The attributed graph: a graph store, and for each of its nodes the name
//! and attributes that belong to it.

use crate::dirty_graph::{DirtyGraph, GraphError};
use crate::graph_model::{lemma_with_node_wf, lemma_without_node_wf, GraphModel};
use crate::node::Node;
use crate::ordered::{listing, pair_listing};
use std::collections::HashMap;
use vstd::prelude::*;
use vstd::string::StringExecFns;

verus! {

/// The state of an attributed graph.
pub struct RggModel {
    /// The graph store.
    pub graph: GraphModel,
    /// What is stored for each node.
    pub values: Map<usize, Node>,
}

impl RggModel {
    /// The invariant: the store is well formed, the attributes are those of
    /// its nodes and of no others, and every id in use lies below the next
    /// automatic id.
    pub open spec fn wf(self) -> bool {
        &&& self.graph.wf()
        &&& self.values.dom() == self.graph.nodes
        &&& forall|k: usize| self.graph.nodes.contains(k) ==> k < self.graph.next_node
    }

    /// Whether an id is left for one more node.
    pub open spec fn has_room(self) -> bool {
        self.graph.next_node < usize::MAX
    }

    /// The graph with one more node, which holds `node`.
    pub open spec fn with_new_node(self, node: Node) -> RggModel {
        RggModel {
            graph: self.graph.with_next_node(),
            values: self.values.insert(self.graph.next_node, node),
        }
    }

    /// The graph without the node `id`, its edges and its attributes.
    pub open spec fn without_node(self, id: usize) -> RggModel {
        RggModel { graph: self.graph.without_node(id), values: self.values.remove(id) }
    }

    /// The graph in which the existing node `id` holds `node`; unchanged
    /// where there is no such node.
    pub open spec fn with_node_set(self, id: usize, node: Node) -> RggModel {
        if self.graph.nodes.contains(id) {
            RggModel { values: self.values.insert(id, node), ..self }
        } else {
            self
        }
    }

    /// The graph with another store under the same attributes.
    pub open spec fn with_graph(self, graph: GraphModel) -> RggModel {
        RggModel { graph, ..self }
    }

    /// What is stored for a node, if it exists.
    pub open spec fn node(self, id: usize) -> Option<Node> {
        if self.values.contains_key(id) {
            Some(self.values[id])
        } else {
            None
        }
    }

    /// The name of a node; the empty name where nothing is stored for it.
    pub open spec fn name_of(self, id: usize) -> Seq<char> {
        match self.node(id) {
            Some(node) => node.name@,
            None => Seq::empty(),
        }
    }

    /// Adding a node keeps the invariant, while an id is left for it.
    pub proof fn lemma_with_new_node_wf(self, node: Node)
        requires
            self.wf(),
            self.has_room(),
        ensures
            self.with_new_node(node).wf(),
    {
        lemma_with_node_wf(self.graph, self.graph.next_node);
        assert(self.with_new_node(node).values.dom() =~= self.with_new_node(node).graph.nodes);
    }

    /// Removing a node keeps the invariant.
    pub proof fn lemma_without_node_wf(self, id: usize)
        requires
            self.wf(),
        ensures
            self.without_node(id).wf(),
    {
        lemma_without_node_wf(self.graph, id);
        assert(self.without_node(id).values.dom() =~= self.without_node(id).graph.nodes);
    }

    /// Setting what an existing node holds keeps the invariant.
    pub proof fn lemma_with_node_set_wf(self, id: usize, node: Node)
        requires
            self.wf(),
        ensures
            self.with_node_set(id, node).wf(),
    {
        assert(self.with_node_set(id, node).values.dom() =~= self.graph.nodes);
    }
}

/// The decimal digits of a number.
pub uninterp spec fn decimal(n: usize) -> Seq<char>;

/// `usize::to_string`: a number in decimal digits. The result depends on the
/// number alone.
#[verifier::external_body]
fn decimal_string(n: usize) -> (s: String)
    ensures
        s@ == decimal(n),
{
    n.to_string()
}

/// The line of a node in the textual dump.
pub open spec fn node_line(id: usize, name: Seq<char>) -> Seq<char> {
    "  "@ + decimal(id) + " [label=\""@ + name + "\"]"@
}

/// The line of an edge in the textual dump.
pub open spec fn edge_line(e: (usize, usize)) -> Seq<char> {
    "  "@ + decimal(e.0) + " -- "@ + decimal(e.1)
}

/// The lines of the given nodes, each after a line break.
pub open spec fn node_lines(m: RggModel, ids: Seq<usize>) -> Seq<char>
    decreases ids.len(),
{
    if ids.len() == 0 {
        Seq::empty()
    } else {
        node_lines(m, ids.drop_last()) + "\n"@ + node_line(ids.last(), m.name_of(ids.last()))
    }
}

/// The lines of the given edges, each after a line break.
pub open spec fn edge_lines(edges: Seq<(usize, usize)>) -> Seq<char>
    decreases edges.len(),
{
    if edges.len() == 0 {
        Seq::empty()
    } else {
        edge_lines(edges.drop_last()) + "\n"@ + edge_line(edges.last())
    }
}

/// The textual dump of a graph: a header, one line for each node in
/// ascending order of the ids, one line for each edge in ascending order,
/// and a closing line.
pub open spec fn dot_text(m: RggModel) -> Seq<char> {
    "graph {"@ + node_lines(m, listing(m.graph.nodes)) + edge_lines(pair_listing(m.graph.edges))
        + "\n}"@
}

/// A graph whose nodes carry a name and attributes.
#[derive(Debug)]
pub struct RggGraph {
    graph: DirtyGraph,
    values: HashMap<usize, Node>,
}

impl View for RggGraph {
    type V = RggModel;

    closed spec fn view(&self) -> RggModel {
        RggModel { graph: self.graph@, values: self.values@ }
    }
}

impl Default for RggGraph {
    /// The empty graph.
    fn default() -> (g: RggGraph)
        ensures
            g.wf(),
            g@.graph == GraphModel::empty(),
            g@.values == Map::<usize, Node>::empty(),
    {
        RggGraph::new()
    }
}

impl RggGraph {
    /// The invariant of the graph, which every operation keeps.
    pub open spec fn wf(&self) -> bool {
        self@.wf()
    }

    /// The empty graph.
    pub fn new() -> (g: RggGraph)
        ensures
            g.wf(),
            g@.graph == GraphModel::empty(),
            g@.values == Map::<usize, Node>::empty(),
    {
        RggGraph { graph: DirtyGraph::new(), values: HashMap::new() }
    }

    /// The graph store, for queries.
    pub fn graph(&self) -> (g: &DirtyGraph)
        ensures
            g@ == self@.graph,
    {
        &self.graph
    }

    /// Whether no id is left for another node.
    pub fn is_full(&self) -> (r: bool)
        requires
            self.wf(),
        ensures
            r == !self@.has_room(),
    {
        self.graph.next_id() == usize::MAX
    }

    /// Adds a node without a name and without attributes, and returns its id.
    pub fn insert_node(&mut self) -> (id: usize)
        requires
            old(self).wf(),
            old(self)@.has_room(),
        ensures
            final(self).wf(),
            id == old(self)@.graph.next_node,
            final(self)@ == old(self)@.with_new_node(final(self)@.values[id]),
            final(self)@.values[id].name@ == Seq::<char>::empty(),
            final(self)@.values[id].values@ == Map::<String, crate::value::Value>::empty(),
    {
        proof {
            reveal_strlit("");
        }
        self.insert_node_with(Node::new(""))
    }

    /// Adds a node that holds `node`, and returns its id. The node and what
    /// it holds come into being together.
    pub fn insert_node_with(&mut self, node: Node) -> (id: usize)
        requires
            old(self).wf(),
            old(self)@.has_room(),
        ensures
            final(self).wf(),
            id == old(self)@.graph.next_node,
            final(self)@ == old(self)@.with_new_node(node),
    {
        let id = self.graph.next_id();
        match self.graph.add_node() {
            Ok(_) => {
                self.values.insert(id, node);
            },
            Err(_) => {},
        }
        proof {
            old(self)@.lemma_with_new_node_wf(node);
        }
        id
    }

    /// Removes a node together with its edges and with what it holds.
    /// Nothing changes where the node does not exist.
    pub fn remove_node(&mut self, id: usize)
        requires
            old(self).wf(),
        ensures
            final(self).wf(),
            final(self)@ == old(self)@.without_node(id),
    {
        self.graph.remove_node(id);
        self.values.remove(&id);
        proof {
            old(self)@.lemma_without_node_wf(id);
        }
    }

    /// Puts `node` in the place of what the existing node `id` holds; the
    /// edges stay. Returns false, and changes nothing, where the node does
    /// not exist.
    pub fn set_node(&mut self, id: usize, node: Node) -> (r: bool)
        requires
            old(self).wf(),
        ensures
            final(self).wf(),
            r == old(self)@.graph.nodes.contains(id),
            final(self)@ == old(self)@.with_node_set(id, node),
    {
        proof {
            old(self)@.lemma_with_node_set_wf(id, node);
        }
        if self.graph.has_node(id) {
            self.values.insert(id, node);
            true
        } else {
            false
        }
    }

    /// What the node `id` holds, if it exists.
    pub fn node(&self, id: usize) -> (r: Option<&Node>)
        ensures
            match r {
                Some(node) => self@.node(id) == Some(*node),
                None => self@.node(id) is None,
            },
    {
        self.values.get(&id)
    }

    /// Whether the node exists.
    pub fn has_node(&self, id: usize) -> (r: bool)
        ensures
            r == self@.graph.nodes.contains(id),
    {
        self.graph.has_node(id)
    }

    /// The number of nodes.
    pub fn order(&self) -> (r: usize)
        ensures
            r == self@.graph.nodes.len(),
    {
        self.graph.order()
    }

    /// The neighbors of a node, in the order in which its edges were added.
    /// Fails with `MissingNode` where the node does not exist.
    pub fn neighbors(&self, id: usize) -> (r: Result<Vec<usize>, GraphError>)
        requires
            self.wf(),
        ensures
            match r {
                Ok(list) => self@.graph.nodes.contains(id) && list@ == self@.graph.adjacency[id],
                Err(e) => !self@.graph.nodes.contains(id) && e == GraphError::MissingNode(id),
            },
    {
        self.graph.neighbors(id)
    }

    /// Joins two existing nodes; see `DirtyGraph::add_edge`.
    pub fn add_edge(&mut self, sid: usize, tid: usize) -> (r: Result<(), GraphError>)
        requires
            old(self).wf(),
        ensures
            final(self).wf(),
            match r {
                Ok(_) => {
                    &&& old(self)@.graph.nodes.contains(sid)
                    &&& old(self)@.graph.nodes.contains(tid)
                    &&& final(self)@ == old(self)@.with_graph(old(self)@.graph.with_edge(sid, tid))
                },
                Err(e) => {
                    &&& final(self)@ == old(self)@
                    &&& e == GraphError::MissingNode(
                        if old(self)@.graph.nodes.contains(sid) {
                            tid
                        } else {
                            sid
                        },
                    )
                    &&& !old(self)@.graph.nodes.contains(sid) || !old(self)@.graph.nodes.contains(
                        tid,
                    )
                },
            },
    {
        self.graph.add_edge(sid, tid)
    }

    /// Makes `ancestor` the parent of `me` in the overlay.
    pub fn add_ancestor(&mut self, me: usize, ancestor: usize)
        requires
            old(self).wf(),
        ensures
            final(self).wf(),
            final(self)@ == old(self)@.with_graph(old(self)@.graph.with_ancestor(me, ancestor)),
    {
        self.graph.add_ancestor(me, ancestor);
    }

    /// Detaches the children of `id` in the overlay; see `DirtyGraph::remove_children`.
    pub fn remove_children(&mut self, id: usize, remap: Option<usize>)
        requires
            old(self).wf(),
        ensures
            final(self).wf(),
            final(self)@ == old(self)@.with_graph(old(self)@.graph.without_children(id, remap)),
    {
        proof {
            old(self)@.graph.lemma_without_children_keeps(id, remap);
        }
        self.graph.remove_children(id, remap);
    }

    /// Stamps a node with the current generation; see `DirtyGraph::set_node_dirty`.
    pub fn set_node_dirty(&mut self, node: usize) -> (r: bool)
        requires
            old(self).wf(),
        ensures
            final(self).wf(),
            r == old(self)@.graph.nodes.contains(node),
            final(self)@ == old(self)@.with_graph(old(self)@.graph.marked_dirty(node)),
    {
        self.graph.set_node_dirty(node)
    }

    /// Starts the next generation of the store.
    pub fn advance_generation(&mut self)
        requires
            old(self).wf(),
        ensures
            final(self).wf(),
            final(self)@ == old(self)@.with_graph(old(self)@.graph.advanced()),
    {
        self.graph.advance_generation();
    }

    /// The textual dump of the graph, in the DOT language: one line for each
    /// node with its name as the label, and one line for each edge.
    pub fn as_dot_string(&self) -> (r: String)
        requires
            self.wf(),
        ensures
            r@ == dot_text(self@),
    {
        let mut text = String::from_str("graph {");
        let ids = self.graph.nodes();
        let mut i: usize = 0;
        while i < ids.len()
            invariant
                i <= ids.len(),
                text@ == "graph {"@ + node_lines(self@, ids@.take(i as int)),
            decreases ids.len() - i,
        {
            let id = ids[i];
            proof {
                let next = ids@.take(i + 1);
                assert(next.drop_last() =~= ids@.take(i as int));
                assert(next.last() == id);
            }
            let ghost before = text@;
            text.append("\n");
            text.append("  ");
            text.append(decimal_string(id).as_str());
            text.append(" [label=\"");
            match self.values.get(&id) {
                Some(node) => {
                    text.append(node.name.as_str());
                },
                None => {
                    proof {
                        reveal_strlit("");
                    }
                    text.append("");
                },
            }
            text.append("\"]");
            proof {
                assert(text@ =~= before + "\n"@ + node_line(id, self@.name_of(id)));
                assert(text@ =~= "graph {"@ + node_lines(self@, ids@.take(i + 1)));
            }
            i += 1;
        }
        assert(ids@.take(ids@.len() as int) =~= ids@);
        let ghost head = text@;
        let pairs = self.graph.edges();
        let mut j: usize = 0;
        while j < pairs.len()
            invariant
                j <= pairs.len(),
                text@ == head + edge_lines(pairs@.take(j as int)),
            decreases pairs.len() - j,
        {
            let e = pairs[j];
            proof {
                let next = pairs@.take(j + 1);
                assert(next.drop_last() =~= pairs@.take(j as int));
                assert(next.last() == e);
            }
            let ghost before = text@;
            text.append("\n");
            text.append("  ");
            text.append(decimal_string(e.0).as_str());
            text.append(" -- ");
            text.append(decimal_string(e.1).as_str());
            proof {
                assert(text@ =~= before + "\n"@ + edge_line(e));
                assert(text@ =~= head + edge_lines(pairs@.take(j + 1)));
            }
            j += 1;
        }
        assert(pairs@.take(pairs@.len() as int) =~= pairs@);
        text.append("\n}");
        text
    }
}

} // verus!
