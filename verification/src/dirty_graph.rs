//! The graph store: nodes, undirected edges, adjacency lists, generation
//! stamps that tell what was touched in the current pass, and an overlay
//! forest of ancestors and children.

use crate::graph_model::{edge_of, touches, without_id, GraphModel};
use crate::graph_model::{
    lemma_advanced_wf, lemma_with_edge_wf, lemma_with_node_wf, lemma_without_edge_wf,
    lemma_without_id_absent, lemma_without_node_wf,
};
use crate::ordered::{ids_in_order, lemma_listing_unique, listing, lists_ids, lists_pairs, pairs_in_order};
use std::collections::BTreeMap;
use std::collections::BTreeSet;
use vstd::prelude::*;

verus! {

/// A structural error of the graph store.
#[derive(Debug, Clone, Copy, PartialEq, Eq, Structural)]
pub enum GraphError {
    /// The node that an operation names is not in the graph.
    MissingNode(usize),
    /// The node that is to be added is in the graph already.
    DuplicateNode(usize),
}

/// The canonical form of an undirected edge: the smaller endpoint first.
pub fn new_edge(node1: usize, node2: usize) -> (e: (usize, usize))
    ensures
        e == edge_of(node1, node2),
{
    if node1 <= node2 {
        (node1, node2)
    } else {
        (node2, node1)
    }
}

/// A copy of a list of ids.
pub fn copy_ids(list: &Vec<usize>) -> (r: Vec<usize>)
    ensures
        r@ == list@,
{
    let mut r: Vec<usize> = Vec::new();
    let mut i: usize = 0;
    while i < list.len()
        invariant
            i <= list.len(),
            r@ == list@.take(i as int),
        decreases list.len() - i,
    {
        r.push(list[i]);
        assert(list@.take(i + 1) =~= list@.take(i as int).push(list@[i as int]));
        i += 1;
    }
    assert(list@.take(list@.len() as int) =~= list@);
    r
}

/// A copy of a list of ids without every occurrence of `id`.
pub fn copy_without(list: &Vec<usize>, id: usize) -> (r: Vec<usize>)
    ensures
        r@ == without_id(list@, id),
{
    let mut r: Vec<usize> = Vec::new();
    let mut i: usize = 0;
    while i < list.len()
        invariant
            i <= list.len(),
            r@ == without_id(list@.take(i as int), id),
        decreases list.len() - i,
    {
        proof {
            let next = list@.take(i + 1);
            assert(next.drop_last() =~= list@.take(i as int));
            assert(next.last() == list@[i as int]);
        }
        if list[i] != id {
            r.push(list[i]);
        }
        i += 1;
    }
    assert(list@.take(list@.len() as int) =~= list@);
    r
}

/// An undirected graph that keeps, for every node and edge, the generation
/// in which it was last touched, and beside the edges an overlay forest.
///
/// The stamps are a tool for the caller: a node that was made or marked in
/// the current generation is "dirty", and a caller may choose to leave such
/// nodes alone until the generation advances. The graph itself, and the
/// rules that rewrite it, never consult the stamps.
#[derive(Debug)]
pub struct DirtyGraph {
    /// The nodes that exist.
    nodes: BTreeSet<usize>,
    /// The edges that exist, each in canonical form.
    edges: BTreeSet<(usize, usize)>,
    /// For each node the nodes next to it. An edge stands in two lists.
    adjacency: BTreeMap<usize, Vec<usize>>,
    /// The parent of a node in the overlay. No entry where there is none.
    ancestors: BTreeMap<usize, usize>,
    /// The children recorded for a node in the overlay.
    children: BTreeMap<usize, BTreeSet<usize>>,
    /// The stamp of each node.
    node_generation: BTreeMap<usize, u8>,
    /// The stamp of each edge.
    edge_generation: BTreeMap<(usize, usize), u8>,
    /// The id of the next node that is numbered automatically.
    next_node: usize,
    /// The current generation, from 1 to 254.
    next_generation: u8,
}

impl View for DirtyGraph {
    type V = GraphModel;

    closed spec fn view(&self) -> GraphModel {
        GraphModel {
            nodes: self.nodes@,
            edges: self.edges@,
            adjacency: self.adjacency@.map_values(|v: Vec<usize>| v@),
            ancestors: self.ancestors@,
            children: self.children@.map_values(|s: BTreeSet<usize>| s@),
            node_generation: self.node_generation@,
            edge_generation: self.edge_generation@,
            next_node: self.next_node,
            next_generation: self.next_generation,
        }
    }
}

impl Default for DirtyGraph {
    /// The empty graph, in its first generation.
    fn default() -> (g: DirtyGraph)
        ensures
            g@ == GraphModel::empty(),
            g.wf(),
    {
        DirtyGraph::new()
    }
}

impl DirtyGraph {
    /// The invariant of the store, which every operation keeps.
    pub open spec fn wf(&self) -> bool {
        self@.wf()
    }

    /// The empty graph, in its first generation.
    pub fn new() -> (g: DirtyGraph)
        ensures
            g@ == GraphModel::empty(),
            g.wf(),
    {
        let g = DirtyGraph {
            nodes: BTreeSet::new(),
            edges: BTreeSet::new(),
            adjacency: BTreeMap::new(),
            ancestors: BTreeMap::new(),
            children: BTreeMap::new(),
            node_generation: BTreeMap::new(),
            edge_generation: BTreeMap::new(),
            next_node: 0,
            next_generation: 1,
        };
        proof {
            assert(g@.adjacency =~= Map::<usize, Seq<usize>>::empty());
            assert(g@.children =~= Map::<usize, Set<usize>>::empty());
        }
        g
    }

    /// Appends `rhs` to the neighbors of the existing node `lhs`.
    fn add_to_adjacency(&mut self, lhs: usize, rhs: usize)
        requires
            old(self)@.adjacency.contains_key(lhs),
        ensures
            final(self)@ == (GraphModel {
                adjacency: old(self)@.adjacency.insert(lhs, old(self)@.adjacency[lhs].push(rhs)),
                ..old(self)@
            }),
    {
        let found = self.adjacency.remove(&lhs);
        let mut list = match found {
            Some(list) => list,
            None => Vec::new(),
        };
        list.push(rhs);
        self.adjacency.insert(lhs, list);
        proof {
            assert(final(self)@.adjacency =~= old(self)@.adjacency.insert(
                lhs,
                old(self)@.adjacency[lhs].push(rhs),
            ));
            assert(final(self)@.children =~= old(self)@.children);
        }
    }

    /// Takes every occurrence of `rhs` out of the neighbors of the existing node `lhs`.
    fn remove_from_adjacency(&mut self, lhs: usize, rhs: usize)
        requires
            old(self)@.adjacency.contains_key(lhs),
        ensures
            final(self)@ == (GraphModel {
                adjacency: old(self)@.adjacency.insert(
                    lhs,
                    without_id(old(self)@.adjacency[lhs], rhs),
                ),
                ..old(self)@
            }),
    {
        let found = self.adjacency.remove(&lhs);
        let list = match found {
            Some(list) => copy_without(&list, rhs),
            None => Vec::new(),
        };
        self.adjacency.insert(lhs, list);
        proof {
            assert(final(self)@.adjacency =~= old(self)@.adjacency.insert(
                lhs,
                without_id(old(self)@.adjacency[lhs], rhs),
            ));
            assert(final(self)@.children =~= old(self)@.children);
        }
    }

    /// Whether the edge exists; never fails.
    pub fn contains_edge(&self, sid: usize, tid: usize) -> (r: bool)
        ensures
            r == self@.has_edge(sid, tid),
    {
        let edge = new_edge(sid, tid);
        self.edges.contains(&edge)
    }

    /// Makes `ancestor` the parent of `me`, in place of any parent it had,
    /// and records `me` among the children of `ancestor`.
    pub fn add_ancestor(&mut self, me: usize, ancestor: usize)
        ensures
            final(self)@ == old(self)@.with_ancestor(me, ancestor),
    {
        self.ancestors.insert(me, ancestor);
        let found = self.children.remove(&ancestor);
        let mut kids = match found {
            Some(kids) => kids,
            None => BTreeSet::new(),
        };
        kids.insert(me);
        self.children.insert(ancestor, kids);
        proof {
            assert(final(self)@.children =~= old(self)@.with_ancestor(me, ancestor).children);
            assert(final(self)@.adjacency =~= old(self)@.adjacency);
        }
    }

    /// Leaves `me` without a parent.
    pub fn remove_ancestor(&mut self, me: usize)
        ensures
            final(self)@ == old(self)@.without_ancestor(me),
    {
        self.ancestors.remove(&me);
        proof {
            assert(final(self)@.children =~= old(self)@.children);
            assert(final(self)@.adjacency =~= old(self)@.adjacency);
        }
    }

    /// Detaches the children of `id`. Each goes, in ascending order, to
    /// `remap` where that is given, else to the parent of `id`; where `id`
    /// has no parent either, the children are left without one. Then the
    /// record of children of `id` is dropped.
    pub fn remove_children(&mut self, id: usize, remap: Option<usize>)
        ensures
            final(self)@ == old(self)@.without_children(id, remap),
    {
        let heir = match remap {
            Some(remap) => Some(remap),
            None => self.get_ancestor(id),
        };
        let kids = self.get_children(id);
        let mut i: usize = 0;
        while i < kids.len()
            invariant
                i <= kids.len(),
                self@ == old(self)@.rehomed_all(kids@.take(i as int), heir),
            decreases kids.len() - i,
        {
            proof {
                let next = kids@.take(i + 1);
                assert(next.drop_last() =~= kids@.take(i as int));
                assert(next.last() == kids@[i as int]);
            }
            match heir {
                Some(h) => self.add_ancestor(kids[i], h),
                None => self.remove_ancestor(kids[i]),
            }
            i += 1;
        }
        assert(kids@.take(kids@.len() as int) =~= kids@);
        let ghost moved = self@;
        self.children.remove(&id);
        proof {
            assert(final(self)@.children =~= moved.children.remove(id));
            assert(final(self)@.adjacency =~= moved.adjacency);
        }
    }

    /// The parent of `id` in the overlay.
    pub fn get_ancestor(&self, id: usize) -> (r: Option<usize>)
        ensures
            r == self@.ancestor_of(id),
    {
        match self.ancestors.get(&id) {
            Some(a) => Some(*a),
            None => None,
        }
    }

    /// The children recorded for `id` in the overlay, in ascending order.
    pub fn get_children(&self, id: usize) -> (r: Vec<usize>)
        ensures
            r@ == listing(self@.children_of(id)),
            lists_ids(r@, self@.children_of(id)),
    {
        match self.children.get(&id) {
            Some(kids) => ids_in_order(kids),
            None => {
                let r: Vec<usize> = Vec::new();
                proof {
                    assert(r@.to_set() =~= Set::<usize>::empty());
                    assert(lists_ids(r@, Set::<usize>::empty()));
                    lemma_listing_unique(
                        r@,
                        listing(Set::<usize>::empty()),
                        Set::<usize>::empty(),
                    );
                }
                r
            },
        }
    }

    /// Starts the next generation, resetting every stamp where the count wraps around.
    pub fn advance_generation(&mut self)
        requires
            old(self).wf(),
        ensures
            final(self)@ == old(self)@.advanced(),
            final(self).wf(),
    {
        proof {
            lemma_advanced_wf(self@);
        }
        if self.next_generation == 254 {
            let ids = ids_in_order(&self.nodes);
            let mut i: usize = 0;
            while i < ids.len()
                invariant
                    i <= ids.len(),
                    lists_ids(ids@, old(self)@.nodes),
                    self@ == (GraphModel { node_generation: self@.node_generation, ..old(self)@ }),
                    self@.node_generation.dom() == old(self)@.nodes,
                    forall|k: usize|
                        old(self)@.nodes.contains(k) ==> #[trigger] self@.node_generation[k] == (
                        if ids@.take(i as int).contains(k) {
                            0u8
                        } else {
                            old(self)@.node_generation[k]
                        }),
                decreases ids.len() - i,
            {
                let id = ids[i];
                proof {
                    assert(ids@.to_set().contains(id));
                    assert(ids@.take(i + 1) =~= ids@.take(i as int).push(id));
                    assert forall|k: usize| ids@.take(i + 1).contains(k) <==> (ids@.take(
                        i as int,
                    ).contains(k) || k == id) by {
                        crate::graph_model::lemma_push_contains(ids@.take(i as int), id, k);
                    }
                }
                self.node_generation.insert(id, 0);
                proof {
                    assert(self@.adjacency =~= old(self)@.adjacency);
                    assert(self@.children =~= old(self)@.children);
                    assert(self@.node_generation.dom() =~= old(self)@.nodes);
                }
                i += 1;
            }
            let ghost mid = self@;
            let pairs = pairs_in_order(&self.edges);
            let mut j: usize = 0;
            while j < pairs.len()
                invariant
                    j <= pairs.len(),
                    lists_pairs(pairs@, old(self)@.edges),
                    self@ == (GraphModel { edge_generation: self@.edge_generation, ..mid }),
                    self@.edge_generation.dom() == old(self)@.edges,
                    mid.edges == old(self)@.edges,
                    forall|e: (usize, usize)|
                        old(self)@.edges.contains(e) ==> #[trigger] self@.edge_generation[e] == (
                        if pairs@.take(j as int).contains(e) {
                            0u8
                        } else {
                            old(self)@.edge_generation[e]
                        }),
                decreases pairs.len() - j,
            {
                let e = pairs[j];
                proof {
                    assert(pairs@.to_set().contains(e));
                    assert(pairs@.take(j + 1) =~= pairs@.take(j as int).push(e));
                    assert forall|k: (usize, usize)| pairs@.take(j + 1).contains(k) <==> (
                    pairs@.take(j as int).contains(k) || k == e) by {
                        let s = pairs@.take(j as int);
                        let t = s.push(e);
                        if s.contains(k) {
                            let x = choose|x: int| 0 <= x < s.len() && s[x] == k;
                            assert(t[x] == k);
                        }
                        if k == e {
                            assert(t[s.len() as int] == k);
                        }
                        if t.contains(k) {
                            let x = choose|x: int| 0 <= x < t.len() && t[x] == k;
                            if x < s.len() {
                                assert(s[x] == k);
                            }
                        }
                    }
                }
                self.edge_generation.insert(e, 0);
                proof {
                    assert(self@.adjacency =~= mid.adjacency);
                    assert(self@.children =~= mid.children);
                    assert(self@.edge_generation.dom() =~= old(self)@.edges);
                }
                j += 1;
            }
            self.next_generation = 1;
            proof {
                assert(ids@.take(ids@.len() as int) =~= ids@);
                assert(pairs@.take(pairs@.len() as int) =~= pairs@);
                assert(self@.adjacency =~= old(self)@.adjacency);
                assert(self@.children =~= old(self)@.children);
                assert(self@.node_generation =~= old(self)@.advanced().node_generation) by {
                    assert forall|k: usize| old(self)@.nodes.contains(k) implies ids@.contains(
                        k,
                    ) by {
                        assert(ids@.to_set().contains(k));
                    }
                }
                assert(self@.edge_generation =~= old(self)@.advanced().edge_generation) by {
                    assert forall|e: (usize, usize)| old(self)@.edges.contains(e) implies pairs@.contains(
                    e) by {
                        assert(pairs@.to_set().contains(e));
                    }
                }
            }
        } else {
            self.next_generation += 1;
            proof {
                assert(self@.adjacency =~= old(self)@.adjacency);
                assert(self@.children =~= old(self)@.children);
            }
        }
    }

    /// Stamps a node with the current generation. Returns false, and changes
    /// nothing, where the node does not exist.
    pub fn set_node_dirty(&mut self, node: usize) -> (r: bool)
        requires
            old(self).wf(),
        ensures
            r == old(self)@.nodes.contains(node),
            final(self)@ == old(self)@.marked_dirty(node),
            final(self).wf(),
    {
        if self.node_generation.contains_key(&node) {
            self.node_generation.insert(node, self.next_generation);
            proof {
                assert(self@.adjacency =~= old(self)@.adjacency);
                assert(self@.children =~= old(self)@.children);
                assert(self@.node_generation.dom() =~= old(self)@.nodes);
            }
            true
        } else {
            false
        }
    }

    /// Whether the node exists and its stamp is the current generation, or a later one.
    pub fn node_is_dirty(&self, node: usize) -> (r: bool)
        requires
            self.wf(),
        ensures
            r == self@.is_dirty(node),
    {
        if !self.nodes.contains(&node) {
            return false;
        }
        let stamp = match self.node_generation.get(&node) {
            Some(stamp) => *stamp,
            None => return false,
        };
        stamp >= self.next_generation
    }

    /// The id that the next automatically numbered node gets.
    pub fn next_id(&self) -> (r: usize)
        ensures
            r == self@.next_node,
    {
        self.next_node
    }

    /// Whether the graph has no node.
    pub fn is_empty(&self) -> (r: bool)
        ensures
            r == self@.nodes.is_empty(),
    {
        self.nodes.is_empty()
    }

    /// The number of nodes.
    pub fn order(&self) -> (r: usize)
        ensures
            r == self@.nodes.len(),
    {
        self.nodes.len()
    }

    /// The number of edges.
    pub fn size(&self) -> (r: usize)
        ensures
            r == self@.edges.len(),
    {
        self.edges.len()
    }

    /// The ids of the nodes, in ascending order.
    pub fn nodes(&self) -> (r: Vec<usize>)
        ensures
            lists_ids(r@, self@.nodes),
            r@ == listing(self@.nodes),
    {
        ids_in_order(&self.nodes)
    }

    /// The neighbors of a node, in the order in which its edges were added.
    /// Fails with `MissingNode` where the node does not exist.
    pub fn neighbors(&self, id: usize) -> (r: Result<Vec<usize>, GraphError>)
        requires
            self.wf(),
        ensures
            match r {
                Ok(list) => self@.nodes.contains(id) && list@ == self@.adjacency[id],
                Err(e) => !self@.nodes.contains(id) && e == GraphError::MissingNode(id),
            },
    {
        match self.adjacency.get(&id) {
            Some(list) => Ok(copy_ids(list)),
            None => Err(GraphError::MissingNode(id)),
        }
    }

    /// Whether the node exists.
    pub fn has_node(&self, id: usize) -> (r: bool)
        ensures
            r == self@.nodes.contains(id),
    {
        self.nodes.contains(&id)
    }

    /// The length of the adjacency list of a node. Fails with `MissingNode`
    /// where the node does not exist.
    pub fn degree(&self, id: usize) -> (r: Result<usize, GraphError>)
        requires
            self.wf(),
        ensures
            match r {
                Ok(n) => self@.nodes.contains(id) && n == self@.adjacency[id].len(),
                Err(e) => !self@.nodes.contains(id) && e == GraphError::MissingNode(id),
            },
    {
        match self.adjacency.get(&id) {
            Some(list) => Ok(list.len()),
            None => Err(GraphError::MissingNode(id)),
        }
    }

    /// The edges in canonical form, in ascending order.
    pub fn edges(&self) -> (r: Vec<(usize, usize)>)
        ensures
            lists_pairs(r@, self@.edges),
            r@ == crate::ordered::pair_listing(self@.edges),
    {
        pairs_in_order(&self.edges)
    }

    /// Whether the two nodes are joined by an edge. It never fails: of nodes
    /// that do not exist it says that no edge joins them.
    pub fn has_edge(&self, sid: usize, tid: usize) -> (r: Result<bool, GraphError>)
        ensures
            r == Ok::<bool, GraphError>(self@.has_edge(sid, tid)),
    {
        Ok(self.contains_edge(sid, tid))
    }

    /// Adds a node under the next free automatic id and returns the id.
    /// Fails with `DuplicateNode` where that id was taken by `add_node_with`.
    pub fn add_node(&mut self) -> (r: Result<usize, GraphError>)
        requires
            old(self).wf(),
        ensures
            final(self).wf(),
            match r {
                Ok(id) => {
                    &&& id == old(self)@.next_node
                    &&& !old(self)@.nodes.contains(id)
                    &&& final(self)@ == old(self)@.with_next_node()
                },
                Err(e) => {
                    &&& old(self)@.nodes.contains(old(self)@.next_node)
                    &&& e == GraphError::DuplicateNode(old(self)@.next_node)
                    &&& final(self)@ == old(self)@
                },
            },
    {
        let id = self.next_node;
        match self.add_node_with(id) {
            Ok(()) => {},
            Err(e) => {
                return Err(e);
            },
        }
        if self.next_node < usize::MAX {
            self.next_node += 1;
        }
        proof {
            assert(self@.adjacency =~= old(self)@.with_next_node().adjacency);
            assert(self@.children =~= old(self)@.children);
            lemma_with_node_wf(old(self)@, id);
        }
        Ok(id)
    }

    /// Adds a node under the given id, with the stamp of the current
    /// generation. Fails with `DuplicateNode` where the id is in use.
    pub fn add_node_with(&mut self, id: usize) -> (r: Result<(), GraphError>)
        requires
            old(self).wf(),
        ensures
            final(self).wf(),
            match r {
                Ok(_) => !old(self)@.nodes.contains(id) && final(self)@ == old(self)@.with_node(id),
                Err(e) => {
                    &&& old(self)@.nodes.contains(id)
                    &&& e == GraphError::DuplicateNode(id)
                    &&& final(self)@ == old(self)@
                },
            },
    {
        if self.nodes.contains(&id) {
            return Err(GraphError::DuplicateNode(id));
        }
        self.nodes.insert(id);
        self.node_generation.insert(id, self.next_generation);
        self.adjacency.insert(id, Vec::new());
        proof {
            assert(self@.adjacency =~= old(self)@.with_node(id).adjacency);
            assert(self@.children =~= old(self)@.children);
            lemma_with_node_wf(old(self)@, id);
        }
        Ok(())
    }

    /// Joins two existing nodes and stamps the edge with the current
    /// generation. An edge that exists already is only stamped anew. Fails
    /// with `MissingNode`, naming `sid` first, where an endpoint does not
    /// exist; nothing changes then.
    pub fn add_edge(&mut self, sid: usize, tid: usize) -> (r: Result<(), GraphError>)
        requires
            old(self).wf(),
        ensures
            final(self).wf(),
            match r {
                Ok(_) => {
                    &&& old(self)@.nodes.contains(sid)
                    &&& old(self)@.nodes.contains(tid)
                    &&& final(self)@ == old(self)@.with_edge(sid, tid)
                },
                Err(e) => {
                    &&& final(self)@ == old(self)@
                    &&& e == GraphError::MissingNode(
                        if old(self)@.nodes.contains(sid) {
                            tid
                        } else {
                            sid
                        },
                    )
                    &&& !old(self)@.nodes.contains(sid) || !old(self)@.nodes.contains(tid)
                },
            },
    {
        if !self.nodes.contains(&sid) {
            return Err(GraphError::MissingNode(sid));
        }
        if !self.nodes.contains(&tid) {
            return Err(GraphError::MissingNode(tid));
        }
        let edge = new_edge(sid, tid);
        let fresh = self.edges.insert(edge);
        self.edge_generation.insert(edge, self.next_generation);
        proof {
            assert(self@.adjacency =~= old(self)@.adjacency);
            assert(self@.children =~= old(self)@.children);
        }
        if fresh {
            self.add_to_adjacency(sid, tid);
            self.add_to_adjacency(tid, sid);
        }
        proof {
            assert(self@.adjacency =~= old(self)@.with_edge(sid, tid).adjacency);
            lemma_with_edge_wf(old(self)@, sid, tid);
        }
        Ok(())
    }

    /// Removes the edges of a node, then the node. Returns the number of
    /// nodes removed: 1, or 0 where the node did not exist. It never fails.
    pub fn remove_node(&mut self, id: usize) -> (r: usize)
        requires
            old(self).wf(),
        ensures
            final(self).wf(),
            final(self)@ == old(self)@.without_node(id),
            r == (if old(self)@.nodes.contains(id) {
                1usize
            } else {
                0usize
            }),
    {
        self.remove_edges_with(id);
        self.node_generation.remove(&id);
        self.adjacency.remove(&id);
        let was_there = self.nodes.remove(&id);
        proof {
            assert(self@.adjacency =~= old(self)@.without_node(id).adjacency);
            assert(self@.children =~= old(self)@.children);
            lemma_without_node_wf(old(self)@, id);
        }
        if was_there {
            1
        } else {
            0
        }
    }

    /// Removes the edge between two nodes. Returns the number of edges
    /// removed: 1, or 0 where the edge did not exist.
    pub fn remove_edge(&mut self, sid: usize, tid: usize) -> (r: usize)
        requires
            old(self).wf(),
        ensures
            final(self).wf(),
            final(self)@ == old(self)@.without_edge(sid, tid),
            r == (if old(self)@.has_edge(sid, tid) {
                1usize
            } else {
                0usize
            }),
    {
        let edge = new_edge(sid, tid);
        proof {
            lemma_without_edge_wf(old(self)@, sid, tid);
        }
        if self.edges.remove(&edge) {
            self.edge_generation.remove(&edge);
            proof {
                assert(self@.adjacency =~= old(self)@.adjacency);
                assert(self@.children =~= old(self)@.children);
            }
            self.remove_from_adjacency(sid, tid);
            self.remove_from_adjacency(tid, sid);
            1
        } else {
            proof {
                assert(self@.adjacency =~= old(self)@.adjacency);
                assert(self@.children =~= old(self)@.children);
                assert(self@.edges =~= old(self)@.edges);
            }
            0
        }
    }

    /// Removes every edge that touches a node; the node stays. Returns the
    /// number of edges removed.
    pub fn remove_edges_with(&mut self, id: usize) -> (r: usize)
        requires
            old(self).wf(),
        ensures
            final(self).wf(),
            final(self)@ == old(self)@.without_edges_of(id),
            r == old(self)@.edges_of(id).len(),
    {
        let pairs = pairs_in_order(&self.edges);
        let ghost start = self@;
        let ghost mut gone: Set<(usize, usize)> = Set::empty();
        let mut count: usize = 0;
        let mut i: usize = 0;
        while i < pairs.len()
            invariant
                i <= pairs.len(),
                start == old(self)@,
                start.wf(),
                lists_pairs(pairs@, start.edges),
                count <= i,
                gone.finite(),
                gone.len() == count,
                forall|e: (usize, usize)|
                    gone.contains(e) <==> (touches(e, id) && pairs@.take(i as int).contains(e)),
                self@ == (GraphModel {
                    edges: self@.edges,
                    edge_generation: self@.edge_generation,
                    adjacency: self@.adjacency,
                    ..start
                }),
                self@.edges == start.edges.difference(gone),
                self@.edge_generation == start.edge_generation.remove_keys(gone),
                self@.adjacency.dom() == start.nodes,
                forall|k: usize|
                    start.nodes.contains(k) ==> #[trigger] self@.adjacency[k] == (if k != id
                        && gone.contains(edge_of(k, id)) {
                        without_id(start.adjacency[k], id)
                    } else {
                        start.adjacency[k]
                    }),
            decreases pairs.len() - i,
        {
            let e = pairs[i];
            proof {
                assert(pairs@.to_set().contains(e));
                assert(start.edges.contains(e));
                assert(pairs@.take(i + 1) =~= pairs@.take(i as int).push(e));
                assert forall|k: (usize, usize)| pairs@.take(i + 1).contains(k) <==> (pairs@.take(
                    i as int,
                ).contains(k) || k == e) by {
                    let s = pairs@.take(i as int);
                    let t = s.push(e);
                    if s.contains(k) {
                        let x = choose|x: int| 0 <= x < s.len() && s[x] == k;
                        assert(t[x] == k);
                    }
                    if k == e {
                        assert(t[s.len() as int] == k);
                    }
                    if t.contains(k) {
                        let x = choose|x: int| 0 <= x < t.len() && t[x] == k;
                        if x < s.len() {
                            assert(s[x] == k);
                        }
                    }
                }
                // No pair is listed twice.
                if pairs@.take(i as int).contains(e) {
                    let x = choose|x: int| 0 <= x < i && pairs@.take(i as int)[x] == e;
                    assert(crate::ordered::pair_before(pairs@[x], pairs@[i as int]));
                }
            }
            if e.0 == id || e.1 == id {
                let ghost before = self@;
                self.edges.remove(&e);
                self.edge_generation.remove(&e);
                proof {
                    assert(self@.adjacency =~= before.adjacency);
                    assert(self@.children =~= before.children);
                }
                let other = if e.0 == id {
                    e.1
                } else {
                    e.0
                };
                if other != id {
                    self.remove_from_adjacency(other, id);
                }
                proof {
                    let gone_next = gone.insert(e);
                    assert(e == edge_of(other, id));
                    assert(self@.edges =~= start.edges.difference(gone_next));
                    assert(self@.edge_generation =~= start.edge_generation.remove_keys(gone_next));
                    assert(self@.adjacency.dom() =~= start.nodes);
                    assert forall|k: usize| start.nodes.contains(k) implies #[trigger] self@.adjacency[k]
                        == (if k != id && gone_next.contains(edge_of(k, id)) {
                        without_id(start.adjacency[k], id)
                    } else {
                        start.adjacency[k]
                    }) by {
                        if k != id && edge_of(k, id) == e {
                            assert(k == other);
                        }
                    }
                    gone = gone_next;
                }
                count += 1;
            }
            i += 1;
        }
        let ghost cut = self@;
        if self.nodes.contains(&id) {
            self.adjacency.insert(id, Vec::new());
        }
        proof {
            assert(pairs@.take(pairs@.len() as int) =~= pairs@);
            let goal = start.without_edges_of(id);
            assert(self@.adjacency.dom() =~= start.nodes);
            assert forall|k: usize| start.nodes.contains(k) && k != id implies self@.adjacency[k]
                == cut.adjacency[k] by {}
            assert(start.nodes.contains(id) ==> self@.adjacency[id] == Seq::<usize>::empty());
            assert(gone =~= start.edges_of(id)) by {
                assert forall|e: (usize, usize)| start.edges.contains(e) implies pairs@.contains(
                    e,
                ) by {
                    assert(pairs@.to_set().contains(e));
                }
                assert forall|e: (usize, usize)| pairs@.contains(e) implies start.edges.contains(
                    e,
                ) by {
                    assert(pairs@.to_set().contains(e));
                }
            }
            assert(self@.edges =~= goal.edges);
            assert(self@.edge_generation =~= goal.edge_generation);
            assert(self@.children =~= start.children);
            assert(self@.adjacency =~= goal.adjacency) by {
                assert forall|k: usize| start.nodes.contains(k) && k != id implies self@.adjacency[k]
                    == without_id(start.adjacency[k], id) by {
                    assert(self@.adjacency[k] == cut.adjacency[k]);
                    if !gone.contains(edge_of(k, id)) {
                        assert(start.adjacency[k].contains(id) <==> start.edges.contains(
                            edge_of(k, id),
                        ));
                        assert(touches(edge_of(k, id), id));
                        lemma_without_id_absent(start.adjacency[k], id);
                    }
                }
            }
            lemma_without_node_wf(start, id);
        }
        count
    }
}

} // verus!
