//! The mathematical model of the graph store: what a graph is, and what each
//! operation on it yields, as plain functions on sets, maps and sequences.

use vstd::prelude::*;

verus! {

/// The canonical form of the undirected edge between two nodes: the smaller
/// endpoint first.
pub open spec fn edge_of(a: usize, b: usize) -> (usize, usize) {
    if a <= b {
        (a, b)
    } else {
        (b, a)
    }
}

/// Whether an edge touches a node.
pub open spec fn touches(e: (usize, usize), id: usize) -> bool {
    e.0 == id || e.1 == id
}

/// `s` without every occurrence of `id`, the rest in the same order.
pub open spec fn without_id(s: Seq<usize>, id: usize) -> Seq<usize>
    decreases s.len(),
{
    if s.len() == 0 {
        s
    } else if s.last() == id {
        without_id(s.drop_last(), id)
    } else {
        without_id(s.drop_last(), id).push(s.last())
    }
}

/// What `without_id` keeps: every element but `id`.
pub proof fn lemma_without_id_contains(s: Seq<usize>, id: usize, x: usize)
    ensures
        without_id(s, id).contains(x) <==> (s.contains(x) && x != id),
    decreases s.len(),
{
    if s.len() > 0 {
        let rest = s.drop_last();
        lemma_without_id_contains(rest, id, x);
        let kept = without_id(rest, id);
        if s.contains(x) && x != id {
            let i = choose|i: int| 0 <= i < s.len() && s[i] == x;
            if i < s.len() - 1 {
                assert(rest[i] == x);
                assert(rest.contains(x));
                let j = choose|j: int| 0 <= j < kept.len() && kept[j] == x;
                if s.last() != id {
                    assert(kept.push(s.last())[j] == x);
                }
            } else {
                assert(kept.push(x)[kept.len() as int] == x);
            }
        }
        if without_id(s, id).contains(x) {
            let r = without_id(s, id);
            let j = choose|j: int| 0 <= j < r.len() && r[j] == x;
            if s.last() != id && j == kept.len() {
                assert(s[s.len() - 1] == x);
            } else {
                assert(kept[j] == x);
                assert(kept.contains(x));
                let i = choose|i: int| 0 <= i < rest.len() && rest[i] == x;
                assert(s[i] == x);
            }
        }
    }
}

/// Where `id` does not occur, `without_id` changes nothing.
pub proof fn lemma_without_id_absent(s: Seq<usize>, id: usize)
    requires
        !s.contains(id),
    ensures
        without_id(s, id) == s,
    decreases s.len(),
{
    if s.len() > 0 {
        let rest = s.drop_last();
        assert(s[s.len() - 1] == s.last());
        assert forall|i: int| 0 <= i < rest.len() implies rest[i] != id by {
            assert(s[i] == rest[i]);
        }
        lemma_without_id_absent(rest, id);
        assert(s =~= rest.push(s.last()));
    }
}

/// The state of a graph store.
pub struct GraphModel {
    /// The ids of the nodes.
    pub nodes: Set<usize>,
    /// The undirected edges, each in canonical form.
    pub edges: Set<(usize, usize)>,
    /// For each node its neighbors, in the order in which the edges came.
    pub adjacency: Map<usize, Seq<usize>>,
    /// The overlay forest: the parent of a node, where it has one.
    pub ancestors: Map<usize, usize>,
    /// The overlay forest: the children recorded for a node.
    pub children: Map<usize, Set<usize>>,
    /// The generation in which each node was last stamped.
    pub node_generation: Map<usize, u8>,
    /// The generation in which each edge was last stamped.
    pub edge_generation: Map<(usize, usize), u8>,
    /// The id that the next automatically numbered node gets.
    pub next_node: usize,
    /// The current generation.
    pub next_generation: u8,
}

impl GraphModel {
    /// The invariant of the store: edges are canonical and join existing
    /// nodes, the adjacency lists say exactly what the edge set says, and
    /// every node and edge carries a stamp.
    pub open spec fn wf(self) -> bool {
        &&& self.nodes.finite()
        &&& self.edges.finite()
        &&& forall|e: (usize, usize)| #[trigger]
            self.edges.contains(e) ==> e.0 <= e.1 && self.nodes.contains(e.0)
                && self.nodes.contains(e.1)
        &&& self.adjacency.dom() == self.nodes
        &&& forall|a: usize, b: usize|
            self.nodes.contains(a) ==> (#[trigger] self.adjacency[a].contains(b)
                <==> self.edges.contains(edge_of(a, b)))
        &&& self.node_generation.dom() == self.nodes
        &&& self.edge_generation.dom() == self.edges
        &&& 1 <= self.next_generation <= 254
    }

    /// The graph without nodes, in its first generation.
    pub open spec fn empty() -> GraphModel {
        GraphModel {
            nodes: Set::empty(),
            edges: Set::empty(),
            adjacency: Map::empty(),
            ancestors: Map::empty(),
            children: Map::empty(),
            node_generation: Map::empty(),
            edge_generation: Map::empty(),
            next_node: 0,
            next_generation: 1,
        }
    }

    /// Whether the two nodes are joined by an edge.
    pub open spec fn has_edge(self, a: usize, b: usize) -> bool {
        self.edges.contains(edge_of(a, b))
    }

    /// The neighbors of a node; no neighbors where the node is absent.
    pub open spec fn neighbors(self, id: usize) -> Seq<usize> {
        if self.nodes.contains(id) {
            self.adjacency[id]
        } else {
            Seq::empty()
        }
    }

    /// The children recorded for a node in the overlay; none where nothing is recorded.
    pub open spec fn children_of(self, id: usize) -> Set<usize> {
        if self.children.contains_key(id) {
            self.children[id]
        } else {
            Set::empty()
        }
    }

    /// The parent of a node in the overlay.
    pub open spec fn ancestor_of(self, id: usize) -> Option<usize> {
        if self.ancestors.contains_key(id) {
            Some(self.ancestors[id])
        } else {
            None
        }
    }

    /// Whether a node exists and carries the stamp of the current generation, or a later one.
    pub open spec fn is_dirty(self, id: usize) -> bool {
        self.nodes.contains(id) && self.node_generation[id] >= self.next_generation
    }

    /// The graph with the new node `id`, stamped with the current generation.
    pub open spec fn with_node(self, id: usize) -> GraphModel {
        GraphModel {
            nodes: self.nodes.insert(id),
            adjacency: self.adjacency.insert(id, Seq::empty()),
            node_generation: self.node_generation.insert(id, self.next_generation),
            ..self
        }
    }

    /// The id after `next_node`; it stays where no greater id exists.
    pub open spec fn following_id(self) -> usize {
        if self.next_node < usize::MAX {
            (self.next_node + 1) as usize
        } else {
            self.next_node
        }
    }

    /// The graph with a new node under the id `next_node`.
    pub open spec fn with_next_node(self) -> GraphModel {
        GraphModel { next_node: self.following_id(), ..self.with_node(self.next_node) }
    }

    /// The graph with the edge between two existing nodes, stamped with the
    /// current generation. A new edge extends both adjacency lists (a loop
    /// extends the one list twice); an edge that was there is only stamped.
    pub open spec fn with_edge(self, a: usize, b: usize) -> GraphModel {
        let e = edge_of(a, b);
        let first = self.adjacency.insert(a, self.adjacency[a].push(b));
        GraphModel {
            edges: self.edges.insert(e),
            edge_generation: self.edge_generation.insert(e, self.next_generation),
            adjacency: if self.edges.contains(e) {
                self.adjacency
            } else {
                first.insert(b, first[b].push(a))
            },
            ..self
        }
    }

    /// The graph without the edge between two nodes.
    pub open spec fn without_edge(self, a: usize, b: usize) -> GraphModel {
        let e = edge_of(a, b);
        if self.edges.contains(e) {
            let first = self.adjacency.insert(a, without_id(self.adjacency[a], b));
            GraphModel {
                edges: self.edges.remove(e),
                edge_generation: self.edge_generation.remove(e),
                adjacency: first.insert(b, without_id(first[b], a)),
                ..self
            }
        } else {
            self
        }
    }

    /// The edges that touch a node.
    pub open spec fn edges_of(self, id: usize) -> Set<(usize, usize)> {
        self.edges.filter(|e: (usize, usize)| touches(e, id))
    }

    /// The graph without the edges that touch `id`; the node itself stays.
    pub open spec fn without_edges_of(self, id: usize) -> GraphModel {
        GraphModel {
            edges: self.edges.filter(|e: (usize, usize)| !touches(e, id)),
            edge_generation: self.edge_generation.remove_keys(self.edges_of(id)),
            adjacency: Map::new(
                |k: usize| self.nodes.contains(k),
                |k: usize|
                    if k == id {
                        Seq::empty()
                    } else {
                        without_id(self.adjacency[k], id)
                    },
            ),
            ..self
        }
    }

    /// The graph without the node `id` and without its edges. The overlay is not touched.
    pub open spec fn without_node(self, id: usize) -> GraphModel {
        let cut = self.without_edges_of(id);
        GraphModel {
            nodes: cut.nodes.remove(id),
            adjacency: cut.adjacency.remove(id),
            node_generation: cut.node_generation.remove(id),
            ..cut
        }
    }

    /// The overlay with `ancestor` as the parent of `me`, and `me` among the
    /// children recorded for `ancestor`.
    pub open spec fn with_ancestor(self, me: usize, ancestor: usize) -> GraphModel {
        GraphModel {
            ancestors: self.ancestors.insert(me, ancestor),
            children: self.children.insert(ancestor, self.children_of(ancestor).insert(me)),
            ..self
        }
    }

    /// The overlay in which `me` has no parent.
    pub open spec fn without_ancestor(self, me: usize) -> GraphModel {
        GraphModel { ancestors: self.ancestors.remove(me), ..self }
    }

    /// The parent that the children of `id` get when `id` gives them up:
    /// `remap` where it is given, else the parent of `id`, if it has one.
    pub open spec fn heir(self, id: usize, remap: Option<usize>) -> Option<usize> {
        match remap {
            Some(r) => Some(r),
            None => self.ancestor_of(id),
        }
    }

    /// The overlay after one child of a node that gives up its children was
    /// handed to the heir, or orphaned where there is none.
    pub open spec fn rehomed(self, child: usize, heir: Option<usize>) -> GraphModel {
        match heir {
            Some(h) => self.with_ancestor(child, h),
            None => self.without_ancestor(child),
        }
    }

    /// The overlay after each of `kids`, in turn, was handed to the heir.
    pub open spec fn rehomed_all(self, kids: Seq<usize>, heir: Option<usize>) -> GraphModel
        decreases kids.len(),
    {
        if kids.len() == 0 {
            self
        } else {
            self.rehomed_all(kids.drop_last(), heir).rehomed(kids.last(), heir)
        }
    }

    /// The overlay after `id` gave up its children: each went, in ascending
    /// order, to the heir, and the record of children of `id` is dropped.
    pub open spec fn without_children(self, id: usize, remap: Option<usize>) -> GraphModel {
        let moved = self.rehomed_all(
            crate::ordered::listing(self.children_of(id)),
            self.heir(id, remap),
        );
        GraphModel { children: moved.children.remove(id), ..moved }
    }

    /// Handing children on touches the overlay alone.
    pub proof fn lemma_rehomed_all_keeps(self, kids: Seq<usize>, heir: Option<usize>)
        ensures
            self.rehomed_all(kids, heir) == (GraphModel {
                ancestors: self.rehomed_all(kids, heir).ancestors,
                children: self.rehomed_all(kids, heir).children,
                ..self
            }),
        decreases kids.len(),
    {
        if kids.len() > 0 {
            self.lemma_rehomed_all_keeps(kids.drop_last(), heir);
        }
    }

    /// Giving up children touches the overlay alone, so the invariant stays.
    pub proof fn lemma_without_children_keeps(self, id: usize, remap: Option<usize>)
        ensures
            self.without_children(id, remap) == (GraphModel {
                ancestors: self.without_children(id, remap).ancestors,
                children: self.without_children(id, remap).children,
                ..self
            }),
            self.wf() ==> self.without_children(id, remap).wf(),
    {
        self.lemma_rehomed_all_keeps(
            crate::ordered::listing(self.children_of(id)),
            self.heir(id, remap),
        );
    }

    /// The graph in the next generation. After generation 254 every stamp is
    /// reset to 0 and the count starts again at 1, so that no stamp of an
    /// earlier round can pass for a current one.
    pub open spec fn advanced(self) -> GraphModel {
        if self.next_generation + 1 == 255 {
            GraphModel {
                node_generation: Map::new(|k: usize| self.nodes.contains(k), |k: usize| 0u8),
                edge_generation: Map::new(
                    |e: (usize, usize)| self.edges.contains(e),
                    |e: (usize, usize)| 0u8,
                ),
                next_generation: 1,
                ..self
            }
        } else {
            GraphModel { next_generation: (self.next_generation + 1) as u8, ..self }
        }
    }

    /// The graph in which the node `id` carries the stamp of the current generation.
    pub open spec fn marked_dirty(self, id: usize) -> GraphModel {
        if self.nodes.contains(id) {
            GraphModel {
                node_generation: self.node_generation.insert(id, self.next_generation),
                ..self
            }
        } else {
            self
        }
    }
}

/// Adding a node that is not there keeps the invariant.
pub proof fn lemma_with_node_wf(g: GraphModel, id: usize)
    requires
        g.wf(),
        !g.nodes.contains(id),
    ensures
        g.with_node(id).wf(),
        g.with_next_node().wf() <== !g.nodes.contains(g.next_node),
{
    let h = g.with_node(id);
    assert forall|a: usize, b: usize| h.nodes.contains(a) implies (#[trigger] h.adjacency[a].contains(
        b,
    ) <==> h.edges.contains(edge_of(a, b))) by {
        if a != id {
            assert(g.adjacency[a].contains(b) <==> g.edges.contains(edge_of(a, b)));
        } else {
            if g.edges.contains(edge_of(a, b)) {
                assert(g.nodes.contains(edge_of(a, b).0) && g.nodes.contains(edge_of(a, b).1));
            }
        }
    }
    if !g.nodes.contains(g.next_node) {
        let n = g.with_node(g.next_node);
        assert forall|a: usize, b: usize| n.nodes.contains(a) implies (
        #[trigger] n.adjacency[a].contains(b) <==> n.edges.contains(edge_of(a, b))) by {
            if a != g.next_node {
                assert(g.adjacency[a].contains(b) <==> g.edges.contains(edge_of(a, b)));
            } else {
                if g.edges.contains(edge_of(a, b)) {
                    assert(g.nodes.contains(edge_of(a, b).0) && g.nodes.contains(
                        edge_of(a, b).1,
                    ));
                }
            }
        }
    }
}

/// Joining two existing nodes keeps the invariant.
pub proof fn lemma_with_edge_wf(g: GraphModel, a: usize, b: usize)
    requires
        g.wf(),
        g.nodes.contains(a),
        g.nodes.contains(b),
    ensures
        g.with_edge(a, b).wf(),
{
    let h = g.with_edge(a, b);
    let e = edge_of(a, b);
    assert(h.adjacency.dom() =~= h.nodes);
    assert(h.edge_generation.dom() =~= h.edges);
    assert forall|x: usize, y: usize| h.nodes.contains(x) implies (#[trigger] h.adjacency[x].contains(
        y,
    ) <==> h.edges.contains(edge_of(x, y))) by {
        assert(g.adjacency[x].contains(y) <==> g.edges.contains(edge_of(x, y)));
        if !g.edges.contains(e) {
            let first = g.adjacency.insert(a, g.adjacency[a].push(b));
            lemma_push_contains(g.adjacency[a], b, y);
            lemma_push_contains(first[b], a, y);
            if a == b {
                lemma_push_contains(g.adjacency[a].push(b), a, y);
            }
        }
    }
}

/// Adding an edge is idempotent: adding it a second time, in the same
/// generation and in either direction, changes nothing.
pub proof fn lemma_with_edge_idempotent(g: GraphModel, a: usize, b: usize)
    ensures
        g.with_edge(a, b).with_edge(a, b) == g.with_edge(a, b),
        g.with_edge(a, b).with_edge(b, a) == g.with_edge(a, b),
{
    let once = g.with_edge(a, b);
    let e = edge_of(a, b);
    assert(edge_of(b, a) == e);
    assert(once.edges.contains(e));
    assert(once.edges.insert(e) =~= once.edges);
    assert(once.edge_generation.insert(e, once.next_generation) =~= once.edge_generation);
}

/// What a sequence holds after a push.
pub proof fn lemma_push_contains(s: Seq<usize>, x: usize, y: usize)
    ensures
        s.push(x).contains(y) <==> (s.contains(y) || x == y),
{
    let t = s.push(x);
    if s.contains(y) {
        let i = choose|i: int| 0 <= i < s.len() && s[i] == y;
        assert(t[i] == y);
    }
    if x == y {
        assert(t[s.len() as int] == y);
    }
    if t.contains(y) {
        let i = choose|i: int| 0 <= i < t.len() && t[i] == y;
        if i < s.len() {
            assert(s[i] == y);
        }
    }
}

/// Taking an edge away keeps the invariant.
pub proof fn lemma_without_edge_wf(g: GraphModel, a: usize, b: usize)
    requires
        g.wf(),
    ensures
        g.without_edge(a, b).wf(),
{
    let h = g.without_edge(a, b);
    let e = edge_of(a, b);
    if g.edges.contains(e) {
        assert(g.nodes.contains(a) && g.nodes.contains(b));
        let first = g.adjacency.insert(a, without_id(g.adjacency[a], b));
        assert(h.adjacency.dom() =~= h.nodes);
        assert(h.edge_generation.dom() =~= h.edges);
        assert forall|x: usize, y: usize| h.nodes.contains(x) implies (
        #[trigger] h.adjacency[x].contains(y) <==> h.edges.contains(edge_of(x, y))) by {
            assert(g.adjacency[x].contains(y) <==> g.edges.contains(edge_of(x, y)));
            lemma_without_id_contains(g.adjacency[a], b, y);
            lemma_without_id_contains(first[b], a, y);
        }
    }
}

/// Cutting a node loose keeps the invariant, and so does removing it then.
pub proof fn lemma_without_node_wf(g: GraphModel, id: usize)
    requires
        g.wf(),
    ensures
        g.without_edges_of(id).wf(),
        g.without_node(id).wf(),
{
    let h = g.without_edges_of(id);
    assert(h.edge_generation.dom() =~= h.edges);
    assert(h.adjacency.dom() =~= h.nodes);
    assert forall|x: usize, y: usize| h.nodes.contains(x) implies (#[trigger] h.adjacency[x].contains(
        y,
    ) <==> h.edges.contains(edge_of(x, y))) by {
        assert(g.adjacency[x].contains(y) <==> g.edges.contains(edge_of(x, y)));
        if x != id {
            lemma_without_id_contains(g.adjacency[x], id, y);
        }
    }
    let r = g.without_node(id);
    assert(r.adjacency.dom() =~= r.nodes);
    assert(r.node_generation.dom() =~= r.nodes);
    assert forall|x: usize, y: usize| r.nodes.contains(x) implies (#[trigger] r.adjacency[x].contains(
        y,
    ) <==> r.edges.contains(edge_of(x, y))) by {
        assert(h.adjacency[x].contains(y) <==> h.edges.contains(edge_of(x, y)));
    }
}

/// Removing a node that the graph does not hold changes nothing.
pub proof fn lemma_without_node_absent(g: GraphModel, id: usize)
    requires
        g.wf(),
        !g.nodes.contains(id),
    ensures
        g.without_node(id) == g,
{
    let r = g.without_node(id);
    assert(g.edges_of(id) =~= Set::empty());
    assert(r.edges =~= g.edges);
    assert(r.edge_generation =~= g.edge_generation);
    assert(r.nodes =~= g.nodes);
    assert(r.node_generation =~= g.node_generation);
    assert(r.adjacency =~= g.adjacency) by {
        assert forall|k: usize| g.nodes.contains(k) implies without_id(g.adjacency[k], id)
            == g.adjacency[k] by {
            assert(g.adjacency[k].contains(id) <==> g.edges.contains(edge_of(k, id)));
            lemma_without_id_absent(g.adjacency[k], id);
        }
    }
}

/// The next generation keeps the invariant.
pub proof fn lemma_advanced_wf(g: GraphModel)
    requires
        g.wf(),
    ensures
        g.advanced().wf(),
{
    let h = g.advanced();
    assert(h.node_generation.dom() =~= h.nodes);
    assert(h.edge_generation.dom() =~= h.edges);
}

} // verus!
