//! A pattern as a graph of its own: the pattern nodes as nodes, the pattern
//! edges as edges, in a `DefaultGraph` of the crate `gamma`.

use crate::node::FromNode;
use crate::rule::{distinct_ids, names_id, same_edge, NodeSet};
use gamma::graph::DefaultGraph;
use vstd::prelude::*;

verus! {

/// `gamma::graph::DefaultGraph`, an undirected graph that keeps its nodes
/// and, for each node, its neighbors in the order in which they were added.
#[verifier::external_type_specification]
#[verifier::external_body]
pub struct ExDefaultGraph(gamma::graph::DefaultGraph);

/// `gamma::graph::Error`, what an operation of a `DefaultGraph` fails with.
#[verifier::external_type_specification]
#[verifier::external_body]
pub struct ExGammaError(gamma::graph::Error);

/// The ids of the nodes of a `DefaultGraph`, in the order in which they were added.
pub uninterp spec fn graph_nodes(g: DefaultGraph) -> Seq<usize>;

/// The links of a `DefaultGraph`: the pairs `(s, t)` such that `t` stands
/// among the neighbors of `s`. An edge is two links, one each way.
pub uninterp spec fn graph_links(g: DefaultGraph) -> Set<(usize, usize)>;

/// `DefaultGraph::new` makes a graph without nodes and without links.
pub assume_specification[ gamma::graph::DefaultGraph::new ]() -> (g: gamma::graph::DefaultGraph)
    ensures
        graph_nodes(g) == Seq::<usize>::empty(),
        graph_links(g) == Set::<(usize, usize)>::empty(),
;

/// `DefaultGraph::add_node` appends a node under an id that is not in use,
/// and fails, changing nothing, where the id is in use.
pub assume_specification[ gamma::graph::DefaultGraph::add_node ](
    g: &mut gamma::graph::DefaultGraph,
    id: usize,
) -> (r: Result<(), gamma::graph::Error>)
    ensures
        r is Ok <==> !graph_nodes(*old(g)).contains(id),
        r is Ok ==> graph_nodes(*final(g)) == graph_nodes(*old(g)).push(id),
        r is Err ==> graph_nodes(*final(g)) == graph_nodes(*old(g)),
        graph_links(*final(g)) == graph_links(*old(g)),
;

/// `DefaultGraph::add_edge` links two existing nodes both ways. It fails,
/// changing nothing, where a node is missing or the first is linked to the
/// second already.
pub assume_specification[ gamma::graph::DefaultGraph::add_edge ](
    g: &mut gamma::graph::DefaultGraph,
    sid: usize,
    tid: usize,
) -> (r: Result<(), gamma::graph::Error>)
    ensures
        r is Ok <==> (graph_nodes(*old(g)).contains(sid) && graph_nodes(*old(g)).contains(tid)
            && !graph_links(*old(g)).contains((sid, tid))),
        r is Ok ==> graph_links(*final(g)) == graph_links(*old(g)).insert((sid, tid)).insert(
            (tid, sid),
        ),
        r is Err ==> graph_links(*final(g)) == graph_links(*old(g)),
        graph_nodes(*final(g)) == graph_nodes(*old(g)),
;

/// The graph id of a pattern id: the number itself, and for a negative
/// number the id as far below the greatest id as the number is below zero,
/// less one. This is the pattern id read as an unsigned number.
pub open spec fn graph_id_of(p: i32) -> usize {
    if p >= 0 {
        p as usize
    } else {
        (usize::MAX - (-(p + 1))) as usize
    }
}

/// The graph id of a pattern id.
pub fn graph_id(p: i32) -> (r: usize)
    ensures
        r == graph_id_of(p),
{
    if p >= 0 {
        p as usize
    } else {
        usize::MAX - ((-(p + 1)) as usize)
    }
}

/// Distinct pattern ids have distinct graph ids.
pub proof fn lemma_graph_id_distinct(p: i32, q: i32)
    requires
        p != q,
    ensures
        graph_id_of(p) != graph_id_of(q),
{
}

/// The graph ids of the nodes of a pattern, in the order of declaration.
pub open spec fn pattern_ids(pattern: Seq<FromNode>) -> Seq<usize> {
    Seq::new(pattern.len(), |k: int| graph_id_of(pattern[k].id))
}

/// The links that the edges of a pattern make: each edge both ways.
pub open spec fn pattern_links(edges: Seq<(i32, i32)>) -> Set<(usize, usize)> {
    Set::new(
        |l: (usize, usize)|
            exists|e: int|
                0 <= e < edges.len() && (l == (
                    graph_id_of((#[trigger] edges[e]).0),
                    graph_id_of(edges[e].1),
                ) || l == (graph_id_of(edges[e].1), graph_id_of(edges[e].0))),
    )
}

impl NodeSet {
    /// The pattern as a graph: a node for each pattern node, and an edge
    /// for each pattern edge.
    pub fn as_graph(&self) -> (g: DefaultGraph)
        requires
            self.well_formed(),
        ensures
            graph_nodes(g) == pattern_ids(self.nodes@),
            graph_links(g) == pattern_links(self.edges@),
    {
        let mut graph = DefaultGraph::new();
        let mut k: usize = 0;
        while k < self.nodes.len()
            invariant
                k <= self.nodes.len(),
                distinct_ids(self.nodes@),
                graph_nodes(graph) == pattern_ids(self.nodes@.take(k as int)),
                graph_links(graph) == Set::<(usize, usize)>::empty(),
            decreases self.nodes.len() - k,
        {
            let id = graph_id(self.nodes[k].id);
            proof {
                let so_far = pattern_ids(self.nodes@.take(k as int));
                if so_far.contains(id) {
                    let j = choose|j: int| 0 <= j < so_far.len() && so_far[j] == id;
                    assert(self.nodes@[j].id != self.nodes@[k as int].id);
                    lemma_graph_id_distinct(self.nodes@[j].id, self.nodes@[k as int].id);
                }
            }
            let added = graph.add_node(id);
            assert(added is Ok);
            assert(graph_nodes(graph) =~= pattern_ids(self.nodes@.take(k + 1)));
            k += 1;
        }
        assert(self.nodes@.take(self.nodes@.len() as int) =~= self.nodes@);
        let mut e: usize = 0;
        while e < self.edges.len()
            invariant
                e <= self.edges.len(),
                self.well_formed(),
                graph_nodes(graph) == pattern_ids(self.nodes@),
                graph_links(graph) == pattern_links(self.edges@.take(e as int)),
            decreases self.edges.len() - e,
        {
            let edge = self.edges[e];
            let sid = graph_id(edge.0);
            let tid = graph_id(edge.1);
            proof {
                let ids = pattern_ids(self.nodes@);
                assert(names_id(self.nodes@, self.edges@[e as int].0));
                assert(names_id(self.nodes@, self.edges@[e as int].1));
                let a = choose|a: int|
                    0 <= a < self.nodes@.len() && (#[trigger] self.nodes@[a]).id == edge.0;
                let b = choose|b: int|
                    0 <= b < self.nodes@.len() && (#[trigger] self.nodes@[b]).id == edge.1;
                assert(ids[a] == sid);
                assert(ids[b] == tid);
                let so_far = self.edges@.take(e as int);
                if pattern_links(so_far).contains((sid, tid)) {
                    let x = choose|x: int|
                        0 <= x < so_far.len() && ((sid, tid) == (
                            graph_id_of((#[trigger] so_far[x]).0),
                            graph_id_of(so_far[x].1),
                        ) || (sid, tid) == (graph_id_of(so_far[x].1), graph_id_of(so_far[x].0)));
                    assert(so_far[x] == self.edges@[x]);
                    assert(!same_edge(self.edges@[x], self.edges@[e as int]));
                    if so_far[x].0 != edge.0 {
                        lemma_graph_id_distinct(so_far[x].0, edge.0);
                    }
                    if so_far[x].1 != edge.1 {
                        lemma_graph_id_distinct(so_far[x].1, edge.1);
                    }
                    if so_far[x].1 != edge.0 {
                        lemma_graph_id_distinct(so_far[x].1, edge.0);
                    }
                    if so_far[x].0 != edge.1 {
                        lemma_graph_id_distinct(so_far[x].0, edge.1);
                    }
                }
            }
            let added = graph.add_edge(sid, tid);
            assert(added is Ok);
            proof {
                let so_far = self.edges@.take(e as int);
                let next = self.edges@.take(e + 1);
                assert forall|l: (usize, usize)| graph_links(graph).contains(l)
                    <==> pattern_links(next).contains(l) by {
                    if pattern_links(so_far).contains(l) {
                        let x = choose|x: int|
                            0 <= x < so_far.len() && (l == (
                                graph_id_of((#[trigger] so_far[x]).0),
                                graph_id_of(so_far[x].1),
                            ) || l == (graph_id_of(so_far[x].1), graph_id_of(so_far[x].0)));
                        assert(next[x] == so_far[x]);
                    }
                    if l == (sid, tid) || l == (tid, sid) {
                        assert(next[e as int] == edge);
                    }
                    if pattern_links(next).contains(l) {
                        let x = choose|x: int|
                            0 <= x < next.len() && (l == (
                                graph_id_of((#[trigger] next[x]).0),
                                graph_id_of(next[x].1),
                            ) || l == (graph_id_of(next[x].1), graph_id_of(next[x].0)));
                        if x < e {
                            assert(so_far[x] == next[x]);
                        }
                    }
                }
                assert(graph_links(graph) =~= pattern_links(next));
            }
            e += 1;
        }
        assert(self.edges@.take(self.edges@.len() as int) =~= self.edges@);
        graph
    }
}

} // verus!
