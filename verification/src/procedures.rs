//! Procedures: the atomic rewrites that a rule performs on each occurrence
//! of its pattern.

use crate::node::{Node, ToNode};
use crate::graph_model::GraphModel;
use crate::rgg_graph::{RggGraph, RggModel};
use std::collections::HashMap;
use vstd::prelude::*;

verus! {

/// One rewrite of the graph, stated over the ids of a pattern.
#[derive(Debug)]
pub enum Procedure {
    Delete(DeleteProcedure),
    Replace(ReplaceProcedure),
    Add(AddProcedure),
    Merge(MergeProcedure),
}

/// Removes the node that the target stands for.
#[derive(Debug)]
pub struct DeleteProcedure {
    pub target: i32,
}

/// Puts a newly made node in the place of the one that the target stands for.
#[derive(Debug)]
pub struct ReplaceProcedure {
    pub target: i32,
    pub replacement: ToNode,
}

/// Adds a node and joins it to the nodes that the neighbors stand for.
#[derive(Debug)]
pub struct AddProcedure {
    /// All the nodes that the new node gets an edge to.
    pub neighbors: Vec<i32>,
    pub new_node: ToNode,
}

/// Merges the nodes that the targets stand for into one of them.
#[derive(Debug)]
pub struct MergeProcedure {
    /// All the nodes to merge.
    pub targets: Vec<i32>,
    /// The node that remains.
    pub final_node: i32,
}

/// What one procedure did to the graph.
#[derive(Debug)]
pub enum ApplyResult {
    Removed(Vec<usize>),
    Added(usize),
    Modified(usize),
    /// Nothing was done, and nothing went wrong.
    Nothing,
    Failed,
}

/// What one procedure did to the graph, as a mathematical value.
pub enum Applied {
    Removed(Seq<usize>),
    Added(usize),
    Modified(usize),
    Nothing,
    Failed,
}

impl View for ApplyResult {
    type V = Applied;

    open spec fn view(&self) -> Applied {
        match self {
            ApplyResult::Removed(ids) => Applied::Removed(ids@),
            ApplyResult::Added(id) => Applied::Added(*id),
            ApplyResult::Modified(id) => Applied::Modified(*id),
            ApplyResult::Nothing => Applied::Nothing,
            ApplyResult::Failed => Applied::Failed,
        }
    }
}

/// The state after a procedure ran, and what it reports.
pub struct Outcome {
    pub graph: RggModel,
    pub mapping: Map<i32, usize>,
    pub result: Applied,
}

/// The outcome of a procedure that fails before it changes anything.
pub open spec fn failed(g: RggModel, m: Map<i32, usize>) -> Outcome {
    Outcome { graph: g, mapping: m, result: Applied::Failed }
}

/// Whether a pattern id resolves: the mapping sends it to a node that exists.
pub open spec fn resolves(g: RggModel, m: Map<i32, usize>, p: i32) -> bool {
    m.contains_key(p) && g.graph.nodes.contains(m[p])
}

/// Whether the mapping knows every one of the given pattern ids.
pub open spec fn all_mapped(m: Map<i32, usize>, ids: Seq<i32>) -> bool {
    forall|i: int| 0 <= i < ids.len() ==> m.contains_key(#[trigger] ids[i])
}

/// A base node as the evaluation of a template receives it.
pub open spec fn as_base(base: &Option<Node>) -> Option<&Node> {
    match base {
        Some(node) => Some(node),
        None => None,
    }
}

/// Looks a pattern id up, and returns the node it stands for where that node exists.
pub fn resolve(graph: &RggGraph, mapping: &HashMap<i32, usize>, p: i32) -> (r: Option<usize>)
    ensures
        r == (if resolves(graph@, mapping@, p) {
            Some(mapping@[p])
        } else {
            None
        }),
{
    match mapping.get(&p) {
        Some(id) => {
            if graph.has_node(*id) {
                Some(*id)
            } else {
                None
            }
        },
        None => None,
    }
}

/// Whether the mapping knows every one of the given pattern ids.
pub fn all_in_mapping(mapping: &HashMap<i32, usize>, ids: &Vec<i32>) -> (r: bool)
    ensures
        r == all_mapped(mapping@, ids@),
{
    let mut i: usize = 0;
    while i < ids.len()
        invariant
            i <= ids.len(),
            forall|k: int| 0 <= k < i ==> mapping@.contains_key(#[trigger] ids@[k]),
        decreases ids.len() - i,
    {
        if !mapping.contains_key(&ids[i]) {
            return false;
        }
        i += 1;
    }
    true
}

impl DeleteProcedure {
    /// The node goes with its edges and attributes, and the target leaves
    /// the mapping. Where the target does not resolve, nothing changes.
    pub open spec fn outcome(self, g: RggModel, m: Map<i32, usize>) -> Outcome {
        if resolves(g, m, self.target) {
            Outcome {
                graph: g.without_node(m[self.target]),
                mapping: m.remove(self.target),
                result: Applied::Removed(seq![m[self.target]]),
            }
        } else {
            failed(g, m)
        }
    }

    /// Removes the node that the target stands for.
    pub fn apply(&self, graph: &mut RggGraph, mapping: &mut HashMap<i32, usize>) -> (r:
        ApplyResult)
        requires
            old(graph).wf(),
        ensures
            final(graph).wf(),
            self.outcome(old(graph)@, old(mapping)@) == (Outcome {
                graph: final(graph)@,
                mapping: final(mapping)@,
                result: r@,
            }),
    {
        match resolve(graph, mapping, self.target) {
            Some(target) => {
                graph.remove_node(target);
                mapping.remove(&self.target);
                let mut removed: Vec<usize> = Vec::new();
                removed.push(target);
                assert(removed@ =~= seq![target]);
                ApplyResult::Removed(removed)
            },
            None => ApplyResult::Failed,
        }
    }
}

impl ReplaceProcedure {
    /// The base that the replacement is evaluated against: what the target
    /// node holds. `None` where the target does not resolve, and nothing is
    /// evaluated then.
    pub open spec fn base(self, g: RggModel, m: Map<i32, usize>) -> Option<Node> {
        if resolves(g, m, self.target) {
            g.node(m[self.target])
        } else {
            None
        }
    }

    /// The target node holds `node`; its edges stay. Where the target does
    /// not resolve, nothing changes.
    pub open spec fn outcome(self, g: RggModel, m: Map<i32, usize>, node: Node) -> Outcome {
        if resolves(g, m, self.target) {
            Outcome {
                graph: g.with_node_set(m[self.target], node),
                mapping: m,
                result: Applied::Modified(m[self.target]),
            }
        } else {
            failed(g, m)
        }
    }

    /// Evaluates the replacement against what the target node holds, and
    /// puts the result in its place.
    pub fn apply<F: Fn(&ToNode, Option<&Node>) -> Node>(
        &self,
        graph: &mut RggGraph,
        mapping: &HashMap<i32, usize>,
        eval: &F,
    ) -> (r: ApplyResult)
        requires
            old(graph).wf(),
            forall|t: &ToNode, b: Option<&Node>| call_requires(*eval, (t, b)),
        ensures
            final(graph).wf(),
            exists|node: Node|
                {
                    &&& #[trigger] self.outcome(old(graph)@, mapping@, node) == (Outcome {
                        graph: final(graph)@,
                        mapping: mapping@,
                        result: r@,
                    })
                    &&& resolves(old(graph)@, mapping@, self.target) ==> call_ensures(
                        *eval,
                        (&self.replacement, as_base(&self.base(old(graph)@, mapping@))),
                        node,
                    )
                },
    {
        match resolve(graph, mapping, self.target) {
            Some(target) => {
                let node = eval(&self.replacement, graph.node(target));
                let ghost made = node;
                graph.set_node(target, node);
                proof {
                    assert(self.outcome(old(graph)@, mapping@, made) == (Outcome {
                        graph: graph@,
                        mapping: mapping@,
                        result: Applied::Modified(target),
                    }));
                }
                ApplyResult::Modified(target)
            },
            None => {
                proof {
                    let any: Node = arbitrary();
                    assert(self.outcome(old(graph)@, mapping@, any) == failed(
                        old(graph)@,
                        mapping@,
                    ));
                }
                ApplyResult::Failed
            },
        }
    }
}

/// Whether a node is blank: it has no name and no attributes.
pub open spec fn is_blank(node: Node) -> bool {
    node.name@ == Seq::<char>::empty() && node.values@ == Map::<String, crate::value::Value>::empty()
}

/// The store after the new node `id` was joined, in turn, to the nodes that
/// the pattern ids `ns` stand for, and whether all of them resolved to a
/// node among `known`. The first of them becomes the parent of `id` in the
/// overlay. The joining stops at the first pattern id that does not resolve.
pub open spec fn wired(
    g: GraphModel,
    id: usize,
    m: Map<i32, usize>,
    known: Set<usize>,
    ns: Seq<i32>,
) -> (GraphModel, bool)
    decreases ns.len(),
{
    if ns.len() == 0 {
        (g, true)
    } else {
        let before = wired(g, id, m, known, ns.drop_last());
        let p = ns.last();
        if !before.1 {
            before
        } else if m.contains_key(p) && known.contains(m[p]) {
            let parented = if ns.len() == 1 {
                before.0.with_ancestor(id, m[p])
            } else {
                before.0
            };
            (parented.with_edge(id, m[p]), true)
        } else {
            (before.0, false)
        }
    }
}

/// Once the joining has stopped, further pattern ids change nothing.
pub proof fn lemma_wired_stopped(
    g: GraphModel,
    id: usize,
    m: Map<i32, usize>,
    known: Set<usize>,
    ns: Seq<i32>,
    k: int,
)
    requires
        0 <= k <= ns.len(),
        !wired(g, id, m, known, ns.take(k)).1,
    ensures
        wired(g, id, m, known, ns) == wired(g, id, m, known, ns.take(k)),
    decreases ns.len(),
{
    if k == ns.len() {
        assert(ns.take(k) =~= ns);
    } else {
        assert(ns.drop_last().take(k) =~= ns.take(k));
        lemma_wired_stopped(g, id, m, known, ns.drop_last(), k);
    }
}

impl AddProcedure {
    /// Whether the procedure gets as far as making the new node from its
    /// template: an id is left for it, and every neighbor resolves.
    pub open spec fn completes(self, g: RggModel, m: Map<i32, usize>) -> bool {
        g.has_room() && wired(
            g.graph.with_next_node(),
            g.graph.next_node,
            m,
            g.graph.nodes,
            self.neighbors@,
        ).1
    }

    /// The base that the template is evaluated against: what the first
    /// neighbor holds, or nothing where the new node has no neighbors.
    pub open spec fn base(self, g: RggModel, m: Map<i32, usize>) -> Option<Node> {
        if self.neighbors@.len() > 0 {
            g.node(m[self.neighbors@[0]])
        } else {
            None
        }
    }

    /// A new node comes into being under the next automatic id; it is joined
    /// to the neighbors in turn, and holds `node`. Where a neighbor does not
    /// resolve, the procedure fails, and the new node stays with the edges it
    /// got so far. Where no id is left, nothing changes.
    pub open spec fn outcome(self, g: RggModel, m: Map<i32, usize>, node: Node) -> Outcome {
        if g.has_room() {
            let id = g.graph.next_node;
            let joined = wired(g.graph.with_next_node(), id, m, g.graph.nodes, self.neighbors@);
            Outcome {
                graph: RggModel { graph: joined.0, values: g.values.insert(id, node) },
                mapping: m,
                result: if joined.1 {
                    Applied::Added(id)
                } else {
                    Applied::Failed
                },
            }
        } else {
            failed(g, m)
        }
    }

    /// Adds a node, joins it to its neighbors, and fills it from the
    /// template, evaluated against what the first neighbor holds.
    pub fn apply<F: Fn(&ToNode, Option<&Node>) -> Node>(
        &self,
        graph: &mut RggGraph,
        mapping: &HashMap<i32, usize>,
        eval: &F,
    ) -> (r: ApplyResult)
        requires
            old(graph).wf(),
            forall|t: &ToNode, b: Option<&Node>| call_requires(*eval, (t, b)),
        ensures
            final(graph).wf(),
            exists|node: Node|
                {
                    &&& #[trigger] self.outcome(old(graph)@, mapping@, node) == (Outcome {
                        graph: final(graph)@,
                        mapping: mapping@,
                        result: r@,
                    })
                    &&& self.completes(old(graph)@, mapping@) ==> call_ensures(
                        *eval,
                        (&self.new_node, as_base(&self.base(old(graph)@, mapping@))),
                        node,
                    )
                    &&& old(graph)@.has_room() && !self.completes(old(graph)@, mapping@)
                        ==> is_blank(node)
                },
    {
        if graph.is_full() {
            proof {
                let any: Node = arbitrary();
                assert(self.outcome(old(graph)@, mapping@, any) == failed(old(graph)@, mapping@));
            }
            return ApplyResult::Failed;
        }
        let id = graph.insert_node();
        let ghost blank = graph@.values[id];
        let ghost start = old(graph)@.graph.with_next_node();
        let ghost known = old(graph)@.graph.nodes;
        let mut i: usize = 0;
        while i < self.neighbors.len()
            invariant
                i <= self.neighbors.len(),
                old(graph).wf(),
                old(graph)@.has_room(),
                graph.wf(),
                id == old(graph)@.graph.next_node,
                is_blank(blank),
                start == old(graph)@.graph.with_next_node(),
                known == old(graph)@.graph.nodes,
                graph@.values == old(graph)@.values.insert(id, blank),
                graph@.graph.nodes == known.insert(id),
                wired(start, id, mapping@, known, self.neighbors@.take(i as int)) == (
                    graph@.graph,
                    true,
                ),
            decreases self.neighbors.len() - i,
        {
            let ghost before = graph@.graph;
            let p = self.neighbors[i];
            proof {
                let next = self.neighbors@.take(i + 1);
                assert(next.drop_last() =~= self.neighbors@.take(i as int));
                assert(next.last() == p);
            }
            let found = match mapping.get(&p) {
                Some(n) => {
                    if *n != id && graph.has_node(*n) {
                        Some(*n)
                    } else {
                        None
                    }
                },
                None => None,
            };
            match found {
                Some(n) => {
                    if i == 0 {
                        graph.add_ancestor(id, n);
                    }
                    let joined = graph.add_edge(id, n);
                    assert(joined is Ok);
                },
                None => {
                    proof {
                        lemma_wired_stopped(start, id, mapping@, known, self.neighbors@, i + 1);
                        assert(self.outcome(old(graph)@, mapping@, blank) == (Outcome {
                            graph: graph@,
                            mapping: mapping@,
                            result: Applied::Failed,
                        }));
                    }
                    return ApplyResult::Failed;
                },
            }
            i += 1;
        }
        assert(self.neighbors@.take(self.neighbors@.len() as int) =~= self.neighbors@);
        proof {
            if self.neighbors@.len() > 0 {
                lemma_wired_first(start, id, mapping@, known, self.neighbors@);
            }
        }
        let base: Option<&Node> = if self.neighbors.len() > 0 {
            match mapping.get(&self.neighbors[0]) {
                Some(n) => graph.node(*n),
                None => None,
            }
        } else {
            None
        };
        proof {
            let wanted = self.base(old(graph)@, mapping@);
            if self.neighbors@.len() > 0 {
                let n = mapping@[self.neighbors@[0]];
                assert(known.contains(n));
                assert(n != id);
                assert(graph@.node(n) == old(graph)@.node(n));
            }
            assert(base == as_base(&wanted));
            assert(self.completes(old(graph)@, mapping@));
        }
        let node = eval(&self.new_node, base);
        let ghost made = node;
        graph.set_node(id, node);
        proof {
            assert(graph@.values =~= old(graph)@.values.insert(id, made));
            assert(self.outcome(old(graph)@, mapping@, made) == (Outcome {
                graph: graph@,
                mapping: mapping@,
                result: Applied::Added(id),
            }));
        }
        ApplyResult::Added(id)
    }
}

/// Where the joining went through, the first pattern id resolved.
pub proof fn lemma_wired_first(
    g: GraphModel,
    id: usize,
    m: Map<i32, usize>,
    known: Set<usize>,
    ns: Seq<i32>,
)
    requires
        ns.len() > 0,
        wired(g, id, m, known, ns).1,
    ensures
        m.contains_key(ns[0]),
        known.contains(m[ns[0]]),
    decreases ns.len(),
{
    if ns.len() > 1 {
        lemma_wired_first(g, id, m, known, ns.drop_last());
    }
}

/// `acc`, followed by the elements of `list` that it does not hold yet, in
/// the order of `list`.
pub open spec fn append_new(acc: Seq<usize>, list: Seq<usize>) -> Seq<usize>
    decreases list.len(),
{
    if list.len() == 0 {
        acc
    } else {
        let before = append_new(acc, list.drop_last());
        if before.contains(list.last()) {
            before
        } else {
            before.push(list.last())
        }
    }
}

/// The neighbors of the given nodes, each once, in the order in which they
/// are first met.
pub open spec fn collected(g: GraphModel, ids: Seq<usize>) -> Seq<usize>
    decreases ids.len(),
{
    if ids.len() == 0 {
        Seq::empty()
    } else {
        append_new(collected(g, ids.drop_last()), g.neighbors(ids.last()))
    }
}

/// The parent, in the overlay, of the first of the given nodes that has one.
pub open spec fn first_ancestor(g: GraphModel, ids: Seq<usize>) -> Option<usize>
    decreases ids.len(),
{
    if ids.len() == 0 {
        None
    } else {
        match first_ancestor(g, ids.drop_last()) {
            Some(a) => Some(a),
            None => g.ancestor_of(ids.last()),
        }
    }
}

/// The nodes that the pattern ids stand for.
pub open spec fn images(m: Map<i32, usize>, ps: Seq<i32>) -> Seq<usize> {
    Seq::new(ps.len(), |i: int| m[ps[i]])
}

/// Whether every one of the pattern ids resolves.
pub open spec fn all_resolve(g: RggModel, m: Map<i32, usize>, ps: Seq<i32>) -> bool {
    forall|i: int| 0 <= i < ps.len() ==> resolves(g, m, #[trigger] ps[i])
}

/// The graph after the survivor took over the given nodes, in turn, and the
/// nodes that went. Each node other than the survivor hands its children to
/// the survivor and is removed; one that is gone already is passed over.
pub open spec fn absorbed(g: RggModel, survivor: usize, ids: Seq<usize>) -> (RggModel, Seq<usize>)
    decreases ids.len(),
{
    if ids.len() == 0 {
        (g, Seq::empty())
    } else {
        let before = absorbed(g, survivor, ids.drop_last());
        let id = ids.last();
        if id != survivor && before.0.graph.nodes.contains(id) {
            (
                before.0.with_graph(
                    before.0.graph.without_children(id, Some(survivor)),
                ).without_node(id),
                before.1.push(id),
            )
        } else {
            before
        }
    }
}

/// The store after the survivor was joined, in turn, to those of the given
/// nodes that exist.
pub open spec fn rejoined(g: GraphModel, survivor: usize, ns: Seq<usize>) -> GraphModel
    decreases ns.len(),
{
    if ns.len() == 0 {
        g
    } else {
        let before = rejoined(g, survivor, ns.drop_last());
        if before.nodes.contains(ns.last()) {
            before.with_edge(survivor, ns.last())
        } else {
            before
        }
    }
}

/// Whether a list holds an id.
pub fn holds_id(list: &Vec<usize>, id: usize) -> (r: bool)
    ensures
        r == list@.contains(id),
{
    let mut i: usize = 0;
    while i < list.len()
        invariant
            i <= list.len(),
            forall|k: int| 0 <= k < i ==> list@[k] != id,
        decreases list.len() - i,
    {
        if list[i] == id {
            return true;
        }
        i += 1;
    }
    false
}

/// Appends to `acc` the elements of `list` that it does not hold yet.
pub fn extend_new(acc: &mut Vec<usize>, list: &Vec<usize>)
    ensures
        final(acc)@ == append_new(old(acc)@, list@),
{
    let mut i: usize = 0;
    while i < list.len()
        invariant
            i <= list.len(),
            acc@ == append_new(old(acc)@, list@.take(i as int)),
        decreases list.len() - i,
    {
        proof {
            let next = list@.take(i + 1);
            assert(next.drop_last() =~= list@.take(i as int));
            assert(next.last() == list@[i as int]);
        }
        if !holds_id(acc, list[i]) {
            acc.push(list[i]);
        }
        i += 1;
    }
    assert(list@.take(list@.len() as int) =~= list@);
}

impl MergeProcedure {
    /// Reads a merge from a list of pattern ids: the first is the node that
    /// remains, the others are the targets. A list of fewer than two ids
    /// stands for no merge.
    pub fn from_list(ids: Vec<i32>) -> (r: Option<MergeProcedure>)
        ensures
            r is Some <==> ids@.len() >= 2,
            r is Some ==> r.unwrap().final_node == ids@[0] && r.unwrap().targets@
                == ids@.subrange(1, ids@.len() as int),
    {
        if ids.len() < 2 {
            return None;
        }
        let final_node = ids[0];
        let mut targets: Vec<i32> = Vec::new();
        let mut i: usize = 1;
        while i < ids.len()
            invariant
                1 <= i <= ids.len(),
                targets@ == ids@.subrange(1, i as int),
            decreases ids.len() - i,
        {
            targets.push(ids[i]);
            assert(targets@ =~= ids@.subrange(1, i + 1));
            i += 1;
        }
        Some(MergeProcedure { targets, final_node })
    }

    /// Whether the merge can be made: every target resolves, and so does
    /// the node that is to remain.
    pub open spec fn ready(self, g: RggModel, m: Map<i32, usize>) -> bool {
        all_resolve(g, m, self.targets@) && resolves(g, m, self.final_node)
    }

    /// The survivor takes over every other target: their children in the
    /// overlay, then, once they are removed, an edge to each node that was a
    /// neighbor of a target and still exists, and at last the parent of the
    /// first target that had one. The mapping stays. Where a target or the
    /// survivor does not resolve, nothing changes.
    pub open spec fn outcome(self, g: RggModel, m: Map<i32, usize>) -> Outcome {
        if self.ready(g, m) {
            let ids = images(m, self.targets@);
            let survivor = m[self.final_node];
            let cut = absorbed(g, survivor, ids);
            let joined = rejoined(cut.0.graph, survivor, collected(g.graph, ids));
            let store = match first_ancestor(g.graph, ids) {
                Some(a) => joined.with_ancestor(survivor, a),
                None => joined,
            };
            Outcome { graph: cut.0.with_graph(store), mapping: m, result: Applied::Removed(cut.1) }
        } else {
            failed(g, m)
        }
    }

    /// Merges the targets into the node that is to remain.
    pub fn apply(&self, graph: &mut RggGraph, mapping: &HashMap<i32, usize>) -> (r: ApplyResult)
        requires
            old(graph).wf(),
        ensures
            final(graph).wf(),
            self.outcome(old(graph)@, mapping@) == (Outcome {
                graph: final(graph)@,
                mapping: mapping@,
                result: r@,
            }),
    {
        // Every target must stand for a node, and so must the survivor.
        let mut ids: Vec<usize> = Vec::new();
        let mut i: usize = 0;
        while i < self.targets.len()
            invariant
                i <= self.targets.len(),
                graph@ == old(graph)@,
                graph.wf(),
                ids@ == images(mapping@, self.targets@.take(i as int)),
                all_resolve(graph@, mapping@, self.targets@.take(i as int)),
            decreases self.targets.len() - i,
        {
            match resolve(graph, mapping, self.targets[i]) {
                Some(id) => {
                    ids.push(id);
                },
                None => {
                    assert(!resolves(graph@, mapping@, self.targets@[i as int]));
                    return ApplyResult::Failed;
                },
            }
            proof {
                assert(ids@ =~= images(mapping@, self.targets@.take(i + 1)));
            }
            i += 1;
        }
        assert(self.targets@.take(self.targets@.len() as int) =~= self.targets@);
        let survivor = match resolve(graph, mapping, self.final_node) {
            Some(id) => id,
            None => {
                return ApplyResult::Failed;
            },
        };
        // What the targets are joined to, and the parent that the survivor inherits.
        let mut neighbors: Vec<usize> = Vec::new();
        let mut ancestor: Option<usize> = None;
        let mut j: usize = 0;
        while j < ids.len()
            invariant
                j <= ids.len(),
                graph@ == old(graph)@,
                graph.wf(),
                forall|k: int| 0 <= k < ids@.len() ==> graph@.graph.nodes.contains(#[trigger] ids@[k]),
                neighbors@ == collected(graph@.graph, ids@.take(j as int)),
                ancestor == first_ancestor(graph@.graph, ids@.take(j as int)),
            decreases ids.len() - j,
        {
            proof {
                let next = ids@.take(j + 1);
                assert(next.drop_last() =~= ids@.take(j as int));
                assert(next.last() == ids@[j as int]);
            }
            if ancestor.is_none() {
                ancestor = graph.graph().get_ancestor(ids[j]);
            }
            match graph.neighbors(ids[j]) {
                Ok(list) => {
                    extend_new(&mut neighbors, &list);
                },
                Err(_) => {},
            }
            j += 1;
        }
        assert(ids@.take(ids@.len() as int) =~= ids@);
        // The survivor takes over the others.
        let mut removed: Vec<usize> = Vec::new();
        let mut k: usize = 0;
        while k < ids.len()
            invariant
                k <= ids.len(),
                graph.wf(),
                graph@.graph.nodes.contains(survivor),
                absorbed(old(graph)@, survivor, ids@.take(k as int)) == (graph@, removed@),
            decreases ids.len() - k,
        {
            proof {
                let next = ids@.take(k + 1);
                assert(next.drop_last() =~= ids@.take(k as int));
                assert(next.last() == ids@[k as int]);
            }
            let id = ids[k];
            if id != survivor && graph.has_node(id) {
                graph.remove_children(id, Some(survivor));
                graph.remove_node(id);
                removed.push(id);
            }
            k += 1;
        }
        assert(ids@.take(ids@.len() as int) =~= ids@);
        let ghost cut = graph@;
        let mut n: usize = 0;
        while n < neighbors.len()
            invariant
                n <= neighbors.len(),
                graph.wf(),
                graph@.graph.nodes.contains(survivor),
                graph@.values == cut.values,
                graph@.graph == rejoined(cut.graph, survivor, neighbors@.take(n as int)),
            decreases neighbors.len() - n,
        {
            proof {
                let next = neighbors@.take(n + 1);
                assert(next.drop_last() =~= neighbors@.take(n as int));
                assert(next.last() == neighbors@[n as int]);
            }
            if graph.has_node(neighbors[n]) {
                let joined = graph.add_edge(survivor, neighbors[n]);
                assert(joined is Ok);
            }
            n += 1;
        }
        assert(neighbors@.take(neighbors@.len() as int) =~= neighbors@);
        match ancestor {
            Some(a) => {
                graph.add_ancestor(survivor, a);
            },
            None => {},
        }
        ApplyResult::Removed(removed)
    }
}

impl Procedure {
    /// Whether the mapping knows every pattern id that the procedure names.
    pub open spec fn mapped(self, m: Map<i32, usize>) -> bool {
        match self {
            Procedure::Delete(p) => m.contains_key(p.target),
            Procedure::Replace(p) => m.contains_key(p.target),
            Procedure::Add(p) => all_mapped(m, p.neighbors@),
            Procedure::Merge(p) => all_mapped(m, p.targets@) && m.contains_key(p.final_node),
        }
    }

    /// Checks whether every target that the procedure names is in the mapping.
    pub fn targets_exist(&self, mapping: &HashMap<i32, usize>) -> (r: bool)
        ensures
            r == self.mapped(mapping@),
    {
        match self {
            Procedure::Delete(p) => mapping.contains_key(&p.target),
            Procedure::Replace(p) => mapping.contains_key(&p.target),
            Procedure::Add(p) => all_in_mapping(mapping, &p.neighbors),
            Procedure::Merge(p) => all_in_mapping(mapping, &p.targets) && mapping.contains_key(
                &p.final_node,
            ),
        }
    }

    /// Whether the procedure evaluates a template on the given state.
    pub open spec fn evaluates(self, g: RggModel, m: Map<i32, usize>) -> bool {
        match self {
            Procedure::Replace(p) => resolves(g, m, p.target),
            Procedure::Add(p) => p.completes(g, m),
            _ => false,
        }
    }

    /// The template that the procedure evaluates, where it evaluates one.
    pub open spec fn template(self) -> ToNode
        recommends
            self is Replace || self is Add,
    {
        match self {
            Procedure::Replace(p) => p.replacement,
            Procedure::Add(p) => p.new_node,
            _ => arbitrary(),
        }
    }

    /// The base against which the procedure evaluates its template.
    pub open spec fn base(self, g: RggModel, m: Map<i32, usize>) -> Option<Node> {
        match self {
            Procedure::Replace(p) => p.base(g, m),
            Procedure::Add(p) => p.base(g, m),
            _ => None,
        }
    }

    /// Whether the procedure leaves a blank node behind: an `Add` that
    /// made its node and then failed on a neighbor.
    pub open spec fn leaves_blank(self, g: RggModel, m: Map<i32, usize>) -> bool {
        match self {
            Procedure::Add(p) => g.has_room() && !p.completes(g, m),
            _ => false,
        }
    }

    /// The state after the procedure, given the node that came of its
    /// template (or the blank node that a failed `Add` left). Procedures
    /// that make no node pay no regard to `node`.
    pub open spec fn outcome(self, g: RggModel, m: Map<i32, usize>, node: Node) -> Outcome {
        match self {
            Procedure::Delete(p) => p.outcome(g, m),
            Procedure::Replace(p) => p.outcome(g, m, node),
            Procedure::Add(p) => p.outcome(g, m, node),
            Procedure::Merge(p) => p.outcome(g, m),
        }
    }

    /// Whether `node` is what the procedure would hand to `outcome`: the
    /// result of `eval` on the template and its base where the procedure
    /// evaluates, and a blank node where it leaves one.
    pub open spec fn yields<F: Fn(&ToNode, Option<&Node>) -> Node>(
        self,
        g: RggModel,
        m: Map<i32, usize>,
        eval: F,
        node: Node,
    ) -> bool {
        &&& self.evaluates(g, m) ==> call_ensures(
            eval,
            (&self.template(), as_base(&self.base(g, m))),
            node,
        )
        &&& self.leaves_blank(g, m) ==> is_blank(node)
    }

    /// Applies the procedure to the graph, under a mapping from pattern ids
    /// to nodes. Templates are evaluated by `eval`. A procedure that cannot
    /// be carried out reports `Failed`.
    pub fn apply<F: Fn(&ToNode, Option<&Node>) -> Node>(
        &self,
        graph: &mut RggGraph,
        mapping: &mut HashMap<i32, usize>,
        eval: &F,
    ) -> (r: ApplyResult)
        requires
            old(graph).wf(),
            forall|t: &ToNode, b: Option<&Node>| call_requires(*eval, (t, b)),
        ensures
            final(graph).wf(),
            exists|node: Node|
                {
                    &&& #[trigger] self.outcome(old(graph)@, old(mapping)@, node) == (Outcome {
                        graph: final(graph)@,
                        mapping: final(mapping)@,
                        result: r@,
                    })
                    &&& self.yields(old(graph)@, old(mapping)@, *eval, node)
                },
    {
        match self {
            Procedure::Delete(p) => {
                let r = p.apply(graph, mapping);
                proof {
                    let any: Node = arbitrary();
                    assert(self.outcome(old(graph)@, old(mapping)@, any) == (Outcome {
                        graph: graph@,
                        mapping: mapping@,
                        result: r@,
                    }));
                }
                r
            },
            Procedure::Replace(p) => {
                let r = p.apply(graph, mapping, eval);
                proof {
                    let node = choose|node: Node|
                        {
                            &&& #[trigger] p.outcome(old(graph)@, mapping@, node) == (Outcome {
                                graph: graph@,
                                mapping: mapping@,
                                result: r@,
                            })
                            &&& resolves(old(graph)@, mapping@, p.target) ==> call_ensures(
                                *eval,
                                (&p.replacement, as_base(&p.base(old(graph)@, mapping@))),
                                node,
                            )
                        };
                    assert(self.outcome(old(graph)@, old(mapping)@, node) == (Outcome {
                        graph: graph@,
                        mapping: mapping@,
                        result: r@,
                    }));
                    assert(self.yields(old(graph)@, old(mapping)@, *eval, node));
                }
                r
            },
            Procedure::Add(p) => {
                let r = p.apply(graph, mapping, eval);
                proof {
                    let node = choose|node: Node|
                        {
                            &&& #[trigger] p.outcome(old(graph)@, mapping@, node) == (Outcome {
                                graph: graph@,
                                mapping: mapping@,
                                result: r@,
                            })
                            &&& p.completes(old(graph)@, mapping@) ==> call_ensures(
                                *eval,
                                (&p.new_node, as_base(&p.base(old(graph)@, mapping@))),
                                node,
                            )
                            &&& old(graph)@.has_room() && !p.completes(old(graph)@, mapping@)
                                ==> is_blank(node)
                        };
                    assert(self.outcome(old(graph)@, old(mapping)@, node) == (Outcome {
                        graph: graph@,
                        mapping: mapping@,
                        result: r@,
                    }));
                    assert(self.yields(old(graph)@, old(mapping)@, *eval, node));
                }
                r
            },
            Procedure::Merge(p) => {
                let r = p.apply(graph, mapping);
                proof {
                    let any: Node = arbitrary();
                    assert(self.outcome(old(graph)@, old(mapping)@, any) == (Outcome {
                        graph: graph@,
                        mapping: mapping@,
                        result: r@,
                    }));
                }
                r
            },
        }
    }
}

/// Deleting a target that resolves takes exactly one node out of the graph,
/// and with it what it held; the procedure reports that node as removed.
/// Deleting a target that does not resolve fails, and the graph stays as it is.
pub proof fn lemma_delete_shrinks(p: DeleteProcedure, g: RggModel, m: Map<i32, usize>)
    requires
        g.wf(),
    ensures
        resolves(g, m, p.target) ==> {
            &&& p.outcome(g, m).result == Applied::Removed(seq![m[p.target]])
            &&& p.outcome(g, m).graph.graph.nodes.len() == g.graph.nodes.len() - 1
            &&& !p.outcome(g, m).graph.graph.nodes.contains(m[p.target])
            &&& !p.outcome(g, m).graph.values.contains_key(m[p.target])
        },
        !resolves(g, m, p.target) ==> {
            &&& p.outcome(g, m).result == Applied::Failed
            &&& p.outcome(g, m).graph == g
        },
        p.outcome(g, m).graph.wf(),
{
    g.lemma_without_node_wf(m[p.target]);
}

/// An `Add` with two neighbors that resolve to the nodes `a` and `b` makes
/// a node that the graph stores, whose neighbors are `a` and `b` and no
/// others, and whose parent in the overlay is `a`, the first of the two.
pub proof fn lemma_add_wires_edges(p: AddProcedure, g: RggModel, m: Map<i32, usize>, node: Node)
    requires
        g.wf(),
        g.has_room(),
        p.neighbors@.len() == 2,
        resolves(g, m, p.neighbors@[0]),
        resolves(g, m, p.neighbors@[1]),
    ensures
        ({
            let after = p.outcome(g, m, node);
            let id = g.graph.next_node;
            let a = m[p.neighbors@[0]];
            let b = m[p.neighbors@[1]];
            &&& after.result == Applied::Added(id)
            &&& !g.graph.nodes.contains(id)
            &&& after.graph.graph.nodes == g.graph.nodes.insert(id)
            &&& after.graph.node(id) == Some(node)
            &&& forall|x: usize| after.graph.graph.adjacency[id].contains(x) <==> (x == a || x == b)
            &&& after.graph.graph.has_edge(id, a)
            &&& after.graph.graph.has_edge(id, b)
            &&& after.graph.graph.ancestor_of(id) == Some(a)
        }),
{
    let id = g.graph.next_node;
    let ns = p.neighbors@;
    let a = m[ns[0]];
    let b = m[ns[1]];
    let start = g.graph.with_next_node();
    let known = g.graph.nodes;
    crate::graph_model::lemma_with_node_wf(g.graph, id);
    assert(start.wf());
    let one = ns.drop_last();
    assert(one.len() == 1);
    assert(one.drop_last().len() == 0);
    assert(one.last() == ns[0]);
    assert(ns.last() == ns[1]);
    let none = wired(start, id, m, known, one.drop_last());
    assert(none == (start, true));
    let first = wired(start, id, m, known, one);
    let parented = start.with_ancestor(id, a);
    assert(first == (parented.with_edge(id, a), true));
    let second = wired(start, id, m, known, ns);
    assert(second == (first.0.with_edge(id, b), true));
    assert(!start.edges.contains(crate::graph_model::edge_of(id, a))) by {
        if g.graph.edges.contains(crate::graph_model::edge_of(id, a)) {
            assert(g.graph.nodes.contains(crate::graph_model::edge_of(id, a).0));
            assert(g.graph.nodes.contains(crate::graph_model::edge_of(id, a).1));
        }
    }
    assert(start.adjacency[id] == Seq::<usize>::empty());
    let mid = first.0;
    assert(mid.adjacency[id] =~= seq![a]);
    assert forall|x: usize| second.0.adjacency[id].contains(x) <==> (x == a || x == b) by {
        if a == b {
            assert(mid.edges.contains(crate::graph_model::edge_of(id, b)));
            assert(second.0.adjacency[id] == seq![a]);
            assert(seq![a][0] == a);
        } else {
            assert(!mid.edges.contains(crate::graph_model::edge_of(id, b))) by {
                if g.graph.edges.contains(crate::graph_model::edge_of(id, b)) {
                    assert(g.graph.nodes.contains(crate::graph_model::edge_of(id, b).0));
                    assert(g.graph.nodes.contains(crate::graph_model::edge_of(id, b).1));
                }
            }
            assert(second.0.adjacency[id] =~= seq![a, b]);
            assert(seq![a, b][0] == a);
            assert(seq![a, b][1] == b);
        }
    }
}

} // verus!
