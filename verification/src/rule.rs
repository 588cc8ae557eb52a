//! Rules: a pattern to look for, and the procedures to carry out on every
//! occurrence of it.

use crate::lex::{bump, lemma_lt_trans, lex_lt};
use crate::node::{FromNode, Node, ToNode};
use crate::procedures::{Applied, ApplyResult, Outcome, Procedure};
use crate::rgg_graph::{RggGraph, RggModel};
use crate::search::Search;
use std::collections::HashMap;
use vstd::prelude::*;

verus! {

/// The left-hand side of a rule: the nodes to find, and the edges that must
/// join them. The ends of an edge are ids of pattern nodes, not of the graph.
#[derive(Debug)]
pub struct NodeSet {
    pub nodes: Vec<FromNode>,
    pub edges: Vec<(i32, i32)>,
}

/// A rewriting rule. Applying it does not change it.
#[derive(Debug)]
pub struct Rule {
    pub from: NodeSet,
    pub to: Vec<Procedure>,
}

/// Whether a pattern has a node with the id `p`.
pub open spec fn names_id(pattern: Seq<FromNode>, p: i32) -> bool {
    exists|k: int| 0 <= k < pattern.len() && (#[trigger] pattern[k]).id == p
}

/// Whether no two nodes of a pattern share an id.
pub open spec fn distinct_ids(pattern: Seq<FromNode>) -> bool {
    forall|i: int, j: int|
        0 <= i < j < pattern.len() ==> (#[trigger] pattern[i]).id != (#[trigger] pattern[j]).id
}

/// Whether two pattern edges join the same two nodes.
pub open spec fn same_edge(e: (i32, i32), f: (i32, i32)) -> bool {
    (e.0 == f.0 && e.1 == f.1) || (e.0 == f.1 && e.1 == f.0)
}

/// Whether both ends of every edge are nodes of the pattern.
pub open spec fn edges_anchored(pattern: Seq<FromNode>, edges: Seq<(i32, i32)>) -> bool {
    forall|e: int|
        0 <= e < edges.len() ==> names_id(pattern, (#[trigger] edges[e]).0) && names_id(
            pattern,
            edges[e].1,
        )
}

/// Whether no edge is stated twice, in either direction.
pub open spec fn edges_distinct(edges: Seq<(i32, i32)>) -> bool {
    forall|e: int, f: int|
        0 <= e < f < edges.len() ==> !same_edge(#[trigger] edges[e], #[trigger] edges[f])
}

impl NodeSet {
    /// Whether the pattern can be searched for: it has a node, its nodes
    /// have distinct ids, its edges join nodes of the pattern, and none of
    /// them is stated twice.
    pub open spec fn well_formed(&self) -> bool {
        &&& self.nodes@.len() >= 1
        &&& distinct_ids(self.nodes@)
        &&& edges_anchored(self.nodes@, self.edges@)
        &&& edges_distinct(self.edges@)
    }

    /// Whether the pattern has a node with the id `p`.
    pub fn has_id(&self, p: i32) -> (r: bool)
        ensures
            r == names_id(self.nodes@, p),
    {
        let mut k: usize = 0;
        while k < self.nodes.len()
            invariant
                k <= self.nodes.len(),
                forall|j: int| 0 <= j < k ==> (#[trigger] self.nodes@[j]).id != p,
            decreases self.nodes.len() - k,
        {
            if self.nodes[k].id == p {
                return true;
            }
            k += 1;
        }
        false
    }

    /// Checks whether the pattern can be searched for.
    pub fn is_well_formed(&self) -> (r: bool)
        ensures
            r == self.well_formed(),
    {
        if self.nodes.len() == 0 {
            return false;
        }
        let mut j: usize = 0;
        while j < self.nodes.len()
            invariant
                j <= self.nodes.len(),
                forall|a: int, b: int|
                    0 <= a < b < j ==> (#[trigger] self.nodes@[a]).id != (
                    #[trigger] self.nodes@[b]).id,
            decreases self.nodes.len() - j,
        {
            let mut i: usize = 0;
            while i < j
                invariant
                    i <= j < self.nodes.len(),
                    forall|a: int| 0 <= a < i ==> (#[trigger] self.nodes@[a]).id != self.nodes@[j as int].id,
                decreases j - i,
            {
                if self.nodes[i].id == self.nodes[j].id {
                    return false;
                }
                i += 1;
            }
            j += 1;
        }
        let mut f: usize = 0;
        while f < self.edges.len()
            invariant
                f <= self.edges.len(),
                distinct_ids(self.nodes@),
                edges_anchored(self.nodes@, self.edges@.take(f as int)),
                edges_distinct(self.edges@.take(f as int)),
            decreases self.edges.len() - f,
        {
            let edge = self.edges[f];
            if !self.has_id(edge.0) || !self.has_id(edge.1) {
                return false;
            }
            let mut e: usize = 0;
            while e < f
                invariant
                    e <= f < self.edges.len(),
                    edge == self.edges@[f as int],
                    forall|a: int| 0 <= a < e ==> !same_edge(#[trigger] self.edges@[a], edge),
                decreases f - e,
            {
                let other = self.edges[e];
                if (other.0 == edge.0 && other.1 == edge.1) || (other.0 == edge.1 && other.1
                    == edge.0) {
                    return false;
                }
                e += 1;
            }
            proof {
                let next = self.edges@.take(f + 1);
                assert forall|x: int| 0 <= x < next.len() implies names_id(
                    self.nodes@,
                    (#[trigger] next[x]).0,
                ) && names_id(self.nodes@, next[x].1) by {
                    if x < f {
                        assert(self.edges@.take(f as int)[x] == next[x]);
                    }
                }
                assert forall|x: int, y: int| 0 <= x < y < next.len() implies !same_edge(
                    #[trigger] next[x],
                    #[trigger] next[y],
                ) by {
                    if y < f {
                        assert(self.edges@.take(f as int)[x] == next[x]);
                        assert(self.edges@.take(f as int)[y] == next[y]);
                    }
                }
            }
            f += 1;
        }
        assert(self.edges@.take(self.edges@.len() as int) =~= self.edges@);
        true
    }
}

/// What a whole application of a rule did to the graph, as a mathematical value.
pub struct RuleSummary {
    pub removed: Seq<usize>,
    pub added: Seq<usize>,
    pub modified: Seq<usize>,
}

impl RuleSummary {
    /// The summary of nothing.
    pub open spec fn empty() -> RuleSummary {
        RuleSummary { removed: Seq::empty(), added: Seq::empty(), modified: Seq::empty() }
    }

    /// The summary with what one procedure did. A failure adds nothing.
    pub open spec fn with_applied(self, r: Applied) -> RuleSummary {
        match r {
            Applied::Removed(ids) => RuleSummary { removed: self.removed + ids, ..self },
            Applied::Added(id) => RuleSummary { added: self.added.push(id), ..self },
            Applied::Modified(id) => RuleSummary { modified: self.modified.push(id), ..self },
            _ => self,
        }
    }

    /// This summary, followed by another.
    pub open spec fn merged(self, other: RuleSummary) -> RuleSummary {
        RuleSummary {
            removed: self.removed + other.removed,
            added: self.added + other.added,
            modified: self.modified + other.modified,
        }
    }
}

/// What a whole application of a rule did to the graph: the ids of the
/// nodes that were removed, added and modified, in the order of the events.
#[derive(Debug)]
pub struct RuleResult {
    pub removed: Vec<usize>,
    pub added: Vec<usize>,
    pub modified: Vec<usize>,
}

impl View for RuleResult {
    type V = RuleSummary;

    open spec fn view(&self) -> RuleSummary {
        RuleSummary { removed: self.removed@, added: self.added@, modified: self.modified@ }
    }
}

/// Appends the ids of `src` to `dst`.
pub fn push_all(dst: &mut Vec<usize>, src: &Vec<usize>)
    ensures
        final(dst)@ == old(dst)@ + src@,
{
    let mut i: usize = 0;
    while i < src.len()
        invariant
            i <= src.len(),
            dst@ == old(dst)@ + src@.take(i as int),
        decreases src.len() - i,
    {
        dst.push(src[i]);
        assert(dst@ =~= old(dst)@ + src@.take(i + 1));
        i += 1;
    }
    assert(src@.take(src@.len() as int) =~= src@);
}

impl RuleResult {
    /// The result of nothing.
    pub fn new() -> (r: RuleResult)
        ensures
            r@ == RuleSummary::empty(),
    {
        RuleResult { removed: Vec::new(), added: Vec::new(), modified: Vec::new() }
    }

    /// Takes in what one procedure did.
    pub fn add_apply_result(&mut self, apply: ApplyResult)
        ensures
            final(self)@ == old(self)@.with_applied(apply@),
    {
        match apply {
            ApplyResult::Removed(r) => push_all(&mut self.removed, &r),
            ApplyResult::Added(a) => self.added.push(a),
            ApplyResult::Modified(m) => self.modified.push(m),
            _ => {},
        }
    }

    /// Takes in another result, behind what is there.
    pub fn add(&mut self, result: RuleResult)
        ensures
            final(self)@ == old(self)@.merged(result@),
    {
        push_all(&mut self.removed, &result.removed);
        push_all(&mut self.added, &result.added);
        push_all(&mut self.modified, &result.modified);
    }
}

/// The state while the procedures of a rule run on the occurrences of its pattern.
pub struct Run {
    pub graph: RggModel,
    pub mapping: Map<i32, usize>,
    pub summary: RuleSummary,
    /// Whether every node that was handed to a procedure so far is one that
    /// the evaluation yields for it.
    pub sound: bool,
}

/// Whether the mapping knows every pattern id that any of the procedures names.
pub open spec fn all_targets_mapped(procs: Seq<Procedure>, m: Map<i32, usize>) -> bool {
    forall|i: int| 0 <= i < procs.len() ==> (#[trigger] procs[i]).mapped(m)
}

/// The state after the given procedures ran in order, each on what the one
/// before it left. `nodes` holds, for each procedure, the node that came of
/// its template.
pub open spec fn run_procedures<F: Fn(&ToNode, Option<&Node>) -> Node>(
    procs: Seq<Procedure>,
    start: Run,
    eval: F,
    nodes: Seq<Node>,
) -> Run
    decreases procs.len(),
{
    if procs.len() == 0 {
        start
    } else {
        let before = run_procedures(procs.drop_last(), start, eval, nodes.drop_last());
        let after = procs.last().outcome(before.graph, before.mapping, nodes.last());
        Run {
            graph: after.graph,
            mapping: after.mapping,
            summary: before.summary.with_applied(after.result),
            sound: before.sound && procs.last().yields(
                before.graph,
                before.mapping,
                eval,
                nodes.last(),
            ),
        }
    }
}

/// The state after the procedures ran on each of the given mappings in
/// turn. A mapping that does not know every target of every procedure is
/// passed over whole. `nodes` holds, for each mapping, the nodes that came
/// of the templates.
pub open spec fn run_matches<F: Fn(&ToNode, Option<&Node>) -> Node>(
    procs: Seq<Procedure>,
    maps: Seq<Map<i32, usize>>,
    graph: RggModel,
    eval: F,
    nodes: Seq<Seq<Node>>,
) -> Run
    decreases maps.len(),
{
    if maps.len() == 0 {
        Run { graph, mapping: Map::empty(), summary: RuleSummary::empty(), sound: true }
    } else {
        let before = run_matches(procs, maps.drop_last(), graph, eval, nodes.drop_last());
        if all_targets_mapped(procs, maps.last()) {
            run_procedures(
                procs,
                Run { mapping: maps.last(), ..before },
                eval,
                nodes.last(),
            )
        } else {
            Run { mapping: maps.last(), ..before }
        }
    }
}

/// The mappings that the given assignments stand for.
pub open spec fn mappings_of(search: Search, sols: Seq<Seq<int>>) -> Seq<Map<i32, usize>> {
    Seq::new(sols.len(), |i: int| search.mapping(sols[i]))
}

/// The mappings that the given maps hold.
pub open spec fn views_of(maps: Seq<HashMap<i32, usize>>) -> Seq<Map<i32, usize>> {
    Seq::new(maps.len(), |i: int| maps[i]@)
}

impl Rule {
    /// Every occurrence of the pattern in the graph, in the order in which
    /// the matcher finds them.
    pub fn all_matches(&self, graph: &RggGraph) -> (r: Vec<HashMap<i32, usize>>)
        requires
            self.from.well_formed(),
            graph.wf(),
        ensures
            exists|sols: Seq<Seq<int>>|
                {
                    &&& self.search(graph).enumerated(sols)
                    &&& #[trigger] mappings_of(self.search(graph), sols) == views_of(r@)
                },
    {
        let mut matcher = self.matches(graph);
        let ghost search = self.search(graph);
        let ghost mut sols: Seq<Seq<int>> = Seq::empty();
        proof {
            crate::search::MatcherModel::lemma_start(search);
        }
        let mut found: Vec<HashMap<i32, usize>> = Vec::new();
        loop
            invariant
                matcher@.wf(),
                matcher@.search == search,
                search == self.search(graph),
                sols.len() == found@.len(),
                forall|i: int| 0 <= i < sols.len() ==> search.solution(#[trigger] sols[i]),
                forall|i: int|
                    0 <= i < sols.len() ==> (#[trigger] found@[i])@ == search.mapping(sols[i]),
                forall|i: int, j: int|
                    0 <= i < j < sols.len() ==> lex_lt(#[trigger] sols[i], #[trigger] sols[j]),
                forall|i: int, a: Seq<int>|
                    0 <= i < sols.len() && #[trigger] matcher@.ahead(a) ==> lex_lt(
                        #[trigger] sols[i],
                        a,
                    ),
                forall|a: Seq<int>| #[trigger]
                    search.solution(a) ==> sols.contains(a) || matcher@.ahead(a),
            decreases matcher@.remaining(),
        {
            let ghost before = matcher@;
            match matcher.next() {
                Some(m) => {
                    proof {
                        let a = choose|a: Seq<int>|
                            {
                                &&& #[trigger] before.next_is(a)
                                &&& m@ == before.search.mapping(a)
                                &&& matcher@.cursor == a.len() - 1
                                &&& matcher@.pos() == bump(a, a.len() - 1)
                                &&& forall|b: Seq<int>|
                                    before.ahead(b) && b != a ==> #[trigger] matcher@.ahead(b)
                                &&& forall|b: Seq<int>| #[trigger]
                                    matcher@.ahead(b) ==> lex_lt(a, b)
                            };
                        let next = sols.push(a);
                        assert forall|i: int, j: int| 0 <= i < j < next.len() implies lex_lt(
                            #[trigger] next[i],
                            #[trigger] next[j],
                        ) by {
                            if j == sols.len() {
                                assert(before.ahead(a));
                                assert(lex_lt(sols[i], a));
                            }
                        }
                        assert forall|i: int, b: Seq<int>|
                            0 <= i < next.len() && #[trigger] matcher@.ahead(b) implies lex_lt(
                            #[trigger] next[i],
                            b,
                        ) by {
                            assert(lex_lt(a, b));
                            if i < sols.len() {
                                assert(before.ahead(a));
                                assert(lex_lt(sols[i], a));
                                lemma_lt_trans(sols[i], a, b);
                            }
                        }
                        assert forall|x: Seq<int>| #[trigger] search.solution(x) implies next.contains(
                            x,
                        ) || matcher@.ahead(x) by {
                            if sols.contains(x) {
                                let i = choose|i: int| 0 <= i < sols.len() && sols[i] == x;
                                assert(next[i] == x);
                            } else if x == a {
                                assert(next[sols.len() as int] == x);
                            } else {
                                assert(before.ahead(x));
                            }
                        }
                        sols = next;
                    }
                    found.push(m);
                },
                None => {
                    proof {
                        assert forall|a: Seq<int>| #[trigger] search.solution(a) implies sols.contains(
                            a,
                        ) by {
                            assert(!before.ahead(a));
                        }
                        assert(mappings_of(search, sols) =~= views_of(found@));
                    }
                    return found;
                },
            }
        }
    }

    /// Checks that the mapping knows every target that any procedure names.
    pub fn check_procedure_targets_exist(&self, mapping: &HashMap<i32, usize>) -> (r: bool)
        ensures
            r == all_targets_mapped(self.to@, mapping@),
    {
        let mut i: usize = 0;
        while i < self.to.len()
            invariant
                i <= self.to.len(),
                forall|k: int| 0 <= k < i ==> (#[trigger] self.to@[k]).mapped(mapping@),
            decreases self.to.len() - i,
        {
            if !self.to[i].targets_exist(mapping) {
                return false;
            }
            i += 1;
        }
        true
    }

    /// Runs the procedures of the rule, in their order, on one occurrence.
    pub fn apply_to_match<F: Fn(&ToNode, Option<&Node>) -> Node>(
        &self,
        graph: &mut RggGraph,
        mapping: &mut HashMap<i32, usize>,
        result: &mut RuleResult,
        eval: &F,
    )
        requires
            old(graph).wf(),
            forall|t: &ToNode, b: Option<&Node>| call_requires(*eval, (t, b)),
        ensures
            final(graph).wf(),
            exists|nodes: Seq<Node>|
                #[trigger] run_procedures(
                    self.to@,
                    Run {
                        graph: old(graph)@,
                        mapping: old(mapping)@,
                        summary: old(result)@,
                        sound: true,
                    },
                    *eval,
                    nodes,
                ) == (Run {
                    graph: final(graph)@,
                    mapping: final(mapping)@,
                    summary: final(result)@,
                    sound: true,
                }),
    {
        let ghost start = Run {
            graph: graph@,
            mapping: mapping@,
            summary: result@,
            sound: true,
        };
        let ghost mut nodes: Seq<Node> = Seq::empty();
        let mut j: usize = 0;
        while j < self.to.len()
            invariant
                j <= self.to.len(),
                graph.wf(),
                forall|t: &ToNode, b: Option<&Node>| call_requires(*eval, (t, b)),
                nodes.len() == j,
                run_procedures(self.to@.take(j as int), start, *eval, nodes) == (Run {
                    graph: graph@,
                    mapping: mapping@,
                    summary: result@,
                    sound: true,
                }),
            decreases self.to.len() - j,
        {
            let ghost g = graph@;
            let ghost m = mapping@;
            let applied = self.to[j].apply(graph, mapping, eval);
            proof {
                let p = self.to@[j as int];
                let node = choose|node: Node|
                    {
                        &&& #[trigger] p.outcome(g, m, node) == (Outcome {
                            graph: graph@,
                            mapping: mapping@,
                            result: applied@,
                        })
                        &&& p.yields(g, m, *eval, node)
                    };
                let next = self.to@.take(j + 1);
                assert(next.drop_last() =~= self.to@.take(j as int));
                assert(next.last() == p);
                assert(nodes.push(node).drop_last() =~= nodes);
                nodes = nodes.push(node);
            }
            result.add_apply_result(applied);
            j += 1;
        }
        assert(self.to@.take(self.to@.len() as int) =~= self.to@);
    }

    /// Whether applying the rule to what `search` describes leaves the graph
    /// `after` and the summary `summary`: `sols` lists the occurrences of
    /// the pattern in lexicographic order, the procedures ran on each of
    /// them in turn, and `nodes` holds, for each occurrence and procedure,
    /// the node that `eval` yielded for the template.
    pub open spec fn rewrites<F: Fn(&ToNode, Option<&Node>) -> Node>(
        &self,
        search: Search,
        eval: F,
        sols: Seq<Seq<int>>,
        nodes: Seq<Seq<Node>>,
        after: RggModel,
        summary: RuleSummary,
    ) -> bool {
        let run = run_matches(self.to@, mappings_of(search, sols), search.graph, eval, nodes);
        &&& search.enumerated(sols)
        &&& run.graph == after
        &&& run.summary == summary
        &&& run.sound
    }

    /// Finds every occurrence of the pattern, then applies the procedures to
    /// each occurrence in turn.
    ///
    /// All occurrences are found before the graph is changed. An occurrence
    /// whose mapping does not know every target of every procedure is passed
    /// over whole. Templates are evaluated by `eval`.
    pub fn apply<F: Fn(&ToNode, Option<&Node>) -> Node>(
        &self,
        graph: &mut RggGraph,
        eval: &F,
    ) -> (r: RuleResult)
        requires
            self.from.well_formed(),
            old(graph).wf(),
            forall|t: &ToNode, b: Option<&Node>| call_requires(*eval, (t, b)),
        ensures
            final(graph).wf(),
            exists|sols: Seq<Seq<int>>, nodes: Seq<Seq<Node>>| #[trigger]
                self.rewrites(self.search(old(graph)), *eval, sols, nodes, final(graph)@, r@),
    {
        let matches = self.all_matches(graph);
        let ghost search = self.search(old(graph));
        let ghost sols = choose|sols: Seq<Seq<int>>|
            {
                &&& search.enumerated(sols)
                &&& #[trigger] mappings_of(search, sols) == views_of(matches@)
            };
        let ghost maps = mappings_of(search, sols);
        let ghost mut nodes: Seq<Seq<Node>> = Seq::empty();
        let ghost mut last: Map<i32, usize> = Map::empty();
        let mut result = RuleResult::new();
        let mut i: usize = 0;
        while i < matches.len()
            invariant
                i <= matches.len(),
                graph.wf(),
                forall|t: &ToNode, b: Option<&Node>| call_requires(*eval, (t, b)),
                maps == views_of(matches@),
                nodes.len() == i,
                run_matches(self.to@, maps.take(i as int), old(graph)@, *eval, nodes) == (Run {
                    graph: graph@,
                    mapping: last,
                    summary: result@,
                    sound: true,
                }),
            decreases matches.len() - i,
        {
            let mut mapping = matches[i].clone();
            proof {
                let next = maps.take(i + 1);
                assert(next.drop_last() =~= maps.take(i as int));
                assert(next.last() == mapping@);
            }
            if self.check_procedure_targets_exist(&mapping) {
                let ghost g = graph@;
                let ghost m = mapping@;
                let ghost s = result@;
                self.apply_to_match(graph, &mut mapping, &mut result, eval);
                proof {
                    let made = choose|made: Seq<Node>|
                        #[trigger] run_procedures(
                            self.to@,
                            Run { graph: g, mapping: m, summary: s, sound: true },
                            *eval,
                            made,
                        ) == (Run {
                            graph: graph@,
                            mapping: mapping@,
                            summary: result@,
                            sound: true,
                        });
                    assert(nodes.push(made).drop_last() =~= nodes);
                    nodes = nodes.push(made);
                    last = mapping@;
                }
            } else {
                proof {
                    assert(nodes.push(Seq::empty()).drop_last() =~= nodes);
                    nodes = nodes.push(Seq::empty());
                    last = mapping@;
                }
            }
            i += 1;
        }
        proof {
            assert(maps.take(maps.len() as int) =~= maps);
            assert(self.rewrites(search, *eval, sols, nodes, graph@, result@));
        }
        result
    }
}

} // verus!
