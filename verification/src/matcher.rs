//! The matcher: a search, by backtracking, for the occurrences of a pattern
//! in a graph. It can be asked for one occurrence after the other.

use crate::lex::{bump, lex_le, lex_lt, lemma_lex_pointwise};
use crate::rgg_graph::RggGraph;
use crate::rule::Rule;
use crate::search::{MatcherModel, Search};
use std::collections::HashMap;
use vstd::prelude::*;

verus! {

/// What one step of the search found.
#[derive(Debug, Clone, Copy, PartialEq, Eq, Structural)]
pub enum MatchingDecision {
    /// The search is over.
    NoMatch,
    /// The search goes on.
    Continue,
    /// Every pattern node is bound; the edges are still to be checked.
    Mapped,
}

/// The state of a search for the occurrences of the pattern of a rule.
///
/// The pattern nodes are tried in the order of their declaration, and for
/// each the graph nodes in ascending order of their ids, as they were when
/// the matcher was made. Distinct pattern nodes get distinct graph nodes. A
/// graph node suits a pattern node by its name alone; the edges of the
/// pattern are checked against the edges of the graph once every pattern
/// node is bound.
///
/// The search ends as soon as its first level has used up the list of graph
/// nodes. So in a pattern of several nodes the first pattern node never
/// stands for the graph node with the greatest id.
#[derive(Debug)]
pub struct MatchingState<'a> {
    graph: &'a RggGraph,
    rule: &'a Rule,
    /// The mapping found so far, from the ids of the pattern to those of the graph.
    mapping: HashMap<i32, usize>,
    /// The pattern node that is looked at next.
    pattern_index: usize,
    /// For each pattern node, where in `graph_nodes` its scan goes on.
    progress: Vec<usize>,
    /// The ids of the graph nodes, in ascending order.
    graph_nodes: Vec<usize>,
}

impl<'a> View for MatchingState<'a> {
    type V = MatcherModel;

    closed spec fn view(&self) -> MatcherModel {
        MatcherModel {
            search: Search {
                pattern: self.rule.from.nodes@,
                edges: self.rule.from.edges@,
                graph: self.graph@,
                ids: self.graph_nodes@,
            },
            cursor: self.pattern_index as int,
            resume: self.progress@,
            mapping: self.mapping@,
        }
    }
}

impl Rule {
    /// What a matcher of this rule searches for in the given graph.
    pub open spec fn search(&self, graph: &RggGraph) -> Search {
        Search {
            pattern: self.from.nodes@,
            edges: self.from.edges@,
            graph: graph@,
            ids: crate::ordered::listing(graph@.graph.nodes),
        }
    }

    /// A matcher for the occurrences of the pattern of this rule in the graph.
    pub fn matches<'a>(&'a self, graph: &'a RggGraph) -> (m: MatchingState<'a>)
        requires
            self.from.well_formed(),
            graph.wf(),
        ensures
            m@ == MatcherModel::start(self.search(graph)),
            m@.wf(),
    {
        MatchingState::new(self, graph)
    }
}

impl<'a> MatchingState<'a> {
    /// A matcher at the start of its search.
    pub fn new(rule: &'a Rule, graph: &'a RggGraph) -> (m: Self)
        requires
            rule.from.well_formed(),
            graph.wf(),
        ensures
            m@ == MatcherModel::start(rule.search(graph)),
            m@.wf(),
    {
        let graph_nodes = graph.graph().nodes();
        let ghost count = graph_nodes.len();
        let mut progress: Vec<usize> = Vec::new();
        let mut k: usize = 0;
        while k < rule.from.nodes.len()
            invariant
                k <= rule.from.nodes.len(),
                progress@.len() == k,
                forall|j: int| 0 <= j < k ==> progress@[j] == 0,
            decreases rule.from.nodes.len() - k,
        {
            progress.push(0);
            k += 1;
        }
        let m = MatchingState {
            graph,
            rule,
            mapping: HashMap::new(),
            pattern_index: 0,
            progress,
            graph_nodes,
        };
        proof {
            let search = rule.search(graph);
            let start = MatcherModel::start(search);
            assert(m@.resume =~= start.resume);
            assert(graph_nodes@.len() == count);
            assert(search.ids == graph_nodes@);
            assert(search.wf());
            MatcherModel::lemma_start(search);
        }
        m
    }

    /// The pattern node that is looked at next. The nodes before it are bound.
    pub fn pattern_index(&self) -> (r: usize)
        ensures
            r == self@.cursor,
    {
        self.pattern_index
    }

    /// The mapping found so far.
    pub fn mapping(&self) -> (r: &HashMap<i32, usize>)
        ensures
            r@ == self@.mapping,
    {
        &self.mapping
    }

    /// Whether the graph node at place `i` suits the pattern node at the
    /// cursor: it has what that node asks for, and no bound node has it.
    fn candidate_fits(&self, i: usize) -> (r: bool)
        requires
            self@.wf(),
            self@.cursor < self@.search.pattern.len(),
            i < self@.search.ids.len(),
        ensures
            r == self@.search.placed(self@.pos().update(self@.cursor, i as int), self@.cursor),
    {
        let c = self.pattern_index;
        let ghost a = self@.pos().update(c as int, i as int);
        let admitted = match self.graph.node(self.graph_nodes[i]) {
            Some(node) => self.rule.from.nodes[c].match_node(node),
            None => false,
        };
        if !admitted {
            return false;
        }
        let mut k: usize = 0;
        while k < c
            invariant
                k <= c,
                c == self@.cursor,
                c < self@.search.pattern.len(),
                self@.wf(),
                i < self@.search.ids.len(),
                a == self@.pos().update(c as int, i as int),
                forall|j: int| 0 <= j < k ==> a[j] != a[c as int],
            decreases c - k,
        {
            assert(1 <= self@.resume[k as int] <= self@.search.ids.len());
            assert(a[k as int] == self@.resume[k as int] - 1);
            assert(a[c as int] == i);
            if self.progress[k] == i + 1 {
                return false;
            }
            k += 1;
        }
        true
    }

    /// Goes back one pattern node: unbinds the node before the cursor, and
    /// lets the scan of the node at the cursor start afresh.
    fn retreat(&mut self)
        requires
            old(self)@.wf(),
            old(self)@.cursor >= 1,
            old(self)@.cursor < old(self)@.search.pattern.len() ==> old(self)@.none_fits(
                old(self)@.resume[old(self)@.cursor] as int,
                old(self)@.search.ids.len() as int,
            ),
        ensures
            final(self)@ == old(self)@.retreat(),
            final(self)@.wf(),
    {
        proof {
            old(self)@.lemma_retreat();
        }
        let c = self.pattern_index;
        if c < self.progress.len() {
            self.progress[c] = 0;
        }
        self.pattern_index = c - 1;
        let id = self.rule.from.nodes[c - 1].id;
        self.mapping.remove(&id);
        proof {
            assert(self@.resume =~= old(self)@.retreat().resume);
        }
    }

    /// Takes one step of the search, without regard to the edges of the pattern.
    ///
    /// At a whole assignment it reports `Mapped` and changes nothing. At the
    /// end of the search it reports `NoMatch` and changes nothing. Else it
    /// binds the node at the cursor to the next graph node that suits it, or
    /// goes back one pattern node where none does, and reports `Continue`.
    pub fn continue_search(&mut self) -> (r: MatchingDecision)
        requires
            old(self)@.wf(),
        ensures
            final(self)@.wf(),
            final(self)@.search == old(self)@.search,
            forall|a: Seq<int>| #[trigger] old(self)@.ahead(a) <==> final(self)@.ahead(a),
            r == MatchingDecision::Mapped <==> old(self)@.cursor == old(self)@.search.pattern.len(),
            r == MatchingDecision::NoMatch <==> old(self)@.at_end(),
            r == MatchingDecision::NoMatch ==> old(self)@.exhausted(),
            r != MatchingDecision::Continue ==> final(self)@ == old(self)@,
            r == MatchingDecision::Continue ==> old(self)@.stepped(final(self)@),
            r == MatchingDecision::Continue ==> final(self)@.remaining() < old(self)@.remaining()
                || (final(self)@.remaining() == old(self)@.remaining() && final(self)@.cursor
                > old(self)@.cursor),
            final(self)@.remaining() <= old(self)@.remaining(),
    {
        let len = self.rule.from.nodes.len();
        let c = self.pattern_index;
        if len <= c {
            return MatchingDecision::Mapped;
        }
        let n = self.graph_nodes.len();
        if self.progress[0] >= n {
            proof {
                self@.lemma_exhausted_top();
            }
            return MatchingDecision::NoMatch;
        }
        let start = self.progress[c];
        let rule_id = self.rule.from.nodes[c].id;
        let mut i: usize = start;
        while i < n
            invariant
                start <= i <= n,
                self@ == old(self)@,
                self@.wf(),
                c == self@.cursor,
                c < len,
                c < self@.search.pattern.len(),
                n == self@.search.ids.len(),
                start == self@.resume[c as int],
                self@.resume[0] < n,
                rule_id == self@.search.pattern[c as int].id,
                self@.none_fits(start as int, i as int),
            decreases n - i,
        {
            if self.candidate_fits(i) {
                proof {
                    old(self)@.lemma_bind(i as int);
                }
                self.mapping.insert(rule_id, self.graph_nodes[i]);
                self.progress[c] = i + 1;
                self.pattern_index = c + 1;
                proof {
                    assert(self@.resume =~= old(self)@.bind(i as int).resume);
                    assert(self@ == old(self)@.bind(i as int));
                }
                return MatchingDecision::Continue;
            }
            i += 1;
        }
        if c == 0 {
            proof {
                self@.lemma_exhausted_scan();
            }
            return MatchingDecision::NoMatch;
        }
        proof {
            old(self)@.lemma_retreat();
            assert forall|a: Seq<int>| #[trigger] old(self)@.retreat().ahead(a) implies old(
                self,
            )@.ahead(a) by {}
        }
        self.retreat();
        MatchingDecision::Continue
    }

    /// Checks, for a whole assignment, that every edge of the pattern is an
    /// edge of the graph between the nodes that stand for its ends.
    pub fn check_edges(&self) -> (r: bool)
        requires
            self@.wf(),
            self@.cursor == self@.search.pattern.len(),
        ensures
            r == self@.search.edges_hold(self@.pos()),
    {
        proof {
            self@.search.lemma_bound_keys(self@.pos(), self@.cursor);
            assert(self@.search.pattern.take(self@.cursor) =~= self@.search.pattern);
        }
        let mut e: usize = 0;
        while e < self.rule.from.edges.len()
            invariant
                e <= self.rule.from.edges.len(),
                self@.wf(),
                self@.cursor == self@.search.pattern.len(),
                self@.mapping == self@.search.mapping(self@.pos()),
                forall|p: i32|
                    self@.mapping.contains_key(p) <==> crate::rule::names_id(
                        self@.search.pattern,
                        p,
                    ),
                forall|x: int|
                    0 <= x < e ==> self@.search.graph.graph.has_edge(
                        self@.mapping[(#[trigger] self@.search.edges[x]).0],
                        self@.mapping[self@.search.edges[x].1],
                    ),
            decreases self.rule.from.edges.len() - e,
        {
            let edge = self.rule.from.edges[e];
            assert(edge == self@.search.edges[e as int]);
            let joined = match (self.mapping.get(&edge.0), self.mapping.get(&edge.1)) {
                (Some(from), Some(to)) => self.graph.graph().contains_edge(*from, *to),
                _ => false,
            };
            if !joined {
                return false;
            }
            e += 1;
        }
        true
    }

    /// Leaves a whole assignment behind, so that the search goes on for the
    /// next one: the last pattern node is unbound.
    pub fn reset_match(&mut self)
        requires
            old(self)@.wf(),
            old(self)@.cursor == old(self)@.search.pattern.len(),
        ensures
            final(self)@ == old(self)@.retreat(),
            final(self)@.wf(),
            final(self)@.remaining() < old(self)@.remaining(),
    {
        proof {
            old(self)@.lemma_retreat();
        }
        self.retreat();
    }

    /// The next occurrence of the pattern, or `None` when no more is left.
    ///
    /// The occurrences come in lexicographic order of their assignments, each
    /// as a mapping of its own. Once `None` was returned, it is returned
    /// again on every later call.
    pub fn next(&mut self) -> (r: Option<HashMap<i32, usize>>)
        requires
            old(self)@.wf(),
        ensures
            final(self)@.wf(),
            final(self)@.search == old(self)@.search,
            old(self)@.exhausted() ==> r is None,
            r is Some ==> 0 <= final(self)@.remaining() < old(self)@.remaining(),
            match r {
                Some(m) => exists|a: Seq<int>|
                    {
                        &&& #[trigger] old(self)@.next_is(a)
                        &&& m@ == old(self)@.search.mapping(a)
                        &&& final(self)@.cursor == a.len() - 1
                        &&& final(self)@.pos() == bump(a, a.len() - 1)
                        &&& forall|b: Seq<int>|
                            old(self)@.ahead(b) && b != a ==> #[trigger] final(self)@.ahead(b)
                        &&& forall|b: Seq<int>| #[trigger] final(self)@.ahead(b) ==> lex_lt(a, b)
                    },
                None => old(self)@.exhausted() && final(self)@.exhausted(),
            },
    {
        loop
            invariant
                self@.wf(),
                self@.search == old(self)@.search,
                self@.remaining() <= old(self)@.remaining(),
                forall|a: Seq<int>| #[trigger] old(self)@.ahead(a) <==> self@.ahead(a),
            decreases self@.remaining(), self@.search.pattern.len() - self@.cursor,
        {
            proof {
                self@.lemma_pos_digits();
            }
            let ghost before = self@;
            let decision = self.continue_search();
            match decision {
                MatchingDecision::NoMatch => {
                    proof {
                        assert forall|a: Seq<int>| !#[trigger] old(self)@.ahead(a) by {
                            assert(!self@.ahead(a));
                        }
                    }
                    return None;
                },
                MatchingDecision::Mapped => {
                    let ghost found = self@.pos();
                    proof {
                        self@.lemma_retreat();
                    }
                    if self.check_edges() {
                        let output = self.mapping.clone();
                        proof {
                            let s = self@.search;
                            assert(self@.cursor >= 2 ==> self@.resume[0] < s.ids.len());
                            assert(1 <= self@.resume[0] <= s.ids.len());
                            assert(s.solution(found));
                            lemma_lex_pointwise(found, found, 0);
                            assert(self@.ahead(found));
                            assert(old(self)@.ahead(found));
                            assert forall|b: Seq<int>| #[trigger]
                                old(self)@.ahead(b) implies lex_le(found, b) by {
                                assert(self@.ahead(b));
                            }
                        }
                        self.reset_match();
                        proof {
                            self@.lemma_pos_digits();
                            assert(old(self)@.next_is(found));
                            assert forall|b: Seq<int>| old(self)@.ahead(b) && b != found implies #[trigger]
                                self@.ahead(b) by {
                                assert(before.ahead(b));
                            }
                        }
                        return Some(output);
                    } else {
                        proof {
                            assert(!self@.search.solution(found));
                            assert forall|a: Seq<int>| #[trigger] self@.retreat().ahead(
                                a,
                            ) implies self@.ahead(a) by {}
                        }
                        self.reset_match();
                    }
                },
                MatchingDecision::Continue => {},
            }
            proof {
                self@.lemma_pos_digits();
            }
        }
    }
}

} // verus!
