//! The space that the matcher searches: the ways to assign a node of the
//! graph to each node of a pattern, in lexicographic order.
//!
//! An assignment names, for each pattern node in the order of declaration,
//! the place of a graph node in the ascending list of the ids.

use crate::lex::{
    agree, bump, digits, lemma_behind_bump, lemma_bump, lemma_lex_next, lemma_lex_pointwise,
    lemma_lex_skip, lemma_lex_swap, lemma_rank_bound, lemma_rank_gap, lex_le, lex_lt, rank, top,
};
use crate::node::FromNode;
use crate::ordered::lists_ids;
use crate::rgg_graph::RggModel;
use crate::rule::{distinct_ids, edges_anchored, names_id};
use vstd::prelude::*;

verus! {

/// What is searched for, and where.
pub struct Search {
    /// The nodes of the pattern, in the order of declaration.
    pub pattern: Seq<FromNode>,
    /// The edges of the pattern, over the ids of its nodes.
    pub edges: Seq<(i32, i32)>,
    /// The graph.
    pub graph: RggModel,
    /// The ids of the nodes of the graph, in ascending order.
    pub ids: Seq<usize>,
}

impl Search {
    /// The pattern can be searched for, and the list of ids is that of the graph.
    pub open spec fn wf(self) -> bool {
        &&& self.pattern.len() >= 1
        &&& distinct_ids(self.pattern)
        &&& edges_anchored(self.pattern, self.edges)
        &&& self.graph.wf()
        &&& lists_ids(self.ids, self.graph.graph.nodes)
        &&& self.ids.len() <= usize::MAX
    }

    /// Whether the graph node at place `i` has what pattern node `k` asks for.
    pub open spec fn admits(self, k: int, i: int) -> bool {
        self.graph.values.contains_key(self.ids[i]) && self.pattern[k].admits(
            self.graph.values[self.ids[i]],
        )
    }

    /// Whether the assignment is in order at pattern node `k`: the place
    /// exists, the graph node there has what the pattern node asks for, and
    /// no earlier pattern node got the same graph node.
    pub open spec fn placed(self, a: Seq<int>, k: int) -> bool {
        &&& 0 <= a[k] < self.ids.len()
        &&& self.admits(k, a[k])
        &&& forall|j: int| 0 <= j < k ==> a[j] != a[k]
    }

    /// The mapping that the first `k` numbers of an assignment stand for:
    /// from the ids of the pattern nodes to the ids of the graph nodes.
    pub open spec fn bound(self, a: Seq<int>, k: int) -> Map<i32, usize>
        decreases k,
    {
        if k <= 0 {
            Map::empty()
        } else {
            self.bound(a, k - 1).insert(self.pattern[k - 1].id, self.ids[a[k - 1]])
        }
    }

    /// The mapping that a whole assignment stands for.
    pub open spec fn mapping(self, a: Seq<int>) -> Map<i32, usize> {
        self.bound(a, self.pattern.len() as int)
    }

    /// Whether every edge of the pattern is an edge of the graph between the
    /// nodes that the assignment gives to its ends.
    pub open spec fn edges_hold(self, a: Seq<int>) -> bool {
        forall|e: int|
            0 <= e < self.edges.len() ==> self.graph.graph.has_edge(
                self.mapping(a)[(#[trigger] self.edges[e]).0],
                self.mapping(a)[self.edges[e].1],
            )
    }

    /// The places that the first pattern node can get. A pattern of one node
    /// can get every place. In a longer pattern the first node never gets the
    /// last place: the search ends once its first level has used up the list.
    pub open spec fn top_limit(self) -> int {
        if self.pattern.len() == 1 {
            self.ids.len() as int
        } else {
            self.ids.len() - 1
        }
    }

    /// Whether an assignment is an occurrence of the pattern that the search
    /// yields: distinct graph nodes that have what the pattern nodes ask
    /// for, joined where the pattern has an edge.
    pub open spec fn solution(self, a: Seq<int>) -> bool {
        &&& a.len() == self.pattern.len()
        &&& forall|k: int| 0 <= k < self.pattern.len() ==> self.placed(a, k)
        &&& a[0] < self.top_limit()
        &&& self.edges_hold(a)
    }

    /// Whether `sols` lists every solution once, in lexicographic order.
    pub open spec fn enumerated(self, sols: Seq<Seq<int>>) -> bool {
        &&& forall|i: int| 0 <= i < sols.len() ==> self.solution(#[trigger] sols[i])
        &&& forall|i: int, j: int|
            0 <= i < j < sols.len() ==> lex_lt(#[trigger] sols[i], #[trigger] sols[j])
        &&& forall|a: Seq<int>| #[trigger] self.solution(a) ==> sols.contains(a)
    }

    /// Whether an assignment is in order depends on its numbers up to `k` alone.
    pub proof fn lemma_placed_agree(self, a: Seq<int>, b: Seq<int>, k: int)
        requires
            0 <= k,
            agree(a, b, k + 1),
        ensures
            self.placed(a, k) == self.placed(b, k),
    {
    }

    /// The mapping of the first `k` numbers depends on those numbers alone.
    pub proof fn lemma_bound_agree(self, a: Seq<int>, b: Seq<int>, k: int)
        requires
            0 <= k,
            agree(a, b, k),
        ensures
            self.bound(a, k) == self.bound(b, k),
        decreases k,
    {
        if k > 0 {
            self.lemma_bound_agree(a, b, k - 1);
        }
    }

    /// The mapping of the first `k` numbers knows the ids of the first `k`
    /// pattern nodes, and sends each to the graph node at its place.
    pub proof fn lemma_bound_keys(self, a: Seq<int>, k: int)
        requires
            0 <= k <= self.pattern.len(),
            distinct_ids(self.pattern),
        ensures
            forall|p: i32|
                self.bound(a, k).contains_key(p) <==> names_id(self.pattern.take(k), p),
            forall|j: int|
                0 <= j < k ==> #[trigger] self.bound(a, k)[self.pattern[j].id] == self.ids[a[j]],
        decreases k,
    {
        if k > 0 {
            self.lemma_bound_keys(a, k - 1);
            let before = self.pattern.take(k - 1);
            let now = self.pattern.take(k);
            assert forall|p: i32| self.bound(a, k).contains_key(p) <==> names_id(now, p) by {
                if names_id(before, p) {
                    let j = choose|j: int| 0 <= j < before.len() && (#[trigger] before[j]).id == p;
                    assert(now[j].id == p);
                }
                if p == self.pattern[k - 1].id {
                    assert(now[k - 1].id == p);
                }
                if names_id(now, p) {
                    let j = choose|j: int| 0 <= j < now.len() && (#[trigger] now[j]).id == p;
                    if j < k - 1 {
                        assert(before[j].id == p);
                    }
                }
            }
            assert forall|j: int| 0 <= j < k implies #[trigger] self.bound(a, k)[self.pattern[j].id]
                == self.ids[a[j]] by {
                if j < k - 1 {
                    assert(self.pattern[j].id != self.pattern[k - 1].id);
                    assert(self.bound(a, k - 1)[self.pattern[j].id] == self.ids[a[j]]);
                }
            }
        } else {
            assert forall|p: i32| !names_id(self.pattern.take(0), p) by {}
        }
    }

    /// Taking the last pattern node out of a mapping leaves the mapping of
    /// the nodes before it.
    pub proof fn lemma_bound_pop(self, a: Seq<int>, k: int)
        requires
            1 <= k <= self.pattern.len(),
            distinct_ids(self.pattern),
        ensures
            self.bound(a, k).remove(self.pattern[k - 1].id) == self.bound(a, k - 1),
    {
        self.lemma_bound_keys(a, k - 1);
        let p = self.pattern[k - 1].id;
        let before = self.pattern.take(k - 1);
        if names_id(before, p) {
            let j = choose|j: int| 0 <= j < before.len() && (#[trigger] before[j]).id == p;
            assert(self.pattern[j].id == before[j].id);
        }
        assert(self.bound(a, k).remove(p) =~= self.bound(a, k - 1));
    }
}

/// A pattern of two nodes joined by one edge, neither of which asks for
/// anything that a node of the graph lacks, occurs exactly once in a graph
/// of two nodes joined by an edge: the first pattern node stands for the
/// node with the lower id, the second for the other.
pub proof fn lemma_single_edge_occurs_once(s: Search)
    requires
        s.wf(),
        s.pattern.len() == 2,
        s.ids.len() == 2,
        s.edges == seq![(s.pattern[0].id, s.pattern[1].id)],
        forall|k: int, i: int| 0 <= k < 2 && 0 <= i < 2 ==> s.admits(k, i),
        s.graph.graph.has_edge(s.ids[0], s.ids[1]),
    ensures
        s.enumerated(seq![seq![0int, 1int]]),
        s.mapping(seq![0int, 1int]) == Map::<i32, usize>::empty().insert(
            s.pattern[0].id,
            s.ids[0],
        ).insert(s.pattern[1].id, s.ids[1]),
{
    let only = seq![0int, 1int];
    let sols = seq![only];
    assert(s.bound(only, 0) == Map::<i32, usize>::empty());
    assert(s.bound(only, 1) == s.bound(only, 0).insert(s.pattern[0].id, s.ids[0]));
    assert(s.mapping(only) == s.bound(only, 1).insert(s.pattern[1].id, s.ids[1]));
    assert(s.pattern[0].id != s.pattern[1].id);
    assert(s.placed(only, 0));
    assert(s.placed(only, 1));
    assert(s.edges_hold(only)) by {
        assert forall|e: int| 0 <= e < s.edges.len() implies s.graph.graph.has_edge(
            s.mapping(only)[(#[trigger] s.edges[e]).0],
            s.mapping(only)[s.edges[e].1],
        ) by {
            assert(s.edges[e] == (s.pattern[0].id, s.pattern[1].id));
        }
    }
    assert(s.solution(only));
    assert(sols[0] == only);
    assert forall|a: Seq<int>| #[trigger] s.solution(a) implies sols.contains(a) by {
        assert(s.placed(a, 0));
        assert(s.placed(a, 1));
        assert(a[0] == 0);
        assert(a[1] == 1);
        assert(a =~= only);
    }
}

/// The state of a search.
pub struct MatcherModel {
    pub search: Search,
    /// The pattern node that is looked at next. The nodes before it are bound.
    pub cursor: int,
    /// For each pattern node, the place in the list of ids from which its
    /// scan goes on. For a bound node that is the place behind its graph node.
    pub resume: Seq<usize>,
    /// The mapping found so far, for the bound nodes.
    pub mapping: Map<i32, usize>,
}

impl MatcherModel {
    /// Where the search stands: the places of the bound nodes, the place
    /// from which the node at the cursor is scanned, and zeros behind it.
    /// The search has passed every assignment before this one, and none
    /// from it on.
    pub open spec fn pos(self) -> Seq<int> {
        Seq::new(
            self.search.pattern.len(),
            |k: int|
                if k < self.cursor {
                    self.resume[k] - 1
                } else {
                    self.resume[k] as int
                },
        )
    }

    /// The invariant of the search.
    pub open spec fn wf(self) -> bool {
        &&& self.search.wf()
        &&& 0 <= self.cursor <= self.search.pattern.len()
        &&& self.resume.len() == self.search.pattern.len()
        &&& forall|k: int|
            0 <= k < self.cursor ==> 1 <= #[trigger] self.resume[k] <= self.search.ids.len()
                && self.search.placed(self.pos(), k)
        &&& forall|k: int|
            self.cursor <= k < self.search.pattern.len() ==> #[trigger] self.resume[k]
                <= self.search.ids.len()
        &&& forall|k: int|
            self.cursor < k < self.search.pattern.len() ==> #[trigger] self.resume[k] == 0
        &&& self.cursor >= 2 ==> self.resume[0] < self.search.ids.len()
        &&& self.mapping == self.search.bound(self.pos(), self.cursor)
    }

    /// Whether `a` is a solution that the search has not passed yet.
    pub open spec fn ahead(self, a: Seq<int>) -> bool {
        self.search.solution(a) && lex_le(self.pos(), a)
    }

    /// Whether no solution is left.
    pub open spec fn exhausted(self) -> bool {
        forall|a: Seq<int>| !#[trigger] self.ahead(a)
    }

    /// Whether `a` is the next solution: the first one that is not passed yet.
    pub open spec fn next_is(self, a: Seq<int>) -> bool {
        &&& self.ahead(a)
        &&& forall|b: Seq<int>| #[trigger] self.ahead(b) ==> lex_le(a, b)
    }

    /// The base to which the numbers of a position are digits.
    pub open spec fn base(self) -> int {
        (self.search.ids.len() + 1) as int
    }

    /// How far the search is from its end, at most.
    pub open spec fn remaining(self) -> int {
        top(self.base(), self.search.pattern.len() as int) - rank(
            self.pos(),
            self.base(),
            self.search.pattern.len() as int,
        )
    }

    /// The state before the first step.
    pub open spec fn start(search: Search) -> MatcherModel {
        MatcherModel {
            search,
            cursor: 0,
            resume: Seq::new(search.pattern.len(), |k: int| 0usize),
            mapping: Map::empty(),
        }
    }

    /// The state after the node at the cursor was bound to the place `i`.
    pub open spec fn bind(self, i: int) -> MatcherModel {
        MatcherModel {
            cursor: self.cursor + 1,
            resume: self.resume.update(self.cursor, (i + 1) as usize),
            mapping: self.mapping.insert(
                self.search.pattern[self.cursor].id,
                self.search.ids[i],
            ),
            ..self
        }
    }

    /// The state after the search went back one node: the node before the
    /// cursor is unbound and will be scanned from behind its last place, and
    /// the scan of the node at the cursor starts afresh.
    pub open spec fn retreat(self) -> MatcherModel {
        MatcherModel {
            cursor: self.cursor - 1,
            resume: if self.cursor < self.search.pattern.len() {
                self.resume.update(self.cursor, 0usize)
            } else {
                self.resume
            },
            mapping: self.mapping.remove(self.search.pattern[self.cursor - 1].id),
            ..self
        }
    }

    /// Whether `next` is the state after one step of a search that is
    /// neither at a whole assignment nor at its end: the node at the cursor
    /// is bound to the first place from its resume point on that suits it,
    /// or, where none does, the search goes back one node.
    pub open spec fn stepped(self, next: MatcherModel) -> bool {
        ||| exists|i: int|
            {
                &&& self.resume[self.cursor] <= i < self.search.ids.len()
                &&& self.search.placed(self.pos().update(self.cursor, i), self.cursor)
                &&& self.none_fits(self.resume[self.cursor] as int, i)
                &&& #[trigger] self.bind(i) == next
            }
        ||| {
            &&& self.cursor >= 1
            &&& self.none_fits(self.resume[self.cursor] as int, self.search.ids.len() as int)
            &&& next == self.retreat()
        }
    }

    /// Whether the search has come to its end: its first level has used up
    /// the list of ids, or it stands at the first pattern node and no place
    /// is left that suits it.
    pub open spec fn at_end(self) -> bool {
        self.cursor < self.search.pattern.len() && (self.resume[0] >= self.search.ids.len() || (
        self.cursor == 0 && self.none_fits(
            self.resume[0] as int,
            self.search.ids.len() as int,
        )))
    }

    /// Whether no place from `from` up to `to` suits the node at the cursor.
    pub open spec fn none_fits(self, from: int, to: int) -> bool {
        forall|i: int|
            from <= i < to ==> !#[trigger] self.search.placed(self.pos().update(self.cursor, i), self.cursor)
    }

    /// The numbers of a position are digits to the base one above the number of ids.
    pub proof fn lemma_pos_digits(self)
        requires
            self.wf(),
        ensures
            digits(self.pos(), self.base()),
            0 <= self.remaining(),
    {
        let p = self.pos();
        assert forall|j: int| 0 <= j < p.len() implies 0 <= #[trigger] p[j] < self.search.ids.len()
            + 1 by {
            if j < self.cursor {
                assert(1 <= self.resume[j] <= self.search.ids.len());
            } else {
                assert(self.resume[j] <= self.search.ids.len());
            }
        }
        lemma_rank_bound(p, self.base(), self.search.pattern.len() as int);
    }

    /// The start is a state of the search, and every solution lies ahead of it.
    pub proof fn lemma_start(search: Search)
        requires
            search.wf(),
        ensures
            MatcherModel::start(search).wf(),
            forall|a: Seq<int>| search.solution(a) ==> #[trigger] MatcherModel::start(search).ahead(a),
    {
        let m = MatcherModel::start(search);
        assert forall|a: Seq<int>| search.solution(a) implies #[trigger] m.ahead(a) by {
            assert forall|j: int| 0 <= j < a.len() implies m.pos()[j] <= a[j] by {
                assert(search.placed(a, j));
            }
            lemma_lex_pointwise(m.pos(), a, 0);
        }
    }

    /// Binding the node at the cursor to the first place that suits it
    /// passes no solution over.
    pub proof fn lemma_bind(self, i: int)
        requires
            self.wf(),
            self.cursor < self.search.pattern.len(),
            self.resume[self.cursor] <= i < self.search.ids.len(),
            self.cursor >= 1 ==> self.resume[0] < self.search.ids.len(),
            self.search.placed(self.pos().update(self.cursor, i), self.cursor),
            self.none_fits(self.resume[self.cursor] as int, i),
        ensures
            self.bind(i).wf(),
            self.bind(i).pos() == self.pos().update(self.cursor, i),
            forall|a: Seq<int>| #[trigger] self.ahead(a) ==> self.bind(i).ahead(a),
            forall|a: Seq<int>| #[trigger] self.bind(i).ahead(a) ==> self.ahead(a),
            self.bind(i).remaining() <= self.remaining(),
    {
        let c = self.cursor;
        let n = self.bind(i);
        let p = self.pos();
        let q = n.pos();
        let len = self.search.pattern.len() as int;
        assert(q =~= p.update(c, i)) by {
            assert forall|k: int| 0 <= k < len implies q[k] == p.update(c, i)[k] by {
                if k > c {
                    assert(self.resume[k] == 0);
                }
            }
        }
        assert forall|k: int| 0 <= k < n.cursor implies 1 <= #[trigger] n.resume[k]
            <= n.search.ids.len() && n.search.placed(q, k) by {
            if k < c {
                assert(1 <= self.resume[k] <= self.search.ids.len());
                self.search.lemma_placed_agree(p, q, k);
            }
        }
        assert forall|k: int| n.cursor <= k < len implies #[trigger] n.resume[k]
            <= n.search.ids.len() by {
            assert(self.resume[k] == 0);
        }
        assert forall|k: int| n.cursor < k < len implies #[trigger] n.resume[k] == 0 by {
            assert(self.resume[k] == 0);
        }
        self.search.lemma_bound_agree(p, q, c);
        assert(n.wf());
        assert forall|a: Seq<int>| #[trigger] self.ahead(a) implies n.ahead(a) by {
            assert forall|j: int| 0 <= j < a.len() implies a[j] >= 0 by {
                assert(self.search.placed(a, j));
            }
            if agree(p, a, c) {
                lemma_lex_next(p, a, c);
                assert(self.search.placed(a, c));
                self.search.lemma_placed_agree(a, p.update(c, a[c]), c);
                assert(a[c] >= i);
                assert(agree(q, a, c));
                lemma_lex_skip(q, a, 0, c);
                if a[c] == i {
                    lemma_lex_pointwise(q, a, c + 1);
                }
            } else {
                lemma_lex_swap(p, q, a, c, 0);
            }
        }
        assert forall|a: Seq<int>| #[trigger] n.ahead(a) implies self.ahead(a) by {
            assert forall|j: int| 0 <= j < a.len() implies a[j] >= 0 by {
                assert(self.search.placed(a, j));
            }
            if agree(q, a, c) {
                lemma_lex_next(q, a, c);
                assert(agree(p, a, c));
                lemma_lex_skip(p, a, 0, c);
                if a[c] == p[c] {
                    lemma_lex_pointwise(p, a, c + 1);
                }
            } else {
                lemma_lex_swap(q, p, a, c, 0);
            }
        }
        self.lemma_pos_digits();
        n.lemma_pos_digits();
        if i > self.resume[c] {
            lemma_rank_gap(p, q, self.base(), c, len);
        } else {
            assert(p =~= q);
        }
    }

    /// Going back one node, from a whole assignment or from a node that no
    /// place suits any more, passes over nothing but that whole assignment.
    pub proof fn lemma_retreat(self)
        requires
            self.wf(),
            self.cursor >= 1,
            self.cursor < self.search.pattern.len() ==> self.none_fits(
                self.resume[self.cursor] as int,
                self.search.ids.len() as int,
            ),
        ensures
            self.retreat().wf(),
            self.retreat().pos() == bump(self.pos(), self.cursor - 1),
            self.retreat().remaining() < self.remaining(),
            forall|a: Seq<int>|
                #[trigger] self.ahead(a) && !(self.cursor == self.search.pattern.len() && a
                    == self.pos()) ==> self.retreat().ahead(a),
            forall|a: Seq<int>| #[trigger] self.retreat().ahead(a) ==> lex_lt(self.pos(), a),
    {
        let c = self.cursor;
        let n = self.retreat();
        let p = self.pos();
        let q = n.pos();
        let len = self.search.pattern.len() as int;
        assert(1 <= self.resume[c - 1] <= self.search.ids.len());
        assert(self.search.placed(p, c - 1));
        assert(q =~= bump(p, c - 1)) by {
            assert forall|k: int| 0 <= k < len implies q[k] == bump(p, c - 1)[k] by {
                if k > c {
                    assert(self.resume[k] == 0);
                }
            }
        }
        assert forall|k: int| 0 <= k < n.cursor implies 1 <= #[trigger] n.resume[k]
            <= n.search.ids.len() && n.search.placed(q, k) by {
            assert(1 <= self.resume[k] <= self.search.ids.len());
            assert(self.search.placed(p, k));
            self.search.lemma_placed_agree(p, q, k);
        }
        assert forall|k: int| n.cursor <= k < len implies #[trigger] n.resume[k]
            <= n.search.ids.len() by {
            if k > c {
                assert(self.resume[k] == 0);
            }
        }
        assert forall|k: int| n.cursor < k < len implies #[trigger] n.resume[k] == 0 by {
            if k > c {
                assert(self.resume[k] == 0);
            }
        }
        self.search.lemma_bound_pop(p, c);
        self.search.lemma_bound_agree(p, q, c - 1);
        assert(n.wf());
        self.lemma_pos_digits();
        n.lemma_pos_digits();
        lemma_rank_gap(p, q, self.base(), c - 1, len);
        assert forall|a: Seq<int>| #[trigger]
            self.ahead(a) && !(c == len && a == p) implies n.ahead(a) by {
            assert forall|j: int| 0 <= j < a.len() implies a[j] >= 0 by {
                assert(self.search.placed(a, j));
            }
            if agree(p, a, c) {
                if c == len {
                    assert(a =~= p);
                } else {
                    lemma_lex_next(p, a, c);
                    assert(self.search.placed(a, c));
                    self.search.lemma_placed_agree(a, p.update(c, a[c]), c);
                }
            }
            lemma_bump(p, a, c - 1, 0);
        }
        assert forall|a: Seq<int>| #[trigger] n.ahead(a) implies lex_lt(p, a) by {
            lemma_behind_bump(p, a, c - 1, 0);
        }
    }

    /// The search is over where its first level has used up the list of ids.
    pub proof fn lemma_exhausted_top(self)
        requires
            self.wf(),
            self.cursor < self.search.pattern.len(),
            self.resume[0] >= self.search.ids.len(),
        ensures
            self.exhausted(),
    {
        let p = self.pos();
        assert forall|a: Seq<int>| !#[trigger] self.ahead(a) by {
            if self.ahead(a) {
                lemma_lex_next(p, a, 0);
                assert(self.search.placed(a, 0));
                if self.cursor >= 1 {
                    assert(1 <= self.resume[0] <= self.search.ids.len());
                }
            }
        }
    }

    /// The search is over where no place is left for the first pattern node.
    pub proof fn lemma_exhausted_scan(self)
        requires
            self.wf(),
            self.cursor == 0,
            self.none_fits(self.resume[0] as int, self.search.ids.len() as int),
        ensures
            self.exhausted(),
    {
        let p = self.pos();
        assert forall|a: Seq<int>| !#[trigger] self.ahead(a) by {
            if self.ahead(a) {
                lemma_lex_next(p, a, 0);
                assert(self.search.placed(a, 0));
                self.search.lemma_placed_agree(a, p.update(0, a[0]), 0);
            }
        }
    }
}

} // verus!
