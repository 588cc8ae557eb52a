//! Walking ordered sets: the elements of a `BTreeSet`, in ascending order.

use std::collections::BTreeSet;
use vstd::prelude::*;
use vstd::std_specs::cmp::OrdSpec;
use vstd::std_specs::iter::IteratorSpec;

verus! {

/// Strictly ascending ids.
pub open spec fn ascending(s: Seq<usize>) -> bool {
    forall|i: int, j: int| 0 <= i < j < s.len() ==> s[i] < s[j]
}

/// `a` comes before `b` in the order of pairs: by the first part, then by the second.
pub open spec fn pair_before(a: (usize, usize), b: (usize, usize)) -> bool {
    a.0 < b.0 || (a.0 == b.0 && a.1 < b.1)
}

/// Strictly ascending pairs.
pub open spec fn ascending_pairs(s: Seq<(usize, usize)>) -> bool {
    forall|i: int, j: int| 0 <= i < j < s.len() ==> pair_before(s[i], s[j])
}

/// The ascending listing of `set`: it holds exactly the members, each once.
pub open spec fn lists_ids(s: Seq<usize>, set: Set<usize>) -> bool {
    &&& ascending(s)
    &&& s.to_set() == set
    &&& s.len() == set.len()
}

/// The ascending listing of a set of pairs.
pub open spec fn lists_pairs(s: Seq<(usize, usize)>, set: Set<(usize, usize)>) -> bool {
    &&& ascending_pairs(s)
    &&& s.to_set() == set
    &&& s.len() == set.len()
}

/// The ascending listing of a set of ids.
pub open spec fn listing(set: Set<usize>) -> Seq<usize> {
    choose|s: Seq<usize>| lists_ids(s, set)
}

/// A set has one ascending listing only.
pub proof fn lemma_listing_unique(a: Seq<usize>, b: Seq<usize>, set: Set<usize>)
    requires
        lists_ids(a, set),
        lists_ids(b, set),
    ensures
        a == b,
    decreases a.len(),
{
    if a.len() > 0 {
        // The last element of each listing is the greatest member.
        let x = a.last();
        let y = b.last();
        assert(a.to_set().contains(x)) by {
            assert(a[a.len() - 1] == x);
        }
        assert(b.to_set().contains(y)) by {
            assert(b[b.len() - 1] == y);
        }
        assert(b.contains(x));
        assert(a.contains(y));
        let i = choose|i: int| 0 <= i < b.len() && b[i] == x;
        let j = choose|j: int| 0 <= j < a.len() && a[j] == y;
        assert(x == y);
        let a1 = a.drop_last();
        let b1 = b.drop_last();
        let rest = set.remove(x);
        assert(a1.to_set() =~= rest) by {
            assert forall|v: usize| a1.to_set().contains(v) <==> rest.contains(v) by {
                if a1.to_set().contains(v) {
                    let k = choose|k: int| 0 <= k < a1.len() && a1[k] == v;
                    assert(a[k] == v);
                    assert(a.to_set().contains(v));
                }
                if rest.contains(v) {
                    assert(a.to_set().contains(v));
                    let k = choose|k: int| 0 <= k < a.len() && a[k] == v;
                    assert(a1[k] == v);
                }
            }
        }
        assert(b1.to_set() =~= rest) by {
            assert forall|v: usize| b1.to_set().contains(v) <==> rest.contains(v) by {
                if b1.to_set().contains(v) {
                    let k = choose|k: int| 0 <= k < b1.len() && b1[k] == v;
                    assert(b[k] == v);
                    assert(b.to_set().contains(v));
                }
                if rest.contains(v) {
                    assert(b.to_set().contains(v));
                    let k = choose|k: int| 0 <= k < b.len() && b[k] == v;
                    assert(b1[k] == v);
                }
            }
        }
        assert(set.finite()) by {
            vstd::seq_lib::seq_to_set_is_finite(a);
        }
        lemma_listing_unique(a1, b1, rest);
        assert(a =~= a1.push(x));
        assert(b =~= b1.push(y));
    } else {
        assert(b.len() == 0);
        assert(a =~= b);
    }
}

/// The ascending listing of a set of pairs.
pub open spec fn pair_listing(set: Set<(usize, usize)>) -> Seq<(usize, usize)> {
    choose|s: Seq<(usize, usize)>| lists_pairs(s, set)
}

/// A set of pairs has one ascending listing only.
pub proof fn lemma_pair_listing_unique(
    a: Seq<(usize, usize)>,
    b: Seq<(usize, usize)>,
    set: Set<(usize, usize)>,
)
    requires
        lists_pairs(a, set),
        lists_pairs(b, set),
    ensures
        a == b,
    decreases a.len(),
{
    if a.len() > 0 {
        let x = a.last();
        let y = b.last();
        assert(a.to_set().contains(x)) by {
            assert(a[a.len() - 1] == x);
        }
        assert(b.to_set().contains(y)) by {
            assert(b[b.len() - 1] == y);
        }
        assert(b.contains(x));
        assert(a.contains(y));
        let i = choose|i: int| 0 <= i < b.len() && b[i] == x;
        let j = choose|j: int| 0 <= j < a.len() && a[j] == y;
        assert(x == y) by {
            if i < b.len() - 1 {
                assert(pair_before(b[i], b[b.len() - 1]));
            }
            if j < a.len() - 1 {
                assert(pair_before(a[j], a[a.len() - 1]));
            }
        }
        let a1 = a.drop_last();
        let b1 = b.drop_last();
        let rest = set.remove(x);
        assert(a1.to_set() =~= rest) by {
            assert forall|v: (usize, usize)| a1.to_set().contains(v) <==> rest.contains(v) by {
                if a1.to_set().contains(v) {
                    let k = choose|k: int| 0 <= k < a1.len() && a1[k] == v;
                    assert(a[k] == v);
                    assert(pair_before(a[k], a[a.len() - 1]));
                    assert(a.to_set().contains(v));
                }
                if rest.contains(v) {
                    assert(a.to_set().contains(v));
                    let k = choose|k: int| 0 <= k < a.len() && a[k] == v;
                    assert(a1[k] == v);
                }
            }
        }
        assert(b1.to_set() =~= rest) by {
            assert forall|v: (usize, usize)| b1.to_set().contains(v) <==> rest.contains(v) by {
                if b1.to_set().contains(v) {
                    let k = choose|k: int| 0 <= k < b1.len() && b1[k] == v;
                    assert(b[k] == v);
                    assert(pair_before(b[k], b[b.len() - 1]));
                    assert(b.to_set().contains(v));
                }
                if rest.contains(v) {
                    assert(b.to_set().contains(v));
                    let k = choose|k: int| 0 <= k < b.len() && b[k] == v;
                    assert(b1[k] == v);
                }
            }
        }
        assert(set.finite()) by {
            vstd::seq_lib::seq_to_set_is_finite(a);
        }
        lemma_pair_listing_unique(a1, b1, rest);
        assert(a =~= a1.push(x));
        assert(b =~= b1.push(y));
    } else {
        assert(b.len() == 0);
        assert(a =~= b);
    }
}

/// The members of `set`, in ascending order.
pub fn ids_in_order(set: &BTreeSet<usize>) -> (v: Vec<usize>)
    ensures
        lists_ids(v@, set@),
        v@ == listing(set@),
{
    let mut v: Vec<usize> = Vec::new();
    for x in iter: set.iter()
        invariant
            v@.len() == iter.index(),
            forall|j: int| 0 <= j < v@.len() ==> v@[j] == *iter.seq()[j],
            iter.seq() == set.iter().remaining(),
    {
        v.push(*x);
    }
    proof {
        broadcast use vstd::laws_cmp::lemma_ref_obeys_cmp_spec;

        let r = set.iter().remaining();
        assert(v@ =~= r.unref());
        vstd::std_specs::btree::axiom_increasing_seq_meaning::<&usize>(r);
        assert forall|i: int, j: int| 0 <= i < j < v@.len() implies v@[i] < v@[j] by {
            assert(OrdSpec::cmp_spec(&r[i], &r[j]) is Less);
        }
        assert(lists_ids(v@, set@));
        lemma_listing_unique(v@, listing(set@), set@);
    }
    v
}

/// The members of a set of pairs, in ascending order.
pub fn pairs_in_order(set: &BTreeSet<(usize, usize)>) -> (v: Vec<(usize, usize)>)
    ensures
        lists_pairs(v@, set@),
        v@ == pair_listing(set@),
{
    let mut v: Vec<(usize, usize)> = Vec::new();
    for x in iter: set.iter()
        invariant
            v@.len() == iter.index(),
            forall|j: int| 0 <= j < v@.len() ==> v@[j] == *iter.seq()[j],
            iter.seq() == set.iter().remaining(),
    {
        v.push(*x);
    }
    proof {
        broadcast use vstd::laws_cmp::lemma_ref_obeys_cmp_spec;

        let r = set.iter().remaining();
        assert(v@ =~= r.unref());
        vstd::std_specs::btree::axiom_increasing_seq_meaning::<&(usize, usize)>(r);
        assert forall|i: int, j: int| 0 <= i < j < v@.len() implies pair_before(v@[i], v@[j]) by {
            assert(OrdSpec::cmp_spec(&r[i], &r[j]) is Less);
        }
        assert(lists_pairs(v@, set@));
        lemma_pair_listing_unique(v@, pair_listing(set@), set@);
    }
    v
}

} // verus!
