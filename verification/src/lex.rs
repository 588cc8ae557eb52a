//! Sequences of numbers in lexicographic order, and their rank in that order.

use vstd::prelude::*;

verus! {

/// Whether two sequences hold the same numbers below the index `k`.
pub open spec fn agree(p: Seq<int>, a: Seq<int>, k: int) -> bool {
    forall|j: int| 0 <= j < k ==> p[j] == a[j]
}

/// `p` is at most `a` in lexicographic order, looking from the index `k` on.
pub open spec fn lex_le_from(p: Seq<int>, a: Seq<int>, k: int) -> bool
    decreases p.len() - k,
{
    if k < 0 || k >= p.len() {
        true
    } else if p[k] < a[k] {
        true
    } else if p[k] > a[k] {
        false
    } else {
        lex_le_from(p, a, k + 1)
    }
}

/// `p` is at most `a` in lexicographic order. Both have the same length.
pub open spec fn lex_le(p: Seq<int>, a: Seq<int>) -> bool {
    lex_le_from(p, a, 0)
}

/// `p` comes before `a` in lexicographic order.
pub open spec fn lex_lt(p: Seq<int>, a: Seq<int>) -> bool {
    lex_le(p, a) && p != a
}

/// `p` with the number at `d` raised by one and zeros behind it: the least
/// sequence behind all those that begin like `p` up to `d`.
pub open spec fn bump(p: Seq<int>, d: int) -> Seq<int> {
    Seq::new(
        p.len(),
        |k: int|
            if k < d {
                p[k]
            } else if k == d {
                p[d] + 1
            } else {
                0
            },
    )
}

/// Where two sequences agree, the comparison may start behind that part.
pub proof fn lemma_lex_skip(p: Seq<int>, a: Seq<int>, j: int, k: int)
    requires
        0 <= j <= k <= p.len(),
        p.len() == a.len(),
        agree(p, a, k),
    ensures
        lex_le_from(p, a, j) == lex_le_from(p, a, k),
    decreases k - j,
{
    if j < k {
        lemma_lex_skip(p, a, j + 1, k);
    }
}

/// From an index on from which `p` is at most `a` number by number, `p` is
/// at most `a`.
pub proof fn lemma_lex_pointwise(p: Seq<int>, a: Seq<int>, k: int)
    requires
        0 <= k <= p.len(),
        p.len() == a.len(),
        forall|j: int| k <= j < p.len() ==> p[j] <= a[j],
    ensures
        lex_le_from(p, a, k),
    decreases p.len() - k,
{
    if k < p.len() {
        lemma_lex_pointwise(p, a, k + 1);
    }
}

/// Where `a` begins like `p`, and `p` is at most `a`, the next number of `a`
/// is not below that of `p`.
pub proof fn lemma_lex_next(p: Seq<int>, a: Seq<int>, k: int)
    requires
        0 <= k < p.len(),
        p.len() == a.len(),
        agree(p, a, k),
        lex_le(p, a),
    ensures
        p[k] <= a[k],
        p[k] == a[k] ==> lex_le_from(p, a, k + 1),
{
    lemma_lex_skip(p, a, 0, k);
}

/// Where `a` leaves `p` below the index `k`, what `p` holds from `k` on does
/// not matter to the comparison.
pub proof fn lemma_lex_swap(p: Seq<int>, q: Seq<int>, a: Seq<int>, k: int, j: int)
    requires
        0 <= j <= k <= p.len(),
        p.len() == a.len(),
        q.len() == a.len(),
        agree(p, q, k),
        agree(p, a, j),
        lex_le_from(p, a, j),
        !agree(p, a, k),
    ensures
        lex_le_from(q, a, j),
    decreases k - j,
{
    if j < k {
        if p[j] == a[j] {
            assert(agree(p, a, j + 1));
            lemma_lex_swap(p, q, a, k, j + 1);
        }
    }
}

/// A sequence behind `p` that does not begin like `p` up to `d` is not
/// before `bump(p, d)`.
pub proof fn lemma_bump(p: Seq<int>, a: Seq<int>, d: int, j: int)
    requires
        0 <= j <= d < p.len(),
        p.len() == a.len(),
        forall|i: int| 0 <= i < a.len() ==> a[i] >= 0,
        agree(p, a, j),
        lex_le_from(p, a, j),
        !agree(p, a, d + 1),
    ensures
        lex_le_from(bump(p, d), a, j),
    decreases d - j,
{
    let b = bump(p, d);
    if j < d {
        if p[j] == a[j] {
            assert(agree(p, a, j + 1));
            lemma_bump(p, a, d, j + 1);
        }
    } else {
        assert(p[d] != a[d]);
        if a[d] == b[d] {
            lemma_lex_pointwise(b, a, d + 1);
        }
    }
}

/// What is not before `bump(p, d)` is behind `p`.
pub proof fn lemma_behind_bump(p: Seq<int>, a: Seq<int>, d: int, j: int)
    requires
        0 <= j <= d < p.len(),
        p.len() == a.len(),
        agree(p, a, j),
        lex_le_from(bump(p, d), a, j),
    ensures
        lex_le_from(p, a, j),
        p != a,
    decreases d - j,
{
    let b = bump(p, d);
    if j < d {
        if b[j] == a[j] {
            assert(agree(p, a, j + 1));
            lemma_behind_bump(p, a, d, j + 1);
        } else {
            assert(p[j] != a[j]);
        }
    } else {
        assert(p[d] != a[d]);
    }
}

/// The lexicographic order is transitive.
pub proof fn lemma_lex_trans(p: Seq<int>, q: Seq<int>, r: Seq<int>, j: int)
    requires
        0 <= j <= p.len(),
        p.len() == q.len(),
        q.len() == r.len(),
        lex_le_from(p, q, j),
        lex_le_from(q, r, j),
    ensures
        lex_le_from(p, r, j),
    decreases p.len() - j,
{
    if j < p.len() {
        if p[j] == q[j] && q[j] == r[j] {
            lemma_lex_trans(p, q, r, j + 1);
        }
    }
}

/// Two sequences, each at most the other, are the same.
pub proof fn lemma_lex_antisym(p: Seq<int>, q: Seq<int>, j: int)
    requires
        0 <= j <= p.len(),
        p.len() == q.len(),
        agree(p, q, j),
        lex_le_from(p, q, j),
        lex_le_from(q, p, j),
    ensures
        p == q,
    decreases p.len() - j,
{
    if j < p.len() {
        assert(agree(p, q, j + 1));
        lemma_lex_antisym(p, q, j + 1);
    } else {
        assert(p =~= q);
    }
}

/// "Before" is transitive.
pub proof fn lemma_lt_trans(p: Seq<int>, q: Seq<int>, r: Seq<int>)
    requires
        p.len() == q.len(),
        q.len() == r.len(),
        lex_lt(p, q),
        lex_le(q, r),
    ensures
        lex_lt(p, r),
{
    lemma_lex_trans(p, q, r, 0);
    if p == r {
        lemma_lex_antisym(p, q, 0);
    }
}

/// The rank of the first `k` numbers of `p`, read as digits to the base `w`.
pub open spec fn rank(p: Seq<int>, w: int, k: int) -> int
    decreases k,
{
    if k <= 0 {
        0
    } else {
        rank(p, w, k - 1) * w + p[k - 1]
    }
}

/// The greatest rank of `k` digits to the base `w`.
pub open spec fn top(w: int, k: int) -> int
    decreases k,
{
    if k <= 0 {
        0
    } else {
        top(w, k - 1) * w + (w - 1)
    }
}

/// Whether every number of `p` is a digit to the base `w`.
pub open spec fn digits(p: Seq<int>, w: int) -> bool {
    forall|j: int| 0 <= j < p.len() ==> 0 <= #[trigger] p[j] < w
}

/// The rank of digits lies between zero and the greatest rank.
pub proof fn lemma_rank_bound(p: Seq<int>, w: int, k: int)
    requires
        0 <= k <= p.len(),
        w >= 1,
        digits(p, w),
    ensures
        0 <= rank(p, w, k) <= top(w, k),
    decreases k,
{
    if k > 0 {
        lemma_rank_bound(p, w, k - 1);
        let r = rank(p, w, k - 1);
        let t = top(w, k - 1);
        assert(0 <= r * w <= t * w) by (nonlinear_arith)
            requires
                0 <= r <= t,
                w >= 1,
        ;
    }
}

/// Sequences that agree have the same rank so far.
pub proof fn lemma_rank_agree(p: Seq<int>, q: Seq<int>, w: int, k: int)
    requires
        0 <= k <= p.len(),
        p.len() == q.len(),
        agree(p, q, k),
    ensures
        rank(p, w, k) == rank(q, w, k),
    decreases k,
{
    if k > 0 {
        lemma_rank_agree(p, q, w, k - 1);
    }
}

/// Where `q` first leaves `p` upwards, the rank of `q` is the greater one.
pub proof fn lemma_rank_gap(p: Seq<int>, q: Seq<int>, w: int, d: int, k: int)
    requires
        0 <= d < k <= p.len(),
        p.len() == q.len(),
        w >= 1,
        digits(p, w),
        digits(q, w),
        agree(p, q, d),
        p[d] < q[d],
    ensures
        rank(p, w, k) < rank(q, w, k),
    decreases k,
{
    if k == d + 1 {
        lemma_rank_agree(p, q, w, d);
    } else {
        lemma_rank_gap(p, q, w, d, k - 1);
        let rp = rank(p, w, k - 1);
        let rq = rank(q, w, k - 1);
        assert(rp * w + w <= rq * w) by (nonlinear_arith)
            requires
                rp + 1 <= rq,
                w >= 1,
        ;
        assert(p[k - 1] < w);
        assert(q[k - 1] >= 0);
    }
}

} // verus!
