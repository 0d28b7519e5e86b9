//! Finite sums of integer weights, indexed by position. The matching
//! engine states book depths, fill totals and pro-rata pools as such sums;
//! the lemmas here let loops accumulate them position by position or walk
//! them through a duplicate-free index sequence in any order.

use vstd::prelude::*;

verus! {

/// Sum of `w(0) + w(1) + ... + w(n - 1)`.
pub open spec fn sum_pos(w: spec_fn(int) -> int, n: int) -> int
    decreases n,
{
    if n <= 0 {
        0
    } else {
        sum_pos(w, n - 1) + w(n - 1)
    }
}

/// Sum of `w` over the first `k` entries of the index sequence `idx`:
/// `w(idx[0]) + ... + w(idx[k - 1])`.
pub open spec fn sum_idx_upto(w: spec_fn(int) -> int, idx: Seq<int>, k: int) -> int
    decreases k,
{
    if k <= 0 || k > idx.len() {
        0
    } else {
        sum_idx_upto(w, idx, k - 1) + w(idx[k - 1])
    }
}

/// Sum of `w` over the entries of `idx` from position `k` on:
/// `w(idx[k]) + ... + w(idx[len - 1])`.
pub open spec fn sum_idx_from(w: spec_fn(int) -> int, idx: Seq<int>, k: int) -> int
    decreases idx.len() - k,
{
    if k < 0 || k >= idx.len() {
        0
    } else {
        w(idx[k]) + sum_idx_from(w, idx, k + 1)
    }
}

/// A nonnegative weight gives a nonnegative sum.
pub proof fn lemma_sum_pos_nonneg(w: spec_fn(int) -> int, n: int)
    requires
        forall|i: int| 0 <= i < n ==> #[trigger] w(i) >= 0,
    ensures
        sum_pos(w, n) >= 0,
    decreases n,
{
    if n > 0 {
        lemma_sum_pos_nonneg(w, n - 1);
    }
}

/// Pointwise-equal weights give equal sums.
pub proof fn lemma_sum_pos_congruent(w1: spec_fn(int) -> int, w2: spec_fn(int) -> int, n: int)
    requires
        forall|i: int| 0 <= i < n ==> #[trigger] w1(i) == #[trigger] w2(i),
    ensures
        sum_pos(w1, n) == sum_pos(w2, n),
    decreases n,
{
    if n > 0 {
        lemma_sum_pos_congruent(w1, w2, n - 1);
    }
}

/// A pointwise-smaller weight gives a sum at most as large.
pub proof fn lemma_sum_pos_le(w1: spec_fn(int) -> int, w2: spec_fn(int) -> int, n: int)
    requires
        forall|i: int| 0 <= i < n ==> #[trigger] w1(i) <= #[trigger] w2(i),
    ensures
        sum_pos(w1, n) <= sum_pos(w2, n),
    decreases n,
{
    if n > 0 {
        lemma_sum_pos_le(w1, w2, n - 1);
    }
}

/// Sums split over pointwise addition of weights.
pub proof fn lemma_sum_pos_add(
    w1: spec_fn(int) -> int,
    w2: spec_fn(int) -> int,
    w3: spec_fn(int) -> int,
    n: int,
)
    requires
        forall|i: int| 0 <= i < n ==> #[trigger] w3(i) == #[trigger] w1(i) + #[trigger] w2(i),
    ensures
        sum_pos(w3, n) == sum_pos(w1, n) + sum_pos(w2, n),
    decreases n,
{
    if n > 0 {
        lemma_sum_pos_add(w1, w2, w3, n - 1);
    }
}

/// A weight bounded by `c` gives a sum bounded by `n * c`.
pub proof fn lemma_sum_pos_upper(w: spec_fn(int) -> int, n: int, c: int)
    requires
        n >= 0,
        c >= 0,
        forall|i: int| 0 <= i < n ==> #[trigger] w(i) <= c,
    ensures
        sum_pos(w, n) <= n * c,
    decreases n,
{
    if n > 0 {
        lemma_sum_pos_upper(w, n - 1, c);
        assert((n - 1) * c + c == n * c) by (nonlinear_arith);
    }
}

/// With nonnegative weights, a shorter prefix sums to no more.
pub proof fn lemma_sum_pos_prefix_le(w: spec_fn(int) -> int, m: int, n: int)
    requires
        0 <= m <= n,
        forall|i: int| 0 <= i < n ==> #[trigger] w(i) >= 0,
    ensures
        sum_pos(w, m) <= sum_pos(w, n),
    decreases n,
{
    if n > m {
        lemma_sum_pos_prefix_le(w, m, n - 1);
    }
}

/// Suffix sums agree when the weights agree on the suffix's entries.
pub proof fn lemma_sum_idx_from_congruent(
    w1: spec_fn(int) -> int,
    w2: spec_fn(int) -> int,
    idx: Seq<int>,
    k: int,
)
    requires
        forall|kk: int| k <= kk < idx.len() ==> w1(#[trigger] idx[kk]) == w2(idx[kk]),
    ensures
        sum_idx_from(w1, idx, k) == sum_idx_from(w2, idx, k),
    decreases idx.len() - k,
{
    if 0 <= k && k < idx.len() {
        lemma_sum_idx_from_congruent(w1, w2, idx, k + 1);
    }
}

/// Each position's weight is at most the whole sum, when weights are
/// nonnegative.
pub proof fn lemma_sum_pos_elem(w: spec_fn(int) -> int, n: int, j: int)
    requires
        0 <= j < n,
        forall|i: int| 0 <= i < n ==> #[trigger] w(i) >= 0,
    ensures
        w(j) <= sum_pos(w, n),
    decreases n,
{
    if j == n - 1 {
        lemma_sum_pos_nonneg(w, n - 1);
    } else {
        lemma_sum_pos_elem(w, n - 1, j);
    }
}

/// Changing the weight at one position changes the sum by the difference
/// there.
pub proof fn lemma_sum_pos_update(
    w1: spec_fn(int) -> int,
    w2: spec_fn(int) -> int,
    n: int,
    j: int,
)
    requires
        0 <= j < n,
        forall|i: int| 0 <= i < n && i != j ==> #[trigger] w1(i) == #[trigger] w2(i),
    ensures
        sum_pos(w2, n) == sum_pos(w1, n) - w1(j) + w2(j),
    decreases n,
{
    if j == n - 1 {
        lemma_sum_pos_congruent(w1, w2, n - 1);
    } else {
        lemma_sum_pos_update(w1, w2, n - 1, j);
    }
}

/// The prefix and suffix sums over an index sequence meet in the middle.
pub proof fn lemma_sum_idx_split(w: spec_fn(int) -> int, idx: Seq<int>, k: int)
    requires
        0 <= k <= idx.len(),
    ensures
        sum_idx_upto(w, idx, k) + sum_idx_from(w, idx, k) == sum_idx_from(w, idx, 0),
    decreases k,
{
    if k > 0 {
        lemma_sum_idx_split(w, idx, k - 1);
        lemma_sum_idx_from_unfold(w, idx, k - 1);
    }
}

/// Peeling the front entry off a suffix sum.
pub proof fn lemma_sum_idx_from_unfold(w: spec_fn(int) -> int, idx: Seq<int>, k: int)
    requires
        0 <= k < idx.len(),
    ensures
        sum_idx_from(w, idx, k) == w(idx[k]) + sum_idx_from(w, idx, k + 1),
{
}

/// Suffix sums of a nonnegative weight are nonnegative.
pub proof fn lemma_sum_idx_from_nonneg(w: spec_fn(int) -> int, idx: Seq<int>, k: int)
    requires
        forall|i: int| #[trigger] w(i) >= 0,
    ensures
        sum_idx_from(w, idx, k) >= 0,
    decreases idx.len() - k,
{
    if 0 <= k && k < idx.len() {
        lemma_sum_idx_from_nonneg(w, idx, k + 1);
    }
}

/// A weight below another everywhere and strictly below at one position
/// sums to strictly less.
pub proof fn lemma_sum_pos_lt(w1: spec_fn(int) -> int, w2: spec_fn(int) -> int, n: int, j: int)
    requires
        0 <= j < n,
        forall|i: int| 0 <= i < n ==> #[trigger] w1(i) <= #[trigger] w2(i),
        w1(j) < w2(j),
    ensures
        sum_pos(w1, n) < sum_pos(w2, n),
{
    let w1x = |i: int|
        if i == j {
            w2(j)
        } else {
            w1(i)
        };
    lemma_sum_pos_update(w1, w1x, n, j);
    lemma_sum_pos_le(w1x, w2, n);
}

/// A positive sum has a positive entry.
pub proof fn lemma_sum_pos_pos(w: spec_fn(int) -> int, n: int)
    requires
        sum_pos(w, n) > 0,
    ensures
        exists|i: int| 0 <= i < n && #[trigger] w(i) > 0,
    decreases n,
{
    if n > 0 {
        if w(n - 1) > 0 {
            assert(0 <= n - 1 < n && w(n - 1) > 0);
        } else {
            lemma_sum_pos_pos(w, n - 1);
        }
    }
}

/// Sum over positions restricted to a set of positions.
pub open spec fn sum_pos_in(w: spec_fn(int) -> int, s: Set<int>, n: int) -> int
    decreases n,
{
    if n <= 0 {
        0
    } else {
        sum_pos_in(w, s, n - 1) + if s.contains(n - 1) {
            w(n - 1)
        } else {
            0
        }
    }
}

proof fn lemma_sum_pos_in_remove(w: spec_fn(int) -> int, s: Set<int>, n: int, j: int)
    requires
        0 <= j < n,
        s.contains(j),
    ensures
        sum_pos_in(w, s, n) == sum_pos_in(w, s.remove(j), n) + w(j),
    decreases n,
{
    if j == n - 1 {
        lemma_sum_pos_in_same(w, s, s.remove(j), n - 1);
    } else {
        lemma_sum_pos_in_remove(w, s, n - 1, j);
    }
}

proof fn lemma_sum_pos_in_same(w: spec_fn(int) -> int, s1: Set<int>, s2: Set<int>, n: int)
    requires
        forall|i: int| 0 <= i < n ==> (s1.contains(i) <==> s2.contains(i)),
    ensures
        sum_pos_in(w, s1, n) == sum_pos_in(w, s2, n),
    decreases n,
{
    if n > 0 {
        lemma_sum_pos_in_same(w, s1, s2, n - 1);
    }
}

proof fn lemma_sum_idx_as_set(w: spec_fn(int) -> int, idx: Seq<int>, n: int)
    requires
        idx.no_duplicates(),
        forall|k: int| 0 <= k < idx.len() ==> 0 <= #[trigger] idx[k] < n,
    ensures
        sum_idx_upto(w, idx, idx.len() as int) == sum_pos_in(
            w,
            Set::new(|i: int| idx.contains(i)),
            n,
        ),
    decreases idx.len(),
{
    if idx.len() == 0 {
        lemma_sum_pos_in_empty(w, Set::new(|i: int| idx.contains(i)), n);
    } else {
        let j = idx.last();
        let prefix = idx.drop_last();
        assert(forall|k: int|
            0 <= k < prefix.len() ==> #[trigger] prefix[k] == idx[k]);
        lemma_sum_idx_as_set(w, prefix, n);
        assert(sum_idx_upto(w, idx, idx.len() as int) == sum_idx_upto(
            w,
            idx,
            idx.len() - 1,
        ) + w(j));
        lemma_sum_idx_upto_prefix(w, idx, prefix);
        let sfull = Set::new(|i: int| idx.contains(i));
        let spre = Set::new(|i: int| prefix.contains(i));
        assert(forall|i: int| #[trigger] prefix.contains(i) ==> idx.contains(i)) by {
            assert(forall|k: int| 0 <= k < prefix.len() ==> prefix[k] == idx[k]);
            assert forall|i: int| #[trigger] prefix.contains(i) implies idx.contains(i) by {
                let k = choose|k: int| 0 <= k < prefix.len() && prefix[k] == i;
                assert(idx[k] == i);
            }
        }
        assert forall|i: int| 0 <= i < n implies (spre.contains(i) <==> sfull.remove(j).contains(
            i,
        )) by {
            if spre.contains(i) {
                assert(i != j) by {
                    if i == j {
                        let k = choose|k: int| 0 <= k < prefix.len() && prefix[k] == i;
                        assert(idx[k] == j && idx[idx.len() - 1] == j);
                        assert(!idx.no_duplicates());
                    }
                }
            }
            if sfull.remove(j).contains(i) {
                let k = choose|k: int| 0 <= k < idx.len() && idx[k] == i;
                assert(k < idx.len() - 1);
                assert(prefix[k] == i);
            }
        }
        assert(sfull.contains(j));
        lemma_sum_pos_in_remove(w, sfull, n, j);
        lemma_sum_pos_in_same(w, spre, sfull.remove(j), n);
    }
}

proof fn lemma_sum_idx_upto_prefix(w: spec_fn(int) -> int, idx: Seq<int>, prefix: Seq<int>)
    requires
        prefix.len() <= idx.len(),
        forall|k: int| 0 <= k < prefix.len() ==> #[trigger] prefix[k] == idx[k],
    ensures
        sum_idx_upto(w, idx, prefix.len() as int) == sum_idx_upto(w, prefix, prefix.len() as int),
    decreases prefix.len(),
{
    if prefix.len() > 0 {
        assert(forall|k: int|
            0 <= k < prefix.len() - 1 ==> #[trigger] prefix.drop_last()[k] == prefix[k]);
        lemma_sum_idx_upto_prefix(w, idx, prefix.drop_last());
        lemma_sum_idx_upto_prefix(w, prefix, prefix.drop_last());
        assert(idx[prefix.len() - 1] == prefix[prefix.len() - 1]);
    }
}

proof fn lemma_sum_pos_in_empty(w: spec_fn(int) -> int, s: Set<int>, n: int)
    requires
        forall|i: int| 0 <= i < n ==> !s.contains(i),
    ensures
        sum_pos_in(w, s, n) == 0,
    decreases n,
{
    if n > 0 {
        lemma_sum_pos_in_empty(w, s, n - 1);
    }
}

proof fn lemma_sum_pos_in_full(w: spec_fn(int) -> int, s: Set<int>, n: int)
    requires
        forall|i: int| 0 <= i < n && #[trigger] w(i) != 0 ==> s.contains(i),
    ensures
        sum_pos_in(w, s, n) == sum_pos(w, n) - sum_pos_out(w, s, n),
    decreases n,
{
    if n > 0 {
        lemma_sum_pos_in_full(w, s, n - 1);
    }
}

spec fn sum_pos_out(w: spec_fn(int) -> int, s: Set<int>, n: int) -> int
    decreases n,
{
    if n <= 0 {
        0
    } else {
        sum_pos_out(w, s, n - 1) + if s.contains(n - 1) {
            0
        } else {
            w(n - 1)
        }
    }
}

proof fn lemma_sum_pos_out_zero(w: spec_fn(int) -> int, s: Set<int>, n: int)
    requires
        forall|i: int| 0 <= i < n && #[trigger] w(i) != 0 ==> s.contains(i),
    ensures
        sum_pos_out(w, s, n) == 0,
    decreases n,
{
    if n > 0 {
        lemma_sum_pos_out_zero(w, s, n - 1);
    }
}

/// Walking a duplicate-free index sequence that reaches every position with
/// a nonzero weight sums to the positional sum: the walk's order does not
/// matter.
pub proof fn lemma_sum_idx_perm(w: spec_fn(int) -> int, idx: Seq<int>, n: int)
    requires
        idx.no_duplicates(),
        forall|k: int| 0 <= k < idx.len() ==> 0 <= #[trigger] idx[k] < n,
        forall|i: int| 0 <= i < n && #[trigger] w(i) != 0 ==> idx.contains(i),
    ensures
        sum_idx_upto(w, idx, idx.len() as int) == sum_pos(w, n),
{
    let s = Set::new(|i: int| idx.contains(i));
    lemma_sum_idx_as_set(w, idx, n);
    lemma_sum_pos_in_full(w, s, n);
    lemma_sum_pos_out_zero(w, s, n);
}

} // verus!
