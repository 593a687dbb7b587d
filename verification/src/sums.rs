//! Sums of integer sequences and the facts the ledger's invariants rely on.

use vstd::prelude::*;

use crate::fixed_point::{lemma_share_superadditive, share_of};

verus! {

/// The sum of a sequence of integers.
pub open spec fn sum(s: Seq<int>) -> int
    decreases s.len(),
{
    if s.len() == 0 {
        0
    } else {
        sum(s.drop_last()) + s.last()
    }
}

/// Every element is non-negative.
pub open spec fn all_nonneg(s: Seq<int>) -> bool {
    forall|i: int| 0 <= i < s.len() ==> s[i] >= 0
}

pub proof fn lemma_sum_push(s: Seq<int>, v: int)
    ensures
        sum(s.push(v)) == sum(s) + v,
{
    assert(s.push(v).drop_last() =~= s);
}

pub proof fn lemma_sum_update(s: Seq<int>, i: int, v: int)
    requires
        0 <= i < s.len(),
    ensures
        sum(s.update(i, v)) == sum(s) - s[i] + v,
    decreases s.len(),
{
    let t = s.update(i, v);
    if i == s.len() - 1 {
        assert(t.drop_last() =~= s.drop_last());
    } else {
        lemma_sum_update(s.drop_last(), i, v);
        assert(t.drop_last() =~= s.drop_last().update(i, v));
    }
}

pub proof fn lemma_sum_nonneg(s: Seq<int>)
    requires
        all_nonneg(s),
    ensures
        sum(s) >= 0,
    decreases s.len(),
{
    if s.len() > 0 {
        lemma_sum_nonneg(s.drop_last());
    }
}

pub proof fn lemma_elem_le_sum(s: Seq<int>, i: int)
    requires
        all_nonneg(s),
        0 <= i < s.len(),
    ensures
        s[i] <= sum(s),
    decreases s.len(),
{
    if i == s.len() - 1 {
        lemma_sum_nonneg(s.drop_last());
    } else {
        lemma_elem_le_sum(s.drop_last(), i);
    }
}

/// Summing pointwise sums.
pub proof fn lemma_sum_pointwise_add(a: Seq<int>, b: Seq<int>, c: Seq<int>)
    requires
        a.len() == b.len(),
        b.len() == c.len(),
        forall|i: int| 0 <= i < c.len() ==> c[i] == a[i] + b[i],
    ensures
        sum(c) == sum(a) + sum(b),
    decreases c.len(),
{
    if c.len() > 0 {
        lemma_sum_pointwise_add(a.drop_last(), b.drop_last(), c.drop_last());
    }
}

/// Sums respect pointwise order.
pub proof fn lemma_sum_le_pointwise(a: Seq<int>, b: Seq<int>)
    requires
        a.len() == b.len(),
        forall|i: int| 0 <= i < a.len() ==> a[i] <= b[i],
    ensures
        sum(a) <= sum(b),
    decreases a.len(),
{
    if a.len() > 0 {
        lemma_sum_le_pointwise(a.drop_last(), b.drop_last());
    }
}

/// The shares of a list of balances in one distribution.
pub open spec fn shares_of(balances: Seq<int>, per_share_scaled: int) -> Seq<int> {
    balances.map_values(|b: int| share_of(b, per_share_scaled))
}

/// Rounding each holder's share down never hands out more than rounding the
/// whole supply's share down.
pub proof fn lemma_sum_of_shares(balances: Seq<int>, p: int)
    requires
        all_nonneg(balances),
        p >= 0,
    ensures
        sum(shares_of(balances, p)) <= share_of(sum(balances), p),
    decreases balances.len(),
{
    if balances.len() == 0 {
        assert(share_of(0, p) == 0);
    } else {
        let init = balances.drop_last();
        lemma_sum_of_shares(init, p);
        assert(shares_of(balances, p).drop_last() =~= shares_of(init, p));
        lemma_sum_nonneg(init);
        lemma_share_superadditive(sum(init), balances.last(), p);
    }
}

/// A sequence of `n` ones sums to `n`.
pub proof fn lemma_sum_of_ones(n: int)
    requires
        n >= 0,
    ensures
        sum(Seq::new(n as nat, |i: int| 1int)) == n,
    decreases n,
{
    if n > 0 {
        assert(Seq::new(n as nat, |i: int| 1int).drop_last() =~= Seq::new((n - 1) as nat, |i: int| 1int));
        lemma_sum_of_ones(n - 1);
    }
}

} // verus!
