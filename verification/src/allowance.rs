//! Allowances: what one address lets another move of its shares, and until when.

use vstd::prelude::*;

verus! {

/// An allowance granted by `owner` to `spender`, usable up to `expiration_ledger`.
#[derive(Clone, Copy, Debug, PartialEq, Eq, Structural)]
pub struct Allowance {
    pub owner: u64,
    pub spender: u64,
    pub amount: i128,
    pub expiration_ledger: u32,
}

/// Position of the allowance of `(owner, spender)`, or `-1`.
pub open spec fn find_allowance(list: Seq<Allowance>, owner: u64, spender: u64) -> int
    decreases list.len(),
{
    if list.len() == 0 {
        -1
    } else if list.last().owner == owner && list.last().spender == spender {
        list.len() - 1
    } else {
        find_allowance(list.drop_last(), owner, spender)
    }
}

pub proof fn lemma_find_allowance_bounds(list: Seq<Allowance>, owner: u64, spender: u64)
    ensures
        -1 <= find_allowance(list, owner, spender) < list.len(),
        find_allowance(list, owner, spender) >= 0 ==> list[find_allowance(list, owner, spender)].owner == owner
            && list[find_allowance(list, owner, spender)].spender == spender,
    decreases list.len(),
{
    if list.len() > 0 {
        lemma_find_allowance_bounds(list.drop_last(), owner, spender);
    }
}

pub proof fn lemma_find_allowance_update(list: Seq<Allowance>, k: int, a: Allowance, owner: u64, spender: u64)
    requires
        0 <= k < list.len(),
        a.owner == list[k].owner,
        a.spender == list[k].spender,
    ensures
        find_allowance(list.update(k, a), owner, spender) == find_allowance(list, owner, spender),
    decreases list.len(),
{
    let t = list.update(k, a);
    if k < list.len() - 1 {
        assert(t.drop_last() =~= list.drop_last().update(k, a));
        lemma_find_allowance_update(list.drop_last(), k, a, owner, spender);
    } else {
        assert(t.drop_last() =~= list.drop_last());
    }
}

} // verus!
