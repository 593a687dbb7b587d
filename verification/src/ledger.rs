//! Holder accounts and the sums over them that the token's invariants speak of.

use vstd::prelude::*;

use crate::distribution::{
    balance_covered, journal_wf, lemma_type_shares_total, lemma_unsettled_nonneg, lemma_unsettled_push,
    type_share, unsettled, DistributionCheckpoint, CAPITAL_CODE, OTHER_CODE, RENT_CODE,
};
use crate::sums::{
    all_nonneg, lemma_elem_le_sum, lemma_sum_pointwise_add, lemma_sum_push, lemma_sum_update, shares_of, sum,
};

verus! {

/// One address's position: its shares, the dividends settled into it, and the
/// journal position up to which they were settled.
#[derive(Clone, Copy, Debug, PartialEq, Eq, Structural)]
pub struct Account {
    pub id: u64,
    pub balance: i128,
    /// Settled, unclaimed rent dividends.
    pub rent: i128,
    /// Settled, unclaimed capital returns.
    pub capital: i128,
    /// Settled, unclaimed dividends of other kinds.
    pub other: i128,
    /// Index of the first journal entry not yet settled into this account.
    pub checkpoint: usize,
    /// When the current holding period began (meaningful while `balance > 0`).
    pub holding_since: u64,
}

/// What an address holds, dividends counted up to the end of the journal.
pub struct Holding {
    pub balance: int,
    pub rent: int,
    pub capital: int,
    pub other: int,
}

/// The holding of an account.
pub open spec fn holding_from(a: Account, dists: Seq<DistributionCheckpoint>) -> Holding {
    Holding {
        balance: a.balance as int,
        rent: a.rent + unsettled(dists, a.balance as int, a.checkpoint as int, dists.len() as int, RENT_CODE),
        capital: a.capital + unsettled(
            dists,
            a.balance as int,
            a.checkpoint as int,
            dists.len() as int,
            CAPITAL_CODE,
        ),
        other: a.other + unsettled(dists, a.balance as int, a.checkpoint as int, dists.len() as int, OTHER_CODE),
    }
}

/// The holding of an address that never held anything.
pub open spec fn empty_holding() -> Holding {
    Holding { balance: 0, rent: 0, capital: 0, other: 0 }
}

/// All unclaimed dividends of a holding.
pub open spec fn unclaimed_total(h: Holding) -> int {
    h.rent + h.capital + h.other
}

/// All unclaimed dividends of an account.
pub open spec fn owed(a: Account, dists: Seq<DistributionCheckpoint>) -> int {
    unclaimed_total(holding_from(a, dists))
}

/// The facts each account keeps.
pub open spec fn account_wf(a: Account, dists: Seq<DistributionCheckpoint>) -> bool {
    &&& a.balance >= 0
    &&& a.rent >= 0
    &&& a.capital >= 0
    &&& a.other >= 0
    &&& a.checkpoint <= dists.len()
    &&& balance_covered(dists, a.balance as int, a.checkpoint as int)
}

/// Every account is well formed and no two share an address.
pub open spec fn accounts_wf(accts: Seq<Account>, dists: Seq<DistributionCheckpoint>) -> bool {
    &&& forall|i: int| 0 <= i < accts.len() ==> #[trigger] account_wf(accts[i], dists)
    &&& forall|i: int, j: int|
        0 <= i < accts.len() && 0 <= j < accts.len() && i != j ==> #[trigger] accts[i].id != #[trigger] accts[j].id
}

/// Position of the account of `id`, or `-1`.
pub open spec fn find_index(accts: Seq<Account>, id: u64) -> int
    decreases accts.len(),
{
    if accts.len() == 0 {
        -1
    } else if accts.last().id == id {
        accts.len() - 1
    } else {
        find_index(accts.drop_last(), id)
    }
}

/// The holding of `id` in a list of accounts.
pub open spec fn holding_in(accts: Seq<Account>, dists: Seq<DistributionCheckpoint>, id: u64) -> Holding {
    let i = find_index(accts, id);
    if i >= 0 {
        holding_from(accts[i], dists)
    } else {
        empty_holding()
    }
}

pub open spec fn balances(accts: Seq<Account>) -> Seq<int> {
    accts.map_values(|a: Account| a.balance as int)
}

pub open spec fn holder_flag(a: Account) -> int {
    if a.balance > 0 {
        1
    } else {
        0
    }
}

pub open spec fn holder_flags(accts: Seq<Account>) -> Seq<int> {
    accts.map_values(|a: Account| holder_flag(a))
}

pub open spec fn owed_all(accts: Seq<Account>, dists: Seq<DistributionCheckpoint>) -> Seq<int> {
    accts.map_values(|a: Account| owed(a, dists))
}

pub proof fn lemma_find_index_bounds(accts: Seq<Account>, id: u64)
    ensures
        -1 <= find_index(accts, id) < accts.len(),
        find_index(accts, id) >= 0 ==> accts[find_index(accts, id)].id == id,
        find_index(accts, id) < 0 ==> forall|i: int| 0 <= i < accts.len() ==> accts[i].id != id,
    decreases accts.len(),
{
    if accts.len() > 0 {
        let init = accts.drop_last();
        lemma_find_index_bounds(init, id);
        if find_index(accts, id) < 0 {
            assert forall|i: int| 0 <= i < accts.len() implies accts[i].id != id by {
                if i < accts.len() - 1 {
                    assert(accts[i] == init[i]);
                }
            }
        }
    }
}

/// With distinct addresses, the account holding `id` is the one found.
pub proof fn lemma_find_index_unique(accts: Seq<Account>, i: int)
    requires
        0 <= i < accts.len(),
        forall|a: int, b: int|
            0 <= a < accts.len() && 0 <= b < accts.len() && a != b ==> #[trigger] accts[a].id
                != #[trigger] accts[b].id,
    ensures
        find_index(accts, accts[i].id) == i,
    decreases accts.len(),
{
    if i < accts.len() - 1 {
        assert(accts.last().id != accts[i].id);
        lemma_find_index_unique(accts.drop_last(), i);
    }
}

/// Replacing an account by one with the same address keeps every lookup.
pub proof fn lemma_find_index_update(accts: Seq<Account>, i: int, a: Account, id: u64)
    requires
        0 <= i < accts.len(),
        a.id == accts[i].id,
    ensures
        find_index(accts.update(i, a), id) == find_index(accts, id),
    decreases accts.len(),
{
    let t = accts.update(i, a);
    if i < accts.len() - 1 {
        assert(t.drop_last() =~= accts.drop_last().update(i, a));
        lemma_find_index_update(accts.drop_last(), i, a, id);
    } else {
        assert(t.drop_last() =~= accts.drop_last());
    }
}

/// Appending an account of a new address keeps every other lookup.
pub proof fn lemma_find_index_push(accts: Seq<Account>, a: Account, id: u64)
    ensures
        find_index(accts.push(a), id) == if a.id == id {
            accts.len() as int
        } else {
            find_index(accts, id)
        },
{
    assert(accts.push(a).drop_last() =~= accts);
}

/// Everything an account is owed is non-negative.
pub proof fn lemma_owed_nonneg(a: Account, dists: Seq<DistributionCheckpoint>)
    requires
        account_wf(a, dists),
        journal_wf(dists),
    ensures
        holding_from(a, dists).rent >= a.rent >= 0,
        holding_from(a, dists).capital >= a.capital >= 0,
        holding_from(a, dists).other >= a.other >= 0,
        owed(a, dists) >= 0,
{
    let n = dists.len() as int;
    lemma_unsettled_nonneg(dists, a.balance as int, a.checkpoint as int, n, RENT_CODE);
    lemma_unsettled_nonneg(dists, a.balance as int, a.checkpoint as int, n, CAPITAL_CODE);
    lemma_unsettled_nonneg(dists, a.balance as int, a.checkpoint as int, n, OTHER_CODE);
}

pub proof fn lemma_owed_all_nonneg(accts: Seq<Account>, dists: Seq<DistributionCheckpoint>)
    requires
        accounts_wf(accts, dists),
        journal_wf(dists),
    ensures
        all_nonneg(owed_all(accts, dists)),
        all_nonneg(balances(accts)),
        all_nonneg(holder_flags(accts)),
{
    assert forall|i: int| 0 <= i < accts.len() implies owed_all(accts, dists)[i] >= 0 by {
        assert(account_wf(accts[i], dists));
        lemma_owed_nonneg(accts[i], dists);
    }
    assert forall|i: int| 0 <= i < accts.len() implies balances(accts)[i] >= 0 by {
        assert(account_wf(accts[i], dists));
    }
}

/// The effect on the sums of replacing one account.
pub proof fn lemma_update_account(accts: Seq<Account>, dists: Seq<DistributionCheckpoint>, i: int, a: Account)
    requires
        0 <= i < accts.len(),
        a.id == accts[i].id,
        accounts_wf(accts, dists),
        account_wf(a, dists),
    ensures
        accounts_wf(accts.update(i, a), dists),
        sum(balances(accts.update(i, a))) == sum(balances(accts)) - accts[i].balance + a.balance,
        sum(holder_flags(accts.update(i, a))) == sum(holder_flags(accts)) - holder_flag(accts[i])
            + holder_flag(a),
        sum(owed_all(accts.update(i, a), dists)) == sum(owed_all(accts, dists)) - owed(accts[i], dists)
            + owed(a, dists),
        forall|id: u64| find_index(accts.update(i, a), id) == find_index(accts, id),
{
    let t = accts.update(i, a);
    assert(balances(t) =~= balances(accts).update(i, a.balance as int));
    assert(holder_flags(t) =~= holder_flags(accts).update(i, holder_flag(a)));
    assert(owed_all(t, dists) =~= owed_all(accts, dists).update(i, owed(a, dists)));
    lemma_sum_update(balances(accts), i, a.balance as int);
    lemma_sum_update(holder_flags(accts), i, holder_flag(a));
    lemma_sum_update(owed_all(accts, dists), i, owed(a, dists));
    assert forall|id: u64| find_index(t, id) == find_index(accts, id) by {
        lemma_find_index_update(accts, i, a, id);
    }
    assert forall|x: int, y: int|
        0 <= x < t.len() && 0 <= y < t.len() && x != y implies #[trigger] t[x].id != #[trigger] t[y].id by {
        assert(accts[x].id != accts[y].id);
    }
    assert forall|x: int| 0 <= x < t.len() implies #[trigger] account_wf(t[x], dists) by {
        if x != i {
            assert(account_wf(accts[x], dists));
        }
    }
}

/// The effect on the sums of adding the account of a new address.
pub proof fn lemma_push_account(accts: Seq<Account>, dists: Seq<DistributionCheckpoint>, a: Account)
    requires
        accounts_wf(accts, dists),
        account_wf(a, dists),
        find_index(accts, a.id) < 0,
    ensures
        accounts_wf(accts.push(a), dists),
        sum(balances(accts.push(a))) == sum(balances(accts)) + a.balance,
        sum(holder_flags(accts.push(a))) == sum(holder_flags(accts)) + holder_flag(a),
        sum(owed_all(accts.push(a), dists)) == sum(owed_all(accts, dists)) + owed(a, dists),
        forall|id: u64| id != a.id ==> find_index(accts.push(a), id) == find_index(accts, id),
        find_index(accts.push(a), a.id) == accts.len(),
{
    let t = accts.push(a);
    assert(balances(t) =~= balances(accts).push(a.balance as int));
    assert(holder_flags(t) =~= holder_flags(accts).push(holder_flag(a)));
    assert(owed_all(t, dists) =~= owed_all(accts, dists).push(owed(a, dists)));
    lemma_sum_push(balances(accts), a.balance as int);
    lemma_sum_push(holder_flags(accts), holder_flag(a));
    lemma_sum_push(owed_all(accts, dists), owed(a, dists));
    lemma_find_index_bounds(accts, a.id);
    assert forall|id: u64| find_index(t, id) == (if a.id == id {
        accts.len() as int
    } else {
        find_index(accts, id)
    }) by {
        lemma_find_index_push(accts, a, id);
    }
    assert forall|x: int, y: int|
        0 <= x < t.len() && 0 <= y < t.len() && x != y implies #[trigger] t[x].id != #[trigger] t[y].id by {
        if x < accts.len() && y < accts.len() {
            assert(accts[x].id != accts[y].id);
        }
    }
    assert forall|x: int| 0 <= x < t.len() implies #[trigger] account_wf(t[x], dists) by {
        if x < accts.len() {
            assert(account_wf(accts[x], dists));
        }
    }
}

/// Appending a journal entry divided over a supply covering every balance adds
/// each holder's share of it, by type, to what the holder is owed.
pub proof fn lemma_accounts_after_deposit(
    accts: Seq<Account>,
    dists: Seq<DistributionCheckpoint>,
    x: DistributionCheckpoint,
)
    requires
        accounts_wf(accts, dists),
        journal_wf(dists),
        sum(balances(accts)) <= x.total_shares,
        x.distribution_type <= OTHER_CODE,
    ensures
        accounts_wf(accts, dists.push(x)),
        forall|i: int|
            0 <= i < accts.len() ==> #[trigger] holding_from(accts[i], dists.push(x)) == (Holding {
                balance: accts[i].balance as int,
                rent: holding_from(accts[i], dists).rent + type_share(x, accts[i].balance as int, RENT_CODE),
                capital: holding_from(accts[i], dists).capital + type_share(
                    x,
                    accts[i].balance as int,
                    CAPITAL_CODE,
                ),
                other: holding_from(accts[i], dists).other + type_share(x, accts[i].balance as int, OTHER_CODE),
            }),
        sum(owed_all(accts, dists.push(x))) == sum(owed_all(accts, dists)) + sum(
            shares_of(balances(accts), x.per_share_scaled as int),
        ),
{
    let nd = dists.push(x);
    lemma_owed_all_nonneg(accts, dists);
    assert forall|i: int| 0 <= i < accts.len() implies #[trigger] holding_from(accts[i], nd) == (Holding {
        balance: accts[i].balance as int,
        rent: holding_from(accts[i], dists).rent + type_share(x, accts[i].balance as int, RENT_CODE),
        capital: holding_from(accts[i], dists).capital + type_share(x, accts[i].balance as int, CAPITAL_CODE),
        other: holding_from(accts[i], dists).other + type_share(x, accts[i].balance as int, OTHER_CODE),
    }) by {
        let a = accts[i];
        assert(account_wf(a, dists));
        lemma_unsettled_push(dists, x, a.balance as int, a.checkpoint as int, RENT_CODE);
        lemma_unsettled_push(dists, x, a.balance as int, a.checkpoint as int, CAPITAL_CODE);
        lemma_unsettled_push(dists, x, a.balance as int, a.checkpoint as int, OTHER_CODE);
    }
    assert forall|i: int| 0 <= i < accts.len() implies #[trigger] account_wf(accts[i], nd) by {
        let a = accts[i];
        assert(account_wf(a, dists));
        lemma_elem_le_sum(balances(accts), i);
        assert forall|d: int| a.checkpoint <= d < nd.len() implies a.balance <= #[trigger] nd[d].total_shares by {
            if d < dists.len() {
                assert(nd[d] == dists[d]);
            }
        }
    }
    let p = x.per_share_scaled as int;
    let sh = shares_of(balances(accts), p);
    assert forall|i: int| 0 <= i < accts.len() implies owed_all(accts, nd)[i] == owed_all(accts, dists)[i]
        + sh[i] by {
        lemma_type_shares_total(x, accts[i].balance as int);
    }
    lemma_sum_pointwise_add(owed_all(accts, dists), sh, owed_all(accts, nd));
}

/// What `id` can claim in a list of accounts.
pub open spec fn owed_of(accts: Seq<Account>, dists: Seq<DistributionCheckpoint>, id: u64) -> int {
    unclaimed_total(holding_in(accts, dists, id))
}

/// A value `c` counted for each occurrence of `v` in a list without duplicates
/// adds up to at most `c`.
pub proof fn lemma_sum_single_hit(ids: Seq<u64>, v: u64, c: int)
    requires
        ids.no_duplicates(),
        c >= 0,
    ensures
        0 <= sum(ids.map_values(|x: u64| if x == v { c } else { 0 })) <= c,
        !ids.contains(v) ==> sum(ids.map_values(|x: u64| if x == v { c } else { 0 })) == 0,
    decreases ids.len(),
{
    if ids.len() > 0 {
        let init = ids.drop_last();
        assert(init.no_duplicates());
        lemma_sum_single_hit(init, v, c);
        assert(ids.map_values(|x: u64| if x == v { c } else { 0 }).drop_last() =~= init.map_values(
            |x: u64| if x == v { c } else { 0 },
        ));
        if ids.last() == v {
            assert forall|k: int| 0 <= k < init.len() implies init[k] != v by {
                assert(ids[k] == init[k]);
                assert(k != ids.len() - 1);
            }
            assert(!init.contains(v));
        } else {
            if !ids.contains(v) {
                assert(!init.contains(v)) by {
                    if init.contains(v) {
                        let k = choose|k: int| 0 <= k < init.len() && init[k] == v;
                        assert(ids[k] == v);
                    }
                }
            }
        }
    }
}

/// The unclaimed dividends of any distinct addresses add up to at most those of
/// all accounts.
pub proof fn lemma_distinct_owed_le_sum(accts: Seq<Account>, dists: Seq<DistributionCheckpoint>, ids: Seq<u64>)
    requires
        accounts_wf(accts, dists),
        journal_wf(dists),
        ids.no_duplicates(),
    ensures
        sum(ids.map_values(|id: u64| owed_of(accts, dists, id))) <= sum(owed_all(accts, dists)),
    decreases accts.len(),
{
    let f = ids.map_values(|id: u64| owed_of(accts, dists, id));
    if accts.len() == 0 {
        let z = ids.map_values(|x: u64| if x == 0u64 { 0int } else { 0int });
        assert forall|k: int| 0 <= k < f.len() implies f[k] == z[k] by {}
        assert(f =~= z);
        lemma_sum_single_hit(ids, 0u64, 0);
        assert(owed_all(accts, dists) =~= Seq::<int>::empty());
    } else {
        let init = accts.drop_last();
        let a = accts.last();
        assert(accounts_wf(init, dists)) by {
            assert forall|i: int| 0 <= i < init.len() implies #[trigger] account_wf(init[i], dists) by {
                assert(account_wf(accts[i], dists));
            }
            assert forall|i: int, j: int|
                0 <= i < init.len() && 0 <= j < init.len() && i != j implies #[trigger] init[i].id != #[trigger] init[j].id by {
                assert(accts[i].id != accts[j].id);
            }
        }
        lemma_distinct_owed_le_sum(init, dists, ids);
        let g = ids.map_values(|id: u64| owed_of(init, dists, id));
        assert(account_wf(a, dists));
        lemma_owed_nonneg(a, dists);
        let hits = ids.map_values(|x: u64| if x == a.id { owed(a, dists) } else { 0 });
        lemma_find_index_bounds(init, a.id);
        assert(find_index(init, a.id) < 0) by {
            if find_index(init, a.id) >= 0 {
                let k = find_index(init, a.id);
                assert(accts[k].id == a.id);
                assert(accts[accts.len() - 1].id == a.id);
            }
        }
        assert forall|k: int| 0 <= k < f.len() implies f[k] == g[k] + hits[k] by {
            let id = ids[k];
            if id != a.id {
                let j = find_index(init, id);
                lemma_find_index_bounds(init, id);
                if j >= 0 {
                    assert(accts[j] == init[j]);
                }
            }
        }
        lemma_sum_pointwise_add(g, hits, f);
        lemma_sum_single_hit(ids, a.id, owed(a, dists));
        assert(owed_all(accts, dists).drop_last() =~= owed_all(init, dists));
    }
}

/// Addresses holding shares in a list of accounts.
pub open spec fn positive_ids(accts: Seq<Account>) -> Set<u64>
    decreases accts.len(),
{
    if accts.len() == 0 {
        Set::empty()
    } else if accts.last().balance > 0 {
        positive_ids(accts.drop_last()).insert(accts.last().id)
    } else {
        positive_ids(accts.drop_last())
    }
}

/// With distinct addresses, the holders are exactly the addresses found with a
/// positive balance, and there are as many as positive balances.
pub proof fn lemma_positive_ids(accts: Seq<Account>)
    requires
        forall|i: int, j: int|
            0 <= i < accts.len() && 0 <= j < accts.len() && i != j ==> #[trigger] accts[i].id != #[trigger] accts[j].id,
    ensures
        positive_ids(accts).finite(),
        positive_ids(accts).len() == sum(holder_flags(accts)),
        forall|id: u64| #[trigger] positive_ids(accts).contains(id) <==> (find_index(accts, id) >= 0
            && accts[find_index(accts, id)].balance > 0),
    decreases accts.len(),
{
    if accts.len() > 0 {
        let init = accts.drop_last();
        let a = accts.last();
        assert forall|i: int, j: int|
            0 <= i < init.len() && 0 <= j < init.len() && i != j implies #[trigger] init[i].id != #[trigger] init[j].id by {
            assert(accts[i].id != accts[j].id);
        }
        lemma_positive_ids(init);
        assert(holder_flags(accts).drop_last() =~= holder_flags(init));
        lemma_find_index_bounds(init, a.id);
        assert(find_index(init, a.id) < 0) by {
            if find_index(init, a.id) >= 0 {
                let k = find_index(init, a.id);
                assert(accts[k].id == a.id);
            }
        }
        assert forall|id: u64| #[trigger] positive_ids(accts).contains(id) <==> (find_index(accts, id) >= 0
            && accts[find_index(accts, id)].balance > 0) by {
            if id != a.id {
                let j = find_index(init, id);
                lemma_find_index_bounds(init, id);
                if j >= 0 {
                    assert(accts[j] == init[j]);
                }
            }
        }
    }
}

} // verus!
