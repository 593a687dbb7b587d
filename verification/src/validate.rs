//! Executable checks of the facts the token's state must satisfy, used to
//! restore a token from stored parts.

use vstd::prelude::*;

use crate::distribution::{
    checkpoint_wf, cum_all, cum_type, journal_wf, lemma_unsettled_split, unsettled_all,
    DistributionCheckpoint, CAPITAL_CODE, OTHER_CODE, RENT_CODE,
};
use crate::fixed_point::{
    compute_share, lemma_allocation_bounded, lemma_audit_bounds, lemma_scale_fits, lemma_share_monotone,
    lemma_share_numerator_bounded, SCALE,
};
use crate::ledger::{account_wf, accounts_wf, balances, holder_flags, lemma_owed_nonneg, owed, owed_all, Account};
use crate::sums::{all_nonneg, sum};

verus! {

/// Sums of prefixes grow towards the whole sum when no element is negative.
pub proof fn lemma_prefix_sum_le(s: Seq<int>, i: int)
    requires
        all_nonneg(s),
        0 <= i <= s.len(),
    ensures
        0 <= sum(s.subrange(0, i)) <= sum(s),
    decreases s.len() - i,
{
    if i == s.len() {
        assert(s.subrange(0, i) =~= s);
        crate::sums::lemma_sum_nonneg(s);
    } else {
        lemma_prefix_sum_le(s, i + 1);
        lemma_prefix_sum_step(s, i);
        let p = s.subrange(0, i);
        assert(all_nonneg(p)) by {
            assert forall|k: int| 0 <= k < p.len() implies p[k] >= 0 by {
                assert(p[k] == s[k]);
            }
        }
        crate::sums::lemma_sum_nonneg(p);
    }
}

/// Extending a prefix by one element adds that element.
pub proof fn lemma_prefix_sum_step(s: Seq<int>, i: int)
    requires
        0 <= i < s.len(),
    ensures
        sum(s.subrange(0, i + 1)) == sum(s.subrange(0, i)) + s[i],
{
    assert(s.subrange(0, i + 1).drop_last() =~= s.subrange(0, i));
}

/// Whether every checkpoint of the journal records what it should.
pub fn check_journal(dists: &Vec<DistributionCheckpoint>) -> (r: bool)
    ensures
        r == journal_wf(dists@),
{
    let n = dists.len();
    if n > 4_294_967_295usize {
        return false;
    }
    let mut cum: i128 = 0;
    let mut rent_cum: i128 = 0;
    let mut capital_cum: i128 = 0;
    let mut other_cum: i128 = 0;
    let mut d: usize = 0;
    while d < n
        invariant
            n == dists@.len(),
            n <= u32::MAX,
            0 <= d <= n,
            forall|e: int| 0 <= e < d ==> #[trigger] checkpoint_wf(dists@, e),
            cum == cum_all(dists@, d as int),
            rent_cum == cum_type(dists@, d as int, RENT_CODE),
            capital_cum == cum_type(dists@, d as int, CAPITAL_CODE),
            other_cum == cum_type(dists@, d as int, OTHER_CODE),
            cum >= 0,
            rent_cum >= 0,
            capital_cum >= 0,
            other_cum >= 0,
        decreases n - d,
    {
        let c = dists[d];
        let ghost ds = dists@;
        proof {
            lemma_scale_fits(c.amount as int);
        }
        if c.id as usize != d {
            proof {
                assert(c.id != d as int);
                assert(!checkpoint_wf(ds, d as int));
            }
            return false;
        }
        if c.amount <= 0 || c.total_shares <= 0 || c.distribution_type > OTHER_CODE {
            proof {
                assert(!checkpoint_wf(ds, d as int));
            }
            return false;
        }
        if c.amount > i128::MAX / SCALE {
            proof {
                assert(c.amount * SCALE > i128::MAX);
                assert(!checkpoint_wf(ds, d as int));
            }
            return false;
        }
        proof {
            lemma_scale_fits(c.amount as int);
            lemma_allocation_bounded(c.amount as int, c.total_shares as int);
        }
        let pss = c.amount * SCALE / c.total_shares;
        proof {
            lemma_share_numerator_bounded(c.total_shares as int, pss as int, c.total_shares as int, c.amount as int);
            lemma_audit_bounds(pss as int, c.total_shares as int, c.amount as int);
        }
        let allocated = pss * c.total_shares / SCALE;
        let per_share = pss / SCALE;
        let remainder = c.amount - per_share * c.total_shares;
        if c.per_share_scaled != pss || c.allocated_amount != allocated || c.per_share != per_share || c.remainder
            != remainder {
            proof {
                assert(!checkpoint_wf(ds, d as int));
            }
            return false;
        }
        if cum > i128::MAX - pss {
            proof {
                assert(!checkpoint_wf(ds, d as int));
            }
            return false;
        }
        let code = c.distribution_type;
        let type_cum = if code == RENT_CODE {
            rent_cum
        } else if code == CAPITAL_CODE {
            capital_cum
        } else {
            other_cum
        };
        if type_cum > i128::MAX - pss {
            proof {
                assert(!checkpoint_wf(ds, d as int));
            }
            return false;
        }
        let new_rent = if code == RENT_CODE { rent_cum + pss } else { rent_cum };
        let new_capital = if code == CAPITAL_CODE { capital_cum + pss } else { capital_cum };
        let new_other = if code == OTHER_CODE { other_cum + pss } else { other_cum };
        if c.cumulative_per_share != cum + pss || c.rent_cumulative_per_share != new_rent
            || c.capital_cumulative_per_share != new_capital || c.other_cumulative_per_share != new_other
            || c.type_cumulative_per_share != type_cum + pss {
            proof {
                assert(!checkpoint_wf(ds, d as int));
            }
            return false;
        }
        proof {
            assert(checkpoint_wf(ds, d as int));
        }
        cum = cum + pss;
        rent_cum = new_rent;
        capital_cum = new_capital;
        other_cum = new_other;
        d = d + 1;
    }
    true
}

/// Whether every account is well formed and no two share an address.
pub fn check_accounts(accts: &Vec<Account>, dists: &Vec<DistributionCheckpoint>) -> (r: bool)
    ensures
        r == accounts_wf(accts@, dists@),
{
    let n = accts.len();
    let m = dists.len();
    let mut i: usize = 0;
    while i < n
        invariant
            n == accts@.len(),
            m == dists@.len(),
            0 <= i <= n,
            forall|k: int| 0 <= k < i ==> #[trigger] account_wf(accts@[k], dists@),
            forall|x: int, y: int|
                0 <= x < i && 0 <= y < i && x != y ==> #[trigger] accts@[x].id != #[trigger] accts@[y].id,
        decreases n - i,
    {
        let a = accts[i];
        if a.balance < 0 || a.rent < 0 || a.capital < 0 || a.other < 0 || a.checkpoint > m {
            proof {
                assert(!account_wf(accts@[i as int], dists@));
            }
            return false;
        }
        let mut d = a.checkpoint;
        while d < m
            invariant
                m == dists@.len(),
                n == accts@.len(),
                i < n,
                a == accts@[i as int],
                a.checkpoint <= d <= m,
                forall|e: int| a.checkpoint <= e < d ==> a.balance <= #[trigger] dists@[e].total_shares,
            decreases m - d,
        {
            if a.balance > dists[d].total_shares {
                proof {
                    assert(!account_wf(accts@[i as int], dists@));
                }
                return false;
            }
            d = d + 1;
        }
        let mut j: usize = 0;
        while j < i
            invariant
                n == accts@.len(),
                0 <= j <= i < n,
                a == accts@[i as int],
                forall|k: int| 0 <= k < j ==> accts@[k].id != a.id,
            decreases i - j,
        {
            if accts[j].id == a.id {
                proof {
                    assert(accts@[j as int].id == accts@[i as int].id);
                }
                return false;
            }
            j = j + 1;
        }
        proof {
            assert forall|x: int, y: int|
                0 <= x < i + 1 && 0 <= y < i + 1 && x != y implies #[trigger] accts@[x].id != #[trigger] accts@[y].id by {
                if x == i {
                    assert(accts@[y].id != a.id);
                } else if y == i {
                    assert(accts@[x].id != a.id);
                }
            }
        }
        i = i + 1;
    }
    true
}

/// The total of all balances, if it fits.
pub fn total_balance(accts: &Vec<Account>, dists: &Vec<DistributionCheckpoint>) -> (r: Option<i128>)
    requires
        accounts_wf(accts@, dists@),
    ensures
        match r {
            Some(t) => t == sum(balances(accts@)),
            None => sum(balances(accts@)) > i128::MAX,
        },
{
    let n = accts.len();
    let ghost bs = balances(accts@);
    proof {
        assert forall|k: int| 0 <= k < bs.len() implies bs[k] >= 0 by {
            assert(account_wf(accts@[k], dists@));
        }
    }
    let mut total: i128 = 0;
    let mut i: usize = 0;
    while i < n
        invariant
            n == accts@.len(),
            bs == balances(accts@),
            all_nonneg(bs),
            0 <= i <= n,
            total == sum(bs.subrange(0, i as int)),
        decreases n - i,
    {
        let b = accts[i].balance;
        proof {
            lemma_prefix_sum_step(bs, i as int);
            lemma_prefix_sum_le(bs, i as int);
        }
        if b > i128::MAX - total {
            proof {
                lemma_prefix_sum_le(bs, i + 1);
            }
            return None;
        }
        total = total + b;
        i = i + 1;
    }
    proof {
        assert(bs.subrange(0, n as int) =~= bs);
    }
    Some(total)
}

/// The number of accounts with a positive balance.
pub fn count_holders(accts: &Vec<Account>) -> (r: usize)
    ensures
        r == sum(holder_flags(accts@)),
{
    let n = accts.len();
    let ghost fs = holder_flags(accts@);
    let mut count: usize = 0;
    let mut i: usize = 0;
    while i < n
        invariant
            n == accts@.len(),
            fs == holder_flags(accts@),
            0 <= i <= n,
            count == sum(fs.subrange(0, i as int)),
            count <= i,
        decreases n - i,
    {
        proof {
            lemma_prefix_sum_step(fs, i as int);
        }
        if accts[i].balance > 0 {
            count = count + 1;
        }
        i = i + 1;
    }
    proof {
        assert(fs.subrange(0, n as int) =~= fs);
    }
    count
}

/// Whether everything the accounts are owed adds up to at most `cap`.
pub fn owed_within(accts: &Vec<Account>, dists: &Vec<DistributionCheckpoint>, cap: i128) -> (r: bool)
    requires
        journal_wf(dists@),
        accounts_wf(accts@, dists@),
        cap >= 0,
    ensures
        r == (sum(owed_all(accts@, dists@)) <= cap),
{
    let n = accts.len();
    let m = dists.len();
    let ghost os = owed_all(accts@, dists@);
    proof {
        assert forall|k: int| 0 <= k < os.len() implies os[k] >= 0 by {
            assert(account_wf(accts@[k], dists@));
            lemma_owed_nonneg(accts@[k], dists@);
        }
    }
    let mut total: i128 = 0;
    let mut i: usize = 0;
    while i < n
        invariant
            n == accts@.len(),
            m == dists@.len(),
            journal_wf(dists@),
            accounts_wf(accts@, dists@),
            os == owed_all(accts@, dists@),
            all_nonneg(os),
            0 <= i <= n,
            0 <= total <= cap,
            total == sum(os.subrange(0, i as int)),
        decreases n - i,
    {
        let a = accts[i];
        let ghost b = a.balance as int;
        let ghost cp = a.checkpoint as int;
        let ghost base = total as int;
        proof {
            assert(account_wf(a, dists@));
            lemma_unsettled_split(dists@, b, cp, m as int);
            lemma_unsettled_all_nonneg(dists@, b, cp, m as int);
            lemma_prefix_sum_step(os, i as int);
            lemma_prefix_sum_le(os, i + 1);
        }
        // settled parts
        if a.rent > cap - total {
            return false;
        }
        total = total + a.rent;
        if a.capital > cap - total {
            return false;
        }
        total = total + a.capital;
        if a.other > cap - total {
            return false;
        }
        total = total + a.other;
        let mut d = a.checkpoint;
        while d < m
            invariant
                m == dists@.len(),
                n == accts@.len(),
                i < n,
                os == owed_all(accts@, dists@),
                journal_wf(dists@),
                account_wf(a, dists@),
                a == accts@[i as int],
                b == a.balance,
                cp == a.checkpoint,
                cp <= d <= m,
                0 <= total <= cap,
                total == base + a.rent + a.capital + a.other + unsettled_all(dists@, b, cp, d as int),
                base + owed(a, dists@) == sum(os.subrange(0, i + 1)),
                owed(a, dists@) == a.rent + a.capital + a.other + unsettled_all(dists@, b, cp, m as int),
                sum(os.subrange(0, i + 1)) <= sum(os),
            decreases m - d,
        {
            let c = dists[d];
            proof {
                assert(checkpoint_wf(dists@, d as int));
                lemma_allocation_bounded(c.amount as int, c.total_shares as int);
                lemma_share_numerator_bounded(b, c.per_share_scaled as int, c.total_shares as int, c.amount as int);
                lemma_unsettled_all_monotone(dists@, b, cp, d + 1, m as int);
            }
            let s = compute_share(a.balance, c.per_share_scaled);
            if s > cap - total {
                return false;
            }
            total = total + s;
            d = d + 1;
        }
        i = i + 1;
    }
    proof {
        assert(os.subrange(0, n as int) =~= os);
    }
    true
}

/// Owed amounts of all types are non-negative and grow with the range.
pub proof fn lemma_unsettled_all_monotone(dists: Seq<DistributionCheckpoint>, balance: int, from: int, mid: int, to: int)
    requires
        balance >= 0,
        0 <= from <= mid <= to <= dists.len(),
        journal_wf(dists),
    ensures
        0 <= unsettled_all(dists, balance, from, mid) <= unsettled_all(dists, balance, from, to),
    decreases to - mid,
{
    if to > mid {
        lemma_unsettled_all_monotone(dists, balance, from, mid, to - 1);
        let c = dists[to - 1];
        assert(checkpoint_wf(dists, to - 1));
        lemma_allocation_bounded(c.amount as int, c.total_shares as int);
        lemma_share_monotone(0, balance, c.per_share_scaled as int);
    } else {
        lemma_unsettled_all_nonneg(dists, balance, from, mid);
    }
}

pub proof fn lemma_unsettled_all_nonneg(dists: Seq<DistributionCheckpoint>, balance: int, from: int, to: int)
    requires
        balance >= 0,
        0 <= from,
        to <= dists.len(),
        journal_wf(dists),
    ensures
        unsettled_all(dists, balance, from, to) >= 0,
    decreases to - from,
{
    if to > from {
        lemma_unsettled_all_nonneg(dists, balance, from, to - 1);
        let c = dists[to - 1];
        assert(checkpoint_wf(dists, to - 1));
        lemma_allocation_bounded(c.amount as int, c.total_shares as int);
        lemma_share_monotone(0, balance, c.per_share_scaled as int);
    }
}

} // verus!
