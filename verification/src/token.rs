//! The property token: a share ledger with KYC- and compliance-gated transfers and
//! checkpointed, typed dividend accounting.
//!
//! The token does not call the KYC registry or the compliance engine itself: the
//! caller asks them and hands their answers in (`KycStatus`, `compliance_ok`), and
//! the caller authenticates the acting address before handing it in.

use vstd::prelude::*;

use crate::distribution::{
    cum_all, cum_type, event_of, journal_wf, type_of_code, type_share, DistributionCheckpoint, DistributionType,
    DividendEvent, CAPITAL_CODE, OTHER_CODE, RENT_CODE,
};
use crate::allowance::{find_allowance, lemma_find_allowance_bounds, lemma_find_allowance_update, Allowance};
use crate::fixed_point::{
    allocated_of, compute_share, lemma_allocation_bounded, lemma_audit_bounds, lemma_scale_fits, lemma_share_monotone,
    lemma_share_numerator_bounded, per_share_scaled_of, SCALE,
};
use crate::distribution::{checkpoint_wf, lemma_unsettled_monotone, unsettled};
use crate::ledger::{
    account_wf, accounts_wf, balances, empty_holding, find_index, holder_flag, holder_flags, holding_from,
    holding_in, lemma_accounts_after_deposit, lemma_find_index_bounds, lemma_find_index_unique, lemma_owed_all_nonneg, lemma_owed_nonneg,
    lemma_push_account, lemma_update_account, owed, owed_all, Account, Holding,
};
use crate::meta::{is_blank, is_valid_property_type, meta_check, MetaError, PropertyMeta};
use crate::sums::{lemma_elem_le_sum, lemma_sum_nonneg, lemma_sum_of_shares, sum};

verus! {

/// Most accounts the ledger keeps (holder counts are reported as `u32`).
pub const MAX_ACCOUNTS: usize = 4_294_967_295;

/// Version of the dividend accounting scheme.
pub const DIVIDEND_ACCOUNTING_VERSION: u32 = 1;

/// What the KYC registry reports of an address.
#[derive(Clone, Copy, Debug, PartialEq, Eq, Structural)]
pub struct KycStatus {
    /// The address has an active (approved, unrevoked) verification.
    pub approved: bool,
    /// Its verification tier.
    pub tier: u32,
}

/// Why an operation was refused.
#[derive(Clone, Copy, Debug, PartialEq, Eq, Structural)]
pub enum TokenError {
    AlreadyInitialized,
    Unauthorized,
    InvalidMeta(MetaError),
    InvalidAmount,
    InvalidExpiration,
    InvalidDistributionType,
    InsufficientBalance,
    InsufficientAllowance,
    KycNotApproved,
    KycTierTooLow,
    ComplianceRejected,
    ExceedsTotalShares,
    NoShares,
    AccountLimit,
    Overflow,
}

/// A holder's unclaimed dividends, by type.
#[derive(Clone, Copy, Debug, PartialEq, Eq, Structural)]
pub struct UnclaimedBalance {
    pub total: i128,
    pub rent: i128,
    pub capital: i128,
    pub other: i128,
    /// Number of distributions recorded so far.
    pub distribution_count: u32,
}

/// The token's state.
pub struct PropertyToken {
    admin: u64,
    kyc_registry: u64,
    compliance_engine: u64,
    meta: PropertyMeta,
    accounts: Vec<Account>,
    allowances: Vec<Allowance>,
    distributions: Vec<DistributionCheckpoint>,
    circulating: i128,
    holder_count: u32,
    dividend_pool: i128,
    dust_reserve: i128,
}

/// The token's state as plain values, as kept in storage between invocations.
pub struct TokenParts {
    pub admin: u64,
    pub kyc_registry: u64,
    pub compliance_engine: u64,
    pub meta: PropertyMeta,
    pub accounts: Vec<Account>,
    pub allowances: Vec<Allowance>,
    pub distributions: Vec<DistributionCheckpoint>,
    pub circulating: i128,
    pub holder_count: u32,
    pub dividend_pool: i128,
    pub dust_reserve: i128,
}

/// Two stored states hold the same values.
pub open spec fn parts_match(p: TokenParts, q: TokenParts) -> bool {
    &&& p.admin == q.admin
    &&& p.kyc_registry == q.kyc_registry
    &&& p.compliance_engine == q.compliance_engine
    &&& p.meta == q.meta
    &&& p.accounts@ == q.accounts@
    &&& p.allowances@ == q.allowances@
    &&& p.distributions@ == q.distributions@
    &&& p.circulating == q.circulating
    &&& p.holder_count == q.holder_count
    &&& p.dividend_pool == q.dividend_pool
    &&& p.dust_reserve == q.dust_reserve
}

/// The facts a stored state must satisfy to be a token's state.
pub open spec fn parts_wf(p: TokenParts) -> bool {
    let accts = p.accounts@;
    let dists = p.distributions@;
    &&& journal_wf(dists)
    &&& accounts_wf(accts, dists)
    &&& accts.len() <= MAX_ACCOUNTS
    &&& p.meta.total_shares >= 0
    &&& p.circulating == sum(balances(accts))
    &&& p.circulating <= p.meta.total_shares
    &&& p.holder_count == sum(holder_flags(accts))
    &&& p.dust_reserve >= 0
    &&& p.dividend_pool >= p.dust_reserve + sum(owed_all(accts, dists))
    &&& forall|k: int| 0 <= k < p.allowances@.len() ==> #[trigger] p.allowances@[k].amount >= 0
}

/// The entries `start..start + limit` of a sequence (fewer at its end).
pub open spec fn page<T>(s: Seq<T>, start: int, limit: int) -> Seq<T> {
    if start >= s.len() {
        Seq::empty()
    } else if start + limit >= s.len() {
        s.subrange(start, s.len() as int)
    } else {
        s.subrange(start, start + limit)
    }
}

impl PropertyToken {
    // ----- the abstract state -----

    pub closed spec fn admin_id(self) -> u64 {
        self.admin
    }

    pub closed spec fn kyc_registry_id(self) -> u64 {
        self.kyc_registry
    }

    pub closed spec fn compliance_engine_id(self) -> u64 {
        self.compliance_engine
    }

    pub closed spec fn meta_view(self) -> PropertyMeta {
        self.meta
    }

    /// The distribution journal.
    pub closed spec fn journal(self) -> Seq<DistributionCheckpoint> {
        self.distributions@
    }

    /// Funds deposited as dividends and not yet paid out or collected as dust.
    pub closed spec fn pool(self) -> int {
        self.dividend_pool as int
    }

    /// Rounding remainders of distributions, not allocated to any holder.
    pub closed spec fn dust(self) -> int {
        self.dust_reserve as int
    }

    /// Shares held by all addresses together.
    pub closed spec fn circulating_supply(self) -> int {
        self.circulating as int
    }

    /// Number of addresses holding shares, as kept by the token.
    pub closed spec fn holder_total(self) -> int {
        self.holder_count as int
    }

    /// What `id` holds, dividends counted up to the end of the journal.
    pub closed spec fn holding_of(self, id: u64) -> Holding {
        holding_in(self.accounts@, self.distributions@, id)
    }

    /// The ledger keeps an account for `id`.
    pub closed spec fn has_account(self, id: u64) -> bool {
        find_index(self.accounts@, id) >= 0
    }

    /// Number of accounts the ledger keeps.
    pub closed spec fn account_count(self) -> int {
        self.accounts@.len() as int
    }

    /// When the current holding period of `id` began, while it holds shares.
    pub closed spec fn since_of(self, id: u64) -> Option<u64> {
        let i = find_index(self.accounts@, id);
        if i >= 0 && self.accounts@[i].balance > 0 {
            Some(self.accounts@[i].holding_since)
        } else {
            None
        }
    }

    /// The journal position up to which the dividends of `id` were settled into its account.
    pub closed spec fn settled_through(self, id: u64) -> int {
        let i = find_index(self.accounts@, id);
        if i >= 0 {
            self.accounts@[i].checkpoint as int
        } else {
            0
        }
    }

    /// The allowance records.
    pub closed spec fn allowance_list(self) -> Seq<Allowance> {
        self.allowances@
    }

    /// What `spender` may move of `owner`'s shares at ledger `ledger`.
    pub open spec fn allowance_at(self, owner: u64, spender: u64, ledger: u32) -> int {
        let i = find_allowance(self.allowance_list(), owner, spender);
        if i >= 0 && ledger <= self.allowance_list()[i].expiration_ledger {
            self.allowance_list()[i].amount as int
        } else {
            0
        }
    }

    // ----- the invariant -----

    pub closed spec fn wf(self) -> bool {
        let accts = self.accounts@;
        let dists = self.distributions@;
        &&& journal_wf(dists)
        &&& accounts_wf(accts, dists)
        &&& accts.len() <= MAX_ACCOUNTS
        &&& self.meta.total_shares >= 0
        &&& self.circulating == sum(balances(accts))
        &&& self.circulating <= self.meta.total_shares
        &&& self.holder_count == sum(holder_flags(accts))
        &&& self.dust_reserve >= 0
        &&& self.dividend_pool >= self.dust_reserve + sum(owed_all(accts, dists))
        &&& forall|k: int| 0 <= k < self.allowances@.len() ==> #[trigger] self.allowances@[k].amount >= 0
    }

    /// Everything but the accounts is as in `other`.
    pub open spec fn same_except_accounts(self, other: Self) -> bool {
        &&& self.admin_id() == other.admin_id()
        &&& self.kyc_registry_id() == other.kyc_registry_id()
        &&& self.compliance_engine_id() == other.compliance_engine_id()
        &&& self.meta_view() == other.meta_view()
        &&& self.journal() == other.journal()
        &&& self.pool() == other.pool()
        &&& self.dust() == other.dust()
        &&& self.allowance_list() == other.allowance_list()
    }

    /// Every address holds what it held in `other`.
    pub open spec fn same_holdings(self, other: Self) -> bool {
        &&& forall|id: u64| #[trigger] self.holding_of(id) == other.holding_of(id)
        &&& forall|id: u64| #[trigger] self.since_of(id) == other.since_of(id)
        &&& self.circulating_supply() == other.circulating_supply()
        &&& self.holder_total() == other.holder_total()
    }

    // ----- internal steps -----

    proof fn lemma_wf_facts(&self)
        requires
            self.wf(),
        ensures
            forall|id: u64|
                #![trigger self.holding_of(id)]
                self.holding_of(id).balance >= 0 && self.holding_of(id).rent >= 0 && self.holding_of(id).capital
                    >= 0 && self.holding_of(id).other >= 0 && self.holding_of(id).balance
                    <= self.circulating_supply() && self.holding_of(id).rent + self.holding_of(id).capital
                    + self.holding_of(id).other <= self.pool() - self.dust(),
            0 <= self.circulating_supply() <= self.meta_view().total_shares,
            0 <= self.dust() <= self.pool(),
            0 <= self.holder_total() <= self.account_count() <= MAX_ACCOUNTS,
    {
        let accts = self.accounts@;
        let dists = self.distributions@;
        lemma_owed_all_nonneg(accts, dists);
        lemma_sum_nonneg(owed_all(accts, dists));
        lemma_sum_nonneg(balances(accts));
        lemma_sum_nonneg(holder_flags(accts));
        crate::sums::lemma_sum_le_pointwise(holder_flags(accts), Seq::new(accts.len(), |i: int| 1int));
        crate::sums::lemma_sum_of_ones(accts.len() as int);
        assert forall|id: u64|
            #![trigger self.holding_of(id)]
            self.holding_of(id).balance >= 0 && self.holding_of(id).rent >= 0 && self.holding_of(id).capital >= 0
                && self.holding_of(id).other >= 0 && self.holding_of(id).balance <= self.circulating_supply()
                && self.holding_of(id).rent + self.holding_of(id).capital + self.holding_of(id).other
                <= self.pool() - self.dust() by {
            lemma_find_index_bounds(accts, id);
            let i = find_index(accts, id);
            if i >= 0 {
                assert(account_wf(accts[i], dists));
                lemma_owed_nonneg(accts[i], dists);
                lemma_elem_le_sum(owed_all(accts, dists), i);
                lemma_elem_le_sum(balances(accts), i);
            }
        }
    }

    /// Finds the account of `id`.
    fn find_account(&self, id: u64) -> (r: Option<usize>)
        requires
            self.wf(),
        ensures
            match r {
                Some(i) => i == find_index(self.accounts@, id) && i < self.accounts@.len(),
                None => find_index(self.accounts@, id) < 0,
            },
    {
        let n = self.accounts.len();
        let mut i: usize = 0;
        while i < n
            invariant
                self.wf(),
                n == self.accounts@.len(),
                0 <= i <= n,
                forall|j: int| 0 <= j < i ==> self.accounts@[j].id != id,
            decreases n - i,
        {
            if self.accounts[i].id == id {
                proof {
                    lemma_find_index_unique(self.accounts@, i as int);
                }
                return Some(i);
            }
            i = i + 1;
        }
        proof {
            lemma_find_index_bounds(self.accounts@, id);
        }
        None
    }

    /// The dividends account `i` is owed, by type, counted up to the end of the journal.
    fn compute_holding(&self, i: usize) -> (r: (i128, i128, i128))
        requires
            self.wf(),
            i < self.accounts@.len(),
        ensures
            r.0 == holding_from(self.accounts@[i as int], self.distributions@).rent,
            r.1 == holding_from(self.accounts@[i as int], self.distributions@).capital,
            r.2 == holding_from(self.accounts@[i as int], self.distributions@).other,
    {
        let ghost accts = self.accounts@;
        let ghost dists = self.distributions@;
        let a = self.accounts[i];
        let n = self.distributions.len();
        let ghost b = a.balance as int;
        let ghost cp = a.checkpoint as int;
        let ghost h = holding_from(a, dists);
        proof {
            assert(account_wf(a, dists));
            lemma_owed_all_nonneg(accts, dists);
            lemma_owed_nonneg(a, dists);
            lemma_elem_le_sum(owed_all(accts, dists), i as int);
        }
        let mut rent = a.rent;
        let mut capital = a.capital;
        let mut other = a.other;
        let mut d = a.checkpoint;
        while d < n
            invariant
                dists == self.distributions@,
                n == dists.len(),
                journal_wf(dists),
                account_wf(a, dists),
                b == a.balance,
                cp == a.checkpoint,
                h == holding_from(a, dists),
                h.rent <= i128::MAX,
                h.capital <= i128::MAX,
                h.other <= i128::MAX,
                cp <= d <= n,
                rent == a.rent + unsettled(dists, b, cp, d as int, RENT_CODE),
                capital == a.capital + unsettled(dists, b, cp, d as int, CAPITAL_CODE),
                other == a.other + unsettled(dists, b, cp, d as int, OTHER_CODE),
            decreases n - d,
        {
            let c = self.distributions[d];
            proof {
                assert(checkpoint_wf(dists, d as int));
                lemma_allocation_bounded(c.amount as int, c.total_shares as int);
                lemma_share_numerator_bounded(b, c.per_share_scaled as int, c.total_shares as int, c.amount as int);
                lemma_unsettled_monotone(dists, b, cp, d + 1, n as int, RENT_CODE);
                lemma_unsettled_monotone(dists, b, cp, d + 1, n as int, CAPITAL_CODE);
                lemma_unsettled_monotone(dists, b, cp, d + 1, n as int, OTHER_CODE);
            }
            let s = compute_share(a.balance, c.per_share_scaled);
            if c.distribution_type == RENT_CODE {
                rent = rent + s;
            } else if c.distribution_type == CAPITAL_CODE {
                capital = capital + s;
            } else {
                other = other + s;
            }
            d = d + 1;
        }
        (rent, capital, other)
    }

    /// Settles the journal entries not yet counted into account `i`.
    fn settle(&mut self, i: usize)
        requires
            old(self).wf(),
            i < old(self).accounts@.len(),
        ensures
            final(self).wf(),
            final(self).same_except_accounts(*old(self)),
            final(self).same_holdings(*old(self)),
            final(self).accounts@.len() == old(self).accounts@.len(),
            final(self).accounts@[i as int].checkpoint == old(self).distributions@.len(),
            final(self).accounts@[i as int].balance == old(self).accounts@[i as int].balance,
            final(self).accounts@[i as int].id == old(self).accounts@[i as int].id,
            final(self).accounts@[i as int].holding_since == old(self).accounts@[i as int].holding_since,
            final(self).accounts@[i as int].rent == holding_from(old(self).accounts@[i as int], old(self).distributions@).rent,
            final(self).accounts@[i as int].capital == holding_from(old(self).accounts@[i as int], old(self).distributions@).capital,
            final(self).accounts@[i as int].other == holding_from(old(self).accounts@[i as int], old(self).distributions@).other,
            forall|j: int| 0 <= j < old(self).accounts@.len() && j != i ==> final(self).accounts@[j] == old(self).accounts@[j],
            forall|id: u64| find_index(final(self).accounts@, id) == find_index(old(self).accounts@, id),
    {
        let ghost accts = self.accounts@;
        let ghost dists = self.distributions@;
        let a = self.accounts[i];
        let (rent, capital, other) = self.compute_holding(i);
        let n = self.distributions.len();
        let settled = Account { rent, capital, other, checkpoint: n, ..a };
        proof {
            assert(account_wf(a, dists));
            lemma_owed_nonneg(a, dists);
            assert(holding_from(settled, dists) == holding_from(a, dists));
            lemma_update_account(accts, dists, i as int, settled);
        }
        self.accounts[i] = settled;
        proof {
            assert(self.accounts@ == accts.update(i as int, settled));
            assert forall|id: u64| #[trigger] self.holding_of(id) == old(self).holding_of(id) by {
                let k = find_index(accts, id);
                lemma_find_index_bounds(accts, id);
                if k == i {
                } else if k >= 0 {
                    assert(self.accounts@[k] == accts[k]);
                }
            }
            assert forall|id: u64| #[trigger] self.since_of(id) == old(self).since_of(id) by {
                let k = find_index(accts, id);
                lemma_find_index_bounds(accts, id);
            }
        }
    }

    /// The account of `id`, created empty if the ledger has none.
    fn ensure_account(&mut self, id: u64, now: u64) -> (r: Result<usize, TokenError>)
        requires
            old(self).wf(),
        ensures
            final(self).wf(),
            final(self).same_except_accounts(*old(self)),
            final(self).same_holdings(*old(self)),
            match r {
                Ok(i) => {
                    &&& i < final(self).accounts@.len()
                    &&& i == find_index(final(self).accounts@, id)
                    &&& old(self).has_account(id) ==> final(self).accounts@ == old(self).accounts@
                    &&& !old(self).has_account(id) ==> final(self).accounts@ == old(self).accounts@.push(
                        Account {
                            id,
                            balance: 0,
                            rent: 0,
                            capital: 0,
                            other: 0,
                            checkpoint: old(self).distributions@.len() as usize,
                            holding_since: now,
                        },
                    )
                    &&& forall|x: u64| x != id ==> find_index(final(self).accounts@, x) == find_index(old(self).accounts@, x)
                },
                Err(e) => {
                    &&& e == TokenError::AccountLimit
                    &&& !old(self).has_account(id)
                    &&& old(self).accounts@.len() >= MAX_ACCOUNTS
                    &&& *final(self) == *old(self)
                },
            },
    {
        match self.find_account(id) {
            Some(i) => {
                proof {
                    lemma_find_index_bounds(self.accounts@, id);
                }
                Ok(i)
            },
            None => {
                if self.accounts.len() >= MAX_ACCOUNTS {
                    return Err(TokenError::AccountLimit);
                }
                let a = Account {
                    id,
                    balance: 0,
                    rent: 0,
                    capital: 0,
                    other: 0,
                    checkpoint: self.distributions.len(),
                    holding_since: now,
                };
                let ghost accts = self.accounts@;
                let ghost dists = self.distributions@;
                proof {
                    assert(holding_from(a, dists) == empty_holding());
                    lemma_push_account(accts, dists, a);
                }
                let i = self.accounts.len();
                self.accounts.push(a);
                proof {
                    assert forall|x: u64| #[trigger] self.holding_of(x) == old(self).holding_of(x) by {
                        lemma_find_index_bounds(accts, x);
                        if x != id {
                            let k = find_index(accts, x);
                            if k >= 0 {
                                assert(self.accounts@[k] == accts[k]);
                            }
                        }
                    }
                    assert forall|x: u64| #[trigger] self.since_of(x) == old(self).since_of(x) by {
                        lemma_find_index_bounds(accts, x);
                        if x != id {
                            let k = find_index(accts, x);
                            if k >= 0 {
                                assert(self.accounts@[k] == accts[k]);
                            }
                        }
                    }
                }
                Ok(i)
            },
        }
    }

    /// Sets the balance of the settled account `i`.
    fn set_balance(&mut self, i: usize, new_balance: i128, now: u64)
        requires
            old(self).wf(),
            i < old(self).accounts@.len(),
            old(self).accounts@[i as int].checkpoint == old(self).distributions@.len(),
            new_balance >= 0,
            old(self).circulating - old(self).accounts@[i as int].balance + new_balance <= old(self).meta.total_shares,
        ensures
            final(self).wf(),
            final(self).same_except_accounts(*old(self)),
            final(self).accounts@ == old(self).accounts@.update(
                i as int,
                Account {
                    balance: new_balance,
                    holding_since: if old(self).accounts@[i as int].balance == 0 && new_balance > 0 {
                        now
                    } else {
                        old(self).accounts@[i as int].holding_since
                    },
                    ..old(self).accounts@[i as int]
                },
            ),
            final(self).circulating_supply() == old(self).circulating_supply() - old(self).accounts@[i as int].balance
                + new_balance,
            final(self).holder_total() == old(self).holder_total() - holder_flag(old(self).accounts@[i as int])
                + (if new_balance > 0 { 1int } else { 0int }),
            forall|id: u64| find_index(final(self).accounts@, id) == find_index(old(self).accounts@, id),
            final(self).balance_set(*old(self), old(self).accounts@[i as int].id, new_balance as int, now),
    {
        let ghost accts = self.accounts@;
        let ghost dists = self.distributions@;
        let a = self.accounts[i];
        let since = if a.balance == 0 && new_balance > 0 { now } else { a.holding_since };
        let updated = Account { balance: new_balance, holding_since: since, ..a };
        proof {
            assert(account_wf(a, dists));
            lemma_owed_all_nonneg(accts, dists);
            lemma_elem_le_sum(balances(accts), i as int);
            lemma_elem_le_sum(holder_flags(accts), i as int);
            lemma_update_account(accts, dists, i as int, updated);
            assert(owed(updated, dists) == owed(a, dists));
            crate::sums::lemma_sum_le_pointwise(holder_flags(accts.update(i as int, updated)), Seq::new(accts.len(), |j: int| 1int));
            crate::sums::lemma_sum_of_ones(accts.len() as int);
        }
        let old_flag: u32 = if a.balance > 0 { 1 } else { 0 };
        let new_flag: u32 = if new_balance > 0 { 1 } else { 0 };
        self.accounts[i] = updated;
        self.circulating = self.circulating - a.balance + new_balance;
        self.holder_count = self.holder_count - old_flag + new_flag;
        proof {
            let id0 = a.id;
            lemma_find_index_unique(accts, i as int);
            assert(old(self).holding_of(id0) == holding_from(a, dists));
            assert(self.holding_of(id0) == holding_from(updated, dists));
            assert forall|id: u64| id != id0 implies #[trigger] self.holding_of(id) == old(self).holding_of(id) by {
                let k = find_index(accts, id);
                lemma_find_index_bounds(accts, id);
                if k >= 0 {
                    assert(k != i);
                    assert(self.accounts@[k] == accts[k]);
                }
            }
            assert forall|id: u64| id != id0 implies #[trigger] self.since_of(id) == old(self).since_of(id) by {
                let k = find_index(accts, id);
                lemma_find_index_bounds(accts, id);
                if k >= 0 {
                    assert(k != i);
                    assert(self.accounts@[k] == accts[k]);
                }
            }
            let h = old(self).holding_of(id0);
            assert(self.holding_of(id0) == Holding { balance: new_balance as int, rent: h.rent, capital: h.capital, other: h.other });
        }
    }

    /// `self` is `old` with the balance of `id` set to `new_balance` at `now`,
    /// nothing else of any holding changed.
    pub open spec fn balance_set(self, old: Self, id: u64, new_balance: int, now: u64) -> bool {
        let h = old.holding_of(id);
        &&& self.holding_of(id) == Holding { balance: new_balance, rent: h.rent, capital: h.capital, other: h.other }
        &&& forall|x: u64| x != id ==> #[trigger] self.holding_of(x) == old.holding_of(x)
        &&& self.since_of(id) == if new_balance > 0 {
            if h.balance == 0 {
                Some(now)
            } else {
                old.since_of(id)
            }
        } else {
            None
        }
        &&& forall|x: u64| x != id ==> #[trigger] self.since_of(x) == old.since_of(x)
        &&& self.circulating_supply() == old.circulating_supply() - h.balance + new_balance
        &&& self.holder_total() == old.holder_total() - (if h.balance > 0 { 1int } else { 0int }) + (if new_balance
            > 0 {
            1int
        } else {
            0int
        })
    }

    // ----- construction -----

    /// Creates the token for a property. The metadata must pass validation.
    pub fn new(admin: u64, kyc_registry: u64, compliance_engine: u64, meta: PropertyMeta) -> (r: Result<
        PropertyToken,
        TokenError,
    >)
        ensures
            match meta_check(meta) {
                Err(e) => r == Err::<PropertyToken, TokenError>(TokenError::InvalidMeta(e)),
                Ok(_) => r matches Ok(t) && {
                    &&& t.wf()
                    &&& t.admin_id() == admin
                    &&& t.kyc_registry_id() == kyc_registry
                    &&& t.compliance_engine_id() == compliance_engine
                    &&& t.meta_view() == meta
                    &&& t.journal() == Seq::<DistributionCheckpoint>::empty()
                    &&& t.pool() == 0
                    &&& t.dust() == 0
                    &&& t.circulating_supply() == 0
                    &&& t.holder_total() == 0
                    &&& t.account_count() == 0
                    &&& t.allowance_list() == Seq::<Allowance>::empty()
                    &&& forall|id: u64| #[trigger] t.holding_of(id) == empty_holding()
                    &&& forall|id: u64| #[trigger] t.since_of(id) == None::<u64>
                },
            },
    {
        match crate::meta::validate_meta(&meta) {
            Err(e) => Err(TokenError::InvalidMeta(e)),
            Ok(()) => {
                let t = PropertyToken {
                    admin,
                    kyc_registry,
                    compliance_engine,
                    meta,
                    accounts: Vec::new(),
                    allowances: Vec::new(),
                    distributions: Vec::new(),
                    circulating: 0,
                    holder_count: 0,
                    dividend_pool: 0,
                    dust_reserve: 0,
                };
                proof {
                    assert(balances(t.accounts@) =~= Seq::<int>::empty());
                    assert(holder_flags(t.accounts@) =~= Seq::<int>::empty());
                    assert(owed_all(t.accounts@, t.distributions@) =~= Seq::<int>::empty());
                }
                Ok(t)
            },
        }
    }

    // ----- queries -----

    /// Shares are indivisible.
    pub fn decimals(&self) -> (r: u32)
        ensures
            r == 0,
    {
        0
    }

    /// Version of the token's logic.
    pub fn version(&self) -> (r: &'static str)
        ensures
            r@ == "1.0.0"@,
    {
        "1.0.0"
    }

    /// Number of shares the property is divided into.
    pub fn total_shares(&self) -> (r: i128)
        ensures
            r == self.meta_view().total_shares,
    {
        self.meta.total_shares
    }

    pub fn get_meta(&self) -> (r: PropertyMeta)
        ensures
            r == self.meta_view(),
    {
        crate::meta::copy_meta(&self.meta)
    }

    pub fn admin(&self) -> (r: u64)
        ensures
            r == self.admin_id(),
    {
        self.admin
    }

    pub fn kyc_registry(&self) -> (r: u64)
        ensures
            r == self.kyc_registry_id(),
    {
        self.kyc_registry
    }

    pub fn compliance_engine(&self) -> (r: u64)
        ensures
            r == self.compliance_engine_id(),
    {
        self.compliance_engine
    }

    /// Shares held by `id`.
    pub fn balance(&self, id: u64) -> (r: i128)
        requires
            self.wf(),
        ensures
            r == self.holding_of(id).balance,
    {
        match self.find_account(id) {
            Some(i) => self.accounts[i].balance,
            None => 0,
        }
    }

    /// Whether `id` holds shares.
    pub fn is_holder(&self, id: u64) -> (r: bool)
        requires
            self.wf(),
        ensures
            r == (self.holding_of(id).balance > 0),
    {
        self.balance(id) > 0
    }

    /// Number of addresses holding shares.
    pub fn holder_count(&self) -> (r: u32)
        requires
            self.wf(),
        ensures
            r == self.holder_total(),
    {
        self.holder_count
    }

    /// When the current holding period of `id` began, if it holds shares.
    pub fn holding_since(&self, id: u64) -> (r: Option<u64>)
        requires
            self.wf(),
        ensures
            r == self.since_of(id),
    {
        match self.find_account(id) {
            Some(i) => if self.accounts[i].balance > 0 {
                Some(self.accounts[i].holding_since)
            } else {
                None
            },
            None => None,
        }
    }

    /// Shares held by all addresses together.
    pub fn shares_outstanding(&self) -> (r: i128)
        requires
            self.wf(),
        ensures
            r == self.circulating_supply(),
    {
        self.circulating
    }

    /// Dividend funds not yet paid out or collected as dust.
    pub fn dividend_pool(&self) -> (r: i128)
        ensures
            r == self.pool(),
    {
        self.dividend_pool
    }

    /// Rounding remainders not allocated to any holder.
    pub fn dust_reserve(&self) -> (r: i128)
        ensures
            r == self.dust(),
    {
        self.dust_reserve
    }

    /// Number of dividend deposits recorded.
    pub fn dividend_deposit_count(&self) -> (r: u32)
        requires
            self.wf(),
        ensures
            r == self.journal().len(),
    {
        self.distributions.len() as u32
    }

    /// Version of the dividend accounting scheme.
    pub fn dividend_accounting_version(&self) -> (r: u32)
        ensures
            r == DIVIDEND_ACCOUNTING_VERSION,
    {
        DIVIDEND_ACCOUNTING_VERSION
    }

    /// The checkpoint of deposit `id`.
    pub fn get_distribution(&self, id: u32) -> (r: Option<DistributionCheckpoint>)
        ensures
            r == if id < self.journal().len() {
                Some(self.journal()[id as int])
            } else {
                None::<DistributionCheckpoint>
            },
    {
        if (id as usize) < self.distributions.len() {
            Some(self.distributions[id as usize])
        } else {
            None
        }
    }

    /// The checkpoints `start..start + limit`.
    pub fn get_distributions(&self, start: u32, limit: u32) -> (r: Vec<DistributionCheckpoint>)
        ensures
            r@ == page(self.journal(), start as int, limit as int),
            r@.len() == (if start >= self.journal().len() {
                0
            } else if start + limit >= self.journal().len() {
                self.journal().len() - start
            } else {
                limit as int
            }),
            forall|k: int| 0 <= k < r@.len() ==> #[trigger] r@[k] == self.journal()[start + k],
    {
        let n = self.distributions.len();
        let mut out: Vec<DistributionCheckpoint> = Vec::new();
        let first = start as usize;
        if first >= n {
            return out;
        }
        let end = if (limit as usize) >= n - first { n } else { first + limit as usize };
        let mut k = first;
        while k < end
            invariant
                first <= k <= end <= n,
                n == self.distributions@.len(),
                out@ == self.distributions@.subrange(first as int, k as int),
            decreases end - k,
        {
            out.push(self.distributions[k]);
            k = k + 1;
        }
        out
    }

    /// The dividend history entries `start..start + limit`.
    pub fn get_dividend_history(&self, start: u32, limit: u32) -> (r: Vec<DividendEvent>)
        ensures
            r@ == page(self.journal(), start as int, limit as int).map_values(|c: DistributionCheckpoint| event_of(c)),
            r@.len() == page(self.journal(), start as int, limit as int).len(),
            forall|k: int| 0 <= k < r@.len() ==> #[trigger] r@[k] == event_of(self.journal()[start + k]),
            forall|k: int|
                0 <= k < r@.len() ==> {
                    &&& #[trigger] r@[k].amount == self.journal()[start + k].amount
                    &&& r@[k].distribution_type == self.journal()[start + k].distribution_type
                    &&& r@[k].running_total_dps == self.journal()[start + k].cumulative_per_share
                    &&& r@[k].timestamp == self.journal()[start + k].timestamp
                },
    {
        let page_of = self.get_distributions(start, limit);
        let mut out: Vec<DividendEvent> = Vec::new();
        let mut k: usize = 0;
        while k < page_of.len()
            invariant
                0 <= k <= page_of@.len(),
                out@ == page_of@.subrange(0, k as int).map_values(|c: DistributionCheckpoint| event_of(c)),
            decreases page_of@.len() - k,
        {
            let e = crate::distribution::event_from(&page_of[k]);
            out.push(e);
            proof {
                assert(page_of@.subrange(0, k + 1).map_values(|c: DistributionCheckpoint| event_of(c)) =~= page_of@.subrange(
                    0,
                    k as int,
                ).map_values(|c: DistributionCheckpoint| event_of(c)).push(e));
            }
            k = k + 1;
        }
        proof {
            assert(page_of@.subrange(0, page_of@.len() as int) =~= page_of@);
        }
        out
    }

    /// All dividends `id` can claim.
    pub fn pending_dividend(&self, id: u64) -> (r: i128)
        requires
            self.wf(),
        ensures
            r == crate::ledger::unclaimed_total(self.holding_of(id)),
    {
        let u = self.unclaimed_balance(id);
        u.total
    }

    /// The dividends `id` can claim, by type.
    pub fn unclaimed_balance(&self, id: u64) -> (r: UnclaimedBalance)
        requires
            self.wf(),
        ensures
            r.rent == self.holding_of(id).rent,
            r.capital == self.holding_of(id).capital,
            r.other == self.holding_of(id).other,
            r.total == crate::ledger::unclaimed_total(self.holding_of(id)),
            r.distribution_count == self.journal().len(),
    {
        proof {
            self.lemma_wf_facts();
            assert(self.holding_of(id) == self.holding_of(id));
        }
        let count = self.distributions.len() as u32;
        match self.find_account(id) {
            Some(i) => {
                let (rent, capital, other) = self.compute_holding(i);
                proof {
                    assert(self.holding_of(id) == holding_from(self.accounts@[i as int], self.distributions@));
                }
                UnclaimedBalance { total: rent + capital + other, rent, capital, other, distribution_count: count }
            },
            None => UnclaimedBalance { total: 0, rent: 0, capital: 0, other: 0, distribution_count: count },
        }
    }

    /// The journal position up to which the dividends of `id` are settled.
    pub fn settled_checkpoint(&self, id: u64) -> (r: u32)
        requires
            self.wf(),
        ensures
            r == self.settled_through(id),
    {
        match self.find_account(id) {
            Some(i) => {
                proof {
                    assert(account_wf(self.accounts@[i as int], self.distributions@));
                }
                self.accounts[i].checkpoint as u32
            },
            None => 0,
        }
    }

    /// What `spender` may move of `owner`'s shares at ledger `ledger`.
    pub fn allowance(&self, owner: u64, spender: u64, ledger: u32) -> (r: i128)
        requires
            self.wf(),
        ensures
            r == self.allowance_at(owner, spender, ledger),
    {
        match self.find_allowance_index(owner, spender) {
            Some(k) => if ledger <= self.allowances[k].expiration_ledger {
                self.allowances[k].amount
            } else {
                0
            },
            None => 0,
        }
    }

    fn find_allowance_index(&self, owner: u64, spender: u64) -> (r: Option<usize>)
        ensures
            match r {
                Some(k) => k == find_allowance(self.allowances@, owner, spender) && k < self.allowances@.len(),
                None => find_allowance(self.allowances@, owner, spender) < 0,
            },
    {
        let n = self.allowances.len();
        let mut k = n;
        proof {
            assert(self.allowances@.subrange(0, n as int) =~= self.allowances@);
        }
        while k > 0
            invariant
                k <= n,
                n == self.allowances@.len(),
                find_allowance(self.allowances@, owner, spender) == find_allowance(
                    self.allowances@.subrange(0, k as int),
                    owner,
                    spender,
                ),
            decreases k,
        {
            let a = self.allowances[k - 1];
            proof {
                let sub = self.allowances@.subrange(0, k as int);
                assert(sub.drop_last() =~= self.allowances@.subrange(0, k - 1));
            }
            if a.owner == owner && a.spender == spender {
                return Some(k - 1);
            }
            k = k - 1;
        }
        None
    }

    // ----- effects, as relations between the state before and after -----

    /// Configuration (admin, registry, engine, metadata) is as in `other`.
    pub open spec fn same_config(self, other: Self) -> bool {
        &&& self.admin_id() == other.admin_id()
        &&& self.kyc_registry_id() == other.kyc_registry_id()
        &&& self.compliance_engine_id() == other.compliance_engine_id()
        &&& self.meta_view() == other.meta_view()
    }

    /// Holdings, journal, dividend funds and allowances are as in `other`.
    pub open spec fn same_ledger(self, other: Self) -> bool {
        &&& self.same_holdings(other)
        &&& self.journal() == other.journal()
        &&& self.pool() == other.pool()
        &&& self.dust() == other.dust()
        &&& self.allowance_list() == other.allowance_list()
    }

    /// `self` is `old` after `holder` claimed the selected kinds of dividends,
    /// receiving `paid`.
    pub open spec fn claimed(self, old: Self, holder: u64, rent: bool, capital: bool, other: bool, paid: int) -> bool {
        let h = old.holding_of(holder);
        &&& paid == (if rent { h.rent } else { 0 }) + (if capital { h.capital } else { 0 }) + (if other {
            h.other
        } else {
            0
        })
        &&& self.holding_of(holder) == Holding {
            balance: h.balance,
            rent: if rent { 0 } else { h.rent },
            capital: if capital { 0 } else { h.capital },
            other: if other { 0 } else { h.other },
        }
        &&& forall|id: u64| id != holder ==> #[trigger] self.holding_of(id) == old.holding_of(id)
        &&& forall|id: u64| #[trigger] self.since_of(id) == old.since_of(id)
        &&& self.circulating_supply() == old.circulating_supply()
        &&& self.holder_total() == old.holder_total()
        &&& self.same_config(old)
        &&& self.journal() == old.journal()
        &&& self.dust() == old.dust()
        &&& self.allowance_list() == old.allowance_list()
        &&& self.pool() == old.pool() - paid
    }

    // ----- claims -----

    fn claim_kinds(&mut self, holder: u64, rent: bool, capital: bool, other: bool) -> (r: i128)
        requires
            old(self).wf(),
        ensures
            final(self).wf(),
            final(self).claimed(*old(self), holder, rent, capital, other, r as int),
    {
        proof {
            self.lemma_wf_facts();
            assert(self.holding_of(holder) == self.holding_of(holder));
        }
        match self.find_account(holder) {
            None => {
                proof {
                    assert(self.holding_of(holder) == empty_holding());
                }
                0
            },
            Some(i) => {
                self.settle(i);
                let ghost accts = self.accounts@;
                let ghost dists = self.distributions@;
                let a = self.accounts[i];
                proof {
                    assert(self.holding_of(holder) == holding_from(a, dists));
                    assert(account_wf(a, dists));
                    lemma_find_index_bounds(accts, holder);
                }
                let paid_rent = if rent { a.rent } else { 0 };
                let paid_capital = if capital { a.capital } else { 0 };
                let paid_other = if other { a.other } else { 0 };
                let paid = paid_rent + paid_capital + paid_other;
                let after = Account {
                    rent: a.rent - paid_rent,
                    capital: a.capital - paid_capital,
                    other: a.other - paid_other,
                    ..a
                };
                proof {
                    lemma_update_account(accts, dists, i as int, after);
                    assert(owed(after, dists) == owed(a, dists) - paid);
                }
                self.accounts[i] = after;
                self.dividend_pool = self.dividend_pool - paid;
                proof {
                    assert forall|id: u64| id != holder implies #[trigger] self.holding_of(id) == old(self).holding_of(id) by {
                        let k = find_index(accts, id);
                        lemma_find_index_bounds(accts, id);
                        if k >= 0 {
                            assert(k != i);
                            assert(self.accounts@[k] == accts[k]);
                        }
                    }
                    assert forall|id: u64| #[trigger] self.since_of(id) == old(self).since_of(id) by {
                        let k = find_index(accts, id);
                        lemma_find_index_bounds(accts, id);
                        if k >= 0 && k != i {
                            assert(self.accounts@[k] == accts[k]);
                        }
                        assert(old(self).since_of(id) == old(self).since_of(id));
                    }
                }
                paid
            },
        }
    }

    /// Pays out every kind of unclaimed dividend of `holder`.
    pub fn claim_dividend(&mut self, holder: u64) -> (r: i128)
        requires
            old(self).wf(),
        ensures
            final(self).wf(),
            final(self).claimed(*old(self), holder, true, true, true, r as int),
            r == crate::ledger::unclaimed_total(old(self).holding_of(holder)),
    {
        self.claim_kinds(holder, true, true, true)
    }

    /// Pays out the unclaimed rent dividends of `holder`.
    pub fn claim_rent_yield(&mut self, holder: u64) -> (r: i128)
        requires
            old(self).wf(),
        ensures
            final(self).wf(),
            final(self).claimed(*old(self), holder, true, false, false, r as int),
            r == old(self).holding_of(holder).rent,
    {
        self.claim_kinds(holder, true, false, false)
    }

    /// Pays out the unclaimed capital returns of `holder`.
    pub fn claim_capital_return(&mut self, holder: u64) -> (r: i128)
        requires
            old(self).wf(),
        ensures
            final(self).wf(),
            final(self).claimed(*old(self), holder, false, true, false, r as int),
            r == old(self).holding_of(holder).capital,
    {
        self.claim_kinds(holder, false, true, false)
    }

    // ----- dividend deposits -----

    /// The checkpoint a deposit of `amount` of type `code` made at `now` appends.
    pub open spec fn next_checkpoint(self, amount: i128, code: u32, now: u64) -> DistributionCheckpoint {
        let dists = self.journal();
        let n = dists.len() as int;
        let total = self.meta_view().total_shares;
        let pss = per_share_scaled_of(amount as int, total as int);
        DistributionCheckpoint {
            id: n as u32,
            amount,
            total_shares: total,
            per_share: (pss / (SCALE as int)) as i128,
            per_share_scaled: pss as i128,
            allocated_amount: allocated_of(pss, total as int) as i128,
            remainder: (amount - (pss / (SCALE as int)) * total) as i128,
            cumulative_per_share: (cum_all(dists, n) + pss) as i128,
            rent_cumulative_per_share: (cum_type(dists, n, RENT_CODE) + if code == RENT_CODE {
                pss
            } else {
                0
            }) as i128,
            capital_cumulative_per_share: (cum_type(dists, n, CAPITAL_CODE) + if code == CAPITAL_CODE {
                pss
            } else {
                0
            }) as i128,
            other_cumulative_per_share: (cum_type(dists, n, OTHER_CODE) + if code == OTHER_CODE {
                pss
            } else {
                0
            }) as i128,
            type_cumulative_per_share: (cum_type(dists, n, code) + pss) as i128,
            distribution_type: code,
            timestamp: now,
        }
    }

    /// A deposit of `amount` of type `code` would exceed a numeric limit.
    pub open spec fn deposit_overflows(self, amount: i128, code: u32) -> bool {
        let dists = self.journal();
        let n = dists.len() as int;
        let pss = per_share_scaled_of(amount as int, self.meta_view().total_shares as int);
        ||| amount * SCALE > i128::MAX
        ||| self.pool() + amount > i128::MAX
        ||| n >= u32::MAX
        ||| cum_all(dists, n) + pss > i128::MAX
        ||| cum_type(dists, n, code) + pss > i128::MAX
    }

    /// The outcome of `deposit_dividend`.
    pub open spec fn deposit_outcome(self, caller: u64, amount: i128, code: u32) -> Result<(), TokenError> {
        if caller != self.admin_id() {
            Err(TokenError::Unauthorized)
        } else if amount <= 0 {
            Err(TokenError::InvalidAmount)
        } else if type_of_code(code) is None {
            Err(TokenError::InvalidDistributionType)
        } else if self.meta_view().total_shares == 0 {
            Err(TokenError::NoShares)
        } else if self.deposit_overflows(amount, code) {
            Err(TokenError::Overflow)
        } else {
            Ok(())
        }
    }

    /// `self` is `old` after a deposit of `amount` of type `code` at `now`: the
    /// checkpoint is appended, the pool grows by the amount, the dust by what the
    /// share supply was not allocated, and every holder is owed its share.
    pub open spec fn deposited(self, old: Self, amount: i128, code: u32, now: u64) -> bool {
        let c = old.next_checkpoint(amount, code, now);
        &&& self.journal() == old.journal().push(c)
        &&& self.pool() == old.pool() + amount
        &&& self.dust() == old.dust() + amount - c.allocated_amount
        &&& forall|id: u64| #[trigger] self.holding_of(id) == (Holding {
            balance: old.holding_of(id).balance,
            rent: old.holding_of(id).rent + type_share(c, old.holding_of(id).balance, RENT_CODE),
            capital: old.holding_of(id).capital + type_share(c, old.holding_of(id).balance, CAPITAL_CODE),
            other: old.holding_of(id).other + type_share(c, old.holding_of(id).balance, OTHER_CODE),
        })
        &&& forall|id: u64| #[trigger] self.since_of(id) == old.since_of(id)
        &&& self.circulating_supply() == old.circulating_supply()
        &&& self.holder_total() == old.holder_total()
        &&& self.same_config(old)
        &&& self.allowance_list() == old.allowance_list()
    }

    /// Records a dividend deposit of `amount` of type `distribution_type`
    /// (`0` rent, `1` capital, `2` other) made by the admin at `now`.
    #[verifier::spinoff_prover]
    #[verifier::rlimit(40)]
    pub fn deposit_dividend(&mut self, caller: u64, amount: i128, distribution_type: u32, now: u64) -> (r: Result<
        (),
        TokenError,
    >)
        requires
            old(self).wf(),
        ensures
            final(self).wf(),
            r == old(self).deposit_outcome(caller, amount, distribution_type),
            r is Ok ==> final(self).deposited(*old(self), amount, distribution_type, now),
            r is Err ==> *final(self) == *old(self),
            caller != old(self).admin_id() ==> r == Err::<(), TokenError>(TokenError::Unauthorized),
            caller == old(self).admin_id() && amount > 0 && distribution_type > OTHER_CODE ==> r == Err::<
                (),
                TokenError,
            >(TokenError::InvalidDistributionType),
            r is Ok ==> {
                &&& caller == old(self).admin_id()
                &&& amount > 0
                &&& distribution_type <= OTHER_CODE
                &&& old(self).meta_view().total_shares > 0
            },
    {
        if caller != self.admin {
            return Err(TokenError::Unauthorized);
        }
        if amount <= 0 {
            return Err(TokenError::InvalidAmount);
        }
        if DistributionType::from_code(distribution_type).is_none() {
            return Err(TokenError::InvalidDistributionType);
        }
        let total = self.meta.total_shares;
        if total == 0 {
            return Err(TokenError::NoShares);
        }
        let ghost dists = self.distributions@;
        let ghost accts = self.accounts@;
        let n = self.distributions.len();
        let ghost pss_spec = per_share_scaled_of(amount as int, total as int);
        proof {
            lemma_scale_fits(amount as int);
            lemma_allocation_bounded(amount as int, total as int);
        }
        if amount > i128::MAX / SCALE {
            return Err(TokenError::Overflow);
        }
        if self.dividend_pool > i128::MAX - amount {
            return Err(TokenError::Overflow);
        }
        if n >= 4_294_967_295usize {
            return Err(TokenError::Overflow);
        }
        let pss = amount * SCALE / total;
        let mut cum: i128 = 0;
        let mut rent_cum: i128 = 0;
        let mut capital_cum: i128 = 0;
        let mut other_cum: i128 = 0;
        if n > 0 {
            let last = self.distributions[n - 1];
            proof {
                assert(checkpoint_wf(dists, n - 1));
            }
            cum = last.cumulative_per_share;
            rent_cum = last.rent_cumulative_per_share;
            capital_cum = last.capital_cumulative_per_share;
            other_cum = last.other_cumulative_per_share;
        }
        let type_cum = if distribution_type == RENT_CODE {
            rent_cum
        } else if distribution_type == CAPITAL_CODE {
            capital_cum
        } else {
            other_cum
        };
        if cum > i128::MAX - pss || type_cum > i128::MAX - pss {
            return Err(TokenError::Overflow);
        }
        let new_rent = if distribution_type == RENT_CODE { rent_cum + pss } else { rent_cum };
        let new_capital = if distribution_type == CAPITAL_CODE { capital_cum + pss } else { capital_cum };
        let new_other = if distribution_type == OTHER_CODE { other_cum + pss } else { other_cum };
        proof {
            lemma_share_numerator_bounded(total as int, pss as int, total as int, amount as int);
            lemma_audit_bounds(pss as int, total as int, amount as int);
        }
        let allocated = pss * total / SCALE;
        let per_share = pss / SCALE;
        let remainder = amount - per_share * total;
        let c = DistributionCheckpoint {
            id: n as u32,
            amount,
            total_shares: total,
            per_share,
            per_share_scaled: pss,
            allocated_amount: allocated,
            remainder,
            cumulative_per_share: cum + pss,
            rent_cumulative_per_share: new_rent,
            capital_cumulative_per_share: new_capital,
            other_cumulative_per_share: new_other,
            type_cumulative_per_share: type_cum + pss,
            distribution_type,
            timestamp: now,
        };
        proof {
            assert(c == old(self).next_checkpoint(amount, distribution_type, now));
            let nd = dists.push(c);
            assert forall|d: int| 0 <= d < nd.len() implies #[trigger] checkpoint_wf(nd, d) by {
                if d < n {
                    crate::distribution::lemma_cum_prefix(dists, c, d + 1, RENT_CODE);
                    crate::distribution::lemma_cum_prefix(dists, c, d + 1, CAPITAL_CODE);
                    crate::distribution::lemma_cum_prefix(dists, c, d + 1, OTHER_CODE);
                    crate::distribution::lemma_cum_prefix(dists, c, d + 1, nd[d].distribution_type);
                    assert(checkpoint_wf(dists, d));
                    assert(nd[d] == dists[d]);
                } else {
                    crate::distribution::lemma_cum_prefix(dists, c, n as int, RENT_CODE);
                    crate::distribution::lemma_cum_prefix(dists, c, n as int, CAPITAL_CODE);
                    crate::distribution::lemma_cum_prefix(dists, c, n as int, OTHER_CODE);
                    crate::distribution::lemma_cum_prefix(dists, c, n as int, distribution_type);
                }
            }
            lemma_accounts_after_deposit(accts, dists, c);
            lemma_owed_all_nonneg(accts, dists);
            lemma_sum_nonneg(owed_all(accts, dists));
            lemma_sum_of_shares(balances(accts), pss as int);
            lemma_sum_nonneg(balances(accts));
            lemma_share_monotone(sum(balances(accts)), total as int, pss as int);
        }
        self.distributions.push(c);
        self.dividend_pool = self.dividend_pool + amount;
        self.dust_reserve = self.dust_reserve + (amount - allocated);
        proof {
            assert(self.distributions@ == dists.push(c));
            assert forall|id: u64| #[trigger] self.holding_of(id) == (Holding {
                balance: old(self).holding_of(id).balance,
                rent: old(self).holding_of(id).rent + type_share(c, old(self).holding_of(id).balance, RENT_CODE),
                capital: old(self).holding_of(id).capital + type_share(c, old(self).holding_of(id).balance, CAPITAL_CODE),
                other: old(self).holding_of(id).other + type_share(c, old(self).holding_of(id).balance, OTHER_CODE),
            }) by {
                lemma_find_index_bounds(accts, id);
                let k = find_index(accts, id);
                if k < 0 {
                    lemma_share_monotone(0, 0, pss as int);
                }
            }
        }
        Ok(())
    }

    // ----- share movements -----

    /// No account exists for `id` and the ledger is full.
    pub open spec fn account_limit_reached(self, id: u64) -> bool {
        !self.has_account(id) && self.account_count() >= MAX_ACCOUNTS
    }

    /// Journal, dividend funds, allowances and configuration are as in `other`.
    pub open spec fn same_books(self, other: Self) -> bool {
        &&& self.same_config(other)
        &&& self.journal() == other.journal()
        &&& self.pool() == other.pool()
        &&& self.dust() == other.dust()
        &&& self.allowance_list() == other.allowance_list()
    }

    /// `self` is `old` after `to` received `amount` new shares at `now`.
    pub open spec fn credited(self, old: Self, to: u64, amount: int, now: u64) -> bool {
        self.balance_set(old, to, old.holding_of(to).balance + amount, now)
    }

    /// `self` is `old` after `amount` shares moved from `from` to `to` at `now`.
    pub open spec fn moved(self, old: Self, from: u64, to: u64, amount: int, now: u64) -> bool {
        if from == to {
            self.same_holdings(old)
        } else {
            let hf = old.holding_of(from);
            let ht = old.holding_of(to);
            &&& self.holding_of(from) == Holding {
                balance: hf.balance - amount,
                rent: hf.rent,
                capital: hf.capital,
                other: hf.other,
            }
            &&& self.holding_of(to) == Holding {
                balance: ht.balance + amount,
                rent: ht.rent,
                capital: ht.capital,
                other: ht.other,
            }
            &&& forall|x: u64| x != from && x != to ==> #[trigger] self.holding_of(x) == old.holding_of(x)
            &&& self.since_of(from) == if hf.balance == amount {
                None
            } else {
                old.since_of(from)
            }
            &&& self.since_of(to) == if ht.balance == 0 {
                Some(now)
            } else {
                old.since_of(to)
            }
            &&& forall|x: u64| x != from && x != to ==> #[trigger] self.since_of(x) == old.since_of(x)
            &&& self.circulating_supply() == old.circulating_supply()
            &&& self.holder_total() == old.holder_total() - (if hf.balance == amount { 1int } else { 0int }) + (
            if ht.balance == 0 {
                1int
            } else {
                0int
            })
        }
    }

    /// Moves `amount` shares from `from` to another address `to`.
    fn move_shares(&mut self, from: u64, to: u64, amount: i128, now: u64)
        requires
            old(self).wf(),
            amount > 0,
            from != to,
            old(self).holding_of(from).balance >= amount,
            !old(self).account_limit_reached(to),
        ensures
            final(self).wf(),
            final(self).same_books(*old(self)),
            final(self).moved(*old(self), from, to, amount as int, now),
    {
        let ghost s0 = *self;
        proof {
            self.lemma_wf_facts();
            assert(self.holding_of(from) == self.holding_of(from));
            assert(self.holding_of(to) == self.holding_of(to));
            lemma_find_index_bounds(self.accounts@, from);
        }
        let ti = match self.ensure_account(to, now) {
            Ok(i) => i,
            Err(_) => {
                proof {
                    assert(false);
                }
                return;
            },
        };
        let ghost s1 = *self;
        let fi = match self.find_account(from) {
            Some(i) => i,
            None => {
                proof {
                    assert(false);
                }
                return;
            },
        };
        proof {
            lemma_find_index_bounds(self.accounts@, from);
            lemma_find_index_bounds(self.accounts@, to);
            assert(fi != ti);
        }
        self.settle(fi);
        self.settle(ti);
        let ghost s2 = *self;
        proof {
            assert(self.accounts@[fi as int].id == from);
            assert(self.accounts@[ti as int].id == to);
            assert(self.accounts@[fi as int].balance == s0.holding_of(from).balance);
            assert(self.accounts@[ti as int].balance == s0.holding_of(to).balance);
            self.lemma_wf_facts();
        }
        let bf = self.accounts[fi].balance;
        self.set_balance(fi, bf - amount, now);
        let ghost s3 = *self;
        proof {
            self.lemma_wf_facts();
            assert(self.holding_of(to) == s2.holding_of(to));
            assert(self.holding_of(from) == self.holding_of(from));
        }
        let bt = self.accounts[ti].balance;
        self.set_balance(ti, bt + amount, now);
        proof {
            assert(self.holding_of(from) == s3.holding_of(from));
            assert(self.since_of(from) == s3.since_of(from));
            assert(s3.since_of(to) == s0.since_of(to));
            assert(s3.holding_of(to) == s0.holding_of(to));
            assert forall|x: u64| x != from && x != to implies #[trigger] self.holding_of(x) == s0.holding_of(x) by {
                assert(self.holding_of(x) == s3.holding_of(x));
                assert(s3.holding_of(x) == s2.holding_of(x));
                assert(s2.holding_of(x) == s1.holding_of(x));
            }
            assert forall|x: u64| x != from && x != to implies #[trigger] self.since_of(x) == s0.since_of(x) by {
                assert(self.since_of(x) == s3.since_of(x));
                assert(s3.since_of(x) == s2.since_of(x));
                assert(s2.since_of(x) == s1.since_of(x));
            }
        }
    }

    /// The outcome of `mint`.
    pub open spec fn mint_outcome(self, caller: u64, to: u64, amount: i128, kyc: KycStatus, compliance_ok: bool) -> Result<
        (),
        TokenError,
    > {
        if caller != self.admin_id() {
            Err(TokenError::Unauthorized)
        } else if amount <= 0 {
            Err(TokenError::InvalidAmount)
        } else if !kyc.approved {
            Err(TokenError::KycNotApproved)
        } else if kyc.tier < self.meta_view().kyc_tier_required {
            Err(TokenError::KycTierTooLow)
        } else if !compliance_ok {
            Err(TokenError::ComplianceRejected)
        } else if self.circulating_supply() + amount > self.meta_view().total_shares {
            Err(TokenError::ExceedsTotalShares)
        } else if self.account_limit_reached(to) {
            Err(TokenError::AccountLimit)
        } else {
            Ok(())
        }
    }

    /// Issues `amount` new shares to `to`. `kyc` is the registry's record of `to`;
    /// `compliance_ok` is the compliance engine's verdict on the issuance.
    pub fn mint(&mut self, caller: u64, to: u64, amount: i128, kyc: KycStatus, compliance_ok: bool, now: u64) -> (r:
        Result<(), TokenError>)
        requires
            old(self).wf(),
        ensures
            final(self).wf(),
            r == old(self).mint_outcome(caller, to, amount, kyc, compliance_ok),
            r is Ok ==> final(self).same_books(*old(self)) && final(self).credited(*old(self), to, amount as int, now),
            r is Err ==> *final(self) == *old(self),
            caller != old(self).admin_id() ==> r == Err::<(), TokenError>(TokenError::Unauthorized),
            caller == old(self).admin_id() && amount > 0 && !kyc.approved ==> r == Err::<(), TokenError>(
                TokenError::KycNotApproved,
            ),
            caller == old(self).admin_id() && amount > 0 && kyc.approved && kyc.tier < old(
                self,
            ).meta_view().kyc_tier_required ==> r == Err::<(), TokenError>(TokenError::KycTierTooLow),
            r is Ok ==> {
                &&& caller == old(self).admin_id()
                &&& amount > 0
                &&& kyc.approved
                &&& kyc.tier >= old(self).meta_view().kyc_tier_required
                &&& compliance_ok
                &&& old(self).circulating_supply() + amount <= old(self).meta_view().total_shares
            },
    {
        if caller != self.admin {
            return Err(TokenError::Unauthorized);
        }
        if amount <= 0 {
            return Err(TokenError::InvalidAmount);
        }
        if !kyc.approved {
            return Err(TokenError::KycNotApproved);
        }
        if kyc.tier < self.meta.kyc_tier_required {
            return Err(TokenError::KycTierTooLow);
        }
        if !compliance_ok {
            return Err(TokenError::ComplianceRejected);
        }
        proof {
            self.lemma_wf_facts();
        }
        if amount > self.meta.total_shares - self.circulating {
            return Err(TokenError::ExceedsTotalShares);
        }
        let ghost s0 = *self;
        let ti = match self.ensure_account(to, now) {
            Ok(i) => i,
            Err(e) => {
                return Err(e);
            },
        };
        self.settle(ti);
        proof {
            lemma_find_index_bounds(self.accounts@, to);
            assert(self.holding_of(to) == s0.holding_of(to));
            assert(self.accounts@[ti as int].balance == s0.holding_of(to).balance);
        }
        let bt = self.accounts[ti].balance;
        self.set_balance(ti, bt + amount, now);
        Ok(())
    }

    /// The outcome of `transfer` before the movement itself.
    pub open spec fn transfer_outcome(
        self,
        from: u64,
        to: u64,
        amount: i128,
        kyc_from: KycStatus,
        kyc_to: KycStatus,
        compliance_ok: bool,
    ) -> Result<(), TokenError> {
        if amount <= 0 {
            Err(TokenError::InvalidAmount)
        } else if self.holding_of(from).balance < amount {
            Err(TokenError::InsufficientBalance)
        } else if !kyc_from.approved || !kyc_to.approved {
            Err(TokenError::KycNotApproved)
        } else if kyc_to.tier < self.meta_view().kyc_tier_required {
            Err(TokenError::KycTierTooLow)
        } else if !compliance_ok {
            Err(TokenError::ComplianceRejected)
        } else if from != to && self.account_limit_reached(to) {
            Err(TokenError::AccountLimit)
        } else {
            Ok(())
        }
    }

    /// Transfers `amount` shares from `from` (the authenticated sender) to `to`.
    /// `kyc_from` and `kyc_to` are the registry's records of both parties;
    /// `compliance_ok` is the compliance engine's verdict on the transfer.
    pub fn transfer(
        &mut self,
        from: u64,
        to: u64,
        amount: i128,
        kyc_from: KycStatus,
        kyc_to: KycStatus,
        compliance_ok: bool,
        now: u64,
    ) -> (r: Result<(), TokenError>)
        requires
            old(self).wf(),
        ensures
            final(self).wf(),
            r == old(self).transfer_outcome(from, to, amount, kyc_from, kyc_to, compliance_ok),
            r is Ok ==> final(self).same_books(*old(self)) && final(self).moved(*old(self), from, to, amount as int, now),
            r is Err ==> *final(self) == *old(self),
            ({
                &&& amount > 0
                &&& old(self).holding_of(from).balance >= amount
                &&& kyc_from.approved
                &&& kyc_to.approved
                &&& kyc_to.tier >= old(self).meta_view().kyc_tier_required
                &&& !compliance_ok
            }) ==> r == Err::<(), TokenError>(TokenError::ComplianceRejected),
            r is Ok ==> {
                &&& amount > 0
                &&& old(self).holding_of(from).balance >= amount
                &&& kyc_from.approved
                &&& kyc_to.approved
                &&& kyc_to.tier >= old(self).meta_view().kyc_tier_required
                &&& compliance_ok
            },
    {
        self.check_and_move(from, to, amount, kyc_from, kyc_to, compliance_ok, now)
    }

    fn check_and_move(
        &mut self,
        from: u64,
        to: u64,
        amount: i128,
        kyc_from: KycStatus,
        kyc_to: KycStatus,
        compliance_ok: bool,
        now: u64,
    ) -> (r: Result<(), TokenError>)
        requires
            old(self).wf(),
        ensures
            final(self).wf(),
            r == old(self).transfer_outcome(from, to, amount, kyc_from, kyc_to, compliance_ok),
            r is Ok ==> final(self).same_books(*old(self)) && final(self).moved(*old(self), from, to, amount as int, now),
            r is Err ==> *final(self) == *old(self),
            ({
                &&& amount > 0
                &&& old(self).holding_of(from).balance >= amount
                &&& kyc_from.approved
                &&& kyc_to.approved
                &&& kyc_to.tier >= old(self).meta_view().kyc_tier_required
                &&& !compliance_ok
            }) ==> r == Err::<(), TokenError>(TokenError::ComplianceRejected),
            r is Ok ==> {
                &&& amount > 0
                &&& old(self).holding_of(from).balance >= amount
                &&& kyc_from.approved
                &&& kyc_to.approved
                &&& kyc_to.tier >= old(self).meta_view().kyc_tier_required
                &&& compliance_ok
            },
    {
        if amount <= 0 {
            return Err(TokenError::InvalidAmount);
        }
        if self.balance(from) < amount {
            return Err(TokenError::InsufficientBalance);
        }
        if !kyc_from.approved || !kyc_to.approved {
            return Err(TokenError::KycNotApproved);
        }
        if kyc_to.tier < self.meta.kyc_tier_required {
            return Err(TokenError::KycTierTooLow);
        }
        if !compliance_ok {
            return Err(TokenError::ComplianceRejected);
        }
        if from == to {
            return Ok(());
        }
        if self.find_account(to).is_none() && self.accounts.len() >= MAX_ACCOUNTS {
            return Err(TokenError::AccountLimit);
        }
        self.move_shares(from, to, amount, now);
        Ok(())
    }

    /// The outcome of `forced_transfer`.
    pub open spec fn forced_transfer_outcome(self, caller: u64, from: u64, to: u64, amount: i128, kyc_to: KycStatus) -> Result<
        (),
        TokenError,
    > {
        if caller != self.admin_id() {
            Err(TokenError::Unauthorized)
        } else if amount <= 0 {
            Err(TokenError::InvalidAmount)
        } else if self.holding_of(from).balance < amount {
            Err(TokenError::InsufficientBalance)
        } else if !kyc_to.approved {
            Err(TokenError::KycNotApproved)
        } else if kyc_to.tier < self.meta_view().kyc_tier_required {
            Err(TokenError::KycTierTooLow)
        } else if from != to && self.account_limit_reached(to) {
            Err(TokenError::AccountLimit)
        } else {
            Ok(())
        }
    }

    /// Moves shares by order of the admin, without consulting the compliance
    /// engine; the recipient must still pass KYC.
    pub fn forced_transfer(&mut self, caller: u64, from: u64, to: u64, amount: i128, kyc_to: KycStatus, now: u64) -> (r:
        Result<(), TokenError>)
        requires
            old(self).wf(),
        ensures
            final(self).wf(),
            r == old(self).forced_transfer_outcome(caller, from, to, amount, kyc_to),
            r is Ok ==> final(self).same_books(*old(self)) && final(self).moved(*old(self), from, to, amount as int, now),
            r is Err ==> *final(self) == *old(self),
            caller != old(self).admin_id() ==> r == Err::<(), TokenError>(TokenError::Unauthorized),
            caller == old(self).admin_id() && 0 < amount <= old(self).holding_of(from).balance && !kyc_to.approved ==> r
                == Err::<(), TokenError>(TokenError::KycNotApproved),
            r is Ok ==> {
                &&& caller == old(self).admin_id()
                &&& 0 < amount <= old(self).holding_of(from).balance
                &&& kyc_to.approved
                &&& kyc_to.tier >= old(self).meta_view().kyc_tier_required
            },
    {
        if caller != self.admin {
            return Err(TokenError::Unauthorized);
        }
        let approved_sender = KycStatus { approved: true, tier: 0 };
        self.check_and_move(from, to, amount, approved_sender, kyc_to, true, now)
    }

    /// The outcome of `buyback`.
    pub open spec fn buyback_outcome(self, caller: u64, holder: u64, amount: i128, kyc: KycStatus) -> Result<(), TokenError> {
        if caller != self.admin_id() {
            Err(TokenError::Unauthorized)
        } else if amount <= 0 {
            Err(TokenError::InvalidAmount)
        } else if !kyc.approved {
            Err(TokenError::KycNotApproved)
        } else if self.holding_of(holder).balance < amount {
            Err(TokenError::InsufficientBalance)
        } else {
            Ok(())
        }
    }

    /// `self` is `old` after the issuer bought back and retired `amount` shares of
    /// `holder`: its balance and the property's share count shrink by the amount,
    /// its unclaimed dividends stay.
    pub open spec fn bought_back(self, old: Self, holder: u64, amount: int) -> bool {
        let h = old.holding_of(holder);
        &&& self.holding_of(holder) == Holding {
            balance: h.balance - amount,
            rent: h.rent,
            capital: h.capital,
            other: h.other,
        }
        &&& forall|x: u64| x != holder ==> #[trigger] self.holding_of(x) == old.holding_of(x)
        &&& self.since_of(holder) == if h.balance == amount {
            None
        } else {
            old.since_of(holder)
        }
        &&& forall|x: u64| x != holder ==> #[trigger] self.since_of(x) == old.since_of(x)
        &&& self.circulating_supply() == old.circulating_supply() - amount
        &&& self.holder_total() == old.holder_total() - (if h.balance == amount { 1int } else { 0int })
        &&& self.meta_view() == PropertyMeta { total_shares: (old.meta_view().total_shares - amount) as i128, ..old.meta_view() }
        &&& self.admin_id() == old.admin_id()
        &&& self.kyc_registry_id() == old.kyc_registry_id()
        &&& self.compliance_engine_id() == old.compliance_engine_id()
        &&& self.journal() == old.journal()
        &&& self.pool() == old.pool()
        &&& self.dust() == old.dust()
        &&& self.allowance_list() == old.allowance_list()
    }

    /// The admin buys back `amount` shares of `holder` (whose KYC record is `kyc`)
    /// and retires them.
    pub fn buyback(&mut self, caller: u64, holder: u64, amount: i128, kyc: KycStatus) -> (r: Result<(), TokenError>)
        requires
            old(self).wf(),
        ensures
            final(self).wf(),
            r == old(self).buyback_outcome(caller, holder, amount, kyc),
            r is Ok ==> final(self).bought_back(*old(self), holder, amount as int),
            r is Err ==> *final(self) == *old(self),
            caller != old(self).admin_id() ==> r == Err::<(), TokenError>(TokenError::Unauthorized),
            r is Ok ==> caller == old(self).admin_id() && 0 < amount <= old(self).holding_of(holder).balance
                && kyc.approved,
    {
        if caller != self.admin {
            return Err(TokenError::Unauthorized);
        }
        if amount <= 0 {
            return Err(TokenError::InvalidAmount);
        }
        if !kyc.approved {
            return Err(TokenError::KycNotApproved);
        }
        if self.balance(holder) < amount {
            return Err(TokenError::InsufficientBalance);
        }
        let ghost s0 = *self;
        proof {
            self.lemma_wf_facts();
            assert(self.holding_of(holder) == self.holding_of(holder));
            lemma_find_index_bounds(self.accounts@, holder);
        }
        let hi = match self.find_account(holder) {
            Some(i) => i,
            None => {
                proof {
                    assert(false);
                }
                return Ok(());
            },
        };
        self.settle(hi);
        proof {
            lemma_find_index_bounds(self.accounts@, holder);
            assert(self.holding_of(holder) == s0.holding_of(holder));
        }
        let b = self.accounts[hi].balance;
        self.set_balance(hi, b - amount, 0);
        let ghost s2 = *self;
        proof {
            self.lemma_wf_facts();
        }
        self.meta.total_shares = self.meta.total_shares - amount;
        proof {
            assert(self.holding_of(holder) == s2.holding_of(holder));
            assert forall|x: u64| #[trigger] self.holding_of(x) == s2.holding_of(x) by {}
            assert forall|x: u64| #[trigger] self.since_of(x) == s2.since_of(x) by {}
        }
        Ok(())
    }

    // ----- allowances -----

    /// The outcome of `approve`.
    pub open spec fn approve_outcome(self, amount: i128, expiration_ledger: u32, current_ledger: u32) -> Result<
        (),
        TokenError,
    > {
        if amount < 0 {
            Err(TokenError::InvalidAmount)
        } else if amount > 0 && expiration_ledger < current_ledger {
            Err(TokenError::InvalidExpiration)
        } else {
            Ok(())
        }
    }

    /// Allowances of every pair but `(owner, spender)` are as in `old`.
    pub open spec fn other_allowances_kept(self, old: Self, owner: u64, spender: u64) -> bool {
        forall|o: u64, s: u64, l: u32|
            !(o == owner && s == spender) ==> #[trigger] self.allowance_at(o, s, l) == old.allowance_at(o, s, l)
    }

    /// `owner` (the authenticated caller) lets `spender` move up to `amount` of its
    /// shares until ledger `expiration_ledger`, replacing any earlier allowance.
    pub fn approve(&mut self, owner: u64, spender: u64, amount: i128, expiration_ledger: u32, current_ledger: u32) -> (r:
        Result<(), TokenError>)
        requires
            old(self).wf(),
        ensures
            final(self).wf(),
            r == old(self).approve_outcome(amount, expiration_ledger, current_ledger),
            amount < 0 ==> r == Err::<(), TokenError>(TokenError::InvalidAmount),
            r is Ok ==> amount >= 0 && (amount > 0 ==> expiration_ledger >= current_ledger),
            r is Ok ==> {
                &&& final(self).same_config(*old(self))
                &&& final(self).same_holdings(*old(self))
                &&& final(self).journal() == old(self).journal()
                &&& final(self).pool() == old(self).pool()
                &&& final(self).dust() == old(self).dust()
                &&& forall|l: u32| #[trigger] final(self).allowance_at(owner, spender, l) == if l <= expiration_ledger {
                    amount as int
                } else {
                    0
                }
                &&& final(self).other_allowances_kept(*old(self), owner, spender)
            },
            r is Err ==> *final(self) == *old(self),
    {
        if amount < 0 {
            return Err(TokenError::InvalidAmount);
        }
        if amount > 0 && expiration_ledger < current_ledger {
            return Err(TokenError::InvalidExpiration);
        }
        let rec = Allowance { owner, spender, amount, expiration_ledger };
        let ghost list = self.allowances@;
        match self.find_allowance_index(owner, spender) {
            Some(k) => {
                proof {
                    lemma_find_allowance_bounds(list, owner, spender);
                }
                self.allowances[k] = rec;
                proof {
                    assert(self.allowances@ == list.update(k as int, rec));
                    assert forall|o: u64, s: u64| #[trigger] find_allowance(self.allowances@, o, s) == find_allowance(
                        list,
                        o,
                        s,
                    ) by {
                        lemma_find_allowance_update(list, k as int, rec, o, s);
                    }
                    lemma_find_allowance_bounds(list, owner, spender);
                }
            },
            None => {
                self.allowances.push(rec);
                proof {
                    assert forall|o: u64, s: u64| #[trigger] find_allowance(self.allowances@, o, s) == if o == owner && s
                        == spender {
                        list.len() as int
                    } else {
                        find_allowance(list, o, s)
                    } by {
                        assert(list.push(rec).drop_last() =~= list);
                    }
                    assert forall|o: u64, s: u64| find_allowance(list, o, s) >= 0 implies #[trigger] self.allowances@[find_allowance(list, o, s)] == list[find_allowance(list, o, s)] by {
                        lemma_find_allowance_bounds(list, o, s);
                    }
                }
            },
        }
        proof {
            assert forall|o: u64, s: u64, l: u32|
                !(o == owner && s == spender) implies #[trigger] self.allowance_at(o, s, l) == old(self).allowance_at(o, s, l) by {
                lemma_find_allowance_bounds(list, o, s);
            }
        }
        Ok(())
    }

    /// The outcome of `transfer_from`.
    pub open spec fn transfer_from_outcome(
        self,
        spender: u64,
        from: u64,
        to: u64,
        amount: i128,
        kyc_from: KycStatus,
        kyc_to: KycStatus,
        compliance_ok: bool,
        current_ledger: u32,
    ) -> Result<(), TokenError> {
        if amount <= 0 {
            Err(TokenError::InvalidAmount)
        } else if self.allowance_at(from, spender, current_ledger) < amount {
            Err(TokenError::InsufficientAllowance)
        } else {
            self.transfer_outcome(from, to, amount, kyc_from, kyc_to, compliance_ok)
        }
    }

    /// `spender` moves `amount` of `from`'s shares to `to` under its allowance,
    /// which shrinks by the amount.
    pub fn transfer_from(
        &mut self,
        spender: u64,
        from: u64,
        to: u64,
        amount: i128,
        kyc_from: KycStatus,
        kyc_to: KycStatus,
        compliance_ok: bool,
        now: u64,
        current_ledger: u32,
    ) -> (r: Result<(), TokenError>)
        requires
            old(self).wf(),
        ensures
            final(self).wf(),
            r == old(self).transfer_from_outcome(
                spender,
                from,
                to,
                amount,
                kyc_from,
                kyc_to,
                compliance_ok,
                current_ledger,
            ),
            r is Ok ==> {
                &&& final(self).same_config(*old(self))
                &&& final(self).journal() == old(self).journal()
                &&& final(self).pool() == old(self).pool()
                &&& final(self).dust() == old(self).dust()
                &&& final(self).moved(*old(self), from, to, amount as int, now)
                &&& forall|l: u32| #[trigger] final(self).allowance_at(from, spender, l) == if old(self).allowance_at(
                    from,
                    spender,
                    l,
                ) > 0 {
                    old(self).allowance_at(from, spender, l) - amount
                } else {
                    0
                }
                &&& final(self).other_allowances_kept(*old(self), from, spender)
            },
            r is Err ==> *final(self) == *old(self),
            ({
                &&& amount > 0
                &&& old(self).allowance_at(from, spender, current_ledger) >= amount
                &&& old(self).holding_of(from).balance >= amount
                &&& kyc_from.approved
                &&& kyc_to.approved
                &&& kyc_to.tier >= old(self).meta_view().kyc_tier_required
                &&& !compliance_ok
            }) ==> r == Err::<(), TokenError>(TokenError::ComplianceRejected),
            r is Ok ==> {
                &&& amount > 0
                &&& old(self).allowance_at(from, spender, current_ledger) >= amount
                &&& old(self).holding_of(from).balance >= amount
                &&& kyc_from.approved
                &&& kyc_to.approved
                &&& kyc_to.tier >= old(self).meta_view().kyc_tier_required
                &&& compliance_ok
            },
    {
        if amount <= 0 {
            return Err(TokenError::InvalidAmount);
        }
        if self.allowance(from, spender, current_ledger) < amount {
            return Err(TokenError::InsufficientAllowance);
        }
        let ghost s0 = *self;
        let k = match self.find_allowance_index(from, spender) {
            Some(k) => k,
            None => {
                proof {
                    assert(false);
                }
                return Ok(());
            },
        };
        let res = self.check_and_move(from, to, amount, kyc_from, kyc_to, compliance_ok, now);
        if res.is_err() {
            return res;
        }
        let ghost s1 = *self;
        let ghost list = self.allowances@;
        let cur = self.allowances[k];
        proof {
            assert(list == s0.allowances@);
            lemma_find_allowance_bounds(list, from, spender);
        }
        let rec = Allowance { amount: cur.amount - amount, ..cur };
        self.allowances[k] = rec;
        proof {
            assert(self.allowances@ == list.update(k as int, rec));
            assert forall|o: u64, s: u64| #[trigger] find_allowance(self.allowances@, o, s) == find_allowance(list, o, s) by {
                lemma_find_allowance_update(list, k as int, rec, o, s);
            }
            assert forall|o: u64, s: u64, l: u32|
                !(o == from && s == spender) implies #[trigger] self.allowance_at(o, s, l) == s0.allowance_at(o, s, l) by {
                lemma_find_allowance_bounds(list, o, s);
            }
            assert forall|x: u64| #[trigger] self.holding_of(x) == s1.holding_of(x) by {}
            assert forall|x: u64| #[trigger] self.since_of(x) == s1.since_of(x) by {}
            assert(s0.allowance_at(from, spender, current_ledger) == cur.amount);
            assert forall|l: u32| #[trigger] self.allowance_at(from, spender, l) == if s0.allowance_at(from, spender, l) > 0 {
                s0.allowance_at(from, spender, l) - amount
            } else {
                0
            } by {
                lemma_find_allowance_bounds(list, from, spender);
            }
        }
        Ok(())
    }

    // ----- administration -----

    /// The token is set up when it is created; initializing it again always fails.
    pub fn initialize(&self, admin: u64, kyc_registry: u64, compliance_engine: u64, meta: &PropertyMeta) -> (r: Result<
        (),
        TokenError,
    >)
        ensures
            r == Err::<(), TokenError>(TokenError::AlreadyInitialized),
    {
        Err(TokenError::AlreadyInitialized)
    }

    /// The outcome of `update_meta`.
    pub open spec fn update_meta_outcome(self, caller: u64, meta: PropertyMeta) -> Result<(), TokenError> {
        if caller != self.admin_id() {
            Err(TokenError::Unauthorized)
        } else if meta_check(meta) is Err {
            Err(TokenError::InvalidMeta(meta_check(meta)->Err_0))
        } else if meta.total_shares < self.circulating_supply() {
            Err(TokenError::ExceedsTotalShares)
        } else {
            Ok(())
        }
    }

    /// Replaces the property metadata; it must pass validation and leave room for
    /// the shares already issued.
    pub fn update_meta(&mut self, caller: u64, meta: PropertyMeta) -> (r: Result<(), TokenError>)
        requires
            old(self).wf(),
        ensures
            final(self).wf(),
            r == old(self).update_meta_outcome(caller, meta),
            r is Ok ==> {
                &&& final(self).meta_view() == meta
                &&& final(self).admin_id() == old(self).admin_id()
                &&& final(self).kyc_registry_id() == old(self).kyc_registry_id()
                &&& final(self).compliance_engine_id() == old(self).compliance_engine_id()
                &&& final(self).same_ledger(*old(self))
            },
            r is Err ==> *final(self) == *old(self),
            caller != old(self).admin_id() ==> r == Err::<(), TokenError>(TokenError::Unauthorized),
            caller == old(self).admin_id() && meta.total_shares >= old(self).circulating_supply() ==> (r is Ok
                <==> meta_check(meta) is Ok),
            caller == old(self).admin_id() && meta_check(meta) is Err ==> r == Err::<(), TokenError>(
                TokenError::InvalidMeta(meta_check(meta)->Err_0),
            ),
            caller == old(self).admin_id() && is_valid_property_type(meta.property_type@) && is_blank(
                meta.legal_name@,
            ) ==> r == Err::<(), TokenError>(TokenError::InvalidMeta(MetaError::InvalidLegalName)),
            r is Ok ==> {
                &&& caller == old(self).admin_id()
                &&& is_valid_property_type(meta.property_type@)
                &&& !is_blank(meta.legal_name@)
                &&& meta.total_shares > 0
                &&& meta.total_shares >= old(self).circulating_supply()
            },
    {
        if caller != self.admin {
            return Err(TokenError::Unauthorized);
        }
        match crate::meta::validate_meta(&meta) {
            Err(e) => {
                return Err(TokenError::InvalidMeta(e));
            },
            Ok(()) => {},
        }
        if meta.total_shares < self.circulating {
            return Err(TokenError::ExceedsTotalShares);
        }
        self.meta = meta;
        proof {
            assert forall|x: u64| #[trigger] self.holding_of(x) == old(self).holding_of(x) by {}
            assert forall|x: u64| #[trigger] self.since_of(x) == old(self).since_of(x) by {}
        }
        Ok(())
    }

    /// Points the token at another KYC registry.
    pub fn update_kyc_registry(&mut self, caller: u64, registry: u64) -> (r: Result<(), TokenError>)
        requires
            old(self).wf(),
        ensures
            final(self).wf(),
            r == if caller != old(self).admin_id() {
                Err(TokenError::Unauthorized)
            } else {
                Ok(())
            },
            r is Ok ==> {
                &&& final(self).kyc_registry_id() == registry
                &&& final(self).admin_id() == old(self).admin_id()
                &&& final(self).compliance_engine_id() == old(self).compliance_engine_id()
                &&& final(self).meta_view() == old(self).meta_view()
                &&& final(self).same_ledger(*old(self))
            },
            r is Err ==> *final(self) == *old(self),
    {
        if caller != self.admin {
            return Err(TokenError::Unauthorized);
        }
        self.kyc_registry = registry;
        proof {
            assert forall|x: u64| #[trigger] self.holding_of(x) == old(self).holding_of(x) by {}
            assert forall|x: u64| #[trigger] self.since_of(x) == old(self).since_of(x) by {}
        }
        Ok(())
    }

    /// Points the token at another compliance engine.
    pub fn update_compliance_engine(&mut self, caller: u64, engine: u64) -> (r: Result<(), TokenError>)
        requires
            old(self).wf(),
        ensures
            final(self).wf(),
            r == if caller != old(self).admin_id() {
                Err(TokenError::Unauthorized)
            } else {
                Ok(())
            },
            r is Ok ==> {
                &&& final(self).compliance_engine_id() == engine
                &&& final(self).admin_id() == old(self).admin_id()
                &&& final(self).kyc_registry_id() == old(self).kyc_registry_id()
                &&& final(self).meta_view() == old(self).meta_view()
                &&& final(self).same_ledger(*old(self))
            },
            r is Err ==> *final(self) == *old(self),
    {
        if caller != self.admin {
            return Err(TokenError::Unauthorized);
        }
        self.compliance_engine = engine;
        proof {
            assert forall|x: u64| #[trigger] self.holding_of(x) == old(self).holding_of(x) by {}
            assert forall|x: u64| #[trigger] self.since_of(x) == old(self).since_of(x) by {}
        }
        Ok(())
    }

    /// The admin withdraws the dust reserve from the pool; returns what was withdrawn.
    pub fn collect_dust_reserve(&mut self, caller: u64) -> (r: Result<i128, TokenError>)
        requires
            old(self).wf(),
        ensures
            final(self).wf(),
            caller != old(self).admin_id() ==> r == Err::<i128, TokenError>(TokenError::Unauthorized)
                && *final(self) == *old(self),
            caller == old(self).admin_id() ==> {
                &&& r == Ok::<i128, TokenError>(old(self).dust() as i128)
                &&& final(self).dust() == 0
                &&& final(self).pool() == old(self).pool() - old(self).dust()
                &&& final(self).same_config(*old(self))
                &&& final(self).same_holdings(*old(self))
                &&& final(self).journal() == old(self).journal()
                &&& final(self).allowance_list() == old(self).allowance_list()
            },
    {
        if caller != self.admin {
            return Err(TokenError::Unauthorized);
        }
        proof {
            self.lemma_wf_facts();
            lemma_owed_all_nonneg(self.accounts@, self.distributions@);
            lemma_sum_nonneg(owed_all(self.accounts@, self.distributions@));
        }
        let d = self.dust_reserve;
        self.dividend_pool = self.dividend_pool - d;
        self.dust_reserve = 0;
        proof {
            assert forall|x: u64| #[trigger] self.holding_of(x) == old(self).holding_of(x) by {}
            assert forall|x: u64| #[trigger] self.since_of(x) == old(self).since_of(x) by {}
        }
        Ok(d)
    }

    /// The admin settles every recorded distribution into the account of `holder`
    /// now rather than at its next movement or claim; what it is owed is unchanged.
    pub fn force_migrate_holder_checkpoint(&mut self, caller: u64, holder: u64) -> (r: Result<(), TokenError>)
        requires
            old(self).wf(),
        ensures
            final(self).wf(),
            caller != old(self).admin_id() ==> r == Err::<(), TokenError>(TokenError::Unauthorized)
                && *final(self) == *old(self),
            caller == old(self).admin_id() ==> {
                &&& r == Ok::<(), TokenError>(())
                &&& final(self).same_config(*old(self))
                &&& final(self).same_ledger(*old(self))
                &&& final(self).settled_through(holder) == if old(self).has_account(holder) {
                    old(self).journal().len() as int
                } else {
                    old(self).settled_through(holder)
                }
                &&& forall|x: u64| x != holder ==> #[trigger] final(self).settled_through(x) == old(self).settled_through(x)
                &&& final(self).account_count() == old(self).account_count()
            },
    {
        if caller != self.admin {
            return Err(TokenError::Unauthorized);
        }
        match self.find_account(holder) {
            Some(i) => {
                let ghost accts = self.accounts@;
                proof {
                    lemma_find_index_bounds(accts, holder);
                }
                self.settle(i);
                proof {
                    assert forall|x: u64| x != holder implies #[trigger] self.settled_through(x) == old(self).settled_through(x) by {
                        lemma_find_index_bounds(accts, x);
                    }
                }
            },
            None => {},
        }
        Ok(())
    }

    // ----- laws -----

    /// Addresses holding shares.
    pub open spec fn holders(self) -> Set<u64> {
        Set::new(|id: u64| self.holding_of(id).balance > 0)
    }

    /// Solvency: the dividend pool always covers the dust reserve plus everything
    /// any collection of distinct addresses can claim, so claims can never
    /// overdraw it, whatever the order of deposits, movements, claims and dust
    /// collections.
    pub proof fn law_pool_covers_claims(&self, ids: Seq<u64>)
        requires
            self.wf(),
            ids.no_duplicates(),
        ensures
            self.dust() >= 0,
            self.dust() + sum(ids.map_values(|id: u64| crate::ledger::unclaimed_total(self.holding_of(id))))
                <= self.pool(),
    {
        let accts = self.accounts@;
        let dists = self.distributions@;
        crate::ledger::lemma_distinct_owed_le_sum(accts, dists, ids);
        assert(ids.map_values(|id: u64| crate::ledger::unclaimed_total(self.holding_of(id))) =~= ids.map_values(
            |id: u64| crate::ledger::owed_of(accts, dists, id),
        ));
    }

    /// Unclaimed dividends of every kind are never negative, and no address can
    /// claim more than the pool holds beyond the dust reserve.
    pub proof fn law_unclaimed_within_pool(&self, id: u64)
        requires
            self.wf(),
        ensures
            0 <= self.holding_of(id).rent,
            0 <= self.holding_of(id).capital,
            0 <= self.holding_of(id).other,
            self.dust() + crate::ledger::unclaimed_total(self.holding_of(id)) <= self.pool(),
    {
        self.lemma_wf_facts();
        assert(self.holding_of(id) == self.holding_of(id));
    }

    /// Share supply: no address holds more than the shares held in total, which
    /// never exceed the property's share count.
    pub proof fn law_supply_bounded(&self, id: u64)
        requires
            self.wf(),
        ensures
            0 <= self.holding_of(id).balance <= self.circulating_supply() <= self.meta_view().total_shares,
    {
        self.lemma_wf_facts();
        assert(self.holding_of(id) == self.holding_of(id));
    }

    /// The holder count is exactly the number of addresses holding shares.
    pub proof fn law_holder_count_exact(&self)
        requires
            self.wf(),
        ensures
            self.holders().finite(),
            self.holders().len() == self.holder_total(),
    {
        let accts = self.accounts@;
        crate::ledger::lemma_positive_ids(accts);
        assert forall|id: u64| #[trigger] self.holders().contains(id) <==> crate::ledger::positive_ids(accts).contains(id) by {
            lemma_find_index_bounds(accts, id);
        }
        assert(self.holders() =~= crate::ledger::positive_ids(accts));
    }

    /// Every checkpoint of the journal records its own arithmetic: the scaled
    /// per-share amount of its deposit, what the share supply was allocated (never
    /// more than the deposit), and running totals over the journal so far.
    pub proof fn law_checkpoints_record_their_arithmetic(&self, d: int)
        requires
            self.wf(),
            0 <= d < self.journal().len(),
        ensures
            self.journal()[d].id == d,
            self.journal()[d].per_share_scaled == per_share_scaled_of(
                self.journal()[d].amount as int,
                self.journal()[d].total_shares as int,
            ),
            self.journal()[d].allocated_amount == allocated_of(
                self.journal()[d].per_share_scaled as int,
                self.journal()[d].total_shares as int,
            ),
            0 <= self.journal()[d].allocated_amount <= self.journal()[d].amount,
            self.journal()[d].cumulative_per_share == cum_all(self.journal(), d + 1),
            self.journal()[d].type_cumulative_per_share == cum_type(
                self.journal(),
                d + 1,
                self.journal()[d].distribution_type,
            ),
            self.journal()[d].rent_cumulative_per_share == cum_type(self.journal(), d + 1, RENT_CODE),
            self.journal()[d].capital_cumulative_per_share == cum_type(self.journal(), d + 1, CAPITAL_CODE),
            self.journal()[d].other_cumulative_per_share == cum_type(self.journal(), d + 1, OTHER_CODE),
            self.journal()[d].distribution_type <= OTHER_CODE,
    {
        assert(checkpoint_wf(self.distributions@, d));
        let c = self.distributions@[d];
        lemma_allocation_bounded(c.amount as int, c.total_shares as int);
    }

    /// Running totals of the journal: each checkpoint's totals are those of the
    /// checkpoint before it (zero for the first) plus its own scaled per-share
    /// amount, added to the overall total and to the total of its own type only;
    /// the totals of the other types carry over unchanged.
    pub proof fn law_typed_running_totals(&self, d: int)
        requires
            self.wf(),
            0 <= d < self.journal().len(),
        ensures
            ({
                let j = self.journal();
                let c = j[d];
                let prev_all: int = if d == 0 { 0 } else { j[d - 1].cumulative_per_share as int };
                let prev_rent: int = if d == 0 { 0 } else { j[d - 1].rent_cumulative_per_share as int };
                let prev_capital: int = if d == 0 { 0 } else { j[d - 1].capital_cumulative_per_share as int };
                let prev_other: int = if d == 0 { 0 } else { j[d - 1].other_cumulative_per_share as int };
                &&& c.cumulative_per_share == prev_all + c.per_share_scaled
                &&& c.rent_cumulative_per_share == prev_rent + (if c.distribution_type == 0 {
                    c.per_share_scaled as int
                } else {
                    0
                })
                &&& c.capital_cumulative_per_share == prev_capital + (if c.distribution_type == 1 {
                    c.per_share_scaled as int
                } else {
                    0
                })
                &&& c.other_cumulative_per_share == prev_other + (if c.distribution_type == 2 {
                    c.per_share_scaled as int
                } else {
                    0
                })
                &&& c.type_cumulative_per_share == (if c.distribution_type == 0 {
                    c.rent_cumulative_per_share
                } else if c.distribution_type == 1 {
                    c.capital_cumulative_per_share
                } else {
                    c.other_cumulative_per_share
                })
                &&& c.distribution_type <= 2
            }),
    {
        let j = self.distributions@;
        assert(checkpoint_wf(j, d));
        if d > 0 {
            assert(checkpoint_wf(j, d - 1));
        }
        assert(cum_all(j, d + 1) == cum_all(j, d) + j[d].per_share_scaled);
        assert(cum_type(j, d + 1, RENT_CODE) == cum_type(j, d, RENT_CODE) + (if j[d].distribution_type == RENT_CODE {
            j[d].per_share_scaled as int
        } else {
            0
        }));
        assert(cum_type(j, d + 1, CAPITAL_CODE) == cum_type(j, d, CAPITAL_CODE) + (if j[d].distribution_type
            == CAPITAL_CODE {
            j[d].per_share_scaled as int
        } else {
            0
        }));
        assert(cum_type(j, d + 1, OTHER_CODE) == cum_type(j, d, OTHER_CODE) + (if j[d].distribution_type == OTHER_CODE {
            j[d].per_share_scaled as int
        } else {
            0
        }));
        if d == 0 {
            assert(cum_all(j, 0) == 0);
            assert(cum_type(j, 0, RENT_CODE) == 0);
            assert(cum_type(j, 0, CAPITAL_CODE) == 0);
            assert(cum_type(j, 0, OTHER_CODE) == 0);
        }
    }

    /// Pages of the journal are windows of it: entry `k` of the page starting at
    /// `start` is journal entry `start + k`, and the page holds `limit` entries,
    /// or what is left of the journal from `start` if that is fewer.
    pub proof fn law_pages_are_windows(&self, start: u32, limit: u32)
        ensures
            ({
                let j = self.journal();
                let pg = page(j, start as int, limit as int);
                &&& pg.len() == (if start >= j.len() {
                    0
                } else if start + limit >= j.len() {
                    j.len() - start
                } else {
                    limit as int
                })
                &&& forall|k: int| 0 <= k < pg.len() ==> #[trigger] pg[k] == j[start + k]
            }),
    {
    }

    /// A holding period is on record exactly while an address holds shares.
    pub proof fn law_holding_period_while_holding(&self, id: u64)
        requires
            self.wf(),
        ensures
            self.since_of(id) is Some <==> self.holding_of(id).balance > 0,
    {
        lemma_find_index_bounds(self.accounts@, id);
    }

    // ----- storage -----

    /// The state as plain values.
    pub closed spec fn parts(self) -> TokenParts {
        TokenParts {
            admin: self.admin,
            kyc_registry: self.kyc_registry,
            compliance_engine: self.compliance_engine,
            meta: self.meta,
            accounts: self.accounts,
            allowances: self.allowances,
            distributions: self.distributions,
            circulating: self.circulating,
            holder_count: self.holder_count,
            dividend_pool: self.dividend_pool,
            dust_reserve: self.dust_reserve,
        }
    }

    /// Tokens whose parts hold the same values are the same token: every query
    /// and every outcome is determined by the stored values. Together with
    /// `to_parts` and `from_parts` this makes storing and restoring lossless.
    pub proof fn law_parts_determine_token(a: PropertyToken, b: PropertyToken)
        requires
            parts_match(a.parts(), b.parts()),
        ensures
            a.wf() == b.wf(),
            a.same_config(b),
            a.same_ledger(b),
            a.account_count() == b.account_count(),
            forall|id: u64| #[trigger] a.settled_through(id) == b.settled_through(id),
            forall|id: u64| #[trigger] a.has_account(id) == b.has_account(id),
    {
    }

    /// Stored values that match a well-formed token's parts pass validation.
    pub proof fn lemma_matching_parts_wf(&self, p: TokenParts)
        requires
            self.wf(),
            parts_match(p, self.parts()),
        ensures
            parts_wf(p),
    {
    }

    /// Copies the state out as plain values.
    pub fn to_parts(&self) -> (r: TokenParts)
        requires
            self.wf(),
        ensures
            parts_match(r, self.parts()),
            parts_wf(r),
    {
        let mut accounts: Vec<Account> = Vec::new();
        let mut i: usize = 0;
        while i < self.accounts.len()
            invariant
                0 <= i <= self.accounts@.len(),
                accounts@ == self.accounts@.subrange(0, i as int),
            decreases self.accounts@.len() - i,
        {
            accounts.push(self.accounts[i]);
            i = i + 1;
        }
        let mut allowances: Vec<Allowance> = Vec::new();
        let mut k: usize = 0;
        while k < self.allowances.len()
            invariant
                0 <= k <= self.allowances@.len(),
                allowances@ == self.allowances@.subrange(0, k as int),
            decreases self.allowances@.len() - k,
        {
            allowances.push(self.allowances[k]);
            k = k + 1;
        }
        let mut distributions: Vec<DistributionCheckpoint> = Vec::new();
        let mut d: usize = 0;
        while d < self.distributions.len()
            invariant
                0 <= d <= self.distributions@.len(),
                distributions@ == self.distributions@.subrange(0, d as int),
            decreases self.distributions@.len() - d,
        {
            distributions.push(self.distributions[d]);
            d = d + 1;
        }
        proof {
            assert(accounts@ =~= self.accounts@);
            assert(allowances@ =~= self.allowances@);
            assert(distributions@ =~= self.distributions@);
        }
        TokenParts {
            admin: self.admin,
            kyc_registry: self.kyc_registry,
            compliance_engine: self.compliance_engine,
            meta: crate::meta::copy_meta(&self.meta),
            accounts,
            allowances,
            distributions,
            circulating: self.circulating,
            holder_count: self.holder_count,
            dividend_pool: self.dividend_pool,
            dust_reserve: self.dust_reserve,
        }
    }

    /// Rebuilds a token from stored parts, if they satisfy the token's invariant.
    pub fn from_parts(p: TokenParts) -> (r: Option<PropertyToken>)
        ensures
            r is Some <==> parts_wf(p),
            r matches Some(t) ==> t.wf() && t.parts() == p,
    {
        if !crate::validate::check_journal(&p.distributions) {
            return None;
        }
        if !crate::validate::check_accounts(&p.accounts, &p.distributions) {
            return None;
        }
        if p.accounts.len() > MAX_ACCOUNTS || p.meta.total_shares < 0 {
            return None;
        }
        match crate::validate::total_balance(&p.accounts, &p.distributions) {
            None => {
                return None;
            },
            Some(t) => {
                if t != p.circulating {
                    return None;
                }
            },
        }
        if p.circulating > p.meta.total_shares {
            return None;
        }
        if crate::validate::count_holders(&p.accounts) != p.holder_count as usize {
            return None;
        }
        proof {
            lemma_owed_all_nonneg(p.accounts@, p.distributions@);
            lemma_sum_nonneg(owed_all(p.accounts@, p.distributions@));
        }
        if p.dust_reserve < 0 || p.dividend_pool < p.dust_reserve {
            return None;
        }
        if !crate::validate::owed_within(&p.accounts, &p.distributions, p.dividend_pool - p.dust_reserve) {
            return None;
        }
        let mut k: usize = 0;
        while k < p.allowances.len()
            invariant
                0 <= k <= p.allowances@.len(),
                forall|j: int| 0 <= j < k ==> #[trigger] p.allowances@[j].amount >= 0,
            decreases p.allowances@.len() - k,
        {
            if p.allowances[k].amount < 0 {
                return None;
            }
            k = k + 1;
        }
        Some(
            PropertyToken {
                admin: p.admin,
                kyc_registry: p.kyc_registry,
                compliance_engine: p.compliance_engine,
                meta: p.meta,
                accounts: p.accounts,
                allowances: p.allowances,
                distributions: p.distributions,
                circulating: p.circulating,
                holder_count: p.holder_count,
                dividend_pool: p.dividend_pool,
                dust_reserve: p.dust_reserve,
            },
        )
    }
}

} // verus!
