//! The distribution journal: one immutable checkpoint per dividend deposit, and
//! what a holder is owed from a range of it.

use vstd::prelude::*;

use crate::fixed_point::{allocated_of, lemma_allocation_bounded, lemma_share_monotone, per_share_scaled_of, share_of, SCALE};

verus! {

/// The kind of income a distribution pays out; claims can be made per kind.
#[derive(Clone, Copy, Debug, PartialEq, Eq, Structural)]
pub enum DistributionType {
    Rent,
    Capital,
    Other,
}

pub const RENT_CODE: u32 = 0;
pub const CAPITAL_CODE: u32 = 1;
pub const OTHER_CODE: u32 = 2;

/// The numeric code of a distribution type.
pub open spec fn type_code(t: DistributionType) -> u32 {
    match t {
        DistributionType::Rent => RENT_CODE,
        DistributionType::Capital => CAPITAL_CODE,
        DistributionType::Other => OTHER_CODE,
    }
}

/// The distribution type a code stands for, if any.
pub open spec fn type_of_code(code: u32) -> Option<DistributionType> {
    if code == RENT_CODE {
        Some(DistributionType::Rent)
    } else if code == CAPITAL_CODE {
        Some(DistributionType::Capital)
    } else if code == OTHER_CODE {
        Some(DistributionType::Other)
    } else {
        None
    }
}

impl DistributionType {
    /// The numeric code (`0` rent, `1` capital, `2` other).
    pub fn code(&self) -> (r: u32)
        ensures
            r == type_code(*self),
    {
        match self {
            DistributionType::Rent => RENT_CODE,
            DistributionType::Capital => CAPITAL_CODE,
            DistributionType::Other => OTHER_CODE,
        }
    }

    /// The type with the given code.
    pub fn from_code(code: u32) -> (r: Option<DistributionType>)
        ensures
            r == type_of_code(code),
    {
        if code == RENT_CODE {
            Some(DistributionType::Rent)
        } else if code == CAPITAL_CODE {
            Some(DistributionType::Capital)
        } else if code == OTHER_CODE {
            Some(DistributionType::Other)
        } else {
            None
        }
    }
}

/// The immutable record of one dividend deposit.
#[derive(Clone, Copy, Debug, PartialEq, Eq, Structural)]
pub struct DistributionCheckpoint {
    /// Position in the journal.
    pub id: u32,
    /// Amount deposited.
    pub amount: i128,
    /// Share supply the deposit was divided over.
    pub total_shares: i128,
    /// Whole units per share (`per_share_scaled / SCALE`), for auditing.
    pub per_share: i128,
    /// `floor(amount * SCALE / total_shares)`.
    pub per_share_scaled: i128,
    /// `floor(per_share_scaled * total_shares / SCALE)`: what the share supply receives.
    pub allocated_amount: i128,
    /// `amount - per_share * total_shares`, for auditing.
    pub remainder: i128,
    /// Sum of `per_share_scaled` over the journal up to and including this entry.
    pub cumulative_per_share: i128,
    pub rent_cumulative_per_share: i128,
    pub capital_cumulative_per_share: i128,
    pub other_cumulative_per_share: i128,
    /// The cumulative of this entry's own type.
    pub type_cumulative_per_share: i128,
    /// Type code (`0` rent, `1` capital, `2` other).
    pub distribution_type: u32,
    /// Time of the deposit.
    pub timestamp: u64,
}

/// An entry of the dividend history, as shown to auditors.
#[derive(Clone, Copy, Debug, PartialEq, Eq, Structural)]
pub struct DividendEvent {
    pub amount: i128,
    pub distribution_type: u32,
    /// Cumulative scaled dividend per share after this deposit.
    pub running_total_dps: i128,
    pub timestamp: u64,
}

/// The history entry of a checkpoint.
pub open spec fn event_of(c: DistributionCheckpoint) -> DividendEvent {
    DividendEvent {
        amount: c.amount,
        distribution_type: c.distribution_type,
        running_total_dps: c.cumulative_per_share,
        timestamp: c.timestamp,
    }
}

/// Builds the history entry of a checkpoint.
pub fn event_from(c: &DistributionCheckpoint) -> (r: DividendEvent)
    ensures
        r == event_of(*c),
{
    DividendEvent {
        amount: c.amount,
        distribution_type: c.distribution_type,
        running_total_dps: c.cumulative_per_share,
        timestamp: c.timestamp,
    }
}

/// Sum of the scaled per-share amounts of the first `n` entries.
pub open spec fn cum_all(dists: Seq<DistributionCheckpoint>, n: int) -> int
    decreases n,
{
    if n <= 0 {
        0
    } else {
        cum_all(dists, n - 1) + dists[n - 1].per_share_scaled
    }
}

/// Sum of the scaled per-share amounts of the first `n` entries of type `code`.
pub open spec fn cum_type(dists: Seq<DistributionCheckpoint>, n: int, code: u32) -> int
    decreases n,
{
    if n <= 0 {
        0
    } else {
        cum_type(dists, n - 1, code) + (if dists[n - 1].distribution_type == code {
            dists[n - 1].per_share_scaled as int
        } else {
            0
        })
    }
}

/// The arithmetic facts each checkpoint records.
pub open spec fn checkpoint_wf(dists: Seq<DistributionCheckpoint>, d: int) -> bool {
    let c = dists[d];
    &&& c.id == d
    &&& c.amount > 0
    &&& c.total_shares > 0
    &&& c.amount * SCALE <= i128::MAX
    &&& c.per_share_scaled == per_share_scaled_of(c.amount as int, c.total_shares as int)
    &&& c.allocated_amount == allocated_of(c.per_share_scaled as int, c.total_shares as int)
    &&& c.per_share == c.per_share_scaled / SCALE
    &&& c.remainder == c.amount - c.per_share * c.total_shares
    &&& c.distribution_type <= OTHER_CODE
    &&& c.cumulative_per_share == cum_all(dists, d + 1)
    &&& c.rent_cumulative_per_share == cum_type(dists, d + 1, RENT_CODE)
    &&& c.capital_cumulative_per_share == cum_type(dists, d + 1, CAPITAL_CODE)
    &&& c.other_cumulative_per_share == cum_type(dists, d + 1, OTHER_CODE)
    &&& c.type_cumulative_per_share == cum_type(dists, d + 1, c.distribution_type)
}

/// Every checkpoint of the journal is well formed.
pub open spec fn journal_wf(dists: Seq<DistributionCheckpoint>) -> bool {
    &&& dists.len() <= u32::MAX
    &&& forall|d: int| 0 <= d < dists.len() ==> #[trigger] checkpoint_wf(dists, d)
}

/// What a holder of `balance` shares receives of type `code` from checkpoint `c`.
pub open spec fn type_share(c: DistributionCheckpoint, balance: int, code: u32) -> int {
    if c.distribution_type == code {
        share_of(balance, c.per_share_scaled as int)
    } else {
        0
    }
}

/// What a holder of `balance` shares is owed of type `code` from the entries
/// `from..to` of the journal.
pub open spec fn unsettled(
    dists: Seq<DistributionCheckpoint>,
    balance: int,
    from: int,
    to: int,
    code: u32,
) -> int
    decreases to - from,
{
    if to <= from {
        0
    } else {
        unsettled(dists, balance, from, to - 1, code) + type_share(dists[to - 1], balance, code)
    }
}

/// The balance was held through every entry of `from..to`: it never exceeds the
/// share supply an entry was divided over.
pub open spec fn balance_covered(dists: Seq<DistributionCheckpoint>, balance: int, from: int) -> bool {
    forall|d: int| from <= d < dists.len() ==> balance <= #[trigger] dists[d].total_shares
}

pub proof fn lemma_cum_prefix(dists: Seq<DistributionCheckpoint>, x: DistributionCheckpoint, n: int, code: u32)
    requires
        0 <= n <= dists.len(),
    ensures
        cum_all(dists.push(x), n) == cum_all(dists, n),
        cum_type(dists.push(x), n, code) == cum_type(dists, n, code),
    decreases n,
{
    if n > 0 {
        lemma_cum_prefix(dists, x, n - 1, code);
    }
}

pub proof fn lemma_unsettled_prefix(
    dists: Seq<DistributionCheckpoint>,
    x: DistributionCheckpoint,
    balance: int,
    from: int,
    to: int,
    code: u32,
)
    requires
        0 <= from,
        to <= dists.len(),
    ensures
        unsettled(dists.push(x), balance, from, to, code) == unsettled(dists, balance, from, to, code),
    decreases to - from,
{
    if to > from {
        lemma_unsettled_prefix(dists, x, balance, from, to - 1, code);
    }
}

/// Appending an entry adds exactly its share to what is owed.
pub proof fn lemma_unsettled_push(
    dists: Seq<DistributionCheckpoint>,
    x: DistributionCheckpoint,
    balance: int,
    from: int,
    code: u32,
)
    requires
        0 <= from <= dists.len(),
    ensures
        unsettled(dists.push(x), balance, from, dists.len() + 1int, code) == unsettled(
            dists,
            balance,
            from,
            dists.len() as int,
            code,
        ) + type_share(x, balance, code),
{
    lemma_unsettled_prefix(dists, x, balance, from, dists.len() as int, code);
}

/// Owed amounts are non-negative and grow with the range.
pub proof fn lemma_unsettled_monotone(
    dists: Seq<DistributionCheckpoint>,
    balance: int,
    from: int,
    mid: int,
    to: int,
    code: u32,
)
    requires
        balance >= 0,
        0 <= from <= mid <= to <= dists.len(),
        journal_wf(dists),
    ensures
        0 <= unsettled(dists, balance, from, mid, code) <= unsettled(dists, balance, from, to, code),
    decreases to - mid,
{
    if to > mid {
        lemma_unsettled_monotone(dists, balance, from, mid, to - 1, code);
        let c = dists[to - 1];
        assert(checkpoint_wf(dists, to - 1));
        lemma_allocation_bounded(c.amount as int, c.total_shares as int);
        lemma_share_monotone(0, balance, c.per_share_scaled as int);
    } else {
        lemma_unsettled_nonneg(dists, balance, from, mid, code);
    }
}

pub proof fn lemma_unsettled_nonneg(
    dists: Seq<DistributionCheckpoint>,
    balance: int,
    from: int,
    to: int,
    code: u32,
)
    requires
        balance >= 0,
        0 <= from,
        to <= dists.len(),
        journal_wf(dists),
    ensures
        unsettled(dists, balance, from, to, code) >= 0,
    decreases to - from,
{
    if to > from {
        lemma_unsettled_nonneg(dists, balance, from, to - 1, code);
        let c = dists[to - 1];
        assert(checkpoint_wf(dists, to - 1));
        lemma_allocation_bounded(c.amount as int, c.total_shares as int);
        lemma_share_monotone(0, balance, c.per_share_scaled as int);
    }
}

/// The three types together receive the whole share of an entry.
pub proof fn lemma_type_shares_total(c: DistributionCheckpoint, balance: int)
    requires
        c.distribution_type <= OTHER_CODE,
    ensures
        type_share(c, balance, RENT_CODE) + type_share(c, balance, CAPITAL_CODE) + type_share(
            c,
            balance,
            OTHER_CODE,
        ) == share_of(balance, c.per_share_scaled as int),
{
}

/// What a holder of `balance` shares is owed of all types from the entries
/// `from..to` of the journal.
pub open spec fn unsettled_all(dists: Seq<DistributionCheckpoint>, balance: int, from: int, to: int) -> int
    decreases to - from,
{
    if to <= from {
        0
    } else {
        unsettled_all(dists, balance, from, to - 1) + share_of(balance, dists[to - 1].per_share_scaled as int)
    }
}

/// The owed amounts of the three types add up to the owed amount of all types.
pub proof fn lemma_unsettled_split(dists: Seq<DistributionCheckpoint>, balance: int, from: int, to: int)
    requires
        journal_wf(dists),
        0 <= from,
        to <= dists.len(),
    ensures
        unsettled(dists, balance, from, to, RENT_CODE) + unsettled(dists, balance, from, to, CAPITAL_CODE)
            + unsettled(dists, balance, from, to, OTHER_CODE) == unsettled_all(dists, balance, from, to),
    decreases to - from,
{
    if to > from {
        lemma_unsettled_split(dists, balance, from, to - 1);
        assert(checkpoint_wf(dists, to - 1));
        lemma_type_shares_total(dists[to - 1], balance);
    }
}

} // verus!
