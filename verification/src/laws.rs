//! Properties relating several operations of the token, proved from their
//! contracts.

use vstd::prelude::*;

use crate::distribution::{cum_all, cum_type, type_share, CAPITAL_CODE, OTHER_CODE, RENT_CODE};
use crate::fixed_point::{lemma_allocation_bounded, per_share_scaled_of, share_of, SCALE};
use crate::ledger::unclaimed_total;
use crate::meta::{is_valid_property_type, meta_check, MetaError, PropertyMeta};
use crate::token::{KycStatus, PropertyToken, TokenError};

verus! {

/// After claiming everything, a second claim pays nothing.
pub proof fn law_second_claim_pays_nothing(
    t0: PropertyToken,
    t1: PropertyToken,
    t2: PropertyToken,
    holder: u64,
    first: int,
    second: int,
)
    requires
        t1.claimed(t0, holder, true, true, true, first),
        t2.claimed(t1, holder, true, true, true, second),
    ensures
        first == unclaimed_total(t0.holding_of(holder)),
        second == 0,
        unclaimed_total(t2.holding_of(holder)) == 0,
{
}

/// After claiming one kind of dividend, claiming that kind again pays nothing.
pub proof fn law_second_typed_claim_pays_nothing(
    t0: PropertyToken,
    t1: PropertyToken,
    t2: PropertyToken,
    holder: u64,
    rent: bool,
    first: int,
    second: int,
)
    requires
        t1.claimed(t0, holder, rent, !rent, false, first),
        t2.claimed(t1, holder, rent, !rent, false, second),
    ensures
        second == 0,
{
}

/// A claim of one kind lowers the holder's total unclaimed dividends by exactly
/// what it paid and leaves the other kinds untouched.
pub proof fn law_typed_claim_reconciles_total(
    t0: PropertyToken,
    t1: PropertyToken,
    holder: u64,
    rent: bool,
    capital: bool,
    other: bool,
    paid: int,
)
    requires
        t1.claimed(t0, holder, rent, capital, other, paid),
    ensures
        unclaimed_total(t1.holding_of(holder)) == unclaimed_total(t0.holding_of(holder)) - paid,
        !rent ==> t1.holding_of(holder).rent == t0.holding_of(holder).rent,
        !capital ==> t1.holding_of(holder).capital == t0.holding_of(holder).capital,
        !other ==> t1.holding_of(holder).other == t0.holding_of(holder).other,
        t1.pool() == t0.pool() - paid,
{
}

/// Moving shares leaves every address's unclaimed dividends where they were
/// accrued, and conserves the shares held in total.
pub proof fn law_movement_keeps_dividends(
    t0: PropertyToken,
    t1: PropertyToken,
    from: u64,
    to: u64,
    amount: int,
    now: u64,
    x: u64,
)
    requires
        t1.moved(t0, from, to, amount, now),
    ensures
        t1.holding_of(x).rent == t0.holding_of(x).rent,
        t1.holding_of(x).capital == t0.holding_of(x).capital,
        t1.holding_of(x).other == t0.holding_of(x).other,
        t1.circulating_supply() == t0.circulating_supply(),
        from != to ==> t1.holding_of(from).balance + t1.holding_of(to).balance == t0.holding_of(from).balance
            + t0.holding_of(to).balance,
{
    if from != to && x != from && x != to {
        assert(t1.holding_of(x) == t0.holding_of(x));
    }
}

/// A deposit is split exactly into what the share supply is allocated and what
/// goes to the dust reserve; neither part is negative.
pub proof fn law_deposit_splits_amount(t0: PropertyToken, t1: PropertyToken, caller: u64, amount: i128, code: u32, now: u64)
    requires
        t0.wf(),
        t0.deposit_outcome(caller, amount, code) is Ok,
        t1.deposited(t0, amount, code, now),
    ensures
        t1.journal().last().allocated_amount + (t1.dust() - t0.dust()) == amount,
        0 <= t1.journal().last().allocated_amount <= amount,
        t1.journal().drop_last() == t0.journal(),
{
    t0.law_supply_bounded(0);
    let total = t0.meta_view().total_shares as int;
    lemma_allocation_bounded(amount as int, total);
    assert(t0.journal().push(t0.next_checkpoint(amount, code, now)).drop_last() =~= t0.journal());
}

/// A holder owning the whole share supply at a deposit receives everything but
/// the dust of it.
pub proof fn law_sole_owner_receives_all_but_dust(
    t0: PropertyToken,
    t1: PropertyToken,
    caller: u64,
    amount: i128,
    code: u32,
    now: u64,
    holder: u64,
)
    requires
        t0.wf(),
        t0.deposit_outcome(caller, amount, code) is Ok,
        t1.deposited(t0, amount, code, now),
        t0.holding_of(holder).balance == t0.meta_view().total_shares,
    ensures
        unclaimed_total(t1.holding_of(holder)) - unclaimed_total(t0.holding_of(holder)) + (t1.dust() - t0.dust())
            == amount,
{
    t0.law_supply_bounded(holder);
    let total = t0.meta_view().total_shares as int;
    lemma_allocation_bounded(amount as int, total);
    let c = t0.next_checkpoint(amount, code, now);
    let b = t0.holding_of(holder).balance;
    assert(type_share(c, b, RENT_CODE) + type_share(c, b, CAPITAL_CODE) + type_share(c, b, OTHER_CODE) == share_of(
        b,
        c.per_share_scaled as int,
    ));
}

/// Rounding only ever works against the holder: what a holder of `balance` of
/// `total_shares` shares receives from `amount` is at most its exact pro-rata part.
pub proof fn law_share_at_most_pro_rata(balance: int, amount: int, total_shares: int)
    requires
        0 <= balance <= total_shares,
        amount >= 0,
        total_shares > 0,
    ensures
        0 <= share_of(balance, per_share_scaled_of(amount, total_shares)) * total_shares <= balance * amount,
{
    let p = per_share_scaled_of(amount, total_shares);
    let s = SCALE as int;
    lemma_allocation_bounded(amount, total_shares);
    let q = share_of(balance, p);
    assert(0 <= q * total_shares <= balance * amount) by (nonlinear_arith)
        requires
            q == (balance * p) / s,
            s > 0,
            p >= 0,
            0 <= balance,
            total_shares > 0,
            p * total_shares <= amount * s,
    {
        assert(q * s <= balance * p);
        assert(q >= 0);
        assert(q * s * total_shares <= balance * p * total_shares);
        assert(balance * (p * total_shares) <= balance * (amount * s));
    }
}

/// A buyback retires shares from both the holder and the property's share
/// count, so the number of shares not yet issued is unchanged.
pub proof fn law_buyback_keeps_unissued_shares(t0: PropertyToken, t1: PropertyToken, holder: u64, amount: int)
    requires
        t0.wf(),
        0 <= amount <= t0.holding_of(holder).balance,
        t1.bought_back(t0, holder, amount),
    ensures
        t1.meta_view().total_shares - t1.circulating_supply() == t0.meta_view().total_shares
            - t0.circulating_supply(),
{
    t0.law_supply_bounded(holder);
}

/// A deposit appends a checkpoint recording its amount, type, time and the share
/// supply it was divided over, and adds its scaled per-share amount to the
/// overall running total and to the running total of its own type; the running
/// totals of the other types carry over unchanged from the latest checkpoint
/// before it (they start from zero on an empty journal).
pub proof fn law_deposit_carries_running_totals(
    t0: PropertyToken,
    t1: PropertyToken,
    caller: u64,
    amount: i128,
    code: u32,
    now: u64,
)
    requires
        t0.wf(),
        t0.deposit_outcome(caller, amount, code) is Ok,
        t1.deposited(t0, amount, code, now),
    ensures
        ({
            let j0 = t0.journal();
            let n = j0.len() as int;
            let c = t1.journal()[n];
            let pss = per_share_scaled_of(amount as int, t0.meta_view().total_shares as int);
            let prev_all: int = if n == 0 { 0 } else { j0[n - 1].cumulative_per_share as int };
            let prev_rent: int = if n == 0 { 0 } else { j0[n - 1].rent_cumulative_per_share as int };
            let prev_capital: int = if n == 0 { 0 } else { j0[n - 1].capital_cumulative_per_share as int };
            let prev_other: int = if n == 0 { 0 } else { j0[n - 1].other_cumulative_per_share as int };
            &&& t1.journal().len() == n + 1
            &&& c.id == n
            &&& c.amount == amount
            &&& c.total_shares == t0.meta_view().total_shares
            &&& c.distribution_type == code
            &&& c.timestamp == now
            &&& c.per_share_scaled == pss
            &&& c.cumulative_per_share == prev_all + pss
            &&& c.rent_cumulative_per_share == prev_rent + (if code == RENT_CODE { pss } else { 0 })
            &&& c.capital_cumulative_per_share == prev_capital + (if code == CAPITAL_CODE { pss } else { 0 })
            &&& c.other_cumulative_per_share == prev_other + (if code == OTHER_CODE { pss } else { 0 })
        }),
{
    let j0 = t0.journal();
    let n = j0.len() as int;
    let total = t0.meta_view().total_shares as int;
    t0.law_supply_bounded(0);
    lemma_allocation_bounded(amount as int, total);
    if n > 0 {
        t0.law_checkpoints_record_their_arithmetic(n - 1);
    } else {
        assert(cum_all(j0, 0) == 0);
        assert(cum_type(j0, 0, RENT_CODE) == 0);
        assert(cum_type(j0, 0, CAPITAL_CODE) == 0);
        assert(cum_type(j0, 0, OTHER_CODE) == 0);
    }
    assert(t1.journal()[n] == t0.next_checkpoint(amount, code, now));
}

/// KYC gates every issuance, whatever the recipient already holds: the admin's
/// mint of a positive amount is refused with `KycNotApproved` when the
/// registry's record of the recipient is not approved, and with `KycTierTooLow`
/// when it is approved below the required tier. A mint that goes through had an
/// approved recipient of the required tier, the compliance engine's approval and
/// room under the property's share count.
pub proof fn law_mint_requires_kyc(
    t: PropertyToken,
    caller: u64,
    to: u64,
    amount: i128,
    kyc: KycStatus,
    compliance_ok: bool,
)
    requires
        t.wf(),
    ensures
        caller == t.admin_id() && amount > 0 && !kyc.approved ==> t.mint_outcome(caller, to, amount, kyc, compliance_ok)
            == Err::<(), TokenError>(TokenError::KycNotApproved),
        caller == t.admin_id() && amount > 0 && kyc.approved && kyc.tier < t.meta_view().kyc_tier_required
            ==> t.mint_outcome(caller, to, amount, kyc, compliance_ok) == Err::<(), TokenError>(
            TokenError::KycTierTooLow,
        ),
        t.mint_outcome(caller, to, amount, kyc, compliance_ok) is Ok ==> {
            &&& caller == t.admin_id()
            &&& amount > 0
            &&& kyc.approved
            &&& kyc.tier >= t.meta_view().kyc_tier_required
            &&& compliance_ok
            &&& t.circulating_supply() + amount <= t.meta_view().total_shares
        },
{
}

/// The compliance engine's verdict binds every transfer, whatever the recipient
/// already holds: a transfer (direct, or by a spender within its allowance) of a
/// positive amount the sender holds, between KYC-approved parties with the
/// recipient at the required tier, is refused with `ComplianceRejected` when the
/// engine does not approve it. A transfer that goes through had the engine's
/// approval and both parties approved.
pub proof fn law_transfer_requires_compliance(
    t: PropertyToken,
    spender: u64,
    from: u64,
    to: u64,
    amount: i128,
    kyc_from: KycStatus,
    kyc_to: KycStatus,
    compliance_ok: bool,
    current_ledger: u32,
)
    requires
        t.wf(),
    ensures
        ({
            &&& amount > 0
            &&& t.holding_of(from).balance >= amount
            &&& kyc_from.approved
            &&& kyc_to.approved
            &&& kyc_to.tier >= t.meta_view().kyc_tier_required
            &&& !compliance_ok
        }) ==> t.transfer_outcome(from, to, amount, kyc_from, kyc_to, compliance_ok) == Err::<(), TokenError>(
            TokenError::ComplianceRejected,
        ),
        ({
            &&& amount > 0
            &&& t.allowance_at(from, spender, current_ledger) >= amount
            &&& t.holding_of(from).balance >= amount
            &&& kyc_from.approved
            &&& kyc_to.approved
            &&& kyc_to.tier >= t.meta_view().kyc_tier_required
            &&& !compliance_ok
        }) ==> t.transfer_from_outcome(spender, from, to, amount, kyc_from, kyc_to, compliance_ok, current_ledger)
            == Err::<(), TokenError>(TokenError::ComplianceRejected),
        t.transfer_outcome(from, to, amount, kyc_from, kyc_to, compliance_ok) is Ok ==> {
            &&& compliance_ok
            &&& kyc_from.approved
            &&& kyc_to.approved
            &&& kyc_to.tier >= t.meta_view().kyc_tier_required
            &&& 0 < amount <= t.holding_of(from).balance
        },
        t.transfer_from_outcome(spender, from, to, amount, kyc_from, kyc_to, compliance_ok, current_ledger) is Ok
            ==> {
            &&& compliance_ok
            &&& kyc_from.approved
            &&& kyc_to.approved
            &&& kyc_to.tier >= t.meta_view().kyc_tier_required
            &&& 0 < amount <= t.holding_of(from).balance
            &&& amount <= t.allowance_at(from, spender, current_ledger)
        },
{
}

/// Metadata updates are validated as creation validates them: for the admin, and
/// with room for the shares outstanding, an update succeeds exactly when the
/// metadata passes the validation `new` applies; metadata that fails it is
/// refused with the same error, whatever the share count. In particular a legal
/// name made only of spaces is refused.
pub proof fn law_meta_update_validates_as_creation(t: PropertyToken, caller: u64, meta: PropertyMeta)
    requires
        t.wf(),
        caller == t.admin_id(),
    ensures
        meta.total_shares >= t.circulating_supply() ==> (t.update_meta_outcome(caller, meta) is Ok <==> meta_check(
            meta,
        ) is Ok),
        meta_check(meta) matches Err(e) ==> t.update_meta_outcome(caller, meta) == Err::<(), TokenError>(
            TokenError::InvalidMeta(e),
        ),
        is_valid_property_type(meta.property_type@) && (forall|i: int|
            0 <= i < meta.legal_name@.len() ==> #[trigger] meta.legal_name@[i] == ' ') ==> t.update_meta_outcome(
            caller,
            meta,
        ) == Err::<(), TokenError>(TokenError::InvalidMeta(MetaError::InvalidLegalName)),
{
}

/// A deposit credits every address, for the deposit's type only, its balance's
/// share of the deposit's scaled per-share amount; balances and unclaimed
/// dividends of the other types are unchanged.
pub proof fn law_deposit_credits_its_own_type(
    t0: PropertyToken,
    t1: PropertyToken,
    caller: u64,
    amount: i128,
    code: u32,
    now: u64,
    id: u64,
)
    requires
        t0.wf(),
        t0.deposit_outcome(caller, amount, code) is Ok,
        t1.deposited(t0, amount, code, now),
    ensures
        ({
            let h0 = t0.holding_of(id);
            let h1 = t1.holding_of(id);
            let credit = share_of(
                h0.balance as int,
                per_share_scaled_of(amount as int, t0.meta_view().total_shares as int),
            );
            &&& h1.balance == h0.balance
            &&& h1.rent == h0.rent + (if code == RENT_CODE { credit } else { 0 })
            &&& h1.capital == h0.capital + (if code == CAPITAL_CODE { credit } else { 0 })
            &&& h1.other == h0.other + (if code == OTHER_CODE { credit } else { 0 })
        }),
{
    law_deposit_carries_running_totals(t0, t1, caller, amount, code, now);
    assert(t1.holding_of(id) == t1.holding_of(id));
}

} // verus!
