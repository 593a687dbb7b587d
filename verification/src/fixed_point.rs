//! Fixed-point arithmetic for dividend accounting.
//!
//! A distribution of `amount` base units over `total_shares` shares is recorded as
//! `per_share_scaled = floor(amount * SCALE / total_shares)`; a holder of `balance`
//! shares is entitled to `floor(balance * per_share_scaled / SCALE)` of it.

use vstd::prelude::*;

verus! {

/// Scaling factor of per-share dividend amounts (seven decimal places).
pub const SCALE: i128 = 10_000_000;

/// Scaled dividend per share of a distribution.
pub open spec fn per_share_scaled_of(amount: int, total_shares: int) -> int {
    (amount * SCALE) / total_shares
}

/// What a holder of `balance` shares receives from a distribution with the given
/// scaled per-share amount.
pub open spec fn share_of(balance: int, per_share_scaled: int) -> int {
    (balance * per_share_scaled) / (SCALE as int)
}

/// Amount of a distribution allocated to the whole share supply; the rest is dust.
pub open spec fn allocated_of(per_share_scaled: int, total_shares: int) -> int {
    share_of(total_shares, per_share_scaled)
}

/// Floor division is superadditive on non-negative numerators.
pub proof fn lemma_floor_superadditive(a: int, b: int)
    requires
        a >= 0,
        b >= 0,
    ensures
        a / (SCALE as int) + b / (SCALE as int) <= (a + b) / (SCALE as int),
{
    let s = SCALE as int;
    assert(a / s + b / s <= (a + b) / s) by (nonlinear_arith)
        requires
            a >= 0,
            b >= 0,
            s > 0,
    {
        let qa = a / s;
        let qb = b / s;
        assert(a >= qa * s);
        assert(b >= qb * s);
        assert(a + b >= (qa + qb) * s);
    }
}

/// A share is non-negative and grows with the balance.
pub proof fn lemma_share_monotone(b1: int, b2: int, p: int)
    requires
        0 <= b1 <= b2,
        p >= 0,
    ensures
        0 <= share_of(b1, p) <= share_of(b2, p),
{
    let s = SCALE as int;
    assert(0 <= b1 * p <= b2 * p) by (nonlinear_arith)
        requires
            0 <= b1 <= b2,
            p >= 0,
    ;
    assert(0 <= (b1 * p) / s <= (b2 * p) / s) by (nonlinear_arith)
        requires
            0 <= b1 * p <= b2 * p,
            s > 0,
    ;
}

/// Shares of two balances add up to at most the share of their sum.
pub proof fn lemma_share_superadditive(b1: int, b2: int, p: int)
    requires
        b1 >= 0,
        b2 >= 0,
        p >= 0,
    ensures
        share_of(b1, p) + share_of(b2, p) <= share_of(b1 + b2, p),
{
    assert(b1 * p >= 0 && b2 * p >= 0 && b1 * p + b2 * p == (b1 + b2) * p) by (nonlinear_arith)
        requires
            b1 >= 0,
            b2 >= 0,
            p >= 0,
    ;
    lemma_floor_superadditive(b1 * p, b2 * p);
}

/// The scaled amount of a distribution never exceeds what was deposited:
/// `per_share_scaled * total_shares <= amount * SCALE`, hence the allocation is at
/// most the amount.
pub proof fn lemma_allocation_bounded(amount: int, total_shares: int)
    requires
        amount >= 0,
        total_shares > 0,
    ensures
        per_share_scaled_of(amount, total_shares) >= 0,
        per_share_scaled_of(amount, total_shares) * total_shares <= amount * SCALE,
        0 <= allocated_of(per_share_scaled_of(amount, total_shares), total_shares) <= amount,
{
    let s = SCALE as int;
    let p = per_share_scaled_of(amount, total_shares);
    assert(p >= 0 && p * total_shares <= amount * s) by (nonlinear_arith)
        requires
            amount >= 0,
            total_shares > 0,
            s > 0,
            p == (amount * s) / total_shares,
    ;
    assert(0 <= (total_shares * p) / s <= amount) by (nonlinear_arith)
        requires
            p >= 0,
            total_shares > 0,
            p * total_shares <= amount * s,
            s > 0,
            amount >= 0,
    ;
}

/// A balance bounded by the share supply of a distribution has a share whose
/// numerator is bounded by the scaled amount.
pub proof fn lemma_share_numerator_bounded(balance: int, per_share_scaled: int, total_shares: int, amount: int)
    requires
        0 <= balance <= total_shares,
        per_share_scaled >= 0,
        per_share_scaled * total_shares <= amount * SCALE,
    ensures
        0 <= balance * per_share_scaled <= amount * SCALE,
{
    assert(0 <= balance * per_share_scaled <= per_share_scaled * total_shares) by (nonlinear_arith)
        requires
            0 <= balance <= total_shares,
            per_share_scaled >= 0,
    ;
}

/// Computes `floor(balance * per_share_scaled / SCALE)`.
pub fn compute_share(balance: i128, per_share_scaled: i128) -> (r: i128)
    requires
        balance >= 0,
        per_share_scaled >= 0,
        balance * per_share_scaled <= i128::MAX,
    ensures
        r == share_of(balance as int, per_share_scaled as int),
        r >= 0,
{
    proof {
        lemma_share_monotone(0, balance as int, per_share_scaled as int);
    }
    let product = balance * per_share_scaled;
    product / SCALE
}

/// `amount * SCALE` fits exactly when `amount` does not exceed `i128::MAX / SCALE`.
pub proof fn lemma_scale_fits(amount: int)
    ensures
        (amount * SCALE <= i128::MAX) <==> (amount <= i128::MAX / SCALE),
{
    let s = SCALE as int;
    let m = i128::MAX as int;
    assert((amount * s <= m) <==> (amount <= m / s)) by (nonlinear_arith)
        requires
            s == 10_000_000,
            m == 0x7fff_ffff_ffff_ffff_ffff_ffff_ffff_ffff,
    ;
}

/// The whole units per share of a distribution times the share count never
/// exceed the amount.
pub proof fn lemma_audit_bounds(pss: int, total: int, amount: int)
    requires
        pss >= 0,
        total > 0,
        amount > 0,
        pss * total <= amount * SCALE,
    ensures
        0 <= (pss / (SCALE as int)) * total <= amount,
        0 <= pss / (SCALE as int) <= pss,
{
    let s = SCALE as int;
    assert(0 <= (pss / s) * total <= amount && 0 <= pss / s <= pss) by (nonlinear_arith)
        requires
            pss >= 0,
            total > 0,
            amount > 0,
            pss * total <= amount * s,
            s > 0,
    {
        let q = pss / s;
        assert(q * s <= pss);
        assert(q * s * total <= pss * total);
    }
}

} // verus!
