use property_token::distribution::DistributionType;
use property_token::fixed_point::compute_share;
use property_token::meta::{check_blank, str_equal, validate_meta, validate_property_type, MetaError, PropertyMeta};
use property_token::token::{KycStatus, PropertyToken, TokenError};

const ADMIN: u64 = 1;
const OK_KYC: KycStatus = KycStatus { approved: true, tier: 1 };
const NO_KYC: KycStatus = KycStatus { approved: false, tier: 0 };

fn meta_with(total_shares: i128) -> PropertyMeta {
    PropertyMeta {
        property_id: "PROP-9".to_string(),
        legal_name: "Harbor View LLC".to_string(),
        jurisdiction: "US-CA".to_string(),
        address: "9 Harbor Rd".to_string(),
        total_valuation_usd: 5_000_000,
        total_shares,
        property_type: "land".to_string(),
        ipfs_title_hash: "Qm".to_string(),
        kyc_tier_required: 1,
    }
}

fn token(total_shares: i128) -> PropertyToken {
    PropertyToken::new(ADMIN, 2, 3, meta_with(total_shares)).unwrap()
}

fn mint(t: &mut PropertyToken, to: u64, amount: i128) {
    t.mint(ADMIN, to, amount, OK_KYC, true, 10).unwrap();
}

#[test]
fn meta_validation_reports_each_rule() {
    let mut m = meta_with(10);
    m.property_type = "Land".to_string();
    assert_eq!(validate_meta(&m), Err(MetaError::InvalidPropertyType));
    let mut m = meta_with(10);
    m.legal_name = "\t \n\r".to_string();
    assert_eq!(validate_meta(&m), Err(MetaError::InvalidLegalName));
    let mut m = meta_with(10);
    m.legal_name = "".to_string();
    assert_eq!(validate_meta(&m), Err(MetaError::InvalidLegalName));
    assert_eq!(validate_meta(&meta_with(0)), Err(MetaError::InvalidTotalShares));
    let mut m = meta_with(10);
    m.legal_name = "  Padded Name ".to_string();
    assert_eq!(validate_meta(&m), Ok(()));
    assert_eq!(
        PropertyToken::new(ADMIN, 2, 3, meta_with(-5)).err(),
        Some(TokenError::InvalidMeta(MetaError::InvalidTotalShares))
    );
}

#[test]
fn string_helpers_compare_by_characters() {
    assert!(str_equal("commercial", "commercial"));
    assert!(!str_equal("commercial", "commercia"));
    assert!(!str_equal("land", "lanD"));
    assert!(validate_property_type("residential"));
    assert!(!validate_property_type("residential "));
    assert!(check_blank("   "));
    assert!(check_blank(""));
    assert!(!check_blank(" a "));
}

#[test]
fn distribution_type_codes_round_trip() {
    for t in [DistributionType::Rent, DistributionType::Capital, DistributionType::Other] {
        assert_eq!(DistributionType::from_code(t.code()), Some(t));
    }
    assert_eq!(DistributionType::Rent.code(), 0);
    assert_eq!(DistributionType::Other.code(), 2);
    assert_eq!(DistributionType::from_code(3), None);
}

#[test]
fn share_is_rounded_down() {
    assert_eq!(compute_share(3, 33_333_333), 9);
    assert_eq!(compute_share(1, 33_333_333), 3);
    assert_eq!(compute_share(7, 1_428_571_428_571), 999_999);
    assert_eq!(compute_share(0, 1_428_571_428_571), 0);
}

#[test]
fn queries_after_creation() {
    let t = token(100);
    assert_eq!(t.version(), "1.0.0");
    assert_eq!(t.admin(), ADMIN);
    assert_eq!(t.kyc_registry(), 2);
    assert_eq!(t.compliance_engine(), 3);
    assert_eq!(t.shares_outstanding(), 0);
    assert_eq!(t.dividend_pool(), 0);
    assert_eq!(t.dust_reserve(), 0);
    assert_eq!(t.get_distribution(0), None);
    assert_eq!(t.get_distributions(0, 5).len(), 0);
    assert_eq!(t.holding_since(5), None);
    assert_eq!(t.settled_checkpoint(5), 0);
    assert_eq!(t.get_meta(), meta_with(100));
}

#[test]
fn every_error_variant_has_a_trigger() {
    let mut t = token(100);
    assert_eq!(t.initialize(ADMIN, 2, 3, &meta_with(100)), Err(TokenError::AlreadyInitialized));
    assert_eq!(t.mint(9, 5, 10, OK_KYC, true, 0), Err(TokenError::Unauthorized));
    assert_eq!(t.mint(ADMIN, 5, 0, OK_KYC, true, 0), Err(TokenError::InvalidAmount));
    assert_eq!(t.mint(ADMIN, 5, 10, NO_KYC, true, 0), Err(TokenError::KycNotApproved));
    assert_eq!(
        t.mint(ADMIN, 5, 10, KycStatus { approved: true, tier: 0 }, true, 0),
        Err(TokenError::KycTierTooLow)
    );
    assert_eq!(t.mint(ADMIN, 5, 10, OK_KYC, false, 0), Err(TokenError::ComplianceRejected));
    assert_eq!(t.mint(ADMIN, 5, 101, OK_KYC, true, 0), Err(TokenError::ExceedsTotalShares));
    mint(&mut t, 5, 10);
    assert_eq!(t.transfer(5, 6, 11, OK_KYC, OK_KYC, true, 0), Err(TokenError::InsufficientBalance));
    assert_eq!(t.approve(5, 6, 3, 10, 20), Err(TokenError::InvalidExpiration));
    assert_eq!(t.approve(5, 6, -3, 30, 20), Err(TokenError::InvalidAmount));
    assert_eq!(
        t.transfer_from(6, 5, 7, 1, OK_KYC, OK_KYC, true, 0, 20),
        Err(TokenError::InsufficientAllowance)
    );
    assert_eq!(t.deposit_dividend(ADMIN, 10, 7, 0), Err(TokenError::InvalidDistributionType));
    assert_eq!(t.deposit_dividend(ADMIN, i128::MAX / 10_000_000 + 1, 0, 0), Err(TokenError::Overflow));
    assert_eq!(t.buyback(ADMIN, 5, 10, OK_KYC), Ok(()));
    assert_eq!(t.buyback(ADMIN, 5, 1, OK_KYC), Err(TokenError::InsufficientBalance));
    let mut u = token(4);
    mint(&mut u, 5, 4);
    u.buyback(ADMIN, 5, 4, OK_KYC).unwrap();
    assert_eq!(u.total_shares(), 0);
    assert_eq!(u.deposit_dividend(ADMIN, 10, 0, 0), Err(TokenError::NoShares));
    // Refused operations leave the state untouched.
    assert_eq!(t.shares_outstanding(), 0);
    assert_eq!(t.dividend_deposit_count(), 0);
}

#[test]
fn supply_never_exceeds_total_shares() {
    let mut t = token(100);
    mint(&mut t, 5, 60);
    assert_eq!(t.mint(ADMIN, 6, 41, OK_KYC, true, 0), Err(TokenError::ExceedsTotalShares));
    mint(&mut t, 6, 40);
    assert_eq!(t.shares_outstanding(), 100);
    // Buying back retires shares: the unissued count stays the same.
    t.buyback(ADMIN, 6, 15, OK_KYC).unwrap();
    assert_eq!(t.total_shares(), 85);
    assert_eq!(t.shares_outstanding(), 85);
    assert_eq!(t.mint(ADMIN, 6, 1, OK_KYC, true, 0), Err(TokenError::ExceedsTotalShares));
    // The share count cannot be set below what is held.
    let mut m = t.get_meta();
    m.total_shares = 84;
    assert_eq!(t.update_meta(ADMIN, m.clone()), Err(TokenError::ExceedsTotalShares));
    m.total_shares = 90;
    t.update_meta(ADMIN, m).unwrap();
    mint(&mut t, 7, 5);
    assert_eq!(t.shares_outstanding(), 90);
}

#[test]
fn dust_collection_never_overdraws_pool() {
    // 3 shares, two deposits of 10: each gives 9 to the holder and 1 to dust.
    let mut t = token(3);
    mint(&mut t, 5, 3);
    t.deposit_dividend(ADMIN, 10, 2, 0).unwrap();
    t.deposit_dividend(ADMIN, 10, 2, 0).unwrap();
    assert_eq!(t.dust_reserve(), 2);
    assert_eq!(t.pending_dividend(5), 18);
    assert_eq!(t.collect_dust_reserve(ADMIN), Ok(2));
    assert_eq!(t.dividend_pool(), 18);
    assert_eq!(t.claim_dividend(5), 18);
    assert_eq!(t.dividend_pool(), 0);
    assert_eq!(t.collect_dust_reserve(9), Err(TokenError::Unauthorized));
}

#[test]
fn pool_covers_all_holders_with_uneven_split() {
    // 3 holders of 1 share each; 10 units: each gets 3, dust 1.
    let mut t = token(3);
    mint(&mut t, 5, 1);
    mint(&mut t, 6, 1);
    mint(&mut t, 7, 1);
    t.deposit_dividend(ADMIN, 10, 0, 0).unwrap();
    let owed: i128 = [5, 6, 7].iter().map(|h| t.pending_dividend(*h)).sum();
    assert_eq!(owed, 9);
    assert_eq!(t.dust_reserve(), 1);
    assert!(t.dust_reserve() + owed <= t.dividend_pool());
    let c = t.get_distribution(0).unwrap();
    assert_eq!(c.allocated_amount + t.dust_reserve(), 10);
}

#[test]
fn checkpoint_audit_fields_for_prime_share_count() {
    let mut t = token(7);
    mint(&mut t, 5, 7);
    t.deposit_dividend(ADMIN, 1_000_000, 1, 77).unwrap();
    let c = t.get_distribution(0).unwrap();
    assert_eq!(c.per_share_scaled, 1_428_571_428_571);
    assert_eq!(c.per_share, 142_857);
    assert_eq!(c.allocated_amount, 999_999);
    assert_eq!(c.remainder, 1);
    assert_eq!(c.capital_cumulative_per_share, 1_428_571_428_571);
    assert_eq!(c.type_cumulative_per_share, 1_428_571_428_571);
    assert_eq!(c.rent_cumulative_per_share, 0);
    assert_eq!(c.timestamp, 77);
    let u = t.unclaimed_balance(5);
    assert_eq!(u.capital, 999_999);
    assert_eq!(u.total, 999_999);
    let h = t.get_dividend_history(0, 1);
    assert_eq!(h[0].running_total_dps, 1_428_571_428_571);
    assert_eq!(h[0].timestamp, 77);
}

#[test]
fn rounding_never_exceeds_pro_rata_share() {
    // One of three shares, 10 units: exact part is 3.33, paid part 3.
    let mut t = token(3);
    mint(&mut t, 5, 1);
    t.deposit_dividend(ADMIN, 10, 2, 0).unwrap();
    let paid = t.pending_dividend(5);
    assert_eq!(paid, 3);
    assert!(paid * 3 <= 1 * 10);
}

#[test]
fn holder_count_tracks_addresses_with_shares() {
    let mut t = token(100);
    mint(&mut t, 5, 10);
    mint(&mut t, 6, 10);
    t.transfer(5, 7, 10, OK_KYC, OK_KYC, true, 0).unwrap();
    assert_eq!(t.holder_count(), 2);
    assert!(!t.is_holder(5));
    t.transfer(6, 5, 4, OK_KYC, OK_KYC, true, 0).unwrap();
    assert_eq!(t.holder_count(), 3);
    let holders = [5u64, 6, 7].iter().filter(|a| t.balance(**a) > 0).count() as u32;
    assert_eq!(t.holder_count(), holders);
}

#[test]
fn holding_period_starts_on_acquisition() {
    let mut t = token(100);
    t.mint(ADMIN, 5, 10, OK_KYC, true, 50).unwrap();
    assert_eq!(t.holding_since(5), Some(50));
    t.mint(ADMIN, 5, 10, OK_KYC, true, 60).unwrap();
    assert_eq!(t.holding_since(5), Some(50));
    t.transfer(5, 6, 20, OK_KYC, OK_KYC, true, 70).unwrap();
    assert_eq!(t.holding_since(5), None);
    assert_eq!(t.holding_since(6), Some(70));
    t.transfer(6, 5, 1, OK_KYC, OK_KYC, true, 80).unwrap();
    assert_eq!(t.holding_since(5), Some(80));
    assert_eq!(t.holding_since(6), Some(70));
}

#[test]
fn allowance_expires_and_is_spent() {
    let mut t = token(100);
    mint(&mut t, 5, 50);
    t.approve(5, 6, 30, 200, 100).unwrap();
    assert_eq!(t.allowance(5, 6, 150), 30);
    assert_eq!(t.allowance(5, 6, 201), 0);
    t.transfer_from(6, 5, 7, 10, OK_KYC, OK_KYC, true, 0, 150).unwrap();
    assert_eq!(t.allowance(5, 6, 150), 20);
    assert_eq!(t.balance(7), 10);
    assert_eq!(
        t.transfer_from(6, 5, 7, 5, OK_KYC, OK_KYC, true, 0, 201),
        Err(TokenError::InsufficientAllowance)
    );
    // A refused movement leaves the allowance as it was.
    assert_eq!(
        t.transfer_from(6, 5, 7, 5, OK_KYC, NO_KYC, true, 0, 150),
        Err(TokenError::KycNotApproved)
    );
    assert_eq!(t.allowance(5, 6, 150), 20);
    // A new approval replaces the old one; zero revokes.
    t.approve(5, 6, 0, 0, 150).unwrap();
    assert_eq!(t.allowance(5, 6, 150), 0);
    assert_eq!(t.allowance(6, 5, 150), 0);
}

#[test]
fn self_transfer_changes_nothing() {
    let mut t = token(100);
    mint(&mut t, 5, 10);
    t.deposit_dividend(ADMIN, 100, 0, 0).unwrap();
    t.transfer(5, 5, 10, OK_KYC, OK_KYC, true, 0).unwrap();
    assert_eq!(t.balance(5), 10);
    assert_eq!(t.pending_dividend(5), 10);
    assert_eq!(t.transfer(5, 5, 11, OK_KYC, OK_KYC, true, 0), Err(TokenError::InsufficientBalance));
}

#[test]
fn forced_transfer_skips_compliance_but_not_kyc() {
    let mut t = token(100);
    mint(&mut t, 5, 10);
    assert_eq!(t.transfer(5, 6, 5, OK_KYC, OK_KYC, false, 0), Err(TokenError::ComplianceRejected));
    t.forced_transfer(ADMIN, 5, 6, 5, OK_KYC, 0).unwrap();
    assert_eq!(t.balance(6), 5);
    assert_eq!(t.forced_transfer(ADMIN, 5, 7, 5, NO_KYC, 0), Err(TokenError::KycNotApproved));
    assert_eq!(t.forced_transfer(6, 5, 7, 5, OK_KYC, 0), Err(TokenError::Unauthorized));
}

#[test]
fn transfer_keeps_typed_dividends_with_sender() {
    let mut t = token(10);
    mint(&mut t, 5, 10);
    t.deposit_dividend(ADMIN, 100, 0, 0).unwrap();
    t.deposit_dividend(ADMIN, 50, 1, 0).unwrap();
    t.transfer(5, 6, 4, OK_KYC, OK_KYC, true, 0).unwrap();
    let a = t.unclaimed_balance(5);
    assert_eq!((a.rent, a.capital, a.other), (100, 50, 0));
    let b = t.unclaimed_balance(6);
    assert_eq!((b.rent, b.capital, b.other), (0, 0, 0));
    t.deposit_dividend(ADMIN, 30, 2, 0).unwrap();
    assert_eq!(t.unclaimed_balance(5).other, 18);
    assert_eq!(t.unclaimed_balance(6).other, 12);
}

#[test]
fn migration_settles_without_changing_claims() {
    let mut t = token(10);
    mint(&mut t, 5, 10);
    t.deposit_dividend(ADMIN, 100, 0, 0).unwrap();
    t.deposit_dividend(ADMIN, 100, 1, 0).unwrap();
    assert_eq!(t.settled_checkpoint(5), 0);
    assert_eq!(t.force_migrate_holder_checkpoint(7, 5), Err(TokenError::Unauthorized));
    t.force_migrate_holder_checkpoint(ADMIN, 5).unwrap();
    assert_eq!(t.settled_checkpoint(5), 2);
    assert_eq!(t.pending_dividend(5), 200);
    // An address without an account is accepted and stays without claims.
    t.force_migrate_holder_checkpoint(ADMIN, 99).unwrap();
    assert_eq!(t.pending_dividend(99), 0);
}

#[test]
fn claims_of_unknown_address_pay_nothing() {
    let mut t = token(10);
    mint(&mut t, 5, 10);
    t.deposit_dividend(ADMIN, 100, 0, 0).unwrap();
    assert_eq!(t.claim_dividend(42), 0);
    assert_eq!(t.claim_rent_yield(42), 0);
    assert_eq!(t.dividend_pool(), 100);
}

#[test]
fn admin_only_configuration() {
    let mut t = token(10);
    assert_eq!(t.update_kyc_registry(4, 8), Err(TokenError::Unauthorized));
    assert_eq!(t.update_compliance_engine(4, 8), Err(TokenError::Unauthorized));
    assert_eq!(t.update_meta(4, meta_with(10)), Err(TokenError::Unauthorized));
    assert_eq!(t.deposit_dividend(4, 10, 0, 0), Err(TokenError::Unauthorized));
    assert_eq!(t.buyback(4, 5, 1, OK_KYC), Err(TokenError::Unauthorized));
    t.update_kyc_registry(ADMIN, 8).unwrap();
    t.update_compliance_engine(ADMIN, 9).unwrap();
    assert_eq!((t.kyc_registry(), t.compliance_engine()), (8, 9));
}

#[test]
fn stored_parts_restore_the_same_token() {
    let mut t = token(10);
    mint(&mut t, 5, 6);
    mint(&mut t, 6, 4);
    t.deposit_dividend(ADMIN, 100, 0, 3).unwrap();
    t.approve(5, 6, 2, 50, 1).unwrap();
    let parts = t.to_parts();
    let mut u = PropertyToken::from_parts(parts).unwrap();
    assert_eq!(u.balance(5), 6);
    assert_eq!(u.pending_dividend(6), 40);
    assert_eq!(u.allowance(5, 6, 10), 2);
    assert_eq!(u.holder_count(), 2);
    assert_eq!(u.get_meta(), t.get_meta());
    assert_eq!(u.claim_dividend(5), 60);
    assert_eq!(u.dividend_pool(), 40);
}

#[test]
fn inconsistent_parts_are_refused() {
    let mut t = token(10);
    mint(&mut t, 5, 6);
    t.deposit_dividend(ADMIN, 100, 1, 0).unwrap();

    let mut p = t.to_parts();
    p.circulating = 7;
    assert!(PropertyToken::from_parts(p).is_none());

    let mut p = t.to_parts();
    p.holder_count = 2;
    assert!(PropertyToken::from_parts(p).is_none());

    let mut p = t.to_parts();
    p.dividend_pool = 59;
    assert!(PropertyToken::from_parts(p).is_none());

    let mut p = t.to_parts();
    let dup = p.accounts[0];
    p.accounts.push(dup);
    assert!(PropertyToken::from_parts(p).is_none());

    let mut p = t.to_parts();
    p.distributions[0].allocated_amount += 1;
    assert!(PropertyToken::from_parts(p).is_none());

    let mut p = t.to_parts();
    p.distributions[0].capital_cumulative_per_share = 0;
    assert!(PropertyToken::from_parts(p).is_none());

    let mut p = t.to_parts();
    p.dust_reserve = -1;
    assert!(PropertyToken::from_parts(p).is_none());

    assert!(PropertyToken::from_parts(t.to_parts()).is_some());
}
