use std::collections::{HashMap, HashSet};

use property_token::distribution::DistributionType;
use property_token::meta::PropertyMeta;
use property_token::token::{KycStatus, PropertyToken, TokenError};

const SCALE: i128 = 10_000_000;

/// Rules of the test compliance engine; zero or `false` disables a rule. Only the
/// rules the tests exercise are enforced.
#[allow(dead_code)]
#[derive(Clone, Copy, Default)]
struct ComplianceRules {
    max_transfer_amount: i128,
    min_holding_period: u64,
    max_holders: u32,
    require_same_jurisdiction: bool,
    paused: bool,
    allowlist_mode: bool,
    max_holding_period: u64,
}

/// A stand-in for the compliance engine the token consults.
#[derive(Default)]
struct Engine {
    paused: bool,
    blocklist: HashSet<u64>,
    rules: ComplianceRules,
}

impl Engine {
    fn pause(&mut self) {
        self.paused = true;
    }

    fn add_to_blocklist(&mut self, addr: u64) {
        self.blocklist.insert(addr);
    }

    fn set_rules(&mut self, rules: ComplianceRules) {
        self.rules = rules;
    }

    fn allows_issuance(&self, to: u64) -> bool {
        !self.paused && !self.rules.paused && !self.blocklist.contains(&to)
    }

    fn allows_transfer(&self, token: &PropertyToken, from: u64, to: u64, amount: i128, now: u64) -> bool {
        if self.paused || self.rules.paused || self.blocklist.contains(&from) || self.blocklist.contains(&to) {
            return false;
        }
        if self.rules.max_transfer_amount > 0 && amount > self.rules.max_transfer_amount {
            return false;
        }
        if self.rules.min_holding_period > 0 {
            match token.holding_since(from) {
                Some(since) if now < since + self.rules.min_holding_period => return false,
                _ => {}
            }
        }
        if self.rules.max_holders > 0 && !token.is_holder(to) && token.holder_count() >= self.rules.max_holders {
            return false;
        }
        true
    }
}

/// A token together with stand-ins for its KYC registries and compliance engines.
struct Harness {
    token: PropertyToken,
    admin: u64,
    registries: HashMap<u64, HashMap<u64, u32>>,
    engines: HashMap<u64, Engine>,
    now: u64,
    ledger: u32,
    next_addr: u64,
}

fn meta() -> PropertyMeta {
    PropertyMeta {
        property_id: "PROP-1".to_string(),
        legal_name: "123 Main St LLC".to_string(),
        jurisdiction: "US-NY".to_string(),
        address: "123 Main St".to_string(),
        total_valuation_usd: 10_000_000_000_000,
        total_shares: 1_000,
        property_type: "residential".to_string(),
        ipfs_title_hash: "".to_string(),
        kyc_tier_required: 1,
    }
}

fn shares_meta(total_shares: i128) -> PropertyMeta {
    PropertyMeta {
        property_id: "PROP-X".to_string(),
        legal_name: "Custom Shares LLC".to_string(),
        jurisdiction: "US".to_string(),
        address: "1 Custom St".to_string(),
        total_valuation_usd: 1_000_000,
        total_shares,
        property_type: "residential".to_string(),
        ipfs_title_hash: "".to_string(),
        kyc_tier_required: 0,
    }
}

fn harness_with(m: PropertyMeta) -> Harness {
    let admin = 1;
    let kyc_id = 2;
    let compliance_id = 3;
    let token = PropertyToken::new(admin, kyc_id, compliance_id, m).unwrap();
    let mut registries = HashMap::new();
    registries.insert(kyc_id, HashMap::new());
    let mut engines = HashMap::new();
    engines.insert(compliance_id, Engine::default());
    Harness { token, admin, registries, engines, now: 1_000, ledger: 100, next_addr: 100 }
}

fn setup() -> Harness {
    harness_with(meta())
}

fn setup_with_shares(total_shares: i128) -> Harness {
    harness_with(shares_meta(total_shares))
}

impl Harness {
    fn generate(&mut self) -> u64 {
        self.next_addr += 1;
        self.next_addr
    }

    fn new_registry(&mut self) -> u64 {
        let id = self.generate();
        self.registries.insert(id, HashMap::new());
        id
    }

    fn new_engine(&mut self) -> u64 {
        let id = self.generate();
        self.engines.insert(id, Engine::default());
        id
    }

    fn approve_kyc(&mut self, addr: u64) {
        self.approve_kyc_with_tier(addr, 1);
    }

    fn approve_kyc_with_tier(&mut self, addr: u64, tier: u32) {
        let registry = self.token.kyc_registry();
        self.registries.get_mut(&registry).unwrap().insert(addr, tier);
    }

    fn kyc(&self, addr: u64) -> KycStatus {
        match self.registries.get(&self.token.kyc_registry()).and_then(|r| r.get(&addr)) {
            Some(tier) => KycStatus { approved: true, tier: *tier },
            None => KycStatus { approved: false, tier: 0 },
        }
    }

    fn compliance(&mut self) -> &mut Engine {
        let id = self.token.compliance_engine();
        self.engines.get_mut(&id).unwrap()
    }

    fn engine(&self) -> &Engine {
        self.engines.get(&self.token.compliance_engine()).unwrap()
    }

    fn mint(&mut self, to: u64, amount: i128) -> Result<(), TokenError> {
        let ok = self.engine().allows_issuance(to);
        let kyc = self.kyc(to);
        self.token.mint(self.admin, to, amount, kyc, ok, self.now)
    }

    fn transfer(&mut self, from: u64, to: u64, amount: i128) -> Result<(), TokenError> {
        let ok = self.engine().allows_transfer(&self.token, from, to, amount, self.now);
        let (kf, kt) = (self.kyc(from), self.kyc(to));
        self.token.transfer(from, to, amount, kf, kt, ok, self.now)
    }

    fn approve(&mut self, owner: u64, spender: u64, amount: i128, expiration_ledger: u32) -> Result<(), TokenError> {
        self.token.approve(owner, spender, amount, expiration_ledger, self.ledger)
    }

    fn transfer_from(&mut self, spender: u64, from: u64, to: u64, amount: i128) -> Result<(), TokenError> {
        let ok = self.engine().allows_transfer(&self.token, from, to, amount, self.now);
        let (kf, kt) = (self.kyc(from), self.kyc(to));
        self.token.transfer_from(spender, from, to, amount, kf, kt, ok, self.now, self.ledger)
    }

    fn forced_transfer(&mut self, from: u64, to: u64, amount: i128) -> Result<(), TokenError> {
        let kt = self.kyc(to);
        self.token.forced_transfer(self.admin, from, to, amount, kt, self.now)
    }

    fn buyback(&mut self, holder: u64, amount: i128) -> Result<(), TokenError> {
        let k = self.kyc(holder);
        self.token.buyback(self.admin, holder, amount, k)
    }

    fn deposit_dividend(&mut self, amount: i128, distribution_type: u32) -> Result<(), TokenError> {
        self.token.deposit_dividend(self.admin, amount, distribution_type, self.now)
    }
}

#[test]
fn test_metadata() {
    let h = setup();
    assert_eq!(h.token.decimals(), 0);
    assert_eq!(h.token.total_shares(), 1_000);
    assert_eq!(h.token.get_meta().property_id, "PROP-1".to_string());
}

#[test]
fn test_mint_and_transfer() {
    let mut h = setup();
    let alice = h.generate();
    let bob = h.generate();
    h.approve_kyc(alice);
    h.approve_kyc(bob);

    let stranger = h.generate();
    assert!(h.mint(stranger, 10).is_err());

    h.mint(alice, 100).unwrap();
    assert_eq!(h.token.balance(alice), 100);

    h.transfer(alice, bob, 40).unwrap();
    assert_eq!(h.token.balance(alice), 60);
    assert_eq!(h.token.balance(bob), 40);
}

#[test]
fn test_mint_rejects_recipient_below_required_tier() {
    let mut h = setup();
    let alice = h.generate();
    h.approve_kyc_with_tier(alice, 0);

    assert!(h.mint(alice, 100).is_err());
}

#[test]
fn test_mint_rejects_blocklisted_recipient() {
    let mut h = setup();
    let alice = h.generate();
    h.approve_kyc(alice);
    h.compliance().add_to_blocklist(alice);

    assert!(h.mint(alice, 100).is_err());
}

#[test]
fn test_mint_rejects_when_compliance_paused() {
    let mut h = setup();
    let alice = h.generate();
    h.approve_kyc(alice);
    h.compliance().pause();

    assert!(h.mint(alice, 100).is_err());
}

#[test]
fn test_transfer_insufficient_shares() {
    let mut h = setup();
    let alice = h.generate();
    let bob = h.generate();
    h.approve_kyc(alice);
    h.approve_kyc(bob);
    h.mint(alice, 10).unwrap();
    assert!(h.transfer(alice, bob, 11).is_err());
}

#[test]
fn test_dividend_distribution() {
    let mut h = setup();
    let alice = h.generate();
    h.approve_kyc(alice);
    h.mint(alice, 100).unwrap();

    // 1000 units over 1000 total shares: 1 per share.
    h.deposit_dividend(1_000, 2).unwrap();
    assert_eq!(h.token.pending_dividend(alice), 100);

    let claimed = h.token.claim_dividend(alice);
    assert_eq!(claimed, 100);
    assert_eq!(h.token.pending_dividend(alice), 0);

    // Claiming again yields nothing.
    assert_eq!(h.token.claim_dividend(alice), 0);
}

#[test]
fn test_multi_round_dividend_with_partial_transfer() {
    let mut h = setup();
    let alice = h.generate();
    let bob = h.generate();
    h.approve_kyc(alice);
    h.approve_kyc(bob);

    h.mint(alice, 1_000).unwrap();

    // First round: Alice owns all 1000 shares.
    h.deposit_dividend(1_000, 2).unwrap();

    h.transfer(alice, bob, 400).unwrap();

    // Second round: Alice owns 600, Bob 400.
    h.deposit_dividend(1_000, 2).unwrap();

    let alice_claimed = h.token.claim_dividend(alice);
    let bob_claimed = h.token.claim_dividend(bob);

    assert_eq!(alice_claimed, 1_600);
    assert_eq!(bob_claimed, 400);
}

#[test]
fn test_deposit_dividend_requires_shares() {
    let mut h = setup();
    // The share count comes from the metadata, so a deposit works before any mint.
    h.deposit_dividend(1_000, 2).unwrap();
    let alice = h.generate();
    assert_eq!(h.token.pending_dividend(alice), 0);
}

#[test]
fn test_non_deployer_cannot_reinitialize() {
    let mut h = setup();
    let attacker = h.generate();
    let kyc_id = h.generate();
    let ce_id = h.generate();
    let result = h.token.initialize(attacker, kyc_id, ce_id, &meta());
    assert!(result.is_err());
}

#[test]
fn test_transfer_blocked_by_holding_period() {
    let mut h = setup();
    let alice = h.generate();
    let bob = h.generate();
    h.approve_kyc(alice);
    h.approve_kyc(bob);

    // A one-hour minimum holding period.
    h.compliance().set_rules(ComplianceRules {
        max_transfer_amount: 0,
        min_holding_period: 3600,
        max_holders: 0,
        require_same_jurisdiction: false,
        paused: false,
        allowlist_mode: false,
        max_holding_period: 0,
    });

    // Minting starts alice's holding period now.
    h.mint(alice, 100).unwrap();

    // Right after minting the holding period has not elapsed.
    assert!(h.transfer(alice, bob, 10).is_err());

    // Past the holding period the transfer succeeds.
    h.now += 3601;
    h.transfer(alice, bob, 10).unwrap();
    assert_eq!(h.token.balance(bob), 10);
    assert_eq!(h.token.balance(alice), 90);
}

#[test]
fn test_transfer_snapshots_dividends() {
    let mut h = setup();
    let alice = h.generate();
    let bob = h.generate();
    h.approve_kyc(alice);
    h.approve_kyc(bob);
    h.mint(alice, 100).unwrap();

    h.deposit_dividend(1_000, 2).unwrap(); // 1 per share
    h.transfer(alice, bob, 100).unwrap();

    // Bob does not inherit Alice's accrued dividend.
    assert_eq!(h.token.pending_dividend(bob), 0);
    // Alice keeps what she accrued while holding.
    assert_eq!(h.token.pending_dividend(alice), 100);
    assert_eq!(h.token.claim_dividend(alice), 100);

    // A later dividend accrues to Bob, not Alice.
    h.deposit_dividend(1_000, 2).unwrap();
    assert_eq!(h.token.pending_dividend(bob), 100);
    assert_eq!(h.token.pending_dividend(alice), 0);
}

#[test]
fn test_holder_list_updated_on_mint() {
    let mut h = setup();
    let alice = h.generate();
    let bob = h.generate();
    h.approve_kyc(alice);
    h.approve_kyc(bob);

    assert_eq!(h.token.holder_count(), 0);

    h.mint(alice, 100).unwrap();
    assert_eq!(h.token.holder_count(), 1);
    assert!(h.token.is_holder(alice));

    h.mint(bob, 50).unwrap();
    assert_eq!(h.token.holder_count(), 2);
    assert!(h.token.is_holder(bob));

    // Minting again to alice does not count her twice.
    h.mint(alice, 10).unwrap();
    assert_eq!(h.token.holder_count(), 2);
}

#[test]
fn test_holder_removed_when_balance_hits_zero() {
    let mut h = setup();
    let alice = h.generate();
    let bob = h.generate();
    h.approve_kyc(alice);
    h.approve_kyc(bob);

    h.mint(alice, 100).unwrap();
    assert_eq!(h.token.holder_count(), 1);
    assert!(h.token.is_holder(alice));

    h.transfer(alice, bob, 100).unwrap();
    assert_eq!(h.token.holder_count(), 1);
    assert!(!h.token.is_holder(alice));
    assert!(h.token.is_holder(bob));
}

#[test]
fn test_transfer_rejects_recipient_below_required_tier() {
    let mut h = setup();
    let alice = h.generate();
    let bob = h.generate();
    h.approve_kyc_with_tier(alice, 1);
    h.approve_kyc_with_tier(bob, 0);
    h.mint(alice, 100).unwrap();
    assert!(h.transfer(alice, bob, 50).is_err());
}

#[test]
fn test_transfer_from_rejects_recipient_below_required_tier() {
    let mut h = setup();
    let alice = h.generate();
    let bob = h.generate();
    let spender = h.generate();
    h.approve_kyc_with_tier(alice, 1);
    h.approve_kyc_with_tier(bob, 0);
    h.approve_kyc_with_tier(spender, 1);
    h.mint(alice, 100).unwrap();
    let expiration = h.ledger + 100;
    h.approve(alice, spender, 50, expiration).unwrap();
    assert!(h.transfer_from(spender, alice, bob, 50).is_err());
}

#[test]
fn test_transfer_from_accepts_recipient_with_sufficient_tier() {
    let mut h = setup();
    let alice = h.generate();
    let bob = h.generate();
    let spender = h.generate();
    h.approve_kyc_with_tier(alice, 1);
    h.approve_kyc_with_tier(bob, 1);
    h.approve_kyc_with_tier(spender, 1);
    h.mint(alice, 100).unwrap();
    let expiration = h.ledger + 100;
    h.approve(alice, spender, 50, expiration).unwrap();
    h.transfer_from(spender, alice, bob, 50).unwrap();
    assert_eq!(h.token.balance(bob), 50);
}

#[test]
#[should_panic]
fn test_invalid_property_type_panics_in_constructor() {
    let mut bad_meta = meta();
    bad_meta.property_type = "warehouse".to_string();
    PropertyToken::new(1, 2, 3, bad_meta).unwrap();
}

#[test]
fn test_valid_property_types_accepted_in_constructor() {
    for pt in ["residential", "commercial", "land"] {
        let mut m = meta();
        m.property_type = pt.to_string();
        let token = PropertyToken::new(1, 2, 3, m).unwrap();
        assert_eq!(token.get_meta().property_type, pt.to_string());
    }
}

#[test]
fn test_invalid_property_type_panics_in_update_meta() {
    let mut h = setup();
    let mut bad_meta = h.token.get_meta();
    bad_meta.property_type = "warehouse".to_string();
    assert!(h.token.update_meta(h.admin, bad_meta).is_err());
}

#[test]
fn test_valid_property_type_accepted_in_update_meta() {
    let mut h = setup();
    let mut new_meta = h.token.get_meta();
    new_meta.property_type = "commercial".to_string();
    h.token.update_meta(h.admin, new_meta).unwrap();
    assert_eq!(h.token.get_meta().property_type, "commercial".to_string());
}

#[test]
fn test_update_kyc_registry_admin_only() {
    let mut h = setup();
    let new_kyc = h.new_registry();

    // Someone other than the admin cannot repoint the registry.
    {
        let mut other = setup();
        let non_admin = other.generate();
        let target = other.generate();
        assert!(other.token.update_kyc_registry(non_admin, target).is_err());
    }

    // The admin can.
    h.token.update_kyc_registry(h.admin, new_kyc).unwrap();

    // Minting now fails: the new registry has no approvals.
    let alice = h.generate();
    let old_registry = 2;
    h.registries.get_mut(&old_registry).unwrap().insert(alice, 1);
    assert!(h.mint(alice, 10).is_err());
}

#[test]
fn test_update_compliance_engine_admin_only() {
    let mut h = setup();

    {
        let mut other = setup();
        let non_admin = other.generate();
        let target = other.generate();
        assert!(other.token.update_compliance_engine(non_admin, target).is_err());
    }

    // A second engine, paused.
    let ce2 = h.new_engine();
    h.engines.get_mut(&ce2).unwrap().pause();

    h.token.update_compliance_engine(h.admin, ce2).unwrap();

    // Issuance through the paused engine is blocked.
    let alice = h.generate();
    h.approve_kyc(alice);
    assert!(h.mint(alice, 10).is_err());
}

#[test]
fn test_buyback_successful() {
    let mut h = setup();
    let alice = h.generate();
    h.approve_kyc(alice);

    h.mint(alice, 100).unwrap();
    assert_eq!(h.token.balance(alice), 100);
    assert_eq!(h.token.total_shares(), 1_000);

    h.deposit_dividend(1_000, 2).unwrap(); // 1 per share
    assert_eq!(h.token.pending_dividend(alice), 100);

    h.buyback(alice, 50).unwrap();

    assert_eq!(h.token.balance(alice), 50);
    assert_eq!(h.token.total_shares(), 950);

    // The dividend accrued before the buyback stays claimable.
    assert_eq!(h.token.pending_dividend(alice), 100);
    let claimed = h.token.claim_dividend(alice);
    assert_eq!(claimed, 100);
}

#[test]
fn test_buyback_insufficient_shares() {
    let mut h = setup();
    let alice = h.generate();
    h.approve_kyc(alice);

    h.mint(alice, 50).unwrap();
    assert!(h.buyback(alice, 51).is_err());
}

#[test]
fn test_buyback_removes_holder_on_zero_balance() {
    let mut h = setup();
    let alice = h.generate();
    let bob = h.generate();
    h.approve_kyc(alice);
    h.approve_kyc(bob);

    h.mint(alice, 50).unwrap();
    h.mint(bob, 30).unwrap();
    assert_eq!(h.token.holder_count(), 2);

    h.buyback(alice, 50).unwrap();

    assert_eq!(h.token.holder_count(), 1);
    assert!(!h.token.is_holder(alice));
    assert!(h.token.is_holder(bob));
}

#[test]
fn test_buyback_non_admin_rejected() {
    let mut h = setup();
    let alice = h.generate();
    let attacker = h.generate();
    h.approve_kyc(alice);
    h.approve_kyc(attacker);

    h.mint(alice, 100).unwrap();

    let k = h.kyc(alice);
    assert!(h.token.buyback(attacker, alice, 50, k).is_err());
}

#[test]
fn test_buyback_rejects_kyc_unapproved_holder() {
    let mut h = setup();
    let alice = h.generate();
    h.approve_kyc(alice);

    h.mint(alice, 100).unwrap();

    // A fresh registry without approvals.
    let new_kyc = h.new_registry();
    h.token.update_kyc_registry(h.admin, new_kyc).unwrap();

    assert!(h.buyback(alice, 50).is_err());
}

#[test]
fn test_version_returns_nonempty() {
    let h = setup();
    let v = h.token.version();
    assert!(!v.is_empty());
}

#[test]
fn test_dividend_history_records_deposits() {
    let mut h = setup();
    let alice = h.generate();
    h.approve_kyc(alice);
    h.mint(alice, 500).unwrap();

    assert_eq!(h.token.dividend_deposit_count(), 0);

    h.deposit_dividend(1_000, 2).unwrap();
    h.deposit_dividend(2_000, 2).unwrap();

    assert_eq!(h.token.dividend_deposit_count(), 2);

    let history = h.token.get_dividend_history(0, 10);
    assert_eq!(history.len(), 2);
    assert_eq!(history[0].amount, 1_000);
    assert_eq!(history[1].amount, 2_000);
}

#[test]
fn test_dividend_history_running_total_dps_legacy() {
    let mut h = setup();
    let alice = h.generate();
    h.approve_kyc(alice);
    h.mint(alice, 1_000).unwrap();

    // 1000 on 1000 shares: 10_000_000 per share (scaled); then 2000: 20_000_000.
    h.deposit_dividend(1_000, 2).unwrap();
    h.deposit_dividend(2_000, 2).unwrap();

    let history = h.token.get_dividend_history(0, 10);
    assert_eq!(history[0].running_total_dps, SCALE);
    assert_eq!(history[1].running_total_dps, 3 * SCALE);
}

#[test]
fn test_distribution_checkpoint_reconciles_rounding() {
    let mut h = setup();
    let alice = h.generate();
    h.approve_kyc(alice);
    h.mint(alice, 1_000).unwrap();

    // 1250 on 1000 shares: per_share_scaled = 12_500_000, alice gets all 1250.
    h.deposit_dividend(1_250, 0).unwrap();

    assert_eq!(h.token.dividend_accounting_version(), 1);
    let checkpoint = h.token.get_distribution(0).unwrap();
    assert_eq!(checkpoint.id, 0);
    assert_eq!(checkpoint.amount, 1_250);
    assert_eq!(checkpoint.total_shares, 1_000);
    assert_eq!(checkpoint.per_share, 1);
    assert_eq!(checkpoint.per_share_scaled, 12_500_000);
    assert_eq!(checkpoint.allocated_amount, 1_250);
    assert_eq!(checkpoint.remainder, 250);
    assert_eq!(h.token.dust_reserve(), 0);
    assert_eq!(checkpoint.cumulative_per_share, 12_500_000);
    assert_eq!(checkpoint.rent_cumulative_per_share, 12_500_000);
    assert_eq!(checkpoint.capital_cumulative_per_share, 0);
    assert_eq!(checkpoint.other_cumulative_per_share, 0);
    assert_eq!(checkpoint.type_cumulative_per_share, 12_500_000);
    assert_eq!(checkpoint.distribution_type, 0);

    let page = h.token.get_distributions(0, 10);
    assert_eq!(page.len(), 1);
    assert_eq!(page[0].id, 0);

    let unclaimed = h.token.unclaimed_balance(alice);
    assert_eq!(unclaimed.total, 1_250);
    assert_eq!(unclaimed.rent, 1_250);
    assert_eq!(unclaimed.capital, 0);
    assert_eq!(unclaimed.other, 0);
    assert_eq!(unclaimed.distribution_count, 1);
}

#[test]
fn test_claim_all_clears_typed_claims_and_cannot_overdraw_pool() {
    let mut h = setup();
    let alice = h.generate();
    h.approve_kyc(alice);
    h.mint(alice, 1_000).unwrap();

    h.deposit_dividend(1_000, 0).unwrap();
    h.deposit_dividend(2_000, 1).unwrap();
    h.deposit_dividend(3_000, 2).unwrap();

    assert_eq!(h.token.claim_dividend(alice), 6_000);
    assert_eq!(h.token.pending_dividend(alice), 0);
    assert_eq!(h.token.claim_rent_yield(alice), 0);
    assert_eq!(h.token.claim_capital_return(alice), 0);
    let dust = h.token.dust_reserve();
    assert_eq!(h.token.dividend_pool(), dust);
}

#[test]
fn test_claims_derive_indexes_from_distribution_journal() {
    let mut h = setup();
    let alice = h.generate();
    h.approve_kyc(alice);
    h.mint(alice, 1_000).unwrap();
    h.deposit_dividend(1_000, 0).unwrap();
    h.deposit_dividend(2_000, 1).unwrap();

    // Claims are computed from the journal's checkpoints alone.
    let unclaimed = h.token.unclaimed_balance(alice);
    assert_eq!(unclaimed.total, 3_000);
    assert_eq!(unclaimed.rent, 1_000);
    assert_eq!(unclaimed.capital, 2_000);
    assert_eq!(h.token.claim_dividend(alice), 3_000);
    assert_eq!(h.token.dividend_pool(), 0);
}

#[test]
fn test_legacy_claim_all_state_cannot_restore_stale_typed_claims() {
    let mut h = setup();
    let alice = h.generate();
    h.approve_kyc(alice);
    h.mint(alice, 1_000).unwrap();

    h.deposit_dividend(1_000, 0).unwrap();
    assert_eq!(h.token.claim_dividend(alice), 1_000);
    assert_eq!(h.token.dividend_pool(), 0);

    // After a claim of everything, no typed claim survives.
    let migrated = h.token.unclaimed_balance(alice);
    assert_eq!(migrated.total, 0);
    assert_eq!(migrated.rent, 0);
    assert_eq!(migrated.capital, 0);
    assert_eq!(h.token.claim_rent_yield(alice), 0);
    let dust = h.token.dust_reserve();
    assert_eq!(h.token.dividend_pool(), dust);
}

#[test]
fn test_typed_claim_reconciles_aggregate_claimable() {
    let mut h = setup();
    let alice = h.generate();
    h.approve_kyc(alice);
    h.mint(alice, 1_000).unwrap();

    h.deposit_dividend(1_000, 0).unwrap();
    h.deposit_dividend(2_000, 1).unwrap();

    assert_eq!(h.token.claim_rent_yield(alice), 1_000);
    let after_rent = h.token.unclaimed_balance(alice);
    assert_eq!(after_rent.total, 2_000);
    assert_eq!(after_rent.rent, 0);
    assert_eq!(after_rent.capital, 2_000);

    assert_eq!(h.token.claim_dividend(alice), 2_000);
    assert_eq!(h.token.claim_capital_return(alice), 0);
    assert_eq!(h.token.dividend_pool(), 0);
}

#[test]
fn test_forced_transfer_preserves_both_holders_accrual() {
    let mut h = setup();
    let alice = h.generate();
    let bob = h.generate();
    h.approve_kyc(alice);
    h.approve_kyc(bob);
    h.mint(alice, 600).unwrap();
    h.mint(bob, 400).unwrap();

    h.deposit_dividend(1_000, 0).unwrap();
    h.forced_transfer(alice, bob, 200).unwrap();
    h.deposit_dividend(1_000, 1).unwrap();

    let alice_unclaimed = h.token.unclaimed_balance(alice);
    assert_eq!(alice_unclaimed.total, 1_000);
    assert_eq!(alice_unclaimed.rent, 600);
    assert_eq!(alice_unclaimed.capital, 400);

    let bob_unclaimed = h.token.unclaimed_balance(bob);
    assert_eq!(bob_unclaimed.total, 1_000);
    assert_eq!(bob_unclaimed.rent, 400);
    assert_eq!(bob_unclaimed.capital, 600);

    assert_eq!(h.token.claim_dividend(alice), 1_000);
    assert_eq!(h.token.claim_dividend(bob), 1_000);
    assert_eq!(h.token.dividend_pool(), 0);
}

#[test]
fn test_deterministic_random_claim_transfer_model_preserves_invariants() {
    fn next(seed: &mut u64) -> u64 {
        *seed = seed
            .wrapping_mul(6_364_136_223_846_793_005)
            .wrapping_add(1_442_695_040_888_963_407);
        *seed
    }

    let mut h = setup();
    let holders = [h.generate(), h.generate(), h.generate(), h.generate()];
    for holder in &holders {
        h.approve_kyc(*holder);
    }
    h.mint(holders[0], 1_000).unwrap();

    let mut balances = [1_000i128, 0i128, 0i128, 0i128];
    let mut expected_total = [0i128; 4];
    let mut expected_rent = [0i128; 4];
    let mut expected_capital = [0i128; 4];
    let mut distributions = 0u32;
    let mut expected_pool = 0i128;
    let mut seed = 0x5eed_0509_dead_beefu64;

    for step in 0usize..180 {
        let operation = next(&mut seed) % 7;
        if operation == 0 || distributions == 0 {
            let distribution_type = (next(&mut seed) % 3) as u32;
            h.deposit_dividend(1_000, distribution_type).unwrap();
            for index in 0..holders.len() {
                expected_total[index] += balances[index];
                if distribution_type == DistributionType::Rent as u32 {
                    expected_rent[index] += balances[index];
                } else if distribution_type == DistributionType::Capital as u32 {
                    expected_capital[index] += balances[index];
                }
            }
            distributions += 1;
            expected_pool += 1_000;
        } else if operation == 1 || operation == 2 {
            let start = (next(&mut seed) as usize) % holders.len();
            let mut from_index = start;
            for offset in 0..holders.len() {
                let candidate = (start + offset) % holders.len();
                if balances[candidate] > 0 {
                    from_index = candidate;
                    break;
                }
            }
            let to_index =
                (from_index + 1 + (next(&mut seed) as usize % (holders.len() - 1))) % holders.len();
            let amount = if step % 11 == 0 {
                balances[from_index]
            } else {
                1 + i128::from(next(&mut seed) % balances[from_index] as u64)
            };
            if operation == 1 {
                h.transfer(holders[from_index], holders[to_index], amount).unwrap();
            } else {
                h.forced_transfer(holders[from_index], holders[to_index], amount).unwrap();
            }
            balances[from_index] -= amount;
            balances[to_index] += amount;
        } else {
            let holder_index = (next(&mut seed) as usize) % holders.len();
            let claimed = if operation == 3 {
                let amount = h.token.claim_dividend(holders[holder_index]);
                assert_eq!(amount, expected_total[holder_index]);
                expected_total[holder_index] = 0;
                expected_rent[holder_index] = 0;
                expected_capital[holder_index] = 0;
                amount
            } else if operation == 4 {
                let amount = h.token.claim_rent_yield(holders[holder_index]);
                assert_eq!(amount, expected_rent[holder_index]);
                expected_total[holder_index] -= amount;
                expected_rent[holder_index] = 0;
                amount
            } else {
                let amount = h.token.claim_capital_return(holders[holder_index]);
                assert_eq!(amount, expected_capital[holder_index]);
                expected_total[holder_index] -= amount;
                expected_capital[holder_index] = 0;
                amount
            };
            expected_pool -= claimed;
        }

        for index in 0..holders.len() {
            assert_eq!(h.token.balance(holders[index]), balances[index]);
            assert_eq!(h.token.pending_dividend(holders[index]), expected_total[index]);
            let unclaimed = h.token.unclaimed_balance(holders[index]);
            assert_eq!(unclaimed.total, expected_total[index]);
            assert_eq!(unclaimed.rent, expected_rent[index]);
            assert_eq!(unclaimed.capital, expected_capital[index]);
            assert_eq!(
                unclaimed.other,
                expected_total[index] - expected_rent[index] - expected_capital[index]
            );
        }
        let expected_holder_count = balances.iter().filter(|balance| **balance > 0).count() as u32;
        assert_eq!(h.token.holder_count(), expected_holder_count);
        assert_eq!(h.token.dividend_pool(), expected_pool);
        assert_eq!(h.token.dividend_deposit_count(), distributions);
    }

    for index in 0..holders.len() {
        assert_eq!(h.token.claim_dividend(holders[index]), expected_total[index]);
    }
    assert_eq!(h.token.dividend_pool(), 0);
}

#[test]
fn test_rejects_invalid_distribution_inputs() {
    let mut h = setup();
    assert!(h.deposit_dividend(0, 0).is_err());
    assert!(h.deposit_dividend(-1, 0).is_err());
    assert!(h.deposit_dividend(1_000, 3).is_err());
}

#[test]
fn test_dividend_history_pagination() {
    let mut h = setup();
    let alice = h.generate();
    h.approve_kyc(alice);
    h.mint(alice, 1_000).unwrap();

    for _ in 0..5 {
        h.deposit_dividend(100, 2).unwrap();
    }

    let page = h.token.get_dividend_history(2, 2);
    assert_eq!(page.len(), 2);
    assert_eq!(page[0].amount, 100);
}

#[test]
fn test_dividend_history_empty_before_deposit() {
    let h = setup();
    let history = h.token.get_dividend_history(0, 10);
    assert_eq!(history.len(), 0);
    assert_eq!(h.token.dividend_deposit_count(), 0);
}

#[test]
fn test_claim_rent_yield_only_claims_rent() {
    let mut h = setup();
    let alice = h.generate();
    h.approve_kyc(alice);
    h.mint(alice, 1_000).unwrap();

    h.deposit_dividend(1_000, 0).unwrap(); // rent: 1 per share
    h.deposit_dividend(2_000, 1).unwrap(); // capital: 2 per share

    let rent = h.token.claim_rent_yield(alice);
    assert_eq!(rent, 1_000);

    let capital = h.token.claim_capital_return(alice);
    assert_eq!(capital, 2_000);
}

#[test]
fn test_claim_capital_return_only_claims_capital() {
    let mut h = setup();
    let alice = h.generate();
    h.approve_kyc(alice);
    h.mint(alice, 500).unwrap();

    h.deposit_dividend(1_000, 0).unwrap(); // rent: 1 per share
    h.deposit_dividend(2_000, 1).unwrap(); // capital: 2 per share

    let capital = h.token.claim_capital_return(alice);
    assert_eq!(capital, 1_000);

    let rent = h.token.claim_rent_yield(alice);
    assert_eq!(rent, 500);
}

#[test]
fn test_claim_dividend_claims_all_types() {
    let mut h = setup();
    let alice = h.generate();
    h.approve_kyc(alice);
    h.mint(alice, 100).unwrap();

    h.deposit_dividend(1_000, 0).unwrap();
    h.deposit_dividend(2_000, 1).unwrap();
    h.deposit_dividend(3_000, 2).unwrap();

    // 6 per share over 100 shares.
    let total = h.token.claim_dividend(alice);
    assert_eq!(total, 600);
}

#[test]
fn test_mixed_deposits_independent_claiming() {
    let mut h = setup();
    let alice = h.generate();
    let bob = h.generate();
    h.approve_kyc(alice);
    h.approve_kyc(bob);

    h.mint(alice, 600).unwrap();
    h.mint(bob, 400).unwrap();

    h.deposit_dividend(1_000, 0).unwrap();
    h.deposit_dividend(1_000, 1).unwrap();

    assert_eq!(h.token.claim_rent_yield(alice), 600);
    assert_eq!(h.token.claim_capital_return(alice), 600);

    assert_eq!(h.token.claim_rent_yield(bob), 400);
    assert_eq!(h.token.claim_capital_return(bob), 400);
}

#[test]
fn test_second_claim_yields_nothing() {
    let mut h = setup();
    let alice = h.generate();
    h.approve_kyc(alice);
    h.mint(alice, 100).unwrap();

    h.deposit_dividend(1_000, 0).unwrap();

    h.token.claim_rent_yield(alice);
    assert_eq!(h.token.claim_rent_yield(alice), 0);

    h.deposit_dividend(1_000, 1).unwrap();
    h.token.claim_capital_return(alice);
    assert_eq!(h.token.claim_capital_return(alice), 0);
}

#[test]
fn test_dividend_deposit_count_increments_checkpoint_audit() {
    let mut h = setup();
    let alice = h.generate();
    h.approve_kyc_with_tier(alice, 1);
    h.mint(alice, 100).unwrap();

    assert_eq!(h.token.dividend_deposit_count(), 0);

    h.deposit_dividend(1_000, 0).unwrap();
    assert_eq!(h.token.dividend_deposit_count(), 1);

    h.deposit_dividend(2_000, 1).unwrap();
    assert_eq!(h.token.dividend_deposit_count(), 2);

    h.deposit_dividend(500, 2).unwrap();
    assert_eq!(h.token.dividend_deposit_count(), 3);
}

#[test]
fn test_get_dividend_history_returns_events_checkpoint_audit() {
    let mut h = setup();
    let alice = h.generate();
    h.approve_kyc_with_tier(alice, 1);
    h.mint(alice, 100).unwrap();

    h.deposit_dividend(1_000, 0).unwrap();
    h.deposit_dividend(2_000, 1).unwrap();

    let history = h.token.get_dividend_history(0, 10);
    assert_eq!(history.len(), 2);

    assert_eq!(history[0].amount, 1_000);
    assert_eq!(history[0].distribution_type, 0);

    assert_eq!(history[1].amount, 2_000);
    assert_eq!(history[1].distribution_type, 1);
}

#[test]
fn test_get_dividend_history_pagination_checkpoint_audit() {
    let mut h = setup();
    let alice = h.generate();
    h.approve_kyc_with_tier(alice, 1);
    h.mint(alice, 100).unwrap();

    for _ in 0..5 {
        h.deposit_dividend(100, 2).unwrap();
    }
    assert_eq!(h.token.dividend_deposit_count(), 5);

    let page1 = h.token.get_dividend_history(0, 3);
    assert_eq!(page1.len(), 3);

    let page2 = h.token.get_dividend_history(3, 3);
    assert_eq!(page2.len(), 2);

    let past_end = h.token.get_dividend_history(5, 3);
    assert_eq!(past_end.len(), 0);
}

#[test]
fn test_dividend_history_running_total_dps_checkpoint_audit() {
    let mut h = setup();
    let alice = h.generate();
    h.approve_kyc_with_tier(alice, 1);
    h.mint(alice, 1_000).unwrap();

    h.deposit_dividend(1_000, 0).unwrap();
    h.deposit_dividend(2_000, 0).unwrap();

    let history = h.token.get_dividend_history(0, 10);
    assert_eq!(history[0].running_total_dps, SCALE);
    assert_eq!(history[1].running_total_dps, 3 * SCALE);
}

#[test]
fn test_dividend_deposit_count_increments() {
    let mut h = setup();
    let alice = h.generate();
    h.approve_kyc_with_tier(alice, 1);
    h.mint(alice, 100).unwrap();

    assert_eq!(h.token.dividend_deposit_count(), 0);

    h.deposit_dividend(1_000, 0).unwrap();
    assert_eq!(h.token.dividend_deposit_count(), 1);

    h.deposit_dividend(2_000, 1).unwrap();
    assert_eq!(h.token.dividend_deposit_count(), 2);

    h.deposit_dividend(500, 2).unwrap();
    assert_eq!(h.token.dividend_deposit_count(), 3);
}

#[test]
fn test_get_dividend_history_returns_events() {
    let mut h = setup();
    let alice = h.generate();
    h.approve_kyc_with_tier(alice, 1);
    h.mint(alice, 100).unwrap();

    h.deposit_dividend(1_000, 0).unwrap();
    h.deposit_dividend(2_000, 1).unwrap();

    let history = h.token.get_dividend_history(0, 10);
    assert_eq!(history.len(), 2);

    assert_eq!(history[0].amount, 1_000);
    assert_eq!(history[0].distribution_type, 0);

    assert_eq!(history[1].amount, 2_000);
    assert_eq!(history[1].distribution_type, 1);
}

#[test]
fn test_get_dividend_history_pagination() {
    let mut h = setup();
    let alice = h.generate();
    h.approve_kyc_with_tier(alice, 1);
    h.mint(alice, 100).unwrap();

    for _ in 0..5 {
        h.deposit_dividend(100, 2).unwrap();
    }
    assert_eq!(h.token.dividend_deposit_count(), 5);

    let page1 = h.token.get_dividend_history(0, 3);
    assert_eq!(page1.len(), 3);

    let page2 = h.token.get_dividend_history(3, 3);
    assert_eq!(page2.len(), 2);

    let past_end = h.token.get_dividend_history(5, 3);
    assert_eq!(past_end.len(), 0);
}

#[test]
fn test_dividend_history_running_total_dps() {
    let mut h = setup();
    let alice = h.generate();
    h.approve_kyc_with_tier(alice, 1);
    h.mint(alice, 1_000).unwrap();

    h.deposit_dividend(1_000, 0).unwrap();
    h.deposit_dividend(2_000, 0).unwrap();

    let history = h.token.get_dividend_history(0, 10);
    assert_eq!(history[0].running_total_dps, SCALE);
    assert_eq!(history[1].running_total_dps, 3 * SCALE);
}

#[test]
fn test_is_holder_add_dedup() {
    let mut h = setup();
    let alice = h.generate();
    h.approve_kyc(alice);

    assert!(!h.token.is_holder(alice));
    assert_eq!(h.token.holder_count(), 0);

    h.mint(alice, 100).unwrap();
    assert!(h.token.is_holder(alice));
    assert_eq!(h.token.holder_count(), 1);

    h.mint(alice, 10).unwrap();
    assert_eq!(h.token.holder_count(), 1);
}

#[test]
fn test_is_holder_remove_on_zero_balance() {
    let mut h = setup();
    let alice = h.generate();
    let bob = h.generate();
    h.approve_kyc(alice);
    h.approve_kyc(bob);

    h.mint(alice, 100).unwrap();
    assert!(h.token.is_holder(alice));
    assert_eq!(h.token.holder_count(), 1);

    h.transfer(alice, bob, 100).unwrap();
    assert!(!h.token.is_holder(alice));
    assert!(h.token.is_holder(bob));
    assert_eq!(h.token.holder_count(), 1);
}

#[test]
fn test_holder_count_consistent_after_buyback() {
    let mut h = setup();
    let alice = h.generate();
    let bob = h.generate();
    h.approve_kyc(alice);
    h.approve_kyc(bob);

    h.mint(alice, 50).unwrap();
    h.mint(bob, 30).unwrap();
    assert_eq!(h.token.holder_count(), 2);

    h.buyback(alice, 50).unwrap();
    assert_eq!(h.token.holder_count(), 1);
    assert!(!h.token.is_holder(alice));
    assert!(h.token.is_holder(bob));
}

#[test]
fn test_per_share_scaled_prime_total_shares() {
    // 7 shares: per_share_scaled = floor(10^7 * 10^6 / 7) = 1_428_571_428;
    // alice (7 shares) gets floor(7 * 1_428_571_428 / 10^7) = 999_999; dust 1.
    let mut h = setup_with_shares(7);
    let alice = h.generate();
    h.approve_kyc(alice);
    h.mint(alice, 7).unwrap();

    h.deposit_dividend(1_000_000, 2).unwrap();

    assert_eq!(h.token.pending_dividend(alice), 999_999);
    assert_eq!(h.token.dust_reserve(), 1);
    assert_eq!(h.token.pending_dividend(alice) + h.token.dust_reserve(), 1_000_000);
}

#[test]
fn test_dust_reserve_accumulates_across_distributions() {
    // 3 shares, 10 units: per_share_scaled = 33_333_333, 9 allocated, 1 dust each time.
    let mut h = setup_with_shares(3);
    let alice = h.generate();
    h.approve_kyc(alice);
    h.mint(alice, 3).unwrap();

    h.deposit_dividend(10, 2).unwrap();
    assert_eq!(h.token.dust_reserve(), 1);

    h.deposit_dividend(10, 2).unwrap();
    assert_eq!(h.token.dust_reserve(), 2);
}

#[test]
fn test_collect_dust_reserve_admin_only() {
    let mut h = setup_with_shares(3);
    let alice = h.generate();
    h.approve_kyc(alice);
    h.mint(alice, 3).unwrap();
    h.deposit_dividend(10, 2).unwrap(); // dust = 1

    assert_eq!(h.token.dust_reserve(), 1);
    let collected = h.token.collect_dust_reserve(h.admin).unwrap();
    assert_eq!(collected, 1);
    assert_eq!(h.token.dust_reserve(), 0);
}

#[test]
fn test_force_migrate_holder_checkpoint() {
    let mut h = setup();
    let alice = h.generate();
    h.approve_kyc(alice);
    h.mint(alice, 500).unwrap();
    h.deposit_dividend(1_000, 2).unwrap();

    h.token.force_migrate_holder_checkpoint(h.admin, alice).unwrap();

    assert_eq!(h.token.pending_dividend(alice), 500);
}

#[test]
#[should_panic]
fn test_empty_property_type_rejected_in_constructor() {
    let mut bad_meta = meta();
    // An empty property type is as good as an unset one.
    bad_meta.property_type = "".to_string();
    PropertyToken::new(1, 2, 3, bad_meta).unwrap();
}

#[test]
fn test_empty_property_type_rejected_in_update_meta() {
    let mut h = setup();
    let mut bad_meta = h.token.get_meta();
    bad_meta.property_type = "".to_string();
    assert!(
        h.token.update_meta(h.admin, bad_meta).is_err(),
        "empty property_type must be rejected in update_meta"
    );
}

#[test]
fn test_deposit_dividend_rejects_zero_amount() {
    let mut h = setup();
    assert!(h.deposit_dividend(0, 0).is_err(), "zero dividend amount must be rejected");
    assert_eq!(h.token.dividend_deposit_count(), 0);
}

#[test]
fn test_deposit_dividend_rejects_unknown_distribution_type() {
    let mut h = setup();
    assert!(
        h.deposit_dividend(1_000, 3).is_err(),
        "unknown distribution type must be rejected before checkpoint is written"
    );
    assert_eq!(h.token.dividend_deposit_count(), 0);
}

#[test]
#[should_panic]
fn test_whitespace_only_legal_name_rejected_in_constructor() {
    let mut bad_meta = meta();
    // Five spaces: not empty, but blank.
    bad_meta.legal_name = "     ".to_string();
    PropertyToken::new(1, 2, 3, bad_meta).unwrap();
}
