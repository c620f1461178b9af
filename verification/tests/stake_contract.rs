use stake::amounts::TokenType;
use stake::bignat::BigNat;
use stake::bytes::Address;
use stake::contract::{Payment, StakeContract, StakeParts, StakeState, Transfer};
use stake::model::StakeError;
use stake::rewards::TokenReward;

const DAY: u64 = 86400;
const E18: u128 = 1_000_000_000_000_000_000;

/// The number `x`.
fn n(x: u128) -> BigNat {
    BigNat::from_limbs(vec![x as u32, (x >> 32) as u32, (x >> 64) as u32, (x >> 96) as u32])
}

/// The value of `b`, which must fit in a `u128`.
fn v(b: &BigNat) -> u128 {
    let limbs = b.to_limbs();
    let mut r: u128 = 0;
    for (i, l) in limbs.iter().enumerate() {
        if i >= 4 {
            assert_eq!(*l, 0, "value exceeds u128");
        } else {
            r |= (*l as u128) << (32 * i);
        }
    }
    r
}

/// The rewards as (token, amount) pairs.
fn lines(r: &[TokenReward]) -> Vec<(TokenType, u128)> {
    r.iter().map(|t| (t.name, v(&t.amount))).collect()
}

fn addr(b: u8) -> Address {
    Address([b; 32])
}

fn id(s: &str) -> Vec<u8> {
    s.as_bytes().to_vec()
}

fn owner() -> Address {
    addr(1)
}

fn alice() -> Address {
    addr(2)
}

fn bob() -> Address {
    addr(3)
}

fn fresh() -> StakeState {
    StakeState::init(
        id("SFT-123456"),
        id("ECCU-aaaaaa"),
        id("FOOD-bbbbbb"),
        id("BEER-cccccc"),
        id("WOOD-dddddd"),
        id("STONE-eeeeee"),
        id("IRON-ffffff"),
        id("WARGEAR-gggggg"),
    )
}

fn pay(token: &str, nonce: u64, amount: u128) -> Payment {
    Payment { token_identifier: id(token), token_nonce: nonce, amount: n(amount) }
}

/// A contract with nonces 2, 5, 35 allowed and rates set.
fn configured() -> StakeState {
    let mut c = fresh();
    c.set_sfts_allowed(&owner(), &owner(), vec![2, 5, 35]).unwrap();
    c.set_sft_eccu(&owner(), &owner(), 2, n(5)).unwrap();
    c.set_sft_resource(&owner(), &owner(), 2, n(3)).unwrap();
    c.set_sft_eccu(&owner(), &owner(), 5, n(7)).unwrap();
    c.set_sft_resource(&owner(), &owner(), 35, n(4)).unwrap();
    c
}

fn assert_transfer(t: &Transfer, to: Address, token: &str, nonce: u64, amount: u128) {
    assert_eq!(t.to, to);
    assert_eq!(t.token, id(token));
    assert_eq!(t.nonce, nonce);
    assert_eq!(v(&t.amount), amount);
}

#[test]
fn init_records_identifiers_and_starts_empty() {
    let c = fresh();
    assert_eq!(c.collection(), &id("SFT-123456"));
    assert_eq!(c.token_identifier(TokenType::Eccu), &id("ECCU-aaaaaa"));
    assert_eq!(c.token_identifier(TokenType::Wargear), &id("WARGEAR-gggggg"));
    assert!(!c.paused());
    assert!(!c.is_sft_allowed(2));
    assert_eq!(v(&c.sft_eccu(2)), 0);
    assert_eq!(v(&c.pool(TokenType::Food)), 0);
    assert!(!c.is_user_staked(&alice()));
}

#[test]
fn toggle_pause_is_owner_only_and_flips() {
    let mut c = fresh();
    assert_eq!(c.toggle_pause(&alice(), &owner()), Err(StakeError::NotOwner));
    assert!(!c.paused());
    c.toggle_pause(&owner(), &owner()).unwrap();
    assert!(c.paused());
    c.toggle_pause(&owner(), &owner()).unwrap();
    assert!(!c.paused());
}

#[test]
fn allowed_nonces_are_added_and_removed() {
    let mut c = fresh();
    assert_eq!(c.set_sfts_allowed(&alice(), &owner(), vec![1]), Err(StakeError::NotOwner));
    c.set_sfts_allowed(&owner(), &owner(), vec![2, 3, 2]).unwrap();
    assert!(c.is_sft_allowed(2));
    assert!(c.is_sft_allowed(3));
    assert!(!c.is_sft_allowed(4));
    c.remove_sfts_allowed(&owner(), &owner(), vec![2, 9]).unwrap();
    assert!(!c.is_sft_allowed(2));
    assert!(c.is_sft_allowed(3));
    assert_eq!(c.remove_sfts_allowed(&bob(), &owner(), vec![3]), Err(StakeError::NotOwner));
    assert!(c.is_sft_allowed(3));
}

#[test]
fn rates_must_be_positive() {
    let mut c = fresh();
    assert_eq!(c.set_sft_eccu(&owner(), &owner(), 2, n(0)), Err(StakeError::InvalidAmount));
    assert_eq!(c.set_sft_resource(&owner(), &owner(), 2, n(0)), Err(StakeError::InvalidAmount));
    assert_eq!(c.set_sft_eccu(&alice(), &owner(), 2, n(1)), Err(StakeError::NotOwner));
    c.set_sft_eccu(&owner(), &owner(), 2, n(10)).unwrap();
    c.set_sft_resource(&owner(), &owner(), 2, n(20)).unwrap();
    assert_eq!(v(&c.sft_eccu(2)), 10);
    assert_eq!(v(&c.sft_resource(2)), 20);
    c.set_sft_eccu(&owner(), &owner(), 2, n(11)).unwrap();
    assert_eq!(v(&c.sft_eccu(2)), 11);
}

#[test]
fn funding_checks_owner_token_and_amount() {
    let mut c = fresh();
    assert_eq!(c.food_fund(&alice(), &owner(), &pay("FOOD-bbbbbb", 0, 5)), Err(StakeError::NotOwner));
    assert_eq!(c.food_fund(&owner(), &owner(), &pay("BEER-cccccc", 0, 5)), Err(StakeError::InvalidToken));
    assert_eq!(c.food_fund(&owner(), &owner(), &pay("FOOD-bbbbbb", 0, 0)), Err(StakeError::ZeroAmount));
    c.food_fund(&owner(), &owner(), &pay("FOOD-bbbbbb", 0, 5)).unwrap();
    c.food_fund(&owner(), &owner(), &pay("FOOD-bbbbbb", 0, 7)).unwrap();
    assert_eq!(v(&c.pool(TokenType::Food)), 12);
    c.eccu_fund(&owner(), &owner(), &pay("ECCU-aaaaaa", 0, 1)).unwrap();
    c.beer_fund(&owner(), &owner(), &pay("BEER-cccccc", 0, 2)).unwrap();
    c.wood_fund(&owner(), &owner(), &pay("WOOD-dddddd", 0, 3)).unwrap();
    c.stone_fund(&owner(), &owner(), &pay("STONE-eeeeee", 0, 4)).unwrap();
    c.iron_fund(&owner(), &owner(), &pay("IRON-ffffff", 0, 6)).unwrap();
    c.wargear_fund(&owner(), &owner(), &pay("WARGEAR-gggggg", 0, 8)).unwrap();
    assert_eq!(v(&c.pool(TokenType::Eccu)), 1);
    assert_eq!(v(&c.pool(TokenType::Beer)), 2);
    assert_eq!(v(&c.pool(TokenType::Wood)), 3);
    assert_eq!(v(&c.pool(TokenType::Stone)), 4);
    assert_eq!(v(&c.pool(TokenType::Iron)), 6);
    assert_eq!(v(&c.pool(TokenType::Wargear)), 8);
}

#[test]
fn funding_beyond_u128_is_kept_exactly() {
    let mut c = fresh();
    c.eccu_fund(&owner(), &owner(), &pay("ECCU-aaaaaa", 0, u128::MAX)).unwrap();
    c.eccu_fund(&owner(), &owner(), &pay("ECCU-aaaaaa", 0, 1)).unwrap();
    // 2^128
    assert!(c.pool(TokenType::Eccu).eq_value(&BigNat::from_limbs(vec![0, 0, 0, 0, 1])));
    let t = c.withdraw(&owner(), &owner(), n(u128::MAX)).unwrap();
    assert!(t.amount.eq_value(&n(u128::MAX)));
    assert_eq!(v(&c.pool(TokenType::Eccu)), 1);
}

#[test]
fn withdraw_takes_from_the_currency_pool() {
    let mut c = fresh();
    c.eccu_fund(&owner(), &owner(), &pay("ECCU-aaaaaa", 0, 100)).unwrap();
    assert_eq!(c.withdraw(&alice(), &owner(), n(10)).unwrap_err(), StakeError::NotOwner);
    assert_eq!(c.withdraw(&owner(), &owner(), n(0)).unwrap_err(), StakeError::ZeroAmount);
    assert_eq!(c.withdraw(&owner(), &owner(), n(101)).unwrap_err(), StakeError::NegativeResult);
    assert_eq!(v(&c.pool(TokenType::Eccu)), 100);
    let t = c.withdraw(&owner(), &owner(), n(40)).unwrap();
    assert_transfer(&t, owner(), "ECCU-aaaaaa", 0, 40);
    assert_eq!(v(&c.pool(TokenType::Eccu)), 60);
}

#[test]
fn stake_checks_pause_collection_and_nonce() {
    let mut c = configured();
    assert_eq!(c.stake(&alice(), 1000, &pay("OTHER-000000", 2, 1)), Err(StakeError::InvalidIdentifier));
    assert_eq!(c.stake(&alice(), 1000, &pay("SFT-123456", 4, 1)), Err(StakeError::InvalidNonce));
    c.toggle_pause(&owner(), &owner()).unwrap();
    assert_eq!(c.stake(&alice(), 1000, &pay("SFT-123456", 2, 1)), Err(StakeError::StakePaused));
    assert!(!c.is_user_staked(&alice()));
    c.toggle_pause(&owner(), &owner()).unwrap();
    c.stake(&alice(), 1000, &pay("SFT-123456", 2, 3)).unwrap();
    assert!(c.is_user_staked(&alice()));
    assert_eq!(v(&c.staked_amount(&alice(), 2)), 3);
    assert_eq!(c.staked_at(&alice(), 2), 1000);
}

#[test]
fn rewards_of_one_sft_follow_the_nonce_table() {
    let mut c = configured();
    c.stake(&alice(), 1000, &pay("SFT-123456", 2, 3)).unwrap();
    // less than a day: nothing
    assert!(c.calculate_rewards_for_a_specific_sft(2, &alice(), &n(3), 1000 + DAY - 1).is_empty());
    // two full days (and a bit): 2 days * 3 SFTs = 6 points
    let r = c.calculate_rewards_for_a_specific_sft(2, &alice(), &n(3), 1000 + 2 * DAY + 5);
    assert_eq!(lines(&r), vec![(TokenType::Food, 18), (TokenType::Eccu, 30)]);
    // currency only
    let r = c.calculate_rewards_for_a_specific_sft(5, &alice(), &n(2), 3 * DAY);
    assert_eq!(lines(&r), vec![(TokenType::Eccu, 7 * 3 * 2)]);
    // resource only, rate of currency unset
    let r = c.calculate_rewards_for_a_specific_sft(35, &alice(), &n(1), DAY);
    assert_eq!(lines(&r), vec![(TokenType::Food, 4)]);
    // a nonce outside the table earns nothing
    assert!(c.calculate_rewards_for_a_specific_sft(100, &alice(), &n(1), 10 * DAY).is_empty());
}

#[test]
fn rewards_beyond_u128_are_computed_exactly() {
    let mut c = configured();
    c.set_sft_eccu(&owner(), &owner(), 5, n(u128::MAX)).unwrap();
    // one day of 2 SFTs at a rate of u128::MAX: 2 * (2^128 - 1) = 2^129 - 2
    let r = c.calculate_rewards_for_a_specific_sft(5, &alice(), &n(2), DAY);
    assert_eq!(r.len(), 1);
    assert_eq!(r[0].name, TokenType::Eccu);
    assert!(r[0].amount.eq_value(&BigNat::from_limbs(vec![u32::MAX - 1, u32::MAX, u32::MAX, u32::MAX, 1])));
    // a rate above u128::MAX is stored and used as it is
    let big_rate = n(u128::MAX).mul(&n(1000));
    c.set_sft_resource(&owner(), &owner(), 35, big_rate.copy()).unwrap();
    assert!(c.sft_resource(35).eq_value(&big_rate));
    let r = c.calculate_rewards_for_a_specific_sft(35, &alice(), &n(3), 2 * DAY);
    assert!(r[0].amount.eq_value(&big_rate.mul(&n(6))));
}

#[test]
fn saved_rewards_beyond_u128_are_kept_and_listed() {
    let mut c = configured();
    c.set_sft_eccu(&owner(), &owner(), 5, n(u128::MAX)).unwrap();
    c.stake(&alice(), 0, &pay("SFT-123456", 5, 1)).unwrap();
    c.calculate_rewards_and_save(5, &alice(), &n(1), DAY);
    assert_eq!(v(&c.user_reward(&alice(), TokenType::Eccu)), u128::MAX);
    // saved u128::MAX plus two pending days of u128::MAX each
    let listing = c.calculate_rewards(&alice(), 2 * DAY);
    assert_eq!(listing.len(), 7);
    assert!(listing[0].amount.eq_value(&n(u128::MAX).mul(&n(3))));
    // staking one more SFT on top of u128::MAX staked is kept exactly
    c.stake(&bob(), 0, &pay("SFT-123456", 2, u128::MAX)).unwrap();
    c.stake(&bob(), 0, &pay("SFT-123456", 2, 1)).unwrap();
    assert!(c.staked_amount(&bob(), 2).eq_value(&BigNat::from_limbs(vec![0, 0, 0, 0, 1])));
}

#[test]
fn staking_more_saves_rewards_and_restarts_the_clock() {
    let mut c = configured();
    c.stake(&alice(), 1000, &pay("SFT-123456", 2, 3)).unwrap();
    c.stake(&alice(), 1000 + 2 * DAY, &pay("SFT-123456", 2, 1)).unwrap();
    assert_eq!(v(&c.staked_amount(&alice(), 2)), 4);
    assert_eq!(c.staked_at(&alice(), 2), 1000 + 2 * DAY);
    assert_eq!(v(&c.user_reward(&alice(), TokenType::Food)), 18);
    assert_eq!(v(&c.user_reward(&alice(), TokenType::Eccu)), 30);
    assert_eq!(v(&c.user_reward(&alice(), TokenType::Beer)), 0);
}

#[test]
fn unstake_errors() {
    let mut c = configured();
    c.stake(&alice(), 1000, &pay("SFT-123456", 2, 3)).unwrap();
    assert_eq!(c.un_stake(&alice(), 2000, &id("SFT-123456"), 5, n(1)).unwrap_err(), StakeError::NotStaked);
    assert_eq!(c.un_stake(&alice(), 2000, &id("SFT-123456"), 2, n(4)).unwrap_err(), StakeError::NotEnoughStaked);
    assert_eq!(c.un_stake(&alice(), 2000, &id("OTHER"), 2, n(1)).unwrap_err(), StakeError::InvalidIdentifier);
    assert_eq!(c.un_stake(&bob(), 2000, &id("SFT-123456"), 2, n(1)).unwrap_err(), StakeError::NotStaked);
    c.toggle_pause(&owner(), &owner()).unwrap();
    assert_eq!(c.un_stake(&alice(), 2000, &id("SFT-123456"), 2, n(1)).unwrap_err(), StakeError::StakePaused);
    assert_eq!(v(&c.staked_amount(&alice(), 2)), 3);
}

#[test]
fn partial_and_full_unstake() {
    let mut c = configured();
    c.stake(&alice(), 1000, &pay("SFT-123456", 2, 3)).unwrap();
    c.stake(&alice(), 1000, &pay("SFT-123456", 5, 1)).unwrap();
    let t = c.un_stake(&alice(), 1000 + DAY, &id("SFT-123456"), 2, n(1)).unwrap();
    assert_transfer(&t, alice(), "SFT-123456", 2, 1);
    // rewards of all three SFTs for one day were saved
    assert_eq!(v(&c.user_reward(&alice(), TokenType::Food)), 9);
    assert_eq!(v(&c.user_reward(&alice(), TokenType::Eccu)), 15);
    assert_eq!(v(&c.staked_amount(&alice(), 2)), 2);
    assert_eq!(c.staked_at(&alice(), 2), 1000 + DAY);
    let t = c.un_stake(&alice(), 1000 + DAY, &id("SFT-123456"), 2, n(2)).unwrap();
    assert_transfer(&t, alice(), "SFT-123456", 2, 2);
    assert_eq!(v(&c.staked_amount(&alice(), 2)), 0);
    assert_eq!(c.staked_at(&alice(), 2), 0);
    assert!(c.is_user_staked(&alice()));
    c.un_stake(&alice(), 1000 + DAY, &id("SFT-123456"), 5, n(1)).unwrap();
    assert!(!c.is_user_staked(&alice()));
    assert_eq!(v(&c.user_reward(&alice(), TokenType::Eccu)), 15 + 7);
}

#[test]
fn claimable_listing_adds_saved_and_pending_rewards() {
    let mut c = configured();
    c.stake(&alice(), 1000, &pay("SFT-123456", 2, 3)).unwrap();
    c.stake(&alice(), 1000 + DAY, &pay("SFT-123456", 2, 1)).unwrap();
    c.stake(&alice(), 1000, &pay("SFT-123456", 5, 2)).unwrap();
    // saved: Food 9, Eccu 15; pending at +3 days: nonce 2: 2 days * 4 = 8 points
    // -> Food 24, Eccu 40; nonce 5: 3 days * 2 = 6 points -> Eccu 42
    let now = 1000 + 3 * DAY;
    let r = c.calculate_rewards(&alice(), now);
    assert_eq!(
        lines(&r),
        vec![
            (TokenType::Eccu, 15 + 40 + 42),
            (TokenType::Food, 9 + 24),
            (TokenType::Beer, 0),
            (TokenType::Wood, 0),
            (TokenType::Stone, 0),
            (TokenType::Iron, 0),
            (TokenType::Wargear, 0),
        ]
    );
    let empty = c.calculate_rewards(&bob(), now);
    assert_eq!(empty.len(), 7);
    assert!(empty.iter().all(|t| t.amount.is_zero()));
}

#[test]
fn claim_pays_with_decimals_and_resets() {
    let mut c = configured();
    c.stake(&alice(), 1000, &pay("SFT-123456", 2, 3)).unwrap();
    let now = 1000 + 2 * DAY;
    // pools empty: refused, nothing changed
    assert_eq!(c.claim_rewards(&alice(), now).unwrap_err(), StakeError::NegativeResult);
    assert_eq!(c.staked_at(&alice(), 2), 1000);
    c.eccu_fund(&owner(), &owner(), &pay("ECCU-aaaaaa", 0, 100)).unwrap();
    c.food_fund(&owner(), &owner(), &pay("FOOD-bbbbbb", 0, 18 * E18 + 5)).unwrap();
    let ts = c.claim_rewards(&alice(), now).unwrap();
    assert_eq!(ts.len(), 2);
    assert_transfer(&ts[0], alice(), "ECCU-aaaaaa", 0, 30);
    assert_transfer(&ts[1], alice(), "FOOD-bbbbbb", 0, 18 * E18);
    assert_eq!(v(&c.pool(TokenType::Eccu)), 70);
    assert_eq!(v(&c.pool(TokenType::Food)), 5);
    assert_eq!(c.staked_at(&alice(), 2), now);
    assert_eq!(v(&c.user_reward(&alice(), TokenType::Eccu)), 0);
    // a second claim at the same time pays nothing
    let ts = c.claim_rewards(&alice(), now).unwrap();
    assert!(ts.is_empty());
    assert_eq!(v(&c.pool(TokenType::Eccu)), 70);
}

#[test]
fn claim_with_a_short_resource_pool_is_refused() {
    let mut c = configured();
    c.stake(&alice(), 0, &pay("SFT-123456", 2, 1)).unwrap();
    c.eccu_fund(&owner(), &owner(), &pay("ECCU-aaaaaa", 0, 100)).unwrap();
    c.food_fund(&owner(), &owner(), &pay("FOOD-bbbbbb", 0, 3 * E18 - 1)).unwrap();
    assert_eq!(c.claim_rewards(&alice(), DAY).unwrap_err(), StakeError::NegativeResult);
    assert_eq!(v(&c.pool(TokenType::Eccu)), 100);
    assert_eq!(c.staked_at(&alice(), 2), 0);
}

#[test]
fn claim_with_nothing_to_claim_sends_nothing() {
    let mut c = configured();
    let ts = c.claim_rewards(&bob(), 5 * DAY).unwrap();
    assert!(ts.is_empty());
}

#[test]
fn save_rewards_adds_to_balances() {
    let mut c = configured();
    c.stake(&alice(), 0, &pay("SFT-123456", 5, 1)).unwrap();
    c.calculate_rewards_and_save(5, &alice(), &n(1), 2 * DAY);
    assert_eq!(v(&c.user_reward(&alice(), TokenType::Eccu)), 14);
    c.reset_sfts_staked_time(&alice(), 2 * DAY);
    assert_eq!(c.staked_at(&alice(), 5), 2 * DAY);
}

#[test]
fn stake_then_unstake_all_restores_state() {
    let mut c = configured();
    c.stake(&alice(), 500, &pay("SFT-123456", 35, 4)).unwrap();
    let t = c.un_stake(&alice(), 500, &id("SFT-123456"), 35, n(4)).unwrap();
    assert_transfer(&t, alice(), "SFT-123456", 35, 4);
    assert!(!c.is_user_staked(&alice()));
    assert_eq!(v(&c.staked_amount(&alice(), 35)), 0);
    assert_eq!(v(&c.user_reward(&alice(), TokenType::Food)), 0);
}

#[test]
fn fund_then_withdraw_restores_pool() {
    let mut c = fresh();
    c.eccu_fund(&owner(), &owner(), &pay("ECCU-aaaaaa", 0, 9)).unwrap();
    let before = v(&c.pool(TokenType::Eccu));
    c.eccu_fund(&owner(), &owner(), &pay("ECCU-aaaaaa", 0, 33)).unwrap();
    let t = c.withdraw(&owner(), &owner(), n(33)).unwrap();
    assert_eq!(v(&t.amount), 33);
    assert_eq!(v(&c.pool(TokenType::Eccu)), before);
}

#[test]
fn clock_check() {
    let mut c = configured();
    c.stake(&alice(), 1000, &pay("SFT-123456", 2, 1)).unwrap();
    assert!(c.stakes_started_by(&alice(), 1000));
    assert!(!c.stakes_started_by(&alice(), 999));
    assert!(c.stakes_started_by(&bob(), 0));
    assert!(c.has_stake(&alice()));
    assert!(!c.has_stake(&bob()));
}

#[test]
fn error_messages() {
    assert_eq!(StakeError::StakePaused.message(), "The stake is stopped!");
    assert_eq!(StakeError::InvalidNonce.message(), "Invalid sft nonce!");
    assert_eq!(StakeError::NotOwner.message(), "Endpoint can only be called by owner");
    assert_eq!(StakeError::NegativeResult.message(), "cannot subtract because result would be negative");
    assert_eq!(StakeError::NotEnoughStaked.message(), "You don't have enough sfts at stake!");
}

#[test]
fn staking_more_keeps_what_can_be_claimed() {
    let mut c = configured();
    c.stake(&alice(), 1000, &pay("SFT-123456", 2, 3)).unwrap();
    c.stake(&alice(), 1000, &pay("SFT-123456", 5, 1)).unwrap();
    let now = 1000 + 4 * DAY + 7;
    let before = lines(&c.calculate_rewards(&alice(), now));
    c.stake(&alice(), now, &pay("SFT-123456", 2, 2)).unwrap();
    assert_eq!(lines(&c.calculate_rewards(&alice(), now)), before);
    c.stake(&alice(), now, &pay("SFT-123456", 35, 2)).unwrap();
    assert_eq!(lines(&c.calculate_rewards(&alice(), now)), before);
}

#[test]
fn unstaking_keeps_what_can_be_claimed() {
    let mut c = configured();
    c.stake(&alice(), 1000, &pay("SFT-123456", 2, 3)).unwrap();
    c.stake(&bob(), 1000, &pay("SFT-123456", 2, 5)).unwrap();
    let now = 1000 + 3 * DAY;
    let before = lines(&c.calculate_rewards(&alice(), now));
    let bob_before = lines(&c.calculate_rewards(&bob(), now));
    c.un_stake(&alice(), now, &id("SFT-123456"), 2, n(1)).unwrap();
    assert_eq!(lines(&c.calculate_rewards(&alice(), now)), before);
    c.un_stake(&alice(), now, &id("SFT-123456"), 2, n(2)).unwrap();
    assert_eq!(lines(&c.calculate_rewards(&alice(), now)), before);
    assert_eq!(lines(&c.calculate_rewards(&bob(), now)), bob_before);
}

#[test]
fn parts_round_trip() {
    let mut c = configured();
    c.stake(&alice(), 1000, &pay("SFT-123456", 2, 3)).unwrap();
    c.food_fund(&owner(), &owner(), &pay("FOOD-bbbbbb", 0, 77)).unwrap();
    let parts = c.into_parts();
    assert_eq!(parts.positions.len(), 1);
    let c2 = StakeState::from_parts(parts).unwrap();
    assert_eq!(v(&c2.staked_amount(&alice(), 2)), 3);
    assert_eq!(v(&c2.pool(TokenType::Food)), 77);
    assert!(c2.is_sft_allowed(35));
    assert!(c2.is_user_staked(&alice()));
}

#[test]
fn parts_with_a_repeated_key_are_refused() {
    let mut parts: StakeParts = fresh().into_parts();
    parts.sfts_allowed = vec![4, 5, 4];
    assert!(StakeState::from_parts(parts).is_none());
}

#[test]
fn claim_pays_the_listing_times_decimals() {
    let mut c = configured();
    c.stake(&alice(), 0, &pay("SFT-123456", 2, 2)).unwrap();
    c.stake(&alice(), 0, &pay("SFT-123456", 35, 1)).unwrap();
    c.eccu_fund(&owner(), &owner(), &pay("ECCU-aaaaaa", 0, 1000)).unwrap();
    c.food_fund(&owner(), &owner(), &pay("FOOD-bbbbbb", 0, 1000 * E18)).unwrap();
    let now = 5 * DAY;
    let listing = lines(&c.calculate_rewards(&alice(), now));
    let ts = c.claim_rewards(&alice(), now).unwrap();
    let paid: Vec<(Vec<u8>, u128)> = ts.iter().map(|t| (t.token.clone(), v(&t.amount))).collect();
    let expected: Vec<(Vec<u8>, u128)> = listing
        .iter()
        .filter(|r| r.1 > 0)
        .map(|r| {
            let dec = if r.0 == TokenType::Eccu { 1 } else { E18 };
            (c.token_identifier(r.0).clone(), r.1 * dec)
        })
        .collect();
    assert_eq!(paid, expected);
    // Eccu: 5 days * 2 * 5 = 50; Food: 5 * 2 * 3 + 5 * 1 * 4 = 50
    assert_eq!(paid, vec![(id("ECCU-aaaaaa"), 50), (id("FOOD-bbbbbb"), 50 * E18)]);
}

#[test]
fn rewards_of_a_sum_of_sfts_add_up() {
    let mut c = configured();
    c.stake(&alice(), 100, &pay("SFT-123456", 2, 1)).unwrap();
    let now = 100 + 4 * DAY + 3;
    let r_a = lines(&c.calculate_rewards_for_a_specific_sft(2, &alice(), &n(3), now));
    let r_b = lines(&c.calculate_rewards_for_a_specific_sft(2, &alice(), &n(5), now));
    let r_ab = lines(&c.calculate_rewards_for_a_specific_sft(2, &alice(), &n(8), now));
    assert_eq!(r_ab.len(), r_a.len());
    assert_eq!(r_ab.len(), r_b.len());
    for i in 0..r_ab.len() {
        assert_eq!(r_ab[i].0, r_a[i].0);
        assert_eq!(r_ab[i].0, r_b[i].0);
        assert_eq!(r_ab[i].1, r_a[i].1 + r_b[i].1);
    }
    assert_eq!(r_ab, vec![(TokenType::Food, 3 * 4 * 8), (TokenType::Eccu, 5 * 4 * 8)]);
}

#[test]
fn the_listing_grows_with_time() {
    let mut c = configured();
    c.stake(&alice(), 1000, &pay("SFT-123456", 2, 3)).unwrap();
    c.stake(&alice(), 5000, &pay("SFT-123456", 35, 2)).unwrap();
    let mut prev = lines(&c.calculate_rewards(&alice(), 5000));
    for now in [5000 + DAY - 1, 5000 + DAY, 9 * DAY, 9 * DAY + 17, 40 * DAY] {
        let cur = lines(&c.calculate_rewards(&alice(), now));
        for i in 0..7 {
            assert_eq!(cur[i].0, prev[i].0);
            assert!(cur[i].1 >= prev[i].1);
        }
        prev = cur;
    }
    // at 40 days: nonce 2 staked 1000 s in: 39 full days * 3; nonce 35: 39 full days * 2
    assert_eq!(prev[0], (TokenType::Eccu, 5 * 39 * 3));
    assert_eq!(prev[1], (TokenType::Food, 3 * 39 * 3 + 4 * 39 * 2));
}

#[test]
fn a_stake_ends_when_its_last_sft_leaves() {
    let mut c = configured();
    c.stake(&alice(), 0, &pay("SFT-123456", 35, 2)).unwrap();
    assert!(c.has_stake(&alice()));
    assert_eq!(v(&c.staked_amount(&alice(), 35)), 2);
    c.un_stake(&alice(), DAY, &id("SFT-123456"), 35, n(2)).unwrap();
    assert_eq!(v(&c.staked_amount(&alice(), 35)), 0);
    assert!(!c.has_stake(&alice()));
    assert!(!c.is_user_staked(&alice()));
    // a payment of zero SFTs opens a stake that holds none
    c.stake(&bob(), 0, &pay("SFT-123456", 35, 0)).unwrap();
    assert!(c.has_stake(&bob()));
    assert!(c.staked_amount(&bob(), 35).is_zero());
}

#[test]
fn big_numbers_compute_exactly() {
    let a = n(u128::MAX);
    let b = n(12345);
    let p = a.mul(&b);
    assert!(p.lt(&p.add(&n(1))));
    assert!(p.sub(&a).eq_value(&a.mul(&n(12344))));
    assert!(!p.le(&a));
    assert!(BigNat::zero().is_zero());
    assert_eq!(v(&BigNat::from_u64(u64::MAX)), u64::MAX as u128);
    assert!(p.copy().eq_value(&p));
}
