//! Properties of the contract that span requests, proved of its model.

use vstd::prelude::*;
use crate::amounts::{TokenType, decimals, token_order};
use crate::model::{StakeModel, StakeError, PaymentModel, TransferModel, lemma_staked_nonces_finite, lemma_accrued_zero, lemma_accrued_agree, lemma_accrued_insert, lemma_accrued_mono};
use crate::rewards::{days_between, line_sum, sft_reward_lines, lemma_line_sum_add, lemma_sft_reward_lines_add, lemma_sft_reward_lines_more_days};

verus! {

/// A fresh contract lists no stakers and has no stakes.
pub proof fn lemma_initial_stakers_consistent(collection: Seq<u8>, token_ids: Map<TokenType, Seq<u8>>)
    ensures
        StakeModel::initial(collection, token_ids).stakers_consistent(),
{
    let m = StakeModel::initial(collection, token_ids);
    assert forall|a: Seq<u8>| #[trigger] m.users_staked.contains(a) <==> m.has_stake(a) by {
        if m.has_stake(a) {
            let n = choose|n: u64| #[trigger] m.positions.contains_key((a, n));
        }
    }
}

/// Staking keeps the list of stakers equal to the accounts with SFTs staked.
pub proof fn lemma_stake_keeps_stakers_consistent(m: StakeModel, caller: Seq<u8>, now: u64, payment: PaymentModel)
    requires
        m.stakers_consistent(),
        m.stake_step(caller, now, payment) is Ok,
    ensures
        m.stake_step(caller, now, payment)->Ok_0.stakers_consistent(),
{
    let m2 = m.stake_step(caller, now, payment)->Ok_0;
    assert(m2.positions.contains_key((caller, payment.nonce)));
    assert forall|a: Seq<u8>| #[trigger] m2.users_staked.contains(a) <==> m2.has_stake(a) by {
        if a != caller {
            if m2.has_stake(a) {
                let n = choose|n: u64| #[trigger] m2.positions.contains_key((a, n));
                assert(m.positions.contains_key((a, n)));
            }
            if m.has_stake(a) {
                let n = choose|n: u64| #[trigger] m.positions.contains_key((a, n));
                assert(m2.positions.contains_key((a, n)));
            }
        }
    }
}

/// Unstaking keeps the list of stakers equal to the accounts with SFTs staked.
pub proof fn lemma_un_stake_keeps_stakers_consistent(
    m: StakeModel,
    caller: Seq<u8>,
    now: u64,
    token: Seq<u8>,
    nonce: u64,
    amount: nat,
)
    requires
        m.stakers_consistent(),
        m.un_stake_step(caller, now, token, nonce, amount) is Ok,
    ensures
        m.un_stake_step(caller, now, token, nonce, amount)->Ok_0.0.stakers_consistent(),
{
    let m2 = m.un_stake_step(caller, now, token, nonce, amount)->Ok_0.0;
    assert(m.has_stake(caller)) by {
        assert(m.positions.contains_key((caller, nonce)));
    }
    assert forall|a: Seq<u8>| #[trigger] m2.users_staked.contains(a) <==> m2.has_stake(a) by {
        if a != caller {
            if m2.has_stake(a) {
                let n = choose|n: u64| #[trigger] m2.positions.contains_key((a, n));
                assert(m.positions.contains_key((a, n)));
            }
            if m.has_stake(a) {
                let n = choose|n: u64| #[trigger] m.positions.contains_key((a, n));
                assert(m2.positions.contains_key((a, n)));
            }
        }
    }
}

/// Claiming keeps the list of stakers equal to the accounts with SFTs staked.
pub proof fn lemma_claim_keeps_stakers_consistent(m: StakeModel, caller: Seq<u8>, now: u64)
    requires
        m.stakers_consistent(),
        m.claim_rewards_step(caller, now) is Ok,
    ensures
        m.claim_rewards_step(caller, now)->Ok_0.0.stakers_consistent(),
{
    let m2 = m.claim_rewards_step(caller, now)->Ok_0.0;
    assert forall|a: Seq<u8>| #[trigger] m2.users_staked.contains(a) <==> m2.has_stake(a) by {
        if m2.has_stake(a) {
            let n = choose|n: u64| #[trigger] m2.positions.contains_key((a, n));
            assert(m.positions.contains_key((a, n)));
        }
        if m.has_stake(a) {
            let n = choose|n: u64| #[trigger] m.positions.contains_key((a, n));
            assert(m2.positions.contains_key((a, n)));
        }
    }
}

/// The owner's requests (pausing, allowing nonces, setting rates, funding and
/// withdrawing) leave the stakes and the list of stakers as they are.
pub proof fn lemma_owner_requests_keep_stakes(
    m: StakeModel,
    caller: Seq<u8>,
    owner: Seq<u8>,
    nonces: Seq<u64>,
    nonce: u64,
    amount: nat,
    kind: TokenType,
    payment: PaymentModel,
)
    ensures
        m.toggle_pause_step(caller, owner) matches Ok(m2) ==> m2.positions == m.positions && m2.users_staked == m.users_staked,
        m.set_sfts_allowed_step(caller, owner, nonces) matches Ok(m2) ==> m2.positions == m.positions && m2.users_staked == m.users_staked,
        m.remove_sfts_allowed_step(caller, owner, nonces) matches Ok(m2) ==> m2.positions == m.positions && m2.users_staked == m.users_staked,
        m.set_sft_eccu_step(caller, owner, nonce, amount) matches Ok(m2) ==> m2.positions == m.positions && m2.users_staked == m.users_staked,
        m.set_sft_resource_step(caller, owner, nonce, amount) matches Ok(m2) ==> m2.positions == m.positions && m2.users_staked == m.users_staked,
        m.fund_step(kind, caller, owner, payment) matches Ok(m2) ==> m2.positions == m.positions && m2.users_staked == m.users_staked,
        m.withdraw_step(caller, owner, amount) matches Ok((m2, _)) ==> m2.positions == m.positions && m2.users_staked == m.users_staked,
{
}

/// Pausing twice restores the state.
pub proof fn lemma_toggle_pause_twice(m: StakeModel, owner: Seq<u8>)
    ensures
        m.toggle_pause_step(owner, owner) matches Ok(m1) && m1.toggle_pause_step(owner, owner) == Ok::<StakeModel, StakeError>(m),
{
    let m1 = m.toggle_pause_step(owner, owner)->Ok_0;
    assert(m1.toggle_pause_step(owner, owner)->Ok_0 == m);
}

/// Nothing is earned before a full day has passed since the stake started.
pub proof fn lemma_no_reward_within_a_day(m: StakeModel, a: Seq<u8>, n: u64, amount: nat, now: u64)
    requires
        m.staked_at_or_zero(a, n) <= now,
        now - m.staked_at_or_zero(a, n) < 86400,
    ensures
        m.reward_lines(a, n, amount, now) == Seq::<(TokenType, nat)>::empty(),
        forall|t: TokenType| #[trigger] line_sum(m.reward_lines(a, n, amount, now), t) == 0,
{
    assert(days_between(m.staked_at_or_zero(a, n), now) == 0);
}

/// Funding the currency pool and then withdrawing the same amount restores the state,
/// and the withdrawal sends that amount of the currency to the owner.
pub proof fn lemma_fund_then_withdraw(m: StakeModel, owner: Seq<u8>, payment: PaymentModel)
    requires
        m.valid(),
        payment.token == m.token_ids[TokenType::Eccu],
        payment.amount > 0,
    ensures
        m.fund_step(TokenType::Eccu, owner, owner, payment) matches Ok(m1)
            && m1.withdraw_step(owner, owner, payment.amount) matches Ok((m2, t))
            && m2 == m
            && t == (TransferModel { to: owner, token: m.token_ids[TokenType::Eccu], nonce: 0, amount: payment.amount }),
{
    let m1 = m.fund_step(TokenType::Eccu, owner, owner, payment)->Ok_0;
    let m2 = m1.withdraw_step(owner, owner, payment.amount)->Ok_0.0;
    assert(m2.pools =~= m.pools);
}

/// Allowing nonces of which none was allowed and then removing them restores the state.
pub proof fn lemma_allow_then_remove(m: StakeModel, owner: Seq<u8>, nonces: Seq<u64>)
    requires
        forall|i: int| 0 <= i < nonces.len() ==> !m.sfts_allowed.contains(#[trigger] nonces[i]),
    ensures
        m.set_sfts_allowed_step(owner, owner, nonces) matches Ok(m1)
            && m1.remove_sfts_allowed_step(owner, owner, nonces) == Ok::<StakeModel, StakeError>(m),
{
    let m1 = m.set_sfts_allowed_step(owner, owner, nonces)->Ok_0;
    let m2 = m1.remove_sfts_allowed_step(owner, owner, nonces)->Ok_0;
    assert(m2.sfts_allowed =~= m.sfts_allowed) by {
        assert forall|n: u64| m.sfts_allowed.contains(n) implies !nonces.to_set().contains(n) by {
            if nonces.contains(n) {
                let i = choose|i: int| 0 <= i < nonces.len() && nonces[i] == n;
            }
        }
    }
}

/// Staking SFTs of a nonce that the caller does not hold staked and unstaking all of
/// them at the same time restores the state, and returns the SFTs to the caller.
pub proof fn lemma_stake_then_unstake_all(m: StakeModel, caller: Seq<u8>, now: u64, payment: PaymentModel)
    requires
        m.valid(),
        m.stakers_consistent(),
        !m.paused,
        payment.token == m.collection,
        m.sfts_allowed.contains(payment.nonce),
        !m.positions.contains_key((caller, payment.nonce)),
    ensures
        m.stake_step(caller, now, payment) matches Ok(m1)
            && m1.un_stake_step(caller, now, m.collection, payment.nonce, payment.amount) matches Ok((m2, t))
            && m2 == m
            && t == (TransferModel { to: caller, token: m.collection, nonce: payment.nonce, amount: payment.amount }),
{
    let key = (caller, payment.nonce);
    let m1 = m.stake_step(caller, now, payment)->Ok_0;
    assert(m1.positions.contains_key(key));
    assert(m1.positions[key].staked_at == now);
    assert(days_between(now, now) == 0);
    let r = m1.un_stake_step(caller, now, m.collection, payment.nonce, payment.amount);
    assert(r is Ok);
    let m2 = r->Ok_0.0;
    assert(m2.balances =~= m.balances);
    assert(m2.positions =~= m.positions);
    assert(m2.users_staked =~= m.users_staked) by {
        if m.has_stake(caller) {
            let n = choose|n: u64| #[trigger] m.positions.contains_key((caller, n));
            assert(m2.positions.contains_key((caller, n)));
        } else {
            assert(!m.users_staked.contains(caller));
            if m2.has_stake(caller) {
                let n = choose|n: u64| #[trigger] m2.positions.contains_key((caller, n));
                assert(m.positions.contains_key((caller, n)));
            }
        }
    }
}

/// Claiming again right after a claim, at the same time, pays nothing and changes nothing.
pub proof fn lemma_claim_twice(m: StakeModel, caller: Seq<u8>, now: u64)
    requires
        m.valid(),
        m.claim_rewards_step(caller, now) is Ok,
    ensures
        ({
            let m1 = m.claim_rewards_step(caller, now)->Ok_0.0;
            m1.claim_rewards_step(caller, now) == Ok::<(StakeModel, Seq<TransferModel>), StakeError>((m1, seq![]))
        }),
{
    let m1 = m.claim_rewards_step(caller, now)->Ok_0.0;
    assert(m1.positions.dom() =~= m.positions.dom());
    lemma_staked_nonces_finite(m1, caller);
    assert forall|t: TokenType| #[trigger] m1.claimable(caller, now, t) == 0 by {
        assert forall|n: u64| m1.staked_nonces(caller).contains(n) implies #[trigger] m1.pending(caller, n, now, t) == 0 by {
            assert(m1.positions[(caller, n)].staked_at == now);
            assert(days_between(now, now) == 0);
        }
        lemma_accrued_zero(m1, caller, now, t, m1.staked_nonces(caller));
    }
    assert(!m1.claim_short(caller, now));
    let r = m1.claim_rewards_step(caller, now)->Ok_0;
    let m2 = r.0;
    assert(m2.pools =~= m1.pools);
    assert(m2.balances =~= m1.balances);
    assert(m2.positions =~= m1.positions);
    assert(m1.claim_transfers(caller, now, 0) =~= seq![]);
    assert(m1.claimable(caller, now, TokenType::Eccu) == 0);
    assert(m1.claimable(caller, now, TokenType::Food) == 0);
    assert(m1.claimable(caller, now, TokenType::Beer) == 0);
    assert(m1.claimable(caller, now, TokenType::Wood) == 0);
    assert(m1.claimable(caller, now, TokenType::Stone) == 0);
    assert(m1.claimable(caller, now, TokenType::Iron) == 0);
    assert(m1.claimable(caller, now, TokenType::Wargear) == 0);
    assert(m1.claim_transfers(caller, now, 1) =~= seq![]);
    assert(m1.claim_transfers(caller, now, 2) =~= seq![]);
    assert(m1.claim_transfers(caller, now, 3) =~= seq![]);
    assert(m1.claim_transfers(caller, now, 4) =~= seq![]);
    assert(m1.claim_transfers(caller, now, 5) =~= seq![]);
    assert(m1.claim_transfers(caller, now, 6) =~= seq![]);
    assert(m1.claim_transfers(caller, now, 7) =~= seq![]);
}

/// Staking never changes what any account can claim at that moment: the rewards that
/// the caller's SFTs of the nonce had earned are saved before their stake restarts.
pub proof fn lemma_stake_keeps_claimable(m: StakeModel, caller: Seq<u8>, now: u64, payment: PaymentModel, b: Seq<u8>, t: TokenType)
    requires
        m.valid(),
        m.staked_at_or_zero(caller, payment.nonce) <= now,
        m.stake_step(caller, now, payment) is Ok,
    ensures
        m.stake_step(caller, now, payment)->Ok_0.claimable(b, now, t) == m.claimable(b, now, t),
{
    let n = payment.nonce;
    let m1 = m.stake_step(caller, now, payment)->Ok_0;
    assert(m1.positions.dom() =~= m.positions.dom().insert((caller, n)));
    lemma_staked_nonces_finite(m, b);
    lemma_staked_nonces_finite(m1, b);
    assert(days_between(now, now) == 0);
    if b != caller {
        assert(m1.staked_nonces(b) =~= m.staked_nonces(b));
        lemma_accrued_agree(m1, m, b, now, t, m.staked_nonces(b));
    } else {
        let s = m.staked_nonces(b);
        let s0 = s.remove(n);
        assert(forall|x: u64| s0.contains(x) ==> #[trigger] m1.pending(b, x, now, t) == m.pending(b, x, now, t));
        lemma_accrued_agree(m1, m, b, now, t, s0);
        assert(m1.staked_nonces(b) =~= s0.insert(n));
        lemma_accrued_insert(m1, b, now, t, s0, n);
        assert(m1.pending(b, n, now, t) == 0);
        if m.positions.contains_key((caller, n)) {
            assert(s0.insert(n) =~= s);
            lemma_accrued_insert(m, b, now, t, s0, n);
        } else {
            assert(s0 =~= s);
        }
    }
}

/// Unstaking never changes what any account can claim at that moment: the rewards that
/// the caller's SFTs of the nonce had earned are saved before their stake restarts or ends.
pub proof fn lemma_un_stake_keeps_claimable(
    m: StakeModel,
    caller: Seq<u8>,
    now: u64,
    token: Seq<u8>,
    nonce: u64,
    amount: nat,
    b: Seq<u8>,
    t: TokenType,
)
    requires
        m.valid(),
        m.staked_at_or_zero(caller, nonce) <= now,
        m.un_stake_step(caller, now, token, nonce, amount) is Ok,
    ensures
        m.un_stake_step(caller, now, token, nonce, amount)->Ok_0.0.claimable(b, now, t) == m.claimable(b, now, t),
{
    let n = nonce;
    let m1 = m.un_stake_step(caller, now, token, nonce, amount)->Ok_0.0;
    assert(m1.positions.dom().subset_of(m.positions.dom().insert((caller, n))));
    assert(m1.positions.dom().finite()) by {
        vstd::set_lib::lemma_set_subset_finite(m.positions.dom().insert((caller, n)), m1.positions.dom());
    }
    lemma_staked_nonces_finite(m, b);
    lemma_staked_nonces_finite(m1, b);
    assert(days_between(now, now) == 0);
    if b != caller {
        assert(m1.staked_nonces(b) =~= m.staked_nonces(b));
        lemma_accrued_agree(m1, m, b, now, t, m.staked_nonces(b));
    } else {
        let s = m.staked_nonces(b);
        let s0 = s.remove(n);
        assert(forall|x: u64| s0.contains(x) ==> #[trigger] m1.pending(b, x, now, t) == m.pending(b, x, now, t));
        lemma_accrued_agree(m1, m, b, now, t, s0);
        assert(s0.insert(n) =~= s);
        lemma_accrued_insert(m, b, now, t, s0, n);
        if m1.positions.contains_key((caller, n)) {
            assert(m1.staked_nonces(b) =~= s0.insert(n));
            lemma_accrued_insert(m1, b, now, t, s0, n);
            assert(m1.pending(b, n, now, t) == 0);
        } else {
            assert(m1.staked_nonces(b) =~= s0);
        }
    }
}

/// After a claim, the caller has nothing left to claim at that moment.
pub proof fn lemma_claim_leaves_nothing(m: StakeModel, caller: Seq<u8>, now: u64, t: TokenType)
    requires
        m.valid(),
        m.claim_rewards_step(caller, now) is Ok,
    ensures
        m.claim_rewards_step(caller, now)->Ok_0.0.claimable(caller, now, t) == 0,
{
    let m1 = m.claim_rewards_step(caller, now)->Ok_0.0;
    assert(m1.positions.dom() =~= m.positions.dom());
    lemma_staked_nonces_finite(m1, caller);
    assert forall|n: u64| m1.staked_nonces(caller).contains(n) implies #[trigger] m1.pending(caller, n, now, t) == 0 by {
        assert(m1.positions[(caller, n)].staked_at == now);
        assert(days_between(now, now) == 0);
    }
    lemma_accrued_zero(m1, caller, now, t, m1.staked_nonces(caller));
}

/// Every owner-only request from another account is refused.
pub proof fn lemma_only_owner(
    m: StakeModel,
    caller: Seq<u8>,
    owner: Seq<u8>,
    nonces: Seq<u64>,
    nonce: u64,
    amount: nat,
    kind: TokenType,
    payment: PaymentModel,
)
    requires
        caller != owner,
    ensures
        m.toggle_pause_step(caller, owner) == Err::<StakeModel, StakeError>(StakeError::NotOwner),
        m.set_sfts_allowed_step(caller, owner, nonces) == Err::<StakeModel, StakeError>(StakeError::NotOwner),
        m.remove_sfts_allowed_step(caller, owner, nonces) == Err::<StakeModel, StakeError>(StakeError::NotOwner),
        m.set_sft_eccu_step(caller, owner, nonce, amount) == Err::<StakeModel, StakeError>(StakeError::NotOwner),
        m.set_sft_resource_step(caller, owner, nonce, amount) == Err::<StakeModel, StakeError>(StakeError::NotOwner),
        m.fund_step(kind, caller, owner, payment) == Err::<StakeModel, StakeError>(StakeError::NotOwner),
        m.withdraw_step(caller, owner, amount) == Err::<(StakeModel, TransferModel), StakeError>(StakeError::NotOwner),
{
}

/// While staking is paused, staking and unstaking are refused.
pub proof fn lemma_pause_stops_staking(m: StakeModel, caller: Seq<u8>, now: u64, payment: PaymentModel, token: Seq<u8>, nonce: u64, amount: nat)
    requires
        m.paused,
    ensures
        m.stake_step(caller, now, payment) == Err::<StakeModel, StakeError>(StakeError::StakePaused),
        m.un_stake_step(caller, now, token, nonce, amount) == Err::<(StakeModel, TransferModel), StakeError>(StakeError::StakePaused),
{
}

/// A claim pays, token by token in the order of the rewards listing, the listed amount
/// times the token's decimals, and nothing for a token listed with zero.
pub proof fn lemma_claim_pays_listing(m: StakeModel, caller: Seq<u8>, now: u64, i: int)
    requires
        0 <= i < 7,
    ensures
        ({
            let line = m.rewards_listing(caller, now)[i];
            m.claim_transfers(caller, now, (i + 1) as nat) == m.claim_transfers(caller, now, i as nat) + if line.1 > 0 {
                seq![TransferModel { to: caller, token: m.token_ids[line.0], nonce: 0, amount: line.1 * decimals(line.0) }]
            } else {
                Seq::<TransferModel>::empty()
            }
        }),
{
    let line = m.rewards_listing(caller, now)[i];
    assert(line == (token_order()[i], m.claimable(caller, now, token_order()[i])));
    let before = m.claim_transfers(caller, now, i as nat);
    if line.1 > 0 {
        assert(m.claim_transfers(caller, now, (i + 1) as nat) =~= before + seq![
            TransferModel { to: caller, token: m.token_ids[line.0], nonce: 0, amount: line.1 * decimals(line.0) },
        ]);
    } else {
        assert(m.claim_transfers(caller, now, (i + 1) as nat) =~= before + Seq::<TransferModel>::empty());
    }
}

/// The rewards of SFTs staked together are the rewards of each part added line by line:
/// the same tokens in the same order, with the amounts added, so that every token's
/// total is the sum of the parts' totals.
pub proof fn lemma_rewards_additive_in_amount(m: StakeModel, a: Seq<u8>, n: u64, x: nat, y: nat, now: u64)
    ensures
        ({
            let l = m.reward_lines(a, n, x + y, now);
            let lx = m.reward_lines(a, n, x, now);
            let ly = m.reward_lines(a, n, y, now);
            &&& l.len() == lx.len()
            &&& l.len() == ly.len()
            &&& forall|i: int| #![trigger l[i]] 0 <= i < l.len() ==> l[i].0 == lx[i].0 && l[i].0 == ly[i].0 && l[i].1 == lx[i].1 + ly[i].1
            &&& forall|t: TokenType| #[trigger] line_sum(l, t) == line_sum(lx, t) + line_sum(ly, t)
        }),
{
    let d = days_between(m.staked_at_or_zero(a, n), now);
    lemma_sft_reward_lines_add(n, d, x, y, m.sft_eccu[n], m.sft_resource[n]);
    assert forall|t: TokenType|
        #[trigger] line_sum(m.reward_lines(a, n, x + y, now), t)
            == line_sum(m.reward_lines(a, n, x, now), t) + line_sum(m.reward_lines(a, n, y, now), t) by {
        lemma_line_sum_add(m.reward_lines(a, n, x + y, now), m.reward_lines(a, n, x, now), m.reward_lines(a, n, y, now), t);
    }
}

/// The rewards of SFTs of one nonce only grow with time: at a later moment every token's
/// total of them is at least as large.
pub proof fn lemma_sft_rewards_grow_with_time(m: StakeModel, a: Seq<u8>, n: u64, amount: nat, now1: u64, now2: u64, t: TokenType)
    requires
        m.staked_at_or_zero(a, n) <= now1,
        now1 <= now2,
    ensures
        line_sum(m.reward_lines(a, n, amount, now1), t) <= line_sum(m.reward_lines(a, n, amount, now2), t),
{
    let s = m.staked_at_or_zero(a, n);
    vstd::arithmetic::div_mod::lemma_div_is_ordered(now1 - s, now2 - s, 86400);
    lemma_sft_reward_lines_more_days(n, days_between(s, now1), days_between(s, now2), amount, m.sft_eccu[n], m.sft_resource[n], t);
}

/// What an account can claim only grows with time: at a later moment the rewards listing
/// names the same tokens in the same order, each with at least the amount listed before.
pub proof fn lemma_listing_grows_with_time(m: StakeModel, a: Seq<u8>, now1: u64, now2: u64)
    requires
        m.valid(),
        now1 <= now2,
        m.clock_after_stakes(a, now1),
    ensures
        forall|t: TokenType| #[trigger] m.claimable(a, now1, t) <= m.claimable(a, now2, t),
        m.rewards_listing(a, now1).len() == 7,
        m.rewards_listing(a, now2).len() == 7,
        forall|i: int| #![trigger m.rewards_listing(a, now2)[i]] 0 <= i < 7 ==>
            m.rewards_listing(a, now2)[i].0 == m.rewards_listing(a, now1)[i].0
            && m.rewards_listing(a, now1)[i].1 <= m.rewards_listing(a, now2)[i].1,
{
    lemma_staked_nonces_finite(m, a);
    assert forall|t: TokenType| #[trigger] m.claimable(a, now1, t) <= m.claimable(a, now2, t) by {
        assert forall|n: u64| m.staked_nonces(a).contains(n) implies #[trigger] m.pending(a, n, now1, t) <= m.pending(a, n, now2, t) by {
            assert(m.positions[(a, n)].staked_at <= now1);
            lemma_sft_rewards_grow_with_time(m, a, n, m.positions[(a, n)].amount, now1, now2, t);
        }
        lemma_accrued_mono(m, a, now1, now2, t, m.staked_nonces(a));
    }
    assert forall|i: int| #![trigger m.rewards_listing(a, now2)[i]] 0 <= i < 7 implies
        m.rewards_listing(a, now2)[i].0 == m.rewards_listing(a, now1)[i].0
        && m.rewards_listing(a, now1)[i].1 <= m.rewards_listing(a, now2)[i].1 by {
        let t = token_order()[i];
        assert(m.claimable(a, now1, t) <= m.claimable(a, now2, t));
    }
}

/// A fresh contract has no stakes, so none holds zero SFTs.
pub proof fn lemma_initial_stakes_positive(collection: Seq<u8>, token_ids: Map<TokenType, Seq<u8>>)
    ensures
        StakeModel::initial(collection, token_ids).stakes_positive(),
{
}

/// Staking a positive number of SFTs keeps every stake positive.
pub proof fn lemma_stake_keeps_stakes_positive(m: StakeModel, caller: Seq<u8>, now: u64, payment: PaymentModel)
    requires
        m.stakes_positive(),
        payment.amount > 0,
        m.stake_step(caller, now, payment) is Ok,
    ensures
        m.stake_step(caller, now, payment)->Ok_0.stakes_positive(),
{
    let m2 = m.stake_step(caller, now, payment)->Ok_0;
    assert forall|k: (Seq<u8>, u64)| m2.positions.contains_key(k) implies #[trigger] m2.positions[k].amount > 0 by {
        if k != (caller, payment.nonce) {
            assert(m.positions.contains_key(k));
        }
    }
}

/// Unstaking keeps every stake positive: a stake left with no SFTs ends.
pub proof fn lemma_un_stake_keeps_stakes_positive(
    m: StakeModel,
    caller: Seq<u8>,
    now: u64,
    token: Seq<u8>,
    nonce: u64,
    amount: nat,
)
    requires
        m.stakes_positive(),
        m.un_stake_step(caller, now, token, nonce, amount) is Ok,
    ensures
        m.un_stake_step(caller, now, token, nonce, amount)->Ok_0.0.stakes_positive(),
{
    let m2 = m.un_stake_step(caller, now, token, nonce, amount)->Ok_0.0;
    assert forall|k: (Seq<u8>, u64)| m2.positions.contains_key(k) implies #[trigger] m2.positions[k].amount > 0 by {
        if k != (caller, nonce) {
            assert(m.positions.contains_key(k));
        }
    }
}

/// Claiming and the owner's requests keep every stake positive.
pub proof fn lemma_other_requests_keep_stakes_positive(
    m: StakeModel,
    caller: Seq<u8>,
    owner: Seq<u8>,
    now: u64,
    nonces: Seq<u64>,
    nonce: u64,
    amount: nat,
    kind: TokenType,
    payment: PaymentModel,
)
    requires
        m.stakes_positive(),
    ensures
        m.claim_rewards_step(caller, now) matches Ok((m2, _)) ==> m2.stakes_positive(),
        m.toggle_pause_step(caller, owner) matches Ok(m2) ==> m2.stakes_positive(),
        m.set_sfts_allowed_step(caller, owner, nonces) matches Ok(m2) ==> m2.stakes_positive(),
        m.remove_sfts_allowed_step(caller, owner, nonces) matches Ok(m2) ==> m2.stakes_positive(),
        m.set_sft_eccu_step(caller, owner, nonce, amount) matches Ok(m2) ==> m2.stakes_positive(),
        m.set_sft_resource_step(caller, owner, nonce, amount) matches Ok(m2) ==> m2.stakes_positive(),
        m.fund_step(kind, caller, owner, payment) matches Ok(m2) ==> m2.stakes_positive(),
        m.withdraw_step(caller, owner, amount) matches Ok((m2, _)) ==> m2.stakes_positive(),
{
    if m.claim_rewards_step(caller, now) is Ok {
        let m2 = m.claim_rewards_step(caller, now)->Ok_0.0;
        assert forall|k: (Seq<u8>, u64)| m2.positions.contains_key(k) implies #[trigger] m2.positions[k].amount > 0 by {
            assert(m.positions.contains_key(k));
        }
    }
    lemma_owner_requests_keep_stakes(m, caller, owner, nonces, nonce, amount, kind, payment);
}

/// What `count` SFTs of each nonce earn over `days` full days (at least one), where one
/// SFT earns `resource_rate` of its resource and `eccu_rate` of the currency per day:
/// nonces 2, 19, 23, 29 yield Food and the currency; 35, 41, 49, 55 Food; 37, 43, 51, 57
/// Wood; 6, 17, 24, 30 Beer and the currency; 34, 40, 47, 54 Beer; 3, 16, 22, 27 Iron and
/// the currency; 36, 42, 50, 56 Iron; 4, 18, 25, 31 Wargear and the currency; 33, 39, 46,
/// 53 Wargear; 38, 44, 52, 58 Stone; 5, 7, 14, 15, 20, 21, 26, 28 the currency only; any
/// other nonce nothing. The resource is listed first.
pub proof fn lemma_reward_table(nonce: u64, days: nat, count: nat, eccu_rate: nat, resource_rate: nat)
    requires
        days >= 1,
    ensures
        (nonce == 2 || nonce == 19 || nonce == 23 || nonce == 29) ==> sft_reward_lines(nonce, days, count, eccu_rate, resource_rate)
            == seq![(TokenType::Food, resource_rate * (days * count)), (TokenType::Eccu, eccu_rate * (days * count))],
        (nonce == 35 || nonce == 41 || nonce == 49 || nonce == 55) ==> sft_reward_lines(nonce, days, count, eccu_rate, resource_rate)
            == seq![(TokenType::Food, resource_rate * (days * count))],
        (nonce == 37 || nonce == 43 || nonce == 51 || nonce == 57) ==> sft_reward_lines(nonce, days, count, eccu_rate, resource_rate)
            == seq![(TokenType::Wood, resource_rate * (days * count))],
        (nonce == 6 || nonce == 17 || nonce == 24 || nonce == 30) ==> sft_reward_lines(nonce, days, count, eccu_rate, resource_rate)
            == seq![(TokenType::Beer, resource_rate * (days * count)), (TokenType::Eccu, eccu_rate * (days * count))],
        (nonce == 34 || nonce == 40 || nonce == 47 || nonce == 54) ==> sft_reward_lines(nonce, days, count, eccu_rate, resource_rate)
            == seq![(TokenType::Beer, resource_rate * (days * count))],
        (nonce == 3 || nonce == 16 || nonce == 22 || nonce == 27) ==> sft_reward_lines(nonce, days, count, eccu_rate, resource_rate)
            == seq![(TokenType::Iron, resource_rate * (days * count)), (TokenType::Eccu, eccu_rate * (days * count))],
        (nonce == 36 || nonce == 42 || nonce == 50 || nonce == 56) ==> sft_reward_lines(nonce, days, count, eccu_rate, resource_rate)
            == seq![(TokenType::Iron, resource_rate * (days * count))],
        (nonce == 4 || nonce == 18 || nonce == 25 || nonce == 31) ==> sft_reward_lines(nonce, days, count, eccu_rate, resource_rate)
            == seq![(TokenType::Wargear, resource_rate * (days * count)), (TokenType::Eccu, eccu_rate * (days * count))],
        (nonce == 33 || nonce == 39 || nonce == 46 || nonce == 53) ==> sft_reward_lines(nonce, days, count, eccu_rate, resource_rate)
            == seq![(TokenType::Wargear, resource_rate * (days * count))],
        (nonce == 38 || nonce == 44 || nonce == 52 || nonce == 58) ==> sft_reward_lines(nonce, days, count, eccu_rate, resource_rate)
            == seq![(TokenType::Stone, resource_rate * (days * count))],
        (nonce == 5 || nonce == 7 || nonce == 14 || nonce == 15 || nonce == 20 || nonce == 21 || nonce == 26 || nonce == 28) ==> sft_reward_lines(nonce, days, count, eccu_rate, resource_rate)
            == seq![(TokenType::Eccu, eccu_rate * (days * count))],
        !(nonce == 2 || nonce == 19 || nonce == 23 || nonce == 29 || nonce == 35 || nonce == 41 || nonce == 49 || nonce == 55 || nonce == 37 || nonce == 43 || nonce == 51 || nonce == 57 || nonce == 6 || nonce == 17 || nonce == 24 || nonce == 30 || nonce == 34 || nonce == 40 || nonce == 47 || nonce == 54 || nonce == 3 || nonce == 16 || nonce == 22 || nonce == 27 || nonce == 36 || nonce == 42 || nonce == 50 || nonce == 56 || nonce == 4 || nonce == 18 || nonce == 25 || nonce == 31 || nonce == 33 || nonce == 39 || nonce == 46 || nonce == 53 || nonce == 38 || nonce == 44 || nonce == 52 || nonce == 58 || nonce == 5 || nonce == 7 || nonce == 14 || nonce == 15 || nonce == 20 || nonce == 21 || nonce == 26 || nonce == 28)
            ==> sft_reward_lines(nonce, days, count, eccu_rate, resource_rate) == Seq::<(TokenType, nat)>::empty(),
{
}

/// A claim pays each resource token (Food, Beer, Wood, Stone, Iron, Wargear) in units of
/// 10^18 per reward point and the currency in units of one per point: the payout of a
/// token is its claimable amount times that.
pub proof fn lemma_claim_units(m: StakeModel, a: Seq<u8>, now: u64, t: TokenType)
    ensures
        t == TokenType::Eccu ==> m.payout(a, now, t) == m.claimable(a, now, t),
        t != TokenType::Eccu ==> m.payout(a, now, t) == m.claimable(a, now, t) * 1000000000000000000,
{
    let c = m.claimable(a, now, t);
    assert(c * 1 == c) by (nonlinear_arith);
}

/// A successful claim sends, token by token in the listing's order, the listed amount
/// times 10^18 for a resource and times one for the currency, and nothing for a token
/// listed with zero; the caller's saved rewards become zero and each pool gives up what
/// it paid.
pub proof fn lemma_claim_transfers_in_units(m: StakeModel, caller: Seq<u8>, now: u64, i: int)
    requires
        0 <= i < 7,
    ensures
        ({
            let line = m.rewards_listing(caller, now)[i];
            let unit: nat = if line.0 == TokenType::Eccu { 1 } else { 1000000000000000000 };
            m.claim_transfers(caller, now, (i + 1) as nat) == m.claim_transfers(caller, now, i as nat) + if line.1 > 0 {
                seq![TransferModel { to: caller, token: m.token_ids[line.0], nonce: 0, amount: line.1 * unit }]
            } else {
                Seq::<TransferModel>::empty()
            }
        }),
        m.claim_rewards_step(caller, now) matches Ok((m2, _)) ==> forall|t: TokenType|
            #[trigger] m2.balances[(caller, t)] == 0
            && m2.pools[t] + m.claimable(caller, now, t) * (if t == TokenType::Eccu { 1nat } else { 1000000000000000000nat }) == m.pools[t],
{
    lemma_claim_pays_listing(m, caller, now, i);
    if m.claim_rewards_step(caller, now) is Ok {
        let m2 = m.claim_rewards_step(caller, now)->Ok_0.0;
        assert forall|t: TokenType| #[trigger] m2.balances[(caller, t)] == 0
            && m2.pools[t] + m.claimable(caller, now, t) * (if t == TokenType::Eccu { 1nat } else { 1000000000000000000nat }) == m.pools[t] by {
            if m.claimable(caller, now, t) > 0 {
                assert(!(m.pools[t] < m.payout(caller, now, t)));
            } else {
                assert(m.payout(caller, now, t) == 0);
            }
        }
    }
}

/// Every token of the rewards listing is listed with the account's saved reward of that
/// token plus what each of its staked nonces has earned of it; so it is never less than
/// the saved reward, and it is exactly the saved reward for an account without stakes.
pub proof fn lemma_listing_adds_saved_and_pending(m: StakeModel, a: Seq<u8>, now: u64, i: int)
    requires
        m.valid(),
        0 <= i < 7,
    ensures
        ({
            let t = m.rewards_listing(a, now)[i].0;
            &&& t == token_order()[i]
            &&& m.rewards_listing(a, now)[i].1
                == m.balances[(a, t)] + m.staked_nonces(a).fold(0nat, |acc: nat, n: u64|
                    acc + line_sum(m.reward_lines(a, n, m.positions[(a, n)].amount, now), t))
            &&& m.rewards_listing(a, now)[i].1 >= m.balances[(a, t)]
            &&& !m.has_stake(a) ==> m.rewards_listing(a, now)[i].1 == m.balances[(a, t)]
        }),
{
    let t = token_order()[i];
    assert(m.pending_adder(a, now, t) =~= |acc: nat, n: u64|
        acc + line_sum(m.reward_lines(a, n, m.positions[(a, n)].amount, now), t));
    if !m.has_stake(a) {
        assert(m.staked_nonces(a) =~= Set::<u64>::empty()) by {
            assert forall|n: u64| !m.staked_nonces(a).contains(n) by {
                if m.positions.contains_key((a, n)) {
                    assert(m.has_stake(a));
                }
            }
        }
        crate::model::lemma_accrued_empty(m, a, now, t);
    }
}

/// Unstaking does not depend on which nonces are allowed for staking: with any other set
/// of allowed nonces it gives the same answer, and the same state up to that set.
pub proof fn lemma_un_stake_ignores_allowed_nonces(
    m: StakeModel,
    allowed: Set<u64>,
    caller: Seq<u8>,
    now: u64,
    token: Seq<u8>,
    nonce: u64,
    amount: nat,
)
    ensures
        ({
            let m2 = StakeModel { sfts_allowed: allowed, ..m };
            match m.un_stake_step(caller, now, token, nonce, amount) {
                Ok((x, t)) => m2.un_stake_step(caller, now, token, nonce, amount)
                    == Ok::<(StakeModel, TransferModel), StakeError>((StakeModel { sfts_allowed: allowed, ..x }, t)),
                Err(e) => m2.un_stake_step(caller, now, token, nonce, amount) == Err::<(StakeModel, TransferModel), StakeError>(e),
            }
        }),
{
    let m2 = StakeModel { sfts_allowed: allowed, ..m };
    if m.un_stake_step(caller, now, token, nonce, amount) is Ok {
        let (x, t) = m.un_stake_step(caller, now, token, nonce, amount)->Ok_0;
        let (y, u) = m2.un_stake_step(caller, now, token, nonce, amount)->Ok_0;
        assert(y.positions =~= x.positions);
        assert(y.balances =~= x.balances);
        assert(y.users_staked =~= x.users_staked);
        assert(y == StakeModel { sfts_allowed: allowed, ..x });
    }
}

/// Unstaking succeeds whenever staking is not paused, the token is the collection and the
/// caller has at least `amount` SFTs of the nonce staked: the caller gets those SFTs back,
/// and keeps the rest staked from `now` (or none, where none remain).
pub proof fn lemma_un_stake_succeeds(m: StakeModel, caller: Seq<u8>, now: u64, nonce: u64, amount: nat)
    requires
        !m.paused,
        m.positions.contains_key((caller, nonce)),
        amount <= m.positions[(caller, nonce)].amount,
    ensures
        m.un_stake_step(caller, now, m.collection, nonce, amount) matches Ok((m2, t))
            && t == (TransferModel { to: caller, token: m.collection, nonce, amount })
            && (amount < m.positions[(caller, nonce)].amount ==> m2.positions.contains_key((caller, nonce))
                && m2.positions[(caller, nonce)].amount + amount == m.positions[(caller, nonce)].amount
                && m2.positions[(caller, nonce)].staked_at == now)
            && (amount == m.positions[(caller, nonce)].amount ==> !m2.positions.contains_key((caller, nonce))),
{
}

/// Staking SFTs of a nonce that is not allowed is refused with `InvalidNonce`, the state
/// unchanged, whenever staking is not paused and the token is the collection, whatever
/// the caller already has staked.
pub proof fn lemma_stake_needs_allowed_nonce(m: StakeModel, caller: Seq<u8>, now: u64, payment: PaymentModel)
    requires
        !m.paused,
        payment.token == m.collection,
        !m.sfts_allowed.contains(payment.nonce),
    ensures
        m.stake_step(caller, now, payment) == Err::<StakeModel, StakeError>(StakeError::InvalidNonce),
{
}

/// Staking SFTs of an allowed nonce succeeds whenever staking is not paused and the token
/// is the collection: the caller then has the SFTs it had staked of that nonce plus the
/// paid ones staked from `now`, is listed as a staker, and what its earlier SFTs of that
/// nonce had earned is added to its saved rewards.
pub proof fn lemma_stake_succeeds(m: StakeModel, caller: Seq<u8>, now: u64, payment: PaymentModel)
    requires
        !m.paused,
        payment.token == m.collection,
        m.sfts_allowed.contains(payment.nonce),
    ensures
        m.stake_step(caller, now, payment) matches Ok(m2)
            && m2.positions.contains_key((caller, payment.nonce))
            && m2.positions[(caller, payment.nonce)].staked_at == now
            && m2.positions[(caller, payment.nonce)].amount == payment.amount + if m.positions.contains_key((caller, payment.nonce)) {
                m.positions[(caller, payment.nonce)].amount
            } else {
                0
            }
            && m2.users_staked.contains(caller)
            && forall|t: TokenType| #[trigger] m2.balances[(caller, t)] == m.balances[(caller, t)] + if m.positions.contains_key((caller, payment.nonce)) {
                line_sum(m.reward_lines(caller, payment.nonce, m.positions[(caller, payment.nonce)].amount, now), t)
            } else {
                0
            },
{
}

/// Setting a rate makes it the rate of that nonce and leaves every other rate as it was.
pub proof fn lemma_set_rates(m: StakeModel, owner: Seq<u8>, nonce: u64, amount: nat, other: u64)
    requires
        amount > 0,
        other != nonce,
    ensures
        m.set_sft_eccu_step(owner, owner, nonce, amount) matches Ok(m2)
            && m2.sft_eccu[nonce] == amount && m2.sft_eccu[other] == m.sft_eccu[other] && m2.sft_resource == m.sft_resource,
        m.set_sft_resource_step(owner, owner, nonce, amount) matches Ok(m2)
            && m2.sft_resource[nonce] == amount && m2.sft_resource[other] == m.sft_resource[other] && m2.sft_eccu == m.sft_eccu,
{
}

/// Allowing nonces makes each of them allowed and keeps the others; removing nonces makes
/// none of them allowed and keeps the others.
pub proof fn lemma_allowed_nonces(m: StakeModel, owner: Seq<u8>, nonces: Seq<u64>, n: u64)
    ensures
        m.set_sfts_allowed_step(owner, owner, nonces) matches Ok(m2)
            && (m2.sfts_allowed.contains(n) <==> (m.sfts_allowed.contains(n) || nonces.contains(n))),
        m.remove_sfts_allowed_step(owner, owner, nonces) matches Ok(m2)
            && (m2.sfts_allowed.contains(n) <==> (m.sfts_allowed.contains(n) && !nonces.contains(n))),
{
    assert(nonces.contains(n) <==> nonces.to_set().contains(n));
}

/// Rewards are counted in full days: `d` full days have passed once `d * 86400` seconds
/// have, and no more until `(d + 1) * 86400` have.
pub proof fn lemma_full_days(staked_at: u64, now: u64, d: nat)
    requires
        staked_at <= now,
    ensures
        now - staked_at >= d * 86400 ==> days_between(staked_at, now) >= d,
        now - staked_at < (d + 1) * 86400 ==> days_between(staked_at, now) <= d,
{
    let x = now - staked_at;
    assert(x >= d * 86400 ==> x / 86400 >= d) by (nonlinear_arith)
        requires x >= 0, d >= 0;
    assert(x < (d + 1) * 86400 ==> x / 86400 <= d) by (nonlinear_arith)
        requires x >= 0, d >= 0;
}

} // verus!
