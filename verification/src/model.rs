//! The contract's state and endpoints as mathematics: amounts are unbounded
//! natural numbers, and each endpoint is a function from a state and a request
//! to a new state (with the transfers it makes) or an error.

use vstd::prelude::*;
use crate::amounts::{TokenType, decimals, token_order};
use crate::rewards::{sft_reward_lines, days_between, line_sum};

verus! {

/// Why a request is refused.
#[derive(Clone, Copy, Debug, PartialEq, Eq, Structural)]
pub enum StakeError {
    /// An owner-only endpoint was called by another account.
    NotOwner,
    /// A reward rate of zero was given.
    InvalidAmount,
    /// A fund payment is not in the token of the pool.
    InvalidToken,
    /// An amount of zero was given.
    ZeroAmount,
    /// Staking is paused.
    StakePaused,
    /// The token is not the SFT collection.
    InvalidIdentifier,
    /// The SFT nonce is not allowed for staking.
    InvalidNonce,
    /// The caller has no SFT of this nonce staked.
    NotStaked,
    /// The caller has fewer SFTs of this nonce staked than requested.
    NotEnoughStaked,
    /// A pool holds less than is to be taken from it.
    NegativeResult,
}

/// The text that a refusal reports.
pub open spec fn error_message(e: StakeError) -> Seq<char> {
    match e {
        StakeError::NotOwner => "Endpoint can only be called by owner"@,
        StakeError::InvalidAmount => "Invalid amount!"@,
        StakeError::InvalidToken => "Invalid token!"@,
        StakeError::ZeroAmount => "Amount must be greater than zero!"@,
        StakeError::StakePaused => "The stake is stopped!"@,
        StakeError::InvalidIdentifier => "Invalid identifier!"@,
        StakeError::InvalidNonce => "Invalid sft nonce!"@,
        StakeError::NotStaked => "You don't have this sft at stake!"@,
        StakeError::NotEnoughStaked => "You don't have enough sfts at stake!"@,
        StakeError::NegativeResult => "cannot subtract because result would be negative"@,
    }
}

impl StakeError {
    /// The text that this refusal reports.
    pub fn message(&self) -> (r: &'static str)
        ensures
            r@ == error_message(*self),
    {
        match self {
            StakeError::NotOwner => "Endpoint can only be called by owner",
            StakeError::InvalidAmount => "Invalid amount!",
            StakeError::InvalidToken => "Invalid token!",
            StakeError::ZeroAmount => "Amount must be greater than zero!",
            StakeError::StakePaused => "The stake is stopped!",
            StakeError::InvalidIdentifier => "Invalid identifier!",
            StakeError::InvalidNonce => "Invalid sft nonce!",
            StakeError::NotStaked => "You don't have this sft at stake!",
            StakeError::NotEnoughStaked => "You don't have enough sfts at stake!",
            StakeError::NegativeResult => "cannot subtract because result would be negative",
        }
    }
}

/// SFTs of one nonce staked by one account.
pub struct PositionModel {
    pub amount: nat,
    pub staked_at: u64,
}

/// A payment received with a call.
pub struct PaymentModel {
    pub token: Seq<u8>,
    pub nonce: u64,
    pub amount: nat,
}

/// A transfer of tokens from the contract to an account.
pub struct TransferModel {
    pub to: Seq<u8>,
    pub token: Seq<u8>,
    pub nonce: u64,
    pub amount: nat,
}

/// The contract's storage.
pub struct StakeModel {
    /// The SFT collection that can be staked.
    pub collection: Seq<u8>,
    /// The identifier of each reward token.
    pub token_ids: Map<TokenType, Seq<u8>>,
    pub paused: bool,
    /// The SFT nonces that can be staked.
    pub sfts_allowed: Set<u64>,
    /// Currency earned per day by one SFT of each nonce (zero where unset).
    pub sft_eccu: Map<u64, nat>,
    /// Resource earned per day by one SFT of each nonce (zero where unset).
    pub sft_resource: Map<u64, nat>,
    /// The amount of each reward token that the contract holds for payouts.
    pub pools: Map<TokenType, nat>,
    /// The staked SFTs, by account and nonce.
    pub positions: Map<(Seq<u8>, u64), PositionModel>,
    /// The accounts that have SFTs staked.
    pub users_staked: Set<Seq<u8>>,
    /// Rewards saved for each account and token, not yet claimed.
    pub balances: Map<(Seq<u8>, TokenType), nat>,
}

impl StakeModel {
    /// The maps that stand for storage with a default value are defined everywhere, and
    /// there are finitely many stakes.
    pub open spec fn valid(self) -> bool {
        &&& forall|t: TokenType| #[trigger] self.token_ids.dom().contains(t)
        &&& forall|t: TokenType| #[trigger] self.pools.dom().contains(t)
        &&& forall|n: u64| #[trigger] self.sft_eccu.dom().contains(n)
        &&& forall|n: u64| #[trigger] self.sft_resource.dom().contains(n)
        &&& forall|k: (Seq<u8>, TokenType)| #[trigger] self.balances.dom().contains(k)
        &&& self.positions.dom().finite()
    }

    /// The accounts listed as stakers are exactly those with SFTs staked.
    pub open spec fn stakers_consistent(self) -> bool {
        forall|a: Seq<u8>| #[trigger] self.users_staked.contains(a) <==> self.has_stake(a)
    }

    /// Every stake holds a positive number of SFTs, so that an account holds SFTs of a
    /// nonce exactly where its staked amount of that nonce is positive.
    pub open spec fn stakes_positive(self) -> bool {
        forall|k: (Seq<u8>, u64)| self.positions.contains_key(k) ==> #[trigger] self.positions[k].amount > 0
    }

    /// Whether account `a` has SFTs of some nonce staked.
    pub open spec fn has_stake(self, a: Seq<u8>) -> bool {
        exists|n: u64| #[trigger] self.positions.contains_key((a, n))
    }

    /// The nonces of which account `a` has SFTs staked.
    pub open spec fn staked_nonces(self, a: Seq<u8>) -> Set<u64> {
        Set::new(|n: u64| self.positions.contains_key((a, n)))
    }

    /// When account `a` staked SFTs of nonce `n`, or zero where it has none staked.
    pub open spec fn staked_at_or_zero(self, a: Seq<u8>, n: u64) -> u64 {
        if self.positions.contains_key((a, n)) {
            self.positions[(a, n)].staked_at
        } else {
            0
        }
    }

    /// No stake of account `a` started after `now`.
    pub open spec fn clock_after_stakes(self, a: Seq<u8>, now: u64) -> bool {
        forall|n: u64|
            self.positions.contains_key((a, n)) ==> #[trigger] self.positions[(a, n)].staked_at <= now
    }

    /// What `amount` SFTs of nonce `n` of account `a` have earned at `now` since they were staked.
    pub open spec fn reward_lines(self, a: Seq<u8>, n: u64, amount: nat, now: u64) -> Seq<(TokenType, nat)> {
        sft_reward_lines(
            n,
            days_between(self.staked_at_or_zero(a, n), now),
            amount,
            self.sft_eccu[n],
            self.sft_resource[n],
        )
    }

    /// The state with the rewards of `amount` SFTs of nonce `n` of account `a` added to
    /// the account's saved rewards.
    pub open spec fn save_rewards(self, a: Seq<u8>, n: u64, amount: nat, now: u64) -> StakeModel {
        let lines = self.reward_lines(a, n, amount, now);
        StakeModel {
            balances: Map::new(
                |k: (Seq<u8>, TokenType)| true,
                |k: (Seq<u8>, TokenType)|
                    if k.0 == a { self.balances[k] + line_sum(lines, k.1) } else { self.balances[k] },
            ),
            ..self
        }
    }

    /// Token `t` earned by the staked SFTs of nonce `n` of account `a` at `now`.
    pub open spec fn pending(self, a: Seq<u8>, n: u64, now: u64, t: TokenType) -> nat {
        line_sum(self.reward_lines(a, n, self.positions[(a, n)].amount, now), t)
    }

    /// Adds the token `t` earned by the staked SFTs of a nonce to a running total.
    pub open spec fn pending_adder(self, a: Seq<u8>, now: u64, t: TokenType) -> spec_fn(nat, u64) -> nat {
        |acc: nat, n: u64| acc + self.pending(a, n, now, t)
    }

    /// Token `t` earned by all staked SFTs of account `a` at `now`, not yet saved.
    pub open spec fn accrued(self, a: Seq<u8>, now: u64, t: TokenType) -> nat {
        self.staked_nonces(a).fold(0nat, self.pending_adder(a, now, t))
    }

    /// Token `t` that account `a` would receive by claiming at `now`, in reward points.
    pub open spec fn claimable(self, a: Seq<u8>, now: u64, t: TokenType) -> nat {
        self.balances[(a, t)] + self.accrued(a, now, t)
    }

    /// The state right after initialisation.
    pub open spec fn initial(collection: Seq<u8>, token_ids: Map<TokenType, Seq<u8>>) -> StakeModel {
        StakeModel {
            collection,
            token_ids,
            paused: false,
            sfts_allowed: Set::empty(),
            sft_eccu: Map::new(|n: u64| true, |n: u64| 0nat),
            sft_resource: Map::new(|n: u64| true, |n: u64| 0nat),
            pools: Map::new(|t: TokenType| true, |t: TokenType| 0nat),
            positions: Map::empty(),
            users_staked: Set::empty(),
            balances: Map::new(|k: (Seq<u8>, TokenType)| true, |k: (Seq<u8>, TokenType)| 0nat),
        }
    }

    /// Flips the pause flag (owner only).
    pub open spec fn toggle_pause_step(self, caller: Seq<u8>, owner: Seq<u8>) -> Result<StakeModel, StakeError> {
        if caller != owner {
            Err(StakeError::NotOwner)
        } else {
            Ok(StakeModel { paused: !self.paused, ..self })
        }
    }

    /// Allows the nonces `nonces` for staking (owner only).
    pub open spec fn set_sfts_allowed_step(self, caller: Seq<u8>, owner: Seq<u8>, nonces: Seq<u64>) -> Result<StakeModel, StakeError> {
        if caller != owner {
            Err(StakeError::NotOwner)
        } else {
            Ok(StakeModel { sfts_allowed: self.sfts_allowed + nonces.to_set(), ..self })
        }
    }

    /// Disallows the nonces `nonces` for staking (owner only).
    pub open spec fn remove_sfts_allowed_step(self, caller: Seq<u8>, owner: Seq<u8>, nonces: Seq<u64>) -> Result<StakeModel, StakeError> {
        if caller != owner {
            Err(StakeError::NotOwner)
        } else {
            Ok(StakeModel { sfts_allowed: self.sfts_allowed - nonces.to_set(), ..self })
        }
    }

    /// Sets the daily currency reward of nonce `nonce` (owner only, nonzero).
    pub open spec fn set_sft_eccu_step(self, caller: Seq<u8>, owner: Seq<u8>, nonce: u64, amount: nat) -> Result<StakeModel, StakeError> {
        if caller != owner {
            Err(StakeError::NotOwner)
        } else if amount == 0 {
            Err(StakeError::InvalidAmount)
        } else {
            Ok(StakeModel { sft_eccu: self.sft_eccu.insert(nonce, amount), ..self })
        }
    }

    /// Sets the daily resource reward of nonce `nonce` (owner only, nonzero).
    pub open spec fn set_sft_resource_step(self, caller: Seq<u8>, owner: Seq<u8>, nonce: u64, amount: nat) -> Result<StakeModel, StakeError> {
        if caller != owner {
            Err(StakeError::NotOwner)
        } else if amount == 0 {
            Err(StakeError::InvalidAmount)
        } else {
            Ok(StakeModel { sft_resource: self.sft_resource.insert(nonce, amount), ..self })
        }
    }

    /// Adds a payment to the pool of token `kind` (owner only, in that token, nonzero).
    pub open spec fn fund_step(self, kind: TokenType, caller: Seq<u8>, owner: Seq<u8>, payment: PaymentModel) -> Result<StakeModel, StakeError> {
        if caller != owner {
            Err(StakeError::NotOwner)
        } else if payment.token != self.token_ids[kind] {
            Err(StakeError::InvalidToken)
        } else if payment.amount == 0 {
            Err(StakeError::ZeroAmount)
        } else {
            Ok(StakeModel { pools: self.pools.insert(kind, self.pools[kind] + payment.amount), ..self })
        }
    }

    /// Takes `amount` from the currency pool and sends it to the caller (owner only).
    pub open spec fn withdraw_step(self, caller: Seq<u8>, owner: Seq<u8>, amount: nat) -> Result<(StakeModel, TransferModel), StakeError> {
        if caller != owner {
            Err(StakeError::NotOwner)
        } else if amount == 0 {
            Err(StakeError::ZeroAmount)
        } else if self.pools[TokenType::Eccu] < amount {
            Err(StakeError::NegativeResult)
        } else {
            Ok((
                StakeModel {
                    pools: self.pools.insert(TokenType::Eccu, (self.pools[TokenType::Eccu] - amount) as nat),
                    ..self
                },
                TransferModel { to: caller, token: self.token_ids[TokenType::Eccu], nonce: 0, amount },
            ))
        }
    }

    /// Stakes the SFTs paid with the call. Where the caller already has SFTs of that
    /// nonce staked, their rewards so far are saved first and the stake restarts at `now`.
    pub open spec fn stake_step(self, caller: Seq<u8>, now: u64, payment: PaymentModel) -> Result<StakeModel, StakeError> {
        let key = (caller, payment.nonce);
        if self.paused {
            Err(StakeError::StakePaused)
        } else if payment.token != self.collection {
            Err(StakeError::InvalidIdentifier)
        } else if !self.sfts_allowed.contains(payment.nonce) {
            Err(StakeError::InvalidNonce)
        } else if self.positions.contains_key(key) {
            let staked = self.positions[key].amount;
            let saved = self.save_rewards(caller, payment.nonce, staked, now);
            Ok(StakeModel {
                positions: saved.positions.insert(key, PositionModel { amount: staked + payment.amount, staked_at: now }),
                users_staked: saved.users_staked.insert(caller),
                ..saved
            })
        } else {
            Ok(StakeModel {
                positions: self.positions.insert(key, PositionModel { amount: payment.amount, staked_at: now }),
                users_staked: self.users_staked.insert(caller),
                ..self
            })
        }
    }

    /// Unstakes `amount` SFTs of nonce `nonce` and sends them back to the caller, saving
    /// the rewards of all SFTs of that nonce that the caller had staked.
    pub open spec fn un_stake_step(self, caller: Seq<u8>, now: u64, token: Seq<u8>, nonce: u64, amount: nat) -> Result<(StakeModel, TransferModel), StakeError> {
        let key = (caller, nonce);
        if self.paused {
            Err(StakeError::StakePaused)
        } else if token != self.collection {
            Err(StakeError::InvalidIdentifier)
        } else if !self.positions.contains_key(key) {
            Err(StakeError::NotStaked)
        } else if self.positions[key].amount < amount {
            Err(StakeError::NotEnoughStaked)
        } else {
            let staked = self.positions[key].amount;
            let saved = self.save_rewards(caller, nonce, staked, now);
            let positions = if staked - amount > 0 {
                saved.positions.insert(key, PositionModel { amount: (staked - amount) as nat, staked_at: now })
            } else {
                saved.positions.remove(key)
            };
            let after = StakeModel { positions, ..saved };
            let users_staked = if after.has_stake(caller) {
                after.users_staked
            } else {
                after.users_staked.remove(caller)
            };
            Ok((
                StakeModel { users_staked, ..after },
                TransferModel { to: caller, token: self.collection, nonce, amount },
            ))
        }
    }

    /// Sets the start of every stake of account `a` to `now`.
    pub open spec fn reset_stake_times(self, a: Seq<u8>, now: u64) -> StakeModel {
        StakeModel {
            positions: Map::new(
                |k: (Seq<u8>, u64)| self.positions.contains_key(k),
                |k: (Seq<u8>, u64)|
                    if k.0 == a {
                        PositionModel { amount: self.positions[k].amount, staked_at: now }
                    } else {
                        self.positions[k]
                    },
            ),
            ..self
        }
    }

    /// What account `a` can claim at `now`, listed for each token in `token_order()`.
    pub open spec fn rewards_listing(self, a: Seq<u8>, now: u64) -> Seq<(TokenType, nat)> {
        token_order().map_values(|t: TokenType| (t, self.claimable(a, now, t)))
    }

    /// The payout of token `t` to account `a` at `now`, in token units.
    pub open spec fn payout(self, a: Seq<u8>, now: u64, t: TokenType) -> nat {
        self.claimable(a, now, t) * decimals(t)
    }

    /// Some pool holds less than the payout that a claim of account `a` at `now` takes from it.
    pub open spec fn claim_short(self, a: Seq<u8>, now: u64) -> bool {
        exists|t: TokenType|
            self.claimable(a, now, t) > 0 && self.pools[t] < #[trigger] self.payout(a, now, t)
    }

    /// The transfers of a claim of account `a` at `now` for the first `i` tokens of
    /// `token_order()`: one for each token of which something is claimable.
    pub open spec fn claim_transfers(self, a: Seq<u8>, now: u64, i: nat) -> Seq<TransferModel>
        decreases i,
    {
        if i == 0 || i > 7 {
            seq![]
        } else {
            let t = token_order()[i - 1];
            let before = self.claim_transfers(a, now, (i - 1) as nat);
            if self.claimable(a, now, t) > 0 {
                before.push(TransferModel { to: a, token: self.token_ids[t], nonce: 0, amount: self.payout(a, now, t) })
            } else {
                before
            }
        }
    }

    /// Pays out everything claimable by the caller: saved rewards plus what its staked
    /// SFTs have earned. Its saved rewards become zero and its stakes restart at `now`.
    pub open spec fn claim_rewards_step(self, caller: Seq<u8>, now: u64) -> Result<(StakeModel, Seq<TransferModel>), StakeError> {
        if self.claim_short(caller, now) {
            Err(StakeError::NegativeResult)
        } else {
            let reset = self.reset_stake_times(caller, now);
            Ok((
                StakeModel {
                    pools: Map::new(
                        |t: TokenType| true,
                        |t: TokenType| (self.pools[t] - self.payout(caller, now, t)) as nat,
                    ),
                    balances: Map::new(
                        |k: (Seq<u8>, TokenType)| true,
                        |k: (Seq<u8>, TokenType)| if k.0 == caller { 0 } else { self.balances[k] },
                    ),
                    ..reset
                },
                self.claim_transfers(caller, now, 7),
            ))
        }
    }
}

/// Adding the earnings of nonces to a running total does not depend on their order.
pub proof fn lemma_pending_adder_commutative(m: StakeModel, a: Seq<u8>, now: u64, t: TokenType)
    ensures
        vstd::set::fold::is_fun_commutative(m.pending_adder(a, now, t)),
{
}

/// The total over a set with one more nonce adds that nonce's earnings.
pub proof fn lemma_accrued_insert(m: StakeModel, a: Seq<u8>, now: u64, t: TokenType, s: Set<u64>, n: u64)
    requires
        s.finite(),
        !s.contains(n),
    ensures
        s.insert(n).fold(0nat, m.pending_adder(a, now, t)) == s.fold(0nat, m.pending_adder(a, now, t)) + m.pending(a, n, now, t),
{
    lemma_pending_adder_commutative(m, a, now, t);
    vstd::set::fold::lemma_fold_insert(s, 0nat, m.pending_adder(a, now, t), n);
}

/// The total over the empty set is zero.
pub proof fn lemma_accrued_empty(m: StakeModel, a: Seq<u8>, now: u64, t: TokenType)
    ensures
        Set::<u64>::empty().fold(0nat, m.pending_adder(a, now, t)) == 0,
{
    vstd::set::fold::lemma_fold_empty(0nat, m.pending_adder(a, now, t));
}

/// Where a state has finitely many stakes, each account has finitely many staked nonces.
pub proof fn lemma_staked_nonces_finite(m: StakeModel, a: Seq<u8>)
    requires
        m.positions.dom().finite(),
    ensures
        m.staked_nonces(a).finite(),
{
    let x = m.positions.dom().map(|k: (Seq<u8>, u64)| k.1);
    m.positions.dom().lemma_map_finite(|k: (Seq<u8>, u64)| k.1);
    assert forall|n: u64| m.staked_nonces(a).contains(n) implies x.contains(n) by {
        assert(m.positions.dom().contains((a, n)));
    }
    vstd::set_lib::lemma_set_subset_finite(x, m.staked_nonces(a));
}

/// Where no nonce of a finite set has earned anything, the total over it is zero.
pub proof fn lemma_accrued_zero(m: StakeModel, a: Seq<u8>, now: u64, t: TokenType, s: Set<u64>)
    requires
        s.finite(),
        forall|n: u64| s.contains(n) ==> #[trigger] m.pending(a, n, now, t) == 0,
    ensures
        s.fold(0nat, m.pending_adder(a, now, t)) == 0,
    decreases s.len(),
{
    if s.len() == 0 {
        assert(s =~= Set::<u64>::empty());
        lemma_accrued_empty(m, a, now, t);
    } else {
        let x = s.choose();
        let s1 = s.remove(x);
        lemma_accrued_zero(m, a, now, t, s1);
        assert(s1.insert(x) =~= s);
        lemma_accrued_insert(m, a, now, t, s1, x);
    }
}

/// Totals over the same set agree where the two states' earnings agree on every nonce of it.
pub proof fn lemma_accrued_agree(m1: StakeModel, m2: StakeModel, a: Seq<u8>, now: u64, t: TokenType, s: Set<u64>)
    requires
        s.finite(),
        forall|n: u64| s.contains(n) ==> #[trigger] m1.pending(a, n, now, t) == m2.pending(a, n, now, t),
    ensures
        s.fold(0nat, m1.pending_adder(a, now, t)) == s.fold(0nat, m2.pending_adder(a, now, t)),
    decreases s.len(),
{
    if s.len() == 0 {
        assert(s =~= Set::<u64>::empty());
        lemma_accrued_empty(m1, a, now, t);
        lemma_accrued_empty(m2, a, now, t);
    } else {
        let x = s.choose();
        let s1 = s.remove(x);
        lemma_accrued_agree(m1, m2, a, now, t, s1);
        assert(s1.insert(x) =~= s);
        lemma_accrued_insert(m1, a, now, t, s1, x);
        lemma_accrued_insert(m2, a, now, t, s1, x);
    }
}

/// Totals over the same set grow from `now1` to `now2` where every nonce of it has earned
/// at least as much.
pub proof fn lemma_accrued_mono(m: StakeModel, a: Seq<u8>, now1: u64, now2: u64, t: TokenType, s: Set<u64>)
    requires
        s.finite(),
        forall|n: u64| s.contains(n) ==> #[trigger] m.pending(a, n, now1, t) <= m.pending(a, n, now2, t),
    ensures
        s.fold(0nat, m.pending_adder(a, now1, t)) <= s.fold(0nat, m.pending_adder(a, now2, t)),
    decreases s.len(),
{
    if s.len() == 0 {
        assert(s =~= Set::<u64>::empty());
        lemma_accrued_empty(m, a, now1, t);
        lemma_accrued_empty(m, a, now2, t);
    } else {
        let x = s.choose();
        let s1 = s.remove(x);
        lemma_accrued_mono(m, a, now1, now2, t, s1);
        assert(s1.insert(x) =~= s);
        lemma_accrued_insert(m, a, now1, t, s1, x);
        lemma_accrued_insert(m, a, now2, t, s1, x);
    }
}

} // verus!
