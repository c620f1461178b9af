//! The staking contract: its storage and its endpoints.

use vstd::prelude::*;
use crate::amounts::{Amounts, TokenType, token_order, token_at, token_decimals, token_index, lemma_token_order};
use crate::bytes::{Address, same_address, same_bytes, copy_bytes};
use crate::model::{StakeModel, StakeError, PositionModel, PaymentModel, TransferModel, lemma_accrued_insert, lemma_accrued_empty};
use crate::bignat::BigNat;
use crate::rewards::{TokenReward, sft_rewards, credit, lines_of, line_sum};
use crate::tables::{Keyed, Table, seq_contains, seq_entry, distinct_keys};

verus! {

/// A reward rate of one SFT nonce.
#[derive(Debug)]
pub struct NonceAmount {
    pub nonce: u64,
    pub amount: BigNat,
}

impl Keyed for NonceAmount {
    type Key = u64;

    open spec fn key(&self) -> u64 {
        self.nonce
    }

    fn has_key(&self, k: &u64) -> (r: bool) {
        self.nonce == *k
    }

    fn key_of(&self) -> (k: u64) {
        self.nonce
    }
}

/// SFTs of one nonce staked by one account, since `staked_at`.
#[derive(Debug)]
pub struct StakedSft {
    pub owner: Address,
    pub nonce: u64,
    pub amount: BigNat,
    pub staked_at: u64,
}

impl Keyed for StakedSft {
    type Key = (Address, u64);

    open spec fn key(&self) -> (Seq<u8>, u64) {
        (self.owner@, self.nonce)
    }

    fn has_key(&self, k: &(Address, u64)) -> (r: bool) {
        self.nonce == k.1 && same_address(&self.owner, &k.0)
    }

    fn key_of(&self) -> (k: (Address, u64)) {
        (self.owner, self.nonce)
    }
}

/// The saved rewards of one account.
#[derive(Debug)]
pub struct Account {
    pub owner: Address,
    pub rewards: Amounts,
}

impl Keyed for Account {
    type Key = Address;

    open spec fn key(&self) -> Seq<u8> {
        self.owner@
    }

    fn has_key(&self, k: &Address) -> (r: bool) {
        same_address(&self.owner, k)
    }

    fn key_of(&self) -> (k: Address) {
        self.owner
    }
}

/// The identifiers of the seven reward tokens.
pub struct TokenIds {
    pub eccu: Vec<u8>,
    pub food: Vec<u8>,
    pub beer: Vec<u8>,
    pub wood: Vec<u8>,
    pub stone: Vec<u8>,
    pub iron: Vec<u8>,
    pub wargear: Vec<u8>,
}

/// The identifiers as a map defined on every token.
pub open spec fn token_id_map(
    eccu: Seq<u8>,
    food: Seq<u8>,
    beer: Seq<u8>,
    wood: Seq<u8>,
    stone: Seq<u8>,
    iron: Seq<u8>,
    wargear: Seq<u8>,
) -> Map<TokenType, Seq<u8>> {
    Map::new(
        |t: TokenType| true,
        |t: TokenType|
            match t {
                TokenType::Eccu => eccu,
                TokenType::Food => food,
                TokenType::Beer => beer,
                TokenType::Wood => wood,
                TokenType::Stone => stone,
                TokenType::Iron => iron,
                TokenType::Wargear => wargear,
            },
    )
}

impl View for TokenIds {
    type V = Map<TokenType, Seq<u8>>;

    open spec fn view(&self) -> Map<TokenType, Seq<u8>> {
        token_id_map(self.eccu@, self.food@, self.beer@, self.wood@, self.stone@, self.iron@, self.wargear@)
    }
}

impl TokenIds {
    /// The identifier of token `t`.
    pub fn get(&self, t: TokenType) -> (r: &Vec<u8>)
        ensures
            r@ == self@[t],
    {
        match t {
            TokenType::Eccu => &self.eccu,
            TokenType::Food => &self.food,
            TokenType::Beer => &self.beer,
            TokenType::Wood => &self.wood,
            TokenType::Stone => &self.stone,
            TokenType::Iron => &self.iron,
            TokenType::Wargear => &self.wargear,
        }
    }
}

/// A payment received with a call: a token, its nonce and an amount.
pub struct Payment {
    pub token_identifier: Vec<u8>,
    pub token_nonce: u64,
    pub amount: BigNat,
}

impl View for Payment {
    type V = PaymentModel;

    open spec fn view(&self) -> PaymentModel {
        PaymentModel { token: self.token_identifier@, nonce: self.token_nonce, amount: self.amount@ }
    }
}

/// A transfer that the contract makes to an account.
#[derive(Debug)]
pub struct Transfer {
    pub to: Address,
    pub token: Vec<u8>,
    pub nonce: u64,
    pub amount: BigNat,
}

impl View for Transfer {
    type V = TransferModel;

    open spec fn view(&self) -> TransferModel {
        TransferModel { to: self.to@, token: self.token@, nonce: self.nonce, amount: self.amount@ }
    }
}

/// The transfers of a vector, as models.
pub open spec fn transfers_of(v: Seq<Transfer>) -> Seq<TransferModel> {
    v.map_values(|t: Transfer| t@)
}

/// The rates listed in `s`, zero for nonces without a rate.
pub open spec fn rate_map(s: Seq<NonceAmount>) -> Map<u64, nat> {
    Map::new(|n: u64| true, |n: u64| if seq_contains(s, n) { seq_entry(s, n).amount@ } else { 0 })
}

/// The staked SFTs listed in `s`, by account and nonce.
pub open spec fn position_map(s: Seq<StakedSft>) -> Map<(Seq<u8>, u64), PositionModel> {
    Map::new(
        |k: (Seq<u8>, u64)| seq_contains(s, k),
        |k: (Seq<u8>, u64)| PositionModel { amount: seq_entry(s, k).amount@, staked_at: seq_entry(s, k).staked_at },
    )
}

/// The saved rewards listed in `s`, zero for accounts without an entry.
pub open spec fn balance_map(s: Seq<Account>) -> Map<(Seq<u8>, TokenType), nat> {
    Map::new(
        |k: (Seq<u8>, TokenType)| true,
        |k: (Seq<u8>, TokenType)| if seq_contains(s, k.0) { seq_entry(s, k.0).rewards.of(k.1) } else { 0 },
    )
}

/// The set of keys listed in `s`.
pub open spec fn key_set_of<E: Keyed>(s: Seq<E>) -> Set<<E::Key as View>::V> {
    Set::new(|k: <E::Key as View>::V| seq_contains(s, k))
}

/// The contract's storage as plain lists, for keeping it outside the contract.
pub struct StakeParts {
    pub collection: Vec<u8>,
    pub token_ids: TokenIds,
    pub paused: bool,
    pub sfts_allowed: Vec<u64>,
    pub sft_eccu: Vec<NonceAmount>,
    pub sft_resource: Vec<NonceAmount>,
    pub pools: Amounts,
    pub positions: Vec<StakedSft>,
    pub users_staked: Vec<Address>,
    pub balances: Vec<Account>,
}

impl View for StakeParts {
    type V = StakeModel;

    open spec fn view(&self) -> StakeModel {
        StakeModel {
            collection: self.collection@,
            token_ids: self.token_ids@,
            paused: self.paused,
            sfts_allowed: key_set_of(self.sfts_allowed@),
            sft_eccu: rate_map(self.sft_eccu@),
            sft_resource: rate_map(self.sft_resource@),
            pools: self.pools.as_map(),
            positions: position_map(self.positions@),
            users_staked: key_set_of(self.users_staked@),
            balances: balance_map(self.balances@),
        }
    }
}

impl StakeParts {
    /// No list has two entries with the same key.
    pub open spec fn keys_distinct(&self) -> bool {
        &&& distinct_keys(self.sfts_allowed@)
        &&& distinct_keys(self.sft_eccu@)
        &&& distinct_keys(self.sft_resource@)
        &&& distinct_keys(self.positions@)
        &&& distinct_keys(self.users_staked@)
        &&& distinct_keys(self.balances@)
    }
}

/// The state of the staking contract.
pub struct StakeState {
    collection: Vec<u8>,
    token_ids: TokenIds,
    paused: bool,
    sfts_allowed: Table<u64>,
    sft_eccu: Table<NonceAmount>,
    sft_resource: Table<NonceAmount>,
    pools: Amounts,
    positions: Table<StakedSft>,
    users_staked: Table<Address>,
    balances: Table<Account>,
}

impl View for StakeState {
    type V = StakeModel;

    closed spec fn view(&self) -> StakeModel {
        StakeModel {
            collection: self.collection@,
            token_ids: self.token_ids@,
            paused: self.paused,
            sfts_allowed: key_set_of(self.sfts_allowed.entries()),
            sft_eccu: rate_map(self.sft_eccu.entries()),
            sft_resource: rate_map(self.sft_resource.entries()),
            pools: self.pools.as_map(),
            positions: position_map(self.positions.entries()),
            users_staked: key_set_of(self.users_staked.entries()),
            balances: balance_map(self.balances.entries()),
        }
    }
}

/// Sets the rate of nonce `nonce` in a rate table.
fn set_rate(t: &mut Table<NonceAmount>, nonce: u64, amount: BigNat)
    ensures
        rate_map(final(t).entries()) == rate_map(old(t).entries()).insert(nonce, amount@),
{
    let ghost a = amount@;
    t.upsert(NonceAmount { nonce, amount }, &nonce);
    assert(rate_map(t.entries()) =~= rate_map(old(t).entries()).insert(nonce, a));
}

/// Reads the rate of nonce `nonce` from a rate table.
fn rate_of(t: &Table<NonceAmount>, nonce: u64) -> (r: BigNat)
    ensures
        r@ == rate_map(t.entries())[nonce],
{
    match t.find(&nonce) {
        Some(i) => t.at(i).amount.copy(),
        None => BigNat::zero(),
    }
}

/// Extending a prefix by one element adds that element to its set.
proof fn lemma_take_to_set(s: Seq<u64>, i: int)
    requires
        0 <= i < s.len(),
    ensures
        s.take(i + 1).to_set() == s.take(i).to_set().insert(s[i]),
{
    assert(s.take(i + 1) =~= s.take(i).push(s[i]));
    s.take(i).lemma_push_to_set_commute(s[i]);
}

impl StakeState {
    /// The storage as plain lists that describe the same state.
    pub fn into_parts(self) -> (p: StakeParts)
        ensures
            p@ == self@,
            p.keys_distinct(),
    {
        StakeParts {
            collection: self.collection,
            token_ids: self.token_ids,
            paused: self.paused,
            sfts_allowed: self.sfts_allowed.into_vec(),
            sft_eccu: self.sft_eccu.into_vec(),
            sft_resource: self.sft_resource.into_vec(),
            pools: self.pools,
            positions: self.positions.into_vec(),
            users_staked: self.users_staked.into_vec(),
            balances: self.balances.into_vec(),
        }
    }

    /// The state that plain lists describe, or `None` where a list has two entries with
    /// the same key.
    pub fn from_parts(p: StakeParts) -> (r: Option<StakeState>)
        ensures
            r is Some <==> p.keys_distinct(),
            r matches Some(s) ==> s@ == p@,
    {
        let ghost pv = p@;
        let sfts_allowed = match Table::from_vec(p.sfts_allowed) { Some(t) => t, None => return None };
        let sft_eccu = match Table::from_vec(p.sft_eccu) { Some(t) => t, None => return None };
        let sft_resource = match Table::from_vec(p.sft_resource) { Some(t) => t, None => return None };
        let positions = match Table::from_vec(p.positions) { Some(t) => t, None => return None };
        let users_staked = match Table::from_vec(p.users_staked) { Some(t) => t, None => return None };
        let balances = match Table::from_vec(p.balances) { Some(t) => t, None => return None };
        Some(StakeState {
            collection: p.collection,
            token_ids: p.token_ids,
            paused: p.paused,
            sfts_allowed,
            sft_eccu,
            sft_resource,
            pools: p.pools,
            positions,
            users_staked,
            balances,
        })
    }

    /// The state is a valid model: its default-valued maps are defined everywhere and it
    /// has finitely many stakes.
    pub proof fn lemma_valid(&self)
        ensures
            self@.valid(),
    {
        self.positions.lemma_key_set_finite();
        assert(self@.positions.dom() =~= self.positions.key_set());
    }

    /// Adds a payment in token `kind` to that token's pool; owner only.
    fn fund(&mut self, kind: TokenType, caller: &Address, owner: &Address, payment: &Payment) -> (r: Result<(), StakeError>)
        ensures
            match old(self)@.fund_step(kind, caller@, owner@, payment@) {
                Ok(m) => r is Ok && final(self)@ == m,
                Err(e) => r == Err::<(), StakeError>(e) && final(self)@ == old(self)@,
            },
    {
        if !same_address(caller, owner) {
            return Err(StakeError::NotOwner);
        }
        if !same_bytes(self.token_ids.get(kind), &payment.token_identifier) {
            return Err(StakeError::InvalidToken);
        }
        if payment.amount.is_zero() {
            return Err(StakeError::ZeroAmount);
        }
        let v = self.pools.get(kind).add(&payment.amount);
        self.pools.set(kind, v);
        assert(self@.pools =~= old(self)@.pools.insert(kind, old(self)@.pools[kind] + payment.amount@));
        Ok(())
    }

    /// The stake of account `address` in SFTs of nonce `nonce`, if it has one.
    fn position_of(&self, address: &Address, nonce: u64) -> (r: Option<StakedSft>)
        ensures
            r is Some <==> self@.positions.contains_key((address@, nonce)),
            r matches Some(p) ==> p.owner@ == address@ && p.nonce == nonce
                && p.amount@ == self@.positions[(address@, nonce)].amount
                && p.staked_at == self@.positions[(address@, nonce)].staked_at,
    {
        match self.positions.find(&(*address, nonce)) {
            Some(i) => {
                let e = self.positions.at(i);
                Some(StakedSft { owner: e.owner, nonce: e.nonce, amount: e.amount.copy(), staked_at: e.staked_at })
            },
            None => None,
        }
    }

    /// The saved rewards of account `address`.
    fn balance_of(&self, address: &Address) -> (b: Amounts)
        ensures
            forall|t: TokenType| #[trigger] b.of(t) == self@.balances[(address@, t)],
    {
        match self.balances.find(address) {
            Some(i) => self.balances.at(i).rewards.copy(),
            None => Amounts::zero(),
        }
    }

    /// Replaces the saved rewards of account `address` by `b`.
    fn store_balance(&mut self, address: &Address, b: Amounts)
        ensures
            final(self)@ == (StakeModel {
                balances: Map::new(
                    |k: (Seq<u8>, TokenType)| true,
                    |k: (Seq<u8>, TokenType)| if k.0 == address@ { b.of(k.1) } else { old(self)@.balances[k] },
                ),
                ..old(self)@
            }),
    {
        self.balances.upsert(Account { owner: *address, rewards: b }, address);
        assert(self@.balances =~= Map::new(
            |k: (Seq<u8>, TokenType)| true,
            |k: (Seq<u8>, TokenType)| if k.0 == address@ { b.of(k.1) } else { old(self)@.balances[k] },
        ));
    }

    /// The saved rewards of account `address` plus what `amount` SFTs of nonce `nonce`
    /// earned.
    fn credited(&self, nonce: u64, address: &Address, amount: &BigNat, now: u64) -> (b: Amounts)
        requires
            self@.staked_at_or_zero(address@, nonce) <= now,
        ensures
            forall|t: TokenType| #[trigger] b.of(t) == self@.save_rewards(address@, nonce, amount@, now).balances[(address@, t)],
    {
        let b = self.balance_of(address);
        let v = self.calculate_rewards_for_a_specific_sft(nonce, address, amount, now);
        credit(b, &v)
    }

    /// Whether account `address` has SFTs of some nonce staked.
    pub fn has_stake(&self, address: &Address) -> (r: bool)
        ensures
            r == self@.has_stake(address@),
    {
        let mut i: usize = 0;
        while i < self.positions.len()
            invariant
                0 <= i <= self.positions.entries().len(),
                forall|j: int| 0 <= j < i ==> #[trigger] self.positions.entries()[j].owner@ != address@,
            decreases self.positions.entries().len() - i,
        {
            let e = self.positions.at(i);
            if same_address(&e.owner, address) {
                assert(self@.positions.contains_key((address@, e.nonce)));
                return true;
            }
            i = i + 1;
        }
        assert forall|n: u64| !#[trigger] self@.positions.contains_key((address@, n)) by {
            if self.positions.contains((address@, n)) {
                let j = choose|j: int| 0 <= j < self.positions.entries().len()
                    && #[trigger] self.positions.entries()[j].key() == (address@, n);
                assert(self.positions.entries()[j].owner@ == address@);
            }
        }
        false
    }

    /// The nonces of which account `a` has SFTs staked form a finite set.
    proof fn lemma_staked_nonces_finite(&self, a: Seq<u8>)
        ensures
            self@.staked_nonces(a).finite(),
    {
        let full = self@.staked_nonces(a);
        let ns = self.positions.entries().map_values(|e: StakedSft| e.nonce);
        let x = ns.to_set();
        vstd::seq_lib::seq_to_set_is_finite(ns);
        assert forall|n: u64| full.contains(n) implies x.contains(n) by {
            let j = choose|j: int| 0 <= j < self.positions.entries().len()
                && #[trigger] self.positions.entries()[j].key() == (a, n);
            assert(ns[j] == n);
        }
        assert(full.intersect(x) =~= full);
        vstd::set::axiom_set_intersect_finite(full, x);
    }

    /// What account `address` can claim at `now` of each token: its saved rewards plus
    /// what all its staked SFTs have earned.
    fn claimable_amounts(&self, address: &Address, now: u64) -> (c: Amounts)
        requires
            self@.clock_after_stakes(address@, now),
        ensures
            forall|t: TokenType| #[trigger] c.of(t) == self@.claimable(address@, now, t),
    {
        let ghost m = self@;
        let ghost a = address@;
        let ghost full = m.staked_nonces(a);
        proof {
            self.lemma_staked_nonces_finite(a);
            assert forall|t: TokenType| #[trigger] Set::<u64>::empty().fold(0nat, m.pending_adder(a, now, t)) == 0 by {
                lemma_accrued_empty(m, a, now, t);
            }
        }
        let mut acc = self.balance_of(address);
        let ghost mut seen: Set<u64> = Set::empty();
        let mut i: usize = 0;
        while i < self.positions.len()
            invariant
                0 <= i <= self.positions.entries().len(),
                m == self@,
                a == address@,
                full == m.staked_nonces(a),
                full.finite(),
                m.clock_after_stakes(a, now),
                seen.finite(),
                seen.subset_of(full),
                forall|n: u64| #[trigger] seen.contains(n) <==> exists|j: int| 0 <= j < i
                    && #[trigger] self.positions.entries()[j].key() == (a, n),
                forall|t: TokenType| #[trigger] acc.of(t) == m.balances[(a, t)] + seen.fold(0nat, m.pending_adder(a, now, t)),
            decreases self.positions.entries().len() - i,
        {
            let e = self.positions.at(i);
            let ghost n = e.nonce;
            if same_address(&e.owner, address) {
                assert(e.key() == (a, n));
                assert(m.positions.contains_key((a, n)));
                assert(full.contains(n));
                assert(!seen.contains(n)) by {
                    if seen.contains(n) {
                        let j = choose|j: int| 0 <= j < i && #[trigger] self.positions.entries()[j].key() == (a, n);
                        assert(self.positions.entries()[j].key() == e.key());
                    }
                }
                assert(m.positions[(a, n)].amount == e.amount@);
                let ghost lines = m.reward_lines(a, n, e.amount@, now);
                proof {
                    assert forall|t: TokenType| #[trigger] m.pending(a, n, now, t) == line_sum(lines, t) by {}
                    assert forall|t: TokenType|
                        #[trigger] seen.insert(n).fold(0nat, m.pending_adder(a, now, t))
                            == seen.fold(0nat, m.pending_adder(a, now, t)) + m.pending(a, n, now, t) by {
                        lemma_accrued_insert(m, a, now, t, seen, n);
                    }
                }
                let v = self.calculate_rewards_for_a_specific_sft(e.nonce, address, &e.amount, now);
                acc = credit(acc, &v);
                proof {
                    let old_seen = seen;
                    seen = seen.insert(n);
                    assert forall|x: u64| #[trigger] seen.contains(x) <==> exists|j: int| 0 <= j < i + 1
                        && #[trigger] self.positions.entries()[j].key() == (a, x) by {
                        if seen.contains(x) && x != n {
                            assert(old_seen.contains(x));
                            let j = choose|j: int| 0 <= j < i && #[trigger] self.positions.entries()[j].key() == (a, x);
                            assert(0 <= j < i + 1 && self.positions.entries()[j].key() == (a, x));
                        }
                        if x == n {
                            assert(self.positions.entries()[i as int].key() == (a, x));
                        }
                        if exists|j: int| 0 <= j < i + 1 && #[trigger] self.positions.entries()[j].key() == (a, x) {
                            let j = choose|j: int| 0 <= j < i + 1 && #[trigger] self.positions.entries()[j].key() == (a, x);
                            if j < i {
                                assert(old_seen.contains(x));
                            } else {
                                assert(x == n);
                            }
                        }
                    }
                }
            } else {
                proof {
                    assert forall|x: u64| #[trigger] seen.contains(x) <==> exists|j: int| 0 <= j < i + 1
                        && #[trigger] self.positions.entries()[j].key() == (a, x) by {
                        if exists|j: int| 0 <= j < i + 1 && #[trigger] self.positions.entries()[j].key() == (a, x) {
                            let j = choose|j: int| 0 <= j < i + 1 && #[trigger] self.positions.entries()[j].key() == (a, x);
                            assert(j != i);
                        }
                        if seen.contains(x) {
                            let j = choose|j: int| 0 <= j < i && #[trigger] self.positions.entries()[j].key() == (a, x);
                            assert(0 <= j < i + 1);
                        }
                    }
                }
            }
            i = i + 1;
        }
        assert(seen =~= full) by {
            assert forall|x: u64| full.contains(x) implies seen.contains(x) by {
                let j = choose|j: int| 0 <= j < self.positions.entries().len()
                    && #[trigger] self.positions.entries()[j].key() == (a, x);
            }
        }
        acc
    }

    /// Whether staking is paused.
    pub fn paused(&self) -> (r: bool)
        ensures
            r == self@.paused,
    {
        self.paused
    }

    /// The identifier of the SFT collection that can be staked.
    pub fn collection(&self) -> (r: &Vec<u8>)
        ensures
            r@ == self@.collection,
    {
        &self.collection
    }

    /// The identifier of reward token `t`.
    pub fn token_identifier(&self, t: TokenType) -> (r: &Vec<u8>)
        ensures
            r@ == self@.token_ids[t],
    {
        self.token_ids.get(t)
    }

    /// Whether SFTs of nonce `nonce` can be staked.
    pub fn is_sft_allowed(&self, nonce: u64) -> (r: bool)
        ensures
            r == self@.sfts_allowed.contains(nonce),
    {
        self.sfts_allowed.find(&nonce).is_some()
    }

    /// The currency that one SFT of nonce `nonce` earns per day.
    pub fn sft_eccu(&self, nonce: u64) -> (r: BigNat)
        ensures
            r@ == self@.sft_eccu[nonce],
    {
        rate_of(&self.sft_eccu, nonce)
    }

    /// The resource that one SFT of nonce `nonce` earns per day.
    pub fn sft_resource(&self, nonce: u64) -> (r: BigNat)
        ensures
            r@ == self@.sft_resource[nonce],
    {
        rate_of(&self.sft_resource, nonce)
    }

    /// The amount of token `t` held for payouts.
    pub fn pool(&self, t: TokenType) -> (r: BigNat)
        ensures
            r@ == self@.pools[t],
    {
        self.pools.get(t).copy()
    }

    /// The number of SFTs of nonce `nonce` that account `address` has staked.
    pub fn staked_amount(&self, address: &Address, nonce: u64) -> (r: BigNat)
        ensures
            self@.positions.contains_key((address@, nonce)) ==> r@ == self@.positions[(address@, nonce)].amount,
            !self@.positions.contains_key((address@, nonce)) ==> r@ == 0,
    {
        match self.position_of(address, nonce) {
            Some(p) => p.amount,
            None => BigNat::zero(),
        }
    }

    /// When account `address` staked its SFTs of nonce `nonce`, or zero where it has none staked.
    pub fn staked_at(&self, address: &Address, nonce: u64) -> (r: u64)
        ensures
            r == self@.staked_at_or_zero(address@, nonce),
    {
        match self.position_of(address, nonce) {
            Some(p) => p.staked_at,
            None => 0,
        }
    }

    /// The saved, unclaimed reward of account `address` in token `t`.
    pub fn user_reward(&self, address: &Address, t: TokenType) -> (r: BigNat)
        ensures
            r@ == self@.balances[(address@, t)],
    {
        self.balance_of(address).get(t).copy()
    }

    /// Whether account `address` is listed as a staker.
    pub fn is_user_staked(&self, address: &Address) -> (r: bool)
        ensures
            r == self@.users_staked.contains(address@),
    {
        self.users_staked.find(address).is_some()
    }

    /// Whether no stake of account `address` started after `now`; rewards can be computed
    /// for it at `now` only then.
    pub fn stakes_started_by(&self, address: &Address, now: u64) -> (r: bool)
        ensures
            r == self@.clock_after_stakes(address@, now),
    {
        let mut i: usize = 0;
        while i < self.positions.len()
            invariant
                0 <= i <= self.positions.entries().len(),
                forall|j: int| 0 <= j < i && #[trigger] self.positions.entries()[j].owner@ == address@
                    ==> self.positions.entries()[j].staked_at <= now,
            decreases self.positions.entries().len() - i,
        {
            let e = self.positions.at(i);
            if same_address(&e.owner, address) && e.staked_at > now {
                assert(self@.positions.contains_key((address@, e.nonce)));
                assert(self@.positions[(address@, e.nonce)].staked_at > now);
                return false;
            }
            i = i + 1;
        }
        assert forall|n: u64| self@.positions.contains_key((address@, n)) implies
            #[trigger] self@.positions[(address@, n)].staked_at <= now by {
            let j = self.positions.index_of((address@, n));
            assert(self.positions.entries()[j].key() == (address@, n));
            assert(self.positions.entries()[j].owner@ == address@);
        }
        true
    }
}

/// The endpoints of the staking contract, with what each does to the contract's state.
pub trait StakeContract: Sized + View<V = StakeModel> {
    /// A fresh contract: the SFT collection and the seven reward token identifiers are
    /// recorded; staking is not paused, and every set, rate, pool and balance is empty.
    fn init(
        collection: Vec<u8>,
        eccu_id: Vec<u8>,
        food_id: Vec<u8>,
        beer_id: Vec<u8>,
        wood_id: Vec<u8>,
        stone_id: Vec<u8>,
        iron_id: Vec<u8>,
        wargear_id: Vec<u8>,
    ) -> (s: Self)
        ensures
            s@ == StakeModel::initial(
                collection@,
                token_id_map(eccu_id@, food_id@, beer_id@, wood_id@, stone_id@, iron_id@, wargear_id@),
            ),
    ;

    /// Flips the pause flag; owner only.
    fn toggle_pause(&mut self, caller: &Address, owner: &Address) -> (r: Result<(), StakeError>)
        ensures
            match old(self)@.toggle_pause_step(caller@, owner@) {
                Ok(m) => r is Ok && final(self)@ == m,
                Err(e) => r == Err::<(), StakeError>(e) && final(self)@ == old(self)@,
            },
    ;

    /// Allows the SFT nonces `sfts_allowed` for staking; owner only.
    fn set_sfts_allowed(&mut self, caller: &Address, owner: &Address, sfts_allowed: Vec<u64>) -> (r: Result<(), StakeError>)
        ensures
            match old(self)@.set_sfts_allowed_step(caller@, owner@, sfts_allowed@) {
                Ok(m) => r is Ok && final(self)@ == m,
                Err(e) => r == Err::<(), StakeError>(e) && final(self)@ == old(self)@,
            },
    ;

    /// Disallows the SFT nonces `sfts_removed` for staking; owner only.
    fn remove_sfts_allowed(&mut self, caller: &Address, owner: &Address, sfts_removed: Vec<u64>) -> (r: Result<(), StakeError>)
        ensures
            match old(self)@.remove_sfts_allowed_step(caller@, owner@, sfts_removed@) {
                Ok(m) => r is Ok && final(self)@ == m,
                Err(e) => r == Err::<(), StakeError>(e) && final(self)@ == old(self)@,
            },
    ;

    /// Sets the currency that one SFT of nonce `nonce` earns per day; owner only, nonzero.
    fn set_sft_eccu(&mut self, caller: &Address, owner: &Address, nonce: u64, amount: BigNat) -> (r: Result<(), StakeError>)
        ensures
            match old(self)@.set_sft_eccu_step(caller@, owner@, nonce, amount@) {
                Ok(m) => r is Ok && final(self)@ == m,
                Err(e) => r == Err::<(), StakeError>(e) && final(self)@ == old(self)@,
            },
    ;

    /// Sets the resource that one SFT of nonce `nonce` earns per day; owner only, nonzero.
    fn set_sft_resource(&mut self, caller: &Address, owner: &Address, nonce: u64, amount: BigNat) -> (r: Result<(), StakeError>)
        ensures
            match old(self)@.set_sft_resource_step(caller@, owner@, nonce, amount@) {
                Ok(m) => r is Ok && final(self)@ == m,
                Err(e) => r == Err::<(), StakeError>(e) && final(self)@ == old(self)@,
            },
    ;

    /// Funds the currency pool with the payment; owner only.
    fn eccu_fund(&mut self, caller: &Address, owner: &Address, payment: &Payment) -> (r: Result<(), StakeError>)
        ensures
            match old(self)@.fund_step(TokenType::Eccu, caller@, owner@, payment@) {
                Ok(m) => r is Ok && final(self)@ == m,
                Err(e) => r == Err::<(), StakeError>(e) && final(self)@ == old(self)@,
            },
    ;

    /// Funds the food pool with the payment; owner only.
    fn food_fund(&mut self, caller: &Address, owner: &Address, payment: &Payment) -> (r: Result<(), StakeError>)
        ensures
            match old(self)@.fund_step(TokenType::Food, caller@, owner@, payment@) {
                Ok(m) => r is Ok && final(self)@ == m,
                Err(e) => r == Err::<(), StakeError>(e) && final(self)@ == old(self)@,
            },
    ;

    /// Funds the beer pool with the payment; owner only.
    fn beer_fund(&mut self, caller: &Address, owner: &Address, payment: &Payment) -> (r: Result<(), StakeError>)
        ensures
            match old(self)@.fund_step(TokenType::Beer, caller@, owner@, payment@) {
                Ok(m) => r is Ok && final(self)@ == m,
                Err(e) => r == Err::<(), StakeError>(e) && final(self)@ == old(self)@,
            },
    ;

    /// Funds the wood pool with the payment; owner only.
    fn wood_fund(&mut self, caller: &Address, owner: &Address, payment: &Payment) -> (r: Result<(), StakeError>)
        ensures
            match old(self)@.fund_step(TokenType::Wood, caller@, owner@, payment@) {
                Ok(m) => r is Ok && final(self)@ == m,
                Err(e) => r == Err::<(), StakeError>(e) && final(self)@ == old(self)@,
            },
    ;

    /// Funds the stone pool with the payment; owner only.
    fn stone_fund(&mut self, caller: &Address, owner: &Address, payment: &Payment) -> (r: Result<(), StakeError>)
        ensures
            match old(self)@.fund_step(TokenType::Stone, caller@, owner@, payment@) {
                Ok(m) => r is Ok && final(self)@ == m,
                Err(e) => r == Err::<(), StakeError>(e) && final(self)@ == old(self)@,
            },
    ;

    /// Funds the iron pool with the payment; owner only.
    fn iron_fund(&mut self, caller: &Address, owner: &Address, payment: &Payment) -> (r: Result<(), StakeError>)
        ensures
            match old(self)@.fund_step(TokenType::Iron, caller@, owner@, payment@) {
                Ok(m) => r is Ok && final(self)@ == m,
                Err(e) => r == Err::<(), StakeError>(e) && final(self)@ == old(self)@,
            },
    ;

    /// Funds the wargear pool with the payment; owner only.
    fn wargear_fund(&mut self, caller: &Address, owner: &Address, payment: &Payment) -> (r: Result<(), StakeError>)
        ensures
            match old(self)@.fund_step(TokenType::Wargear, caller@, owner@, payment@) {
                Ok(m) => r is Ok && final(self)@ == m,
                Err(e) => r == Err::<(), StakeError>(e) && final(self)@ == old(self)@,
            },
    ;

    /// Takes `withdraw_amount` from the currency pool and returns its transfer to the
    /// caller; owner only.
    fn withdraw(&mut self, caller: &Address, owner: &Address, withdraw_amount: BigNat) -> (r: Result<Transfer, StakeError>)
        ensures
            match old(self)@.withdraw_step(caller@, owner@, withdraw_amount@) {
                Ok((m, t)) => r matches Ok(x) && x@ == t && final(self)@ == m,
                Err(e) => r matches Err(x) && x == e && final(self)@ == old(self)@,
            },
    ;

    /// The rewards earned by `amount_to_unstake` SFTs of nonce `nonce` of account `address`
    /// from the start of its stake of that nonce (or from time zero, where it has none) to
    /// `now`: the resource first, then the currency.
    fn calculate_rewards_for_a_specific_sft(
        &self,
        nonce: u64,
        address: &Address,
        amount_to_unstake: &BigNat,
        now: u64,
    ) -> (r: Vec<TokenReward>)
        requires
            self@.staked_at_or_zero(address@, nonce) <= now,
        ensures
            lines_of(r@) == self@.reward_lines(address@, nonce, amount_to_unstake@, now),
    ;

    /// Adds what `amount_to_unstake` SFTs of nonce `nonce` of account `address` have earned
    /// to the account's saved rewards.
    fn calculate_rewards_and_save(
        &mut self,
        nonce: u64,
        address: &Address,
        amount_to_unstake: &BigNat,
        now: u64,
    )
        requires
            old(self)@.staked_at_or_zero(address@, nonce) <= now,
        ensures
            final(self)@ == old(self)@.save_rewards(address@, nonce, amount_to_unstake@, now),
    ;

    /// Stakes the SFTs paid with the call (`payment`) for `caller` at time `now`. Where the
    /// caller already has SFTs of that nonce staked, what they have earned is saved first
    /// and the stake restarts at `now`.
    fn stake(&mut self, caller: &Address, now: u64, payment: &Payment) -> (r: Result<(), StakeError>)
        requires
            old(self)@.staked_at_or_zero(caller@, payment.token_nonce) <= now,
        ensures
            match old(self)@.stake_step(caller@, now, payment@) {
                Ok(m) => r is Ok && final(self)@ == m,
                Err(e) => r == Err::<(), StakeError>(e) && final(self)@ == old(self)@,
            },
    ;

    /// Unstakes `amount` SFTs of token `token_identifier` and nonce `nonce` for `caller` at
    /// `now` and returns their transfer back to the caller. What all the caller's SFTs of
    /// that nonce have earned is saved first; the remaining SFTs restart at `now`, or the
    /// stake ends where none remain.
    fn un_stake(
        &mut self,
        caller: &Address,
        now: u64,
        token_identifier: &Vec<u8>,
        nonce: u64,
        amount: BigNat,
    ) -> (r: Result<Transfer, StakeError>)
        requires
            old(self)@.staked_at_or_zero(caller@, nonce) <= now,
        ensures
            match old(self)@.un_stake_step(caller@, now, token_identifier@, nonce, amount@) {
                Ok((m, t)) => r matches Ok(x) && x@ == t && final(self)@ == m,
                Err(e) => r matches Err(x) && x == e && final(self)@ == old(self)@,
            },
    ;

    /// What account `address` can claim at `now`, for each token in `token_order()`:
    /// its saved rewards plus what all its staked SFTs have earned.
    fn calculate_rewards(&self, address: &Address, now: u64) -> (r: Vec<TokenReward>)
        requires
            self@.clock_after_stakes(address@, now),
        ensures
            lines_of(r@) == self@.rewards_listing(address@, now),
    ;

    /// Restarts every stake of account `address` at `now`.
    fn reset_sfts_staked_time(&mut self, address: &Address, now: u64)
        ensures
            final(self)@ == old(self)@.reset_stake_times(address@, now),
    ;

    /// Pays `caller` everything it can claim at `now`: its saved rewards plus what its
    /// staked SFTs have earned, each times the token's decimals, taken from that token's
    /// pool. Returns the transfers, in `token_order()`, one per token with something to
    /// claim. Its saved rewards become zero and its stakes restart at `now`. Refused with
    /// `NegativeResult`, with nothing changed, where a pool holds less than its payout.
    fn claim_rewards(&mut self, caller: &Address, now: u64) -> (r: Result<Vec<Transfer>, StakeError>)
        requires
            old(self)@.clock_after_stakes(caller@, now),
        ensures
            match old(self)@.claim_rewards_step(caller@, now) {
                Ok((m, ts)) => r matches Ok(v) && transfers_of(v@) == ts && final(self)@ == m,
                Err(e) => r matches Err(x) && x == e && final(self)@ == old(self)@,
            },
    ;
}

impl StakeContract for StakeState {
    fn init(
        collection: Vec<u8>,
        eccu_id: Vec<u8>,
        food_id: Vec<u8>,
        beer_id: Vec<u8>,
        wood_id: Vec<u8>,
        stone_id: Vec<u8>,
        iron_id: Vec<u8>,
        wargear_id: Vec<u8>,
    ) -> (s: Self)
    {
        let s = StakeState {
            collection,
            token_ids: TokenIds {
                eccu: eccu_id,
                food: food_id,
                beer: beer_id,
                wood: wood_id,
                stone: stone_id,
                iron: iron_id,
                wargear: wargear_id,
            },
            paused: false,
            sfts_allowed: Table::new(),
            sft_eccu: Table::new(),
            sft_resource: Table::new(),
            pools: Amounts::zero(),
            positions: Table::new(),
            users_staked: Table::new(),
            balances: Table::new(),
        };
        assert(s@.sfts_allowed =~= Set::empty());
        assert(s@.users_staked =~= Set::empty());
        assert(s@.positions =~= Map::empty());
        assert(s@.sft_eccu =~= Map::new(|n: u64| true, |n: u64| 0nat));
        assert(s@.sft_resource =~= Map::new(|n: u64| true, |n: u64| 0nat));
        assert(s@.pools =~= Map::new(|t: TokenType| true, |t: TokenType| 0nat));
        assert(s@.balances =~= Map::new(|k: (Seq<u8>, TokenType)| true, |k: (Seq<u8>, TokenType)| 0nat));
        s
    }

    fn toggle_pause(&mut self, caller: &Address, owner: &Address) -> (r: Result<(), StakeError>)
    {
        if !same_address(caller, owner) {
            return Err(StakeError::NotOwner);
        }
        self.paused = !self.paused;
        Ok(())
    }

    fn set_sfts_allowed(&mut self, caller: &Address, owner: &Address, sfts_allowed: Vec<u64>) -> (r: Result<(), StakeError>)
    {
        if !same_address(caller, owner) {
            return Err(StakeError::NotOwner);
        }
        let ghost start = key_set_of(self.sfts_allowed.entries());
        let mut i: usize = 0;
        while i < sfts_allowed.len()
            invariant
                0 <= i <= sfts_allowed@.len(),
                key_set_of(self.sfts_allowed.entries()) == start + sfts_allowed@.take(i as int).to_set(),
                self@ == (StakeModel { sfts_allowed: key_set_of(self.sfts_allowed.entries()), ..old(self)@ }),
            decreases sfts_allowed@.len() - i,
        {
            let n: u64 = sfts_allowed[i];
            let ghost before = key_set_of(self.sfts_allowed.entries());
            self.sfts_allowed.upsert(n, &n);
            assert(key_set_of(self.sfts_allowed.entries()) =~= before.insert(n));
            proof {
                lemma_take_to_set(sfts_allowed@, i as int);
            }
            assert(key_set_of(self.sfts_allowed.entries()) =~= start + sfts_allowed@.take(i + 1).to_set());
            i = i + 1;
        }
        assert(sfts_allowed@.take(sfts_allowed@.len() as int) =~= sfts_allowed@);
        Ok(())
    }

    fn remove_sfts_allowed(&mut self, caller: &Address, owner: &Address, sfts_removed: Vec<u64>) -> (r: Result<(), StakeError>)
    {
        if !same_address(caller, owner) {
            return Err(StakeError::NotOwner);
        }
        let ghost start = key_set_of(self.sfts_allowed.entries());
        let mut i: usize = 0;
        while i < sfts_removed.len()
            invariant
                0 <= i <= sfts_removed@.len(),
                key_set_of(self.sfts_allowed.entries()) == start - sfts_removed@.take(i as int).to_set(),
                self@ == (StakeModel { sfts_allowed: key_set_of(self.sfts_allowed.entries()), ..old(self)@ }),
            decreases sfts_removed@.len() - i,
        {
            let n: u64 = sfts_removed[i];
            let ghost before = key_set_of(self.sfts_allowed.entries());
            self.sfts_allowed.remove_key(&n);
            assert(key_set_of(self.sfts_allowed.entries()) =~= before.remove(n));
            proof {
                lemma_take_to_set(sfts_removed@, i as int);
            }
            assert(key_set_of(self.sfts_allowed.entries()) =~= start - sfts_removed@.take(i + 1).to_set());
            i = i + 1;
        }
        assert(sfts_removed@.take(sfts_removed@.len() as int) =~= sfts_removed@);
        Ok(())
    }

    fn set_sft_eccu(&mut self, caller: &Address, owner: &Address, nonce: u64, amount: BigNat) -> (r: Result<(), StakeError>)
    {
        if !same_address(caller, owner) {
            return Err(StakeError::NotOwner);
        }
        if amount.is_zero() {
            return Err(StakeError::InvalidAmount);
        }
        set_rate(&mut self.sft_eccu, nonce, amount);
        Ok(())
    }

    fn set_sft_resource(&mut self, caller: &Address, owner: &Address, nonce: u64, amount: BigNat) -> (r: Result<(), StakeError>)
    {
        if !same_address(caller, owner) {
            return Err(StakeError::NotOwner);
        }
        if amount.is_zero() {
            return Err(StakeError::InvalidAmount);
        }
        set_rate(&mut self.sft_resource, nonce, amount);
        Ok(())
    }

    fn eccu_fund(&mut self, caller: &Address, owner: &Address, payment: &Payment) -> (r: Result<(), StakeError>)
    {
        self.fund(TokenType::Eccu, caller, owner, payment)
    }

    fn food_fund(&mut self, caller: &Address, owner: &Address, payment: &Payment) -> (r: Result<(), StakeError>)
    {
        self.fund(TokenType::Food, caller, owner, payment)
    }

    fn beer_fund(&mut self, caller: &Address, owner: &Address, payment: &Payment) -> (r: Result<(), StakeError>)
    {
        self.fund(TokenType::Beer, caller, owner, payment)
    }

    fn wood_fund(&mut self, caller: &Address, owner: &Address, payment: &Payment) -> (r: Result<(), StakeError>)
    {
        self.fund(TokenType::Wood, caller, owner, payment)
    }

    fn stone_fund(&mut self, caller: &Address, owner: &Address, payment: &Payment) -> (r: Result<(), StakeError>)
    {
        self.fund(TokenType::Stone, caller, owner, payment)
    }

    fn iron_fund(&mut self, caller: &Address, owner: &Address, payment: &Payment) -> (r: Result<(), StakeError>)
    {
        self.fund(TokenType::Iron, caller, owner, payment)
    }

    fn wargear_fund(&mut self, caller: &Address, owner: &Address, payment: &Payment) -> (r: Result<(), StakeError>)
    {
        self.fund(TokenType::Wargear, caller, owner, payment)
    }

    fn withdraw(&mut self, caller: &Address, owner: &Address, withdraw_amount: BigNat) -> (r: Result<Transfer, StakeError>)
    {
        if !same_address(caller, owner) {
            return Err(StakeError::NotOwner);
        }
        if withdraw_amount.is_zero() {
            return Err(StakeError::ZeroAmount);
        }
        if self.pools.get(TokenType::Eccu).lt(&withdraw_amount) {
            return Err(StakeError::NegativeResult);
        }
        let v = self.pools.get(TokenType::Eccu).sub(&withdraw_amount);
        self.pools.set(TokenType::Eccu, v);
        assert(self@.pools =~= old(self)@.pools.insert(TokenType::Eccu, (old(self)@.pools[TokenType::Eccu] - withdraw_amount@) as nat));
        Ok(Transfer { to: *caller, token: copy_bytes(self.token_ids.get(TokenType::Eccu)), nonce: 0, amount: withdraw_amount })
    }

    fn calculate_rewards_for_a_specific_sft(
        &self,
        nonce: u64,
        address: &Address,
        amount_to_unstake: &BigNat,
        now: u64,
    ) -> (r: Vec<TokenReward>)
    {
        let staked_at: u64 = match self.position_of(address, nonce) {
            Some(p) => p.staked_at,
            None => 0,
        };
        let sft_eccu = rate_of(&self.sft_eccu, nonce);
        let sft_resource = rate_of(&self.sft_resource, nonce);
        sft_rewards(nonce, staked_at, now, amount_to_unstake, &sft_eccu, &sft_resource)
    }

    fn calculate_rewards_and_save(
        &mut self,
        nonce: u64,
        address: &Address,
        amount_to_unstake: &BigNat,
        now: u64,
    )
    {
        let ghost m = old(self)@.save_rewards(address@, nonce, amount_to_unstake@, now);
        let b = self.credited(nonce, address, amount_to_unstake, now);
        self.store_balance(address, b);
        assert(self@.balances =~= m.balances);
    }

    fn stake(&mut self, caller: &Address, now: u64, payment: &Payment) -> (r: Result<(), StakeError>)
    {
        let ghost m0 = old(self)@;
        let nonce: u64 = payment.token_nonce;
        let key = (*caller, nonce);
        if self.paused {
            return Err(StakeError::StakePaused);
        }
        if !same_bytes(&self.collection, &payment.token_identifier) {
            return Err(StakeError::InvalidIdentifier);
        }
        if self.sfts_allowed.find(&nonce).is_none() {
            return Err(StakeError::InvalidNonce);
        }
        let ghost m = m0.stake_step(caller@, now, payment@)->Ok_0;
        match self.position_of(caller, nonce) {
            Some(p) => {
                let b = self.credited(nonce, caller, &p.amount, now);
                let amount = p.amount.add(&payment.amount);
                self.store_balance(caller, b);
                self.positions.upsert(StakedSft { owner: *caller, nonce, amount, staked_at: now }, &key);
                self.users_staked.upsert(*caller, caller);
                assert(self@.balances =~= m.balances);
                assert(self@.positions =~= m.positions);
                assert(self@.users_staked =~= m.users_staked);
                Ok(())
            },
            None => {
                self.positions.upsert(
                    StakedSft { owner: *caller, nonce, amount: payment.amount.copy(), staked_at: now },
                    &key,
                );
                self.users_staked.upsert(*caller, caller);
                assert(self@.positions =~= m.positions);
                assert(self@.users_staked =~= m.users_staked);
                Ok(())
            },
        }
    }

    fn un_stake(
        &mut self,
        caller: &Address,
        now: u64,
        token_identifier: &Vec<u8>,
        nonce: u64,
        amount: BigNat,
    ) -> (r: Result<Transfer, StakeError>)
    {
        let ghost m0 = old(self)@;
        let key = (*caller, nonce);
        if self.paused {
            return Err(StakeError::StakePaused);
        }
        if !same_bytes(&self.collection, token_identifier) {
            return Err(StakeError::InvalidIdentifier);
        }
        let p = match self.position_of(caller, nonce) {
            Some(p) => p,
            None => {
                return Err(StakeError::NotStaked);
            },
        };
        if p.amount.lt(&amount) {
            return Err(StakeError::NotEnoughStaked);
        }
        let ghost m = m0.un_stake_step(caller@, now, token_identifier@, nonce, amount@)->Ok_0.0;
        let ghost saved = m0.save_rewards(caller@, nonce, p.amount@, now);
        let b = self.credited(nonce, caller, &p.amount, now);
        self.store_balance(caller, b);
        assert(self@.balances =~= saved.balances);
        let rest = p.amount.sub(&amount);
        if !rest.is_zero() {
            self.positions.upsert(StakedSft { owner: *caller, nonce, amount: rest, staked_at: now }, &key);
        } else {
            self.positions.remove_key(&key);
        }
        assert(self@.positions =~= m.positions);
        if !self.has_stake(caller) {
            self.users_staked.remove_key(caller);
        }
        assert(self@.users_staked =~= m.users_staked);
        Ok(Transfer { to: *caller, token: copy_bytes(&self.collection), nonce, amount })
    }

    fn calculate_rewards(&self, address: &Address, now: u64) -> (r: Vec<TokenReward>)
    {
        let totals = self.claimable_amounts(address, now);
        let mut tokens: Vec<TokenReward> = Vec::new();
        let mut i: usize = 0;
        while i < 7
            invariant
                0 <= i <= 7,
                forall|t: TokenType| #[trigger] totals.of(t) == self@.claimable(address@, now, t),
                lines_of(tokens@) == self@.rewards_listing(address@, now).take(i as int),
            decreases 7 - i,
        {
            let t = token_at(i);
            let ghost before = tokens@;
            let x = TokenReward::new(t, totals.get(t).copy());
            let ghost xl = x.line();
            tokens.push(x);
            proof {
                let listing = self@.rewards_listing(address@, now);
                assert(lines_of(tokens@) =~= lines_of(before).push(xl));
                assert(listing[i as int] == (t, self@.claimable(address@, now, t)));
                assert(listing.take(i + 1) =~= listing.take(i as int).push(listing[i as int]));
            }
            i = i + 1;
        }
        assert(self@.rewards_listing(address@, now).take(7) =~= self@.rewards_listing(address@, now));
        tokens
    }

    fn reset_sfts_staked_time(&mut self, address: &Address, now: u64)
    {
        let ghost t0 = old(self).positions;
        let ghost e0 = t0.entries();
        let mut i: usize = 0;
        while i < self.positions.len()
            invariant
                0 <= i <= self.positions.entries().len(),
                self.positions.entries().len() == e0.len(),
                forall|k| #[trigger] self.positions.contains(k) == t0.contains(k),
                forall|k| t0.contains(k) ==> #[trigger] self.positions.index_of(k) == t0.index_of(k),
                forall|j: int| 0 <= j < e0.len() ==> {
                    let x = #[trigger] self.positions.entries()[j];
                    &&& x.owner == e0[j].owner
                    &&& x.nonce == e0[j].nonce
                    &&& x.amount@ == e0[j].amount@
                    &&& x.staked_at == if j < i && e0[j].owner@ == address@ { now } else { e0[j].staked_at }
                },
                self@ == (StakeModel { positions: position_map(self.positions.entries()), ..old(self)@ }),
            decreases e0.len() - i,
        {
            let e = self.positions.at(i);
            if same_address(&e.owner, address) {
                let x = StakedSft { owner: e.owner, nonce: e.nonce, amount: e.amount.copy(), staked_at: now };
                self.positions.replace_at(i, x);
            }
            i = i + 1;
        }
        assert(self@.positions =~= old(self)@.reset_stake_times(address@, now).positions) by {
            assert forall|k: (Seq<u8>, u64)| #[trigger] t0.contains(k) implies {
                let x = self.positions.entry(k);
                &&& x.amount@ == t0.entry(k).amount@
                &&& x.staked_at == if k.0 == address@ { now } else { t0.entry(k).staked_at }
            } by {
                let j = t0.index_of(k);
                assert(e0[j].key() == k);
            }
        }
    }

    fn claim_rewards(&mut self, caller: &Address, now: u64) -> (r: Result<Vec<Transfer>, StakeError>)
    {
        let ghost m0 = old(self)@;
        let ghost a = caller@;
        let totals = self.claimable_amounts(caller, now);
        let mut i: usize = 0;
        while i < 7
            invariant
                0 <= i <= 7,
                m0 == self@,
                a == caller@,
                forall|t: TokenType| #[trigger] totals.of(t) == m0.claimable(a, now, t),
                forall|j: int| 0 <= j < i ==> !(m0.claimable(a, now, token_order()[j]) > 0
                    && m0.pools[token_order()[j]] < #[trigger] m0.payout(a, now, token_order()[j])),
            decreases 7 - i,
        {
            let t = token_at(i);
            let amt = totals.get(t);
            if !amt.is_zero() {
                let p = amt.mul(&token_decimals(t));
                if self.pools.get(t).lt(&p) {
                    proof {
                        assert(m0.pools[t] == self.pools.of(t));
                        assert(m0.payout(a, now, t) == p@);
                        assert(m0.claimable(a, now, t) > 0 && m0.pools[t] < m0.payout(a, now, t));
                    }
                    return Err(StakeError::NegativeResult);
                }
            }
            i = i + 1;
        }
        assert(!m0.claim_short(a, now)) by {
            assert forall|t: TokenType| !(m0.claimable(a, now, t) > 0 && m0.pools[t] < #[trigger] m0.payout(a, now, t)) by {
                lemma_token_order(t);
                let j = token_index(t);
                assert(!(m0.claimable(a, now, token_order()[j]) > 0 && m0.pools[token_order()[j]] < m0.payout(a, now, token_order()[j])));
            }
        }
        let ghost m = m0.claim_rewards_step(a, now)->Ok_0.0;
        self.reset_sfts_staked_time(caller, now);
        let mut transfers: Vec<Transfer> = Vec::new();
        let mut i: usize = 0;
        while i < 7
            invariant
                0 <= i <= 7,
                a == caller@,
                !m0.claim_short(a, now),
                forall|t: TokenType| #[trigger] totals.of(t) == m0.claimable(a, now, t),
                transfers_of(transfers@) == m0.claim_transfers(a, now, i as nat),
                forall|t: TokenType| #[trigger] self.pools.of(t) == if token_index(t) < i {
                    (m0.pools[t] - m0.payout(a, now, t)) as nat
                } else {
                    m0.pools[t]
                },
                self.token_ids@ == m0.token_ids,
                self@ == (StakeModel { pools: self.pools.as_map(), ..m0.reset_stake_times(a, now) }),
            decreases 7 - i,
        {
            let t = token_at(i);
            let amt = totals.get(t);
            if !amt.is_zero() {
                assert(m0.payout(a, now, t) <= m0.pools[t]);
                assert(m0.pools[t] == self.pools.of(t));
                let p = amt.mul(&token_decimals(t));
                let v = self.pools.get(t).sub(&p);
                self.pools.set(t, v);
                transfers.push(Transfer { to: *caller, token: copy_bytes(self.token_ids.get(t)), nonce: 0, amount: p });
            }
            assert(transfers_of(transfers@) =~= m0.claim_transfers(a, now, (i + 1) as nat));
            i = i + 1;
        }
        self.store_balance(caller, Amounts::zero());
        assert(self@.pools =~= m.pools) by {
            assert forall|t: TokenType| #[trigger] self@.pools[t] == m.pools[t] by {
                lemma_token_order(t);
            }
        }
        assert(self@.balances =~= m.balances);
        Ok(transfers)
    }
}

} // verus!
