//! What one staked SFT earns per day, and sums of reward lines.

use vstd::prelude::*;
use crate::amounts::{Amounts, TokenType};
use crate::bignat::BigNat;

verus! {

/// Seconds in one day; rewards accrue per full day staked.
pub const ONE_DAY_IN_SECONDS: u64 = 86400;

/// One reward: a token and an amount of it.
#[derive(Debug)]
pub struct TokenReward {
    pub name: TokenType,
    pub amount: BigNat,
}

impl TokenReward {
    /// A reward of `amount` of token `name`.
    pub fn new(name: TokenType, amount: BigNat) -> (r: Self)
        ensures
            r.name == name,
            r.amount@ == amount@,
    {
        TokenReward { name, amount }
    }

    /// The reward as a token and an amount.
    pub open spec fn line(self) -> (TokenType, nat) {
        (self.name, self.amount@)
    }
}

/// The rewards of a vector as lines.
pub open spec fn lines_of(v: Seq<TokenReward>) -> Seq<(TokenType, nat)> {
    v.map_values(|r: TokenReward| r.line())
}

/// The tokens that an SFT of nonce `nonce` earns: the resource it yields, if any,
/// and whether it also yields the currency.
pub open spec fn earned_tokens(nonce: u64) -> (Option<TokenType>, bool) {
    if nonce == 2 || nonce == 19 || nonce == 23 || nonce == 29 {
        (Some(TokenType::Food), true)
    } else if nonce == 35 || nonce == 41 || nonce == 49 || nonce == 55 {
        (Some(TokenType::Food), false)
    } else if nonce == 37 || nonce == 43 || nonce == 51 || nonce == 57 {
        (Some(TokenType::Wood), false)
    } else if nonce == 6 || nonce == 17 || nonce == 24 || nonce == 30 {
        (Some(TokenType::Beer), true)
    } else if nonce == 34 || nonce == 40 || nonce == 47 || nonce == 54 {
        (Some(TokenType::Beer), false)
    } else if nonce == 3 || nonce == 16 || nonce == 22 || nonce == 27 {
        (Some(TokenType::Iron), true)
    } else if nonce == 36 || nonce == 42 || nonce == 50 || nonce == 56 {
        (Some(TokenType::Iron), false)
    } else if nonce == 4 || nonce == 18 || nonce == 25 || nonce == 31 {
        (Some(TokenType::Wargear), true)
    } else if nonce == 33 || nonce == 39 || nonce == 46 || nonce == 53 {
        (Some(TokenType::Wargear), false)
    } else if nonce == 38 || nonce == 44 || nonce == 52 || nonce == 58 {
        (Some(TokenType::Stone), false)
    } else if nonce == 5 || nonce == 7 || nonce == 14 || nonce == 15 || nonce == 20 || nonce == 21
        || nonce == 26 || nonce == 28 {
        (None, true)
    } else {
        (None, false)
    }
}

/// The full days from `staked_at` to `now`.
pub open spec fn days_between(staked_at: u64, now: u64) -> nat {
    ((now - staked_at) / (ONE_DAY_IN_SECONDS as int)) as nat
}

/// The rewards of `amount` SFTs of nonce `nonce` staked for `days` full days, where
/// one SFT earns `resource_rate` of its resource and `eccu_rate` of the currency per day.
/// The resource comes first; nothing is earned before a full day has passed.
pub open spec fn sft_reward_lines(
    nonce: u64,
    days: nat,
    amount: nat,
    eccu_rate: nat,
    resource_rate: nat,
) -> Seq<(TokenType, nat)> {
    if days == 0 {
        seq![]
    } else {
        let points = days * amount;
        let resource_lines = match earned_tokens(nonce).0 {
            Some(t) => seq![(t, resource_rate * points)],
            None => seq![],
        };
        if earned_tokens(nonce).1 {
            resource_lines.push((TokenType::Eccu, eccu_rate * points))
        } else {
            resource_lines
        }
    }
}

/// The total amount of token `t` in `lines`.
pub open spec fn line_sum(lines: Seq<(TokenType, nat)>, t: TokenType) -> nat
    decreases lines.len(),
{
    if lines.len() == 0 {
        0
    } else {
        line_sum(lines.drop_last(), t) + if lines.last().0 == t { lines.last().1 } else { 0 }
    }
}

/// Over lines of the same tokens, the sums grow where every amount grows.
pub proof fn lemma_line_sum_mono(l1: Seq<(TokenType, nat)>, l2: Seq<(TokenType, nat)>, t: TokenType)
    requires
        l1.len() == l2.len(),
        forall|i: int| #![trigger l1[i]] 0 <= i < l1.len() ==> l1[i].0 == l2[i].0 && l1[i].1 <= l2[i].1,
    ensures
        line_sum(l1, t) <= line_sum(l2, t),
    decreases l1.len(),
{
    if l1.len() > 0 {
        let d1 = l1.drop_last();
        let d2 = l2.drop_last();
        assert forall|i: int| #![trigger d1[i]] 0 <= i < d1.len() implies d1[i].0 == d2[i].0 && d1[i].1 <= d2[i].1 by {
            assert(d1[i] == l1[i] && d2[i] == l2[i]);
            assert(l1[i].0 == l2[i].0 && l1[i].1 <= l2[i].1);
        }
        lemma_line_sum_mono(d1, d2, t);
        assert(l1.last().0 == l2.last().0 && l1.last().1 <= l2.last().1) by {
            assert(l1[l1.len() - 1].0 == l2[l1.len() - 1].0);
        }
    }
}

/// Over lines of the same tokens, the sums add where the amounts add.
pub proof fn lemma_line_sum_add(
    l: Seq<(TokenType, nat)>,
    l1: Seq<(TokenType, nat)>,
    l2: Seq<(TokenType, nat)>,
    t: TokenType,
)
    requires
        l.len() == l1.len(),
        l.len() == l2.len(),
        forall|i: int| #![trigger l[i]] 0 <= i < l.len() ==> l[i].0 == l1[i].0 && l[i].0 == l2[i].0 && l[i].1 == l1[i].1 + l2[i].1,
    ensures
        line_sum(l, t) == line_sum(l1, t) + line_sum(l2, t),
    decreases l.len(),
{
    if l.len() > 0 {
        let d = l.drop_last();
        let d1 = l1.drop_last();
        let d2 = l2.drop_last();
        assert forall|i: int| #![trigger d[i]] 0 <= i < d.len() implies d[i].0 == d1[i].0 && d[i].0 == d2[i].0 && d[i].1 == d1[i].1 + d2[i].1 by {
            assert(d[i] == l[i] && d1[i] == l1[i] && d2[i] == l2[i]);
            assert(l[i].0 == l1[i].0 && l[i].0 == l2[i].0 && l[i].1 == l1[i].1 + l2[i].1);
        }
        lemma_line_sum_add(d, d1, d2, t);
        let k = l.len() - 1;
        assert(l[k].0 == l1[k].0 && l[k].0 == l2[k].0 && l[k].1 == l1[k].1 + l2[k].1);
    }
}

/// The reward lines of `x + y` SFTs are those of `x` and of `y` SFTs added line by line:
/// the same tokens in the same order, with the amounts added.
pub proof fn lemma_sft_reward_lines_add(nonce: u64, days: nat, x: nat, y: nat, eccu_rate: nat, resource_rate: nat)
    ensures
        ({
            let l = sft_reward_lines(nonce, days, x + y, eccu_rate, resource_rate);
            let l1 = sft_reward_lines(nonce, days, x, eccu_rate, resource_rate);
            let l2 = sft_reward_lines(nonce, days, y, eccu_rate, resource_rate);
            &&& l.len() == l1.len()
            &&& l.len() == l2.len()
            &&& forall|i: int| #![trigger l[i]] 0 <= i < l.len() ==> l[i].0 == l1[i].0 && l[i].0 == l2[i].0 && l[i].1 == l1[i].1 + l2[i].1
        }),
{
    assert(resource_rate * (days * (x + y)) == resource_rate * (days * x) + resource_rate * (days * y)) by (nonlinear_arith);
    assert(eccu_rate * (days * (x + y)) == eccu_rate * (days * x) + eccu_rate * (days * y)) by (nonlinear_arith);
}

/// Over more days, every token's sum of the reward lines is at least as large.
pub proof fn lemma_sft_reward_lines_more_days(
    nonce: u64,
    d1: nat,
    d2: nat,
    amount: nat,
    eccu_rate: nat,
    resource_rate: nat,
    t: TokenType,
)
    requires
        d1 <= d2,
    ensures
        line_sum(sft_reward_lines(nonce, d1, amount, eccu_rate, resource_rate), t)
            <= line_sum(sft_reward_lines(nonce, d2, amount, eccu_rate, resource_rate), t),
{
    let l1 = sft_reward_lines(nonce, d1, amount, eccu_rate, resource_rate);
    let l2 = sft_reward_lines(nonce, d2, amount, eccu_rate, resource_rate);
    if d1 == 0 {
        assert(line_sum(l1, t) == 0);
    } else {
        assert(resource_rate * (d1 * amount) <= resource_rate * (d2 * amount)) by (nonlinear_arith)
            requires d1 <= d2;
        assert(eccu_rate * (d1 * amount) <= eccu_rate * (d2 * amount)) by (nonlinear_arith)
            requires d1 <= d2;
        lemma_line_sum_mono(l1, l2, t);
    }
}

/// Returns the tokens that an SFT of nonce `nonce` earns.
pub fn earned_tokens_of(nonce: u64) -> (r: (Option<TokenType>, bool))
    ensures
        r == earned_tokens(nonce),
{
    match nonce {
        2 | 19 | 23 | 29 => (Some(TokenType::Food), true),
        35 | 41 | 49 | 55 => (Some(TokenType::Food), false),
        37 | 43 | 51 | 57 => (Some(TokenType::Wood), false),
        6 | 17 | 24 | 30 => (Some(TokenType::Beer), true),
        34 | 40 | 47 | 54 => (Some(TokenType::Beer), false),
        3 | 16 | 22 | 27 => (Some(TokenType::Iron), true),
        36 | 42 | 50 | 56 => (Some(TokenType::Iron), false),
        4 | 18 | 25 | 31 => (Some(TokenType::Wargear), true),
        33 | 39 | 46 | 53 => (Some(TokenType::Wargear), false),
        38 | 44 | 52 | 58 => (Some(TokenType::Stone), false),
        5 | 7 | 14 | 15 | 20 | 21 | 26 | 28 => (None, true),
        _ => (None, false),
    }
}

/// Computes `rate * days * amount`.
pub fn product(rate: &BigNat, days: u64, amount: &BigNat) -> (r: BigNat)
    ensures
        r@ == rate@ * days * amount@,
{
    let points = BigNat::from_u64(days).mul(amount);
    let r = rate.mul(&points);
    assert(rate@ * (days * amount@) == rate@ * days * amount@) by (nonlinear_arith);
    r
}

/// The rewards of `amount` SFTs of nonce `nonce` staked from `staked_at` to `now`.
pub fn sft_rewards(
    nonce: u64,
    staked_at: u64,
    now: u64,
    amount: &BigNat,
    eccu_rate: &BigNat,
    resource_rate: &BigNat,
) -> (r: Vec<TokenReward>)
    requires
        staked_at <= now,
    ensures
        lines_of(r@) == sft_reward_lines(
            nonce,
            days_between(staked_at, now),
            amount@,
            eccu_rate@,
            resource_rate@,
        ),
{
    let days: u64 = (now - staked_at) / ONE_DAY_IN_SECONDS;
    let ghost lines = sft_reward_lines(
        nonce,
        days_between(staked_at, now),
        amount@,
        eccu_rate@,
        resource_rate@,
    );
    let mut tokens: Vec<TokenReward> = Vec::new();
    if days > 0 {
        let (resource, currency) = earned_tokens_of(nonce);
        assert(rate_points_eq(resource_rate@, days as nat, amount@)) by (nonlinear_arith);
        assert(rate_points_eq(eccu_rate@, days as nat, amount@)) by (nonlinear_arith);
        match resource {
            Some(t) => tokens.push(TokenReward::new(t, product(resource_rate, days, amount))),
            None => {},
        }
        if currency {
            tokens.push(TokenReward::new(TokenType::Eccu, product(eccu_rate, days, amount)));
        }
    }
    assert(lines_of(tokens@) =~= lines);
    tokens
}

/// `rate * (days * amount)` and `rate * days * amount` agree.
pub open spec fn rate_points_eq(rate: nat, days: nat, amount: nat) -> bool {
    rate * (days * amount) == rate * days * amount
}

/// Adds the lines of `rewards` to the amounts `b`.
pub fn credit(b: Amounts, rewards: &Vec<TokenReward>) -> (c: Amounts)
    ensures
        forall|t: TokenType| #[trigger] c.of(t) == b.of(t) + line_sum(lines_of(rewards@), t),
{
    let ghost lines = lines_of(rewards@);
    let mut c = b;
    let mut i: usize = 0;
    while i < rewards.len()
        invariant
            0 <= i <= rewards@.len(),
            lines == lines_of(rewards@),
            forall|t: TokenType| #[trigger] c.of(t) == b.of(t) + line_sum(lines.take(i as int), t),
        decreases rewards@.len() - i,
    {
        let r = &rewards[i];
        assert(lines.take(i + 1).drop_last() =~= lines.take(i as int));
        assert(lines.take(i + 1).last() == r.line());
        let v = c.get(r.name).add(&r.amount);
        c.set(r.name, v);
        i = i + 1;
    }
    assert(lines.take(rewards@.len() as int) =~= lines);
    c
}

} // verus!
