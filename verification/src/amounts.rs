//! The seven reward tokens and a record of one amount per token.

use vstd::prelude::*;
use crate::bignat::BigNat;

verus! {

/// The tokens in which rewards are paid: the currency `Eccu` and six resources.
#[derive(Clone, Copy, Debug, PartialEq, Eq, Structural)]
pub enum TokenType {
    Eccu,
    Food,
    Beer,
    Wood,
    Stone,
    Iron,
    Wargear,
}

/// Units of the currency per reward point.
pub const TOKEN_DECIMALS: u64 = 1;

/// Units of a resource per reward point.
pub const RESOURCE_DECIMALS: u64 = 1000000000000000000;

/// The number of units paid out per reward point of token `t`.
pub open spec fn decimals(t: TokenType) -> nat {
    match t {
        TokenType::Eccu => TOKEN_DECIMALS as nat,
        _ => RESOURCE_DECIMALS as nat,
    }
}

/// The order in which the seven tokens are listed and paid.
pub open spec fn token_order() -> Seq<TokenType> {
    seq![
        TokenType::Eccu,
        TokenType::Food,
        TokenType::Beer,
        TokenType::Wood,
        TokenType::Stone,
        TokenType::Iron,
        TokenType::Wargear,
    ]
}

/// The position of token `t` in `token_order()`.
pub open spec fn token_index(t: TokenType) -> int {
    match t {
        TokenType::Eccu => 0,
        TokenType::Food => 1,
        TokenType::Beer => 2,
        TokenType::Wood => 3,
        TokenType::Stone => 4,
        TokenType::Iron => 5,
        TokenType::Wargear => 6,
    }
}

/// Every token stands in `token_order()` at its index.
pub proof fn lemma_token_order(t: TokenType)
    ensures
        0 <= token_index(t) < 7,
        token_order()[token_index(t)] == t,
        token_order().len() == 7,
{
}

/// Returns the units paid out per reward point of token `t`.
pub fn token_decimals(t: TokenType) -> (r: BigNat)
    ensures
        r@ == decimals(t),
        t == TokenType::Eccu ==> r@ == 1,
        t != TokenType::Eccu ==> r@ == 1000000000000000000,
{
    match t {
        TokenType::Eccu => BigNat::from_u64(TOKEN_DECIMALS),
        _ => BigNat::from_u64(RESOURCE_DECIMALS),
    }
}

/// Returns the token at position `i` of `token_order()`.
pub fn token_at(i: usize) -> (t: TokenType)
    requires
        i < 7,
    ensures
        t == token_order()[i as int],
        token_index(t) == i,
{
    match i {
        0 => TokenType::Eccu,
        1 => TokenType::Food,
        2 => TokenType::Beer,
        3 => TokenType::Wood,
        4 => TokenType::Stone,
        5 => TokenType::Iron,
        _ => TokenType::Wargear,
    }
}

/// One amount for each of the seven tokens.
#[derive(Debug)]
pub struct Amounts {
    pub eccu: BigNat,
    pub food: BigNat,
    pub beer: BigNat,
    pub wood: BigNat,
    pub stone: BigNat,
    pub iron: BigNat,
    pub wargear: BigNat,
}

impl Amounts {
    /// The amount of token `t`.
    pub open spec fn of(self, t: TokenType) -> nat {
        match t {
            TokenType::Eccu => self.eccu@,
            TokenType::Food => self.food@,
            TokenType::Beer => self.beer@,
            TokenType::Wood => self.wood@,
            TokenType::Stone => self.stone@,
            TokenType::Iron => self.iron@,
            TokenType::Wargear => self.wargear@,
        }
    }

    /// The amounts as a map defined on every token.
    pub open spec fn as_map(self) -> Map<TokenType, nat> {
        Map::new(|t: TokenType| true, |t: TokenType| self.of(t))
    }

    /// All amounts zero.
    pub fn zero() -> (r: Self)
        ensures
            forall|t: TokenType| #[trigger] r.of(t) == 0,
    {
        Amounts {
            eccu: BigNat::zero(),
            food: BigNat::zero(),
            beer: BigNat::zero(),
            wood: BigNat::zero(),
            stone: BigNat::zero(),
            iron: BigNat::zero(),
            wargear: BigNat::zero(),
        }
    }

    /// The same amounts.
    pub fn copy(&self) -> (r: Self)
        ensures
            forall|t: TokenType| #[trigger] r.of(t) == self.of(t),
    {
        Amounts {
            eccu: self.eccu.copy(),
            food: self.food.copy(),
            beer: self.beer.copy(),
            wood: self.wood.copy(),
            stone: self.stone.copy(),
            iron: self.iron.copy(),
            wargear: self.wargear.copy(),
        }
    }

    /// The amount of token `t`.
    pub fn get(&self, t: TokenType) -> (r: &BigNat)
        ensures
            r@ == self.of(t),
    {
        match t {
            TokenType::Eccu => &self.eccu,
            TokenType::Food => &self.food,
            TokenType::Beer => &self.beer,
            TokenType::Wood => &self.wood,
            TokenType::Stone => &self.stone,
            TokenType::Iron => &self.iron,
            TokenType::Wargear => &self.wargear,
        }
    }

    /// Replaces the amount of token `t` by `v`.
    pub fn set(&mut self, t: TokenType, v: BigNat)
        ensures
            final(self).of(t) == v@,
            forall|u: TokenType| u != t ==> #[trigger] final(self).of(u) == old(self).of(u),
    {
        match t {
            TokenType::Eccu => self.eccu = v,
            TokenType::Food => self.food = v,
            TokenType::Beer => self.beer = v,
            TokenType::Wood => self.wood = v,
            TokenType::Stone => self.stone = v,
            TokenType::Iron => self.iron = v,
            TokenType::Wargear => self.wargear = v,
        }
    }
}

} // verus!
