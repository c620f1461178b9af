//! Staking of semi-fungible tokens (SFTs) with daily rewards paid in a currency
//! token and six resource tokens.
//!
//! - `model`: the contract's storage and endpoints as mathematics, with unbounded
//!   amounts; each endpoint is a function from a state and a request to a new state
//!   (and the transfers it makes) or a refusal.
//! - `contract`: the executable state `StakeState` and the `StakeContract` endpoints,
//!   each proved to do exactly what `model` says.
//! - `rewards`: what one staked SFT earns per day, by nonce.
//! - `laws`: properties that span requests, proved of the model.
//! - `bignat`: natural numbers of any size, the contract's amounts.
//! - `tables`, `amounts`, `bytes`: the keyed tables, per-token amounts and byte
//!   strings that the state is made of.

pub mod bytes;
pub mod bignat;
pub mod amounts;
pub mod tables;
pub mod rewards;
pub mod model;
pub mod contract;
pub mod laws;

pub use contract::{StakeContract, StakeState};
