# stake

A verified library for a MultiversX staking contract: accounts stake semi-fungible
tokens (SFTs) of allowed nonces and earn, per full day staked, a resource and/or the
currency at rates the owner sets per nonce; the owner funds one pool per reward token
from which claims are paid.

- `src/` is checked by Verus. `model.rs` states each endpoint as a function on an
  abstract state with unbounded amounts; `contract.rs` holds the executable state
  (`StakeState`) and the endpoints (`StakeContract`), each proved equal to its model
  step. Amounts are `BigNat`s (`bignat.rs`), natural numbers of any size whose
  addition, subtraction, multiplication and comparisons are proved against the
  arithmetic of `nat`. `laws.rs` proves properties across requests, such as that
  staking and unstaking never change what an account can claim at that moment, that
  what can be claimed only grows with time, and that rewards add up over SFTs.
- `app/` is the contract on the blockchain: it reads the caller, the owner, the block
  time and the payment, keeps the state in storage, lets the library decide, and makes
  the transfers the library returns.
- `tests/` runs the library on concrete scenarios.
