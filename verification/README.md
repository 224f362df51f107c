# wick

Five-minute binary price prediction markets for Stellar/Soroban, with the
market logic verified in Verus.

Three markets share the payout arithmetic:

- `fair_market`: one round per oracle tick and asset; the strike is the
  oracle's own tick, betting closes at `strike_ts + lock_offset`, and
  settlement reads the oracle at exactly `strike_ts + 300`. Winners split the
  pot less a fee; void rounds (oracle gap, exact tie, empty side) refund in
  full.
- `prediction`: an epoch-driven market (`genesis_start`, `genesis_lock`,
  `execute_round`) with batch claims and refunds.
- `wick_predict`: a single-asset market with time-weighted ("Ninetails")
  payouts, where earlier bets earn more and losers get a partial refund.

`test_oracle` is an admin-fed price feed with the same reading interface.

## Layout

- `src/`: the verified library. Each market keeps its storage as a value
  with an invariant; every operation takes the ledger time and the oracle
  readings it needs and returns the amounts to transfer. The `*_laws`
  modules state and prove the properties the markets promise
  (conservation of each round's pot, single payout per position,
  settlement independent of who settles and when, one round per tick).
  `prediction_funds` shows that every operation of the epoch-driven market
  keeps each recorded stake counted in its round's pool, so a resolved
  round never owes its winners more than its reward pool. `math` and
  `ninetails` hold the payout arithmetic and its bounds.
- `tests/`: the scenarios, run against the library with an in-memory
  oracle and token ledger.
- `app/`: the Soroban contracts around the library: authorization, token
  transfers, oracle calls, events and ledger storage.
