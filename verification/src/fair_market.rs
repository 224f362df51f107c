//! The fair market: one round per oracle tick and asset, parimutuel payout.
//!
//! `create_round` anchors a round's strike to the oracle's own tick; bets
//! are taken until `lock_ts = strike_ts + lock_offset`; `settle` reads the
//! oracle at the pinned `settle_ts = strike_ts + 300`, so the outcome is the
//! same whoever settles and whenever. A round is void (gross refund, no
//! fee) on an oracle gap, an exact tie, or when either pool is empty.
//!
//! The contract's storage is held here as a value: the configuration, the
//! round counter, the fee accumulator, the last strike time per asset, the
//! rounds and the positions. The ledger time, the oracle's answers and the
//! token transfers stay with the caller: each operation takes the time and
//! the oracle reading it needs and returns the amount to transfer.
use vstd::prelude::*;
use crate::division::{div_pos, fits_i128, lemma_tdiv_bounded, mul_fits, tdiv};

verus! {

/// Seconds between oracle updates; a round settles this long after its strike.
pub const ORACLE_INTERVAL: u64 = 300;

/// Highest fee the admin can set, in basis points (5%).
pub const MAX_FEE_BPS: u32 = 500;

/// Smallest allowed betting window after the strike, in seconds.
pub const MIN_LOCK_OFFSET: u64 = 90;

/// Most rounds one `claim_many` call may name.
pub const MAX_CLAIM_BATCH: usize = 20;

/// Side of a bet.
#[derive(Clone, Copy, PartialEq, Eq, Debug, Structural)]
pub enum Side {
    Up,
    Down,
}

/// Result of a settled round.
#[derive(Clone, Copy, PartialEq, Eq, Debug, Structural)]
pub enum Outcome {
    Up,
    Down,
    Void,
}

/// Round status. Only `Open` and `Settled` are stored; `get_round`
/// reports `Locked` for an open round whose lock time has passed.
#[derive(Clone, Copy, PartialEq, Eq, Debug, Structural)]
pub enum Status {
    Open,
    Locked,
    Settled,
}

/// Contract errors; `code` gives the number each one carries on chain.
#[derive(Clone, Copy, PartialEq, Eq, Debug, Structural)]
pub enum Error {
    AlreadyInitialized,
    NotInitialized,
    InvalidAsset,
    RoundNotFound,
    RoundLocked,
    RoundNotSettled,
    AlreadySettled,
    TooEarly,
    BetTooSmall,
    AlreadyBet,
    AlreadyClaimed,
    NothingToClaim,
    FeeTooHigh,
    LockOffsetTooSmall,
    Unauthorized,
    DuplicateRound,
    ClaimBatchTooLarge,
}

impl Error {
    /// The error's numeric code.
    pub fn code(&self) -> (r: u32)
        ensures
            r == match *self {
                Error::AlreadyInitialized => 1u32,
                Error::NotInitialized => 2,
                Error::InvalidAsset => 3,
                Error::RoundNotFound => 4,
                Error::RoundLocked => 5,
                Error::RoundNotSettled => 6,
                Error::AlreadySettled => 7,
                Error::TooEarly => 8,
                Error::BetTooSmall => 9,
                Error::AlreadyBet => 10,
                Error::AlreadyClaimed => 11,
                Error::NothingToClaim => 12,
                Error::FeeTooHigh => 13,
                Error::LockOffsetTooSmall => 14,
                Error::Unauthorized => 15,
                Error::DuplicateRound => 16,
                Error::ClaimBatchTooLarge => 17,
            },
    {
        match self {
            Error::AlreadyInitialized => 1,
            Error::NotInitialized => 2,
            Error::InvalidAsset => 3,
            Error::RoundNotFound => 4,
            Error::RoundLocked => 5,
            Error::RoundNotSettled => 6,
            Error::AlreadySettled => 7,
            Error::TooEarly => 8,
            Error::BetTooSmall => 9,
            Error::AlreadyBet => 10,
            Error::AlreadyClaimed => 11,
            Error::NothingToClaim => 12,
            Error::FeeTooHigh => 13,
            Error::LockOffsetTooSmall => 14,
            Error::Unauthorized => 15,
            Error::DuplicateRound => 16,
            Error::ClaimBatchTooLarge => 17,
        }
    }
}

/// An oracle price and the oracle's own timestamp for it.
#[derive(Clone, Copy, PartialEq, Eq, Debug, Structural)]
pub struct PriceData {
    pub price: i128,
    pub timestamp: u64,
}

/// A betting round.
#[derive(Clone, Debug)]
pub struct Round {
    pub id: u64,
    pub asset: String,
    /// The oracle price the round is predicted against.
    pub strike: i128,
    /// The oracle's timestamp for the strike.
    pub strike_ts: u64,
    /// `strike_ts + 300`; the oracle is read at exactly this time to settle.
    pub settle_ts: u64,
    /// `strike_ts + lock_offset`; no bets on or after this time.
    pub lock_ts: u64,
    pub pool_up: i128,
    pub pool_down: i128,
    pub status: Status,
    pub outcome: Outcome,
    /// The settlement price; zero until settled with a price.
    pub settle_price: i128,
}

/// One user's bet in one round.
#[derive(Clone, Copy, PartialEq, Eq, Debug, Structural)]
pub struct Position {
    pub round_id: u64,
    pub side: Side,
    pub amount: i128,
    pub claimed: bool,
}

/// Market configuration.
#[derive(Clone, Debug)]
pub struct Config {
    pub admin: String,
    pub oracle: String,
    pub token: String,
    pub fee_bps: u32,
    pub min_bet: i128,
    /// Seconds after the strike before betting closes.
    pub lock_offset: u64,
    /// The oracle's decimal places, kept for display.
    pub oracle_decimals: u32,
}

/// A stored position together with its owner.
#[derive(Clone, Debug)]
pub struct Stake {
    pub user: String,
    pub position: Position,
}

/// The strike time of the last round opened for an asset.
#[derive(Clone, Debug)]
pub struct AssetStrike {
    pub asset: String,
    pub strike_ts: u64,
}

/// The market's storage as a mathematical value.
pub struct MarketState {
    pub config: Option<Config>,
    /// Number of rounds created so far; round ids run from 1 to `counter`.
    pub counter: u64,
    /// Fees collected and not yet swept.
    pub fees: i128,
    pub strikes: Seq<AssetStrike>,
    /// `rounds[i]` is the round with id `i + 1`.
    pub rounds: Seq<Round>,
    pub stakes: Seq<Stake>,
}

/// The fair market contract's storage.
pub struct FairMarket {
    config: Option<Config>,
    counter: u64,
    fees: i128,
    strikes: Vec<AssetStrike>,
    rounds: Vec<Round>,
    stakes: Vec<Stake>,
}

impl View for FairMarket {
    type V = MarketState;

    closed spec fn view(&self) -> MarketState {
        MarketState {
            config: self.config,
            counter: self.counter,
            fees: self.fees,
            strikes: self.strikes@,
            rounds: self.rounds@,
            stakes: self.stakes@,
        }
    }
}

/// Assets a round may be opened for.
pub open spec fn listed_asset(asset: Seq<char>) -> bool {
    asset == "BTC"@ || asset == "ETH"@ || asset == "SOL"@ || asset == "XLM"@
}

/// Total staked on `side` in round `round_id`.
pub open spec fn side_total(stakes: Seq<Stake>, round_id: u64, side: Side) -> int
    decreases stakes.len(),
{
    if stakes.len() == 0 {
        0
    } else {
        let p = stakes.last().position;
        side_total(stakes.drop_last(), round_id, side) + if p.round_id == round_id && p.side
            == side {
            p.amount as int
        } else {
            0
        }
    }
}

/// The stake at index `i` belongs to `user` in round `round_id`.
pub open spec fn stake_is(stakes: Seq<Stake>, i: int, round_id: u64, user: Seq<char>) -> bool {
    0 <= i < stakes.len() && stakes[i].position.round_id == round_id && stakes[i].user@ == user
}

/// Index of the stake of `user` in round `round_id`, if any.
pub open spec fn stake_index(stakes: Seq<Stake>, round_id: u64, user: Seq<char>) -> Option<int> {
    if exists|i: int| stake_is(stakes, i, round_id, user) {
        Some(choose|i: int| stake_is(stakes, i, round_id, user))
    } else {
        None
    }
}

/// The side's pool of a round.
pub open spec fn pool_of(round: Round, side: Side) -> int {
    match side {
        Side::Up => round.pool_up as int,
        Side::Down => round.pool_down as int,
    }
}

/// The position's side won the round.
pub open spec fn side_won(side: Side, outcome: Outcome) -> bool {
    (side == Side::Up && outcome == Outcome::Up) || (side == Side::Down && outcome
        == Outcome::Down)
}

/// The fee on a round's whole pot at the given rate.
pub open spec fn round_fee(round: Round, fee_bps: u32) -> int {
    tdiv((round.pool_up + round.pool_down) * fee_bps, 10_000)
}

/// What a settled position is paid: the gross stake on a void round,
/// nothing on the losing side, and otherwise its stake's proportional
/// share of the pot after the fee.
pub open spec fn claim_payout(round: Round, position: Position, fee_bps: u32) -> int {
    if round.outcome == Outcome::Void {
        position.amount as int
    } else if !side_won(position.side, round.outcome) {
        0
    } else {
        let total = round.pool_up + round.pool_down;
        let distributed = total - round_fee(round, fee_bps);
        let winning_pool = if round.outcome == Outcome::Up {
            round.pool_up as int
        } else {
            round.pool_down as int
        };
        tdiv(position.amount * distributed, winning_pool)
    }
}

/// The payout arithmetic of a winning claim stays within `i128`.
pub open spec fn claim_arith_ok(round: Round, position: Position, fee_bps: u32) -> bool {
    let total = round.pool_up + round.pool_down;
    let distributed = total - round_fee(round, fee_bps);
    round.outcome == Outcome::Void || !side_won(position.side, round.outcome) || (fits_i128(
        total,
    ) && fits_i128(total * fee_bps) && fits_i128(distributed) && fits_i128(
        position.amount * distributed,
    ))
}

/// The round's status as reported at time `now`.
pub open spec fn reported_status(round: Round, now: u64) -> Status {
    if round.status == Status::Open && now >= round.lock_ts {
        Status::Locked
    } else {
        round.status
    }
}

impl MarketState {
    /// The round with the given id, if it exists.
    pub open spec fn round(self, round_id: u64) -> Option<Round> {
        if 1 <= round_id <= self.rounds.len() {
            Some(self.rounds[round_id - 1])
        } else {
            None
        }
    }

    /// The position of `user` in round `round_id`, if any.
    pub open spec fn position(self, round_id: u64, user: Seq<char>) -> Option<Position> {
        match stake_index(self.stakes, round_id, user) {
            Some(i) => Some(self.stakes[i].position),
            None => None,
        }
    }

    /// The strike time of the last round opened for `asset`, or 0.
    pub open spec fn last_strike(self, asset: Seq<char>) -> u64 {
        if exists|i: int| 0 <= i < self.strikes.len() && self.strikes[i].asset@ == asset {
            self.strikes[choose|i: int|
                0 <= i < self.strikes.len() && self.strikes[i].asset@ == asset].strike_ts
        } else {
            0
        }
    }

    /// The storage invariant.
    pub open spec fn wf(self) -> bool {
        &&& self.config is None ==> self.counter == 0 && self.fees == 0 && self.rounds.len() == 0
            && self.stakes.len() == 0 && self.strikes.len() == 0
        &&& self.config matches Some(c) ==> c.fee_bps <= MAX_FEE_BPS && c.lock_offset
            >= MIN_LOCK_OFFSET
        &&& self.fees >= 0
        &&& self.rounds.len() == self.counter
        &&& forall|i: int| 0 <= i < self.rounds.len() ==> #[trigger] self.rounds[i].id == i + 1
        &&& forall|i: int|
            0 <= i < self.rounds.len() ==> {
                let r = #[trigger] self.rounds[i];
                &&& r.status != Status::Locked
                &&& r.status == Status::Open ==> r.outcome == Outcome::Void
                &&& r.status == Status::Settled && r.outcome != Outcome::Void ==> r.pool_up > 0
                    && r.pool_down > 0
                &&& r.pool_up == side_total(self.stakes, r.id, Side::Up)
                &&& r.pool_down == side_total(self.stakes, r.id, Side::Down)
            }
        &&& forall|i: int|
            0 <= i < self.stakes.len() ==> {
                let p = #[trigger] self.stakes[i].position;
                &&& 1 <= p.round_id <= self.counter
                &&& p.amount >= 0
            }
        &&& forall|i: int, j: int|
            0 <= i < self.stakes.len() && 0 <= j < self.stakes.len() && i != j
                ==> #[trigger] self.stakes[i].position.round_id
                != #[trigger] self.stakes[j].position.round_id || self.stakes[i].user@
                != self.stakes[j].user@
        &&& forall|i: int, j: int|
            0 <= i < self.strikes.len() && 0 <= j < self.strikes.len() && i != j
                ==> #[trigger] self.strikes[i].asset@ != #[trigger] self.strikes[j].asset@
    }

    /// Storage right after `initialize`.
    pub open spec fn initialized(self, config: Config) -> MarketState {
        MarketState { config: Some(config), ..self }
    }

    /// The round created by `create_round` for this tick.
    pub open spec fn new_round(self, asset: String, tick: PriceData) -> Round {
        Round {
            id: (self.counter + 1) as u64,
            asset,
            strike: tick.price,
            strike_ts: tick.timestamp,
            settle_ts: (tick.timestamp + ORACLE_INTERVAL) as u64,
            lock_ts: (tick.timestamp + self.config.unwrap().lock_offset) as u64,
            pool_up: 0,
            pool_down: 0,
            status: Status::Open,
            outcome: Outcome::Void,
            settle_price: 0,
        }
    }

    /// Why `create_round` refuses, if it does.
    pub open spec fn create_round_error(self, asset: Seq<char>, tick: Option<PriceData>) -> Option<
        Error,
    > {
        if self.config is None {
            Some(Error::NotInitialized)
        } else if !listed_asset(asset) {
            Some(Error::InvalidAsset)
        } else if tick is None {
            Some(Error::RoundNotFound)
        } else if self.last_strike(asset) == tick.unwrap().timestamp {
            Some(Error::DuplicateRound)
        } else {
            None
        }
    }

    /// `create_round` does not overflow on these inputs.
    pub open spec fn create_round_ok(self, asset: Seq<char>, tick: Option<PriceData>) -> bool {
        (self.config is Some && listed_asset(asset) && tick is Some) ==> {
            &&& tick.unwrap().timestamp + ORACLE_INTERVAL <= u64::MAX
            &&& tick.unwrap().timestamp + self.config.unwrap().lock_offset <= u64::MAX
            &&& self.counter < u64::MAX
        }
    }

    /// The strike table with `asset`'s last strike set to `ts`.
    pub open spec fn strikes_after(self, asset: String, ts: u64) -> Seq<AssetStrike> {
        if exists|i: int| 0 <= i < self.strikes.len() && self.strikes[i].asset@ == asset@ {
            let i = choose|i: int| 0 <= i < self.strikes.len() && self.strikes[i].asset@ == asset@;
            self.strikes.update(i, AssetStrike { strike_ts: ts, ..self.strikes[i] })
        } else {
            self.strikes.push(AssetStrike { asset, strike_ts: ts })
        }
    }

    /// Storage after `create_round` opens a round on this tick.
    pub open spec fn after_create(self, asset: String, tick: PriceData) -> MarketState {
        MarketState {
            counter: (self.counter + 1) as u64,
            rounds: self.rounds.push(self.new_round(asset, tick)),
            strikes: self.strikes_after(asset, tick.timestamp),
            ..self
        }
    }

    /// Why `bet` refuses, if it does.
    pub open spec fn bet_error(
        self,
        user: Seq<char>,
        round_id: u64,
        amount: i128,
        now: u64,
    ) -> Option<Error> {
        if self.config is None {
            Some(Error::NotInitialized)
        } else if amount < self.config.unwrap().min_bet {
            Some(Error::BetTooSmall)
        } else if self.round(round_id) is None {
            Some(Error::RoundNotFound)
        } else if now >= self.round(round_id).unwrap().lock_ts || self.round(
            round_id,
        ).unwrap().status != Status::Open {
            Some(Error::RoundLocked)
        } else if self.position(round_id, user) is Some {
            Some(Error::AlreadyBet)
        } else {
            None
        }
    }

    /// A round with `amount` more on `side`.
    pub open spec fn round_with_bet(round: Round, side: Side, amount: i128) -> Round {
        match side {
            Side::Up => Round { pool_up: (round.pool_up + amount) as i128, ..round },
            Side::Down => Round { pool_down: (round.pool_down + amount) as i128, ..round },
        }
    }

    /// Storage after an accepted bet.
    pub open spec fn after_bet(
        self,
        user: String,
        round_id: u64,
        side: Side,
        amount: i128,
    ) -> MarketState {
        MarketState {
            rounds: self.rounds.update(
                round_id - 1,
                Self::round_with_bet(self.rounds[round_id - 1], side, amount),
            ),
            stakes: self.stakes.push(
                Stake {
                    user,
                    position: Position { round_id, side, amount, claimed: false },
                },
            ),
            ..self
        }
    }

    /// The outcome a settlement reading gives, before the empty-pool rule.
    pub open spec fn price_outcome(round: Round, price: Option<PriceData>) -> Outcome {
        match price {
            None => Outcome::Void,
            Some(p) => if p.price > round.strike {
                Outcome::Up
            } else if p.price < round.strike {
                Outcome::Down
            } else {
                Outcome::Void
            },
        }
    }

    /// The outcome of settling `round` on this reading: void whenever either
    /// pool is empty, otherwise decided by the price against the strike.
    pub open spec fn settle_outcome(round: Round, price: Option<PriceData>) -> Outcome {
        if round.pool_up == 0 || round.pool_down == 0 {
            Outcome::Void
        } else {
            Self::price_outcome(round, price)
        }
    }

    /// The settled round.
    pub open spec fn settled_round(round: Round, price: Option<PriceData>) -> Round {
        Round {
            status: Status::Settled,
            outcome: Self::settle_outcome(round, price),
            settle_price: match price {
                Some(p) => p.price,
                None => round.settle_price,
            },
            ..round
        }
    }

    /// Why `settle` refuses, if it does.
    pub open spec fn settle_error(self, round_id: u64, now: u64) -> Option<Error> {
        if self.config is None {
            Some(Error::NotInitialized)
        } else if self.round(round_id) is None {
            Some(Error::RoundNotFound)
        } else if self.round(round_id).unwrap().status == Status::Settled {
            Some(Error::AlreadySettled)
        } else if now < self.round(round_id).unwrap().settle_ts {
            Some(Error::TooEarly)
        } else {
            None
        }
    }

    /// The fee a settlement collects: none on a void round.
    pub open spec fn settle_fee(self, round_id: u64, price: Option<PriceData>) -> int {
        let round = self.rounds[round_id - 1];
        if Self::settle_outcome(round, price) == Outcome::Void {
            0
        } else {
            round_fee(round, self.config.unwrap().fee_bps)
        }
    }

    /// Storage after an accepted settlement.
    pub open spec fn after_settle(self, round_id: u64, price: Option<PriceData>) -> MarketState {
        MarketState {
            rounds: self.rounds.update(
                round_id - 1,
                Self::settled_round(self.rounds[round_id - 1], price),
            ),
            fees: (self.fees + self.settle_fee(round_id, price)) as i128,
            ..self
        }
    }

    /// `settle` does not overflow on these inputs.
    pub open spec fn settle_ok(self, round_id: u64, now: u64, price: Option<PriceData>) -> bool {
        self.settle_error(round_id, now) is None && Self::settle_outcome(
            self.rounds[round_id - 1],
            price,
        ) != Outcome::Void ==> {
            let round = self.rounds[round_id - 1];
            &&& fits_i128(round.pool_up + round.pool_down)
            &&& fits_i128((round.pool_up + round.pool_down) * self.config.unwrap().fee_bps)
            &&& fits_i128(self.fees + self.settle_fee(round_id, price))
        }
    }

    /// The position a claim pays out on: the round is settled and the
    /// position exists and is unclaimed.
    pub open spec fn claimable(self, round_id: u64, user: Seq<char>) -> bool {
        &&& self.round(round_id) matches Some(r) && r.status == Status::Settled
        &&& self.position(round_id, user) matches Some(p) && !p.claimed
    }

    /// What a claim pays: 0 unless the position is claimable.
    pub open spec fn claim_amount(self, round_id: u64, user: Seq<char>) -> int {
        if self.claimable(round_id, user) {
            claim_payout(
                self.round(round_id).unwrap(),
                self.position(round_id, user).unwrap(),
                self.config.unwrap().fee_bps,
            )
        } else {
            0
        }
    }

    /// Storage after a claim: a claimable position is marked claimed.
    pub open spec fn after_claim(self, round_id: u64, user: Seq<char>) -> MarketState {
        if self.claimable(round_id, user) {
            let i = stake_index(self.stakes, round_id, user).unwrap();
            MarketState {
                stakes: self.stakes.update(
                    i,
                    Stake {
                        position: Position { claimed: true, ..self.stakes[i].position },
                        ..self.stakes[i]
                    },
                ),
                ..self
            }
        } else {
            self
        }
    }

    /// A claim's payout arithmetic stays within `i128`.
    pub open spec fn claim_ok(self, round_id: u64, user: Seq<char>) -> bool {
        self.claimable(round_id, user) ==> claim_arith_ok(
            self.round(round_id).unwrap(),
            self.position(round_id, user).unwrap(),
            self.config.unwrap().fee_bps,
        )
    }

    /// Storage after claiming the given rounds in order, and the total paid.
    pub open spec fn after_claims(self, user: Seq<char>, round_ids: Seq<u64>) -> (
        MarketState,
        int,
    )
        decreases round_ids.len(),
    {
        if round_ids.len() == 0 {
            (self, 0)
        } else {
            let (m, total) = self.after_claims(user, round_ids.drop_last());
            let id = round_ids.last();
            (m.after_claim(id, user), total + m.claim_amount(id, user))
        }
    }

    /// Claiming the given rounds in order never overflows, not even the
    /// running total.
    pub open spec fn claims_ok(self, user: Seq<char>, round_ids: Seq<u64>) -> bool
        decreases round_ids.len(),
    {
        if round_ids.len() == 0 {
            true
        } else {
            let (m, total) = self.after_claims(user, round_ids.drop_last());
            let id = round_ids.last();
            &&& self.claims_ok(user, round_ids.drop_last())
            &&& m.claim_ok(id, user)
            &&& fits_i128(total + m.claim_amount(id, user))
        }
    }
}


/// Adding a stake adds its amount to the total of its own round and side.
pub proof fn lemma_side_total_push(stakes: Seq<Stake>, s: Stake, round_id: u64, side: Side)
    ensures
        side_total(stakes.push(s), round_id, side) == side_total(stakes, round_id, side) + if s.position.round_id
            == round_id && s.position.side == side {
            s.position.amount as int
        } else {
            0
        },
{
    assert(stakes.push(s).drop_last() =~= stakes);
}

/// A round with no stakes has empty pools.
pub proof fn lemma_side_total_absent(stakes: Seq<Stake>, round_id: u64, side: Side)
    requires
        forall|i: int| 0 <= i < stakes.len() ==> #[trigger] stakes[i].position.round_id != round_id,
    ensures
        side_total(stakes, round_id, side) == 0,
    decreases stakes.len(),
{
    if stakes.len() > 0 {
        let t = stakes.drop_last();
        assert forall|i: int| 0 <= i < t.len() implies #[trigger] t[i].position.round_id != round_id by {
            assert(t[i] == stakes[i]);
        }
        lemma_side_total_absent(t, round_id, side);
    }
}

/// Stake totals are never negative when every stake is.
pub proof fn lemma_side_total_nonneg(stakes: Seq<Stake>, round_id: u64, side: Side)
    requires
        forall|i: int| 0 <= i < stakes.len() ==> #[trigger] stakes[i].position.amount >= 0,
    ensures
        side_total(stakes, round_id, side) >= 0,
    decreases stakes.len(),
{
    if stakes.len() > 0 {
        let t = stakes.drop_last();
        assert forall|i: int| 0 <= i < t.len() implies #[trigger] t[i].position.amount >= 0 by {
            assert(t[i] == stakes[i]);
        }
        lemma_side_total_nonneg(t, round_id, side);
    }
}

/// Replacing a stake by one with the same round, side and amount keeps
/// every total.
pub proof fn lemma_side_total_update(
    stakes: Seq<Stake>,
    k: int,
    s: Stake,
    round_id: u64,
    side: Side,
)
    requires
        0 <= k < stakes.len(),
        s.position.round_id == stakes[k].position.round_id,
        s.position.side == stakes[k].position.side,
        s.position.amount == stakes[k].position.amount,
    ensures
        side_total(stakes.update(k, s), round_id, side) == side_total(stakes, round_id, side),
    decreases stakes.len(),
{
    let u = stakes.update(k, s);
    if k == stakes.len() - 1 {
        assert(u.drop_last() =~= stakes.drop_last());
    } else {
        lemma_side_total_update(stakes.drop_last(), k, s, round_id, side);
        assert(u.drop_last() =~= stakes.drop_last().update(k, s));
    }
}

/// A copy of a round, field by field.
fn copy_round(r: &Round) -> (c: Round)
    ensures
        c == *r,
{
    Round {
        id: r.id,
        asset: r.asset.clone(),
        strike: r.strike,
        strike_ts: r.strike_ts,
        settle_ts: r.settle_ts,
        lock_ts: r.lock_ts,
        pool_up: r.pool_up,
        pool_down: r.pool_down,
        status: r.status,
        outcome: r.outcome,
        settle_price: r.settle_price,
    }
}

/// A copy of a configuration, field by field.
fn copy_config(c: &Config) -> (d: Config)
    ensures
        d == *c,
{
    Config {
        admin: c.admin.clone(),
        oracle: c.oracle.clone(),
        token: c.token.clone(),
        fee_bps: c.fee_bps,
        min_bet: c.min_bet,
        lock_offset: c.lock_offset,
        oracle_decimals: c.oracle_decimals,
    }
}

/// Whether a round may be opened for `asset`.
pub fn is_listed_asset(asset: &String) -> (r: bool)
    ensures
        r == listed_asset(asset@),
{
    let btc = "BTC".to_owned();
    let eth = "ETH".to_owned();
    let sol = "SOL".to_owned();
    let xlm = "XLM".to_owned();
    *asset == btc || *asset == eth || *asset == sol || *asset == xlm
}

impl FairMarket {
    /// Empty storage: a deployed market that has not been initialized.
    pub fn new() -> (r: FairMarket)
        ensures
            r@.wf(),
            r@.config is None,
            r@.counter == 0,
            r@.fees == 0,
            r@.rounds.len() == 0,
            r@.stakes.len() == 0,
            r@.strikes.len() == 0,
    {
        FairMarket {
            config: None,
            counter: 0,
            fees: 0,
            strikes: Vec::new(),
            rounds: Vec::new(),
            stakes: Vec::new(),
        }
    }

    /// Index of the stake of `user` in round `round_id`.
    fn find_stake(&self, round_id: u64, user: &String) -> (r: Option<usize>)
        requires
            self@.wf(),
        ensures
            match r {
                Some(i) => stake_index(self@.stakes, round_id, user@) == Some(i as int),
                None => stake_index(self@.stakes, round_id, user@) is None,
            },
    {
        let mut i: usize = 0;
        while i < self.stakes.len()
            invariant
                self@.wf(),
                i <= self.stakes@.len(),
                forall|j: int| 0 <= j < i ==> !stake_is(self@.stakes, j, round_id, user@),
            decreases self.stakes@.len() - i,
        {
            let s = &self.stakes[i];
            if s.position.round_id == round_id && s.user == *user {
                proof {
                    assert(stake_is(self@.stakes, i as int, round_id, user@));
                    let c = choose|j: int| stake_is(self@.stakes, j, round_id, user@);
                    assert(c == i as int);
                }
                return Some(i);
            }
            i = i + 1;
        }
        None
    }

    /// Index of the strike record of `asset`.
    fn find_strike(&self, asset: &String) -> (r: Option<usize>)
        requires
            self@.wf(),
        ensures
            match r {
                Some(i) => i < self@.strikes.len() && self@.strikes[i as int].asset@ == asset@,
                None => forall|j: int|
                    0 <= j < self@.strikes.len() ==> self@.strikes[j].asset@ != asset@,
            },
    {
        let mut i: usize = 0;
        while i < self.strikes.len()
            invariant
                i <= self.strikes@.len(),
                forall|j: int| 0 <= j < i ==> self@.strikes[j].asset@ != asset@,
            decreases self.strikes@.len() - i,
        {
            if self.strikes[i].asset == *asset {
                return Some(i);
            }
            i = i + 1;
        }
        None
    }

    /// The last strike time recorded for `asset`, or 0.
    fn last_strike_ts(&self, asset: &String) -> (r: u64)
        requires
            self@.wf(),
        ensures
            r == self@.last_strike(asset@),
    {
        match self.find_strike(asset) {
            Some(i) => {
                proof {
                    let c = choose|j: int|
                        0 <= j < self@.strikes.len() && self@.strikes[j].asset@ == asset@;
                    assert(c == i as int);
                }
                self.strikes[i].strike_ts
            },
            None => 0,
        }
    }

    /// Initializes the market. Refuses a second initialization, a fee above
    /// 5% and a lock offset under 90 seconds. `oracle_decimals` is what the
    /// oracle's `decimals()` reports.
    pub fn initialize(
        &mut self,
        admin: String,
        oracle: String,
        token: String,
        fee_bps: u32,
        min_bet: i128,
        lock_offset: u64,
        oracle_decimals: u32,
    ) -> (r: Result<(), Error>)
        requires
            old(self)@.wf(),
        ensures
            final(self)@.wf(),
            old(self)@.config is Some ==> r == Err::<(), Error>(Error::AlreadyInitialized),
            old(self)@.config is None && fee_bps > MAX_FEE_BPS ==> r == Err::<(), Error>(
                Error::FeeTooHigh,
            ),
            old(self)@.config is None && fee_bps <= MAX_FEE_BPS && lock_offset < MIN_LOCK_OFFSET
                ==> r == Err::<(), Error>(Error::LockOffsetTooSmall),
            r is Err ==> final(self)@ == old(self)@,
            r is Ok ==> final(self)@ == old(self)@.initialized(
                Config { admin, oracle, token, fee_bps, min_bet, lock_offset, oracle_decimals },
            ),
            r is Ok <==> old(self)@.config is None && fee_bps <= MAX_FEE_BPS && lock_offset
                >= MIN_LOCK_OFFSET,
    {
        if self.config.is_some() {
            return Err(Error::AlreadyInitialized);
        }
        if fee_bps > MAX_FEE_BPS {
            return Err(Error::FeeTooHigh);
        }
        if lock_offset < MIN_LOCK_OFFSET {
            return Err(Error::LockOffsetTooSmall);
        }
        self.config = Some(
            Config { admin, oracle, token, fee_bps, min_bet, lock_offset, oracle_decimals },
        );
        self.counter = 0;
        self.fees = 0;
        Ok(())
    }

    /// Opens a round for `asset` on the oracle's latest tick `tick` (the
    /// oracle's `lastprice` for the asset). The strike and its time are the
    /// tick's; betting closes `lock_offset` seconds and settlement happens
    /// 300 seconds after it. Returns the new round's id.
    pub fn create_round(&mut self, asset: String, tick: Option<PriceData>) -> (r: Result<
        u64,
        Error,
    >)
        requires
            old(self)@.wf(),
            old(self)@.create_round_ok(asset@, tick),
        ensures
            final(self)@.wf(),
            match old(self)@.create_round_error(asset@, tick) {
                Some(e) => r == Err::<u64, Error>(e) && final(self)@ == old(self)@,
                None => r == Ok::<u64, Error>((old(self)@.counter + 1) as u64) && final(self)@
                    == old(self)@.after_create(asset, tick.unwrap()),
            },
    {
        let ghost old_state = self@;
        let lock_offset = match &self.config {
            None => {
                return Err(Error::NotInitialized);
            },
            Some(c) => c.lock_offset,
        };
        if !is_listed_asset(&asset) {
            return Err(Error::InvalidAsset);
        }
        let tick = match tick {
            None => {
                return Err(Error::RoundNotFound);
            },
            Some(t) => t,
        };
        let strike_ts = tick.timestamp;
        let settle_ts = strike_ts + ORACLE_INTERVAL;
        let lock_ts = strike_ts + lock_offset;
        let last = self.last_strike_ts(&asset);
        if last == strike_ts {
            return Err(Error::DuplicateRound);
        }
        let id = self.counter + 1;
        let round = Round {
            id,
            asset: asset.clone(),
            strike: tick.price,
            strike_ts,
            settle_ts,
            lock_ts,
            pool_up: 0,
            pool_down: 0,
            status: Status::Open,
            outcome: Outcome::Void,
            settle_price: 0,
        };
        proof {
            assert forall|i: int| 0 <= i < old_state.stakes.len() implies #[trigger] old_state.stakes[i].position.round_id
                != id by {}
            lemma_side_total_absent(old_state.stakes, id, Side::Up);
            lemma_side_total_absent(old_state.stakes, id, Side::Down);
        }
        self.rounds.push(round);
        self.counter = id;
        match self.find_strike(&asset) {
            Some(i) => {
                proof {
                    let c = choose|j: int|
                        0 <= j < old_state.strikes.len() && old_state.strikes[j].asset@ == asset@;
                    assert(c == i as int);
                }
                let old_asset = self.strikes[i].asset.clone();
                self.strikes.set(i, AssetStrike { asset: old_asset, strike_ts });
            },
            None => {
                self.strikes.push(AssetStrike { asset, strike_ts });
            },
        }
        proof {
            let m = self@;
            assert(m.rounds =~= old_state.rounds.push(old_state.new_round(asset, tick)));
            assert forall|i: int, j: int|
                0 <= i < m.strikes.len() && 0 <= j < m.strikes.len() && i != j
                    implies #[trigger] m.strikes[i].asset@ != #[trigger] m.strikes[j].asset@ by {
                if i < old_state.strikes.len() && j < old_state.strikes.len() {
                    assert(m.strikes[i].asset@ == old_state.strikes[i].asset@);
                    assert(m.strikes[j].asset@ == old_state.strikes[j].asset@);
                }
            }
            assert forall|i: int| 0 <= i < m.rounds.len() implies {
                let r = #[trigger] m.rounds[i];
                &&& r.pool_up == side_total(m.stakes, r.id, Side::Up)
                &&& r.pool_down == side_total(m.stakes, r.id, Side::Down)
            } by {
                if i < old_state.rounds.len() {
                    assert(m.rounds[i] == old_state.rounds[i]);
                }
            }
        }
        Ok(id)
    }

    /// Places `user`'s bet of `amount` on `side` in round `round_id` at time
    /// `now`. On success the caller moves `amount` from the user to the
    /// market. Refuses a bet under the minimum, on an unknown round, at or
    /// after the lock time or once settled, and a second bet by the same
    /// user in the same round.
    pub fn bet(&mut self, user: String, round_id: u64, side: Side, amount: i128, now: u64) -> (r:
        Result<(), Error>)
        requires
            old(self)@.wf(),
            old(self)@.bet_error(user@, round_id, amount, now) is None ==> amount >= 0 && fits_i128(
                pool_of(old(self)@.rounds[round_id - 1], side) + amount,
            ),
        ensures
            final(self)@.wf(),
            match old(self)@.bet_error(user@, round_id, amount, now) {
                Some(e) => r == Err::<(), Error>(e) && final(self)@ == old(self)@,
                None => r == Ok::<(), Error>(()) && final(self)@ == old(self)@.after_bet(
                    user,
                    round_id,
                    side,
                    amount,
                ),
            },
    {
        let ghost old_state = self@;
        let min_bet = match &self.config {
            None => {
                return Err(Error::NotInitialized);
            },
            Some(c) => c.min_bet,
        };
        if amount < min_bet {
            return Err(Error::BetTooSmall);
        }
        if round_id == 0 || round_id > self.counter {
            return Err(Error::RoundNotFound);
        }
        let n = self.rounds.len();
        proof {
            assert(n == self.counter);
        }
        let idx = (round_id - 1) as usize;
        let mut round = copy_round(&self.rounds[idx]);
        proof {
            assert(idx as int == round_id - 1);
            assert(round == old_state.round(round_id).unwrap());
        }
        if now >= round.lock_ts {
            return Err(Error::RoundLocked);
        }
        if round.status != Status::Open {
            return Err(Error::RoundLocked);
        }
        if self.find_stake(round_id, &user).is_some() {
            return Err(Error::AlreadyBet);
        }
        match side {
            Side::Up => {
                round.pool_up = round.pool_up + amount;
            },
            Side::Down => {
                round.pool_down = round.pool_down + amount;
            },
        }
        self.rounds.set(idx, round);
        let stake = Stake {
            user,
            position: Position { round_id, side, amount, claimed: false },
        };
        proof {
            let m0 = old_state;
            assert forall|i: int| 0 <= i < m0.stakes.len() implies !(
            #[trigger] m0.stakes[i].position.round_id == round_id && m0.stakes[i].user@ == stake.user@) by {
                if m0.stakes[i].position.round_id == round_id && m0.stakes[i].user@ == stake.user@ {
                    assert(stake_is(m0.stakes, i, round_id, stake.user@));
                }
            }
        }
        self.stakes.push(stake);
        proof {
            let m0 = old_state;
            let m = self@;
            assert(m.stakes =~= m0.stakes.push(stake));
            assert forall|i: int| 0 <= i < m.rounds.len() implies {
                let r = #[trigger] m.rounds[i];
                &&& r.pool_up == side_total(m.stakes, r.id, Side::Up)
                &&& r.pool_down == side_total(m.stakes, r.id, Side::Down)
            } by {
                lemma_side_total_push(m0.stakes, stake, m.rounds[i].id, Side::Up);
                lemma_side_total_push(m0.stakes, stake, m.rounds[i].id, Side::Down);
            }
            assert forall|i: int| 0 <= i < m.stakes.len() implies {
                let p = #[trigger] m.stakes[i].position;
                &&& 1 <= p.round_id <= m.counter
                &&& p.amount >= 0
            } by {
                if i < m0.stakes.len() {
                    assert(m.stakes[i] == m0.stakes[i]);
                }
            }
            assert forall|i: int, j: int|
                0 <= i < m.stakes.len() && 0 <= j < m.stakes.len() && i != j
                    implies #[trigger] m.stakes[i].position.round_id
                    != #[trigger] m.stakes[j].position.round_id || m.stakes[i].user@
                    != m.stakes[j].user@ by {
                if i < m0.stakes.len() && j < m0.stakes.len() {
                    assert(m.stakes[i] == m0.stakes[i]);
                    assert(m.stakes[j] == m0.stakes[j]);
                } else if i < m0.stakes.len() {
                    assert(m.stakes[i] == m0.stakes[i]);
                } else {
                    assert(m.stakes[j] == m0.stakes[j]);
                }
            }
        }
        Ok(())
    }
}


impl FairMarket {
    /// Whether round `round_id` can be settled at time `now`, decided
    /// before the oracle is asked: the error `settle` would give, if any.
    pub fn settle_check(&self, round_id: u64, now: u64) -> (r: Result<(), Error>)
        requires
            self@.wf(),
        ensures
            match self@.settle_error(round_id, now) {
                Some(e) => r == Err::<(), Error>(e),
                None => r == Ok::<(), Error>(()),
            },
    {
        if self.config.is_none() {
            return Err(Error::NotInitialized);
        }
        if round_id == 0 || round_id > self.counter {
            return Err(Error::RoundNotFound);
        }
        proof {
            assert(self.rounds.len() == self.counter);
        }
        let round = &self.rounds[(round_id - 1) as usize];
        proof {
            assert(self@.round(round_id) == Some(*round));
        }
        if round.status == Status::Settled {
            return Err(Error::AlreadySettled);
        }
        if now < round.settle_ts {
            return Err(Error::TooEarly);
        }
        Ok(())
    }

    /// Settles round `round_id` at time `now` on `price`, the oracle's
    /// answer for the round's asset at exactly `settle_ts` (never its
    /// latest price). The round is void on an oracle gap, an exact tie or
    /// an empty pool; otherwise the side the price moved to wins and the
    /// fee on the whole pot is collected.
    pub fn settle(&mut self, round_id: u64, now: u64, price: Option<PriceData>) -> (r: Result<
        (),
        Error,
    >)
        requires
            old(self)@.wf(),
            old(self)@.settle_ok(round_id, now, price),
        ensures
            final(self)@.wf(),
            match old(self)@.settle_error(round_id, now) {
                Some(e) => r == Err::<(), Error>(e) && final(self)@ == old(self)@,
                None => r == Ok::<(), Error>(()) && final(self)@ == old(self)@.after_settle(
                    round_id,
                    price,
                ),
            },
    {
        let ghost old_state = self@;
        let fee_bps = match &self.config {
            None => {
                return Err(Error::NotInitialized);
            },
            Some(c) => c.fee_bps,
        };
        if round_id == 0 || round_id > self.counter {
            return Err(Error::RoundNotFound);
        }
        let n = self.rounds.len();
        proof {
            assert(n == self.counter);
        }
        let idx = (round_id - 1) as usize;
        let mut round = copy_round(&self.rounds[idx]);
        let ghost old_round = round;
        if round.status == Status::Settled {
            return Err(Error::AlreadySettled);
        }
        if now < round.settle_ts {
            return Err(Error::TooEarly);
        }
        let outcome = match price {
            None => Outcome::Void,
            Some(p) => {
                round.settle_price = p.price;
                if p.price > round.strike {
                    Outcome::Up
                } else if p.price < round.strike {
                    Outcome::Down
                } else {
                    Outcome::Void
                }
            },
        };
        let outcome = if round.pool_up == 0 || round.pool_down == 0 {
            Outcome::Void
        } else {
            outcome
        };
        proof {
            assert(outcome == MarketState::settle_outcome(old_round, price));
            lemma_side_total_nonneg(old_state.stakes, round_id, Side::Up);
            lemma_side_total_nonneg(old_state.stakes, round_id, Side::Down);
        }
        if outcome != Outcome::Void {
            let total = round.pool_up + round.pool_down;
            let fee = div_pos(mul_fits(total, fee_bps as i128), 10_000);
            proof {
                lemma_tdiv_bounded(total * fee_bps, 10_000);
            }
            self.fees = self.fees + fee;
        }
        round.outcome = outcome;
        round.status = Status::Settled;
        self.rounds.set(idx, round);
        proof {
            let m = self@;
            assert(m.rounds =~= old_state.rounds.update(
                round_id - 1,
                MarketState::settled_round(old_round, price),
            ));
            assert forall|i: int| 0 <= i < m.rounds.len() implies {
                let r = #[trigger] m.rounds[i];
                &&& r.status != Status::Locked
                &&& r.status == Status::Open ==> r.outcome == Outcome::Void
                &&& r.status == Status::Settled && r.outcome != Outcome::Void ==> r.pool_up > 0
                    && r.pool_down > 0
                &&& r.pool_up == side_total(m.stakes, r.id, Side::Up)
                &&& r.pool_down == side_total(m.stakes, r.id, Side::Down)
            } by {
                if i != round_id - 1 {
                    assert(m.rounds[i] == old_state.rounds[i]);
                }
            }
        }
        Ok(())
    }

    /// Pays out `user`'s position in round `round_id` once: marks it
    /// claimed and returns what it is owed; 0 for an unsettled or unknown
    /// round, a missing or already claimed position, or a losing side.
    fn compute_claim(&mut self, round_id: u64, user: &String) -> (r: i128)
        requires
            old(self)@.wf(),
            old(self)@.config is Some,
            old(self)@.claim_ok(round_id, user@),
        ensures
            final(self)@.wf(),
            r == old(self)@.claim_amount(round_id, user@),
            final(self)@ == old(self)@.after_claim(round_id, user@),
    {
        let ghost old_state = self@;
        let fee_bps = match &self.config {
            None => 0,
            Some(c) => c.fee_bps,
        };
        if round_id == 0 || round_id > self.counter {
            return 0;
        }
        let n = self.rounds.len();
        proof {
            assert(n == self.counter);
        }
        let idx = (round_id - 1) as usize;
        let round = copy_round(&self.rounds[idx]);
        if round.status != Status::Settled {
            return 0;
        }
        let k = match self.find_stake(round_id, user) {
            None => {
                return 0;
            },
            Some(k) => k,
        };
        let pos = self.stakes[k].position;
        if pos.claimed {
            return 0;
        }
        let owner = self.stakes[k].user.clone();
        let marked = Stake {
            user: owner,
            position: Position { round_id: pos.round_id, side: pos.side, amount: pos.amount, claimed: true },
        };
        proof {
            let m0 = old_state;
            assert forall|i: int| 0 <= i < m0.rounds.len() implies {
                let r = #[trigger] m0.rounds[i];
                &&& r.pool_up == side_total(m0.stakes.update(k as int, marked), r.id, Side::Up)
                &&& r.pool_down == side_total(m0.stakes.update(k as int, marked), r.id, Side::Down)
            } by {
                lemma_side_total_update(m0.stakes, k as int, marked, m0.rounds[i].id, Side::Up);
                lemma_side_total_update(m0.stakes, k as int, marked, m0.rounds[i].id, Side::Down);
            }
        }
        self.stakes.set(k, marked);
        proof {
            let m = self@;
            let m0 = old_state;
            assert(m.stakes =~= m0.stakes.update(k as int, marked));
            assert forall|i: int| 0 <= i < m.stakes.len() implies {
                let p = #[trigger] m.stakes[i].position;
                &&& 1 <= p.round_id <= m.counter
                &&& p.amount >= 0
            } by {
                if i != k {
                    assert(m.stakes[i] == m0.stakes[i]);
                }
            }
            assert forall|i: int, j: int|
                0 <= i < m.stakes.len() && 0 <= j < m.stakes.len() && i != j
                    implies #[trigger] m.stakes[i].position.round_id
                    != #[trigger] m.stakes[j].position.round_id || m.stakes[i].user@
                    != m.stakes[j].user@ by {
                assert(m0.stakes[i].position.round_id != m0.stakes[j].position.round_id
                    || m0.stakes[i].user@ != m0.stakes[j].user@);
            }
            assert(m == m0.after_claim(round_id, user@));
        }
        if round.outcome == Outcome::Void {
            return pos.amount;
        }
        let side_matches = match (pos.side, round.outcome) {
            (Side::Up, Outcome::Up) => true,
            (Side::Down, Outcome::Down) => true,
            _ => false,
        };
        if !side_matches {
            return 0;
        }
        let total = round.pool_up + round.pool_down;
        let fee = div_pos(mul_fits(total, fee_bps as i128), 10_000);
        let distributed = total - fee;
        let winning_pool = match round.outcome {
            Outcome::Up => round.pool_up,
            Outcome::Down => round.pool_down,
            Outcome::Void => {
                return pos.amount;
            },
        };
        div_pos(mul_fits(pos.amount, distributed), winning_pool)
    }

    /// Claims `user`'s payout for round `round_id`; the caller transfers a
    /// positive result to the user. A second claim, a losing position or an
    /// unsettled round yields 0 rather than an error.
    pub fn claim(&mut self, user: String, round_id: u64) -> (r: Result<i128, Error>)
        requires
            old(self)@.wf(),
            old(self)@.config is Some ==> old(self)@.claim_ok(round_id, user@),
        ensures
            final(self)@.wf(),
            old(self)@.config is None ==> r == Err::<i128, Error>(Error::NotInitialized)
                && final(self)@ == old(self)@,
            old(self)@.config is Some ==> r == Ok::<i128, Error>(
                old(self)@.claim_amount(round_id, user@) as i128,
            ) && final(self)@ == old(self)@.after_claim(round_id, user@),
    {
        if self.config.is_none() {
            return Err(Error::NotInitialized);
        }
        let payout = self.compute_claim(round_id, &user);
        Ok(payout)
    }
}

/// Claiming a prefix of a batch is within the limits whenever the batch is.
pub proof fn lemma_claims_ok_prefix(m: MarketState, user: Seq<char>, ids: Seq<u64>, k: int)
    requires
        m.claims_ok(user, ids),
        0 <= k <= ids.len(),
    ensures
        m.claims_ok(user, ids.take(k)),
    decreases ids.len(),
{
    if k == ids.len() {
        assert(ids.take(k) =~= ids);
    } else {
        lemma_claims_ok_prefix(m, user, ids.drop_last(), k);
        assert(ids.drop_last().take(k) =~= ids.take(k));
    }
}

impl FairMarket {
    /// Claims `user`'s payouts for up to 20 rounds at once and returns the
    /// total, which the caller transfers when positive. Each round pays as
    /// `claim` would; naming a round twice pays it once.
    pub fn claim_many(&mut self, user: String, round_ids: &Vec<u64>) -> (r: Result<i128, Error>)
        requires
            old(self)@.wf(),
            old(self)@.config is Some && round_ids@.len() <= MAX_CLAIM_BATCH ==> old(self)@.claims_ok(user@, round_ids@),
        ensures
            final(self)@.wf(),
            old(self)@.config is None ==> r == Err::<i128, Error>(Error::NotInitialized)
                && final(self)@ == old(self)@,
            old(self)@.config is Some && round_ids@.len() > MAX_CLAIM_BATCH ==> r == Err::<
                i128,
                Error,
            >(Error::ClaimBatchTooLarge) && final(self)@ == old(self)@,
            old(self)@.config is Some && round_ids@.len() <= MAX_CLAIM_BATCH ==> r == Ok::<
                i128,
                Error,
            >(old(self)@.after_claims(user@, round_ids@).1 as i128) && final(self)@ == old(self)@.after_claims(user@, round_ids@).0,
    {
        let ghost old_state = self@;
        if self.config.is_none() {
            return Err(Error::NotInitialized);
        }
        if round_ids.len() > MAX_CLAIM_BATCH {
            return Err(Error::ClaimBatchTooLarge);
        }
        let mut total: i128 = 0;
        let mut i: usize = 0;
        while i < round_ids.len()
            invariant
                i <= round_ids@.len(),
                self@.wf(),
                self@.config is Some,
                old_state.claims_ok(user@, round_ids@),
                (self@, total as int) == old_state.after_claims(user@, round_ids@.take(i as int)),
            decreases round_ids@.len() - i,
        {
            let id = round_ids[i];
            proof {
                lemma_claims_ok_prefix(old_state, user@, round_ids@, i + 1);
                let pre = round_ids@.take(i + 1);
                assert(pre.drop_last() =~= round_ids@.take(i as int));
                assert(pre.last() == id);
            }
            let p = self.compute_claim(id, &user);
            total = total + p;
            proof {
                let pre = round_ids@.take(i + 1);
                assert(pre.drop_last() =~= round_ids@.take(i as int));
            }
            i = i + 1;
        }
        proof {
            assert(round_ids@.take(i as int) =~= round_ids@);
        }
        Ok(total)
    }

    /// The round `round_id` as seen at time `now`: an open round past its
    /// lock time is reported as `Locked`.
    pub fn get_round(&self, round_id: u64, now: u64) -> (r: Result<Round, Error>)
        requires
            self@.wf(),
        ensures
            match self@.round(round_id) {
                None => r == Err::<Round, Error>(Error::RoundNotFound),
                Some(round) => r == Ok::<Round, Error>(
                    Round { status: reported_status(round, now), ..round },
                ),
            },
    {
        if round_id == 0 || round_id > self.counter {
            return Err(Error::RoundNotFound);
        }
        let n = self.rounds.len();
        proof {
            assert(n == self.counter);
        }
        let mut round = copy_round(&self.rounds[(round_id - 1) as usize]);
        if round.status == Status::Open && now >= round.lock_ts {
            round.status = Status::Locked;
        }
        Ok(round)
    }

    /// `user`'s position in round `round_id`, if any.
    pub fn get_position(&self, round_id: u64, user: &String) -> (r: Option<Position>)
        requires
            self@.wf(),
        ensures
            r == self@.position(round_id, user@),
    {
        match self.find_stake(round_id, user) {
            Some(k) => Some(self.stakes[k].position),
            None => None,
        }
    }

    /// The configuration.
    pub fn get_config(&self) -> (r: Result<Config, Error>)
        ensures
            match self@.config {
                None => r == Err::<Config, Error>(Error::NotInitialized),
                Some(c) => r == Ok::<Config, Error>(c),
            },
    {
        match &self.config {
            None => Err(Error::NotInitialized),
            Some(c) => Ok(copy_config(c)),
        }
    }

    /// Sets the fee rate; refuses more than 5%.
    pub fn set_fee_bps(&mut self, bps: u32) -> (r: Result<(), Error>)
        requires
            old(self)@.wf(),
        ensures
            final(self)@.wf(),
            old(self)@.config is None ==> r == Err::<(), Error>(Error::NotInitialized)
                && final(self)@ == old(self)@,
            old(self)@.config is Some && bps > MAX_FEE_BPS ==> r == Err::<(), Error>(
                Error::FeeTooHigh,
            ) && final(self)@ == old(self)@,
            old(self)@.config is Some && bps <= MAX_FEE_BPS ==> r == Ok::<(), Error>(())
                && final(self)@ == (MarketState {
                config: Some(Config { fee_bps: bps, ..old(self)@.config.unwrap() }),
                ..old(self)@
            }),
    {
        match &self.config {
            None => Err(Error::NotInitialized),
            Some(c) => {
                if bps > MAX_FEE_BPS {
                    return Err(Error::FeeTooHigh);
                }
                let mut c2 = copy_config(c);
                c2.fee_bps = bps;
                self.config = Some(c2);
                Ok(())
            },
        }
    }

    /// Sets the betting window after the strike; refuses under 90 seconds.
    pub fn set_lock_offset(&mut self, seconds: u64) -> (r: Result<(), Error>)
        requires
            old(self)@.wf(),
        ensures
            final(self)@.wf(),
            old(self)@.config is None ==> r == Err::<(), Error>(Error::NotInitialized)
                && final(self)@ == old(self)@,
            old(self)@.config is Some && seconds < MIN_LOCK_OFFSET ==> r == Err::<(), Error>(
                Error::LockOffsetTooSmall,
            ) && final(self)@ == old(self)@,
            old(self)@.config is Some && seconds >= MIN_LOCK_OFFSET ==> r == Ok::<(), Error>(())
                && final(self)@ == (MarketState {
                config: Some(Config { lock_offset: seconds, ..old(self)@.config.unwrap() }),
                ..old(self)@
            }),
    {
        match &self.config {
            None => Err(Error::NotInitialized),
            Some(c) => {
                if seconds < MIN_LOCK_OFFSET {
                    return Err(Error::LockOffsetTooSmall);
                }
                let mut c2 = copy_config(c);
                c2.lock_offset = seconds;
                self.config = Some(c2);
                Ok(())
            },
        }
    }

    /// Empties the fee accumulator and returns what it held; the caller
    /// transfers a positive amount to the admin.
    pub fn sweep_fees(&mut self) -> (r: Result<i128, Error>)
        requires
            old(self)@.wf(),
        ensures
            final(self)@.wf(),
            old(self)@.config is None ==> r == Err::<i128, Error>(Error::NotInitialized)
                && final(self)@ == old(self)@,
            old(self)@.config is Some ==> r == Ok::<i128, Error>(old(self)@.fees) && final(self)@ == (MarketState { fees: 0, ..old(self)@ }),
    {
        if self.config.is_none() {
            return Err(Error::NotInitialized);
        }
        let fees = self.fees;
        if fees > 0 {
            self.fees = 0;
        }
        Ok(fees)
    }
}


/// The market's storage laid out for saving between calls.
pub struct MarketParts {
    pub config: Option<Config>,
    pub counter: u64,
    pub fees: i128,
    pub strikes: Vec<AssetStrike>,
    pub rounds: Vec<Round>,
    pub stakes: Vec<Stake>,
}

impl MarketParts {
    /// The storage these parts describe.
    pub open spec fn state(&self) -> MarketState {
        MarketState {
            config: self.config,
            counter: self.counter,
            fees: self.fees,
            strikes: self.strikes@,
            rounds: self.rounds@,
            stakes: self.stakes@,
        }
    }
}

/// What stake `k` adds to the total of `side` in round `round_id`.
pub open spec fn stake_part(stakes: Seq<Stake>, k: int, round_id: u64, side: Side) -> int {
    let p = stakes[k].position;
    if p.round_id == round_id && p.side == side {
        p.amount as int
    } else {
        0
    }
}

/// Adding one more stake to a prefix adds its part.
proof fn lemma_side_total_step(stakes: Seq<Stake>, round_id: u64, side: Side, i: int)
    requires
        0 <= i < stakes.len(),
    ensures
        side_total(stakes.take(i + 1), round_id, side) == side_total(stakes.take(i), round_id, side)
            + stake_part(stakes, i, round_id, side),
{
    assert(stakes.take(i + 1).drop_last() =~= stakes.take(i));
}

/// With no negative stake, a prefix never totals more than the whole.
proof fn lemma_side_total_prefix(stakes: Seq<Stake>, round_id: u64, side: Side, i: int)
    requires
        0 <= i <= stakes.len(),
        forall|k: int| 0 <= k < stakes.len() ==> #[trigger] stakes[k].position.amount >= 0,
    ensures
        side_total(stakes.take(i), round_id, side) <= side_total(stakes, round_id, side),
    decreases stakes.len() - i,
{
    if i < stakes.len() {
        lemma_side_total_step(stakes, round_id, side, i);
        lemma_side_total_prefix(stakes, round_id, side, i + 1);
    } else {
        assert(stakes.take(i) =~= stakes);
    }
}

/// Adds up the stakes on `side` in round `round_id`; `None` when the sum
/// does not fit in `i128`.
fn stake_sum(stakes: &Vec<Stake>, round_id: u64, side: Side) -> (r: Option<i128>)
    requires
        forall|k: int| 0 <= k < stakes@.len() ==> #[trigger] stakes@[k].position.amount >= 0,
    ensures
        match r {
            Some(x) => x == side_total(stakes@, round_id, side),
            None => side_total(stakes@, round_id, side) > i128::MAX,
        },
{
    let mut acc: i128 = 0;
    let mut i: usize = 0;
    while i < stakes.len()
        invariant
            i <= stakes@.len(),
            acc == side_total(stakes@.take(i as int), round_id, side),
            forall|k: int| 0 <= k < stakes@.len() ==> #[trigger] stakes@[k].position.amount >= 0,
        decreases stakes@.len() - i,
    {
        proof {
            lemma_side_total_step(stakes@, round_id, side, i as int);
        }
        let p = &stakes[i].position;
        if p.round_id == round_id && p.side == side {
            match acc.checked_add(p.amount) {
                Some(v) => {
                    acc = v;
                },
                None => {
                    proof {
                        lemma_side_total_prefix(stakes@, round_id, side, i + 1);
                    }
                    return None;
                },
            }
        }
        i = i + 1;
    }
    proof {
        assert(stakes@.take(i as int) =~= stakes@);
    }
    Some(acc)
}

/// Round `k` meets the storage invariant against the stakes.
pub open spec fn round_fits(m: MarketState, k: int) -> bool {
    let r = m.rounds[k];
    &&& r.id == k + 1
    &&& r.status != Status::Locked
    &&& r.status == Status::Open ==> r.outcome == Outcome::Void
    &&& r.status == Status::Settled && r.outcome != Outcome::Void ==> r.pool_up > 0 && r.pool_down
        > 0
    &&& r.pool_up == side_total(m.stakes, r.id, Side::Up)
    &&& r.pool_down == side_total(m.stakes, r.id, Side::Down)
}

impl FairMarket {
    /// Whether the storage meets its invariant.
    fn check_wf(&self) -> (r: bool)
        ensures
            r == self@.wf(),
    {
        let ghost m = self@;
        match &self.config {
            None => {
                return self.counter == 0 && self.fees == 0 && self.rounds.len() == 0
                    && self.stakes.len() == 0 && self.strikes.len() == 0;
            },
            Some(c) => {
                if c.fee_bps > MAX_FEE_BPS || c.lock_offset < MIN_LOCK_OFFSET {
                    return false;
                }
            },
        }
        if self.fees < 0 {
            return false;
        }
        let n_rounds: usize = self.rounds.len();
        if n_rounds as u64 != self.counter {
            return false;
        }
        let n: usize = self.stakes.len();
        let mut i: usize = 0;
        while i < n
            invariant
                m == self@,
                n == m.stakes.len(),
                i <= n,
                forall|k: int|
                    0 <= k < i ==> {
                        let p = #[trigger] m.stakes[k].position;
                        &&& 1 <= p.round_id <= m.counter
                        &&& p.amount >= 0
                    },
            decreases n - i,
        {
            let p = &self.stakes[i].position;
            if p.round_id < 1 || p.round_id > self.counter || p.amount < 0 {
                proof {
                    assert(!{
                        let p = m.stakes[i as int].position;
                        &&& 1 <= p.round_id <= m.counter
                        &&& p.amount >= 0
                    });
                }
                return false;
            }
            i = i + 1;
        }
        let mut i: usize = 0;
        while i < n
            invariant
                m == self@,
                n == m.stakes.len(),
                i <= n,
                forall|a: int, b: int|
                    0 <= a < i && 0 <= b < n && a != b ==> #[trigger] m.stakes[a].position.round_id
                        != #[trigger] m.stakes[b].position.round_id || m.stakes[a].user@
                        != m.stakes[b].user@,
            decreases n - i,
        {
            let mut j: usize = 0;
            while j < n
                invariant
                    m == self@,
                    n == m.stakes.len(),
                    i < n,
                    j <= n,
                    forall|b: int|
                        0 <= b < j && b != i ==> m.stakes[i as int].position.round_id
                            != #[trigger] m.stakes[b].position.round_id || m.stakes[i as int].user@
                            != m.stakes[b].user@,
                decreases n - j,
            {
                if j != i && self.stakes[i].position.round_id == self.stakes[j].position.round_id
                    && self.stakes[i].user == self.stakes[j].user {
                    proof {
                        assert(m.stakes[i as int].position.round_id
                            == m.stakes[j as int].position.round_id);
                    }
                    return false;
                }
                j = j + 1;
            }
            proof {
                assert forall|a: int, b: int|
                    0 <= a < i + 1 && 0 <= b < n && a != b implies #[trigger] m.stakes[a].position.round_id
                    != #[trigger] m.stakes[b].position.round_id || m.stakes[a].user@
                    != m.stakes[b].user@ by {
                    if a == i {
                        assert(m.stakes[i as int].position.round_id
                            != m.stakes[b].position.round_id || m.stakes[i as int].user@
                            != m.stakes[b].user@);
                    }
                }
            }
            i = i + 1;
        }
        let ns: usize = self.strikes.len();
        let mut i: usize = 0;
        while i < ns
            invariant
                m == self@,
                ns == m.strikes.len(),
                i <= ns,
                forall|a: int, b: int|
                    0 <= a < i && 0 <= b < ns && a != b ==> #[trigger] m.strikes[a].asset@
                        != #[trigger] m.strikes[b].asset@,
            decreases ns - i,
        {
            let mut j: usize = 0;
            while j < ns
                invariant
                    m == self@,
                    ns == m.strikes.len(),
                    i < ns,
                    j <= ns,
                    forall|b: int|
                        0 <= b < j && b != i ==> m.strikes[i as int].asset@
                            != #[trigger] m.strikes[b].asset@,
                decreases ns - j,
            {
                if j != i && self.strikes[i].asset == self.strikes[j].asset {
                    proof {
                        assert(m.strikes[i as int].asset@ == m.strikes[j as int].asset@);
                    }
                    return false;
                }
                j = j + 1;
            }
            proof {
                assert forall|a: int, b: int|
                    0 <= a < i + 1 && 0 <= b < ns && a != b implies #[trigger] m.strikes[a].asset@
                    != #[trigger] m.strikes[b].asset@ by {
                    if a == i {
                        assert(m.strikes[i as int].asset@ != m.strikes[b].asset@);
                    }
                }
            }
            i = i + 1;
        }
        proof {
            assert forall|k: int| 0 <= k < self.stakes@.len() implies #[trigger] self.stakes@[k].position.amount >= 0 by {
                assert(m.stakes[k] == self.stakes@[k]);
            }
        }
        let mut i: usize = 0;
        while i < n_rounds
            invariant
                m == self@,
                n_rounds == m.rounds.len(),
                n_rounds == m.counter,
                i <= n_rounds,
                forall|k: int| 0 <= k < self.stakes@.len() ==> #[trigger] self.stakes@[k].position.amount >= 0,
                forall|k: int| 0 <= k < i ==> #[trigger] round_fits(m, k),
            decreases n_rounds - i,
        {
            let r = &self.rounds[i];
            let id: u64 = (i as u64) + 1;
            if r.id != id || r.status == Status::Locked || (r.status == Status::Open && r.outcome
                != Outcome::Void) || (r.status == Status::Settled && r.outcome != Outcome::Void && (
            r.pool_up <= 0 || r.pool_down <= 0)) {
                proof {
                    assert(!round_fits(m, i as int));
                }
                return false;
            }
            let up_ok = match stake_sum(&self.stakes, r.id, Side::Up) {
                Some(x) => x == r.pool_up,
                None => false,
            };
            let down_ok = match stake_sum(&self.stakes, r.id, Side::Down) {
                Some(x) => x == r.pool_down,
                None => false,
            };
            if !up_ok || !down_ok {
                proof {
                    assert(!round_fits(m, i as int));
                }
                return false;
            }
            proof {
                assert(round_fits(m, i as int));
            }
            i = i + 1;
        }
        proof {
            assert forall|k: int| 0 <= k < m.rounds.len() implies #[trigger] m.rounds[k].id == k + 1 by {
                assert(round_fits(m, k));
            }
            assert forall|k: int| 0 <= k < m.rounds.len() implies {
                let r = #[trigger] m.rounds[k];
                &&& r.status != Status::Locked
                &&& r.status == Status::Open ==> r.outcome == Outcome::Void
                &&& r.status == Status::Settled && r.outcome != Outcome::Void ==> r.pool_up > 0
                    && r.pool_down > 0
                &&& r.pool_up == side_total(m.stakes, r.id, Side::Up)
                &&& r.pool_down == side_total(m.stakes, r.id, Side::Down)
            } by {
                assert(round_fits(m, k));
            }
        }
        true
    }

    /// Rebuilds a market from saved parts; `None` when the parts break the
    /// storage invariant.
    pub fn from_parts(parts: MarketParts) -> (r: Option<FairMarket>)
        ensures
            r is Some <==> parts.state().wf(),
            match r {
                Some(m) => m@ == parts.state(),
                None => true,
            },
    {
        let m = FairMarket {
            config: parts.config,
            counter: parts.counter,
            fees: parts.fees,
            strikes: parts.strikes,
            rounds: parts.rounds,
            stakes: parts.stakes,
        };
        if m.check_wf() {
            Some(m)
        } else {
            None
        }
    }

    /// Hands over the market's storage for saving.
    pub fn into_parts(self) -> (r: MarketParts)
        ensures
            r.state() == self@,
    {
        MarketParts {
            config: self.config,
            counter: self.counter,
            fees: self.fees,
            strikes: self.strikes,
            rounds: self.rounds,
            stakes: self.stakes,
        }
    }
}


impl FairMarket {
    /// A copy of the market's storage.
    fn duplicate(&self) -> (r: FairMarket)
        ensures
            r@ == self@,
    {
        let config = match &self.config {
            None => None,
            Some(c) => Some(copy_config(c)),
        };
        let mut strikes: Vec<AssetStrike> = Vec::new();
        let mut i: usize = 0;
        while i < self.strikes.len()
            invariant
                i <= self.strikes@.len(),
                strikes@ == self.strikes@.take(i as int),
            decreases self.strikes@.len() - i,
        {
            strikes.push(
                AssetStrike { asset: self.strikes[i].asset.clone(), strike_ts: self.strikes[i].strike_ts },
            );
            i = i + 1;
            proof {
                assert(strikes@ =~= self.strikes@.take(i as int));
            }
        }
        let mut rounds: Vec<Round> = Vec::new();
        let mut i: usize = 0;
        while i < self.rounds.len()
            invariant
                i <= self.rounds@.len(),
                rounds@ == self.rounds@.take(i as int),
            decreases self.rounds@.len() - i,
        {
            rounds.push(copy_round(&self.rounds[i]));
            i = i + 1;
            proof {
                assert(rounds@ =~= self.rounds@.take(i as int));
            }
        }
        let mut stakes: Vec<Stake> = Vec::new();
        let mut i: usize = 0;
        while i < self.stakes.len()
            invariant
                i <= self.stakes@.len(),
                stakes@ == self.stakes@.take(i as int),
            decreases self.stakes@.len() - i,
        {
            stakes.push(Stake { user: self.stakes[i].user.clone(), position: self.stakes[i].position });
            i = i + 1;
            proof {
                assert(stakes@ =~= self.stakes@.take(i as int));
            }
        }
        proof {
            assert(strikes@ =~= self.strikes@);
            assert(rounds@ =~= self.rounds@);
            assert(stakes@ =~= self.stakes@);
        }
        FairMarket { config, counter: self.counter, fees: self.fees, strikes, rounds, stakes }
    }

    /// Whether `create_round` stays within machine arithmetic on these
    /// inputs; where it does not, opening the round would overflow.
    pub fn create_round_fits(&self, asset: &String, tick: Option<PriceData>) -> (r: bool)
        ensures
            r == self@.create_round_ok(asset@, tick),
    {
        let lock_offset = match &self.config {
            None => {
                return true;
            },
            Some(c) => c.lock_offset,
        };
        let t = match tick {
            None => {
                return true;
            },
            Some(t) => t,
        };
        if !is_listed_asset(asset) {
            return true;
        }
        t.timestamp.checked_add(ORACLE_INTERVAL).is_some() && t.timestamp.checked_add(
            lock_offset,
        ).is_some() && self.counter < u64::MAX
    }

    /// Whether `bet` stays within machine arithmetic on these inputs: an
    /// accepted bet is not negative and leaves its pool within `i128`.
    pub fn bet_fits(&self, user: &String, round_id: u64, side: Side, amount: i128, now: u64) -> (r:
        bool)
        requires
            self@.wf(),
        ensures
            r == (self@.bet_error(user@, round_id, amount, now) is None ==> amount >= 0
                && fits_i128(pool_of(self@.rounds[round_id - 1], side) + amount)),
    {
        let min_bet = match &self.config {
            None => {
                return true;
            },
            Some(c) => c.min_bet,
        };
        let n_rounds: usize = self.rounds.len();
        proof {
            assert(n_rounds == self.counter);
        }
        if amount < min_bet || round_id == 0 || round_id > self.counter {
            return true;
        }
        let round = &self.rounds[(round_id - 1) as usize];
        if now >= round.lock_ts || round.status != Status::Open {
            return true;
        }
        if self.find_stake(round_id, user).is_some() {
            return true;
        }
        let pool = match side {
            Side::Up => round.pool_up,
            Side::Down => round.pool_down,
        };
        amount >= 0 && pool.checked_add(amount).is_some()
    }

    /// Whether `settle` stays within machine arithmetic on these inputs:
    /// the pot, its fee and the fee total of a decided round fit in `i128`.
    pub fn settle_fits(&self, round_id: u64, now: u64, price: Option<PriceData>) -> (r: bool)
        requires
            self@.wf(),
        ensures
            r == self@.settle_ok(round_id, now, price),
    {
        let fee_bps = match &self.config {
            None => {
                return true;
            },
            Some(c) => c.fee_bps,
        };
        if round_id == 0 || round_id > self.counter {
            return true;
        }
        let n_rounds: usize = self.rounds.len();
        proof {
            assert(n_rounds == self.counter);
        }
        let round = &self.rounds[(round_id - 1) as usize];
        if round.status == Status::Settled || now < round.settle_ts {
            return true;
        }
        if round.pool_up == 0 || round.pool_down == 0 {
            return true;
        }
        let decided = match price {
            None => false,
            Some(p) => p.price != round.strike,
        };
        if !decided {
            return true;
        }
        let total = match round.pool_up.checked_add(round.pool_down) {
            None => {
                return false;
            },
            Some(t) => t,
        };
        let product = match total.checked_mul(fee_bps as i128) {
            None => {
                return false;
            },
            Some(x) => x,
        };
        let fee = div_pos(product, 10_000);
        self.fees.checked_add(fee).is_some()
    }

    /// Whether `claim` stays within machine arithmetic on these inputs.
    pub fn claim_fits(&self, round_id: u64, user: &String) -> (r: bool)
        requires
            self@.wf(),
        ensures
            r == (self@.config is Some ==> self@.claim_ok(round_id, user@)),
    {
        let fee_bps = match &self.config {
            None => {
                return true;
            },
            Some(c) => c.fee_bps,
        };
        if round_id == 0 || round_id > self.counter {
            return true;
        }
        let n_rounds: usize = self.rounds.len();
        proof {
            assert(n_rounds == self.counter);
        }
        let round = &self.rounds[(round_id - 1) as usize];
        if round.status != Status::Settled {
            return true;
        }
        let k = match self.find_stake(round_id, user) {
            None => {
                return true;
            },
            Some(k) => k,
        };
        let pos = self.stakes[k].position;
        if pos.claimed || round.outcome == Outcome::Void {
            return true;
        }
        let won = (pos.side == Side::Up && round.outcome == Outcome::Up) || (pos.side == Side::Down
            && round.outcome == Outcome::Down);
        if !won {
            return true;
        }
        let total = match round.pool_up.checked_add(round.pool_down) {
            None => {
                return false;
            },
            Some(t) => t,
        };
        let product = match total.checked_mul(fee_bps as i128) {
            None => {
                return false;
            },
            Some(x) => x,
        };
        let fee = div_pos(product, 10_000);
        let distributed = match total.checked_sub(fee) {
            None => {
                return false;
            },
            Some(d) => d,
        };
        pos.amount.checked_mul(distributed).is_some()
    }

    /// Whether `claim_many` stays within machine arithmetic on these
    /// inputs, the running total included.
    pub fn claims_fit(&self, user: &String, round_ids: &Vec<u64>) -> (r: bool)
        requires
            self@.wf(),
        ensures
            r == (self@.config is Some && round_ids@.len() <= MAX_CLAIM_BATCH ==> self@.claims_ok(
                user@,
                round_ids@,
            )),
    {
        if self.config.is_none() || round_ids.len() > MAX_CLAIM_BATCH {
            return true;
        }
        let ghost start = self@;
        let mut scratch = self.duplicate();
        let mut total: i128 = 0;
        let mut i: usize = 0;
        while i < round_ids.len()
            invariant
                i <= round_ids@.len(),
                scratch@.wf(),
                scratch@.config is Some,
                start == self@,
                start.config is Some,
                round_ids@.len() <= MAX_CLAIM_BATCH,
                start.claims_ok(user@, round_ids@.take(i as int)),
                (scratch@, total as int) == start.after_claims(user@, round_ids@.take(i as int)),
            decreases round_ids@.len() - i,
        {
            let id = round_ids[i];
            let ghost pre = round_ids@.take(i + 1);
            proof {
                assert(pre.drop_last() =~= round_ids@.take(i as int));
                assert(pre.last() == id);
            }
            if !scratch.claim_fits(id, user) {
                proof {
                    assert(!start.claims_ok(user@, pre));
                    if start.claims_ok(user@, round_ids@) {
                        lemma_claims_ok_prefix(start, user@, round_ids@, i + 1);
                    }
                }
                return false;
            }
            let ghost before = scratch@;
            let p = scratch.compute_claim(id, user);
            match total.checked_add(p) {
                None => {
                    proof {
                        assert(p == before.claim_amount(id, user@));
                        assert(!start.claims_ok(user@, pre));
                        if start.claims_ok(user@, round_ids@) {
                            lemma_claims_ok_prefix(start, user@, round_ids@, i + 1);
                        }
                    }
                    return false;
                },
                Some(t) => {
                    total = t;
                },
            }
            i = i + 1;
        }
        proof {
            assert(round_ids@.take(i as int) =~= round_ids@);
        }
        true
    }
}

} // verus!
