//! The single-asset time-weighted market.
//!
//! Rounds are opened on the oracle's latest tick for the configured asset;
//! each bet earns boosted shares, its stake times the seconds left until
//! the lock. When a side wins, the fee is taken from the losing pool only
//! and the rest is shared out by the Ninetails rule: winners get their
//! stake back plus 70% by boosted shares within their side, and every
//! bettor gets a share of the other 30% by boosted shares. Void rounds
//! (oracle gap, exact tie, empty pool) refund every stake in full.
//!
//! Storage is held as a value; the caller supplies the ledger time and the
//! oracle readings, and moves the tokens each operation calls for.
use vstd::prelude::*;
use crate::division::{div_pos, fits_i128, lemma_tdiv_bounded};
use crate::ninetails::{
    boosted, boosted_shares, fee_amount, loser_payout, loser_payout_fits, loser_payout_ok,
    loser_total, losing_fee, remaining, winner_payout, winner_payout_fits, winner_payout_ok,
    winner_total,
};

verus! {

/// Highest fee the admin can set, in basis points (5%).
pub const MAX_FEE_BPS: u32 = 500;

/// Smallest allowed betting window after the strike, in seconds.
pub const MIN_LOCK_OFFSET: u64 = 10;

/// Side of a bet.
#[derive(Clone, Copy, PartialEq, Eq, Debug, Structural)]
pub enum Side {
    Above,
    Below,
}

/// Result of a settled round.
#[derive(Clone, Copy, PartialEq, Eq, Debug, Structural)]
pub enum Outcome {
    Above,
    Below,
    Void,
}

/// Round status; `Locked` is only ever reported, never stored.
#[derive(Clone, Copy, PartialEq, Eq, Debug, Structural)]
pub enum Status {
    Open,
    Locked,
    Settled,
}

/// Contract errors; `code` gives the number each one carries on chain.
#[derive(Clone, Copy, PartialEq, Eq, Debug, Structural)]
pub enum Error {
    AlreadyInitialized,
    NotInitialized,
    RoundNotFound,
    RoundLocked,
    RoundNotSettled,
    AlreadySettled,
    TooEarly,
    BetTooSmall,
    AlreadyBet,
    NothingToClaim,
    FeeTooHigh,
    LockOffsetTooSmall,
    Unauthorized,
    DuplicateRound,
    OracleNoPrice,
    /// The lock would not fall strictly before settlement.
    LockOffsetTooLate,
}

impl Error {
    /// The error's numeric code.
    pub fn code(&self) -> (r: u32)
        ensures
            r == match *self {
                Error::AlreadyInitialized => 1u32,
                Error::NotInitialized => 2,
                Error::RoundNotFound => 3,
                Error::RoundLocked => 4,
                Error::RoundNotSettled => 5,
                Error::AlreadySettled => 6,
                Error::TooEarly => 7,
                Error::BetTooSmall => 8,
                Error::AlreadyBet => 9,
                Error::NothingToClaim => 10,
                Error::FeeTooHigh => 11,
                Error::LockOffsetTooSmall => 12,
                Error::Unauthorized => 13,
                Error::DuplicateRound => 14,
                Error::OracleNoPrice => 15,
                Error::LockOffsetTooLate => 16,
            },
    {
        match self {
            Error::AlreadyInitialized => 1,
            Error::NotInitialized => 2,
            Error::RoundNotFound => 3,
            Error::RoundLocked => 4,
            Error::RoundNotSettled => 5,
            Error::AlreadySettled => 6,
            Error::TooEarly => 7,
            Error::BetTooSmall => 8,
            Error::AlreadyBet => 9,
            Error::NothingToClaim => 10,
            Error::FeeTooHigh => 11,
            Error::LockOffsetTooSmall => 12,
            Error::Unauthorized => 13,
            Error::DuplicateRound => 14,
            Error::OracleNoPrice => 15,
            Error::LockOffsetTooLate => 16,
        }
    }
}

/// An oracle price and the oracle's own timestamp for it.
#[derive(Clone, Copy, PartialEq, Eq, Debug, Structural)]
pub struct PriceData {
    pub price: i128,
    pub timestamp: u64,
}

/// A betting round.
#[derive(Clone, Copy, PartialEq, Eq, Debug, Structural)]
pub struct Round {
    pub id: u64,
    /// The oracle price at the open.
    pub strike: i128,
    pub strike_ts: u64,
    pub lock_ts: u64,
    pub settle_ts: u64,
    pub pool_above: i128,
    pub pool_below: i128,
    /// Boosted shares of all bets on `Above`.
    pub boosted_above: i128,
    /// Boosted shares of all bets on `Below`.
    pub boosted_below: i128,
    /// `boosted_above + boosted_below`.
    pub global_boosted: i128,
    pub status: Status,
    pub outcome: Outcome,
    pub settle_price: i128,
}

/// One user's bet in one round.
#[derive(Clone, Copy, PartialEq, Eq, Debug, Structural)]
pub struct Position {
    pub round_id: u64,
    pub side: Side,
    pub amount: i128,
    /// `amount * (lock_ts - bet_ts)`.
    pub boosted: i128,
    pub claimed: bool,
}

/// Market configuration.
#[derive(Clone, Debug)]
pub struct Config {
    pub admin: String,
    pub oracle: String,
    pub token: String,
    /// The oracle symbol of the one asset this market trades.
    pub asset: String,
    pub fee_bps: u32,
    pub min_bet: i128,
    pub lock_offset: u64,
    pub oracle_decimals: u32,
    /// Round length: `settle_ts = strike_ts + oracle_interval`.
    pub oracle_interval: u64,
}

/// A stored position together with its owner.
#[derive(Clone, Debug)]
pub struct Stake {
    pub user: String,
    pub position: Position,
}

/// The market's storage as a mathematical value.
pub struct PredictState {
    pub config: Option<Config>,
    pub counter: u64,
    pub fees: i128,
    /// Strike time of the last round opened, or 0.
    pub last_strike_ts: u64,
    /// `rounds[i]` is the round with id `i + 1`.
    pub rounds: Seq<Round>,
    pub stakes: Seq<Stake>,
}

/// The time-weighted market contract's storage.
pub struct WickPredict {
    config: Option<Config>,
    counter: u64,
    fees: i128,
    last_strike_ts: u64,
    rounds: Vec<Round>,
    stakes: Vec<Stake>,
}

impl View for WickPredict {
    type V = PredictState;

    closed spec fn view(&self) -> PredictState {
        PredictState {
            config: self.config,
            counter: self.counter,
            fees: self.fees,
            last_strike_ts: self.last_strike_ts,
            rounds: self.rounds@,
            stakes: self.stakes@,
        }
    }
}

/// Total staked on `side` in round `round_id`.
pub open spec fn side_total(stakes: Seq<Stake>, round_id: u64, side: Side) -> int
    decreases stakes.len(),
{
    if stakes.len() == 0 {
        0
    } else {
        let p = stakes.last().position;
        side_total(stakes.drop_last(), round_id, side) + if p.round_id == round_id && p.side
            == side {
            p.amount as int
        } else {
            0
        }
    }
}

/// Total boosted shares on `side` in round `round_id`.
pub open spec fn boost_total(stakes: Seq<Stake>, round_id: u64, side: Side) -> int
    decreases stakes.len(),
{
    if stakes.len() == 0 {
        0
    } else {
        let p = stakes.last().position;
        boost_total(stakes.drop_last(), round_id, side) + if p.round_id == round_id && p.side
            == side {
            p.boosted as int
        } else {
            0
        }
    }
}

/// The stake at index `i` belongs to `user` in round `round_id`.
pub open spec fn stake_is(stakes: Seq<Stake>, i: int, round_id: u64, user: Seq<char>) -> bool {
    0 <= i < stakes.len() && stakes[i].position.round_id == round_id && stakes[i].user@ == user
}

/// Index of the stake of `user` in round `round_id`, if any.
pub open spec fn stake_index(stakes: Seq<Stake>, round_id: u64, user: Seq<char>) -> Option<int> {
    if exists|i: int| stake_is(stakes, i, round_id, user) {
        Some(choose|i: int| stake_is(stakes, i, round_id, user))
    } else {
        None
    }
}

/// The position's side won the round.
pub open spec fn side_won(side: Side, outcome: Outcome) -> bool {
    (side == Side::Above && outcome == Outcome::Above) || (side == Side::Below && outcome
        == Outcome::Below)
}

/// The pool of the side that lost a decided round.
pub open spec fn losing_pool(round: Round) -> int {
    if round.outcome == Outcome::Above {
        round.pool_below as int
    } else {
        round.pool_above as int
    }
}

/// Boosted shares of the side that won a decided round.
pub open spec fn winning_boosted(round: Round) -> int {
    if round.outcome == Outcome::Above {
        round.boosted_above as int
    } else {
        round.boosted_below as int
    }
}

/// The losing pool after the fee: what the Ninetails rule shares out.
pub open spec fn distributed(round: Round, fee_bps: u32) -> int {
    losing_pool(round) - losing_fee(losing_pool(round), fee_bps as int)
}

/// What a position in a settled round is paid: its stake on a void round,
/// otherwise the Ninetails payout of a winner or a loser.
pub open spec fn claim_payout(round: Round, position: Position, fee_bps: u32) -> int {
    if round.outcome == Outcome::Void {
        position.amount as int
    } else if side_won(position.side, round.outcome) {
        winner_total(
            position.amount as int,
            distributed(round, fee_bps),
            position.boosted as int,
            winning_boosted(round),
            round.global_boosted as int,
        )
    } else {
        loser_total(
            distributed(round, fee_bps),
            position.boosted as int,
            round.global_boosted as int,
        )
    }
}

/// The claim's payout arithmetic stays within `i128`.
pub open spec fn claim_arith_ok(round: Round, position: Position, fee_bps: u32) -> bool {
    round.outcome == Outcome::Void || {
        &&& fits_i128(losing_pool(round) * fee_bps)
        &&& fits_i128(distributed(round, fee_bps))
        &&& side_won(position.side, round.outcome) ==> winner_payout_ok(
            position.amount as int,
            distributed(round, fee_bps),
            position.boosted as int,
            winning_boosted(round),
            round.global_boosted as int,
        )
        &&& !side_won(position.side, round.outcome) ==> loser_payout_ok(
            distributed(round, fee_bps),
            position.boosted as int,
            round.global_boosted as int,
        )
    }
}

/// The round's status as reported at time `now`.
pub open spec fn reported_status(round: Round, now: u64) -> Status {
    if round.status == Status::Open && now >= round.lock_ts {
        Status::Locked
    } else {
        round.status
    }
}

impl PredictState {
    /// The round with the given id, if it exists.
    pub open spec fn round(self, round_id: u64) -> Option<Round> {
        if 1 <= round_id <= self.rounds.len() {
            Some(self.rounds[round_id - 1])
        } else {
            None
        }
    }

    /// The position of `user` in round `round_id`, if any.
    pub open spec fn position(self, round_id: u64, user: Seq<char>) -> Option<Position> {
        match stake_index(self.stakes, round_id, user) {
            Some(i) => Some(self.stakes[i].position),
            None => None,
        }
    }

    /// The storage invariant.
    pub open spec fn wf(self) -> bool {
        &&& self.config is None ==> self.counter == 0 && self.fees == 0 && self.rounds.len() == 0
            && self.stakes.len() == 0 && self.last_strike_ts == 0
        &&& self.config matches Some(c) ==> c.fee_bps <= MAX_FEE_BPS && c.lock_offset
            >= MIN_LOCK_OFFSET && c.lock_offset < c.oracle_interval
        &&& self.fees >= 0
        &&& self.rounds.len() == self.counter
        &&& forall|i: int| 0 <= i < self.rounds.len() ==> #[trigger] self.rounds[i].id == i + 1
        &&& forall|i: int|
            0 <= i < self.rounds.len() ==> {
                let r = #[trigger] self.rounds[i];
                &&& r.status != Status::Locked
                &&& r.status == Status::Open ==> r.outcome == Outcome::Void
                &&& r.status == Status::Settled && r.outcome != Outcome::Void ==> r.pool_above > 0
                    && r.pool_below > 0
                &&& r.pool_above == side_total(self.stakes, r.id, Side::Above)
                &&& r.pool_below == side_total(self.stakes, r.id, Side::Below)
                &&& r.boosted_above == boost_total(self.stakes, r.id, Side::Above)
                &&& r.boosted_below == boost_total(self.stakes, r.id, Side::Below)
                &&& r.global_boosted == r.boosted_above + r.boosted_below
            }
        &&& forall|i: int|
            0 <= i < self.stakes.len() ==> {
                let p = #[trigger] self.stakes[i].position;
                &&& 1 <= p.round_id <= self.counter
                &&& p.amount >= 0
                &&& p.boosted >= 0
                &&& p.amount > 0 ==> p.boosted > 0
            }
        &&& forall|i: int, j: int|
            0 <= i < self.stakes.len() && 0 <= j < self.stakes.len() && i != j
                ==> #[trigger] self.stakes[i].position.round_id
                != #[trigger] self.stakes[j].position.round_id || self.stakes[i].user@
                != self.stakes[j].user@
    }

    /// Why `initialize` refuses, if it does.
    pub open spec fn initialize_error(self, fee_bps: u32, lock_offset: u64, oracle_interval: u64) -> Option<Error> {
        if self.config is Some {
            Some(Error::AlreadyInitialized)
        } else if fee_bps > MAX_FEE_BPS {
            Some(Error::FeeTooHigh)
        } else if lock_offset < MIN_LOCK_OFFSET {
            Some(Error::LockOffsetTooSmall)
        } else if lock_offset >= oracle_interval {
            Some(Error::LockOffsetTooLate)
        } else {
            None
        }
    }

    /// Why `create_round` refuses, if it does.
    pub open spec fn create_round_error(self, tick: Option<PriceData>) -> Option<Error> {
        if self.config is None {
            Some(Error::NotInitialized)
        } else if tick is None {
            Some(Error::OracleNoPrice)
        } else if self.last_strike_ts == tick.unwrap().timestamp {
            Some(Error::DuplicateRound)
        } else {
            None
        }
    }

    /// `create_round` does not overflow on these inputs.
    pub open spec fn create_round_ok(self, tick: Option<PriceData>) -> bool {
        self.create_round_error(tick) is None ==> {
            &&& self.counter < u64::MAX
            &&& tick.unwrap().timestamp + self.config.unwrap().lock_offset <= u64::MAX
            &&& tick.unwrap().timestamp + self.config.unwrap().oracle_interval <= u64::MAX
        }
    }

    /// The round `create_round` opens on this tick.
    pub open spec fn new_round(self, tick: PriceData) -> Round {
        Round {
            id: (self.counter + 1) as u64,
            strike: tick.price,
            strike_ts: tick.timestamp,
            lock_ts: (tick.timestamp + self.config.unwrap().lock_offset) as u64,
            settle_ts: (tick.timestamp + self.config.unwrap().oracle_interval) as u64,
            pool_above: 0,
            pool_below: 0,
            boosted_above: 0,
            boosted_below: 0,
            global_boosted: 0,
            status: Status::Open,
            outcome: Outcome::Void,
            settle_price: 0,
        }
    }

    /// Storage after `create_round`.
    pub open spec fn after_create(self, tick: PriceData) -> PredictState {
        PredictState {
            counter: (self.counter + 1) as u64,
            last_strike_ts: tick.timestamp,
            rounds: self.rounds.push(self.new_round(tick)),
            ..self
        }
    }

    /// Why a bet is refused, if it is.
    pub open spec fn bet_error(
        self,
        user: Seq<char>,
        round_id: u64,
        amount: i128,
        now: u64,
    ) -> Option<Error> {
        if self.config is None {
            Some(Error::NotInitialized)
        } else if amount < self.config.unwrap().min_bet {
            Some(Error::BetTooSmall)
        } else if self.round(round_id) is None {
            Some(Error::RoundNotFound)
        } else if now >= self.round(round_id).unwrap().lock_ts || self.round(
            round_id,
        ).unwrap().status != Status::Open {
            Some(Error::RoundLocked)
        } else if self.position(round_id, user) is Some {
            Some(Error::AlreadyBet)
        } else {
            None
        }
    }

    /// An accepted bet's arithmetic stays within `i128`.
    pub open spec fn bet_ok(self, round_id: u64, side: Side, amount: i128, now: u64) -> bool {
        let r = self.rounds[round_id - 1];
        let b = boosted(amount as int, now, r.lock_ts);
        &&& amount >= 0
        &&& fits_i128(b)
        &&& fits_i128(r.global_boosted + b)
        &&& side == Side::Above ==> fits_i128(r.pool_above + amount) && fits_i128(
            r.boosted_above + b,
        )
        &&& side == Side::Below ==> fits_i128(r.pool_below + amount) && fits_i128(
            r.boosted_below + b,
        )
    }

    /// A round with a bet of `amount` and boosted shares `b` on `side`.
    pub open spec fn round_with_bet(round: Round, side: Side, amount: i128, b: int) -> Round {
        match side {
            Side::Above => Round {
                pool_above: (round.pool_above + amount) as i128,
                boosted_above: (round.boosted_above + b) as i128,
                global_boosted: (round.global_boosted + b) as i128,
                ..round
            },
            Side::Below => Round {
                pool_below: (round.pool_below + amount) as i128,
                boosted_below: (round.boosted_below + b) as i128,
                global_boosted: (round.global_boosted + b) as i128,
                ..round
            },
        }
    }

    /// Storage after an accepted bet at time `now`.
    pub open spec fn after_bet(
        self,
        user: String,
        round_id: u64,
        side: Side,
        amount: i128,
        now: u64,
    ) -> PredictState {
        let b = boosted(amount as int, now, self.rounds[round_id - 1].lock_ts);
        PredictState {
            rounds: self.rounds.update(
                round_id - 1,
                Self::round_with_bet(self.rounds[round_id - 1], side, amount, b),
            ),
            stakes: self.stakes.push(
                Stake {
                    user,
                    position: Position {
                        round_id,
                        side,
                        amount,
                        boosted: b as i128,
                        claimed: false,
                    },
                },
            ),
            ..self
        }
    }

    /// The outcome of settling `round` on this reading: void on an oracle
    /// gap, an exact tie or an empty pool on either side.
    pub open spec fn settle_outcome(round: Round, price: Option<PriceData>) -> Outcome {
        if round.pool_above == 0 || round.pool_below == 0 {
            Outcome::Void
        } else {
            match price {
                None => Outcome::Void,
                Some(p) => if p.price > round.strike {
                    Outcome::Above
                } else if p.price < round.strike {
                    Outcome::Below
                } else {
                    Outcome::Void
                },
            }
        }
    }

    /// Why `settle` refuses, if it does.
    pub open spec fn settle_error(self, round_id: u64, now: u64) -> Option<Error> {
        if self.config is None {
            Some(Error::NotInitialized)
        } else if self.round(round_id) is None {
            Some(Error::RoundNotFound)
        } else if self.round(round_id).unwrap().status == Status::Settled {
            Some(Error::AlreadySettled)
        } else if now < self.round(round_id).unwrap().settle_ts {
            Some(Error::TooEarly)
        } else {
            None
        }
    }

    /// The settled round.
    pub open spec fn settled_round(round: Round, price: Option<PriceData>) -> Round {
        Round {
            status: Status::Settled,
            outcome: Self::settle_outcome(round, price),
            settle_price: match price {
                Some(p) => p.price,
                None => round.settle_price,
            },
            ..round
        }
    }

    /// The fee collected by settling: on the losing pool, none when void.
    pub open spec fn settle_fee(self, round_id: u64, price: Option<PriceData>) -> int {
        let r = Self::settled_round(self.rounds[round_id - 1], price);
        if r.outcome == Outcome::Void {
            0
        } else {
            losing_fee(losing_pool(r), self.config.unwrap().fee_bps as int)
        }
    }

    /// Storage after an accepted settlement.
    pub open spec fn after_settle(self, round_id: u64, price: Option<PriceData>) -> PredictState {
        PredictState {
            rounds: self.rounds.update(
                round_id - 1,
                Self::settled_round(self.rounds[round_id - 1], price),
            ),
            fees: (self.fees + self.settle_fee(round_id, price)) as i128,
            ..self
        }
    }

    /// Settlement arithmetic stays within `i128`.
    pub open spec fn settle_ok(self, round_id: u64, now: u64, price: Option<PriceData>) -> bool {
        self.settle_error(round_id, now) is None ==> {
            let r = Self::settled_round(self.rounds[round_id - 1], price);
            r.outcome != Outcome::Void ==> fits_i128(
                losing_pool(r) * self.config.unwrap().fee_bps,
            ) && fits_i128(self.fees + self.settle_fee(round_id, price))
        }
    }

    /// Why `claim` refuses, if it does.
    pub open spec fn claim_error(self, round_id: u64, user: Seq<char>) -> Option<Error> {
        if self.config is None {
            Some(Error::NotInitialized)
        } else if self.round(round_id) is None {
            Some(Error::RoundNotFound)
        } else if self.round(round_id).unwrap().status != Status::Settled {
            Some(Error::RoundNotSettled)
        } else if !(self.position(round_id, user) matches Some(p) && !p.claimed) {
            Some(Error::NothingToClaim)
        } else {
            None
        }
    }

    /// What an accepted claim pays.
    pub open spec fn claim_amount(self, round_id: u64, user: Seq<char>) -> int {
        claim_payout(
            self.round(round_id).unwrap(),
            self.position(round_id, user).unwrap(),
            self.config.unwrap().fee_bps,
        )
    }

    /// Storage after an accepted claim: the position is marked claimed.
    pub open spec fn after_claim(self, round_id: u64, user: Seq<char>) -> PredictState {
        let i = stake_index(self.stakes, round_id, user).unwrap();
        PredictState {
            stakes: self.stakes.update(
                i,
                Stake {
                    position: Position { claimed: true, ..self.stakes[i].position },
                    ..self.stakes[i]
                },
            ),
            ..self
        }
    }
}


/// Adding a stake adds its amount and boosted shares to its round and side.
pub proof fn lemma_totals_push(stakes: Seq<Stake>, s: Stake, round_id: u64, side: Side)
    ensures
        side_total(stakes.push(s), round_id, side) == side_total(stakes, round_id, side) + if s.position.round_id
            == round_id && s.position.side == side {
            s.position.amount as int
        } else {
            0
        },
        boost_total(stakes.push(s), round_id, side) == boost_total(stakes, round_id, side) + if s.position.round_id
            == round_id && s.position.side == side {
            s.position.boosted as int
        } else {
            0
        },
{
    assert(stakes.push(s).drop_last() =~= stakes);
}

/// A round nobody has bet in has empty pools and no boosted shares.
pub proof fn lemma_totals_absent(stakes: Seq<Stake>, round_id: u64, side: Side)
    requires
        forall|i: int| 0 <= i < stakes.len() ==> #[trigger] stakes[i].position.round_id != round_id,
    ensures
        side_total(stakes, round_id, side) == 0,
        boost_total(stakes, round_id, side) == 0,
    decreases stakes.len(),
{
    if stakes.len() > 0 {
        let t = stakes.drop_last();
        assert forall|i: int| 0 <= i < t.len() implies #[trigger] t[i].position.round_id != round_id by {
            assert(t[i] == stakes[i]);
        }
        lemma_totals_absent(t, round_id, side);
    }
}

/// Totals of nonnegative stakes are nonnegative, and a side with stake
/// on it has boosted shares.
pub proof fn lemma_totals_nonneg(stakes: Seq<Stake>, round_id: u64, side: Side)
    requires
        forall|i: int|
            0 <= i < stakes.len() ==> {
                let p = #[trigger] stakes[i].position;
                &&& p.amount >= 0
                &&& p.boosted >= 0
                &&& p.amount > 0 ==> p.boosted > 0
            },
    ensures
        side_total(stakes, round_id, side) >= 0,
        boost_total(stakes, round_id, side) >= 0,
        side_total(stakes, round_id, side) > 0 ==> boost_total(stakes, round_id, side) > 0,
    decreases stakes.len(),
{
    if stakes.len() > 0 {
        let t = stakes.drop_last();
        assert forall|i: int| 0 <= i < t.len() implies {
            let p = #[trigger] t[i].position;
            &&& p.amount >= 0
            &&& p.boosted >= 0
            &&& p.amount > 0 ==> p.boosted > 0
        } by {
            assert(t[i] == stakes[i]);
        }
        lemma_totals_nonneg(t, round_id, side);
        assert(stakes[stakes.len() - 1].position.amount >= 0);
    }
}

/// Replacing a stake by one with the same round, side, amount and boosted
/// shares keeps every total.
pub proof fn lemma_totals_update(stakes: Seq<Stake>, k: int, s: Stake, round_id: u64, side: Side)
    requires
        0 <= k < stakes.len(),
        s.position.round_id == stakes[k].position.round_id,
        s.position.side == stakes[k].position.side,
        s.position.amount == stakes[k].position.amount,
        s.position.boosted == stakes[k].position.boosted,
    ensures
        side_total(stakes.update(k, s), round_id, side) == side_total(stakes, round_id, side),
        boost_total(stakes.update(k, s), round_id, side) == boost_total(stakes, round_id, side),
    decreases stakes.len(),
{
    let u = stakes.update(k, s);
    if k == stakes.len() - 1 {
        assert(u.drop_last() =~= stakes.drop_last());
    } else {
        lemma_totals_update(stakes.drop_last(), k, s, round_id, side);
        assert(u.drop_last() =~= stakes.drop_last().update(k, s));
    }
}

/// A copy of a configuration, field by field.
fn copy_config(c: &Config) -> (d: Config)
    ensures
        d == *c,
{
    Config {
        admin: c.admin.clone(),
        oracle: c.oracle.clone(),
        token: c.token.clone(),
        asset: c.asset.clone(),
        fee_bps: c.fee_bps,
        min_bet: c.min_bet,
        lock_offset: c.lock_offset,
        oracle_decimals: c.oracle_decimals,
        oracle_interval: c.oracle_interval,
    }
}

impl WickPredict {
    /// Empty storage: a deployed market that has not been initialized.
    pub fn new() -> (r: WickPredict)
        ensures
            r@.wf(),
            r@.config is None,
            r@.counter == 0,
            r@.fees == 0,
            r@.last_strike_ts == 0,
            r@.rounds.len() == 0,
            r@.stakes.len() == 0,
    {
        WickPredict {
            config: None,
            counter: 0,
            fees: 0,
            last_strike_ts: 0,
            rounds: Vec::new(),
            stakes: Vec::new(),
        }
    }

    /// Index of the stake of `user` in round `round_id`.
    fn find_stake(&self, round_id: u64, user: &String) -> (r: Option<usize>)
        requires
            self@.wf(),
        ensures
            match r {
                Some(i) => stake_index(self@.stakes, round_id, user@) == Some(i as int),
                None => stake_index(self@.stakes, round_id, user@) is None,
            },
    {
        let mut i: usize = 0;
        while i < self.stakes.len()
            invariant
                self@.wf(),
                i <= self.stakes@.len(),
                forall|j: int| 0 <= j < i ==> !stake_is(self@.stakes, j, round_id, user@),
            decreases self.stakes@.len() - i,
        {
            let s = &self.stakes[i];
            if s.position.round_id == round_id && s.user == *user {
                proof {
                    assert(stake_is(self@.stakes, i as int, round_id, user@));
                    let c = choose|j: int| stake_is(self@.stakes, j, round_id, user@);
                    assert(c == i as int);
                }
                return Some(i);
            }
            i = i + 1;
        }
        None
    }

    /// Whether the market can be initialized with these settings, decided
    /// before the oracle is asked: the error `initialize` would give, if any.
    pub fn initialize_check(&self, fee_bps: u32, lock_offset: u64, oracle_interval: u64) -> (r: Result<(), Error>)
        ensures
            match self@.initialize_error(fee_bps, lock_offset, oracle_interval) {
                Some(e) => r == Err::<(), Error>(e),
                None => r == Ok::<(), Error>(()),
            },
    {
        if self.config.is_some() {
            return Err(Error::AlreadyInitialized);
        }
        if fee_bps > MAX_FEE_BPS {
            return Err(Error::FeeTooHigh);
        }
        if lock_offset < MIN_LOCK_OFFSET {
            return Err(Error::LockOffsetTooSmall);
        }
        if lock_offset >= oracle_interval {
            return Err(Error::LockOffsetTooLate);
        }
        Ok(())
    }

    /// Initializes the market for one oracle asset. Refuses a second
    /// initialization, a fee above 5%, a lock offset under 10 seconds and a
    /// lock offset that does not land strictly before settlement.
    /// `oracle_decimals` is what the oracle's `decimals()` reports.
    pub fn initialize(
        &mut self,
        admin: String,
        oracle: String,
        token: String,
        asset: String,
        fee_bps: u32,
        min_bet: i128,
        lock_offset: u64,
        oracle_interval: u64,
        oracle_decimals: u32,
    ) -> (r: Result<(), Error>)
        requires
            old(self)@.wf(),
        ensures
            final(self)@.wf(),
            old(self)@.config is Some ==> r == Err::<(), Error>(Error::AlreadyInitialized),
            old(self)@.config is None && fee_bps > MAX_FEE_BPS ==> r == Err::<(), Error>(
                Error::FeeTooHigh,
            ),
            old(self)@.config is None && fee_bps <= MAX_FEE_BPS && lock_offset < MIN_LOCK_OFFSET
                ==> r == Err::<(), Error>(Error::LockOffsetTooSmall),
            old(self)@.config is None && fee_bps <= MAX_FEE_BPS && lock_offset >= MIN_LOCK_OFFSET
                && lock_offset >= oracle_interval ==> r == Err::<(), Error>(
                Error::LockOffsetTooLate,
            ),
            r is Err ==> final(self)@ == old(self)@,
            r is Ok ==> final(self)@ == (PredictState {
                config: Some(
                    Config {
                        admin,
                        oracle,
                        token,
                        asset,
                        fee_bps,
                        min_bet,
                        lock_offset,
                        oracle_decimals,
                        oracle_interval,
                    },
                ),
                ..old(self)@
            }),
            r is Ok <==> old(self)@.config is None && fee_bps <= MAX_FEE_BPS && lock_offset
                >= MIN_LOCK_OFFSET && lock_offset < oracle_interval,
    {
        if let Err(e) = self.initialize_check(fee_bps, lock_offset, oracle_interval) {
            return Err(e);
        }
        self.config = Some(
            Config {
                admin,
                oracle,
                token,
                asset,
                fee_bps,
                min_bet,
                lock_offset,
                oracle_decimals,
                oracle_interval,
            },
        );
        self.counter = 0;
        self.fees = 0;
        Ok(())
    }

    /// Opens a round on `tick`, the oracle's latest price for the market's
    /// asset; returns its id. Refuses when the oracle has no price and when
    /// a round was already opened on the same tick.
    pub fn create_round(&mut self, tick: Option<PriceData>) -> (r: Result<u64, Error>)
        requires
            old(self)@.wf(),
            old(self)@.create_round_ok(tick),
        ensures
            final(self)@.wf(),
            match old(self)@.create_round_error(tick) {
                Some(e) => r == Err::<u64, Error>(e) && final(self)@ == old(self)@,
                None => r == Ok::<u64, Error>((old(self)@.counter + 1) as u64) && final(self)@
                    == old(self)@.after_create(tick.unwrap()),
            },
    {
        let ghost old_state = self@;
        let (lock_offset, interval) = match &self.config {
            None => {
                return Err(Error::NotInitialized);
            },
            Some(c) => (c.lock_offset, c.oracle_interval),
        };
        let tick = match tick {
            None => {
                return Err(Error::OracleNoPrice);
            },
            Some(t) => t,
        };
        let strike_ts = tick.timestamp;
        if self.last_strike_ts == strike_ts {
            return Err(Error::DuplicateRound);
        }
        let id = self.counter + 1;
        let round = Round {
            id,
            strike: tick.price,
            strike_ts,
            lock_ts: strike_ts + lock_offset,
            settle_ts: strike_ts + interval,
            pool_above: 0,
            pool_below: 0,
            boosted_above: 0,
            boosted_below: 0,
            global_boosted: 0,
            status: Status::Open,
            outcome: Outcome::Void,
            settle_price: 0,
        };
        proof {
            assert forall|i: int| 0 <= i < old_state.stakes.len() implies #[trigger] old_state.stakes[i].position.round_id
                != id by {}
            lemma_totals_absent(old_state.stakes, id, Side::Above);
            lemma_totals_absent(old_state.stakes, id, Side::Below);
        }
        self.rounds.push(round);
        self.counter = id;
        self.last_strike_ts = strike_ts;
        proof {
            let m = self@;
            assert(m.rounds =~= old_state.rounds.push(old_state.new_round(tick)));
            assert forall|i: int| 0 <= i < m.rounds.len() implies {
                let r = #[trigger] m.rounds[i];
                &&& r.pool_above == side_total(m.stakes, r.id, Side::Above)
                &&& r.pool_below == side_total(m.stakes, r.id, Side::Below)
                &&& r.boosted_above == boost_total(m.stakes, r.id, Side::Above)
                &&& r.boosted_below == boost_total(m.stakes, r.id, Side::Below)
            } by {
                if i < old_state.rounds.len() {
                    assert(m.rounds[i] == old_state.rounds[i]);
                }
            }
        }
        Ok(id)
    }

    /// Places `user`'s bet at time `now`; on success the caller moves
    /// `amount` from the user to the market. The bet's boosted shares are
    /// `amount * (lock_ts - now)`.
    fn place_bet(&mut self, user: String, round_id: u64, side: Side, amount: i128, now: u64) -> (r:
        Result<(), Error>)
        requires
            old(self)@.wf(),
            old(self)@.bet_error(user@, round_id, amount, now) is None ==> old(self)@.bet_ok(
                round_id,
                side,
                amount,
                now,
            ),
        ensures
            final(self)@.wf(),
            match old(self)@.bet_error(user@, round_id, amount, now) {
                Some(e) => r == Err::<(), Error>(e) && final(self)@ == old(self)@,
                None => r == Ok::<(), Error>(()) && final(self)@ == old(self)@.after_bet(
                    user,
                    round_id,
                    side,
                    amount,
                    now,
                ),
            },
    {
        let ghost old_state = self@;
        let min_bet = match &self.config {
            None => {
                return Err(Error::NotInitialized);
            },
            Some(c) => c.min_bet,
        };
        if amount < min_bet {
            return Err(Error::BetTooSmall);
        }
        if round_id == 0 || round_id > self.counter {
            return Err(Error::RoundNotFound);
        }
        let n = self.rounds.len();
        proof {
            assert(n == self.counter);
        }
        let idx = (round_id - 1) as usize;
        let mut round = self.rounds[idx];
        if now >= round.lock_ts {
            return Err(Error::RoundLocked);
        }
        if round.status != Status::Open {
            return Err(Error::RoundLocked);
        }
        if self.find_stake(round_id, &user).is_some() {
            return Err(Error::AlreadyBet);
        }
        let b = boosted_shares(amount, now, round.lock_ts);
        proof {
            assert(now < round.lock_ts);
            assert(remaining(now, round.lock_ts) >= 1);
            if amount > 0 {
                assert(amount * remaining(now, round.lock_ts) > 0) by (nonlinear_arith)
                    requires
                        amount > 0,
                        remaining(now, round.lock_ts) >= 1,
                ;
            }
            assert(amount * remaining(now, round.lock_ts) >= 0) by (nonlinear_arith)
                requires
                    amount >= 0,
                    remaining(now, round.lock_ts) >= 1,
            ;
        }
        match side {
            Side::Above => {
                round.pool_above = round.pool_above + amount;
                round.boosted_above = round.boosted_above + b;
            },
            Side::Below => {
                round.pool_below = round.pool_below + amount;
                round.boosted_below = round.boosted_below + b;
            },
        }
        round.global_boosted = round.global_boosted + b;
        self.rounds.set(idx, round);
        let stake = Stake {
            user,
            position: Position { round_id, side, amount, boosted: b, claimed: false },
        };
        proof {
            let m0 = old_state;
            assert forall|i: int| 0 <= i < m0.stakes.len() implies !(
            #[trigger] m0.stakes[i].position.round_id == round_id && m0.stakes[i].user@
                == stake.user@) by {
                if m0.stakes[i].position.round_id == round_id && m0.stakes[i].user@ == stake.user@ {
                    assert(stake_is(m0.stakes, i, round_id, stake.user@));
                }
            }
        }
        self.stakes.push(stake);
        proof {
            let m0 = old_state;
            let m = self@;
            assert(m.stakes =~= m0.stakes.push(stake));
            assert forall|i: int| 0 <= i < m.rounds.len() implies {
                let r = #[trigger] m.rounds[i];
                &&& r.pool_above == side_total(m.stakes, r.id, Side::Above)
                &&& r.pool_below == side_total(m.stakes, r.id, Side::Below)
                &&& r.boosted_above == boost_total(m.stakes, r.id, Side::Above)
                &&& r.boosted_below == boost_total(m.stakes, r.id, Side::Below)
                &&& r.global_boosted == r.boosted_above + r.boosted_below
            } by {
                lemma_totals_push(m0.stakes, stake, m.rounds[i].id, Side::Above);
                lemma_totals_push(m0.stakes, stake, m.rounds[i].id, Side::Below);
            }
            assert forall|i: int| 0 <= i < m.stakes.len() implies {
                let p = #[trigger] m.stakes[i].position;
                &&& 1 <= p.round_id <= m.counter
                &&& p.amount >= 0
                &&& p.boosted >= 0
                &&& p.amount > 0 ==> p.boosted > 0
            } by {
                if i < m0.stakes.len() {
                    assert(m.stakes[i] == m0.stakes[i]);
                }
            }
            assert forall|i: int, j: int|
                0 <= i < m.stakes.len() && 0 <= j < m.stakes.len() && i != j
                    implies #[trigger] m.stakes[i].position.round_id
                    != #[trigger] m.stakes[j].position.round_id || m.stakes[i].user@
                    != m.stakes[j].user@ by {
                if i < m0.stakes.len() && j < m0.stakes.len() {
                    assert(m.stakes[i] == m0.stakes[i]);
                    assert(m.stakes[j] == m0.stakes[j]);
                } else if i < m0.stakes.len() {
                    assert(m.stakes[i] == m0.stakes[i]);
                } else {
                    assert(m.stakes[j] == m0.stakes[j]);
                }
            }
        }
        Ok(())
    }

    /// Bets `amount` on the price closing above the strike.
    pub fn bet_above(&mut self, user: String, round_id: u64, amount: i128, now: u64) -> (r:
        Result<(), Error>)
        requires
            old(self)@.wf(),
            old(self)@.bet_error(user@, round_id, amount, now) is None ==> old(self)@.bet_ok(
                round_id,
                Side::Above,
                amount,
                now,
            ),
        ensures
            final(self)@.wf(),
            match old(self)@.bet_error(user@, round_id, amount, now) {
                Some(e) => r == Err::<(), Error>(e) && final(self)@ == old(self)@,
                None => r == Ok::<(), Error>(()) && final(self)@ == old(self)@.after_bet(
                    user,
                    round_id,
                    Side::Above,
                    amount,
                    now,
                ),
            },
    {
        self.place_bet(user, round_id, Side::Above, amount, now)
    }

    /// Bets `amount` on the price closing below the strike.
    pub fn bet_below(&mut self, user: String, round_id: u64, amount: i128, now: u64) -> (r:
        Result<(), Error>)
        requires
            old(self)@.wf(),
            old(self)@.bet_error(user@, round_id, amount, now) is None ==> old(self)@.bet_ok(
                round_id,
                Side::Below,
                amount,
                now,
            ),
        ensures
            final(self)@.wf(),
            match old(self)@.bet_error(user@, round_id, amount, now) {
                Some(e) => r == Err::<(), Error>(e) && final(self)@ == old(self)@,
                None => r == Ok::<(), Error>(()) && final(self)@ == old(self)@.after_bet(
                    user,
                    round_id,
                    Side::Below,
                    amount,
                    now,
                ),
            },
    {
        self.place_bet(user, round_id, Side::Below, amount, now)
    }
}


impl WickPredict {
    /// Settles round `round_id` at time `now` on `price`, the oracle's
    /// answer for the market's asset at exactly `settle_ts`. Void on an
    /// oracle gap, an exact tie or an empty pool; otherwise the fee on the
    /// losing pool is collected.
    pub fn settle(&mut self, round_id: u64, now: u64, price: Option<PriceData>) -> (r: Result<
        (),
        Error,
    >)
        requires
            old(self)@.wf(),
            old(self)@.settle_ok(round_id, now, price),
        ensures
            final(self)@.wf(),
            match old(self)@.settle_error(round_id, now) {
                Some(e) => r == Err::<(), Error>(e) && final(self)@ == old(self)@,
                None => r == Ok::<(), Error>(()) && final(self)@ == old(self)@.after_settle(
                    round_id,
                    price,
                ),
            },
    {
        let ghost old_state = self@;
        let fee_bps = match &self.config {
            None => {
                return Err(Error::NotInitialized);
            },
            Some(c) => c.fee_bps,
        };
        if round_id == 0 || round_id > self.counter {
            return Err(Error::RoundNotFound);
        }
        let n = self.rounds.len();
        proof {
            assert(n == self.counter);
        }
        let idx = (round_id - 1) as usize;
        let mut round = self.rounds[idx];
        let ghost old_round = round;
        if round.status == Status::Settled {
            return Err(Error::AlreadySettled);
        }
        if now < round.settle_ts {
            return Err(Error::TooEarly);
        }
        let outcome = match price {
            None => Outcome::Void,
            Some(p) => {
                round.settle_price = p.price;
                if p.price > round.strike {
                    Outcome::Above
                } else if p.price < round.strike {
                    Outcome::Below
                } else {
                    Outcome::Void
                }
            },
        };
        let outcome = if round.pool_above == 0 || round.pool_below == 0 {
            Outcome::Void
        } else {
            outcome
        };
        proof {
            lemma_totals_nonneg(old_state.stakes, round_id, Side::Above);
            lemma_totals_nonneg(old_state.stakes, round_id, Side::Below);
        }
        round.outcome = outcome;
        round.status = Status::Settled;
        if outcome != Outcome::Void {
            let losing = if outcome == Outcome::Above {
                round.pool_below
            } else {
                round.pool_above
            };
            let fee = fee_amount(losing, fee_bps);
            proof {
                lemma_tdiv_bounded(losing * fee_bps, 10_000);
                assert(losing * fee_bps >= 0) by (nonlinear_arith)
                    requires
                        losing >= 0,
                        fee_bps >= 0,
                ;
            }
            self.fees = self.fees + fee;
        }
        self.rounds.set(idx, round);
        proof {
            let m = self@;
            assert(round == PredictState::settled_round(old_round, price));
            assert(m.rounds =~= old_state.rounds.update(
                round_id - 1,
                PredictState::settled_round(old_round, price),
            ));
            assert forall|i: int| 0 <= i < m.rounds.len() implies {
                let r = #[trigger] m.rounds[i];
                &&& r.status != Status::Locked
                &&& r.status == Status::Open ==> r.outcome == Outcome::Void
                &&& r.status == Status::Settled && r.outcome != Outcome::Void ==> r.pool_above > 0
                    && r.pool_below > 0
                &&& r.pool_above == side_total(m.stakes, r.id, Side::Above)
                &&& r.pool_below == side_total(m.stakes, r.id, Side::Below)
                &&& r.boosted_above == boost_total(m.stakes, r.id, Side::Above)
                &&& r.boosted_below == boost_total(m.stakes, r.id, Side::Below)
                &&& r.global_boosted == r.boosted_above + r.boosted_below
            } by {
                if i != round_id - 1 {
                    assert(m.rounds[i] == old_state.rounds[i]);
                }
            }
        }
        Ok(())
    }

    /// Pays out `user`'s position in settled round `round_id` once and
    /// returns the payout, which the caller transfers when positive: the
    /// stake on a void round, otherwise the Ninetails payout (winners get
    /// at least their stake; losers an early-entry refund). Refuses an
    /// unknown or unsettled round and a missing or claimed position.
    pub fn claim(&mut self, user: String, round_id: u64) -> (r: Result<i128, Error>)
        requires
            old(self)@.wf(),
            old(self)@.claim_error(round_id, user@) is None ==> claim_arith_ok(
                old(self)@.round(round_id).unwrap(),
                old(self)@.position(round_id, user@).unwrap(),
                old(self)@.config.unwrap().fee_bps,
            ),
        ensures
            final(self)@.wf(),
            match old(self)@.claim_error(round_id, user@) {
                Some(e) => r == Err::<i128, Error>(e) && final(self)@ == old(self)@,
                None => r == Ok::<i128, Error>(old(self)@.claim_amount(round_id, user@) as i128)
                    && final(self)@ == old(self)@.after_claim(round_id, user@),
            },
    {
        let ghost old_state = self@;
        let fee_bps = match &self.config {
            None => {
                return Err(Error::NotInitialized);
            },
            Some(c) => c.fee_bps,
        };
        if round_id == 0 || round_id > self.counter {
            return Err(Error::RoundNotFound);
        }
        let n = self.rounds.len();
        proof {
            assert(n == self.counter);
        }
        let round = self.rounds[(round_id - 1) as usize];
        if round.status != Status::Settled {
            return Err(Error::RoundNotSettled);
        }
        let k = match self.find_stake(round_id, &user) {
            None => {
                return Err(Error::NothingToClaim);
            },
            Some(k) => k,
        };
        let pos = self.stakes[k].position;
        if pos.claimed {
            return Err(Error::NothingToClaim);
        }
        let payout = if round.outcome == Outcome::Void {
            pos.amount
        } else {
            let losing = if round.outcome == Outcome::Above {
                round.pool_below
            } else {
                round.pool_above
            };
            let fee = fee_amount(losing, fee_bps);
            let distributed = losing - fee;
            let on_winning_side = match (pos.side, round.outcome) {
                (Side::Above, Outcome::Above) => true,
                (Side::Below, Outcome::Below) => true,
                _ => false,
            };
            if on_winning_side {
                let side_boosted = if round.outcome == Outcome::Above {
                    round.boosted_above
                } else {
                    round.boosted_below
                };
                winner_payout(pos.amount, distributed, pos.boosted, side_boosted, round.global_boosted)
            } else {
                loser_payout(distributed, pos.boosted, round.global_boosted)
            }
        };
        let owner = self.stakes[k].user.clone();
        let marked = Stake {
            user: owner,
            position: Position {
                round_id: pos.round_id,
                side: pos.side,
                amount: pos.amount,
                boosted: pos.boosted,
                claimed: true,
            },
        };
        proof {
            let m0 = old_state;
            assert forall|i: int| 0 <= i < m0.rounds.len() implies {
                let r = #[trigger] m0.rounds[i];
                let u = m0.stakes.update(k as int, marked);
                &&& r.pool_above == side_total(u, r.id, Side::Above)
                &&& r.pool_below == side_total(u, r.id, Side::Below)
                &&& r.boosted_above == boost_total(u, r.id, Side::Above)
                &&& r.boosted_below == boost_total(u, r.id, Side::Below)
            } by {
                lemma_totals_update(m0.stakes, k as int, marked, m0.rounds[i].id, Side::Above);
                lemma_totals_update(m0.stakes, k as int, marked, m0.rounds[i].id, Side::Below);
            }
        }
        self.stakes.set(k, marked);
        proof {
            let m = self@;
            let m0 = old_state;
            assert(m.stakes =~= m0.stakes.update(k as int, marked));
            assert forall|i: int| 0 <= i < m.stakes.len() implies {
                let p = #[trigger] m.stakes[i].position;
                &&& 1 <= p.round_id <= m.counter
                &&& p.amount >= 0
                &&& p.boosted >= 0
                &&& p.amount > 0 ==> p.boosted > 0
            } by {
                if i != k {
                    assert(m.stakes[i] == m0.stakes[i]);
                }
            }
            assert forall|i: int, j: int|
                0 <= i < m.stakes.len() && 0 <= j < m.stakes.len() && i != j
                    implies #[trigger] m.stakes[i].position.round_id
                    != #[trigger] m.stakes[j].position.round_id || m.stakes[i].user@
                    != m.stakes[j].user@ by {
                assert(m0.stakes[i].position.round_id != m0.stakes[j].position.round_id
                    || m0.stakes[i].user@ != m0.stakes[j].user@);
            }
            assert(m == m0.after_claim(round_id, user@));
        }
        Ok(payout)
    }

    /// The round `round_id` as seen at time `now`: an open round past its
    /// lock time is reported as `Locked`.
    pub fn get_round(&self, round_id: u64, now: u64) -> (r: Result<Round, Error>)
        requires
            self@.wf(),
        ensures
            match self@.round(round_id) {
                None => r == Err::<Round, Error>(Error::RoundNotFound),
                Some(round) => r == Ok::<Round, Error>(
                    Round { status: reported_status(round, now), ..round },
                ),
            },
    {
        if round_id == 0 || round_id > self.counter {
            return Err(Error::RoundNotFound);
        }
        let n = self.rounds.len();
        proof {
            assert(n == self.counter);
        }
        let mut round = self.rounds[(round_id - 1) as usize];
        if round.status == Status::Open && now >= round.lock_ts {
            round.status = Status::Locked;
        }
        Ok(round)
    }

    /// `user`'s position in round `round_id`, if any.
    pub fn get_position(&self, round_id: u64, user: &String) -> (r: Option<Position>)
        requires
            self@.wf(),
        ensures
            r == self@.position(round_id, user@),
    {
        match self.find_stake(round_id, user) {
            Some(k) => Some(self.stakes[k].position),
            None => None,
        }
    }

    /// The configuration.
    pub fn get_config(&self) -> (r: Result<Config, Error>)
        ensures
            match self@.config {
                None => r == Err::<Config, Error>(Error::NotInitialized),
                Some(c) => r == Ok::<Config, Error>(c),
            },
    {
        match &self.config {
            None => Err(Error::NotInitialized),
            Some(c) => Ok(copy_config(c)),
        }
    }

    /// The id of the latest round, or 0 before the first.
    pub fn current_round_id(&self) -> (r: u64)
        ensures
            r == self@.counter,
    {
        self.counter
    }

    /// Empties the fee accumulator and returns what it held; the caller
    /// transfers a positive amount to the admin.
    pub fn sweep_fees(&mut self) -> (r: Result<i128, Error>)
        requires
            old(self)@.wf(),
        ensures
            final(self)@.wf(),
            old(self)@.config is None ==> r == Err::<i128, Error>(Error::NotInitialized)
                && final(self)@ == old(self)@,
            old(self)@.config is Some ==> r == Ok::<i128, Error>(old(self)@.fees) && final(self)@
                == (PredictState { fees: 0, ..old(self)@ }),
    {
        if self.config.is_none() {
            return Err(Error::NotInitialized);
        }
        let fees = self.fees;
        if fees > 0 {
            self.fees = 0;
        }
        Ok(fees)
    }

    /// Sets the fee rate; refuses more than 5%.
    pub fn set_fee_bps(&mut self, bps: u32) -> (r: Result<(), Error>)
        requires
            old(self)@.wf(),
        ensures
            final(self)@.wf(),
            old(self)@.config is None ==> r == Err::<(), Error>(Error::NotInitialized)
                && final(self)@ == old(self)@,
            old(self)@.config is Some && bps > MAX_FEE_BPS ==> r == Err::<(), Error>(
                Error::FeeTooHigh,
            ) && final(self)@ == old(self)@,
            old(self)@.config is Some && bps <= MAX_FEE_BPS ==> r == Ok::<(), Error>(())
                && final(self)@ == (PredictState {
                config: Some(Config { fee_bps: bps, ..old(self)@.config.unwrap() }),
                ..old(self)@
            }),
    {
        match &self.config {
            None => Err(Error::NotInitialized),
            Some(c) => {
                if bps > MAX_FEE_BPS {
                    return Err(Error::FeeTooHigh);
                }
                let mut c2 = copy_config(c);
                c2.fee_bps = bps;
                self.config = Some(c2);
                Ok(())
            },
        }
    }

    /// Sets the betting window. Refuses under 10 seconds, and refuses a
    /// window that would not close strictly before settlement.
    pub fn set_lock_offset(&mut self, seconds: u64) -> (r: Result<(), Error>)
        requires
            old(self)@.wf(),
        ensures
            final(self)@.wf(),
            old(self)@.config is None ==> r == Err::<(), Error>(Error::NotInitialized)
                && final(self)@ == old(self)@,
            old(self)@.config is Some && seconds < MIN_LOCK_OFFSET ==> r == Err::<(), Error>(
                Error::LockOffsetTooSmall,
            ) && final(self)@ == old(self)@,
            old(self)@.config is Some && seconds >= MIN_LOCK_OFFSET && seconds >= old(self)@.config.unwrap().oracle_interval ==> r == Err::<(), Error>(Error::LockOffsetTooLate)
                && final(self)@ == old(self)@,
            old(self)@.config is Some && seconds >= MIN_LOCK_OFFSET && seconds < old(self)@.config.unwrap().oracle_interval ==> r == Ok::<(), Error>(()) && final(self)@ == (
            PredictState {
                config: Some(Config { lock_offset: seconds, ..old(self)@.config.unwrap() }),
                ..old(self)@
            }),
    {
        match &self.config {
            None => Err(Error::NotInitialized),
            Some(c) => {
                if seconds < MIN_LOCK_OFFSET {
                    return Err(Error::LockOffsetTooSmall);
                }
                if seconds >= c.oracle_interval {
                    return Err(Error::LockOffsetTooLate);
                }
                let mut c2 = copy_config(c);
                c2.lock_offset = seconds;
                self.config = Some(c2);
                Ok(())
            },
        }
    }

    /// Sets the round length; refuses one that would not stay strictly
    /// above the betting window.
    pub fn set_oracle_interval(&mut self, seconds: u64) -> (r: Result<(), Error>)
        requires
            old(self)@.wf(),
        ensures
            final(self)@.wf(),
            old(self)@.config is None ==> r == Err::<(), Error>(Error::NotInitialized)
                && final(self)@ == old(self)@,
            old(self)@.config is Some && seconds <= old(self)@.config.unwrap().lock_offset ==> r
                == Err::<(), Error>(Error::LockOffsetTooLate) && final(self)@ == old(self)@,
            old(self)@.config is Some && seconds > old(self)@.config.unwrap().lock_offset ==> r
                == Ok::<(), Error>(()) && final(self)@ == (PredictState {
                config: Some(Config { oracle_interval: seconds, ..old(self)@.config.unwrap() }),
                ..old(self)@
            }),
    {
        match &self.config {
            None => Err(Error::NotInitialized),
            Some(c) => {
                if seconds <= c.lock_offset {
                    return Err(Error::LockOffsetTooLate);
                }
                let mut c2 = copy_config(c);
                c2.oracle_interval = seconds;
                self.config = Some(c2);
                Ok(())
            },
        }
    }

    /// Hands the admin role to `new_admin`.
    pub fn set_admin(&mut self, new_admin: String) -> (r: Result<(), Error>)
        requires
            old(self)@.wf(),
        ensures
            final(self)@.wf(),
            old(self)@.config is None ==> r == Err::<(), Error>(Error::NotInitialized)
                && final(self)@ == old(self)@,
            old(self)@.config is Some ==> r == Ok::<(), Error>(()) && final(self)@ == (
            PredictState {
                config: Some(Config { admin: new_admin, ..old(self)@.config.unwrap() }),
                ..old(self)@
            }),
    {
        match &self.config {
            None => Err(Error::NotInitialized),
            Some(c) => {
                let mut c2 = copy_config(c);
                c2.admin = new_admin;
                self.config = Some(c2);
                Ok(())
            },
        }
    }
}


/// The market's storage laid out for saving between calls.
pub struct PredictParts {
    pub config: Option<Config>,
    pub counter: u64,
    pub fees: i128,
    pub last_strike_ts: u64,
    pub rounds: Vec<Round>,
    pub stakes: Vec<Stake>,
}

impl PredictParts {
    /// The storage these parts describe.
    pub open spec fn state(&self) -> PredictState {
        PredictState {
            config: self.config,
            counter: self.counter,
            fees: self.fees,
            last_strike_ts: self.last_strike_ts,
            rounds: self.rounds@,
            stakes: self.stakes@,
        }
    }
}

/// Stake `k` is on `side` in round `round_id`.
pub open spec fn stake_counts(stakes: Seq<Stake>, k: int, round_id: u64, side: Side) -> bool {
    stakes[k].position.round_id == round_id && stakes[k].position.side == side
}

/// Adding one more stake to a prefix adds its stake and its boosted shares.
proof fn lemma_totals_step(stakes: Seq<Stake>, round_id: u64, side: Side, i: int)
    requires
        0 <= i < stakes.len(),
    ensures
        side_total(stakes.take(i + 1), round_id, side) == side_total(stakes.take(i), round_id, side)
            + if stake_counts(stakes, i, round_id, side) {
            stakes[i].position.amount as int
        } else {
            0
        },
        boost_total(stakes.take(i + 1), round_id, side) == boost_total(stakes.take(i), round_id, side)
            + if stake_counts(stakes, i, round_id, side) {
            stakes[i].position.boosted as int
        } else {
            0
        },
{
    assert(stakes.take(i + 1).drop_last() =~= stakes.take(i));
}

/// With no negative stake or share, a prefix never totals more than the whole.
proof fn lemma_totals_prefix(stakes: Seq<Stake>, round_id: u64, side: Side, i: int)
    requires
        0 <= i <= stakes.len(),
        forall|k: int|
            0 <= k < stakes.len() ==> #[trigger] stakes[k].position.amount >= 0
                && stakes[k].position.boosted >= 0,
    ensures
        side_total(stakes.take(i), round_id, side) <= side_total(stakes, round_id, side),
        boost_total(stakes.take(i), round_id, side) <= boost_total(stakes, round_id, side),
    decreases stakes.len() - i,
{
    if i < stakes.len() {
        lemma_totals_step(stakes, round_id, side, i);
        lemma_totals_prefix(stakes, round_id, side, i + 1);
    } else {
        assert(stakes.take(i) =~= stakes);
    }
}

/// Adds up the stakes on `side` in round `round_id`; `None` when the sum
/// does not fit in `i128`.
fn stake_sum(stakes: &Vec<Stake>, round_id: u64, side: Side) -> (r: Option<i128>)
    requires
        forall|k: int|
            0 <= k < stakes@.len() ==> #[trigger] stakes@[k].position.amount >= 0
                && stakes@[k].position.boosted >= 0,
    ensures
        match r {
            Some(x) => x == side_total(stakes@, round_id, side),
            None => side_total(stakes@, round_id, side) > i128::MAX,
        },
{
    let mut acc: i128 = 0;
    let mut i: usize = 0;
    while i < stakes.len()
        invariant
            i <= stakes@.len(),
            acc == side_total(stakes@.take(i as int), round_id, side),
            forall|k: int|
                0 <= k < stakes@.len() ==> #[trigger] stakes@[k].position.amount >= 0
                    && stakes@[k].position.boosted >= 0,
        decreases stakes@.len() - i,
    {
        proof {
            lemma_totals_step(stakes@, round_id, side, i as int);
        }
        let p = &stakes[i].position;
        if p.round_id == round_id && p.side == side {
            match acc.checked_add(p.amount) {
                Some(v) => {
                    acc = v;
                },
                None => {
                    proof {
                        lemma_totals_prefix(stakes@, round_id, side, i + 1);
                    }
                    return None;
                },
            }
        }
        i = i + 1;
    }
    proof {
        assert(stakes@.take(i as int) =~= stakes@);
    }
    Some(acc)
}

/// Adds up the boosted shares on `side` in round `round_id`; `None` when
/// the sum does not fit in `i128`.
fn boost_sum(stakes: &Vec<Stake>, round_id: u64, side: Side) -> (r: Option<i128>)
    requires
        forall|k: int|
            0 <= k < stakes@.len() ==> #[trigger] stakes@[k].position.amount >= 0
                && stakes@[k].position.boosted >= 0,
    ensures
        match r {
            Some(x) => x == boost_total(stakes@, round_id, side),
            None => boost_total(stakes@, round_id, side) > i128::MAX,
        },
{
    let mut acc: i128 = 0;
    let mut i: usize = 0;
    while i < stakes.len()
        invariant
            i <= stakes@.len(),
            acc == boost_total(stakes@.take(i as int), round_id, side),
            forall|k: int|
                0 <= k < stakes@.len() ==> #[trigger] stakes@[k].position.amount >= 0
                    && stakes@[k].position.boosted >= 0,
        decreases stakes@.len() - i,
    {
        proof {
            lemma_totals_step(stakes@, round_id, side, i as int);
        }
        let p = &stakes[i].position;
        if p.round_id == round_id && p.side == side {
            match acc.checked_add(p.boosted) {
                Some(v) => {
                    acc = v;
                },
                None => {
                    proof {
                        lemma_totals_prefix(stakes@, round_id, side, i + 1);
                    }
                    return None;
                },
            }
        }
        i = i + 1;
    }
    proof {
        assert(stakes@.take(i as int) =~= stakes@);
    }
    Some(acc)
}

/// The stored total matches the computed one.
fn total_matches(computed: Option<i128>, stored: i128) -> (r: bool)
    ensures
        r == (computed matches Some(x) && x == stored),
{
    match computed {
        Some(x) => x == stored,
        None => false,
    }
}

/// Round `k` meets the storage invariant against the stakes.
pub open spec fn round_fits(m: PredictState, k: int) -> bool {
    let r = m.rounds[k];
    &&& r.id == k + 1
    &&& r.status != Status::Locked
    &&& r.status == Status::Open ==> r.outcome == Outcome::Void
    &&& r.status == Status::Settled && r.outcome != Outcome::Void ==> r.pool_above > 0
        && r.pool_below > 0
    &&& r.pool_above == side_total(m.stakes, r.id, Side::Above)
    &&& r.pool_below == side_total(m.stakes, r.id, Side::Below)
    &&& r.boosted_above == boost_total(m.stakes, r.id, Side::Above)
    &&& r.boosted_below == boost_total(m.stakes, r.id, Side::Below)
    &&& r.global_boosted == r.boosted_above + r.boosted_below
}

impl WickPredict {
    /// Whether the storage meets its invariant.
    fn check_wf(&self) -> (r: bool)
        ensures
            r == self@.wf(),
    {
        let ghost m = self@;
        match &self.config {
            None => {
                return self.counter == 0 && self.fees == 0 && self.rounds.len() == 0
                    && self.stakes.len() == 0 && self.last_strike_ts == 0;
            },
            Some(c) => {
                if c.fee_bps > MAX_FEE_BPS || c.lock_offset < MIN_LOCK_OFFSET || c.lock_offset
                    >= c.oracle_interval {
                    return false;
                }
            },
        }
        if self.fees < 0 {
            return false;
        }
        let n_rounds: usize = self.rounds.len();
        if n_rounds as u64 != self.counter {
            return false;
        }
        let n: usize = self.stakes.len();
        let mut i: usize = 0;
        while i < n
            invariant
                m == self@,
                n == m.stakes.len(),
                i <= n,
                forall|k: int|
                    0 <= k < i ==> {
                        let p = #[trigger] m.stakes[k].position;
                        &&& 1 <= p.round_id <= m.counter
                        &&& p.amount >= 0
                        &&& p.boosted >= 0
                        &&& p.amount > 0 ==> p.boosted > 0
                    },
            decreases n - i,
        {
            let p = &self.stakes[i].position;
            if p.round_id < 1 || p.round_id > self.counter || p.amount < 0 || p.boosted < 0 || (
            p.amount > 0 && p.boosted <= 0) {
                proof {
                    assert(!{
                        let p = m.stakes[i as int].position;
                        &&& 1 <= p.round_id <= m.counter
                        &&& p.amount >= 0
                        &&& p.boosted >= 0
                        &&& p.amount > 0 ==> p.boosted > 0
                    });
                }
                return false;
            }
            i = i + 1;
        }
        let mut i: usize = 0;
        while i < n
            invariant
                m == self@,
                n == m.stakes.len(),
                i <= n,
                forall|a: int, b: int|
                    0 <= a < i && 0 <= b < n && a != b ==> #[trigger] m.stakes[a].position.round_id
                        != #[trigger] m.stakes[b].position.round_id || m.stakes[a].user@
                        != m.stakes[b].user@,
            decreases n - i,
        {
            let mut j: usize = 0;
            while j < n
                invariant
                    m == self@,
                    n == m.stakes.len(),
                    i < n,
                    j <= n,
                    forall|b: int|
                        0 <= b < j && b != i ==> m.stakes[i as int].position.round_id
                            != #[trigger] m.stakes[b].position.round_id || m.stakes[i as int].user@
                            != m.stakes[b].user@,
                decreases n - j,
            {
                if j != i && self.stakes[i].position.round_id == self.stakes[j].position.round_id
                    && self.stakes[i].user == self.stakes[j].user {
                    proof {
                        assert(m.stakes[i as int].position.round_id
                            == m.stakes[j as int].position.round_id);
                    }
                    return false;
                }
                j = j + 1;
            }
            proof {
                assert forall|a: int, b: int|
                    0 <= a < i + 1 && 0 <= b < n && a != b implies #[trigger] m.stakes[a].position.round_id
                    != #[trigger] m.stakes[b].position.round_id || m.stakes[a].user@
                    != m.stakes[b].user@ by {
                    if a == i {
                        assert(m.stakes[i as int].position.round_id
                            != m.stakes[b].position.round_id || m.stakes[i as int].user@
                            != m.stakes[b].user@);
                    }
                }
            }
            i = i + 1;
        }
        proof {
            assert forall|k: int| 0 <= k < self.stakes@.len() implies #[trigger] self.stakes@[k].position.amount >= 0
                && self.stakes@[k].position.boosted >= 0 by {
                assert(m.stakes[k] == self.stakes@[k]);
            }
        }
        let mut i: usize = 0;
        while i < n_rounds
            invariant
                m == self@,
                n_rounds == m.rounds.len(),
                n_rounds == m.counter,
                i <= n_rounds,
                forall|k: int|
                    0 <= k < self.stakes@.len() ==> #[trigger] self.stakes@[k].position.amount >= 0
                        && self.stakes@[k].position.boosted >= 0,
                forall|k: int| 0 <= k < i ==> #[trigger] round_fits(m, k),
            decreases n_rounds - i,
        {
            let r = &self.rounds[i];
            let id: u64 = (i as u64) + 1;
            if r.id != id || r.status == Status::Locked || (r.status == Status::Open && r.outcome
                != Outcome::Void) || (r.status == Status::Settled && r.outcome != Outcome::Void && (
            r.pool_above <= 0 || r.pool_below <= 0)) {
                proof {
                    assert(!round_fits(m, i as int));
                }
                return false;
            }
            let ok_above = total_matches(stake_sum(&self.stakes, r.id, Side::Above), r.pool_above);
            let ok_below = total_matches(stake_sum(&self.stakes, r.id, Side::Below), r.pool_below);
            let ok_boost_above = total_matches(
                boost_sum(&self.stakes, r.id, Side::Above),
                r.boosted_above,
            );
            let ok_boost_below = total_matches(
                boost_sum(&self.stakes, r.id, Side::Below),
                r.boosted_below,
            );
            let ok_global = total_matches(
                r.boosted_above.checked_add(r.boosted_below),
                r.global_boosted,
            );
            if !ok_above || !ok_below || !ok_boost_above || !ok_boost_below || !ok_global {
                proof {
                    assert(!round_fits(m, i as int));
                }
                return false;
            }
            proof {
                assert(round_fits(m, i as int));
            }
            i = i + 1;
        }
        proof {
            assert forall|k: int| 0 <= k < m.rounds.len() implies #[trigger] m.rounds[k].id == k + 1 by {
                assert(round_fits(m, k));
            }
            assert forall|k: int| 0 <= k < m.rounds.len() implies {
                let r = #[trigger] m.rounds[k];
                &&& r.status != Status::Locked
                &&& r.status == Status::Open ==> r.outcome == Outcome::Void
                &&& r.status == Status::Settled && r.outcome != Outcome::Void ==> r.pool_above > 0
                    && r.pool_below > 0
                &&& r.pool_above == side_total(m.stakes, r.id, Side::Above)
                &&& r.pool_below == side_total(m.stakes, r.id, Side::Below)
                &&& r.boosted_above == boost_total(m.stakes, r.id, Side::Above)
                &&& r.boosted_below == boost_total(m.stakes, r.id, Side::Below)
                &&& r.global_boosted == r.boosted_above + r.boosted_below
            } by {
                assert(round_fits(m, k));
            }
        }
        true
    }

    /// Rebuilds a market from saved parts; `None` when the parts break the
    /// storage invariant.
    pub fn from_parts(parts: PredictParts) -> (r: Option<WickPredict>)
        ensures
            r is Some <==> parts.state().wf(),
            match r {
                Some(m) => m@ == parts.state(),
                None => true,
            },
    {
        let m = WickPredict {
            config: parts.config,
            counter: parts.counter,
            fees: parts.fees,
            last_strike_ts: parts.last_strike_ts,
            rounds: parts.rounds,
            stakes: parts.stakes,
        };
        if m.check_wf() {
            Some(m)
        } else {
            None
        }
    }

    /// Hands over the market's storage for saving.
    pub fn into_parts(self) -> (r: PredictParts)
        ensures
            r.state() == self@,
    {
        PredictParts {
            config: self.config,
            counter: self.counter,
            fees: self.fees,
            last_strike_ts: self.last_strike_ts,
            rounds: self.rounds,
            stakes: self.stakes,
        }
    }
}


impl WickPredict {
    /// Whether `create_round` stays within machine arithmetic on this tick.
    pub fn create_round_fits(&self, tick: Option<PriceData>) -> (r: bool)
        ensures
            r == self@.create_round_ok(tick),
    {
        let (lock_offset, interval) = match &self.config {
            None => {
                return true;
            },
            Some(c) => (c.lock_offset, c.oracle_interval),
        };
        let t = match tick {
            None => {
                return true;
            },
            Some(t) => t,
        };
        if self.last_strike_ts == t.timestamp {
            return true;
        }
        self.counter < u64::MAX && t.timestamp.checked_add(lock_offset).is_some()
            && t.timestamp.checked_add(interval).is_some()
    }

    /// Whether a bet stays within machine arithmetic on these inputs: an
    /// accepted bet is not negative and its stake and boosted shares keep
    /// the round's totals within `i128`.
    pub fn bet_fits(&self, user: &String, round_id: u64, side: Side, amount: i128, now: u64) -> (r:
        bool)
        requires
            self@.wf(),
        ensures
            r == (self@.bet_error(user@, round_id, amount, now) is None ==> self@.bet_ok(
                round_id,
                side,
                amount,
                now,
            )),
    {
        let min_bet = match &self.config {
            None => {
                return true;
            },
            Some(c) => c.min_bet,
        };
        let n_rounds: usize = self.rounds.len();
        proof {
            assert(n_rounds == self.counter);
        }
        if amount < min_bet || round_id == 0 || round_id > self.counter {
            return true;
        }
        let round = &self.rounds[(round_id - 1) as usize];
        if now >= round.lock_ts || round.status != Status::Open {
            return true;
        }
        if self.find_stake(round_id, user).is_some() {
            return true;
        }
        if amount < 0 {
            return false;
        }
        let secs: i128 = (round.lock_ts - now) as i128;
        let b = match amount.checked_mul(secs) {
            None => {
                return false;
            },
            Some(b) => b,
        };
        if round.global_boosted.checked_add(b).is_none() {
            return false;
        }
        match side {
            Side::Above => round.pool_above.checked_add(amount).is_some()
                && round.boosted_above.checked_add(b).is_some(),
            Side::Below => round.pool_below.checked_add(amount).is_some()
                && round.boosted_below.checked_add(b).is_some(),
        }
    }

    /// Whether `settle` stays within machine arithmetic on these inputs:
    /// the fee on a decided round's losing pool and the fee total fit.
    pub fn settle_fits(&self, round_id: u64, now: u64, price: Option<PriceData>) -> (r: bool)
        requires
            self@.wf(),
        ensures
            r == self@.settle_ok(round_id, now, price),
    {
        let fee_bps = match &self.config {
            None => {
                return true;
            },
            Some(c) => c.fee_bps,
        };
        let n_rounds: usize = self.rounds.len();
        proof {
            assert(n_rounds == self.counter);
        }
        if round_id == 0 || round_id > self.counter {
            return true;
        }
        let round = &self.rounds[(round_id - 1) as usize];
        if round.status == Status::Settled || now < round.settle_ts {
            return true;
        }
        if round.pool_above == 0 || round.pool_below == 0 {
            return true;
        }
        let losing = match price {
            None => {
                return true;
            },
            Some(p) => if p.price > round.strike {
                round.pool_below
            } else if p.price < round.strike {
                round.pool_above
            } else {
                return true;
            },
        };
        let product = match losing.checked_mul(fee_bps as i128) {
            None => {
                return false;
            },
            Some(x) => x,
        };
        let fee = div_pos(product, 10_000);
        self.fees.checked_add(fee).is_some()
    }

    /// Whether `claim` stays within machine arithmetic on these inputs.
    pub fn claim_fits(&self, round_id: u64, user: &String) -> (r: bool)
        requires
            self@.wf(),
        ensures
            r == (self@.claim_error(round_id, user@) is None ==> claim_arith_ok(
                self@.round(round_id).unwrap(),
                self@.position(round_id, user@).unwrap(),
                self@.config.unwrap().fee_bps,
            )),
    {
        let fee_bps = match &self.config {
            None => {
                return true;
            },
            Some(c) => c.fee_bps,
        };
        let n_rounds: usize = self.rounds.len();
        proof {
            assert(n_rounds == self.counter);
        }
        if round_id == 0 || round_id > self.counter {
            return true;
        }
        let round = &self.rounds[(round_id - 1) as usize];
        if round.status != Status::Settled {
            return true;
        }
        let k = match self.find_stake(round_id, user) {
            None => {
                return true;
            },
            Some(k) => k,
        };
        let pos = self.stakes[k].position;
        if pos.claimed || round.outcome == Outcome::Void {
            return true;
        }
        let losing = if round.outcome == Outcome::Above {
            round.pool_below
        } else {
            round.pool_above
        };
        let product = match losing.checked_mul(fee_bps as i128) {
            None => {
                return false;
            },
            Some(x) => x,
        };
        let fee = div_pos(product, 10_000);
        let distributed = match losing.checked_sub(fee) {
            None => {
                return false;
            },
            Some(d) => d,
        };
        let won = (pos.side == Side::Above && round.outcome == Outcome::Above) || (pos.side
            == Side::Below && round.outcome == Outcome::Below);
        if won {
            let side_boosted = if round.outcome == Outcome::Above {
                round.boosted_above
            } else {
                round.boosted_below
            };
            winner_payout_fits(
                pos.amount,
                distributed,
                pos.boosted,
                side_boosted,
                round.global_boosted,
            )
        } else {
            loser_payout_fits(distributed, pos.boosted, round.global_boosted)
        }
    }
}

} // verus!
