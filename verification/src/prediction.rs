//! The epoch-driven market: one round per asset and five-minute epoch.
//!
//! `genesis_start` opens the first round; `genesis_lock` locks it one
//! epoch later at the oracle's price for that boundary. From then on each
//! `execute_round` at an epoch boundary E closes round E-1 (resolving or
//! cancelling it), locks round E and opens round E+1, reading the oracle
//! for the boundary timestamp E*300 so the outcome does not depend on when
//! the call lands. It also settles round E-2 late if a boundary was missed.
//! Winners split the reward pool (the pot less the fee) in proportion to
//! their stake; cancelled rounds refund stakes in full.
//!
//! The caller supplies the ledger time and the oracle's readings, moves the
//! tokens each operation returns, and publishes the recorded events.
use vstd::prelude::*;
use crate::division::{div_pos, fits_i128};
use crate::math::{compute_payout, compute_pools, payout, payout_ok, pool_fee, pools_ok};
use crate::prediction_store::{copy_config, ring_push, PredictionStore, StoreState};
use crate::prediction_types::{
    fetch_price, fresh_price, fresh_round, Asset, Bet, BetEvent, CancelEvent, CancelReason,
    ClaimEvent, Config, ContractEvent, Direction, Error, GenesisStatus, LockEvent, PriceData,
    ResolveEvent, Round, RoundStatus,
};

verus! {

/// Round length in seconds.
pub const INTERVAL_SECS: u64 = 300;

/// Default oracle staleness tolerance in seconds.
pub const STALENESS_TOLERANCE_SECS: u64 = 60;

/// The market's storage together with the events emitted so far.
pub struct PredictionState {
    pub store: StoreState,
    pub events: Seq<ContractEvent>,
}

/// The direction a resolved round names as winner: `Up` when the price
/// rose, otherwise `Down`. After an exact tie its reward pool is empty, so
/// the named side is paid nothing.
pub open spec fn winning_side(round: Round) -> Direction {
    if round.end_price > round.start_price {
        Direction::Up
    } else {
        Direction::Down
    }
}

/// The fee a round resolving on end price `end` pays the treasury: on an
/// exact tie the house takes the whole pot, otherwise `fee_bps` of it.
pub open spec fn resolution_fee(round: Round, end: i128, fee_bps: u32) -> int {
    if round.start_price == end {
        round.total_amount as int
    } else {
        pool_fee(round.total_amount as int, fee_bps as int)
    }
}

/// The pool of one direction.
pub open spec fn side_amount(round: Round, direction: Direction) -> int {
    match direction {
        Direction::Up => round.up_amount as int,
        Direction::Down => round.down_amount as int,
    }
}

impl PredictionState {
    /// The configuration (when initialized).
    pub open spec fn config(self) -> Config {
        self.store.config.unwrap()
    }

    /// The storage invariant.
    pub open spec fn wf(self) -> bool {
        &&& self.store.config matches Some(c) ==> c.interval_secs == INTERVAL_SECS
        &&& forall|a: Asset| !self.store.rounds.contains_key((a, 0u64))
    }

    /// The state with a round stored.
    pub open spec fn with_round(self, asset: Asset, epoch: u64, round: Round) -> PredictionState {
        PredictionState {
            store: StoreState { rounds: self.store.rounds.insert((asset, epoch), round), ..self.store },
            ..self
        }
    }

    /// The state with an event recorded.
    pub open spec fn emit(self, event: ContractEvent) -> PredictionState {
        PredictionState { events: self.events.push(event), ..self }
    }

    /// The state with an asset's genesis status set.
    pub open spec fn with_genesis(self, asset: Asset, status: GenesisStatus) -> PredictionState {
        PredictionState { store: self.store.with_genesis(asset, status), ..self }
    }

    /// The state with the treasury's fees changed.
    pub open spec fn with_treasury(self, treasury: int) -> PredictionState {
        PredictionState { store: StoreState { treasury: treasury as i128, ..self.store }, ..self }
    }

    /// A cancellation event.
    pub open spec fn cancel_event(asset: Asset, epoch: u64, reason: CancelReason, total: i128) -> ContractEvent {
        ContractEvent::Cancel {
            asset,
            epoch,
            payload: CancelEvent { reason, total_amount: total },
        }
    }

    /// Settling a locked round at `close_ts` on end price `price`: a missing
    /// price cancels it as stale; a one-sided pool or (with tie refunds on)
    /// an exact tie cancels it; otherwise it resolves, the fee (the whole
    /// pot on an exact tie with tie refunds off) goes to the treasury and
    /// the rest becomes the reward pool. Any other round is left alone.
    pub open spec fn settle_locked(
        self,
        asset: Asset,
        epoch: u64,
        close_ts: u64,
        price: Option<i128>,
    ) -> PredictionState {
        match self.store.round(asset, epoch) {
            None => self,
            Some(r) => if r.status != RoundStatus::Locked {
                self
            } else {
                match price {
                    None => self.with_round(asset, epoch, Round { status: RoundStatus::Cancelled, ..r }).emit(
                        Self::cancel_event(asset, epoch, CancelReason::Stale, r.total_amount),
                    ),
                    Some(end) => {
                        let one_sided = r.up_amount == 0 || r.down_amount == 0;
                        let is_tie = self.config().tie_refund && r.start_price == end;
                        if one_sided || is_tie {
                            self.with_round(
                                asset,
                                epoch,
                                Round {
                                    end_price: end,
                                    close_time: close_ts,
                                    status: RoundStatus::Cancelled,
                                    ..r
                                },
                            ).emit(
                                Self::cancel_event(
                                    asset,
                                    epoch,
                                    if is_tie {
                                        CancelReason::Tie
                                    } else {
                                        CancelReason::OneSided
                                    },
                                    r.total_amount,
                                ),
                            )
                        } else {
                            let fee = resolution_fee(r, end, self.config().fee_bps);
                            let pool = r.total_amount - fee;
                            let resolved = Round {
                                end_price: end,
                                close_time: close_ts,
                                treasury_fee: fee as i128,
                                reward_pool: pool as i128,
                                status: RoundStatus::Resolved,
                                ..r
                            };
                            self.with_round(asset, epoch, resolved).with_treasury(
                                self.store.treasury + fee,
                            ).emit(
                                ContractEvent::Resolve {
                                    asset,
                                    epoch,
                                    payload: ResolveEvent {
                                        start_price: r.start_price,
                                        end_price: end,
                                        winner: winning_side(resolved),
                                        reward_pool: pool as i128,
                                        treasury_fee: fee as i128,
                                    },
                                },
                            )
                        }
                    },
                }
            },
        }
    }

    /// Settling a locked round stays within `i128`.
    pub open spec fn settle_locked_ok(self, asset: Asset, epoch: u64, price: Option<i128>) -> bool {
        match (self.store.round(asset, epoch), price) {
            (Some(r), Some(end)) => {
                let one_sided = r.up_amount == 0 || r.down_amount == 0;
                let is_tie = self.config().tie_refund && r.start_price == end;
                (r.status == RoundStatus::Locked && !one_sided && !is_tie) ==> if r.start_price
                    == end {
                    fits_i128(self.store.treasury + r.total_amount)
                } else {
                    &&& pools_ok(r.total_amount as int, self.config().fee_bps as int)
                    &&& fits_i128(
                        self.store.treasury + pool_fee(
                            r.total_amount as int,
                            self.config().fee_bps as int,
                        ),
                    )
                }
            },
            _ => true,
        }
    }

    /// Locking an open round at the boundary `epoch_ts`: with a fresh price
    /// it is locked at that start price; without one it is cancelled.
    pub open spec fn lock_round(
        self,
        asset: Asset,
        epoch: u64,
        epoch_ts: u64,
        price: Option<i128>,
        r: Round,
    ) -> PredictionState {
        match price {
            Some(p) => self.with_round(
                asset,
                epoch,
                Round { start_price: p, lock_time: epoch_ts, status: RoundStatus::Locked, ..r },
            ).emit(
                ContractEvent::Lock {
                    asset,
                    epoch,
                    payload: LockEvent {
                        start_price: p,
                        up_amount: r.up_amount,
                        down_amount: r.down_amount,
                        total_amount: r.total_amount,
                    },
                },
            ),
            None => self.with_round(asset, epoch, Round { status: RoundStatus::Cancelled, ..r }).emit(
                Self::cancel_event(asset, epoch, CancelReason::Stale, r.total_amount),
            ),
        }
    }

    /// Opening round `next` if it does not exist yet.
    pub open spec fn open_next(self, asset: Asset, epoch_ts: u64, next: u64) -> PredictionState {
        if self.store.rounds.contains_key((asset, next)) {
            self
        } else {
            self.with_round(
                asset,
                next,
                fresh_round(epoch_ts, (next * INTERVAL_SECS) as u64, ((next + 1) * INTERVAL_SECS) as u64),
            )
        }
    }

    /// Why `genesis_start` refuses, if it does.
    pub open spec fn genesis_start_error(self, asset: Asset) -> Option<Error> {
        if self.store.config is None {
            Some(Error::NotInitialized)
        } else if self.config().paused {
            Some(Error::Paused)
        } else if self.store.genesis(asset) != GenesisStatus::NotStarted {
            Some(Error::GenesisAlreadyStarted)
        } else {
            None
        }
    }

    /// State after `genesis_start` at time `now`: the round of the next
    /// epoch is open.
    pub open spec fn after_genesis_start(self, asset: Asset, now: u64) -> PredictionState {
        let open_epoch = (now / INTERVAL_SECS + 1) as u64;
        self.with_round(
            asset,
            open_epoch,
            fresh_round(now, (open_epoch * INTERVAL_SECS) as u64, ((open_epoch + 1) * INTERVAL_SECS) as u64),
        ).with_genesis(asset, GenesisStatus::Started)
    }

    /// Why `genesis_lock` refuses, if it does.
    pub open spec fn genesis_lock_error(self, asset: Asset, now: u64) -> Option<Error> {
        let current = (now / INTERVAL_SECS) as u64;
        if self.store.config is None {
            Some(Error::NotInitialized)
        } else if self.config().paused {
            Some(Error::Paused)
        } else if self.store.genesis(asset) != GenesisStatus::Started {
            Some(Error::GenesisNotStarted)
        } else if self.store.round(asset, current) is None {
            Some(Error::RoundNotFound)
        } else if self.store.round(asset, current).unwrap().status != RoundStatus::Open {
            Some(Error::RoundNotOpen)
        } else {
            None
        }
    }

    /// State after `genesis_lock` at time `now` with the oracle's reading
    /// for the current epoch boundary.
    pub open spec fn after_genesis_lock(self, asset: Asset, now: u64, reading: Option<PriceData>) -> PredictionState {
        let current = (now / INTERVAL_SECS) as u64;
        let epoch_ts = (current * INTERVAL_SECS) as u64;
        let price = fresh_price(reading, epoch_ts, self.config().oracle_staleness_tolerance);
        self.lock_round(asset, current, epoch_ts, price, self.store.round(asset, current).unwrap()).open_next(
            asset,
            epoch_ts,
            (current + 1) as u64,
        ).with_genesis(asset, GenesisStatus::Running)
    }

    /// Why `execute_round` refuses, if it does.
    pub open spec fn execute_round_error(self, asset: Asset) -> Option<Error> {
        if self.store.config is None {
            Some(Error::NotInitialized)
        } else if self.store.genesis(asset) != GenesisStatus::Running {
            Some(Error::GenesisNotStarted)
        } else {
            None
        }
    }

    /// `execute_round` at time `now` is a no-op: this epoch's round was
    /// already locked or cancelled.
    pub open spec fn epoch_done(self, asset: Asset, now: u64) -> bool {
        let current = (now / INTERVAL_SECS) as u64;
        self.store.round(asset, current) matches Some(c) && c.status != RoundStatus::Open
    }

    /// State after the late settlement of round E-2, with the oracle's
    /// reading for boundary E-1.
    pub open spec fn retro_step(self, asset: Asset, now: u64, prev_reading: Option<PriceData>) -> PredictionState {
        let current = (now / INTERVAL_SECS) as u64;
        if current >= 2 {
            let retro_ts = ((current - 1) * INTERVAL_SECS) as u64;
            self.settle_locked(
                asset,
                (current - 2) as u64,
                retro_ts,
                fresh_price(prev_reading, retro_ts, self.config().oracle_staleness_tolerance),
            )
        } else {
            self
        }
    }

    /// State after closing round E-1: settled if locked, cancelled as missed
    /// if it was never locked.
    pub open spec fn close_step(self, asset: Asset, now: u64, price: Option<i128>) -> PredictionState {
        let current = (now / INTERVAL_SECS) as u64;
        let epoch_ts = (current * INTERVAL_SECS) as u64;
        if current == 0 {
            self
        } else {
            let prev = (current - 1) as u64;
            match self.store.round(asset, prev) {
                None => self,
                Some(p) => if p.status == RoundStatus::Locked {
                    self.settle_locked(asset, prev, epoch_ts, price)
                } else if p.status == RoundStatus::Open {
                    self.with_round(asset, prev, Round { status: RoundStatus::Cancelled, ..p }).emit(
                        Self::cancel_event(asset, prev, CancelReason::Missed, p.total_amount),
                    )
                } else {
                    self
                },
            }
        }
    }

    /// State after `execute_round` at time `now`, with the oracle's readings
    /// for this epoch's boundary and the previous one.
    pub open spec fn after_execute_round(
        self,
        asset: Asset,
        now: u64,
        reading: Option<PriceData>,
        prev_reading: Option<PriceData>,
    ) -> PredictionState {
        if self.epoch_done(asset, now) {
            self
        } else {
            let current = (now / INTERVAL_SECS) as u64;
            let epoch_ts = (current * INTERVAL_SECS) as u64;
            let price = fresh_price(reading, epoch_ts, self.config().oracle_staleness_tolerance);
            let s1 = self.retro_step(asset, now, prev_reading);
            let s2 = s1.close_step(asset, now, price);
            let s3 = match self.store.round(asset, current) {
                Some(c) => s2.lock_round(asset, current, epoch_ts, price, c),
                None => s2,
            };
            s3.open_next(asset, epoch_ts, (current + 1) as u64)
        }
    }

    /// `execute_round` stays within integer range.
    pub open spec fn execute_round_ok(
        self,
        asset: Asset,
        now: u64,
        reading: Option<PriceData>,
        prev_reading: Option<PriceData>,
    ) -> bool {
        let current = (now / INTERVAL_SECS) as u64;
        let epoch_ts = (current * INTERVAL_SECS) as u64;
        let price = fresh_price(reading, epoch_ts, self.config().oracle_staleness_tolerance);
        let s1 = self.retro_step(asset, now, prev_reading);
        (self.execute_round_error(asset) is None && !self.epoch_done(asset, now)) ==> {
            &&& (current + 2) * INTERVAL_SECS <= u64::MAX
            &&& current >= 2 ==> self.settle_locked_ok(
                asset,
                (current - 2) as u64,
                fresh_price(
                    prev_reading,
                    ((current - 1) * INTERVAL_SECS) as u64,
                    self.config().oracle_staleness_tolerance,
                ),
            )
            &&& current >= 1 ==> s1.settle_locked_ok(asset, (current - 1) as u64, price)
        }
    }

    /// Why a bet is refused, if it is.
    pub open spec fn bet_error(self, user: Seq<char>, asset: Asset, epoch: u64, amount: i128, now: u64) -> Option<Error> {
        if self.store.config is None {
            Some(Error::NotInitialized)
        } else if self.config().paused {
            Some(Error::Paused)
        } else if amount < self.config().min_bet {
            Some(Error::BetTooSmall)
        } else if epoch != now / INTERVAL_SECS + 1 {
            Some(Error::InvalidEpoch)
        } else if self.store.round(asset, epoch) is None {
            Some(Error::RoundNotFound)
        } else if self.store.round(asset, epoch).unwrap().status != RoundStatus::Open {
            Some(Error::RoundNotOpen)
        } else if self.store.bet(asset, epoch, user) is Some {
            Some(Error::AlreadyBet)
        } else {
            None
        }
    }

    /// An accepted bet's arithmetic stays within `i128`.
    pub open spec fn bet_ok(self, asset: Asset, epoch: u64, direction: Direction, amount: i128) -> bool {
        let r = self.store.round(asset, epoch).unwrap();
        &&& amount >= 0
        &&& direction == Direction::Up ==> fits_i128(r.up_amount + amount)
        &&& direction == Direction::Down ==> fits_i128(r.down_amount + amount)
        &&& fits_i128(r.total_amount + amount)
    }

    /// A round with a bet added.
    pub open spec fn round_with_bet(r: Round, direction: Direction, amount: i128) -> Round {
        match direction {
            Direction::Up => Round {
                up_amount: (r.up_amount + amount) as i128,
                total_amount: (r.total_amount + amount) as i128,
                ..r
            },
            Direction::Down => Round {
                down_amount: (r.down_amount + amount) as i128,
                total_amount: (r.total_amount + amount) as i128,
                ..r
            },
        }
    }

    /// State after an accepted bet.
    pub open spec fn after_bet(self, user: String, asset: Asset, epoch: u64, direction: Direction, amount: i128) -> PredictionState {
        let r = Self::round_with_bet(self.store.round(asset, epoch).unwrap(), direction, amount);
        let buf = self.store.epochs(asset, user@);
        PredictionState {
            store: StoreState {
                rounds: self.store.rounds.insert((asset, epoch), r),
                bets: self.store.bets.insert(
                    (asset, epoch, user@),
                    Bet { direction, amount, claimed: false },
                ),
                user_epochs: if buf.contains(epoch) {
                    self.store.user_epochs
                } else {
                    self.store.user_epochs.insert((asset, user@), ring_push(buf, epoch))
                },
                ..self.store
            },
            events: self.events.push(
                ContractEvent::Bet {
                    asset,
                    epoch,
                    payload: BetEvent {
                        user,
                        direction,
                        amount,
                        up_amount: r.up_amount,
                        down_amount: r.down_amount,
                    },
                },
            ),
        }
    }

    /// What a claim pays on one epoch: the winner's share of the reward
    /// pool on a resolved round for an unclaimed winning bet, else 0.
    pub open spec fn win_amount(self, asset: Asset, epoch: u64, user: Seq<char>) -> int {
        match (self.store.round(asset, epoch), self.store.bet(asset, epoch, user)) {
            (Some(r), Some(b)) => if r.status == RoundStatus::Resolved && !b.claimed
                && b.direction == winning_side(r) {
                payout(b.amount as int, r.reward_pool as int, side_amount(r, winning_side(r)))
            } else {
                0
            },
            _ => 0,
        }
    }

    /// The same claim stays within `i128`.
    pub open spec fn win_ok(self, asset: Asset, epoch: u64, user: Seq<char>) -> bool {
        match (self.store.round(asset, epoch), self.store.bet(asset, epoch, user)) {
            (Some(r), Some(b)) => (r.status == RoundStatus::Resolved && !b.claimed && b.direction
                == winning_side(r)) ==> payout_ok(
                b.amount as int,
                r.reward_pool as int,
                side_amount(r, winning_side(r)),
            ),
            _ => true,
        }
    }

    /// The state with a bet marked claimed.
    pub open spec fn mark_claimed(self, asset: Asset, epoch: u64, user: Seq<char>) -> PredictionState {
        PredictionState {
            store: StoreState {
                bets: self.store.bets.insert(
                    (asset, epoch, user),
                    Bet { claimed: true, ..self.store.bets[(asset, epoch, user)] },
                ),
                ..self.store
            },
            ..self
        }
    }

    /// Claiming winnings over the given epochs in order: the state after,
    /// the total paid, and how many epochs paid.
    pub open spec fn claims(self, asset: Asset, epochs: Seq<u64>, user: Seq<char>) -> (PredictionState, int, int)
        decreases epochs.len(),
    {
        if epochs.len() == 0 {
            (self, 0, 0)
        } else {
            let (s, total, count) = self.claims(asset, epochs.drop_last(), user);
            let e = epochs.last();
            let p = s.win_amount(asset, e, user);
            if p == 0 {
                (s, total, count)
            } else {
                (s.mark_claimed(asset, e, user), total + p, count + 1)
            }
        }
    }

    /// Claiming over the given epochs stays within integer range.
    pub open spec fn claims_ok(self, asset: Asset, epochs: Seq<u64>, user: Seq<char>) -> bool
        decreases epochs.len(),
    {
        if epochs.len() == 0 {
            true
        } else {
            let (s, total, count) = self.claims(asset, epochs.drop_last(), user);
            let e = epochs.last();
            &&& self.claims_ok(asset, epochs.drop_last(), user)
            &&& s.win_ok(asset, e, user)
            &&& fits_i128(total + s.win_amount(asset, e, user))
            &&& count + 1 <= u32::MAX
        }
    }

    /// What a refund pays on one epoch: the stake of an unclaimed bet on a
    /// cancelled round.
    pub open spec fn refund_due(self, asset: Asset, epoch: u64, user: Seq<char>) -> bool {
        &&& self.store.round(asset, epoch) matches Some(r) && r.status == RoundStatus::Cancelled
        &&& self.store.bet(asset, epoch, user) matches Some(b) && !b.claimed
    }

    /// Refunding over the given epochs in order: the state after, the total
    /// refunded, and how many epochs were refunded.
    pub open spec fn refunds(self, asset: Asset, epochs: Seq<u64>, user: Seq<char>) -> (PredictionState, int, int)
        decreases epochs.len(),
    {
        if epochs.len() == 0 {
            (self, 0, 0)
        } else {
            let (s, total, count) = self.refunds(asset, epochs.drop_last(), user);
            let e = epochs.last();
            if s.refund_due(asset, e, user) {
                (s.mark_claimed(asset, e, user), total + s.store.bets[(asset, e, user)].amount, count + 1)
            } else {
                (s, total, count)
            }
        }
    }

    /// Refunding over the given epochs stays within integer range.
    pub open spec fn refunds_ok(self, asset: Asset, epochs: Seq<u64>, user: Seq<char>) -> bool
        decreases epochs.len(),
    {
        if epochs.len() == 0 {
            true
        } else {
            let (s, total, count) = self.refunds(asset, epochs.drop_last(), user);
            let e = epochs.last();
            &&& self.refunds_ok(asset, epochs.drop_last(), user)
            &&& s.refund_due(asset, e, user) ==> fits_i128(total + s.store.bets[(asset, e, user)].amount)
                && count + 1 <= u32::MAX
        }
    }

    /// What `claimable` reports for one epoch: the stake of an unclaimed
    /// bet on a cancelled round, the payout of an unclaimed winning bet on a
    /// resolved round, and 0 otherwise.
    pub open spec fn claimable_amount(self, asset: Asset, epoch: u64, user: Seq<char>) -> int {
        match (self.store.round(asset, epoch), self.store.bet(asset, epoch, user)) {
            (Some(r), Some(b)) => if b.claimed {
                0
            } else if r.status == RoundStatus::Cancelled {
                b.amount as int
            } else if r.status == RoundStatus::Resolved && b.direction == winning_side(r) {
                payout(b.amount as int, r.reward_pool as int, side_amount(r, winning_side(r)))
            } else {
                0
            },
            _ => 0,
        }
    }
}


/// The epoch-driven market contract: its storage and the events it has
/// emitted and not yet handed out.
pub struct WickContract {
    store: PredictionStore,
    events: Vec<ContractEvent>,
}

impl View for WickContract {
    type V = PredictionState;

    closed spec fn view(&self) -> PredictionState {
        PredictionState { store: self.store@, events: self.events@ }
    }
}

impl WickContract {
    /// The contract's invariant.
    pub closed spec fn inv(&self) -> bool {
        self.store.inv() && self@.wf()
    }

    /// A deployed contract before initialization.
    pub fn new() -> (r: WickContract)
        ensures
            r.inv(),
            r@.store.config is None,
            r@.store.rounds == Map::<(Asset, u64), Round>::empty(),
            r@.store.bets == Map::<(Asset, u64, Seq<char>), Bet>::empty(),
            r@.store.user_epochs == Map::<(Asset, Seq<char>), Seq<u64>>::empty(),
            r@.store.treasury == 0,
            r@.store.genesis(Asset::Btc) == GenesisStatus::NotStarted,
            r@.store.genesis(Asset::Eth) == GenesisStatus::NotStarted,
            r@.store.genesis(Asset::Sol) == GenesisStatus::NotStarted,
            r@.store.genesis(Asset::Xlm) == GenesisStatus::NotStarted,
            r@.events.len() == 0,
    {
        WickContract { store: PredictionStore::new(), events: Vec::new() }
    }

    /// Hands out the events emitted so far, oldest first, and forgets them.
    pub fn take_events(&mut self) -> (r: Vec<ContractEvent>)
        requires
            old(self).inv(),
        ensures
            final(self).inv(),
            r@ == old(self)@.events,
            final(self)@ == (PredictionState { events: Seq::empty(), ..old(self)@ }),
    {
        let mut taken: Vec<ContractEvent> = Vec::new();
        std::mem::swap(&mut taken, &mut self.events);
        taken
    }

    /// Records a bet event.
    pub fn emit_bet(&mut self, asset: &Asset, epoch: u64, payload: BetEvent)
        requires
            old(self).inv(),
        ensures
            final(self).inv(),
            final(self)@ == old(self)@.emit(ContractEvent::Bet { asset: *asset, epoch, payload }),
    {
        self.events.push(ContractEvent::Bet { asset: *asset, epoch, payload });
    }

    /// Records a lock event.
    pub fn emit_lock(&mut self, asset: &Asset, epoch: u64, payload: LockEvent)
        requires
            old(self).inv(),
        ensures
            final(self).inv(),
            final(self)@ == old(self)@.emit(ContractEvent::Lock { asset: *asset, epoch, payload }),
    {
        self.events.push(ContractEvent::Lock { asset: *asset, epoch, payload });
    }

    /// Records a resolution event.
    pub fn emit_resolve(&mut self, asset: &Asset, epoch: u64, payload: ResolveEvent)
        requires
            old(self).inv(),
        ensures
            final(self).inv(),
            final(self)@ == old(self)@.emit(ContractEvent::Resolve { asset: *asset, epoch, payload }),
    {
        self.events.push(ContractEvent::Resolve { asset: *asset, epoch, payload });
    }

    /// Records a cancellation event.
    pub fn emit_cancel(&mut self, asset: &Asset, epoch: u64, payload: CancelEvent)
        requires
            old(self).inv(),
        ensures
            final(self).inv(),
            final(self)@ == old(self)@.emit(ContractEvent::Cancel { asset: *asset, epoch, payload }),
    {
        self.events.push(ContractEvent::Cancel { asset: *asset, epoch, payload });
    }

    /// Records a claim event.
    pub fn emit_claim(&mut self, asset: &Asset, payload: ClaimEvent)
        requires
            old(self).inv(),
        ensures
            final(self).inv(),
            final(self)@ == old(self)@.emit(ContractEvent::Claim { asset: *asset, payload }),
    {
        self.events.push(ContractEvent::Claim { asset: *asset, payload });
    }

    /// Stores a round, keeping the invariant for rounds of epoch 1 on.
    fn put_round(&mut self, asset: &Asset, epoch: u64, round: &Round)
        requires
            old(self).inv(),
            epoch >= 1,
        ensures
            final(self).inv(),
            final(self)@ == old(self)@.with_round(*asset, epoch, *round),
    {
        self.store.set_round(asset, epoch, round);
        proof {
            assert(self@ =~= old(self)@.with_round(*asset, epoch, *round));
            assert forall|a: Asset| !self@.store.rounds.contains_key((a, 0u64)) by {
                assert(old(self)@.store.rounds.contains_key((a, 0u64)) == false);
            }
        }
    }

    /// Initializes the market with a 300-second interval, a 60-second
    /// staleness tolerance, betting unpaused and tie refunds on.
    pub fn initialize(
        &mut self,
        admin: String,
        oracle: String,
        token: String,
        treasury: String,
        fee_bps: u32,
        min_bet: i128,
    ) -> (r: Result<(), Error>)
        requires
            old(self).inv(),
        ensures
            final(self).inv(),
            old(self)@.store.config is Some ==> r == Err::<(), Error>(Error::AlreadyInitialized)
                && final(self)@ == old(self)@,
            old(self)@.store.config is None ==> r == Ok::<(), Error>(()) && final(self)@ == (
            PredictionState {
                store: StoreState {
                    config: Some(
                        Config {
                            admin,
                            oracle,
                            token,
                            treasury,
                            fee_bps,
                            interval_secs: INTERVAL_SECS,
                            min_bet,
                            oracle_staleness_tolerance: STALENESS_TOLERANCE_SECS,
                            paused: false,
                            tie_refund: true,
                        },
                    ),
                    ..old(self)@.store
                },
                ..old(self)@
            }),
    {
        if self.store.has_config() {
            return Err(Error::AlreadyInitialized);
        }
        let config = Config {
            admin,
            oracle,
            token,
            treasury,
            fee_bps,
            interval_secs: INTERVAL_SECS,
            min_bet,
            oracle_staleness_tolerance: STALENESS_TOLERANCE_SECS,
            paused: false,
            tie_refund: true,
        };
        self.store.set_config(config);
        proof {
            assert forall|a: Asset| !self@.store.rounds.contains_key((a, 0u64)) by {
                assert(old(self)@.store.rounds.contains_key((a, 0u64)) == false);
            }
        }
        Ok(())
    }

    /// Opens the first round of `asset` at time `now`: the round of the
    /// next epoch.
    pub fn genesis_start(&mut self, asset: Asset, now: u64) -> (r: Result<(), Error>)
        requires
            old(self).inv(),
            old(self)@.genesis_start_error(asset) is None ==> (now / INTERVAL_SECS + 2) * INTERVAL_SECS
                <= u64::MAX,
        ensures
            final(self).inv(),
            match old(self)@.genesis_start_error(asset) {
                Some(e) => r == Err::<(), Error>(e) && final(self)@ == old(self)@,
                None => r == Ok::<(), Error>(()) && final(self)@ == old(self)@.after_genesis_start(
                    asset,
                    now,
                ),
            },
    {
        if !self.store.has_config() {
            return Err(Error::NotInitialized);
        }
        let config = self.store.get_config();
        if config.paused {
            return Err(Error::Paused);
        }
        if self.store.get_genesis_status(&asset) != GenesisStatus::NotStarted {
            return Err(Error::GenesisAlreadyStarted);
        }
        let interval = config.interval_secs;
        let current_epoch = now / interval;
        let open_epoch = current_epoch + 1;
        let round = Round::new(now, open_epoch * interval, (open_epoch + 1) * interval);
        self.put_round(&asset, open_epoch, &round);
        self.store.set_genesis_status(&asset, GenesisStatus::Started);
        proof {
            assert(self@ =~= old(self)@.after_genesis_start(asset, now));
        }
        Ok(())
    }

    /// Locks or cancels a round at the epoch boundary `epoch_ts`.
    fn lock_current(&mut self, asset: &Asset, epoch: u64, epoch_ts: u64, price: Option<i128>, r: Round)
        requires
            old(self).inv(),
            epoch >= 1,
        ensures
            final(self).inv(),
            final(self)@ == old(self)@.lock_round(*asset, epoch, epoch_ts, price, r),
    {
        match price {
            Some(start_price) => {
                let mut locked = r;
                locked.start_price = start_price;
                locked.lock_time = epoch_ts;
                locked.status = RoundStatus::Locked;
                self.put_round(asset, epoch, &locked);
                self.emit_lock(
                    asset,
                    epoch,
                    LockEvent {
                        start_price,
                        up_amount: r.up_amount,
                        down_amount: r.down_amount,
                        total_amount: r.total_amount,
                    },
                );
            },
            None => {
                let mut cancelled = r;
                cancelled.status = RoundStatus::Cancelled;
                self.put_round(asset, epoch, &cancelled);
                self.emit_cancel(
                    asset,
                    epoch,
                    CancelEvent { reason: CancelReason::Stale, total_amount: r.total_amount },
                );
            },
        }
    }

    /// Opens round `next` unless it already exists.
    fn open_round(&mut self, asset: &Asset, epoch_ts: u64, next: u64)
        requires
            old(self).inv(),
            old(self)@.store.config is Some,
            next >= 1,
            (next + 1) * INTERVAL_SECS <= u64::MAX,
        ensures
            final(self).inv(),
            final(self)@ == old(self)@.open_next(*asset, epoch_ts, next),
    {
        if !self.store.has_round(asset, next) {
            let r = Round::new(epoch_ts, next * INTERVAL_SECS, (next + 1) * INTERVAL_SECS);
            self.put_round(asset, next, &r);
        }
    }

    /// Locks the first round of `asset` at time `now` on the oracle's
    /// `reading` for the current epoch boundary (cancelling it if the price
    /// is missing or stale), opens the next round and hands over to
    /// `execute_round`.
    pub fn genesis_lock(&mut self, asset: Asset, now: u64, reading: Option<PriceData>) -> (r: Result<(), Error>)
        requires
            old(self).inv(),
            old(self)@.genesis_lock_error(asset, now) is None ==> (now / INTERVAL_SECS + 2) * INTERVAL_SECS
                <= u64::MAX,
        ensures
            final(self).inv(),
            match old(self)@.genesis_lock_error(asset, now) {
                Some(e) => r == Err::<(), Error>(e) && final(self)@ == old(self)@,
                None => r == Ok::<(), Error>(()) && final(self)@ == old(self)@.after_genesis_lock(
                    asset,
                    now,
                    reading,
                ),
            },
    {
        if !self.store.has_config() {
            return Err(Error::NotInitialized);
        }
        let config = self.store.get_config();
        if config.paused {
            return Err(Error::Paused);
        }
        if self.store.get_genesis_status(&asset) != GenesisStatus::Started {
            return Err(Error::GenesisNotStarted);
        }
        let interval = config.interval_secs;
        let current_epoch = now / interval;
        let lock_epoch = current_epoch;
        let round = match self.store.get_round(&asset, lock_epoch) {
            None => {
                return Err(Error::RoundNotFound);
            },
            Some(r) => r,
        };
        if round.status != RoundStatus::Open {
            return Err(Error::RoundNotOpen);
        }
        proof {
            assert(lock_epoch >= 1);
        }
        let epoch_ts = current_epoch * interval;
        let start_price = fetch_price(reading, epoch_ts, config.oracle_staleness_tolerance);
        self.lock_current(&asset, lock_epoch, epoch_ts, start_price, round);
        self.open_round(&asset, epoch_ts, current_epoch + 1);
        self.store.set_genesis_status(&asset, GenesisStatus::Running);
        proof {
            assert(self@ =~= old(self)@.after_genesis_lock(asset, now, reading));
        }
        Ok(())
    }

    /// Settles a locked round at `close_ts` on end price `price_opt`; any
    /// other round is left alone.
    fn settle_locked_round(
        &mut self,
        asset: &Asset,
        epoch: u64,
        close_ts: u64,
        price_opt: Option<i128>,
        config: &Config,
    )
        requires
            old(self).inv(),
            old(self)@.store.config == Some(*config),
            old(self)@.settle_locked_ok(*asset, epoch, price_opt),
        ensures
            final(self).inv(),
            final(self)@ == old(self)@.settle_locked(*asset, epoch, close_ts, price_opt),
            final(self)@.store.config == old(self)@.store.config,
    {
        let mut round = match self.store.get_round(asset, epoch) {
            Some(r) => r,
            None => {
                return;
            },
        };
        if round.status != RoundStatus::Locked {
            return;
        }
        proof {
            assert(epoch >= 1);
        }
        let r0 = round;
        match price_opt {
            Some(end_price) => {
                round.end_price = end_price;
                round.close_time = close_ts;
                let one_sided = round.up_amount == 0 || round.down_amount == 0;
                let is_tie = config.tie_refund && round.start_price == end_price;
                if one_sided || is_tie {
                    let reason = if is_tie {
                        CancelReason::Tie
                    } else {
                        CancelReason::OneSided
                    };
                    round.status = RoundStatus::Cancelled;
                    self.put_round(asset, epoch, &round);
                    self.emit_cancel(
                        asset,
                        epoch,
                        CancelEvent { reason, total_amount: round.total_amount },
                    );
                } else {
                    let (fee, pool) = if round.start_price == end_price {
                        (round.total_amount, 0i128)
                    } else {
                        compute_pools(round.total_amount, config.fee_bps)
                    };
                    let winner = if end_price > round.start_price {
                        Direction::Up
                    } else {
                        Direction::Down
                    };
                    round.treasury_fee = fee;
                    round.reward_pool = pool;
                    round.status = RoundStatus::Resolved;
                    self.put_round(asset, epoch, &round);
                    self.store.add_treasury(fee);
                    proof {
                        assert forall|a: Asset| !self@.store.rounds.contains_key((a, 0u64)) by {}
                    }
                    self.emit_resolve(
                        asset,
                        epoch,
                        ResolveEvent {
                            start_price: round.start_price,
                            end_price,
                            winner,
                            reward_pool: pool,
                            treasury_fee: fee,
                        },
                    );
                }
            },
            None => {
                round.status = RoundStatus::Cancelled;
                self.put_round(asset, epoch, &round);
                self.emit_cancel(
                    asset,
                    epoch,
                    CancelEvent { reason: CancelReason::Stale, total_amount: round.total_amount },
                );
            },
        }
        proof {
            assert(self@ =~= old(self)@.settle_locked(*asset, epoch, close_ts, price_opt));
        }
    }
}


impl WickContract {
    /// What `execute_round` of `asset` at time `now` decides before the
    /// oracle is asked: its error, if any, and otherwise whether this
    /// epoch's round is already locked or cancelled, so the call is a no-op.
    pub fn execute_round_check(&self, asset: Asset, now: u64) -> (r: Result<bool, Error>)
        requires
            self.inv(),
        ensures
            match self@.execute_round_error(asset) {
                Some(e) => r == Err::<bool, Error>(e),
                None => r == Ok::<bool, Error>(self@.epoch_done(asset, now)),
            },
    {
        if !self.store.has_config() {
            return Err(Error::NotInitialized);
        }
        let config = self.store.get_config();
        if self.store.get_genesis_status(&asset) != GenesisStatus::Running {
            return Err(Error::GenesisNotStarted);
        }
        let current_epoch = now / config.interval_secs;
        match self.store.get_round(&asset, current_epoch) {
            Some(curr) => Ok(curr.status != RoundStatus::Open),
            None => Ok(false),
        }
    }

    /// Runs the epoch boundary of `asset` at time `now`, permissionless.
    /// `reading` is the oracle's answer for the boundary `E * 300` of the
    /// current epoch E, `prev_reading` its answer for `(E - 1) * 300`. If
    /// round E is already locked or cancelled this is a no-op. Otherwise:
    /// a locked round E-2 is settled late on the previous boundary's price;
    /// round E-1 is settled if locked or cancelled as missed if still open;
    /// round E is locked at this boundary's price (or cancelled without a
    /// fresh one); and round E+1 is opened.
    pub fn execute_round(
        &mut self,
        asset: Asset,
        now: u64,
        reading: Option<PriceData>,
        prev_reading: Option<PriceData>,
    ) -> (r: Result<(), Error>)
        requires
            old(self).inv(),
            old(self)@.execute_round_ok(asset, now, reading, prev_reading),
        ensures
            final(self).inv(),
            match old(self)@.execute_round_error(asset) {
                Some(e) => r == Err::<(), Error>(e) && final(self)@ == old(self)@,
                None => r == Ok::<(), Error>(()) && final(self)@ == old(self)@.after_execute_round(
                    asset,
                    now,
                    reading,
                    prev_reading,
                ),
            },
    {
        if !self.store.has_config() {
            return Err(Error::NotInitialized);
        }
        let config = self.store.get_config();
        if self.store.get_genesis_status(&asset) != GenesisStatus::Running {
            return Err(Error::GenesisNotStarted);
        }
        let ghost s0 = self@;
        let interval = config.interval_secs;
        let current_epoch = now / interval;
        let epoch_ts = current_epoch * interval;
        let curr_round_opt = self.store.get_round(&asset, current_epoch);
        if let Some(curr) = curr_round_opt {
            if curr.status != RoundStatus::Open {
                return Ok(());
            }
        }
        let price_opt = fetch_price(reading, epoch_ts, config.oracle_staleness_tolerance);
        // Late settlement of round E-2 when boundary E-1 was missed.
        if current_epoch >= 2 {
            let stale_epoch = current_epoch - 2;
            if let Some(stale) = self.store.get_round(&asset, stale_epoch) {
                if stale.status == RoundStatus::Locked {
                    let retro_ts = (current_epoch - 1) * interval;
                    let retro_price = fetch_price(
                        prev_reading,
                        retro_ts,
                        config.oracle_staleness_tolerance,
                    );
                    self.settle_locked_round(&asset, stale_epoch, retro_ts, retro_price, &config);
                }
            }
        }
        proof {
            assert(self@ == s0.retro_step(asset, now, prev_reading));
        }
        let ghost s1 = self@;
        // Close round E-1.
        if current_epoch >= 1 {
            let prev_epoch = current_epoch - 1;
            if let Some(prev) = self.store.get_round(&asset, prev_epoch) {
                if prev.status == RoundStatus::Locked {
                    self.settle_locked_round(&asset, prev_epoch, epoch_ts, price_opt, &config);
                } else if prev.status == RoundStatus::Open {
                    let mut cancelled = prev;
                    cancelled.status = RoundStatus::Cancelled;
                    self.put_round(&asset, prev_epoch, &cancelled);
                    self.emit_cancel(
                        &asset,
                        prev_epoch,
                        CancelEvent {
                            reason: CancelReason::Missed,
                            total_amount: cancelled.total_amount,
                        },
                    );
                }
            }
        }
        proof {
            assert(self@ == s1.close_step(asset, now, price_opt));
        }
        // Lock round E.
        if let Some(curr) = curr_round_opt {
            proof {
                assert(current_epoch >= 1);
            }
            self.lock_current(&asset, current_epoch, epoch_ts, price_opt, curr);
        }
        // Open round E+1.
        self.open_round(&asset, epoch_ts, current_epoch + 1);
        Ok(())
    }

    /// Places `user`'s bet of `amount` on `direction` in the open round
    /// `epoch` of `asset` at time `now`; on success the caller moves
    /// `amount` from the user to the market. Only the round of the next
    /// epoch takes bets, one per user.
    pub fn bet(
        &mut self,
        user: String,
        asset: Asset,
        epoch: u64,
        direction: Direction,
        amount: i128,
        now: u64,
    ) -> (r: Result<(), Error>)
        requires
            old(self).inv(),
            old(self)@.bet_error(user@, asset, epoch, amount, now) is None ==> old(self)@.bet_ok(
                asset,
                epoch,
                direction,
                amount,
            ),
        ensures
            final(self).inv(),
            match old(self)@.bet_error(user@, asset, epoch, amount, now) {
                Some(e) => r == Err::<(), Error>(e) && final(self)@ == old(self)@,
                None => r == Ok::<(), Error>(()) && final(self)@ == old(self)@.after_bet(
                    user,
                    asset,
                    epoch,
                    direction,
                    amount,
                ),
            },
    {
        if !self.store.has_config() {
            return Err(Error::NotInitialized);
        }
        let config = self.store.get_config();
        if config.paused {
            return Err(Error::Paused);
        }
        if amount < config.min_bet {
            return Err(Error::BetTooSmall);
        }
        let open_epoch = (now / config.interval_secs) + 1;
        if epoch != open_epoch {
            return Err(Error::InvalidEpoch);
        }
        let mut round = match self.store.get_round(&asset, epoch) {
            None => {
                return Err(Error::RoundNotFound);
            },
            Some(r) => r,
        };
        if round.status != RoundStatus::Open {
            return Err(Error::RoundNotOpen);
        }
        if self.store.get_bet(&asset, epoch, &user).is_some() {
            return Err(Error::AlreadyBet);
        }
        match direction {
            Direction::Up => {
                round.up_amount = round.up_amount + amount;
            },
            Direction::Down => {
                round.down_amount = round.down_amount + amount;
            },
        }
        round.total_amount = round.total_amount + amount;
        self.put_round(&asset, epoch, &round);
        let bet = Bet { direction, amount, claimed: false };
        self.store.set_bet(&asset, epoch, &user, &bet);
        self.store.push_user_epoch(&asset, &user, epoch);
        proof {
            assert forall|a: Asset| !self@.store.rounds.contains_key((a, 0u64)) by {}
        }
        let up_amount = round.up_amount;
        let down_amount = round.down_amount;
        self.emit_bet(&asset, epoch, BetEvent { user, direction, amount, up_amount, down_amount });
        proof {
            assert(self@ =~= old(self)@.after_bet(user, asset, epoch, direction, amount));
        }
        Ok(())
    }
}


/// Claiming a prefix of the epochs is within range whenever claiming all is.
pub proof fn lemma_claims_ok_prefix(m: PredictionState, asset: Asset, epochs: Seq<u64>, user: Seq<char>, k: int)
    requires
        m.claims_ok(asset, epochs, user),
        0 <= k <= epochs.len(),
    ensures
        m.claims_ok(asset, epochs.take(k), user),
    decreases epochs.len(),
{
    if k == epochs.len() {
        assert(epochs.take(k) =~= epochs);
    } else {
        lemma_claims_ok_prefix(m, asset, epochs.drop_last(), user, k);
        assert(epochs.drop_last().take(k) =~= epochs.take(k));
    }
}

/// Refunding a prefix of the epochs is within range whenever refunding all is.
pub proof fn lemma_refunds_ok_prefix(m: PredictionState, asset: Asset, epochs: Seq<u64>, user: Seq<char>, k: int)
    requires
        m.refunds_ok(asset, epochs, user),
        0 <= k <= epochs.len(),
    ensures
        m.refunds_ok(asset, epochs.take(k), user),
    decreases epochs.len(),
{
    if k == epochs.len() {
        assert(epochs.take(k) =~= epochs);
    } else {
        lemma_refunds_ok_prefix(m, asset, epochs.drop_last(), user, k);
        assert(epochs.drop_last().take(k) =~= epochs.take(k));
    }
}

/// When no epoch paid, claiming changed nothing.
pub proof fn lemma_claims_none_paid(m: PredictionState, asset: Asset, epochs: Seq<u64>, user: Seq<char>)
    ensures
        m.claims(asset, epochs, user).2 >= 0,
        m.claims(asset, epochs, user).2 == 0 ==> m.claims(asset, epochs, user).0 == m,
    decreases epochs.len(),
{
    if epochs.len() > 0 {
        lemma_claims_none_paid(m, asset, epochs.drop_last(), user);
    }
}

/// When no epoch was refunded, refunding changed nothing.
pub proof fn lemma_refunds_none_paid(m: PredictionState, asset: Asset, epochs: Seq<u64>, user: Seq<char>)
    ensures
        m.refunds(asset, epochs, user).2 >= 0,
        m.refunds(asset, epochs, user).2 == 0 ==> m.refunds(asset, epochs, user).0 == m,
    decreases epochs.len(),
{
    if epochs.len() > 0 {
        lemma_refunds_none_paid(m, asset, epochs.drop_last(), user);
    }
}

impl WickContract {
    /// Marks the stored bet of `user` claimed.
    fn mark_bet_claimed(&mut self, asset: &Asset, epoch: u64, user: &String, bet: Bet)
        requires
            old(self).inv(),
            old(self)@.store.bet(*asset, epoch, user@) == Some(bet),
        ensures
            final(self).inv(),
            final(self)@ == old(self)@.mark_claimed(*asset, epoch, user@),
    {
        let marked = Bet { direction: bet.direction, amount: bet.amount, claimed: true };
        self.store.set_bet(asset, epoch, user, &marked);
        proof {
            assert(self@ =~= old(self)@.mark_claimed(*asset, epoch, user@));
        }
    }

    /// Pays out one epoch of a claim: marks an unclaimed winning bet on a
    /// resolved round claimed and returns its payout, or returns 0 and
    /// changes nothing.
    fn claim_one(&mut self, asset: &Asset, epoch: u64, user: &String) -> (paid: i128)
        requires
            old(self).inv(),
            old(self)@.win_ok(*asset, epoch, user@),
        ensures
            final(self).inv(),
            paid == old(self)@.win_amount(*asset, epoch, user@),
            final(self)@ == (if paid == 0 {
                old(self)@
            } else {
                old(self)@.mark_claimed(*asset, epoch, user@)
            }),
    {
        if let Some(round) = self.store.get_round(asset, epoch) {
            if round.status == RoundStatus::Resolved {
                if let Some(bet) = self.store.get_bet(asset, epoch, user) {
                    if !bet.claimed {
                        let winning_side = if round.end_price > round.start_price {
                            Direction::Up
                        } else {
                            Direction::Down
                        };
                        if bet.direction == winning_side {
                            let bet_side_amount = match winning_side {
                                Direction::Up => round.up_amount,
                                Direction::Down => round.down_amount,
                            };
                            let payout = compute_payout(bet.amount, round.reward_pool, bet_side_amount);
                            if payout != 0 {
                                self.mark_bet_claimed(asset, epoch, user, bet);
                            }
                            return payout;
                        }
                    }
                }
            }
        }
        0
    }

    /// Refunds one epoch: marks an unclaimed bet on a cancelled round
    /// claimed and returns `(true, stake)`, or returns `(false, 0)` and
    /// changes nothing.
    fn refund_one(&mut self, asset: &Asset, epoch: u64, user: &String) -> (r: (bool, i128))
        requires
            old(self).inv(),
        ensures
            final(self).inv(),
            r.0 == old(self)@.refund_due(*asset, epoch, user@),
            r.0 ==> r.1 == old(self)@.store.bets[(*asset, epoch, user@)].amount && final(self)@
                == old(self)@.mark_claimed(*asset, epoch, user@),
            !r.0 ==> r.1 == 0 && final(self)@ == old(self)@,
    {
        if let Some(round) = self.store.get_round(asset, epoch) {
            if round.status == RoundStatus::Cancelled {
                if let Some(bet) = self.store.get_bet(asset, epoch, user) {
                    if !bet.claimed {
                        self.mark_bet_claimed(asset, epoch, user, bet);
                        return (true, bet.amount);
                    }
                }
            }
        }
        (false, 0)
    }

    /// Claims `user`'s winnings on `asset` over `epochs` and returns the
    /// total, which the caller transfers to the user (anyone may trigger a
    /// claim; the payout always goes to the bettor). Each resolved round
    /// with an unclaimed winning bet pays the bet's share of the reward
    /// pool once; everything else is skipped. Refuses with `NothingToClaim`
    /// when nothing paid.
    pub fn claim(&mut self, asset: Asset, epochs: &Vec<u64>, user: String) -> (r: Result<i128, Error>)
        requires
            old(self).inv(),
            old(self)@.store.config is Some ==> old(self)@.claims_ok(asset, epochs@, user@),
        ensures
            final(self).inv(),
            old(self)@.store.config is None ==> r == Err::<i128, Error>(Error::NotInitialized)
                && final(self)@ == old(self)@,
            old(self)@.store.config is Some ==> ({
                let (s, total, count) = old(self)@.claims(asset, epochs@, user@);
                &&& count == 0 ==> r == Err::<i128, Error>(Error::NothingToClaim) && final(self)@
                    == old(self)@
                &&& count > 0 ==> r == Ok::<i128, Error>(total as i128) && final(self)@ == s.emit(
                    ContractEvent::Claim {
                        asset,
                        payload: ClaimEvent { user, payout: total as i128, epoch_count: count as u32 },
                    },
                )
            }),
    {
        if !self.store.has_config() {
            return Err(Error::NotInitialized);
        }
        let ghost s0 = self@;
        let mut total_payout: i128 = 0;
        let mut count: u32 = 0;
        let mut i: usize = 0;
        while i < epochs.len()
            invariant
                i <= epochs@.len(),
                self.inv(),
                s0.claims_ok(asset, epochs@, user@),
                s0.store.config is Some,
                (self@, total_payout as int, count as int) == s0.claims(asset, epochs@.take(i as int), user@),
            decreases epochs@.len() - i,
        {
            let epoch = epochs[i];
            proof {
                lemma_claims_ok_prefix(s0, asset, epochs@, user@, i + 1);
                let pre = epochs@.take(i + 1);
                assert(pre.drop_last() =~= epochs@.take(i as int));
                assert(pre.last() == epoch);
            }
            let paid = self.claim_one(&asset, epoch, &user);
            if paid != 0 {
                total_payout = total_payout + paid;
                count = count + 1;
            }
            i = i + 1;
        }
        proof {
            assert(epochs@.take(i as int) =~= epochs@);
            lemma_claims_none_paid(s0, asset, epochs@, user@);
        }
        if count == 0 {
            return Err(Error::NothingToClaim);
        }
        self.emit_claim(&asset, ClaimEvent { user, payout: total_payout, epoch_count: count });
        Ok(total_payout)
    }

    /// Refunds `user`'s stakes on `asset` for cancelled rounds among
    /// `epochs` and returns the total, which the caller transfers to the
    /// user. Each unclaimed bet on a cancelled round is refunded once.
    /// Refuses with `NothingToClaim` when nothing was refunded.
    pub fn refund(&mut self, asset: Asset, epochs: &Vec<u64>, user: String) -> (r: Result<i128, Error>)
        requires
            old(self).inv(),
            old(self)@.store.config is Some ==> old(self)@.refunds_ok(asset, epochs@, user@),
        ensures
            final(self).inv(),
            old(self)@.store.config is None ==> r == Err::<i128, Error>(Error::NotInitialized)
                && final(self)@ == old(self)@,
            old(self)@.store.config is Some ==> ({
                let (s, total, count) = old(self)@.refunds(asset, epochs@, user@);
                &&& count == 0 ==> r == Err::<i128, Error>(Error::NothingToClaim) && final(self)@
                    == old(self)@
                &&& count > 0 ==> r == Ok::<i128, Error>(total as i128) && final(self)@ == s
            }),
    {
        if !self.store.has_config() {
            return Err(Error::NotInitialized);
        }
        let ghost s0 = self@;
        let mut total: i128 = 0;
        let mut count: u32 = 0;
        let mut i: usize = 0;
        while i < epochs.len()
            invariant
                i <= epochs@.len(),
                self.inv(),
                s0.refunds_ok(asset, epochs@, user@),
                (self@, total as int, count as int) == s0.refunds(asset, epochs@.take(i as int), user@),
            decreases epochs@.len() - i,
        {
            let epoch = epochs[i];
            proof {
                lemma_refunds_ok_prefix(s0, asset, epochs@, user@, i + 1);
                let pre = epochs@.take(i + 1);
                assert(pre.drop_last() =~= epochs@.take(i as int));
                assert(pre.last() == epoch);
            }
            let (refunded, amount) = self.refund_one(&asset, epoch, &user);
            if refunded {
                total = total + amount;
                count = count + 1;
            }
            i = i + 1;
        }
        proof {
            assert(epochs@.take(i as int) =~= epochs@);
            lemma_refunds_none_paid(s0, asset, epochs@, user@);
        }
        if count == 0 {
            return Err(Error::NothingToClaim);
        }
        Ok(total)
    }

    /// What `user` could collect on `asset` at `epoch` now: the stake on a
    /// cancelled round, the winnings on a resolved round if the bet won,
    /// and 0 otherwise or once collected.
    pub fn claimable(&self, asset: Asset, epoch: u64, user: String) -> (r: i128)
        requires
            self.inv(),
            self@.win_ok(asset, epoch, user@),
        ensures
            r == self@.claimable_amount(asset, epoch, user@),
    {
        let round = match self.store.get_round(&asset, epoch) {
            Some(r) => r,
            None => {
                return 0;
            },
        };
        let bet = match self.store.get_bet(&asset, epoch, &user) {
            Some(b) => b,
            None => {
                return 0;
            },
        };
        if bet.claimed {
            return 0;
        }
        match round.status {
            RoundStatus::Cancelled => bet.amount,
            RoundStatus::Resolved => {
                let winning_side = if round.end_price > round.start_price {
                    Direction::Up
                } else {
                    Direction::Down
                };
                if bet.direction != winning_side {
                    return 0;
                }
                let bet_side_amount = match winning_side {
                    Direction::Up => round.up_amount,
                    Direction::Down => round.down_amount,
                };
                compute_payout(bet.amount, round.reward_pool, bet_side_amount)
            },
            _ => 0,
        }
    }

    /// The round of `asset` at `epoch`, if any.
    pub fn round_info(&self, asset: Asset, epoch: u64) -> (r: Option<Round>)
        requires
            self.inv(),
        ensures
            r == self@.store.round(asset, epoch),
    {
        self.store.get_round(&asset, epoch)
    }

    /// The epoch of the round currently open for bets at time `now`.
    pub fn current_epoch(&self, asset: Asset, now: u64) -> (r: u64)
        requires
            self.inv(),
        ensures
            r == now / INTERVAL_SECS + 1,
    {
        let interval = if self.store.has_config() {
            self.store.get_config().interval_secs
        } else {
            INTERVAL_SECS
        };
        (now / interval) + 1
    }

    /// `user`'s recent epochs on `asset`, oldest first.
    pub fn user_epochs(&self, asset: Asset, user: String) -> (r: Vec<u64>)
        requires
            self.inv(),
        ensures
            r@ == self@.store.epochs(asset, user@),
    {
        self.store.get_user_epochs(&asset, &user)
    }

    /// Stores a changed configuration.
    fn put_config(&mut self, config: Config)
        requires
            old(self).inv(),
            config.interval_secs == INTERVAL_SECS,
        ensures
            final(self).inv(),
            final(self)@ == (PredictionState {
                store: StoreState { config: Some(config), ..old(self)@.store },
                ..old(self)@
            }),
    {
        self.store.set_config(config);
        proof {
            assert forall|a: Asset| !self@.store.rounds.contains_key((a, 0u64)) by {
                assert(old(self)@.store.rounds.contains_key((a, 0u64)) == false);
            }
        }
    }

    /// Stops betting and genesis.
    pub fn pause(&mut self) -> (r: Result<(), Error>)
        requires
            old(self).inv(),
        ensures
            final(self).inv(),
            old(self)@.store.config is None ==> r == Err::<(), Error>(Error::NotInitialized)
                && final(self)@ == old(self)@,
            old(self)@.store.config is Some ==> r == Ok::<(), Error>(()) && final(self)@ == (
            PredictionState {
                store: StoreState {
                    config: Some(Config { paused: true, ..old(self)@.config() }),
                    ..old(self)@.store
                },
                ..old(self)@
            }),
    {
        if !self.store.has_config() {
            return Err(Error::NotInitialized);
        }
        let mut config = self.store.get_config();
        config.paused = true;
        self.put_config(config);
        Ok(())
    }

    /// Resumes betting and genesis.
    pub fn unpause(&mut self) -> (r: Result<(), Error>)
        requires
            old(self).inv(),
        ensures
            final(self).inv(),
            old(self)@.store.config is None ==> r == Err::<(), Error>(Error::NotInitialized)
                && final(self)@ == old(self)@,
            old(self)@.store.config is Some ==> r == Ok::<(), Error>(()) && final(self)@ == (
            PredictionState {
                store: StoreState {
                    config: Some(Config { paused: false, ..old(self)@.config() }),
                    ..old(self)@.store
                },
                ..old(self)@
            }),
    {
        if !self.store.has_config() {
            return Err(Error::NotInitialized);
        }
        let mut config = self.store.get_config();
        config.paused = false;
        self.put_config(config);
        Ok(())
    }

    /// Changes the given settings and keeps the others.
    pub fn set_config(
        &mut self,
        fee_bps: Option<u32>,
        min_bet: Option<i128>,
        oracle_staleness_tolerance: Option<u64>,
        tie_refund: Option<bool>,
        treasury: Option<String>,
    ) -> (r: Result<(), Error>)
        requires
            old(self).inv(),
        ensures
            final(self).inv(),
            old(self)@.store.config is None ==> r == Err::<(), Error>(Error::NotInitialized)
                && final(self)@ == old(self)@,
            old(self)@.store.config is Some ==> r == Ok::<(), Error>(()) && final(self)@ == (
            PredictionState {
                store: StoreState {
                    config: Some(
                        Config {
                            fee_bps: match fee_bps {
                                Some(v) => v,
                                None => old(self)@.config().fee_bps,
                            },
                            min_bet: match min_bet {
                                Some(v) => v,
                                None => old(self)@.config().min_bet,
                            },
                            oracle_staleness_tolerance: match oracle_staleness_tolerance {
                                Some(v) => v,
                                None => old(self)@.config().oracle_staleness_tolerance,
                            },
                            tie_refund: match tie_refund {
                                Some(v) => v,
                                None => old(self)@.config().tie_refund,
                            },
                            treasury: match treasury {
                                Some(v) => v,
                                None => old(self)@.config().treasury,
                            },
                            ..old(self)@.config()
                        },
                    ),
                    ..old(self)@.store
                },
                ..old(self)@
            }),
    {
        if !self.store.has_config() {
            return Err(Error::NotInitialized);
        }
        let mut config = self.store.get_config();
        if let Some(v) = fee_bps {
            config.fee_bps = v;
        }
        if let Some(v) = min_bet {
            config.min_bet = v;
        }
        if let Some(v) = oracle_staleness_tolerance {
            config.oracle_staleness_tolerance = v;
        }
        if let Some(v) = tie_refund {
            config.tie_refund = v;
        }
        if let Some(v) = treasury {
            config.treasury = v;
        }
        self.put_config(config);
        Ok(())
    }

    /// Empties the treasury's accumulated fees and returns the amount,
    /// which the caller transfers to the treasury address.
    pub fn claim_treasury(&mut self) -> (r: Result<i128, Error>)
        requires
            old(self).inv(),
        ensures
            final(self).inv(),
            old(self)@.store.config is None ==> r == Err::<i128, Error>(Error::NotInitialized)
                && final(self)@ == old(self)@,
            old(self)@.store.config is Some ==> r == Ok::<i128, Error>(old(self)@.store.treasury)
                && final(self)@ == (if old(self)@.store.treasury > 0 {
                PredictionState { store: StoreState { treasury: 0, ..old(self)@.store }, ..old(self)@ }
            } else {
                old(self)@
            }),
    {
        if !self.store.has_config() {
            return Err(Error::NotInitialized);
        }
        let amount = self.store.get_treasury();
        if amount > 0 {
            self.store.clear_treasury();
            proof {
                assert forall|a: Asset| !self@.store.rounds.contains_key((a, 0u64)) by {
                    assert(old(self)@.store.rounds.contains_key((a, 0u64)) == false);
                }
            }
        }
        Ok(amount)
    }

    /// The configuration.
    pub fn get_config_view(&self) -> (r: Result<Config, Error>)
        requires
            self.inv(),
        ensures
            match self@.store.config {
                None => r == Err::<Config, Error>(Error::NotInitialized),
                Some(c) => r == Ok::<Config, Error>(c),
            },
    {
        if !self.store.has_config() {
            return Err(Error::NotInitialized);
        }
        Ok(self.store.get_config())
    }
}


impl WickContract {
    /// Takes over stored data; `None` when it breaks the market's
    /// invariant (a configuration with another interval, or a round at
    /// epoch 0).
    pub fn from_store(store: PredictionStore) -> (r: Option<WickContract>)
        requires
            store.inv(),
        ensures
            r is Some <==> (PredictionState { store: store@, events: Seq::empty() }).wf(),
            match r {
                Some(c) => c.inv() && c@.store == store@ && c@.events.len() == 0,
                None => true,
            },
    {
        if store.has_config() && store.get_config().interval_secs != INTERVAL_SECS {
            return None;
        }
        if store.has_round(&Asset::Btc, 0) || store.has_round(&Asset::Eth, 0) || store.has_round(
            &Asset::Sol,
            0,
        ) || store.has_round(&Asset::Xlm, 0) {
            return None;
        }
        let c = WickContract { store, events: Vec::new() };
        proof {
            assert forall|a: Asset| !c@.store.rounds.contains_key((a, 0u64)) by {
                match a {
                    Asset::Btc => {},
                    Asset::Eth => {},
                    Asset::Sol => {},
                    Asset::Xlm => {},
                }
            }
        }
        Some(c)
    }

    /// Hands over the storage for saving; events not yet taken are dropped.
    pub fn into_store(self) -> (r: PredictionStore)
        requires
            self.inv(),
        ensures
            r.inv(),
            r@ == self@.store,
    {
        self.store
    }
}


/// A copy of an event.
fn copy_event(e: &ContractEvent) -> (r: ContractEvent)
    ensures
        r == *e,
{
    match e {
        ContractEvent::Bet { asset, epoch, payload } => ContractEvent::Bet {
            asset: *asset,
            epoch: *epoch,
            payload: BetEvent {
                user: payload.user.clone(),
                direction: payload.direction,
                amount: payload.amount,
                up_amount: payload.up_amount,
                down_amount: payload.down_amount,
            },
        },
        ContractEvent::Lock { asset, epoch, payload } => ContractEvent::Lock {
            asset: *asset,
            epoch: *epoch,
            payload: *payload,
        },
        ContractEvent::Resolve { asset, epoch, payload } => ContractEvent::Resolve {
            asset: *asset,
            epoch: *epoch,
            payload: *payload,
        },
        ContractEvent::Cancel { asset, epoch, payload } => ContractEvent::Cancel {
            asset: *asset,
            epoch: *epoch,
            payload: *payload,
        },
        ContractEvent::Claim { asset, payload } => ContractEvent::Claim {
            asset: *asset,
            payload: ClaimEvent {
                user: payload.user.clone(),
                payout: payload.payout,
                epoch_count: payload.epoch_count,
            },
        },
    }
}

/// Whether the epochs up to the one after next still have boundaries
/// within `u64`.
fn epoch_room(now: u64) -> (r: bool)
    ensures
        r == ((now / INTERVAL_SECS + 2) * INTERVAL_SECS <= u64::MAX),
{
    match (now / INTERVAL_SECS).checked_add(2) {
        None => false,
        Some(x) => x.checked_mul(INTERVAL_SECS).is_some(),
    }
}

impl WickContract {
    /// A copy of the contract's storage and pending events.
    fn duplicate(&self) -> (r: WickContract)
        requires
            self.inv(),
        ensures
            r.inv(),
            r@ == self@,
    {
        let store = self.store.duplicate();
        let mut events: Vec<ContractEvent> = Vec::new();
        let mut i: usize = 0;
        while i < self.events.len()
            invariant
                i <= self.events@.len(),
                events@ == self.events@.take(i as int),
            decreases self.events@.len() - i,
        {
            events.push(copy_event(&self.events[i]));
            i = i + 1;
            proof {
                assert(events@ =~= self.events@.take(i as int));
            }
        }
        proof {
            assert(events@ =~= self.events@);
        }
        WickContract { store, events }
    }

    /// Whether `genesis_start` at time `now` stays within `u64`.
    pub fn genesis_start_fits(&self, asset: Asset, now: u64) -> (r: bool)
        requires
            self.inv(),
        ensures
            r == (self@.genesis_start_error(asset) is None ==> (now / INTERVAL_SECS + 2)
                * INTERVAL_SECS <= u64::MAX),
    {
        if !self.store.has_config() || self.store.get_config().paused
            || self.store.get_genesis_status(&asset) != GenesisStatus::NotStarted {
            return true;
        }
        epoch_room(now)
    }

    /// Whether `genesis_lock` at time `now` stays within `u64`.
    pub fn genesis_lock_fits(&self, asset: Asset, now: u64) -> (r: bool)
        requires
            self.inv(),
        ensures
            r == (self@.genesis_lock_error(asset, now) is None ==> (now / INTERVAL_SECS + 2)
                * INTERVAL_SECS <= u64::MAX),
    {
        if !self.store.has_config() || self.store.get_config().paused
            || self.store.get_genesis_status(&asset) != GenesisStatus::Started {
            return true;
        }
        match self.store.get_round(&asset, now / INTERVAL_SECS) {
            None => {
                return true;
            },
            Some(r) => {
                if r.status != RoundStatus::Open {
                    return true;
                }
            },
        }
        epoch_room(now)
    }

    /// Whether settling the locked round of `asset` at `epoch` on `price`
    /// stays within `i128`.
    fn settle_locked_fits(&self, asset: &Asset, epoch: u64, price: Option<i128>) -> (r: bool)
        requires
            self.inv(),
            self@.store.config is Some,
        ensures
            r == self@.settle_locked_ok(*asset, epoch, price),
    {
        let round = match self.store.get_round(asset, epoch) {
            None => {
                return true;
            },
            Some(r) => r,
        };
        let end = match price {
            None => {
                return true;
            },
            Some(e) => e,
        };
        let config = self.store.get_config();
        let one_sided = round.up_amount == 0 || round.down_amount == 0;
        let is_tie = config.tie_refund && round.start_price == end;
        if round.status != RoundStatus::Locked || one_sided || is_tie {
            return true;
        }
        if round.start_price == end {
            return self.store.get_treasury().checked_add(round.total_amount).is_some();
        }
        let product = match round.total_amount.checked_mul(config.fee_bps as i128) {
            None => {
                return false;
            },
            Some(p) => p,
        };
        let fee = div_pos(product, 10_000);
        if round.total_amount.checked_sub(fee).is_none() {
            return false;
        }
        self.store.get_treasury().checked_add(fee).is_some()
    }

    /// Whether `execute_round` stays within machine arithmetic on these
    /// inputs: the next boundaries fit in `u64`, and the late settlement
    /// of round E-2 and the settlement of round E-1 fit in `i128`.
    pub fn execute_round_fits(
        &self,
        asset: Asset,
        now: u64,
        reading: Option<PriceData>,
        prev_reading: Option<PriceData>,
    ) -> (r: bool)
        requires
            self.inv(),
        ensures
            r == self@.execute_round_ok(asset, now, reading, prev_reading),
    {
        if !self.store.has_config() {
            return true;
        }
        let config = self.store.get_config();
        if self.store.get_genesis_status(&asset) != GenesisStatus::Running {
            return true;
        }
        let current = now / INTERVAL_SECS;
        if let Some(c) = self.store.get_round(&asset, current) {
            if c.status != RoundStatus::Open {
                return true;
            }
        }
        if !epoch_room(now) {
            return false;
        }
        let tol = config.oracle_staleness_tolerance;
        let mut scratch = self.duplicate();
        if current >= 2 {
            let retro_ts = (current - 1) * INTERVAL_SECS;
            let retro_price = fetch_price(prev_reading, retro_ts, tol);
            if !scratch.settle_locked_fits(&asset, current - 2, retro_price) {
                return false;
            }
            scratch.settle_locked_round(&asset, current - 2, retro_ts, retro_price, &config);
        }
        if current >= 1 {
            let epoch_ts = current * INTERVAL_SECS;
            let price = fetch_price(reading, epoch_ts, tol);
            return scratch.settle_locked_fits(&asset, current - 1, price);
        }
        true
    }

    /// Whether a bet stays within `i128` on these inputs: an accepted bet
    /// is not negative and keeps its round's pools within range.
    pub fn bet_fits(
        &self,
        user: &String,
        asset: Asset,
        epoch: u64,
        direction: Direction,
        amount: i128,
        now: u64,
    ) -> (r: bool)
        requires
            self.inv(),
        ensures
            r == (self@.bet_error(user@, asset, epoch, amount, now) is None ==> self@.bet_ok(
                asset,
                epoch,
                direction,
                amount,
            )),
    {
        if !self.store.has_config() {
            return true;
        }
        let config = self.store.get_config();
        if config.paused || amount < config.min_bet || epoch != now / INTERVAL_SECS + 1 {
            return true;
        }
        let round = match self.store.get_round(&asset, epoch) {
            None => {
                return true;
            },
            Some(r) => r,
        };
        if round.status != RoundStatus::Open || self.store.get_bet(&asset, epoch, user).is_some() {
            return true;
        }
        if amount < 0 || round.total_amount.checked_add(amount).is_none() {
            return false;
        }
        match direction {
            Direction::Up => round.up_amount.checked_add(amount).is_some(),
            Direction::Down => round.down_amount.checked_add(amount).is_some(),
        }
    }

    /// Whether paying `user`'s bet on `asset` at `epoch`, if it won,
    /// stays within `i128`.
    pub fn win_fits(&self, asset: Asset, epoch: u64, user: &String) -> (r: bool)
        requires
            self.inv(),
        ensures
            r == self@.win_ok(asset, epoch, user@),
    {
        let round = match self.store.get_round(&asset, epoch) {
            None => {
                return true;
            },
            Some(r) => r,
        };
        let bet = match self.store.get_bet(&asset, epoch, user) {
            None => {
                return true;
            },
            Some(b) => b,
        };
        let winning = if round.end_price > round.start_price {
            Direction::Up
        } else {
            Direction::Down
        };
        if round.status != RoundStatus::Resolved || bet.claimed || bet.direction != winning {
            return true;
        }
        let side = match winning {
            Direction::Up => round.up_amount,
            Direction::Down => round.down_amount,
        };
        if bet.amount == 0 || round.reward_pool == 0 || side == 0 {
            return true;
        }
        match bet.amount.checked_mul(round.reward_pool) {
            None => false,
            Some(p) => p.checked_div(side).is_some(),
        }
    }

    /// Whether `claim` stays within machine arithmetic on these inputs, the
    /// running total and the count of paid epochs included.
    pub fn claims_fit(&self, asset: Asset, epochs: &Vec<u64>, user: &String) -> (r: bool)
        requires
            self.inv(),
        ensures
            r == (self@.store.config is Some ==> self@.claims_ok(asset, epochs@, user@)),
    {
        if !self.store.has_config() {
            return true;
        }
        let ghost s0 = self@;
        let mut scratch = self.duplicate();
        let mut total: i128 = 0;
        let mut count: u32 = 0;
        let mut i: usize = 0;
        while i < epochs.len()
            invariant
                i <= epochs@.len(),
                scratch.inv(),
                s0 == self@,
                s0.store.config is Some,
                s0.claims_ok(asset, epochs@.take(i as int), user@),
                (scratch@, total as int, count as int) == s0.claims(asset, epochs@.take(i as int), user@),
            decreases epochs@.len() - i,
        {
            let epoch = epochs[i];
            let ghost pre = epochs@.take(i + 1);
            proof {
                assert(pre.drop_last() =~= epochs@.take(i as int));
                assert(pre.last() == epoch);
            }
            if count == u32::MAX || !scratch.win_fits(asset, epoch, user) {
                proof {
                    assert(!s0.claims_ok(asset, pre, user@));
                    if s0.claims_ok(asset, epochs@, user@) {
                        lemma_claims_ok_prefix(s0, asset, epochs@, user@, i + 1);
                    }
                }
                return false;
            }
            let paid = scratch.claim_one(&asset, epoch, user);
            match total.checked_add(paid) {
                None => {
                    proof {
                        assert(!s0.claims_ok(asset, pre, user@));
                        if s0.claims_ok(asset, epochs@, user@) {
                            lemma_claims_ok_prefix(s0, asset, epochs@, user@, i + 1);
                        }
                    }
                    return false;
                },
                Some(t) => {
                    total = t;
                },
            }
            if paid != 0 {
                count = count + 1;
            }
            i = i + 1;
        }
        proof {
            assert(epochs@.take(i as int) =~= epochs@);
        }
        true
    }

    /// Whether `refund` stays within machine arithmetic on these inputs,
    /// the running total and the count of refunded epochs included.
    pub fn refunds_fit(&self, asset: Asset, epochs: &Vec<u64>, user: &String) -> (r: bool)
        requires
            self.inv(),
        ensures
            r == (self@.store.config is Some ==> self@.refunds_ok(asset, epochs@, user@)),
    {
        if !self.store.has_config() {
            return true;
        }
        let ghost s0 = self@;
        let mut scratch = self.duplicate();
        let mut total: i128 = 0;
        let mut count: u32 = 0;
        let mut i: usize = 0;
        while i < epochs.len()
            invariant
                i <= epochs@.len(),
                scratch.inv(),
                s0 == self@,
                s0.store.config is Some,
                s0.refunds_ok(asset, epochs@.take(i as int), user@),
                (scratch@, total as int, count as int) == s0.refunds(asset, epochs@.take(i as int), user@),
            decreases epochs@.len() - i,
        {
            let epoch = epochs[i];
            let ghost pre = epochs@.take(i + 1);
            proof {
                assert(pre.drop_last() =~= epochs@.take(i as int));
                assert(pre.last() == epoch);
            }
            let (refunded, amount) = scratch.refund_one(&asset, epoch, user);
            if refunded {
                let next = total.checked_add(amount);
                if next.is_none() || count == u32::MAX {
                    proof {
                        assert(!s0.refunds_ok(asset, pre, user@));
                        if s0.refunds_ok(asset, epochs@, user@) {
                            lemma_refunds_ok_prefix(s0, asset, epochs@, user@, i + 1);
                        }
                    }
                    return false;
                }
                total = next.unwrap();
                count = count + 1;
            }
            i = i + 1;
        }
        proof {
            assert(epochs@.take(i as int) =~= epochs@);
        }
        true
    }
}

} // verus!
