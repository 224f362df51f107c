//! Data of the epoch-driven market: assets, rounds, bets, configuration,
//! errors and the events the market emits.
use vstd::prelude::*;

verus! {

/// An asset the market runs rounds on.
#[derive(Clone, Copy, PartialEq, Eq, Debug, Structural)]
pub enum Asset {
    Btc,
    Eth,
    Sol,
    Xlm,
}

/// Direction of a bet.
#[derive(Clone, Copy, PartialEq, Eq, Debug, Structural)]
pub enum Direction {
    Up,
    Down,
}

/// Lifecycle of a round: open for bets, locked at a start price, then
/// resolved with a winner or cancelled for refunds.
#[derive(Clone, Copy, PartialEq, Eq, Debug, Structural)]
pub enum RoundStatus {
    Open,
    Locked,
    Resolved,
    Cancelled,
}

/// Contract errors; `code` gives the number each one carries on chain.
#[derive(Clone, Copy, PartialEq, Eq, Debug, Structural)]
pub enum Error {
    AlreadyInitialized,
    NotInitialized,
    Unauthorized,
    Paused,
    RoundNotOpen,
    BetTooSmall,
    InvalidEpoch,
    GenesisNotStarted,
    GenesisAlreadyRunning,
    GenesisAlreadyStarted,
    EpochNotReady,
    AlreadyBet,
    RoundNotFound,
    NothingToClaim,
}

impl Error {
    /// The error's numeric code.
    pub fn code(&self) -> (r: u32)
        ensures
            r == match *self {
                Error::AlreadyInitialized => 1u32,
                Error::NotInitialized => 2,
                Error::Unauthorized => 3,
                Error::Paused => 4,
                Error::RoundNotOpen => 5,
                Error::BetTooSmall => 6,
                Error::InvalidEpoch => 7,
                Error::GenesisNotStarted => 9,
                Error::GenesisAlreadyRunning => 10,
                Error::GenesisAlreadyStarted => 11,
                Error::EpochNotReady => 12,
                Error::AlreadyBet => 13,
                Error::RoundNotFound => 14,
                Error::NothingToClaim => 15,
            },
    {
        match self {
            Error::AlreadyInitialized => 1,
            Error::NotInitialized => 2,
            Error::Unauthorized => 3,
            Error::Paused => 4,
            Error::RoundNotOpen => 5,
            Error::BetTooSmall => 6,
            Error::InvalidEpoch => 7,
            Error::GenesisNotStarted => 9,
            Error::GenesisAlreadyRunning => 10,
            Error::GenesisAlreadyStarted => 11,
            Error::EpochNotReady => 12,
            Error::AlreadyBet => 13,
            Error::RoundNotFound => 14,
            Error::NothingToClaim => 15,
        }
    }
}

/// One epoch's round for one asset.
#[derive(Clone, Copy, PartialEq, Eq, Debug, Structural)]
pub struct Round {
    /// When betting opened.
    pub start_time: u64,
    /// When the start price was recorded (the epoch boundary).
    pub lock_time: u64,
    /// When the end price was recorded (the next boundary).
    pub close_time: u64,
    /// Oracle price at `lock_time`; 0 until locked.
    pub start_price: i128,
    /// Oracle price at `close_time`; 0 until resolved.
    pub end_price: i128,
    pub up_amount: i128,
    pub down_amount: i128,
    pub total_amount: i128,
    /// `total_amount - treasury_fee`, set on resolution.
    pub reward_pool: i128,
    /// The fee taken on resolution.
    pub treasury_fee: i128,
    pub status: RoundStatus,
}

/// A fresh open round.
pub open spec fn fresh_round(start_time: u64, lock_time: u64, close_time: u64) -> Round {
    Round {
        start_time,
        lock_time,
        close_time,
        start_price: 0,
        end_price: 0,
        up_amount: 0,
        down_amount: 0,
        total_amount: 0,
        reward_pool: 0,
        treasury_fee: 0,
        status: RoundStatus::Open,
    }
}

impl Round {
    /// A new open round with empty pools.
    pub fn new(start_time: u64, lock_time: u64, close_time: u64) -> (r: Round)
        ensures
            r == fresh_round(start_time, lock_time, close_time),
    {
        Round {
            start_time,
            lock_time,
            close_time,
            start_price: 0,
            end_price: 0,
            up_amount: 0,
            down_amount: 0,
            total_amount: 0,
            reward_pool: 0,
            treasury_fee: 0,
            status: RoundStatus::Open,
        }
    }
}

/// A user's bet in one round.
#[derive(Clone, Copy, PartialEq, Eq, Debug, Structural)]
pub struct Bet {
    pub direction: Direction,
    pub amount: i128,
    pub claimed: bool,
}

/// Market configuration.
#[derive(Clone, Debug)]
pub struct Config {
    pub admin: String,
    pub oracle: String,
    pub token: String,
    pub treasury: String,
    /// Fee in basis points.
    pub fee_bps: u32,
    /// Round length in seconds.
    pub interval_secs: u64,
    /// Smallest bet, in stroops.
    pub min_bet: i128,
    /// How far an oracle price may lag the requested time, in seconds.
    pub oracle_staleness_tolerance: u64,
    pub paused: bool,
    /// Whether an exact price tie refunds (otherwise the house takes all).
    pub tie_refund: bool,
}

/// Whether genesis has run for an asset.
#[derive(Clone, Copy, PartialEq, Eq, Debug, Structural)]
pub enum GenesisStatus {
    /// `genesis_start` not yet called.
    NotStarted,
    /// The first round is open, awaiting `genesis_lock`.
    Started,
    /// Regular `execute_round` cadence.
    Running,
}

/// Why a round was cancelled.
#[derive(Clone, Copy, PartialEq, Eq, Debug, Structural)]
pub enum CancelReason {
    /// No oracle price recent enough.
    Stale,
    /// The round was never locked.
    Missed,
    /// Start and end price are equal.
    Tie,
    /// One side had no bets.
    OneSided,
}

/// The short symbol a cancellation event carries for its reason.
pub open spec fn reason_symbol(reason: CancelReason) -> Seq<char> {
    match reason {
        CancelReason::Stale => "stale"@,
        CancelReason::Missed => "missed"@,
        CancelReason::Tie => "tie"@,
        CancelReason::OneSided => "onesided"@,
    }
}

impl CancelReason {
    /// The short symbol the event carries.
    pub fn symbol(&self) -> (r: &'static str)
        ensures
            r@ == reason_symbol(*self),
    {
        match self {
            CancelReason::Stale => "stale",
            CancelReason::Missed => "missed",
            CancelReason::Tie => "tie",
            CancelReason::OneSided => "onesided",
        }
    }
}

/// A bet was placed; the running pool totals after it.
#[derive(Clone, Debug)]
pub struct BetEvent {
    pub user: String,
    pub direction: Direction,
    pub amount: i128,
    pub up_amount: i128,
    pub down_amount: i128,
}

/// A round was locked at its start price.
#[derive(Clone, Copy, PartialEq, Eq, Debug, Structural)]
pub struct LockEvent {
    pub start_price: i128,
    pub up_amount: i128,
    pub down_amount: i128,
    pub total_amount: i128,
}

/// A round was resolved.
#[derive(Clone, Copy, PartialEq, Eq, Debug, Structural)]
pub struct ResolveEvent {
    pub start_price: i128,
    pub end_price: i128,
    pub winner: Direction,
    pub reward_pool: i128,
    pub treasury_fee: i128,
}

/// A round was cancelled.
#[derive(Clone, Copy, PartialEq, Eq, Debug, Structural)]
pub struct CancelEvent {
    pub reason: CancelReason,
    pub total_amount: i128,
}

/// Winnings were claimed over several epochs.
#[derive(Clone, Debug)]
pub struct ClaimEvent {
    pub user: String,
    pub payout: i128,
    /// Epochs paid in this batch.
    pub epoch_count: u32,
}

/// An event with its topic: the asset and, except for claims, the epoch.
#[derive(Clone, Debug)]
pub enum ContractEvent {
    Bet { asset: Asset, epoch: u64, payload: BetEvent },
    Lock { asset: Asset, epoch: u64, payload: LockEvent },
    Resolve { asset: Asset, epoch: u64, payload: ResolveEvent },
    Cancel { asset: Asset, epoch: u64, payload: CancelEvent },
    Claim { asset: Asset, payload: ClaimEvent },
}

/// The oracle's asset identifier.
#[derive(Clone, Debug)]
pub enum OracleAsset {
    Stellar(String),
    Other(String),
}

/// A price record as the oracle returns it.
#[derive(Clone, Copy, PartialEq, Eq, Debug, Structural)]
pub struct PriceData {
    pub price: i128,
    pub timestamp: u64,
}

/// The oracle symbol of an asset.
pub open spec fn asset_symbol(asset: Asset) -> Seq<char> {
    match asset {
        Asset::Btc => "BTC"@,
        Asset::Eth => "ETH"@,
        Asset::Sol => "SOL"@,
        Asset::Xlm => "XLM"@,
    }
}

/// The oracle asset for one of the market's assets.
pub fn to_oracle_asset(asset: &Asset) -> (r: OracleAsset)
    ensures
        r matches OracleAsset::Other(s) && s@ == asset_symbol(*asset),
{
    let sym = match asset {
        Asset::Btc => "BTC".to_owned(),
        Asset::Eth => "ETH".to_owned(),
        Asset::Sol => "SOL".to_owned(),
        Asset::Xlm => "XLM".to_owned(),
    };
    OracleAsset::Other(sym)
}

/// The price a settlement may use: the oracle's reading for `timestamp`
/// (its latest price at or before that time), unless that price is older
/// than the tolerance allows.
pub open spec fn fresh_price(
    reading: Option<PriceData>,
    timestamp: u64,
    staleness_tolerance_secs: u64,
) -> Option<i128> {
    match reading {
        None => None,
        Some(d) => if timestamp - d.timestamp > staleness_tolerance_secs {
            None
        } else {
            Some(d.price)
        },
    }
}

/// Applies the staleness rule to the oracle's `reading` for `timestamp`;
/// `None` when the oracle had no price or it lags by more than the
/// tolerance.
pub fn fetch_price(reading: Option<PriceData>, timestamp: u64, staleness_tolerance_secs: u64) -> (r:
    Option<i128>)
    ensures
        r == fresh_price(reading, timestamp, staleness_tolerance_secs),
{
    let data = match reading {
        None => {
            return None;
        },
        Some(d) => d,
    };
    let age = timestamp.saturating_sub(data.timestamp);
    if age > staleness_tolerance_secs {
        return None;
    }
    Some(data.price)
}

} // verus!
