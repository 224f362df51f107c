use std::collections::HashMap;
use wick::fair_market::{
    is_listed_asset, Error, FairMarket, Outcome, PriceData, Round, Side, Status, MAX_CLAIM_BATCH,
};

const FEE_BPS: u32 = 200; // 2%
const MIN_BET: i128 = 100_000_000; // 10 XLM
const LOCK_OFFSET: u64 = 180; // 3 minutes

const P0: i128 = 50_000_000_000_000_000_000i128; // $50,000 BTC
const P_UP: i128 = 51_000_000_000_000_000_000i128;
const P_DOWN: i128 = 49_000_000_000_000_000_000i128;
const P_SAME: i128 = P0;

const ORACLE_INTERVAL: u64 = 300;
const T0: u64 = 1_000 * ORACLE_INTERVAL;
const CONTRACT: &str = "contract";

/// The market, a ledger clock, an oracle that answers `lastprice` with its
/// latest tick and `price(ts)` only on an exact tick, and token balances.
struct Ctx {
    market: FairMarket,
    now: u64,
    prices: Vec<(String, u64, i128)>,
    balances: HashMap<String, i128>,
}

impl Ctx {
    fn bare() -> Self {
        Ctx { market: FairMarket::new(), now: T0, prices: Vec::new(), balances: HashMap::new() }
    }

    fn new() -> Self {
        let mut ctx = Ctx::bare();
        ctx.market
            .initialize(
                "admin".to_string(),
                "oracle".to_string(),
                "token".to_string(),
                FEE_BPS,
                MIN_BET,
                LOCK_OFFSET,
                14,
            )
            .unwrap();
        ctx
    }

    fn set_price(&mut self, asset: &str, ts: u64, price: i128) {
        self.prices.retain(|(a, t, _)| !(a == asset && *t == ts));
        self.prices.push((asset.to_string(), ts, price));
    }

    fn lastprice(&self, asset: &str) -> Option<PriceData> {
        let mut best: Option<PriceData> = None;
        for (a, t, p) in &self.prices {
            if a == asset && best.map_or(true, |b| *t > b.timestamp) {
                best = Some(PriceData { price: *p, timestamp: *t });
            }
        }
        best
    }

    fn price(&self, asset: &str, ts: u64) -> Option<PriceData> {
        self.prices
            .iter()
            .find(|(a, t, _)| a == asset && *t == ts)
            .map(|(_, t, p)| PriceData { price: *p, timestamp: *t })
    }

    fn seed_btc(&mut self, price: i128) -> u64 {
        let ts = self.now;
        self.set_price("BTC", ts, price);
        ts
    }

    fn advance(&mut self, secs: u64) {
        self.now += secs;
    }

    fn mint(&mut self, who: &str, amount: i128) {
        *self.balances.entry(who.to_string()).or_insert(0) += amount;
    }

    fn balance(&self, who: &str) -> i128 {
        *self.balances.get(who).unwrap_or(&0)
    }

    fn transfer(&mut self, from: &str, to: &str, amount: i128) {
        assert!(self.balance(from) >= amount, "insufficient balance");
        *self.balances.entry(from.to_string()).or_insert(0) -= amount;
        *self.balances.entry(to.to_string()).or_insert(0) += amount;
    }

    fn create_round(&mut self, asset: &str) -> Result<u64, Error> {
        let tick = self.lastprice(asset);
        self.market.create_round(asset.to_string(), tick)
    }

    fn bet(&mut self, user: &str, round_id: u64, side: Side, amount: i128) -> Result<(), Error> {
        let now = self.now;
        self.market.bet(user.to_string(), round_id, side, amount, now)?;
        self.transfer(user, CONTRACT, amount);
        Ok(())
    }

    fn settle(&mut self, round_id: u64) -> Result<(), Error> {
        let reading = match self.market.get_round(round_id, self.now) {
            Ok(r) => self.price(&r.asset, r.settle_ts),
            Err(_) => None,
        };
        let now = self.now;
        self.market.settle(round_id, now, reading)
    }

    fn claim(&mut self, user: &str, round_id: u64) -> Result<i128, Error> {
        let payout = self.market.claim(user.to_string(), round_id)?;
        if payout > 0 {
            self.transfer(CONTRACT, user, payout);
        }
        Ok(payout)
    }

    fn claim_many(&mut self, user: &str, ids: &Vec<u64>) -> Result<i128, Error> {
        let total = self.market.claim_many(user.to_string(), ids)?;
        if total > 0 {
            self.transfer(CONTRACT, user, total);
        }
        Ok(total)
    }

    fn get_round(&self, round_id: u64) -> Round {
        self.market.get_round(round_id, self.now).unwrap()
    }
}

// ── Happy path ───────────────────────────────────────────────────────────────

#[test]
fn test_test_happy_path_up_wins() {
    let mut ctx = Ctx::new();
    let strike_ts = ctx.seed_btc(P0);
    let round_id = ctx.create_round("BTC").unwrap();

    ctx.mint("alice", 1_000_000_000);
    ctx.mint("bob", 1_000_000_000);
    ctx.bet("alice", round_id, Side::Up, 500_000_000).unwrap();
    ctx.bet("bob", round_id, Side::Down, 300_000_000).unwrap();

    let settle_ts = strike_ts + ORACLE_INTERVAL;
    ctx.advance(ORACLE_INTERVAL);
    ctx.set_price("BTC", settle_ts, P_UP);

    ctx.settle(round_id).unwrap();
    let round = ctx.get_round(round_id);
    assert_eq!(round.status, Status::Settled);
    assert_eq!(round.outcome, Outcome::Up);

    // total=800, fee=16, distributed=784
    let alice_before = ctx.balance("alice");
    let payout = ctx.claim("alice", round_id).unwrap();
    assert_eq!(payout, 784_000_000);
    assert_eq!(ctx.balance("alice") - alice_before, 784_000_000);

    // Bob lost: claim returns 0 but succeeds.
    assert_eq!(ctx.claim("bob", round_id).unwrap(), 0);
}

#[test]
fn test_test_happy_path_down_wins() {
    let mut ctx = Ctx::new();
    let strike_ts = ctx.seed_btc(P0);
    let round_id = ctx.create_round("BTC").unwrap();

    ctx.mint("alice", 1_000_000_000);
    ctx.mint("bob", 1_000_000_000);
    ctx.bet("alice", round_id, Side::Up, 300_000_000).unwrap();
    ctx.bet("bob", round_id, Side::Down, 600_000_000).unwrap();

    ctx.advance(ORACLE_INTERVAL);
    ctx.set_price("BTC", strike_ts + ORACLE_INTERVAL, P_DOWN);
    ctx.settle(round_id).unwrap();

    assert_eq!(ctx.get_round(round_id).outcome, Outcome::Down);

    // total=900, fee=18, distributed=882
    assert_eq!(ctx.claim("bob", round_id).unwrap(), 882_000_000);
    assert_eq!(ctx.claim("alice", round_id).unwrap(), 0);
}

// ── Void conditions: gross refund, no fee ────────────────────────────────────

#[test]
fn test_void_empty_pool_up_only() {
    let mut ctx = Ctx::new();
    let strike_ts = ctx.seed_btc(P0);
    let round_id = ctx.create_round("BTC").unwrap();

    ctx.mint("alice", 500_000_000);
    ctx.bet("alice", round_id, Side::Up, 500_000_000).unwrap();

    ctx.advance(ORACLE_INTERVAL);
    ctx.set_price("BTC", strike_ts + ORACLE_INTERVAL, P_UP);
    ctx.settle(round_id).unwrap();

    assert_eq!(ctx.get_round(round_id).outcome, Outcome::Void);
    assert_eq!(ctx.claim("alice", round_id).unwrap(), 500_000_000);
}

#[test]
fn test_void_empty_pool_down_only() {
    let mut ctx = Ctx::new();
    let strike_ts = ctx.seed_btc(P0);
    let round_id = ctx.create_round("BTC").unwrap();

    ctx.mint("bob", 400_000_000);
    ctx.bet("bob", round_id, Side::Down, 400_000_000).unwrap();

    ctx.advance(ORACLE_INTERVAL);
    ctx.set_price("BTC", strike_ts + ORACLE_INTERVAL, P_DOWN);
    ctx.settle(round_id).unwrap();

    assert_eq!(ctx.get_round(round_id).outcome, Outcome::Void);
    assert_eq!(ctx.claim("bob", round_id).unwrap(), 400_000_000);
}

#[test]
fn test_void_exact_tie() {
    let mut ctx = Ctx::new();
    let strike_ts = ctx.seed_btc(P0);
    let round_id = ctx.create_round("BTC").unwrap();

    ctx.mint("alice", 500_000_000);
    ctx.mint("bob", 500_000_000);
    ctx.bet("alice", round_id, Side::Up, 500_000_000).unwrap();
    ctx.bet("bob", round_id, Side::Down, 500_000_000).unwrap();

    ctx.advance(ORACLE_INTERVAL);
    ctx.set_price("BTC", strike_ts + ORACLE_INTERVAL, P_SAME);
    ctx.settle(round_id).unwrap();

    let round = ctx.get_round(round_id);
    assert_eq!(round.outcome, Outcome::Void);
    assert_eq!(round.settle_price, P_SAME);

    assert_eq!(ctx.claim("alice", round_id).unwrap(), 500_000_000);
    assert_eq!(ctx.claim("bob", round_id).unwrap(), 500_000_000);
}

#[test]
fn test_void_oracle_returns_none() {
    let mut ctx = Ctx::new();
    ctx.seed_btc(P0);
    let round_id = ctx.create_round("BTC").unwrap();

    ctx.mint("alice", 500_000_000);
    ctx.bet("alice", round_id, Side::Up, 500_000_000).unwrap();
    ctx.mint("bob", 300_000_000);
    ctx.bet("bob", round_id, Side::Down, 300_000_000).unwrap();

    // No settlement price: the oracle answers None and the round is void.
    ctx.advance(ORACLE_INTERVAL);
    ctx.settle(round_id).unwrap();

    assert_eq!(ctx.get_round(round_id).outcome, Outcome::Void);
    assert_eq!(ctx.claim("alice", round_id).unwrap(), 500_000_000);
    assert_eq!(ctx.claim("bob", round_id).unwrap(), 300_000_000);
}

#[test]
fn void_round_collects_no_fee() {
    let mut ctx = Ctx::new();
    ctx.seed_btc(P0);
    let round_id = ctx.create_round("BTC").unwrap();
    ctx.mint("alice", 500_000_000);
    ctx.bet("alice", round_id, Side::Up, 500_000_000).unwrap();
    ctx.advance(ORACLE_INTERVAL);
    ctx.settle(round_id).unwrap();
    assert_eq!(ctx.market.sweep_fees(), Ok(0));
}

// ── Betting guards ───────────────────────────────────────────────────────────

#[test]
fn test_bet_rejected_after_lock_ts() {
    let mut ctx = Ctx::new();
    ctx.seed_btc(P0);
    let round_id = ctx.create_round("BTC").unwrap();

    ctx.advance(LOCK_OFFSET + 1);
    ctx.mint("alice", 500_000_000);
    assert_eq!(ctx.bet("alice", round_id, Side::Up, 500_000_000), Err(Error::RoundLocked));
}

#[test]
fn test_bet_at_exactly_lock_ts_rejected() {
    let mut ctx = Ctx::new();
    let strike_ts = ctx.seed_btc(P0);
    let round_id = ctx.create_round("BTC").unwrap();

    ctx.now = strike_ts + LOCK_OFFSET;
    ctx.mint("alice", 500_000_000);
    assert_eq!(ctx.bet("alice", round_id, Side::Up, 500_000_000), Err(Error::RoundLocked));
}

#[test]
fn bet_one_second_before_lock_accepted() {
    let mut ctx = Ctx::new();
    let strike_ts = ctx.seed_btc(P0);
    let round_id = ctx.create_round("BTC").unwrap();
    ctx.now = strike_ts + LOCK_OFFSET - 1;
    ctx.mint("alice", 500_000_000);
    assert_eq!(ctx.bet("alice", round_id, Side::Up, 500_000_000), Ok(()));
    assert_eq!(ctx.get_round(round_id).pool_up, 500_000_000);
    assert_eq!(ctx.balance(CONTRACT), 500_000_000);
}

#[test]
fn test_test_bet_below_minimum_rejected() {
    let mut ctx = Ctx::new();
    ctx.seed_btc(P0);
    let round_id = ctx.create_round("BTC").unwrap();

    ctx.mint("alice", 500_000_000);
    assert_eq!(ctx.bet("alice", round_id, Side::Up, MIN_BET - 1), Err(Error::BetTooSmall));
}

#[test]
fn test_double_bet_rejected() {
    let mut ctx = Ctx::new();
    ctx.seed_btc(P0);
    let round_id = ctx.create_round("BTC").unwrap();

    ctx.mint("alice", 1_000_000_000);
    ctx.bet("alice", round_id, Side::Up, MIN_BET).unwrap();
    assert_eq!(ctx.bet("alice", round_id, Side::Up, MIN_BET), Err(Error::AlreadyBet));
}

#[test]
fn bet_on_unknown_round_rejected() {
    let mut ctx = Ctx::new();
    ctx.mint("alice", MIN_BET);
    assert_eq!(ctx.bet("alice", 7, Side::Up, MIN_BET), Err(Error::RoundNotFound));
}

#[test]
fn bet_records_position() {
    let mut ctx = Ctx::new();
    ctx.seed_btc(P0);
    let round_id = ctx.create_round("BTC").unwrap();
    ctx.mint("alice", MIN_BET);
    ctx.bet("alice", round_id, Side::Down, MIN_BET).unwrap();
    let pos = ctx.market.get_position(round_id, &"alice".to_string()).unwrap();
    assert_eq!(pos.round_id, round_id);
    assert_eq!(pos.side, Side::Down);
    assert_eq!(pos.amount, MIN_BET);
    assert!(!pos.claimed);
    assert!(ctx.market.get_position(round_id, &"bob".to_string()).is_none());
}

// ── Settlement guards ────────────────────────────────────────────────────────

#[test]
fn test_settle_too_early_rejected() {
    let mut ctx = Ctx::new();
    ctx.seed_btc(P0);
    let round_id = ctx.create_round("BTC").unwrap();
    assert_eq!(ctx.settle(round_id), Err(Error::TooEarly));
}

#[test]
fn test_settle_idempotent_second_call_fails() {
    let mut ctx = Ctx::new();
    let strike_ts = ctx.seed_btc(P0);
    let round_id = ctx.create_round("BTC").unwrap();

    ctx.mint("alice", 500_000_000);
    ctx.mint("bob", 500_000_000);
    ctx.bet("alice", round_id, Side::Up, 500_000_000).unwrap();
    ctx.bet("bob", round_id, Side::Down, 500_000_000).unwrap();

    ctx.advance(ORACLE_INTERVAL);
    ctx.set_price("BTC", strike_ts + ORACLE_INTERVAL, P_UP);
    ctx.settle(round_id).unwrap();

    assert_eq!(ctx.settle(round_id), Err(Error::AlreadySettled));
}

#[test]
fn settle_unknown_round_rejected() {
    let mut ctx = Ctx::new();
    assert_eq!(ctx.settle(3), Err(Error::RoundNotFound));
}

#[test]
fn test_settle_outcome_independent_of_caller_timing() {
    let settle_at = |delay: u64| -> (Outcome, i128) {
        let mut ctx = Ctx::new();
        let strike_ts = ctx.seed_btc(P0);
        let round_id = ctx.create_round("BTC").unwrap();

        ctx.mint("alice", 500_000_000);
        ctx.mint("bob", 300_000_000);
        ctx.bet("alice", round_id, Side::Up, 500_000_000).unwrap();
        ctx.bet("bob", round_id, Side::Down, 300_000_000).unwrap();

        let settle_ts = strike_ts + ORACLE_INTERVAL;
        ctx.set_price("BTC", settle_ts, P_UP);

        ctx.now = settle_ts + delay;
        ctx.settle(round_id).unwrap();
        let round = ctx.get_round(round_id);
        (round.outcome, round.settle_price)
    };

    let (o1, p1) = settle_at(0);
    let (o2, p2) = settle_at(1000);
    assert_eq!(o1, o2, "outcome differed by caller timing");
    assert_eq!(p1, p2, "settle_price differed by caller timing");
}

// ── Claim guards ─────────────────────────────────────────────────────────────

#[test]
fn test_test_double_claim_rejected() {
    let mut ctx = Ctx::new();
    let strike_ts = ctx.seed_btc(P0);
    let round_id = ctx.create_round("BTC").unwrap();

    ctx.mint("alice", 500_000_000);
    ctx.mint("bob", 300_000_000);
    ctx.bet("alice", round_id, Side::Up, 500_000_000).unwrap();
    ctx.bet("bob", round_id, Side::Down, 300_000_000).unwrap();

    ctx.advance(ORACLE_INTERVAL);
    ctx.set_price("BTC", strike_ts + ORACLE_INTERVAL, P_UP);
    ctx.settle(round_id).unwrap();

    ctx.claim("alice", round_id).unwrap();
    // The position is marked claimed: the second claim pays 0.
    assert_eq!(ctx.claim("alice", round_id).unwrap(), 0);
}

#[test]
fn claim_before_settlement_pays_nothing() {
    let mut ctx = Ctx::new();
    ctx.seed_btc(P0);
    let round_id = ctx.create_round("BTC").unwrap();
    ctx.mint("alice", MIN_BET);
    ctx.bet("alice", round_id, Side::Up, MIN_BET).unwrap();
    assert_eq!(ctx.claim("alice", round_id), Ok(0));
    // The position is still there to claim once settled.
    assert!(!ctx.market.get_position(round_id, &"alice".to_string()).unwrap().claimed);
}

#[test]
fn test_claim_many_works() {
    let mut ctx = Ctx::new();
    ctx.mint("alice", 10_000_000_000);

    let mut ids = [0u64; 3];
    for (i, price) in [P_UP, P_DOWN, P_UP].iter().enumerate() {
        ctx.advance(ORACLE_INTERVAL);
        let strike_ts = ctx.now;
        ctx.set_price("BTC", strike_ts, P0);
        let rid = ctx.create_round("BTC").unwrap();
        ids[i] = rid;

        let bob = format!("bob{i}");
        ctx.mint(&bob, 300_000_000);
        ctx.bet("alice", rid, Side::Up, 500_000_000).unwrap();
        ctx.bet(&bob, rid, Side::Down, 300_000_000).unwrap();

        let settle_ts = strike_ts + ORACLE_INTERVAL;
        ctx.advance(ORACLE_INTERVAL);
        ctx.set_price("BTC", settle_ts, *price);
        ctx.settle(rid).unwrap();
    }

    let total = ctx.claim_many("alice", &vec![ids[0], ids[1], ids[2]]).unwrap();
    assert!(total > 0, "claim_many returned 0");
    // Two winning rounds of 784M each; the losing one pays nothing.
    assert_eq!(total, 1_568_000_000);
}

#[test]
fn claim_many_pays_a_repeated_round_once() {
    let mut ctx = Ctx::new();
    let strike_ts = ctx.seed_btc(P0);
    let round_id = ctx.create_round("BTC").unwrap();
    ctx.mint("alice", 500_000_000);
    ctx.mint("bob", 300_000_000);
    ctx.bet("alice", round_id, Side::Up, 500_000_000).unwrap();
    ctx.bet("bob", round_id, Side::Down, 300_000_000).unwrap();
    ctx.advance(ORACLE_INTERVAL);
    ctx.set_price("BTC", strike_ts + ORACLE_INTERVAL, P_UP);
    ctx.settle(round_id).unwrap();
    assert_eq!(ctx.claim_many("alice", &vec![round_id, round_id]), Ok(784_000_000));
}

#[test]
fn test_claim_many_batch_too_large_rejected() {
    let mut ctx = Ctx::new();
    let ids: Vec<u64> = (1u64..=21).collect();
    assert_eq!(ids.len(), MAX_CLAIM_BATCH + 1);
    assert_eq!(ctx.claim_many("alice", &ids), Err(Error::ClaimBatchTooLarge));
}

// ── Pool conservation ────────────────────────────────────────────────────────

#[test]
fn test_pool_conservation() {
    let mut ctx = Ctx::new();
    let strike_ts = ctx.seed_btc(P0);
    let round_id = ctx.create_round("BTC").unwrap();

    let bettors = [
        ("u1", Side::Up, 100_000_000i128),
        ("u2", Side::Up, 200_000_000i128),
        ("u3", Side::Up, 300_000_000i128),
        ("u4", Side::Down, 150_000_000i128),
        ("u5", Side::Down, 250_000_000i128),
    ];

    let total_staked: i128 = bettors.iter().map(|(_, _, a)| *a).sum();
    for (addr, side, amount) in &bettors {
        ctx.mint(addr, *amount);
        ctx.bet(addr, round_id, *side, *amount).unwrap();
    }

    ctx.advance(ORACLE_INTERVAL);
    ctx.set_price("BTC", strike_ts + ORACLE_INTERVAL, P_UP);
    ctx.settle(round_id).unwrap();

    let mut total_paid: i128 = 0;
    for (addr, _, _) in &bettors {
        total_paid += ctx.claim(addr, round_id).unwrap();
    }

    let contract_after = ctx.balance(CONTRACT);
    assert!(contract_after >= 0, "contract balance went negative");
    assert!(total_paid <= total_staked, "overpaid: paid={total_paid} staked={total_staked}");
    let fee = total_staked * FEE_BPS as i128 / 10_000;
    assert!(contract_after >= fee, "contract holds less than fee: contract_after={contract_after} fee={fee}");
    // The collected fee is what the admin can sweep.
    assert_eq!(ctx.market.sweep_fees(), Ok(fee));
    assert_eq!(ctx.market.sweep_fees(), Ok(0));
}

// ── Admin guards ─────────────────────────────────────────────────────────────

#[test]
fn test_set_fee_bps_max_enforced() {
    let mut ctx = Ctx::new();
    assert_eq!(ctx.market.set_fee_bps(501), Err(Error::FeeTooHigh));
}

#[test]
fn test_set_fee_bps_at_max_succeeds() {
    let mut ctx = Ctx::new();
    ctx.market.set_fee_bps(500).unwrap();
    assert_eq!(ctx.market.get_config().unwrap().fee_bps, 500);
}

#[test]
fn test_set_lock_offset_min_enforced() {
    let mut ctx = Ctx::new();
    assert_eq!(ctx.market.set_lock_offset(89), Err(Error::LockOffsetTooSmall));
}

#[test]
fn test_set_lock_offset_at_min_succeeds() {
    let mut ctx = Ctx::new();
    ctx.market.set_lock_offset(90).unwrap();
    assert_eq!(ctx.market.get_config().unwrap().lock_offset, 90);
}

#[test]
fn uninitialized_market_refuses_everything() {
    let mut ctx = Ctx::bare();
    ctx.set_price("BTC", T0, P0);
    assert_eq!(ctx.create_round("BTC"), Err(Error::NotInitialized));
    assert_eq!(ctx.market.set_fee_bps(100), Err(Error::NotInitialized));
    assert_eq!(ctx.market.set_lock_offset(100), Err(Error::NotInitialized));
    assert_eq!(ctx.market.sweep_fees(), Err(Error::NotInitialized));
    assert_eq!(ctx.claim("alice", 1), Err(Error::NotInitialized));
    assert!(ctx.market.get_config().is_err());
}

// ── Dedup and asset validation ───────────────────────────────────────────────

#[test]
fn test_duplicate_round_same_oracle_tick_rejected() {
    let mut ctx = Ctx::new();
    ctx.seed_btc(P0);
    ctx.create_round("BTC").unwrap();
    assert_eq!(ctx.create_round("BTC"), Err(Error::DuplicateRound));
}

#[test]
fn test_invalid_asset_rejected() {
    let mut ctx = Ctx::new();
    assert_eq!(ctx.create_round("DOGE"), Err(Error::InvalidAsset));
}

#[test]
fn create_round_without_oracle_price_rejected() {
    let mut ctx = Ctx::new();
    assert_eq!(ctx.create_round("ETH"), Err(Error::RoundNotFound));
}

#[test]
fn test_all_four_assets_work() {
    let mut ctx = Ctx::new();

    let now = ctx.now;
    ctx.set_price("BTC", now, P0);
    ctx.create_round("BTC").unwrap();

    ctx.advance(ORACLE_INTERVAL);
    let now = ctx.now;
    ctx.set_price("ETH", now, 3_000_000_000_000_000_000i128);
    ctx.create_round("ETH").unwrap();

    ctx.advance(ORACLE_INTERVAL);
    let now = ctx.now;
    ctx.set_price("SOL", now, 100_000_000_000_000_000i128);
    ctx.create_round("SOL").unwrap();

    ctx.advance(ORACLE_INTERVAL);
    let now = ctx.now;
    ctx.set_price("XLM", now, 130_000_000_000_000i128);
    ctx.create_round("XLM").unwrap();
}

#[test]
fn listed_assets() {
    for a in ["BTC", "ETH", "SOL", "XLM"] {
        assert!(is_listed_asset(&a.to_string()));
    }
    for a in ["DOGE", "btc", "", "BTCX"] {
        assert!(!is_listed_asset(&a.to_string()));
    }
}

#[test]
fn round_timing_from_oracle_tick() {
    let mut ctx = Ctx::new();
    // The keeper fires late; the round still anchors to the oracle's tick.
    let tick_ts = ctx.now;
    ctx.set_price("BTC", tick_ts, P0);
    ctx.advance(42);
    let id = ctx.create_round("BTC").unwrap();
    let r = ctx.get_round(id);
    assert_eq!(r.id, 1);
    assert_eq!(r.asset, "BTC");
    assert_eq!(r.strike, P0);
    assert_eq!(r.strike_ts, tick_ts);
    assert_eq!(r.settle_ts, tick_ts + ORACLE_INTERVAL);
    assert_eq!(r.lock_ts, tick_ts + LOCK_OFFSET);
    assert_eq!(r.pool_up, 0);
    assert_eq!(r.pool_down, 0);
    assert_eq!(r.settle_price, 0);
}

// ── Status derivation ────────────────────────────────────────────────────────

#[test]
fn test_get_round_shows_locked_after_lock_ts() {
    let mut ctx = Ctx::new();
    let strike_ts = ctx.seed_btc(P0);
    let round_id = ctx.create_round("BTC").unwrap();

    assert_eq!(ctx.get_round(round_id).status, Status::Open);

    ctx.now = strike_ts + LOCK_OFFSET;
    assert_eq!(ctx.get_round(round_id).status, Status::Locked);
}

#[test]
fn get_round_unknown_id() {
    let ctx = Ctx::new();
    assert!(matches!(ctx.market.get_round(0, T0), Err(Error::RoundNotFound)));
    assert!(matches!(ctx.market.get_round(1, T0), Err(Error::RoundNotFound)));
}

// ── Initialisation guards ────────────────────────────────────────────────────

#[test]
fn test_double_initialize_rejected() {
    let mut ctx = Ctx::new();
    let res = ctx.market.initialize(
        "admin".to_string(),
        "oracle".to_string(),
        "token".to_string(),
        FEE_BPS,
        MIN_BET,
        LOCK_OFFSET,
        14,
    );
    assert_eq!(res, Err(Error::AlreadyInitialized));
}

#[test]
fn test_initialize_lock_offset_below_min_rejected() {
    let mut m = FairMarket::new();
    let res = m.initialize(
        "admin".to_string(),
        "oracle".to_string(),
        "token".to_string(),
        FEE_BPS,
        MIN_BET,
        89,
        14,
    );
    assert_eq!(res, Err(Error::LockOffsetTooSmall));
}

#[test]
fn initialize_fee_above_max_rejected() {
    let mut m = FairMarket::new();
    let res = m.initialize(
        "admin".to_string(),
        "oracle".to_string(),
        "token".to_string(),
        501,
        MIN_BET,
        LOCK_OFFSET,
        14,
    );
    assert_eq!(res, Err(Error::FeeTooHigh));
    let cfg_missing = m.get_config().is_err();
    assert!(cfg_missing);
}

#[test]
fn initialize_stores_config() {
    let ctx = Ctx::new();
    let c = ctx.market.get_config().unwrap();
    assert_eq!(c.admin, "admin");
    assert_eq!(c.oracle, "oracle");
    assert_eq!(c.token, "token");
    assert_eq!(c.fee_bps, FEE_BPS);
    assert_eq!(c.min_bet, MIN_BET);
    assert_eq!(c.lock_offset, LOCK_OFFSET);
    assert_eq!(c.oracle_decimals, 14);
}

#[test]
fn error_codes() {
    assert_eq!(Error::AlreadyInitialized.code(), 1);
    assert_eq!(Error::RoundLocked.code(), 5);
    assert_eq!(Error::DuplicateRound.code(), 16);
    assert_eq!(Error::ClaimBatchTooLarge.code(), 17);
}

// ── Saving and loading ───────────────────────────────────────────────────────

use wick::fair_market::{AssetStrike, Config, MarketParts, Position, Stake};

fn config() -> Config {
    Config {
        admin: "admin".to_string(),
        oracle: "oracle".to_string(),
        token: "token".to_string(),
        fee_bps: FEE_BPS,
        min_bet: MIN_BET,
        lock_offset: LOCK_OFFSET,
        oracle_decimals: 14,
    }
}

fn round(pool_up: i128, pool_down: i128, status: Status, outcome: Outcome) -> Round {
    Round {
        id: 1,
        asset: "BTC".to_string(),
        strike: P0,
        strike_ts: T0,
        settle_ts: T0 + ORACLE_INTERVAL,
        lock_ts: T0 + LOCK_OFFSET,
        pool_up,
        pool_down,
        status,
        outcome,
        settle_price: 0,
    }
}

fn stake(user: &str, side: Side, amount: i128) -> Stake {
    Stake { user: user.to_string(), position: Position { round_id: 1, side, amount, claimed: false } }
}

fn parts(r: Round, stakes: Vec<Stake>) -> MarketParts {
    MarketParts {
        config: Some(config()),
        counter: 1,
        fees: 0,
        strikes: vec![AssetStrike { asset: "BTC".to_string(), strike_ts: T0 }],
        rounds: vec![r],
        stakes,
    }
}

#[test]
fn market_parts_round_trip() {
    let mut ctx = Ctx::new();
    ctx.seed_btc(P0);
    let id = ctx.create_round("BTC").unwrap();
    ctx.mint("alice", MIN_BET);
    ctx.bet("alice", id, Side::Up, MIN_BET).unwrap();
    let p = ctx.market.into_parts();
    assert_eq!(p.counter, 1);
    assert_eq!(p.stakes.len(), 1);
    let m = FairMarket::from_parts(p).expect("saved storage loads back");
    let r = m.get_round(id, T0).unwrap();
    assert_eq!(r.pool_up, MIN_BET);
    assert_eq!(m.get_position(id, &"alice".to_string()).unwrap().amount, MIN_BET);
}

#[test]
fn from_parts_accepts_consistent_storage() {
    let p = parts(
        round(300, 200, Status::Open, Outcome::Void),
        vec![stake("a", Side::Up, 300), stake("b", Side::Down, 200)],
    );
    assert!(FairMarket::from_parts(p).is_some());
}

#[test]
fn from_parts_rejects_broken_storage() {
    // A pool that does not match its stakes.
    let p = parts(round(301, 200, Status::Open, Outcome::Void), vec![stake("a", Side::Up, 300), stake("b", Side::Down, 200)]);
    assert!(FairMarket::from_parts(p).is_none());
    // The same user twice in one round.
    let p = parts(round(600, 0, Status::Open, Outcome::Void), vec![stake("a", Side::Up, 300), stake("a", Side::Up, 300)]);
    assert!(FairMarket::from_parts(p).is_none());
    // A fee above the maximum.
    let mut p = parts(round(0, 0, Status::Open, Outcome::Void), vec![]);
    p.config.as_mut().unwrap().fee_bps = 501;
    assert!(FairMarket::from_parts(p).is_none());
    // A stored Locked status.
    let p = parts(round(0, 0, Status::Locked, Outcome::Void), vec![]);
    assert!(FairMarket::from_parts(p).is_none());
    // A decided round with an empty pool.
    let p = parts(round(300, 0, Status::Settled, Outcome::Up), vec![stake("a", Side::Up, 300)]);
    assert!(FairMarket::from_parts(p).is_none());
    // A round counter that disagrees with the rounds.
    let mut p = parts(round(0, 0, Status::Open, Outcome::Void), vec![]);
    p.counter = 2;
    assert!(FairMarket::from_parts(p).is_none());
}

#[test]
fn machine_limits_are_reported() {
    let big = i128::MAX;
    let m = FairMarket::from_parts(parts(
        round(big, 1, Status::Open, Outcome::Void),
        vec![stake("a", Side::Up, big), stake("b", Side::Down, 1)],
    ))
    .unwrap();
    // Another bet on the full side would overflow its pool.
    assert!(!m.bet_fits(&"c".to_string(), 1, Side::Up, MIN_BET, T0));
    assert!(m.bet_fits(&"c".to_string(), 1, Side::Down, MIN_BET, T0));
    // A bet refused anyway is no machine-limit concern.
    assert!(m.bet_fits(&"a".to_string(), 1, Side::Up, MIN_BET, T0));
    // Settling on a decided price would overflow the pot; a void one would not.
    let up = Some(PriceData { price: P_UP, timestamp: T0 + ORACLE_INTERVAL });
    assert!(!m.settle_fits(1, T0 + ORACLE_INTERVAL, up));
    assert!(m.settle_fits(1, T0 + ORACLE_INTERVAL, None));
    // Timestamps at the end of the clock.
    let late = Some(PriceData { price: P0, timestamp: u64::MAX - 10 });
    assert!(!m.create_round_fits(&"BTC".to_string(), late));
    assert!(m.create_round_fits(&"DOGE".to_string(), late));
    assert!(m.create_round_fits(&"BTC".to_string(), Some(PriceData { price: P0, timestamp: T0 + 300 })));
}

#[test]
fn claim_limits_are_reported() {
    let half = 1i128 << 100;
    let m = FairMarket::from_parts(parts(
        round(half, half, Status::Settled, Outcome::Up),
        vec![stake("a", Side::Up, half), stake("b", Side::Down, half)],
    ))
    .unwrap();
    // The winner's share needs `amount * distributed`, past `i128`.
    assert!(!m.claim_fits(1, &"a".to_string()));
    assert!(!m.claims_fit(&"a".to_string(), &vec![1]));
    // The loser is paid nothing; no arithmetic is involved.
    assert!(m.claim_fits(1, &"b".to_string()));
    assert!(m.claims_fit(&"b".to_string(), &vec![1, 1]));
    // Batches over the cap are refused before any arithmetic.
    assert!(m.claims_fit(&"a".to_string(), &(1..=21).collect()));
}

#[test]
fn settle_check_decides_before_the_oracle() {
    let bare = Ctx::bare();
    assert_eq!(bare.market.settle_check(1, T0), Err(Error::NotInitialized));
    let mut ctx = Ctx::new();
    assert_eq!(ctx.market.settle_check(1, T0), Err(Error::RoundNotFound));
    let strike_ts = ctx.seed_btc(P0);
    let round_id = ctx.create_round("BTC").unwrap();
    assert_eq!(ctx.market.settle_check(round_id, ctx.now), Err(Error::TooEarly));
    ctx.advance(ORACLE_INTERVAL);
    assert_eq!(ctx.market.settle_check(round_id, ctx.now), Ok(()));
    ctx.set_price("BTC", strike_ts + ORACLE_INTERVAL, P_UP);
    ctx.settle(round_id).unwrap();
    assert_eq!(ctx.market.settle_check(round_id, ctx.now), Err(Error::AlreadySettled));
}
