use std::collections::HashMap;
use wick::prediction::WickContract;
use wick::prediction_types::{
    fetch_price, to_oracle_asset, Asset, CancelReason, ContractEvent, Direction, Error, OracleAsset,
    PriceData, Round, RoundStatus,
};

const INTERVAL: u64 = 300;
const FEE_BPS: u32 = 300; // 3%
const MIN_BET: i128 = 100_000_000; // 10 XLM in stroops

const BTC_PRICE_1: i128 = 50_000_000_000_000_000_000;
const BTC_PRICE_UP: i128 = 51_000_000_000_000_000_000;
const BTC_PRICE_DOWN: i128 = 49_000_000_000_000_000_000;
const BTC_PRICE_SAME: i128 = 50_000_000_000_000_000_000;
const CONTRACT: &str = "contract";

/// The market, a ledger clock, an oracle answering with its latest price at
/// or before the asked time, and token balances.
struct TestEnv {
    c: WickContract,
    now: u64,
    prices: Vec<(u64, i128)>,
    balances: HashMap<String, i128>,
}

impl TestEnv {
    fn new() -> Self {
        let mut c = WickContract::new();
        c.initialize(
            "admin".to_string(),
            "oracle".to_string(),
            "token".to_string(),
            "treasury".to_string(),
            FEE_BPS,
            MIN_BET,
        )
        .unwrap();
        TestEnv { c, now: INTERVAL * 100, prices: Vec::new(), balances: HashMap::new() }
    }

    fn current_epoch(&self) -> u64 {
        self.now / INTERVAL
    }

    fn advance_to_next_epoch(&mut self) {
        self.now = (self.current_epoch() + 1) * INTERVAL;
    }

    fn mint(&mut self, who: &str, amount: i128) {
        *self.balances.entry(who.to_string()).or_insert(0) += amount;
    }

    fn balance(&self, who: &str) -> i128 {
        *self.balances.get(who).unwrap_or(&0)
    }

    fn transfer(&mut self, from: &str, to: &str, amount: i128) {
        assert!(self.balance(from) >= amount, "insufficient balance");
        *self.balances.entry(from.to_string()).or_insert(0) -= amount;
        *self.balances.entry(to.to_string()).or_insert(0) += amount;
    }

    fn set_btc_price(&mut self, epoch: u64, price: i128) {
        let ts = epoch * INTERVAL;
        self.prices.retain(|(t, _)| *t != ts);
        self.prices.push((ts, price));
    }

    fn oracle_price(&self, ts: u64) -> Option<PriceData> {
        let mut best: Option<PriceData> = None;
        for (t, p) in &self.prices {
            if *t <= ts && best.map_or(true, |b| *t > b.timestamp) {
                best = Some(PriceData { price: *p, timestamp: *t });
            }
        }
        best
    }

    fn genesis_start(&mut self) -> Result<(), Error> {
        self.c.genesis_start(Asset::Btc, self.now)
    }

    fn genesis_lock(&mut self) -> Result<(), Error> {
        let reading = self.oracle_price(self.current_epoch() * INTERVAL);
        self.c.genesis_lock(Asset::Btc, self.now, reading)
    }

    fn execute_round(&mut self) -> Result<(), Error> {
        let e = self.current_epoch();
        let reading = self.oracle_price(e * INTERVAL);
        let prev = self.oracle_price((e - 1) * INTERVAL);
        self.c.execute_round(Asset::Btc, self.now, reading, prev)
    }

    fn bet(&mut self, user: &str, epoch: u64, dir: Direction, amount: i128) -> Result<(), Error> {
        self.c.bet(user.to_string(), Asset::Btc, epoch, dir, amount, self.now)?;
        self.transfer(user, CONTRACT, amount);
        Ok(())
    }

    fn claim(&mut self, epochs: &[u64], user: &str) -> Result<i128, Error> {
        let total = self.c.claim(Asset::Btc, &epochs.to_vec(), user.to_string())?;
        self.transfer(CONTRACT, user, total);
        Ok(total)
    }

    fn refund(&mut self, epochs: &[u64], user: &str) -> Result<i128, Error> {
        let total = self.c.refund(Asset::Btc, &epochs.to_vec(), user.to_string())?;
        self.transfer(CONTRACT, user, total);
        Ok(total)
    }

    fn claimable(&self, epoch: u64, user: &str) -> i128 {
        self.c.claimable(Asset::Btc, epoch, user.to_string())
    }

    fn round(&self, epoch: u64) -> Round {
        self.c.round_info(Asset::Btc, epoch).unwrap()
    }

    /// Genesis: after this, epoch 101 is locked and epoch 102 is open.
    fn bootstrap_btc(&mut self) {
        self.genesis_start().unwrap();
        self.advance_to_next_epoch();
        let ep = self.current_epoch();
        self.set_btc_price(ep, BTC_PRICE_1);
        self.genesis_lock().unwrap();
    }
}

// ── Lifecycle ────────────────────────────────────────────────────────────────

#[test]
fn test_initialize_sets_config() {
    let t = TestEnv::new();
    let config = t.c.get_config_view().unwrap();
    assert_eq!(config.fee_bps, FEE_BPS);
    assert_eq!(config.min_bet, MIN_BET);
    assert_eq!(config.interval_secs, INTERVAL);
    assert!(config.tie_refund);
    assert!(!config.paused);
    assert_eq!(config.oracle_staleness_tolerance, 60);
}

#[test]
fn test_double_initialize_fails() {
    let mut t = TestEnv::new();
    let res = t.c.initialize(
        "admin".to_string(),
        "oracle".to_string(),
        "token".to_string(),
        "treasury".to_string(),
        FEE_BPS,
        MIN_BET,
    );
    assert_eq!(res, Err(Error::AlreadyInitialized));
}

#[test]
fn test_genesis_start_creates_open_round() {
    let mut t = TestEnv::new();
    t.genesis_start().unwrap();

    let open_epoch = t.current_epoch() + 1; // 101
    let round = t.round(open_epoch);
    assert_eq!(round.status, RoundStatus::Open);
    assert_eq!(round.lock_time, open_epoch * INTERVAL);
    assert_eq!(round.close_time, (open_epoch + 1) * INTERVAL);
}

#[test]
fn genesis_start_twice_rejected() {
    let mut t = TestEnv::new();
    t.genesis_start().unwrap();
    assert_eq!(t.genesis_start(), Err(Error::GenesisAlreadyStarted));
    t.advance_to_next_epoch();
    let ep = t.current_epoch();
    t.set_btc_price(ep, BTC_PRICE_1);
    t.genesis_lock().unwrap();
    assert_eq!(t.genesis_start(), Err(Error::GenesisAlreadyStarted));
}

#[test]
fn genesis_lock_before_start_rejected() {
    let mut t = TestEnv::new();
    assert_eq!(t.genesis_lock(), Err(Error::GenesisNotStarted));
    assert_eq!(t.execute_round(), Err(Error::GenesisNotStarted));
}

#[test]
fn test_genesis_lock_transitions_round() {
    let mut t = TestEnv::new();
    t.genesis_start().unwrap();
    t.advance_to_next_epoch(); // epoch 101
    let ep = t.current_epoch();
    t.set_btc_price(ep, BTC_PRICE_1);
    t.genesis_lock().unwrap();

    let locked_epoch = t.current_epoch(); // 101
    let round = t.round(locked_epoch);
    assert_eq!(round.status, RoundStatus::Locked);
    assert_eq!(round.start_price, BTC_PRICE_1);

    let next = t.round(locked_epoch + 1);
    assert_eq!(next.status, RoundStatus::Open);
}

#[test]
fn genesis_lock_without_price_cancels_first_round() {
    let mut t = TestEnv::new();
    t.genesis_start().unwrap();
    t.advance_to_next_epoch();
    t.c.take_events();
    t.genesis_lock().unwrap();
    assert_eq!(t.round(101).status, RoundStatus::Cancelled);
    assert_eq!(t.round(102).status, RoundStatus::Open);
    let events = t.c.take_events();
    assert_eq!(events.len(), 1);
    match &events[0] {
        ContractEvent::Cancel { asset, epoch, payload } => {
            assert_eq!(*asset, Asset::Btc);
            assert_eq!(*epoch, 101);
            assert_eq!(payload.reason, CancelReason::Stale);
            assert_eq!(payload.reason.symbol(), "stale");
        }
        other => panic!("unexpected event {:?}", other),
    }
}

#[test]
fn mod_test_happy_path_up_wins() {
    let mut t = TestEnv::new();
    t.bootstrap_btc();

    let open_epoch = 102u64;
    t.mint("alice", 1_000_000_000);
    t.mint("bob", 1_000_000_000);

    t.bet("alice", open_epoch, Direction::Up, 500_000_000).unwrap();
    t.bet("bob", open_epoch, Direction::Down, 300_000_000).unwrap();

    assert_eq!(t.round(open_epoch).total_amount, 800_000_000);

    t.set_btc_price(102, BTC_PRICE_UP);
    t.advance_to_next_epoch();
    t.execute_round().unwrap();

    t.set_btc_price(103, BTC_PRICE_UP.checked_add(500_000_000_000_000_000).unwrap());
    t.advance_to_next_epoch();
    t.execute_round().unwrap();

    let round = t.round(open_epoch);
    assert_eq!(round.status, RoundStatus::Resolved);

    // total = 800M, fee = 24M, pool = 776M
    let alice_claimable = t.claimable(open_epoch, "alice");
    assert_eq!(alice_claimable, 776_000_000);
    let bob_claimable = t.claimable(open_epoch, "bob");
    assert_eq!(bob_claimable, 0);

    assert!(alice_claimable + 24_000_000 <= 800_000_000);

    let alice_before = t.balance("alice");
    t.claim(&[open_epoch], "alice").unwrap();
    assert_eq!(t.balance("alice") - alice_before, alice_claimable);
}

#[test]
fn mod_test_happy_path_down_wins() {
    let mut t = TestEnv::new();
    t.bootstrap_btc();

    let open_epoch = 102u64;
    t.mint("alice", 1_000_000_000);
    t.mint("bob", 1_000_000_000);

    t.bet("alice", open_epoch, Direction::Up, 300_000_000).unwrap();
    t.bet("bob", open_epoch, Direction::Down, 600_000_000).unwrap();

    t.set_btc_price(102, BTC_PRICE_1);
    t.advance_to_next_epoch();
    t.execute_round().unwrap();

    t.set_btc_price(103, BTC_PRICE_DOWN);
    t.advance_to_next_epoch();
    t.execute_round().unwrap();

    let round = t.round(open_epoch);
    assert_eq!(round.status, RoundStatus::Resolved);
    assert!(round.end_price < round.start_price);

    // total = 900M, fee = 27M, pool = 873M
    let bob_claimable = t.claimable(open_epoch, "bob");
    assert_eq!(bob_claimable, 873_000_000);
    assert_eq!(t.claimable(open_epoch, "alice"), 0);

    assert!(bob_claimable + 27_000_000 <= 900_000_000);
}

#[test]
fn resolution_records_fee_and_pool() {
    let mut t = TestEnv::new();
    t.bootstrap_btc();
    t.mint("alice", 1_000_000_000);
    t.mint("bob", 1_000_000_000);
    t.bet("alice", 102, Direction::Up, 500_000_000).unwrap();
    t.bet("bob", 102, Direction::Down, 300_000_000).unwrap();
    t.set_btc_price(102, BTC_PRICE_1);
    t.advance_to_next_epoch();
    t.execute_round().unwrap();
    t.set_btc_price(103, BTC_PRICE_UP);
    t.advance_to_next_epoch();
    t.execute_round().unwrap();
    let r = t.round(102);
    assert_eq!(r.start_price, BTC_PRICE_1);
    assert_eq!(r.end_price, BTC_PRICE_UP);
    assert_eq!(r.treasury_fee, 24_000_000);
    assert_eq!(r.reward_pool, 776_000_000);
    assert_eq!(r.treasury_fee + r.reward_pool, r.total_amount);
    // The fee accrues to the treasury.
    assert_eq!(t.c.claim_treasury(), Ok(24_000_000));
    assert_eq!(t.c.claim_treasury(), Ok(0));
}

#[test]
fn test_one_sided_pool_up_only_refunds() {
    let mut t = TestEnv::new();
    t.bootstrap_btc();

    let open_epoch = 102u64;
    t.mint("alice", 1_000_000_000);
    t.bet("alice", open_epoch, Direction::Up, 500_000_000).unwrap();

    t.set_btc_price(102, BTC_PRICE_1);
    t.advance_to_next_epoch();
    t.execute_round().unwrap();

    t.set_btc_price(103, BTC_PRICE_UP);
    t.advance_to_next_epoch();
    t.execute_round().unwrap();

    assert_eq!(t.round(open_epoch).status, RoundStatus::Cancelled);

    assert_eq!(t.claimable(open_epoch, "alice"), 500_000_000);

    let before = t.balance("alice");
    t.refund(&[open_epoch], "alice").unwrap();
    assert_eq!(t.balance("alice") - before, 500_000_000);
    // The refund is paid once.
    assert_eq!(t.claimable(open_epoch, "alice"), 0);
    assert_eq!(t.refund(&[open_epoch], "alice"), Err(Error::NothingToClaim));
}

#[test]
fn test_one_sided_pool_down_only_refunds() {
    let mut t = TestEnv::new();
    t.bootstrap_btc();

    let open_epoch = 102u64;
    t.mint("bob", 1_000_000_000);
    t.bet("bob", open_epoch, Direction::Down, 400_000_000).unwrap();

    t.set_btc_price(102, BTC_PRICE_1);
    t.advance_to_next_epoch();
    t.execute_round().unwrap();

    t.set_btc_price(103, BTC_PRICE_DOWN);
    t.advance_to_next_epoch();
    t.execute_round().unwrap();

    assert_eq!(t.round(open_epoch).status, RoundStatus::Cancelled);
    assert_eq!(t.claimable(open_epoch, "bob"), 400_000_000);
}

#[test]
fn test_exact_tie_refunds() {
    let mut t = TestEnv::new();
    t.bootstrap_btc();

    let open_epoch = 102u64;
    t.mint("alice", 1_000_000_000);
    t.mint("bob", 1_000_000_000);
    t.bet("alice", open_epoch, Direction::Up, 300_000_000).unwrap();
    t.bet("bob", open_epoch, Direction::Down, 300_000_000).unwrap();

    t.set_btc_price(102, BTC_PRICE_1);
    t.advance_to_next_epoch();
    t.execute_round().unwrap();

    t.set_btc_price(103, BTC_PRICE_SAME);
    t.advance_to_next_epoch();
    t.execute_round().unwrap();

    assert_eq!(t.round(open_epoch).status, RoundStatus::Cancelled);
    assert_eq!(t.claimable(open_epoch, "alice"), 300_000_000);
    assert_eq!(t.claimable(open_epoch, "bob"), 300_000_000);
}

#[test]
fn tie_without_refund_house_takes_all() {
    let mut t = TestEnv::new();
    t.c.set_config(None, None, None, Some(false), None).unwrap();
    t.bootstrap_btc();
    t.mint("alice", 1_000_000_000);
    t.mint("bob", 1_000_000_000);
    t.bet("alice", 102, Direction::Up, 300_000_000).unwrap();
    t.bet("bob", 102, Direction::Down, 300_000_000).unwrap();
    t.set_btc_price(102, BTC_PRICE_1);
    t.advance_to_next_epoch();
    t.execute_round().unwrap();
    t.set_btc_price(103, BTC_PRICE_SAME);
    t.advance_to_next_epoch();
    t.execute_round().unwrap();
    let r = t.round(102);
    assert_eq!(r.status, RoundStatus::Resolved);
    // The house takes the whole 600M pot; neither side is paid.
    assert_eq!(r.treasury_fee, 600_000_000);
    assert_eq!(r.reward_pool, 0);
    assert_eq!(t.claimable(102, "bob"), 0);
    assert_eq!(t.claimable(102, "alice"), 0);
    assert_eq!(t.claim(&[102], "bob"), Err(Error::NothingToClaim));
    assert_eq!(t.c.claim_treasury(), Ok(600_000_000));
}

#[test]
fn test_stale_oracle_cancels_round() {
    let mut t = TestEnv::new();
    t.bootstrap_btc();

    let open_epoch = 102u64;
    t.mint("alice", 1_000_000_000);
    t.bet("alice", open_epoch, Direction::Up, 500_000_000).unwrap();

    t.set_btc_price(102, BTC_PRICE_1);
    t.advance_to_next_epoch();
    t.execute_round().unwrap();

    // No price for epoch 103: the latest one is 300 s old, past the tolerance.
    t.advance_to_next_epoch();
    t.execute_round().unwrap();

    assert_eq!(t.round(open_epoch).status, RoundStatus::Cancelled);
    assert_eq!(t.claimable(open_epoch, "alice"), 500_000_000);
}

#[test]
fn mod_test_double_claim_rejected() {
    let mut t = TestEnv::new();
    t.bootstrap_btc();

    let open_epoch = 102u64;
    t.mint("alice", 1_000_000_000);
    t.mint("bob", 1_000_000_000);
    t.bet("alice", open_epoch, Direction::Up, 500_000_000).unwrap();
    t.bet("bob", open_epoch, Direction::Down, 300_000_000).unwrap();

    t.set_btc_price(102, BTC_PRICE_1);
    t.advance_to_next_epoch();
    t.execute_round().unwrap();

    t.set_btc_price(103, BTC_PRICE_UP);
    t.advance_to_next_epoch();
    t.execute_round().unwrap();

    t.claim(&[open_epoch], "alice").unwrap();
    assert_eq!(t.claim(&[open_epoch], "alice"), Err(Error::NothingToClaim));
}

#[test]
fn test_bet_on_locked_round_rejected() {
    let mut t = TestEnv::new();
    t.bootstrap_btc();
    t.mint("alice", 1_000_000_000);
    assert_eq!(t.bet("alice", 101, Direction::Up, 500_000_000), Err(Error::InvalidEpoch));
}

#[test]
fn mod_test_bet_below_minimum_rejected() {
    let mut t = TestEnv::new();
    t.bootstrap_btc();
    t.mint("alice", 1_000_000_000);
    assert_eq!(t.bet("alice", 102, Direction::Up, MIN_BET - 1), Err(Error::BetTooSmall));
}

#[test]
fn bet_records_and_emits() {
    let mut t = TestEnv::new();
    t.bootstrap_btc();
    t.mint("alice", 1_000_000_000);
    t.c.take_events();
    t.bet("alice", 102, Direction::Up, 500_000_000).unwrap();
    assert_eq!(t.c.user_epochs(Asset::Btc, "alice".to_string()), vec![102]);
    let r = t.round(102);
    assert_eq!((r.up_amount, r.down_amount, r.total_amount), (500_000_000, 0, 500_000_000));
    let events = t.c.take_events();
    assert_eq!(events.len(), 1);
    match &events[0] {
        ContractEvent::Bet { asset, epoch, payload } => {
            assert_eq!(*asset, Asset::Btc);
            assert_eq!(*epoch, 102);
            assert_eq!(payload.user, "alice");
            assert_eq!(payload.amount, 500_000_000);
            assert_eq!(payload.up_amount, 500_000_000);
        }
        other => panic!("unexpected event {:?}", other),
    }
}

#[test]
fn test_keeper_missed_round_retroactive_settle() {
    let mut t = TestEnv::new();
    t.bootstrap_btc();

    let open_epoch = 102u64;
    t.mint("alice", 1_000_000_000);
    t.mint("bob", 1_000_000_000);
    t.bet("alice", open_epoch, Direction::Up, 400_000_000).unwrap();
    t.bet("bob", open_epoch, Direction::Down, 400_000_000).unwrap();

    // Prices are published but epoch 102's execute_round is missed.
    t.set_btc_price(102, BTC_PRICE_UP);
    t.set_btc_price(103, BTC_PRICE_UP.checked_add(1_000_000_000_000_000).unwrap());

    t.now = 103 * INTERVAL;
    t.execute_round().unwrap();

    let round_101 = t.round(101);
    assert!(
        round_101.status == RoundStatus::Resolved || round_101.status == RoundStatus::Cancelled,
        "epoch 101 should be settled, got {:?}",
        round_101.status
    );

    // Epoch 102 was never locked: it is cancelled.
    assert_eq!(t.round(102).status, RoundStatus::Cancelled);

    assert_eq!(t.claimable(open_epoch, "alice"), 400_000_000);
    assert_eq!(t.claimable(open_epoch, "bob"), 400_000_000);
}

#[test]
fn test_paused_blocks_betting() {
    let mut t = TestEnv::new();
    t.bootstrap_btc();
    t.c.pause().unwrap();
    t.mint("alice", 1_000_000_000);
    assert_eq!(t.bet("alice", 102, Direction::Up, 500_000_000), Err(Error::Paused));
}

#[test]
fn test_unpause_restores_betting() {
    let mut t = TestEnv::new();
    t.bootstrap_btc();
    t.c.pause().unwrap();
    t.c.unpause().unwrap();

    t.mint("alice", 1_000_000_000);
    t.bet("alice", 102, Direction::Up, 500_000_000).unwrap();
    assert_eq!(t.round(102).up_amount, 500_000_000);
}

#[test]
fn test_execute_round_idempotent() {
    let mut t = TestEnv::new();
    t.bootstrap_btc();

    t.set_btc_price(102, BTC_PRICE_UP);
    t.advance_to_next_epoch();
    t.execute_round().unwrap();

    t.set_btc_price(103, BTC_PRICE_UP);
    t.advance_to_next_epoch();
    t.execute_round().unwrap();

    let before = t.round(102);
    t.c.take_events();
    t.execute_round().unwrap();
    t.execute_round().unwrap();
    assert!(t.c.take_events().is_empty());

    let r = t.round(102);
    assert!(r.status == RoundStatus::Resolved || r.status == RoundStatus::Cancelled);
    assert_eq!(r, before);
}

#[test]
fn test_current_epoch_returns_open_epoch() {
    let t = TestEnv::new();
    assert_eq!(t.c.current_epoch(Asset::Btc, t.now), t.current_epoch() + 1);
    assert_eq!(WickContract::new().current_epoch(Asset::Eth, 599), 2);
}

#[test]
fn test_batch_claim_multiple_epochs() {
    let mut t = TestEnv::new();
    t.bootstrap_btc();

    t.mint("alice", 10_000_000_000);
    t.mint("bob", 10_000_000_000);

    let epochs: &[u64] = &[102, 103, 104];
    for &ep in epochs {
        t.bet("alice", ep, Direction::Up, 300_000_000).unwrap();
        t.bet("bob", ep, Direction::Down, 200_000_000).unwrap();

        t.set_btc_price(ep, BTC_PRICE_1);
        t.advance_to_next_epoch();
        t.execute_round().unwrap();
    }

    let last_ep = epochs[epochs.len() - 1];
    t.set_btc_price(last_ep + 1, BTC_PRICE_UP);
    t.advance_to_next_epoch();
    t.execute_round().unwrap();

    let before = t.balance("alice");
    t.claim(epochs, "alice").unwrap();
    assert!(t.balance("alice") > before, "batch claim should transfer tokens");
}

#[test]
fn test_conservation_invariant_contract_level() {
    let mut t = TestEnv::new();
    t.bootstrap_btc();

    let open_epoch = 102u64;
    let users = ["u0", "u1", "u2", "u3", "u4"];
    for u in users {
        t.mint(u, 1_000_000_000);
    }

    t.bet(users[0], open_epoch, Direction::Up, 100_000_000).unwrap();
    t.bet(users[1], open_epoch, Direction::Up, 200_000_000).unwrap();
    t.bet(users[2], open_epoch, Direction::Up, 150_000_000).unwrap();
    t.bet(users[3], open_epoch, Direction::Down, 300_000_000).unwrap();
    t.bet(users[4], open_epoch, Direction::Down, 250_000_000).unwrap();

    t.set_btc_price(102, BTC_PRICE_1);
    t.advance_to_next_epoch();
    t.execute_round().unwrap();

    t.set_btc_price(103, BTC_PRICE_UP);
    t.advance_to_next_epoch();
    t.execute_round().unwrap();

    let contract_balance_before = t.balance(CONTRACT);
    for u in &users[0..3] {
        t.claim(&[open_epoch], u).unwrap();
    }
    let contract_balance_after = t.balance(CONTRACT);
    assert!(contract_balance_after >= 0, "contract balance went negative: {contract_balance_after}");

    let round = t.round(open_epoch);
    assert!(contract_balance_after >= 0, "treasury fee should remain in contract");

    let paid_out = contract_balance_before - contract_balance_after;
    assert!(
        paid_out + round.treasury_fee <= round.total_amount,
        "paid_out={paid_out} + fee={} > total={}",
        round.treasury_fee,
        round.total_amount
    );
}

#[test]
fn test_cannot_bet_twice_same_round() {
    let mut t = TestEnv::new();
    t.bootstrap_btc();
    t.mint("alice", 2_000_000_000);
    t.bet("alice", 102, Direction::Up, 300_000_000).unwrap();
    assert_eq!(t.bet("alice", 102, Direction::Up, 300_000_000), Err(Error::AlreadyBet));
}

#[test]
fn test_refund_on_non_cancelled_round_does_nothing() {
    let mut t = TestEnv::new();
    t.bootstrap_btc();

    let open_epoch = 102u64;
    t.mint("alice", 1_000_000_000);
    t.mint("bob", 1_000_000_000);
    t.bet("alice", open_epoch, Direction::Up, 300_000_000).unwrap();
    t.bet("bob", open_epoch, Direction::Down, 300_000_000).unwrap();

    t.set_btc_price(102, BTC_PRICE_1);
    t.advance_to_next_epoch();
    t.execute_round().unwrap();

    t.set_btc_price(103, BTC_PRICE_UP);
    t.advance_to_next_epoch();
    t.execute_round().unwrap();

    assert_eq!(t.round(open_epoch).status, RoundStatus::Resolved);
    assert_eq!(t.refund(&[open_epoch], "alice"), Err(Error::NothingToClaim));
}

#[test]
fn test_claim_on_cancelled_round_does_nothing() {
    let mut t = TestEnv::new();
    t.bootstrap_btc();

    let open_epoch = 102u64;
    t.mint("alice", 1_000_000_000);
    t.bet("alice", open_epoch, Direction::Up, 300_000_000).unwrap();

    t.set_btc_price(102, BTC_PRICE_1);
    t.advance_to_next_epoch();
    t.execute_round().unwrap();

    t.set_btc_price(103, BTC_PRICE_UP);
    t.advance_to_next_epoch();
    t.execute_round().unwrap();

    assert_eq!(t.claim(&[open_epoch], "alice"), Err(Error::NothingToClaim));
}

#[test]
fn test_non_admin_cannot_pause() {
    // Authorization is checked where the contract meets the ledger; the
    // library itself only needs an initialized market to pause.
    let mut t = TestEnv::new();
    assert_eq!(t.c.pause(), Ok(()));
    assert!(t.c.get_config_view().unwrap().paused);
    assert_eq!(WickContract::new().pause(), Err(Error::NotInitialized));
}

#[test]
fn user_epochs_keep_the_latest_32() {
    let mut t = TestEnv::new();
    t.bootstrap_btc();
    t.mint("alice", 100_000_000_000);
    for _ in 0..34 {
        let ep = t.current_epoch() + 1;
        t.bet("alice", ep, Direction::Up, MIN_BET).unwrap();
        t.set_btc_price(ep, BTC_PRICE_1);
        t.advance_to_next_epoch();
        t.execute_round().unwrap();
    }
    let epochs = t.c.user_epochs(Asset::Btc, "alice".to_string());
    assert_eq!(epochs.len(), 32);
    assert_eq!(epochs[0], 104);
    assert_eq!(epochs[31], 135);
}

#[test]
fn oracle_helpers() {
    match to_oracle_asset(&Asset::Sol) {
        OracleAsset::Other(s) => assert_eq!(s, "SOL"),
        other => panic!("unexpected {:?}", other),
    }
    let d = PriceData { price: 7, timestamp: 1_000 };
    assert_eq!(fetch_price(Some(d), 1_060, 60), Some(7));
    assert_eq!(fetch_price(Some(d), 1_061, 60), None);
    assert_eq!(fetch_price(None, 1_000, 60), None);
    // A reading newer than the asked time is not stale.
    assert_eq!(fetch_price(Some(d), 900, 60), Some(7));
}

#[test]
fn prediction_error_codes() {
    assert_eq!(Error::AlreadyInitialized.code(), 1);
    assert_eq!(Error::InvalidEpoch.code(), 7);
    assert_eq!(Error::GenesisNotStarted.code(), 9);
    assert_eq!(Error::NothingToClaim.code(), 15);
    assert_eq!(CancelReason::Missed.symbol(), "missed");
}

// ── Saving and loading ───────────────────────────────────────────────────────

use wick::prediction_store::{PredictionStore, RoundEntry, StoreParts};

#[test]
fn store_parts_round_trip() {
    let mut t = TestEnv::new();
    t.bootstrap_btc();
    t.mint("alice", 1_000_000_000);
    t.bet("alice", 102, Direction::Up, 500_000_000).unwrap();
    let before = t.round(102);
    let parts = t.c.into_store().into_parts();
    assert_eq!(parts.bets.len(), 1);
    let store = PredictionStore::from_parts(parts).expect("keys are distinct");
    let c = WickContract::from_store(store).expect("saved storage loads back");
    assert_eq!(c.round_info(Asset::Btc, 102), Some(before));
    assert_eq!(c.user_epochs(Asset::Btc, "alice".to_string()), vec![102]);
}

fn empty_parts() -> StoreParts {
    WickContract::new().into_store().into_parts()
}

#[test]
fn store_parts_reject_duplicate_keys() {
    let mut p = empty_parts();
    let r = Round::new(0, 300, 600);
    p.rounds.push(RoundEntry { asset: Asset::Btc, epoch: 1, round: r });
    p.rounds.push(RoundEntry { asset: Asset::Btc, epoch: 1, round: r });
    assert!(PredictionStore::from_parts(p).is_none());
    let mut p = empty_parts();
    p.rounds.push(RoundEntry { asset: Asset::Btc, epoch: 1, round: r });
    p.rounds.push(RoundEntry { asset: Asset::Eth, epoch: 1, round: r });
    assert!(PredictionStore::from_parts(p).is_some());
}

#[test]
fn from_store_rejects_round_at_epoch_zero() {
    let mut p = empty_parts();
    p.rounds.push(RoundEntry { asset: Asset::Sol, epoch: 0, round: Round::new(0, 0, 300) });
    let store = PredictionStore::from_parts(p).unwrap();
    assert!(WickContract::from_store(store).is_none());
}

#[test]
fn prediction_machine_limits_are_reported() {
    let mut t = TestEnv::new();
    assert!(t.c.genesis_start_fits(Asset::Btc, t.now));
    assert!(!t.c.genesis_start_fits(Asset::Btc, u64::MAX - 10));
    t.bootstrap_btc();
    // Already started: refused anyway, so no machine-limit concern.
    assert!(t.c.genesis_start_fits(Asset::Btc, u64::MAX - 10));
    assert!(t.c.bet_fits(&"alice".to_string(), Asset::Btc, 102, Direction::Up, MIN_BET, t.now));
    t.mint("alice", MIN_BET);
    t.bet("alice", 102, Direction::Up, MIN_BET).unwrap();
    // Another stake this large would overflow the pot.
    assert!(!t.c.bet_fits(&"bob".to_string(), Asset::Btc, 102, Direction::Down, i128::MAX, t.now));
    assert!(t.c.bet_fits(&"bob".to_string(), Asset::Btc, 102, Direction::Down, MIN_BET, t.now));
    let e = t.current_epoch();
    let reading = t.oracle_price(e * INTERVAL);
    let prev = t.oracle_price((e - 1) * INTERVAL);
    assert!(t.c.execute_round_fits(Asset::Btc, t.now, reading, prev));
    assert!(t.c.win_fits(Asset::Btc, 102, &"alice".to_string()));
    assert!(t.c.claims_fit(Asset::Btc, &vec![101, 102], &"alice".to_string()));
    assert!(t.c.refunds_fit(Asset::Btc, &vec![101, 102], &"alice".to_string()));
}

#[test]
fn execute_round_depends_on_the_epoch_not_the_second() {
    let run = |offset: u64| {
        let mut t = TestEnv::new();
        t.bootstrap_btc();
        t.mint("alice", 1_000_000_000);
        t.mint("bob", 1_000_000_000);
        t.bet("alice", 102, Direction::Up, 500_000_000).unwrap();
        t.bet("bob", 102, Direction::Down, 300_000_000).unwrap();
        t.set_btc_price(102, BTC_PRICE_1);
        t.advance_to_next_epoch();
        t.now += offset;
        t.execute_round().unwrap();
        t.set_btc_price(103, BTC_PRICE_UP);
        t.advance_to_next_epoch();
        t.now += offset;
        t.execute_round().unwrap();
        (t.round(102), t.round(103), t.round(104))
    };
    assert_eq!(run(0), run(299));
}

#[test]
fn execute_round_check_decides_before_the_oracle() {
    let mut t = TestEnv::new();
    assert_eq!(t.c.execute_round_check(Asset::Btc, t.now), Err(Error::GenesisNotStarted));
    t.bootstrap_btc();
    // Round 101 was locked by genesis: this epoch is done.
    assert_eq!(t.c.execute_round_check(Asset::Btc, t.now), Ok(true));
    t.advance_to_next_epoch();
    assert_eq!(t.c.execute_round_check(Asset::Btc, t.now), Ok(false));
    t.set_btc_price(102, BTC_PRICE_1);
    t.execute_round().unwrap();
    assert_eq!(t.c.execute_round_check(Asset::Btc, t.now), Ok(true));
}

#[test]
fn execute_round_twice_without_a_current_round_changes_nothing() {
    let mut t = TestEnv::new();
    t.bootstrap_btc();
    // Skip epoch 102: at epoch 103 no round 103 was ever opened.
    t.advance_to_next_epoch();
    t.advance_to_next_epoch();
    assert_eq!(t.current_epoch(), 103);
    t.set_btc_price(103, BTC_PRICE_UP);
    t.execute_round().unwrap();
    let _ = t.c.take_events();
    let before: Vec<Option<Round>> =
        (100..106).map(|e| t.c.round_info(Asset::Btc, e)).collect();
    assert_eq!(t.c.execute_round_check(Asset::Btc, t.now), Ok(false));
    t.execute_round().unwrap();
    let after: Vec<Option<Round>> = (100..106).map(|e| t.c.round_info(Asset::Btc, e)).collect();
    assert_eq!(before, after);
    assert!(t.c.take_events().is_empty());
    assert!(t.c.round_info(Asset::Btc, 104).is_some());
}
