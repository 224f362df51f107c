//! Where the epoch-driven market's money is: every stake a bet records is
//! counted in its round's pool, so the winners of a resolved round are
//! never owed more than its reward pool, and every operation keeps it so.
use vstd::prelude::*;
use vstd::arithmetic::div_mod::lemma_fundamental_div_mod;
use crate::division::{lemma_tdiv_nonneg, tdiv};
use crate::math::payout;
use crate::prediction::{resolution_fee, side_amount, winning_side, PredictionState};
use crate::prediction_store::StoreState;
use crate::prediction_types::{Asset, Bet, Direction, GenesisStatus, Round, RoundStatus};

verus! {

/// The stakes the listed users put on `direction` in the round of `asset`
/// at `epoch`, added up.
pub open spec fn staked_by(
    bets: Map<(Asset, u64, Seq<char>), Bet>,
    asset: Asset,
    epoch: u64,
    direction: Direction,
    users: Seq<Seq<char>>,
) -> int
    decreases users.len(),
{
    if users.len() == 0 {
        0
    } else {
        let k = (asset, epoch, users.last());
        staked_by(bets, asset, epoch, direction, users.drop_last()) + if bets.contains_key(k)
            && bets[k].direction == direction {
            bets[k].amount as int
        } else {
            0
        }
    }
}

/// A round's pool for `direction`; zero while the round does not exist.
pub open spec fn pool_cap(
    rounds: Map<(Asset, u64), Round>,
    asset: Asset,
    epoch: u64,
    direction: Direction,
) -> int {
    if rounds.contains_key((asset, epoch)) {
        side_amount(rounds[(asset, epoch)], direction)
    } else {
        0
    }
}

/// A resolved round's reward pool and fee add up to its pot.
pub open spec fn split_ok(r: Round) -> bool {
    r.status == RoundStatus::Resolved ==> r.reward_pool + r.treasury_fee == r.total_amount
}

/// The books are funded: no bet is negative, no users together have staked
/// more on a side of a round than the round's pool for it, a resolved
/// round's reward pool and fee add up to its pot, and rounds exist only for
/// assets whose genesis has begun.
pub open spec fn funded(m: PredictionState) -> bool {
    &&& forall|k: (Asset, u64, Seq<char>)|
        #[trigger] m.store.bets.contains_key(k) ==> m.store.bets[k].amount >= 0
    &&& forall|k: (Asset, u64)| #[trigger] m.store.rounds.contains_key(k) ==> split_ok(m.store.rounds[k])
        && m.store.genesis(k.0) != GenesisStatus::NotStarted
    &&& forall|asset: Asset, epoch: u64, direction: Direction, users: Seq<Seq<char>>|
        users.no_duplicates() ==> #[trigger] staked_by(m.store.bets, asset, epoch, direction, users)
            <= pool_cap(m.store.rounds, asset, epoch, direction)
}

/// What `user`'s bet on a resolved round is paid when claimed: its share
/// of the reward pool if it won, nothing otherwise.
pub open spec fn entitled(m: PredictionState, asset: Asset, epoch: u64, user: Seq<char>) -> int {
    match (m.store.round(asset, epoch), m.store.bet(asset, epoch, user)) {
        (Some(r), Some(b)) => if r.status == RoundStatus::Resolved && b.direction == winning_side(
            r,
        ) {
            payout(b.amount as int, r.reward_pool as int, side_amount(r, winning_side(r)))
        } else {
            0
        },
        _ => 0,
    }
}

/// What the listed users are paid on the round when each claims.
pub open spec fn entitled_total(
    m: PredictionState,
    asset: Asset,
    epoch: u64,
    users: Seq<Seq<char>>,
) -> int
    decreases users.len(),
{
    if users.len() == 0 {
        0
    } else {
        entitled_total(m, asset, epoch, users.drop_last()) + entitled(m, asset, epoch, users.last())
    }
}

/// A state that keeps the bets and never shrinks a round's pool stays
/// funded, provided its resolved rounds split their pot.
proof fn lemma_funded_step(m1: PredictionState, m2: PredictionState)
    requires
        funded(m1),
        m2.store.bets == m1.store.bets,
        forall|a: Asset, e: u64, d: Direction|
            #[trigger] pool_cap(m2.store.rounds, a, e, d) >= pool_cap(m1.store.rounds, a, e, d),
        forall|k: (Asset, u64)| #[trigger] m2.store.rounds.contains_key(k) ==> split_ok(m2.store.rounds[k])
            && m2.store.genesis(k.0) != GenesisStatus::NotStarted,
    ensures
        funded(m2),
{
    assert forall|a: Asset, e: u64, d: Direction, users: Seq<Seq<char>>|
        users.no_duplicates() implies #[trigger] staked_by(m2.store.bets, a, e, d, users) <= pool_cap(
        m2.store.rounds,
        a,
        e,
        d,
    ) by {
        assert(staked_by(m1.store.bets, a, e, d, users) <= pool_cap(m1.store.rounds, a, e, d));
        assert(pool_cap(m2.store.rounds, a, e, d) >= pool_cap(m1.store.rounds, a, e, d));
    }
}

/// Storing a round over an existing one with the same pools, or a new one
/// with empty pools, keeps the books funded if it splits its pot.
proof fn lemma_with_round_funded(m: PredictionState, asset: Asset, epoch: u64, r: Round)
    requires
        funded(m),
        split_ok(r),
        m.store.rounds.contains_key((asset, epoch)) ==> r.up_amount == m.store.rounds[(
        asset,
        epoch,
        )].up_amount && r.down_amount == m.store.rounds[(asset, epoch)].down_amount,
        !m.store.rounds.contains_key((asset, epoch)) ==> r.up_amount >= 0 && r.down_amount >= 0,
        m.store.genesis(asset) != GenesisStatus::NotStarted,
    ensures
        funded(m.with_round(asset, epoch, r)),
{
    let m2 = m.with_round(asset, epoch, r);
    assert forall|a: Asset, e: u64, d: Direction|
        #[trigger] pool_cap(m2.store.rounds, a, e, d) >= pool_cap(m.store.rounds, a, e, d) by {
        if (a, e) == (asset, epoch) {
            match d {
                Direction::Up => {},
                Direction::Down => {},
            }
        }
    }
    assert forall|k: (Asset, u64)| #[trigger] m2.store.rounds.contains_key(k) implies split_ok(
        m2.store.rounds[k],
    ) && m2.store.genesis(k.0) != GenesisStatus::NotStarted by {
        if k != (asset, epoch) {
            assert(m.store.rounds.contains_key(k));
        }
    }
    lemma_funded_step(m, m2);
}

/// Changing anything but the rounds, the bets and the genesis statuses
/// (the configuration, the treasury's fees, the pending events or the
/// users' epoch lists) keeps the books funded.
pub proof fn lemma_same_books_keep_funds(m1: PredictionState, m2: PredictionState)
    requires
        funded(m1),
        m2.store.bets == m1.store.bets,
        m2.store.rounds == m1.store.rounds,
        forall|a: Asset| m2.store.genesis(a) == m1.store.genesis(a),
    ensures
        funded(m2),
{
    assert forall|k: (Asset, u64)| #[trigger] m2.store.rounds.contains_key(k) implies split_ok(
        m2.store.rounds[k],
    ) && m2.store.genesis(k.0) != GenesisStatus::NotStarted by {
        assert(m2.store.genesis(k.0) == m1.store.genesis(k.0));
    }
    lemma_funded_step(m1, m2);
}

/// No bets, no stakes.
proof fn lemma_staked_by_empty(asset: Asset, epoch: u64, direction: Direction, users: Seq<Seq<char>>)
    ensures
        staked_by(Map::empty(), asset, epoch, direction, users) == 0,
    decreases users.len(),
{
    if users.len() > 0 {
        lemma_staked_by_empty(asset, epoch, direction, users.drop_last());
    }
}

/// A market with no rounds and no bets, as deployed, is funded.
pub proof fn lemma_new_market_funded(m: PredictionState)
    requires
        m.store.rounds == Map::<(Asset, u64), Round>::empty(),
        m.store.bets == Map::<(Asset, u64, Seq<char>), Bet>::empty(),
    ensures
        funded(m),
{
    assert forall|a: Asset, e: u64, d: Direction, users: Seq<Seq<char>>|
        users.no_duplicates() implies #[trigger] staked_by(m.store.bets, a, e, d, users) <= pool_cap(
        m.store.rounds,
        a,
        e,
        d,
    ) by {
        lemma_staked_by_empty(a, e, d, users);
    }
}

/// The payouts the listed users are owed on a resolved round, scaled by
/// the winning pool, stay within their winning stakes scaled by the reward
/// pool.
proof fn lemma_entitled_scaled(m: PredictionState, asset: Asset, epoch: u64, users: Seq<Seq<char>>)
    requires
        funded(m),
        m.store.round(asset, epoch) matches Some(r) && r.status == RoundStatus::Resolved
            && r.reward_pool >= 0 && side_amount(r, winning_side(r)) > 0,
    ensures
        ({
            let r = m.store.round(asset, epoch).unwrap();
            let w = winning_side(r);
            &&& entitled_total(m, asset, epoch, users) >= 0
            &&& entitled_total(m, asset, epoch, users) * side_amount(r, w) <= staked_by(
                m.store.bets,
                asset,
                epoch,
                w,
                users,
            ) * r.reward_pool
        }),
    decreases users.len(),
{
    if users.len() > 0 {
        let r = m.store.round(asset, epoch).unwrap();
        let w = winning_side(r);
        let big_w = side_amount(r, w);
        let p = r.reward_pool as int;
        let rest = users.drop_last();
        let u = users.last();
        let k = (asset, epoch, u);
        lemma_entitled_scaled(m, asset, epoch, rest);
        let e_rest = entitled_total(m, asset, epoch, rest);
        let s_rest = staked_by(m.store.bets, asset, epoch, w, rest);
        if m.store.bets.contains_key(k) && m.store.bets[k].direction == w {
            let b = m.store.bets[k].amount as int;
            assert(b >= 0);
            let e_u = entitled(m, asset, epoch, u);
            assert(e_u == payout(b, p, big_w));
            if b == 0 || p == 0 {
                assert(e_u == 0);
                assert(b * p == 0) by (nonlinear_arith)
                    requires
                        b == 0 || p == 0,
                ;
            } else {
                assert(b * p >= 0) by (nonlinear_arith)
                    requires
                        b >= 0,
                        p >= 0,
                ;
                lemma_tdiv_nonneg(b * p, big_w);
                lemma_fundamental_div_mod(b * p, big_w);
                assert(e_u == (b * p) / big_w);
                assert(e_u * big_w <= b * p) by (nonlinear_arith)
                    requires
                        big_w > 0,
                        e_u == (b * p) / big_w,
                        b * p == big_w * ((b * p) / big_w) + (b * p) % big_w,
                        0 <= (b * p) % big_w,
                ;
            }
            assert((e_rest + e_u) * big_w == e_rest * big_w + e_u * big_w) by (nonlinear_arith);
            assert((s_rest + b) * p == s_rest * p + b * p) by (nonlinear_arith);
        } else {
            assert(entitled(m, asset, epoch, u) == 0);
        }
    }
}

/// Conservation of a resolved round: when the reward pool is not negative
/// (the fee was at most the pot), what any list of distinct bettors is
/// owed on the round, together with the fee, stays within the pot. Each
/// claim pays at most what the bettor is owed, and only once.
pub proof fn lemma_resolved_round_covers_winners(
    m: PredictionState,
    asset: Asset,
    epoch: u64,
    users: Seq<Seq<char>>,
)
    requires
        funded(m),
        users.no_duplicates(),
        m.store.round(asset, epoch) matches Some(r) && r.status == RoundStatus::Resolved
            && r.reward_pool >= 0,
    ensures
        ({
            let r = m.store.round(asset, epoch).unwrap();
            &&& 0 <= entitled_total(m, asset, epoch, users) <= r.reward_pool
            &&& entitled_total(m, asset, epoch, users) + r.treasury_fee <= r.total_amount
        }),
{
    let r = m.store.round(asset, epoch).unwrap();
    let w = winning_side(r);
    let big_w = side_amount(r, w);
    assert(split_ok(m.store.rounds[(asset, epoch)]));
    assert(staked_by(m.store.bets, asset, epoch, w, users) <= pool_cap(m.store.rounds, asset, epoch, w));
    assert(staked_by(m.store.bets, asset, epoch, w, Seq::empty()) <= pool_cap(m.store.rounds, asset, epoch, w));
    if big_w > 0 {
        lemma_entitled_scaled(m, asset, epoch, users);
        let e = entitled_total(m, asset, epoch, users);
        let s = staked_by(m.store.bets, asset, epoch, w, users);
        let p = r.reward_pool as int;
        assert(s * p <= big_w * p) by (nonlinear_arith)
            requires
                s <= big_w,
                p >= 0,
        ;
        assert(e <= p) by (nonlinear_arith)
            requires
                e * big_w <= big_w * p,
                big_w > 0,
        ;
    } else {
        lemma_entitled_zero(m, asset, epoch, users);
    }
}

/// With an empty winning pool nobody is owed anything.
proof fn lemma_entitled_zero(m: PredictionState, asset: Asset, epoch: u64, users: Seq<Seq<char>>)
    requires
        m.store.round(asset, epoch) matches Some(r) && side_amount(r, winning_side(r)) == 0,
    ensures
        entitled_total(m, asset, epoch, users) == 0,
    decreases users.len(),
{
    if users.len() > 0 {
        lemma_entitled_zero(m, asset, epoch, users.drop_last());
    }
}

/// A claim never pays more than the bettor is owed.
pub proof fn lemma_claim_within_entitlement(m: PredictionState, asset: Asset, epoch: u64, user: Seq<char>)
    ensures
        m.win_amount(asset, epoch, user) == 0 || m.win_amount(asset, epoch, user) == entitled(
            m,
            asset,
            epoch,
            user,
        ),
{
}


/// Settling a locked round keeps the books funded: its pools stay as they
/// are, and a resolution splits the pot into reward pool and fee.
proof fn lemma_settle_locked_funded(
    m: PredictionState,
    asset: Asset,
    epoch: u64,
    close_ts: u64,
    price: Option<i128>,
)
    requires
        funded(m),
        m.store.config is Some,
        m.settle_locked_ok(asset, epoch, price),
    ensures
        funded(m.settle_locked(asset, epoch, close_ts, price)),
{
    let fin = m.settle_locked(asset, epoch, close_ts, price);
    match m.store.round(asset, epoch) {
        None => {},
        Some(r) => {
            if r.status == RoundStatus::Locked {
                assert(m.store.rounds.contains_key((asset, epoch)));
                match price {
                    None => {
                        let r2 = Round { status: RoundStatus::Cancelled, ..r };
                        lemma_with_round_funded(m, asset, epoch, r2);
                        lemma_same_books_keep_funds(m.with_round(asset, epoch, r2), fin);
                    },
                    Some(end) => {
                        let one_sided = r.up_amount == 0 || r.down_amount == 0;
                        let is_tie = m.config().tie_refund && r.start_price == end;
                        if one_sided || is_tie {
                            let r2 = Round {
                                end_price: end,
                                close_time: close_ts,
                                status: RoundStatus::Cancelled,
                                ..r
                            };
                            lemma_with_round_funded(m, asset, epoch, r2);
                            lemma_same_books_keep_funds(m.with_round(asset, epoch, r2), fin);
                        } else {
                            let total = r.total_amount as int;
                            let fee = resolution_fee(r, end, m.config().fee_bps);
                            let pool = total - fee;
                            let r2 = Round {
                                end_price: end,
                                close_time: close_ts,
                                treasury_fee: fee as i128,
                                reward_pool: pool as i128,
                                status: RoundStatus::Resolved,
                                ..r
                            };
                            assert(split_ok(r2));
                            lemma_with_round_funded(m, asset, epoch, r2);
                            lemma_same_books_keep_funds(m.with_round(asset, epoch, r2), fin);
                        }
                    },
                }
            }
        },
    }
}

/// Settling a locked round touches no other round.
proof fn lemma_settle_locked_frame(
    m: PredictionState,
    asset: Asset,
    epoch: u64,
    close_ts: u64,
    price: Option<i128>,
    k: (Asset, u64),
)
    requires
        k != (asset, epoch),
    ensures
        m.settle_locked(asset, epoch, close_ts, price).store.rounds.contains_key(k)
            == m.store.rounds.contains_key(k),
        m.store.rounds.contains_key(k) ==> m.settle_locked(asset, epoch, close_ts, price).store.rounds[k]
            == m.store.rounds[k],
        m.settle_locked(asset, epoch, close_ts, price).store.bets == m.store.bets,
        m.settle_locked(asset, epoch, close_ts, price).store.config == m.store.config,
        forall|a: Asset| #[trigger] m.settle_locked(asset, epoch, close_ts, price).store.genesis(a)
            == m.store.genesis(a),
{
}

/// Locking or cancelling an open round keeps the books funded.
proof fn lemma_lock_round_funded(
    m: PredictionState,
    asset: Asset,
    epoch: u64,
    epoch_ts: u64,
    price: Option<i128>,
    r: Round,
)
    requires
        funded(m),
        m.store.round(asset, epoch) == Some(r),
    ensures
        funded(m.lock_round(asset, epoch, epoch_ts, price, r)),
{
    let fin = m.lock_round(asset, epoch, epoch_ts, price, r);
    assert(m.store.rounds.contains_key((asset, epoch)));
    match price {
        Some(p) => {
            let r2 = Round { start_price: p, lock_time: epoch_ts, status: RoundStatus::Locked, ..r };
            lemma_with_round_funded(m, asset, epoch, r2);
            lemma_same_books_keep_funds(m.with_round(asset, epoch, r2), fin);
        },
        None => {
            let r2 = Round { status: RoundStatus::Cancelled, ..r };
            lemma_with_round_funded(m, asset, epoch, r2);
            lemma_same_books_keep_funds(m.with_round(asset, epoch, r2), fin);
        },
    }
}

/// Opening the next round with empty pools keeps the books funded.
proof fn lemma_open_next_funded(m: PredictionState, asset: Asset, epoch_ts: u64, next: u64)
    requires
        funded(m),
        m.store.genesis(asset) != GenesisStatus::NotStarted,
    ensures
        funded(m.open_next(asset, epoch_ts, next)),
{
    if !m.store.rounds.contains_key((asset, next)) {
        let r = crate::prediction_types::fresh_round(
            epoch_ts,
            (next * crate::prediction::INTERVAL_SECS) as u64,
            ((next + 1) * crate::prediction::INTERVAL_SECS) as u64,
        );
        lemma_with_round_funded(m, asset, next, r);
    }
}


/// Closing round E-1 (settling it, or cancelling it as missed) keeps the
/// books funded and touches no other round.
proof fn lemma_close_step_funded(m: PredictionState, asset: Asset, now: u64, price: Option<i128>)
    requires
        funded(m),
        m.store.config is Some,
        now / crate::prediction::INTERVAL_SECS >= 1 ==> m.settle_locked_ok(
            asset,
            (now / crate::prediction::INTERVAL_SECS - 1) as u64,
            price,
        ),
    ensures
        funded(m.close_step(asset, now, price)),
        forall|a: Asset| #[trigger] m.close_step(asset, now, price).store.genesis(a) == m.store.genesis(a),
        forall|k: (Asset, u64)|
            k != (asset, (now / crate::prediction::INTERVAL_SECS - 1) as u64) ==> (
            #[trigger] m.close_step(asset, now, price).store.rounds.contains_key(k)
                == m.store.rounds.contains_key(k) && (m.store.rounds.contains_key(k)
                ==> m.close_step(asset, now, price).store.rounds[k] == m.store.rounds[k])),
{
    let current = (now / crate::prediction::INTERVAL_SECS) as u64;
    let epoch_ts = (current * crate::prediction::INTERVAL_SECS) as u64;
    if current != 0 {
        let prev = (current - 1) as u64;
        match m.store.round(asset, prev) {
            None => {},
            Some(p) => {
                if p.status == RoundStatus::Locked {
                    lemma_settle_locked_funded(m, asset, prev, epoch_ts, price);
                    assert forall|k: (Asset, u64)| k != (asset, prev) implies (
                    #[trigger] m.close_step(asset, now, price).store.rounds.contains_key(k)
                        == m.store.rounds.contains_key(k) && (m.store.rounds.contains_key(k)
                        ==> m.close_step(asset, now, price).store.rounds[k] == m.store.rounds[k])) by {
                        lemma_settle_locked_frame(m, asset, prev, epoch_ts, price, k);
                    }
                    assert forall|a: Asset| #[trigger] m.close_step(asset, now, price).store.genesis(a)
                        == m.store.genesis(a) by {
                        lemma_settle_locked_frame(m, asset, prev, epoch_ts, price, (asset, current));
                    }
                } else if p.status == RoundStatus::Open {
                    assert(m.store.rounds.contains_key((asset, prev)));
                    let r2 = Round { status: RoundStatus::Cancelled, ..p };
                    lemma_with_round_funded(m, asset, prev, r2);
                    lemma_same_books_keep_funds(m.with_round(asset, prev, r2), m.close_step(asset, now, price));
                }
            },
        }
    }
}

/// The late settlement of round E-2 keeps the books funded and touches
/// neither round E-1 nor round E.
proof fn lemma_retro_step_funded(
    m: PredictionState,
    asset: Asset,
    now: u64,
    prev_reading: Option<crate::prediction_types::PriceData>,
)
    requires
        funded(m),
        m.store.config is Some,
        now / crate::prediction::INTERVAL_SECS >= 2 ==> m.settle_locked_ok(
            asset,
            (now / crate::prediction::INTERVAL_SECS - 2) as u64,
            crate::prediction_types::fresh_price(
                prev_reading,
                ((now / crate::prediction::INTERVAL_SECS - 1) * crate::prediction::INTERVAL_SECS) as u64,
                m.config().oracle_staleness_tolerance,
            ),
        ),
    ensures
        funded(m.retro_step(asset, now, prev_reading)),
        m.retro_step(asset, now, prev_reading).store.config == m.store.config,
        m.retro_step(asset, now, prev_reading).store.genesis(asset) == m.store.genesis(asset),
        m.retro_step(asset, now, prev_reading).store.round(
            asset,
            (now / crate::prediction::INTERVAL_SECS) as u64,
        ) == m.store.round(asset, (now / crate::prediction::INTERVAL_SECS) as u64),
{
    let interval = crate::prediction::INTERVAL_SECS;
    let current = (now / interval) as u64;
    if current >= 2 {
        let retro_ts = ((current - 1) * interval) as u64;
        let retro_price = crate::prediction_types::fresh_price(
            prev_reading,
            retro_ts,
            m.config().oracle_staleness_tolerance,
        );
        lemma_settle_locked_funded(m, asset, (current - 2) as u64, retro_ts, retro_price);
        lemma_settle_locked_frame(m, asset, (current - 2) as u64, retro_ts, retro_price, (asset, current));
    }
}

/// A successful `execute_round` keeps the books funded.
#[verifier::spinoff_prover]
pub proof fn lemma_execute_round_keeps_funds(
    m: PredictionState,
    asset: Asset,
    now: u64,
    reading: Option<crate::prediction_types::PriceData>,
    prev_reading: Option<crate::prediction_types::PriceData>,
)
    requires
        funded(m),
        m.execute_round_error(asset) is None,
        m.execute_round_ok(asset, now, reading, prev_reading),
    ensures
        funded(m.after_execute_round(asset, now, reading, prev_reading)),
{
    if !m.epoch_done(asset, now) {
        let interval = crate::prediction::INTERVAL_SECS;
        let current = (now / interval) as u64;
        let epoch_ts = (current * interval) as u64;
        let price = crate::prediction_types::fresh_price(
            reading,
            epoch_ts,
            m.config().oracle_staleness_tolerance,
        );
        let s1 = m.retro_step(asset, now, prev_reading);
        lemma_retro_step_funded(m, asset, now, prev_reading);
        let s2 = s1.close_step(asset, now, price);
        lemma_close_step_funded(s1, asset, now, price);
        assert(s2.store.genesis(asset) == m.store.genesis(asset));
        match m.store.round(asset, current) {
            Some(c) => {
                assert(s2.store.rounds.contains_key((asset, current)));
                assert(s2.store.round(asset, current) == Some(c));
                lemma_lock_round_funded(s2, asset, current, epoch_ts, price, c);
                let s3 = s2.lock_round(asset, current, epoch_ts, price, c);
                assert(s3.store.genesis(asset) == m.store.genesis(asset));
                lemma_open_next_funded(s3, asset, epoch_ts, (current + 1) as u64);
            },
            None => {
                lemma_open_next_funded(s2, asset, epoch_ts, (current + 1) as u64);
            },
        }
    }
}


/// Setting one asset's genesis status leaves the others alone.
proof fn lemma_with_genesis(st: StoreState, asset: Asset, status: GenesisStatus, a: Asset)
    ensures
        st.with_genesis(asset, status).genesis(a) == if a == asset {
            status
        } else {
            st.genesis(a)
        },
{
    match asset {
        Asset::Btc => {},
        Asset::Eth => {},
        Asset::Sol => {},
        Asset::Xlm => {},
    }
    match a {
        Asset::Btc => {},
        Asset::Eth => {},
        Asset::Sol => {},
        Asset::Xlm => {},
    }
}

/// Moving an asset's genesis forward (to a status other than not started)
/// keeps the books funded.
proof fn lemma_genesis_advance_funded(m: PredictionState, asset: Asset, status: GenesisStatus)
    requires
        funded(m),
        status != GenesisStatus::NotStarted,
    ensures
        funded(m.with_genesis(asset, status)),
{
    let m2 = m.with_genesis(asset, status);
    assert forall|k: (Asset, u64)| #[trigger] m2.store.rounds.contains_key(k) implies split_ok(
        m2.store.rounds[k],
    ) && m2.store.genesis(k.0) != GenesisStatus::NotStarted by {
        lemma_with_genesis(m.store, asset, status, k.0);
    }
    lemma_funded_step(m, m2);
}

/// A successful `genesis_start` keeps the books funded: the asset had no
/// rounds yet, so its first round starts from empty pools.
pub proof fn lemma_genesis_start_keeps_funds(m: PredictionState, asset: Asset, now: u64)
    requires
        funded(m),
        m.genesis_start_error(asset) is None,
    ensures
        funded(m.after_genesis_start(asset, now)),
{
    let interval = crate::prediction::INTERVAL_SECS;
    let open_epoch = (now / interval + 1) as u64;
    let r = crate::prediction_types::fresh_round(
        now,
        (open_epoch * interval) as u64,
        ((open_epoch + 1) * interval) as u64,
    );
    assert(!m.store.rounds.contains_key((asset, open_epoch)));
    let m1 = m.with_round(asset, open_epoch, r);
    let m2 = m1.with_genesis(asset, GenesisStatus::Started);
    assert forall|a: Asset, e: u64, d: Direction|
        #[trigger] pool_cap(m2.store.rounds, a, e, d) >= pool_cap(m.store.rounds, a, e, d) by {
        if (a, e) == (asset, open_epoch) {
            match d {
                Direction::Up => {},
                Direction::Down => {},
            }
        }
    }
    assert forall|k: (Asset, u64)| #[trigger] m2.store.rounds.contains_key(k) implies split_ok(
        m2.store.rounds[k],
    ) && m2.store.genesis(k.0) != GenesisStatus::NotStarted by {
        lemma_with_genesis(m1.store, asset, GenesisStatus::Started, k.0);
        if k != (asset, open_epoch) {
            assert(m.store.rounds.contains_key(k));
        }
    }
    lemma_funded_step(m, m2);
}

/// A successful `genesis_lock` keeps the books funded.
pub proof fn lemma_genesis_lock_keeps_funds(
    m: PredictionState,
    asset: Asset,
    now: u64,
    reading: Option<crate::prediction_types::PriceData>,
)
    requires
        funded(m),
        m.genesis_lock_error(asset, now) is None,
    ensures
        funded(m.after_genesis_lock(asset, now, reading)),
{
    let interval = crate::prediction::INTERVAL_SECS;
    let current = (now / interval) as u64;
    let epoch_ts = (current * interval) as u64;
    let price = crate::prediction_types::fresh_price(
        reading,
        epoch_ts,
        m.config().oracle_staleness_tolerance,
    );
    let r = m.store.round(asset, current).unwrap();
    lemma_lock_round_funded(m, asset, current, epoch_ts, price, r);
    let s1 = m.lock_round(asset, current, epoch_ts, price, r);
    assert(s1.store.genesis(asset) == m.store.genesis(asset));
    lemma_open_next_funded(s1, asset, epoch_ts, (current + 1) as u64);
    let s2 = s1.open_next(asset, epoch_ts, (current + 1) as u64);
    lemma_genesis_advance_funded(s2, asset, GenesisStatus::Running);
}

/// Adding a bet where there was none adds its stake to the users who
/// include its bettor, on its own round and side.
proof fn lemma_staked_by_insert(
    bets: Map<(Asset, u64, Seq<char>), Bet>,
    k0: (Asset, u64, Seq<char>),
    b0: Bet,
    a: Asset,
    e: u64,
    d: Direction,
    users: Seq<Seq<char>>,
)
    requires
        !bets.contains_key(k0),
        users.no_duplicates(),
    ensures
        staked_by(bets.insert(k0, b0), a, e, d, users) == staked_by(bets, a, e, d, users) + if k0.0
            == a && k0.1 == e && b0.direction == d && users.contains(k0.2) {
            b0.amount as int
        } else {
            0
        },
    decreases users.len(),
{
    if users.len() > 0 {
        let rest = users.drop_last();
        assert(rest.no_duplicates());
        lemma_staked_by_insert(bets, k0, b0, a, e, d, rest);
        if users.last() == k0.2 {
            assert(!rest.contains(k0.2));
        }
        assert(users.contains(k0.2) == (rest.contains(k0.2) || users.last() == k0.2)) by {
            if users.contains(k0.2) && users.last() != k0.2 {
                let i = choose|i: int| 0 <= i < users.len() && users[i] == k0.2;
                assert(i < users.len() - 1);
                assert(rest[i] == k0.2);
            }
            if rest.contains(k0.2) {
                let i = choose|i: int| 0 <= i < rest.len() && rest[i] == k0.2;
                assert(users[i] == k0.2);
            }
        }
    }
}

/// A successful bet keeps the books funded: its stake is added to its
/// round's pool as it is recorded.
pub proof fn lemma_bet_keeps_funds(
    m: PredictionState,
    user: String,
    asset: Asset,
    epoch: u64,
    direction: Direction,
    amount: i128,
    now: u64,
)
    requires
        funded(m),
        m.bet_error(user@, asset, epoch, amount, now) is None,
        m.bet_ok(asset, epoch, direction, amount),
    ensures
        funded(m.after_bet(user, asset, epoch, direction, amount)),
{
    let m2 = m.after_bet(user, asset, epoch, direction, amount);
    let k0 = (asset, epoch, user@);
    let b0 = Bet { direction, amount, claimed: false };
    assert(!m.store.bets.contains_key(k0));
    assert(m.store.rounds.contains_key((asset, epoch)));
    assert forall|k: (Asset, u64, Seq<char>)| #[trigger] m2.store.bets.contains_key(k) implies m2.store.bets[k].amount
        >= 0 by {
        if k != k0 {
            assert(m.store.bets.contains_key(k));
        }
    }
    assert forall|k: (Asset, u64)| #[trigger] m2.store.rounds.contains_key(k) implies split_ok(
        m2.store.rounds[k],
    ) && m2.store.genesis(k.0) != GenesisStatus::NotStarted by {
        assert(m.store.rounds.contains_key(k));
    }
    assert forall|a: Asset, e: u64, d: Direction, users: Seq<Seq<char>>|
        users.no_duplicates() implies #[trigger] staked_by(m2.store.bets, a, e, d, users) <= pool_cap(
        m2.store.rounds,
        a,
        e,
        d,
    ) by {
        lemma_staked_by_insert(m.store.bets, k0, b0, a, e, d, users);
        assert(staked_by(m.store.bets, a, e, d, users) <= pool_cap(m.store.rounds, a, e, d));
        if (a, e) == (asset, epoch) {
            match d {
                Direction::Up => {},
                Direction::Down => {},
            }
        }
    }
}

/// Marking a bet claimed keeps every user's stakes.
proof fn lemma_staked_by_mark(
    bets: Map<(Asset, u64, Seq<char>), Bet>,
    k0: (Asset, u64, Seq<char>),
    a: Asset,
    e: u64,
    d: Direction,
    users: Seq<Seq<char>>,
)
    requires
        bets.contains_key(k0),
    ensures
        staked_by(bets.insert(k0, Bet { claimed: true, ..bets[k0] }), a, e, d, users) == staked_by(
            bets,
            a,
            e,
            d,
            users,
        ),
    decreases users.len(),
{
    if users.len() > 0 {
        lemma_staked_by_mark(bets, k0, a, e, d, users.drop_last());
    }
}

/// Marking a stored bet claimed keeps the books funded.
proof fn lemma_mark_claimed_funded(m: PredictionState, asset: Asset, epoch: u64, user: Seq<char>)
    requires
        funded(m),
        m.store.bets.contains_key((asset, epoch, user)),
    ensures
        funded(m.mark_claimed(asset, epoch, user)),
{
    let m2 = m.mark_claimed(asset, epoch, user);
    let k0 = (asset, epoch, user);
    assert forall|k: (Asset, u64, Seq<char>)| #[trigger] m2.store.bets.contains_key(k) implies m2.store.bets[k].amount
        >= 0 by {
        assert(m.store.bets.contains_key(k));
    }
    assert forall|a: Asset, e: u64, d: Direction, users: Seq<Seq<char>>|
        users.no_duplicates() implies #[trigger] staked_by(m2.store.bets, a, e, d, users) <= pool_cap(
        m2.store.rounds,
        a,
        e,
        d,
    ) by {
        lemma_staked_by_mark(m.store.bets, k0, a, e, d, users);
        assert(staked_by(m.store.bets, a, e, d, users) <= pool_cap(m.store.rounds, a, e, d));
    }
}

/// Claiming over any epochs keeps the books funded.
pub proof fn lemma_claims_keep_funds(m: PredictionState, asset: Asset, epochs: Seq<u64>, user: Seq<char>)
    requires
        funded(m),
    ensures
        funded(m.claims(asset, epochs, user).0),
    decreases epochs.len(),
{
    if epochs.len() > 0 {
        lemma_claims_keep_funds(m, asset, epochs.drop_last(), user);
        let s = m.claims(asset, epochs.drop_last(), user).0;
        let e = epochs.last();
        if s.win_amount(asset, e, user) != 0 {
            lemma_mark_claimed_funded(s, asset, e, user);
        }
    }
}

/// Refunding over any epochs keeps the books funded.
pub proof fn lemma_refunds_keep_funds(m: PredictionState, asset: Asset, epochs: Seq<u64>, user: Seq<char>)
    requires
        funded(m),
    ensures
        funded(m.refunds(asset, epochs, user).0),
    decreases epochs.len(),
{
    if epochs.len() > 0 {
        lemma_refunds_keep_funds(m, asset, epochs.drop_last(), user);
        let s = m.refunds(asset, epochs.drop_last(), user).0;
        let e = epochs.last();
        if s.refund_due(asset, e, user) {
            lemma_mark_claimed_funded(s, asset, e, user);
        }
    }
}

} // verus!
