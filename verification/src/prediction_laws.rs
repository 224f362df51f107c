//! What holds of the epoch-driven market across its operations.
use vstd::prelude::*;
use crate::math::{lemma_pools_split, pool_fee, pools_ok};
use crate::prediction::{PredictionState, INTERVAL_SECS};
use crate::prediction_types::Bet;
use crate::prediction_funds::entitled;
use crate::prediction_store::{ring_push, USER_EPOCHS_CAP};
use crate::prediction_types::{Asset, Direction, PriceData, Round, RoundStatus};

verus! {

/// `execute_round` runs once per epoch: after a successful call, every
/// later call in the same epoch changes nothing, whatever the oracle then
/// answers. When the epoch's round exists, the first call locks or cancels
/// it (or finds it so already).
pub proof fn lemma_epoch_runs_once(
    m: PredictionState,
    asset: Asset,
    now: u64,
    reading: Option<PriceData>,
    prev_reading: Option<PriceData>,
    later_reading: Option<PriceData>,
    later_prev_reading: Option<PriceData>,
)
    requires
        m.wf(),
        m.execute_round_error(asset) is None,
    ensures
        ({
            let m2 = m.after_execute_round(asset, now, reading, prev_reading);
            &&& m.store.round(asset, (now / INTERVAL_SECS) as u64) is Some ==> m2.epoch_done(
                asset,
                now,
            )
            &&& m2.after_execute_round(asset, now, later_reading, later_prev_reading) == m2
        }),
{
    let current = (now / INTERVAL_SECS) as u64;
    let epoch_ts = (current * INTERVAL_SECS) as u64;
    let price = crate::prediction_types::fresh_price(reading, epoch_ts, m.config().oracle_staleness_tolerance);
    let s1 = m.retro_step(asset, now, prev_reading);
    let s2 = s1.close_step(asset, now, price);
    if m.epoch_done(asset, now) {
    } else if m.store.round(asset, current) is Some {
        let c = m.store.round(asset, current).unwrap();
        let s3 = s2.lock_round(asset, current, epoch_ts, price, c);
        let m2 = s3.open_next(asset, epoch_ts, (current + 1) as u64);
        assert(s3.store.rounds.contains_key((asset, current)));
        assert(s3.store.rounds[(asset, current)].status != RoundStatus::Open);
        assert(m2.store.rounds.contains_key((asset, current)));
        assert(m2.store.rounds[(asset, current)] == s3.store.rounds[(asset, current)]);
    } else {
        let m2 = s2.open_next(asset, epoch_ts, (current + 1) as u64);
        assert(m2 == m.after_execute_round(asset, now, reading, prev_reading));
        assert(!s1.store.rounds.contains_key((asset, current)));
        assert(!s2.store.rounds.contains_key((asset, current)));
        assert(!m2.store.rounds.contains_key((asset, current)));
        assert(!m2.epoch_done(asset, now));
        assert(m2.store.rounds.contains_key((asset, (current + 1) as u64)));
        if current >= 2 {
            let e2 = (current - 2) as u64;
            assert(!(s1.store.round(asset, e2) matches Some(r) && r.status == RoundStatus::Locked));
            assert(s2.store.round(asset, e2) == s1.store.round(asset, e2));
            assert(m2.store.round(asset, e2) == s1.store.round(asset, e2));
        }
        if current >= 1 {
            let e1 = (current - 1) as u64;
            assert(!(s2.store.round(asset, e1) matches Some(r) && (r.status == RoundStatus::Locked
                || r.status == RoundStatus::Open)));
            assert(m2.store.round(asset, e1) == s2.store.round(asset, e1));
        }
        let later_price = crate::prediction_types::fresh_price(
            later_reading,
            epoch_ts,
            m2.config().oracle_staleness_tolerance,
        );
        let t1 = m2.retro_step(asset, now, later_prev_reading);
        assert(t1 == m2);
        let t2 = t1.close_step(asset, now, later_price);
        assert(t2 == m2);
        assert(t2.open_next(asset, epoch_ts, (current + 1) as u64) == m2);
    }
}

/// One move of a round's life: it stays as it was, or an open round is
/// locked or cancelled, or a locked round is resolved or cancelled, its
/// pools unchanged. Resolved and cancelled rounds are final.
pub open spec fn round_move(before: Round, after: Round) -> bool {
    ||| after == before
    ||| {
        &&& after.up_amount == before.up_amount
        &&& after.down_amount == before.down_amount
        &&& after.total_amount == before.total_amount
        &&& {
            ||| before.status == RoundStatus::Open && after.status == RoundStatus::Locked
            ||| before.status == RoundStatus::Open && after.status == RoundStatus::Cancelled
            ||| before.status == RoundStatus::Locked && after.status == RoundStatus::Resolved
            ||| before.status == RoundStatus::Locked && after.status == RoundStatus::Cancelled
        }
    }
}

/// `execute_round` at epoch E touches only the rounds E-2 to E+1 of its
/// asset: each existing round makes at most one move of its life (see
/// `round_move`), no round or bet disappears, no bet changes, and round
/// E+1 exists afterwards.
pub proof fn lemma_execute_round_moves(
    m: PredictionState,
    asset: Asset,
    now: u64,
    reading: Option<PriceData>,
    prev_reading: Option<PriceData>,
)
    requires
        m.wf(),
        m.execute_round_error(asset) is None,
    ensures
        ({
            let m2 = m.after_execute_round(asset, now, reading, prev_reading);
            let current = now / INTERVAL_SECS;
            &&& m2.store.bets == m.store.bets
            &&& forall|k: (Asset, u64)| #[trigger] m.store.rounds.contains_key(k)
                ==> m2.store.rounds.contains_key(k) && round_move(m.store.rounds[k], m2.store.rounds[k])
            &&& forall|k: (Asset, u64)|
                (k.0 != asset || k.1 + 2 < current || k.1 > current + 1)
                    ==> #[trigger] m2.store.round(k.0, k.1) == m.store.round(k.0, k.1)
            &&& !m.epoch_done(asset, now) ==> m2.store.rounds.contains_key((asset, (current + 1) as u64))
        }),
{
    let current = (now / INTERVAL_SECS) as u64;
    let epoch_ts = (current * INTERVAL_SECS) as u64;
    let price = crate::prediction_types::fresh_price(reading, epoch_ts, m.config().oracle_staleness_tolerance);
    let s1 = m.retro_step(asset, now, prev_reading);
    let s2 = s1.close_step(asset, now, price);
    let s3 = match m.store.round(asset, current) {
        Some(c) => s2.lock_round(asset, current, epoch_ts, price, c),
        None => s2,
    };
    let m2 = m.after_execute_round(asset, now, reading, prev_reading);
    if !m.epoch_done(asset, now) {
        assert(m2 == s3.open_next(asset, epoch_ts, (current + 1) as u64));
        assert forall|k: (Asset, u64)| #[trigger] m.store.rounds.contains_key(k) implies m2.store.rounds.contains_key(k)
            && round_move(m.store.rounds[k], m2.store.rounds[k]) by {
            assert(s1.store.rounds.contains_key(k));
            assert(s2.store.rounds.contains_key(k));
            assert(s3.store.rounds.contains_key(k));
            if k == (asset, current) {
                assert(s2.store.rounds[k] == m.store.rounds[k]);
            } else if current >= 1 && k == (asset, (current - 1) as u64) {
                assert(s1.store.rounds[k] == m.store.rounds[k]);
                assert(s3.store.rounds[k] == s2.store.rounds[k]);
            } else if current >= 2 && k == (asset, (current - 2) as u64) {
                assert(s2.store.rounds[k] == s1.store.rounds[k]);
                assert(s3.store.rounds[k] == s1.store.rounds[k]);
            } else {
                assert(s1.store.rounds[k] == m.store.rounds[k]);
                assert(s2.store.rounds[k] == m.store.rounds[k]);
                assert(s3.store.rounds[k] == m.store.rounds[k]);
            }
            assert(m2.store.rounds[k] == s3.store.rounds[k]);
        }
    }
}

/// Settlement depends on the epoch, not on when in it the call lands: two
/// calls in the same epoch with the same oracle readings give the same
/// state.
pub proof fn lemma_boundary_time_only(
    m: PredictionState,
    asset: Asset,
    now1: u64,
    now2: u64,
    reading: Option<PriceData>,
    prev_reading: Option<PriceData>,
)
    requires
        now1 / INTERVAL_SECS == now2 / INTERVAL_SECS,
    ensures
        m.after_execute_round(asset, now1, reading, prev_reading) == m.after_execute_round(
            asset,
            now2,
            reading,
            prev_reading,
        ),
{
}

/// A claimed or refunded bet pays nothing again: after claiming over a
/// list of epochs, none of those epochs pays a claim or a refund.
pub proof fn lemma_claims_pay_once(m: PredictionState, asset: Asset, epochs: Seq<u64>, user: Seq<char>, k: int)
    requires
        0 <= k < epochs.len(),
        m.claims(asset, epochs, user).0.store.bet(asset, epochs[k], user) matches Some(b)
            && m.claims(asset, epochs, user).0.store.round(asset, epochs[k]) matches Some(r)
            && r.status == RoundStatus::Resolved,
    ensures
        m.claims(asset, epochs, user).0.win_amount(asset, epochs[k], user) == 0,
    decreases epochs.len(),
{
    let t = epochs.drop_last();
    let (s, total, count) = m.claims(asset, t, user);
    let e = epochs.last();
    let p = s.win_amount(asset, e, user);
    if k < epochs.len() - 1 {
        assert(t[k] == epochs[k]);
        let key = (asset, epochs[k], user);
        if p != 0 {
            let s2 = s.mark_claimed(asset, e, user);
            assert(s2.store.rounds == s.store.rounds);
            if e == epochs[k] {
                assert(s2.store.bets[key].claimed);
            } else {
                assert(s2.store.bets[key] == s.store.bets[key]);
                assert(s.store.bets.contains_key(key));
                lemma_claims_pay_once(m, asset, t, user, k);
            }
        } else {
            lemma_claims_pay_once(m, asset, t, user, k);
        }
    } else {
        if p != 0 {
            let s2 = s.mark_claimed(asset, e, user);
            assert(s2.store.bets[(asset, e, user)].claimed);
        }
    }
}

/// A bet marked claimed is never refunded or paid again.
pub proof fn lemma_marked_pays_nothing(m: PredictionState, asset: Asset, epoch: u64, user: Seq<char>)
    requires
        m.store.bets.contains_key((asset, epoch, user)),
    ensures
        m.mark_claimed(asset, epoch, user).win_amount(asset, epoch, user) == 0,
        !m.mark_claimed(asset, epoch, user).refund_due(asset, epoch, user),
        m.mark_claimed(asset, epoch, user).claimable_amount(asset, epoch, user) == 0,
{
}

/// Each user's epoch list stays short and free of repeats, and ends with
/// the newest epoch recorded.
pub proof fn lemma_epoch_list(buf: Seq<u64>, epoch: u64)
    requires
        buf.len() <= USER_EPOCHS_CAP,
        buf.no_duplicates(),
    ensures
        ring_push(buf, epoch).len() <= USER_EPOCHS_CAP,
        ring_push(buf, epoch).no_duplicates(),
        ring_push(buf, epoch).contains(epoch),
        !buf.contains(epoch) ==> ring_push(buf, epoch).last() == epoch,
{
    let r = ring_push(buf, epoch);
    if buf.contains(epoch) {
    } else if buf.len() >= USER_EPOCHS_CAP {
        let sub = buf.subrange(1, buf.len() as int);
        assert(r == sub.push(epoch));
        assert forall|i: int, j: int| 0 <= i < r.len() && 0 <= j < r.len() && i != j implies r[i] != r[j] by {
            if i < sub.len() && j < sub.len() {
                assert(r[i] == buf[i + 1] && r[j] == buf[j + 1]);
            } else if i < sub.len() {
                assert(r[i] == buf[i + 1]);
            } else {
                assert(r[j] == buf[j + 1]);
            }
        }
        assert(r[r.len() - 1] == epoch);
    } else {
        assert forall|i: int, j: int| 0 <= i < r.len() && 0 <= j < r.len() && i != j implies r[i] != r[j] by {
            if i < buf.len() && j < buf.len() {
                assert(r[i] == buf[i] && r[j] == buf[j]);
            } else if i < buf.len() {
                assert(r[i] == buf[i]);
            } else {
                assert(r[j] == buf[j]);
            }
        }
        assert(r[r.len() - 1] == epoch);
    }
}

/// Resolving a locked round splits its pot into the treasury fee and the
/// reward pool: for a nonnegative pot and a fee of at most 100%, both parts
/// are nonnegative and add up to the pot.
pub proof fn lemma_resolution_splits_pot(
    m: PredictionState,
    asset: Asset,
    epoch: u64,
    close_ts: u64,
    end_price: i128,
)
    requires
        m.store.config is Some,
        m.config().fee_bps <= 10_000,
        m.store.round(asset, epoch) matches Some(r) && r.status == RoundStatus::Locked
            && r.total_amount >= 0 && pools_ok(r.total_amount as int, m.config().fee_bps as int),
        m.settle_locked(asset, epoch, close_ts, Some(end_price)).store.round(asset, epoch) matches Some(
            r2,
        ) && r2.status == RoundStatus::Resolved,
    ensures
        ({
            let r2 = m.settle_locked(asset, epoch, close_ts, Some(end_price)).store.round(
                asset,
                epoch,
            ).unwrap();
            &&& r2.treasury_fee + r2.reward_pool == r2.total_amount
            &&& 0 <= r2.treasury_fee <= r2.total_amount
            &&& 0 <= r2.reward_pool <= r2.total_amount
            &&& r2.end_price == end_price
            &&& r2.close_time == close_ts
        }),
{
    let r = m.store.round(asset, epoch).unwrap();
    lemma_pools_split(r.total_amount, m.config().fee_bps);
}

/// With tie refunds off, an exact tie on a two-sided locked round goes to
/// the house: the round resolves with the whole pot as the treasury's fee
/// and an empty reward pool, the treasury gains the whole pot, and no bet
/// on the round is owed anything (where the treasury can hold the pot).
pub proof fn lemma_tie_without_refund_house_takes_all(
    m: PredictionState,
    asset: Asset,
    epoch: u64,
    close_ts: u64,
)
    requires
        m.store.config is Some,
        !m.config().tie_refund,
        m.store.round(asset, epoch) matches Some(r) && r.status == RoundStatus::Locked
            && r.up_amount != 0 && r.down_amount != 0 && m.settle_locked_ok(
            asset,
            epoch,
            Some(r.start_price),
        ),
    ensures
        ({
            let r = m.store.round(asset, epoch).unwrap();
            let m2 = m.settle_locked(asset, epoch, close_ts, Some(r.start_price));
            let r2 = m2.store.round(asset, epoch).unwrap();
            &&& r2.status == RoundStatus::Resolved
            &&& r2.treasury_fee == r.total_amount
            &&& r2.reward_pool == 0
            &&& m2.store.treasury == m.store.treasury + r.total_amount
            &&& forall|user: Seq<char>| #[trigger] entitled(m2, asset, epoch, user) == 0
        }),
{
}

/// A bet adds its amount to its side's pool and to the round's total and
/// leaves the other side alone, so a round whose total is the sum of its
/// two pools stays so.
pub proof fn lemma_bet_keeps_total(
    m: PredictionState,
    user: String,
    asset: Asset,
    epoch: u64,
    direction: Direction,
    amount: i128,
)
    requires
        m.store.round(asset, epoch) is Some,
        m.bet_ok(asset, epoch, direction, amount),
    ensures
        ({
            let r = m.store.round(asset, epoch).unwrap();
            let r2 = m.after_bet(user, asset, epoch, direction, amount).store.round(asset, epoch).unwrap();
            &&& r2.total_amount == r.total_amount + amount
            &&& direction == Direction::Up ==> r2.up_amount == r.up_amount + amount
                && r2.down_amount == r.down_amount
            &&& direction == Direction::Down ==> r2.down_amount == r.down_amount + amount
                && r2.up_amount == r.up_amount
            &&& r.total_amount == r.up_amount + r.down_amount ==> r2.total_amount == r2.up_amount
                + r2.down_amount
            &&& r2.status == r.status
        }),
{
}

/// Claiming one epoch pays a winning bet its share of the reward pool:
/// for an unclaimed bet on the side the price moved to (`Up` when it rose,
/// `Down` otherwise), whichever it is, the claim pays
/// `amount * reward_pool / pool of that side`, the amount `claimable`
/// reports, and marks the bet claimed; it pays nothing and changes nothing
/// only when that share is 0.
pub proof fn lemma_claim_pays_winning_share(m: PredictionState, asset: Asset, epoch: u64, user: Seq<char>)
    requires
        m.store.round(asset, epoch) matches Some(r) && r.status == RoundStatus::Resolved
            && r.reward_pool >= 0,
        m.store.bet(asset, epoch, user) matches Some(b) && !b.claimed && b.amount >= 0 && b.direction
            == (if m.store.round(asset, epoch).unwrap().end_price > m.store.round(
            asset,
            epoch,
        ).unwrap().start_price {
            Direction::Up
        } else {
            Direction::Down
        }),
        ({
            let r = m.store.round(asset, epoch).unwrap();
            (if r.end_price > r.start_price {
                r.up_amount
            } else {
                r.down_amount
            }) > 0
        }),
    ensures
        ({
            let r = m.store.round(asset, epoch).unwrap();
            let b = m.store.bet(asset, epoch, user).unwrap();
            let pool = if r.end_price > r.start_price {
                r.up_amount as int
            } else {
                r.down_amount as int
            };
            let share = (b.amount * r.reward_pool) / pool;
            let (s, total, count) = m.claims(asset, seq![epoch], user);
            &&& total == share
            &&& total == m.claimable_amount(asset, epoch, user)
            &&& share != 0 ==> count == 1 && s.store.bet(asset, epoch, user) == Some(
                Bet { claimed: true, ..b },
            )
            &&& share == 0 ==> count == 0 && s == m
        }),
{
    let r = m.store.round(asset, epoch).unwrap();
    let b = m.store.bet(asset, epoch, user).unwrap();
    let pool = if r.end_price > r.start_price {
        r.up_amount as int
    } else {
        r.down_amount as int
    };
    let es = seq![epoch];
    assert(es.drop_last() =~= Seq::<u64>::empty());
    assert(es.last() == epoch);
    let x = b.amount * r.reward_pool;
    assert(x >= 0) by (nonlinear_arith)
        requires
            x == b.amount * r.reward_pool,
            b.amount >= 0,
            r.reward_pool >= 0,
    ;
    if x > 0 {
        crate::division::lemma_tdiv_nonneg(x, pool);
        assert(b.amount != 0 && r.reward_pool != 0) by (nonlinear_arith)
            requires
                x == b.amount * r.reward_pool,
                x > 0,
        ;
    } else {
        assert(x / pool == 0);
    }
    assert(m.store.bets.contains_key((asset, epoch, user)));
    assert(m.claims(asset, es.drop_last(), user) == (m, 0int, 0int));
    assert(crate::prediction::side_amount(r, crate::prediction::winning_side(r)) == pool);
    assert(crate::math::payout(b.amount as int, r.reward_pool as int, pool) == x / pool);
    assert(m.win_amount(asset, epoch, user) == x / pool);
    assert(m.claimable_amount(asset, epoch, user) == x / pool);
}

/// What refunds over `epochs` owe: the stakes of the unclaimed bets on
/// cancelled rounds among the listed epochs, each epoch counted once.
pub open spec fn refund_owed(m: PredictionState, asset: Asset, epochs: Seq<u64>, user: Seq<char>) -> int
    decreases epochs.len(),
{
    if epochs.len() == 0 {
        0
    } else {
        let e = epochs.last();
        refund_owed(m, asset, epochs.drop_last(), user) + if !epochs.drop_last().contains(e)
            && (m.store.round(asset, e) matches Some(r) && r.status == RoundStatus::Cancelled)
            && (m.store.bet(asset, e, user) matches Some(b) && !b.claimed) {
            m.store.bet(asset, e, user).unwrap().amount as int
        } else {
            0
        }
    }
}

/// What a run of refunds leaves in place: rounds and other bets untouched,
/// the listed epochs' bets no longer refundable.
proof fn lemma_refunds_accounting(m: PredictionState, asset: Asset, epochs: Seq<u64>, user: Seq<char>)
    ensures
        ({
            let (s, total, count) = m.refunds(asset, epochs, user);
            &&& s.store.rounds == m.store.rounds
            &&& forall|e: u64| !epochs.contains(e) ==> #[trigger] s.store.bet(asset, e, user)
                == m.store.bet(asset, e, user)
            &&& forall|e: u64| epochs.contains(e) ==> !#[trigger] s.refund_due(asset, e, user)
            &&& total == refund_owed(m, asset, epochs, user)
        }),
    decreases epochs.len(),
{
    if epochs.len() > 0 {
        let pre = epochs.drop_last();
        let e = epochs.last();
        lemma_refunds_accounting(m, asset, pre, user);
        let (s, total, count) = m.refunds(asset, pre, user);
        let run = m.refunds(asset, epochs, user);
        assert(run == (if s.refund_due(asset, e, user) {
            (s.mark_claimed(asset, e, user), total + s.store.bets[(asset, e, user)].amount, count + 1)
        } else {
            (s, total, count)
        }));
        let s2 = run.0;
        assert forall|x: u64| x != e implies #[trigger] s2.store.bet(asset, x, user) == s.store.bet(
            asset,
            x,
            user,
        ) by {
            assert((asset, x, user) != (asset, e, user));
        }
        assert forall|x: u64| epochs.contains(x) implies !#[trigger] s2.refund_due(asset, x, user) by {
            if x == e {
                if s.refund_due(asset, e, user) {
                    assert(s2.store.bets[(asset, e, user)].claimed);
                }
            } else {
                assert(s2.store.bet(asset, x, user) == s.store.bet(asset, x, user));
                assert(pre.contains(x)) by {
                    let k = choose|k: int| 0 <= k < epochs.len() && epochs[k] == x;
                    assert(k < epochs.len() - 1);
                    assert(pre[k] == x);
                }
                assert(!s.refund_due(asset, x, user));
                assert(s2.store.rounds == s.store.rounds);
            }
        }
        assert forall|x: u64| !epochs.contains(x) implies #[trigger] s2.store.bet(asset, x, user)
            == m.store.bet(asset, x, user) by {
            assert(!pre.contains(x)) by {
                if pre.contains(x) {
                    let k = choose|k: int| 0 <= k < pre.len() && pre[k] == x;
                    assert(epochs[k] == x);
                }
            }
            assert(x != e) by {
                assert(epochs[epochs.len() - 1] == e);
            }
        }
        if !pre.contains(e) {
            assert(s.store.bet(asset, e, user) == m.store.bet(asset, e, user));
            assert(s.store.round(asset, e) == m.store.round(asset, e));
        }
    }
}

/// A refund over a list of epochs returns exactly the stakes it owes there:
/// the sum of the stakes of the unclaimed bets on cancelled rounds among the
/// listed epochs, each epoch once, and afterwards none of them is
/// refundable again. What it returns is what the user stops being owed.
pub proof fn lemma_refund_returns_all_stakes(
    m: PredictionState,
    asset: Asset,
    epochs: Seq<u64>,
    user: Seq<char>,
)
    ensures
        ({
            let (s, total, count) = m.refunds(asset, epochs, user);
            &&& total == refund_owed(m, asset, epochs, user)
            &&& refund_owed(s, asset, epochs, user) == 0
        }),
{
    lemma_refunds_accounting(m, asset, epochs, user);
    let (s, total, count) = m.refunds(asset, epochs, user);
    lemma_refund_owed_none(s, asset, epochs, user);
}

/// Nothing is owed on epochs none of which is refundable.
proof fn lemma_refund_owed_none(m: PredictionState, asset: Asset, epochs: Seq<u64>, user: Seq<char>)
    requires
        forall|e: u64| epochs.contains(e) ==> !#[trigger] m.refund_due(asset, e, user),
    ensures
        refund_owed(m, asset, epochs, user) == 0,
    decreases epochs.len(),
{
    if epochs.len() > 0 {
        let pre = epochs.drop_last();
        assert forall|e: u64| pre.contains(e) implies !#[trigger] m.refund_due(asset, e, user) by {
            let k = choose|k: int| 0 <= k < pre.len() && pre[k] == e;
            assert(epochs[k] == e);
        }
        lemma_refund_owed_none(m, asset, pre, user);
        assert(epochs[epochs.len() - 1] == epochs.last());
        assert(!m.refund_due(asset, epochs.last(), user));
    }
}

/// A missed boundary does not change how a locked round settles: when
/// round E-2 is still locked at epoch E, `execute_round` at E settles it on
/// the oracle's reading for boundary E-1 exactly as an on-time
/// `execute_round` at E-1 with that reading would have: same status, end
/// price, close time, fee and reward pool.
pub proof fn lemma_late_settlement_matches_on_time(
    m: PredictionState,
    asset: Asset,
    now: u64,
    reading: Option<PriceData>,
    prev_reading: Option<PriceData>,
    prev_prev_reading: Option<PriceData>,
)
    requires
        m.wf(),
        m.execute_round_error(asset) is None,
        now / INTERVAL_SECS >= 2,
        !m.epoch_done(asset, now),
        m.store.round(asset, (now / INTERVAL_SECS - 2) as u64) matches Some(r) && r.status
            == RoundStatus::Locked,
        m.store.round(asset, (now / INTERVAL_SECS - 1) as u64) matches Some(r) ==> r.status
            == RoundStatus::Open,
    ensures
        ({
            let e2 = (now / INTERVAL_SECS - 2) as u64;
            let on_time = ((now / INTERVAL_SECS - 1) * INTERVAL_SECS) as u64;
            m.after_execute_round(asset, now, reading, prev_reading).store.round(asset, e2)
                == m.after_execute_round(asset, on_time, prev_reading, prev_prev_reading).store.round(
                asset,
                e2,
            )
        }),
{
    let current = (now / INTERVAL_SECS) as u64;
    let e2 = (current - 2) as u64;
    let e1 = (current - 1) as u64;
    let on_time = (e1 * INTERVAL_SECS) as u64;
    assert(on_time / INTERVAL_SECS == e1);
    assert(on_time <= now);
    let tol = m.config().oracle_staleness_tolerance;
    // Late path at E.
    let price = crate::prediction_types::fresh_price(reading, (current * INTERVAL_SECS) as u64, tol);
    let l1 = m.retro_step(asset, now, prev_reading);
    let l2 = l1.close_step(asset, now, price);
    let l3 = match m.store.round(asset, current) {
        Some(c) => l2.lock_round(asset, current, (current * INTERVAL_SECS) as u64, price, c),
        None => l2,
    };
    let late = l3.open_next(asset, (current * INTERVAL_SECS) as u64, (current + 1) as u64);
    assert(late == m.after_execute_round(asset, now, reading, prev_reading));
    let settled = m.settle_locked(asset, e2, on_time, crate::prediction_types::fresh_price(prev_reading, on_time, tol));
    assert(l1 == settled);
    assert(late.store.round(asset, e2) == settled.store.round(asset, e2));
    // On-time path at E-1.
    assert(!m.epoch_done(asset, on_time));
    let oprice = crate::prediction_types::fresh_price(prev_reading, on_time, tol);
    let o1 = m.retro_step(asset, on_time, prev_prev_reading);
    assert(o1.store.round(asset, e2) == m.store.round(asset, e2));
    assert(o1.config() == m.config());
    let o2 = o1.close_step(asset, on_time, oprice);
    assert(o2.store.round(asset, e2) == o1.settle_locked(asset, e2, on_time, oprice).store.round(asset, e2));
    let o3 = match m.store.round(asset, e1) {
        Some(c) => o2.lock_round(asset, e1, on_time, oprice, c),
        None => o2,
    };
    let ontime = o3.open_next(asset, on_time, current);
    assert(ontime == m.after_execute_round(asset, on_time, prev_reading, prev_prev_reading));
    assert(ontime.store.round(asset, e2) == o2.store.round(asset, e2));
}

/// How a locked round settles on an end price: without a fresh price it
/// is cancelled; a one-sided round is cancelled; with the price moved and
/// both sides staked it resolves, its fee is `total * fee_bps / 10_000`,
/// its reward pool the rest of the pot, and the treasury gains the fee;
/// the pools themselves never change.
pub proof fn lemma_settlement_outcome(
    m: PredictionState,
    asset: Asset,
    epoch: u64,
    close_ts: u64,
    price: Option<i128>,
)
    requires
        m.store.config is Some,
        m.store.round(asset, epoch) matches Some(r) && r.status == RoundStatus::Locked
            && r.total_amount >= 0,
        m.settle_locked_ok(asset, epoch, price),
    ensures
        ({
            let r = m.store.round(asset, epoch).unwrap();
            let m2 = m.settle_locked(asset, epoch, close_ts, price);
            let r2 = m2.store.round(asset, epoch).unwrap();
            let fee = (r.total_amount * m.config().fee_bps) / 10_000;
            &&& r2.up_amount == r.up_amount && r2.down_amount == r.down_amount
                && r2.total_amount == r.total_amount
            &&& price is None ==> r2.status == RoundStatus::Cancelled && m2.store.treasury
                == m.store.treasury
            &&& (r.up_amount == 0 || r.down_amount == 0) ==> r2.status == RoundStatus::Cancelled
                && m2.store.treasury == m.store.treasury
            &&& (price is Some && price.unwrap() != r.start_price && r.up_amount != 0
                && r.down_amount != 0) ==> {
                &&& r2.status == RoundStatus::Resolved
                &&& r2.end_price == price.unwrap()
                &&& r2.close_time == close_ts
                &&& r2.treasury_fee == fee
                &&& r2.reward_pool == r.total_amount - fee
                &&& m2.store.treasury == m.store.treasury + fee
            }
        }),
{
    let r = m.store.round(asset, epoch).unwrap();
    let x = r.total_amount * m.config().fee_bps;
    assert(x >= 0) by (nonlinear_arith)
        requires
            x == r.total_amount * m.config().fee_bps,
            r.total_amount >= 0,
    ;
    if x > 0 {
        crate::division::lemma_tdiv_nonneg(x, 10_000);
    }
}

/// What a winning bet on `epoch` is owed: on a resolved round, an
/// unclaimed bet on the side the price moved to (`Up` when it rose, `Down`
/// otherwise) gets `amount * reward_pool / pool of that side`.
pub open spec fn winning_share(m: PredictionState, asset: Asset, epoch: u64, user: Seq<char>) -> int {
    match (m.store.round(asset, epoch), m.store.bet(asset, epoch, user)) {
        (Some(r), Some(b)) => {
            let up_won = r.end_price > r.start_price;
            if r.status == RoundStatus::Resolved && !b.claimed && (b.direction == Direction::Up)
                == up_won {
                crate::math::payout(
                    b.amount as int,
                    r.reward_pool as int,
                    if up_won {
                        r.up_amount as int
                    } else {
                        r.down_amount as int
                    },
                )
            } else {
                0
            }
        },
        _ => 0,
    }
}

/// What claims over `epochs` owe: the winning shares among the listed
/// epochs, each epoch counted once.
pub open spec fn winnings_owed(m: PredictionState, asset: Asset, epochs: Seq<u64>, user: Seq<char>) -> int
    decreases epochs.len(),
{
    if epochs.len() == 0 {
        0
    } else {
        let e = epochs.last();
        winnings_owed(m, asset, epochs.drop_last(), user) + if !epochs.drop_last().contains(e) {
            winning_share(m, asset, e, user)
        } else {
            0
        }
    }
}

/// What a run of claims leaves in place: rounds and unlisted bets
/// untouched, nothing more owed on the listed epochs.
proof fn lemma_claims_accounting(m: PredictionState, asset: Asset, epochs: Seq<u64>, user: Seq<char>)
    ensures
        ({
            let (s, total, count) = m.claims(asset, epochs, user);
            &&& s.store.rounds == m.store.rounds
            &&& forall|e: u64| !epochs.contains(e) ==> #[trigger] s.store.bet(asset, e, user)
                == m.store.bet(asset, e, user)
            &&& forall|e: u64| epochs.contains(e) ==> #[trigger] winning_share(s, asset, e, user) == 0
            &&& total == winnings_owed(m, asset, epochs, user)
        }),
    decreases epochs.len(),
{
    if epochs.len() > 0 {
        let pre = epochs.drop_last();
        let e = epochs.last();
        lemma_claims_accounting(m, asset, pre, user);
        let (s, total, count) = m.claims(asset, pre, user);
        let run = m.claims(asset, epochs, user);
        let p = s.win_amount(asset, e, user);
        assert(p == winning_share(s, asset, e, user));
        assert(run == (if p == 0 {
            (s, total, count)
        } else {
            (s.mark_claimed(asset, e, user), total + p, count + 1)
        }));
        let s2 = run.0;
        assert forall|x: u64| x != e implies #[trigger] s2.store.bet(asset, x, user) == s.store.bet(
            asset,
            x,
            user,
        ) by {
            assert((asset, x, user) != (asset, e, user));
        }
        assert forall|x: u64| epochs.contains(x) implies #[trigger] winning_share(s2, asset, x, user)
            == 0 by {
            if x == e {
                if p != 0 {
                    assert(s2.store.bets[(asset, e, user)].claimed);
                }
            } else {
                assert(pre.contains(x)) by {
                    let k = choose|k: int| 0 <= k < epochs.len() && epochs[k] == x;
                    assert(k < epochs.len() - 1);
                    assert(pre[k] == x);
                }
                assert(winning_share(s, asset, x, user) == 0);
                assert(s2.store.rounds == s.store.rounds);
            }
        }
        assert forall|x: u64| !epochs.contains(x) implies #[trigger] s2.store.bet(asset, x, user)
            == m.store.bet(asset, x, user) by {
            assert(!pre.contains(x)) by {
                if pre.contains(x) {
                    let k = choose|k: int| 0 <= k < pre.len() && pre[k] == x;
                    assert(epochs[k] == x);
                }
            }
            assert(x != e) by {
                assert(epochs[epochs.len() - 1] == e);
            }
        }
        if !pre.contains(e) {
            assert(s.store.bet(asset, e, user) == m.store.bet(asset, e, user));
            assert(s.store.round(asset, e) == m.store.round(asset, e));
            assert(winning_share(s, asset, e, user) == winning_share(m, asset, e, user));
        } else {
            assert(winning_share(s, asset, e, user) == 0);
        }
    }
}

/// Claiming over a list of epochs pays exactly the winning shares owed
/// there: for each listed epoch, once, an unclaimed bet on the side the
/// price moved to gets `amount * reward_pool / pool of that side`; after
/// the claim nothing more is owed on those epochs.
pub proof fn lemma_claims_pay_owed_shares(m: PredictionState, asset: Asset, epochs: Seq<u64>, user: Seq<char>)
    ensures
        ({
            let (s, total, count) = m.claims(asset, epochs, user);
            &&& total == winnings_owed(m, asset, epochs, user)
            &&& winnings_owed(s, asset, epochs, user) == 0
        }),
{
    lemma_claims_accounting(m, asset, epochs, user);
    let (s, total, count) = m.claims(asset, epochs, user);
    lemma_winnings_owed_none(s, asset, epochs, user);
}

/// Nothing is owed on epochs none of which owes a winning share.
proof fn lemma_winnings_owed_none(m: PredictionState, asset: Asset, epochs: Seq<u64>, user: Seq<char>)
    requires
        forall|e: u64| epochs.contains(e) ==> #[trigger] winning_share(m, asset, e, user) == 0,
    ensures
        winnings_owed(m, asset, epochs, user) == 0,
    decreases epochs.len(),
{
    if epochs.len() > 0 {
        let pre = epochs.drop_last();
        assert forall|e: u64| pre.contains(e) implies #[trigger] winning_share(m, asset, e, user) == 0 by {
            let k = choose|k: int| 0 <= k < pre.len() && pre[k] == e;
            assert(epochs[k] == e);
        }
        lemma_winnings_owed_none(m, asset, pre, user);
        assert(epochs[epochs.len() - 1] == epochs.last());
        assert(winning_share(m, asset, epochs.last(), user) == 0);
    }
}

} // verus!
