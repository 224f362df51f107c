//! What holds of the fair market across its operations.
use vstd::prelude::*;
use crate::division::{
    all_nonneg, lemma_share_le, lemma_shares_of_whole, lemma_tdiv_nonneg, share_sum, sum, tdiv,
};
use crate::fair_market::{
    claim_payout, listed_asset, round_fee, side_total, side_won, stake_index, stake_is,
    MarketState, Outcome, Position, PriceData, Round, Side, Stake, Status, Error,
};

verus! {

/// What the positions of a round are paid when each is claimed once.
pub open spec fn round_paid(stakes: Seq<Stake>, round: Round, fee_bps: u32) -> int
    decreases stakes.len(),
{
    if stakes.len() == 0 {
        0
    } else {
        let p = stakes.last().position;
        round_paid(stakes.drop_last(), round, fee_bps) + if p.round_id == round.id {
            claim_payout(round, p, fee_bps)
        } else {
            0
        }
    }
}

/// The stakes placed on `side` in round `round_id`, in order.
pub open spec fn side_amounts(stakes: Seq<Stake>, round_id: u64, side: Side) -> Seq<i128>
    decreases stakes.len(),
{
    if stakes.len() == 0 {
        Seq::empty()
    } else {
        let p = stakes.last().position;
        let rest = side_amounts(stakes.drop_last(), round_id, side);
        if p.round_id == round_id && p.side == side {
            rest.push(p.amount)
        } else {
            rest
        }
    }
}

proof fn lemma_side_amounts(stakes: Seq<Stake>, round_id: u64, side: Side)
    requires
        forall|i: int| 0 <= i < stakes.len() ==> #[trigger] stakes[i].position.amount >= 0,
    ensures
        sum(side_amounts(stakes, round_id, side)) == side_total(stakes, round_id, side),
        all_nonneg(side_amounts(stakes, round_id, side)),
    decreases stakes.len(),
{
    if stakes.len() > 0 {
        let t = stakes.drop_last();
        assert forall|i: int| 0 <= i < t.len() implies #[trigger] t[i].position.amount >= 0 by {
            assert(t[i] == stakes[i]);
        }
        lemma_side_amounts(t, round_id, side);
        let p = stakes.last().position;
        let rest = side_amounts(t, round_id, side);
        if p.round_id == round_id && p.side == side {
            crate::division::lemma_sum_push(rest, p.amount);
            assert forall|i: int| 0 <= i < rest.push(p.amount).len() implies rest.push(
                p.amount,
            )[i] >= 0 by {
                if i < rest.len() {
                    assert(rest.push(p.amount)[i] == rest[i]);
                }
            }
        }
    }
}

/// In a round the winning side takes, the payouts are the rounded-down
/// shares of the distributed amount by winning stake.
proof fn lemma_round_paid_winners(
    stakes: Seq<Stake>,
    round: Round,
    fee_bps: u32,
    side: Side,
    distributed: int,
    winning_pool: int,
)
    requires
        forall|i: int| 0 <= i < stakes.len() ==> #[trigger] stakes[i].position.amount >= 0,
        round.outcome != Outcome::Void,
        side == Side::Up <==> round.outcome == Outcome::Up,
        distributed == round.pool_up + round.pool_down - round_fee(round, fee_bps),
        distributed >= 0,
        winning_pool == (if side == Side::Up {
            round.pool_up as int
        } else {
            round.pool_down as int
        }),
        winning_pool > 0,
    ensures
        round_paid(stakes, round, fee_bps) == share_sum(
            side_amounts(stakes, round.id, side),
            distributed,
            winning_pool,
        ),
    decreases stakes.len(),
{
    if stakes.len() > 0 {
        let t = stakes.drop_last();
        assert forall|i: int| 0 <= i < t.len() implies #[trigger] t[i].position.amount >= 0 by {
            assert(t[i] == stakes[i]);
        }
        lemma_round_paid_winners(t, round, fee_bps, side, distributed, winning_pool);
        let p = stakes.last().position;
        let rest = side_amounts(t, round.id, side);
        if p.round_id == round.id && p.side == side {
            assert(rest.push(p.amount).drop_last() =~= rest);
            assert(stakes[stakes.len() - 1].position.amount >= 0);
            let x = p.amount * distributed;
            assert(p.amount * distributed >= 0) by (nonlinear_arith)
                requires
                    p.amount >= 0,
                    distributed >= 0,
            ;
            if x > 0 {
                lemma_tdiv_nonneg(x, winning_pool);
            } else {
                assert((0int) / winning_pool == 0);
            }
        }
    }
}

/// On a void round every position is refunded its stake.
proof fn lemma_round_paid_void(stakes: Seq<Stake>, round: Round, fee_bps: u32)
    requires
        round.outcome == Outcome::Void,
    ensures
        round_paid(stakes, round, fee_bps) == side_total(stakes, round.id, Side::Up) + side_total(
            stakes,
            round.id,
            Side::Down,
        ),
    decreases stakes.len(),
{
    if stakes.len() > 0 {
        lemma_round_paid_void(stakes.drop_last(), round, fee_bps);
    }
}

/// The fee of a nonnegative pot at a rate of at most 100% is between zero
/// and the pot.
proof fn lemma_round_fee_bounds(round: Round, fee_bps: u32)
    requires
        round.pool_up >= 0,
        round.pool_down >= 0,
        fee_bps <= 10_000,
    ensures
        0 <= round_fee(round, fee_bps) <= round.pool_up + round.pool_down,
{
    let total = round.pool_up + round.pool_down;
    lemma_share_le(fee_bps as int, total, 10_000);
    assert(fee_bps * total == total * fee_bps) by (nonlinear_arith);
    if total * fee_bps > 0 {
        lemma_tdiv_nonneg(total * fee_bps, 10_000);
    } else {
        assert(total * fee_bps >= 0) by (nonlinear_arith)
            requires
                total >= 0,
                fee_bps >= 0,
        ;
    }
}

/// Conservation of a settled round: when each position is claimed once at
/// the fee rate the round was settled with, a void round refunds exactly
/// the pot, and any other round pays out, together with its fee, at most
/// the pot. The market never pays out more than it took in.
pub proof fn lemma_round_conservation(m: MarketState, round_id: u64, fee_bps: u32)
    requires
        m.wf(),
        m.round(round_id) matches Some(r) && r.status == Status::Settled,
        fee_bps <= 10_000,
    ensures
        ({
            let r = m.round(round_id).unwrap();
            let paid = round_paid(m.stakes, r, fee_bps);
            &&& r.outcome == Outcome::Void ==> paid == r.pool_up + r.pool_down
            &&& r.outcome != Outcome::Void ==> 0 <= paid && paid + round_fee(r, fee_bps) <= r.pool_up
                + r.pool_down
        }),
{
    let r = m.round(round_id).unwrap();
    assert(r == m.rounds[round_id - 1]);
    assert(r.id == round_id);
    if r.outcome == Outcome::Void {
        lemma_round_paid_void(m.stakes, r, fee_bps);
    } else {
        lemma_round_fee_bounds(r, fee_bps);
        let distributed = r.pool_up + r.pool_down - round_fee(r, fee_bps);
        let side = if r.outcome == Outcome::Up {
            Side::Up
        } else {
            Side::Down
        };
        let winning_pool = if side == Side::Up {
            r.pool_up as int
        } else {
            r.pool_down as int
        };
        lemma_round_paid_winners(m.stakes, r, fee_bps, side, distributed, winning_pool);
        lemma_side_amounts(m.stakes, round_id, side);
        lemma_shares_of_whole(side_amounts(m.stakes, round_id, side), distributed);
    }
}

/// What the positions of a round not yet claimed are owed.
pub open spec fn unclaimed_owed(stakes: Seq<Stake>, round: Round, fee_bps: u32) -> int
    decreases stakes.len(),
{
    if stakes.len() == 0 {
        0
    } else {
        let p = stakes.last().position;
        unclaimed_owed(stakes.drop_last(), round, fee_bps) + if p.round_id == round.id
            && !p.claimed {
            claim_payout(round, p, fee_bps)
        } else {
            0
        }
    }
}

/// Claims on round `round_id` by the listed users, one after another (a
/// user may come more than once): the storage afterwards and the sum paid.
pub open spec fn claim_run(m: MarketState, round_id: u64, users: Seq<Seq<char>>) -> (MarketState, int)
    decreases users.len(),
{
    if users.len() == 0 {
        (m, 0)
    } else {
        let (m1, paid) = claim_run(m, round_id, users.drop_last());
        (m1.after_claim(round_id, users.last()), paid + m1.claim_amount(round_id, users.last()))
    }
}

/// A settled position with a nonnegative stake is owed a nonnegative
/// amount.
proof fn lemma_claim_payout_nonneg(round: Round, p: Position, fee_bps: u32)
    requires
        p.amount >= 0,
        round.pool_up >= 0,
        round.pool_down >= 0,
        round.outcome != Outcome::Void ==> round.pool_up > 0 && round.pool_down > 0,
        fee_bps <= 10_000,
    ensures
        claim_payout(round, p, fee_bps) >= 0,
{
    if round.outcome != Outcome::Void && side_won(p.side, round.outcome) {
        lemma_round_fee_bounds(round, fee_bps);
        let distributed = round.pool_up + round.pool_down - round_fee(round, fee_bps);
        let x = p.amount * distributed;
        assert(x >= 0) by (nonlinear_arith)
            requires
                x == p.amount * distributed,
                p.amount >= 0,
                distributed >= 0,
        ;
        let w = if round.outcome == Outcome::Up {
            round.pool_up as int
        } else {
            round.pool_down as int
        };
        if x > 0 {
            lemma_tdiv_nonneg(x, w);
        }
    }
}

/// What unclaimed positions are owed is nonnegative and at most what all
/// positions are owed.
proof fn lemma_unclaimed_within_paid(stakes: Seq<Stake>, round: Round, fee_bps: u32)
    requires
        forall|i: int| 0 <= i < stakes.len() ==> #[trigger] stakes[i].position.amount >= 0,
        round.pool_up >= 0,
        round.pool_down >= 0,
        round.outcome != Outcome::Void ==> round.pool_up > 0 && round.pool_down > 0,
        fee_bps <= 10_000,
    ensures
        0 <= unclaimed_owed(stakes, round, fee_bps) <= round_paid(stakes, round, fee_bps),
    decreases stakes.len(),
{
    if stakes.len() > 0 {
        let t = stakes.drop_last();
        assert forall|i: int| 0 <= i < t.len() implies #[trigger] t[i].position.amount >= 0 by {
            assert(t[i] == stakes[i]);
        }
        lemma_unclaimed_within_paid(t, round, fee_bps);
        assert(stakes[stakes.len() - 1].position.amount >= 0);
        lemma_claim_payout_nonneg(round, stakes.last().position, fee_bps);
    }
}

/// Replacing one stake changes what unclaimed positions are owed by the
/// difference between the two.
proof fn lemma_unclaimed_update(stakes: Seq<Stake>, i: int, x: Stake, round: Round, fee_bps: u32)
    requires
        0 <= i < stakes.len(),
    ensures
        unclaimed_owed(stakes.update(i, x), round, fee_bps) == unclaimed_owed(stakes, round, fee_bps)
            - unclaimed_owed(seq![stakes[i]], round, fee_bps) + unclaimed_owed(
            seq![x],
            round,
            fee_bps,
        ),
    decreases stakes.len(),
{
    let u = stakes.update(i, x);
    assert(seq![stakes[i]].drop_last() =~= Seq::<Stake>::empty());
    assert(seq![x].drop_last() =~= Seq::<Stake>::empty());
    if i == stakes.len() - 1 {
        assert(u.drop_last() =~= stakes.drop_last());
    } else {
        assert(u.drop_last() =~= stakes.drop_last().update(i, x));
        lemma_unclaimed_update(stakes.drop_last(), i, x, round, fee_bps);
    }
}

/// A run of claims leaves rounds, configuration and stakes' amounts as
/// they were, and what it paid is what the unclaimed positions stopped
/// being owed.
proof fn lemma_claim_run_accounting(m: MarketState, round_id: u64, users: Seq<Seq<char>>)
    requires
        m.wf(),
        m.round(round_id) matches Some(r) && r.status == Status::Settled,
    ensures
        ({
            let (m2, paid) = claim_run(m, round_id, users);
            let r = m.round(round_id).unwrap();
            &&& m2.rounds == m.rounds
            &&& m2.config == m.config
            &&& m2.stakes.len() == m.stakes.len()
            &&& forall|i: int| 0 <= i < m2.stakes.len() ==> #[trigger] m2.stakes[i].position.amount
                == m.stakes[i].position.amount
            &&& paid + unclaimed_owed(m2.stakes, r, m.config.unwrap().fee_bps) == unclaimed_owed(
                m.stakes,
                r,
                m.config.unwrap().fee_bps,
            )
            &&& paid >= 0
        }),
    decreases users.len(),
{
    if users.len() > 0 {
        lemma_claim_run_accounting(m, round_id, users.drop_last());
        let (m1, paid) = claim_run(m, round_id, users.drop_last());
        let u = users.last();
        let r = m.round(round_id).unwrap();
        let fee = m.config.unwrap().fee_bps;
        assert(r == m.rounds[round_id - 1]);
        assert(r.id == round_id);
        if m1.claimable(round_id, u) {
            let i = stake_index(m1.stakes, round_id, u).unwrap();
            assert(stake_is(m1.stakes, i, round_id, u));
            let old_stake = m1.stakes[i];
            let new_stake = Stake {
                position: Position { claimed: true, ..old_stake.position },
                ..old_stake
            };
            lemma_unclaimed_update(m1.stakes, i, new_stake, r, fee);
            assert(m1.round(round_id) == Some(r));
            assert(m1.position(round_id, u) == Some(old_stake.position));
            assert(seq![old_stake].drop_last() =~= Seq::<Stake>::empty());
            assert(seq![new_stake].drop_last() =~= Seq::<Stake>::empty());
            assert(unclaimed_owed(Seq::<Stake>::empty(), r, fee) == 0);
            assert(seq![new_stake].last() == new_stake);
            assert(seq![old_stake].last() == old_stake);
            assert(unclaimed_owed(seq![new_stake], r, fee) == 0);
            assert(unclaimed_owed(seq![old_stake], r, fee) == claim_payout(r, old_stake.position, fee));
            assert(old_stake.position.amount == m.stakes[i].position.amount);
            assert(m.config is Some);
            assert(fee <= 10_000);
            crate::fair_market::lemma_side_total_nonneg(m.stakes, round_id, Side::Up);
            crate::fair_market::lemma_side_total_nonneg(m.stakes, round_id, Side::Down);
            lemma_claim_payout_nonneg(r, old_stake.position, fee);
            let m2 = m1.after_claim(round_id, u);
            assert forall|k: int| 0 <= k < m2.stakes.len() implies #[trigger] m2.stakes[k].position.amount
                == m.stakes[k].position.amount by {
                assert(m1.stakes[k].position.amount == m.stakes[k].position.amount);
            }
        }
    }
}

/// Claims on a settled round, by any users in any order and any number of
/// times at one fee rate, pay out together no more than its positions are
/// owed when each is claimed once: a void round refunds at most the pot,
/// and any other round pays, together with its fee, at most the pot.
pub proof fn lemma_claims_within_pot(m: MarketState, round_id: u64, users: Seq<Seq<char>>)
    requires
        m.wf(),
        m.round(round_id) matches Some(r) && r.status == Status::Settled,
    ensures
        ({
            let (m2, paid) = claim_run(m, round_id, users);
            let r = m.round(round_id).unwrap();
            let fee = m.config.unwrap().fee_bps;
            &&& 0 <= paid <= round_paid(m.stakes, r, fee)
            &&& r.outcome == Outcome::Void ==> paid <= r.pool_up + r.pool_down
            &&& r.outcome != Outcome::Void ==> paid + round_fee(r, fee) <= r.pool_up + r.pool_down
        }),
{
    let r = m.round(round_id).unwrap();
    assert(r == m.rounds[round_id - 1]);
    assert(r.id == round_id);
    assert(m.config is Some);
    let fee = m.config.unwrap().fee_bps;
    assert(fee <= 10_000);
    lemma_claim_run_accounting(m, round_id, users);
    let (m2, paid) = claim_run(m, round_id, users);
    assert forall|i: int| 0 <= i < m.stakes.len() implies #[trigger] m.stakes[i].position.amount >= 0 by {}
    assert forall|i: int| 0 <= i < m2.stakes.len() implies #[trigger] m2.stakes[i].position.amount >= 0 by {
        assert(m2.stakes[i].position.amount == m.stakes[i].position.amount);
    }
    crate::fair_market::lemma_side_total_nonneg(m.stakes, round_id, Side::Up);
    crate::fair_market::lemma_side_total_nonneg(m.stakes, round_id, Side::Down);
    assert(r.pool_up >= 0 && r.pool_down >= 0);
    lemma_unclaimed_within_paid(m.stakes, r, fee);
    lemma_unclaimed_within_paid(m2.stakes, r, fee);
    lemma_round_conservation(m, round_id, fee);
}

/// A position pays out at most once: after a claim, claiming the same
/// round again pays nothing and changes nothing.
pub proof fn lemma_claim_pays_once(m: MarketState, round_id: u64, user: Seq<char>)
    requires
        m.wf(),
    ensures
        m.after_claim(round_id, user).claim_amount(round_id, user) == 0,
        m.after_claim(round_id, user).after_claim(round_id, user) == m.after_claim(
            round_id,
            user,
        ),
{
    if m.claimable(round_id, user) {
        let i = stake_index(m.stakes, round_id, user).unwrap();
        let m2 = m.after_claim(round_id, user);
        assert(stake_is(m.stakes, i, round_id, user));
        assert(stake_is(m2.stakes, i, round_id, user));
        let j = stake_index(m2.stakes, round_id, user).unwrap();
        assert(stake_is(m2.stakes, j, round_id, user));
        if j != i {
            assert(m.stakes[j] == m2.stakes[j]);
            assert(stake_is(m.stakes, j, round_id, user));
        }
        assert(m2.position(round_id, user).unwrap().claimed);
    }
}

/// Settlement does not depend on who settles or when: at any two times at
/// or after the round's settle time, settling on the same oracle reading
/// is accepted or refused alike, fits machine arithmetic alike, and (as
/// `settle`'s contract gives it) leaves `after_settle(round_id, price)`,
/// which the settler's time does not enter. The reading itself is the
/// oracle's answer for the pinned `settle_ts`.
pub proof fn lemma_settle_ignores_caller_time(
    m: MarketState,
    round_id: u64,
    now1: u64,
    now2: u64,
    price: Option<PriceData>,
)
    requires
        m.round(round_id) matches Some(r) && now1 >= r.settle_ts && now2 >= r.settle_ts,
    ensures
        m.settle_error(round_id, now1) == m.settle_error(round_id, now2),
        m.settle_ok(round_id, now1, price) == m.settle_ok(round_id, now2, price),
{
}

/// Settlement happens once: a settled round refuses a second settlement.
pub proof fn lemma_settle_once(m: MarketState, round_id: u64, now: u64, price: Option<PriceData>)
    requires
        m.wf(),
        m.settle_error(round_id, now) is None,
    ensures
        m.after_settle(round_id, price).settle_error(round_id, now) == Some(Error::AlreadySettled),
{
    let m2 = m.after_settle(round_id, price);
    assert(m2.rounds[round_id - 1].status == Status::Settled);
}

/// A void round collects no fee, and an empty pool on either side always
/// makes the round void.
pub proof fn lemma_void_rounds_are_free(m: MarketState, round_id: u64, price: Option<PriceData>)
    requires
        m.wf(),
        m.round(round_id) is Some,
    ensures
        ({
            let r = m.round(round_id).unwrap();
            &&& (r.pool_up == 0 || r.pool_down == 0) ==> MarketState::settle_outcome(r, price)
                == Outcome::Void
            &&& price is None ==> MarketState::settle_outcome(r, price) == Outcome::Void
            &&& (price matches Some(p) && p.price == r.strike) ==> MarketState::settle_outcome(
                r,
                price,
            ) == Outcome::Void
            &&& MarketState::settle_outcome(r, price) == Outcome::Void ==> m.settle_fee(
                round_id,
                price,
            ) == 0
        }),
{
}

/// Betting closes at the lock time: a bet at or after `lock_ts` is refused.
pub proof fn lemma_no_bets_after_lock(
    m: MarketState,
    user: Seq<char>,
    round_id: u64,
    amount: i128,
    now: u64,
)
    requires
        m.config is Some,
        amount >= m.config.unwrap().min_bet,
        m.round(round_id) matches Some(r) && now >= r.lock_ts,
    ensures
        m.bet_error(user, round_id, amount, now) == Some(Error::RoundLocked),
{
}

/// One round per oracle tick: once a round is opened on a tick, opening
/// another for the same asset on the same tick is refused.
pub proof fn lemma_one_round_per_tick(m: MarketState, asset: String, tick: PriceData)
    requires
        m.wf(),
        m.create_round_error(asset@, Some(tick)) is None,
    ensures
        m.after_create(asset, tick).create_round_error(asset@, Some(tick)) == Some(
            Error::DuplicateRound,
        ),
{
    let m2 = m.after_create(asset, tick);
    if exists|i: int| 0 <= i < m.strikes.len() && m.strikes[i].asset@ == asset@ {
        let i = choose|i: int| 0 <= i < m.strikes.len() && m.strikes[i].asset@ == asset@;
        assert(m2.strikes[i].asset@ == asset@);
        let j = choose|j: int| 0 <= j < m2.strikes.len() && m2.strikes[j].asset@ == asset@;
        if j != i {
            assert(m.strikes[j].asset@ == asset@);
        }
    } else {
        let k = m.strikes.len() as int;
        assert(m2.strikes[k].asset@ == asset@);
        let j = choose|j: int| 0 <= j < m2.strikes.len() && m2.strikes[j].asset@ == asset@;
        if j != k {
            assert(m.strikes[j].asset@ == asset@);
        }
    }
}

/// The duplicate-tick guard is per asset: opening a round for one asset
/// never changes whether, or why, a round can be opened for another, on
/// any tick.
pub proof fn lemma_strike_guard_per_asset(
    m: MarketState,
    asset: String,
    tick: PriceData,
    other: Seq<char>,
    tick2: Option<PriceData>,
)
    requires
        m.wf(),
        m.create_round_error(asset@, Some(tick)) is None,
        other != asset@,
    ensures
        m.after_create(asset, tick).create_round_error(other, tick2) == m.create_round_error(
            other,
            tick2,
        ),
{
    let m2 = m.after_create(asset, tick);
    let n = m.strikes.len() as int;
    // The table changes only at `asset`'s record.
    let k = if exists|i: int| 0 <= i < n && m.strikes[i].asset@ == asset@ {
        choose|i: int| 0 <= i < n && m.strikes[i].asset@ == asset@
    } else {
        n
    };
    assert(m2.strikes[k].asset@ == asset@);
    assert forall|j: int| 0 <= j < m2.strikes.len() && j != k implies j < n && #[trigger] m2.strikes[j]
        == m.strikes[j] by {}
    if exists|i: int| 0 <= i < n && m.strikes[i].asset@ == other {
        let i = choose|i: int| 0 <= i < n && m.strikes[i].asset@ == other;
        assert(i != k);
        assert(m2.strikes[i] == m.strikes[i]);
        assert(exists|j: int| 0 <= j < m2.strikes.len() && m2.strikes[j].asset@ == other);
        let j = choose|j: int| 0 <= j < m2.strikes.len() && m2.strikes[j].asset@ == other;
        assert(j != k);
        assert(m2.strikes[j] == m.strikes[j]);
        if j != i {
            assert(m.strikes[j].asset@ == m.strikes[i].asset@);
        }
        assert(m2.last_strike(other) == m.last_strike(other));
    } else {
        assert forall|j: int| 0 <= j < m2.strikes.len() implies m2.strikes[j].asset@ != other by {
            if j != k {
                assert(m2.strikes[j] == m.strikes[j]);
            }
        }
        assert(m2.last_strike(other) == m.last_strike(other));
    }
}

/// A round is refused as a duplicate exactly when the strike recorded for
/// its own asset is the tick's timestamp. An asset with no recorded strike
/// (no round opened yet) is refused only on a zero timestamp, whatever
/// other assets recorded.
pub proof fn lemma_duplicate_only_on_own_strike(m: MarketState, asset: Seq<char>, tick: PriceData)
    requires
        m.wf(),
        m.config is Some,
        listed_asset(asset),
    ensures
        (exists|i: int| 0 <= i < m.strikes.len() && m.strikes[i].asset@ == asset) ==> ((
        m.create_round_error(asset, Some(tick)) == Some(Error::DuplicateRound)) <==> (exists|i: int|
            0 <= i < m.strikes.len() && m.strikes[i].asset@ == asset && m.strikes[i].strike_ts
                == tick.timestamp)),
        (forall|i: int| 0 <= i < m.strikes.len() ==> m.strikes[i].asset@ != asset) ==> ((
        m.create_round_error(asset, Some(tick)) == Some(Error::DuplicateRound)) <==> tick.timestamp
            == 0),
{
    if exists|i: int| 0 <= i < m.strikes.len() && m.strikes[i].asset@ == asset {
        let i = choose|i: int| 0 <= i < m.strikes.len() && m.strikes[i].asset@ == asset;
        if exists|j: int|
            0 <= j < m.strikes.len() && m.strikes[j].asset@ == asset && m.strikes[j].strike_ts
                == tick.timestamp {
            let j = choose|j: int|
                0 <= j < m.strikes.len() && m.strikes[j].asset@ == asset && m.strikes[j].strike_ts
                    == tick.timestamp;
            if j != i {
                assert(m.strikes[j].asset@ == m.strikes[i].asset@);
            }
        }
    }
}

/// What a claim on a settled round pays, in the round's own numbers: the
/// gross stake on a void round, nothing on the losing side, and on the
/// winning side `amount * (pot - pot * fee_bps / 10_000) / winning pool`;
/// the position is then marked claimed and claiming again pays nothing.
pub proof fn lemma_claim_pays_stake_share(m: MarketState, round_id: u64, user: Seq<char>)
    requires
        m.wf(),
        m.round(round_id) matches Some(r) && r.status == Status::Settled,
        m.position(round_id, user) matches Some(p) && !p.claimed,
    ensures
        ({
            let r = m.round(round_id).unwrap();
            let p = m.position(round_id, user).unwrap();
            let fee_bps = m.config.unwrap().fee_bps;
            let pot = r.pool_up + r.pool_down;
            let distributed = pot - (pot * fee_bps) / 10_000;
            let won = (p.side == Side::Up && r.outcome == Outcome::Up) || (p.side == Side::Down
                && r.outcome == Outcome::Down);
            &&& r.outcome == Outcome::Void ==> m.claim_amount(round_id, user) == p.amount
            &&& r.outcome != Outcome::Void && !won ==> m.claim_amount(round_id, user) == 0
            &&& won ==> m.claim_amount(round_id, user) == (p.amount * distributed) / (if r.outcome
                == Outcome::Up {
                r.pool_up as int
            } else {
                r.pool_down as int
            })
            &&& m.after_claim(round_id, user).position(round_id, user) == Some(
                Position { claimed: true, ..p },
            )
            &&& m.after_claim(round_id, user).claim_amount(round_id, user) == 0
        }),
{
    let r = m.round(round_id).unwrap();
    assert(r == m.rounds[round_id - 1]);
    assert(r.id == round_id);
    let i = stake_index(m.stakes, round_id, user).unwrap();
    assert(stake_is(m.stakes, i, round_id, user));
    let p = m.position(round_id, user).unwrap();
    assert(p.amount >= 0);
    assert(m.config is Some);
    let fee_bps = m.config.unwrap().fee_bps;
    crate::fair_market::lemma_side_total_nonneg(m.stakes, round_id, Side::Up);
    crate::fair_market::lemma_side_total_nonneg(m.stakes, round_id, Side::Down);
    let pot = r.pool_up + r.pool_down;
    lemma_round_fee_bounds(r, fee_bps);
    let t = pot * fee_bps;
    assert(t >= 0) by (nonlinear_arith)
        requires
            t == pot * fee_bps,
            pot >= 0,
    ;
    if t > 0 {
        lemma_tdiv_nonneg(t, 10_000);
    }
    let distributed = pot - (pot * fee_bps) / 10_000;
    let x = p.amount * distributed;
    assert(x >= 0) by (nonlinear_arith)
        requires
            x == p.amount * distributed,
            p.amount >= 0,
            distributed >= 0,
    ;
    if r.outcome != Outcome::Void {
        let w = if r.outcome == Outcome::Up {
            r.pool_up as int
        } else {
            r.pool_down as int
        };
        if x > 0 {
            lemma_tdiv_nonneg(x, w);
        } else {
            assert(x / w == 0);
        }
    }
    lemma_claim_pays_once(m, round_id, user);
    let m2 = m.after_claim(round_id, user);
    assert(stake_is(m2.stakes, i, round_id, user));
    let j = stake_index(m2.stakes, round_id, user).unwrap();
    assert(stake_is(m2.stakes, j, round_id, user));
    if j != i {
        assert(m.stakes[j] == m2.stakes[j]);
        assert(stake_is(m.stakes, j, round_id, user));
    }
}

} // verus!
