//! What holds of the time-weighted market across its operations.
use vstd::prelude::*;
use crate::division::{all_nonneg, sum, lemma_sum_push};
use crate::ninetails::{
    boosted, lemma_loser_refund_nonneg, lemma_ninetails_conserve, lemma_winner_keeps_stake, losers_paid,
    losing_fee, winners_paid, winner_total, loser_total,
};
use crate::wick_predict::{
    boost_total, claim_payout, distributed, lemma_totals_nonneg, losing_pool, side_total,
    side_won, stake_index, stake_is, winning_boosted, Error, Outcome, Position, PredictState,
    PriceData, Round, Side, Stake, Status,
};

verus! {

/// What the positions of a round are paid when each is claimed once.
pub open spec fn round_paid(stakes: Seq<Stake>, round: Round, fee_bps: u32) -> int
    decreases stakes.len(),
{
    if stakes.len() == 0 {
        0
    } else {
        let p = stakes.last().position;
        round_paid(stakes.drop_last(), round, fee_bps) + if p.round_id == round.id {
            claim_payout(round, p, fee_bps)
        } else {
            0
        }
    }
}

/// The stakes on `side` in round `round_id`, in order.
pub open spec fn side_stakes(stakes: Seq<Stake>, round_id: u64, side: Side) -> Seq<i128>
    decreases stakes.len(),
{
    if stakes.len() == 0 {
        Seq::empty()
    } else {
        let p = stakes.last().position;
        let rest = side_stakes(stakes.drop_last(), round_id, side);
        if p.round_id == round_id && p.side == side {
            rest.push(p.amount)
        } else {
            rest
        }
    }
}

/// The boosted shares on `side` in round `round_id`, in order.
pub open spec fn side_boosts(stakes: Seq<Stake>, round_id: u64, side: Side) -> Seq<i128>
    decreases stakes.len(),
{
    if stakes.len() == 0 {
        Seq::empty()
    } else {
        let p = stakes.last().position;
        let rest = side_boosts(stakes.drop_last(), round_id, side);
        if p.round_id == round_id && p.side == side {
            rest.push(p.boosted)
        } else {
            rest
        }
    }
}

proof fn lemma_push_nonneg(s: Seq<i128>, x: i128)
    requires
        all_nonneg(s),
        x >= 0,
    ensures
        all_nonneg(s.push(x)),
{
    assert forall|i: int| 0 <= i < s.push(x).len() implies s.push(x)[i] >= 0 by {
        if i < s.len() {
            assert(s.push(x)[i] == s[i]);
        }
    }
}

proof fn lemma_side_seqs(stakes: Seq<Stake>, round_id: u64, side: Side)
    requires
        forall|i: int|
            0 <= i < stakes.len() ==> {
                let p = #[trigger] stakes[i].position;
                &&& p.amount >= 0
                &&& p.boosted >= 0
            },
    ensures
        sum(side_stakes(stakes, round_id, side)) == side_total(stakes, round_id, side),
        sum(side_boosts(stakes, round_id, side)) == boost_total(stakes, round_id, side),
        side_stakes(stakes, round_id, side).len() == side_boosts(stakes, round_id, side).len(),
        all_nonneg(side_boosts(stakes, round_id, side)),
    decreases stakes.len(),
{
    if stakes.len() > 0 {
        let t = stakes.drop_last();
        assert forall|i: int| 0 <= i < t.len() implies {
            let p = #[trigger] t[i].position;
            &&& p.amount >= 0
            &&& p.boosted >= 0
        } by {
            assert(t[i] == stakes[i]);
        }
        lemma_side_seqs(t, round_id, side);
        let p = stakes.last().position;
        assert(stakes[stakes.len() - 1].position.boosted >= 0);
        if p.round_id == round_id && p.side == side {
            lemma_sum_push(side_stakes(t, round_id, side), p.amount);
            lemma_sum_push(side_boosts(t, round_id, side), p.boosted);
            lemma_push_nonneg(side_boosts(t, round_id, side), p.boosted);
        }
    }
}

/// In a decided round, the payouts split into the winners' and the losers'
/// Ninetails payouts.
proof fn lemma_round_paid_split(stakes: Seq<Stake>, round: Round, fee_bps: u32, win: Side, lose: Side)
    requires
        round.outcome != Outcome::Void,
        win == Side::Above <==> round.outcome == Outcome::Above,
        lose != win,
    ensures
        round_paid(stakes, round, fee_bps) == winners_paid(
            side_stakes(stakes, round.id, win),
            side_boosts(stakes, round.id, win),
            distributed(round, fee_bps),
            winning_boosted(round),
            round.global_boosted as int,
        ) + losers_paid(
            side_boosts(stakes, round.id, lose),
            distributed(round, fee_bps),
            round.global_boosted as int,
        ),
    decreases stakes.len(),
{
    if stakes.len() > 0 {
        let t = stakes.drop_last();
        lemma_round_paid_split(t, round, fee_bps, win, lose);
        let p = stakes.last().position;
        let ws = side_stakes(t, round.id, win);
        let wb = side_boosts(t, round.id, win);
        let lb = side_boosts(t, round.id, lose);
        if p.round_id == round.id && p.side == win {
            assert(ws.push(p.amount).drop_last() =~= ws);
            assert(wb.push(p.boosted).drop_last() =~= wb);
            assert(side_won(p.side, round.outcome));
        } else if p.round_id == round.id {
            assert(p.side == lose);
            assert(lb.push(p.boosted).drop_last() =~= lb);
            assert(!side_won(p.side, round.outcome));
        }
    }
}

/// On a void round every position is refunded its stake.
proof fn lemma_round_paid_void(stakes: Seq<Stake>, round: Round, fee_bps: u32)
    requires
        round.outcome == Outcome::Void,
    ensures
        round_paid(stakes, round, fee_bps) == side_total(stakes, round.id, Side::Above)
            + side_total(stakes, round.id, Side::Below),
    decreases stakes.len(),
{
    if stakes.len() > 0 {
        lemma_round_paid_void(stakes.drop_last(), round, fee_bps);
    }
}

/// Conservation of a settled round under the Ninetails rule: when each
/// position is claimed once at the fee rate the round was settled with, a
/// void round refunds exactly the pot, and otherwise the winners' payouts,
/// the losers' early-entry refunds and the fee on the losing pool together
/// stay within the pot. However the bets were timed, the market never pays
/// out more than was staked.
pub proof fn lemma_round_conservation(m: PredictState, round_id: u64, fee_bps: u32)
    requires
        m.wf(),
        m.round(round_id) matches Some(r) && r.status == Status::Settled,
        fee_bps <= 10_000,
    ensures
        ({
            let r = m.round(round_id).unwrap();
            let paid = round_paid(m.stakes, r, fee_bps);
            &&& r.outcome == Outcome::Void ==> paid == r.pool_above + r.pool_below
            &&& r.outcome != Outcome::Void ==> paid + losing_fee(losing_pool(r), fee_bps as int)
                <= r.pool_above + r.pool_below
        }),
{
    let r = m.round(round_id).unwrap();
    assert(r == m.rounds[round_id - 1]);
    assert(r.id == round_id);
    if r.outcome == Outcome::Void {
        lemma_round_paid_void(m.stakes, r, fee_bps);
    } else {
        let (win, lose) = if r.outcome == Outcome::Above {
            (Side::Above, Side::Below)
        } else {
            (Side::Below, Side::Above)
        };
        lemma_round_paid_split(m.stakes, r, fee_bps, win, lose);
        lemma_side_seqs(m.stakes, round_id, win);
        lemma_side_seqs(m.stakes, round_id, lose);
        lemma_totals_nonneg(m.stakes, round_id, win);
        lemma_totals_nonneg(m.stakes, round_id, lose);
        lemma_ninetails_conserve(
            side_stakes(m.stakes, round_id, win),
            side_boosts(m.stakes, round_id, win),
            side_boosts(m.stakes, round_id, lose),
            losing_pool(r) as i128,
            fee_bps,
        );
    }
}

/// A winner always gets at least the stake back.
pub proof fn lemma_winners_keep_stake(m: PredictState, round_id: u64, user: Seq<char>)
    requires
        m.wf(),
        m.round(round_id) matches Some(r) && r.status == Status::Settled,
        m.position(round_id, user) matches Some(p) && side_won(p.side, m.round(round_id).unwrap().outcome),
        m.config.unwrap().fee_bps <= 10_000,
    ensures
        claim_payout(
            m.round(round_id).unwrap(),
            m.position(round_id, user).unwrap(),
            m.config.unwrap().fee_bps,
        ) >= m.position(round_id, user).unwrap().amount,
{
    let r = m.round(round_id).unwrap();
    let p = m.position(round_id, user).unwrap();
    let i = stake_index(m.stakes, round_id, user).unwrap();
    assert(stake_is(m.stakes, i, round_id, user));
    assert(m.stakes[i].position.boosted >= 0);
    let fee_bps = m.config.unwrap().fee_bps;
    let lose = if r.outcome == Outcome::Above { Side::Below } else { Side::Above };
    lemma_totals_nonneg(m.stakes, round_id, lose);
    assert(r == m.rounds[round_id - 1]);
    let l = losing_pool(r);
    assert(l >= 0);
    crate::division::lemma_share_le(fee_bps as int, l, 10_000);
    assert(fee_bps * l == l * fee_bps) by (nonlinear_arith);
    if l * fee_bps > 0 {
        crate::division::lemma_tdiv_nonneg(l * fee_bps, 10_000);
    } else {
        assert(l * fee_bps >= 0) by (nonlinear_arith)
            requires
                l >= 0,
                fee_bps >= 0,
        ;
    }
    lemma_winner_keeps_stake(
        p.amount,
        distributed(r, fee_bps) as i128,
        p.boosted,
        winning_boosted(r) as i128,
        r.global_boosted,
    );
}

/// What the positions of a round not yet claimed are owed.
pub open spec fn unclaimed_owed(stakes: Seq<Stake>, round: Round, fee_bps: u32) -> int
    decreases stakes.len(),
{
    if stakes.len() == 0 {
        0
    } else {
        let p = stakes.last().position;
        unclaimed_owed(stakes.drop_last(), round, fee_bps) + if p.round_id == round.id
            && !p.claimed {
            claim_payout(round, p, fee_bps)
        } else {
            0
        }
    }
}

/// Claims on round `round_id` by the listed users, one after another (a
/// user may come more than once; a refused claim pays nothing and changes
/// nothing): the storage afterwards and the sum paid.
pub open spec fn claim_run(m: PredictState, round_id: u64, users: Seq<Seq<char>>) -> (PredictState, int)
    decreases users.len(),
{
    if users.len() == 0 {
        (m, 0)
    } else {
        let (m1, paid) = claim_run(m, round_id, users.drop_last());
        let u = users.last();
        if m1.claim_error(round_id, u) is None {
            (m1.after_claim(round_id, u), paid + m1.claim_amount(round_id, u))
        } else {
            (m1, paid)
        }
    }
}

/// A position of a decided or void round with nonnegative stake and shares
/// is owed a nonnegative amount when the distributed amount is nonnegative.
proof fn lemma_claim_payout_nonneg(round: Round, p: Position, fee_bps: u32)
    requires
        p.amount >= 0,
        p.boosted >= 0,
        0 <= distributed(round, fee_bps) <= losing_pool(round),
        round.global_boosted >= 0,
    ensures
        claim_payout(round, p, fee_bps) >= 0,
{
    if round.outcome != Outcome::Void {
        if side_won(p.side, round.outcome) {
            lemma_winner_keeps_stake(
                p.amount,
                distributed(round, fee_bps) as i128,
                p.boosted,
                winning_boosted(round) as i128,
                round.global_boosted,
            );
        } else {
            lemma_loser_refund_nonneg(
                distributed(round, fee_bps),
                p.boosted as int,
                round.global_boosted as int,
            );
        }
    }
}

/// What unclaimed positions are owed is nonnegative and at most what all
/// positions are owed.
proof fn lemma_unclaimed_within_paid(stakes: Seq<Stake>, round: Round, fee_bps: u32)
    requires
        forall|i: int|
            0 <= i < stakes.len() ==> #[trigger] stakes[i].position.amount >= 0
                && stakes[i].position.boosted >= 0,
        0 <= distributed(round, fee_bps) <= losing_pool(round),
        round.global_boosted >= 0,
    ensures
        0 <= unclaimed_owed(stakes, round, fee_bps) <= round_paid(stakes, round, fee_bps),
    decreases stakes.len(),
{
    if stakes.len() > 0 {
        let t = stakes.drop_last();
        assert forall|i: int| 0 <= i < t.len() implies #[trigger] t[i].position.amount >= 0
            && t[i].position.boosted >= 0 by {
            assert(t[i] == stakes[i]);
        }
        lemma_unclaimed_within_paid(t, round, fee_bps);
        assert(stakes[stakes.len() - 1].position.amount >= 0);
        lemma_claim_payout_nonneg(round, stakes.last().position, fee_bps);
    }
}

/// Replacing one stake changes what unclaimed positions are owed by the
/// difference between the two.
proof fn lemma_unclaimed_update(stakes: Seq<Stake>, i: int, x: Stake, round: Round, fee_bps: u32)
    requires
        0 <= i < stakes.len(),
    ensures
        unclaimed_owed(stakes.update(i, x), round, fee_bps) == unclaimed_owed(stakes, round, fee_bps)
            - unclaimed_owed(seq![stakes[i]], round, fee_bps) + unclaimed_owed(
            seq![x],
            round,
            fee_bps,
        ),
    decreases stakes.len(),
{
    let u = stakes.update(i, x);
    assert(seq![stakes[i]].drop_last() =~= Seq::<Stake>::empty());
    assert(seq![x].drop_last() =~= Seq::<Stake>::empty());
    if i == stakes.len() - 1 {
        assert(u.drop_last() =~= stakes.drop_last());
    } else {
        assert(u.drop_last() =~= stakes.drop_last().update(i, x));
        lemma_unclaimed_update(stakes.drop_last(), i, x, round, fee_bps);
    }
}

/// The distributed amount of a settled round is nonnegative at a fee rate
/// of at most 100%.
proof fn lemma_distributed_nonneg(m: PredictState, round_id: u64, fee_bps: u32)
    requires
        m.wf(),
        m.round(round_id) is Some,
        fee_bps <= 10_000,
    ensures
        0 <= distributed(m.round(round_id).unwrap(), fee_bps) <= losing_pool(m.round(round_id).unwrap()),
        m.round(round_id).unwrap().global_boosted >= 0,
{
    let r = m.round(round_id).unwrap();
    assert(r == m.rounds[round_id - 1]);
    assert(r.id == round_id);
    lemma_totals_nonneg(m.stakes, round_id, Side::Above);
    lemma_totals_nonneg(m.stakes, round_id, Side::Below);
    let l = losing_pool(r);
    assert(l >= 0);
    crate::division::lemma_share_le(fee_bps as int, l, 10_000);
    assert(fee_bps * l == l * fee_bps) by (nonlinear_arith);
    if l * fee_bps > 0 {
        crate::division::lemma_tdiv_nonneg(l * fee_bps, 10_000);
    } else {
        assert(l * fee_bps >= 0) by (nonlinear_arith)
            requires
                l >= 0,
                fee_bps >= 0,
        ;
    }
}

/// A run of claims leaves rounds, configuration and stakes' amounts and
/// shares as they were, and what it paid is what the unclaimed positions
/// stopped being owed.
proof fn lemma_claim_run_accounting(m: PredictState, round_id: u64, users: Seq<Seq<char>>)
    requires
        m.wf(),
        m.round(round_id) matches Some(r) && r.status == Status::Settled,
    ensures
        ({
            let (m2, paid) = claim_run(m, round_id, users);
            let r = m.round(round_id).unwrap();
            &&& m2.rounds == m.rounds
            &&& m2.config == m.config
            &&& m2.stakes.len() == m.stakes.len()
            &&& forall|i: int| 0 <= i < m2.stakes.len() ==> #[trigger] m2.stakes[i].position.amount
                == m.stakes[i].position.amount && m2.stakes[i].position.boosted
                == m.stakes[i].position.boosted
            &&& paid + unclaimed_owed(m2.stakes, r, m.config.unwrap().fee_bps) == unclaimed_owed(
                m.stakes,
                r,
                m.config.unwrap().fee_bps,
            )
            &&& paid >= 0
        }),
    decreases users.len(),
{
    if users.len() > 0 {
        lemma_claim_run_accounting(m, round_id, users.drop_last());
        let (m1, paid) = claim_run(m, round_id, users.drop_last());
        let u = users.last();
        let r = m.round(round_id).unwrap();
        assert(r == m.rounds[round_id - 1]);
        assert(r.id == round_id);
        assert(m.config is Some);
        let fee = m.config.unwrap().fee_bps;
        if m1.claim_error(round_id, u) is None {
            let i = stake_index(m1.stakes, round_id, u).unwrap();
            assert(stake_is(m1.stakes, i, round_id, u));
            let old_stake = m1.stakes[i];
            let new_stake = Stake {
                position: Position { claimed: true, ..old_stake.position },
                ..old_stake
            };
            lemma_unclaimed_update(m1.stakes, i, new_stake, r, fee);
            assert(m1.round(round_id) == Some(r));
            assert(m1.position(round_id, u) == Some(old_stake.position));
            assert(unclaimed_owed(Seq::<Stake>::empty(), r, fee) == 0);
            assert(seq![old_stake].drop_last() =~= Seq::<Stake>::empty());
            assert(seq![new_stake].drop_last() =~= Seq::<Stake>::empty());
            assert(seq![new_stake].last() == new_stake);
            assert(seq![old_stake].last() == old_stake);
            assert(unclaimed_owed(seq![new_stake], r, fee) == 0);
            assert(unclaimed_owed(seq![old_stake], r, fee) == claim_payout(r, old_stake.position, fee));
            assert(old_stake.position.amount == m.stakes[i].position.amount);
            assert(old_stake.position.boosted == m.stakes[i].position.boosted);
            lemma_distributed_nonneg(m, round_id, fee);
            lemma_claim_payout_nonneg(r, old_stake.position, fee);
            let m2 = m1.after_claim(round_id, u);
            assert forall|k: int| 0 <= k < m2.stakes.len() implies #[trigger] m2.stakes[k].position.amount
                == m.stakes[k].position.amount && m2.stakes[k].position.boosted
                == m.stakes[k].position.boosted by {
                assert(m1.stakes[k].position.amount == m.stakes[k].position.amount);
            }
        }
    }
}

/// Claims on a settled round, by any users in any order and any number of
/// times at one fee rate, pay out together no more than its positions are
/// owed when each is claimed once: a void round refunds at most the pot,
/// and otherwise the payouts and the fee on the losing pool together stay
/// within the pot.
pub proof fn lemma_claims_within_pot(m: PredictState, round_id: u64, users: Seq<Seq<char>>)
    requires
        m.wf(),
        m.round(round_id) matches Some(r) && r.status == Status::Settled,
    ensures
        ({
            let (m2, paid) = claim_run(m, round_id, users);
            let r = m.round(round_id).unwrap();
            let fee = m.config.unwrap().fee_bps;
            &&& 0 <= paid <= round_paid(m.stakes, r, fee)
            &&& r.outcome == Outcome::Void ==> paid <= r.pool_above + r.pool_below
            &&& r.outcome != Outcome::Void ==> paid + losing_fee(losing_pool(r), fee as int)
                <= r.pool_above + r.pool_below
        }),
{
    let r = m.round(round_id).unwrap();
    assert(r == m.rounds[round_id - 1]);
    assert(m.config is Some);
    let fee = m.config.unwrap().fee_bps;
    assert(fee <= 10_000);
    lemma_claim_run_accounting(m, round_id, users);
    let (m2, paid) = claim_run(m, round_id, users);
    lemma_distributed_nonneg(m, round_id, fee);
    assert forall|i: int| 0 <= i < m.stakes.len() implies #[trigger] m.stakes[i].position.amount >= 0
        && m.stakes[i].position.boosted >= 0 by {}
    assert forall|i: int| 0 <= i < m2.stakes.len() implies #[trigger] m2.stakes[i].position.amount >= 0
        && m2.stakes[i].position.boosted >= 0 by {
        assert(m2.stakes[i].position.amount == m.stakes[i].position.amount);
    }
    lemma_unclaimed_within_paid(m.stakes, r, fee);
    lemma_unclaimed_within_paid(m2.stakes, r, fee);
    lemma_round_conservation(m, round_id, fee);
}

/// A position pays out at most once: once claimed, claiming it again is
/// refused with `NothingToClaim`.
pub proof fn lemma_claim_pays_once(m: PredictState, round_id: u64, user: Seq<char>)
    requires
        m.wf(),
        m.claim_error(round_id, user) is None,
    ensures
        m.after_claim(round_id, user).claim_error(round_id, user) == Some(Error::NothingToClaim),
{
    let i = stake_index(m.stakes, round_id, user).unwrap();
    let m2 = m.after_claim(round_id, user);
    assert(stake_is(m.stakes, i, round_id, user));
    assert(stake_is(m2.stakes, i, round_id, user));
    let j = stake_index(m2.stakes, round_id, user).unwrap();
    assert(stake_is(m2.stakes, j, round_id, user));
    if j != i {
        assert(m.stakes[j] == m2.stakes[j]);
        assert(stake_is(m.stakes, j, round_id, user));
    }
}

/// Settlement does not depend on who settles or when: any two times at or
/// after `settle_ts` are accepted alike, and the result depends only on the
/// oracle's reading for the pinned `settle_ts`.
pub proof fn lemma_settle_ignores_caller_time(
    m: PredictState,
    round_id: u64,
    now1: u64,
    now2: u64,
    price: Option<PriceData>,
)
    requires
        m.round(round_id) matches Some(r) && now1 >= r.settle_ts && now2 >= r.settle_ts,
    ensures
        m.settle_error(round_id, now1) == m.settle_error(round_id, now2),
        m.settle_ok(round_id, now1, price) == m.settle_ok(round_id, now2, price),
{
}

/// Betting always closes strictly before settlement: every round that can
/// be opened locks before it settles.
pub proof fn lemma_lock_precedes_settle(m: PredictState, tick: PriceData)
    requires
        m.wf(),
        m.create_round_ok(Some(tick)),
        m.create_round_error(Some(tick)) is None,
    ensures
        m.new_round(tick).lock_ts < m.new_round(tick).settle_ts,
{
}

/// One round per oracle tick: a second round on the same tick is refused.
pub proof fn lemma_one_round_per_tick(m: PredictState, tick: PriceData)
    requires
        m.create_round_error(Some(tick)) is None,
    ensures
        m.after_create(tick).create_round_error(Some(tick)) == Some(Error::DuplicateRound),
{
}

/// An accepted bet adds its stake to its side's pool and its time-weighted
/// shares to its side's and the global boosted totals, leaves the other
/// side alone, and records the user's unclaimed position; the global total
/// stays the sum of the two sides.
pub proof fn lemma_bet_updates_round(
    m: PredictState,
    user: String,
    round_id: u64,
    side: Side,
    amount: i128,
    now: u64,
)
    requires
        m.wf(),
        m.bet_error(user@, round_id, amount, now) is None,
        m.bet_ok(round_id, side, amount, now),
    ensures
        ({
            let r = m.round(round_id).unwrap();
            let b = boosted(amount as int, now, r.lock_ts);
            let m2 = m.after_bet(user, round_id, side, amount, now);
            let r2 = m2.round(round_id).unwrap();
            &&& side == Side::Above ==> r2.pool_above == r.pool_above + amount && r2.boosted_above
                == r.boosted_above + b && r2.pool_below == r.pool_below && r2.boosted_below
                == r.boosted_below
            &&& side == Side::Below ==> r2.pool_below == r.pool_below + amount && r2.boosted_below
                == r.boosted_below + b && r2.pool_above == r.pool_above && r2.boosted_above
                == r.boosted_above
            &&& r2.global_boosted == r.global_boosted + b
            &&& r2.global_boosted == r2.boosted_above + r2.boosted_below
            &&& m2.position(round_id, user@) == Some(
                Position { round_id, side, amount, boosted: b as i128, claimed: false },
            )
        }),
{
    let r = m.round(round_id).unwrap();
    assert(r == m.rounds[round_id - 1]);
    let m2 = m.after_bet(user, round_id, side, amount, now);
    let last = m.stakes.len() as int;
    assert(stake_is(m2.stakes, last, round_id, user@));
    let j = stake_index(m2.stakes, round_id, user@).unwrap();
    assert(stake_is(m2.stakes, j, round_id, user@));
    if j != last {
        assert(m2.stakes[j] == m.stakes[j]);
        assert(stake_is(m.stakes, j, round_id, user@));
        assert(m.position(round_id, user@) is Some);
    }
}

/// Settling accrues the fee on the losing side's pool, whichever side
/// won: when both sides staked and the price moved above the strike, the
/// fees grow by `pool_below * fee_bps / 10_000`; below the strike, by
/// `pool_above * fee_bps / 10_000`; on a void round not at all. The fee
/// accrued is the one the payouts deduct: the losing pool less it is what
/// the winners and losers share.
pub proof fn lemma_settle_accrues_losing_fee(m: PredictState, round_id: u64, now: u64, price: Option<PriceData>)
    requires
        m.wf(),
        m.settle_error(round_id, now) is None,
        m.settle_ok(round_id, now, price),
    ensures
        ({
            let r = m.rounds[round_id - 1];
            let fee_bps = m.config.unwrap().fee_bps;
            let m2 = m.after_settle(round_id, price);
            let r2 = m2.rounds[round_id - 1];
            let two_sided = r.pool_above > 0 && r.pool_below > 0;
            &&& (two_sided && price is Some && price.unwrap().price > r.strike) ==> r2.outcome
                == Outcome::Above && m2.fees == m.fees + (r.pool_below * fee_bps) / 10_000
            &&& (two_sided && price is Some && price.unwrap().price < r.strike) ==> r2.outcome
                == Outcome::Below && m2.fees == m.fees + (r.pool_above * fee_bps) / 10_000
            &&& r2.outcome == Outcome::Void ==> m2.fees == m.fees
            &&& r2.outcome != Outcome::Void ==> distributed(r2, fee_bps) == losing_pool(r2) - (m2.fees
                - m.fees)
        }),
{
    let r = m.rounds[round_id - 1];
    assert(r == m.round(round_id).unwrap());
    assert(r.id == round_id);
    lemma_totals_nonneg(m.stakes, round_id, Side::Above);
    lemma_totals_nonneg(m.stakes, round_id, Side::Below);
    let fee_bps = m.config.unwrap().fee_bps;
    let a = r.pool_above as int;
    let b = r.pool_below as int;
    assert(a * fee_bps >= 0 && b * fee_bps >= 0) by (nonlinear_arith)
        requires
            a >= 0,
            b >= 0,
            fee_bps >= 0,
    ;
    if a * fee_bps > 0 {
        crate::division::lemma_tdiv_nonneg(a * fee_bps, 10_000);
    }
    if b * fee_bps > 0 {
        crate::division::lemma_tdiv_nonneg(b * fee_bps, 10_000);
    }
}

/// What a claim on a settled round pays under the Ninetails rule, in the
/// round's own numbers. With `D` the losing pool less its fee
/// (`losing * fee_bps / 10_000`): a void round refunds the stake; a winner
/// gets the stake, its boosted share of 70% of `D` within its side and its
/// boosted share of 30% of `D` across both sides; a loser gets only the
/// latter. The position is then marked claimed and cannot be claimed again.
pub proof fn lemma_claim_pays_ninetails(m: PredictState, round_id: u64, user: Seq<char>)
    requires
        m.wf(),
        m.claim_error(round_id, user) is None,
    ensures
        ({
            let r = m.round(round_id).unwrap();
            let p = m.position(round_id, user).unwrap();
            let fee_bps = m.config.unwrap().fee_bps;
            let losing = if r.outcome == Outcome::Above {
                r.pool_below as int
            } else {
                r.pool_above as int
            };
            let d = losing - (losing * fee_bps) / 10_000;
            let to_winners = (d * 7_000) / 10_000;
            let to_all = (d * 3_000) / 10_000;
            let side_boosted = if r.outcome == Outcome::Above {
                r.boosted_above as int
            } else {
                r.boosted_below as int
            };
            let early = if r.global_boosted > 0 {
                (to_all * p.boosted) / (r.global_boosted as int)
            } else {
                0
            };
            let won = (p.side == Side::Above && r.outcome == Outcome::Above) || (p.side
                == Side::Below && r.outcome == Outcome::Below);
            &&& r.outcome == Outcome::Void ==> m.claim_amount(round_id, user) == p.amount
            &&& won ==> m.claim_amount(round_id, user) == p.amount + (if side_boosted > 0 {
                (to_winners * p.boosted) / side_boosted
            } else {
                0
            }) + early
            &&& r.outcome != Outcome::Void && !won ==> m.claim_amount(round_id, user) == early
            &&& m.after_claim(round_id, user).claim_error(round_id, user) == Some(
                Error::NothingToClaim,
            )
        }),
{
    let r = m.round(round_id).unwrap();
    let fee_bps = m.config.unwrap().fee_bps;
    let i = stake_index(m.stakes, round_id, user).unwrap();
    assert(stake_is(m.stakes, i, round_id, user));
    let p = m.position(round_id, user).unwrap();
    assert(p.amount >= 0 && p.boosted >= 0);
    assert(fee_bps <= 10_000);
    lemma_distributed_nonneg(m, round_id, fee_bps);
    let d = distributed(r, fee_bps);
    let losing = losing_pool(r);
    let lf = losing * fee_bps;
    assert(lf >= 0) by (nonlinear_arith)
        requires
            lf == losing * fee_bps,
            losing >= 0,
    ;
    if lf > 0 {
        crate::division::lemma_tdiv_nonneg(lf, 10_000);
    }
    crate::ninetails::lemma_parts_within_distributed(d);
    let a = (d * 7_000) / 10_000;
    let b = (d * 3_000) / 10_000;
    lemma_totals_nonneg(m.stakes, round_id, Side::Above);
    lemma_totals_nonneg(m.stakes, round_id, Side::Below);
    assert(r == m.rounds[round_id - 1]);
    let xa = a * p.boosted;
    let xb = b * p.boosted;
    assert(xa >= 0 && xb >= 0) by (nonlinear_arith)
        requires
            xa == a * p.boosted,
            xb == b * p.boosted,
            a >= 0,
            b >= 0,
            p.boosted >= 0,
    ;
    let sb = winning_boosted(r);
    if sb > 0 && xa > 0 {
        crate::division::lemma_tdiv_nonneg(xa, sb);
    }
    if r.global_boosted > 0 && xb > 0 {
        crate::division::lemma_tdiv_nonneg(xb, r.global_boosted as int);
    }
    if sb > 0 && xa == 0 {
        assert(xa / sb == 0);
    }
    if r.global_boosted > 0 && xb == 0 {
        assert(xb / (r.global_boosted as int) == 0);
    }
    lemma_claim_pays_once(m, round_id, user);
}

} // verus!
