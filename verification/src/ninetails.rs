//! Time-weighted ("Ninetails") payout arithmetic for the single-asset market.
//!
//! A bet's boosted shares are its stake times the seconds left until the
//! round locks, so earlier bets weigh more. When a side wins, the fee is
//! taken from the losing pool only; of what remains (the distributed
//! amount) 70% goes to the winners by their boosted shares within the
//! winning side, and 30% to every bettor by boosted shares across both
//! sides. Winners also get their own stake back.
use vstd::prelude::*;
use crate::division::{
    all_nonneg, fits_i128, lemma_floor_add, lemma_share_sum_bounds, lemma_share_whole,
    lemma_tdiv_nonneg, share_sum, sum, tdiv, div_pos, mul_fits,
};

verus! {

/// Share of the distributed amount, in basis points, reserved for winners.
pub const NINETAILS_WINNER_PCT: i128 = 7_000;

/// Share of the distributed amount, in basis points, refunded to everyone
/// by early entry.
pub const NINETAILS_REFUND_PCT: i128 = 3_000;

/// Basis-point denominator.
pub const NINETAILS_DENOM: i128 = 10_000;

/// Seconds from `bet_ts` until `lock_ts`, or zero once locked.
pub open spec fn remaining(bet_ts: u64, lock_ts: u64) -> int {
    if lock_ts > bet_ts {
        lock_ts - bet_ts
    } else {
        0
    }
}

/// Time-weighted shares of a bet: `amount * (lock_ts - bet_ts)`.
pub open spec fn boosted(amount: int, bet_ts: u64, lock_ts: u64) -> int {
    amount * remaining(bet_ts, lock_ts)
}

/// The winners' part of the distributed amount (70%, rounded toward zero).
pub open spec fn winner_part(distributed: int) -> int {
    tdiv(distributed * 7_000, 10_000)
}

/// Everyone's early-entry part of the distributed amount (30%, rounded
/// toward zero).
pub open spec fn refund_part(distributed: int) -> int {
    tdiv(distributed * 3_000, 10_000)
}

/// A winner's bonus from the winners' part, by boosted shares within the
/// winning side; zero when that side has no boosted shares.
pub open spec fn winner_bonus(distributed: int, user_boosted: int, side_boosted: int) -> int {
    if side_boosted > 0 {
        tdiv(winner_part(distributed) * user_boosted, side_boosted)
    } else {
        0
    }
}

/// A winner's early-entry refund, by boosted shares across both sides; zero
/// when there are no boosted shares at all.
pub open spec fn early_bonus(distributed: int, user_boosted: int, global_boosted: int) -> int {
    if global_boosted > 0 {
        tdiv(refund_part(distributed) * user_boosted, global_boosted)
    } else {
        0
    }
}

/// Total payout of a winner: stake, winner bonus and early-entry refund.
pub open spec fn winner_total(
    staked: int,
    distributed: int,
    user_boosted: int,
    side_boosted: int,
    global_boosted: int,
) -> int {
    staked + winner_bonus(distributed, user_boosted, side_boosted) + early_bonus(
        distributed,
        user_boosted,
        global_boosted,
    )
}

/// Payout of a loser: the early-entry refund only.
pub open spec fn loser_total(distributed: int, user_boosted: int, global_boosted: int) -> int {
    if global_boosted == 0 {
        0
    } else {
        tdiv(refund_part(distributed) * user_boosted, global_boosted)
    }
}

/// The fee on a losing pool, rounded toward zero.
pub open spec fn losing_fee(losing_pool: int, fee_bps: int) -> int {
    tdiv(losing_pool * fee_bps, 10_000)
}

/// `winner_payout` runs without overflow on these inputs.
pub open spec fn winner_payout_ok(
    staked: int,
    distributed: int,
    user_boosted: int,
    side_boosted: int,
    global_boosted: int,
) -> bool {
    &&& side_boosted > 0 ==> fits_i128(distributed * 7_000) && fits_i128(
        winner_part(distributed) * user_boosted,
    )
    &&& global_boosted > 0 ==> fits_i128(distributed * 3_000) && fits_i128(
        refund_part(distributed) * user_boosted,
    )
    &&& fits_i128(staked + winner_bonus(distributed, user_boosted, side_boosted))
    &&& fits_i128(winner_total(staked, distributed, user_boosted, side_boosted, global_boosted))
}

/// `loser_payout` runs without overflow on these inputs.
pub open spec fn loser_payout_ok(distributed: int, user_boosted: int, global_boosted: int) -> bool {
    global_boosted != 0 ==> {
        &&& fits_i128(distributed * 3_000)
        &&& fits_i128(refund_part(distributed) * user_boosted)
        &&& fits_i128(tdiv(refund_part(distributed) * user_boosted, global_boosted))
    }
}

/// Time-weighted boosted shares: `amount * (lock_ts - bet_ts)`, largest for
/// a bet at the open and zero at or after the lock.
pub fn boosted_shares(amount: i128, bet_ts: u64, lock_ts: u64) -> (r: i128)
    requires
        fits_i128(boosted(amount as int, bet_ts, lock_ts)),
    ensures
        r == boosted(amount as int, bet_ts, lock_ts),
{
    let remaining = lock_ts.saturating_sub(bet_ts) as i128;
    mul_fits(amount, remaining)
}

/// Ninetails payout of a winner: the stake back, plus 70% of `distributed`
/// by boosted shares within the winning side, plus 30% of `distributed` by
/// boosted shares across all bettors.
pub fn winner_payout(
    staked: i128,
    distributed: i128,
    user_boosted: i128,
    side_boosted: i128,
    global_boosted: i128,
) -> (r: i128)
    requires
        winner_payout_ok(
            staked as int,
            distributed as int,
            user_boosted as int,
            side_boosted as int,
            global_boosted as int,
        ),
    ensures
        r == winner_total(
            staked as int,
            distributed as int,
            user_boosted as int,
            side_boosted as int,
            global_boosted as int,
        ),
{
    let base = staked;
    let winner_share = if side_boosted > 0 {
        let part = div_pos(mul_fits(distributed, NINETAILS_WINNER_PCT), NINETAILS_DENOM);
        div_pos(mul_fits(part, user_boosted), side_boosted)
    } else {
        0
    };
    let refund_share = if global_boosted > 0 {
        let part = div_pos(mul_fits(distributed, NINETAILS_REFUND_PCT), NINETAILS_DENOM);
        div_pos(mul_fits(part, user_boosted), global_boosted)
    } else {
        0
    };
    let with_bonus = base + winner_share;
    with_bonus + refund_share
}

/// Ninetails payout of a loser: 30% of `distributed` by boosted shares
/// across all bettors, or 0 when there are no boosted shares.
pub fn loser_payout(distributed: i128, user_boosted: i128, global_boosted: i128) -> (r: i128)
    requires
        loser_payout_ok(distributed as int, user_boosted as int, global_boosted as int),
    ensures
        r == loser_total(distributed as int, user_boosted as int, global_boosted as int),
{
    if global_boosted == 0 {
        return 0;
    }
    let part = div_pos(mul_fits(distributed, NINETAILS_REFUND_PCT), NINETAILS_DENOM);
    let product = mul_fits(part, user_boosted);
    match product.checked_div(global_boosted) {
        Some(q) => q,
        None => {
            proof {
                assert(false);
            }
            0
        },
    }
}

/// The fee on the losing pool: `losing_pool * fee_bps / 10_000`.
pub fn fee_amount(losing_pool: i128, fee_bps: u32) -> (r: i128)
    requires
        fits_i128(losing_pool * fee_bps),
    ensures
        r == losing_fee(losing_pool as int, fee_bps as int),
{
    div_pos(mul_fits(losing_pool, fee_bps as i128), 10_000)
}

/// Whether `winner_payout` stays within `i128` on these inputs.
pub fn winner_payout_fits(
    staked: i128,
    distributed: i128,
    user_boosted: i128,
    side_boosted: i128,
    global_boosted: i128,
) -> (r: bool)
    ensures
        r == winner_payout_ok(
            staked as int,
            distributed as int,
            user_boosted as int,
            side_boosted as int,
            global_boosted as int,
        ),
{
    let mut winner_share: i128 = 0;
    if side_boosted > 0 {
        let p = match distributed.checked_mul(NINETAILS_WINNER_PCT) {
            None => {
                return false;
            },
            Some(p) => p,
        };
        let part = div_pos(p, NINETAILS_DENOM);
        let q = match part.checked_mul(user_boosted) {
            None => {
                return false;
            },
            Some(q) => q,
        };
        winner_share = div_pos(q, side_boosted);
    }
    let mut refund_share: i128 = 0;
    if global_boosted > 0 {
        let p = match distributed.checked_mul(NINETAILS_REFUND_PCT) {
            None => {
                return false;
            },
            Some(p) => p,
        };
        let part = div_pos(p, NINETAILS_DENOM);
        let q = match part.checked_mul(user_boosted) {
            None => {
                return false;
            },
            Some(q) => q,
        };
        refund_share = div_pos(q, global_boosted);
    }
    match staked.checked_add(winner_share) {
        None => false,
        Some(w) => w.checked_add(refund_share).is_some(),
    }
}

/// Whether `loser_payout` stays within `i128` on these inputs.
pub fn loser_payout_fits(distributed: i128, user_boosted: i128, global_boosted: i128) -> (r: bool)
    ensures
        r == loser_payout_ok(distributed as int, user_boosted as int, global_boosted as int),
{
    if global_boosted == 0 {
        return true;
    }
    let p = match distributed.checked_mul(NINETAILS_REFUND_PCT) {
        None => {
            return false;
        },
        Some(p) => p,
    };
    let part = div_pos(p, NINETAILS_DENOM);
    let q = match part.checked_mul(user_boosted) {
        None => {
            return false;
        },
        Some(q) => q,
    };
    q.checked_div(global_boosted).is_some()
}

/// Early entry pays: for a positive stake, a bet placed earlier (before the
/// lock) carries strictly more boosted shares than a later one, and a later
/// bet never carries more.
pub proof fn lemma_earlier_bets_weigh_more(amount: i128, early_ts: u64, late_ts: u64, lock_ts: u64)
    requires
        amount >= 0,
        early_ts <= late_ts,
    ensures
        boosted(amount as int, late_ts, lock_ts) <= boosted(amount as int, early_ts, lock_ts),
        amount > 0 && early_ts < late_ts && early_ts < lock_ts ==> boosted(
            amount as int,
            late_ts,
            lock_ts,
        ) < boosted(amount as int, early_ts, lock_ts),
{
    let re = remaining(early_ts, lock_ts);
    let rl = remaining(late_ts, lock_ts);
    assert(0 <= rl <= re);
    assert(amount * rl <= amount * re) by (nonlinear_arith)
        requires
            amount >= 0,
            rl <= re,
    ;
    if amount > 0 && early_ts < late_ts && early_ts < lock_ts {
        assert(rl < re);
        assert(amount * rl < amount * re) by (nonlinear_arith)
            requires
                amount > 0,
                rl < re,
        ;
    }
}

/// A nonnegative share `x * u / w` of a nonnegative amount is nonnegative.
proof fn lemma_share_nonneg(x: int, u: int, w: int)
    requires
        x >= 0,
        u >= 0,
        w > 0,
    ensures
        tdiv(x * u, w) == (x * u) / w,
        (x * u) / w >= 0,
{
    assert(x * u >= 0) by (nonlinear_arith)
        requires
            x >= 0,
            u >= 0,
    ;
    if x * u > 0 {
        lemma_tdiv_nonneg(x * u, w);
    } else {
        assert((0int) / w == 0);
    }
}

/// The 70% and 30% parts of a nonnegative distributed amount are
/// nonnegative and together do not exceed it.
pub proof fn lemma_parts_within_distributed(distributed: int)
    requires
        distributed >= 0,
    ensures
        winner_part(distributed) == (distributed * 7_000) / 10_000,
        refund_part(distributed) == (distributed * 3_000) / 10_000,
        winner_part(distributed) >= 0,
        refund_part(distributed) >= 0,
        winner_part(distributed) + refund_part(distributed) <= distributed,
{
    lemma_share_nonneg(distributed, 7_000, 10_000);
    lemma_share_nonneg(distributed, 3_000, 10_000);
    lemma_floor_add(distributed * 7_000, distributed * 3_000, 10_000);
    assert(distributed * 7_000 + distributed * 3_000 == 10_000 * distributed) by (nonlinear_arith);
    lemma_share_whole(distributed, 10_000);
}

/// A winner always gets at least the stake back: with a nonnegative
/// distributed amount and nonnegative boosted shares, the bonuses are
/// never negative.
pub proof fn lemma_winner_keeps_stake(
    staked: i128,
    distributed: i128,
    user_boosted: i128,
    side_boosted: i128,
    global_boosted: i128,
)
    requires
        distributed >= 0,
        user_boosted >= 0,
    ensures
        winner_total(
            staked as int,
            distributed as int,
            user_boosted as int,
            side_boosted as int,
            global_boosted as int,
        ) >= staked,
{
    lemma_parts_within_distributed(distributed as int);
    if side_boosted > 0 {
        lemma_share_nonneg(winner_part(distributed as int), user_boosted as int, side_boosted as int);
    }
    if global_boosted > 0 {
        lemma_share_nonneg(refund_part(distributed as int), user_boosted as int, global_boosted as int);
    }
}

/// A loser's early-entry refund is never negative.
pub proof fn lemma_loser_refund_nonneg(distributed: int, user_boosted: int, global_boosted: int)
    requires
        distributed >= 0,
        user_boosted >= 0,
        global_boosted >= 0,
    ensures
        loser_total(distributed, user_boosted, global_boosted) >= 0,
{
    lemma_parts_within_distributed(distributed);
    if global_boosted > 0 {
        lemma_share_nonneg(refund_part(distributed), user_boosted, global_boosted);
    }
}

/// Winners' payouts (stake plus bonuses), added up over parallel lists of
/// stakes and boosted shares.
pub open spec fn winners_paid(
    stakes: Seq<i128>,
    boosts: Seq<i128>,
    distributed: int,
    side_boosted: int,
    global_boosted: int,
) -> int
    decreases stakes.len(),
{
    if stakes.len() == 0 || boosts.len() == 0 {
        0
    } else {
        winners_paid(
            stakes.drop_last(),
            boosts.drop_last(),
            distributed,
            side_boosted,
            global_boosted,
        ) + winner_total(
            stakes.last() as int,
            distributed,
            boosts.last() as int,
            side_boosted,
            global_boosted,
        )
    }
}

/// Losers' early-entry refunds, added up over their boosted shares.
pub open spec fn losers_paid(boosts: Seq<i128>, distributed: int, global_boosted: int) -> int
    decreases boosts.len(),
{
    if boosts.len() == 0 {
        0
    } else {
        losers_paid(boosts.drop_last(), distributed, global_boosted) + loser_total(
            distributed,
            boosts.last() as int,
            global_boosted,
        )
    }
}

/// The winners' payouts are their stakes plus the rounded-down shares of
/// both parts.
proof fn lemma_winners_paid_split(
    stakes: Seq<i128>,
    boosts: Seq<i128>,
    distributed: int,
    side_boosted: int,
    global_boosted: int,
)
    requires
        stakes.len() == boosts.len(),
        all_nonneg(boosts),
        distributed >= 0,
        side_boosted > 0,
        global_boosted > 0,
    ensures
        winners_paid(stakes, boosts, distributed, side_boosted, global_boosted) == sum(stakes)
            + share_sum(boosts, winner_part(distributed), side_boosted) + share_sum(
            boosts,
            refund_part(distributed),
            global_boosted,
        ),
    decreases stakes.len(),
{
    if stakes.len() > 0 {
        let tb = boosts.drop_last();
        assert forall|i: int| 0 <= i < tb.len() implies tb[i] >= 0 by {
            assert(tb[i] == boosts[i]);
        }
        lemma_winners_paid_split(
            stakes.drop_last(),
            tb,
            distributed,
            side_boosted,
            global_boosted,
        );
        lemma_parts_within_distributed(distributed);
        let u = boosts.last() as int;
        lemma_share_nonneg(winner_part(distributed), u, side_boosted);
        lemma_share_nonneg(refund_part(distributed), u, global_boosted);
        assert(winner_part(distributed) * u == u * winner_part(distributed)) by (nonlinear_arith);
        assert(refund_part(distributed) * u == u * refund_part(distributed)) by (nonlinear_arith);
    }
}

/// The losers' refunds are the rounded-down shares of the 30% part.
proof fn lemma_losers_paid_split(boosts: Seq<i128>, distributed: int, global_boosted: int)
    requires
        all_nonneg(boosts),
        distributed >= 0,
        global_boosted > 0,
    ensures
        losers_paid(boosts, distributed, global_boosted) == share_sum(
            boosts,
            refund_part(distributed),
            global_boosted,
        ),
    decreases boosts.len(),
{
    if boosts.len() > 0 {
        let tb = boosts.drop_last();
        assert forall|i: int| 0 <= i < tb.len() implies tb[i] >= 0 by {
            assert(tb[i] == boosts[i]);
        }
        lemma_losers_paid_split(tb, distributed, global_boosted);
        lemma_parts_within_distributed(distributed);
        let u = boosts.last() as int;
        lemma_share_nonneg(refund_part(distributed), u, global_boosted);
        assert(refund_part(distributed) * u == u * refund_part(distributed)) by (nonlinear_arith);
    }
}

/// Rounded-down shares over two lists add up to the shares over the joined
/// list.
proof fn lemma_share_sum_append(a: Seq<i128>, b: Seq<i128>, d: int, w: int)
    ensures
        share_sum(a + b, d, w) == share_sum(a, d, w) + share_sum(b, d, w),
        sum(a + b) == sum(a) + sum(b),
    decreases b.len(),
{
    if b.len() == 0 {
        assert(a + b =~= a);
    } else {
        lemma_share_sum_append(a, b.drop_last(), d, w);
        assert((a + b).drop_last() =~= a + b.drop_last());
        assert((a + b).last() == b.last());
    }
}

/// Conservation when the winning side holds boosted shares.
proof fn lemma_ninetails_conserve_boosted(
    winner_stakes: Seq<i128>,
    winner_boosts: Seq<i128>,
    loser_boosts: Seq<i128>,
    losing_pool: i128,
    fee_bps: u32,
)
    requires
        winner_stakes.len() == winner_boosts.len(),
        all_nonneg(winner_boosts),
        all_nonneg(loser_boosts),
        sum(winner_boosts) > 0,
        losing_pool >= 0,
        fee_bps <= 10_000,
    ensures
        ({
            let fee = losing_fee(losing_pool as int, fee_bps as int);
            let distributed = losing_pool - fee;
            let side_boosted = sum(winner_boosts);
            let global_boosted = sum(winner_boosts) + sum(loser_boosts);
            winners_paid(winner_stakes, winner_boosts, distributed, side_boosted, global_boosted)
                + losers_paid(loser_boosts, distributed, global_boosted) + fee <= sum(winner_stakes)
                + losing_pool
        }),
{
    let fee = losing_fee(losing_pool as int, fee_bps as int);
    crate::division::lemma_share_le(fee_bps as int, losing_pool as int, 10_000);
    assert(fee_bps * losing_pool == losing_pool * fee_bps) by (nonlinear_arith);
    lemma_share_nonneg(losing_pool as int, fee_bps as int, 10_000);
    let distributed = losing_pool - fee;
    assert(distributed >= 0);
    let side_boosted = sum(winner_boosts);
    crate::division::lemma_sum_nonneg(loser_boosts);
    let global_boosted = sum(winner_boosts) + sum(loser_boosts);
    lemma_winners_paid_split(winner_stakes, winner_boosts, distributed, side_boosted, global_boosted);
    lemma_losers_paid_split(loser_boosts, distributed, global_boosted);
    lemma_parts_within_distributed(distributed);
    let a = winner_part(distributed);
    let b = refund_part(distributed);
    // Winners' bonuses from the 70% part stay within it.
    lemma_share_sum_bounds(winner_boosts, a, side_boosted);
    lemma_share_whole(a, side_boosted);
    // Everyone's refunds from the 30% part stay within it.
    let everyone = winner_boosts + loser_boosts;
    lemma_share_sum_append(winner_boosts, loser_boosts, b, global_boosted);
    assert forall|i: int| 0 <= i < everyone.len() implies everyone[i] >= 0 by {
        if i < winner_boosts.len() {
            assert(everyone[i] == winner_boosts[i]);
        } else {
            assert(everyone[i] == loser_boosts[i - winner_boosts.len()]);
        }
    }
    lemma_share_sum_bounds(everyone, b, global_boosted);
    lemma_share_whole(b, global_boosted);
}

/// Winners without boosted shares are paid exactly their stakes.
proof fn lemma_winners_paid_unboosted(
    stakes: Seq<i128>,
    boosts: Seq<i128>,
    distributed: int,
    global_boosted: int,
)
    requires
        stakes.len() == boosts.len(),
        all_nonneg(boosts),
        sum(boosts) == 0,
    ensures
        winners_paid(stakes, boosts, distributed, 0, global_boosted) == sum(stakes),
    decreases stakes.len(),
{
    if stakes.len() > 0 {
        let tb = boosts.drop_last();
        assert forall|i: int| 0 <= i < tb.len() implies tb[i] >= 0 by {
            assert(tb[i] == boosts[i]);
        }
        crate::division::lemma_sum_nonneg(tb);
        assert(boosts.last() == 0);
        lemma_winners_paid_unboosted(stakes.drop_last(), tb, distributed, global_boosted);
    }
}

/// Without boosted shares anywhere, losers are refunded nothing.
proof fn lemma_losers_paid_unboosted(boosts: Seq<i128>, distributed: int)
    ensures
        losers_paid(boosts, distributed, 0) == 0,
    decreases boosts.len(),
{
    if boosts.len() > 0 {
        lemma_losers_paid_unboosted(boosts.drop_last(), distributed);
    }
}

/// Conservation when the winning side holds no boosted shares: winners get
/// back their stakes, losers at most the 30% part.
proof fn lemma_ninetails_conserve_unboosted(
    winner_stakes: Seq<i128>,
    winner_boosts: Seq<i128>,
    loser_boosts: Seq<i128>,
    losing_pool: i128,
    fee_bps: u32,
)
    requires
        winner_stakes.len() == winner_boosts.len(),
        all_nonneg(winner_boosts),
        all_nonneg(loser_boosts),
        sum(winner_boosts) == 0,
        losing_pool >= 0,
        fee_bps <= 10_000,
    ensures
        ({
            let fee = losing_fee(losing_pool as int, fee_bps as int);
            let distributed = losing_pool - fee;
            let side_boosted = sum(winner_boosts);
            let global_boosted = sum(winner_boosts) + sum(loser_boosts);
            winners_paid(winner_stakes, winner_boosts, distributed, side_boosted, global_boosted)
                + losers_paid(loser_boosts, distributed, global_boosted) + fee <= sum(winner_stakes)
                + losing_pool
        }),
{
    let fee = losing_fee(losing_pool as int, fee_bps as int);
    crate::division::lemma_share_le(fee_bps as int, losing_pool as int, 10_000);
    assert(fee_bps * losing_pool == losing_pool * fee_bps) by (nonlinear_arith);
    lemma_share_nonneg(losing_pool as int, fee_bps as int, 10_000);
    let distributed = losing_pool - fee;
    crate::division::lemma_sum_nonneg(loser_boosts);
    let global_boosted = sum(loser_boosts);
    lemma_winners_paid_unboosted(winner_stakes, winner_boosts, distributed, global_boosted);
    lemma_parts_within_distributed(distributed);
    let b = refund_part(distributed);
    if global_boosted > 0 {
        lemma_losers_paid_split(loser_boosts, distributed, global_boosted);
        lemma_share_sum_bounds(loser_boosts, b, global_boosted);
        lemma_share_whole(b, global_boosted);
        assert(global_boosted * b == b * global_boosted) by (nonlinear_arith);
    } else {
        lemma_losers_paid_unboosted(loser_boosts, distributed);
    }
}

/// Ninetails conservation: when a side wins, the winners' payouts (stakes
/// plus bonuses), the losers' early-entry refunds and the fee on the losing
/// pool together never exceed what was staked on both sides.
pub proof fn lemma_ninetails_conserve(
    winner_stakes: Seq<i128>,
    winner_boosts: Seq<i128>,
    loser_boosts: Seq<i128>,
    losing_pool: i128,
    fee_bps: u32,
)
    requires
        winner_stakes.len() == winner_boosts.len(),
        all_nonneg(winner_boosts),
        all_nonneg(loser_boosts),
        losing_pool >= 0,
        fee_bps <= 10_000,
    ensures
        ({
            let fee = losing_fee(losing_pool as int, fee_bps as int);
            let distributed = losing_pool - fee;
            let side_boosted = sum(winner_boosts);
            let global_boosted = sum(winner_boosts) + sum(loser_boosts);
            winners_paid(winner_stakes, winner_boosts, distributed, side_boosted, global_boosted)
                + losers_paid(loser_boosts, distributed, global_boosted) + fee <= sum(winner_stakes)
                + losing_pool
        }),
{
    crate::division::lemma_sum_nonneg(winner_boosts);
    if sum(winner_boosts) > 0 {
        lemma_ninetails_conserve_boosted(winner_stakes, winner_boosts, loser_boosts, losing_pool, fee_bps);
    } else {
        lemma_ninetails_conserve_unboosted(winner_stakes, winner_boosts, loser_boosts, losing_pool, fee_bps);
    }
}

} // verus!
