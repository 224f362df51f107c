//! Parimutuel payout arithmetic for the epoch-driven market.
//!
//! The fee is taken from the whole pot; the rest (the reward pool) is split
//! among winners in proportion to their stake. Integer division rounds each
//! share down, so the dust stays with the treasury and the market can never
//! pay out more than it collected.
use vstd::prelude::*;
use crate::division::{all_nonneg, div_ok, fits_i128, lemma_share_le, lemma_shares_of_whole, lemma_tdiv_nonneg, share_sum, sum, tdiv, lemma_tdiv_bounded};

verus! {

/// The treasury fee on a pot: `total * fee_bps / 10_000`, rounded toward zero.
pub open spec fn pool_fee(total: int, fee_bps: int) -> int {
    tdiv(total * fee_bps, 10_000)
}

/// `compute_pools` runs without overflow on these inputs.
pub open spec fn pools_ok(total: int, fee_bps: int) -> bool {
    fits_i128(total * fee_bps) && fits_i128(total - pool_fee(total, fee_bps))
}

/// One bettor's share of the reward pool: zero when any input is zero,
/// otherwise `bet * reward_pool / winning_side`, rounded toward zero.
pub open spec fn payout(bet: int, reward_pool: int, winning_side: int) -> int {
    if bet == 0 || reward_pool == 0 || winning_side == 0 {
        0
    } else {
        tdiv(bet * reward_pool, winning_side)
    }
}

/// `compute_payout` runs without overflow on these inputs.
pub open spec fn payout_ok(bet: int, reward_pool: int, winning_side: int) -> bool {
    bet == 0 || reward_pool == 0 || winning_side == 0 || (fits_i128(bet * reward_pool)
        && div_ok(bet * reward_pool, winning_side))
}

/// The payouts of a list of winning bets, added up.
pub open spec fn payout_total(bets: Seq<i128>, reward_pool: int, winning_side: int) -> int
    decreases bets.len(),
{
    if bets.len() == 0 {
        0
    } else {
        payout_total(bets.drop_last(), reward_pool, winning_side) + payout(
            bets.last() as int,
            reward_pool,
            winning_side,
        )
    }
}

/// Computes the treasury fee and the reward pool of a settled pot; returns
/// `(treasury_fee, reward_pool)`.
pub fn compute_pools(total_amount: i128, fee_bps: u32) -> (r: (i128, i128))
    requires
        pools_ok(total_amount as int, fee_bps as int),
    ensures
        r.0 == pool_fee(total_amount as int, fee_bps as int),
        r.1 == total_amount - r.0,
{
    let product = total_amount.checked_mul(fee_bps as i128);
    let fee = match product {
        Some(p) => {
            let q = p.checked_div(10_000);
            match q {
                Some(f) => f,
                None => {
                    proof {
                        assert(false);
                    }
                    0
                },
            }
        },
        None => {
            proof {
                assert(false);
            }
            0
        },
    };
    proof {
        lemma_tdiv_bounded(total_amount * fee_bps, 10_000);
    }
    (fee, total_amount - fee)
}

/// Computes one bettor's share of the reward pool:
/// `bet_amount * reward_pool / winning_side_amount`, or 0 when any input is 0.
pub fn compute_payout(bet_amount: i128, reward_pool: i128, winning_side_amount: i128) -> (r: i128)
    requires
        payout_ok(bet_amount as int, reward_pool as int, winning_side_amount as int),
    ensures
        r == payout(bet_amount as int, reward_pool as int, winning_side_amount as int),
{
    if bet_amount == 0 || reward_pool == 0 || winning_side_amount == 0 {
        return 0;
    }
    let product = bet_amount.checked_mul(reward_pool);
    match product {
        Some(p) => {
            match p.checked_div(winning_side_amount) {
                Some(q) => q,
                None => {
                    proof {
                        assert(false);
                    }
                    0
                },
            }
        },
        None => {
            proof {
                assert(false);
            }
            0
        },
    }
}

/// Fee and reward pool split the pot: for a nonnegative pot and a fee of at
/// most 100%, the fee lies between zero and the pot, and fee plus reward
/// pool is the whole pot.
pub proof fn lemma_pools_split(total: i128, fee_bps: u32)
    requires
        total >= 0,
        fee_bps <= 10_000,
        pools_ok(total as int, fee_bps as int),
    ensures
        0 <= pool_fee(total as int, fee_bps as int) <= total,
        0 <= total - pool_fee(total as int, fee_bps as int) <= total,
{
    lemma_share_le(fee_bps as int, total as int, 10_000);
    assert(fee_bps * total == total * fee_bps) by (nonlinear_arith);
    if total * fee_bps > 0 {
        lemma_tdiv_nonneg(total * fee_bps, 10_000);
    }
}

/// A winner's payout never exceeds the reward pool, and is never negative,
/// when the bet is part of a positive winning side.
pub proof fn lemma_payout_within_pool(bet: i128, reward_pool: i128, winning_side: i128)
    requires
        0 <= bet <= winning_side,
        winning_side > 0,
        reward_pool >= 0,
    ensures
        0 <= payout(bet as int, reward_pool as int, winning_side as int) <= reward_pool,
{
    lemma_share_le(bet as int, reward_pool as int, winning_side as int);
    if bet * reward_pool > 0 {
        lemma_tdiv_nonneg(bet * reward_pool, winning_side as int);
    }
}

/// On nonnegative inputs the summed payouts are the summed rounded-down
/// shares.
proof fn lemma_payout_total_is_share_sum(bets: Seq<i128>, reward_pool: int, winning_side: int)
    requires
        all_nonneg(bets),
        reward_pool >= 0,
        winning_side > 0,
    ensures
        payout_total(bets, reward_pool, winning_side) == share_sum(bets, reward_pool, winning_side),
    decreases bets.len(),
{
    if bets.len() > 0 {
        let t = bets.drop_last();
        assert forall|i: int| 0 <= i < t.len() implies t[i] >= 0 by {
            assert(t[i] == bets[i]);
        }
        lemma_payout_total_is_share_sum(t, reward_pool, winning_side);
        let b = bets.last() as int;
        assert(b >= 0);
        assert(payout_total(bets, reward_pool, winning_side) == payout_total(t, reward_pool, winning_side)
            + payout(b, reward_pool, winning_side));
        assert(share_sum(bets, reward_pool, winning_side) == share_sum(t, reward_pool, winning_side)
            + (b * reward_pool) / winning_side);
        if b * reward_pool > 0 {
            lemma_tdiv_nonneg(b * reward_pool, winning_side);
            assert(b != 0 && reward_pool != 0) by (nonlinear_arith)
                requires
                    b * reward_pool > 0,
            ;
            assert(payout(b, reward_pool, winning_side) == (b * reward_pool) / winning_side);
        } else {
            assert(b * reward_pool >= 0) by (nonlinear_arith)
                requires
                    b >= 0,
                    reward_pool >= 0,
            ;
            assert(b * reward_pool == 0);
            assert((0int) / winning_side == 0);
            if b != 0 && reward_pool != 0 {
                assert(b * reward_pool != 0) by (nonlinear_arith)
                    requires
                        b != 0,
                        reward_pool != 0,
                ;
            }
            assert(payout(b, reward_pool, winning_side) == 0);
        }
    }
}

/// Conservation: when every winning bet is paid its proportional share of
/// the reward pool, the payouts plus the treasury fee never exceed the pot,
/// and what stays behind as rounding dust is less than one unit per winner.
pub proof fn lemma_payouts_conserve(winning_bets: Seq<i128>, total: i128, fee_bps: u32)
    requires
        all_nonneg(winning_bets),
        sum(winning_bets) > 0,
        sum(winning_bets) <= total,
        fee_bps <= 10_000,
        pools_ok(total as int, fee_bps as int),
    ensures
        ({
            let fee = pool_fee(total as int, fee_bps as int);
            let reward_pool = total - fee;
            let paid = payout_total(winning_bets, reward_pool, sum(winning_bets));
            &&& 0 <= paid <= reward_pool
            &&& paid + fee <= total
            &&& reward_pool - paid < winning_bets.len()
        }),
{
    let fee = pool_fee(total as int, fee_bps as int);
    let reward_pool = total - fee;
    lemma_pools_split(total, fee_bps);
    lemma_payout_total_is_share_sum(winning_bets, reward_pool, sum(winning_bets));
    lemma_shares_of_whole(winning_bets, reward_pool);
}

} // verus!
