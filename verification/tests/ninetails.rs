use wick::ninetails::{boosted_shares, fee_amount, loser_payout, winner_payout};

const LOCK: u64 = 180;
const FEE: u32 = 200;
const T0: u64 = 1_000_000;

#[test]
fn boosted_early_beats_late() {
    let early = boosted_shares(1_000_000_000, T0, T0 + LOCK);
    let late = boosted_shares(1_000_000_000, T0 + 170, T0 + LOCK);
    assert!(early > late, "early bettor should have more boosted shares");
}

#[test]
fn boosted_shares_exact_values() {
    assert_eq!(boosted_shares(1_000_000_000, T0, T0 + LOCK), 180_000_000_000);
    assert_eq!(boosted_shares(1_000_000_000, T0 + 170, T0 + LOCK), 10_000_000_000);
    // At or after the lock a bet carries no boost.
    assert_eq!(boosted_shares(1_000_000_000, T0 + LOCK, T0 + LOCK), 0);
    assert_eq!(boosted_shares(1_000_000_000, T0 + LOCK + 5, T0 + LOCK), 0);
}

#[test]
fn winner_payout_includes_base() {
    // A winner always gets at least their stake back.
    let payout = winner_payout(500_000_000, 200_000_000, 1000, 2000, 3000);
    assert!(payout >= 500_000_000, "winner should receive at least their stake");
}

#[test]
fn winner_payout_exact_value() {
    // 70% of 200M = 140M, times 1000/2000 = 70M; 30% of 200M = 60M, times 1000/3000 = 20M.
    assert_eq!(winner_payout(500_000_000, 200_000_000, 1000, 2000, 3000), 590_000_000);
    // No boosted shares anywhere: the stake alone.
    assert_eq!(winner_payout(500_000_000, 200_000_000, 0, 0, 0), 500_000_000);
}

#[test]
fn loser_gets_partial_refund() {
    // A loser receives 30% of distributed in proportion to early-entry boost.
    let payout = loser_payout(300_000_000, 500, 1000);
    // = 300M * 30% * 500/1000 = 300M * 0.15 = 45M
    assert_eq!(payout, 45_000_000);
}

#[test]
fn loser_payout_zero_global() {
    assert_eq!(loser_payout(300_000_000, 0, 0), 0);
}

#[test]
fn fee_amount_exact_values() {
    assert_eq!(fee_amount(300_000_000, FEE), 6_000_000);
    assert_eq!(fee_amount(999, 300), 29);
    assert_eq!(fee_amount(0, 500), 0);
}

#[test]
fn conservation_winner_plus_losers_eq_total() {
    // One winner (500 XLM), one loser (300 XLM), both bet at t=0.
    let total = 800_000_000i128;
    let losing_pool = 300_000_000i128;
    let fee = fee_amount(losing_pool, FEE);
    let distributed = losing_pool - fee;

    let w_boosted = 500_000_000i128 * LOCK as i128;
    let l_boosted = 300_000_000i128 * LOCK as i128;
    let global = w_boosted + l_boosted;

    let w_pay = winner_payout(500_000_000, distributed, w_boosted, w_boosted, global);
    let l_pay = loser_payout(distributed, l_boosted, global);

    let sum = w_pay + l_pay;
    assert!(sum + fee <= total, "conservation violated: sum={sum} fee={fee} total={total}");
    // Dust should be small.
    let dust = total - sum - fee;
    assert!(dust < 1000, "unexpected dust: {dust}");
}

#[test]
fn conservation_multiple_bettors() {
    let winning = [(500_000_000i128, T0), (300_000_000i128, T0 + 60), (200_000_000i128, T0 + 120)];
    let losing = [(400_000_000i128, T0 + 30), (150_000_000i128, T0 + 90)];

    let pool_win: i128 = winning.iter().map(|(a, _)| a).sum();
    let pool_lose: i128 = losing.iter().map(|(a, _)| a).sum();
    let total = pool_win + pool_lose;

    let fee = fee_amount(pool_lose, FEE);
    let distributed = pool_lose - fee;

    let win_b = [
        boosted_shares(winning[0].0, winning[0].1, T0 + LOCK),
        boosted_shares(winning[1].0, winning[1].1, T0 + LOCK),
        boosted_shares(winning[2].0, winning[2].1, T0 + LOCK),
    ];
    let lose_b = [
        boosted_shares(losing[0].0, losing[0].1, T0 + LOCK),
        boosted_shares(losing[1].0, losing[1].1, T0 + LOCK),
    ];

    let total_win_b: i128 = win_b.iter().sum();
    let total_lose_b: i128 = lose_b.iter().sum();
    let global = total_win_b + total_lose_b;

    let mut total_out = fee;
    for (i, (amt, _)) in winning.iter().enumerate() {
        total_out += winner_payout(*amt, distributed, win_b[i], total_win_b, global);
    }
    for (i, _) in losing.iter().enumerate() {
        total_out += loser_payout(distributed, lose_b[i], global);
    }

    assert!(total_out <= total, "overpaid: total_out={total_out} total={total}");
}
