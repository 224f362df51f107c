use wick::math::{compute_payout, compute_pools};

// ── compute_pools ─────────────────────────────────────────────────────────────

#[test]
fn pools_300bps() {
    let (fee, pool) = compute_pools(1_000_000_000, 300);
    assert_eq!(fee, 30_000_000);
    assert_eq!(pool, 970_000_000);
}

#[test]
fn pools_zero_amount() {
    let (fee, pool) = compute_pools(0, 300);
    assert_eq!(fee, 0);
    assert_eq!(pool, 0);
}

#[test]
fn pools_zero_fee() {
    let total = 500_000_000i128;
    let (fee, pool) = compute_pools(total, 0);
    assert_eq!(fee, 0);
    assert_eq!(pool, total);
}

#[test]
fn pools_fee_truncates_toward_zero() {
    // 999 * 300 / 10_000 = 29.97 -> 29; the pool keeps the remainder.
    let (fee, pool) = compute_pools(999, 300);
    assert_eq!(fee, 29);
    assert_eq!(pool, 970);
}

#[test]
fn pools_negative_total_truncates_toward_zero() {
    // Division truncates toward zero, as Rust's `/` does.
    let (fee, pool) = compute_pools(-999, 300);
    assert_eq!(fee, -29);
    assert_eq!(pool, -970);
}

#[test]
fn pools_split_law_on_values() {
    for &(total, bps) in &[(1i128, 1u32), (12_345_678, 250), (10_000, 10_000), (7, 9_999)] {
        let (fee, pool) = compute_pools(total, bps);
        assert_eq!(fee + pool, total);
        assert!(fee >= 0 && fee <= total);
    }
}

// ── compute_payout ────────────────────────────────────────────────────────────

#[test]
fn payout_proportional() {
    // 3 bettors on winning side: 100, 200, 300 stroops.  Pool = 900.
    let pool = 900i128;
    let winning_side = 600i128;
    assert_eq!(compute_payout(100, pool, winning_side), 150);
    assert_eq!(compute_payout(200, pool, winning_side), 300);
    assert_eq!(compute_payout(300, pool, winning_side), 450);
}

#[test]
fn payout_zero_inputs() {
    assert_eq!(compute_payout(0, 1000, 500), 0);
    assert_eq!(compute_payout(100, 0, 500), 0);
    assert_eq!(compute_payout(100, 1000, 0), 0);
}

#[test]
fn payout_rounds_down() {
    // 1 * 10 / 3 = 3.33 -> 3
    assert_eq!(compute_payout(1, 10, 3), 3);
    assert_eq!(compute_payout(2, 10, 3), 6);
}

#[test]
fn payout_within_pool_on_values() {
    let pool = 776_000_000i128;
    let side = 500_000_000i128;
    for &bet in &[1i128, 123_456, 250_000_000, 500_000_000] {
        let p = compute_payout(bet, pool, side);
        assert!(p >= 0 && p <= pool);
    }
}

// ── Conservation invariant ────────────────────────────────────────────────────

#[test]
fn conservation_simple() {
    let total = 1_000_000_000i128;
    let (fee, pool) = compute_pools(total, 300);

    // Suppose up side = 600_000_000, down side loses.
    let winning_side = 600_000_000i128;
    let bettors = [100_000_000i128, 200_000_000i128, 300_000_000i128];

    let sum_payouts: i128 = bettors
        .iter()
        .map(|&b| compute_payout(b, pool, winning_side))
        .sum();

    assert!(
        sum_payouts + fee <= total,
        "invariant violated: sum_payouts={sum_payouts} fee={fee} total={total}"
    );
}

#[test]
fn conservation_many_small_bettors() {
    // 1000 bettors of 1_000_000 each; total = 1_000_000_000
    let n = 1000i128;
    let per_bet = 1_000_000i128;
    let total = n * per_bet;
    let (fee, pool) = compute_pools(total, 300);

    // All on winning side.
    let winning_side = total;
    let sum_payouts: i128 = (0..n).map(|_| compute_payout(per_bet, pool, winning_side)).sum();

    assert!(
        sum_payouts + fee <= total,
        "invariant violated with many bettors"
    );
    // Dust should be tiny (≤ n stroops).
    let dust = total - sum_payouts - fee;
    assert!(dust <= n, "unexpected dust amount: {dust}");
}

#[test]
fn conservation_extreme_pool_split() {
    // One winner with 1 stroop; losers had 999_999_999 stroops.
    let total = 1_000_000_000i128;
    let (fee, pool) = compute_pools(total, 300);
    let winning_side = 1i128;

    let payout = compute_payout(1, pool, winning_side);

    // payout can't exceed pool.
    assert!(payout <= pool, "payout {payout} exceeds pool {pool}");
    assert!(payout + fee <= total);
}

#[test]
fn conservation_fuzz() {
    let cases: &[(i128, u32, i128)] = &[
        (1, 300, 1),
        (100, 0, 50),
        (100, 10_000, 50),
        (1_000_000_000_000_000i128, 300, 500_000_000_000_000),
        (1_000_000_000_000_000_000i128, 300, 500_000_000_000_000_000),
        (99_999_999_999i128, 150, 75_000_000_000),
        (7, 300, 4),
        (1_000_000, 300, 1),
        (1_000_000, 300, 999_999),
    ];

    for &(total, fee_bps, winning_units) in cases {
        if total <= 0 || winning_units <= 0 || winning_units > total {
            continue;
        }
        let (fee, pool) = compute_pools(total, fee_bps);
        let _losing_units = total - winning_units;
        // A single bettor holding all the winning side.
        let payout = compute_payout(winning_units, pool, winning_units);
        assert!(
            payout + fee <= total,
            "invariant violated: total={total} fee_bps={fee_bps} winning={winning_units} payout={payout} fee={fee}"
        );
        // Split into two equal bettors on winning side.
        let half = winning_units / 2;
        let p1 = compute_payout(half, pool, winning_units);
        let p2 = compute_payout(winning_units - half, pool, winning_units);
        assert!(p1 + p2 + fee <= total, "split invariant violated");
    }
}

#[test]
fn conservation_extreme_values() {
    let total = 1_000_000_000_000_000_000i128; // 10^18 stroops
    let (fee, pool) = compute_pools(total, 300);
    assert!(fee >= 0 && pool >= 0);
    assert!(fee + pool <= total);

    let payout = compute_payout(total / 2, pool, total / 2);
    assert!(payout + fee <= total);

    // The fee calculation does not overflow at 9_999 bps.
    let (fee2, pool2) = compute_pools(total, 9_999);
    assert!(fee2 + pool2 <= total);
}

#[test]
fn test_math_conservation_invariant_quick() {
    // Keep values ≤ 1e18 so bet_amount * pool < i128::MAX.
    let cases: &[(i128, u32, i128)] = &[
        (1_000_000_000, 300, 500_000_000),
        (999_999_999, 300, 333_333_333),
        (100, 9999, 1),
        (1_000_000_000_000_000_000i128, 300, 500_000_000_000_000_000),
    ];

    for &(total, fee_bps, winning_side) in cases {
        if winning_side <= 0 || winning_side > total {
            continue;
        }
        let (fee, pool) = compute_pools(total, fee_bps);
        let payout = compute_payout(winning_side, pool, winning_side);
        assert!(
            payout + fee <= total,
            "invariant violated: total={total} fee_bps={fee_bps} payout={payout} fee={fee}"
        );
    }
}
