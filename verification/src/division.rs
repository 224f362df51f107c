//! Integer division as the market contracts perform it, and the bounds on
//! sums of rounded-down shares that every payout argument relies on.
use vstd::prelude::*;
use vstd::arithmetic::div_mod::lemma_fundamental_div_mod;
use vstd::arithmetic::div_mod::lemma_fundamental_div_mod_converse;

verus! {

/// Rust's `/` on signed integers: the quotient rounded toward zero.
pub open spec fn tdiv(x: int, d: int) -> int {
    if x == 0 {
        0
    } else if x > 0 && d > 0 {
        x / d
    } else if x < 0 && d < 0 {
        (x * -1) / (d * -1)
    } else if x < 0 {
        ((x * -1) / d) * -1
    } else {
        (x / (d * -1)) * -1
    }
}

/// A value fits in an `i128`.
pub open spec fn fits_i128(x: int) -> bool {
    i128::MIN <= x <= i128::MAX
}

/// `checked_div` on `i128` succeeds: a nonzero divisor and no overflow.
pub open spec fn div_ok(x: int, d: int) -> bool {
    d != 0 && fits_i128(tdiv(x, d))
}

/// The sum of a sequence of amounts.
pub open spec fn sum(s: Seq<i128>) -> int
    decreases s.len(),
{
    if s.len() == 0 {
        0
    } else {
        sum(s.drop_last()) + s.last()
    }
}

/// Every element of the sequence is at least zero.
pub open spec fn all_nonneg(s: Seq<i128>) -> bool {
    forall|i: int| 0 <= i < s.len() ==> s[i] >= 0
}

/// The sum of the rounded-down shares `s[i] * d / w`.
pub open spec fn share_sum(s: Seq<i128>, d: int, w: int) -> int
    decreases s.len(),
{
    if s.len() == 0 {
        0
    } else {
        share_sum(s.drop_last(), d, w) + (s.last() * d) / w
    }
}

/// For nonnegative numerators and a positive divisor, rounding toward zero
/// is rounding down.
pub proof fn lemma_tdiv_nonneg(x: int, d: int)
    requires
        x >= 0,
        d > 0,
    ensures
        tdiv(x, d) == x / d,
        x / d >= 0,
        x / d <= x,
{
    lemma_fundamental_div_mod(x, d);
    assert(x / d >= 0 && x / d <= x) by (nonlinear_arith)
        requires
            x >= 0,
            d > 0,
            x == d * (x / d) + x % d,
            0 <= x % d < d,
    ;
}

/// Rounding down loses less than one unit per term: the quotient of a sum
/// is the sum of quotients, or one more.
pub proof fn lemma_floor_add(x: int, y: int, w: int)
    requires
        w > 0,
    ensures
        x / w + y / w <= (x + y) / w,
        (x + y) / w <= x / w + y / w + 1,
{
    lemma_fundamental_div_mod(x, w);
    lemma_fundamental_div_mod(y, w);
    let q = x / w + y / w;
    let r = x % w + y % w;
    assert(x + y == w * q + r) by (nonlinear_arith)
        requires
            x == w * (x / w) + x % w,
            y == w * (y / w) + y % w,
            q == x / w + y / w,
            r == x % w + y % w,
    ;
    if r < w {
        lemma_fundamental_div_mod_converse(x + y, w, q, r);
    } else {
        assert(x + y == w * (q + 1) + (r - w)) by (nonlinear_arith)
            requires
                x + y == w * q + r,
        ;
        lemma_fundamental_div_mod_converse(x + y, w, q + 1, r - w);
    }
}

/// A share of at most the whole is at most the amount shared out.
pub proof fn lemma_share_le(a: int, d: int, w: int)
    requires
        0 <= a <= w,
        d >= 0,
        w > 0,
    ensures
        0 <= (a * d) / w <= d,
{
    assert(0 <= a * d <= w * d) by (nonlinear_arith)
        requires
            0 <= a <= w,
            d >= 0,
    ;
    lemma_fundamental_div_mod(a * d, w);
    assert(0 <= (a * d) / w <= d) by (nonlinear_arith)
        requires
            0 <= a * d <= w * d,
            a * d == w * ((a * d) / w) + (a * d) % w,
            0 <= (a * d) % w < w,
            w > 0,
    ;
}

/// The whole, shared in proportion, gives back exactly the amount shared.
pub proof fn lemma_share_whole(d: int, w: int)
    requires
        w > 0,
    ensures
        (w * d) / w == d,
{
    assert(w * d == d * w) by (nonlinear_arith);
    lemma_fundamental_div_mod_converse(w * d, w, d, 0);
}

/// Adding one element to a sequence adds it to the sum.
pub proof fn lemma_sum_push(s: Seq<i128>, x: i128)
    ensures
        sum(s.push(x)) == sum(s) + x,
{
    assert(s.push(x).drop_last() =~= s);
}

/// A sum of nonnegative amounts is nonnegative.
pub proof fn lemma_sum_nonneg(s: Seq<i128>)
    requires
        all_nonneg(s),
    ensures
        sum(s) >= 0,
    decreases s.len(),
{
    if s.len() > 0 {
        lemma_sum_nonneg(s.drop_last());
    }
}

/// Rounded-down shares of nonnegative parts never add up to more than the
/// rounded-down share of the whole, and fall short of it by less than one
/// unit per part.
pub proof fn lemma_share_sum_bounds(s: Seq<i128>, d: int, w: int)
    requires
        all_nonneg(s),
        d >= 0,
        w > 0,
    ensures
        share_sum(s, d, w) <= (sum(s) * d) / w,
        s.len() > 0 ==> (sum(s) * d) / w <= share_sum(s, d, w) + s.len() - 1,
        share_sum(s, d, w) >= 0,
    decreases s.len(),
{
    if s.len() > 0 {
        let t = s.drop_last();
        lemma_share_sum_bounds(t, d, w);
        let x = s.last();
        assert((sum(t) + x) * d == sum(t) * d + x * d) by (nonlinear_arith);
        lemma_floor_add(sum(t) * d, x * d, w);
        lemma_sum_nonneg(t);
        assert(x * d >= 0) by (nonlinear_arith)
            requires
                x >= 0,
                d >= 0,
        ;
        lemma_fundamental_div_mod(x * d, w);
        assert((x * d) / w >= 0) by (nonlinear_arith)
            requires
                x * d >= 0,
                w > 0,
                x * d == w * ((x * d) / w) + (x * d) % w,
                0 <= (x * d) % w < w,
        ;
        if t.len() == 0 {
            assert(sum(t) == 0);
            assert(share_sum(t, d, w) == 0);
            assert(sum(t) * d == 0);
            assert((0int) / w == 0);
        }
    }
}

/// When the parts make up the whole divisor, their rounded-down shares of
/// `d` add up to at most `d`, and to more than `d` less the number of parts.
pub proof fn lemma_shares_of_whole(s: Seq<i128>, d: int)
    requires
        all_nonneg(s),
        d >= 0,
        sum(s) > 0,
    ensures
        0 <= share_sum(s, d, sum(s)) <= d,
        d - share_sum(s, d, sum(s)) < s.len(),
{
    lemma_share_sum_bounds(s, d, sum(s));
    lemma_share_whole(d, sum(s));
    if s.len() == 0 {
        assert(sum(s) == 0);
    }
}

/// Divides by a positive divisor; `checked_div` cannot fail there.
pub fn div_pos(x: i128, d: i128) -> (r: i128)
    requires
        d > 0,
    ensures
        r == tdiv(x as int, d as int),
{
    proof {
        lemma_tdiv_bounded(x as int, d as int);
    }
    match x.checked_div(d) {
        Some(q) => q,
        None => {
            proof {
                assert(false);
            }
            0
        },
    }
}

/// Multiplies two amounts that are known not to overflow.
pub fn mul_fits(x: i128, y: i128) -> (r: i128)
    requires
        fits_i128(x * y),
    ensures
        r == x * y,
{
    match x.checked_mul(y) {
        Some(p) => p,
        None => {
            proof {
                assert(false);
            }
            0
        },
    }
}


/// Dividing by a positive divisor of at least one never grows a value's
/// magnitude, so the quotient fits wherever the dividend does.
pub proof fn lemma_tdiv_bounded(x: int, d: int)
    requires
        d >= 1,
        fits_i128(x),
    ensures
        fits_i128(tdiv(x, d)),
        x >= 0 ==> 0 <= tdiv(x, d) <= x,
        x <= 0 ==> x <= tdiv(x, d) <= 0,
{
    if x > 0 {
        lemma_tdiv_nonneg(x, d);
    } else if x < 0 {
        lemma_tdiv_nonneg(-x, d);
        assert(x * -1 == -x);
    }
}


} // verus!
