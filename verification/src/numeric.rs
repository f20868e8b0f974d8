//! Fixed-point arithmetic on non-negative decimal numbers.
//!
//! Every derived figure of a table (an average, a ratio, a percentage) is a
//! decimal number with four digits after the point. Such a number is held as
//! the whole number of its ten-thousandths, so `1.8363` is held as `18363`.
//! Rounding to four digits is then rounding a quotient to a whole number,
//! which is done exactly, a tie going up.

use vstd::arithmetic::div_mod::lemma_fundamental_div_mod_converse;
use vstd::prelude::*;

verus! {

/// How many ten-thousandths make one.
pub const SCALE: u128 = 10_000;

/// How many ten-thousandths of a percent make one: a hundred times `SCALE`.
pub const PERCENT_SCALE: u128 = 1_000_000;

/// `num / den`, rounded to the nearest whole number, a tie going up.
pub open spec fn round_div(num: int, den: int) -> int
    recommends
        num >= 0,
        den > 0,
{
    (2 * num + den) / (2 * den)
}

/// The rounded quotient lies within a half of the exact one:
/// `2 * den * round_div(num, den)` is more than `2 * num - den` and at most
/// `2 * num + den`.
pub proof fn lemma_round_div_is_nearest(num: int, den: int)
    requires
        num >= 0,
        den > 0,
    ensures
        round_div(num, den) >= 0,
        2 * num - den < 2 * den * round_div(num, den) <= 2 * num + den,
{
    let x = 2 * num + den;
    let d = 2 * den;
    vstd::arithmetic::div_mod::lemma_fundamental_div_mod(x, d);
    vstd::arithmetic::div_mod::lemma_mod_bound(x, d);
    vstd::arithmetic::div_mod::lemma_div_pos_is_pos(x, d);
}

/// A rounded quotient of whole numbers is no more than what was divided.
pub proof fn lemma_round_div_bounded(num: int, den: int)
    requires
        num >= 0,
        den > 0,
    ensures
        0 <= round_div(num, den) <= num,
{
    lemma_round_div_is_nearest(num, den);
    let q = round_div(num, den);
    assert(q <= num) by (nonlinear_arith)
        requires
            num >= 0,
            den >= 1,
            q >= 0,
            2 * den * q <= 2 * num + den,
    ;
}

/// Dividing more gives no less.
pub proof fn lemma_round_div_grows(low: int, high: int, den: int)
    requires
        0 <= low <= high,
        den > 0,
    ensures
        round_div(low, den) <= round_div(high, den),
{
    vstd::arithmetic::div_mod::lemma_div_is_ordered(2 * low + den, 2 * high + den, 2 * den);
}

/// A number over itself is one: `SCALE` ten-thousandths.
pub proof fn lemma_round_div_of_equals(num: int)
    requires
        num > 0,
    ensures
        round_div(num * SCALE, num) == SCALE,
{
    assert(2 * (num * SCALE) + num == SCALE * (2 * num) + num) by (nonlinear_arith);
    lemma_fundamental_div_mod_converse(2 * (num * SCALE) + num, 2 * num, SCALE as int, num);
}

/// Divides and rounds to the nearest whole number, a tie going up.
pub fn divide_rounded(num: u128, den: u128) -> (quotient: u128)
    requires
        den > 0,
    ensures
        quotient == round_div(num as int, den as int),
{
    let q = num / den;
    let r = num % den;
    proof {
        assert(num == den * q + r && 0 <= r < den) by (nonlinear_arith)
            requires
                den > 0,
                q == num / den,
                r == num % den,
        ;
        if r >= den - r {
            assert(2 * num + den == (q + 1) * (2 * den) + (2 * r - den)) by (nonlinear_arith)
                requires
                    num == den * q + r,
            ;
            lemma_fundamental_div_mod_converse(
                2 * num + den,
                2 * den,
                q + 1,
                2 * r - den,
            );
            assert(q + 1 <= u128::MAX) by (nonlinear_arith)
                requires
                    num == den * q + r,
                    num <= u128::MAX,
                    den > 0,
                    r >= den - r,
                    0 <= r,
                    0 <= q,
            ;
        } else {
            assert(2 * num + den == q * (2 * den) + (2 * r + den)) by (nonlinear_arith)
                requires
                    num == den * q + r,
            ;
            lemma_fundamental_div_mod_converse(2 * num + den, 2 * den, q as int, 2 * r + den);
        }
    }
    if r >= den - r {
        q + 1
    } else {
        q
    }
}

/// The average of `count` measurements that sum to `total`, in
/// ten-thousandths, rounded. There is none of no measurements.
pub fn calc_average(total: u64, count: usize) -> (average: Option<u128>)
    ensures
        count == 0 ==> average is None,
        count > 0 ==> average == Some(round_div(total * SCALE, count as int) as u128),
        count > 0 ==> average->0 == round_div(total * SCALE, count as int),
{
    if count == 0 {
        return None;
    }
    assert(total * SCALE <= u128::MAX) by (nonlinear_arith)
        requires
            total <= u64::MAX,
            SCALE == 10_000,
    ;
    Some(divide_rounded(total as u128 * SCALE, count as u128))
}

} // verus!
