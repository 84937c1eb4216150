//! Gross, fee and net profit of one cycle, starting from one unit of the first
//! leg's quote currency.
use vstd::prelude::*;
use vstd::arithmetic::div_mod::{
    lemma_div_denominator,
    lemma_fundamental_div_mod,
    lemma_fundamental_div_mod_converse_div,
};
use crate::market::MAX_PRICE;

verus! {

/// A whole notional (one hundred percent) in percentage units.
pub const ONE_HUNDRED_PERCENT: i128 = 100_000_000_000;

/// The flat fee assumption: 0.1% for each of three legs.
pub const ESTIMATED_FEES: i128 = 300_000_000;

/// `100 * PCT_SCALE * PRICE_SCALE`: scales a sell-closing final amount, which is
/// `bid * PRICE_SCALE / (ask1 * ask2)`, to percentage units.
pub const SELL_NUMERATOR: u128 = 10_000_000_000_000_000_000;

/// `100 * PCT_SCALE * PRICE_SCALE^3`: scales a buy-closing final amount, which is
/// `PRICE_SCALE^3 / (ask1 * ask2 * ask3)`, to percentage units.
pub const BUY_NUMERATOR: u128 = 100_000_000_000_000_000_000_000_000_000_000_000;

/// `n / d` rounded to the nearest integer, halves upward.
pub open spec fn nearest_quotient(n: int, d: int) -> int {
    (2 * n + d) / (2 * d)
}

/// Gross profit, in percentage units rounded to nearest, of buying the first
/// leg at `ask1`, the second at `ask2`, and selling into the closing leg at
/// `bid3`.
pub open spec fn sell_closing_gross(ask1: int, ask2: int, bid3: int) -> int {
    nearest_quotient(SELL_NUMERATOR as int * bid3, ask1 * ask2) - ONE_HUNDRED_PERCENT as int
}

/// Gross profit, in percentage units rounded to nearest, of buying all three
/// legs at their asks.
pub open spec fn buy_closing_gross(ask1: int, ask2: int, ask3: int) -> int {
    nearest_quotient(BUY_NUMERATOR as int, ask1 * ask2 * ask3) - ONE_HUNDRED_PERCENT as int
}

/// Rounding to nearest adds one to the floor exactly when the remainder is at
/// least half the divisor.
proof fn lemma_nearest_by_remainder(n: int, d: int)
    requires
        n >= 0,
        d > 0,
    ensures
        nearest_quotient(n, d) == n / d + if n % d >= d - n % d { 1int } else { 0int },
        0 <= n / d <= n,
{
    lemma_fundamental_div_mod(n, d);
    let q = n / d;
    let r = n % d;
    assert(0 <= r < d);
    if 2 * r >= d {
        assert(2 * n + d == (q + 1) * (2 * d) + (2 * r - d)) by (nonlinear_arith)
            requires n == d * q + r;
        lemma_fundamental_div_mod_converse_div(2 * n + d, 2 * d, q + 1, 2 * r - d);
    } else {
        assert(2 * n + d == q * (2 * d) + (2 * r + d)) by (nonlinear_arith)
            requires n == d * q + r;
        lemma_fundamental_div_mod_converse_div(2 * n + d, 2 * d, q, 2 * r + d);
    }
    assert(0 <= q) by (nonlinear_arith)
        requires n == d * q + r, 0 <= r < d, d >= 1, n >= 0;
    assert(q <= n) by (nonlinear_arith)
        requires n == d * q + r, 0 <= r, d >= 1, q >= 0;
}

/// Rounding `n / d` to nearest is half of one more than the floor of `2n / d`.
proof fn lemma_nearest_by_double(n: int, d: int)
    requires
        n >= 0,
        d > 0,
    ensures
        nearest_quotient(n, d) == ((2 * n) / d + 1) / 2,
        0 <= nearest_quotient(n, d) <= n,
{
    lemma_fundamental_div_mod(2 * n, d);
    let f = (2 * n) / d;
    let s = (2 * n) % d;
    assert(0 <= s < d);
    lemma_fundamental_div_mod(f + 1, 2);
    let k = (f + 1) / 2;
    let e = (f + 1) % 2;
    assert(2 * n + d == k * (2 * d) + (e * d + s)) by (nonlinear_arith)
        requires 2 * n == d * f + s, f + 1 == 2 * k + e;
    assert(0 <= e * d + s < 2 * d) by (nonlinear_arith)
        requires 0 <= e <= 1, 0 <= s < d;
    lemma_fundamental_div_mod_converse_div(2 * n + d, 2 * d, k, e * d + s);
    assert(0 <= f) by (nonlinear_arith)
        requires 2 * n == d * f + s, 0 <= s < d, d >= 1, n >= 0;
    assert(f <= 2 * n) by (nonlinear_arith)
        requires 2 * n == d * f + s, 0 <= s, d >= 1, f >= 0;
    assert(0 <= k);
    assert(k <= n || n == 0) by (nonlinear_arith)
        requires f + 1 == 2 * k + e, 0 <= e <= 1, f <= 2 * n, 0 <= f, n >= 0;
    if n == 0 {
        assert(f == 0) by (nonlinear_arith)
            requires 0 == d * f + s, 0 <= s < d, d >= 1, f >= 0;
    }
}

/// A sell-closing gross profit lies between a total loss and what the largest
/// bid can give.
pub proof fn lemma_sell_gross_range(ask1: int, ask2: int, bid3: int)
    requires
        0 < ask1,
        0 < ask2,
        0 <= bid3 <= MAX_PRICE,
    ensures
        -ONE_HUNDRED_PERCENT <= sell_closing_gross(ask1, ask2, bid3),
        sell_closing_gross(ask1, ask2, bid3) <= SELL_NUMERATOR * MAX_PRICE + 1,
{
    let n = SELL_NUMERATOR as int * bid3;
    let d = ask1 * ask2;
    assert(d >= 1) by (nonlinear_arith)
        requires d == ask1 * ask2, ask1 > 0, ask2 > 0;
    assert(0 <= n <= SELL_NUMERATOR * MAX_PRICE) by (nonlinear_arith)
        requires n == SELL_NUMERATOR as int * bid3, 0 <= bid3 <= MAX_PRICE;
    lemma_nearest_by_remainder(n, d);
}

/// A buy-closing gross profit lies between a total loss and the profit of
/// three asks of one unit each.
pub proof fn lemma_buy_gross_range(ask1: int, ask2: int, ask3: int)
    requires
        0 < ask1,
        0 < ask2,
        0 < ask3,
    ensures
        -ONE_HUNDRED_PERCENT <= buy_closing_gross(ask1, ask2, ask3) <= BUY_NUMERATOR,
{
    let d = ask1 * ask2 * ask3;
    assert(d >= 1) by (nonlinear_arith)
        requires d == ask1 * ask2 * ask3, ask1 > 0, ask2 > 0, ask3 > 0;
    lemma_nearest_by_double(BUY_NUMERATOR as int, d);
}

/// The exact product of two asks.
fn wide_product(a: u64, b: u64) -> (r: u128)
    ensures
        r == a as int * b as int,
{
    proof {
        assert(a as int * b as int <= u64::MAX as int * u64::MAX as int) by (nonlinear_arith)
            requires a <= u64::MAX, b <= u64::MAX, a >= 0, b >= 0;
    }
    (a as u128) * (b as u128)
}

/// Gross profit of a cycle that closes by selling into a bid.
pub fn sell_closing_profit(ask1: u64, ask2: u64, bid3: u64) -> (r: i128)
    requires
        ask1 > 0,
        ask2 > 0,
        bid3 <= MAX_PRICE,
    ensures
        r == sell_closing_gross(ask1 as int, ask2 as int, bid3 as int),
        r >= -ONE_HUNDRED_PERCENT,
{
    let d: u128 = wide_product(ask1, ask2);
    proof {
        assert(0 < d) by (nonlinear_arith)
            requires d == ask1 as int * ask2 as int, ask1 > 0, ask2 > 0;
        assert(SELL_NUMERATOR as int * bid3 as int <= SELL_NUMERATOR * MAX_PRICE) by (nonlinear_arith)
            requires bid3 <= MAX_PRICE;
        lemma_nearest_by_remainder(SELL_NUMERATOR as int * bid3 as int, d as int);
    }
    let n: u128 = SELL_NUMERATOR * (bid3 as u128);
    let q: u128 = n / d;
    let r: u128 = n % d;
    let nearest: u128 = if r >= d - r { q + 1 } else { q };
    (nearest as i128) - ONE_HUNDRED_PERCENT
}

/// Gross profit of a cycle that closes by buying at an ask.
pub fn buy_closing_profit(ask1: u64, ask2: u64, ask3: u64) -> (r: i128)
    requires
        ask1 > 0,
        ask2 > 0,
        ask3 > 0,
    ensures
        r == buy_closing_gross(ask1 as int, ask2 as int, ask3 as int),
        r >= -ONE_HUNDRED_PERCENT,
{
    let d: u128 = wide_product(ask1, ask2);
    let twice: u128 = 2 * BUY_NUMERATOR;
    proof {
        assert(0 < d) by (nonlinear_arith)
            requires d == ask1 as int * ask2 as int, ask1 > 0, ask2 > 0;
        lemma_div_denominator(twice as int, d as int, ask3 as int);
        assert(ask1 as int * ask2 as int * ask3 as int == d as int * ask3 as int);
        lemma_nearest_by_double(BUY_NUMERATOR as int, d as int * ask3 as int);
        let (n, c, e) = (twice as int, d as int, ask3 as int);
        assert(n / c <= n) by (nonlinear_arith)
            requires c >= 1, n >= 0;
        assert((n / c) / e <= n / c) by (nonlinear_arith)
            requires e >= 1, n / c >= 0;
    }
    let f: u128 = (twice / d) / (ask3 as u128);
    let nearest: u128 = (f + 1) / 2;
    (nearest as i128) - ONE_HUNDRED_PERCENT
}

} // verus!
