//! Division of integers with the quotient rounded to an integer: to the
//! nearest one, downwards, or upwards.

use vstd::arithmetic::div_mod::lemma_fundamental_div_mod;
use vstd::arithmetic::div_mod::lemma_fundamental_div_mod_converse;
use vstd::prelude::*;

verus! {

/// The integer nearest to `x / n`, for a positive `n`; a tie goes away from
/// zero.
pub open spec fn round_div(x: int, n: int) -> int
    recommends
        n > 0,
{
    if x >= 0 {
        (2 * x + n) / (2 * n)
    } else {
        -((n - 2 * x) / (2 * n))
    }
}

/// The largest integer that is at most `x / n`, for a positive `n`.
pub open spec fn floor_div(x: int, n: int) -> int
    recommends
        n > 0,
{
    x / n
}

/// The smallest integer that is at least `x / n`, for a positive `n`.
pub open spec fn ceil_div(x: int, n: int) -> int
    recommends
        n > 0,
{
    -((-x) / n)
}

/// The distance of `x` from zero.
pub open spec fn magnitude(x: int) -> int {
    if x < 0 {
        -x
    } else {
        x
    }
}

/// `round_div` is the nearest integer: `q * n` is at most `n / 2` away from
/// `x`, and where it is exactly that far away, `q` lies on the far side of
/// zero.
pub proof fn lemma_round_div_nearest(x: int, n: int)
    requires
        n > 0,
    ensures
        -n <= 2 * (x - round_div(x, n) * n) <= n,
        x >= 0 ==> 2 * (x - round_div(x, n) * n) < n,
        x < 0 ==> -n < 2 * (x - round_div(x, n) * n),
{
    let d = 2 * n;
    if x >= 0 {
        let y = 2 * x + n;
        lemma_fundamental_div_mod(y, d);
        assert(d * (y / d) == 2 * ((y / d) * n)) by (nonlinear_arith)
            requires
                d == 2 * n,
        ;
    } else {
        let y = n - 2 * x;
        lemma_fundamental_div_mod(y, d);
        assert(d * (y / d) == 2 * ((y / d) * n)) by (nonlinear_arith)
            requires
                d == 2 * n,
        ;
        assert((-(y / d)) * n == -((y / d) * n)) by (nonlinear_arith);
    }
}

/// Any integer as near to `x / n` as `lemma_round_div_nearest` says is the
/// rounded quotient.
pub proof fn lemma_round_div_unique(x: int, n: int, q: int)
    requires
        n > 0,
        -n <= 2 * (x - q * n) <= n,
        x >= 0 ==> 2 * (x - q * n) < n,
        x < 0 ==> -n < 2 * (x - q * n),
    ensures
        round_div(x, n) == q,
{
    let d = 2 * n;
    if x >= 0 {
        let r = 2 * x + n - q * d;
        assert(q * d == 2 * (q * n)) by (nonlinear_arith)
            requires
                d == 2 * n,
        ;
        lemma_fundamental_div_mod_converse(2 * x + n, d, q, r);
    } else {
        let r = n - 2 * x + q * d;
        assert(q * d == 2 * (q * n)) by (nonlinear_arith)
            requires
                d == 2 * n,
        ;
        assert((-q) * d == -(q * d)) by (nonlinear_arith);
        lemma_fundamental_div_mod_converse(n - 2 * x, d, -q, r);
    }
}

/// A multiple of `n` divides without rounding.
pub proof fn lemma_round_div_exact(k: int, n: int)
    requires
        n > 0,
    ensures
        round_div(k * n, n) == k,
{
    assert(k >= 0 ==> k * n >= 0) by (nonlinear_arith)
        requires
            n > 0,
    ;
    assert(k < 0 ==> k * n < 0) by (nonlinear_arith)
        requires
            n > 0,
    ;
    lemma_round_div_unique(k * n, n, k);
}

/// Rounding never moves a quotient further from zero than the dividend is.
pub proof fn lemma_round_div_bound(x: int, n: int)
    requires
        n > 0,
    ensures
        magnitude(round_div(x, n)) <= magnitude(x),
        x >= 0 ==> round_div(x, n) >= 0,
        x <= 0 ==> round_div(x, n) <= 0,
{
    let q = round_div(x, n);
    lemma_round_div_nearest(x, n);
    assert(magnitude(q) <= magnitude(x) && (x >= 0 ==> q >= 0) && (x <= 0 ==> q <= 0))
        by (nonlinear_arith)
        requires
            n > 0,
            -n <= 2 * (x - q * n) <= n,
            x >= 0 ==> 2 * (x - q * n) < n,
            x < 0 ==> -n < 2 * (x - q * n),
    ;
}

/// `floor_div` and `ceil_div` enclose the exact quotient, each less than one
/// away from it.
pub proof fn lemma_floor_ceil_enclose(x: int, n: int)
    requires
        n > 0,
    ensures
        floor_div(x, n) * n <= x < (floor_div(x, n) + 1) * n,
        (ceil_div(x, n) - 1) * n < x <= ceil_div(x, n) * n,
{
    lemma_fundamental_div_mod(x, n);
    lemma_fundamental_div_mod(-x, n);
    let f = x / n;
    let c = (-x) / n;
    assert(n * f == f * n && (f + 1) * n == f * n + n) by (nonlinear_arith);
    assert(n * c == c * n && (-c) * n == -(c * n) && (-c - 1) * n == -(c * n) - n)
        by (nonlinear_arith);
}

/// Rounding to the nearest integer rounds either downwards or upwards.
pub proof fn lemma_round_div_is_directed(x: int, n: int)
    requires
        n > 0,
    ensures
        round_div(x, n) == floor_div(x, n) || round_div(x, n) == ceil_div(x, n),
        floor_div(x, n) <= ceil_div(x, n) <= floor_div(x, n) + 1,
{
    lemma_round_div_nearest(x, n);
    lemma_floor_ceil_enclose(x, n);
    let q = round_div(x, n);
    let f = floor_div(x, n);
    let c = ceil_div(x, n);
    assert((q == f || q == c) && f <= c <= f + 1) by (nonlinear_arith)
        requires
            n > 0,
            -n <= 2 * (x - q * n) <= n,
            x >= 0 ==> 2 * (x - q * n) < n,
            x < 0 ==> -n < 2 * (x - q * n),
            f * n <= x < (f + 1) * n,
            (c - 1) * n < x <= c * n,
    ;
}

/// The dividend's distance from zero, as an unsigned number.
fn unsigned_magnitude(x: i128) -> (m: u128)
    ensures
        m == magnitude(x as int),
{
    if x >= 0 {
        x as u128
    } else if x == i128::MIN {
        0x8000_0000_0000_0000_0000_0000_0000_0000u128
    } else {
        (-x) as u128
    }
}

/// Divides `x` by `n` and rounds the quotient to the nearest integer, a tie
/// away from zero.
pub fn div_round(x: i128, n: i128) -> (q: i128)
    requires
        0 < n,
        2 * magnitude(x as int) + n <= i128::MAX,
    ensures
        q == round_div(x as int, n as int),
{
    let m: u128 = unsigned_magnitude(x);
    let d: u128 = 2 * (n as u128);
    let k: u128 = (2 * m + n as u128) / d;
    proof {
        lemma_round_div_bound(x as int, n as int);
    }
    if x >= 0 {
        k as i128
    } else {
        -(k as i128)
    }
}

/// Divides `x` by `n` and rounds the quotient downwards.
pub fn div_floor(x: i128, n: i128) -> (q: i128)
    requires
        0 < n,
    ensures
        q == floor_div(x as int, n as int),
{
    let m: u128 = unsigned_magnitude(x);
    let d: u128 = n as u128;
    if x >= 0 {
        proof {
            lemma_fundamental_div_mod(x as int, n as int);
            assert(0 <= (x as int) / (n as int) <= x) by (nonlinear_arith)
                requires
                    x >= 0,
                    n > 0,
                    x == n * ((x as int) / (n as int)) + (x as int) % (n as int),
                    0 <= (x as int) % (n as int) < n,
            ;
        }
        (m / d) as i128
    } else {
        let k: u128 = (m - 1) / d;
        proof {
            let y = (m - 1) as int;
            lemma_fundamental_div_mod(y, n as int);
            let s = y % (n as int);
            let t = y / (n as int);
            assert(0 <= t <= y) by (nonlinear_arith)
                requires
                    y >= 0,
                    n > 0,
                    y == n * t + s,
                    0 <= s < n,
            ;
            assert((-(t + 1)) * n + (n - 1 - s) == x) by (nonlinear_arith)
                requires
                    y == n * t + s,
                    x == -(y + 1),
            ;
            lemma_fundamental_div_mod_converse(x as int, n as int, -(t + 1), n - 1 - s);
        }
        -(k as i128) - 1
    }
}

/// Divides `x` by `n` and rounds the quotient upwards.
pub fn div_ceil(x: i128, n: i128) -> (q: i128)
    requires
        0 < n,
        i128::MIN < x,
    ensures
        q == ceil_div(x as int, n as int),
{
    let f = div_floor(-x, n);
    proof {
        lemma_floor_ceil_enclose(-x as int, n as int);
        assert(f >= -magnitude(x as int)) by (nonlinear_arith)
            requires
                n > 0,
                (-x) < (f + 1) * n,
        ;
    }
    -f
}

} // verus!
