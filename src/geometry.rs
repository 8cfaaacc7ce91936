use vstd::prelude::*;

verus! {

/// A position or a velocity on the pixel grid.
#[derive(Clone, Copy, Debug, PartialEq, Eq, Structural)]
pub struct Point {
    pub x: i64,
    pub y: i64,
}

impl Point {
    pub fn new(x: i64, y: i64) -> (r: Point)
        ensures
            r.x == x,
            r.y == y,
    {
        Point { x, y }
    }
}

/// The linear map from `[start1, stop1]` onto `[start2, stop2]`, rounded
/// down to the grid; it extrapolates beyond the input range.
pub open spec fn map_spec(value: int, start1: int, stop1: int, start2: int, stop2: int) -> int {
    start2 + ((value - start1) * (stop2 - start2) * sgn(stop1 - start1)) / abs(stop1 - start1)
}

pub open spec fn sgn(v: int) -> int {
    if v < 0 { -1 } else { 1 }
}

pub open spec fn abs(v: int) -> int {
    if v < 0 { -v } else { v }
}

/// Maps `value` from the range `[start1, stop1]` to `[start2, stop2]`.
pub fn map(value: i32, start1: i32, stop1: i32, start2: i32, stop2: i32) -> (r: i64)
    requires
        start1 != stop1,
        i64::MIN <= map_spec(value as int, start1 as int, stop1 as int, start2 as int, stop2 as int) <= i64::MAX,
    ensures
        r == map_spec(value as int, start1 as int, stop1 as int, start2 as int, stop2 as int),
{
    let d: i128 = stop1 as i128 - start1 as i128;
    let num0: i128 = value as i128 - start1 as i128;
    let span: i128 = stop2 as i128 - start2 as i128;
    proof {
        vstd::arithmetic::mul::lemma_mul_upper_bound(abs(num0 as int), 0x1_0000_0000, abs(span as int), 0x1_0000_0000);
        assert(abs(num0 as int) * abs(span as int) == abs(num0 * span)) by (nonlinear_arith);
    }
    let prod: i128 = num0 * span;
    let (num, den): (i128, i128) = if d < 0 { (-prod, -d) } else { (prod, d) };
    let q: i128 = div_floor(num, den);
    (start2 as i128 + q) as i64
}

/// Division rounded towards negative infinity.
pub fn div_floor(num: i128, den: i128) -> (q: i128)
    requires
        den > 0,
        -0x1_0000_0000_0000_0000_0000 <= num <= 0x1_0000_0000_0000_0000_0000,
    ensures
        q == num as int / den as int,
{
    if num >= 0 {
        ((num as u128) / (den as u128)) as i128
    } else {
        let m: u128 = (-num) as u128;
        let qq: u128 = (m + den as u128 - 1) / (den as u128);
        proof {
            lemma_neg_floor_div(num as int, den as int);
        }
        -(qq as i128)
    }
}

proof fn lemma_neg_floor_div(n: int, d: int)
    requires
        n < 0,
        d > 0,
    ensures
        n / d == -((-n + d - 1) / d),
        (-n + d - 1) / d <= -n,
{
    assert(-n + d - 1 <= (-n) * d) by (nonlinear_arith)
        requires
            n < 0,
            d > 0,
    ;
    vstd::arithmetic::div_mod::lemma_div_is_ordered(-n + d - 1, (-n) * d, d);
    vstd::arithmetic::div_mod::lemma_div_multiples_vanish(-n, d);
    assert(d * (-n) == (-n) * d) by (nonlinear_arith);
    let m = -n;
    let q = (m + d - 1) / d;
    let r = (m + d - 1) % d;
    vstd::arithmetic::div_mod::lemma_fundamental_div_mod(m + d - 1, d);
    assert(m + d - 1 == d * q + r);
    assert(0 <= r < d);
    // n = -m = -(d*q + r - d + 1) = d*(-q) + (d - 1 - r)
    assert(n == d * (-q) + (d - 1 - r)) by (nonlinear_arith)
        requires
            m + d - 1 == d * q + r,
            n == -m,
    ;
    assert(n == (-q) * d + (d - 1 - r)) by (nonlinear_arith)
        requires
            n == d * (-q) + (d - 1 - r),
    ;
    vstd::arithmetic::div_mod::lemma_fundamental_div_mod_converse(n, d, -q, d - 1 - r);
}

proof fn lemma_div_abs(n: int, d: int)
    requires
        d >= 1,
    ensures
        -abs(n) <= n / d <= abs(n),
        d * abs(n / d) <= abs(n) + d,
{
    vstd::arithmetic::div_mod::lemma_fundamental_div_mod(n, d);
    if n >= 0 {
        vstd::arithmetic::div_mod::lemma_div_is_ordered(0, n, d);
        vstd::arithmetic::div_mod::lemma_div_is_ordered_by_denominator(n, 1, d);
        assert(d * (n / d) <= n);
    } else {
        lemma_neg_floor_div(n, d);
        vstd::arithmetic::div_mod::lemma_div_is_ordered(n, 0, d);
        assert(d * (n / d) + n % d == n);
        assert(-(d * (n / d)) == d * (-(n / d))) by (nonlinear_arith);
    }
}

/// How far the map can carry a value from `start2`: within the input
/// distance scaled by the ratio of the spans, plus one for rounding.
pub proof fn lemma_map_bound(value: int, start1: int, stop1: int, start2: int, stop2: int)
    requires
        start1 != stop1,
    ensures
        abs(stop1 - start1) * abs(map_spec(value, start1, stop1, start2, stop2) - start2)
            <= abs(value - start1) * abs(stop2 - start2) + abs(stop1 - start1),
{
    let n = (value - start1) * (stop2 - start2) * sgn(stop1 - start1);
    let d = abs(stop1 - start1);
    lemma_div_abs(n, d);
    assert(abs(n) == abs(value - start1) * abs(stop2 - start2)) by (nonlinear_arith)
        requires
            n == (value - start1) * (stop2 - start2) * sgn(stop1 - start1),
    ;
}

/// The map sends the ends of the input range to the ends of the output range.
pub proof fn lemma_map_endpoints(start1: int, stop1: int, start2: int, stop2: int)
    requires
        start1 != stop1,
    ensures
        map_spec(start1, start1, stop1, start2, stop2) == start2,
        map_spec(stop1, start1, stop1, start2, stop2) == stop2,
{
    let d = abs(stop1 - start1);
    assert(d > 0);
    assert((stop1 - start1) * sgn(stop1 - start1) == d);
    assert((start1 - start1) * (stop2 - start2) * sgn(stop1 - start1) == 0) by (nonlinear_arith);
    assert((stop1 - start1) * (stop2 - start2) * sgn(stop1 - start1) == (stop2 - start2) * d)
        by (nonlinear_arith)
        requires
            (stop1 - start1) * sgn(stop1 - start1) == d,
    ;
    vstd::arithmetic::div_mod::lemma_div_multiples_vanish(stop2 - start2, d);
    assert(d * (stop2 - start2) == (stop2 - start2) * d) by (nonlinear_arith);
}

/// The map is affine: moving the input by whole input spans moves the
/// output by as many output spans.
pub proof fn lemma_map_shift(value: int, k: int, start1: int, stop1: int, start2: int, stop2: int)
    requires
        start1 != stop1,
    ensures
        map_spec(value + k * (stop1 - start1), start1, stop1, start2, stop2)
            == map_spec(value, start1, stop1, start2, stop2) + k * (stop2 - start2),
{
    let s = sgn(stop1 - start1);
    let d = abs(stop1 - start1);
    let n = (value - start1) * (stop2 - start2) * s;
    assert((stop1 - start1) * s == d);
    assert((value + k * (stop1 - start1) - start1) * (stop2 - start2) * s
        == n + (k * (stop2 - start2)) * d) by (nonlinear_arith)
        requires
            (stop1 - start1) * s == d,
            n == (value - start1) * (stop2 - start2) * s,
    ;
    vstd::arithmetic::div_mod::lemma_hoist_over_denominator(n, k * (stop2 - start2), d as nat);
}

} // verus!
