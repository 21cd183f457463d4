//! Fixed-point plane vectors and the exact arithmetic the engines share.

use vstd::prelude::*;

verus! {

/// Grid steps per world unit.
pub const UNIT: i64 = 1000;

/// Largest magnitude of a bound coordinate, of a velocity component and of
/// a radius measured in grid steps.
pub const LIMIT: i64 = 100_000_000;

/// A vector of the plane, in grid steps.
#[derive(Clone, Copy, Debug, PartialEq, Eq, Structural)]
pub struct Vec2 {
    pub x: i64,
    pub y: i64,
}

/// `v` limited to the interval from `lo` to `hi`: raised to `lo` first and
/// lowered to `hi` afterwards, so that `hi` wins where the interval is empty.
pub open spec fn clamp_int(v: int, lo: int, hi: int) -> int {
    let raised = if v < lo { lo } else { v };
    if raised > hi { hi } else { raised }
}

/// The quotient of `n` by a positive `d`, rounded toward zero.
pub open spec fn div_toward_zero(n: int, d: int) -> int {
    if n >= 0 {
        n / d
    } else {
        -((-n) / d)
    }
}

impl Vec2 {
    /// Both components lie within `limit` of zero.
    pub open spec fn within(self, limit: int) -> bool {
        &&& -limit <= self.x <= limit
        &&& -limit <= self.y <= limit
    }

    /// The squared Euclidean length.
    pub open spec fn length_squared(self) -> int {
        self.x * self.x + self.y * self.y
    }

    /// The squared Euclidean distance to `other`.
    pub open spec fn distance_squared(self, other: Vec2) -> int {
        (self.x - other.x) * (self.x - other.x) + (self.y - other.y) * (self.y - other.y)
    }

    /// The vector of the two components.
    pub fn new(x: i64, y: i64) -> (v: Vec2)
        ensures
            v == (Vec2 { x, y }),
    {
        Vec2 { x, y }
    }
}

/// The product of two bounded integers is bounded by the product of the bounds.
pub proof fn lemma_product_bound(a: int, b: int, bound_a: int, bound_b: int)
    requires
        -bound_a <= a <= bound_a,
        -bound_b <= b <= bound_b,
    ensures
        -(bound_a * bound_b) <= a * b <= bound_a * bound_b,
{
    assert(-(bound_a * bound_b) <= a * b <= bound_a * bound_b) by (nonlinear_arith)
        requires
            -bound_a <= a <= bound_a,
            -bound_b <= b <= bound_b,
    ;
}

/// Rounding toward zero never increases a magnitude, and dividing by a
/// larger divisor than the factor that was multiplied in keeps the bound.
pub proof fn lemma_div_toward_zero_bound(n: int, d: int, bound: int)
    requires
        d > 0,
        bound >= 0,
        -(bound * d) <= n <= bound * d,
    ensures
        -bound <= div_toward_zero(n, d) <= bound,
{
    if n >= 0 {
        assert(n / d <= bound) by (nonlinear_arith)
            requires
                d > 0,
                0 <= n <= bound * d,
        ;
        assert(n / d >= 0) by (nonlinear_arith)
            requires
                d > 0,
                0 <= n,
        ;
    } else {
        assert((-n) / d <= bound) by (nonlinear_arith)
            requires
                d > 0,
                0 <= -n <= bound * d,
        ;
        assert((-n) / d >= 0) by (nonlinear_arith)
            requires
                d > 0,
                0 <= -n,
        ;
    }
}

/// Rounding toward zero commutes with negation.
pub proof fn lemma_div_toward_zero_odd(n: int, d: int)
    requires
        d > 0,
    ensures
        div_toward_zero(-n, d) == -div_toward_zero(n, d),
{
    if n == 0 {
        assert(0int / d == 0) by (nonlinear_arith)
            requires
                d > 0,
        ;
    }
}

/// A multiple of the divisor is divided without a remainder.
pub proof fn lemma_exact_quotient(q: int, d: int)
    requires
        d > 0,
    ensures
        div_toward_zero(q * d, d) == q,
{
    if q >= 0 {
        assert(q * d >= 0 && (q * d) / d == q) by (nonlinear_arith)
            requires
                q >= 0,
                d > 0,
        ;
    } else {
        assert(q * d < 0 && -(q * d) == (-q) * d && ((-q) * d) / d == -q) by (nonlinear_arith)
            requires
                q < 0,
                d > 0,
        ;
    }
}

/// Limits `v` to the interval from `lo` to `hi`, `hi` winning where the
/// interval is empty.
pub fn clamp(v: i128, lo: i64, hi: i64) -> (r: i64)
    ensures
        r as int == clamp_int(v as int, lo as int, hi as int),
{
    let raised: i128 = if v < lo as i128 { lo as i128 } else { v };
    if raised > hi as i128 {
        hi
    } else {
        raised as i64
    }
}

/// Divides `n` by a positive `d`, rounding toward zero.
pub fn divide(n: i128, d: i128) -> (q: i128)
    requires
        d > 0,
        n > i128::MIN,
    ensures
        q as int == div_toward_zero(n as int, d as int),
        n >= 0 ==> 0 <= q <= n,
        n < 0 ==> n <= q <= 0,
{
    if n >= 0 {
        let q: i128 = n / d;
        assert(0 <= q <= n) by (nonlinear_arith)
            requires
                q == n / d,
                n >= 0,
                d > 0,
        ;
        q
    } else {
        let m: i128 = -n;
        let q: i128 = m / d;
        assert(0 <= q <= m) by (nonlinear_arith)
            requires
                q == m / d,
                m >= 0,
                d > 0,
        ;
        -q
    }
}

/// Multiplies two integers whose magnitudes are known to stay within
/// `bound_a` and `bound_b`.
pub(crate) fn product(
    a: i128,
    b: i128,
    Ghost(bound_a): Ghost<int>,
    Ghost(bound_b): Ghost<int>,
) -> (p: i128)
    requires
        -bound_a <= a <= bound_a,
        -bound_b <= b <= bound_b,
        bound_a * bound_b <= i128::MAX,
    ensures
        p as int == a as int * b as int,
        -(bound_a * bound_b) <= p <= bound_a * bound_b,
{
    proof {
        lemma_product_bound(a as int, b as int, bound_a, bound_b);
    }
    a * b
}

} // verus!
