//! Units, limits and the integer arithmetic the rest of the crate is built on.

use vstd::prelude::*;

verus! {

/// Micrometres in one metre: every length in this crate is a whole number of micrometres.
pub const METRE: i64 = 1_000_000;

/// Largest magnitude of a coordinate, a wall separation or a radius that the
/// geometry accepts (2^40 micrometres, about 1100 km).
pub const COORD_LIMIT: i64 = 1_099_511_627_776;

/// The search for a receiver covers distances up to this one (10 m).
pub const OUTER: i64 = 10_000_000;

/// Both coordinates of the answer of a search that had no candidate (-20 m).
pub const NOWHERE: i64 = -20_000_000;

/// Largest magnitude of a coordinate between which distances are taken (2^62).
pub const REACH: i64 = 0x4000_0000_0000_0000;

/// Absolute value.
pub open spec fn magnitude(v: int) -> int {
    if v < 0 {
        -v
    } else {
        v
    }
}

/// `r` is the integer part of the square root of `n`.
pub open spec fn is_floor_sqrt(n: int, r: int) -> bool {
    0 <= r && r * r <= n && n < (r + 1) * (r + 1)
}

/// The integer part of the square root of `n` (for `n >= 0`).
pub open spec fn floor_sqrt(n: int) -> int {
    choose|r: int| is_floor_sqrt(n, r)
}

/// Every number from zero up has an integer square root.
pub proof fn lemma_floor_sqrt_exists(n: int)
    requires
        0 <= n,
    ensures
        is_floor_sqrt(n, floor_sqrt(n)),
    decreases n,
{
    if n == 0 {
        assert(is_floor_sqrt(0, 0));
    } else {
        lemma_floor_sqrt_exists(n - 1);
        let r = floor_sqrt(n - 1);
        if (r + 1) * (r + 1) <= n {
            assert((r + 2) * (r + 2) > (r + 1) * (r + 1)) by (nonlinear_arith)
                requires
                    0 <= r,
            ;
            assert(is_floor_sqrt(n, r + 1));
        } else {
            assert(is_floor_sqrt(n, r));
        }
    }
}

/// A number has at most one integer square root.
pub proof fn lemma_floor_sqrt_unique(n: int, r1: int, r2: int)
    requires
        is_floor_sqrt(n, r1),
        is_floor_sqrt(n, r2),
    ensures
        r1 == r2,
{
    if r1 < r2 {
        assert((r1 + 1) * (r1 + 1) <= r2 * r2) by (nonlinear_arith)
            requires
                0 <= r1,
                r1 + 1 <= r2,
        ;
    } else if r2 < r1 {
        assert((r2 + 1) * (r2 + 1) <= r1 * r1) by (nonlinear_arith)
            requires
                0 <= r2,
                r2 + 1 <= r1,
        ;
    }
}

/// Integer square root, rounded down.
pub fn isqrt(n: u128) -> (r: u64)
    ensures
        is_floor_sqrt(n as int, r as int),
        r as int == floor_sqrt(n as int),
{
    let mut lo: u128 = 0;
    let mut hi: u128 = 18_446_744_073_709_551_616;
    assert(n < hi * hi) by (nonlinear_arith)
        requires
            hi == 18_446_744_073_709_551_616u128,
            n <= u128::MAX,
    ;
    while hi - lo > 1
        invariant
            lo < hi <= 18_446_744_073_709_551_616u128,
            lo * lo <= n,
            n < hi * hi,
        decreases hi - lo,
    {
        let mid: u128 = lo + (hi - lo) / 2;
        assert(mid * mid <= u128::MAX) by (nonlinear_arith)
            requires
                mid <= 18_446_744_073_709_551_615u128,
        ;
        if mid * mid <= n {
            lo = mid;
        } else {
            hi = mid;
        }
    }
    let r: u64 = lo as u64;
    proof {
        assert(is_floor_sqrt(n as int, r as int));
        lemma_floor_sqrt_unique(n as int, r as int, floor_sqrt(n as int));
    }
    r
}

/// Quotient rounded towards minus infinity.
pub fn div_floor(a: i128, b: i128) -> (q: i128)
    requires
        b > 0,
    ensures
        q == a / b,
{
    if a >= 0 {
        a / b
    } else {
        let m: i128 = -(a + 1);
        let k: i128 = m / b;
        proof {
            lemma_floor_of_negative(a as int, b as int);
        }
        -k - 1
    }
}

/// For a negative numerator, rounding down is one below the negated quotient of the mirrored numerator.
pub proof fn lemma_floor_of_negative(a: int, b: int)
    requires
        a < 0,
        b > 0,
    ensures
        a / b == -((-(a + 1)) / b) - 1,
        a % b == b - 1 - (-(a + 1)) % b,
{
    let m = -(a + 1);
    let k = m / b;
    let r = m % b;
    vstd::arithmetic::div_mod::lemma_fundamental_div_mod(m, b);
    assert(m == b * k + r);
    assert(0 <= r < b);
    // a = -m - 1 = b * (-k - 1) + (b - 1 - r)
    assert(a == b * (-k - 1) + (b - 1 - r)) by (nonlinear_arith)
        requires
            a == -m - 1,
            m == b * k + r,
    ;
    vstd::arithmetic::div_mod::lemma_fundamental_div_mod_converse(a, b, -k - 1, b - 1 - r);
}

/// Remainder in `0 .. b`, whatever the sign of `a`.
pub fn mod_floor(a: i128, b: i128) -> (r: i128)
    requires
        b > 0,
    ensures
        r == a % b,
        0 <= r < b,
{
    if a >= 0 {
        a % b
    } else {
        let m: i128 = -(a + 1);
        proof {
            lemma_floor_of_negative(a as int, b as int);
        }
        b - 1 - m % b
    }
}

/// Quotient rounded towards plus infinity.
pub open spec fn ceil_div(a: int, b: int) -> int {
    -((-a) / b)
}

/// Quotient rounded towards plus infinity.
pub fn div_ceil(a: i128, b: i128) -> (q: i128)
    requires
        b > 0,
        a > i128::MIN,
    ensures
        q == ceil_div(a as int, b as int),
{
    let f: i128 = div_floor(-a, b);
    proof {
        lemma_quotient_bound(-a as int, b as int);
    }
    -f
}

/// A quotient by a positive divisor is no larger in magnitude than the numerator.
pub proof fn lemma_quotient_bound(a: int, b: int)
    requires
        b > 0,
    ensures
        a >= 0 ==> 0 <= a / b <= a,
        a < 0 ==> a <= a / b < 0,
{
    vstd::arithmetic::div_mod::lemma_fundamental_div_mod(a, b);
    let q = a / b;
    let r = a % b;
    assert(0 <= r < b);
    if a >= 0 {
        assert(0 <= q <= a) by (nonlinear_arith)
            requires
                a == b * q + r,
                0 <= r < b,
                b > 0,
                a >= 0,
        ;
    } else {
        assert(a <= q < 0) by (nonlinear_arith)
            requires
                a == b * q + r,
                0 <= r < b,
                b > 0,
                a < 0,
        ;
    }
}

/// A quotient rounded down is below `m` exactly if the numerator is below `m` times the divisor.
pub proof fn lemma_floor_below(a: int, d: int, m: int)
    requires
        d > 0,
    ensures
        a / d < m <==> a < m * d,
{
    vstd::arithmetic::div_mod::lemma_fundamental_div_mod(a, d);
    let q = a / d;
    let r = a % d;
    assert(0 <= r < d);
    if q < m {
        assert(a < m * d) by (nonlinear_arith)
            requires
                a == d * q + r,
                0 <= r < d,
                q + 1 <= m,
        ;
    } else {
        assert(a >= m * d) by (nonlinear_arith)
            requires
                a == d * q + r,
                0 <= r < d,
                q >= m,
        ;
    }
}

/// Of two multiples of a positive step, the smaller has the smaller factor.
pub proof fn lemma_scaled_order(a: int, b: int, s: int)
    requires
        s > 0,
        a * s < b * s,
    ensures
        a < b,
{
    assert(a < b) by (nonlinear_arith)
        requires
            s > 0,
            a * s < b * s,
    ;
}

} // verus!
