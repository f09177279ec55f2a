//! Fixed-point trigonometry on whole microradians.
//!
//! Cosine and sine are truncated Taylor series evaluated in Horner form on
//! the first quadrant and mirrored into the others; the bearing of a point is
//! found by bisection against those same series, so that the two agree.

use vstd::prelude::*;
use crate::units::{lemma_quotient_bound, magnitude, mod_floor};

verus! {

/// Half a turn in microradians.
pub const PI: i64 = 3_141_593;

/// A full turn in microradians.
pub const TAU: i64 = 6_283_186;

/// The largest whole number of microradians in a quarter turn.
pub const QUARTER: i64 = 1_570_796;

/// The value that stands for 1 in a cosine or a sine (2^30).
pub const TRIG_ONE: i64 = 1_073_741_824;

/// Number of Horner levels of both series.
pub const TERMS: i64 = 8;

/// Square microradians in one square radian.
pub const SQUARE: i64 = 1_000_000_000_000;

/// Microradians in one radian.
pub const MICRO: i64 = 1_000_000;

/// Ratio of consecutive cosine terms, `(2k+1)(2k+2)`, in square microradians.
pub open spec fn cos_step(k: int) -> int {
    (2 * k + 1) * (2 * k + 2) * SQUARE
}

/// Ratio of consecutive sine terms, `(2k+2)(2k+3)`, in square microradians.
pub open spec fn sin_step(k: int) -> int {
    (2 * k + 2) * (2 * k + 3) * SQUARE
}

/// Horner tail of the cosine series from level `k`, for the squared angle `t`:
/// `1 - t/((2k+1)(2k+2)) * (1 - t/((2k+3)(2k+4)) * (...))`, each quotient rounded down.
pub open spec fn cos_tail(t: int, k: int) -> int
    decreases TERMS - k,
{
    if k >= TERMS {
        TRIG_ONE as int
    } else {
        TRIG_ONE - (t * cos_tail(t, k + 1)) / cos_step(k)
    }
}

/// Horner tail of the series of `sin(x)/x` from level `k`, for the squared angle `t`.
pub open spec fn sin_tail(t: int, k: int) -> int
    decreases TERMS - k,
{
    if k >= TERMS {
        TRIG_ONE as int
    } else {
        TRIG_ONE - (t * sin_tail(t, k + 1)) / sin_step(k)
    }
}

/// Cosine of `x` microradians, `0 <= x <= QUARTER`, in parts of `TRIG_ONE`.
pub open spec fn cos_series(x: int) -> int {
    cos_tail(x * x, 0)
}

/// Sine of `x` microradians, `0 <= x <= QUARTER`, in parts of `TRIG_ONE`.
pub open spec fn sin_series(x: int) -> int {
    (x * sin_tail(x * x, 0)) / (MICRO as int)
}

/// Cosine and sine of an angle in the upper half turn, `0 <= r <= PI`.
pub open spec fn half_turn_spec(r: int) -> (int, int) {
    if r <= QUARTER {
        (cos_series(r), sin_series(r))
    } else {
        (-cos_series(PI - r), sin_series(PI - r))
    }
}

/// Cosine and sine of any angle, in parts of `TRIG_ONE`: the angle is taken
/// modulo a full turn, and the lower half turn mirrors the upper one.
pub open spec fn direction_spec(angle: int) -> (int, int) {
    let r = angle % (TAU as int);
    if r <= PI {
        half_turn_spec(r)
    } else {
        (half_turn_spec(TAU - r).0, -half_turn_spec(TAU - r).1)
    }
}

/// A product of two bounded factors, divided by the bound of the first, stays within the bound of the second.
pub proof fn lemma_scaled_part(t: int, u: int, d: int, bound: int)
    requires
        0 <= t <= d,
        0 < d,
        0 <= u <= bound,
    ensures
        0 <= (t * u) / d <= bound,
{
    assert(0 <= t * u <= d * bound) by (nonlinear_arith)
        requires
            0 <= t <= d,
            0 <= u <= bound,
    ;
    lemma_quotient_bound(t * u, d);
    vstd::arithmetic::div_mod::lemma_div_is_ordered(t * u, d * bound, d);
    vstd::arithmetic::div_mod::lemma_div_multiples_vanish(bound, d);
}

fn cos_step_of(k: i128) -> (d: i128)
    requires
        0 <= k < TERMS,
    ensures
        d == cos_step(k as int),
        2 * SQUARE <= d <= 240 * SQUARE,
        k >= 1 ==> 12 * SQUARE <= d,
{
    assert(2 <= (2 * k + 1) * (2 * k + 2) <= 240 && (k >= 1 ==> 12 <= (2 * k + 1) * (2 * k + 2)))
        by (nonlinear_arith)
        requires
            0 <= k < 8,
    ;
    let a: i128 = (2 * k + 1) * (2 * k + 2);
    assert(a * SQUARE == a * 1_000_000_000_000) by (nonlinear_arith)
        requires
            SQUARE == 1_000_000_000_000,
    ;
    a * (SQUARE as i128)
}

fn sin_step_of(k: i128) -> (d: i128)
    requires
        0 <= k < TERMS,
    ensures
        d == sin_step(k as int),
        6 * SQUARE <= d <= 272 * SQUARE,
{
    assert(6 <= (2 * k + 2) * (2 * k + 3) <= 272) by (nonlinear_arith)
        requires
            0 <= k < 8,
    ;
    let a: i128 = (2 * k + 2) * (2 * k + 3);
    assert(a * SQUARE == a * 1_000_000_000_000) by (nonlinear_arith)
        requires
            SQUARE == 1_000_000_000_000,
    ;
    a * (SQUARE as i128)
}

/// Cosine and sine of a first-quadrant angle.
pub fn series(x: i64) -> (r: (i64, i64))
    requires
        0 <= x <= QUARTER,
    ensures
        r.0 == cos_series(x as int),
        r.1 == sin_series(x as int),
        -TRIG_ONE <= r.0 <= TRIG_ONE,
        0 <= r.1 <= 2 * TRIG_ONE,
{
    assert(0 <= x * x <= 2_467_400_073_616) by (nonlinear_arith)
        requires
            0 <= x <= 1_570_796,
    ;
    let t: i128 = (x as i128) * (x as i128);
    let one: i128 = TRIG_ONE as i128;
    let mut u: i128 = one;
    let mut w: i128 = one;
    let mut k: i128 = TERMS as i128;
    while k > 1
        invariant
            1 <= k <= TERMS,
            one == TRIG_ONE,
            0 <= t <= 2_467_400_073_616,
            u == cos_tail(t as int, k as int),
            w == sin_tail(t as int, k as int),
            0 <= u <= one,
            0 <= w <= one,
        decreases k,
    {
        k = k - 1;
        let dc: i128 = cos_step_of(k);
        let ds: i128 = sin_step_of(k);
        proof {
            lemma_scaled_part(t as int, u as int, dc as int, one as int);
            lemma_scaled_part(t as int, w as int, ds as int, one as int);
            assert(0 <= t * u <= 2_467_400_073_616 * 1_073_741_824) by (nonlinear_arith)
                requires
                    0 <= t <= 2_467_400_073_616,
                    0 <= u <= 1_073_741_824,
            ;
            assert(0 <= t * w <= 2_467_400_073_616 * 1_073_741_824) by (nonlinear_arith)
                requires
                    0 <= t <= 2_467_400_073_616,
                    0 <= w <= 1_073_741_824,
            ;
        }
        u = one - (t * u) / dc;
        w = one - (t * w) / ds;
    }
    let dc: i128 = cos_step_of(0);
    let ds: i128 = sin_step_of(0);
    proof {
        assert(0 <= t * u <= 2_467_400_073_616 * 1_073_741_824) by (nonlinear_arith)
            requires
                0 <= t <= 2_467_400_073_616,
                0 <= u <= 1_073_741_824,
        ;
        assert(0 <= t * w <= 2_467_400_073_616 * 1_073_741_824) by (nonlinear_arith)
            requires
                0 <= t <= 2_467_400_073_616,
                0 <= w <= 1_073_741_824,
        ;
        lemma_quotient_bound(t * u, dc as int);
        vstd::arithmetic::div_mod::lemma_div_is_ordered(
            t * u,
            2_467_400_073_616int * 1_073_741_824int,
            dc as int,
        );
        assert((2_467_400_073_616 * 1_073_741_824int) / 2_000_000_000_000 <= 2 * TRIG_ONE);
        lemma_scaled_part(t as int, w as int, ds as int, one as int);
    }
    let c: i128 = one - (t * u) / dc;
    let w0: i128 = one - (t * w) / ds;
    proof {
        assert(0 <= x * w0 <= 1_570_796 * 1_073_741_824) by (nonlinear_arith)
            requires
                0 <= x <= 1_570_796,
                0 <= w0 <= 1_073_741_824,
        ;
        lemma_quotient_bound(x * w0, MICRO as int);
        vstd::arithmetic::div_mod::lemma_div_is_ordered(
            x * w0,
            2 * TRIG_ONE * MICRO,
            MICRO as int,
        );
        vstd::arithmetic::div_mod::lemma_div_multiples_vanish(2 * TRIG_ONE, MICRO as int);
    }
    let s: i128 = ((x as i128) * w0) / (MICRO as i128);
    (c as i64, s as i64)
}

fn half_turn(r: i64) -> (p: (i64, i64))
    requires
        0 <= r <= PI,
    ensures
        p.0 == half_turn_spec(r as int).0,
        p.1 == half_turn_spec(r as int).1,
        -TRIG_ONE <= p.0 <= TRIG_ONE,
        0 <= p.1 <= 2 * TRIG_ONE,
{
    if r <= QUARTER {
        series(r)
    } else {
        let cs: (i64, i64) = series(PI - r);
        (-cs.0, cs.1)
    }
}

/// Cosine and sine of `angle` microradians, in parts of `TRIG_ONE`.
pub fn direction(angle: i64) -> (p: (i64, i64))
    ensures
        p.0 == direction_spec(angle as int).0,
        p.1 == direction_spec(angle as int).1,
        -TRIG_ONE <= p.0 <= TRIG_ONE,
        -2 * TRIG_ONE <= p.1 <= 2 * TRIG_ONE,
{
    let r: i64 = mod_floor(angle as i128, TAU as i128) as i64;
    if r <= PI {
        half_turn(r)
    } else {
        let cs: (i64, i64) = half_turn(TAU - r);
        (cs.0, -cs.1)
    }
}

/// Both series tails are exactly one at angle zero.
pub proof fn lemma_tails_at_zero(k: int)
    requires
        0 <= k <= TERMS,
    ensures
        cos_tail(0, k) == TRIG_ONE,
        sin_tail(0, k) == TRIG_ONE,
    decreases TERMS - k,
{
    if k < TERMS {
        lemma_tails_at_zero(k + 1);
        assert(cos_step(k) > 0 && sin_step(k) > 0) by (nonlinear_arith)
            requires
                0 <= k,
                cos_step(k) == (2 * k + 1) * (2 * k + 2) * 1_000_000_000_000,
                sin_step(k) == (2 * k + 2) * (2 * k + 3) * 1_000_000_000_000,
        ;
        lemma_quotient_bound(0, cos_step(k));
        lemma_quotient_bound(0, sin_step(k));
    }
}

/// At angle zero the cosine is exactly one and the sine exactly zero.
pub proof fn lemma_direction_at_zero()
    ensures
        direction_spec(0) == (TRIG_ONE as int, 0int),
{
    lemma_tails_at_zero(0);
    lemma_quotient_bound(0, MICRO as int);
    assert(0 * sin_tail(0, 0) == 0) by (nonlinear_arith);
}

/// A full turn more or less changes nothing.
pub proof fn lemma_direction_periodic(angle: int)
    ensures
        direction_spec(angle + TAU) == direction_spec(angle),
        direction_spec(angle - TAU) == direction_spec(angle),
{
    assert((angle + 6_283_186) % 6_283_186 == angle % 6_283_186);
    assert((angle - 6_283_186) % 6_283_186 == angle % 6_283_186);
}

/// Turning the other way mirrors the direction in the x axis: the cosine
/// stays and the sine changes its sign.
pub proof fn lemma_direction_mirror(angle: int)
    ensures
        direction_spec(-angle).0 == direction_spec(angle).0,
        direction_spec(-angle).1 == -direction_spec(angle).1,
{
    let r = angle % 6_283_186;
    let m = (-angle) % 6_283_186;
    assert(r + m == 0 || r + m == 6_283_186);
    lemma_direction_at_zero();
    assert(sin_series(0) == 0);
}

/// Whether the first-quadrant point `(x, y)` lies on, or counter-clockwise
/// of, the ray at `theta` microradians: the sign of the cross product of the
/// ray's unit vector with the point.
pub open spec fn leans_left(x: int, y: int, theta: int) -> bool {
    y * cos_series(theta) - x * sin_series(theta) >= 0
}

/// Bisection between `lo`, a ray the point leans left of, and `hi`, one it
/// does not: the ray at which the search ends.
pub open spec fn crossing(x: int, y: int, lo: int, hi: int) -> int
    decreases hi - lo,
{
    if hi - lo <= 1 {
        lo
    } else {
        let mid = lo + (hi - lo) / 2;
        if leans_left(x, y, mid) {
            crossing(x, y, mid, hi)
        } else {
            crossing(x, y, lo, mid)
        }
    }
}

/// Bearing of a first-quadrant point, `0 ..= QUARTER`.
pub open spec fn quadrant_bearing(x: int, y: int) -> int {
    crossing(x, y, 0, QUARTER + 1)
}

/// Polar angle of the point `(x, y)` in microradians, `-PI ..= PI`; 0 at the origin.
/// The first-quadrant bearing of `(|x|, |y|)` is mirrored into the point's quadrant.
pub open spec fn bearing_spec(x: int, y: int) -> int {
    let a = quadrant_bearing(magnitude(x), magnitude(y));
    if x == 0 && y == 0 {
        0
    } else if y >= 0 {
        if x >= 0 {
            a
        } else {
            PI - a
        }
    } else {
        if x >= 0 {
            -a
        } else {
            a - PI
        }
    }
}

/// Bisection ends on a ray that the point leans left of, whose successor it
/// does not lean left of.
pub proof fn lemma_crossing_brackets(x: int, y: int, lo: int, hi: int)
    requires
        0 <= lo < hi <= QUARTER + 1,
        leans_left(x, y, lo),
        hi <= QUARTER ==> !leans_left(x, y, hi),
    ensures
        lo <= crossing(x, y, lo, hi) < hi,
        leans_left(x, y, crossing(x, y, lo, hi)),
        crossing(x, y, lo, hi) < QUARTER ==> !leans_left(x, y, crossing(x, y, lo, hi) + 1),
    decreases hi - lo,
{
    if hi - lo > 1 {
        let mid = lo + (hi - lo) / 2;
        if leans_left(x, y, mid) {
            lemma_crossing_brackets(x, y, mid, hi);
        } else {
            lemma_crossing_brackets(x, y, lo, mid);
        }
    }
}

/// The bearing of a first-quadrant point is a ray of the quadrant that the
/// point leans left of, and the next ray, one microradian on, is one that it
/// does not lean left of: the two series bracket the point.
pub proof fn lemma_bearing_brackets(x: int, y: int)
    requires
        0 <= x,
        0 <= y,
    ensures
        0 <= quadrant_bearing(x, y) <= QUARTER,
        leans_left(x, y, quadrant_bearing(x, y)),
        quadrant_bearing(x, y) < QUARTER ==> !leans_left(x, y, quadrant_bearing(x, y) + 1),
{
    lemma_tails_at_zero(0);
    lemma_quotient_bound(0, MICRO as int);
    assert(cos_series(0) == TRIG_ONE);
    assert(sin_series(0) == 0);
    assert(y * cos_series(0) >= 0) by (nonlinear_arith)
        requires
            y >= 0,
            cos_series(0) == 1_073_741_824,
    ;
    assert(x * sin_series(0) == 0) by (nonlinear_arith)
        requires
            sin_series(0) == 0,
    ;
    lemma_crossing_brackets(x, y, 0, QUARTER + 1);
}

fn quadrant_bearing_of(x: i128, y: i128) -> (a: i64)
    requires
        0 <= x <= 0x8000_0000_0000_0000,
        0 <= y <= 0x8000_0000_0000_0000,
    ensures
        a == quadrant_bearing(x as int, y as int),
        0 <= a <= QUARTER,
{
    let mut lo: i64 = 0;
    let mut hi: i64 = QUARTER + 1;
    while hi - lo > 1
        invariant
            0 <= lo < hi <= QUARTER + 1,
            0 <= x <= 0x8000_0000_0000_0000,
            0 <= y <= 0x8000_0000_0000_0000,
            crossing(x as int, y as int, lo as int, hi as int) == quadrant_bearing(
                x as int,
                y as int,
            ),
        decreases hi - lo,
    {
        let mid: i64 = lo + (hi - lo) / 2;
        let cs: (i64, i64) = series(mid);
        let c: i128 = cs.0 as i128;
        let s: i128 = cs.1 as i128;
        assert(-0x2000_0000_0000_0000_0000_0000 <= y * c <= 0x2000_0000_0000_0000_0000_0000
            && 0 <= x * s <= 0x4000_0000_0000_0000_0000_0000) by (nonlinear_arith)
            requires
                0 <= x <= 0x8000_0000_0000_0000,
                0 <= y <= 0x8000_0000_0000_0000,
                -0x4000_0000 <= c <= 0x4000_0000,
                0 <= s <= 0x8000_0000,
        ;
        if y * c - x * s >= 0 {
            lo = mid;
        } else {
            hi = mid;
        }
    }
    lo
}

/// Polar angle of the point `(x, y)` in microradians.
pub fn bearing(x: i64, y: i64) -> (a: i64)
    ensures
        a == bearing_spec(x as int, y as int),
        -PI <= a <= PI,
{
    if x == 0 && y == 0 {
        return 0;
    }
    let ax: i128 = if x < 0 {
        -(x as i128)
    } else {
        x as i128
    };
    let ay: i128 = if y < 0 {
        -(y as i128)
    } else {
        y as i128
    };
    let a: i64 = quadrant_bearing_of(ax, ay);
    if y >= 0 {
        if x >= 0 {
            a
        } else {
            PI - a
        }
    } else {
        if x >= 0 {
            -a
        } else {
            a - PI
        }
    }
}

} // verus!
