//! Points on quadratic and cubic curves.
//!
//! A curve is replaced by [`CURVE_STEPS`] straight segments. The points between
//! them are the ones that double precision gives for the parameters
//! `1/12, 2/12, .., 1`, rounded to whole icon units.
use crate::binary64;
use vstd::arithmetic::div_mod::*;
use vstd::prelude::*;

verus! {

/// Straight segments per curve. Twelve keeps the error below a quarter of a
/// pixel at every size this draws at.
pub const CURVE_STEPS: i32 = 12;

/// The parameter of a step, `step / 12` as a double, counting `2^-56`.
pub open spec fn parameter(step: int) -> int {
    binary64::rounded_quotient(0x100_0000_0000_0000 * step, CURVE_STEPS as int)
}

/// One minus the parameter of a step, counting `2^-56`.
pub open spec fn complement(step: int) -> int {
    binary64::rounded(0x100_0000_0000_0000 - parameter(step))
}

/// A double, turned into an `i32` by saturation.
pub open spec fn saturated(n: int) -> int {
    if n < i32::MIN {
        i32::MIN as int
    } else if n > i32::MAX {
        i32::MAX as int
    } else {
        n
    }
}

/// One coordinate of the quadratic curve from `p0` to `p2` with the control
/// point `p1`: with `t` the parameter of the step and `v` its complement, the
/// double `v * (v * p0 + 2 * t * p1) + t * t * p2`, each sum of a product
/// rounded once, to the nearest whole unit.
pub open spec fn quad_coordinate(p0: int, p1: int, p2: int, step: int) -> int {
    let t = parameter(step);
    let v = complement(step);
    let leading = binary64::rounded(v * p0 + binary64::rounded(2 * t * p1));
    let trailing = binary64::rounded(binary64::rounded_product(t, t) * p2);
    saturated(
        binary64::nearest_away(
            binary64::rounded(v * leading + 0x10_0000_0000_0000 * trailing),
            0x1_0000_0000_0000_0000_0000_0000_0000,
        ),
    )
}

/// The weights of the four points of a cubic curve at a step, counting
/// `2^-64`: the doubles `v * v * v`, `3 * v * v * t`, `3 * v * t * t` and
/// `t * t * t`, multiplied from the left.
pub open spec fn cubic_weights(step: int) -> (int, int, int, int) {
    let t = parameter(step);
    let v = complement(step);
    let triple = binary64::rounded(3 * v);
    (
        binary64::rounded_product(binary64::rounded_product(v, v), v),
        binary64::rounded_product(binary64::rounded_product(triple, v), t),
        binary64::rounded_product(binary64::rounded_product(triple, t), t),
        binary64::rounded_product(binary64::rounded_product(t, t), t),
    )
}

/// One coordinate of the cubic curve from `p0` to `p3` with the control points
/// `p1` and `p2`: the points times their weights, added from the first on.
pub open spec fn cubic_coordinate(p0: int, p1: int, p2: int, p3: int, step: int) -> int {
    let w = cubic_weights(step);
    let first = binary64::rounded(w.0 * p0);
    let second = binary64::rounded(w.1 * p1 + first);
    let third = binary64::rounded(w.2 * p2 + second);
    saturated(binary64::nearest_away(binary64::rounded(w.3 * p3 + third), 0x1_0000_0000_0000_0000))
}

/// The parameter of a step and its complement.
fn parameter_of(step: i32) -> (r: (i128, i128))
    requires
        1 <= step <= CURVE_STEPS,
    ensures
        r.0 == parameter(step as int),
        r.1 == complement(step as int),
        0 <= r.0 <= 0x100_0000_0000_0000,
        0 <= r.1 <= 0x100_0000_0000_0000,
{
    let t: i128 = binary64::round_quotient(
        0x100_0000_0000_0000u128 * (step as u128),
        CURVE_STEPS as u128,
    ) as i128;
    proof {
        lemma_parameter(step as int);
    }
    let v: i128 = binary64::round_to_double(0x100_0000_0000_0000 - t);
    proof {
        binary64::lemma_rounded_near(0x100_0000_0000_0000 - t);
    }
    (t, v)
}

/// The parameter is within half a spacing of `step / 12`.
pub proof fn lemma_parameter(step: int)
    requires
        1 <= step <= CURVE_STEPS,
    ensures
        0 < parameter(step) <= 0x100_0000_0000_0000,
        -96 <= 12 * parameter(step) - 0x100_0000_0000_0000 * step <= 96,
        step == 12 ==> parameter(step) == 0x100_0000_0000_0000,
{
    let n = 0x100_0000_0000_0000 * step;
    reveal_with_fuel(binary64::ulp, 6);
    let u = binary64::ulp(n / 12);
    assert(1 <= u <= 16);
    binary64::lemma_nearest_even(n, 12 * u);
    let m = binary64::nearest_even(n, 12 * u);
    assert((12 * u) * m == 12 * (u * m)) by (nonlinear_arith);
    if step == 12 {
        assert(u == 16);
        lemma_fundamental_div_mod_converse(n, 12 * u, 0x10_0000_0000_0000, 0);
        assert(n % (12 * u) == 0 && n / (12 * u) == 0x10_0000_0000_0000);
        assert(m == 0x10_0000_0000_0000);
        assert(u * m == 0x100_0000_0000_0000) by (nonlinear_arith)
            requires
                u == 16,
                m == 0x10_0000_0000_0000,
        ;
    }
    assert(parameter(step) == u * m);
}

/// Computes one coordinate of a point on a quadratic curve.
pub fn quad_point(p0: i32, p1: i32, p2: i32, step: i32) -> (r: i32)
    requires
        1 <= step <= CURVE_STEPS,
    ensures
        r == quad_coordinate(p0 as int, p1 as int, p2 as int, step as int),
{
    let (t, v) = parameter_of(step);
    let (p0, p1, p2): (i128, i128, i128) = (p0 as i128, p1 as i128, p2 as i128);
    proof {
        lemma_product_bounds(t as int, p1 as int, 0x100_0000_0000_0000, 0x8000_0000);
        lemma_product_bounds(v as int, p0 as int, 0x100_0000_0000_0000, 0x8000_0000);
        lemma_product_bounds(t as int, t as int, 0x100_0000_0000_0000, 0x100_0000_0000_0000);
        assert(2 * t * p1 == 2 * (t * p1)) by (nonlinear_arith);
        binary64::lemma_rounded_near(2 * t * p1);
    }
    let control: i128 = binary64::round_to_double(2 * (t * p1));
    proof {
        binary64::lemma_rounded_near(v * p0 + control);
    }
    let leading: i128 = binary64::round_to_double(v * p0 + control);
    let square: i128 = binary64::round_product(t as u128, t as u128) as i128;
    proof {
        lemma_product_bounds(square as int, p2 as int, 0x2000_0000_0000_0000, 0x8000_0000);
        binary64::lemma_rounded_near(square * p2);
    }
    let trailing: i128 = binary64::round_to_double(square * p2);
    // The exact sum takes more bits than fit; what lies below the leading ones
    // is kept as a single bit.
    let high: i128 = floor_div(leading, 0x10_0000_0000_0000);
    let low: i128 = leading - 0x10_0000_0000_0000 * high;
    proof {
        lemma_product_bounds(v as int, high as int, 0x100_0000_0000_0000, 0x80_0000_0000);
        lemma_product_bounds(v as int, low as int, 0x100_0000_0000_0000, 0x10_0000_0000_0000);
    }
    let carry: i128 = v * low;
    let whole: i128 = v * high + trailing + carry / 0x10_0000_0000_0000;
    let sum: i128 = 2 * whole + if carry % 0x10_0000_0000_0000 == 0 {
        0i128
    } else {
        1i128
    };
    proof {
        let exact = v * leading + 0x10_0000_0000_0000 * trailing;
        assert(v * leading == 0x10_0000_0000_0000 * (v * high) + v * low) by (nonlinear_arith)
            requires
                leading == 0x10_0000_0000_0000 * high + low,
        ;
        assert(sum == binary64::with_sticky_bit(exact));
        binary64::lemma_nearest_away_of_sticky(exact);
        binary64::lemma_rounded_near(sum as int);
    }
    saturate(binary64::nearest_away_of(binary64::round_to_double(sum), 0x2000_0000_0000_0000))
}

/// A product is bounded by the product of bounds.
pub proof fn lemma_product_bounds(a: int, b: int, bound_a: int, bound_b: int)
    requires
        0 <= a <= bound_a,
        -bound_b <= b <= bound_b,
    ensures
        -(bound_a * bound_b) <= a * b <= bound_a * bound_b,
        0 <= b ==> 0 <= a * b,
{
    assert(-(bound_a * bound_b) <= a * b <= bound_a * bound_b) by (nonlinear_arith)
        requires
            0 <= a <= bound_a,
            -bound_b <= b <= bound_b,
    ;
    assert(0 <= b ==> 0 <= a * b) by (nonlinear_arith)
        requires
            0 <= a,
    ;
}

/// Divides by a positive number, rounding down.
fn floor_div(n: i128, d: i128) -> (q: i128)
    requires
        -0x1000_0000_0000_0000_0000_0000_0000_0000 <= n,
        0 < d <= 0x1000_0000_0000_0000_0000_0000_0000_0000,
    ensures
        q == (n as int) / (d as int),
{
    if n >= 0 {
        n / d
    } else {
        let a: i128 = -n;
        let q: i128 = (a + (d - 1)) / d;
        proof {
            let r = q * d - a;
            lemma_fundamental_div_mod(a + (d - 1), d as int);
            assert(q * d == d * q) by (nonlinear_arith);
            assert((-q) * d == -(q * d)) by (nonlinear_arith);
            lemma_fundamental_div_mod_converse(n as int, d as int, -q as int, r);
        }
        -q
    }
}

/// Turns a whole number into an `i32` by saturation.
pub fn saturate(n: i128) -> (r: i32)
    ensures
        r == saturated(n as int),
{
    if n < i32::MIN as i128 {
        i32::MIN
    } else if n > i32::MAX as i128 {
        i32::MAX
    } else {
        n as i32
    }
}

/// Computes one coordinate of a point on a cubic curve.
pub fn cubic_point(p0: i32, p1: i32, p2: i32, p3: i32, step: i32) -> (r: i32)
    requires
        1 <= step <= CURVE_STEPS,
    ensures
        r == cubic_coordinate(p0 as int, p1 as int, p2 as int, p3 as int, step as int),
{
    let (w0, w1, w2, w3) = cubic_weights_of(step);
    let (p0, p1, p2, p3): (i128, i128, i128, i128) = (
        p0 as i128,
        p1 as i128,
        p2 as i128,
        p3 as i128,
    );
    proof {
        lemma_product_bounds(w0 as int, p0 as int, 0x40_0000_0000_0000_0000, 0x8000_0000);
        lemma_product_bounds(w1 as int, p1 as int, 0x40_0000_0000_0000_0000, 0x8000_0000);
        lemma_product_bounds(w2 as int, p2 as int, 0x40_0000_0000_0000_0000, 0x8000_0000);
        lemma_product_bounds(w3 as int, p3 as int, 0x40_0000_0000_0000_0000, 0x8000_0000);
        binary64::lemma_rounded_near(w0 * p0);
    }
    let first: i128 = binary64::round_to_double(w0 * p0);
    proof {
        binary64::lemma_rounded_near(w1 * p1 + first);
    }
    let second: i128 = binary64::round_to_double(w1 * p1 + first);
    proof {
        binary64::lemma_rounded_near(w2 * p2 + second);
    }
    let third: i128 = binary64::round_to_double(w2 * p2 + second);
    proof {
        binary64::lemma_rounded_near(w3 * p3 + third);
    }
    let fourth: i128 = binary64::round_to_double(w3 * p3 + third);
    saturate(binary64::nearest_away_of(fourth, 0x1_0000_0000_0000_0000))
}

/// The weights of the points of a cubic curve at a step.
fn cubic_weights_of(step: i32) -> (w: (i128, i128, i128, i128))
    requires
        1 <= step <= CURVE_STEPS,
    ensures
        (w.0 as int, w.1 as int, w.2 as int, w.3 as int) == cubic_weights(step as int),
        0 <= w.0 <= 0x40_0000_0000_0000_0000,
        0 <= w.1 <= 0x40_0000_0000_0000_0000,
        0 <= w.2 <= 0x40_0000_0000_0000_0000,
        0 <= w.3 <= 0x40_0000_0000_0000_0000,
{
    let (t, v) = parameter_of(step);
    proof {
        binary64::lemma_rounded_near(3 * v);
    }
    let triple: i128 = binary64::round_to_double(3 * v);
    (
        triple_product(v, v, v),
        triple_product(triple, v, t),
        triple_product(triple, t, t),
        triple_product(t, t, t),
    )
}

/// Multiplies three doubles from the left.
fn triple_product(a: i128, b: i128, c: i128) -> (r: i128)
    requires
        0 <= a <= 0x400_0000_0000_0000,
        0 <= b <= 0x100_0000_0000_0000,
        0 <= c <= 0x100_0000_0000_0000,
    ensures
        r == binary64::rounded_product(
            binary64::rounded_product(a as int, b as int),
            c as int,
        ),
        0 <= r <= 0x40_0000_0000_0000_0000,
{
    proof {
        lemma_product_bounds(a as int, b as int, 0x400_0000_0000_0000, 0x100_0000_0000_0000);
    }
    let ab: u128 = binary64::round_product(a as u128, b as u128);
    proof {
        lemma_product_bounds(c as int, ab as int, 0x100_0000_0000_0000, 0x6000_0000_0000_0000);
        assert(ab * c == c * ab) by (nonlinear_arith);
    }
    binary64::round_product(ab, c as u128) as i128
}

} // verus!
