//! How close the flattened points are to the curve.
use crate::binary64;
use crate::curve;
use crate::curve::CURVE_STEPS;
use crate::laws::doubles;
use vstd::arithmetic::power2::*;
use vstd::prelude::*;

verus! {

/// 144 times the coordinate of the quadratic curve at `step / 12`.
pub open spec fn quad_point_144(p0: int, p1: int, p2: int, step: int) -> int {
    let rest = 12 - step;
    (rest * rest) * p0 + (2 * (step * rest)) * p1 + (step * step) * p2
}

/// 1728 times the coordinate of the cubic curve at `step / 12`.
pub open spec fn cubic_point_1728(p0: int, p1: int, p2: int, p3: int, step: int) -> int {
    let rest = 12 - step;
    ((rest * rest) * rest) * p0 + (3 * ((rest * rest) * step)) * p1 + (3 * ((rest * step) * step))
        * p2 + ((step * step) * step) * p3
}

/// The complement is as close to `(12 - step) / 12` as two roundings allow.
proof fn lemma_complement(step: int)
    requires
        1 <= step <= CURVE_STEPS,
    ensures
        0 <= curve::complement(step) <= 0x100_0000_0000_0000,
        -192 <= 12 * curve::complement(step) - 0x100_0000_0000_0000 * (12 - step) <= 192,
        step == 12 ==> curve::complement(step) == 0,
{
    curve::lemma_parameter(step);
    binary64::lemma_rounded_near(0x100_0000_0000_0000 - curve::parameter(step));
}

/// A product of two numbers that are off by a little is off by a little.
proof fn lemma_product_off(a: int, b: int, e: int, f: int, ma: int, mb: int, me: int, mf: int)
    requires
        0 <= a <= ma,
        0 <= b <= mb,
        -me <= e <= me,
        -mf <= f <= mf,
    ensures
        -(ma * mf + mb * me + me * mf) <= (a + e) * (b + f) - a * b <= ma * mf + mb * me + me * mf,
{
    curve::lemma_product_bounds(a, f, ma, mf);
    curve::lemma_product_bounds(b, e, mb, me);
    assert(-(me * mf) <= e * f <= me * mf) by (nonlinear_arith)
        requires
            -me <= e <= me,
            -mf <= f <= mf,
    ;
    assert((a + e) * (b + f) == a * b + a * f + b * e + e * f) by (nonlinear_arith);
}

/// A weight that is off by a little gives a product that is off by a little.
proof fn lemma_weight_off(scale: int, w: int, exact: int, off: int, p: int)
    requires
        -off <= scale * w - exact <= off,
        i32::MIN <= p <= i32::MAX,
        0 <= off,
    ensures
        -(off * 0x8000_0000) <= scale * (w * p) - exact * p <= off * 0x8000_0000,
{
    let e = scale * w - exact;
    assert(-(off * 0x8000_0000) <= e * p <= off * 0x8000_0000) by (nonlinear_arith)
        requires
            -off <= e <= off,
            -0x8000_0000 <= p <= 0x8000_0000,
    ;
    assert(e * p == scale * (w * p) - exact * p) by (nonlinear_arith)
        requires
            e == scale * w - exact,
    ;
}

/// The three weights of a quadratic curve, from its two parameters.
proof fn lemma_quad_weights(step: int)
    requires
        1 <= step <= CURVE_STEPS,
    ensures
        ({
            let (t, v) = (curve::parameter(step), curve::complement(step));
            let rest = 12 - step;
            let unit = 0x1_0000_0000_0000_0000_0000_0000_0000int;
            let off = 0x20_0000_0000_0000_0000int;
            &&& -off <= 144 * (v * v) - unit * (rest * rest) <= off
            &&& -off <= 144 * (v * t) - unit * (rest * step) <= off
            &&& -off <= 144 * (t * t) - unit * (step * step) <= off
            &&& 0 <= v * v <= unit
            &&& 0 <= v * t <= unit
            &&& 0 <= t * t <= unit
        }),
{
    curve::lemma_parameter(step);
    lemma_complement(step);
    let (t, v) = (curve::parameter(step), curve::complement(step));
    let rest = 12 - step;
    let unit = 0x100_0000_0000_0000int;
    let (a, e) = (unit * rest, 12 * v - unit * rest);
    let (b, f) = (unit * step, 12 * t - unit * step);
    lemma_product_off(a, a, e, e, 12 * unit, 12 * unit, 192, 192);
    lemma_product_off(a, b, e, f, 12 * unit, 12 * unit, 192, 96);
    lemma_product_off(b, b, f, f, 12 * unit, 12 * unit, 96, 96);
    assert((12 * v) * (12 * v) == 144 * (v * v)) by (nonlinear_arith);
    assert((12 * v) * (12 * t) == 144 * (v * t)) by (nonlinear_arith);
    assert((12 * t) * (12 * t) == 144 * (t * t)) by (nonlinear_arith);
    assert((unit * rest) * (unit * rest) == (unit * unit) * (rest * rest)) by (nonlinear_arith);
    assert((unit * rest) * (unit * step) == (unit * unit) * (rest * step)) by (nonlinear_arith);
    assert((unit * step) * (unit * step) == (unit * unit) * (step * step)) by (nonlinear_arith);
    curve::lemma_product_bounds(v, v, unit, unit);
    curve::lemma_product_bounds(v, t, unit, unit);
    curve::lemma_product_bounds(t, t, unit, unit);
}

/// Every point of a flattened quadratic curve is, in each coordinate, a whole
/// unit nearest to the point on the curve.
pub proof fn law_quad_points_are_nearest(p0: i32, p1: i32, p2: i32, step: int)
    requires
        1 <= step <= CURVE_STEPS,
    ensures
        -72 <= 144 * curve::quad_coordinate(p0 as int, p1 as int, p2 as int, step)
            - quad_point_144(p0 as int, p1 as int, p2 as int, step) <= 72,
{
    curve::lemma_parameter(step);
    lemma_complement(step);
    lemma_quad_weights(step);
    let (p0, p1, p2) = (p0 as int, p1 as int, p2 as int);
    let (t, v) = (curve::parameter(step), curve::complement(step));
    let rest = 12 - step;
    let one = 0x100_0000_0000_0000int;
    let unit = 0x1_0000_0000_0000_0000_0000_0000_0000int;
    // What each rounding adds.
    let control = binary64::rounded(2 * t * p1);
    let leading = binary64::rounded(v * p0 + control);
    let square = binary64::rounded_product(t, t);
    let trailing = binary64::rounded(square * p2);
    let sum = v * leading + 0x10_0000_0000_0000 * trailing;
    let r = binary64::nearest_away(binary64::rounded(sum), unit);
    assert(2 * t * p1 == 2 * (t * p1)) by (nonlinear_arith);
    curve::lemma_product_bounds(t, p1, one, 0x8000_0000);
    curve::lemma_product_bounds(v, p0, one, 0x8000_0000);
    binary64::lemma_rounded_near(2 * t * p1);
    binary64::lemma_rounded_near(v * p0 + control);
    let off = leading - v * p0 - 2 * (t * p1);
    assert(-0x40_0000_0000 <= off <= 0x40_0000_0000);
    binary64::lemma_rounded_near(t * t);
    let square_off = 0x10_0000_0000_0000 * square - t * t;
    assert(-0xc00_0000_0000_0000 <= square_off <= 0xc00_0000_0000_0000);
    lemma_trailing(t, square, p2);
    curve::lemma_product_bounds(v, off, one, 0x40_0000_0000);
    assert(v * leading == (v * v) * p0 + 2 * ((v * t) * p1) + v * off) by {
        let (vp, tp) = (v * p0, t * p1);
        assert(v * (vp + 2 * tp + off) == v * vp + 2 * (v * tp) + v * off) by (nonlinear_arith);
        assert(v * (v * p0) == (v * v) * p0) by (nonlinear_arith);
        assert(v * (t * p1) == (v * t) * p1) by (nonlinear_arith);
    }
    let exact = (v * v) * p0 + 2 * ((v * t) * p1) + (t * t) * p2;
    assert(-0x8000_0000_0000_0000_0000_0000 <= sum - exact
        <= 0x8000_0000_0000_0000_0000_0000);
    // The weights are those of the curve.
    lemma_weight_off(144, v * v, unit * (rest * rest), 0x20_0000_0000_0000_0000, p0);
    lemma_weight_off(144, v * t, unit * (rest * step), 0x20_0000_0000_0000_0000, p1);
    lemma_weight_off(144, t * t, unit * (step * step), 0x20_0000_0000_0000_0000, p2);
    let n = quad_point_144(p0, p1, p2, step);
    assert(unit * n == (unit * (rest * rest)) * p0 + 2 * ((unit * (rest * step)) * p1) + (unit * (
    step * step)) * p2) by {
        let (a, b, c) = (rest * rest, step * rest, step * step);
        assert(step * rest == rest * step) by (nonlinear_arith);
        let (u, m, w) = (a * p0, (2 * b) * p1, c * p2);
        assert(unit * (u + m + w) == unit * u + unit * m + unit * w) by (nonlinear_arith);
        assert(unit * (a * p0) == (unit * a) * p0) by (nonlinear_arith);
        assert(unit * ((2 * b) * p1) == 2 * ((unit * b) * p1)) by (nonlinear_arith);
        assert(unit * (c * p2) == (unit * c) * p2) by (nonlinear_arith);
    }
    assert(-0x100_0000_0000_0000_0000_0000_0000 <= 144 * exact - unit * n
        <= 0x100_0000_0000_0000_0000_0000_0000);
    lemma_quad_between(p0, p1, p2, i32::MIN as int, i32::MAX as int, step);
    binary64::lemma_rounded_near(sum);
    let whole = binary64::rounded(sum);
    assert(-0x10_0000_0000_0000_0000_0000_0000 <= whole - sum
        <= 0x10_0000_0000_0000_0000_0000_0000);
    binary64::lemma_nearest_away_near(whole, unit);
    assert(-72 <= 144 * r - n <= 72);
}

/// The last term of a quadratic curve is off by little.
proof fn lemma_trailing(t: int, square: int, p2: int)
    requires
        0 <= t * t <= 0x1_0000_0000_0000_0000_0000_0000_0000,
        -0xc00_0000_0000_0000 <= 0x10_0000_0000_0000 * square - t * t <= 0xc00_0000_0000_0000,
        i32::MIN <= p2 <= i32::MAX,
    ensures
        -0x4000_0000_0000_0000_0000_0000 <= 0x10_0000_0000_0000 * binary64::rounded(square * p2) - (
        t * t) * p2 <= 0x4000_0000_0000_0000_0000_0000,
{
    lemma_weight_off(0x10_0000_0000_0000, square, t * t, 0xc00_0000_0000_0000, p2);
    curve::lemma_product_bounds(t * t, p2, 0x1_0000_0000_0000_0000_0000_0000_0000, 0x8000_0000);
    binary64::lemma_rounded_near(square * p2);
}

/// A weighted value lies between the weighted bounds.
proof fn lemma_weighted_between(w: int, p: int, low: int, high: int)
    requires
        0 <= w,
        low <= p <= high,
    ensures
        w * low <= w * p <= w * high,
{
    assert(w * low <= w * p <= w * high) by (nonlinear_arith)
        requires
            0 <= w,
            low <= p <= high,
    ;
}

/// The point on a quadratic curve lies between the points that define it.
proof fn lemma_quad_between(p0: int, p1: int, p2: int, low: int, high: int, step: int)
    requires
        0 <= step <= CURVE_STEPS,
        low <= p0 <= high,
        low <= p1 <= high,
        low <= p2 <= high,
    ensures
        144 * low <= quad_point_144(p0, p1, p2, step) <= 144 * high,
{
    let rest = 12 - step;
    let (a, b, c) = (rest * rest, 2 * (step * rest), step * step);
    assert(a >= 0 && b >= 0 && c >= 0 && a + b + c == 144) by (nonlinear_arith)
        requires
            a == rest * rest,
            b == 2 * (step * rest),
            c == step * step,
            rest == 12 - step,
            0 <= step <= 12,
    ;
    lemma_weighted_between(a, p0, low, high);
    lemma_weighted_between(b, p1, low, high);
    lemma_weighted_between(c, p2, low, high);
    assert(a * low + b * low + c * low == (a + b + c) * low) by (nonlinear_arith);
    assert(a * high + b * high + c * high == (a + b + c) * high) by (nonlinear_arith);
}

/// A flattened quadratic curve does not leave the range of the points that
/// define it.
pub proof fn law_quad_stays_between(p0: i32, p1: i32, p2: i32, low: int, high: int, step: int)
    requires
        1 <= step <= CURVE_STEPS,
        low <= p0 <= high,
        low <= p1 <= high,
        low <= p2 <= high,
    ensures
        low <= curve::quad_coordinate(p0 as int, p1 as int, p2 as int, step) <= high,
{
    law_quad_points_are_nearest(p0, p1, p2, step);
    lemma_quad_between(p0 as int, p1 as int, p2 as int, low, high, step);
}

/// A flattened quadratic curve ends exactly where the curve does.
pub proof fn law_quad_ends_at_its_end(p0: i32, p1: i32, p2: i32)
    ensures
        curve::quad_coordinate(p0 as int, p1 as int, p2 as int, CURVE_STEPS as int) == p2,
{
    law_quad_points_are_nearest(p0, p1, p2, 12);
    assert(quad_point_144(p0 as int, p1 as int, p2 as int, 12) == 144 * p2) by {
        assert((0int * 0) * p0 == 0) by (nonlinear_arith);
        assert((2 * (12int * 0)) * p1 == 0) by (nonlinear_arith);
        assert((12int * 12) * p2 == 144 * p2) by (nonlinear_arith);
    }
}

/// Where the flattened curve is after a number of steps.
pub open spec fn quad_vertex(p0: int, p1: int, p2: int, step: int) -> int {
    if step == 0 {
        p0
    } else {
        curve::quad_coordinate(p0, p1, p2, step)
    }
}

/// How far a quadratic curve bends.
pub open spec fn bend(p0: int, p1: int, p2: int) -> int {
    let d = p0 - 2 * p1 + p2;
    if d < 0 {
        -d
    } else {
        d
    }
}

/// `144 * m * m` times the coordinate of the quadratic curve at the part `j / m`
/// of the way from one step to the next.
pub open spec fn quad_between_steps(p0: int, p1: int, p2: int, step: int, j: int, m: int) -> int {
    let k = m * step + j;
    let rest = m * (12 - step) - j;
    (rest * rest) * p0 + (2 * (k * rest)) * p1 + (k * k) * p2
}

/// Between two points of the exact curve, a chord is off by the bend alone.
proof fn lemma_chord(p0: int, p1: int, p2: int, step: int, j: int, m: int)
    ensures
        m * ((m - j) * quad_point_144(p0, p1, p2, step) + j * quad_point_144(
            p0,
            p1,
            p2,
            step + 1,
        )) - quad_between_steps(p0, p1, p2, step, j, m) == (j * (m - j)) * (p0 - 2 * p1 + p2),
{
    let c = 12 - step;
    let s = step;
    let (a, b, d) = (c * c, 2 * (s * c), s * s);
    let (e, f, g) = ((c - 1) * (c - 1), 2 * ((s + 1) * (c - 1)), (s + 1) * (s + 1));
    let k = m * s + j;
    let rest = m * c - j;
    let w = j * (m - j);
    let (sc, js, jc) = (s * c, j * s, j * c);
    let (mjs, mjc, mj) = (m * (j * s), m * (j * c), m * j);
    assert(w == mj - j * j) by {
        assert(j * (m - j) == m * j - j * j) by (nonlinear_arith);
    }
    // The weights one step on.
    assert(e == a - 2 * c + 1) by {
        assert((c - 1) * (c - 1) == c * c - 2 * c + 1) by (nonlinear_arith);
    }
    assert(f == 2 * (sc - s + c - 1)) by {
        assert((s + 1) * (c - 1) == s * c - s + c - 1) by (nonlinear_arith);
    }
    assert(g == d + 2 * s + 1) by {
        assert((s + 1) * (s + 1) == s * s + 2 * s + 1) by (nonlinear_arith);
    }
    lemma_mixed(m, j, a, -2 * c + 1);
    lemma_mixed(m, j, b, 2 * (-s + c - 1));
    lemma_mixed(m, j, d, 2 * s + 1);
    assert(j * (-2 * c + 1) == -2 * jc + j) by (nonlinear_arith)
        requires
            jc == j * c,
    ;
    assert(j * (2 * (-s + c - 1)) == -2 * js + 2 * jc - 2 * j) by (nonlinear_arith)
        requires
            jc == j * c,
            js == j * s,
    ;
    assert(j * (2 * s + 1) == 2 * js + j) by (nonlinear_arith)
        requires
            js == j * s,
    ;
    assert(m * (-2 * jc + j) == -2 * mjc + mj) by (nonlinear_arith)
        requires
            mjc == m * jc,
            mj == m * j,
    ;
    assert(m * (-2 * js + 2 * jc - 2 * j) == -2 * mjs + 2 * mjc - 2 * mj) by (nonlinear_arith)
        requires
            mjc == m * jc,
            mjs == m * js,
            mj == m * j,
    ;
    assert(m * (2 * js + j) == 2 * mjs + mj) by (nonlinear_arith)
        requires
            mjs == m * js,
            mj == m * j,
    ;
    // The weights in between.
    lemma_mixed_product(m, c, -j, c, -j);
    lemma_mixed_product(m, s, j, c, -j);
    lemma_mixed_product(m, s, j, s, j);
    assert(c * (-j) == -jc && s * (-j) == -js && s * j == js && j * c == jc && (-j) * c == -jc && j
        * s == js) by (nonlinear_arith)
        requires
            jc == j * c,
            js == j * s,
    ;
    assert((-j) * (-j) == j * j && j * (-j) == -(j * j)) by (nonlinear_arith);
    assert(m * (-jc) == -mjc && m * (-js) == -mjs) by (nonlinear_arith)
        requires
            mjc == m * jc,
            mjs == m * js,
    ;
    assert(m * (m * (2 * sc)) == 2 * (m * (m * sc))) by (nonlinear_arith);
    assert(m * ((m - j) * a + j * e) - rest * rest == w);
    assert(m * ((m - j) * b + j * f) - 2 * (k * rest) == -2 * w);
    assert(m * ((m - j) * d + j * g) - k * k == w);
    lemma_chord_terms(m, j, a, e, p0, b, f, p1, d, g, p2);
    let (u, v, z) = (rest * rest, 2 * (k * rest), k * k);
    let (ma, mb, md) = (
        m * ((m - j) * a + j * e),
        m * ((m - j) * b + j * f),
        m * ((m - j) * d + j * g),
    );
    assert(ma * p0 - u * p0 == (ma - u) * p0) by (nonlinear_arith);
    assert(mb * p1 - v * p1 == (mb - v) * p1) by (nonlinear_arith);
    assert(md * p2 - z * p2 == (md - z) * p2) by (nonlinear_arith);
    assert(w * (p0 - 2 * p1 + p2) == w * p0 + (-2 * w) * p1 + w * p2) by (nonlinear_arith);
}

/// A mean of two weights, given one of them and the difference.
proof fn lemma_mixed(m: int, j: int, a: int, more: int)
    ensures
        m * ((m - j) * a + j * (a + more)) == m * (m * a) + m * (j * more),
{
    assert((m - j) * a == m * a - j * a) by (nonlinear_arith);
    assert(j * (a + more) == j * a + j * more) by (nonlinear_arith);
    let (x, y) = (m * a, j * more);
    assert(m * (x + y) == m * x + m * y) by (nonlinear_arith);
}

/// A product of two sums, multiplied out.
proof fn lemma_mixed_product(m: int, a: int, x: int, b: int, y: int)
    ensures
        (m * a + x) * (m * b + y) == m * (m * (a * b)) + m * (a * y) + m * (x * b) + x * y,
{
    let (p, q) = (m * a, m * b);
    assert((p + x) * (q + y) == p * q + p * y + x * q + x * y) by (nonlinear_arith);
    assert((m * a) * (m * b) == m * (m * (a * b))) by (nonlinear_arith);
    assert((m * a) * y == m * (a * y)) by (nonlinear_arith);
    assert(x * (m * b) == m * (x * b)) by (nonlinear_arith);
}

/// The chord, sorted by the points that define the curve.
proof fn lemma_chord_terms(
    m: int,
    j: int,
    a: int,
    e: int,
    p0: int,
    b: int,
    f: int,
    p1: int,
    d: int,
    g: int,
    p2: int,
)
    ensures
        m * ((m - j) * (a * p0 + b * p1 + d * p2) + j * (e * p0 + f * p1 + g * p2)) == (m * ((m - j)
            * a + j * e)) * p0 + (m * ((m - j) * b + j * f)) * p1 + (m * ((m - j) * d + j * g))
            * p2,
{
    let n = m - j;
    lemma_chord_term(m, n, j, a, e, p0);
    lemma_chord_term(m, n, j, b, f, p1);
    lemma_chord_term(m, n, j, d, g, p2);
    let (x0, x1, x2) = (a * p0, b * p1, d * p2);
    let (y0, y1, y2) = (e * p0, f * p1, g * p2);
    assert(n * (x0 + x1 + x2) == n * x0 + n * x1 + n * x2) by (nonlinear_arith);
    assert(j * (y0 + y1 + y2) == j * y0 + j * y1 + j * y2) by (nonlinear_arith);
    let (z0, z1, z2) = (n * x0 + j * y0, n * x1 + j * y1, n * x2 + j * y2);
    assert(m * (z0 + z1 + z2) == m * z0 + m * z1 + m * z2) by (nonlinear_arith);
}

proof fn lemma_chord_term(m: int, n: int, j: int, a: int, e: int, p: int)
    ensures
        m * (n * (a * p) + j * (e * p)) == (m * (n * a + j * e)) * p,
{
    let (na, je) = (n * a, j * e);
    assert(n * (a * p) == na * p) by (nonlinear_arith)
        requires
            na == n * a,
    ;
    assert(j * (e * p) == je * p) by (nonlinear_arith)
        requires
            je == j * e,
    ;
    assert(na * p + je * p == (na + je) * p) by (nonlinear_arith);
    assert(m * ((na + je) * p) == (m * (na + je)) * p) by (nonlinear_arith);
}

/// The straight segments of a flattened quadratic curve follow it closely: at
/// every point along a segment, each coordinate is within half a unit and the
/// 576th part of the bend of the curve.
pub proof fn law_segments_follow_the_curve(p0: i32, p1: i32, p2: i32, step: int, j: int, m: int)
    requires
        0 <= step < CURVE_STEPS,
        0 <= j <= m,
        0 < m,
    ensures
        ({
            let (p0, p1, p2) = (p0 as int, p1 as int, p2 as int);
            let chord = (m - j) * quad_vertex(p0, p1, p2, step) + j * quad_vertex(
                p0,
                p1,
                p2,
                step + 1,
            );
            let off = 576 * (m * chord) - 4 * quad_between_steps(p0, p1, p2, step, j, m);
            -(288 * (m * m) + (m * m) * bend(p0, p1, p2)) <= off <= 288 * (m * m) + (m * m) * bend(
                p0,
                p1,
                p2,
            )
        }),
{
    let (q0, q1, q2) = (p0 as int, p1 as int, p2 as int);
    let (a, b) = (quad_vertex(q0, q1, q2, step), quad_vertex(q0, q1, q2, step + 1));
    let (c, d) = (quad_point_144(q0, q1, q2, step), quad_point_144(q0, q1, q2, step + 1));
    assert(-72 <= 144 * a - c <= 72) by {
        if step == 0 {
            assert((12int * 12) * q0 == 144 * q0) by (nonlinear_arith);
            assert((2 * (0int * 12)) * q1 == 0) by (nonlinear_arith);
            assert((0int * 0) * q2 == 0) by (nonlinear_arith);
        } else {
            law_quad_points_are_nearest(p0, p1, p2, step);
        }
    }
    law_quad_points_are_nearest(p0, p1, p2, step + 1);
    lemma_chord(q0, q1, q2, step, j, m);
    let n = m - j;
    let (x, y) = (144 * a - c, 144 * b - d);
    // What the rounding of the two ends adds.
    let slack = m * (n * x + j * y);
    assert(-(72 * m) <= n * x + j * y <= 72 * m) by (nonlinear_arith)
        requires
            -72 <= x <= 72,
            -72 <= y <= 72,
            0 <= n,
            0 <= j,
            n + j == m,
    ;
    let inner = n * x + j * y;
    assert(-(72 * (m * m)) <= m * inner <= 72 * (m * m)) by (nonlinear_arith)
        requires
            -(72 * m) <= inner <= 72 * m,
            0 < m,
    ;
    let chord = n * a + j * b;
    assert(144 * (m * chord) == m * (n * c + j * d) + slack) by {
        assert(n * x == 144 * (n * a) - n * c) by (nonlinear_arith)
            requires
                x == 144 * a - c,
        ;
        assert(j * y == 144 * (j * b) - j * d) by (nonlinear_arith)
            requires
                y == 144 * b - d,
        ;
        let exact = n * c + j * d;
        assert(m * (144 * chord - exact) == 144 * (m * chord) - m * exact) by (nonlinear_arith);
    }
    // What the bend adds: at most a quarter, in the middle.
    let w = j * n;
    assert(0 <= 4 * w <= m * m) by (nonlinear_arith)
        requires
            w == j * n,
            0 <= j,
            0 <= n,
            n + j == m,
    ;
    let (e, size) = (q0 - 2 * q1 + q2, bend(q0, q1, q2));
    assert(-((m * m) * size) <= 4 * (w * e) <= (m * m) * size) by {
        let mm = m * m;
        curve::lemma_product_bounds(4 * w, e, mm, size);
        assert((4 * w) * e == 4 * (w * e)) by (nonlinear_arith);
    }
}

/// A product of two doubles, each off by a little from a multiple of its
/// scale.
proof fn lemma_rounded_product_off(
    a: int,
    b: int,
    scale_a: int,
    scale_b: int,
    exact_a: int,
    exact_b: int,
    max_a: int,
    max_b: int,
    off_a: int,
    off_b: int,
    slack: int,
)
    requires
        0 <= a,
        0 <= b,
        0 < scale_a,
        0 < scale_b,
        0 <= exact_a <= max_a,
        0 <= exact_b <= max_b,
        -off_a <= scale_a * a - exact_a <= off_a,
        -off_b <= scale_b * b - exact_b <= off_b,
        0 <= a * b <= 0x10_0000_0000_0000 * slack,
        0x20_0000_0000_0000 <= slack,
    ensures
        ({
            let off = max_a * off_b + max_b * off_a + off_a * off_b + (scale_a * scale_b)
                * slack;
            -off <= 0x10_0000_0000_0000 * ((scale_a * scale_b) * binary64::rounded_product(a, b))
                - exact_a * exact_b <= off
        }),
{
    let r = binary64::rounded_product(a, b);
    let scale = scale_a * scale_b;
    let e = scale_a * a - exact_a;
    let f = scale_b * b - exact_b;
    lemma_product_off(exact_a, exact_b, e, f, max_a, max_b, off_a, off_b);
    binary64::lemma_rounded_near(a * b);
    let d = 0x10_0000_0000_0000 * r - a * b;
    assert(-slack <= d <= slack);
    assert(0 < scale) by (nonlinear_arith)
        requires
            scale == scale_a * scale_b,
            0 < scale_a,
            0 < scale_b,
    ;
    curve::lemma_product_bounds(scale, d, scale, slack);
    assert((scale_a * a) * (scale_b * b) == scale * (a * b)) by (nonlinear_arith)
        requires
            scale == scale_a * scale_b,
    ;
    assert(scale * d == 0x10_0000_0000_0000 * (scale * r) - scale * (a * b)) by (nonlinear_arith)
        requires
            d == 0x10_0000_0000_0000 * r - a * b,
    ;
}

/// One weight of a cubic curve: the first factor may count three times.
proof fn lemma_cubic_weight(a: int, b: int, c: int, times: int, i: int, j: int, k: int)
    requires
        1 <= times <= 3,
        0 <= i <= 12,
        0 <= j <= 12,
        0 <= k <= 12,
        0 <= a <= 0x400_0000_0000_0000,
        0 <= b <= 0x100_0000_0000_0000,
        0 <= c <= 0x100_0000_0000_0000,
        -1000 <= 12 * a - 0x100_0000_0000_0000 * (times * i) <= 1000,
        -192 <= 12 * b - 0x100_0000_0000_0000 * j <= 192,
        -192 <= 12 * c - 0x100_0000_0000_0000 * k <= 192,
    ensures
        ({
            let w = binary64::rounded_product(binary64::rounded_product(a, b), c);
            let off = 0x2000_0000int;
            &&& -off <= 1728 * w - 0x1_0000_0000_0000_0000 * (((times * i) * j) * k) <= off
            &&& 0 <= w
        }),
{
    let one = 0x100_0000_0000_0000int;
    let ab = binary64::rounded_product(a, b);
    let w = binary64::rounded_product(ab, c);
    let ti = times * i;
    assert(0 <= ti <= 36) by (nonlinear_arith)
        requires
            ti == times * i,
            1 <= times <= 3,
            0 <= i <= 12,
    ;
    assert(0 <= ti * j <= 432) by (nonlinear_arith)
        requires
            0 <= ti <= 36,
            0 <= j <= 12,
    ;
    curve::lemma_product_bounds(a, b, 0x400_0000_0000_0000, one);
    binary64::lemma_rounded_near(a * b);
    lemma_rounded_product_off(
        a,
        b,
        12,
        12,
        one * ti,
        one * j,
        36 * one,
        12 * one,
        1000,
        192,
        0x4000_0000_0000_0000,
    );
    assert((one * ti) * (one * j) == (one * one) * (ti * j)) by (nonlinear_arith);
    assert(-0x10_0000 <= 144 * ab - 0x1000_0000_0000_0000 * (ti * j) <= 0x10_0000);
    curve::lemma_product_bounds(c, ab, one, 0x6000_0000_0000_0000);
    assert(ab * c == c * ab) by (nonlinear_arith);
    binary64::lemma_rounded_near(ab * c);
    lemma_rounded_product_off(
        ab,
        c,
        144,
        12,
        0x1000_0000_0000_0000 * (ti * j),
        one * k,
        0x1000_0000_0000_0000int * 432,
        12 * one,
        0x10_0000,
        192,
        0x8_0000_0000_0000_0000,
    );
    let tij = ti * j;
    assert((0x1000_0000_0000_0000 * tij) * (one * k) == 0x10_0000_0000_0000_0000_0000_0000_0000 * (
    tij * k)) by (nonlinear_arith)
        requires
            one == 0x100_0000_0000_0000,
    ;
}

/// The four weights of a cubic curve.
proof fn lemma_cubic_weights(step: int)
    requires
        1 <= step <= CURVE_STEPS,
    ensures
        ({
            let w = curve::cubic_weights(step);
            let rest = 12 - step;
            let unit = 0x1_0000_0000_0000_0000int;
            let off = 0x2000_0000int;
            &&& -off <= 1728 * w.0 - unit * ((rest * rest) * rest) <= off
            &&& -off <= 1728 * w.1 - unit * (3 * ((rest * rest) * step)) <= off
            &&& -off <= 1728 * w.2 - unit * (3 * ((rest * step) * step)) <= off
            &&& -off <= 1728 * w.3 - unit * ((step * step) * step) <= off
            &&& 0 <= w.0 && 0 <= w.1 && 0 <= w.2 && 0 <= w.3
        }),
{
    curve::lemma_parameter(step);
    lemma_complement(step);
    let (t, v) = (curve::parameter(step), curve::complement(step));
    let rest = 12 - step;
    let triple = binary64::rounded(3 * v);
    binary64::lemma_rounded_near(3 * v);
    lemma_cubic_weight(v, v, v, 1, rest, rest, rest);
    lemma_cubic_weight(triple, v, t, 3, rest, rest, step);
    lemma_cubic_weight(triple, t, t, 3, rest, step, step);
    lemma_cubic_weight(t, t, t, 1, step, step, step);
    assert(((3 * rest) * rest) * step == 3 * ((rest * rest) * step)) by (nonlinear_arith);
    assert(((3 * rest) * step) * step == 3 * ((rest * step) * step)) by (nonlinear_arith);
}

/// The weights of a cubic curve add up to the whole.
proof fn lemma_cubic_whole(step: int)
    requires
        0 <= step <= CURVE_STEPS,
    ensures
        ({
            let rest = 12 - step;
            let (a, b) = ((rest * rest) * rest, 3 * ((rest * rest) * step));
            let (c, d) = (3 * ((rest * step) * step), (step * step) * step);
            a >= 0 && b >= 0 && c >= 0 && d >= 0 && a + b + c + d == 1728
        }),
{
    let rest = 12 - step;
    let (rr, rs, ss) = (rest * rest, rest * step, step * step);
    assert(rr >= 0 && rs >= 0 && ss >= 0 && rr + 2 * rs + ss == 144) by (nonlinear_arith)
        requires
            rr == rest * rest,
            rs == rest * step,
            ss == step * step,
            rest == 12 - step,
            0 <= step <= 12,
    ;
    assert(rr * rest >= 0 && rr * step >= 0 && rs * step >= 0 && ss * step >= 0)
        by (nonlinear_arith)
        requires
            rr >= 0,
            rs >= 0,
            ss >= 0,
            rest >= 0,
            step >= 0,
    ;
    assert(rs * rest == rr * step) by (nonlinear_arith)
        requires
            rr == rest * rest,
            rs == rest * step,
    ;
    assert(ss * rest == rs * step) by (nonlinear_arith)
        requires
            ss == step * step,
            rs == rest * step,
    ;
    assert((rr + 2 * rs + ss) * rest == rr * rest + 2 * (rs * rest) + ss * rest)
        by (nonlinear_arith);
    assert((rr + 2 * rs + ss) * step == rr * step + 2 * (rs * step) + ss * step)
        by (nonlinear_arith);
    assert(144 * rest + 144 * step == 1728);
}

/// The point on a cubic curve lies between the points that define it.
proof fn lemma_cubic_between(p0: int, p1: int, p2: int, p3: int, low: int, high: int, step: int)
    requires
        0 <= step <= CURVE_STEPS,
        low <= p0 <= high,
        low <= p1 <= high,
        low <= p2 <= high,
        low <= p3 <= high,
    ensures
        1728 * low <= cubic_point_1728(p0, p1, p2, p3, step) <= 1728 * high,
{
    let rest = 12 - step;
    let (a, b) = ((rest * rest) * rest, 3 * ((rest * rest) * step));
    let (c, d) = (3 * ((rest * step) * step), (step * step) * step);
    lemma_cubic_whole(step);
    lemma_weighted_between(a, p0, low, high);
    lemma_weighted_between(b, p1, low, high);
    lemma_weighted_between(c, p2, low, high);
    lemma_weighted_between(d, p3, low, high);
    assert(a * low + b * low + c * low + d * low == (a + b + c + d) * low) by (nonlinear_arith);
    assert(a * high + b * high + c * high + d * high == (a + b + c + d) * high)
        by (nonlinear_arith);
}

/// Every point of a flattened cubic curve is, in each coordinate, a whole unit
/// nearest to the point on the curve.
pub proof fn law_cubic_points_are_nearest(p0: i32, p1: i32, p2: i32, p3: i32, step: int)
    requires
        1 <= step <= CURVE_STEPS,
    ensures
        -864 <= 1728 * curve::cubic_coordinate(
            p0 as int,
            p1 as int,
            p2 as int,
            p3 as int,
            step,
        ) - cubic_point_1728(p0 as int, p1 as int, p2 as int, p3 as int, step) <= 864,
{
    let (p0, p1, p2, p3) = (p0 as int, p1 as int, p2 as int, p3 as int);
    let rest = 12 - step;
    let unit = 0x1_0000_0000_0000_0000int;
    let w = curve::cubic_weights(step);
    let (a, b) = ((rest * rest) * rest, 3 * ((rest * rest) * step));
    let (c, d) = (3 * ((rest * step) * step), (step * step) * step);
    lemma_cubic_weights(step);
    lemma_cubic_whole(step);
    curve::lemma_product_bounds(w.0, p0, 0x2_0000_0000_0000_0000, 0x8000_0000);
    curve::lemma_product_bounds(w.1, p1, 0x2_0000_0000_0000_0000, 0x8000_0000);
    curve::lemma_product_bounds(w.2, p2, 0x2_0000_0000_0000_0000, 0x8000_0000);
    curve::lemma_product_bounds(w.3, p3, 0x2_0000_0000_0000_0000, 0x8000_0000);
    let first = binary64::rounded(w.0 * p0);
    let second = binary64::rounded(w.1 * p1 + first);
    let third = binary64::rounded(w.2 * p2 + second);
    let fourth = binary64::rounded(w.3 * p3 + third);
    binary64::lemma_rounded_near(w.0 * p0);
    binary64::lemma_rounded_near(w.1 * p1 + first);
    binary64::lemma_rounded_near(w.2 * p2 + second);
    binary64::lemma_rounded_near(w.3 * p3 + third);
    let exact = w.0 * p0 + w.1 * p1 + w.2 * p2 + w.3 * p3;
    assert(-0x1_0000_0000_0000 <= fourth - exact <= 0x1_0000_0000_0000);
    lemma_weight_off(1728, w.0, unit * a, 0x2000_0000, p0);
    lemma_weight_off(1728, w.1, unit * b, 0x2000_0000, p1);
    lemma_weight_off(1728, w.2, unit * c, 0x2000_0000, p2);
    lemma_weight_off(1728, w.3, unit * d, 0x2000_0000, p3);
    let n = cubic_point_1728(p0, p1, p2, p3, step);
    assert(unit * n == (unit * a) * p0 + (unit * b) * p1 + (unit * c) * p2 + (unit * d) * p3) by {
        let (e, f, g, h) = (a * p0, b * p1, c * p2, d * p3);
        assert(unit * (e + f + g + h) == unit * e + unit * f + unit * g + unit * h)
            by (nonlinear_arith);
        assert(unit * (a * p0) == (unit * a) * p0) by (nonlinear_arith);
        assert(unit * (b * p1) == (unit * b) * p1) by (nonlinear_arith);
        assert(unit * (c * p2) == (unit * c) * p2) by (nonlinear_arith);
        assert(unit * (d * p3) == (unit * d) * p3) by (nonlinear_arith);
    }
    lemma_cubic_between(p0, p1, p2, p3, i32::MIN as int, i32::MAX as int, step);
    binary64::lemma_nearest_away_near(fourth, unit);
    let r = binary64::nearest_away(fourth, unit);
    assert(-864 <= 1728 * r - n <= 864);
}

/// A flattened cubic curve does not leave the range of the points that define
/// it.
pub proof fn law_cubic_stays_between(
    p0: i32,
    p1: i32,
    p2: i32,
    p3: i32,
    low: int,
    high: int,
    step: int,
)
    requires
        1 <= step <= CURVE_STEPS,
        low <= p0 <= high,
        low <= p1 <= high,
        low <= p2 <= high,
        low <= p3 <= high,
    ensures
        low <= curve::cubic_coordinate(p0 as int, p1 as int, p2 as int, p3 as int, step) <= high,
{
    law_cubic_points_are_nearest(p0, p1, p2, p3, step);
    lemma_cubic_between(p0 as int, p1 as int, p2 as int, p3 as int, low, high, step);
}

/// A flattened cubic curve ends exactly where the curve does.
pub proof fn law_cubic_ends_at_its_end(p0: i32, p1: i32, p2: i32, p3: i32)
    ensures
        curve::cubic_coordinate(
            p0 as int,
            p1 as int,
            p2 as int,
            p3 as int,
            CURVE_STEPS as int,
        ) == p3,
{
    law_cubic_points_are_nearest(p0, p1, p2, p3, 12);
    assert(cubic_point_1728(p0 as int, p1 as int, p2 as int, p3 as int, 12) == 1728 * p3) by {
        assert(((0int * 0) * 0) * p0 == 0) by (nonlinear_arith);
        assert((3 * ((0int * 0) * 12)) * p1 == 0) by (nonlinear_arith);
        assert((3 * ((0int * 12) * 12)) * p2 == 0) by (nonlinear_arith);
        assert(((12int * 12) * 12) * p3 == 1728 * p3) by (nonlinear_arith);
    }
}

/// What fits in a double at some scale is not rounded.
proof fn lemma_not_rounded(n: int, m: int, k: nat)
    requires
        n == pow2(k) * m,
        -0x20_0000_0000_0000 < m < 0x20_0000_0000_0000,
    ensures
        binary64::rounded(n) == n,
{
    binary64::lemma_rounded_scaled(m, k);
    binary64::lemma_rounded_near(m);
}

/// The powers of two that quarters are counted by.
proof fn lemma_quarter_powers()
    ensures
        pow2(54) == 0x40_0000_0000_0000,
        pow2(55) == 0x80_0000_0000_0000,
        pow2(56) == 0x100_0000_0000_0000,
        pow2(58) == 0x400_0000_0000_0000,
        pow2(108) == 0x1000_0000_0000_0000_0000_0000_0000,
        pow2(110) == 0x4000_0000_0000_0000_0000_0000_0000,
{
    lemma2_to64();
    lemma2_to64_rest();
    lemma_pow2_adds(54, 54);
    lemma_pow2_adds(55, 55);
}

/// At a quarter, at half and at three quarters, the parameter is exact.
proof fn lemma_quarter(step: int, k: int)
    requires
        step == 3 * k,
        1 <= k <= 3,
    ensures
        curve::parameter(step) == 0x40_0000_0000_0000 * k,
        curve::complement(step) == 0x40_0000_0000_0000 * (4 - k),
{
    lemma_quarter_powers();
    let n = 0x100_0000_0000_0000 * step;
    assert(n / 12 == 0x40_0000_0000_0000 * k);
    reveal_with_fuel(binary64::ulp, 6);
    let u = binary64::ulp(n / 12);
    assert(u == 4 || u == 8);
    if u == 4 {
        assert(n % 48 == 0 && 4 * (n / 48) == 0x40_0000_0000_0000 * k);
    } else {
        assert(n % 96 == 0 && 8 * (n / 96) == 0x40_0000_0000_0000 * k);
    }
    lemma_not_rounded(0x40_0000_0000_0000 * (4 - k), 4 - k, 54);
}

/// At a quarter, at half and at three quarters of a quadratic curve nothing is lost, and
/// what is half-way between two units goes away from zero.
pub proof fn law_quad_quarters_are_exact(p0: i32, p1: i32, p2: i32, step: int)
    requires
        step == 3 || step == 6 || step == 9,
    ensures
        ({
            let c = curve::quad_coordinate(p0 as int, p1 as int, p2 as int, step);
            let exact = quad_point_144(p0 as int, p1 as int, p2 as int, step);
            &&& -72 <= 144 * c - exact <= 72
            &&& 144 * c - exact == -72 ==> exact < 0
            &&& 144 * c - exact == 72 ==> 0 < exact
        }),
{
    let k = step / 3;
    let (a, p0, p1, p2) = (4 - k, p0 as int, p1 as int, p2 as int);
    lemma_quarter(step, k);
    lemma_quarter_powers();
    let (t, v) = (curve::parameter(step), curve::complement(step));
    assert(a * p0 == (4 - k) * p0);
    assert(-0x2_0000_0000 <= k * p1 <= 0x2_0000_0000 && -0x2_0000_0000 <= a * p0 <= 0x2_0000_0000
        && -0x8_0000_0000 <= (k * k) * p2 <= 0x8_0000_0000) by (nonlinear_arith)
        requires
            1 <= k <= 3,
            1 <= a <= 3,
            -0x8000_0000 <= p0 < 0x8000_0000,
            -0x8000_0000 <= p1 < 0x8000_0000,
            -0x8000_0000 <= p2 < 0x8000_0000,
    ;
    assert(2 * t * p1 == 0x80_0000_0000_0000 * (k * p1)) by (nonlinear_arith)
        requires
            t == 0x40_0000_0000_0000 * k,
    ;
    lemma_not_rounded(2 * t * p1, k * p1, 55);
    let first = a * p0 + 2 * (k * p1);
    assert(v * p0 == 0x40_0000_0000_0000 * (a * p0)) by (nonlinear_arith)
        requires
            v == 0x40_0000_0000_0000 * a,
    ;
    lemma_not_rounded(v * p0 + 2 * t * p1, first, 54);
    let leading = 0x40_0000_0000_0000 * first;
    assert(t * t == 0x1000_0000_0000_0000_0000_0000_0000 * (k * k)) by (nonlinear_arith)
        requires
            t == 0x40_0000_0000_0000 * k,
    ;
    assert(1 <= k * k <= 9) by (nonlinear_arith)
        requires
            1 <= k <= 3,
    ;
    lemma_not_rounded(t * t, k * k, 108);
    let square = binary64::rounded_product(t, t);
    assert(square == 0x100_0000_0000_0000 * (k * k));
    assert(square * p2 == 0x100_0000_0000_0000 * ((k * k) * p2)) by (nonlinear_arith)
        requires
            square == 0x100_0000_0000_0000 * (k * k),
    ;
    lemma_not_rounded(square * p2, (k * k) * p2, 56);
    let all = a * first + (k * k) * p2;
    assert(-0x20_0000_0000 <= a * first <= 0x20_0000_0000) by (nonlinear_arith)
        requires
            1 <= a <= 3,
            -0x6_0000_0000 <= first <= 0x6_0000_0000,
    ;
    assert(v * leading == 0x1000_0000_0000_0000_0000_0000_0000 * (a * first)) by (nonlinear_arith)
        requires
            v == 0x40_0000_0000_0000 * a,
            leading == 0x40_0000_0000_0000 * first,
    ;
    let sum = v * leading + 0x10_0000_0000_0000 * (square * p2);
    lemma_not_rounded(sum, all, 108);
    binary64::lemma_nearest_away_scaled(all, 16, 0x1000_0000_0000_0000_0000_0000_0000);
    let exact = quad_point_144(p0, p1, p2, step);
    assert(exact == 9 * all) by (nonlinear_arith)
        requires
            exact == ((12 - step) * (12 - step)) * p0 + (2 * (step * (12 - step))) * p1 + (step
                * step) * p2,
            all == a * (a * p0 + 2 * (k * p1)) + (k * k) * p2,
            step == 3 * k,
            a == 4 - k,
    ;
    let c = binary64::nearest_away(all, 16);
    assert(-0x8000_0000 <= c < 0x8000_0000) by {
        law_quad_points_are_nearest(p0 as i32, p1 as i32, p2 as i32, step);
        law_quad_stays_between(p0 as i32, p1 as i32, p2 as i32, -0x8000_0000, 0x7fff_ffff, step);
        assert(-16 * 0x8000_0000 <= all <= 16 * 0x7fff_ffff) by (nonlinear_arith)
            requires
                all == a * (a * p0 + 2 * (k * p1)) + (k * k) * p2,
                a + k == 4,
                1 <= k <= 3,
                -0x8000_0000 <= p0 <= 0x7fff_ffff,
                -0x8000_0000 <= p1 <= 0x7fff_ffff,
                -0x8000_0000 <= p2 <= 0x7fff_ffff,
        ;
    }
}

/// The product of quarters is exact.
proof fn lemma_quarter_product(x: int, y: int, m: int, n: int, j: nat)
    requires
        j == 54 || j == 56,
        x == pow2(j) * m,
        y == 0x40_0000_0000_0000 * n,
        0 <= m <= 100,
        0 <= n <= 3,
    ensures
        binary64::rounded_product(x, y) == pow2((j + 2) as nat) * (m * n),
{
    lemma_quarter_powers();
    let all = m * n;
    assert(0 <= all <= 300) by (nonlinear_arith)
        requires
            all == m * n,
            0 <= m <= 100,
            0 <= n <= 3,
    ;
    if j == 54 {
        assert(x * y == 0x1000_0000_0000_0000_0000_0000_0000 * all) by (nonlinear_arith)
            requires
                x == 0x40_0000_0000_0000 * m,
                y == 0x40_0000_0000_0000 * n,
                all == m * n,
        ;
        lemma_not_rounded(x * y, all, 108);
        assert(pow2(56) * all == 0x100_0000_0000_0000 * all);
    } else {
        assert(x * y == 0x4000_0000_0000_0000_0000_0000_0000 * all) by (nonlinear_arith)
            requires
                x == 0x100_0000_0000_0000 * m,
                y == 0x40_0000_0000_0000 * n,
                all == m * n,
        ;
        lemma_not_rounded(x * y, all, 110);
        assert(pow2(58) * all == 0x400_0000_0000_0000 * all);
    }
}

/// The weights of a cubic curve at a quarter are exact.
proof fn lemma_quarter_weights(step: int, k: int)
    requires
        step == 3 * k,
        1 <= k <= 3,
    ensures
        ({
            let a = 4 - k;
            let w = curve::cubic_weights(step);
            &&& w.0 == 0x400_0000_0000_0000 * ((a * a) * a)
            &&& w.1 == 0x400_0000_0000_0000 * (((3 * a) * a) * k)
            &&& w.2 == 0x400_0000_0000_0000 * (((3 * a) * k) * k)
            &&& w.3 == 0x400_0000_0000_0000 * ((k * k) * k)
        }),
{
    let a = 4 - k;
    lemma_quarter(step, k);
    lemma_quarter_powers();
    let (t, v) = (curve::parameter(step), curve::complement(step));
    let triple = binary64::rounded(3 * v);
    lemma_not_rounded(3 * v, 3 * a, 54);
    assert(1 <= a * a <= 9 && 1 <= k * k <= 9 && 1 <= (3 * a) * a <= 27 && 1 <= (3 * a) * k <= 27)
        by (nonlinear_arith)
        requires
            1 <= k <= 3,
            1 <= a <= 3,
    ;
    lemma_quarter_product(v, v, a, a, 54);
    lemma_quarter_product(triple, v, 3 * a, a, 54);
    lemma_quarter_product(triple, t, 3 * a, k, 54);
    lemma_quarter_product(t, t, k, k, 54);
    lemma_quarter_product(binary64::rounded_product(v, v), v, a * a, a, 56);
    lemma_quarter_product(binary64::rounded_product(triple, v), t, (3 * a) * a, k, 56);
    lemma_quarter_product(binary64::rounded_product(triple, t), t, (3 * a) * k, k, 56);
    lemma_quarter_product(binary64::rounded_product(t, t), t, k * k, k, 56);
}

/// At a quarter, at half and at three quarters of a cubic curve nothing is lost, and
/// what is half-way between two units goes away from zero.
pub proof fn law_cubic_quarters_are_exact(p0: i32, p1: i32, p2: i32, p3: i32, step: int)
    requires
        step == 3 || step == 6 || step == 9,
    ensures
        ({
            let (q0, q1, q2, q3) = (p0 as int, p1 as int, p2 as int, p3 as int);
            let c = curve::cubic_coordinate(q0, q1, q2, q3, step);
            let exact = cubic_point_1728(q0, q1, q2, q3, step);
            &&& -864 <= 1728 * c - exact <= 864
            &&& 1728 * c - exact == -864 ==> exact < 0
            &&& 1728 * c - exact == 864 ==> 0 < exact
        }),
{
    let k = step / 3;
    let a = 4 - k;
    let (q0, q1, q2, q3) = (p0 as int, p1 as int, p2 as int, p3 as int);
    lemma_quarter_weights(step, k);
    lemma_quarter_powers();
    let w = curve::cubic_weights(step);
    let (m0, m1) = ((a * a) * a, ((3 * a) * a) * k);
    let (m2, m3) = (((3 * a) * k) * k, (k * k) * k);
    assert(m0 + m1 + m2 + m3 == 64) by (nonlinear_arith)
        requires
            m0 == (a * a) * a,
            m1 == ((3 * a) * a) * k,
            m2 == ((3 * a) * k) * k,
            m3 == (k * k) * k,
            a == 4 - k,
    ;
    assert(0 <= m0 && 0 <= m1 && 0 <= m2 && 0 <= m3) by (nonlinear_arith)
        requires
            m0 == (a * a) * a,
            m1 == ((3 * a) * a) * k,
            m2 == ((3 * a) * k) * k,
            m3 == (k * k) * k,
            0 <= a,
            0 <= k,
    ;
    let (n0, n1, n2, n3) = (m0 * q0, m1 * q1, m2 * q2, m3 * q3);
    lemma_weighted_bounds(m0, q0);
    lemma_weighted_bounds(m1, q1);
    lemma_weighted_bounds(m2, q2);
    lemma_weighted_bounds(m3, q3);
    let u = 0x400_0000_0000_0000int;
    assert(w.0 * q0 == u * n0 && w.1 * q1 == u * n1 && w.2 * q2 == u * n2 && w.3 * q3 == u * n3)
        by (nonlinear_arith)
        requires
            w.0 == u * m0,
            w.1 == u * m1,
            w.2 == u * m2,
            w.3 == u * m3,
            n0 == m0 * q0,
            n1 == m1 * q1,
            n2 == m2 * q2,
            n3 == m3 * q3,
    ;
    lemma_not_rounded(u * n0, n0, 58);
    lemma_not_rounded(w.1 * q1 + u * n0, n0 + n1, 58);
    lemma_not_rounded(w.2 * q2 + u * (n0 + n1), n0 + n1 + n2, 58);
    let all = n0 + n1 + n2 + n3;
    lemma_not_rounded(w.3 * q3 + u * (n0 + n1 + n2), all, 58);
    binary64::lemma_nearest_away_scaled(all, 64, u);
    let exact = cubic_point_1728(q0, q1, q2, q3, step);
    let rest = 12 - step;
    assert((rest * rest) * rest == 27 * m0 && 3 * ((rest * rest) * step) == 27 * m1 && 3 * ((rest
        * step) * step) == 27 * m2 && (step * step) * step == 27 * m3) by (nonlinear_arith)
        requires
            m0 == (a * a) * a,
            m1 == ((3 * a) * a) * k,
            m2 == ((3 * a) * k) * k,
            m3 == (k * k) * k,
            rest == 3 * a,
            step == 3 * k,
    ;
    assert((27 * m0) * q0 == 27 * n0 && (27 * m1) * q1 == 27 * n1 && (27 * m2) * q2 == 27 * n2
        && (27 * m3) * q3 == 27 * n3) by (nonlinear_arith)
        requires
            n0 == m0 * q0,
            n1 == m1 * q1,
            n2 == m2 * q2,
            n3 == m3 * q3,
    ;
    doubles::law_halves_go_away_from_zero(all, 64);
}

proof fn lemma_weighted_bounds(m: int, q: int)
    requires
        0 <= m <= 64,
        i32::MIN <= q <= i32::MAX,
    ensures
        m * i32::MIN <= m * q <= m * i32::MAX,
        -0x20_0000_0000 <= m * q <= 0x20_0000_0000,
{
    assert(m * i32::MIN <= m * q <= m * i32::MAX) by (nonlinear_arith)
        requires
            0 <= m,
            i32::MIN <= q <= i32::MAX,
    ;
}

} // verus!
