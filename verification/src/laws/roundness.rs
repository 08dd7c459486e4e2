//! How round circles, discs and strokes are.
use crate::angle;
use crate::angle::{SIXTEENTH_COSINE, WHOLE};
use crate::binary64;
use crate::curve;
use crate::edge;
use crate::path;
use crate::path::Cmd;
use crate::root;
use crate::stroke;
use vstd::arithmetic::power2::*;
use vstd::prelude::*;

verus! {

/// A coordinate is between two units, if the way to it nearly is.
proof fn lemma_placed_between(center: int, way: int, low: int, high: int)
    requires
        -0x1_0000_0000 <= low <= high <= 0x1_0000_0000,
        low * WHOLE - 0x100_0000_0000 <= WHOLE * center + way <= high * WHOLE + 0x100_0000_0000,
    ensures
        curve::saturated(low) <= angle::placed(center, way) <= curve::saturated(high),
{
    let sum = WHOLE * center + way;
    binary64::lemma_rounded_near(sum);
    binary64::lemma_nearest_away_near(binary64::rounded(sum), WHOLE as int);
}

/// A circle does not reach further from its centre than its radius.
pub proof fn law_a_circle_stays_within_its_radius(center: int, r: int, c: int)
    requires
        i32::MIN <= center <= i32::MAX,
        0 <= r <= i32::MAX,
        -WHOLE <= c <= WHOLE,
    ensures
        curve::saturated(center - r) <= angle::on_circle(center, r, c) <= curve::saturated(
            center + r,
        ),
{
    assert(-(r * WHOLE) <= r * c <= r * WHOLE) by (nonlinear_arith)
        requires
            0 <= r,
            -0x40_0000_0000_0000 <= c <= 0x40_0000_0000_0000,
    ;
    binary64::lemma_rounded_near(r * c);
    lemma_placed_between(center, binary64::rounded(r * c), center - r, center + r);
}

/// A circle starts right of its centre, at the distance of its radius.
pub proof fn law_a_circle_starts_at_its_right(cx: int, cy: int, r: int)
    requires
        i32::MIN <= cx <= i32::MAX,
        i32::MIN <= cy <= i32::MAX,
        0 <= r <= i32::MAX,
    ensures
        path::circle(cx, cy, r)[0] == Cmd::Move(curve::saturated(cx + r) as i32, cy as i32),
{
    assert(r * 0 == 0);
    binary64::lemma_rounded_near(r * WHOLE);
    binary64::lemma_rounded_near(0);
    lemma_placed_between(cx, binary64::rounded(r * WHOLE), cx + r, cx + r);
    lemma_placed_between(cy, 0, cy, cy);
}

/// Nor do the points where its tangents meet, along either axis: what is beyond
/// the radius is lost to rounding.
pub proof fn law_tangents_stay_within_the_radius(center: int, r: int, c: int)
    requires
        i32::MIN <= center <= i32::MAX,
        0 <= r <= i32::MAX,
        -SIXTEENTH_COSINE - 2 <= c <= SIXTEENTH_COSINE + 2,
    ensures
        curve::saturated(center - r) <= angle::on_tangents(center, r, c) <= curve::saturated(
            center + r,
        ),
{
    let d = SIXTEENTH_COSINE as int;
    let k = angle::tangent_radius(r);
    lemma_tangent_radius(r);
    let e = if c < 0 {
        -c
    } else {
        c
    };
    assert(0 <= k * e <= k * (d + 2)) by (nonlinear_arith)
        requires
            0 <= k,
            0 <= e <= d + 2,
    ;
    assert(k * (d + 2) == k * d + 2 * k) by (nonlinear_arith);
    assert(k * c == k * e || k * c == -(k * e)) by (nonlinear_arith)
        requires
            c == e || c == -e,
    ;
    let product = k * c;
    binary64::lemma_rounded_near(product);
    let way = binary64::rounded_product(k, c);
    lemma_placed_between(center, way, center - r, center + r);
}

/// A circle comes back to where it starts.
pub proof fn law_a_circle_comes_back(cx: int, cy: int, r: int)
    ensures
        path::circle(cx, cy, r).len() == 10,
        path::circle(cx, cy, r)[0] == path::circle_start(cx, cy, r),
        path::circle_start(cx, cy, r) matches Cmd::Move(sx, sy) && path::circle(cx, cy, r)[8]
            matches Cmd::Quad(_, _, x, y) && x == sx && y == sy,
        path::circle(cx, cy, r)[9] == Cmd::Close,
{
    assert(path::circle(cx, cy, r)[8] == path::eighth(cx, cy, r, 7));
}

/// A number of units that is nearest to a double near the root of a multiple of
/// a square.
proof fn lemma_near_root(k: int, v: int, r: int, c: int, g: int)
    requires
        0 <= r <= 0x10_0000,
        0 <= k,
        WHOLE / 4 <= c <= 2 * WHOLE,
        r * (c - 16) <= v <= r * (c + 16),
        -(WHOLE + 0x1000_0000) <= 2 * (WHOLE * k - v) <= WHOLE + 0x1000_0000,
        4 * ((c + 16) * (c + 16)) <= g * 0x1000_0000_0000_0000_0000_0000_0000
            + 0x1_0000_0000_0000_0000,
        g * 0x1000_0000_0000_0000_0000_0000_0000 - 0x1_0000_0000_0000_0000 <= 4 * ((c - 16) * (c
            - 16)),
        0 <= g <= 8,
    ensures
        k == 0 || (2 * k - 1) * (2 * k - 1) <= g * (r * r),
        g * (r * r) <= (2 * k + 1) * (2 * k + 1),
{
    let w = WHOLE as int;
    let ww = 0x1000_0000_0000_0000_0000_0000_0000int;
    let rr = r * r;
    assert(0 <= rr <= 0x100_0000_0000) by (nonlinear_arith)
        requires
            rr == r * r,
            0 <= r <= 0x10_0000,
    ;
    let s = 0x1000_0000int;
    let (x, y) = (2 * (r * (c + 16)) + s, 2 * (r * (c - 16)) - s);
    let (a, b) = (r * (c + 16), r * (c - 16));
    assert(0 <= a <= 0x10_0000 * (2 * w + 16) && 0 <= b <= 0x20_0000 * w) by (nonlinear_arith)
        requires
            a == r * (c + 16),
            b == r * (c - 16),
            0 <= r <= 0x10_0000,
            16 <= c <= 2 * w,
            16 <= w,
    ;
    assert(x * x == 4 * (a * a) + 4 * (s * a) + s * s) by (nonlinear_arith)
        requires
            x == 2 * a + s,
    ;
    assert(y * y == 4 * (b * b) - 4 * (s * b) + s * s) by (nonlinear_arith)
        requires
            y == 2 * b - s,
    ;
    let (cc, dd) = ((c + 16) * (c + 16), (c - 16) * (c - 16));
    assert(a * a == rr * cc) by (nonlinear_arith)
        requires
            a == r * (c + 16),
            rr == r * r,
            cc == (c + 16) * (c + 16),
    ;
    assert(b * b == rr * dd) by (nonlinear_arith)
        requires
            b == r * (c - 16),
            rr == r * r,
            dd == (c - 16) * (c - 16),
    ;
    let off = 0x1_0000_0000_0000_0000int;
    assert(4 * (rr * cc) <= rr * (g * ww + off)) by (nonlinear_arith)
        requires
            4 * cc <= g * ww + off,
            0 <= rr,
    ;
    assert(rr * (g * ww - off) <= 4 * (rr * dd)) by (nonlinear_arith)
        requires
            g * ww - off <= 4 * dd,
            0 <= rr,
    ;
    assert(rr * (g * ww + off) == ww * (g * rr) + off * rr && rr * (g * ww - off) == ww * (g * rr)
        - off * rr) by (nonlinear_arith);
    let target = g * rr;
    assert(x * x < ww * (target + 1));
    assert(ww * (target - 1) < y * y || y < 0) by {
        assert(s * s >= 0);
    }
    let (o, q) = (2 * k - 1, 2 * k + 1);
    if k > 0 {
        assert(w * o <= x);
        assert((w * o) * (w * o) <= x * x) by (nonlinear_arith)
            requires
                0 <= w * o <= x,
        ;
        assert((w * o) * (w * o) == ww * (o * o)) by (nonlinear_arith)
            requires
                w * w == ww,
        ;
        assert(o * o < target + 1) by (nonlinear_arith)
            requires
                ww * (o * o) < ww * (target + 1),
                ww > 0,
        ;
    }
    assert(y <= w * q);
    assert((w * q) * (w * q) == ww * (q * q)) by (nonlinear_arith)
        requires
            w * w == ww,
    ;
    if y >= 0 {
        assert(y * y <= (w * q) * (w * q)) by (nonlinear_arith)
            requires
                0 <= y <= w * q,
        ;
        assert(target - 1 < q * q) by (nonlinear_arith)
            requires
                ww * (target - 1) < ww * (q * q),
                ww > 0,
        ;
    } else {
        // Only without a radius.
        assert(r == 0) by (nonlinear_arith)
            requires
                2 * (r * (c - 16)) - s < 0,
                s == 0x1000_0000,
                0 <= r,
                0x10_0000_0000_0000 <= c,
        ;
        assert(q * q >= 0) by (nonlinear_arith);
        assert(g * 0 == 0);
    }
}

/// Up to a radius of `2^20`, the corners of a disc that lie neither on an axis
/// nor at half the radius are units nearest to the circle: twice their offset is
/// nearest to the radius times the root of three.
pub proof fn law_disc_corners_are_nearest(r: int, c: int)
    requires
        0 <= r <= 0x10_0000,
        15600926743107920 <= c <= 15600926743107928,
    ensures
        ({
            let n = angle::turned(r, c);
            &&& 0 <= n <= r
            &&& n == 0 || (2 * n - 1) * (2 * n - 1) <= 3 * (r * r)
            &&& 3 * (r * r) <= (2 * n + 1) * (2 * n + 1)
        }),
{
    let v = binary64::rounded(r * c);
    lemma_product_near(r, c);
    binary64::lemma_nearest_away_near(v, WHOLE as int);
    angle::lemma_turned(r, c);
    let n = angle::turned(r, c);
    assert(0 <= n) by {
        binary64::lemma_rounded_near(r * c);
    }
    lemma_root_of_three(c);
    lemma_near_root(n, v, r, c, 3);
}

proof fn lemma_root_of_three(c: int)
    requires
        15600926743107920 <= c <= 15600926743107928,
    ensures
        4 * ((c + 16) * (c + 16)) <= 3 * 0x1000_0000_0000_0000_0000_0000_0000
            + 0x1_0000_0000_0000_0000,
        3 * 0x1000_0000_0000_0000_0000_0000_0000 - 0x1_0000_0000_0000_0000 <= 4 * ((c - 16) * (c
            - 16)),
{
    assert((c + 16) * (c + 16) <= 15600926743107944 * 15600926743107944) by (nonlinear_arith)
        requires
            0 <= c + 16 <= 15600926743107944,
    ;
    assert(15600926743107904 * 15600926743107904 <= (c - 16) * (c - 16)) by (nonlinear_arith)
        requires
            15600926743107904 <= c - 16,
    ;
}

proof fn lemma_product_near(r: int, c: int)
    requires
        0 <= r <= 0x10_0000,
        0 <= c <= WHOLE,
    ensures
        r * (c - 16) <= binary64::rounded(r * c) <= r * (c + 16),
        0 <= binary64::rounded(r * c),
{
    assert(0 <= r * c <= r * WHOLE) by (nonlinear_arith)
        requires
            0 <= r,
            0 <= c <= 0x40_0000_0000_0000,
    ;
    binary64::lemma_rounded_near(r * c);
    assert(r * (c - 16) == r * c - 16 * r && r * (c + 16) == r * c + 16 * r) by (nonlinear_arith);
}

/// Up to `2^20` from the origin, the ends of the arcs of a circle that do not lie
/// on an axis are units nearest to the circle: twice their offset is nearest to
/// the radius times the root of two.
pub proof fn law_arc_ends_are_nearest(center: int, r: int, c: int)
    requires
        0 <= r,
        -0x10_0000 <= center - r && center + r <= 0x10_0000,
        12738103345051542 <= c <= 12738103345051548,
    ensures
        ({
            let n = angle::on_circle(center, r, c) - center;
            &&& 0 <= n <= r
            &&& n == 0 || (2 * n - 1) * (2 * n - 1) <= 2 * (r * r)
            &&& 2 * (r * r) <= (2 * n + 1) * (2 * n + 1)
        }),
{
    let v = binary64::rounded(r * c);
    lemma_product_near(r, c);
    law_a_circle_stays_within_its_radius(center, r, c);
    let sum = WHOLE * center + v;
    binary64::lemma_rounded_near(sum);
    binary64::lemma_nearest_away_near(binary64::rounded(sum), WHOLE as int);
    assert(v <= r * (WHOLE + 16)) by (nonlinear_arith)
        requires
            v <= r * (c + 16),
            c <= WHOLE,
            0 <= r,
    ;
    let n = angle::on_circle(center, r, c) - center;
    assert((c + 16) * (c + 16) <= 12738103345051564 * 12738103345051564) by (nonlinear_arith)
        requires
            0 <= c + 16 <= 12738103345051564,
    ;
    assert(12738103345051526 * 12738103345051526 <= (c - 16) * (c - 16)) by (nonlinear_arith)
        requires
            12738103345051526 <= c - 16,
    ;
    assert(0 <= n) by {
        lemma_placed_between(center, v, center, center + r);
    }
    lemma_near_root(n, v, r, c, 2);
}

/// Up to `2^20` from the origin, where the tangents at both ends of an arc meet,
/// one coordinate is that of the
/// end on the axis, and the other is the nearest unit: twice the sum of offset
/// and radius is nearest to twice the radius times the root of two.
pub proof fn law_tangents_meet_at_the_nearest_unit(center: int, r: int, c: int)
    requires
        0 <= r,
        -0x10_0000 <= center - r && center + r <= 0x10_0000,
        SIXTEENTH_COSINE - 4 <= c <= SIXTEENTH_COSINE + 2 || 6893811853601121 <= c
            <= 6893811853601134,
    ensures
        ({
            let n = angle::on_tangents(center, r, c) - center;
            &&& SIXTEENTH_COSINE - 4 <= c ==> n == r
            &&& c < SIXTEENTH_COSINE - 4 ==> {
                &&& 0 <= n <= r
                &&& n + r == 0 || (2 * (n + r) - 1) * (2 * (n + r) - 1) <= 8 * (r * r)
                &&& 8 * (r * r) <= (2 * (n + r) + 1) * (2 * (n + r) + 1)
            }
        }),
{
    let k = angle::tangent_radius(r);
    let way = binary64::rounded_product(k, c);
    lemma_tangent_way(r, c);
    if SIXTEENTH_COSINE - 4 <= c {
        lemma_placed_between(center, way, center + r, center + r);
    } else {
        lemma_placed_between(center, way, center, center + r);
        let n = angle::on_tangents(center, r, c) - center;
        let sum = WHOLE * center + way;
        binary64::lemma_rounded_near(sum);
        binary64::lemma_nearest_away_near(binary64::rounded(sum), WHOLE as int);
        let both = 25476206690103090int;
        assert(r * (both - 16) == both * r - 16 * r && r * (both + 16) == both * r + 16 * r)
            by (nonlinear_arith);
        lemma_near_root(n + r, way + r * WHOLE, r, both, 8);
    }
}

/// How far from the centre tangents meet along an axis.
proof fn lemma_tangent_way(r: int, c: int)
    requires
        0 <= r <= 0x10_0000,
        SIXTEENTH_COSINE - 4 <= c <= SIXTEENTH_COSINE + 2 || 6893811853601121 <= c
            <= 6893811853601134,
    ensures
        ({
            let way = binary64::rounded_product(angle::tangent_radius(r), c);
            &&& SIXTEENTH_COSINE - 4 <= c ==> r * (WHOLE - 16) <= way <= r * (WHOLE + 16)
            &&& c < SIXTEENTH_COSINE - 4 ==> r * 7461808180621090 <= way <= r * 7461808180621122
        }),
{
    let d = SIXTEENTH_COSINE as int;
    let k = angle::tangent_radius(r);
    lemma_tangent_radius(r);
    let product = k * c;
    binary64::lemma_rounded_near(product);
    let turned = binary64::rounded(product);
    let way = binary64::rounded_product(k, c);
    let (low, high) = if d - 4 <= c {
        (d - 4, d + 2)
    } else {
        (6893811853601121, 6893811853601134)
    };
    assert(low * k <= product <= high * k) by (nonlinear_arith)
        requires
            product == k * c,
            low <= c <= high,
            0 <= k,
    ;
    assert(0 <= product);
    assert(0x10_0000_0000_0000 * way <= turned < 0x10_0000_0000_0000 * way + 0x10_0000_0000_0000);
    assert(r * (WHOLE - 16) == WHOLE * r - 16 * r && r * (WHOLE + 16) == WHOLE * r + 16 * r)
        by (nonlinear_arith);
    if r == 0 {
        assert(0 * c == 0);
    }
}

/// The radius at which tangents meet.
pub proof fn lemma_tangent_radius(r: int)
    requires
        0 <= r,
    ensures
        ({
            let k = angle::tangent_radius(r);
            &&& 0 <= k
            &&& r == 0 ==> k == 0
            &&& r * 0x400_0000_0000_0000_0000_0000_0000 - r * 0x20_0000_0000_0000 <= k
                * SIXTEENTH_COSINE <= r * 0x400_0000_0000_0000_0000_0000_0000 + r
                * 0x20_0000_0000_0000
            &&& k <= r * 0x20_0000_0000_0000
        }),
{
    let d = SIXTEENTH_COSINE as int;
    let k = angle::tangent_radius(r);
    let p = pow2(106) as int;
    lemma2_to64_rest();
    lemma_pow2_adds(53, 53);
    let n = r * p;
    let one = 0x10_0000_0000_0000int;
    if r == 0 {
        assert(n == 0);
        assert(0int / d == 0);
    } else {
        assert(one * d <= n) by (nonlinear_arith)
            requires
                n == r * p,
                1 <= r,
                0 <= p,
                one * d <= p,
        ;
        binary64::lemma_rounded_quotient_near(n, d);
    }
}

/// A stroke is moved to either side by its radius: its share along either axis
/// is on the side that the segment points to, and no longer than the radius.
pub proof fn law_a_stroke_is_moved_by_its_radius(r: int, d: int, square: int)
    requires
        1 <= r <= 0x3fff_ffff,
        0 < square <= 0x4_0000_0000_0000_0000,
        d * d <= square,
    ensures
        ({
            let n = stroke::component(r, d, square);
            &&& -r <= n <= r
            &&& 0 <= d ==> 0 <= n
            &&& d <= 0 ==> n <= 0
        }),
{
    stroke::lemma_component_within(r, d, square);
}

/// A stroke is moved to the nearest unit: twice the share of the radius along an axis,
/// squared, is to four times the square of the radius as the square of the way is to that
/// of the length, up to one unit of twice the share to either side and a few parts in
/// `2^53`.
pub proof fn law_a_stroke_is_moved_nearly_to_the_nearest_unit(r: int, d: int, square: int)
    requires
        1 <= r <= 0x3fff_ffff,
        0 < square <= 0x4_0000_0000_0000_0000,
        d * d <= square,
    ensures
        ({
            let n = edge::magnitude(stroke::component(r, d, square));
            let exact = (2 * r * d) * (2 * r * d);
            &&& n == 0 || nearly_at_most((2 * n - 1) * (2 * n - 1) * square, exact, 11)
            &&& nearly_at_most(exact, (2 * n + 1) * (2 * n + 1) * square, 17)
        }),
{
    let a = edge::magnitude(d);
    stroke::lemma_component_signed(r, d, square);
    stroke::lemma_component_within(r, d, square);
    let n = edge::magnitude(stroke::component(r, d, square));
    let (m, j) = root::lemma_length_parts(square);
    let (h, u) = (root::length(square), pow2(j) as int);
    let ra = r * a;
    let rr = ra * ra;
    assert((2 * r * d) * (2 * r * d) == 4 * rr) by (nonlinear_arith)
        requires
            rr == (r * a) * (r * a),
            a == d || a == -d,
    ;
    if a == 0 {
        assert(r * 0 == 0);
        assert((2 * n + 1) * (2 * n + 1) * square >= 0) by (nonlinear_arith)
            requires
                0 <= n,
                0 < square,
        ;
    } else {
        let (q, v) = (stroke::ratio(a, square), binary64::rounded(r * stroke::ratio(a, square)));
        lemma_powers();
        lemma_pow2_pos(j);
        assert(0x10_0000_0000_0000 * u <= h <= 0x40_0000_0000_0000_0000_0000) by {
            lemma2_to64();
            lemma2_to64_rest();
            if j < 33 {
                lemma_pow2_strictly_increases(j, 33);
            }
            assert(0x10_0000_0000_0000 * u <= u * m <= 0x20_0000_0000_0000 * u) by (nonlinear_arith)
                requires
                    0x10_0000_0000_0000 <= m <= 0x20_0000_0000_0000,
                    0 < u,
            ;
        }
        let big = a * pow2(172);
        assert(0x10_0000_0000_0000 * h <= big) by (nonlinear_arith)
            requires
                big == a * pow2(172),
                1 <= a,
                0x10_0000_0000_0000 * h <= pow2(172),
        ;
        binary64::lemma_rounded_quotient_near(big, h);
        assert(a * a == d * d) by (nonlinear_arith)
            requires
                a == d || a == -d,
        ;
        stroke::lemma_component_at_most(a, square);
        stroke::lemma_component_within(r, a, square);
        assert(0 <= r * q) by (nonlinear_arith)
            requires
                0 <= r,
                0 <= q,
        ;
        binary64::lemma_rounded_near(r * q);
        lemma_pow2_pos(120);
        binary64::lemma_nearest_away_near(v, pow2(120) as int);
        assert(0 <= ra) by (nonlinear_arith)
            requires
                ra == r * a,
                0 <= r,
                0 <= a,
        ;
        lemma_share_upper(n, v, r, q, a, h, u, square);
        lemma_share_lower(n, v, r, q, a, h, u, square);
    }
}

/// As long as the radius times the way along an axis is at most `2^23`, its share
/// of the radius is the nearest unit: twice the share, squared, is to four times
/// the square of the radius as the square of the way is to that of the length.
pub proof fn law_a_stroke_is_moved_to_the_nearest_unit(r: int, d: int, square: int)
    requires
        1 <= r <= 0x3fff_ffff,
        0 < square <= 0x4_0000_0000_0000_0000,
        d * d <= square,
        r * edge::magnitude(d) <= 0x80_0000,
    ensures
        ({
            let n = edge::magnitude(stroke::component(r, d, square));
            &&& n == 0 || (2 * n - 1) * (2 * n - 1) * square <= (2 * r * d) * (2 * r * d)
            &&& (2 * r * d) * (2 * r * d) <= (2 * n + 1) * (2 * n + 1) * square
        }),
{
    law_a_stroke_is_moved_nearly_to_the_nearest_unit(r, d, square);
    let a = edge::magnitude(d);
    let exact = (2 * r * d) * (2 * r * d);
    assert(exact <= 4 * (0x80_0000 * 0x80_0000)) by (nonlinear_arith)
        requires
            exact == (2 * r * d) * (2 * r * d),
            a == d || a == -d,
            0 <= r * a <= 0x80_0000,
    {
        assert(exact == 4 * ((r * a) * (r * a)));
    }
}

/// A few powers of two.
proof fn lemma_powers()
    ensures
        pow2(106) == 0x400_0000_0000_0000_0000_0000_0000,
        pow2(172) == pow2(52) * pow2(120),
        0x1000_0000_0000_0000_0000_0000_0000_0000_0000 <= pow2(172),
{
    lemma2_to64();
    lemma2_to64_rest();
    lemma_pow2_adds(53, 53);
    lemma_pow2_adds(52, 120);
    lemma_pow2_adds(60, 60);
}

/// Whether one number is at most another one, but for `k` parts in `2^53`.
pub open spec fn nearly_at_most(x: int, y: int, k: int) -> bool {
    0x20_0000_0000_0000 * x <= (0x20_0000_0000_0000 + k) * y
}

proof fn lemma_nearly_again(x: int, y: int, z: int, j: int, k: int)
    requires
        nearly_at_most(x, y, j),
        nearly_at_most(y, z, k),
        0 <= j <= 100,
        0 <= k <= 100,
        0 <= z,
    ensures
        nearly_at_most(x, z, j + k + 1),
{
    let e = 0x20_0000_0000_0000int;
    assert((e + j) * (e * y) <= (e + j) * ((e + k) * z)) by (nonlinear_arith)
        requires
            e * y <= (e + k) * z,
            0 <= e + j,
    ;
    assert((e + j) * (e * y) == e * ((e + j) * y)) by (nonlinear_arith);
    assert(j * k <= 10000 && 0 <= j * k) by (nonlinear_arith)
        requires
            0 <= j <= 100,
            0 <= k <= 100,
    ;
    assert((e + j) * (e + k) == e * (e + j + k) + j * k) by (nonlinear_arith);
    let c = (e + j) * (e + k);
    assert((e + j) * ((e + k) * z) == c * z) by (nonlinear_arith)
        requires
            c == (e + j) * (e + k),
    ;
    assert(c * z <= (e * (e + j + k + 1)) * z) by (nonlinear_arith)
        requires
            c <= e * (e + j + k + 1),
            0 <= z,
    ;
    assert((e * (e + j + k + 1)) * z == e * ((e + j + k + 1) * z)) by (nonlinear_arith);
}

proof fn lemma_nearly_times(x: int, y: int, c: int, k: int)
    requires
        nearly_at_most(x, y, k),
        0 <= c,
    ensures
        nearly_at_most(c * x, c * y, k),
{
    let e = 0x20_0000_0000_0000int;
    assert(c * (e * x) <= c * ((e + k) * y)) by (nonlinear_arith)
        requires
            e * x <= (e + k) * y,
            0 <= c,
    ;
    assert(c * (e * x) == e * (c * x) && c * ((e + k) * y) == (e + k) * (c * y))
        by (nonlinear_arith);
}

proof fn lemma_nearly_divided(x: int, y: int, c: int, k: int)
    requires
        nearly_at_most(c * x, c * y, k),
        0 < c,
    ensures
        nearly_at_most(x, y, k),
{
    let e = 0x20_0000_0000_0000int;
    assert(c * (e * x) == e * (c * x) && c * ((e + k) * y) == (e + k) * (c * y))
        by (nonlinear_arith);
    assert(e * x <= (e + k) * y) by (nonlinear_arith)
        requires
            c * (e * x) <= c * ((e + k) * y),
            0 < c,
    ;
}

proof fn lemma_nearly_squared(x: int, y: int, k: int)
    requires
        nearly_at_most(x, y, k),
        0 <= x,
        0 <= y,
        0 <= k <= 100,
    ensures
        nearly_at_most(x * x, y * y, 2 * k + 1),
{
    lemma_nearly_times(x, y, x, k);
    lemma_nearly_times(x, y, y, k);
    assert(x * y == y * x && 0 <= y * y) by (nonlinear_arith);
    lemma_nearly_again(x * x, x * y, y * y, k, k);
}

/// A share is at most half a unit too long.
proof fn lemma_share_upper(n: int, v: int, r: int, q: int, a: int, h: int, u: int, square: int)
    requires
        0 <= n,
        0 <= r,
        0 <= a,
        0 <= q,
        0 < h,
        0 <= r * a,
        0 < u,
        0x10_0000_0000_0000 * u <= h,
        pow2(106) * square < (2 * h + u) * (2 * h + u),
        nearly_at_most(q * h, a * (pow2(52) * pow2(120)), 1),
        nearly_at_most(v, r * q, 1),
        2 * (pow2(120) * n - v) <= pow2(120),
    ensures
        n == 0 || nearly_at_most((2 * n - 1) * (2 * n - 1) * square, 4 * ((r * a) * (r * a)), 11),
{
    if n > 0 {
        let (p, w, o, ra) = (pow2(120) as int, pow2(52) as int, 2 * n - 1, r * a);
        let (oo, hh, rr, z) = (o * o, h * h, ra * ra, o * o * square);
        lemma_share_products(o, r, q, a, h);
        lemma_pow2_pos(120);
        lemma_pow2_pos(52);
        lemma_share_squares(o, ra, h, square);
        assert(p * o <= 2 * v) by (nonlinear_arith)
            requires
                2 * (p * n - v) <= p,
                o == 2 * n - 1,
        ;
        // The moved end, times the length.
        assert(nearly_at_most(p * o, 2 * (r * q), 1));
        lemma_nearly_times(p * o, 2 * (r * q), h, 1);
        lemma_nearly_times(q * h, a * (w * p), 2 * r, 1);
        lemma_nearly_again(p * (o * h), (2 * r) * (q * h), p * (2 * (w * ra)), 1, 1);
        lemma_nearly_divided(o * h, 2 * (w * ra), p, 3);
        lemma_nearly_squared(o * h, 2 * (w * ra), 3);
        // The square of the length.
        lemma_nearly_squared(2 * h + u, 2 * h, 1);
        assert(nearly_at_most(pow2(106) * square, 4 * hh, 3));
        lemma_nearly_times(pow2(106) * square, 4 * hh, oo, 3);
        lemma_nearly_times((o * h) * (o * h), 4 * (w * w * rr), 4, 7);
        lemma_nearly_again(pow2(106) * z, 4 * (oo * hh), pow2(106) * (4 * rr), 3, 7);
        lemma_pow2_pos(106);
        lemma_nearly_divided(z, 4 * rr, pow2(106) as int, 11);
    }
}

/// A share is at most half a unit too short.
proof fn lemma_share_lower(n: int, v: int, r: int, q: int, a: int, h: int, u: int, square: int)
    requires
        0 <= n,
        0 <= r,
        0 <= a,
        0 <= q,
        0 < h,
        0 < square,
        0 <= r * a,
        0 < u,
        0x10_0000_0000_0000 * u <= h,
        (2 * h - u) * (2 * h - u) <= pow2(106) * square,
        nearly_at_most(a * (pow2(52) * pow2(120)), q * h, 2),
        nearly_at_most(r * q, v, 2),
        2 * (v - pow2(120) * n) <= pow2(120),
    ensures
        nearly_at_most(4 * ((r * a) * (r * a)), (2 * n + 1) * (2 * n + 1) * square, 17),
{
    let (p, w, o, ra) = (pow2(120) as int, pow2(52) as int, 2 * n + 1, r * a);
    let (oo, hh, rr, z) = (o * o, h * h, ra * ra, o * o * square);
    lemma_share_products(o, r, q, a, h);
    lemma_pow2_pos(120);
    lemma_pow2_pos(52);
    lemma_share_squares(o, ra, h, square);
    assert(2 * v <= p * o) by (nonlinear_arith)
        requires
            2 * (v - p * n) <= p,
            o == 2 * n + 1,
    ;
    // The moved end, times the length.
    assert(nearly_at_most(2 * (r * q), p * o, 2));
    lemma_nearly_times(2 * (r * q), p * o, h, 2);
    lemma_nearly_times(a * (w * p), q * h, 2 * r, 2);
    lemma_nearly_again(p * (2 * (w * ra)), (2 * r) * (q * h), p * (o * h), 2, 2);
    lemma_nearly_divided(2 * (w * ra), o * h, p, 5);
    lemma_nearly_squared(2 * (w * ra), o * h, 5);
    // The square of the length.
    lemma_nearly_squared(2 * h, 2 * h - u, 2);
    let (hu, all) = ((2 * h - u) * (2 * h - u), pow2(106) * square);
    assert(nearly_at_most(4 * hh, hu, 5));
    assert(0x20_0000_0000_0005 * hu <= 0x20_0000_0000_0005 * all);
    assert(nearly_at_most(4 * hh, all, 5));
    lemma_nearly_times(4 * hh, pow2(106) * square, oo, 5);
    lemma_nearly_times(4 * (w * w * rr), (o * h) * (o * h), 4, 11);
    lemma_nearly_again(pow2(106) * (4 * rr), 4 * (oo * hh), pow2(106) * z, 11, 5);
    lemma_pow2_pos(106);
    lemma_nearly_divided(4 * rr, z, pow2(106) as int, 17);
}

/// The products that a share is found by, in another order.
proof fn lemma_share_products(o: int, r: int, q: int, a: int, h: int)
    ensures
        ({
            let (p, w, ra) = (pow2(120) as int, pow2(52) as int, r * a);
            &&& h * (p * o) == p * (o * h)
            &&& h * (2 * (r * q)) == (2 * r) * (q * h)
            &&& (2 * r) * (a * (w * p)) == p * (2 * (w * ra))
        }),
{
    let (p, w, ra) = (pow2(120) as int, pow2(52) as int, r * a);
    assert(h * (p * o) == p * (o * h)) by (nonlinear_arith);
    assert(h * (2 * (r * q)) == (2 * r) * (q * h)) by (nonlinear_arith);
    assert((2 * r) * (a * (w * p)) == p * (2 * (w * ra))) by (nonlinear_arith)
        requires
            ra == r * a,
    ;
}

/// The squares that a share is found by, in another order.
proof fn lemma_share_squares(o: int, ra: int, h: int, square: int)
    requires
        0 <= o,
        0 <= ra,
        0 < h,
    ensures
        ({
            let (w, t) = (pow2(52) as int, pow2(106) as int);
            let (oo, hh, rr, z) = (o * o, h * h, ra * ra, o * o * square);
            &&& (2 * (w * ra)) * (2 * (w * ra)) == 4 * (w * w * rr)
            &&& (o * h) * (o * h) == oo * hh
            &&& (2 * h) * (2 * h) == 4 * hh
            &&& oo * (t * square) == t * z
            &&& oo * (4 * hh) == 4 * (oo * hh)
            &&& 4 * (4 * (w * w * rr)) == t * (4 * rr)
            &&& 0 <= o * h && 0 <= w * ra && 0 <= oo * hh && 0 <= oo && 0 <= t * (4 * rr)
            &&& 0 <= rr
        }),
{
    let (w, t) = (pow2(52) as int, pow2(106) as int);
    let (oo, hh, rr, z) = (o * o, h * h, ra * ra, o * o * square);
    lemma_pow2_adds(52, 52);
    lemma_pow2_adds(2, 104);
    lemma2_to64();
    lemma_pow2_pos(52);
    lemma_pow2_pos(106);
    assert((2 * (w * ra)) * (2 * (w * ra)) == 4 * (w * w * rr)) by (nonlinear_arith)
        requires
            rr == ra * ra,
    ;
    assert((o * h) * (o * h) == oo * hh) by (nonlinear_arith)
        requires
            oo == o * o,
            hh == h * h,
    ;
    assert((2 * h) * (2 * h) == 4 * hh) by (nonlinear_arith)
        requires
            hh == h * h,
    ;
    assert(oo * (t * square) == t * z) by (nonlinear_arith)
        requires
            z == oo * square,
    ;
    assert(oo * (4 * hh) == 4 * (oo * hh)) by (nonlinear_arith);
    assert(4 * (4 * (w * w * rr)) == t * (4 * rr)) by (nonlinear_arith)
        requires
            t == 4 * (w * w),
    ;
    assert(0 <= rr) by (nonlinear_arith)
        requires
            rr == ra * ra,
            0 <= ra,
    ;
    assert(0 <= o * h && 0 <= oo && 0 <= hh) by (nonlinear_arith)
        requires
            0 <= o,
            0 < h,
            oo == o * o,
            hh == h * h,
    ;
    assert(0 <= w * ra && 0 <= oo * hh && 0 <= t * (4 * rr)) by (nonlinear_arith)
        requires
            0 < w,
            0 <= ra,
            0 <= oo,
            0 <= hh,
            0 < t,
            0 <= rr,
    ;
}

/// The longer way of a segment has no smaller share of the radius.
pub proof fn law_the_longer_way_has_the_larger_share(r: int, d: int, e: int, square: int)
    requires
        1 <= r <= 0x3fff_ffff,
        0 < square <= 0x4_0000_0000_0000_0000,
        edge::magnitude(d) <= edge::magnitude(e),
    ensures
        edge::magnitude(stroke::component(r, d, square)) <= edge::magnitude(
            stroke::component(r, e, square),
        ),
{
    let (a, b) = (edge::magnitude(d), edge::magnitude(e));
    stroke::lemma_component_signed(r, d, square);
    stroke::lemma_component_signed(r, e, square);
    let (m, j) = root::lemma_length_parts(square);
    let h = root::length(square);
    lemma_pow2_pos(120);
    let p = pow2(172) as int;
    assert(0 <= a * p <= b * p) by (nonlinear_arith)
        requires
            0 <= a <= b,
            0 <= p,
    ;
    binary64::lemma_rounded_quotient_ordered(a * p, b * p, h);
    let (x, y) = (stroke::ratio(a, square), stroke::ratio(b, square));
    stroke::lemma_no_ratio(h);
    binary64::lemma_rounded_quotient_ordered(0, a * p, h);
    assert(0 <= r * x <= r * y) by (nonlinear_arith)
        requires
            0 <= x <= y,
            0 <= r,
    ;
    binary64::lemma_rounded_ordered(r * x, r * y);
    binary64::lemma_nearest_away_ordered(
        binary64::rounded(r * x),
        binary64::rounded(r * y),
        pow2(120) as int,
    );
    binary64::lemma_rounded_near(r * x);
    binary64::lemma_nearest_away_ordered(0, binary64::rounded(r * x), pow2(120) as int);
    binary64::lemma_nearest_away_scaled(0, 1, pow2(120) as int);
    assert(pow2(120) * 0 == 0 && pow2(120) * 1 == pow2(120));
}

/// The longer way of a segment has at least half of the radius.
pub proof fn law_the_longer_way_has_half_the_radius(r: int, d: int, square: int)
    requires
        1 <= r <= 0x3fff_ffff,
        0 < square <= 0x4_0000_0000_0000_0000,
        d * d <= square <= 2 * (d * d),
    ensures
        r <= 2 * edge::magnitude(stroke::component(r, d, square)),
{
    let a = edge::magnitude(d);
    assert(a * a == d * d) by (nonlinear_arith)
        requires
            a == d || a == -d,
    ;
    stroke::lemma_component_signed(r, d, square);
    stroke::lemma_component_within(r, a, square);
    let (m, j) = root::lemma_length_parts(square);
    let h = root::length(square);
    lemma_pow2_pos(j);
    lemma_length_is_short(a, square, h, pow2(j) as int, m);
    // Eleven sixteenths of the length are less than the way.
    let p = pow2(116) as int;
    lemma_pow2_pos(116);
    lemma_pow2_adds(56, 116);
    lemma2_to64();
    lemma2_to64_rest();
    assert(11 * (p * h) <= a * pow2(172)) by (nonlinear_arith)
        requires
            11 * h <= 16 * (a * 0x10_0000_0000_0000),
            pow2(172) == 0x100_0000_0000_0000 * p,
            0 < p,
    ;
    assert(0 <= 11 * (p * h)) by (nonlinear_arith)
        requires
            0 < p,
            0 < h,
    ;
    stroke::lemma_whole_ratio(h, 11, 116);
    binary64::lemma_rounded_quotient_ordered(11 * (p * h), a * pow2(172), h);
    stroke::lemma_component_at_most(a, square);
    lemma_pow2_adds(116, 4);
    assert(11 * p <= stroke::ratio(a, square) <= 16 * p);
    stroke::lemma_share_between(r, stroke::ratio(a, square), 11, 16, 116);
    assert(binary64::nearest_away(r * 11, 16) == (22 * r + 16) / 32);
}

/// A length is not much longer than the longer way.
proof fn lemma_length_is_short(a: int, square: int, h: int, u: int, m: int)
    requires
        0 <= a,
        square <= 2 * (a * a),
        h == u * m,
        0 < u,
        0x10_0000_0000_0000 <= m,
        (2 * h - u) * (2 * h - u) <= 0x400_0000_0000_0000_0000_0000_0000 * square,
    ensures
        11 * h <= 16 * (a * 0x10_0000_0000_0000),
{
    let x = a * 0x10_0000_0000_0000;
    let y = 2 * h - u;
    assert(100 * u <= h) by (nonlinear_arith)
        requires
            h == u * m,
            0 < u,
            100 <= m,
    ;
    if 11 * h > 16 * x {
        assert(1100 * y > 3184 * x);
        assert((1100 * y) * (1100 * y) > (3184 * x) * (3184 * x)) by (nonlinear_arith)
            requires
                1100 * y > 3184 * x,
                0 <= x,
        ;
        assert((1100 * y) * (1100 * y) == 1210000 * (y * y)) by (nonlinear_arith);
        assert((3184 * x) * (3184 * x) == 10137856 * (x * x)) by (nonlinear_arith);
        assert(0x400_0000_0000_0000_0000_0000_0000 * (a * a) == 4 * (x * x)) by (nonlinear_arith)
            requires
                x == a * 0x10_0000_0000_0000,
        ;
        assert(0 <= x * x) by (nonlinear_arith);
    }
}

/// The rounding of a corner never takes more than half of a side.
pub proof fn law_corners_fit(width: int, height: int, radius: int)
    ensures
        0 <= path::corner(width, height, radius),
        0 <= width && 0 <= height ==> 2 * path::corner(width, height, radius) <= width && 2
            * path::corner(width, height, radius) <= height,
        0 <= radius ==> path::corner(width, height, radius) <= radius,
{
}

} // verus!
