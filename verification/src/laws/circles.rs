//! How far a flattened circle is from the circle.
use crate::angle;
use crate::angle::{
    EIGHTH_COSINES, EIGHTH_SINES, MIDDLE_COSINES, MIDDLE_SINES, SIXTEENTH_COSINE, WHOLE,
};
use crate::binary64;
use crate::curve::CURVE_STEPS;
use crate::edge;
use crate::flatten;
use crate::laws::curves;
use crate::laws::roundness;
use crate::path;
use crate::path::Cmd;
use vstd::prelude::*;

verus! {

/// Whether a point, as seen from the centre, is off a circle by at most 0.32
/// percent of the radius and one and a half units.
pub open spec fn near_circle(dx: int, dy: int, r: int) -> bool {
    let square = 100000000 * (dx * dx + dy * dy);
    let (inner, outer) = (9968 * r - 15000, 10032 * r + 15000);
    &&& 0 < inner ==> inner * inner <= square
    &&& square <= outer * outer
}

/// The root of a half, counting `2^-54`.
pub open spec fn diagonal() -> int {
    12738103345051545
}

/// The tangent of half an eighth of a turn, counting `2^-54`.
pub open spec fn slope() -> int {
    7461808180621106
}

/// How far right of the centre each eighth of a turn is, for a radius of one.
pub open spec fn east(j: int) -> int {
    if j == 0 || j == 8 {
        18014398509481984
    } else if j == 1 || j == 7 {
        diagonal()
    } else if j == 2 || j == 6 {
        0
    } else if j == 4 {
        -18014398509481984
    } else {
        -diagonal()
    }
}

/// How far below the centre each eighth of a turn is.
pub open spec fn south(j: int) -> int {
    if j == 2 {
        18014398509481984
    } else if j == 1 || j == 3 {
        diagonal()
    } else if j == 6 {
        -18014398509481984
    } else if j == 5 || j == 7 {
        -diagonal()
    } else {
        0
    }
}

/// How far right of the centre the tangents at both ends of an eighth meet.
pub open spec fn corner_east(i: int) -> int {
    if i == 0 || i == 7 {
        18014398509481984
    } else if i == 1 || i == 6 {
        slope()
    } else if i == 2 || i == 5 {
        -slope()
    } else {
        -18014398509481984
    }
}

/// How far below the centre they meet.
pub open spec fn corner_south(i: int) -> int {
    if i == 0 || i == 3 {
        slope()
    } else if i == 1 || i == 2 {
        18014398509481984
    } else if i == 4 || i == 7 {
        -slope()
    } else {
        -18014398509481984
    }
}

/// Whether a coordinate is the unit nearest to the one that is `way` from the centre, or
/// the last coordinate there is on that side. The way counts `2^-54`; the unit is nearest
/// but for the `2^-16`th part of one.
pub open spec fn lies_at(n: int, center: int, way: int) -> bool {
    let off = 2 * (0x40_0000_0000_0000 * (n - center) - way);
    &&& i32::MIN <= n <= i32::MAX
    &&& n == i32::MAX || -(0x40_0000_0000_0000 + 0x40_0000_0000) <= off
    &&& n == i32::MIN || off <= 0x40_0000_0000_0000 + 0x40_0000_0000
}

/// A coordinate is nearly as far from the centre as its way is.
proof fn lemma_placed_near(center: int, way: int, r: int, k: int)
    requires
        0 <= r <= 0x8000_0000,
        i32::MIN <= center <= i32::MAX,
        -WHOLE <= k <= WHOLE,
        r * k - 16 * r <= way <= r * k + 16 * r,
    ensures
        lies_at(angle::placed(center, way), center, r * k),
        i32::MIN <= center - r && center + r <= i32::MAX ==> -(WHOLE + 0x40_0000_0000) <= 2 * (WHOLE
            * (angle::placed(center, way) - center) - r * k) <= WHOLE + 0x40_0000_0000,
{
    let sum = WHOLE * center + way;
    assert(-(WHOLE * r) <= r * k <= WHOLE * r) by (nonlinear_arith)
        requires
            0 <= r,
            -WHOLE <= k <= WHOLE,
    ;
    binary64::lemma_rounded_near(sum);
    binary64::lemma_nearest_away_near(binary64::rounded(sum), WHOLE as int);
}

/// The ends of the arcs are nearly on the circle.
proof fn lemma_end_near(center: int, r: int, c: int, k: int)
    requires
        0 <= r <= 0x8000_0000,
        i32::MIN <= center <= i32::MAX,
        -WHOLE <= k <= WHOLE,
        -WHOLE <= c <= WHOLE,
        k - 8 <= c <= k + 8,
    ensures
        lies_at(angle::on_circle(center, r, c), center, r * k),
        i32::MIN <= center - r && center + r <= i32::MAX ==> -(WHOLE + 0x40_0000_0000) <= 2 * (WHOLE
            * (angle::on_circle(center, r, c) - center) - r * k) <= WHOLE + 0x40_0000_0000,
{
    assert(-(WHOLE * r) <= r * c <= WHOLE * r && r * k - 8 * r <= r * c <= r * k + 8 * r)
        by (nonlinear_arith)
        requires
            0 <= r,
            -WHOLE <= c <= WHOLE,
            k - 8 <= c <= k + 8,
    ;
    binary64::lemma_rounded_near(r * c);
    lemma_placed_near(center, binary64::rounded(r * c), r, k);
}

/// The points where tangents meet are nearly where they should be.
proof fn lemma_corner_near(center: int, r: int, c: int, k: int)
    requires
        0 <= r <= 0x8000_0000,
        i32::MIN <= center <= i32::MAX,
        ({
            ||| k == WHOLE && SIXTEENTH_COSINE - 4 <= c <= SIXTEENTH_COSINE + 2
            ||| k == -WHOLE && -SIXTEENTH_COSINE - 2 <= c <= -SIXTEENTH_COSINE + 4
            ||| k == slope() && 6893811853601121 <= c <= 6893811853601134
            ||| k == -slope() && -6893811853601134 <= c <= -6893811853601121
        }),
    ensures
        lies_at(angle::on_tangents(center, r, c), center, r * k),
        i32::MIN <= center - r && center + r <= i32::MAX ==> -(WHOLE + 0x40_0000_0000) <= 2 * (WHOLE
            * (angle::on_tangents(center, r, c) - center) - r * k) <= WHOLE + 0x40_0000_0000,
{
    let radius = angle::tangent_radius(r);
    roundness::lemma_tangent_radius(r);
    let product = radius * c;
    let way = binary64::rounded_product(radius, c);
    binary64::lemma_rounded_near(product);
    let turned = binary64::rounded(product);
    assert(0x10_0000_0000_0000 * way <= turned < 0x10_0000_0000_0000 * way + 0x10_0000_0000_0000);
    if k == WHOLE {
        assert(16643134073412232 * radius <= product <= 16643134073412238 * radius && r
            * k == 18014398509481984 * r)
            by (nonlinear_arith)
            requires
                product == radius * c,
                16643134073412232 <= c <= 16643134073412238,
                0 <= radius,
                k == 18014398509481984,
        ;
    } else if k == -WHOLE {
        assert(-16643134073412238 * radius <= product <= -16643134073412232 * radius && r
            * k == -(18014398509481984 * r))
            by (nonlinear_arith)
            requires
                product == radius * c,
                -16643134073412238 <= c <= -16643134073412232,
                0 <= radius,
                k == -18014398509481984,
        ;
    } else if k == slope() {
        assert(6893811853601121 * radius <= product <= 6893811853601134 * radius && r
            * k == 7461808180621106 * r)
            by (nonlinear_arith)
            requires
                product == radius * c,
                6893811853601121 <= c <= 6893811853601134,
                0 <= radius,
                k == 7461808180621106,
        ;
    } else {
        assert(-6893811853601134 * radius <= product <= -6893811853601121 * radius && r
            * k == -(7461808180621106 * r))
            by (nonlinear_arith)
            requires
                product == radius * c,
                -6893811853601134 <= c <= -6893811853601121,
                0 <= radius,
                k == -7461808180621106,
        ;
    }
    if r == 0 {
        assert(0 * c == 0);
    }
    lemma_placed_near(center, way, r, k);
}

/// How far a point of a flattened arc is from the radius times a mean of the
/// directions of its three points.
proof fn lemma_mean_near(
    n0: int,
    n1: int,
    n2: int,
    n: int,
    k0: int,
    k1: int,
    k2: int,
    r: int,
    step: int,
)
    requires
        1 <= step <= CURVE_STEPS,
        -72 <= 144 * n - curves::quad_point_144(n0, n1, n2, step) <= 72,
        -(WHOLE + 0x40_0000_0000) <= 2 * (WHOLE * n0 - r * k0) <= WHOLE + 0x40_0000_0000,
        -(WHOLE + 0x40_0000_0000) <= 2 * (WHOLE * n1 - r * k1) <= WHOLE + 0x40_0000_0000,
        -(WHOLE + 0x40_0000_0000) <= 2 * (WHOLE * n2 - r * k2) <= WHOLE + 0x40_0000_0000,
    ensures
        ({
            let off = 144 * WHOLE * n - r * curves::quad_point_144(k0, k1, k2, step);
            -(144 * WHOLE + 0x2000_0000_0000) <= off <= 144 * WHOLE + 0x2000_0000_0000
        }),
{
    let rest = 12 - step;
    let (a, b, c) = (rest * rest, 2 * (step * rest), step * step);
    assert(a + b + c == 144 && 0 <= a && 0 <= b && 0 <= c) by (nonlinear_arith)
        requires
            rest == 12 - step,
            1 <= step <= 12,
            a == rest * rest,
            b == 2 * (step * rest),
            c == step * step,
    ;
    let (e0, e1, e2) = (WHOLE * n0 - r * k0, WHOLE * n1 - r * k1, WHOLE * n2 - r * k2);
    let h = WHOLE + 0x40_0000_0000;
    lemma_weighted(a, b, c, 2 * e0, 2 * e1, 2 * e2, h);
    lemma_shared_factor(WHOLE as int, a, n0, b, n1, c, n2);
    lemma_shared_factor(r, a, k0, b, k1, c, k2);
    assert(a * e0 == a * (WHOLE * n0) - a * (r * k0)) by (nonlinear_arith)
        requires
            e0 == WHOLE * n0 - r * k0,
    ;
    assert(b * e1 == b * (WHOLE * n1) - b * (r * k1)) by (nonlinear_arith)
        requires
            e1 == WHOLE * n1 - r * k1,
    ;
    assert(c * e2 == c * (WHOLE * n2) - c * (r * k2)) by (nonlinear_arith)
        requires
            e2 == WHOLE * n2 - r * k2,
    ;
    let off = 144 * n - (a * n0 + b * n1 + c * n2);
    assert(WHOLE * off == (144 * WHOLE) * n - WHOLE * (a * n0 + b * n1 + c * n2))
        by (nonlinear_arith)
        requires
            off == 144 * n - (a * n0 + b * n1 + c * n2),
    ;
    assert(-(72 * WHOLE) <= WHOLE * off <= 72 * WHOLE);
    assert(a * (2 * e0) == 2 * (a * e0) && b * (2 * e1) == 2 * (b * e1) && c * (2 * e2) == 2 * (c
        * e2)) by (nonlinear_arith);
}

proof fn lemma_shared_factor(r: int, a: int, k0: int, b: int, k1: int, c: int, k2: int)
    ensures
        r * (a * k0 + b * k1 + c * k2) == a * (r * k0) + b * (r * k1) + c * (r * k2),
{
    let (x, y, z) = (a * k0, b * k1, c * k2);
    assert(r * (x + y + z) == r * x + r * y + r * z) by (nonlinear_arith);
    assert(r * (a * k0) == a * (r * k0)) by (nonlinear_arith);
    assert(r * (b * k1) == b * (r * k1)) by (nonlinear_arith);
    assert(r * (c * k2) == c * (r * k2)) by (nonlinear_arith);
}

proof fn lemma_weighted(a: int, b: int, c: int, e0: int, e1: int, e2: int, h: int)
    requires
        0 <= a && 0 <= b && 0 <= c,
        a + b + c == 144,
        -h <= e0 <= h && -h <= e1 <= h && -h <= e2 <= h,
    ensures
        -(144 * h) <= a * e0 + b * e1 + c * e2 <= 144 * h,
{
    assert(-(a * h) <= a * e0 <= a * h) by (nonlinear_arith)
        requires
            0 <= a,
            -h <= e0 <= h,
    ;
    assert(-(b * h) <= b * e1 <= b * h) by (nonlinear_arith)
        requires
            0 <= b,
            -h <= e1 <= h,
    ;
    assert(-(c * h) <= c * e2 <= c * h) by (nonlinear_arith)
        requires
            0 <= c,
            -h <= e2 <= h,
    ;
    assert(a * h + b * h + c * h == (a + b + c) * h) by (nonlinear_arith);
}

/// Whether a direction, counting the 144th part of `2^-54`, is that of a point
/// on the curve that an eighth of a circle is drawn as.
spec fn on_the_arc(a: int, b: int) -> bool {
    let whole = 144 * WHOLE;
    &&& 999999 * (whole * whole) <= 1000000 * (a * a + b * b) <= 1006290 * (whole * whole)
    &&& 10000 * (edge::magnitude(a) + edge::magnitude(b)) <= 14143 * whole
}

/// The first eighth of the turn, from its right on.
proof fn lemma_first_eighth(step: int)
    requires
        0 <= step <= 12,
    ensures
        on_the_arc(
            curves::quad_point_144(WHOLE as int, WHOLE as int, diagonal(), step),
            curves::quad_point_144(0, slope(), diagonal(), step),
        ),
{
    let whole = 144 * WHOLE;
    assert(whole * whole == 6729216728661136606575523242669244416) by (nonlinear_arith)
        requires
            whole == 2594073385365405696,
    ;
    let (w, d, t, rest) = (WHOLE as int, diagonal(), slope(), 12 - step);
    let a = curves::quad_point_144(w, w, d, step);
    let b = curves::quad_point_144(0, t, d, step);
    if step == 0 {
        assert(a == 2594073385365405696 && b == 0 && a * a + b * b
            == 6729216728661136606575523242669244416) by (nonlinear_arith)
            requires
                a == (rest * rest) * w + (2 * (step * rest)) * w + (step * step) * d,
                b == (rest * rest) * 0 + (2 * (step * rest)) * t + (step * step) * d,
                step == 0 && rest == 12,
                w == 18014398509481984 && d == 12738103345051545 && t == 7461808180621106,
        ;
    } else if step == 1 {
        assert(a == 2588797090200975257 && b == 176897883318715877 && a * a + b * b
            == 6733163235355678437948751906178095178) by (nonlinear_arith)
            requires
                a == (rest * rest) * w + (2 * (step * rest)) * w + (step * step) * d,
                b == (rest * rest) * 0 + (2 * (step * rest)) * t + (step * step) * d,
                step == 1 && rest == 11,
                w == 18014398509481984 && d == 12738103345051545 && t == 7461808180621106,
        ;
    } else if step == 2 {
        assert(a == 2572968204707683940 && b == 349424740605050420 && a * a + b * b
            == 6742263031783588940460571689676100000) by (nonlinear_arith)
            requires
                a == (rest * rest) * w + (2 * (step * rest)) * w + (step * step) * d,
                b == (rest * rest) * 0 + (2 * (step * rest)) * t + (step * step) * d,
                step == 2 && rest == 10,
                w == 18014398509481984 && d == 12738103345051545 && t == 7461808180621106,
        ;
    } else if step == 3 {
        assert(a == 2546586728885531745 && b == 517580571859003629 && a * a + b * b
            == 6752993616101805982179198744037914666) by (nonlinear_arith)
            requires
                a == (rest * rest) * w + (2 * (step * rest)) * w + (step * step) * d,
                b == (rest * rest) * 0 + (2 * (step * rest)) * t + (step * step) * d,
                step == 3 && rest == 9,
                w == 18014398509481984 && d == 12738103345051545 && t == 7461808180621106,
        ;
    } else if step == 4 {
        assert(a == 2509652662734518672 && b == 681365377080575504 && a * a + b * b
            == 6762615264654614571812869835361497600) by (nonlinear_arith)
            requires
                a == (rest * rest) * w + (2 * (step * rest)) * w + (step * step) * d,
                b == (rest * rest) * 0 + (2 * (step * rest)) * t + (step * step) * d,
                step == 4 && rest == 8,
                w == 18014398509481984 && d == 12738103345051545 && t == 7461808180621106,
        ;
    } else if step == 5 {
        assert(a == 2462166006254644721 && b == 840779156269766045 && a * a + b * b
            == 6769171031973646858709842344968109866) by (nonlinear_arith)
            requires
                a == (rest * rest) * w + (2 * (step * rest)) * w + (step * step) * d,
                b == (rest * rest) * 0 + (2 * (step * rest)) * t + (step * step) * d,
                step == 5 && rest == 7,
                w == 18014398509481984 && d == 12738103345051545 && t == 7461808180621106,
        ;
    } else if step == 6 {
        assert(a == 2404126759445909892 && b == 995821909426575252 && a * a + b * b
            == 6771486750777882132858394269402315168) by (nonlinear_arith)
            requires
                a == (rest * rest) * w + (2 * (step * rest)) * w + (step * step) * d,
                b == (rest * rest) * 0 + (2 * (step * rest)) * t + (step * step) * d,
                step == 6 && rest == 6,
                w == 18014398509481984 && d == 12738103345051545 && t == 7461808180621106,
        ;
    } else if step == 7 {
        assert(a == 2335534922308314185 && b == 1146493636551003125 && a * a + b * b
            == 6769171031973646824886824220431979850) by (nonlinear_arith)
            requires
                a == (rest * rest) * w + (2 * (step * rest)) * w + (step * step) * d,
                b == (rest * rest) * 0 + (2 * (step * rest)) * t + (step * step) * d,
                step == 7 && rest == 5,
                w == 18014398509481984 && d == 12738103345051545 && t == 7461808180621106,
        ;
    } else if step == 8 {
        assert(a == 2256390494841857600 && b == 1292794337643049664 && a * a + b * b
            == 6762615264654614506063451425048272896) by (nonlinear_arith)
            requires
                a == (rest * rest) * w + (2 * (step * rest)) * w + (step * step) * d,
                b == (rest * rest) * 0 + (2 * (step * rest)) * t + (step * step) * d,
                step == 8 && rest == 4,
                w == 18014398509481984 && d == 12738103345051545 && t == 7461808180621106,
        ;
    } else if step == 9 {
        assert(a == 2166693477046540137 && b == 1434724012702714869 && a * a + b * b
            == 6752993616101805888296615725465665930) by (nonlinear_arith)
            requires
                a == (rest * rest) * w + (2 * (step * rest)) * w + (step * step) * d,
                b == (rest * rest) * 0 + (2 * (step * rest)) * t + (step * step) * d,
                step == 9 && rest == 3,
                w == 18014398509481984 && d == 12738103345051545 && t == 7461808180621106,
        ;
    } else if step == 10 {
        assert(a == 2066443868922361796 && b == 1572282661729998740 && a * a + b * b
            == 6742263031783588824134677579121933216) by (nonlinear_arith)
            requires
                a == (rest * rest) * w + (2 * (step * rest)) * w + (step * step) * d,
                b == (rest * rest) * 0 + (2 * (step * rest)) * t + (step * step) * d,
                step == 10 && rest == 2,
                w == 18014398509481984 && d == 12738103345051545 && t == 7461808180621106,
        ;
    } else if step == 11 {
        assert(a == 1955641670469322577 && b == 1705470284724901277 && a * a + b * b
            == 6733163235355678306766018058678151658) by (nonlinear_arith)
            requires
                a == (rest * rest) * w + (2 * (step * rest)) * w + (step * step) * d,
                b == (rest * rest) * 0 + (2 * (step * rest)) * t + (step * step) * d,
                step == 11 && rest == 1,
                w == 18014398509481984 && d == 12738103345051545 && t == 7461808180621106,
        ;
    } else if step == 12 {
        assert(a == 1834286881687422480 && b == 1834286881687422480 && a * a + b * b
            == 6729216728661136470019038852018700800) by (nonlinear_arith)
            requires
                a == (rest * rest) * w + (2 * (step * rest)) * w + (step * step) * d,
                b == (rest * rest) * 0 + (2 * (step * rest)) * t + (step * step) * d,
                step == 12 && rest == 0,
                w == 18014398509481984 && d == 12738103345051545 && t == 7461808180621106,
        ;
    }
}

/// Every eighth of the turn is the first one, mirrored or turned.
proof fn lemma_every_eighth(i: int, step: int)
    requires
        0 <= i < 8,
        1 <= step <= 12,
    ensures
        on_the_arc(
            curves::quad_point_144(east(i), corner_east(i), east(i + 1), step),
            curves::quad_point_144(south(i), corner_south(i), south(i + 1), step),
        ),
{
    let rest = 12 - step;
    let (a, b, c) = (rest * rest, 2 * (step * rest), step * step);
    let (w, d, t) = (WHOLE as int, diagonal(), slope());
    lemma_first_eighth(step);
    lemma_first_eighth(rest);
    assert(12 - rest == step);
    assert(2 * (rest * step) == b) by (nonlinear_arith)
        requires
            b == 2 * (step * rest),
    ;
    assert(a * 0 == 0 && c * 0 == 0);
    assert(a * (-w) == -(a * w) && b * (-w) == -(b * w) && c * (-w) == -(c * w))
        by (nonlinear_arith);
    assert(a * (-d) == -(a * d) && c * (-d) == -(c * d) && b * (-t) == -(b * t))
        by (nonlinear_arith);
    let p = a * w + b * w + c * d;
    let q = b * t + c * d;
    let m = c * w + b * w + a * d;
    let n = b * t + a * d;
    lemma_mirrored(p, q);
    lemma_mirrored(m, n);
}

proof fn lemma_mirrored(a: int, b: int)
    requires
        on_the_arc(a, b),
    ensures
        on_the_arc(-a, b) && on_the_arc(a, -b) && on_the_arc(-a, -b),
        on_the_arc(b, a) && on_the_arc(-b, a) && on_the_arc(b, -a) && on_the_arc(-b, -a),
{
    assert((-a) * (-a) == a * a && (-b) * (-b) == b * b) by (nonlinear_arith);
}

/// A point is near the circle, if it is near the radius times a direction.
proof fn lemma_near(x: int, y: int, a: int, b: int, r: int)
    requires
        0 <= r,
        on_the_arc(a, b),
        ({
            let whole = 144 * WHOLE;
            let limit = whole + 0x2000_0000_0000;
            &&& -limit <= whole * x - r * a <= limit
            &&& -limit <= whole * y - r * b <= limit
        }),
    ensures
        near_circle(x, y, r),
{
    let m = 144 * WHOLE;
    let k = m + 0x2000_0000_0000;
    let (e, f) = (m * x - r * a, m * y - r * b);
    let (mm, s) = (m * m, a * a + b * b);
    let t = edge::magnitude(a) + edge::magnitude(b);
    lemma_outer(x, y, a, b, r, m, k, s, t, e, f);
    if 0 < 9968 * r - 15000 {
        lemma_inner(x, y, a, b, r, m, k, s, e, f);
    }
}

proof fn lemma_outer(
    x: int,
    y: int,
    a: int,
    b: int,
    r: int,
    m: int,
    k: int,
    s: int,
    t: int,
    e: int,
    f: int,
)
    requires
        0 <= r,
        0 < m,
        s == a * a + b * b,
        t == edge::magnitude(a) + edge::magnitude(b),
        m * x == r * a + e,
        m * y == r * b + f,
        -k <= e <= k && -k <= f <= k,
        10000 * k <= 10001 * m,
        1000000 * s <= 1006290 * (m * m),
        10000 * t <= 14143 * m,
    ensures
        100000000 * (x * x + y * y) <= (10032 * r + 15000) * (10032 * r + 15000),
{
    let (mm, d, rr) = (m * m, x * x + y * y, r * r);
    let mixed = a * e + b * f;
    assert(mm * d == (m * x) * (m * x) + (m * y) * (m * y)) by (nonlinear_arith)
        requires
            mm == m * m,
            d == x * x + y * y,
    ;
    lemma_square_of_sum(r, a, e);
    lemma_square_of_sum(r, b, f);
    assert(rr * s == rr * (a * a) + rr * (b * b)) by (nonlinear_arith)
        requires
            s == a * a + b * b,
    ;
    assert((2 * r) * mixed == (2 * r) * (a * e) + (2 * r) * (b * f)) by (nonlinear_arith)
        requires
            mixed == a * e + b * f,
    ;
    assert(mm * d == rr * s + (2 * r) * mixed + e * e + f * f);
    let tk = t * k;
    assert(mixed <= tk) by {
        lemma_product_at_most(a, e, k);
        lemma_product_at_most(b, f, k);
        assert(tk == edge::magnitude(a) * k + edge::magnitude(b) * k)
            by (nonlinear_arith)
            requires
                tk == t * k,
                t == edge::magnitude(a) + edge::magnitude(b),
        ;
    }
    assert(100000000 * tk <= 141444143 * mm) by (nonlinear_arith)
        requires
            tk == t * k,
            0 <= t,
            0 <= k,
            10000 * t <= 14143 * m,
            10000 * k <= 10001 * m,
            mm == m * m,
    ;
    let kk = k * k;
    assert(e * e <= kk && f * f <= kk) by (nonlinear_arith)
        requires
            kk == k * k,
            -k <= e <= k,
            -k <= f <= k,
    ;
    assert(100000000 * kk <= 100020001 * mm) by (nonlinear_arith)
        requires
            kk == k * k,
            0 <= k,
            10000 * k <= 10001 * m,
            mm == m * m,
    ;
    assert((2 * r) * mixed <= (2 * r) * tk) by (nonlinear_arith)
        requires
            mixed <= tk,
            0 <= r,
    ;
    assert(100000000 * ((2 * r) * tk) <= 282888286 * (r * mm)) by (nonlinear_arith)
        requires
            100000000 * tk <= 141444143 * mm,
            0 <= r,
    ;
    assert(1000000 * (rr * s) <= 1006290 * (rr * mm)) by (nonlinear_arith)
        requires
            1000000 * s <= 1006290 * mm,
            0 <= rr,
            rr == r * r,
    ;
    let outer = (10032 * r + 15000) * (10032 * r + 15000);
    assert(outer == 100641024 * rr + 300960000 * r + 225000000) by (nonlinear_arith)
        requires
            outer == (10032 * r + 15000) * (10032 * r + 15000),
            rr == r * r,
    ;
    assert(mm * outer == 100641024 * (rr * mm) + 300960000 * (r * mm) + 225000000 * mm)
        by (nonlinear_arith)
        requires
            outer == 100641024 * rr + 300960000 * r + 225000000,
    ;
    assert(0 <= rr * mm && 0 <= r * mm && 0 < mm) by (nonlinear_arith)
        requires
            0 <= r,
            rr == r * r,
            mm == m * m,
            0 < m,
    ;
    let all = 100000000 * d;
    assert(mm * all <= mm * outer) by {
        assert(mm * all == 100000000 * (mm * d)) by (nonlinear_arith)
            requires
                all == 100000000 * d,
        ;
    }
    assert(all <= outer) by (nonlinear_arith)
        requires
            mm * all <= mm * outer,
            0 < mm,
    ;
}

proof fn lemma_square_of_sum(r: int, a: int, e: int)
    ensures
        (r * a + e) * (r * a + e) == (r * r) * (a * a) + (2 * r) * (a * e) + e * e,
{
    let p = r * a;
    assert((p + e) * (p + e) == p * p + 2 * (p * e) + e * e) by (nonlinear_arith);
    assert(p * p == (r * r) * (a * a)) by (nonlinear_arith)
        requires
            p == r * a,
    ;
    assert(2 * (p * e) == (2 * r) * (a * e)) by (nonlinear_arith)
        requires
            p == r * a,
    ;
}

proof fn lemma_product_at_most(a: int, e: int, k: int)
    requires
        -k <= e <= k,
    ensures
        a * e <= edge::magnitude(a) * k,
{
    if a < 0 {
        assert(a * e <= (-a) * k) by (nonlinear_arith)
            requires
                a < 0,
                -k <= e,
        ;
    } else {
        assert(a * e <= a * k) by (nonlinear_arith)
            requires
                0 <= a,
                e <= k,
        ;
    }
}

proof fn lemma_inner(
    x: int,
    y: int,
    a: int,
    b: int,
    r: int,
    m: int,
    k: int,
    s: int,
    e: int,
    f: int,
)
    requires
        0 < 9968 * r - 15000,
        0 < m,
        s == a * a + b * b,
        m * x == r * a + e,
        m * y == r * b + f,
        -k <= e <= k && -k <= f <= k,
        10000 * k <= 10001 * m,
        999999 * (m * m) <= 1000000 * s,
    ensures
        (9968 * r - 15000) * (9968 * r - 15000) <= 100000000 * (x * x + y * y),
{
    let l = 9968 * r - 15000;
    let (mm, d, rr, kk, ll) = (m * m, x * x + y * y, r * r, k * k, l * l);
    let q = edge::magnitude(x) + edge::magnitude(y);
    if 100000000 * d < ll {
        // The sum of both offsets is at most the distance times the root of two.
        let qq = q * q;
        assert(qq <= 2 * d) by {
            let (u, v) = (edge::magnitude(x), edge::magnitude(y));
            assert(u * u == x * x && v * v == y * y) by (nonlinear_arith)
                requires
                    u == x || u == -x,
                    v == y || v == -y,
            ;
            assert((u + v) * (u + v) <= 2 * (u * u + v * v)) by (nonlinear_arith);
        }
        assert(100000000 * q < 14143 * l) by {
            if 100000000 * q >= 14143 * l {
                let (big, small) = (100000000 * q, 14143 * l);
                assert(big * big >= small * small) by (nonlinear_arith)
                    requires
                        0 <= small <= big,
                ;
                assert(big * big == 10000000000000000 * qq) by (nonlinear_arith)
                    requires
                        big == 100000000 * q,
                        qq == q * q,
                ;
                assert(small * small == 200024449 * ll) by (nonlinear_arith)
                    requires
                        small == 14143 * l,
                        ll == l * l,
                ;
                assert(0 <= ll) by (nonlinear_arith)
                    requires
                        ll == l * l,
                ;
            }
        }
        // From the point back to the exact one.
        assert(rr * s == (r * a) * (r * a) + (r * b) * (r * b)) by (nonlinear_arith)
            requires
                rr == r * r,
                s == a * a + b * b,
        ;
        lemma_back(m, x, e, k);
        lemma_back(m, y, f, k);
        assert(r * a == m * x - e && r * b == m * y - f);
        assert(mm * d == mm * (x * x) + mm * (y * y)) by (nonlinear_arith)
            requires
                d == x * x + y * y,
        ;
        let mk = m * k;
        assert((2 * mk) * q == (2 * mk) * edge::magnitude(x) + (2 * mk)
            * edge::magnitude(y)) by (nonlinear_arith)
            requires
                q == edge::magnitude(x) + edge::magnitude(y),
        ;
        assert(rr * s <= mm * d + (2 * mk) * q + 2 * kk);
        assert(10000 * mk <= 10001 * mm) by (nonlinear_arith)
            requires
                mk == m * k,
                mm == m * m,
                10000 * k <= 10001 * m,
                0 < m,
        ;
        assert(100000000 * kk <= 100020001 * mm) by (nonlinear_arith)
            requires
                kk == k * k,
                0 <= k,
                10000 * k <= 10001 * m,
                mm == m * m,
        ;
        assert(10000 * ((2 * mk) * q) <= 20002 * (mm * q)) by (nonlinear_arith)
            requires
                10000 * mk <= 10001 * mm,
                0 <= q,
        ;
        assert(0 < mm) by (nonlinear_arith)
            requires
                mm == m * m,
                0 < m,
        ;
        assert(100000000 * (mm * q) <= 14143 * (mm * l)) by (nonlinear_arith)
            requires
                100000000 * q < 14143 * l,
                0 < mm,
        ;
        assert(100000000 * (mm * d) <= mm * ll) by (nonlinear_arith)
            requires
                100000000 * d < ll,
                0 < mm,
        ;
        assert(999999 * (rr * mm) <= 1000000 * (rr * s)) by (nonlinear_arith)
            requires
                999999 * mm <= 1000000 * s,
                0 <= rr,
                rr == r * r,
        ;
        assert(ll == 99361024 * rr - 299040000 * r + 225000000) by (nonlinear_arith)
            requires
                ll == l * l,
                l == 9968 * r - 15000,
                rr == r * r,
        ;
        assert(mm * ll == 99361024 * (rr * mm) - 299040000 * (r * mm) + 225000000 * mm)
            by (nonlinear_arith)
            requires
                ll == 99361024 * rr - 299040000 * r + 225000000,
        ;
        assert(mm * l == 9968 * (r * mm) - 15000 * mm) by (nonlinear_arith)
            requires
                l == 9968 * r - 15000,
        ;
        assert(0 <= rr * mm && mm <= r * mm) by (nonlinear_arith)
            requires
                1 <= r,
                rr == r * r,
                0 < mm,
        ;
        assert(false);
    }
}

proof fn lemma_back(m: int, x: int, e: int, k: int)
    requires
        0 < m,
        -k <= e <= k,
    ensures
        (m * x - e) * (m * x - e) <= (m * m) * (x * x) + (2 * (m * k)) * edge::magnitude(x) + k
            * k,
{
    let p = m * x;
    let u = edge::magnitude(x);
    assert((p - e) * (p - e) == p * p - 2 * (p * e) + e * e) by (nonlinear_arith);
    assert(p * p == (m * m) * (x * x)) by (nonlinear_arith)
        requires
            p == m * x,
    ;
    assert(e * e <= k * k) by (nonlinear_arith)
        requires
            -k <= e <= k,
    ;
    let n = m * u;
    assert(n == p || n == -p) by (nonlinear_arith)
        requires
            n == m * u,
            p == m * x,
            u == x || u == -x,
    ;
    assert(0 <= n) by (nonlinear_arith)
        requires
            n == m * u,
            0 < m,
            0 <= u,
    ;
    assert(-(p * e) <= n * k) by (nonlinear_arith)
        requires
            n == p || n == -p,
            0 <= n,
            -k <= e <= k,
    ;
    assert(2 * (n * k) == (2 * (m * k)) * u) by (nonlinear_arith)
        requires
            n == m * u,
    ;
}

/// Whether all points of a contour are near a circle.
spec fn all_near(points: Seq<(i32, i32)>, cx: int, cy: int, r: int) -> bool {
    forall|k: int|
        0 <= k < points.len() ==> near_circle((#[trigger] points[k]).0 - cx, points[k].1 - cy, r)
}

/// Where an eighth of a circle starts: where the one before it ends.
spec fn starting(cx: int, cy: int, r: int, i: int) -> (i32, i32) {
    if i == 0 {
        (angle::on_circle(cx, r, WHOLE as int) as i32, angle::on_circle(cy, r, 0) as i32)
    } else {
        (
            angle::on_circle(cx, r, EIGHTH_COSINES@[i - 1] as int) as i32,
            angle::on_circle(cy, r, EIGHTH_SINES@[i - 1] as int) as i32,
        )
    }
}

/// An end of an eighth, in units.
proof fn lemma_starting(cx: int, cy: int, r: int, i: int)
    requires
        0 <= i <= 8,
        0 <= r,
        i32::MIN <= cx - r && cx + r <= i32::MAX,
        i32::MIN <= cy - r && cy + r <= i32::MAX,
    ensures
        ({
            let p = starting(cx, cy, r, i);
            &&& -(WHOLE + 0x40_0000_0000) <= 2 * (WHOLE * (p.0 - cx) - r * east(i)) <= WHOLE
                + 0x40_0000_0000
            &&& -(WHOLE + 0x40_0000_0000) <= 2 * (WHOLE * (p.1 - cy) - r * south(i)) <= WHOLE
                + 0x40_0000_0000
        }),
{
    let (c, s) = if i == 0 {
        (WHOLE as int, 0)
    } else {
        (EIGHTH_COSINES@[i - 1] as int, EIGHTH_SINES@[i - 1] as int)
    };
    lemma_end_near(cx, r, c, east(i));
    lemma_end_near(cy, r, s, south(i));
}

/// Where the eighths of a circle end, seen from its centre.
pub proof fn lemma_ends(cx: int, cy: int, r: int, i: int)
    requires
        0 <= i < 8,
        0 <= r,
        i32::MIN <= cx - r && cx + r <= i32::MAX,
        i32::MIN <= cy - r && cy + r <= i32::MAX,
    ensures
        ({
            let dx = angle::on_circle(cx, r, EIGHTH_COSINES@[i] as int) - cx;
            let dy = angle::on_circle(cy, r, EIGHTH_SINES@[i] as int) - cy;
            &&& i == 1 ==> dx == 0 && dy == r
            &&& i == 3 ==> dx == -r && dy == 0
            &&& i == 5 ==> dx == 0 && dy == -r
            &&& i == 7 ==> dx == r && dy == 0
            &&& i == 0 ==> 0 <= dx && 0 <= dy
            &&& i == 2 ==> dx <= 0 && 0 <= dy
            &&& i == 4 ==> dx <= 0 && dy <= 0
            &&& i == 6 ==> 0 <= dx && dy <= 0
            &&& i % 2 == 0 ==> -1 <= edge::magnitude(dx) - edge::magnitude(dy) <= 1
        }),
{
    lemma_starting(cx, cy, r, i + 1);
    let (w, d) = (WHOLE as int, diagonal());
    assert(r * 0 == 0 && r * w == w * r && r * (-w) == -(w * r) && r * (-d) == -(r * d) && 0 <= r
        * d) by (nonlinear_arith)
        requires
            0 <= r,
            0 <= d,
    ;
}

/// The points of one eighth are near the circle.
proof fn lemma_eighth_near(cx: int, cy: int, r: int, i: int)
    requires
        0 <= i < 8,
        0 <= r,
        i32::MIN <= cx - r && cx + r <= i32::MAX,
        i32::MIN <= cy - r && cy + r <= i32::MAX,
    ensures
        path::eighth(cx, cy, r, i) matches Cmd::Quad(ax, ay, x, y) && (x, y) == starting(
            cx,
            cy,
            r,
            i + 1,
        ) && all_near(
            flatten::quad_points(starting(cx, cy, r, i), (ax, ay), (x, y)),
            cx,
            cy,
            r,
        ),
{
    let p0 = starting(cx, cy, r, i);
    let p2 = starting(cx, cy, r, i + 1);
    let p1 = (
        angle::on_tangents(cx, r, MIDDLE_COSINES@[i] as int) as i32,
        angle::on_tangents(cy, r, MIDDLE_SINES@[i] as int) as i32,
    );
    lemma_starting(cx, cy, r, i);
    lemma_starting(cx, cy, r, i + 1);
    lemma_corner_near(cx, r, MIDDLE_COSINES@[i] as int, corner_east(i));
    lemma_corner_near(cy, r, MIDDLE_SINES@[i] as int, corner_south(i));
    let points = flatten::quad_points(p0, p1, p2);
    assert forall|k: int| 0 <= k < points.len() implies near_circle(
        (#[trigger] points[k]).0 - cx,
        points[k].1 - cy,
        r,
    ) by {
        let step = k + 1;
        curves::law_quad_points_are_nearest(p0.0, p1.0, p2.0, step);
        curves::law_quad_points_are_nearest(p0.1, p1.1, p2.1, step);
        lemma_moved(p0.0 as int, p1.0 as int, p2.0 as int, cx, step);
        lemma_moved(p0.1 as int, p1.1 as int, p2.1 as int, cy, step);
        let (x, y) = (points[k].0 - cx, points[k].1 - cy);
        let (a, b, c) = (east(i), corner_east(i), east(i + 1));
        lemma_mean_near(p0.0 - cx, p1.0 - cx, p2.0 - cx, x, a, b, c, r, step);
        let (a, b, c) = (south(i), corner_south(i), south(i + 1));
        lemma_mean_near(p0.1 - cy, p1.1 - cy, p2.1 - cy, y, a, b, c, r, step);
        lemma_every_eighth(i, step);
        lemma_near(
            x,
            y,
            curves::quad_point_144(east(i), corner_east(i), east(i + 1), step),
            curves::quad_point_144(south(i), corner_south(i), south(i + 1), step),
            r,
        );
    }
}

/// Moving a curve moves its points.
proof fn lemma_moved(p0: int, p1: int, p2: int, c: int, step: int)
    ensures
        curves::quad_point_144(p0 - c, p1 - c, p2 - c, step) == curves::quad_point_144(
            p0,
            p1,
            p2,
            step,
        ) - 144 * c,
{
    let rest = 12 - step;
    let (a, b, d) = (rest * rest, 2 * (step * rest), step * step);
    assert(a + b + d == 144) by (nonlinear_arith)
        requires
            rest == 12 - step,
            a == rest * rest,
            b == 2 * (step * rest),
            d == step * step,
    ;
    assert(a * (p0 - c) == a * p0 - a * c) by (nonlinear_arith);
    assert(b * (p1 - c) == b * p1 - b * c) by (nonlinear_arith);
    assert(d * (p2 - c) == d * p2 - d * c) by (nonlinear_arith);
    assert(a * c + b * c + d * c == (a + b + d) * c) by (nonlinear_arith);
}

/// The pen after the start and some of the eighths of a circle.
proof fn lemma_pen_near(cx: int, cy: int, r: int, i: int)
    requires
        0 <= i <= 8,
        0 <= r,
        i32::MIN <= cx - r && cx + r <= i32::MAX,
        i32::MIN <= cy - r && cy + r <= i32::MAX,
    ensures
        ({
            let pen = flatten::pen_after(path::circle(cx, cy, r).take(i + 1));
            &&& pen.finished == Seq::<Seq<(i32, i32)>>::empty()
            &&& pen.current.len() == 1 + 12 * i
            &&& pen.cursor == starting(cx, cy, r, i)
            &&& all_near(pen.current, cx, cy, r)
        }),
    decreases i,
{
    let circle = path::circle(cx, cy, r);
    let part = circle.take(i + 1);
    assert(part.drop_last() =~= circle.take(i));
    if i == 0 {
        let pen = flatten::pen_after(part);
        assert(circle.take(0) =~= Seq::<Cmd>::empty());
        assert(part.last() == path::circle_start(cx, cy, r));
        assert(pen.finished =~= Seq::<Seq<(i32, i32)>>::empty());
        lemma_start_near(cx, cy, r);
    } else {
        lemma_pen_near(cx, cy, r, i - 1);
        lemma_eighth_near(cx, cy, r, i - 1);
        let before = flatten::pen_after(circle.take(i));
        assert(part.last() == path::eighth(cx, cy, r, i - 1));
        let pen = flatten::pen_after(part);
        assert forall|k: int| 0 <= k < pen.current.len() implies near_circle(
            (#[trigger] pen.current[k]).0 - cx,
            pen.current[k].1 - cy,
            r,
        ) by {
            if k < before.current.len() {
                assert(pen.current[k] == before.current[k]);
            }
        }
    }
}

/// A circle starts on the circle.
proof fn lemma_start_near(cx: int, cy: int, r: int)
    requires
        0 <= r,
        i32::MIN <= cx - r && cx + r <= i32::MAX,
        i32::MIN <= cy - r && cy + r <= i32::MAX,
    ensures
        near_circle(starting(cx, cy, r, 0).0 - cx, starting(cx, cy, r, 0).1 - cy, r),
{
    roundness::law_a_circle_starts_at_its_right(cx, cy, r);
    let (rr, l, u) = (r * r, 9968 * r - 15000, 10032 * r + 15000);
    assert(0 * 0 == 0int);
    assert(100000000 * rr <= u * u) by (nonlinear_arith)
        requires
            rr == r * r,
            u == 10032 * r + 15000,
            0 <= r,
    ;
    assert(0 < l ==> l * l <= 100000000 * rr) by (nonlinear_arith)
        requires
            rr == r * r,
            l == 9968 * r - 15000,
            0 <= r,
    ;
}

/// Eight arcs make a round circle: flattened, it is one contour of 98 points, and
/// each of them is off the circle by at most 0.32 percent of the radius and one
/// and a half units, wherever the circle has room.
pub proof fn law_flattened_circles_are_round(cx: int, cy: int, r: int, k: int)
    requires
        0 <= r,
        i32::MIN <= cx - r && cx + r <= i32::MAX,
        i32::MIN <= cy - r && cy + r <= i32::MAX,
        0 <= k < 98,
    ensures
        flatten::contours(path::circle(cx, cy, r)).len() == 1,
        flatten::contours(path::circle(cx, cy, r))[0].len() == 98,
        ({
            let p = flatten::contours(path::circle(cx, cy, r))[0][k];
            near_circle(p.0 - cx, p.1 - cy, r)
        }),
{
    let circle = path::circle(cx, cy, r);
    lemma_pen_near(cx, cy, r, 8);
    assert(circle.drop_last() =~= circle.take(9));
    let before = flatten::pen_after(circle.take(9));
    assert(circle.last() == Cmd::Close);
    let points = flatten::contours(circle)[0];
    assert(points =~= before.current.push(before.current[0]));
    if k < 97 {
        assert(points[k] == before.current[k]);
    } else {
        assert(points[k] == before.current[0]);
    }
}

/// A circle is eight arcs round its centre, from its right and downward round to there
/// again. The arcs end at every eighth of a turn, and the control point of each is where
/// the tangents at both its ends meet, all to the nearest unit. A negative radius puts
/// every point on the other side of the centre, and what is beyond the coordinates is
/// held at their end.
pub proof fn law_a_circle_is_eight_arcs_round_its_centre(cx: i32, cy: i32, r: i32, i: int)
    requires
        0 <= i < 8,
    ensures
        ({
            let circle = path::circle(cx as int, cy as int, r as int);
            &&& circle.len() == 10
            &&& circle[0] matches Cmd::Move(x0, y0)
            &&& lies_at(x0 as int, cx as int, r * 18014398509481984)
            &&& lies_at(y0 as int, cy as int, 0)
            &&& circle[i + 1] matches Cmd::Quad(ax, ay, x, y)
            &&& lies_at(ax as int, cx as int, r * corner_east(i))
            &&& lies_at(ay as int, cy as int, r * corner_south(i))
            &&& lies_at(x as int, cx as int, r * east(i + 1))
            &&& lies_at(y as int, cy as int, r * south(i + 1))
            &&& circle[9] == Cmd::Close
        }),
{
    lemma_end_anywhere(cx as int, r as int, WHOLE as int, 18014398509481984);
    lemma_end_anywhere(cy as int, r as int, 0, 0);
    lemma_end_anywhere(cx as int, r as int, EIGHTH_COSINES@[i] as int, east(i + 1));
    lemma_end_anywhere(cy as int, r as int, EIGHTH_SINES@[i] as int, south(i + 1));
    lemma_corner_anywhere(cx as int, r as int, MIDDLE_COSINES@[i] as int, corner_east(i));
    lemma_corner_anywhere(cy as int, r as int, MIDDLE_SINES@[i] as int, corner_south(i));
    assert(r * 0 == 0);
}

/// A point on a circle lies at the share of the radius that its sine or cosine says, to
/// the nearest unit, whatever the angle.
pub proof fn law_points_on_a_circle_lie_at_their_share(center: i32, r: i32, c: int)
    requires
        -WHOLE <= c <= WHOLE,
    ensures
        lies_at(angle::on_circle(center as int, r as int, c), center as int, r * c),
{
    lemma_end_anywhere(center as int, r as int, c, c);
}

proof fn lemma_end_anywhere(center: int, r: int, c: int, k: int)
    requires
        i32::MIN <= r <= i32::MAX,
        i32::MIN <= center <= i32::MAX,
        -WHOLE <= k <= WHOLE,
        -WHOLE <= c <= WHOLE,
        k - 8 <= c <= k + 8,
    ensures
        lies_at(angle::on_circle(center, r, c), center, r * k),
{
    if 0 <= r {
        lemma_end_near(center, r, c, k);
    } else {
        assert((-r) * (-c) == r * c && (-r) * (-k) == r * k) by (nonlinear_arith);
        lemma_end_near(center, -r, -c, -k);
    }
}

proof fn lemma_corner_anywhere(center: int, r: int, c: int, k: int)
    requires
        i32::MIN <= r <= i32::MAX,
        i32::MIN <= center <= i32::MAX,
        ({
            ||| k == WHOLE && SIXTEENTH_COSINE - 4 <= c <= SIXTEENTH_COSINE + 2
            ||| k == -WHOLE && -SIXTEENTH_COSINE - 2 <= c <= -SIXTEENTH_COSINE + 4
            ||| k == slope() && 6893811853601121 <= c <= 6893811853601134
            ||| k == -slope() && -6893811853601134 <= c <= -6893811853601121
        }),
    ensures
        lies_at(angle::on_tangents(center, r, c), center, r * k),
{
    if 0 <= r {
        lemma_corner_near(center, r, c, k);
    } else {
        let radius = angle::tangent_radius(-r);
        assert((-radius) * c == radius * (-c) && (-r) * (-k) == r * k) by (nonlinear_arith);
        lemma_corner_near(center, -r, -c, -k);
    }
}

} // verus!
