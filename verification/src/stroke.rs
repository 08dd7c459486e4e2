//! Strokes as polygons.
use crate::angle;
use crate::angle::{TWELFTH_COSINES, TWELFTH_SINES};
use crate::binary64;
use crate::edge;
use crate::flatten;
use crate::root;
use vstd::arithmetic::power2::*;
use vstd::prelude::*;

verus! {

/// A point, `dx` and `dy` away from a given one.
pub open spec fn offset(p: (i32, i32), dx: int, dy: int) -> (i64, i64) {
    ((p.0 + dx) as i64, (p.1 + dy) as i64)
}

/// Half the width of a stroke, at least one unit.
pub open spec fn stroke_radius(width: int) -> int {
    if width < 2 {
        1
    } else {
        width / 2
    }
}

/// The twelve corners of a disc, every thirty degrees from its right on.
pub open spec fn disc_corners(center: (i32, i32), r: int) -> Seq<(i64, i64)> {
    Seq::new(12, |i: int| disc_corner(center, r, i))
}

/// One corner of a disc.
pub open spec fn disc_corner(center: (i32, i32), r: int, i: int) -> (i64, i64) {
    offset(
        center,
        angle::turned(r, TWELFTH_COSINES@[i] as int),
        angle::turned(r, TWELFTH_SINES@[i] as int),
    )
}

/// A length, on the side that a sign points to.
pub open spec fn signed(n: int, sign: int) -> int {
    if sign < 0 {
        -n
    } else {
        n
    }
}

/// A component of a direction, divided by the length of the direction vector:
/// the double, counting `2^-120`. The square of the length is given.
pub open spec fn ratio(d: int, square: int) -> int {
    signed(
        binary64::rounded_quotient(edge::magnitude(d) * pow2(172), root::length(square)),
        d,
    )
}

/// The share of a length `r` along a direction with the component `d`: the
/// double that the ratio gives, to the nearest unit.
pub open spec fn component(r: int, d: int, square: int) -> int {
    binary64::nearest_away(binary64::rounded(r * ratio(d, square)), pow2(120) as int)
}

/// The quadrilateral over a segment: its two ends, moved by `r` to either side.
pub open spec fn segment_corners(p: (i32, i32), q: (i32, i32), r: int) -> Seq<(i64, i64)> {
    let dx = q.0 - p.0;
    let dy = q.1 - p.1;
    let square = dx * dx + dy * dy;
    let nx = -component(r, dy, square);
    let ny = component(r, dx, square);
    seq![offset(p, nx, ny), offset(q, nx, ny), offset(q, -nx, -ny), offset(p, -nx, -ny)]
}

/// A quadrilateral for each segment that is not a point.
pub open spec fn segments(points: Seq<(i32, i32)>, r: int) -> Seq<Seq<(i64, i64)>>
    decreases points.len(),
{
    if points.len() < 2 {
        Seq::empty()
    } else {
        let p = points[points.len() - 2];
        let q = points.last();
        let before = segments(points.drop_last(), r);
        if p == q {
            before
        } else {
            before.push(segment_corners(p, q, r))
        }
    }
}

/// A disc at every joint and both ends.
pub open spec fn joints(points: Seq<(i32, i32)>, r: int) -> Seq<Seq<(i64, i64)>> {
    Seq::new(points.len(), |i: int| disc_corners(points[i], r))
}

/// The polygons that cover the stroke of a contour.
pub open spec fn stroke_polygons(points: Seq<(i32, i32)>, width: int) -> Seq<Seq<(i64, i64)>> {
    segments(points, stroke_radius(width)) + joints(points, stroke_radius(width))
}

/// Turns one open contour into the polygons that cover its stroke.
///
/// A quadrilateral per segment plus a disc at every joint and both ends. The
/// pieces overlap, which is exactly why the fill rule is non-zero winding: any
/// number of overlapping same-direction polygons is still simply inside.
pub fn outline(points: &[(i32, i32)], width: i32) -> (r: Vec<Vec<(i64, i64)>>)
    ensures
        flatten::contents(r@) == stroke_polygons(points@, width as int),
        forall|i: int| 0 <= i < r@.len() ==> edge::drawable((#[trigger] r@[i])@),
{
    let radius: i32 = if width < 2 {
        1
    } else {
        width / 2
    };
    let count: usize = points.len();
    let mut polygons: Vec<Vec<(i64, i64)>> = Vec::new();
    assert(flatten::contents(polygons@) =~= segments(points@.take(0), radius as int));
    for i in 0..count
        invariant
            count == points@.len(),
            1 <= radius <= 0x3fff_ffff,
            forall|i: int| 0 <= i < polygons@.len() ==> edge::drawable((#[trigger] polygons@[i])@),
            flatten::contents(polygons@) == segments(points@.take(i as int), radius as int),
    {
        proof {
            assert(points@.take(i + 1).drop_last() =~= points@.take(i as int));
        }
        if i > 0 && (points[i - 1].0 != points[i].0 || points[i - 1].1 != points[i].1) {
            let polygon = segment(points[i - 1], points[i], radius);
            proof {
                flatten::lemma_contents_push(polygons@, polygon);
            }
            polygons.push(polygon);
        }
    }
    assert(points@.take(count as int) =~= points@);
    let ghost sides = flatten::contents(polygons@);
    assert(sides =~= sides + joints(points@, radius as int).take(0));
    for i in 0..count
        invariant
            count == points@.len(),
            1 <= radius <= 0x3fff_ffff,
            forall|i: int| 0 <= i < polygons@.len() ==> edge::drawable((#[trigger] polygons@[i])@),
            flatten::contents(polygons@) == sides + joints(points@, radius as int).take(i as int),
    {
        let polygon = disc(points[i].0, points[i].1, radius);
        proof {
            let all = joints(points@, radius as int);
            flatten::lemma_contents_push(polygons@, polygon);
            assert(all.take(i + 1) =~= all.take(i as int).push(all[i as int]));
            assert(sides + all.take(i + 1) =~= (sides + all.take(i as int)).push(all[i as int]));
        }
        polygons.push(polygon);
    }
    assert(joints(points@, radius as int).take(count as int) =~= joints(points@, radius as int));
    polygons
}

/// The quadrilateral over one segment.
fn segment(p: (i32, i32), q: (i32, i32), radius: i32) -> (polygon: Vec<(i64, i64)>)
    requires
        p != q,
        1 <= radius <= 0x3fff_ffff,
    ensures
        polygon@ == segment_corners(p, q, radius as int),
        edge::drawable(polygon@),
{
    let (x0, y0): (i64, i64) = (p.0 as i64, p.1 as i64);
    let (x1, y1): (i64, i64) = (q.0 as i64, q.1 as i64);
    let (dx, dy): (i64, i64) = (x1 - x0, y1 - y0);
    proof {
        lemma_square(dx as int);
        lemma_square(dy as int);
    }
    let square: u128 = (dx as i128 * dx as i128 + dy as i128 * dy as i128) as u128;
    let nx: i64 = -share(radius, dy, square);
    let ny: i64 = share(radius, dx, square);
    let mut polygon: Vec<(i64, i64)> = Vec::new();
    polygon.push((x0 + nx, y0 + ny));
    polygon.push((x1 + nx, y1 + ny));
    polygon.push((x1 - nx, y1 - ny));
    polygon.push((x0 - nx, y0 - ny));
    assert(polygon@ =~= segment_corners(p, q, radius as int));
    polygon
}

proof fn lemma_square(d: int)
    requires
        -0xffff_ffff <= d <= 0xffff_ffff,
    ensures
        0 <= d * d <= 0x1_0000_0000_0000_0000,
        d != 0 ==> 0 < d * d,
{
    assert(0 <= d * d <= 0x1_0000_0000_0000_0000) by (nonlinear_arith)
        requires
            -0xffff_ffff <= d <= 0xffff_ffff,
    ;
    assert(d != 0 ==> 0 < d * d) by (nonlinear_arith);
}

/// A segment that points the other way has the opposite shares.
pub proof fn lemma_component_signed(r: int, d: int, square: int)
    ensures
        component(r, d, square) == signed(component(r, edge::magnitude(d), square), d),
{
    if d < 0 {
        let x = ratio(-d, square);
        assert(r * (-x) == -(r * x)) by (nonlinear_arith);
        binary64::lemma_rounded_near(r * x);
        lemma_pow2_pos(120);
        lemma_nearest_away_odd(binary64::rounded(r * x), pow2(120) as int);
    }
}

pub proof fn lemma_nearest_away_odd(n: int, d: int)
    requires
        0 < d,
    ensures
        binary64::nearest_away(-n, d) == -binary64::nearest_away(n, d),
{
    if n == 0 {
        binary64::lemma_nearest_away_near(0, d);
        let q = binary64::nearest_away(0, d);
        assert(q == 0) by (nonlinear_arith)
            requires
                -d <= 2 * (0 - d * q) <= d,
                0 < d,
        ;
    }
}

/// A share is on the side that its component points to, and no longer than the
/// whole.
pub proof fn lemma_component_within(r: int, d: int, square: int)
    requires
        0 <= r <= 0x3fff_ffff,
        0 < square <= 0x4_0000_0000_0000_0000,
        d * d <= square,
    ensures
        -r <= component(r, d, square) <= r,
        0 <= d ==> 0 <= component(r, d, square),
        d <= 0 ==> component(r, d, square) <= 0,
{
    let a = edge::magnitude(d);
    lemma_component_signed(r, d, square);
    assert(a * a == d * d) by (nonlinear_arith)
        requires
            a == d || a == -d,
    ;
    lemma_component_at_most(a, square);
    lemma_share_between(r, ratio(a, square), 0, 1, 120);
    lemma2_to64();
    assert(r * 0 == 0 && r * 1 == r);
    binary64::lemma_nearest_away_near(0, 1);
    binary64::lemma_nearest_away_near(r, 1);
    if a == 0 {
        root::lemma_length_parts(square);
        lemma_pow2_pos(120);
        lemma_no_ratio(root::length(square));
        lemma_share_between(r, 0, 0, 0, 120);
    }
}

/// A component is no longer than the direction vector.
pub proof fn lemma_component_at_most(a: int, square: int)
    requires
        0 <= a,
        0 < square <= 0x4_0000_0000_0000_0000,
        a * a <= square,
    ensures
        0 <= ratio(a, square) <= pow2(120),
{
    let (m, j) = root::lemma_length_parts(square);
    let h = root::length(square);
    lemma_length_at_least(a, square, m, j);
    lemma_pow2_pos(120);
    lemma_pow2_adds(52, 120);
    lemma2_to64_rest();
    let p = pow2(120) as int;
    assert(0 <= a * pow2(172) <= p * h) by (nonlinear_arith)
        requires
            0 <= a,
            a * 0x10_0000_0000_0000 <= h,
            pow2(172) == 0x10_0000_0000_0000 * p,
            0 < p,
    ;
    lemma_whole_ratio(h, 1, 120);
    lemma_no_ratio(h);
    assert(1 * (pow2(120) * h) == p * h);
    binary64::lemma_rounded_quotient_ordered(0, a * pow2(172), h);
    binary64::lemma_rounded_quotient_ordered(a * pow2(172), p * h, h);
}

/// Nothing is divided to nothing.
pub proof fn lemma_no_ratio(h: int)
    requires
        0 < h,
    ensures
        binary64::rounded_quotient(0, h) == 0,
{
    assert(0int / h == 0) by (nonlinear_arith)
        requires
            0 < h,
    ;
    assert(0int % h == 0) by (nonlinear_arith)
        requires
            0 < h,
    ;
    assert(h * 1 == h);
}

/// A whole number of small parts of the divisor is divided exactly.
pub proof fn lemma_whole_ratio(h: int, c: int, k: nat)
    requires
        0 < h,
        1 <= c < 0x20_0000_0000_0000,
        53 <= k,
    ensures
        binary64::rounded_quotient(c * (pow2(k) * h), h) == c * pow2(k),
{
    let p = pow2(k) as int;
    let x = c * p;
    lemma_pow2_pos(k);
    assert(c * (p * h) == x * h) by (nonlinear_arith)
        requires
            x == c * p,
    ;
    vstd::arithmetic::div_mod::lemma_div_by_multiple(x, h);
    assert(0 <= x) by (nonlinear_arith)
        requires
            x == c * p,
            1 <= c,
            0 < p,
    ;
    binary64::lemma_ulp(x);
    let j = binary64::lemma_ulp_power(x);
    let u = binary64::ulp(x);
    // The spacing is a power of two that is no larger.
    assert(j <= k) by {
        if k < j {
            lemma_pow2_strictly_increases(k, j);
            lemma_pow2_unfold(j);
            if k < j - 1 {
                lemma_pow2_strictly_increases(k, (j - 1) as nat);
            }
            assert(2 * p <= u);
            assert(x < 0x20_0000_0000_0000 * p) by (nonlinear_arith)
                requires
                    x == c * p,
                    c < 0x20_0000_0000_0000,
                    0 < p,
            ;
        }
    }
    lemma_pow2_adds(j, (k - j) as nat);
    let w = pow2((k - j) as nat) as int;
    let n = c * w;
    assert(x * h == n * (h * u)) by (nonlinear_arith)
        requires
            x == c * p,
            p == u * w,
            n == c * w,
    ;
    assert(0 < h * u) by (nonlinear_arith)
        requires
            0 < h,
            0 < u,
    ;
    vstd::arithmetic::div_mod::lemma_fundamental_div_mod_converse(n * (h * u), h * u, n, 0);
    assert(u * n == x) by (nonlinear_arith)
        requires
            x == c * p,
            p == u * w,
            n == c * w,
    ;
}

/// A ratio between two whole numbers of parts gives a share between theirs.
pub proof fn lemma_share_between(r: int, q: int, low: int, high: int, k: nat)
    requires
        0 <= r <= 0x3fff_ffff,
        0 <= low <= high <= 16,
        k <= 120,
        low * pow2(k) <= q <= high * pow2(k),
    ensures
        ({
            let share = binary64::nearest_away(binary64::rounded(r * q), pow2(120) as int);
            let part = pow2((120 - k) as nat) as int;
            binary64::nearest_away(r * low, part) <= share <= binary64::nearest_away(
                r * high,
                part,
            )
        }),
{
    let (p, w) = (pow2(k) as int, pow2((120 - k) as nat) as int);
    lemma_pow2_pos(k);
    lemma_pow2_pos(120);
    lemma_pow2_pos((120 - k) as nat);
    lemma_pow2_adds(k, (120 - k) as nat);
    let (a, b) = (r * low, r * high);
    assert(p * a <= r * q <= p * b) by (nonlinear_arith)
        requires
            a == r * low,
            b == r * high,
            low * p <= q <= high * p,
            0 <= r,
    ;
    assert(0 <= a <= b < 0x20_0000_0000_0000) by (nonlinear_arith)
        requires
            a == r * low,
            b == r * high,
            0 <= low <= high <= 16,
            0 <= r <= 0x3fff_ffff,
    ;
    binary64::lemma_rounded_ordered(p * a, r * q);
    binary64::lemma_rounded_ordered(r * q, p * b);
    binary64::lemma_rounded_scaled(a, k);
    binary64::lemma_rounded_scaled(b, k);
    assert(a % 1 == 0 && b % 1 == 0 && a / 1 == a && b / 1 == b);
    assert(binary64::ulp(a) == 1 && binary64::ulp(b) == 1);
    assert(binary64::rounded(a) == a && binary64::rounded(b) == b);
    binary64::lemma_nearest_away_ordered(p * a, binary64::rounded(r * q), p * w);
    binary64::lemma_nearest_away_ordered(binary64::rounded(r * q), p * b, p * w);
    binary64::lemma_nearest_away_scaled(a, w, p);
    binary64::lemma_nearest_away_scaled(b, w, p);
    lemma2_to64();
}

/// A length is no shorter than a component.
proof fn lemma_length_at_least(a: int, square: int, m: int, j: nat)
    requires
        0 <= a,
        a * a <= square,
        j <= 33,
        root::length(square) == pow2(j) * m,
        ({
            let (h, u) = (root::length(square), pow2(j) as int);
            let all = 0x400_0000_0000_0000_0000_0000_0000 * square;
            all < (2 * h + u) * (2 * h + u)
        }),
        0 < m,
    ensures
        a * 0x10_0000_0000_0000 <= root::length(square),
{
    let (h, u) = (root::length(square), pow2(j) as int);
    let w = pow2((52 - j) as nat) as int;
    lemma_pow2_pos(j);
    lemma_pow2_adds(j, (52 - j) as nat);
    lemma2_to64_rest();
    let x = a * 0x10_0000_0000_0000;
    if h < x {
        // Both are whole numbers of spacings, so that they are one apart.
        let n = a * w;
        assert(x == u * n) by (nonlinear_arith)
            requires
                x == a * 0x10_0000_0000_0000,
                u * w == 0x10_0000_0000_0000,
                n == a * w,
        ;
        assert(m + 1 <= n) by (nonlinear_arith)
            requires
                u * m < u * n,
                0 < u,
        ;
        assert(u * m + u <= u * n) by (nonlinear_arith)
            requires
                m + 1 <= n,
                0 < u,
        ;
        assert(0 < h) by (nonlinear_arith)
            requires
                h == u * m,
                0 < u,
                0 < m,
        ;
        assert((2 * h + u) * (2 * h + u) <= (2 * x) * (2 * x)) by (nonlinear_arith)
            requires
                0 <= 2 * h + u <= 2 * x,
        ;
        assert((2 * x) * (2 * x) == 0x400_0000_0000_0000_0000_0000_0000 * (a * a))
            by (nonlinear_arith)
            requires
                x == a * 0x10_0000_0000_0000,
        ;
    }
}

/// The share of `radius` along one component of a direction.
fn share(radius: i32, d: i64, square: u128) -> (r: i64)
    requires
        1 <= radius <= 0x3fff_ffff,
        -0xffff_ffff <= d <= 0xffff_ffff,
        d * d <= square <= 0x2_0000_0000_0000_0000,
        0 < square,
    ensures
        r == component(radius as int, d as int, square as int),
        -radius <= r <= radius,
{
    proof {
        lemma_component_within(radius as int, d as int, square as int);
        lemma_component_signed(radius as int, d as int, square as int);
    }
    let size: u128 = if d < 0 {
        (-d) as u128
    } else {
        d as u128
    };
    if size == 0 {
        return 0;
    }
    let (m, j) = root::length_of(square);
    let (q, t) = binary64::divide_to_mantissa(size, m);
    proof {
        assert(0 <= radius * q <= 0x40_0000_0000_0000_0000_0000) by (nonlinear_arith)
            requires
                0 <= radius <= 0x3fff_ffff,
                0 <= q <= 0x20_0000_0000_0000,
        ;
        binary64::lemma_rounded_near(radius * q);
        lemma_share_scaled(
            radius as int,
            size as int,
            square as int,
            m as int,
            j as nat,
            q as int,
            t as nat,
        );
    }
    let product: i128 = binary64::round_to_double(radius as i128 * q as i128);
    let n: i64 = binary64::nearest_away_of(product, binary64::power(t + j - 52) as i128) as i64;
    if d < 0 {
        -n
    } else {
        n
    }
}

/// A share is known from the mantissa of its ratio.
proof fn lemma_share_scaled(r: int, a: int, square: int, m: int, j: nat, q: int, t: nat)
    requires
        0 < a,
        j <= 33,
        69 <= t <= 106,
        0 < m,
        root::length(square) == pow2(j) * m,
        q == binary64::nearest_even(a * pow2(t), m),
        0x10_0000_0000_0000 * m <= a * pow2(t) < 0x20_0000_0000_0000 * m,
    ensures
        component(r, a, square) == binary64::nearest_away(
            binary64::rounded(r * q),
            pow2((t + j - 52) as nat) as int,
        ),
{
    let k = (172 - j - t) as nat;
    let w = (t + j - 52) as nat;
    lemma_pow2_pos(j);
    lemma_pow2_pos(k);
    lemma_pow2_pos(w);
    binary64::lemma_quotient_scaled(a * pow2(t), m, pow2(j) as int, k);
    lemma_pow2_adds(k, j);
    lemma_pow2_adds(k + j, t);
    lemma_pow2_adds(k, w);
    let (pk, pj, pt) = (pow2(k) as int, pow2(j) as int, pow2(t) as int);
    assert(pk * (pj * (a * pt)) == a * ((pk * pj) * pt)) by (nonlinear_arith);
    assert(ratio(a, square) == pk * q);
    assert(r * (pk * q) == pk * (r * q)) by (nonlinear_arith);
    binary64::lemma_rounded_scaled(r * q, k);
    binary64::lemma_nearest_away_scaled(binary64::rounded(r * q), pow2(w) as int, pk);
}

/// A twelve-sided approximation of a disc, used for caps and joins.
pub fn disc(cx: i32, cy: i32, radius: i32) -> (polygon: Vec<(i64, i64)>)
    ensures
        polygon@ == disc_corners((cx, cy), radius as int),
        -0x3fff_ffff <= radius <= 0x3fff_ffff ==> edge::drawable(polygon@),
{
    let ghost all = disc_corners((cx, cy), radius as int);
    let mut polygon: Vec<(i64, i64)> = Vec::new();
    for index in 0..12usize
        invariant
            all == disc_corners((cx, cy), radius as int),
            polygon@ == all.take(index as int),
            -0x3fff_ffff <= radius <= 0x3fff_ffff ==> forall|i: int|
                0 <= i < polygon@.len() ==> edge::in_reach(#[trigger] polygon@[i]),
    {
        let x: i64 = angle::turn(radius, TWELFTH_COSINES[index]);
        let y: i64 = angle::turn(radius, TWELFTH_SINES[index]);
        polygon.push((cx as i64 + x, cy as i64 + y));
        assert(all[index as int] == disc_corner((cx, cy), radius as int, index as int));
        assert(all.take(index + 1) =~= all.take(index as int).push(all[index as int]));
    }
    assert(all.take(12) =~= all);
    polygon
}

} // verus!
