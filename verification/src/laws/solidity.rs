//! Why strokes have no holes.
use crate::angle;
use crate::angle::{TWELFTH_COSINES, TWELFTH_SINES, WHOLE};
use crate::binary64;
use crate::edge;
use crate::edge::Edge;
use crate::fill;
use crate::laws::direction;
use crate::laws::frame;
use crate::laws::roundness;
use crate::render;
use crate::stroke;
use vstd::prelude::*;

verus! {

/// Whether edges on the way down keep to the right of an upright line, and
/// edges on the way up to its left.
pub open spec fn parted(edges: Seq<Edge>, axis: int) -> bool {
    forall|i: int|
        0 <= i < edges.len() ==> {
            let e = #[trigger] edges[i];
            &&& e.y0 < e.y1 ==> axis <= e.x0 && axis <= e.x1
            &&& e.y1 < e.y0 ==> e.x0 <= axis && e.x1 <= axis
        }
}

/// Edges that are parted go one way: nowhere is their winding number positive.
pub proof fn law_parted_edges_go_one_way(edges: Seq<Edge>, axis: int, x: int, y: int)
    requires
        parted(edges, axis),
        fill::balanced(edges),
    ensures
        fill::winding(edges, x, y) <= 0,
{
    assert(fill::net(edges, y) == 0);
    lemma_parted(edges, axis, x, y);
}

proof fn lemma_parted(edges: Seq<Edge>, axis: int, x: int, y: int)
    requires
        parted(edges, axis),
    ensures
        x < axis ==> fill::winding(edges, x, y) <= 0,
        axis <= x ==> fill::winding(edges, x, y) <= fill::net(edges, y),
    decreases edges.len(),
{
    if edges.len() > 0 {
        let e = edges[edges.len() - 1];
        assert(parted(edges.drop_last(), axis));
        lemma_parted(edges.drop_last(), axis, x, y);
        if fill::turn(e, y) != 0 {
            fill::lemma_crossing_between(e, y);
        }
    }
}

/// Whether the sides of a contour on the way down keep to the right of an
/// upright line, and those on the way up to its left.
spec fn sides_parted(points: Seq<(i64, i64)>, axis: int) -> bool {
    forall|i: int, j: int|
        0 <= i && j == i + 1 && j < points.len() ==> {
            let p = #[trigger] points[i];
            let q = #[trigger] points[j];
            &&& p.1 < q.1 ==> axis <= p.0 && axis <= q.0
            &&& q.1 < p.1 ==> p.0 <= axis && q.0 <= axis
        }
}

proof fn lemma_sides_parted(points: Seq<(i64, i64)>, axis: int, size: int)
    requires
        0 < size <= i32::MAX,
        forall|i: int| 0 <= i < points.len() ==> edge::in_reach(#[trigger] points[i]),
        sides_parted(points, axis),
    ensures
        parted(edge::sides(points, size), edge::scaled(axis, size)),
    decreases points.len(),
{
    if points.len() >= 2 {
        let shorter = points.drop_last();
        let p = points[points.len() - 2];
        let q = points[points.len() - 1];
        assert(sides_parted(shorter, axis)) by {
            assert forall|i: int, j: int|
                0 <= i && j == i + 1 && j < shorter.len() implies ({
                let p = #[trigger] shorter[i];
                let q = #[trigger] shorter[j];
                &&& p.1 < q.1 ==> axis <= p.0 && axis <= q.0
                &&& q.1 < p.1 ==> p.0 <= axis && q.0 <= axis
            }) by {
                assert(shorter[i] == points[i] && shorter[j] == points[j]);
            }
        }
        lemma_sides_parted(shorter, axis, size);
        assert(edge::in_reach(p) && edge::in_reach(q));
        edge::lemma_scaled_in_reach(p.0 as int, size);
        edge::lemma_scaled_in_reach(p.1 as int, size);
        edge::lemma_scaled_in_reach(q.0 as int, size);
        edge::lemma_scaled_in_reach(q.1 as int, size);
        if p.1 < q.1 {
            frame::law_scaling_keeps_order(p.1 as int, q.1 as int, size);
            frame::law_scaling_keeps_order(axis, p.0 as int, size);
            frame::law_scaling_keeps_order(axis, q.0 as int, size);
        } else if q.1 < p.1 {
            frame::law_scaling_keeps_order(q.1 as int, p.1 as int, size);
            frame::law_scaling_keeps_order(p.0 as int, axis, size);
            frame::law_scaling_keeps_order(q.0 as int, axis, size);
        }
    }
}

/// How far right of its centre a corner of a disc is.
#[verifier::opaque]
spec fn across(r: int, i: int) -> int {
    angle::turned(r, TWELFTH_COSINES@[i] as int)
}

/// How far below its centre a corner of a disc is.
#[verifier::opaque]
spec fn down(r: int, i: int) -> int {
    angle::turned(r, TWELFTH_SINES@[i] as int)
}

proof fn lemma_turned_in_order(r: int, c: int, d: int)
    requires
        0 <= r,
        c <= d,
    ensures
        angle::turned(r, c) <= angle::turned(r, d),
{
    assert(r * c <= r * d) by (nonlinear_arith)
        requires
            0 <= r,
            c <= d,
    ;
    angle::lemma_turned_ordered(r * c, r * d);
}

/// The last corner of a disc is not its first one.
proof fn lemma_last_corner(r: int)
    requires
        1 <= r,
    ensures
        angle::turned(r, -9007199254741000) <= -1,
{
    let least = -9007199254741000int;
    assert(r * least <= least) by (nonlinear_arith)
        requires
            1 <= r,
            least < 0,
    ;
    angle::lemma_turned_ordered(r * least, least);
    binary64::lemma_rounded_near(least);
    binary64::lemma_nearest_away_near(binary64::rounded(least), WHOLE as int);
}

/// The corners of a disc are in order along either axis.
proof fn lemma_disc_in_order(r: int)
    requires
        1 <= r <= 0x3fff_ffff,
    ensures
        across(r, 0) == r && across(r, 3) == 0 && across(r, 6) == -r && across(r, 9) == 0,
        down(r, 0) == 0 && down(r, 3) == r && down(r, 6) == 0 && down(r, 9) == -r,
        across(r, 0) >= across(r, 1) >= across(r, 2) >= 0 >= across(r, 4) >= across(r, 5) >= -r,
        -r <= across(r, 7) <= across(r, 8) <= 0 <= across(r, 10) <= across(r, 11) <= r,
        0 <= down(r, 1) <= down(r, 2) <= r && r >= down(r, 4) >= down(r, 5) >= 0,
        0 >= down(r, 7) >= down(r, 8) >= -r && -r <= down(r, 10) <= down(r, 11) <= -1,
{
    reveal(across);
    reveal(down);
    angle::lemma_turned(r, 0);
    lemma_last_corner(r);
    lemma_turned_in_order(r, 15600926743107926, 18014398509481984);
    lemma_turned_in_order(r, 9007199254740994, 15600926743107926);
    lemma_turned_in_order(r, 0, 9007199254740994);
    lemma_turned_in_order(r, -9007199254740988, 0);
    lemma_turned_in_order(r, -15600926743107926, -9007199254740988);
    lemma_turned_in_order(r, -18014398509481984, -15600926743107926);
    lemma_turned_in_order(r, -18014398509481984, -15600926743107928);
    lemma_turned_in_order(r, -15600926743107928, -9007199254741000);
    lemma_turned_in_order(r, -9007199254741000, 0);
    lemma_turned_in_order(r, 9007199254740994, 15600926743107920);
    lemma_turned_in_order(r, 15600926743107920, 18014398509481984);
    lemma_turned_in_order(r, 0, 9007199254740991);
    lemma_turned_in_order(r, 9007199254740991, 15600926743107924);
    lemma_turned_in_order(r, 15600926743107924, 18014398509481984);
    lemma_turned_in_order(r, 9007199254740991, 15600926743107926);
    lemma_turned_in_order(r, -9007199254740987, 0);
    lemma_turned_in_order(r, -15600926743107920, -9007199254740987);
    lemma_turned_in_order(r, -18014398509481984, -15600926743107920);
    lemma_turned_in_order(r, -18014398509481984, -15600926743107924);
    lemma_turned_in_order(r, -15600926743107924, -9007199254741000);
}

/// Half of the radius is rounded to a whole unit.
proof fn lemma_half_turned(r: int, c: int)
    requires
        1 <= r <= 0x3fff_ffff,
        9007199254740987 <= c <= 9007199254741000,
    ensures
        r - 1 <= 2 * angle::turned(r, c) <= r + 1,
        r - 1 <= -2 * angle::turned(r, -c) <= r + 1,
{
    let product = r * c;
    assert(9007199254740987 * r <= product <= 9007199254741000 * r && r * (-c) == -product)
        by (nonlinear_arith)
        requires
            product == r * c,
            1 <= r,
            9007199254740987 <= c <= 9007199254741000,
    ;
    binary64::lemma_rounded_near(product);
    binary64::lemma_nearest_away_near(binary64::rounded(product), WHOLE as int);
    binary64::lemma_nearest_away_near(binary64::rounded(-product), WHOLE as int);
}

/// The long offset of a corner is at least half of the radius.
proof fn lemma_long_turned(r: int, c: int)
    requires
        1 <= r <= 0x3fff_ffff,
        15600926743107920 <= c <= 15600926743107928,
    ensures
        r <= 2 * angle::turned(r, c) <= 2 * r,
        r <= -2 * angle::turned(r, -c) <= 2 * r,
{
    let product = r * c;
    assert(15600926743107920 * r <= product <= 15600926743107928 * r && r * (-c) == -product)
        by (nonlinear_arith)
        requires
            product == r * c,
            1 <= r,
            15600926743107920 <= c <= 15600926743107928,
    ;
    binary64::lemma_rounded_near(product);
    binary64::lemma_nearest_away_near(binary64::rounded(product), WHOLE as int);
    binary64::lemma_nearest_away_near(binary64::rounded(-product), WHOLE as int);
}

/// Where a corner of a disc is, by its offsets.
pub proof fn lemma_disc_offsets(center: (i32, i32), r: int, i: int)
    requires
        1 <= r <= 0x3fff_ffff,
        0 <= i < 12,
    ensures
        stroke::disc_corners(center, r).len() == 12,
        stroke::disc_corners(center, r)[i].0 - center.0 == angle::turned(
            r,
            TWELFTH_COSINES@[i] as int,
        ),
        stroke::disc_corners(center, r)[i].1 - center.1 == angle::turned(
            r,
            TWELFTH_SINES@[i] as int,
        ),
{
    angle::lemma_twelfths(i);
    angle::lemma_turned(r, TWELFTH_COSINES@[i] as int);
    angle::lemma_turned(r, TWELFTH_SINES@[i] as int);
}

/// What the offsets of the corners of a disc are.
pub proof fn lemma_disc_corner(center: (i32, i32), r: int, i: int)
    requires
        1 <= r <= 0x3fff_ffff,
        0 <= i < 12,
    ensures
        ({
            let corners = stroke::disc_corners(center, r);
            let (dx, dy) = (corners[i].0 - center.0, corners[i].1 - center.1);
            let (m, n) = (edge::magnitude(dx), edge::magnitude(dy));
            &&& corners.len() == 12
            &&& i == 0 ==> dx == r && dy == 0
            &&& i == 3 ==> dx == 0 && dy == r
            &&& i == 6 ==> dx == -r && dy == 0
            &&& i == 9 ==> dx == 0 && dy == -r
            &&& i == 1 || i == 2 ==> 0 <= dx && 0 <= dy
            &&& i == 4 || i == 5 ==> dx <= 0 && 0 <= dy
            &&& i == 7 || i == 8 ==> dx <= 0 && dy <= 0
            &&& i == 10 || i == 11 ==> 0 <= dx && dy <= 0
            &&& i % 6 == 1 || i % 6 == 5 ==> r - 1 <= 2 * n <= r + 1 && r <= 2 * m <= 2 * r
            &&& i % 6 == 2 || i % 6 == 4 ==> r - 1 <= 2 * m <= r + 1 && r <= 2 * n <= 2 * r
        }),
{
    lemma_disc_offsets(center, r, i);
    lemma_disc_in_order(r);
    reveal(across);
    reveal(down);
    let (c, s) = (TWELFTH_COSINES@[i] as int, TWELFTH_SINES@[i] as int);
    if i % 6 == 1 || i % 6 == 5 {
        lemma_half_turned(r, edge::magnitude(s));
        lemma_long_turned(r, edge::magnitude(c));
    } else if i % 6 == 2 || i % 6 == 4 {
        lemma_half_turned(r, edge::magnitude(c));
        lemma_long_turned(r, edge::magnitude(s));
    }
}

/// The corner after another one round a centre, a quarter of a turn at most,
/// adds to the area.
proof fn lemma_next_corner(a: int, b: int, c: int, d: int)
    requires
        (0 <= c <= a && 0 <= b <= d) || (c <= a <= 0 && 0 <= d <= b) || (a <= c <= 0 && d <= b
            <= 0) || (0 <= a <= c && b <= d <= 0),
    ensures
        a * d - c * b >= 0,
{
    if 0 <= c <= a && 0 <= b <= d {
        assert(a * d >= c * b) by (nonlinear_arith)
            requires
                0 <= c <= a,
                0 <= b <= d,
        ;
    } else if c <= a <= 0 && 0 <= d <= b {
        assert(a * d >= c * b) by (nonlinear_arith)
            requires
                c <= a <= 0,
                0 <= d <= b,
        ;
    } else if a <= c <= 0 && d <= b <= 0 {
        assert(a * d >= c * b) by (nonlinear_arith)
            requires
                a <= c <= 0,
                d <= b <= 0,
        ;
    } else {
        assert(a * d >= c * b) by (nonlinear_arith)
            requires
                0 <= a <= c,
                b <= d <= 0,
        ;
    }
}

/// The area of a disc is not negative.
proof fn lemma_disc_area(center: (i32, i32), r: int)
    requires
        1 <= r <= 0x3fff_ffff,
    ensures
        edge::double_area(edge::closed(stroke::disc_corners(center, r))) >= 0,
{
    let points = stroke::disc_corners(center, r);
    let ring = edge::closed(points);
    let (cx, cy) = (center.0 as int, center.1 as int);
    lemma_disc_in_order(r);
    lemma_corner_in_reach(center, r, 0);
    lemma_corner_in_reach(center, r, 11);
    assert(ring =~= points.push(points[0]));
    let corners = offsets(r);
    assert forall|i: int| 0 <= i < 13 implies (#[trigger] ring[i]).0 == cx + corners[i].0
        && ring[i].1 == cy + corners[i].1 by {
        if i < 12 {
            lemma_corner_in_reach(center, r, i);
        } else {
            lemma_corner_in_reach(center, r, 0);
        }
    }
    lemma_moved_area(ring, corners, cx, cy, 12);
    assert(ring.take(13) =~= ring);
    assert(cx * 0 == 0 && cy * 0 == 0);
    lemma_corners_add_up(r);
}

/// A corner of a disc is where its offsets say.
proof fn lemma_corner_in_reach(center: (i32, i32), r: int, i: int)
    requires
        1 <= r <= 0x3fff_ffff,
        0 <= i < 12,
    ensures
        stroke::disc_corners(center, r)[i].0 == center.0 + across(r, i),
        stroke::disc_corners(center, r)[i].1 == center.1 + down(r, i),
        edge::in_reach(stroke::disc_corners(center, r)[i]),
{
    reveal(across);
    reveal(down);
    angle::lemma_twelfths(i);
    angle::lemma_turned(r, TWELFTH_COSINES@[i] as int);
    angle::lemma_turned(r, TWELFTH_SINES@[i] as int);
}

/// The corners of a disc from its centre, the first one twice.
spec fn offsets(r: int) -> Seq<(int, int)> {
    Seq::new(
        13,
        |i: int|
            if i < 12 {
                (across(r, i), down(r, i))
            } else {
                (across(r, 0), down(r, 0))
            },
    )
}

proof fn lemma_corners_add_up(r: int)
    requires
        1 <= r <= 0x3fff_ffff,
    ensures
        relative_area(offsets(r), 12) >= 0,
{
    lemma_disc_in_order(r);
    lemma_next_corner(across(r, 0), down(r, 0), across(r, 1), down(r, 1));
    lemma_next_corner(across(r, 1), down(r, 1), across(r, 2), down(r, 2));
    lemma_next_corner(across(r, 2), down(r, 2), across(r, 3), down(r, 3));
    lemma_next_corner(across(r, 3), down(r, 3), across(r, 4), down(r, 4));
    lemma_next_corner(across(r, 4), down(r, 4), across(r, 5), down(r, 5));
    lemma_next_corner(across(r, 5), down(r, 5), across(r, 6), down(r, 6));
    lemma_next_corner(across(r, 6), down(r, 6), across(r, 7), down(r, 7));
    lemma_next_corner(across(r, 7), down(r, 7), across(r, 8), down(r, 8));
    lemma_next_corner(across(r, 8), down(r, 8), across(r, 9), down(r, 9));
    lemma_next_corner(across(r, 9), down(r, 9), across(r, 10), down(r, 10));
    lemma_next_corner(across(r, 10), down(r, 10), across(r, 11), down(r, 11));
    lemma_next_corner(across(r, 11), down(r, 11), across(r, 0), down(r, 0));
    reveal_with_fuel(relative_area, 13);
}

/// Twice the area of a contour that is given from its centre.
spec fn relative_area(corners: Seq<(int, int)>, upto: int) -> int
    decreases upto,
{
    if upto <= 0 {
        0
    } else {
        relative_area(corners, upto - 1) + (corners[upto - 1].0 * corners[upto].1
            - corners[upto].0 * corners[upto - 1].1)
    }
}

proof fn lemma_moved_product(cx: int, a: int, cy: int, d: int)
    ensures
        (cx + a) * (cy + d) == cx * cy + cx * d + cy * a + a * d,
{
    assert((cx + a) * (cy + d) == cx * (cy + d) + a * (cy + d)) by (nonlinear_arith);
    assert(cx * (cy + d) == cx * cy + cx * d) by (nonlinear_arith);
    assert(a * (cy + d) == cy * a + a * d) by (nonlinear_arith);
}

/// Moving a closed contour does not change its area.
proof fn lemma_moved_area(
    ring: Seq<(i64, i64)>,
    corners: Seq<(int, int)>,
    cx: int,
    cy: int,
    upto: int,
)
    requires
        0 <= upto < ring.len(),
        ring.len() == corners.len(),
        forall|i: int|
            0 <= i < ring.len() ==> (#[trigger] ring[i]).0 == cx + corners[i].0 && ring[i].1 == cy
                + corners[i].1,
    ensures
        edge::double_area(ring.take(upto + 1)) == relative_area(corners, upto) + cx * (
        corners[upto].1 - corners[0].1) - cy * (corners[upto].0 - corners[0].0),
    decreases upto,
{
    let part = ring.take(upto + 1);
    if upto == 0 {
        assert(cx * 0 == 0 && cy * 0 == 0);
    } else {
        lemma_moved_area(ring, corners, cx, cy, upto - 1);
        assert(part.drop_last() =~= ring.take(upto));
        let (a, b) = corners[upto - 1];
        let (c, d) = corners[upto];
        let (e, f) = corners[0];
        assert(ring[upto - 1].0 == cx + a && ring[upto].0 == cx + c);
        lemma_moved_product(cx, a, cy, d);
        lemma_moved_product(cx, c, cy, b);
        assert(cx * (d - f) == cx * d - cx * f && cx * (b - f) == cx * b - cx * f)
            by (nonlinear_arith);
        assert(cy * (c - e) == cy * c - cy * e && cy * (a - e) == cy * a - cy * e)
            by (nonlinear_arith);
    }
}

/// A disc goes one way: nowhere is its winding number positive, at any radius
/// and any size.
pub proof fn law_discs_go_one_way(center: (i32, i32), r: int, size: int, x: int, y: int)
    requires
        1 <= r <= 0x3fff_ffff,
        0 < size <= i32::MAX,
    ensures
        fill::winding(edge::contour_edges(stroke::disc_corners(center, r), size), x, y) <= 0,
{
    let points = stroke::disc_corners(center, r);
    let ring = edge::closed(points);
    let axis = center.0 as int;
    lemma_disc_in_order(r);
    lemma_disc_area(center, r);
    lemma_corner_in_reach(center, r, 0);
    lemma_corner_in_reach(center, r, 11);
    assert(ring =~= points.push(points[0]));
    assert forall|i: int| 0 <= i < points.len() implies edge::in_reach(#[trigger] points[i])
        && points[i].0 == axis + across(r, i) && points[i].1 == center.1 + down(r, i) by {
        lemma_corner_in_reach(center, r, i);
    }
    assert forall|i: int| 0 <= i < ring.len() implies edge::in_reach(#[trigger] ring[i]) by {
        if i == 12 {
            assert(edge::in_reach(points[0]));
        } else {
            assert(edge::in_reach(points[i]));
        }
    }
    assert(sides_parted(ring, axis));
    lemma_sides_parted(ring, axis, size);
    render::lemma_contour_balanced(points, size);
    law_parted_edges_go_one_way(
        edge::contour_edges(points, size),
        edge::scaled(axis, size),
        x,
        y,
    );
}

/// Caps and joins never cancel one another: what is inside one of the discs
/// along a contour is inside them all together.
pub proof fn law_joints_never_cancel(
    points: Seq<(i32, i32)>,
    width: int,
    size: int,
    x: int,
    y: int,
)
    requires
        i32::MIN <= width <= i32::MAX,
        0 < size <= i32::MAX,
    ensures
        ({
            let discs = stroke::joints(points, stroke::stroke_radius(width));
            fill::winding(edge::all_edges(discs, size), x, y) != 0 <==> exists|i: int|
                0 <= i < discs.len() && fill::winding(
                    edge::contour_edges(#[trigger] discs[i], size),
                    x,
                    y,
                ) != 0
        }),
{
    let r = stroke::stroke_radius(width);
    let discs = stroke::joints(points, r);
    assert forall|i: int| 0 <= i < discs.len() implies fill::winding(
        edge::contour_edges(#[trigger] discs[i], size),
        x,
        y,
    ) <= 0 by {
        law_discs_go_one_way(points[i], r, size, x, y);
    }
    direction::law_same_direction_never_cancels(discs, size, x, y);
}

/// How far a point lies to the inner side of a line, in icon units.
spec fn inward_units(a: (i64, i64), b: (i64, i64), v: (i64, i64)) -> int {
    (b.0 - a.0) * (v.1 - a.1) - (b.1 - a.1) * (v.0 - a.0)
}

/// The way from one point to another along both axes.
spec fn way(a: (i64, i64), b: (i64, i64)) -> int {
    edge::magnitude(b.0 - a.0) + edge::magnitude(b.1 - a.1)
}

/// What scaling cuts off.
proof fn lemma_scaled_rest(value: int, size: int)
    requires
        0 < size,
    ensures
        -1000 < 256 * size * value - 1000 * edge::scaled(value, size) < 1000,
{
    let n = value * size * 256;
    assert(n == 256 * size * value) by (nonlinear_arith)
        requires
            n == value * size * 256,
    ;
    assert(edge::magnitude(crate::path::UNITS as int) == 1000);
    let q = edge::magnitude(n) / 1000;
    assert(1000 * q <= edge::magnitude(n) < 1000 * q + 1000);
}

/// A point that lies well to the inner side of a line still does so when both
/// are scaled.
proof fn lemma_inward_scaled(a: (i64, i64), b: (i64, i64), v: (i64, i64), size: int)
    requires
        8 <= size <= i32::MAX,
        edge::in_reach(a),
        edge::in_reach(b),
        edge::in_reach(v),
        256 * size * inward_units(a, b, v) >= 2000 * (way(a, b) + way(a, v)) + 4000,
    ensures
        direction::inward(
            edge::edge_between(a, b, size),
            edge::scaled(v.0 as int, size),
            edge::scaled(v.1 as int, size),
        ) >= 0,
{
    let s = 256 * size;
    lemma_scaled_rest(a.0 as int, size);
    lemma_scaled_rest(a.1 as int, size);
    lemma_scaled_rest(b.0 as int, size);
    lemma_scaled_rest(b.1 as int, size);
    lemma_scaled_rest(v.0 as int, size);
    lemma_scaled_rest(v.1 as int, size);
    edge::lemma_scaled_in_reach(a.0 as int, size);
    edge::lemma_scaled_in_reach(a.1 as int, size);
    edge::lemma_scaled_in_reach(b.0 as int, size);
    edge::lemma_scaled_in_reach(b.1 as int, size);
    let (p1, p2) = (b.0 - a.0, b.1 - a.1);
    let (q1, q2) = (v.0 - a.0, v.1 - a.1);
    let (x1, x2) = (
        edge::scaled(b.0 as int, size) - edge::scaled(a.0 as int, size),
        edge::scaled(b.1 as int, size) - edge::scaled(a.1 as int, size),
    );
    let (y1, y2) = (
        edge::scaled(v.0 as int, size) - edge::scaled(a.0 as int, size),
        edge::scaled(v.1 as int, size) - edge::scaled(a.1 as int, size),
    );
    assert(s * p1 == s * b.0 - s * a.0) by (nonlinear_arith)
        requires
            p1 == b.0 - a.0,
    ;
    assert(s * p2 == s * b.1 - s * a.1) by (nonlinear_arith)
        requires
            p2 == b.1 - a.1,
    ;
    assert(s * q1 == s * v.0 - s * a.0) by (nonlinear_arith)
        requires
            q1 == v.0 - a.0,
    ;
    assert(s * q2 == s * v.1 - s * a.1) by (nonlinear_arith)
        requires
            q2 == v.1 - a.1,
    ;
    let (d1, d2) = (1000 * x1 - s * p1, 1000 * x2 - s * p2);
    let (e1, e2) = (1000 * y1 - s * q1, 1000 * y2 - s * q2);
    lemma_cross_off(s, p1, p2, q1, q2, d1, d2, e1, e2);
    assert((1000 * x1) * (1000 * y2) == 1000000 * (x1 * y2)) by (nonlinear_arith);
    assert((1000 * x2) * (1000 * y1) == 1000000 * (x2 * y1)) by (nonlinear_arith);
    let k = p1 * q2 - p2 * q1;
    let ways = way(a, b) + way(a, v);
    assert(s * (s * k) >= s * (2000 * ways + 4000)) by (nonlinear_arith)
        requires
            s * k >= 2000 * ways + 4000,
            s > 0,
    ;
    assert(s * (2000 * ways + 4000) == 2000 * (s * ways) + 4000 * s) by (nonlinear_arith);
}

/// A cross product of two ways that are off by less than two thousand each.
proof fn lemma_cross_off(
    s: int,
    p1: int,
    p2: int,
    q1: int,
    q2: int,
    d1: int,
    d2: int,
    e1: int,
    e2: int,
)
    requires
        0 < s,
        -2000 <= d1 <= 2000,
        -2000 <= d2 <= 2000,
        -2000 <= e1 <= 2000,
        -2000 <= e2 <= 2000,
    ensures
        ({
            let ways = edge::magnitude(p1) + edge::magnitude(p2) + edge::magnitude(q1)
                + edge::magnitude(q2);
            (s * p1 + d1) * (s * q2 + e2) - (s * p2 + d2) * (s * q1 + e1) >= s * (s * (p1 * q2 - p2
                * q1)) - 2000 * (s * ways) - 8000000
        }),
{
    lemma_product_expanded(s, p1, q2, d1, e2);
    lemma_product_expanded(s, p2, q1, d2, e1);
    lemma_bounded_product(p1, e2);
    lemma_bounded_product(q2, d1);
    lemma_bounded_product(p2, e1);
    lemma_bounded_product(q1, d2);
    assert(-4000000 <= d1 * e2 <= 4000000) by (nonlinear_arith)
        requires
            -2000 <= d1 <= 2000,
            -2000 <= e2 <= 2000,
    ;
    assert(-4000000 <= d2 * e1 <= 4000000) by (nonlinear_arith)
        requires
            -2000 <= d2 <= 2000,
            -2000 <= e1 <= 2000,
    ;
    let ways = edge::magnitude(p1) + edge::magnitude(p2) + edge::magnitude(q1) + edge::magnitude(
        q2,
    );
    let off = p1 * e2 + q2 * d1 - p2 * e1 - q1 * d2;
    assert(s * off >= s * (-2000 * ways)) by (nonlinear_arith)
        requires
            off >= -2000 * ways,
            s > 0,
    ;
    assert(s * (-2000 * ways) == -2000 * (s * ways)) by (nonlinear_arith);
    let (t1, t2, t3, t4) = (p1 * e2, q2 * d1, p2 * e1, q1 * d2);
    assert(s * (t1 + t2 - t3 - t4) == s * t1 + s * t2 - s * t3 - s * t4) by (nonlinear_arith);
    let (k1, k2) = (p1 * q2, p2 * q1);
    assert(s * (s * (k1 - k2)) == s * (s * k1) - s * (s * k2)) by (nonlinear_arith);
}

proof fn lemma_product_expanded(s: int, p: int, q: int, d: int, e: int)
    ensures
        (s * p + d) * (s * q + e) == s * (s * (p * q)) + s * (p * e) + s * (q * d) + d * e,
{
    let (a, b) = (s * p, s * q);
    assert((a + d) * (b + e) == a * b + a * e + b * d + d * e) by (nonlinear_arith);
    assert((s * p) * (s * q) == s * (s * (p * q))) by (nonlinear_arith);
    assert((s * p) * e == s * (p * e)) by (nonlinear_arith);
    assert((s * q) * d == s * (q * d)) by (nonlinear_arith);
}

proof fn lemma_bounded_product(p: int, e: int)
    requires
        -2000 <= e <= 2000,
    ensures
        -2000 * edge::magnitude(p) <= p * e <= 2000 * edge::magnitude(p),
{
    let m = edge::magnitude(p);
    assert(-2000 * m <= p * e <= 2000 * m) by (nonlinear_arith)
        requires
            -2000 <= e <= 2000,
            m == p || m == -p,
            m >= 0,
    ;
}

/// The edges along a contour join its points, one to the next.
proof fn lemma_sides_join(points: Seq<(i64, i64)>, size: int, i: int) -> (k: int)
    requires
        0 <= i < edge::sides(points, size).len(),
    ensures
        0 <= k < points.len() - 1,
        edge::sides(points, size)[i] == edge::edge_between(points[k], points[k + 1], size),
    decreases points.len(),
{
    let shorter = points.drop_last();
    let before = edge::sides(shorter, size);
    if i < before.len() {
        let k = lemma_sides_join(shorter, size, i);
        assert(shorter[k] == points[k] && shorter[k + 1] == points[k + 1]);
        k
    } else {
        points.len() - 2
    }
}

/// Whether every corner of a contour lies to the inner side of each of its
/// sides, when all are scaled.
spec fn corners_inward(ring: Seq<(i64, i64)>, size: int) -> bool {
    forall|k: int, m: int|
        0 <= k < ring.len() - 1 && 0 <= m < ring.len() ==> corner_inward(ring, size, k, m)
}

spec fn corner_inward(ring: Seq<(i64, i64)>, size: int, k: int, m: int) -> bool {
    direction::inward(
        edge::edge_between(ring[k], ring[k + 1], size),
        edge::scaled(ring[m].0 as int, size),
        edge::scaled(ring[m].1 as int, size),
    ) >= 0
}

proof fn lemma_corners_make_convex(ring: Seq<(i64, i64)>, size: int)
    requires
        0 < size <= i32::MAX,
        forall|i: int| 0 <= i < ring.len() ==> edge::in_reach(#[trigger] ring[i]),
        corners_inward(ring, size),
    ensures
        direction::convex(edge::sides(ring, size)),
{
    let edges = edge::sides(ring, size);
    assert forall|i: int, j: int|
        #![trigger edges[i], edges[j]]
        0 <= i < edges.len() && 0 <= j < edges.len() implies direction::inward(
        edges[i],
        edges[j].x0 as int,
        edges[j].y0 as int,
    ) >= 0 && direction::inward(edges[i], edges[j].x1 as int, edges[j].y1 as int) >= 0 by {
        let k = lemma_sides_join(ring, size, i);
        let m = lemma_sides_join(ring, size, j);
        assert(corner_inward(ring, size, k, m));
        assert(corner_inward(ring, size, k, m + 1));
        assert(edge::in_reach(ring[m]) && edge::in_reach(ring[m + 1]));
        edge::lemma_scaled_in_reach(ring[m].0 as int, size);
        edge::lemma_scaled_in_reach(ring[m].1 as int, size);
        edge::lemma_scaled_in_reach(ring[m + 1].0 as int, size);
        edge::lemma_scaled_in_reach(ring[m + 1].1 as int, size);
    }
}

/// The ends of a side lie on it.
proof fn lemma_ends_inward(a: (i64, i64), b: (i64, i64), size: int)
    requires
        0 < size <= i32::MAX,
        edge::in_reach(a),
        edge::in_reach(b),
    ensures
        direction::inward(
            edge::edge_between(a, b, size),
            edge::scaled(a.0 as int, size),
            edge::scaled(a.1 as int, size),
        ) == 0,
        direction::inward(
            edge::edge_between(a, b, size),
            edge::scaled(b.0 as int, size),
            edge::scaled(b.1 as int, size),
        ) == 0,
{
    edge::lemma_scaled_in_reach(a.0 as int, size);
    edge::lemma_scaled_in_reach(a.1 as int, size);
    edge::lemma_scaled_in_reach(b.0 as int, size);
    edge::lemma_scaled_in_reach(b.1 as int, size);
    let e = edge::edge_between(a, b, size);
    let (u, v) = (e.x1 - e.x0, e.y1 - e.y0);
    assert(u * 0 == 0 && v * 0 == 0);
    assert(u * v - v * u == 0) by (nonlinear_arith);
}

/// Whether a segment and its stroke are large enough to keep their shape: the
/// segment is at least a sixteenth of a pixel long, the stroke a quarter of a
/// pixel wide, and the box eight pixels large.
pub open spec fn keeps_its_shape(p: (i32, i32), q: (i32, i32), r: int, size: int) -> bool {
    &&& 8 <= size
    &&& 126 <= size * r
    &&& 63 <= size * edge::magnitude(q.0 - p.0) || 63 <= size * edge::magnitude(q.1 - p.1)
}

/// How large the area over a segment is, compared to the ways round it.
proof fn lemma_segment_is_wide(dx: int, dy: int, r: int, size: int)
    requires
        1 <= r <= 0x3fff_ffff,
        8 <= size,
        126 <= size * r,
        63 <= size * edge::magnitude(dx),
        edge::magnitude(dy) <= edge::magnitude(dx) <= 0xffff_ffff,
    ensures
        ({
            let square = dx * dx + dy * dy;
            let a = stroke::component(r, dx, square);
            let b = stroke::component(r, dy, square);
            let ways = 2 * (edge::magnitude(dx) + edge::magnitude(dy)) + 4 * (edge::magnitude(a)
                + edge::magnitude(b));
            &&& 0 < square
            &&& edge::magnitude(a) <= r
            &&& edge::magnitude(b) <= r
            &&& 0 < edge::magnitude(a)
            &&& 0 < dx * a + dy * b
            &&& 256 * size * (2 * (dx * a + dy * b)) >= 2000 * ways + 4000
        }),
{
    let square = dx * dx + dy * dy;
    let (x, y) = (edge::magnitude(dx), edge::magnitude(dy));
    assert(0 < x) by (nonlinear_arith)
        requires
            63 <= size * x,
            0 <= x,
    ;
    assert(dx * dx == x * x && dy * dy == y * y) by (nonlinear_arith)
        requires
            x == dx || x == -dx,
            y == dy || y == -dy,
    ;
    assert(0 < x * x && 0 <= y * y <= x * x) by (nonlinear_arith)
        requires
            0 < x,
            0 <= y <= x,
    ;
    assert(square <= 0x4_0000_0000_0000_0000) by (nonlinear_arith)
        requires
            square == x * x + y * y,
            0 <= y <= x <= 0xffff_ffff,
    ;
    roundness::law_a_stroke_is_moved_by_its_radius(r, dx, square);
    roundness::law_a_stroke_is_moved_by_its_radius(r, dy, square);
    roundness::law_the_longer_way_has_the_larger_share(r, dy, dx, square);
    roundness::law_the_longer_way_has_half_the_radius(r, dx, square);
    let a = stroke::component(r, dx, square);
    let b = stroke::component(r, dy, square);
    let (c, d) = (edge::magnitude(a), edge::magnitude(b));
    assert(dx * a == x * c && dy * b == y * d) by (nonlinear_arith)
        requires
            (dx < 0 && x == -dx && c == -a) || (dx >= 0 && x == dx && c == a),
            (dy < 0 && y == -dy && d == -b) || (dy >= 0 && y == dy && d == b),
    ;
    assert(0 < x * c && 0 <= y * d) by (nonlinear_arith)
        requires
            0 < x,
            0 < c,
            0 <= y,
            0 <= d,
    ;
    lemma_wide_enough(size, r, x, y, c, d);
}

proof fn lemma_wide_enough(size: int, r: int, x: int, y: int, c: int, d: int)
    requires
        126 <= size * r,
        r <= 2 * c,
        63 <= size * x,
        0 <= y <= x,
        0 <= d <= c,
        0 < x,
        0 < c,
        0 < size,
        0 <= y * d,
    ensures
        256 * size * (2 * (x * c + y * d)) >= 2000 * (2 * (x + y) + 4 * (c + d)) + 4000,
{
    let (sc, sx) = (size * c, size * x);
    assert(63 <= sc) by (nonlinear_arith)
        requires
            sc == size * c,
            126 <= size * r,
            r <= 2 * c,
            0 < size,
    ;
    assert(sc * x >= 63 * x) by (nonlinear_arith)
        requires
            63 <= sc,
            0 < x,
    ;
    assert(sx * c >= 63 * c) by (nonlinear_arith)
        requires
            63 <= sx,
            0 < c,
    ;
    assert(sc * x == size * (x * c) && sx * c == size * (x * c)) by (nonlinear_arith)
        requires
            sc == size * c,
            sx == size * x,
    ;
    let (k, l) = (x * c, y * d);
    assert(size * l >= 0) by (nonlinear_arith)
        requires
            0 <= l,
            0 < size,
    ;
    assert(256 * size * (2 * (k + l)) == 512 * (size * k) + 512 * (size * l)) by (nonlinear_arith);
}

/// The four corners over a segment from `p` along `(dx, dy)`, moved by `(a, b)`.
spec fn slab(p: (i32, i32), dx: int, dy: int, a: int, b: int) -> Seq<(i64, i64)> {
    seq![
        stroke::offset(p, -b, a),
        stroke::offset(p, dx - b, dy + a),
        stroke::offset(p, dx + b, dy - a),
        stroke::offset(p, b, -a),
    ]
}

/// The corners over a segment, the way round that the edges are taken.
spec fn slab_ring(p: (i32, i32), dx: int, dy: int, a: int, b: int) -> Seq<(i64, i64)> {
    let s = slab(p, dx, dy, a, b);
    seq![s[0], s[3], s[2], s[1], s[0]]
}

/// Coordinates small enough to be those of a corner over a segment.
spec fn slab_in_range(p: (i32, i32), dx: int, dy: int, a: int, b: int) -> bool {
    &&& i32::MIN <= p.0 + dx <= i32::MAX
    &&& i32::MIN <= p.1 + dy <= i32::MAX
    &&& -0x3fff_ffff <= a <= 0x3fff_ffff
    &&& -0x3fff_ffff <= b <= 0x3fff_ffff
}

proof fn lemma_slab_oriented(p: (i32, i32), dx: int, dy: int, a: int, b: int)
    requires
        slab_in_range(p, dx, dy, a, b),
        0 < dx * a + dy * b,
        a != 0 || b != 0,
    ensures
        edge::oriented(slab(p, dx, dy, a, b)) == slab_ring(p, dx, dy, a, b),
{
    let points = slab(p, dx, dy, a, b);
    let ring = edge::closed(points);
    assert(ring =~= points.push(points[0]));
    let (cx, cy) = (p.0 - b, p.1 + a);
    let corners: Seq<(int, int)> = seq![
        (0, 0),
        (dx, dy),
        (dx + 2 * b, dy - 2 * a),
        (2 * b, -2 * a),
        (0, 0),
    ];
    assert forall|i: int| 0 <= i < 5 implies (#[trigger] ring[i]).0 == cx + corners[i].0
        && ring[i].1 == cy + corners[i].1 by {}
    lemma_moved_area(ring, corners, cx, cy, 4);
    assert(ring.take(5) =~= ring);
    assert(cx * 0 == 0 && cy * 0 == 0);
    reveal_with_fuel(relative_area, 5);
    assert(relative_area(corners, 4) == (0 * dy - dx * 0) + (dx * (dy - 2 * a) - (dx + 2 * b) * dy)
        + ((dx + 2 * b) * (-2 * a) - (2 * b) * (dy - 2 * a)) + ((2 * b) * 0 - 0 * (-2 * a)));
    let (da, db) = (dx * a, dy * b);
    assert(dx * (dy - 2 * a) - (dx + 2 * b) * dy == -2 * da - 2 * db) by (nonlinear_arith)
        requires
            da == dx * a,
            db == dy * b,
    ;
    assert((dx + 2 * b) * (-2 * a) - (2 * b) * (dy - 2 * a) == -2 * da - 2 * db)
        by (nonlinear_arith)
        requires
            da == dx * a,
            db == dy * b,
    ;
    assert(edge::double_area(ring) < 0);
    assert(ring.reverse() =~= slab_ring(p, dx, dy, a, b));
}

/// Whether a point lies to the inner side of a line by a given measure, with no
/// more than a given way between them.
spec fn beside(a: (i64, i64), b: (i64, i64), v: (i64, i64), measure: int, ways: int) -> bool {
    &&& inward_units(a, b, v) == measure
    &&& way(a, b) + way(a, v) <= ways
}

proof fn lemma_beside_inward(
    a: (i64, i64),
    b: (i64, i64),
    v: (i64, i64),
    measure: int,
    ways: int,
    size: int,
)
    requires
        8 <= size <= i32::MAX,
        edge::in_reach(a),
        edge::in_reach(b),
        edge::in_reach(v),
        beside(a, b, v, measure, ways),
        256 * size * measure >= 2000 * ways + 4000,
    ensures
        direction::inward(
            edge::edge_between(a, b, size),
            edge::scaled(v.0 as int, size),
            edge::scaled(v.1 as int, size),
        ) >= 0,
{
    lemma_inward_scaled(a, b, v, size);
}

/// Four corners, each well to the inner side of the sides it is not on, bound a
/// convex area.
proof fn lemma_four_corners(
    a: (i64, i64),
    b: (i64, i64),
    c: (i64, i64),
    d: (i64, i64),
    measure: int,
    ways: int,
    size: int,
)
    requires
        8 <= size <= i32::MAX,
        edge::in_reach(a) && edge::in_reach(b) && edge::in_reach(c) && edge::in_reach(d),
        256 * size * measure >= 2000 * ways + 4000,
        beside(a, b, c, measure, ways) && beside(a, b, d, measure, ways),
        beside(b, c, d, measure, ways) && beside(b, c, a, measure, ways),
        beside(c, d, a, measure, ways) && beside(c, d, b, measure, ways),
        beside(d, a, b, measure, ways) && beside(d, a, c, measure, ways),
    ensures
        direction::convex(edge::sides(seq![a, b, c, d, a], size)),
{
    let ring = seq![a, b, c, d, a];
    lemma_beside_inward(a, b, c, measure, ways, size);
    lemma_beside_inward(a, b, d, measure, ways, size);
    lemma_beside_inward(b, c, d, measure, ways, size);
    lemma_beside_inward(b, c, a, measure, ways, size);
    lemma_beside_inward(c, d, a, measure, ways, size);
    lemma_beside_inward(c, d, b, measure, ways, size);
    lemma_beside_inward(d, a, b, measure, ways, size);
    lemma_beside_inward(d, a, c, measure, ways, size);
    lemma_ends_inward(a, b, size);
    lemma_ends_inward(b, c, size);
    lemma_ends_inward(c, d, size);
    lemma_ends_inward(d, a, size);
    assert(corners_inward(ring, size)) by {
        assert forall|k: int, m: int|
            0 <= k < ring.len() - 1 && 0 <= m < ring.len() implies corner_inward(
            ring,
            size,
            k,
            m,
        ) by {
            assert(k == 0 || k == 1 || k == 2 || k == 3);
            assert(m == 0 || m == 1 || m == 2 || m == 3 || m == 4);
        }
    }
    lemma_corners_make_convex(ring, size);
}

/// All pairs of ways between the corners over a segment have the same measure.
proof fn lemma_slab_measures(dx: int, dy: int, a: int, b: int)
    ensures
        ({
            let measure = 2 * (dx * a + dy * b);
            &&& (2 * b) * (dy - 2 * a) - (-2 * a) * (dx + 2 * b) == measure
            &&& (2 * b) * dy - (-2 * a) * dx == measure
            &&& dx * (dy + 2 * a) - dy * (dx - 2 * b) == measure
            &&& dx * (2 * a) - dy * (-2 * b) == measure
            &&& (-2 * b) * (-dy + 2 * a) - (2 * a) * (-dx - 2 * b) == measure
            &&& (-2 * b) * (-dy) - (2 * a) * (-dx) == measure
            &&& (-dx) * (-dy - 2 * a) - (-dy) * (-dx + 2 * b) == measure
            &&& (-dx) * (-2 * a) - (-dy) * (2 * b) == measure
        }),
{
    let (da, db) = (dx * a, dy * b);
    assert((2 * b) * (dy - 2 * a) - (-2 * a) * (dx + 2 * b) == 2 * (da + db)) by (nonlinear_arith)
        requires
            da == dx * a,
            db == dy * b,
    ;
    assert((2 * b) * dy - (-2 * a) * dx == 2 * (da + db)) by (nonlinear_arith)
        requires
            da == dx * a,
            db == dy * b,
    ;
    assert(dx * (dy + 2 * a) - dy * (dx - 2 * b) == 2 * (da + db)) by (nonlinear_arith)
        requires
            da == dx * a,
            db == dy * b,
    ;
    assert(dx * (2 * a) - dy * (-2 * b) == 2 * (da + db)) by (nonlinear_arith)
        requires
            da == dx * a,
            db == dy * b,
    ;
    assert((-2 * b) * (-dy + 2 * a) - (2 * a) * (-dx - 2 * b) == 2 * (da + db)) by (nonlinear_arith)
        requires
            da == dx * a,
            db == dy * b,
    ;
    assert((-2 * b) * (-dy) - (2 * a) * (-dx) == 2 * (da + db)) by (nonlinear_arith)
        requires
            da == dx * a,
            db == dy * b,
    ;
    assert((-dx) * (-dy - 2 * a) - (-dy) * (-dx + 2 * b) == 2 * (da + db)) by (nonlinear_arith)
        requires
            da == dx * a,
            db == dy * b,
    ;
    assert((-dx) * (-2 * a) - (-dy) * (2 * b) == 2 * (da + db)) by (nonlinear_arith)
        requires
            da == dx * a,
            db == dy * b,
    ;
}

proof fn lemma_beside(
    a: (i64, i64),
    b: (i64, i64),
    v: (i64, i64),
    e: int,
    f: int,
    g: int,
    h: int,
    measure: int,
    ways: int,
)
    requires
        b.0 - a.0 == e && b.1 - a.1 == f,
        v.0 - a.0 == g && v.1 - a.1 == h,
        e * h - f * g == measure,
        edge::magnitude(e) + edge::magnitude(f) + edge::magnitude(g) + edge::magnitude(h) <= ways,
    ensures
        beside(a, b, v, measure, ways),
{
}

/// Every corner over a segment lies to the inner side of the two sides that it
/// is not on, by the same measure.
#[verifier::spinoff_prover]
#[verifier::rlimit(40)]
proof fn lemma_slab_beside(p: (i32, i32), dx: int, dy: int, a: int, b: int)
    requires
        slab_in_range(p, dx, dy, a, b),
    ensures
        ({
            let s = slab(p, dx, dy, a, b);
            let measure = 2 * (dx * a + dy * b);
            let ways = 2 * (edge::magnitude(dx) + edge::magnitude(dy)) + 4 * (edge::magnitude(a)
                + edge::magnitude(b));
            &&& beside(s[0], s[3], s[2], measure, ways) && beside(s[0], s[3], s[1], measure, ways)
            &&& beside(s[3], s[2], s[1], measure, ways) && beside(s[3], s[2], s[0], measure, ways)
            &&& beside(s[2], s[1], s[0], measure, ways) && beside(s[2], s[1], s[3], measure, ways)
            &&& beside(s[1], s[0], s[3], measure, ways) && beside(s[1], s[0], s[2], measure, ways)
        }),
{
    let s = slab(p, dx, dy, a, b);
    let (s0, s1, s2, s3) = (s[0], s[1], s[2], s[3]);
    let measure = 2 * (dx * a + dy * b);
    let ways = 2 * (edge::magnitude(dx) + edge::magnitude(dy)) + 4 * (edge::magnitude(a)
        + edge::magnitude(b));
    assert(s0.0 == p.0 - b && s0.1 == p.1 + a);
    assert(s1.0 == p.0 + dx - b && s1.1 == p.1 + dy + a);
    assert(s2.0 == p.0 + dx + b && s2.1 == p.1 + dy - a);
    assert(s3.0 == p.0 + b && s3.1 == p.1 - a);
    lemma_slab_measures(dx, dy, a, b);
    lemma_beside(s0, s3, s2, 2 * b, -2 * a, dx + 2 * b, dy - 2 * a, measure, ways);
    lemma_beside(s0, s3, s1, 2 * b, -2 * a, dx, dy, measure, ways);
    lemma_beside(s3, s2, s1, dx, dy, dx - 2 * b, dy + 2 * a, measure, ways);
    lemma_beside(s3, s2, s0, dx, dy, -2 * b, 2 * a, measure, ways);
    lemma_beside(s2, s1, s0, -2 * b, 2 * a, -dx - 2 * b, -dy + 2 * a, measure, ways);
    lemma_beside(s2, s1, s3, -2 * b, 2 * a, -dx, -dy, measure, ways);
    lemma_beside(s1, s0, s3, -dx, -dy, -dx + 2 * b, -dy - 2 * a, measure, ways);
    lemma_beside(s1, s0, s2, -dx, -dy, 2 * b, -2 * a, measure, ways);
}

/// The area over a segment is convex, when it is large enough.
proof fn lemma_slab_convex(p: (i32, i32), dx: int, dy: int, a: int, b: int, size: int)
    requires
        8 <= size <= i32::MAX,
        slab_in_range(p, dx, dy, a, b),
        256 * size * (2 * (dx * a + dy * b)) >= 2000 * (2 * (edge::magnitude(dx)
            + edge::magnitude(dy)) + 4 * (edge::magnitude(a) + edge::magnitude(b))) + 4000,
    ensures
        direction::convex(edge::sides(slab_ring(p, dx, dy, a, b), size)),
{
    let s = slab(p, dx, dy, a, b);
    lemma_slab_beside(p, dx, dy, a, b);
    lemma_four_corners(
        s[0],
        s[3],
        s[2],
        s[1],
        2 * (dx * a + dy * b),
        2 * (edge::magnitude(dx) + edge::magnitude(dy)) + 4 * (edge::magnitude(a)
            + edge::magnitude(b)),
        size,
    );
}

/// The area over a segment goes one way: nowhere is its winding number
/// positive, but for the one position of a scanline that both its sides cross
/// in.
pub proof fn law_segments_go_one_way(
    p: (i32, i32),
    q: (i32, i32),
    r: int,
    size: int,
    x: int,
    y: int,
)
    requires
        1 <= r <= 0x3fff_ffff,
        size <= i32::MAX,
        keeps_its_shape(p, q, r, size),
    ensures
        ({
            let edges = edge::contour_edges(stroke::segment_corners(p, q, r), size);
            fill::winding(edges, x, y) <= 0 || direction::pinched(edges, x, y)
        }),
{
    let (dx, dy) = (q.0 - p.0, q.1 - p.1);
    let square = dx * dx + dy * dy;
    let a = stroke::component(r, dx, square);
    let b = stroke::component(r, dy, square);
    if edge::magnitude(dy) <= edge::magnitude(dx) {
        assert(63 <= size * edge::magnitude(dx)) by (nonlinear_arith)
            requires
                63 <= size * edge::magnitude(dx) || 63 <= size * edge::magnitude(dy),
                edge::magnitude(dy) <= edge::magnitude(dx),
                0 < size,
        ;
        lemma_segment_is_wide(dx, dy, r, size);
    } else {
        assert(63 <= size * edge::magnitude(dy)) by (nonlinear_arith)
            requires
                63 <= size * edge::magnitude(dx) || 63 <= size * edge::magnitude(dy),
                edge::magnitude(dx) <= edge::magnitude(dy),
                0 < size,
        ;
        lemma_segment_is_wide(dy, dx, r, size);
    }
    let points = stroke::segment_corners(p, q, r);
    assert(points =~= slab(p, dx, dy, a, b));
    lemma_slab_oriented(p, dx, dy, a, b);
    lemma_slab_convex(p, dx, dy, a, b, size);
    assert forall|i: int| 0 <= i < points.len() implies edge::in_reach(#[trigger] points[i]) by {}
    render::lemma_contour_balanced(points, size);
    direction::law_convex_goes_one_way(edge::contour_edges(points, size), x, y);
}

/// Whether every segment of a contour and its stroke are large enough to keep
/// their shape.
pub open spec fn all_keep_their_shape(points: Seq<(i32, i32)>, r: int, size: int) -> bool {
    forall|i: int, j: int|
        0 <= i && j == i + 1 && j < points.len() && points[i] != points[j] ==> keeps_its_shape(
            #[trigger] points[i],
            #[trigger] points[j],
            r,
            size,
        )
}

/// Whether one of the pieces over the segments of a contour is pinched at a
/// position.
pub open spec fn some_segment_pinched(
    points: Seq<(i32, i32)>,
    r: int,
    size: int,
    x: int,
    y: int,
) -> bool {
    exists|i: int|
        0 <= i < stroke::segments(points, r).len() && direction::pinched(
            edge::contour_edges(#[trigger] stroke::segments(points, r)[i], size),
            x,
            y,
        )
}

proof fn lemma_segments_one_way(
    points: Seq<(i32, i32)>,
    r: int,
    size: int,
    x: int,
    y: int,
    i: int,
)
    requires
        1 <= r <= 0x3fff_ffff,
        0 < size <= i32::MAX,
        all_keep_their_shape(points, r, size),
        0 <= i < stroke::segments(points, r).len(),
    ensures
        ({
            let edges = edge::contour_edges(stroke::segments(points, r)[i], size);
            fill::winding(edges, x, y) <= 0 || direction::pinched(edges, x, y)
        }),
    decreases points.len(),
{
    let shorter = points.drop_last();
    let p = points[points.len() - 2];
    let q = points[points.len() - 1];
    if i < stroke::segments(shorter, r).len() {
        assert(all_keep_their_shape(shorter, r, size)) by {
            assert forall|i: int, j: int|
                0 <= i && j == i + 1 && j < shorter.len() && shorter[i] != shorter[j] implies
                keeps_its_shape(#[trigger] shorter[i], #[trigger] shorter[j], r, size) by {
                assert(shorter[i] == points[i] && shorter[j] == points[j]);
            }
        }
        lemma_segments_one_way(shorter, r, size, x, y, i);
    } else {
        assert(keeps_its_shape(p, q, r, size));
        law_segments_go_one_way(p, q, r, size, x, y);
    }
}

/// A stroke is solid: away from the positions in which the area over one of its
/// segments is pinched, what is inside one of its pieces is inside the stroke.
/// No corner has a hole, whichever way its segments turn.
pub proof fn law_strokes_are_solid(
    points: Seq<(i32, i32)>,
    width: int,
    size: int,
    x: int,
    y: int,
)
    requires
        i32::MIN <= width <= i32::MAX,
        0 < size <= i32::MAX,
        all_keep_their_shape(points, stroke::stroke_radius(width), size),
        !some_segment_pinched(points, stroke::stroke_radius(width), size, x, y),
    ensures
        ({
            let pieces = stroke::stroke_polygons(points, width);
            fill::winding(edge::all_edges(pieces, size), x, y) != 0 <==> exists|i: int|
                0 <= i < pieces.len() && fill::winding(
                    edge::contour_edges(#[trigger] pieces[i], size),
                    x,
                    y,
                ) != 0
        }),
{
    let r = stroke::stroke_radius(width);
    let segments = stroke::segments(points, r);
    let pieces = stroke::stroke_polygons(points, width);
    assert forall|i: int| 0 <= i < pieces.len() implies fill::winding(
        edge::contour_edges(#[trigger] pieces[i], size),
        x,
        y,
    ) <= 0 by {
        if i < segments.len() {
            assert(pieces[i] == segments[i]);
            lemma_segments_one_way(points, r, size, x, y, i);
        } else {
            law_discs_go_one_way(points[i - segments.len()], r, size, x, y);
            assert(pieces[i] == stroke::disc_corners(points[i - segments.len()], r));
        }
    }
    direction::law_same_direction_never_cancels(pieces, size, x, y);
}

} // verus!
