//! What a stroke is made of.
use crate::angle;
use crate::angle::{TWELFTH_COSINES, TWELFTH_SINES};
use crate::binary64;
use crate::edge;
use crate::laws::{circles, roundness, solidity};
use crate::stroke;
use vstd::prelude::*;

verus! {

/// A stroke reaches half of its width to either side, rounded down, and at least one
/// unit.
pub proof fn law_a_stroke_reaches_half_its_width(width: int)
    ensures
        width < 4 ==> stroke::stroke_radius(width) == 1,
        2 <= width ==> 2 * stroke::stroke_radius(width) <= width < 2 * stroke::stroke_radius(width)
            + 2,
{
}

/// Every point of a contour has a disc in its stroke, every segment that is not a
/// point has a quadrilateral, and there is nothing else to a stroke.
pub proof fn law_a_stroke_is_its_segments_and_its_points(points: Seq<(i32, i32)>, width: int)
    ensures
        ({
            let pieces = stroke::stroke_polygons(points, width);
            let r = stroke::stroke_radius(width);
            &&& forall|i: int|
                0 <= i < points.len() ==> pieces.contains(
                    stroke::disc_corners(#[trigger] points[i], r),
                )
            &&& forall|i: int|
                #![trigger points[i]]
                0 <= i < points.len() - 1 && points[i] != points[i + 1] ==> pieces.contains(
                    stroke::segment_corners(points[i], points[i + 1], r),
                )
            &&& forall|k: int|
                0 <= k < pieces.len() ==> is_piece(points, r, #[trigger] pieces[k])
        }),
{
    let pieces = stroke::stroke_polygons(points, width);
    let r = stroke::stroke_radius(width);
    let (segments, joints) = (stroke::segments(points, r), stroke::joints(points, r));
    lemma_segments(points, r);
    assert forall|i: int| 0 <= i < points.len() implies pieces.contains(
        stroke::disc_corners(#[trigger] points[i], r),
    ) by {
        assert(pieces[segments.len() + i] == joints[i]);
    }
    assert forall|i: int|
        #![trigger points[i]]
        0 <= i < points.len() - 1 && points[i] != points[i + 1] implies pieces.contains(
        stroke::segment_corners(points[i], points[i + 1], r),
    ) by {
        let quad = stroke::segment_corners(points[i], points[i + 1], r);
        assert(segments.contains(quad));
        let k = choose|k: int| 0 <= k < segments.len() && segments[k] == quad;
        assert(pieces[k] == quad);
    }
    assert forall|k: int| 0 <= k < pieces.len() implies is_piece(
        points,
        r,
        #[trigger] pieces[k],
    ) by {
        if k < segments.len() {
            assert(pieces[k] == segments[k]);
        } else {
            let i = k - segments.len();
            assert(pieces[k] == joints[i]);
            assert(pieces[k] == stroke::disc_corners(points[i], r));
        }
    }
}

/// Whether a polygon is the disc of a point or the quadrilateral of a segment.
pub open spec fn is_piece(points: Seq<(i32, i32)>, r: int, polygon: Seq<(i64, i64)>) -> bool {
    ||| exists|i: int|
        0 <= i < points.len() && polygon == stroke::disc_corners(#[trigger] points[i], r)
    ||| exists|i: int|
        #![trigger points[i]]
        0 <= i < points.len() - 1 && points[i] != points[i + 1] && polygon
            == stroke::segment_corners(points[i], points[i + 1], r)
}

proof fn lemma_segments(points: Seq<(i32, i32)>, r: int)
    ensures
        forall|i: int|
            #![trigger points[i]]
            0 <= i < points.len() - 1 && points[i] != points[i + 1] ==> stroke::segments(
                points,
                r,
            ).contains(stroke::segment_corners(points[i], points[i + 1], r)),
        forall|k: int|
            0 <= k < stroke::segments(points, r).len() ==> is_piece(
                points,
                r,
                #[trigger] stroke::segments(points, r)[k],
            ),
    decreases points.len(),
{
    let all = stroke::segments(points, r);
    if points.len() >= 2 {
        let shorter = points.drop_last();
        let before = stroke::segments(shorter, r);
        lemma_segments(shorter, r);
        let last = points.len() - 2;
        assert forall|i: int|
            #![trigger points[i]]
            0 <= i < points.len() - 1 && points[i] != points[i + 1] implies all.contains(
            stroke::segment_corners(points[i], points[i + 1], r),
        ) by {
            let quad = stroke::segment_corners(points[i], points[i + 1], r);
            if i < last {
                assert(shorter[i] == points[i] && shorter[i + 1] == points[i + 1]);
                assert(before.contains(quad));
                let k = choose|k: int| 0 <= k < before.len() && before[k] == quad;
                assert(all[k] == quad);
            } else {
                assert(all[all.len() - 1] == quad);
            }
        }
        assert forall|k: int| 0 <= k < all.len() implies is_piece(points, r, #[trigger] all[k]) by {
            if k < before.len() {
                assert(all[k] == before[k]);
                assert(is_piece(shorter, r, before[k]));
                if exists|i: int|
                    0 <= i < shorter.len() && before[k] == stroke::disc_corners(
                        #[trigger] shorter[i],
                        r,
                    ) {
                    let i = choose|i: int|
                        0 <= i < shorter.len() && before[k] == stroke::disc_corners(
                            #[trigger] shorter[i],
                            r,
                        );
                    assert(points[i] == shorter[i]);
                } else {
                    let i = choose|i: int|
                        #![trigger shorter[i]]
                        0 <= i < shorter.len() - 1 && shorter[i] != shorter[i + 1] && before[k]
                            == stroke::segment_corners(shorter[i], shorter[i + 1], r);
                    assert(points[i] == shorter[i] && points[i + 1] == shorter[i + 1]);
                }
            } else {
                assert(points[last] != points[last + 1]);
                assert(all[k] == stroke::segment_corners(points[last], points[last + 1], r));
            }
        }
    }
}

/// The pieces of a stroke come in order, and each comes once: first the quadrilaterals of
/// the segments, along the contour, and then the discs of the points. With one more point
/// there is one more disc, and one more quadrilateral unless the point is where the last
/// one was.
pub proof fn law_pieces_come_in_order(points: Seq<(i32, i32)>, q: (i32, i32), width: int)
    ensures
        stroke::stroke_polygons(seq![q], width) == seq![
            stroke::disc_corners(q, stroke::stroke_radius(width)),
        ],
        1 <= points.len() ==> {
            let r = stroke::stroke_radius(width);
            let (before, n) = (stroke::stroke_polygons(points, width), points.len() as int);
            let after = stroke::stroke_polygons(points.push(q), width);
            let (sides, discs) = (before.take(before.len() - n), before.skip(before.len() - n));
            let side = if points[n - 1] == q {
                Seq::empty()
            } else {
                seq![stroke::segment_corners(points[n - 1], q, r)]
            };
            &&& n <= before.len()
            &&& after == sides + side + discs.push(stroke::disc_corners(q, r))
        },
{
    let r = stroke::stroke_radius(width);
    let one = stroke::stroke_polygons(seq![q], width);
    assert(one =~= seq![stroke::disc_corners(q, r)]);
    if 1 <= points.len() {
        let n = points.len() as int;
        let more = points.push(q);
        assert(more.drop_last() =~= points);
        let before = stroke::stroke_polygons(points, width);
        let (sides, discs) = (stroke::segments(points, r), stroke::joints(points, r));
        assert(before.take(before.len() - n) =~= sides);
        assert(before.skip(before.len() - n) =~= discs);
        assert(stroke::joints(more, r) =~= discs.push(stroke::disc_corners(q, r)));
        let side = if points[n - 1] == q {
            Seq::empty()
        } else {
            seq![stroke::segment_corners(points[n - 1], q, r)]
        };
        assert(stroke::segments(more, r) =~= sides + side);
        assert(stroke::stroke_polygons(more, width) =~= sides + side + discs.push(
            stroke::disc_corners(q, r),
        ));
    }
}

/// The quadrilateral over a segment is a parallelogram round it: at each end it
/// reaches as far to one side as to the other, square to the way of the segment and
/// no further than the radius; and its long sides go the way of the segment.
pub proof fn law_a_segment_is_moved_to_both_sides(p: (i32, i32), q: (i32, i32), r: int)
    requires
        1 <= r <= 0x3fff_ffff,
        p != q,
    ensures
        ({
            let s = stroke::segment_corners(p, q, r);
            let (dx, dy) = (q.0 - p.0, q.1 - p.1);
            let (nx, ny) = (s[0].0 - p.0, s[0].1 - p.1);
            &&& s.len() == 4
            &&& s[0].0 + s[3].0 == 2 * p.0 && s[0].1 + s[3].1 == 2 * p.1
            &&& s[1].0 + s[2].0 == 2 * q.0 && s[1].1 + s[2].1 == 2 * q.1
            &&& s[1].0 - s[0].0 == dx && s[1].1 - s[0].1 == dy
            &&& -r <= nx <= r && -r <= ny <= r
            &&& 0 <= dx ==> 0 <= ny
            &&& dx <= 0 ==> ny <= 0
            &&& 0 <= dy ==> nx <= 0
            &&& dy <= 0 ==> 0 <= nx
            &&& edge::magnitude(dx) <= edge::magnitude(dy) ==> edge::magnitude(ny)
                <= edge::magnitude(nx) && r <= 2 * edge::magnitude(nx)
            &&& edge::magnitude(dy) <= edge::magnitude(dx) ==> edge::magnitude(nx)
                <= edge::magnitude(ny) && r <= 2 * edge::magnitude(ny)
        }),
{
    let (dx, dy) = (q.0 - p.0, q.1 - p.1);
    let square = dx * dx + dy * dy;
    assert(0 <= dx * dx <= 0x1_0000_0000_0000_0000 && 0 <= dy * dy <= 0x1_0000_0000_0000_0000)
        by (nonlinear_arith)
        requires
            -0xffff_ffff <= dx <= 0xffff_ffff,
            -0xffff_ffff <= dy <= 0xffff_ffff,
    ;
    assert((dx != 0 ==> 0 < dx * dx) && (dy != 0 ==> 0 < dy * dy)) by (nonlinear_arith);
    stroke::lemma_component_within(r, dx, square);
    stroke::lemma_component_within(r, dy, square);
    let (x, y) = (edge::magnitude(dx), edge::magnitude(dy));
    if x <= y {
        roundness::law_the_longer_way_has_the_larger_share(r, dx, dy, square);
        assert(dx * dx <= dy * dy) by (nonlinear_arith)
            requires
                x <= y,
                x == dx || x == -dx,
                y == dy || y == -dy,
                0 <= x,
        ;
        roundness::law_the_longer_way_has_half_the_radius(r, dy, square);
    }
    if y <= x {
        roundness::law_the_longer_way_has_the_larger_share(r, dy, dx, square);
        assert(dy * dy <= dx * dx) by (nonlinear_arith)
            requires
                y <= x,
                x == dx || x == -dx,
                y == dy || y == -dy,
                0 <= y,
        ;
        roundness::law_the_longer_way_has_half_the_radius(r, dx, square);
    }
}

/// The quadrilateral over a segment reaches as far as the radius, to the nearest unit
/// along either axis but for a few parts in `2^53`.
pub proof fn law_a_segment_is_moved_nearly_by_the_radius(p: (i32, i32), q: (i32, i32), r: int)
    requires
        1 <= r <= 0x3fff_ffff,
        p != q,
    ensures
        ({
            let s = stroke::segment_corners(p, q, r);
            let (dx, dy) = (q.0 - p.0, q.1 - p.1);
            let square = dx * dx + dy * dy;
            let (m, n) = (edge::magnitude(s[0].0 - p.0), edge::magnitude(s[0].1 - p.1));
            let (across, along) = ((2 * r * dy) * (2 * r * dy), (2 * r * dx) * (2 * r * dx));
            &&& m == 0 || roundness::nearly_at_most((2 * m - 1) * (2 * m - 1) * square, across, 11)
            &&& roundness::nearly_at_most(across, (2 * m + 1) * (2 * m + 1) * square, 17)
            &&& n == 0 || roundness::nearly_at_most((2 * n - 1) * (2 * n - 1) * square, along, 11)
            &&& roundness::nearly_at_most(along, (2 * n + 1) * (2 * n + 1) * square, 17)
        }),
{
    let (dx, dy) = (q.0 - p.0, q.1 - p.1);
    let square = dx * dx + dy * dy;
    assert(0 <= dx * dx <= 0x1_0000_0000_0000_0000 && 0 <= dy * dy <= 0x1_0000_0000_0000_0000)
        by (nonlinear_arith)
        requires
            -0xffff_ffff <= dx <= 0xffff_ffff,
            -0xffff_ffff <= dy <= 0xffff_ffff,
    ;
    assert((dx != 0 ==> 0 < dx * dx) && (dy != 0 ==> 0 < dy * dy)) by (nonlinear_arith);
    stroke::lemma_component_within(r, dx, square);
    stroke::lemma_component_within(r, dy, square);
    roundness::law_a_stroke_is_moved_nearly_to_the_nearest_unit(r, dx, square);
    roundness::law_a_stroke_is_moved_nearly_to_the_nearest_unit(r, dy, square);
}

/// As long as the radius times the way of a segment is at most `2^23`, the
/// quadrilateral over it reaches exactly as far as the radius, to the nearest unit
/// along either axis.
pub proof fn law_a_segment_is_moved_by_the_radius(p: (i32, i32), q: (i32, i32), r: int)
    requires
        1 <= r <= 0x3fff_ffff,
        p != q,
        r * edge::magnitude(q.0 - p.0) <= 0x80_0000,
        r * edge::magnitude(q.1 - p.1) <= 0x80_0000,
    ensures
        ({
            let s = stroke::segment_corners(p, q, r);
            let (dx, dy) = (q.0 - p.0, q.1 - p.1);
            let square = dx * dx + dy * dy;
            let (m, n) = (edge::magnitude(s[0].0 - p.0), edge::magnitude(s[0].1 - p.1));
            &&& m == 0 || (2 * m - 1) * (2 * m - 1) * square <= (2 * r * dy) * (2 * r * dy)
            &&& (2 * r * dy) * (2 * r * dy) <= (2 * m + 1) * (2 * m + 1) * square
            &&& n == 0 || (2 * n - 1) * (2 * n - 1) * square <= (2 * r * dx) * (2 * r * dx)
            &&& (2 * r * dx) * (2 * r * dx) <= (2 * n + 1) * (2 * n + 1) * square
        }),
{
    let (dx, dy) = (q.0 - p.0, q.1 - p.1);
    let square = dx * dx + dy * dy;
    assert(0 <= dx * dx <= 0x1_0000_0000_0000_0000 && 0 <= dy * dy <= 0x1_0000_0000_0000_0000)
        by (nonlinear_arith)
        requires
            -0xffff_ffff <= dx <= 0xffff_ffff,
            -0xffff_ffff <= dy <= 0xffff_ffff,
    ;
    assert((dx != 0 ==> 0 < dx * dx) && (dy != 0 ==> 0 < dy * dy)) by (nonlinear_arith);
    stroke::lemma_component_within(r, dx, square);
    stroke::lemma_component_within(r, dy, square);
    roundness::law_a_stroke_is_moved_to_the_nearest_unit(r, dx, square);
    roundness::law_a_stroke_is_moved_to_the_nearest_unit(r, dy, square);
}

/// A disc has twelve corners, every thirty degrees from its right on: four at the
/// radius along an axis, the others at half of it along one axis and at less than
/// all and no less than half of it along the other.
pub proof fn law_a_disc_has_a_corner_every_thirty_degrees(center: (i32, i32), r: int, i: int)
    requires
        1 <= r <= 0x3fff_ffff,
        0 <= i < 12,
    ensures
        ({
            let corners = stroke::disc_corners(center, r);
            let (dx, dy) = (corners[i].0 - center.0, corners[i].1 - center.1);
            let (m, n) = (edge::magnitude(dx), edge::magnitude(dy));
            &&& corners.len() == 12
            &&& i == 0 ==> dx == r && dy == 0
            &&& i == 3 ==> dx == 0 && dy == r
            &&& i == 6 ==> dx == -r && dy == 0
            &&& i == 9 ==> dx == 0 && dy == -r
            &&& i == 1 || i == 2 ==> 0 <= dx && 0 <= dy
            &&& i == 4 || i == 5 ==> dx <= 0 && 0 <= dy
            &&& i == 7 || i == 8 ==> dx <= 0 && dy <= 0
            &&& i == 10 || i == 11 ==> 0 <= dx && dy <= 0
            &&& i % 6 == 1 || i % 6 == 5 ==> r - 1 <= 2 * n <= r + 1 && r <= 2 * m <= 2 * r
            &&& i % 6 == 2 || i % 6 == 4 ==> r - 1 <= 2 * m <= r + 1 && r <= 2 * n <= 2 * r
        }),
{
    solidity::lemma_disc_corner(center, r, i);
}

/// How far right of the centre each twelfth of a turn is, for a radius of one, counting
/// `2^-54`.
pub open spec fn twelfth_east(i: int) -> int {
    if i == 0 {
        18014398509481984
    } else if i == 1 || i == 11 {
        15600926743107924
    } else if i == 2 || i == 10 {
        9007199254740992
    } else if i == 4 || i == 8 {
        -9007199254740992
    } else if i == 5 || i == 7 {
        -15600926743107924
    } else if i == 6 {
        -18014398509481984
    } else {
        0
    }
}

/// How far below the centre each twelfth of a turn is: as far as the one three before it
/// is to the right.
pub open spec fn twelfth_south(i: int) -> int {
    if i < 3 {
        twelfth_east(i + 9)
    } else {
        twelfth_east(i - 3)
    }
}

/// The corners of a disc are the units nearest to every twelfth of a turn on its circle,
/// at every radius.
pub proof fn law_disc_corners_are_nearest_to_the_twelfths(center: (i32, i32), r: int, i: int)
    requires
        1 <= r <= 0x3fff_ffff,
        0 <= i < 12,
    ensures
        ({
            let corner = stroke::disc_corners(center, r)[i];
            &&& circles::lies_at(corner.0 - center.0, 0, r * twelfth_east(i))
            &&& circles::lies_at(corner.1 - center.1, 0, r * twelfth_south(i))
        }),
{
    solidity::lemma_disc_offsets(center, r, i);
    lemma_turned_near(r, TWELFTH_COSINES@[i] as int, twelfth_east(i));
    lemma_turned_near(r, TWELFTH_SINES@[i] as int, twelfth_south(i));
}

proof fn lemma_turned_near(r: int, c: int, k: int)
    requires
        1 <= r <= 0x3fff_ffff,
        -angle::WHOLE <= c <= angle::WHOLE,
        k - 8 <= c <= k + 8,
    ensures
        circles::lies_at(angle::turned(r, c), 0, r * k),
{
    angle::lemma_turned(r, c);
    binary64::lemma_rounded_near(r * c);
    binary64::lemma_nearest_away_near(binary64::rounded(r * c), angle::WHOLE as int);
    assert(r * k - 8 * r <= r * c <= r * k + 8 * r) by (nonlinear_arith)
        requires
            1 <= r,
            k - 8 <= c <= k + 8,
    ;
}

/// Up to a radius of `2^20`, the corners of a disc are the units nearest to the
/// circle.
pub proof fn law_disc_corners_are_on_the_circle(center: (i32, i32), r: int, i: int)
    requires
        1 <= r <= 0x10_0000,
        0 <= i < 12,
        i % 3 != 0,
    ensures
        ({
            let corners = stroke::disc_corners(center, r);
            let (m, n) = (
                edge::magnitude(corners[i].0 - center.0),
                edge::magnitude(corners[i].1 - center.1),
            );
            let long = if i % 6 == 1 || i % 6 == 5 {
                m
            } else {
                n
            };
            &&& (2 * long - 1) * (2 * long - 1) <= 3 * (r * r) <= (2 * long + 1) * (2 * long + 1)
        }),
{
    solidity::lemma_disc_corner(center, r, i);
    let (c, s) = (TWELFTH_COSINES@[i] as int, TWELFTH_SINES@[i] as int);
    solidity::lemma_disc_offsets(center, r, i);
    if i % 6 == 1 || i % 6 == 5 {
        roundness::law_disc_corners_are_nearest(r, edge::magnitude(c));
        lemma_turned_back(r, c);
    } else {
        roundness::law_disc_corners_are_nearest(r, edge::magnitude(s));
        lemma_turned_back(r, s);
    }
}

/// Turned the other way, a radius reaches as far the other way.
proof fn lemma_turned_back(r: int, c: int)
    ensures
        edge::magnitude(angle::turned(r, c)) == edge::magnitude(
            angle::turned(r, edge::magnitude(c)),
        ),
{
    if c < 0 {
        let n = r * (-c);
        assert(r * c == -n) by (nonlinear_arith)
            requires
                n == r * (-c),
        ;
        binary64::lemma_rounded_near(n);
        stroke::lemma_nearest_away_odd(binary64::rounded(n), angle::WHOLE as int);
    }
}

} // verus!
