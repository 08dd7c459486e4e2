//! Where there can be ink.
use crate::angle;
use crate::angle::{TWELFTH_COSINES, TWELFTH_SINES};
use crate::edge;
use crate::edge::{Edge, FIXED};
use crate::fill;
use crate::flatten;
use crate::laws::contours;
use crate::laws::roundness;
use crate::path;
use crate::path::UNITS;
use crate::render;
use crate::stroke;
use vstd::prelude::*;

verus! {

/// The design box.
pub open spec fn design_box() -> contours::Frame {
    contours::Frame { left: 0, top: 0, right: UNITS as int, bottom: UNITS as int }
}

/// Whether every corner of a polygon is in a rectangle.
pub open spec fn holds_polygon(frame: contours::Frame, points: Seq<(i64, i64)>) -> bool {
    forall|i: int|
        0 <= i < points.len() ==> frame.holds((#[trigger] points[i]).0 as int, points[i].1 as int)
}

/// Whether every polygon of a list is in a rectangle.
pub open spec fn holds_polygons(
    frame: contours::Frame,
    polygons: Seq<Seq<(i64, i64)>>,
) -> bool {
    forall|i: int| 0 <= i < polygons.len() ==> holds_polygon(frame, #[trigger] polygons[i])
}

/// A rectangle that the coordinates of an outline, moved by a stroke, can lie
/// in.
pub open spec fn reachable(frame: contours::Frame) -> bool {
    &&& -0x1_0000_0000 <= frame.left && frame.right <= 0x1_0000_0000
    &&& -0x1_0000_0000 <= frame.top && frame.bottom <= 0x1_0000_0000
}

/// Scaling keeps the order of coordinates.
pub proof fn law_scaling_keeps_order(a: int, b: int, size: int)
    requires
        a <= b,
        0 < size,
    ensures
        edge::scaled(a, size) <= edge::scaled(b, size),
{
    let m = a * size * FIXED;
    let n = b * size * FIXED;
    assert(m <= n) by (nonlinear_arith)
        requires
            m == a * size * 256,
            n == b * size * 256,
            a <= b,
            0 < size,
    ;
    assert(edge::magnitude(UNITS as int) == 1000);
}

/// The design box is drawn over the whole of the box on the panel.
pub proof fn law_the_design_box_fills_the_panel_box(size: int)
    requires
        0 < size,
    ensures
        edge::scaled(0, size) == 0,
        edge::scaled(UNITS as int, size) == FIXED * size,
{
    assert(0 * size * FIXED == 0) by (nonlinear_arith);
    assert(1000 * size * FIXED == 1000 * (256 * size)) by (nonlinear_arith);
    assert(edge::magnitude(UNITS as int) == 1000);
}

/// The geometry grows with the box: in a box some times as large, a coordinate
/// lies that many times as far out, to less than that many steps.
pub proof fn law_the_geometry_grows_with_the_box(value: int, size: int, times: int)
    requires
        0 <= value,
        0 < size,
        0 < times,
    ensures
        times * edge::scaled(value, size) <= edge::scaled(value, times * size),
        edge::scaled(value, times * size) < times * edge::scaled(value, size) + times,
{
    let n = value * size * FIXED;
    let m = value * (times * size) * FIXED;
    assert(0 <= n && m == times * n) by (nonlinear_arith)
        requires
            n == value * size * 256,
            m == value * (times * size) * 256,
            0 <= value,
            0 < size,
    ;
    assert(0 <= m) by (nonlinear_arith)
        requires
            m == times * n,
            0 < times,
            0 <= n,
    ;
    assert(edge::magnitude(UNITS as int) == 1000);
    let q = n / 1000;
    let p = m / 1000;
    assert(1000 * q <= n < 1000 * q + 1000);
    assert(times * (1000 * q) <= times * n < times * (1000 * q + 1000)) by (nonlinear_arith)
        requires
            1000 * q <= n < 1000 * q + 1000,
            0 < times,
    ;
    assert(times * (1000 * q) == 1000 * (times * q)) by (nonlinear_arith);
    assert(times * (1000 * q + 1000) == 1000 * (times * q) + 1000 * times) by (nonlinear_arith);
}

/// Whether every edge is in a rectangle, in fixed-point pixels.
pub open spec fn edges_in(edges: Seq<Edge>, left: int, top: int, right: int, bottom: int) -> bool {
    forall|i: int|
        0 <= i < edges.len() ==> {
            let e = #[trigger] edges[i];
            &&& left <= e.x0 <= right && left <= e.x1 <= right
            &&& top <= e.y0 <= bottom && top <= e.y1 <= bottom
        }
}

/// Closed contours have nothing inside beyond the rectangle that their edges
/// are in.
pub proof fn law_nothing_inside_beyond_the_edges(
    edges: Seq<Edge>,
    left: int,
    top: int,
    right: int,
    bottom: int,
    x: int,
    y: int,
)
    requires
        edges_in(edges, left, top, right, bottom),
        fill::balanced(edges),
        fill::winding(edges, x, y) != 0,
    ensures
        left <= x < right,
        top <= y < bottom,
{
    if x < left {
        lemma_not_yet_crossed(edges, left, top, right, bottom, x, y);
    } else if x >= right {
        lemma_all_crossed(edges, left, top, right, bottom, x, y);
        assert(fill::net(edges, y) == 0);
    } else if y < top || y >= bottom {
        lemma_not_yet_crossed(edges, left, top, right, bottom, x, y);
    }
}

proof fn lemma_not_yet_crossed(
    edges: Seq<Edge>,
    left: int,
    top: int,
    right: int,
    bottom: int,
    x: int,
    y: int,
)
    requires
        edges_in(edges, left, top, right, bottom),
        x < left || y < top || y >= bottom,
    ensures
        fill::winding(edges, x, y) == 0,
    decreases edges.len(),
{
    if edges.len() > 0 {
        let e = edges[edges.len() - 1];
        assert(left <= e.x0 && left <= e.x1 && top <= e.y0 && top <= e.y1);
        if fill::turn(e, y) != 0 {
            fill::lemma_crossing_between(e, y);
        }
        lemma_not_yet_crossed(edges.drop_last(), left, top, right, bottom, x, y);
    }
}

proof fn lemma_all_crossed(
    edges: Seq<Edge>,
    left: int,
    top: int,
    right: int,
    bottom: int,
    x: int,
    y: int,
)
    requires
        edges_in(edges, left, top, right, bottom),
        right <= x,
    ensures
        fill::winding(edges, x, y) == fill::net(edges, y),
    decreases edges.len(),
{
    if edges.len() > 0 {
        let e = edges[edges.len() - 1];
        assert(e.x0 <= right && e.x1 <= right);
        if fill::turn(e, y) != 0 {
            fill::lemma_crossing_between(e, y);
        }
        lemma_all_crossed(edges.drop_last(), left, top, right, bottom, x, y);
    }
}

/// The edges of a polygon in a rectangle are in the scaled rectangle.
proof fn lemma_sides_in(points: Seq<(i64, i64)>, frame: contours::Frame, size: int)
    requires
        0 < size <= i32::MAX,
        reachable(frame),
        holds_polygon(frame, points),
    ensures
        edges_in(
            edge::sides(points, size),
            edge::scaled(frame.left, size),
            edge::scaled(frame.top, size),
            edge::scaled(frame.right, size),
            edge::scaled(frame.bottom, size),
        ),
    decreases points.len(),
{
    if points.len() >= 2 {
        let shorter = points.drop_last();
        let p = points[points.len() - 2];
        let q = points[points.len() - 1];
        assert(holds_polygon(frame, shorter)) by {
            assert forall|i: int| 0 <= i < shorter.len() implies frame.holds(
                (#[trigger] shorter[i]).0 as int,
                shorter[i].1 as int,
            ) by {
                assert(shorter[i] == points[i]);
            }
        }
        lemma_sides_in(shorter, frame, size);
        assert(frame.holds(p.0 as int, p.1 as int) && frame.holds(q.0 as int, q.1 as int));
        lemma_scaled_in(p.0 as int, frame.left, frame.right, size);
        lemma_scaled_in(p.1 as int, frame.top, frame.bottom, size);
        lemma_scaled_in(q.0 as int, frame.left, frame.right, size);
        lemma_scaled_in(q.1 as int, frame.top, frame.bottom, size);
    }
}

proof fn lemma_scaled_in(value: int, low: int, high: int, size: int)
    requires
        0 < size <= i32::MAX,
        -0x1_0000_0000 <= low <= value <= high <= 0x1_0000_0000,
    ensures
        edge::scaled(low, size) <= edge::scaled(value, size) <= edge::scaled(high, size),
        i64::MIN <= edge::scaled(value, size) <= i64::MAX,
{
    law_scaling_keeps_order(low, value, size);
    law_scaling_keeps_order(value, high, size);
    edge::lemma_scaled_in_reach(value, size);
}

/// Polygons have nothing inside beyond the rectangle that they are in.
pub proof fn law_polygons_stay_in_frame(
    polygons: Seq<Seq<(i64, i64)>>,
    frame: contours::Frame,
    size: int,
    x: int,
    y: int,
)
    requires
        0 < size <= i32::MAX,
        reachable(frame),
        holds_polygons(frame, polygons),
        fill::winding(edge::all_edges(polygons, size), x, y) != 0,
    ensures
        edge::scaled(frame.left, size) <= x < edge::scaled(frame.right, size),
        edge::scaled(frame.top, size) <= y < edge::scaled(frame.bottom, size),
{
    lemma_all_edges_in(polygons, frame, size);
    law_nothing_inside_beyond_the_edges(
        edge::all_edges(polygons, size),
        edge::scaled(frame.left, size),
        edge::scaled(frame.top, size),
        edge::scaled(frame.right, size),
        edge::scaled(frame.bottom, size),
        x,
        y,
    );
}

proof fn lemma_all_edges_in(polygons: Seq<Seq<(i64, i64)>>, frame: contours::Frame, size: int)
    requires
        0 < size <= i32::MAX,
        reachable(frame),
        holds_polygons(frame, polygons),
    ensures
        edges_in(
            edge::all_edges(polygons, size),
            edge::scaled(frame.left, size),
            edge::scaled(frame.top, size),
            edge::scaled(frame.right, size),
            edge::scaled(frame.bottom, size),
        ),
        fill::balanced(edge::all_edges(polygons, size)),
    decreases polygons.len(),
{
    let all = edge::all_edges(polygons, size);
    if polygons.len() == 0 {
        assert forall|y: int| #[trigger] fill::net(all, y) == 0 by {}
    } else {
        let before = polygons.drop_last();
        let last = polygons[polygons.len() - 1];
        assert(holds_polygons(frame, before)) by {
            assert forall|i: int| 0 <= i < before.len() implies holds_polygon(
                frame,
                #[trigger] before[i],
            ) by {
                assert(before[i] == polygons[i]);
            }
        }
        lemma_all_edges_in(before, frame, size);
        assert(holds_polygon(frame, last));
        assert forall|i: int| 0 <= i < last.len() implies edge::in_reach(#[trigger] last[i]) by {}
        render::lemma_contour_balanced(last, size);
        if last.len() >= 2 {
            let ring = edge::oriented(last);
            assert forall|i: int| 0 <= i < ring.len() implies frame.holds(
                (#[trigger] ring[i]).0 as int,
                ring[i].1 as int,
            ) by {
                let round = edge::closed(last);
                assert forall|j: int| 0 <= j < round.len() implies frame.holds(
                    (#[trigger] round[j]).0 as int,
                    round[j].1 as int,
                ) by {}
            }
            lemma_sides_in(ring, frame, size);
        }
        assert forall|y: int| #[trigger] fill::net(all, y) == 0 by {
            render::lemma_net_concat(
                edge::all_edges(before, size),
                edge::contour_edges(last, size),
                y,
            );
            assert(fill::net(edge::all_edges(before, size), y) == 0);
            assert(fill::net(edge::contour_edges(last, size), y) == 0);
        }
    }
}

/// The room a figure takes up beyond its outline.
pub open spec fn margin(figure: path::Figure) -> int {
    match figure {
        path::Figure::Fill(commands) => 0,
        path::Figure::Stroke(commands, width) => stroke::stroke_radius(width as int),
    }
}

/// The outline of a figure.
pub open spec fn outline(figure: path::Figure) -> Seq<path::Cmd> {
    match figure {
        path::Figure::Fill(commands) => commands,
        path::Figure::Stroke(commands, width) => commands,
    }
}

/// A stroke does not reach further from its outline than its radius.
pub proof fn law_figures_stay_in_frame(figure: path::Figure, frame: contours::Frame)
    requires
        frame.holds_outline(outline(figure)),
    ensures
        holds_polygons(frame.grown(margin(figure)), render::figure_polygons(figure)),
{
    let lines = flatten::contours(outline(figure));
    assert forall|i: int| 0 <= i < lines.len() implies frame.holds_contour(#[trigger] lines[i]) by {
        contours::law_contours_stay_in_frame(outline(figure), frame, i);
    }
    match figure {
        path::Figure::Fill(commands) => {
            let polygons = render::figure_polygons(figure);
            assert forall|i: int| 0 <= i < polygons.len() implies holds_polygon(
                frame.grown(0),
                #[trigger] polygons[i],
            ) by {
                assert(frame.holds_contour(lines[i]));
                assert(polygons[i] == render::widened(lines[i]));
                assert forall|j: int| 0 <= j < polygons[i].len() implies frame.grown(0).holds(
                    (#[trigger] polygons[i][j]).0 as int,
                    polygons[i][j].1 as int,
                ) by {
                    assert(frame.holds(lines[i][j].0 as int, lines[i][j].1 as int));
                }
            }
        },
        path::Figure::Stroke(commands, width) => {
            lemma_strokes_in(lines, width as int, frame);
        },
    }
}

proof fn lemma_strokes_in(
    lines: Seq<Seq<(i32, i32)>>,
    width: int,
    frame: contours::Frame,
)
    requires
        i32::MIN <= width <= i32::MAX,
        forall|i: int| 0 <= i < lines.len() ==> frame.holds_contour(#[trigger] lines[i]),
    ensures
        holds_polygons(
            frame.grown(stroke::stroke_radius(width)),
            render::all_strokes(lines, width),
        ),
    decreases lines.len(),
{
    let r = stroke::stroke_radius(width);
    let grown = frame.grown(r);
    if lines.len() > 0 {
        let before = lines.drop_last();
        let last = lines[lines.len() - 1];
        assert forall|i: int| 0 <= i < before.len() implies frame.holds_contour(
            #[trigger] before[i],
        ) by {
            assert(before[i] == lines[i]);
        }
        lemma_strokes_in(before, width, frame);
        assert(frame.holds_contour(last));
        lemma_segments_in(last, r, frame);
        let joints = stroke::joints(last, r);
        assert forall|i: int| 0 <= i < joints.len() implies holds_polygon(
            grown,
            #[trigger] joints[i],
        ) by {
            assert(frame.holds(last[i].0 as int, last[i].1 as int));
            lemma_disc_in(last[i], r, frame);
        }
        let pieces = stroke::segments(last, r) + joints;
        assert forall|i: int| 0 <= i < pieces.len() implies holds_polygon(
            grown,
            #[trigger] pieces[i],
        ) by {}
        let all = render::all_strokes(before, width) + pieces;
        assert forall|i: int| 0 <= i < all.len() implies holds_polygon(
            grown,
            #[trigger] all[i],
        ) by {}
    }
}

proof fn lemma_segments_in(points: Seq<(i32, i32)>, r: int, frame: contours::Frame)
    requires
        1 <= r <= 0x3fff_ffff,
        frame.holds_contour(points),
    ensures
        holds_polygons(frame.grown(r), stroke::segments(points, r)),
    decreases points.len(),
{
    if points.len() >= 2 {
        let shorter = points.drop_last();
        let p = points[points.len() - 2];
        let q = points[points.len() - 1];
        assert forall|i: int| 0 <= i < shorter.len() implies frame.holds(
            (#[trigger] shorter[i]).0 as int,
            shorter[i].1 as int,
        ) by {
            assert(shorter[i] == points[i]);
        }
        lemma_segments_in(shorter, r, frame);
        assert(frame.holds(p.0 as int, p.1 as int) && frame.holds(q.0 as int, q.1 as int));
        if p != q {
            lemma_segment_in(p, q, r, frame);
        }
    }
}

/// The corners over a segment are no further from its ends than the radius.
pub proof fn lemma_segment_in(p: (i32, i32), q: (i32, i32), r: int, frame: contours::Frame)
    requires
        1 <= r <= 0x3fff_ffff,
        p != q,
        frame.holds(p.0 as int, p.1 as int),
        frame.holds(q.0 as int, q.1 as int),
    ensures
        holds_polygon(frame.grown(r), stroke::segment_corners(p, q, r)),
{
    let dx = q.0 - p.0;
    let dy = q.1 - p.1;
    let square = dx * dx + dy * dy;
    assert(dx * dx >= 0 && dy * dy >= 0 && (dx != 0 ==> dx * dx > 0) && (dy != 0 ==> dy * dy > 0))
        by (nonlinear_arith);
    assert(dx * dx <= 0x2_0000_0000_0000_0000 && dy * dy <= 0x2_0000_0000_0000_0000)
        by (nonlinear_arith)
        requires
            -0xffff_ffff <= dx <= 0xffff_ffff,
            -0xffff_ffff <= dy <= 0xffff_ffff,
    ;
    roundness::law_a_stroke_is_moved_by_its_radius(r, dx, square);
    roundness::law_a_stroke_is_moved_by_its_radius(r, dy, square);
}

/// The corners of a disc are no further from its centre than the radius.
pub proof fn lemma_disc_in(center: (i32, i32), r: int, frame: contours::Frame)
    requires
        1 <= r <= 0x3fff_ffff,
        frame.holds(center.0 as int, center.1 as int),
    ensures
        holds_polygon(frame.grown(r), stroke::disc_corners(center, r)),
{
    let corners = stroke::disc_corners(center, r);
    assert forall|i: int| 0 <= i < corners.len() implies frame.grown(r).holds(
        (#[trigger] corners[i]).0 as int,
        corners[i].1 as int,
    ) by {
        angle::lemma_twelfths(i);
        angle::lemma_turned(r, TWELFTH_COSINES@[i] as int);
        angle::lemma_turned(r, TWELFTH_SINES@[i] as int);
    }
}

/// A picture has nothing inside beyond the rectangle that its polygons are in,
/// and the pixels beyond it are blank.
pub proof fn law_pixels_beyond_the_frame_are_blank(
    figures: Seq<path::Figure>,
    frame: contours::Frame,
    size: int,
    row: int,
    column: int,
)
    requires
        0 < size <= i32::MAX,
        reachable(frame),
        holds_polygons(frame, render::polygons(figures)),
        FIXED * (column + 1) <= edge::scaled(frame.left, size) || edge::scaled(frame.right, size)
            <= FIXED * column || FIXED * (row + 1) <= edge::scaled(frame.top, size)
            || edge::scaled(frame.bottom, size) <= FIXED * row,
    ensures
        fill::pixel_alpha(render::picture_edges(figures, size), row, column) == 0,
{
    let edges = render::picture_edges(figures, size);
    assert forall|sub: int| 0 <= sub < 4 implies #[trigger] fill::span_cover(
        edges,
        row,
        column,
        sub,
    ) == 0 by {
        let y = fill::scanline(row, sub);
        let f = fill::inside(edges, y);
        assert forall|x: int| FIXED * column <= x < FIXED * (column + 1) implies !#[trigger] f(
            x,
        ) by {
            if fill::winding(edges, x, y) != 0 {
                law_polygons_stay_in_frame(render::polygons(figures), frame, size, x, y);
            }
        }
        fill::lemma_count_none(f, FIXED * column, FIXED * (column + 1));
    }
    assert(fill::span_cover(edges, row, column, 0) == 0);
    assert(fill::span_cover(edges, row, column, 1) == 0);
    assert(fill::span_cover(edges, row, column, 2) == 0);
    assert(fill::span_cover(edges, row, column, 3) == 0);
}

/// The corners of an upright rectangle, from its top left on.
pub open spec fn rectangle(left: i64, top: i64, right: i64, bottom: i64) -> Seq<(i64, i64)> {
    seq![(left, top), (right, top), (right, bottom), (left, bottom)]
}

/// An upright rectangle has exactly the positions inside that lie between its
/// scaled sides.
pub proof fn law_a_rectangle_is_what_lies_between_its_sides(
    left: i64,
    top: i64,
    right: i64,
    bottom: i64,
    size: int,
    x: int,
    y: int,
)
    requires
        0 < size <= i32::MAX,
        -0x1_0000_0000 <= left < right <= 0x1_0000_0000,
        -0x1_0000_0000 <= top < bottom <= 0x1_0000_0000,
    ensures
        fill::winding(edge::contour_edges(rectangle(left, top, right, bottom), size), x, y) == if
            edge::scaled(left as int, size) <= x < edge::scaled(right as int, size)
            && edge::scaled(top as int, size) <= y < edge::scaled(bottom as int, size) {
            -1int
        } else {
            0
        },
{
    let points = rectangle(left, top, right, bottom);
    let ring = edge::closed(points);
    let (a, b, c, d) = ((left, top), (right, top), (right, bottom), (left, bottom));
    assert(ring =~= seq![a, b, c, d, a]);
    let four = seq![a, b, c, d];
    let three = seq![a, b, c];
    let two = seq![a, b];
    let one = seq![a];
    assert(ring.drop_last() =~= four);
    assert(four.drop_last() =~= three);
    assert(three.drop_last() =~= two);
    assert(two.drop_last() =~= one);
    reveal_with_fuel(edge::double_area, 5);
    reveal_with_fuel(edge::sides, 5);
    let area = edge::double_area(ring);
    assert(area == 2 * ((right - left) * (bottom - top))) by {
        assert(area == edge::side_area(a, b) + edge::side_area(b, c) + edge::side_area(c, d)
            + edge::side_area(d, a));
        assert(left * top - right * top + (right * bottom - right * top) + (right * bottom - left
            * bottom) + (left * top - left * bottom) == 2 * ((right - left) * (bottom - top)))
            by (nonlinear_arith);
    }
    assert(area > 0) by (nonlinear_arith)
        requires
            area == 2 * ((right - left) * (bottom - top)),
            left < right,
            top < bottom,
    ;
    let down = edge::edge_between(b, c, size);
    let up = edge::edge_between(d, a, size);
    let edges = edge::contour_edges(points, size);
    assert(edges =~= seq![down, up]);
    lemma_scaled_in(left as int, left as int, right as int, size);
    lemma_scaled_in(right as int, left as int, right as int, size);
    lemma_scaled_in(top as int, top as int, bottom as int, size);
    lemma_scaled_in(bottom as int, top as int, bottom as int, size);
    if fill::turn(down, y) != 0 {
        fill::lemma_crossing_between(down, y);
    }
    if fill::turn(up, y) != 0 {
        fill::lemma_crossing_between(up, y);
    }
    assert(edges.drop_last() =~= seq![down]);
    assert(seq![down].drop_last() =~= Seq::<Edge>::empty());
    reveal_with_fuel(fill::winding, 3);
}

} // verus!
