//! What lies well within a polygon.
use crate::edge;
use crate::edge::{Edge, FIXED};
use crate::fill;
use crate::flatten;
use crate::laws::contours;
use crate::laws::frame;
use crate::path;
use crate::path::Cmd;
use crate::piece_art;
use crate::render;
use vstd::prelude::*;

verus! {

/// Whether a side of a contour is out of the way of a rectangle: above it, below
/// it, or to its right.
pub open spec fn out_of_the_way(p: (i64, i64), q: (i64, i64), f: contours::Frame) -> bool {
    ||| p.1 <= f.top && q.1 <= f.top
    ||| f.bottom <= p.1 && f.bottom <= q.1
    ||| f.right <= p.0 && f.right <= q.0
}

/// Whether the side after the point `k` is to the left of a rectangle, between
/// the points `i` and `j`, or out of its way elsewhere.
pub open spec fn keeps_clear(
    ring: Seq<(i64, i64)>,
    k: int,
    i: int,
    j: int,
    f: contours::Frame,
) -> bool {
    if i <= k < j {
        ring[k].0 <= f.left && ring[k + 1].0 <= f.left
    } else {
        out_of_the_way(ring[k], ring[k + 1], f)
    }
}

/// Whether a contour goes by a rectangle once, on its left: from the point `i` to
/// the point `j` it comes from above the rectangle to below it, or back, and it
/// is out of the way elsewhere.
pub open spec fn goes_by(ring: Seq<(i64, i64)>, i: int, j: int, f: contours::Frame) -> bool {
    &&& 0 <= i < j < ring.len()
    &&& forall|k: int|
        0 <= k < ring.len() - 1 ==> #[trigger] keeps_clear(ring, k, i, j, f)
    &&& (ring[i].1 <= f.top && f.bottom <= ring[j].1) || (ring[j].1 <= f.top && f.bottom
        <= ring[i].1)
}

/// What one side adds to a winding number.
proof fn lemma_one_side(
    p: (i64, i64),
    q: (i64, i64),
    f: contours::Frame,
    size: int,
    x: int,
    y: int,
)
    requires
        0 < size <= i32::MAX,
        edge::in_reach(p),
        edge::in_reach(q),
        edge::scaled(f.left, size) <= x < edge::scaled(f.right, size),
        edge::scaled(f.top, size) <= y < edge::scaled(f.bottom, size),
    ensures
        ({
            let e = edge::edge_between(p, q, size);
            let added = if fill::crossing(e, y) <= x {
                fill::turn(e, y)
            } else {
                0
            };
            &&& p.0 <= f.left && q.0 <= f.left ==> added == render::below(q, size, y)
                - render::below(p, size, y)
            &&& out_of_the_way(p, q, f) ==> added == 0
        }),
{
    let e = edge::edge_between(p, q, size);
    edge::lemma_scaled_in_reach(p.0 as int, size);
    edge::lemma_scaled_in_reach(p.1 as int, size);
    edge::lemma_scaled_in_reach(q.0 as int, size);
    edge::lemma_scaled_in_reach(q.1 as int, size);
    if fill::turn(e, y) != 0 {
        fill::lemma_crossing_between(e, y);
    }
    if p.0 <= f.left && q.0 <= f.left {
        frame::law_scaling_keeps_order(p.0 as int, f.left, size);
        frame::law_scaling_keeps_order(q.0 as int, f.left, size);
    }
    if p.1 <= f.top && q.1 <= f.top {
        frame::law_scaling_keeps_order(p.1 as int, f.top, size);
        frame::law_scaling_keeps_order(q.1 as int, f.top, size);
    }
    if f.bottom <= p.1 && f.bottom <= q.1 {
        frame::law_scaling_keeps_order(f.bottom, p.1 as int, size);
        frame::law_scaling_keeps_order(f.bottom, q.1 as int, size);
    }
    if f.right <= p.0 && f.right <= q.0 {
        frame::law_scaling_keeps_order(f.right, p.0 as int, size);
        frame::law_scaling_keeps_order(f.right, q.0 as int, size);
    }
}

/// The winding number of the first part of a contour that goes by a rectangle.
proof fn lemma_part_goes_by(
    ring: Seq<(i64, i64)>,
    i: int,
    j: int,
    f: contours::Frame,
    size: int,
    x: int,
    y: int,
    upto: int,
)
    requires
        0 < size <= i32::MAX,
        forall|k: int| 0 <= k < ring.len() ==> edge::in_reach(#[trigger] ring[k]),
        goes_by(ring, i, j, f),
        0 <= upto < ring.len(),
        edge::scaled(f.left, size) <= x < edge::scaled(f.right, size),
        edge::scaled(f.top, size) <= y < edge::scaled(f.bottom, size),
    ensures
        ({
            let reached = if upto < i {
                i
            } else if upto < j {
                upto
            } else {
                j
            };
            fill::winding(edge::sides(ring.take(upto + 1), size), x, y) == render::below(
                ring[reached],
                size,
                y,
            ) - render::below(ring[i], size, y)
        }),
    decreases upto,
{
    let part = ring.take(upto + 1);
    if upto == 0 {
        assert(edge::sides(part, size) =~= Seq::<Edge>::empty());
    } else {
        lemma_part_goes_by(ring, i, j, f, size, x, y, upto - 1);
        assert(part.drop_last() =~= ring.take(upto));
        let (p, q) = (ring[upto - 1], ring[upto]);
        assert(edge::in_reach(p) && edge::in_reach(q));
        assert(keeps_clear(ring, upto - 1, i, j, f));
        lemma_one_side(p, q, f, size, x, y);
        let before = edge::sides(ring.take(upto), size);
        assert(before.push(edge::edge_between(p, q, size)).drop_last() =~= before);
    }
}

/// What a contour goes by is inside.
proof fn lemma_inside_what_goes_by(
    ring: Seq<(i64, i64)>,
    i: int,
    j: int,
    f: contours::Frame,
    size: int,
    x: int,
    y: int,
)
    requires
        0 < size <= i32::MAX,
        forall|k: int| 0 <= k < ring.len() ==> edge::in_reach(#[trigger] ring[k]),
        goes_by(ring, i, j, f),
        edge::scaled(f.left, size) <= x < edge::scaled(f.right, size),
        edge::scaled(f.top, size) <= y < edge::scaled(f.bottom, size),
    ensures
        fill::winding(edge::sides(ring, size), x, y) != 0,
{
    lemma_part_goes_by(ring, i, j, f, size, x, y, ring.len() - 1);
    assert(ring.take(ring.len() as int) =~= ring);
    let (a, b) = (ring[i], ring[j]);
    if a.1 <= f.top && f.bottom <= b.1 {
        frame::law_scaling_keeps_order(a.1 as int, f.top, size);
        frame::law_scaling_keeps_order(f.bottom, b.1 as int, size);
    } else {
        frame::law_scaling_keeps_order(b.1 as int, f.top, size);
        frame::law_scaling_keeps_order(f.bottom, a.1 as int, size);
    }
}

/// A closed contour that goes by a rectangle once has all of it inside, whichever
/// way round it is drawn.
pub proof fn law_what_a_contour_goes_by_is_inside(
    ring: Seq<(i64, i64)>,
    i: int,
    j: int,
    f: contours::Frame,
    size: int,
    x: int,
    y: int,
)
    requires
        0 < size <= i32::MAX,
        2 <= ring.len(),
        ring.first() == ring.last(),
        forall|k: int| 0 <= k < ring.len() ==> edge::in_reach(#[trigger] ring[k]),
        goes_by(ring, i, j, f),
        edge::scaled(f.left, size) <= x < edge::scaled(f.right, size),
        edge::scaled(f.top, size) <= y < edge::scaled(f.bottom, size),
    ensures
        fill::winding(edge::contour_edges(ring, size), x, y) != 0,
{
    if edge::double_area(ring) < 0 {
        let back = ring.reverse();
        let last = ring.len() - 1;
        assert forall|k: int| 0 <= k < back.len() implies edge::in_reach(#[trigger] back[k]) by {
            assert(back[k] == ring[last - k]);
        }
        assert forall|k: int| 0 <= k < back.len() - 1 implies #[trigger] keeps_clear(
            back,
            k,
            last - j,
            last - i,
            f,
        ) by {
            let m = last - k - 1;
            assert(back[k] == ring[m + 1] && back[k + 1] == ring[m]);
            assert(keeps_clear(ring, m, i, j, f));
        }
        assert(back[last - j] == ring[j] && back[last - i] == ring[i]);
        lemma_inside_what_goes_by(back, last - j, last - i, f, size, x, y);
    } else {
        lemma_inside_what_goes_by(ring, i, j, f, size, x, y);
    }
}

/// The contour through a list of corners.
pub open spec fn ring_of(corners: Seq<i32>) -> Seq<(i64, i64)> {
    Seq::new(
        corners.len() / 2 + 1,
        |k: int|
            if k < corners.len() / 2 {
                (corners[2 * k] as i64, corners[2 * k + 1] as i64)
            } else {
                (corners[0] as i64, corners[1] as i64)
            },
    )
}

/// Whether the first sides of an outline through a list of corners keep clear of a
/// rectangle.
pub open spec fn clear_upto(corners: Seq<i32>, n: int, i: int, j: int, f: contours::Frame) -> bool
    decreases n,
{
    n <= 0 || {
        let (k, l) = (n - 1, if n == corners.len() / 2 { 0 } else { n });
        let p = (corners[2 * k] as i64, corners[2 * k + 1] as i64);
        let q = (corners[2 * l] as i64, corners[2 * l + 1] as i64);
        &&& clear_upto(corners, n - 1, i, j, f)
        &&& if i <= k < j {
            p.0 <= f.left && q.0 <= f.left
        } else {
            out_of_the_way(p, q, f)
        }
    }
}

/// An outline through a list of corners goes by a rectangle, if its sides keep
/// clear of it one by one.
pub proof fn lemma_goes_by(corners: Seq<i32>, i: int, j: int, f: contours::Frame)
    requires
        2 <= corners.len(),
        corners.len() % 2 == 0,
        clear_upto(corners, corners.len() as int / 2, i, j, f),
        0 <= i < j <= corners.len() / 2,
        ({
            let (a, b) = (corners[2 * i + 1], ring_of(corners)[j].1);
            (a <= f.top && f.bottom <= b) || (b <= f.top && f.bottom <= a)
        }),
    ensures
        goes_by(ring_of(corners), i, j, f),
{
    let ring = ring_of(corners);
    assert forall|k: int| 0 <= k < ring.len() - 1 implies #[trigger] keeps_clear(
        ring,
        k,
        i,
        j,
        f,
    ) by {
        lemma_clear_at(corners, corners.len() as int / 2, i, j, f, k);
    }
}

proof fn lemma_clear_at(corners: Seq<i32>, n: int, i: int, j: int, f: contours::Frame, k: int)
    requires
        2 <= corners.len(),
        corners.len() % 2 == 0,
        clear_upto(corners, n, i, j, f),
        0 <= k < n <= corners.len() / 2,
    ensures
        keeps_clear(ring_of(corners), k, i, j, f),
    decreases n,
{
    if k < n - 1 {
        lemma_clear_at(corners, n - 1, i, j, f, k);
    }
}

/// A filled outline through a list of corners is one polygon with these corners.
pub proof fn law_a_polygon_is_its_corners(corners: Seq<i32>, size: int)
    requires
        2 <= corners.len(),
        corners.len() % 2 == 0,
    ensures
        render::picture_edges(seq![path::Figure::Fill(piece_art::through(corners))], size)
            == edge::contour_edges(ring_of(corners), size),
{
    let commands = piece_art::through(corners);
    let count = corners.len() / 2;
    let points = Seq::new(count, |k: int| (corners[2 * k], corners[2 * k + 1]));
    let open = commands.drop_last();
    assert(open =~= contours::straight(points));
    contours::lemma_straight(points);
    let pen = flatten::pen_after(commands);
    assert(commands.last() == Cmd::Close);
    let closed = points.push(points[0]);
    assert(pen.finished =~= seq![closed]);
    let lines = flatten::contours(commands);
    assert(lines =~= seq![closed]);
    let figure = path::Figure::Fill(commands);
    let polygons = render::figure_polygons(figure);
    assert(render::widened(closed) =~= ring_of(corners));
    assert(polygons =~= seq![ring_of(corners)]);
    let figures = seq![figure];
    assert(figures.drop_last() =~= Seq::<path::Figure>::empty());
    reveal_with_fuel(render::polygons, 2);
    reveal_with_fuel(edge::all_edges, 2);
    assert(render::polygons(figures) =~= polygons);
    assert(polygons.drop_last() =~= Seq::<Seq<(i64, i64)>>::empty());
    assert(edge::all_edges(polygons, size) =~= edge::contour_edges(ring_of(corners), size));
}

/// The first pixel that begins at or after a coordinate.
pub open spec fn first_from(value: int, size: int) -> int {
    (edge::scaled(value, size) + 255) / 256
}

/// The first pixel that ends after a coordinate.
pub open spec fn first_beyond(value: int, size: int) -> int {
    edge::scaled(value, size) / 256
}

/// Whether a pixel lies in a rectangle with all it has.
pub open spec fn holds_pixel(f: contours::Frame, size: int, row: int, column: int) -> bool {
    &&& first_from(f.left, size) <= column < first_beyond(f.right, size)
    &&& first_from(f.top, size) <= row < first_beyond(f.bottom, size)
}

/// Whether a pixel has anything in a rectangle.
pub open spec fn touches_pixel(f: contours::Frame, size: int, row: int, column: int) -> bool {
    &&& first_beyond(f.left, size) <= column < first_from(f.right, size)
    &&& first_beyond(f.top, size) <= row < first_from(f.bottom, size)
}

/// A pixel in a rectangle that a polygon goes by is solid.
pub proof fn law_pixels_well_within_are_solid(
    corners: Seq<i32>,
    i: int,
    j: int,
    f: contours::Frame,
    size: int,
    row: int,
    column: int,
)
    requires
        0 < size <= i32::MAX,
        2 <= corners.len(),
        corners.len() % 2 == 0,
        goes_by(ring_of(corners), i, j, f),
        holds_pixel(f, size, row, column),
    ensures
        fill::pixel_alpha(
            render::picture_edges(seq![path::Figure::Fill(piece_art::through(corners))], size),
            row,
            column,
        ) == 255,
{
    let edges = edge::contour_edges(ring_of(corners), size);
    law_a_polygon_is_its_corners(corners, size);
    assert forall|sub: int| 0 <= sub < 4 implies #[trigger] fill::span_cover(
        edges,
        row,
        column,
        sub,
    ) == FIXED by {
        let y = fill::scanline(row, sub);
        let g = fill::inside(edges, y);
        assert forall|x: int| FIXED * column <= x < FIXED * (column + 1) implies #[trigger] g(
            x,
        ) by {
            law_what_a_contour_goes_by_is_inside(ring_of(corners), i, j, f, size, x, y);
        }
        fill::lemma_count_all(g, FIXED * column, FIXED * (column + 1));
    }
    assert(fill::span_cover(edges, row, column, 0) == FIXED);
    assert(fill::span_cover(edges, row, column, 1) == FIXED);
    assert(fill::span_cover(edges, row, column, 2) == FIXED);
    assert(fill::span_cover(edges, row, column, 3) == FIXED);
    assert(fill::pixel_cover(edges, row, column) == 1024);
    assert(255 * 1024int / 1024 == 255);
}

/// A pixel that has nothing in the rectangle round a polygon is blank.
pub proof fn law_pixels_well_outside_are_blank(
    corners: Seq<i32>,
    f: contours::Frame,
    size: int,
    row: int,
    column: int,
)
    requires
        0 < size <= i32::MAX,
        2 <= corners.len(),
        corners.len() % 2 == 0,
        frame::reachable(f),
        forall|k: int|
            0 <= k < ring_of(corners).len() ==> f.holds(
                (#[trigger] ring_of(corners)[k]).0 as int,
                ring_of(corners)[k].1 as int,
            ),
        !touches_pixel(f, size, row, column),
    ensures
        fill::pixel_alpha(
            render::picture_edges(seq![path::Figure::Fill(piece_art::through(corners))], size),
            row,
            column,
        ) == 0,
{
    let ring = ring_of(corners);
    law_a_polygon_is_its_corners(corners, size);
    let edges = edge::contour_edges(ring, size);
    let polygons = seq![ring];
    assert(polygons.drop_last() =~= Seq::<Seq<(i64, i64)>>::empty());
    reveal_with_fuel(edge::all_edges, 2);
    assert(edge::all_edges(polygons, size) =~= edges);
    assert(frame::holds_polygons(f, polygons));
    assert forall|sub: int| 0 <= sub < 4 implies #[trigger] fill::span_cover(
        edges,
        row,
        column,
        sub,
    ) == 0 by {
        let y = fill::scanline(row, sub);
        let g = fill::inside(edges, y);
        assert forall|x: int| FIXED * column <= x < FIXED * (column + 1) implies !#[trigger] g(
            x,
        ) by {
            if fill::winding(edges, x, y) != 0 {
                frame::law_polygons_stay_in_frame(polygons, f, size, x, y);
            }
        }
        fill::lemma_count_none(g, FIXED * column, FIXED * (column + 1));
    }
    assert(fill::span_cover(edges, row, column, 0) == 0);
    assert(fill::span_cover(edges, row, column, 1) == 0);
    assert(fill::span_cover(edges, row, column, 2) == 0);
    assert(fill::span_cover(edges, row, column, 3) == 0);
    assert(fill::pixel_cover(edges, row, column) == 0);
}

} // verus!
