//! Edges in fixed-point pixel space, and what they enclose.
use crate::path::UNITS;
use vstd::prelude::*;

verus! {

/// Sub-pixel precision for edge intersections.
pub const FIXED: i64 = 256;

/// An edge in fixed-point pixel space.
#[derive(Clone, Copy, Debug, PartialEq, Eq, Structural)]
pub struct Edge {
    pub x0: i64,
    pub y0: i64,
    pub x1: i64,
    pub y1: i64,
}

/// A quotient, rounded toward zero.
pub open spec fn quotient(n: int, d: int) -> int {
    let size = magnitude(n) / magnitude(d);
    if (n < 0) == (d < 0) {
        size
    } else {
        -size
    }
}

pub open spec fn magnitude(n: int) -> int {
    if n < 0 {
        -n
    } else {
        n
    }
}

/// A coordinate of the design box, in fixed-point pixels of a box of `size`.
pub open spec fn scaled(value: int, size: int) -> int {
    quotient(value * size * FIXED, UNITS as int)
}

/// The coordinates that occur: those of an outline, moved by half the width of
/// a stroke.
pub open spec fn in_reach(point: (i64, i64)) -> bool {
    &&& -0x1_0000_0000 <= point.0 <= 0x1_0000_0000
    &&& -0x1_0000_0000 <= point.1 <= 0x1_0000_0000
}

/// The coordinates of an outline itself.
pub open spec fn in_outline(point: (i64, i64)) -> bool {
    &&& i32::MIN <= point.0 <= i32::MAX
    &&& i32::MIN <= point.1 <= i32::MAX
}

/// A polygon that can be drawn: its corners are in reach, and it is either one
/// of the pieces of a stroke or lies where an outline can.
pub open spec fn drawable(points: Seq<(i64, i64)>) -> bool {
    &&& forall|i: int| 0 <= i < points.len() ==> in_reach(#[trigger] points[i])
    &&& points.len() <= 12 || forall|i: int|
        0 <= i < points.len() ==> in_outline(#[trigger] points[i])
}

/// An edge whose ends are in reach, at any size.
pub open spec fn edge_in_reach(edge: Edge) -> bool {
    &&& -0x4000_0000_0000_0000 <= edge.x0 <= 0x4000_0000_0000_0000
    &&& -0x4000_0000_0000_0000 <= edge.y0 <= 0x4000_0000_0000_0000
    &&& -0x4000_0000_0000_0000 <= edge.x1 <= 0x4000_0000_0000_0000
    &&& -0x4000_0000_0000_0000 <= edge.y1 <= 0x4000_0000_0000_0000
}

/// A contour that ends where it starts.
pub open spec fn closed(points: Seq<(i64, i64)>) -> Seq<(i64, i64)> {
    if points.first() == points.last() {
        points
    } else {
        points.push(points.first())
    }
}

/// What one side adds to twice the area.
pub open spec fn side_area(p: (i64, i64), q: (i64, i64)) -> int {
    p.0 * q.1 - q.0 * p.1
}

/// Twice the signed area inside a closed contour.
pub open spec fn double_area(points: Seq<(i64, i64)>) -> int
    decreases points.len(),
{
    if points.len() < 2 {
        0
    } else {
        double_area(points.drop_last()) + side_area(points[points.len() - 2], points.last())
    }
}

/// A closed contour, in the direction that makes its area positive.
pub open spec fn oriented(points: Seq<(i64, i64)>) -> Seq<(i64, i64)> {
    if double_area(closed(points)) < 0 {
        closed(points).reverse()
    } else {
        closed(points)
    }
}

/// The edge from one point to another.
pub open spec fn edge_between(p: (i64, i64), q: (i64, i64), size: int) -> Edge {
    Edge {
        x0: scaled(p.0 as int, size) as i64,
        y0: scaled(p.1 as int, size) as i64,
        x1: scaled(q.0 as int, size) as i64,
        y1: scaled(q.1 as int, size) as i64,
    }
}

/// The edges along a contour. A level side is crossed by no scanline.
pub open spec fn sides(points: Seq<(i64, i64)>, size: int) -> Seq<Edge>
    decreases points.len(),
{
    if points.len() < 2 {
        Seq::empty()
    } else {
        let p = points[points.len() - 2];
        let q = points.last();
        let before = sides(points.drop_last(), size);
        if p.1 == q.1 {
            before
        } else {
            before.push(edge_between(p, q, size))
        }
    }
}

/// The edges of one contour.
pub open spec fn contour_edges(points: Seq<(i64, i64)>, size: int) -> Seq<Edge> {
    if points.len() < 2 {
        Seq::empty()
    } else {
        sides(oriented(points), size)
    }
}

/// The edges of a list of contours.
pub open spec fn all_edges(contours: Seq<Seq<(i64, i64)>>, size: int) -> Seq<Edge>
    decreases contours.len(),
{
    if contours.len() == 0 {
        Seq::empty()
    } else {
        all_edges(contours.drop_last(), size) + contour_edges(contours.last(), size)
    }
}

/// Divides toward zero.
pub fn divide(n: i128, d: i128) -> (q: i128)
    requires
        i128::MIN < n,
        i128::MIN < d,
        d != 0,
    ensures
        q == quotient(n as int, d as int),
{
    let a: i128 = if n < 0 {
        -n
    } else {
        n
    };
    let b: i128 = if d < 0 {
        -d
    } else {
        d
    };
    let size: i128 = a / b;
    if (n < 0) == (d < 0) {
        size
    } else {
        -size
    }
}

/// Scales one coordinate of the design box.
fn scale(value: i64, size: i32) -> (r: i64)
    requires
        -0x1_0000_0000 <= value <= 0x1_0000_0000,
        0 < size,
    ensures
        r == scaled(value as int, size as int),
        -0x4000_0000_0000_0000 <= r <= 0x4000_0000_0000_0000,
{
    proof {
        lemma_scaled_in_reach(value as int, size as int);
    }
    let n: i128 = value as i128 * size as i128 * FIXED as i128;
    divide(n, UNITS as i128) as i64
}

/// Scaling keeps what is in reach in range.
pub proof fn lemma_scaled_in_reach(value: int, size: int)
    requires
        -0x1_0000_0000 <= value <= 0x1_0000_0000,
        0 < size <= i32::MAX,
    ensures
        -0x80_0000_0000_0000_0000 <= value * size * FIXED <= 0x80_0000_0000_0000_0000,
        -0x8000_0000_0000_0000 <= value * size <= 0x8000_0000_0000_0000,
        -0x4000_0000_0000_0000 <= scaled(value, size) <= 0x4000_0000_0000_0000,
{
    assert(-0x8000_0000_0000_0000 <= value * size <= 0x8000_0000_0000_0000) by (nonlinear_arith)
        requires
            -0x1_0000_0000 <= value <= 0x1_0000_0000,
            0 < size <= 0x7fff_ffff,
    ;
    let n = value * size * FIXED;
    assert(magnitude(n) / 1000 <= 0x4000_0000_0000_0000);
    assert(magnitude(UNITS as int) == 1000);
}

/// Adds one closed contour's edges, in a consistent winding direction.
///
/// The direction is normalised because the stroke pieces are generated from
/// segment directions and discs independently: two overlapping polygons wound
/// oppositely would cancel under the non-zero rule and punch a hole in the
/// stroke exactly at a corner.
pub fn push_contour(edges: &mut Vec<Edge>, points: &[(i64, i64)], size: i32)
    requires
        0 < size,
        drawable(points@),
    ensures
        final(edges)@ == old(edges)@ + contour_edges(points@, size as int),
{
    let count: usize = points.len();
    if count < 2 {
        assert(edges@ =~= edges@ + contour_edges(points@, size as int));
        return ;
    }
    let mut ring: Vec<(i64, i64)> = Vec::new();
    for i in 0..count
        invariant
            count == points@.len(),
            ring@ == points@.take(i as int),
    {
        ring.push(points[i]);
        assert(points@.take(i + 1) =~= points@.take(i as int).push(points@[i as int]));
    }
    assert(points@.take(count as int) =~= points@);
    let (first, last): ((i64, i64), (i64, i64)) = (points[0], points[count - 1]);
    if first.0 != last.0 || first.1 != last.1 {
        ring.push(first);
    }
    assert(ring@ == closed(points@));
    if is_clockwise(&ring) {
        ring = reversed(&ring);
    }
    assert(ring@ == oriented(points@));
    push_sides(edges, &ring, size);
}

/// Whether the area inside a closed contour counts as negative.
fn is_clockwise(ring: &Vec<(i64, i64)>) -> (r: bool)
    requires
        2 <= ring@.len(),
        forall|i: int| 0 <= i < ring@.len() ==> in_reach(#[trigger] ring@[i]),
        ring@.len() <= 13 || forall|i: int|
            0 <= i < ring@.len() ==> in_outline(#[trigger] ring@[i]),
    ensures
        r == (double_area(ring@) < 0),
{
    let count: usize = ring.len();
    let ghost bound: int = if count <= 13 {
        0x2_0000_0000_0000_0000
    } else {
        0x8000_0000_0000_0000
    };
    let mut area: i128 = 0;
    assert(double_area(ring@.take(1)) == 0);
    for i in 1..count
        invariant
            count == ring@.len(),
            area == double_area(ring@.take(i as int)),
            -(bound * (i - 1)) <= area <= bound * (i - 1),
            count <= 13 ==> bound == 0x2_0000_0000_0000_0000,
            count > 13 ==> bound == 0x8000_0000_0000_0000,
            forall|i: int| 0 <= i < ring@.len() ==> in_reach(#[trigger] ring@[i]),
            count <= 13 || forall|i: int|
                0 <= i < ring@.len() ==> in_outline(#[trigger] ring@[i]),
    {
        let (p, q): ((i64, i64), (i64, i64)) = (ring[i - 1], ring[i]);
        proof {
            assert(ring@.take(i + 1).drop_last() =~= ring@.take(i as int));
            assert(in_reach(p) && in_reach(q));
            if count > 13 {
                assert(in_outline(p) && in_outline(q));
                lemma_product_in_outline(p.0 as int, q.1 as int);
                lemma_product_in_outline(q.0 as int, p.1 as int);
            }
            lemma_product_in_reach(p.0 as int, q.1 as int);
            lemma_product_in_reach(q.0 as int, p.1 as int);
            assert(bound * i == bound * (i - 1) + bound) by (nonlinear_arith);
            assert(bound * i <= 0x7fff_ffff_ffff_ffff_8000_0000_0000_0000) by {
                if count <= 13 {
                    assert(bound * i <= bound * 13) by (nonlinear_arith)
                        requires
                            0 <= i <= 13,
                            0 <= bound,
                    ;
                } else {
                    assert(bound * i <= bound * 0xffff_ffff_ffff_ffff) by (nonlinear_arith)
                        requires
                            0 <= i <= 0xffff_ffff_ffff_ffff,
                            0 <= bound,
                    ;
                }
            }
        }
        area = area + (p.0 as i128 * q.1 as i128 - q.0 as i128 * p.1 as i128);
    }
    assert(ring@.take(count as int) =~= ring@);
    area < 0
}

proof fn lemma_product_in_reach(a: int, b: int)
    requires
        -0x1_0000_0000 <= a <= 0x1_0000_0000,
        -0x1_0000_0000 <= b <= 0x1_0000_0000,
    ensures
        -0x1_0000_0000_0000_0000 <= a * b <= 0x1_0000_0000_0000_0000,
{
    assert(-0x1_0000_0000_0000_0000 <= a * b <= 0x1_0000_0000_0000_0000) by (nonlinear_arith)
        requires
            -0x1_0000_0000 <= a <= 0x1_0000_0000,
            -0x1_0000_0000 <= b <= 0x1_0000_0000,
    ;
}

proof fn lemma_product_in_outline(a: int, b: int)
    requires
        i32::MIN <= a <= i32::MAX,
        i32::MIN <= b <= i32::MAX,
    ensures
        -0x4000_0000_0000_0000 <= a * b <= 0x4000_0000_0000_0000,
{
    assert(-0x4000_0000_0000_0000 <= a * b <= 0x4000_0000_0000_0000) by (nonlinear_arith)
        requires
            -0x8000_0000 <= a <= 0x8000_0000,
            -0x8000_0000 <= b <= 0x8000_0000,
    ;
}

/// The points in the opposite order.
fn reversed(ring: &Vec<(i64, i64)>) -> (r: Vec<(i64, i64)>)
    ensures
        r@ == ring@.reverse(),
{
    let count: usize = ring.len();
    let mut r: Vec<(i64, i64)> = Vec::new();
    for i in 0..count
        invariant
            count == ring@.len(),
            r@ == ring@.reverse().take(i as int),
    {
        r.push(ring[count - 1 - i]);
        assert(ring@.reverse().take(i + 1) =~= ring@.reverse().take(i as int).push(
            ring@.reverse()[i as int],
        ));
    }
    assert(ring@.reverse().take(count as int) =~= ring@.reverse());
    r
}

/// Adds the edges along a contour.
fn push_sides(edges: &mut Vec<Edge>, ring: &Vec<(i64, i64)>, size: i32)
    requires
        0 < size,
        2 <= ring@.len(),
        forall|i: int| 0 <= i < ring@.len() ==> in_reach(#[trigger] ring@[i]),
    ensures
        final(edges)@ == old(edges)@ + sides(ring@, size as int),
{
    let ghost start = edges@;
    let count: usize = ring.len();
    assert(edges@ =~= start + sides(ring@.take(1), size as int));
    for i in 1..count
        invariant
            0 < size,
            count == ring@.len(),
            edges@ == start + sides(ring@.take(i as int), size as int),
            forall|i: int| 0 <= i < ring@.len() ==> in_reach(#[trigger] ring@[i]),
    {
        let (p, q): ((i64, i64), (i64, i64)) = (ring[i - 1], ring[i]);
        proof {
            assert(ring@.take(i + 1).drop_last() =~= ring@.take(i as int));
            assert(in_reach(p) && in_reach(q));
        }
        if p.1 != q.1 {
            edges.push(
                Edge {
                    x0: scale(p.0, size),
                    y0: scale(p.1, size),
                    x1: scale(q.0, size),
                    y1: scale(q.1, size),
                },
            );
        }
        assert(edges@ =~= start + sides(ring@.take(i + 1), size as int));
    }
    assert(ring@.take(count as int) =~= ring@);
}

} // verus!
