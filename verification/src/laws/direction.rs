//! Why overlapping pieces do not cancel.
use crate::edge;
use crate::edge::{Edge, FIXED};
use crate::fill;
use crate::laws::picture;
use crate::render;
use vstd::prelude::*;

verus! {

/// Something that each side of a contour has, added up along it.
pub open spec fn along(
    points: Seq<(i64, i64)>,
    part: spec_fn((i64, i64), (i64, i64)) -> int,
) -> int
    decreases points.len(),
{
    if points.len() < 2 {
        0
    } else {
        along(points.drop_last(), part) + part(points[points.len() - 2], points.last())
    }
}

/// What a side adds to the winding number at a position.
pub open spec fn side_winding(
    p: (i64, i64),
    q: (i64, i64),
    size: int,
    x: int,
    y: int,
) -> int {
    let e = edge::edge_between(p, q, size);
    if fill::crossing(e, y) <= x {
        fill::turn(e, y)
    } else {
        0
    }
}

proof fn lemma_along_concat(
    a: Seq<(i64, i64)>,
    b: Seq<(i64, i64)>,
    part: spec_fn((i64, i64), (i64, i64)) -> int,
)
    requires
        1 <= a.len(),
        1 <= b.len(),
    ensures
        along(a + b, part) == along(a, part) + part(a.last(), b.first()) + along(b, part),
    decreases b.len(),
{
    assert((a + b).drop_last() =~= a + b.drop_last());
    if b.len() == 1 {
        assert(a + b.drop_last() =~= a);
    } else {
        lemma_along_concat(a, b.drop_last(), part);
        assert(b.drop_last().first() == b.first());
    }
}

/// Where a closed contour starts does not matter: it can as well start from its
/// last corner.
proof fn lemma_along_turned(
    points: Seq<(i64, i64)>,
    part: spec_fn((i64, i64), (i64, i64)) -> int,
)
    requires
        1 <= points.len(),
    ensures
        along(points.push(points.first()), part) == along(seq![points.last()] + points, part),
{
    let first = seq![points.first()];
    let last = seq![points.last()];
    assert(points.push(points.first()) =~= points + first);
    lemma_along_concat(points, first, part);
    lemma_along_concat(last, points, part);
}

proof fn lemma_along_reversed(
    points: Seq<(i64, i64)>,
    part: spec_fn((i64, i64), (i64, i64)) -> int,
)
    requires
        forall|p: (i64, i64), q: (i64, i64)| #[trigger] part(q, p) == -part(p, q),
    ensures
        along(points.reverse(), part) == -along(points, part),
    decreases points.len(),
{
    if points.len() >= 2 {
        let shorter = points.drop_last();
        let last = seq![points.last()];
        lemma_along_reversed(shorter, part);
        assert(points.reverse() =~= last + shorter.reverse());
        assert(shorter.reverse().first() == points[points.len() - 2]);
        lemma_along_concat(last, shorter.reverse(), part);
        assert(part(points.last(), points[points.len() - 2]) == -part(
            points[points.len() - 2],
            points.last(),
        ));
    }
}

spec fn area_part() -> spec_fn((i64, i64), (i64, i64)) -> int {
    |p: (i64, i64), q: (i64, i64)| edge::side_area(p, q)
}

spec fn winding_part(size: int, x: int, y: int) -> spec_fn((i64, i64), (i64, i64)) -> int {
    |p: (i64, i64), q: (i64, i64)| side_winding(p, q, size, x, y)
}

proof fn lemma_area_along(points: Seq<(i64, i64)>)
    ensures
        edge::double_area(points) == along(points, area_part()),
    decreases points.len(),
{
    if points.len() >= 2 {
        lemma_area_along(points.drop_last());
    }
}

proof fn lemma_winding_along(points: Seq<(i64, i64)>, size: int, x: int, y: int)
    ensures
        fill::winding(edge::sides(points, size), x, y) == along(points, winding_part(size, x, y)),
    decreases points.len(),
{
    if points.len() >= 2 {
        lemma_winding_along(points.drop_last(), size, x, y);
        let before = edge::sides(points.drop_last(), size);
        let p = points[points.len() - 2];
        let q = points.last();
        if p.1 != q.1 {
            assert(before.push(edge::edge_between(p, q, size)).drop_last() =~= before);
        }
    }
}

proof fn lemma_area_reversed(points: Seq<(i64, i64)>)
    ensures
        edge::double_area(points.reverse()) == -edge::double_area(points),
{
    lemma_area_along(points);
    lemma_area_along(points.reverse());
    assert forall|p: (i64, i64), q: (i64, i64)| #[trigger]
        area_part()(q, p) == -area_part()(p, q) by {
        assert(edge::side_area(q, p) == q.0 * p.1 - p.0 * q.1);
    }
    lemma_along_reversed(points, area_part());
}

/// Every contour is taken round in one direction: it encloses an area that is
/// not negative.
pub proof fn law_one_direction(points: Seq<(i64, i64)>)
    ensures
        edge::double_area(edge::oriented(points)) >= 0,
        edge::oriented(points) == edge::closed(points) || edge::oriented(points) == edge::closed(
            points,
        ).reverse(),
{
    lemma_area_reversed(edge::closed(points));
}

/// The area of a reversed contour is the opposite one.
proof fn lemma_closed_reversed(points: Seq<(i64, i64)>)
    requires
        1 <= points.len(),
    ensures
        edge::double_area(edge::closed(points.reverse())) == -edge::double_area(
            edge::closed(points),
        ),
{
    let back = points.reverse();
    assert(back.first() == points.last() && back.last() == points.first());
    if points.first() == points.last() {
        lemma_area_reversed(points);
    } else {
        let ring = edge::closed(points);
        let turned = seq![points.last()] + points;
        assert(edge::closed(back) =~= turned.reverse());
        lemma_area_reversed(turned);
        lemma_along_turned(points, area_part());
        lemma_area_along(ring);
        lemma_area_along(turned);
    }
}

/// Which way round an outline was drawn does not matter, as long as it encloses
/// an area at all: taken the other way round, it winds round every position as
/// often as before.
pub proof fn law_drawing_direction_does_not_matter(
    points: Seq<(i64, i64)>,
    size: int,
    x: int,
    y: int,
)
    requires
        1 <= points.len(),
        edge::double_area(edge::closed(points)) != 0,
    ensures
        fill::winding(edge::contour_edges(points.reverse(), size), x, y) == fill::winding(
            edge::contour_edges(points, size),
            x,
            y,
        ),
{
    let back = points.reverse();
    lemma_closed_reversed(points);
    assert(back.first() == points.last() && back.last() == points.first());
    assert(back.reverse() =~= points);
    if points.len() >= 2 {
        if edge::double_area(edge::closed(points)) > 0 {
            lemma_oriented_reversed(points, size, x, y);
        } else {
            lemma_oriented_reversed(back, size, x, y);
        }
    }
}

proof fn lemma_oriented_reversed(points: Seq<(i64, i64)>, size: int, x: int, y: int)
    requires
        2 <= points.len(),
        edge::double_area(edge::closed(points)) > 0,
        edge::double_area(edge::closed(points.reverse())) < 0,
    ensures
        fill::winding(edge::sides(edge::oriented(points.reverse()), size), x, y)
            == fill::winding(edge::sides(edge::oriented(points), size), x, y),
{
    let back = points.reverse();
    let part = winding_part(size, x, y);
    let turned = seq![points.last()] + points;
    assert(back.first() == points.last() && back.last() == points.first());
    if points.first() == points.last() {
        assert(edge::closed(back).reverse() =~= points);
    } else {
        assert(edge::closed(back).reverse() =~= turned);
        lemma_along_turned(points, part);
        lemma_winding_along(turned, size, x, y);
        lemma_winding_along(edge::closed(points), size, x, y);
    }
}

/// The edge that joins two contours; none if it is level.
spec fn link(p: (i64, i64), q: (i64, i64), size: int) -> Seq<Edge> {
    if p.1 == q.1 {
        Seq::empty()
    } else {
        seq![edge::edge_between(p, q, size)]
    }
}

proof fn lemma_sides_concat(a: Seq<(i64, i64)>, b: Seq<(i64, i64)>, size: int)
    requires
        1 <= a.len(),
        1 <= b.len(),
    ensures
        edge::sides(a + b, size) == edge::sides(a, size) + link(a.last(), b.first(), size)
            + edge::sides(b, size),
    decreases b.len(),
{
    let all = a + b;
    assert(all.drop_last() =~= a + b.drop_last());
    if b.len() == 1 {
        assert(a + b.drop_last() =~= a);
        assert(all[all.len() - 2] == a.last() && all.last() == b.first());
        assert(edge::sides(all, size) =~= edge::sides(a, size) + link(a.last(), b.first(), size)
            + edge::sides(b, size));
    } else {
        let shorter = b.drop_last();
        lemma_sides_concat(a, shorter, size);
        assert(shorter.first() == b.first());
        assert(all[all.len() - 2] == b[b.len() - 2] && all.last() == b.last());
        assert(edge::sides(all, size) =~= edge::sides(a, size) + link(a.last(), b.first(), size)
            + edge::sides(b, size));
    }
}

/// A closed contour has the same edges wherever it starts.
proof fn lemma_sides_turned(points: Seq<(i64, i64)>, size: int)
    requires
        1 <= points.len(),
    ensures
        edge::sides(points.push(points.first()), size).to_multiset() == edge::sides(
            seq![points.last()] + points,
            size,
        ).to_multiset(),
{
    let first = seq![points.first()];
    let last = seq![points.last()];
    let middle = edge::sides(points, size);
    let closing = link(points.last(), points.first(), size);
    assert(points.push(points.first()) =~= points + first);
    lemma_sides_concat(points, first, size);
    lemma_sides_concat(last, points, size);
    assert(edge::sides(points + first, size) =~= middle + closing);
    assert(edge::sides(last + points, size) =~= closing + middle);
    vstd::seq_lib::lemma_multiset_commutative(middle, closing);
    vstd::seq_lib::lemma_multiset_commutative(closing, middle);
    assert(middle.to_multiset().add(closing.to_multiset()) =~= closing.to_multiset().add(
        middle.to_multiset(),
    ));
}

/// Taken the other way round, an outline that encloses an area gives the same
/// edges, each with the same ends and in the same direction; only their order
/// may differ.
pub proof fn law_drawing_direction_keeps_the_edges(points: Seq<(i64, i64)>, size: int)
    requires
        1 <= points.len(),
        edge::double_area(edge::closed(points)) != 0,
    ensures
        edge::contour_edges(points, size).to_multiset() == edge::contour_edges(
            points.reverse(),
            size,
        ).to_multiset(),
{
    let back = points.reverse();
    lemma_closed_reversed(points);
    assert(back.reverse() =~= points);
    if points.len() >= 2 {
        if edge::double_area(edge::closed(points)) > 0 {
            lemma_oriented_edges_reversed(points, size);
        } else {
            lemma_oriented_edges_reversed(back, size);
        }
    }
}

proof fn lemma_oriented_edges_reversed(points: Seq<(i64, i64)>, size: int)
    requires
        2 <= points.len(),
        edge::double_area(edge::closed(points)) > 0,
        edge::double_area(edge::closed(points.reverse())) < 0,
    ensures
        edge::sides(edge::oriented(points.reverse()), size).to_multiset() == edge::sides(
            edge::oriented(points),
            size,
        ).to_multiset(),
{
    let back = points.reverse();
    assert(back.first() == points.last() && back.last() == points.first());
    if points.first() == points.last() {
        assert(edge::closed(back).reverse() =~= points);
    } else {
        assert(edge::closed(back).reverse() =~= seq![points.last()] + points);
        lemma_sides_turned(points, size);
    }
}

/// Any number of overlapping polygons that go round a position in the same
/// direction is still simply inside: it is inside all of them together exactly
/// where it is inside one of them.
pub proof fn law_same_direction_never_cancels(
    contours: Seq<Seq<(i64, i64)>>,
    size: int,
    x: int,
    y: int,
)
    requires
        forall|i: int|
            0 <= i < contours.len() ==> fill::winding(
                edge::contour_edges(#[trigger] contours[i], size),
                x,
                y,
            ) <= 0,
    ensures
        fill::winding(edge::all_edges(contours, size), x, y) <= 0,
        fill::winding(edge::all_edges(contours, size), x, y) != 0 <==> exists|i: int|
            0 <= i < contours.len() && fill::winding(
                edge::contour_edges(#[trigger] contours[i], size),
                x,
                y,
            ) != 0,
    decreases contours.len(),
{
    if contours.len() > 0 {
        let before = contours.drop_last();
        assert forall|i: int| 0 <= i < before.len() implies fill::winding(
            edge::contour_edges(#[trigger] before[i], size),
            x,
            y,
        ) <= 0 by {
            assert(before[i] == contours[i]);
        }
        law_same_direction_never_cancels(before, size, x, y);
        picture::law_windings_add(
            edge::all_edges(before, size),
            edge::contour_edges(contours.last(), size),
            x,
            y,
        );
        let last = contours.len() - 1;
        assert(contours[last] == contours.last());
        if fill::winding(edge::all_edges(before, size), x, y) != 0 {
            let i = choose|i: int|
                0 <= i < before.len() && fill::winding(
                    edge::contour_edges(#[trigger] before[i], size),
                    x,
                    y,
                ) != 0;
            assert(contours[i] == before[i]);
        }
        if exists|i: int|
            0 <= i < contours.len() && fill::winding(
                edge::contour_edges(#[trigger] contours[i], size),
                x,
                y,
            ) != 0 {
            let i = choose|i: int|
                0 <= i < contours.len() && fill::winding(
                    edge::contour_edges(#[trigger] contours[i], size),
                    x,
                    y,
                ) != 0;
            if i < last {
                assert(before[i] == contours[i]);
            }
        }
    }
}

/// How far a point lies to the inner side of an edge.
pub open spec fn inward(e: Edge, px: int, py: int) -> int {
    (e.x1 - e.x0) * (py - e.y0) - (e.y1 - e.y0) * (px - e.x0)
}

/// Edges that bound a convex area: every end of each lies on the inner side of
/// all.
pub open spec fn convex(edges: Seq<Edge>) -> bool {
    forall|i: int, j: int|
        #![trigger edges[i], edges[j]]
        0 <= i < edges.len() && 0 <= j < edges.len() ==> inward(
            edges[i],
            edges[j].x0 as int,
            edges[j].y0 as int,
        ) >= 0 && inward(edges[i], edges[j].x1 as int, edges[j].y1 as int) >= 0
}

/// Where the edges leave no more than one position between them: the scanline
/// is crossed, and every crossing is at the position or at the next.
pub open spec fn pinched(edges: Seq<Edge>, x: int, y: int) -> bool {
    &&& exists|i: int| 0 <= i < edges.len() && fill::turn(#[trigger] edges[i], y) != 0
    &&& forall|i: int|
        0 <= i < edges.len() && fill::turn(#[trigger] edges[i], y) != 0 ==> x <= fill::crossing(
            edges[i],
            y,
        ) <= x + 1
}

/// How far an edge reaches up and down.
spec fn span(e: Edge) -> int {
    edge::magnitude(e.y1 - e.y0)
}

/// `span` times the place where the edge meets a scanline, exactly.
spec fn meeting(e: Edge, y: int) -> int {
    edge::magnitude(e.y1 - y) * e.x0 + edge::magnitude(y - e.y0) * e.x1
}

/// The crossing is the meeting place, rounded.
proof fn lemma_crossing_near(e: Edge, y: int)
    requires
        fill::turn(e, y) != 0,
    ensures
        span(e) > 0,
        (fill::crossing(e, y) - 1) * span(e) < meeting(e, y),
        meeting(e, y) < (fill::crossing(e, y) + 1) * span(e),
{
    let h = e.y1 - e.y0;
    let m = span(e);
    let a = e.x1 - e.x0;
    let b = y - e.y0;
    let k = edge::magnitude(b);
    let n = a * b;
    let size = edge::magnitude(n) / m;
    let c = fill::crossing(e, y) - e.x0;
    // The way along the edge, without its sign.
    assert(meeting(e, y) == m * e.x0 + k * a) by (nonlinear_arith)
        requires
            meeting(e, y) == (m - k) * e.x0 + k * e.x1,
            a == e.x1 - e.x0,
    ;
    vstd::arithmetic::div_mod::lemma_fundamental_div_mod(edge::magnitude(n), m);
    vstd::arithmetic::div_mod::lemma_mod_bound(edge::magnitude(n), m);
    if b < 0 {
        assert(k * a == -n) by (nonlinear_arith)
            requires
                k == -b,
                n == a * b,
        ;
    } else {
        assert(k * a == n) by (nonlinear_arith)
            requires
                k == b,
                n == a * b,
        ;
        assert(b == 0 ==> n == 0) by (nonlinear_arith)
            requires
                n == a * b,
        ;
    }
    assert(c == size || c == -size);
    assert(-m < k * a - m * c < m) by {
        if (n < 0) == (h < 0) {
            assert(m * c == m * size);
        } else {
            assert(m * c == -(m * size)) by (nonlinear_arith)
                requires
                    c == -size,
            ;
        }
    }
    let full = fill::crossing(e, y);
    assert((full - 1) * m == m * e.x0 + m * c - m) by (nonlinear_arith)
        requires
            full == e.x0 + c,
    ;
    assert((full + 1) * m == m * e.x0 + m * c + m) by (nonlinear_arith)
        requires
            full == e.x0 + c,
    ;
}

/// Of a convex area, no crossing lies beyond one on the way down, nor short of
/// one on the way up.
proof fn lemma_convex_order(e: Edge, d: Edge, y: int)
    requires
        fill::turn(e, y) != 0,
        fill::turn(d, y) != 0,
        inward(e, d.x0 as int, d.y0 as int) >= 0,
        inward(e, d.x1 as int, d.y1 as int) >= 0,
    ensures
        fill::turn(e, y) == 1 ==> meeting(d, y) * span(e) <= meeting(e, y) * span(d),
        fill::turn(e, y) == -1 ==> meeting(d, y) * span(e) >= meeting(e, y) * span(d),
{
    let s = edge::magnitude(d.y1 - y);
    let t = edge::magnitude(y - d.y0);
    let m = span(d);
    let h = e.y1 - e.y0;
    let a = e.x1 - e.x0;
    let nd = meeting(d, y);
    let along_e = a * (y - e.y0) + h * e.x0;
    assert(m == s + t);
    assert(s * inward(e, d.x0 as int, d.y0 as int) >= 0) by (nonlinear_arith)
        requires
            s >= 0,
            inward(e, d.x0 as int, d.y0 as int) >= 0,
    ;
    assert(t * inward(e, d.x1 as int, d.y1 as int) >= 0) by (nonlinear_arith)
        requires
            t >= 0,
            inward(e, d.x1 as int, d.y1 as int) >= 0,
    ;
    assert(s * d.y0 + t * d.y1 == m * y) by (nonlinear_arith)
        requires
            (s == d.y1 - y && t == y - d.y0) || (s == y - d.y1 && t == d.y0 - y),
            m == s + t,
    ;
    lemma_mixed_inward(e, d, s, t, y);
    assert(m * along_e - h * nd >= 0);
    // Along the edge itself, the same sum gives its own meeting place.
    let k = edge::magnitude(y - e.y0);
    let l = edge::magnitude(e.y1 - y);
    assert(h > 0 ==> meeting(e, y) == along_e) by (nonlinear_arith)
        requires
            meeting(e, y) == l * e.x0 + k * e.x1,
            along_e == a * (y - e.y0) + h * e.x0,
            a == e.x1 - e.x0,
            h == e.y1 - e.y0,
            h > 0 ==> l == e.y1 - y && k == y - e.y0,
    ;
    assert(h < 0 ==> meeting(e, y) == -along_e) by (nonlinear_arith)
        requires
            meeting(e, y) == l * e.x0 + k * e.x1,
            along_e == a * (y - e.y0) + h * e.x0,
            a == e.x1 - e.x0,
            h == e.y1 - e.y0,
            h < 0 ==> l == y - e.y1 && k == e.y0 - y,
    ;
    let ne = meeting(e, y);
    if h > 0 {
        assert(nd * h <= ne * m) by (nonlinear_arith)
            requires
                m * ne - h * nd >= 0,
        ;
    } else {
        assert(nd * (-h) >= ne * m) by (nonlinear_arith)
            requires
                m * (-ne) - h * nd >= 0,
        ;
    }
}

/// The inner side, weighted over the two ends of an edge.
proof fn lemma_mixed_inward(e: Edge, d: Edge, s: int, t: int, y: int)
    requires
        s * d.y0 + t * d.y1 == (s + t) * y,
    ensures
        s * inward(e, d.x0 as int, d.y0 as int) + t * inward(e, d.x1 as int, d.y1 as int) == (s + t)
            * ((e.x1 - e.x0) * (y - e.y0) + (e.y1 - e.y0) * e.x0) - (e.y1 - e.y0) * (s * d.x0 + t
            * d.x1),
{
    let a = e.x1 - e.x0;
    let h = e.y1 - e.y0;
    let (x0, y0, x1, y1) = (d.x0 as int, d.y0 as int, d.x1 as int, d.y1 as int);
    let (ex, ey) = (e.x0 as int, e.y0 as int);
    let both = s + t;
    lemma_weighted(s, a, y0, ey, h, x0, ex);
    lemma_weighted(t, a, y1, ey, h, x1, ex);
    lemma_weighted(both, a, y, ey, h, 0, ex);
    assert(a * (s * y0) + a * (t * y1) == a * (s * y0 + t * y1)) by (nonlinear_arith);
    assert(h * (s * x0) + h * (t * x1) == h * (s * x0 + t * x1)) by (nonlinear_arith);
    assert(both * (a * ey) == s * (a * ey) + t * (a * ey)) by (nonlinear_arith)
        requires
            both == s + t,
    ;
    assert(both * (h * ex) == s * (h * ex) + t * (h * ex)) by (nonlinear_arith)
        requires
            both == s + t,
    ;
    assert(h * (0 - ex) == -(h * ex)) by (nonlinear_arith);
    assert(both * 0 == 0 && h * 0 == 0);
}

/// A weighted side, multiplied out.
proof fn lemma_weighted(s: int, a: int, u: int, v: int, h: int, p: int, q: int)
    ensures
        s * (a * (u - v) - h * (p - q)) == a * (s * u) - s * (a * v) - h * (s * p) + s * (h * q),
{
    let (au, av, hp, hq) = (a * u, a * v, h * p, h * q);
    assert(a * (u - v) == a * u - a * v) by (nonlinear_arith);
    assert(h * (p - q) == h * p - h * q) by (nonlinear_arith);
    assert(s * (au - av - hp + hq) == s * au - s * av - s * hp + s * hq) by (nonlinear_arith);
    assert(s * (a * u) == a * (s * u)) by (nonlinear_arith);
    assert(s * (h * p) == h * (s * p)) by (nonlinear_arith);
}

/// A positive winding number takes a crossing on the way down.
proof fn lemma_some_way_down(edges: Seq<Edge>, x: int, y: int)
    requires
        fill::winding(edges, x, y) > 0,
    ensures
        exists|i: int|
            0 <= i < edges.len() && fill::turn(#[trigger] edges[i], y) == 1 && fill::crossing(
                edges[i],
                y,
            ) <= x,
    decreases edges.len(),
{
    let last = edges.len() - 1;
    if fill::turn(edges[last], y) == 1 && fill::crossing(edges[last], y) <= x {
    } else {
        let before = edges.drop_last();
        lemma_some_way_down(before, x, y);
        let i = choose|i: int|
            0 <= i < before.len() && fill::turn(#[trigger] before[i], y) == 1 && fill::crossing(
                before[i],
                y,
            ) <= x;
        assert(edges[i] == before[i]);
    }
}

/// Where fewer crossings remain than have been made, one of those that remain
/// is on the way up.
proof fn lemma_some_way_up(edges: Seq<Edge>, x: int, y: int)
    requires
        fill::winding(edges, x, y) > fill::net(edges, y),
    ensures
        exists|i: int|
            0 <= i < edges.len() && fill::turn(#[trigger] edges[i], y) == -1 && fill::crossing(
                edges[i],
                y,
            ) > x,
    decreases edges.len(),
{
    let last = edges.len() - 1;
    if fill::turn(edges[last], y) == -1 && fill::crossing(edges[last], y) > x {
    } else {
        let before = edges.drop_last();
        lemma_some_way_up(before, x, y);
        let i = choose|i: int|
            0 <= i < before.len() && fill::turn(#[trigger] before[i], y) == -1 && fill::crossing(
                before[i],
                y,
            ) > x;
        assert(edges[i] == before[i]);
    }
}

/// A convex area goes round in one direction: nowhere is its winding number
/// positive, but for the one position of a scanline that both its sides cross
/// in, if they come that close.
pub proof fn law_convex_goes_one_way(edges: Seq<Edge>, x: int, y: int)
    requires
        convex(edges),
        fill::balanced(edges),
    ensures
        fill::winding(edges, x, y) <= 0 || pinched(edges, x, y),
{
    if fill::winding(edges, x, y) > 0 {
        assert(fill::net(edges, y) == 0);
        lemma_some_way_down(edges, x, y);
        lemma_some_way_up(edges, x, y);
        let i = choose|i: int|
            0 <= i < edges.len() && fill::turn(#[trigger] edges[i], y) == 1 && fill::crossing(
                edges[i],
                y,
            ) <= x;
        let j = choose|j: int|
            0 <= j < edges.len() && fill::turn(#[trigger] edges[j], y) == -1 && fill::crossing(
                edges[j],
                y,
            ) > x;
        assert forall|k: int|
            0 <= k < edges.len() && fill::turn(#[trigger] edges[k], y) != 0 implies x
            <= fill::crossing(edges[k], y) <= x + 1 by {
            lemma_pinched(edges[i], edges[j], edges[k], x, y);
        }
    }
}

/// A ratio that is at most another one is below what that one is below.
proof fn lemma_ratio_below(n: int, m: int, a: int, b: int, bound: int)
    requires
        n * b <= a * m,
        a < bound * b,
        b > 0,
        m > 0,
    ensures
        n < bound * m,
{
    assert(a * m < (bound * b) * m) by (nonlinear_arith)
        requires
            a < bound * b,
            m > 0,
    ;
    assert((bound * b) * m == (bound * m) * b) by (nonlinear_arith);
    assert(n < bound * m) by (nonlinear_arith)
        requires
            n * b < (bound * m) * b,
            b > 0,
    ;
}

proof fn lemma_pinched(down: Edge, up: Edge, e: Edge, x: int, y: int)
    requires
        fill::turn(down, y) == 1,
        fill::turn(up, y) == -1,
        fill::turn(e, y) != 0,
        fill::crossing(down, y) <= x,
        fill::crossing(up, y) > x,
        inward(down, e.x0 as int, e.y0 as int) >= 0,
        inward(down, e.x1 as int, e.y1 as int) >= 0,
        inward(up, e.x0 as int, e.y0 as int) >= 0,
        inward(up, e.x1 as int, e.y1 as int) >= 0,
    ensures
        x <= fill::crossing(e, y) <= x + 1,
{
    lemma_crossing_near(down, y);
    lemma_crossing_near(up, y);
    lemma_crossing_near(e, y);
    lemma_convex_order(down, e, y);
    lemma_convex_order(up, e, y);
    let (n, m) = (meeting(e, y), span(e));
    let (nd, md, cd) = (meeting(down, y), span(down), fill::crossing(down, y));
    let (nu, mu, cu) = (meeting(up, y), span(up), fill::crossing(up, y));
    let c = fill::crossing(e, y);
    assert(n < (x + 1) * m) by {
        assert((cd + 1) * md <= (x + 1) * md) by (nonlinear_arith)
            requires
                cd <= x,
                md > 0,
        ;
        lemma_ratio_below(n, m, nd, md, x + 1);
    }
    assert(n > x * m) by {
        assert((cu - 1) * mu >= x * mu) by (nonlinear_arith)
            requires
                cu >= x + 1,
                mu > 0,
        ;
        assert((-n) * mu == -(n * mu) && (-nu) * m == -(nu * m) && (-x) * mu == -(x * mu) && (-x)
            * m == -(x * m)) by (nonlinear_arith);
        lemma_ratio_below(-n, m, -nu, mu, -x);
    }
    assert(c - 1 < x + 1) by (nonlinear_arith)
        requires
            (c - 1) * m < n,
            n < (x + 1) * m,
            m > 0,
    ;
    assert(x < c + 1) by (nonlinear_arith)
        requires
            n < (c + 1) * m,
            x * m < n,
            m > 0,
    ;
}

/// What lies between the sides is inside: to the right of every crossing on the
/// way up, and to the left of every crossing on the way down.
pub proof fn law_between_the_sides_is_inside(edges: Seq<Edge>, x: int, y: int)
    requires
        fill::balanced(edges),
        exists|i: int| 0 <= i < edges.len() && fill::turn(#[trigger] edges[i], y) != 0,
        forall|i: int|
            0 <= i < edges.len() && fill::turn(#[trigger] edges[i], y) == -1 ==> fill::crossing(
                edges[i],
                y,
            ) <= x,
        forall|i: int|
            0 <= i < edges.len() && fill::turn(#[trigger] edges[i], y) == 1 ==> x < fill::crossing(
                edges[i],
                y,
            ),
    ensures
        fill::winding(edges, x, y) < 0,
{
    assert(fill::net(edges, y) == 0);
    lemma_ways_up_counted(edges, x, y);
}

/// With the ways up made and the ways down still to come, the winding number
/// counts the ways up.
proof fn lemma_ways_up_counted(edges: Seq<Edge>, x: int, y: int)
    requires
        forall|i: int|
            0 <= i < edges.len() && fill::turn(#[trigger] edges[i], y) == -1 ==> fill::crossing(
                edges[i],
                y,
            ) <= x,
        forall|i: int|
            0 <= i < edges.len() && fill::turn(#[trigger] edges[i], y) == 1 ==> x < fill::crossing(
                edges[i],
                y,
            ),
    ensures
        fill::winding(edges, x, y) <= 0,
        fill::winding(edges, x, y) <= fill::net(edges, y),
        (exists|i: int| 0 <= i < edges.len() && fill::turn(#[trigger] edges[i], y) != 0)
            ==> fill::winding(edges, x, y) < 0 || fill::winding(edges, x, y) < fill::net(edges, y),
    decreases edges.len(),
{
    if edges.len() > 0 {
        let before = edges.drop_last();
        let last = edges[edges.len() - 1];
        assert forall|i: int|
            0 <= i < before.len() && fill::turn(#[trigger] before[i], y) == -1 implies
            fill::crossing(before[i], y) <= x by {
            assert(before[i] == edges[i]);
        }
        assert forall|i: int|
            0 <= i < before.len() && fill::turn(#[trigger] before[i], y) == 1 implies x
            < fill::crossing(before[i], y) by {
            assert(before[i] == edges[i]);
        }
        lemma_ways_up_counted(before, x, y);
        if exists|i: int| 0 <= i < edges.len() && fill::turn(#[trigger] edges[i], y) != 0 {
            let i = choose|i: int| 0 <= i < edges.len() && fill::turn(#[trigger] edges[i], y) != 0;
            if i < before.len() {
                assert(before[i] == edges[i]);
            }
        }
    }
}

/// Overlapping convex pieces never cancel: away from the positions in which one
/// of them is pinched, what is inside one of them is inside them all together.
pub proof fn law_convex_pieces_never_cancel(
    contours: Seq<Seq<(i64, i64)>>,
    size: int,
    x: int,
    y: int,
)
    requires
        0 < size <= i32::MAX,
        forall|i: int, j: int|
            0 <= i < contours.len() && 0 <= j < contours[i].len() ==> edge::in_reach(
                #[trigger] contours[i][j],
            ),
        forall|i: int|
            0 <= i < contours.len() ==> convex(edge::contour_edges(#[trigger] contours[i], size)),
        forall|i: int|
            0 <= i < contours.len() ==> !pinched(
                edge::contour_edges(#[trigger] contours[i], size),
                x,
                y,
            ),
    ensures
        fill::winding(edge::all_edges(contours, size), x, y) != 0 <==> exists|i: int|
            0 <= i < contours.len() && fill::winding(
                edge::contour_edges(#[trigger] contours[i], size),
                x,
                y,
            ) != 0,
{
    assert forall|i: int| 0 <= i < contours.len() implies fill::winding(
        edge::contour_edges(#[trigger] contours[i], size),
        x,
        y,
    ) <= 0 by {
        render::lemma_contour_balanced(contours[i], size);
        law_convex_goes_one_way(edge::contour_edges(contours[i], size), x, y);
    }
    law_same_direction_never_cancels(contours, size, x, y);
}

/// Laying more over a picture in the same direction never makes a pixel of it
/// lighter.
pub proof fn law_more_never_lightens(a: Seq<Edge>, b: Seq<Edge>, row: int, column: int)
    requires
        forall|x: int, y: int| #[trigger] fill::winding(a, x, y) <= 0,
        forall|x: int, y: int| #[trigger] fill::winding(b, x, y) <= 0,
    ensures
        fill::pixel_alpha(a, row, column) <= fill::pixel_alpha(a + b, row, column),
{
    lemma_span_cover_grows(a, b, row, column, 0);
    lemma_span_cover_grows(a, b, row, column, 1);
    lemma_span_cover_grows(a, b, row, column, 2);
    lemma_span_cover_grows(a, b, row, column, 3);
    picture::law_alpha_is_a_share(a, row, column);
    picture::law_alpha_is_a_share(a + b, row, column);
    let (m, n) = (fill::pixel_cover(a, row, column), fill::pixel_cover(a + b, row, column));
    assert(FIXED * fill::SUB == 1024);
    assert(255 * m / 1024 <= 255 * n / 1024);
}

proof fn lemma_span_cover_grows(a: Seq<Edge>, b: Seq<Edge>, row: int, column: int, sub: int)
    requires
        forall|x: int, y: int| #[trigger] fill::winding(a, x, y) <= 0,
        forall|x: int, y: int| #[trigger] fill::winding(b, x, y) <= 0,
    ensures
        fill::span_cover(a, row, column, sub) <= fill::span_cover(a + b, row, column, sub),
{
    let y = fill::scanline(row, sub);
    let f = fill::inside(a, y);
    let g = fill::inside(a + b, y);
    assert forall|x: int| #[trigger] f(x) implies g(x) by {
        picture::law_windings_add(a, b, x, y);
        assert(fill::winding(a, x, y) <= 0 && fill::winding(b, x, y) <= 0);
    }
    lemma_count_grows(f, g, FIXED * column, FIXED * (column + 1));
}

proof fn lemma_count_grows(f: spec_fn(int) -> bool, g: spec_fn(int) -> bool, from: int, to: int)
    requires
        forall|x: int| #[trigger] f(x) ==> g(x),
    ensures
        fill::count(f, from, to) <= fill::count(g, from, to),
    decreases to - from,
{
    if from < to {
        lemma_count_grows(f, g, from, to - 1);
    }
}

} // verus!
