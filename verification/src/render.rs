//! From shapes to pixels.
use crate::coverage::Coverage;
use crate::edge;
use crate::edge::Edge;
use crate::fill;
use crate::flatten;
use crate::path;
use crate::path::{Path, Shape};
use crate::stroke;
use vstd::prelude::*;

verus! {

/// A contour of an outline, with room for a stroke.
pub open spec fn widened(points: Seq<(i32, i32)>) -> Seq<(i64, i64)> {
    points.map_values(|p: (i32, i32)| (p.0 as i64, p.1 as i64))
}

/// The polygons that cover the strokes of a list of contours.
pub open spec fn all_strokes(contours: Seq<Seq<(i32, i32)>>, width: int) -> Seq<Seq<(i64, i64)>>
    decreases contours.len(),
{
    if contours.len() == 0 {
        Seq::empty()
    } else {
        all_strokes(contours.drop_last(), width) + stroke::stroke_polygons(contours.last(), width)
    }
}

/// The polygons to be filled for one figure.
pub open spec fn figure_polygons(figure: path::Figure) -> Seq<Seq<(i64, i64)>> {
    match figure {
        path::Figure::Fill(commands) => flatten::contours(commands).map_values(
            |points: Seq<(i32, i32)>| widened(points),
        ),
        path::Figure::Stroke(commands, width) => all_strokes(
            flatten::contours(commands),
            width as int,
        ),
    }
}

/// The polygons to be filled for a list of figures.
pub open spec fn polygons(figures: Seq<path::Figure>) -> Seq<Seq<(i64, i64)>>
    decreases figures.len(),
{
    if figures.len() == 0 {
        Seq::empty()
    } else {
        polygons(figures.drop_last()) + figure_polygons(figures.last())
    }
}

/// The edges of a picture drawn in a box of `size`.
pub open spec fn picture_edges(figures: Seq<path::Figure>, size: int) -> Seq<Edge> {
    edge::all_edges(polygons(figures), size)
}

/// The alpha values of a picture drawn in a box of `size`: none at all in a
/// box without room.
pub open spec fn picture(figures: Seq<path::Figure>, size: int) -> Seq<u8> {
    if size <= 0 {
        Seq::empty()
    } else {
        fill::alphas(picture_edges(figures, size), size)
    }
}

/// Whether a point is below a scanline, as a number.
pub open spec fn below(p: (i64, i64), size: int, y: int) -> int {
    if edge::scaled(p.1 as int, size) > y {
        1
    } else {
        0
    }
}

/// Along a contour, the crossings add up to the change from start to end.
proof fn lemma_net_of_sides(points: Seq<(i64, i64)>, size: int, y: int)
    requires
        0 < size <= i32::MAX,
        1 <= points.len(),
        forall|i: int| 0 <= i < points.len() ==> edge::in_reach(#[trigger] points[i]),
    ensures
        fill::net(edge::sides(points, size), y) == below(points.last(), size, y) - below(
            points.first(),
            size,
            y,
        ),
    decreases points.len(),
{
    if points.len() >= 2 {
        let shorter = points.drop_last();
        let p = points[points.len() - 2];
        let q = points.last();
        lemma_net_of_sides(shorter, size, y);
        assert(shorter.last() == p);
        assert(edge::in_reach(p) && edge::in_reach(q));
        edge::lemma_scaled_in_reach(p.1 as int, size);
        edge::lemma_scaled_in_reach(q.1 as int, size);
        if p.1 != q.1 {
            let before = edge::sides(shorter, size);
            let e = edge::edge_between(p, q, size);
            assert(before.push(e).drop_last() =~= before);
        }
    }
}

/// The edges of a contour leave what they enter.
pub proof fn lemma_contour_balanced(points: Seq<(i64, i64)>, size: int)
    requires
        0 < size <= i32::MAX,
        forall|i: int| 0 <= i < points.len() ==> edge::in_reach(#[trigger] points[i]),
    ensures
        fill::balanced(edge::contour_edges(points, size)),
{
    if points.len() >= 2 {
        let ring = edge::oriented(points);
        assert(ring.first() == ring.last());
        assert forall|i: int| 0 <= i < ring.len() implies edge::in_reach(#[trigger] ring[i]) by {
            let round = edge::closed(points);
            assert forall|j: int| 0 <= j < round.len() implies edge::in_reach(
                #[trigger] round[j],
            ) by {}
        }
        assert forall|y: int| #[trigger] fill::net(edge::contour_edges(points, size), y) == 0 by {
            lemma_net_of_sides(ring, size, y);
        }
    }
}

/// The crossings of two lists of edges add up.
pub proof fn lemma_net_concat(a: Seq<Edge>, b: Seq<Edge>, y: int)
    ensures
        fill::net(a + b, y) == fill::net(a, y) + fill::net(b, y),
    decreases b.len(),
{
    if b.len() == 0 {
        assert(a + b =~= a);
    } else {
        assert((a + b).drop_last() =~= a + b.drop_last());
        lemma_net_concat(a, b.drop_last(), y);
    }
}

/// Adds a drawable polygon to the edges of a picture.
fn push_polygon(
    edges: &mut Vec<Edge>,
    points: &[(i64, i64)],
    size: i32,
    Ghost(before): Ghost<Seq<Seq<(i64, i64)>>>,
)
    requires
        0 < size,
        edge::drawable(points@),
        old(edges)@ == edge::all_edges(before, size as int),
        edges_ready(old(edges)@),
    ensures
        final(edges)@ == edge::all_edges(before.push(points@), size as int),
        edges_ready(final(edges)@),
{
    let ghost start = edges@;
    edge::push_contour(edges, points, size);
    proof {
        let added = edge::contour_edges(points@, size as int);
        assert(before.push(points@).drop_last() =~= before);
        lemma_contour_balanced(points@, size as int);
        assert forall|y: int| #[trigger] fill::net(edges@, y) == 0 by {
            lemma_net_concat(start, added, y);
            assert(fill::net(start, y) == 0);
            assert(fill::net(added, y) == 0);
        }
        lemma_contour_edges_in_reach(points@, size as int);
    }
}

/// Edges that can be filled.
spec fn edges_ready(edges: Seq<Edge>) -> bool {
    &&& fill::balanced(edges)
    &&& forall|i: int| 0 <= i < edges.len() ==> edge::edge_in_reach(#[trigger] edges[i])
}

proof fn lemma_contour_edges_in_reach(points: Seq<(i64, i64)>, size: int)
    requires
        0 < size <= i32::MAX,
        edge::drawable(points),
    ensures
        forall|i: int|
            0 <= i < edge::contour_edges(points, size).len() ==> edge::edge_in_reach(
                #[trigger] edge::contour_edges(points, size)[i],
            ),
{
    if points.len() >= 2 {
        let round = edge::closed(points);
        assert forall|j: int| 0 <= j < round.len() implies edge::in_reach(#[trigger] round[j]) by {}
        lemma_sides_in_reach(edge::oriented(points), size);
    }
}

proof fn lemma_sides_in_reach(points: Seq<(i64, i64)>, size: int)
    requires
        0 < size <= i32::MAX,
        forall|i: int| 0 <= i < points.len() ==> edge::in_reach(#[trigger] points[i]),
    ensures
        forall|i: int|
            0 <= i < edge::sides(points, size).len() ==> edge::edge_in_reach(
                #[trigger] edge::sides(points, size)[i],
            ),
    decreases points.len(),
{
    if points.len() >= 2 {
        let p = points[points.len() - 2];
        let q = points.last();
        lemma_sides_in_reach(points.drop_last(), size);
        assert(edge::in_reach(p) && edge::in_reach(q));
        edge::lemma_scaled_in_reach(p.0 as int, size);
        edge::lemma_scaled_in_reach(p.1 as int, size);
        edge::lemma_scaled_in_reach(q.0 as int, size);
        edge::lemma_scaled_in_reach(q.1 as int, size);
        let before = edge::sides(points.drop_last(), size);
        let all = edge::sides(points, size);
        assert forall|i: int| 0 <= i < all.len() implies edge::edge_in_reach(#[trigger] all[i]) by {
            if i < before.len() {
                assert(all[i] == before[i]);
            }
        }
    }
}

/// Rasterises `shapes` into a `size` by `size` coverage map.
///
/// Returns an empty map for a non-positive size rather than panicking: a
/// layout can legitimately produce a zero-height row, and an icon is not the
/// place to discover it.
#[must_use]
pub fn render(shapes: &[Shape], size: i32) -> (coverage: Coverage)
    requires
        0 < size ==> size * size <= usize::MAX,
    ensures
        coverage.size == if size <= 0 {
            0
        } else {
            size
        },
        coverage.alpha@ == picture(path::figures(shapes@), size as int),
{
    if size <= 0 {
        return Coverage { size: 0, alpha: Vec::new() };
    }
    let total: usize = shapes.len();
    let mut edges: Vec<Edge> = Vec::new();
    let ghost all = path::figures(shapes@);
    proof {
        assert(all.take(0) =~= Seq::<path::Figure>::empty());
        assert(polygons(all.take(0)) =~= Seq::<Seq<(i64, i64)>>::empty());
        assert forall|y: int| #[trigger] fill::net(edges@, y) == 0 by {}
    }
    for k in 0..total
        invariant
            0 < size,
            total == shapes@.len(),
            all == path::figures(shapes@),
            edges@ == edge::all_edges(polygons(all.take(k as int)), size as int),
            edges_ready(edges@),
    {
        let ghost before = polygons(all.take(k as int));
        proof {
            assert(all.take(k + 1).drop_last() =~= all.take(k as int));
            assert(all.take(k + 1).last() == shapes@[k as int]@);
        }
        match &shapes[k] {
            Shape::Fill(path) => {
                push_fill(&mut edges, path, size, Ghost(before));
            },
            Shape::Stroke { path, width } => {
                push_stroke(&mut edges, path, *width, size, Ghost(before));
            },
        }
    }
    assert(all.take(total as int) =~= all);
    assert(fill::settled(edges@, size as int));
    fill::fill(&edges, size)
}

/// Adds the polygons of a filled outline.
fn push_fill(
    edges: &mut Vec<Edge>,
    path: &Path,
    size: i32,
    Ghost(before): Ghost<Seq<Seq<(i64, i64)>>>,
)
    requires
        0 < size,
        old(edges)@ == edge::all_edges(before, size as int),
        edges_ready(old(edges)@),
    ensures
        final(edges)@ == edge::all_edges(
            before + figure_polygons(path::Figure::Fill(path@)),
            size as int,
        ),
        edges_ready(final(edges)@),
{
    let contours: Vec<Vec<(i32, i32)>> = flatten::flatten(path);
    let total: usize = contours.len();
    let ghost all = figure_polygons(path::Figure::Fill(path@));
    assert(before + all.take(0) =~= before);
    for i in 0..total
        invariant
            0 < size,
            total == contours@.len(),
            total == all.len(),
            flatten::contents(contours@) == flatten::contours(path@),
            all == figure_polygons(path::Figure::Fill(path@)),
            edges@ == edge::all_edges(before + all.take(i as int), size as int),
            edges_ready(edges@),
    {
        let points: Vec<(i64, i64)> = widen(&contours[i]);
        proof {
            assert(flatten::contents(contours@)[i as int] == contours@[i as int]@);
            assert(points@ == all[i as int]);
            assert((before + all.take(i as int)).push(points@) =~= before + all.take(i + 1));
        }
        push_polygon(edges, points.as_slice(), size, Ghost(before + all.take(i as int)));
    }
    assert(all.take(total as int) =~= all);
}

/// Makes room for a stroke.
fn widen(points: &Vec<(i32, i32)>) -> (r: Vec<(i64, i64)>)
    ensures
        r@ == widened(points@),
        edge::drawable(r@),
{
    let total: usize = points.len();
    let mut r: Vec<(i64, i64)> = Vec::new();
    for i in 0..total
        invariant
            total == points@.len(),
            r@ == widened(points@).take(i as int),
    {
        r.push((points[i].0 as i64, points[i].1 as i64));
        assert(r@ =~= widened(points@).take(i + 1));
    }
    assert(r@ =~= widened(points@));
    r
}

/// Adds the polygons of a stroked outline.
fn push_stroke(
    edges: &mut Vec<Edge>,
    path: &Path,
    width: i32,
    size: i32,
    Ghost(before): Ghost<Seq<Seq<(i64, i64)>>>,
)
    requires
        0 < size,
        old(edges)@ == edge::all_edges(before, size as int),
        edges_ready(old(edges)@),
    ensures
        final(edges)@ == edge::all_edges(
            before + figure_polygons(path::Figure::Stroke(path@, width)),
            size as int,
        ),
        edges_ready(final(edges)@),
{
    let contours: Vec<Vec<(i32, i32)>> = flatten::flatten(path);
    let total: usize = contours.len();
    let ghost all = flatten::contours(path@);
    assert(before + all_strokes(all.take(0), width as int) =~= before);
    for i in 0..total
        invariant
            0 < size,
            total == contours@.len(),
            flatten::contents(contours@) == all,
            edges@ == edge::all_edges(
                before + all_strokes(all.take(i as int), width as int),
                size as int,
            ),
            edges_ready(edges@),
    {
        let pieces: Vec<Vec<(i64, i64)>> = stroke::outline(contours[i].as_slice(), width);
        let count: usize = pieces.len();
        let ghost start = before + all_strokes(all.take(i as int), width as int);
        let ghost polygons = stroke::stroke_polygons(all[i as int], width as int);
        proof {
            assert(flatten::contents(contours@)[i as int] == contours@[i as int]@);
            assert(start + polygons.take(0) =~= start);
            assert(flatten::contents(pieces@).len() == count);
        }
        for j in 0..count
            invariant
                0 < size,
                count == pieces@.len(),
                count == polygons.len(),
                flatten::contents(pieces@) == polygons,
                forall|k: int|
                    0 <= k < pieces@.len() ==> edge::drawable((#[trigger] pieces@[k])@),
                edges@ == edge::all_edges(start + polygons.take(j as int), size as int),
                edges_ready(edges@),
        {
            proof {
                assert(flatten::contents(pieces@)[j as int] == pieces@[j as int]@);
                assert((start + polygons.take(j as int)).push(pieces@[j as int]@) =~= start
                    + polygons.take(j + 1));
            }
            push_polygon(
                edges,
                pieces[j].as_slice(),
                size,
                Ghost(start + polygons.take(j as int)),
            );
        }
        proof {
            assert(polygons.take(count as int) =~= polygons);
            assert(all.take(i + 1).drop_last() =~= all.take(i as int));
            assert(start + polygons =~= before + all_strokes(all.take(i + 1), width as int));
        }
    }
    assert(all.take(total as int) =~= all);
}

} // verus!
