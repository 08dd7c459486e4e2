//! What a picture does and does not depend on.
use crate::coverage::Coverage;
use crate::edge;
use crate::edge::{Edge, FIXED};
use crate::fill;
use crate::fill::SUB;
use crate::path;
use crate::render;
use vstd::prelude::*;

verus! {

/// Winding numbers add up.
pub proof fn law_windings_add(a: Seq<Edge>, b: Seq<Edge>, x: int, y: int)
    ensures
        fill::winding(a + b, x, y) == fill::winding(a, x, y) + fill::winding(b, x, y),
    decreases b.len(),
{
    if b.len() == 0 {
        assert(a + b =~= a);
    } else {
        assert((a + b).drop_last() =~= a + b.drop_last());
        law_windings_add(a, b.drop_last(), x, y);
    }
}

/// The edges of two lists of contours, one after the other.
pub proof fn lemma_all_edges_concat(
    a: Seq<Seq<(i64, i64)>>,
    b: Seq<Seq<(i64, i64)>>,
    size: int,
)
    ensures
        edge::all_edges(a + b, size) == edge::all_edges(a, size) + edge::all_edges(b, size),
    decreases b.len(),
{
    if b.len() == 0 {
        assert(a + b =~= a);
        assert(edge::all_edges(a, size) + edge::all_edges(b, size) =~= edge::all_edges(a, size));
    } else {
        assert((a + b).drop_last() =~= a + b.drop_last());
        lemma_all_edges_concat(a, b.drop_last(), size);
        assert(edge::all_edges(a + b, size) =~= edge::all_edges(a, size) + edge::all_edges(
            b,
            size,
        ));
    }
}

/// The winding number that one figure alone gives a position.
#[verifier::opaque]
pub open spec fn figure_winding(figure: path::Figure, size: int, x: int, y: int) -> int {
    fill::winding(edge::all_edges(render::figure_polygons(figure), size), x, y)
}

/// The winding numbers of a list of figures, added up.
pub open spec fn figure_windings(figures: Seq<path::Figure>, size: int, x: int, y: int) -> int
    decreases figures.len(),
{
    if figures.len() == 0 {
        0
    } else {
        figure_windings(figures.drop_last(), size, x, y) + figure_winding(
            figures.last(),
            size,
            x,
            y,
        )
    }
}

/// A position is wound round as often as the figures together wind round it.
pub proof fn law_figures_add(figures: Seq<path::Figure>, size: int, x: int, y: int)
    ensures
        fill::winding(render::picture_edges(figures, size), x, y) == figure_windings(
            figures,
            size,
            x,
            y,
        ),
    decreases figures.len(),
{
    reveal(figure_winding);
    if figures.len() > 0 {
        let before = render::polygons(figures.drop_last());
        let last = render::figure_polygons(figures.last());
        law_figures_add(figures.drop_last(), size, x, y);
        lemma_all_edges_concat(before, last, size);
        law_windings_add(edge::all_edges(before, size), edge::all_edges(last, size), x, y);
    }
}

/// Only what is inside counts: two lists of edges with the same positions
/// inside give the same pixels.
pub proof fn law_only_insides_count(a: Seq<Edge>, b: Seq<Edge>, size: int)
    requires
        forall|x: int, y: int|
            (#[trigger] fill::winding(a, x, y) != 0) == (fill::winding(b, x, y) != 0),
    ensures
        fill::alphas(a, size) == fill::alphas(b, size),
{
    assert forall|row: int, column: int| #[trigger]
        fill::pixel_cover(a, row, column) == fill::pixel_cover(b, row, column) by {
        lemma_span_cover_same(a, b, row, column, 0);
        lemma_span_cover_same(a, b, row, column, 1);
        lemma_span_cover_same(a, b, row, column, 2);
        lemma_span_cover_same(a, b, row, column, 3);
    }
    assert(fill::alphas(a, size) =~= fill::alphas(b, size));
}

proof fn lemma_span_cover_same(a: Seq<Edge>, b: Seq<Edge>, row: int, column: int, sub: int)
    requires
        forall|x: int, y: int|
            (#[trigger] fill::winding(a, x, y) != 0) == (fill::winding(b, x, y) != 0),
    ensures
        fill::span_cover(a, row, column, sub) == fill::span_cover(b, row, column, sub),
{
    let y = fill::scanline(row, sub);
    let f = fill::inside(a, y);
    let g = fill::inside(b, y);
    assert forall|x: int| #[trigger] f(x) == g(x) by {
        assert((fill::winding(a, x, y) != 0) == (fill::winding(b, x, y) != 0));
    }
    fill::lemma_count_same(f, g, FIXED * column, FIXED * (column + 1));
}

/// Shapes can be drawn in any order: the same figures, each as often as
/// before, give the same picture.
pub proof fn law_order_does_not_matter(
    figures: Seq<path::Figure>,
    others: Seq<path::Figure>,
    size: int,
)
    requires
        figures.to_multiset() == others.to_multiset(),
    ensures
        render::picture(figures, size) == render::picture(others, size),
{
    let a = render::picture_edges(figures, size);
    let b = render::picture_edges(others, size);
    assert forall|x: int, y: int|
        (#[trigger] fill::winding(a, x, y) != 0) == (fill::winding(b, x, y) != 0) by {
        law_figures_add(figures, size, x, y);
        law_figures_add(others, size, x, y);
        lemma_windings_reordered(figures, others, size, x, y);
    }
    law_only_insides_count(a, b, size);
}

proof fn lemma_windings_reordered(
    figures: Seq<path::Figure>,
    others: Seq<path::Figure>,
    size: int,
    x: int,
    y: int,
)
    requires
        figures.to_multiset() == others.to_multiset(),
    ensures
        figure_windings(figures, size, x, y) == figure_windings(others, size, x, y),
    decreases figures.len(),
{
    broadcast use vstd::seq_lib::group_to_multiset_ensures;

    assert(figures.len() == figures.to_multiset().len());
    assert(others.len() == others.to_multiset().len());
    if figures.len() > 0 {
        let last = figures.last();
        assert(figures.to_multiset().count(last) > 0) by {
            assert(figures.contains(last));
        }
        assert(others.contains(last));
        let k = others.index_of(last);
        let rest = others.remove(k);
        assert(figures.drop_last() =~= figures.remove(figures.len() - 1));
        assert(figures.drop_last().to_multiset() == rest.to_multiset());
        lemma_windings_reordered(figures.drop_last(), rest, size, x, y);
        lemma_windings_without(others, k, size, x, y);
    }
}

proof fn lemma_windings_without(figures: Seq<path::Figure>, k: int, size: int, x: int, y: int)
    requires
        0 <= k < figures.len(),
    ensures
        figure_windings(figures, size, x, y) == figure_windings(figures.remove(k), size, x, y)
            + figure_winding(figures[k], size, x, y),
    decreases figures.len(),
{
    let rest = figures.remove(k);
    if k == figures.len() - 1 {
        assert(rest =~= figures.drop_last());
    } else {
        assert(rest.drop_last() =~= figures.drop_last().remove(k));
        assert(rest.last() == figures.last());
        lemma_windings_without(figures.drop_last(), k, size, x, y);
    }
}

/// Drawing everything twice is drawing it once.
pub proof fn law_twice_is_once(figures: Seq<path::Figure>, size: int)
    ensures
        render::picture(figures + figures, size) == render::picture(figures, size),
{
    let once = render::picture_edges(figures, size);
    let twice = render::picture_edges(figures + figures, size);
    lemma_polygons_concat(figures, figures);
    lemma_all_edges_concat(render::polygons(figures), render::polygons(figures), size);
    assert forall|x: int, y: int|
        (#[trigger] fill::winding(twice, x, y) != 0) == (fill::winding(once, x, y) != 0) by {
        law_windings_add(once, once, x, y);
    }
    law_only_insides_count(twice, once, size);
}

proof fn lemma_concat_again<A>(a: Seq<A>, b: Seq<A>, c: Seq<A>)
    ensures
        (a + b) + c == a + (b + c),
{
    assert((a + b) + c =~= a + (b + c));
}

pub proof fn lemma_polygons_concat(a: Seq<path::Figure>, b: Seq<path::Figure>)
    ensures
        render::polygons(a + b) == render::polygons(a) + render::polygons(b),
    decreases b.len(),
{
    if b.len() == 0 {
        assert(a + b =~= a);
        assert(render::polygons(a) + render::polygons(b) =~= render::polygons(a));
    } else {
        assert((a + b).drop_last() =~= a + b.drop_last());
        lemma_polygons_concat(a, b.drop_last());
        lemma_concat_again(
            render::polygons(a),
            render::polygons(b.drop_last()),
            render::figure_polygons(b[b.len() - 1]),
        );
    }
}

/// A picture has a value for every pixel of its box, and none without a box.
pub proof fn law_one_value_per_pixel(figures: Seq<path::Figure>, size: int)
    ensures
        size <= 0 ==> render::picture(figures, size).len() == 0,
        size > 0 ==> render::picture(figures, size).len() == size * size,
{
    assert(size > 0 ==> size * size >= 0) by (nonlinear_arith);
}

/// A pixel has 1024 positions, and its alpha is 255 exactly where all of them
/// are inside. Nothing has to be cut off.
pub proof fn law_alpha_is_a_share(edges: Seq<Edge>, row: int, column: int)
    ensures
        0 <= fill::pixel_cover(edges, row, column) <= FIXED * SUB,
        0 <= 255 * fill::pixel_cover(edges, row, column) / (FIXED * SUB) <= 255,
        fill::pixel_alpha(edges, row, column) == 255 <==> fill::pixel_cover(edges, row, column)
            == FIXED * SUB,
        fill::pixel_cover(edges, row, column) == 0 ==> fill::pixel_alpha(edges, row, column) == 0,
{
    lemma_span_cover_bounds(edges, row, column, 0);
    lemma_span_cover_bounds(edges, row, column, 1);
    lemma_span_cover_bounds(edges, row, column, 2);
    lemma_span_cover_bounds(edges, row, column, 3);
}

proof fn lemma_span_cover_bounds(edges: Seq<Edge>, row: int, column: int, sub: int)
    ensures
        0 <= fill::span_cover(edges, row, column, sub) <= FIXED,
{
    fill::lemma_count_bounds(
        fill::inside(edges, fill::scanline(row, sub)),
        FIXED * column,
        FIXED * (column + 1),
    );
}

/// Where nothing is drawn, nothing is seen.
pub proof fn law_nothing_drawn_nothing_seen(size: int, i: int)
    requires
        0 <= i < render::picture(Seq::empty(), size).len(),
    ensures
        render::picture(Seq::empty(), size)[i] == 0,
{
    let edges = render::picture_edges(Seq::empty(), size);
    assert(edges.len() == 0);
    assert forall|row: int, column: int, sub: int| #[trigger]
        fill::span_cover(edges, row, column, sub) == 0 by {
        fill::lemma_count_none(
            fill::inside(edges, fill::scanline(row, sub)),
            FIXED * column,
            FIXED * (column + 1),
        );
    }
}

/// A pixel of a rendered picture is read by its column and its row, and shows
/// the share of it that is inside; beyond the box there is nothing to read.
pub proof fn law_pixels_are_read_by_column_and_row(
    coverage: Coverage,
    figures: Seq<path::Figure>,
    size: int,
    x: int,
    y: int,
)
    requires
        0 < size,
        coverage.size == size,
        coverage.alpha@ == render::picture(figures, size),
    ensures
        coverage.alpha_at(x, y) == if 0 <= x < size && 0 <= y < size {
            fill::pixel_alpha(render::picture_edges(figures, size), y, x)
        } else {
            0
        },
{
    if 0 <= x < size && 0 <= y < size {
        fill::lemma_row_column(size, y, x);
        assert(0 <= y * size + x < size * size) by (nonlinear_arith)
            requires
                0 <= x < size,
                0 <= y < size,
        ;
    }
}

/// A span can be split anywhere, in a pixel or between two, in the row or
/// outside it: both parts together cover what the whole does.
pub proof fn law_a_span_can_be_split(from: int, middle: int, to: int, pixel: int)
    requires
        from <= middle <= to,
    ensures
        fill::span_in_pixel(from, middle, pixel) + fill::span_in_pixel(middle, to, pixel)
            == fill::span_in_pixel(from, to, pixel),
{
}

/// A span covers the part of a pixel that both have in common: never less than
/// nothing, never more than the pixel, and nothing of a pixel beside it.
pub proof fn law_a_span_covers_what_it_shares(from: int, to: int, pixel: int)
    ensures
        0 <= fill::span_in_pixel(from, to, pixel) <= FIXED,
        to <= from || to <= FIXED * pixel || FIXED * (pixel + 1) <= from ==> fill::span_in_pixel(
            from,
            to,
            pixel,
        ) == 0,
        from <= FIXED * pixel && FIXED * (pixel + 1) <= to ==> fill::span_in_pixel(from, to, pixel)
            == FIXED,
        256 * pixel <= from <= to <= 256 * (pixel + 1) ==> fill::span_in_pixel(from, to, pixel)
            == to - from,
{
}

} // verus!
