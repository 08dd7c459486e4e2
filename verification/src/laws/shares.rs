//! A pixel shows how much of it is inside.
use crate::coverage::Coverage;
use crate::edge::Edge;
use crate::fill;
use crate::laws::picture;
use crate::path;
use crate::render;
use vstd::prelude::*;

verus! {

/// The positions of a pixel that are inside: of 256 on each of the four lines
/// through the middle of a quarter of the row, those that are wound round.
pub open spec fn positions_inside(edges: Seq<Edge>, row: int, column: int) -> Set<(int, int)> {
    Set::new(
        |p: (int, int)|
            {
                &&& 256 * column <= p.0 < 256 * column + 256
                &&& 256 * row <= p.1 < 256 * row + 256
                &&& (p.1 - 256 * row - 32) % 64 == 0
                &&& fill::winding(edges, p.0, p.1) != 0
            },
    )
}

/// The positions of one line between two columns that are inside.
spec fn on_line(edges: Seq<Edge>, y: int, from: int, to: int) -> Set<(int, int)> {
    Set::new(|p: (int, int)| p.1 == y && from <= p.0 < to && fill::winding(edges, p.0, y) != 0)
}

proof fn lemma_on_line(edges: Seq<Edge>, y: int, from: int, to: int)
    requires
        from <= to,
    ensures
        on_line(edges, y, from, to).finite(),
        on_line(edges, y, from, to).len() == fill::count(fill::inside(edges, y), from, to),
    decreases to - from,
{
    let all = on_line(edges, y, from, to);
    if from == to {
        assert(all =~= Set::<(int, int)>::empty());
    } else {
        let before = on_line(edges, y, from, to - 1);
        lemma_on_line(edges, y, from, to - 1);
        if fill::winding(edges, to - 1, y) != 0 {
            assert(all =~= before.insert((to - 1, y)));
        } else {
            assert(all =~= before);
        }
    }
}

/// The cover of a pixel is how many of its positions are inside.
proof fn lemma_cover(edges: Seq<Edge>, row: int, column: int)
    ensures
        positions_inside(edges, row, column).finite(),
        positions_inside(edges, row, column).len() == fill::pixel_cover(edges, row, column),
{
    let (from, to) = (256 * column, 256 * column + 256);
    let y = 256 * row + 32;
    lemma_on_line(edges, y, from, to);
    lemma_on_line(edges, y + 64, from, to);
    lemma_on_line(edges, y + 128, from, to);
    lemma_on_line(edges, y + 192, from, to);
    let a = on_line(edges, y, from, to);
    let b = on_line(edges, y + 64, from, to);
    let c = on_line(edges, y + 128, from, to);
    let d = on_line(edges, y + 192, from, to);
    vstd::set_lib::lemma_set_disjoint_lens(a, b);
    vstd::set_lib::lemma_set_disjoint_lens(a + b, c);
    vstd::set_lib::lemma_set_disjoint_lens(a + b + c, d);
    assert(positions_inside(edges, row, column) =~= a + b + c + d);
    assert(fill::scanline(row, 0) == y && fill::scanline(row, 1) == y + 64);
    assert(fill::scanline(row, 2) == y + 128 && fill::scanline(row, 3) == y + 192);
}

/// The alpha of a pixel is the covered share of 255, rounded down, wherever the
/// pixel lies: of its 1024 positions, as many are inside as it takes.
pub proof fn law_alpha_is_the_covered_share(edges: Seq<Edge>, size: int, row: int, column: int)
    requires
        0 <= row < size,
        0 <= column < size,
    ensures
        fill::alphas(edges, size).len() == size * size,
        ({
            let alpha = fill::alphas(edges, size)[row * size + column] as int;
            let cover = positions_inside(edges, row, column).len();
            1024 * alpha <= 255 * cover < 1024 * (alpha + 1)
        }),
{
    lemma_cover(edges, row, column);
    picture::law_alpha_is_a_share(edges, row, column);
    fill::lemma_row_column(size, row, column);
    assert(0 <= row * size + column < size * size) by (nonlinear_arith)
        requires
            0 <= row < size,
            0 <= column < size,
    ;
    let cover = fill::pixel_cover(edges, row, column);
    let alpha = fill::alphas(edges, size)[row * size + column] as int;
    let full = 255 * cover;
    assert(alpha == full / 1024);
    vstd::arithmetic::div_mod::lemma_fundamental_div_mod(full, 1024);
    vstd::arithmetic::div_mod::lemma_mod_bound(full, 1024);
    assert(1024 * alpha <= full < 1024 * alpha + 1024);
    assert(positions_inside(edges, row, column).len() == cover);
}

/// A pixel of a picture shows how much of it is inside, at every size and every
/// place: what is read there is the covered share of 255, rounded down. Beyond
/// the box nothing is read.
pub proof fn law_pictures_show_the_covered_share(
    coverage: Coverage,
    figures: Seq<path::Figure>,
    size: int,
    x: int,
    y: int,
)
    requires
        0 < size,
        coverage.size == size,
        coverage.alpha@ == render::picture(figures, size),
    ensures
        0 <= x < size && 0 <= y < size ==> {
            let alpha = coverage.alpha_at(x, y) as int;
            let cover = positions_inside(render::picture_edges(figures, size), y, x).len();
            1024 * alpha <= 255 * cover < 1024 * (alpha + 1)
        },
        !(0 <= x < size && 0 <= y < size) ==> coverage.alpha_at(x, y) == 0,
{
    if 0 <= x < size && 0 <= y < size {
        law_alpha_is_the_covered_share(render::picture_edges(figures, size), size, y, x);
        assert(0 <= y * size + x < size * size) by (nonlinear_arith)
            requires
                0 <= x < size,
                0 <= y < size,
        ;
    }
}

/// Two pixels with as many positions inside show the same, in one picture or in
/// two, at any row and column of each.
pub proof fn law_equal_cover_shows_the_same(
    edges: Seq<Edge>,
    size: int,
    row: int,
    column: int,
    others: Seq<Edge>,
    extent: int,
    other_row: int,
    other_column: int,
)
    requires
        0 <= row < size,
        0 <= column < size,
        0 <= other_row < extent,
        0 <= other_column < extent,
        positions_inside(edges, row, column).len() == positions_inside(
            others,
            other_row,
            other_column,
        ).len(),
    ensures
        fill::alphas(edges, size)[row * size + column] == fill::alphas(others, extent)[other_row
            * extent + other_column],
{
    law_alpha_is_the_covered_share(edges, size, row, column);
    law_alpha_is_the_covered_share(others, extent, other_row, other_column);
}

/// Whether a position is at or to the right of where an edge crosses its line. The
/// crossing is rounded toward the start of the edge.
pub open spec fn right_of(e: Edge, x: int, y: int) -> bool {
    let n = if e.y0 < e.y1 {
        (e.x1 - e.x0) * (y - e.y0)
    } else {
        (e.x1 - e.x0) * (e.y0 - y)
    };
    let height = if e.y0 < e.y1 {
        e.y1 - e.y0
    } else {
        e.y0 - e.y1
    };
    if n < 0 {
        n <= (x - e.x0) * height
    } else {
        n < (x - e.x0 + 1) * height
    }
}

/// An edge winds round the positions to its right, between its upper end and its
/// lower one: once one way on its way down, once the other way on its way up. No
/// edge winds round nothing.
pub proof fn law_an_edge_winds_round_what_is_right_of_it(e: Edge, x: int, y: int)
    ensures
        fill::winding(Seq::empty(), x, y) == 0,
        e.y0 <= y < e.y1 && right_of(e, x, y) ==> fill::winding(seq![e], x, y) == 1,
        e.y1 <= y < e.y0 && right_of(e, x, y) ==> fill::winding(seq![e], x, y) == -1,
        !(e.y0 <= y < e.y1 || e.y1 <= y < e.y0) || !right_of(e, x, y) ==> fill::winding(
            seq![e],
            x,
            y,
        ) == 0,
{
    assert(seq![e].drop_last() =~= Seq::<Edge>::empty());
    reveal_with_fuel(fill::winding, 2);
    if e.y0 <= y < e.y1 || e.y1 <= y < e.y0 {
        let t = (e.x1 - e.x0) * (y - e.y0);
        let (d, q) = (e.y1 - e.y0, x - e.x0);
        let (n, m) = if d > 0 {
            (t, d)
        } else {
            (-t, -d)
        };
        assert((e.x1 - e.x0) * (e.y0 - y) == -t) by (nonlinear_arith)
            requires
                t == (e.x1 - e.x0) * (y - e.y0),
        ;
        lemma_quotient_at_most(t, d, n, m, q);
    }
}

/// When a number is at least a quotient that is rounded toward zero.
proof fn lemma_quotient_at_most(t: int, d: int, n: int, m: int, q: int)
    requires
        d != 0,
        d > 0 ==> n == t && m == d,
        d < 0 ==> n == -t && m == -d,
    ensures
        crate::edge::quotient(t, d) <= q <==> if n < 0 {
            n <= q * m
        } else {
            n < (q + 1) * m
        },
{
    let size = crate::edge::magnitude(t) / m;
    vstd::arithmetic::div_mod::lemma_fundamental_div_mod(crate::edge::magnitude(t), m);
    vstd::arithmetic::div_mod::lemma_mod_bound(crate::edge::magnitude(t), m);
    vstd::arithmetic::div_mod::lemma_div_pos_is_pos(crate::edge::magnitude(t), m);
    assert(m * size <= crate::edge::magnitude(t) < m * size + m);
    if n < 0 {
        assert(-size <= q <==> n <= q * m) by (nonlinear_arith)
            requires
                m * size <= -n < m * size + m,
                0 < m,
        ;
    } else {
        assert(size <= q <==> n < (q + 1) * m) by (nonlinear_arith)
            requires
                m * size <= n < m * size + m,
                0 < m,
        ;
        if n == 0 {
            assert(size == 0) by (nonlinear_arith)
                requires
                    m * size <= 0 < m * size + m,
                    0 < m,
            ;
        }
    }
}

/// A pixel is read from the values row by row, each as long as the box is wide; and
/// nothing is read beyond the box or where the values run out.
pub proof fn law_values_are_read_row_by_row(coverage: Coverage, x: int, y: int)
    ensures
        0 <= x < coverage.size && 0 <= y < coverage.size && y * coverage.size + x
            < coverage.alpha@.len() ==> coverage.alpha_at(x, y) == coverage.alpha@[y
            * coverage.size + x],
        x < 0 || y < 0 || coverage.size <= x || coverage.size <= y || coverage.alpha@.len() <= y
            * coverage.size + x ==> coverage.alpha_at(x, y) == 0,
{
}

} // verus!
