//! How figures become edges.
use crate::edge;
use crate::flatten;
use crate::line_art;
use crate::path;
use crate::path::Cmd;
use crate::piece_art;
use crate::render;
use crate::stroke;
use vstd::prelude::*;

verus! {

/// A coordinate is scaled to the box, in 256 steps to a pixel, and rounded toward
/// zero: it is less than a step off, on the near side.
pub proof fn law_coordinates_are_scaled_to_the_box(value: int, size: int)
    requires
        0 < size,
    ensures
        ({
            let exact = 256 * (size * value);
            let steps = 1000 * edge::scaled(value, size);
            &&& 0 <= value ==> steps <= exact < steps + 1000
            &&& value <= 0 ==> steps - 1000 < exact <= steps
        }),
{
    let n = value * size * 256;
    assert(n == 256 * (size * value)) by (nonlinear_arith)
        requires
            n == value * size * 256,
    ;
    assert(0 <= value ==> 0 <= n) by (nonlinear_arith)
        requires
            n == value * size * 256,
            0 < size,
    ;
    assert(value <= 0 ==> n <= 0) by (nonlinear_arith)
        requires
            n == value * size * 256,
            0 < size,
    ;
    assert(edge::magnitude(path::UNITS as int) == 1000);
}

/// With one more point, a contour has one more side. Unless the side is level, it
/// has an edge, from one scaled end to the other.
pub proof fn law_every_side_has_its_edge(points: Seq<(i64, i64)>, q: (i64, i64), size: int)
    requires
        1 <= points.len(),
        0 < size <= i32::MAX,
        edge::in_reach(points.last()),
        edge::in_reach(q),
    ensures
        ({
            let before = edge::sides(points, size);
            let after = edge::sides(points.push(q), size);
            let p = points.last();
            &&& p.1 == q.1 ==> after == before
            &&& p.1 != q.1 ==> after.len() == before.len() + 1 && after.drop_last() == before && {
                let e = after.last();
                &&& e.x0 == edge::scaled(p.0 as int, size)
                &&& e.y0 == edge::scaled(p.1 as int, size)
                &&& e.x1 == edge::scaled(q.0 as int, size)
                &&& e.y1 == edge::scaled(q.1 as int, size)
            }
        }),
        edge::sides(seq![q], size).len() == 0,
{
    let p = points.last();
    let longer = points.push(q);
    assert(longer.drop_last() =~= points);
    assert(longer[longer.len() - 2] == p);
    edge::lemma_scaled_in_reach(p.0 as int, size);
    edge::lemma_scaled_in_reach(p.1 as int, size);
    edge::lemma_scaled_in_reach(q.0 as int, size);
    edge::lemma_scaled_in_reach(q.1 as int, size);
    let before = edge::sides(points, size);
    assert(before.push(edge::edge_between(p, q, size)).drop_last() =~= before);
}

/// The area inside a contour adds up side by side, each as the cross product of its
/// ends; a single point has none.
pub proof fn law_areas_add_up_side_by_side(points: Seq<(i64, i64)>, q: (i64, i64))
    requires
        1 <= points.len(),
    ensures
        ({
            let p = points.last();
            edge::double_area(points.push(q)) == edge::double_area(points) + (p.0 * q.1 - q.0 * p.1)
        }),
        edge::double_area(seq![q]) == 0,
{
    let longer = points.push(q);
    assert(longer.drop_last() =~= points);
    assert(longer[longer.len() - 2] == points.last());
}

/// A contour of two points or more is drawn as a ring: all its points in their
/// order, and the first one again if it does not end there, or all of that
/// backward. The ring encloses no negative area. What has no side has no edge.
pub proof fn law_contours_are_drawn_as_rings(points: Seq<(i64, i64)>, size: int)
    ensures
        points.len() < 2 ==> edge::contour_edges(points, size).len() == 0,
        2 <= points.len() ==> {
            let ring = if points[0] == points[points.len() - 1] {
                points
            } else {
                points.push(points[0])
            };
            let area = edge::double_area(ring);
            &&& 0 <= area ==> edge::contour_edges(points, size) == edge::sides(ring, size)
            &&& area < 0 ==> edge::contour_edges(points, size) == edge::sides(ring.reverse(), size)
        },
{
}

/// The edges of a list of contours are those of each, one contour after the other.
pub proof fn law_contours_add_their_edges(
    contours: Seq<Seq<(i64, i64)>>,
    points: Seq<(i64, i64)>,
    size: int,
)
    ensures
        edge::all_edges(Seq::empty(), size).len() == 0,
        edge::all_edges(contours.push(points), size) == edge::all_edges(contours, size)
            + edge::contour_edges(points, size),
{
    assert(contours.push(points).drop_last() =~= contours);
}

/// The polygons of a list of figures are those of each, one figure after the other,
/// and the edges of a picture are theirs, at every size.
pub proof fn law_figures_add_their_polygons(
    figures: Seq<path::Figure>,
    figure: path::Figure,
    size: int,
)
    ensures
        render::polygons(Seq::empty()).len() == 0,
        render::polygons(figures.push(figure)) == render::polygons(figures)
            + render::figure_polygons(figure),
        render::picture_edges(figures, size) == edge::all_edges(render::polygons(figures), size),
{
    assert(figures.push(figure).drop_last() =~= figures);
}

/// A filled outline is filled contour by contour, point by point.
pub proof fn law_a_fill_is_its_contours(commands: Seq<Cmd>, i: int, j: int)
    requires
        0 <= i < flatten::contours(commands).len(),
        0 <= j < flatten::contours(commands)[i].len(),
    ensures
        ({
            let polygons = render::figure_polygons(path::Figure::Fill(commands));
            let lines = flatten::contours(commands);
            &&& polygons.len() == lines.len()
            &&& polygons[i].len() == lines[i].len()
            &&& polygons[i][j].0 == lines[i][j].0 && polygons[i][j].1 == lines[i][j].1
        }),
{
}

/// A stroked outline is stroked contour by contour, all at one width.
pub proof fn law_a_stroke_is_that_of_its_contours(
    lines: Seq<Seq<(i32, i32)>>,
    points: Seq<(i32, i32)>,
    width: int,
)
    ensures
        render::all_strokes(Seq::empty(), width).len() == 0,
        render::all_strokes(lines.push(points), width) == render::all_strokes(lines, width)
            + stroke::stroke_polygons(points, width),
{
    assert(lines.push(points).drop_last() =~= lines);
}

/// What is stroked of an outline are its contours.
pub proof fn law_strokes_follow_the_contours(commands: Seq<Cmd>, width: i32)
    ensures
        render::figure_polygons(path::Figure::Stroke(commands, width)) == render::all_strokes(
            flatten::contours(commands),
            width as int,
        ),
{
}

/// What a list of shapes draws is what each of them draws, in their order: its outline,
/// filled or stroked at its width.
pub proof fn law_shapes_are_drawn_one_by_one(shapes: Seq<path::Shape>, i: int)
    requires
        0 <= i < shapes.len(),
    ensures
        path::figures(shapes).len() == shapes.len(),
        shapes[i] matches path::Shape::Fill(path) ==> path::figures(shapes)[i]
            == path::Figure::Fill(path@),
        shapes[i] matches path::Shape::Stroke { path, width } ==> path::figures(shapes)[i]
            == path::Figure::Stroke(path@, width),
{
}

/// A list of layers is laid layer by layer, each in its tone.
pub proof fn law_layers_keep_their_tones(layers: Seq<piece_art::Layer>, i: int)
    requires
        0 <= i < layers.len(),
    ensures
        piece_art::stack(layers).len() == layers.len(),
        piece_art::stack(layers)[i] == (layers[i].tone, layers[i].path@),
{
}

/// A list of paths has the outline of each, and a list of vectors the contents of each.
pub proof fn law_lists_are_seen_item_by_item(
    paths: Seq<path::Path>,
    vectors: Seq<Vec<(i64, i64)>>,
    i: int,
)
    ensures
        line_art::outlines(paths).len() == paths.len(),
        0 <= i < paths.len() ==> line_art::outlines(paths)[i] == paths[i]@,
        flatten::contents(vectors).len() == vectors.len(),
        0 <= i < vectors.len() ==> flatten::contents(vectors)[i] == vectors[i]@,
{
}

} // verus!
