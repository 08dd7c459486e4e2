//! The geometry of the icons that have a name.
use crate::glyph::Glyph;
use crate::line_art;
use crate::mark::WEIGHT;
use crate::path;
use crate::path::{Cmd, Path, Shape};
use crate::piece_art;
use crate::piece_art::{Layer, BLACK};
use vstd::prelude::*;

verus! {

/// The figure of the shift key.
pub open spec fn shift_key() -> Seq<path::Figure> {
    seq![path::Figure::Stroke(arrow_up(), WEIGHT)]
}

/// A broad arrow that points up.
pub open spec fn arrow_up() -> Seq<Cmd> {
    seq![
        Cmd::Move(500, 100),
        Cmd::Line(100, 500),
        Cmd::Line(350, 500),
        Cmd::Line(350, 850),
        Cmd::Line(650, 850),
        Cmd::Line(650, 500),
        Cmd::Line(900, 500),
        Cmd::Close,
    ]
}

/// The figures of the erase key: a tag that points left, with a cross on it.
pub open spec fn backspace_key() -> Seq<path::Figure> {
    seq![
        path::Figure::Stroke(tag_left(), WEIGHT),
        path::Figure::Stroke(seq![Cmd::Move(470, 385), Cmd::Line(700, 615)], WEIGHT),
        path::Figure::Stroke(seq![Cmd::Move(700, 385), Cmd::Line(470, 615)], WEIGHT),
    ]
}

/// A tag that points left.
pub open spec fn tag_left() -> Seq<Cmd> {
    seq![
        Cmd::Move(350, 250),
        Cmd::Line(850, 250),
        Cmd::Line(850, 750),
        Cmd::Line(350, 750),
        Cmd::Line(100, 500),
        Cmd::Close,
    ]
}

/// A round game piece: solid if it is black, a ring if it is white.
pub open spec fn counter(black: bool, cx: int, cy: int, r: int) -> path::Figure {
    if black {
        path::Figure::Fill(path::circle(cx, cy, r))
    } else {
        path::Figure::Stroke(path::circle(cx, cy, r), 64)
    }
}

/// The figures of a draughts king: two counters, one on the other.
pub open spec fn crowned(black: bool) -> Seq<path::Figure> {
    seq![counter(black, 500, 590, 270), counter(black, 500, 385, 215)]
}

/// The figures of a draughts man, or of a disc.
pub open spec fn uncrowned(black: bool) -> Seq<path::Figure> {
    seq![counter(black, 500, 500, 300)]
}

/// The figures of the mill: three points on a rule.
pub open spec fn mill() -> Seq<path::Figure> {
    seq![
        path::Figure::Stroke(seq![Cmd::Move(170, 500), Cmd::Line(830, 500)], 44),
        path::Figure::Fill(path::circle(170, 500, 105)),
        path::Figure::Fill(path::circle(500, 500, 105)),
        path::Figure::Fill(path::circle(830, 500, 105)),
    ]
}

/// The figures of a round game piece or a point of its board; none for any
/// other glyph.
pub open spec fn game_piece(glyph: Glyph) -> Option<Seq<path::Figure>> {
    match glyph {
        Glyph::BlackDisc => Some(uncrowned(true)),
        Glyph::WhiteDisc => Some(uncrowned(false)),
        Glyph::BlackDraughtsKing => Some(crowned(true)),
        Glyph::WhiteDraughtsKing => Some(crowned(false)),
        Glyph::BlackDraughtsMan => Some(uncrowned(true)),
        Glyph::WhiteDraughtsMan => Some(uncrowned(false)),
        Glyph::BoardPoint => Some(seq![path::Figure::Fill(path::circle(500, 500, 55))]),
        Glyph::Mill => Some(mill()),
        Glyph::LegalPoint => Some(seq![path::Figure::Stroke(path::circle(500, 500, 175), 54)]),
        _ => None,
    }
}

/// The black layers of a stack, filled.
pub open spec fn silhouette(stack: Seq<(u8, Seq<Cmd>)>) -> Seq<path::Figure>
    decreases stack.len(),
{
    if stack.len() == 0 {
        Seq::empty()
    } else {
        let below = silhouette(stack.drop_last());
        if stack.last().0 == BLACK {
            below.push(path::Figure::Fill(stack.last().1))
        } else {
            below
        }
    }
}

/// Outlines, stroked at the weight of the set.
pub open spec fn stroked(outlines: Seq<Seq<Cmd>>) -> Seq<path::Figure> {
    outlines.map_values(|commands: Seq<Cmd>| path::Figure::Stroke(commands, WEIGHT))
}

/// The figures of one glyph.
pub open spec fn icon(glyph: Glyph) -> Seq<path::Figure> {
    if glyph == Glyph::Shift {
        shift_key()
    } else if glyph == Glyph::Backspace {
        backspace_key()
    } else if game_piece(glyph) is Some {
        game_piece(glyph)->0
    } else if piece_art::piece_layers(glyph) is Some {
        silhouette(piece_art::piece_layers(glyph)->0)
    } else {
        stroked(line_art::line_art(glyph))
    }
}

/// The geometry of one glyph.
///
/// Line art at a single stroke weight rather than filled silhouettes, because
/// a page of solid black icons on a reflective panel reads as heavier than the
/// text it sits beside, and the icon is subordinate to the label next to it.
#[must_use]
pub fn shapes(glyph: Glyph) -> (shapes: Vec<Shape>)
    ensures
        path::figures(shapes@) == icon(glyph),
{
    if glyph == Glyph::Shift {
        let path = Path::new()
            .move_to(500, 100)
            .line_to(100, 500)
            .line_to(350, 500)
            .line_to(350, 850)
            .line_to(650, 850)
            .line_to(650, 500)
            .line_to(900, 500)
            .close();
        assert(path@ =~= arrow_up());
        let shapes: Vec<Shape> = vec![Shape::Stroke { path, width: WEIGHT }];
        assert(path::figures(shapes@) =~= shift_key());
        return shapes;
    }
    if glyph == Glyph::Backspace {
        let path = Path::new()
            .move_to(350, 250)
            .line_to(850, 250)
            .line_to(850, 750)
            .line_to(350, 750)
            .line_to(100, 500)
            .close();
        assert(path@ =~= tag_left());
        let shapes: Vec<Shape> = vec![
            Shape::Stroke { path, width: WEIGHT },
            Shape::Stroke { path: Path::line(470, 385, 700, 615), width: WEIGHT },
            Shape::Stroke { path: Path::line(700, 385, 470, 615), width: WEIGHT },
        ];
        assert(path::figures(shapes@) =~= backspace_key());
        return shapes;
    }
    if let Some(shapes) = game_piece_shapes(glyph) {
        return shapes;
    }
    if let Some(layers) = piece_art::layers(glyph) {
        return black_shapes(&layers);
    }
    stroke_shapes(&line_art::outline(glyph))
}

/// The geometry of a round game piece or a point of its board.
#[must_use]
pub fn game_piece_shapes(glyph: Glyph) -> (shapes: Option<Vec<Shape>>)
    ensures
        shapes is Some <==> game_piece(glyph) is Some,
        shapes is Some ==> path::figures(shapes->0@) == game_piece(glyph)->0,
{
    let (black, king) = match glyph {
        Glyph::BlackDisc => (true, false),
        Glyph::WhiteDisc => (false, false),
        Glyph::BlackDraughtsKing => (true, true),
        Glyph::WhiteDraughtsKing => (false, true),
        Glyph::BlackDraughtsMan => (true, false),
        Glyph::WhiteDraughtsMan => (false, false),
        Glyph::BoardPoint => {
            return Some(vec![Shape::Fill(Path::circle(500, 500, 55))]);
        },
        Glyph::Mill => {
            // Three points on a rule: the line a player is trying to make.
            // Drawn a shade heavier than a single board point, because this
            // one is read as an emblem on a card rather than counted on a
            // board.
            let shapes: Vec<Shape> = vec![
                Shape::Stroke { path: Path::line(170, 500, 830, 500), width: 44 },
                Shape::Fill(Path::circle(170, 500, 105)),
                Shape::Fill(Path::circle(500, 500, 105)),
                Shape::Fill(Path::circle(830, 500, 105)),
            ];
            assert(path::figures(shapes@) =~= mill());
            return Some(shapes);
        },
        Glyph::LegalPoint => {
            return Some(vec![Shape::Stroke { path: Path::circle(500, 500, 175), width: 54 }]);
        },
        _ => {
            return None;
        },
    };
    let shapes: Vec<Shape> = if king {
        vec![round_piece(black, 500, 590, 270), round_piece(black, 500, 385, 215)]
    } else {
        vec![round_piece(black, 500, 500, 300)]
    };
    assert(path::figures(shapes@) =~= if king {
        crowned(black)
    } else {
        uncrowned(black)
    });
    Some(shapes)
}

/// A round game piece.
fn round_piece(black: bool, cx: i32, cy: i32, r: i32) -> (shape: Shape)
    ensures
        shape@ == counter(black, cx as int, cy as int, r as int),
{
    let path = Path::circle(cx, cy, r);
    if black {
        Shape::Fill(path)
    } else {
        Shape::Stroke { path, width: 64 }
    }
}

/// Fills the black layers of a stack.
#[must_use]
pub fn black_shapes(layers: &Vec<Layer>) -> (shapes: Vec<Shape>)
    ensures
        path::figures(shapes@) == silhouette(piece_art::stack(layers@)),
{
    let count: usize = layers.len();
    let mut shapes: Vec<Shape> = Vec::new();
    let ghost all = piece_art::stack(layers@);
    assert(path::figures(shapes@) =~= silhouette(all.take(0)));
    for i in 0..count
        invariant
            count == layers@.len(),
            all == piece_art::stack(layers@),
            path::figures(shapes@) == silhouette(all.take(i as int)),
    {
        let ghost before = shapes@;
        assert(all.take(i + 1).drop_last() =~= all.take(i as int));
        if layers[i].tone == BLACK {
            shapes.push(Shape::Fill(layers[i].path.clone()));
            assert(path::figures(shapes@) =~= path::figures(before).push(
                path::Figure::Fill(all[i as int].1),
            ));
        }
    }
    assert(all.take(count as int) =~= all);
    shapes
}

/// Strokes outlines at the weight of the set.
#[must_use]
pub fn stroke_shapes(paths: &Vec<Path>) -> (shapes: Vec<Shape>)
    ensures
        path::figures(shapes@) == stroked(line_art::outlines(paths@)),
{
    let count: usize = paths.len();
    let mut shapes: Vec<Shape> = Vec::new();
    let ghost all = stroked(line_art::outlines(paths@));
    for i in 0..count
        invariant
            count == paths@.len(),
            all == stroked(line_art::outlines(paths@)),
            path::figures(shapes@) == all.take(i as int),
    {
        let ghost before = shapes@;
        shapes.push(Shape::Stroke { path: paths[i].clone(), width: WEIGHT });
        assert(path::figures(shapes@) =~= path::figures(before).push(all[i as int]));
        assert(all.take(i + 1) =~= all.take(i as int).push(all[i as int]));
    }
    assert(all.take(count as int) =~= all);
    shapes
}

} // verus!
