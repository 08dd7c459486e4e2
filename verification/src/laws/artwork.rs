//! Every name has its own drawing.
use crate::glyph::Glyph;
use crate::icon;
use crate::laws::roundness;
use crate::line_art;
use crate::path;
use crate::path::{Cmd, Figure};
use crate::piece_art;
use crate::piece_art::{
    BISHOP_BODY, BISHOP_FACE, BISHOP_MARK, KING_BODY, KING_FACE, KING_MARK, KNIGHT_BODY,
    KNIGHT_FACE, KNIGHT_MARK, PAWN_BODY, PAWN_FACE, PAWN_MARK, QUEEN_BODY, QUEEN_FACE, QUEEN_MARK,
    ROOK_BODY, ROOK_FACE, ROOK_MARK,
};
use vstd::prelude::*;

verus! {

/// The four squares of an application, three of them drawn and one a cross, lie in
/// the quarters of the box.
pub proof fn law_an_application_is_three_squares_and_a_cross()
    ensures
        icon::icon(Glyph::App) == seq![
            Figure::Stroke(path::rounded(167, 167, 250, 250, 42), 62),
            Figure::Stroke(path::rounded(167, 583, 250, 250, 42), 62),
            Figure::Stroke(path::rounded(583, 583, 250, 250, 42), 62),
            Figure::Stroke(seq![Cmd::Move(583, 292), Cmd::Line(833, 292)], 62),
            Figure::Stroke(seq![Cmd::Move(708, 167), Cmd::Line(708, 417)], 62),
        ],
{
    assert(icon::icon(Glyph::App) =~= seq![
        Figure::Stroke(path::rounded(167, 167, 250, 250, 42), 62),
        Figure::Stroke(path::rounded(167, 583, 250, 250, 42), 62),
        Figure::Stroke(path::rounded(583, 583, 250, 250, 42), 62),
        Figure::Stroke(seq![Cmd::Move(583, 292), Cmd::Line(833, 292)], 62),
        Figure::Stroke(seq![Cmd::Move(708, 167), Cmd::Line(708, 417)], 62),
    ]);
}

/// A search is a magnifying glass: a round lens, in four curves, and a handle that
/// goes out from it to the lower right.
pub proof fn law_a_search_is_a_magnifying_glass()
    ensures
        icon::icon(Glyph::Search) == seq![
            Figure::Stroke(
                seq![
                    Cmd::Move(125, 417),
                    Cmd::Cubic(125, 256, 256, 125, 417, 125),
                    Cmd::Cubic(578, 125, 708, 256, 708, 417),
                    Cmd::Cubic(708, 578, 578, 708, 417, 708),
                    Cmd::Cubic(256, 708, 125, 578, 125, 417),
                ],
                62,
            ),
            Figure::Stroke(seq![Cmd::Move(875, 875), Cmd::Line(625, 625)], 62),
        ],
{
    assert(icon::icon(Glyph::Search)[0]->Stroke_0 =~= seq![
        Cmd::Move(125, 417),
        Cmd::Cubic(125, 256, 256, 125, 417, 125),
        Cmd::Cubic(578, 125, 708, 256, 708, 417),
        Cmd::Cubic(708, 578, 578, 708, 417, 708),
        Cmd::Cubic(256, 708, 125, 578, 125, 417),
    ]);
    assert(icon::icon(Glyph::Search) =~= seq![
        icon::icon(Glyph::Search)[0],
        Figure::Stroke(seq![Cmd::Move(875, 875), Cmd::Line(625, 625)], 62),
    ]);
}

/// What is drawn in line is stroked outline by outline. Nothing but an application and a
/// search is drawn in line.
pub proof fn law_line_art_is_stroked_outline_by_outline(glyph: Glyph, i: int)
    ensures
        ({
            let lines = line_art::line_art(glyph);
            &&& lines.len() > 0 <==> glyph == Glyph::App || glyph == Glyph::Search
            &&& lines.len() > 0 ==> icon::icon(glyph).len() == lines.len()
            &&& 0 <= i < lines.len() ==> icon::icon(glyph)[i] == Figure::Stroke(lines[i], 62)
        }),
{
}

/// The shift key is a broad arrow that points up, and the erase key a tag that
/// points left with a cross on it.
pub proof fn law_the_keys_are_an_arrow_and_a_tag()
    ensures
        icon::icon(Glyph::Shift) == seq![
            Figure::Stroke(
                seq![
                    Cmd::Move(500, 100),
                    Cmd::Line(100, 500),
                    Cmd::Line(350, 500),
                    Cmd::Line(350, 850),
                    Cmd::Line(650, 850),
                    Cmd::Line(650, 500),
                    Cmd::Line(900, 500),
                    Cmd::Close,
                ],
                62,
            ),
        ],
        icon::icon(Glyph::Backspace) == seq![
            Figure::Stroke(
                seq![
                    Cmd::Move(350, 250),
                    Cmd::Line(850, 250),
                    Cmd::Line(850, 750),
                    Cmd::Line(350, 750),
                    Cmd::Line(100, 500),
                    Cmd::Close,
                ],
                62,
            ),
            Figure::Stroke(seq![Cmd::Move(470, 385), Cmd::Line(700, 615)], 62),
            Figure::Stroke(seq![Cmd::Move(700, 385), Cmd::Line(470, 615)], 62),
        ],
{
}

/// The colours of a round piece.
pub open spec fn round_pair(white: Glyph, black: Glyph) -> bool {
    ||| white == Glyph::WhiteDisc && black == Glyph::BlackDisc
    ||| white == Glyph::WhiteDraughtsMan && black == Glyph::BlackDraughtsMan
    ||| white == Glyph::WhiteDraughtsKing && black == Glyph::BlackDraughtsKing
}

/// A round piece is drawn from the same circles in either colour: solid if it is
/// black, as rings of one weight if it is white.
pub proof fn law_round_pieces_are_solid_or_rings(white: Glyph, black: Glyph, i: int)
    requires
        round_pair(white, black),
        0 <= i < icon::icon(black).len(),
    ensures
        icon::icon(white).len() == icon::icon(black).len(),
        icon::icon(black)[i] matches Figure::Fill(outline) && icon::icon(white)[i]
            == Figure::Stroke(outline, 64),
{
}

/// A disc and a man are one counter in the middle of the box. A king is two, the
/// upper one smaller.
pub proof fn law_counters_have_their_places()
    ensures
        icon::icon(Glyph::BlackDisc) == seq![Figure::Fill(path::circle(500, 500, 300))],
        icon::icon(Glyph::BlackDraughtsMan) == icon::icon(Glyph::BlackDisc),
        icon::icon(Glyph::BlackDraughtsKing) == seq![
            Figure::Fill(path::circle(500, 590, 270)),
            Figure::Fill(path::circle(500, 385, 215)),
        ],
{
}

/// The points of a board: a small solid one, a ring where a piece may go, and three
/// solid ones on a rule, one at either end and one in the middle.
pub proof fn law_points_have_their_places()
    ensures
        icon::icon(Glyph::BoardPoint) == seq![Figure::Fill(path::circle(500, 500, 55))],
        icon::icon(Glyph::LegalPoint) == seq![Figure::Stroke(path::circle(500, 500, 175), 54)],
        icon::icon(Glyph::Mill) == seq![
            Figure::Stroke(seq![Cmd::Move(170, 500), Cmd::Line(830, 500)], 44),
            Figure::Fill(path::circle(170, 500, 105)),
            Figure::Fill(path::circle(500, 500, 105)),
            Figure::Fill(path::circle(830, 500, 105)),
        ],
{
}

/// The parts of a chess piece: its body, its face and its mark, as corners in turn.
pub open spec fn parts(glyph: Glyph) -> Option<(bool, Seq<i32>, Seq<i32>, Seq<i32>)> {
    match glyph {
        Glyph::ChessWhiteKing => Some((true, KING_BODY@, KING_FACE@, KING_MARK@)),
        Glyph::ChessBlackKing => Some((false, KING_BODY@, KING_FACE@, KING_MARK@)),
        Glyph::ChessWhiteQueen => Some((true, QUEEN_BODY@, QUEEN_FACE@, QUEEN_MARK@)),
        Glyph::ChessBlackQueen => Some((false, QUEEN_BODY@, QUEEN_FACE@, QUEEN_MARK@)),
        Glyph::ChessWhiteRook => Some((true, ROOK_BODY@, ROOK_FACE@, ROOK_MARK@)),
        Glyph::ChessBlackRook => Some((false, ROOK_BODY@, ROOK_FACE@, ROOK_MARK@)),
        Glyph::ChessWhiteBishop => Some((true, BISHOP_BODY@, BISHOP_FACE@, BISHOP_MARK@)),
        Glyph::ChessBlackBishop => Some((false, BISHOP_BODY@, BISHOP_FACE@, BISHOP_MARK@)),
        Glyph::ChessWhiteKnight => Some((true, KNIGHT_BODY@, KNIGHT_FACE@, KNIGHT_MARK@)),
        Glyph::ChessBlackKnight => Some((false, KNIGHT_BODY@, KNIGHT_FACE@, KNIGHT_MARK@)),
        Glyph::ChessWhitePawn => Some((true, PAWN_BODY@, PAWN_FACE@, PAWN_MARK@)),
        Glyph::ChessBlackPawn => Some((false, PAWN_BODY@, PAWN_FACE@, PAWN_MARK@)),
        _ => None,
    }
}

/// Whether an outline goes straight through a list of corners, in their order, and
/// is closed.
pub open spec fn goes_through(outline: Seq<Cmd>, corners: Seq<i32>) -> bool {
    &&& 2 * (outline.len() - 1) == corners.len()
    &&& outline[outline.len() - 1] is Close
    &&& outline[0] == Cmd::Move(corners[0], corners[1])
    &&& forall|k: int|
        1 <= k < outline.len() - 1 ==> (#[trigger] outline[k]) == Cmd::Line(
            corners[2 * k],
            corners[2 * k + 1],
        )
}

/// A chess piece is laid from its own parts. A white one is a black body, a white
/// face on it and a black mark on that; a black one is a black body with a white
/// mark. Nothing else has layers.
pub proof fn law_chess_pieces_are_laid_from_their_parts(glyph: Glyph)
    ensures
        piece_art::piece_layers(glyph) is Some <==> parts(glyph) is Some,
        parts(glyph) matches Some((white, body, face, mark)) ==> {
            let layers = piece_art::piece_layers(glyph)->0;
            &&& layers.len() == if white {
                3nat
            } else {
                2nat
            }
            &&& layers[0].0 == 0 && goes_through(layers[0].1, body)
            &&& white ==> layers[1].0 == 255 && goes_through(layers[1].1, face)
            &&& white ==> layers[2].0 == 0 && goes_through(layers[2].1, mark)
            &&& !white ==> layers[1].0 == 255 && goes_through(layers[1].1, mark)
        },
{
}

/// Where there is no tone, a chess piece is its black layers and nothing else, filled
/// from the lowest up: its body, and the mark of a white one.
pub proof fn law_silhouettes_are_the_black_layers(glyph: Glyph)
    ensures
        parts(glyph) matches Some((white, body, face, mark)) ==> {
            let figures = icon::icon(glyph);
            &&& figures.len() == if white {
                2nat
            } else {
                1nat
            }
            &&& figures[0] is Fill && goes_through(figures[0]->Fill_0, body)
            &&& white ==> figures[1] is Fill && goes_through(figures[1]->Fill_0, mark)
        },
{
    law_chess_pieces_are_laid_from_their_parts(glyph);
    if parts(glyph) is Some {
        let layers = piece_art::piece_layers(glyph)->0;
        reveal_with_fuel(icon::silhouette, 4);
        let (one, two) = (layers.take(1), layers.take(2));
        assert(one.drop_last() =~= Seq::<(u8, Seq<Cmd>)>::empty());
        assert(two.drop_last() =~= one);
        if layers.len() == 3 {
            assert(layers.drop_last() =~= two);
        } else {
            assert(layers =~= two);
        }
    }
}

/// What tells drawings apart: how many figures there are, whether the first one is
/// filled, and where it starts.
spec fn trait_of(figures: Seq<Figure>) -> (int, bool, Cmd) {
    (
        figures.len() as int,
        figures[0] is Fill,
        match figures[0] {
            Figure::Fill(outline) => outline[0],
            Figure::Stroke(outline, _) => outline[0],
        },
    )
}

proof fn lemma_traits(glyph: Glyph)
    ensures
        trait_of(icon::icon(glyph)) == match glyph {
            Glyph::App => (5int, false, Cmd::Move(209, 167)),
            Glyph::Search => (2int, false, Cmd::Move(125, 417)),
            Glyph::Shift => (1int, false, Cmd::Move(500, 100)),
            Glyph::Backspace => (3int, false, Cmd::Move(350, 250)),
            Glyph::ChessWhiteKing => (2int, true, Cmd::Move(470, 110)),
            Glyph::ChessBlackKing => (1int, true, Cmd::Move(470, 110)),
            Glyph::ChessWhiteQueen => (2int, true, Cmd::Move(180, 260)),
            Glyph::ChessBlackQueen => (1int, true, Cmd::Move(180, 260)),
            Glyph::ChessWhiteRook => (2int, true, Cmd::Move(260, 180)),
            Glyph::ChessBlackRook => (1int, true, Cmd::Move(260, 180)),
            Glyph::ChessWhiteBishop => (2int, true, Cmd::Move(500, 130)),
            Glyph::ChessBlackBishop => (1int, true, Cmd::Move(500, 130)),
            Glyph::ChessWhiteKnight => (2int, true, Cmd::Move(560, 170)),
            Glyph::ChessBlackKnight => (1int, true, Cmd::Move(560, 170)),
            Glyph::ChessWhitePawn => (2int, true, Cmd::Move(500, 180)),
            Glyph::ChessBlackPawn => (1int, true, Cmd::Move(500, 180)),
            Glyph::BlackDisc => (1int, true, Cmd::Move(800, 500)),
            Glyph::WhiteDisc => (1int, false, Cmd::Move(800, 500)),
            Glyph::BlackDraughtsMan => (1int, true, Cmd::Move(800, 500)),
            Glyph::WhiteDraughtsMan => (1int, false, Cmd::Move(800, 500)),
            Glyph::BlackDraughtsKing => (2int, true, Cmd::Move(770, 590)),
            Glyph::WhiteDraughtsKing => (2int, false, Cmd::Move(770, 590)),
            Glyph::BoardPoint => (1int, true, Cmd::Move(555, 500)),
            Glyph::LegalPoint => (1int, false, Cmd::Move(675, 500)),
            Glyph::Mill => (4int, false, Cmd::Move(170, 500)),
        },
{
    law_silhouettes_are_the_black_layers(glyph);
    roundness::law_a_circle_starts_at_its_right(500, 500, 300);
    roundness::law_a_circle_starts_at_its_right(500, 590, 270);
    roundness::law_a_circle_starts_at_its_right(500, 500, 55);
    roundness::law_a_circle_starts_at_its_right(500, 500, 175);
    law_an_application_is_three_squares_and_a_cross();
    law_a_search_is_a_magnifying_glass();
    law_the_keys_are_an_arrow_and_a_tag();
}

/// Every name has a drawing of its own: two different glyphs have different figures,
/// but for the disc and the man of one colour, which are the same counter.
pub proof fn law_no_two_names_share_a_drawing(a: Glyph, b: Glyph)
    requires
        a != b,
        !(a == Glyph::BlackDisc && b == Glyph::BlackDraughtsMan),
        !(b == Glyph::BlackDisc && a == Glyph::BlackDraughtsMan),
        !(a == Glyph::WhiteDisc && b == Glyph::WhiteDraughtsMan),
        !(b == Glyph::WhiteDisc && a == Glyph::WhiteDraughtsMan),
    ensures
        icon::icon(a) != icon::icon(b),
{
    lemma_traits(a);
    lemma_traits(b);
}

/// No two chess pieces have the same layers.
pub proof fn law_no_two_pieces_share_their_layers(a: Glyph, b: Glyph)
    requires
        a != b,
        piece_art::piece_layers(a) is Some,
        piece_art::piece_layers(b) is Some,
    ensures
        piece_art::piece_layers(a)->0 != piece_art::piece_layers(b)->0,
{
    law_no_two_names_share_a_drawing(a, b);
}

} // verus!
