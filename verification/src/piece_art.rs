//! The chess pieces, as layers of light and dark.
//!
//! Each piece has a body, which is its silhouette, a face, which is the area
//! inside its rim, and a mark, which is a detail on the face. All three are
//! polygons, written as the coordinates of their corners in turn.
use crate::glyph::Glyph;
use crate::path::{Cmd, Path};
use vstd::prelude::*;

verus! {

/// One flat area of a picture: `tone` is 0 for black and 255 for white.
#[derive(Debug)]
pub struct Layer {
    pub tone: u8,
    pub path: Path,
}

impl View for Layer {
    type V = (u8, Seq<Cmd>);

    open spec fn view(&self) -> (u8, Seq<Cmd>) {
        (self.tone, self.path@)
    }
}

/// The tones and commands of a list of layers.
pub open spec fn stack(layers: Seq<Layer>) -> Seq<(u8, Seq<Cmd>)> {
    layers.map_values(|layer: Layer| layer@)
}

pub const BLACK: u8 = 0;

pub const WHITE: u8 = 255;

pub const KING_BODY: [i32; 52] = [
    470, 110, 530, 110, 530, 170, 590, 170, 590, 230, 530, 230, 530, 310, 640, 330, 760, 360, 820,
    450, 800, 560, 720, 680, 740, 770, 760, 860, 240, 860, 260, 770, 280, 680, 200, 560, 180, 450,
    240, 360, 360, 330, 470, 310, 470, 230, 410, 230, 410, 170, 470, 170,
];

pub const KING_FACE: [i32; 30] = [
    500, 350, 620, 372, 736, 396, 780, 462, 762, 548, 678, 676, 704, 778, 716, 822, 284, 822, 296,
    778, 322, 676, 238, 548, 220, 462, 264, 396, 380, 372,
];

pub const KING_MARK: [i32; 8] = [330, 690, 670, 690, 678, 724, 322, 724];

pub const QUEEN_BODY: [i32; 30] = [
    180, 260, 300, 520, 330, 200, 430, 490, 500, 160, 570, 490, 670, 200, 700, 520, 820, 260, 760,
    660, 740, 760, 760, 860, 240, 860, 260, 760, 240, 660,
];

pub const QUEEN_FACE: [i32; 30] = [
    240, 420, 320, 600, 352, 330, 436, 590, 500, 300, 564, 590, 648, 330, 680, 600, 760, 420, 722,
    650, 702, 758, 716, 822, 284, 822, 298, 758, 278, 650,
];

pub const QUEEN_MARK: [i32; 8] = [290, 690, 710, 690, 704, 724, 296, 724];

pub const ROOK_BODY: [i32; 40] = [
    260, 180, 350, 180, 350, 240, 450, 240, 450, 180, 550, 180, 550, 240, 650, 240, 650, 180, 740,
    180, 740, 330, 670, 390, 670, 680, 740, 760, 760, 860, 240, 860, 260, 760, 330, 680, 330, 390,
    260, 330,
];

pub const ROOK_FACE: [i32; 40] = [
    298, 218, 312, 218, 312, 278, 488, 278, 488, 218, 512, 218, 512, 278, 688, 278, 688, 218, 702,
    218, 702, 312, 632, 374, 632, 694, 706, 778, 716, 822, 284, 822, 294, 778, 368, 694, 368, 374,
    298, 312,
];

pub const ROOK_MARK: [i32; 8] = [368, 660, 632, 660, 632, 694, 368, 694];

pub const BISHOP_BODY: [i32; 38] = [
    500, 130, 540, 170, 525, 200, 620, 300, 660, 420, 610, 540, 590, 600, 640, 700, 740, 780, 760,
    860, 240, 860, 260, 780, 360, 700, 410, 600, 390, 540, 340, 420, 380, 300, 475, 200, 460, 170,
];

pub const BISHOP_FACE: [i32; 30] = [
    500, 232, 588, 320, 620, 420, 572, 530, 550, 600, 604, 722, 706, 804, 712, 822, 288, 822, 294,
    804, 396, 722, 450, 600, 428, 530, 380, 420, 412, 320,
];

pub const BISHOP_MARK: [i32; 24] = [
    482, 350, 518, 350, 518, 400, 565, 400, 565, 436, 518, 436, 518, 500, 482, 500, 482, 436, 435,
    436, 435, 400, 482, 400,
];

pub const KNIGHT_BODY: [i32; 36] = [
    560, 170, 680, 260, 740, 420, 750, 640, 760, 860, 260, 860, 280, 760, 360, 640, 440, 540, 430,
    480, 340, 520, 270, 540, 230, 480, 280, 380, 350, 270, 420, 220, 430, 150, 490, 200,
];

pub const KNIGHT_FACE: [i32; 36] = [
    550, 212, 650, 288, 702, 428, 712, 640, 718, 822, 304, 822, 316, 778, 392, 664, 484, 552, 466,
    430, 330, 478, 284, 496, 274, 474, 316, 398, 380, 294, 450, 250, 462, 220, 500, 246,
];

pub const KNIGHT_MARK: [i32; 8] = [400, 310, 440, 310, 440, 350, 400, 350];

pub const PAWN_BODY: [i32; 38] = [
    500, 180, 570, 195, 630, 255, 645, 330, 615, 400, 560, 450, 600, 600, 690, 720, 750, 780, 760,
    860, 240, 860, 250, 780, 310, 720, 400, 600, 440, 450, 385, 400, 355, 330, 370, 255, 430, 195,
];

pub const PAWN_FACE: [i32; 38] = [
    500, 222, 550, 232, 592, 275, 604, 330, 582, 378, 520, 430, 562, 612, 660, 742, 714, 800, 718,
    822, 282, 822, 286, 800, 340, 742, 438, 612, 480, 430, 418, 378, 396, 330, 408, 275, 450, 232,
];

pub const PAWN_MARK: [i32; 8] = [330, 770, 670, 770, 690, 790, 310, 790];

/// The closed outline through a list of corners.
pub open spec fn through(corners: Seq<i32>) -> Seq<Cmd> {
    Seq::new(
        corners.len() / 2 + 1,
        |i: int|
            if i == corners.len() / 2 {
                Cmd::Close
            } else if i == 0 {
                Cmd::Move(corners[0], corners[1])
            } else {
                Cmd::Line(corners[2 * i], corners[2 * i + 1])
            },
    )
}

/// The layers of a piece. A white piece is a light face in a dark rim, a black
/// one a silhouette with a light detail.
pub open spec fn piece(
    white: bool,
    body: Seq<i32>,
    face: Seq<i32>,
    mark: Seq<i32>,
) -> Seq<(u8, Seq<Cmd>)> {
    if white {
        seq![(BLACK, through(body)), (WHITE, through(face)), (BLACK, through(mark))]
    } else {
        seq![(BLACK, through(body)), (WHITE, through(mark))]
    }
}

/// The layers of a chess piece, the lowest first; none for any other glyph.
pub open spec fn piece_layers(glyph: Glyph) -> Option<Seq<(u8, Seq<Cmd>)>> {
    match glyph {
        Glyph::ChessWhiteKing => Some(piece(true, KING_BODY@, KING_FACE@, KING_MARK@)),
        Glyph::ChessWhiteQueen => Some(piece(true, QUEEN_BODY@, QUEEN_FACE@, QUEEN_MARK@)),
        Glyph::ChessWhiteRook => Some(piece(true, ROOK_BODY@, ROOK_FACE@, ROOK_MARK@)),
        Glyph::ChessWhiteBishop => Some(piece(true, BISHOP_BODY@, BISHOP_FACE@, BISHOP_MARK@)),
        Glyph::ChessWhiteKnight => Some(piece(true, KNIGHT_BODY@, KNIGHT_FACE@, KNIGHT_MARK@)),
        Glyph::ChessWhitePawn => Some(piece(true, PAWN_BODY@, PAWN_FACE@, PAWN_MARK@)),
        Glyph::ChessBlackKing => Some(piece(false, KING_BODY@, KING_FACE@, KING_MARK@)),
        Glyph::ChessBlackQueen => Some(piece(false, QUEEN_BODY@, QUEEN_FACE@, QUEEN_MARK@)),
        Glyph::ChessBlackRook => Some(piece(false, ROOK_BODY@, ROOK_FACE@, ROOK_MARK@)),
        Glyph::ChessBlackBishop => Some(piece(false, BISHOP_BODY@, BISHOP_FACE@, BISHOP_MARK@)),
        Glyph::ChessBlackKnight => Some(piece(false, KNIGHT_BODY@, KNIGHT_FACE@, KNIGHT_MARK@)),
        Glyph::ChessBlackPawn => Some(piece(false, PAWN_BODY@, PAWN_FACE@, PAWN_MARK@)),
        _ => None,
    }
}

/// Draws a closed outline through a list of corners.
fn polygon<const N: usize>(corners: &[i32; N]) -> (path: Path)
    requires
        2 <= N,
        N % 2 == 0,
    ensures
        path@ == through(corners@),
{
    let mut path = Path::new().move_to(corners[0], corners[1]);
    let count: usize = N / 2;
    let ghost all = through(corners@);
    assert(path@ =~= all.take(1));
    for i in 1..count
        invariant
            count == N / 2,
            N % 2 == 0,
            all == through(corners@),
            path@ == all.take(i as int),
    {
        path = path.line_to(corners[2 * i], corners[2 * i + 1]);
        assert(path@ =~= all.take(i + 1));
    }
    path = path.close();
    assert(path@ =~= all);
    path
}

/// Puts the layers of a piece together.
fn assembled<const B: usize, const F: usize, const M: usize>(
    white: bool,
    body: &[i32; B],
    face: &[i32; F],
    mark: &[i32; M],
) -> (layers: Option<Vec<Layer>>)
    requires
        2 <= B && B % 2 == 0,
        2 <= F && F % 2 == 0,
        2 <= M && M % 2 == 0,
    ensures
        layers is Some,
        stack(layers->0@) == piece(white, body@, face@, mark@),
{
    let layers: Vec<Layer> = if white {
        vec![
            Layer { tone: BLACK, path: polygon(body) },
            Layer { tone: WHITE, path: polygon(face) },
            Layer { tone: BLACK, path: polygon(mark) },
        ]
    } else {
        vec![
            Layer { tone: BLACK, path: polygon(body) },
            Layer { tone: WHITE, path: polygon(mark) },
        ]
    };
    assert(stack(layers@) =~= piece(white, body@, face@, mark@));
    Some(layers)
}

/// The layers of a chess piece, the lowest first.
#[must_use]
pub fn layers(glyph: Glyph) -> (layers: Option<Vec<Layer>>)
    ensures
        layers is Some <==> piece_layers(glyph) is Some,
        layers is Some ==> stack(layers->0@) == piece_layers(glyph)->0,
{
    match glyph {
        Glyph::ChessWhiteKing => assembled(true, &KING_BODY, &KING_FACE, &KING_MARK),
        Glyph::ChessWhiteQueen => assembled(true, &QUEEN_BODY, &QUEEN_FACE, &QUEEN_MARK),
        Glyph::ChessWhiteRook => assembled(true, &ROOK_BODY, &ROOK_FACE, &ROOK_MARK),
        Glyph::ChessWhiteBishop => assembled(true, &BISHOP_BODY, &BISHOP_FACE, &BISHOP_MARK),
        Glyph::ChessWhiteKnight => assembled(true, &KNIGHT_BODY, &KNIGHT_FACE, &KNIGHT_MARK),
        Glyph::ChessWhitePawn => assembled(true, &PAWN_BODY, &PAWN_FACE, &PAWN_MARK),
        Glyph::ChessBlackKing => assembled(false, &KING_BODY, &KING_FACE, &KING_MARK),
        Glyph::ChessBlackQueen => assembled(false, &QUEEN_BODY, &QUEEN_FACE, &QUEEN_MARK),
        Glyph::ChessBlackRook => assembled(false, &ROOK_BODY, &ROOK_FACE, &ROOK_MARK),
        Glyph::ChessBlackBishop => assembled(false, &BISHOP_BODY, &BISHOP_FACE, &BISHOP_MARK),
        Glyph::ChessBlackKnight => assembled(false, &KNIGHT_BODY, &KNIGHT_FACE, &KNIGHT_MARK),
        Glyph::ChessBlackPawn => assembled(false, &PAWN_BODY, &PAWN_FACE, &PAWN_MARK),
        _ => None,
    }
}

} // verus!
