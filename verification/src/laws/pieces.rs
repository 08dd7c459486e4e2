//! The corners of the chess pieces.
use crate::piece_art;
use vstd::prelude::*;

verus! {

/// The corners of the king: of its silhouette, of the area inside its rim, and of the
/// detail on that.
pub proof fn law_the_corners_of_the_king()
    ensures
        piece_art::KING_BODY@ == seq![
            470i32, 110, 530, 110, 530, 170, 590, 170, 590, 230, 530, 230, 530, 310, 640, 330, 760,
            360, 820, 450, 800, 560, 720, 680, 740, 770, 760, 860, 240, 860, 260, 770, 280, 680,
            200, 560, 180, 450, 240, 360, 360, 330, 470, 310, 470, 230, 410, 230, 410, 170, 470,
            170,
        ],
        piece_art::KING_FACE@ == seq![
            500i32, 350, 620, 372, 736, 396, 780, 462, 762, 548, 678, 676, 704, 778, 716, 822, 284,
            822, 296, 778, 322, 676, 238, 548, 220, 462, 264, 396, 380, 372,
        ],
        piece_art::KING_MARK@ == seq![
            330i32, 690, 670, 690, 678, 724, 322, 724,
        ],
{
}

/// The corners of the queen: of its silhouette, of the area inside its rim, and of the
/// detail on that.
pub proof fn law_the_corners_of_the_queen()
    ensures
        piece_art::QUEEN_BODY@ == seq![
            180i32, 260, 300, 520, 330, 200, 430, 490, 500, 160, 570, 490, 670, 200, 700, 520, 820,
            260, 760, 660, 740, 760, 760, 860, 240, 860, 260, 760, 240, 660,
        ],
        piece_art::QUEEN_FACE@ == seq![
            240i32, 420, 320, 600, 352, 330, 436, 590, 500, 300, 564, 590, 648, 330, 680, 600, 760,
            420, 722, 650, 702, 758, 716, 822, 284, 822, 298, 758, 278, 650,
        ],
        piece_art::QUEEN_MARK@ == seq![
            290i32, 690, 710, 690, 704, 724, 296, 724,
        ],
{
}

/// The corners of the rook: of its silhouette, of the area inside its rim, and of the
/// detail on that.
pub proof fn law_the_corners_of_the_rook()
    ensures
        piece_art::ROOK_BODY@ == seq![
            260i32, 180, 350, 180, 350, 240, 450, 240, 450, 180, 550, 180, 550, 240, 650, 240, 650,
            180, 740, 180, 740, 330, 670, 390, 670, 680, 740, 760, 760, 860, 240, 860, 260, 760,
            330, 680, 330, 390, 260, 330,
        ],
        piece_art::ROOK_FACE@ == seq![
            298i32, 218, 312, 218, 312, 278, 488, 278, 488, 218, 512, 218, 512, 278, 688, 278, 688,
            218, 702, 218, 702, 312, 632, 374, 632, 694, 706, 778, 716, 822, 284, 822, 294, 778,
            368, 694, 368, 374, 298, 312,
        ],
        piece_art::ROOK_MARK@ == seq![
            368i32, 660, 632, 660, 632, 694, 368, 694,
        ],
{
}

/// The corners of the bishop: of its silhouette, of the area inside its rim, and of the
/// detail on that.
pub proof fn law_the_corners_of_the_bishop()
    ensures
        piece_art::BISHOP_BODY@ == seq![
            500i32, 130, 540, 170, 525, 200, 620, 300, 660, 420, 610, 540, 590, 600, 640, 700, 740,
            780, 760, 860, 240, 860, 260, 780, 360, 700, 410, 600, 390, 540, 340, 420, 380, 300,
            475, 200, 460, 170,
        ],
        piece_art::BISHOP_FACE@ == seq![
            500i32, 232, 588, 320, 620, 420, 572, 530, 550, 600, 604, 722, 706, 804, 712, 822, 288,
            822, 294, 804, 396, 722, 450, 600, 428, 530, 380, 420, 412, 320,
        ],
        piece_art::BISHOP_MARK@ == seq![
            482i32, 350, 518, 350, 518, 400, 565, 400, 565, 436, 518, 436, 518, 500, 482, 500, 482,
            436, 435, 436, 435, 400, 482, 400,
        ],
{
}

/// The corners of the knight: of its silhouette, of the area inside its rim, and of the
/// detail on that.
pub proof fn law_the_corners_of_the_knight()
    ensures
        piece_art::KNIGHT_BODY@ == seq![
            560i32, 170, 680, 260, 740, 420, 750, 640, 760, 860, 260, 860, 280, 760, 360, 640, 440,
            540, 430, 480, 340, 520, 270, 540, 230, 480, 280, 380, 350, 270, 420, 220, 430, 150,
            490, 200,
        ],
        piece_art::KNIGHT_FACE@ == seq![
            550i32, 212, 650, 288, 702, 428, 712, 640, 718, 822, 304, 822, 316, 778, 392, 664, 484,
            552, 466, 430, 330, 478, 284, 496, 274, 474, 316, 398, 380, 294, 450, 250, 462, 220,
            500, 246,
        ],
        piece_art::KNIGHT_MARK@ == seq![
            400i32, 310, 440, 310, 440, 350, 400, 350,
        ],
{
}

/// The corners of the pawn: of its silhouette, of the area inside its rim, and of the
/// detail on that.
pub proof fn law_the_corners_of_the_pawn()
    ensures
        piece_art::PAWN_BODY@ == seq![
            500i32, 180, 570, 195, 630, 255, 645, 330, 615, 400, 560, 450, 600, 600, 690, 720, 750,
            780, 760, 860, 240, 860, 250, 780, 310, 720, 400, 600, 440, 450, 385, 400, 355, 330,
            370, 255, 430, 195,
        ],
        piece_art::PAWN_FACE@ == seq![
            500i32, 222, 550, 232, 592, 275, 604, 330, 582, 378, 520, 430, 562, 612, 660, 742, 714,
            800, 718, 822, 282, 822, 286, 800, 340, 742, 438, 612, 480, 430, 418, 378, 396, 330,
            408, 275, 450, 232,
        ],
        piece_art::PAWN_MARK@ == seq![
            330i32, 770, 670, 770, 690, 790, 310, 790,
        ],
{
}

/// Whether a ring of corners is the same on either side of the upright in the middle of
/// the box: the corner opposite to each stands as far the other way round from `first`.
pub open spec fn mirrored(corners: Seq<i32>, first: int) -> bool {
    let count = corners.len() as int / 2;
    forall|k: int|
        #![trigger corners[2 * k]]
        0 <= k < count ==> {
            let j = if k <= first {
                first - k
            } else {
                first - k + count
            };
            &&& corners[2 * k] + corners[2 * j] == 1000
            &&& corners[2 * k + 1] == corners[2 * j + 1]
        }
}

/// Every piece but the knight is the same on both sides.
#[verifier::rlimit(50)]
pub proof fn law_pieces_are_the_same_on_both_sides()
    ensures
        mirrored(piece_art::KING_BODY@, 1),
        mirrored(piece_art::KING_FACE@, 0),
        mirrored(piece_art::KING_MARK@, 1),
        mirrored(piece_art::QUEEN_BODY@, 8),
        mirrored(piece_art::QUEEN_FACE@, 8),
        mirrored(piece_art::QUEEN_MARK@, 1),
        mirrored(piece_art::ROOK_BODY@, 9),
        mirrored(piece_art::ROOK_FACE@, 9),
        mirrored(piece_art::ROOK_MARK@, 1),
        mirrored(piece_art::BISHOP_BODY@, 0),
        mirrored(piece_art::BISHOP_FACE@, 0),
        mirrored(piece_art::BISHOP_MARK@, 1),
        mirrored(piece_art::PAWN_BODY@, 0),
        mirrored(piece_art::PAWN_FACE@, 0),
        mirrored(piece_art::PAWN_MARK@, 1),
{
}

} // verus!
