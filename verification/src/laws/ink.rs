//! Black pieces carry more ink than white ones.
use crate::chess;
use crate::chess::ColoredCoverage;
use crate::edge;
use crate::fill;
use crate::glyph::Glyph;
use crate::laws::blending;
use crate::laws::contours;
use crate::laws::frame;
use crate::laws::within;
use crate::path;
use crate::path::Cmd;
use crate::piece_art;
use crate::piece_art::{
    BISHOP_BODY, BISHOP_FACE, BISHOP_MARK, BLACK, KING_BODY, KING_FACE, KING_MARK, KNIGHT_BODY,
    KNIGHT_FACE, KNIGHT_MARK, PAWN_BODY, PAWN_FACE, PAWN_MARK, QUEEN_BODY, QUEEN_FACE, QUEEN_MARK,
    ROOK_BODY, ROOK_FACE, ROOK_MARK, WHITE,
};
use crate::render;
use vstd::prelude::*;

verus! {

/// How much ink a pixel carries: how dark it is, as far as it is to be seen.
pub open spec fn pixel_ink(tone: u8, alpha: u8) -> int {
    (255 - tone) * alpha / 255
}

/// A sum over the first numbers.
pub open spec fn total(f: spec_fn(int) -> int, upto: int) -> int
    decreases upto,
{
    if upto <= 0 {
        0
    } else {
        total(f, upto - 1) + f(upto - 1)
    }
}

/// How much ink an image carries.
pub open spec fn ink(image: ColoredCoverage) -> int {
    total(|i: int| pixel_ink(image.tone@[i], image.alpha@[i]), image.alpha@.len() as int)
}

/// Whether two glyphs are the white and the black side of one chess piece.
pub open spec fn two_sides(white: Glyph, black: Glyph) -> bool {
    match white {
        Glyph::ChessWhiteKing => black == Glyph::ChessBlackKing,
        Glyph::ChessWhiteQueen => black == Glyph::ChessBlackQueen,
        Glyph::ChessWhiteRook => black == Glyph::ChessBlackRook,
        Glyph::ChessWhiteBishop => black == Glyph::ChessBlackBishop,
        Glyph::ChessWhiteKnight => black == Glyph::ChessBlackKnight,
        Glyph::ChessWhitePawn => black == Glyph::ChessBlackPawn,
        _ => false,
    }
}

/// White that is laid over black never adds ink.
pub proof fn law_white_over_black_adds_no_ink(alpha: u8, source: u8)
    ensures
        pixel_ink(0, alpha) == alpha,
        ({
            let pixel = chess::blended((0, alpha), 255, source);
            pixel_ink(pixel.0, pixel.1) <= alpha
        }),
{
    assert(255 * alpha / 255 == alpha);
    if source > 0 {
        let rest = 255 - source;
        let product = alpha * rest;
        let kept = (product + 127) / 255;
        assert(0 <= product <= 254 * alpha) by (nonlinear_arith)
            requires
                product == alpha * rest,
                0 <= alpha,
                0 <= rest <= 254,
        ;
        let a = chess::blended_alpha(alpha, source);
        blending::law_layers_never_clear(alpha, source);
        assert(0 * alpha * rest == 0) by (nonlinear_arith);
        let n = 255 * source + a / 2;
        let tone = n / a;
        vstd::arithmetic::div_mod::lemma_fundamental_div_mod(n, a);
        assert(a * tone <= n < a * tone + a);
        assert(tone <= 255) by (nonlinear_arith)
            requires
                a * tone <= n,
                n <= 255 * a + a / 2,
                0 < a,
        ;
        assert((255 - tone) * a == 255 * a - a * tone) by (nonlinear_arith);
        assert(0 <= tone) by (nonlinear_arith)
            requires
                n < a * tone + a,
                0 <= n,
                0 < a,
        ;
    }
}

/// Whether a pixel is in a block of pixels, as a number.
spec fn block(left: int, top: int, right: int, bottom: int, size: int, i: int) -> int {
    if top <= i / size < bottom && left <= i % size < right {
        1
    } else {
        0
    }
}

spec fn clamped(n: int, limit: int) -> int {
    if n < 0 {
        0
    } else if n > limit {
        limit
    } else {
        n
    }
}

/// How many pixels of a block come before a given one.
proof fn lemma_block(
    left: int,
    top: int,
    right: int,
    bottom: int,
    size: int,
    row: int,
    column: int,
)
    requires
        0 <= left <= right <= size,
        0 <= top <= bottom <= size,
        0 < size,
        0 <= row,
        0 <= column <= size,
    ensures
        total(|i: int| block(left, top, right, bottom, size, i), row * size + column) == clamped(
            row - top,
            bottom - top,
        ) * (right - left) + if top <= row < bottom {
            clamped(column - left, right - left)
        } else {
            0
        },
    decreases row, column,
{
    let f = |i: int| block(left, top, right, bottom, size, i);
    let (w, h) = (right - left, bottom - top);
    if column > 0 {
        let i = row * size + column - 1;
        lemma_block(left, top, right, bottom, size, row, column - 1);
        fill::lemma_row_column(size, row, column - 1);
        assert(0 <= row * size) by (nonlinear_arith)
            requires
                0 <= row,
                0 < size,
        ;
        assert(row * size + (column - 1) == i);
        assert(f(i) == block(left, top, right, bottom, size, i));
    } else if row > 0 {
        lemma_block(left, top, right, bottom, size, row - 1, size);
        assert((row - 1) * size + size == row * size + 0) by (nonlinear_arith);
        let (before, now) = (clamped(row - 1 - top, h), clamped(row - top, h));
        if top <= row - 1 < bottom {
            assert(now * w == before * w + w) by (nonlinear_arith)
                requires
                    now == before + 1,
            ;
        }
    } else {
        assert(0 * size == 0);
        assert(clamped(0 - top, h) * w == 0 * w);
        assert(0 * w == 0);
    }
}

proof fn lemma_whole_block(left: int, top: int, right: int, bottom: int, size: int)
    requires
        0 <= left <= right <= size,
        0 <= top <= bottom <= size,
        0 < size,
    ensures
        total(|i: int| block(left, top, right, bottom, size, i), size * size) == (bottom - top) * (
        right - left),
{
    lemma_block(left, top, right, bottom, size, size, 0);
}

/// Sums keep the order of what is added up.
proof fn lemma_totals(
    dark: spec_fn(int) -> int,
    light: spec_fn(int) -> int,
    one: spec_fn(int) -> int,
    two: spec_fn(int) -> int,
    mark: spec_fn(int) -> int,
    upto: int,
)
    requires
        forall|i: int|
            0 <= i < upto ==> #[trigger] dark(i) - light(i) >= 255 * (one(i) + two(i) - mark(i)),
    ensures
        total(dark, upto) - total(light, upto) >= 255 * (total(one, upto) + total(two, upto)
            - total(mark, upto)),
    decreases upto,
{
    if upto > 0 {
        lemma_totals(dark, light, one, two, mark, upto - 1);
        assert(dark(upto - 1) - light(upto - 1) >= 255 * (one(upto - 1) + two(upto - 1) - mark(
            upto - 1,
        )));
    }
}

/// A rectangle on the face of a piece, and where the outlines of the face and of
/// the body go by it.
ghost struct Spot {
    frame: contours::Frame,
    face: (int, int),
    body: (int, int),
}

spec fn on_the_face(spot: Spot, body: Seq<i32>, face: Seq<i32>) -> bool {
    &&& within::goes_by(within::ring_of(face), spot.face.0, spot.face.1, spot.frame)
    &&& within::goes_by(within::ring_of(body), spot.body.0, spot.body.1, spot.frame)
    &&& in_the_box(spot.frame)
}

spec fn in_the_box(f: contours::Frame) -> bool {
    &&& 0 <= f.left < f.right <= 1000
    &&& 0 <= f.top < f.bottom <= 1000
}

/// Whether a rectangle is above or below another one.
spec fn level_apart(a: contours::Frame, b: contours::Frame) -> bool {
    a.bottom <= b.top || b.bottom <= a.top
}

spec fn round_the_mark(f: contours::Frame, mark: Seq<i32>) -> bool {
    &&& in_the_box(f)
    &&& forall|k: int|
        0 <= k < within::ring_of(mark).len() ==> f.holds(
            (#[trigger] within::ring_of(mark)[k]).0 as int,
            within::ring_of(mark)[k].1 as int,
        )
}

/// Which pixels a coordinate falls between.
proof fn lemma_pixels(value: int, size: int)
    requires
        0 <= value <= 1000,
        0 < size <= i32::MAX,
    ensures
        size * value - 1000 < 1000 * within::first_beyond(value, size) <= size * value,
        size * value <= 1000 * within::first_from(value, size) + 3,
        1000 * within::first_from(value, size) < size * value + 1000,
        0 <= within::first_beyond(value, size) <= within::first_from(value, size) <= size,
{
    let n = value * size * 256;
    assert(0 <= size * value <= 1000 * size) by (nonlinear_arith)
        requires
            0 <= value <= 1000,
            0 < size,
    ;
    assert(n == 256 * (size * value)) by (nonlinear_arith)
        requires
            n == value * size * 256,
    ;
    assert(edge::magnitude(path::UNITS as int) == 1000);
    assert(edge::scaled(value, size) == n / 1000);
}

/// One pixel of a piece, on both its sides.
proof fn lemma_one_pixel(
    body: Seq<i32>,
    face: Seq<i32>,
    mark: Seq<i32>,
    f: contours::Frame,
    one: Spot,
    two: Spot,
    size: int,
    i: int,
)
    requires
        0 < size <= i32::MAX,
        2 <= body.len() && body.len() % 2 == 0,
        2 <= face.len() && face.len() % 2 == 0,
        2 <= mark.len() && mark.len() % 2 == 0,
        round_the_mark(f, mark),
        on_the_face(one, body, face),
        on_the_face(two, body, face),
        level_apart(one.frame, f) && level_apart(two.frame, f) && level_apart(one.frame, two.frame),
        0 <= i < size * size,
    ensures
        ({
            let dark = chess::layered(piece_art::piece(false, body, face, mark), size, i);
            let light = chess::layered(piece_art::piece(true, body, face, mark), size, i);
            let (row, column) = (i / size, i % size);
            &&& 0 <= pixel_ink(dark.0, dark.1) <= 255
            &&& 0 <= pixel_ink(light.0, light.1) <= 255
            &&& !within::touches_pixel(f, size, row, column) ==> pixel_ink(light.0, light.1)
                <= pixel_ink(dark.0, dark.1)
            &&& within::holds_pixel(one.frame, size, row, column) || within::holds_pixel(
                two.frame,
                size,
                row,
                column,
            ) ==> pixel_ink(light.0, light.1) == 0 && pixel_ink(dark.0, dark.1) == 255
        }),
{
    let (row, column) = (i / size, i % size);
    let (b, c, d) = (piece_art::through(body), piece_art::through(face), piece_art::through(mark));
    let black = piece_art::piece(false, body, face, mark);
    let white = piece_art::piece(true, body, face, mark);
    let (base, two_layers) = (seq![(BLACK, b)], seq![(BLACK, b), (WHITE, c)]);
    assert(base.drop_last() =~= Seq::<(u8, Seq<Cmd>)>::empty());
    assert(black.drop_last() =~= base);
    assert(white.drop_last() =~= two_layers);
    assert(two_layers.drop_last() =~= base);
    let under = render::picture(seq![path::Figure::Fill(b)], size)[i];
    let lit = render::picture(seq![path::Figure::Fill(c)], size)[i];
    let top = render::picture(seq![path::Figure::Fill(d)], size)[i];
    assert(chess::layered(Seq::<(u8, Seq<Cmd>)>::empty(), size, i) == (0u8, 0u8));
    let first = chess::blended((0, 0), BLACK, under);
    assert(chess::layered(base, size, i) == first);
    if under > 0 {
        blending::law_the_first_layer_shows_as_it_is(0, BLACK, under);
    }
    let second = chess::blended(first, WHITE, lit);
    assert(chess::layered(two_layers, size, i) == second);
    let light = chess::layered(white, size, i);
    let dark = chess::layered(black, size, i);
    assert(light == chess::blended(second, BLACK, top));
    assert(dark == chess::blended(first, WHITE, top));
    lemma_ink_bounds(light.0, light.1);
    lemma_ink_bounds(dark.0, dark.1);
    law_white_over_black_adds_no_ink(under, lit);
    if !within::touches_pixel(f, size, row, column) {
        within::law_pixels_well_outside_are_blank(mark, f, size, row, column);
    }
    if within::holds_pixel(one.frame, size, row, column) {
        lemma_solid_spot(body, face, one, size, row, column);
        lemma_not_on_the_mark(one.frame, f, size, row, column);
        blending::law_a_solid_layer_hides_the_rest(first, WHITE);
    } else if within::holds_pixel(two.frame, size, row, column) {
        lemma_solid_spot(body, face, two, size, row, column);
        lemma_not_on_the_mark(two.frame, f, size, row, column);
        blending::law_a_solid_layer_hides_the_rest(first, WHITE);
    }
}

proof fn lemma_ink_bounds(tone: u8, alpha: u8)
    ensures
        0 <= pixel_ink(tone, alpha) <= 255,
{
    let n = (255 - tone) * alpha;
    assert(0 <= n <= 255 * 255) by (nonlinear_arith)
        requires
            n == (255 - tone) * alpha,
            0 <= tone <= 255,
            0 <= alpha <= 255,
    ;
}

proof fn lemma_solid_spot(
    body: Seq<i32>,
    face: Seq<i32>,
    spot: Spot,
    size: int,
    row: int,
    column: int,
)
    requires
        0 < size <= i32::MAX,
        2 <= body.len() && body.len() % 2 == 0,
        2 <= face.len() && face.len() % 2 == 0,
        on_the_face(spot, body, face),
        within::holds_pixel(spot.frame, size, row, column),
    ensures
        fill::pixel_alpha(
            render::picture_edges(seq![path::Figure::Fill(piece_art::through(body))], size),
            row,
            column,
        ) == 255,
        fill::pixel_alpha(
            render::picture_edges(seq![path::Figure::Fill(piece_art::through(face))], size),
            row,
            column,
        ) == 255,
{
    let f = spot.frame;
    within::law_pixels_well_within_are_solid(face, spot.face.0, spot.face.1, f, size, row, column);
    within::law_pixels_well_within_are_solid(body, spot.body.0, spot.body.1, f, size, row, column);
}

proof fn lemma_not_on_the_mark(
    spot: contours::Frame,
    f: contours::Frame,
    size: int,
    row: int,
    column: int,
)
    requires
        0 < size,
        level_apart(spot, f),
        within::holds_pixel(spot, size, row, column),
    ensures
        !within::touches_pixel(f, size, row, column),
{
    if spot.bottom <= f.top {
        frame::law_scaling_keeps_order(spot.bottom, f.top, size);
    } else {
        frame::law_scaling_keeps_order(f.bottom, spot.top, size);
    }
}

/// A piece with more pixels on two spots of its face than round its mark carries
/// more ink in black than in white.
proof fn lemma_more_ink(
    body: Seq<i32>,
    face: Seq<i32>,
    mark: Seq<i32>,
    f: contours::Frame,
    one: Spot,
    two: Spot,
    size: int,
    light: ColoredCoverage,
    dark: ColoredCoverage,
)
    requires
        96 <= size <= i32::MAX,
        2 <= body.len() && body.len() % 2 == 0,
        2 <= face.len() && face.len() % 2 == 0,
        2 <= mark.len() && mark.len() % 2 == 0,
        round_the_mark(f, mark),
        on_the_face(one, body, face),
        on_the_face(two, body, face),
        level_apart(one.frame, f) && level_apart(two.frame, f) && level_apart(one.frame, two.frame),
        roomy(one.frame) && roomy(two.frame),
        spare(one.frame, size) + spare(two.frame, size) > taken(f, size),
        chess::shows(light, piece_art::piece(true, body, face, mark), size),
        chess::shows(dark, piece_art::piece(false, body, face, mark), size),
    ensures
        ink(dark) > ink(light),
{
    let (a, b) = (one.frame, two.frame);
    lemma_frame_pixels(a, size);
    lemma_frame_pixels(b, size);
    lemma_frame_pixels(f, size);
    let on_one = |i: int|
        block(
            within::first_from(a.left, size),
            within::first_from(a.top, size),
            within::first_beyond(a.right, size),
            within::first_beyond(a.bottom, size),
            size,
            i,
        );
    let on_two = |i: int|
        block(
            within::first_from(b.left, size),
            within::first_from(b.top, size),
            within::first_beyond(b.right, size),
            within::first_beyond(b.bottom, size),
            size,
            i,
        );
    let on_mark = |i: int|
        block(
            within::first_beyond(f.left, size),
            within::first_beyond(f.top, size),
            within::first_from(f.right, size),
            within::first_from(f.bottom, size),
            size,
            i,
        );
    let black = |i: int| pixel_ink(dark.tone@[i], dark.alpha@[i]);
    let white = |i: int| pixel_ink(light.tone@[i], light.alpha@[i]);
    assert(0 <= size * size) by (nonlinear_arith);
    assert forall|i: int| 0 <= i < size * size implies #[trigger] black(i) - white(i) >= 255 * (
    on_one(i) + on_two(i) - on_mark(i)) by {
        lemma_one_pixel(body, face, mark, f, one, two, size, i);
        if within::holds_pixel(a, size, i / size, i % size) {
            lemma_not_on_the_mark(a, f, size, i / size, i % size);
            lemma_not_on_both(a, b, size, i / size, i % size);
        } else if within::holds_pixel(b, size, i / size, i % size) {
            lemma_not_on_the_mark(b, f, size, i / size, i % size);
        }
    }
    lemma_totals(black, white, on_one, on_two, on_mark, size * size);
    lemma_whole_block(
        within::first_from(a.left, size),
        within::first_from(a.top, size),
        within::first_beyond(a.right, size),
        within::first_beyond(a.bottom, size),
        size,
    );
    lemma_whole_block(
        within::first_from(b.left, size),
        within::first_from(b.top, size),
        within::first_beyond(b.right, size),
        within::first_beyond(b.bottom, size),
        size,
    );
    lemma_whole_block(
        within::first_beyond(f.left, size),
        within::first_beyond(f.top, size),
        within::first_from(f.right, size),
        within::first_from(f.bottom, size),
        size,
    );
}

proof fn lemma_not_on_both(
    a: contours::Frame,
    b: contours::Frame,
    size: int,
    row: int,
    column: int,
)
    requires
        0 < size,
        level_apart(a, b),
        within::holds_pixel(a, size, row, column),
    ensures
        !within::holds_pixel(b, size, row, column),
{
    if a.bottom <= b.top {
        frame::law_scaling_keeps_order(a.bottom, b.top, size);
    } else {
        frame::law_scaling_keeps_order(b.bottom, a.top, size);
    }
}

/// Large enough for some pixels from a size of 96 on.
spec fn roomy(f: contours::Frame) -> bool {
    &&& f.left + 40 <= f.right
    &&& f.top + 40 <= f.bottom
}

/// At least so many millionths of pixels lie in a rectangle as a whole.
spec fn spare(f: contours::Frame, size: int) -> int {
    (size * (f.bottom - f.top) - 2000) * (size * (f.right - f.left) - 2000)
}

/// At most so many millionths of pixels have something in a rectangle.
spec fn taken(f: contours::Frame, size: int) -> int {
    (size * (f.bottom - f.top) + 2000) * (size * (f.right - f.left) + 2000)
}

/// How many pixels a rectangle has, and how many have something of it.
proof fn lemma_frame_pixels(f: contours::Frame, size: int)
    requires
        96 <= size <= i32::MAX,
        in_the_box(f),
    ensures
        0 <= within::first_from(f.left, size) && within::first_beyond(f.right, size) <= size,
        0 <= within::first_from(f.top, size) && within::first_beyond(f.bottom, size) <= size,
        0 <= within::first_beyond(f.left, size) <= within::first_from(f.right, size) <= size,
        0 <= within::first_beyond(f.top, size) <= within::first_from(f.bottom, size) <= size,
        1000000 * ((within::first_from(f.bottom, size) - within::first_beyond(f.top, size)) * (
        within::first_from(f.right, size) - within::first_beyond(f.left, size))) <= taken(f, size),
        roomy(f) ==> within::first_from(f.left, size) <= within::first_beyond(f.right, size)
            && within::first_from(f.top, size) <= within::first_beyond(f.bottom, size) && spare(
            f,
            size,
        ) <= 1000000 * ((within::first_beyond(f.bottom, size) - within::first_from(f.top, size)) * (
        within::first_beyond(f.right, size) - within::first_from(f.left, size))),
{
    lemma_pixels(f.left, size);
    lemma_pixels(f.right, size);
    lemma_pixels(f.top, size);
    lemma_pixels(f.bottom, size);
    frame::law_scaling_keeps_order(f.left, f.right, size);
    frame::law_scaling_keeps_order(f.top, f.bottom, size);
    let (w, h) = (f.right - f.left, f.bottom - f.top);
    assert(size * w == size * f.right - size * f.left) by (nonlinear_arith)
        requires
            w == f.right - f.left,
    ;
    assert(size * h == size * f.bottom - size * f.top) by (nonlinear_arith)
        requires
            h == f.bottom - f.top,
    ;
    let (m, n) = (
        within::first_from(f.right, size) - within::first_beyond(f.left, size),
        within::first_from(f.bottom, size) - within::first_beyond(f.top, size),
    );
    let (p, q) = (size * w + 2000, size * h + 2000);
    assert(1000000 * (n * m) <= q * p) by (nonlinear_arith)
        requires
            0 <= 1000 * m <= p,
            0 <= 1000 * n <= q,
    ;
    if roomy(f) {
        assert(96 * 40 <= size * w && 96 * 40 <= size * h) by (nonlinear_arith)
            requires
                96 <= size,
                40 <= w,
                40 <= h,
        ;
        let (u, v) = (
            within::first_beyond(f.right, size) - within::first_from(f.left, size),
            within::first_beyond(f.bottom, size) - within::first_from(f.top, size),
        );
        let (s, t) = (size * w - 2000, size * h - 2000);
        assert(t * s <= 1000000 * (v * u)) by (nonlinear_arith)
            requires
                0 <= s <= 1000 * u,
                0 <= t <= 1000 * v,
        ;
    }
}

/// Black pieces carry more ink than white ones: of the two sides of a chess
/// piece, the black one has more, at every size from 96 on.
pub proof fn law_black_pieces_carry_more_ink(
    white: Glyph,
    black: Glyph,
    size: int,
    light: ColoredCoverage,
    dark: ColoredCoverage,
)
    requires
        two_sides(white, black),
        96 <= size <= i32::MAX,
        chess::shows(light, piece_art::piece_layers(white)->0, size),
        chess::shows(dark, piece_art::piece_layers(black)->0, size),
    ensures
        piece_art::piece_layers(white) is Some,
        piece_art::piece_layers(black) is Some,
        ink(dark) > ink(light),
{
    match white {
        Glyph::ChessWhiteKing => lemma_king(size, light, dark),
        Glyph::ChessWhiteQueen => lemma_queen(size, light, dark),
        Glyph::ChessWhiteRook => lemma_rook(size, light, dark),
        Glyph::ChessWhiteBishop => lemma_bishop(size, light, dark),
        Glyph::ChessWhiteKnight => lemma_knight(size, light, dark),
        Glyph::ChessWhitePawn => lemma_pawn(size, light, dark),
        _ => {},
    }
}

spec fn king_spots() -> (contours::Frame, Spot, Spot) {
    (
        contours::Frame { left: 322, top: 690, right: 678, bottom: 724 },
        Spot {
            frame: contours::Frame { left: 264, top: 396, right: 736, bottom: 548 },
            face: (11, 13),
            body: (17, 19),
        },
        Spot {
            frame: contours::Frame { left: 322, top: 548, right: 678, bottom: 690 },
            face: (9, 11),
            body: (15, 18),
        },
    )
}

proof fn lemma_king_spots()
    ensures
        round_the_mark(king_spots().0, KING_MARK@),
        on_the_face(king_spots().1, KING_BODY@, KING_FACE@),
        on_the_face(king_spots().2, KING_BODY@, KING_FACE@),
{
    let (f, one, two) = king_spots();
    reveal_with_fuel(within::clear_upto, 27);
    within::lemma_goes_by(KING_FACE@, one.face.0, one.face.1, one.frame);
    within::lemma_goes_by(KING_BODY@, one.body.0, one.body.1, one.frame);
    within::lemma_goes_by(KING_FACE@, two.face.0, two.face.1, two.frame);
    within::lemma_goes_by(KING_BODY@, two.body.0, two.body.1, two.frame);
}

proof fn lemma_king(size: int, light: ColoredCoverage, dark: ColoredCoverage)
    requires
        96 <= size <= i32::MAX,
        chess::shows(light, piece_art::piece(true, KING_BODY@, KING_FACE@, KING_MARK@), size),
        chess::shows(dark, piece_art::piece(false, KING_BODY@, KING_FACE@, KING_MARK@), size),
    ensures
        ink(dark) > ink(light),
{
    let (f, one, two) = king_spots();
    lemma_king_spots();
    assert((size * 152 - 2000) * (size * 472 - 2000) + (size * 142 - 2000) * (size * 356 - 2000)
        > (size * 34 + 2000) * (size * 356 + 2000)) by (nonlinear_arith)
        requires
            96 <= size,
    ;
    lemma_more_ink(KING_BODY@, KING_FACE@, KING_MARK@, f, one, two, size, light, dark);
}

spec fn queen_spots() -> (contours::Frame, Spot, Spot) {
    (
        contours::Frame { left: 290, top: 690, right: 710, bottom: 724 },
        Spot {
            frame: contours::Frame { left: 298, top: 600, right: 702, bottom: 690 },
            face: (13, 15),
            body: (13, 15),
        },
        Spot {
            frame: contours::Frame { left: 298, top: 724, right: 702, bottom: 822 },
            face: (12, 14),
            body: (12, 14),
        },
    )
}

proof fn lemma_queen_spots()
    ensures
        round_the_mark(queen_spots().0, QUEEN_MARK@),
        on_the_face(queen_spots().1, QUEEN_BODY@, QUEEN_FACE@),
        on_the_face(queen_spots().2, QUEEN_BODY@, QUEEN_FACE@),
{
    let (f, one, two) = queen_spots();
    reveal_with_fuel(within::clear_upto, 27);
    within::lemma_goes_by(QUEEN_FACE@, one.face.0, one.face.1, one.frame);
    within::lemma_goes_by(QUEEN_BODY@, one.body.0, one.body.1, one.frame);
    within::lemma_goes_by(QUEEN_FACE@, two.face.0, two.face.1, two.frame);
    within::lemma_goes_by(QUEEN_BODY@, two.body.0, two.body.1, two.frame);
}

proof fn lemma_queen(size: int, light: ColoredCoverage, dark: ColoredCoverage)
    requires
        96 <= size <= i32::MAX,
        chess::shows(light, piece_art::piece(true, QUEEN_BODY@, QUEEN_FACE@, QUEEN_MARK@), size),
        chess::shows(dark, piece_art::piece(false, QUEEN_BODY@, QUEEN_FACE@, QUEEN_MARK@), size),
    ensures
        ink(dark) > ink(light),
{
    let (f, one, two) = queen_spots();
    lemma_queen_spots();
    assert((size * 90 - 2000) * (size * 404 - 2000) + (size * 98 - 2000) * (size * 404 - 2000)
        > (size * 34 + 2000) * (size * 420 + 2000)) by (nonlinear_arith)
        requires
            96 <= size,
    ;
    lemma_more_ink(QUEEN_BODY@, QUEEN_FACE@, QUEEN_MARK@, f, one, two, size, light, dark);
}

spec fn rook_spots() -> (contours::Frame, Spot, Spot) {
    (
        contours::Frame { left: 368, top: 660, right: 632, bottom: 694 },
        Spot {
            frame: contours::Frame { left: 368, top: 278, right: 632, bottom: 660 },
            face: (17, 20),
            body: (17, 20),
        },
        Spot {
            frame: contours::Frame { left: 368, top: 694, right: 632, bottom: 822 },
            face: (15, 17),
            body: (15, 17),
        },
    )
}

proof fn lemma_rook_spots()
    ensures
        round_the_mark(rook_spots().0, ROOK_MARK@),
        on_the_face(rook_spots().1, ROOK_BODY@, ROOK_FACE@),
        on_the_face(rook_spots().2, ROOK_BODY@, ROOK_FACE@),
{
    let (f, one, two) = rook_spots();
    reveal_with_fuel(within::clear_upto, 27);
    within::lemma_goes_by(ROOK_FACE@, one.face.0, one.face.1, one.frame);
    within::lemma_goes_by(ROOK_BODY@, one.body.0, one.body.1, one.frame);
    within::lemma_goes_by(ROOK_FACE@, two.face.0, two.face.1, two.frame);
    within::lemma_goes_by(ROOK_BODY@, two.body.0, two.body.1, two.frame);
}

proof fn lemma_rook(size: int, light: ColoredCoverage, dark: ColoredCoverage)
    requires
        96 <= size <= i32::MAX,
        chess::shows(light, piece_art::piece(true, ROOK_BODY@, ROOK_FACE@, ROOK_MARK@), size),
        chess::shows(dark, piece_art::piece(false, ROOK_BODY@, ROOK_FACE@, ROOK_MARK@), size),
    ensures
        ink(dark) > ink(light),
{
    let (f, one, two) = rook_spots();
    lemma_rook_spots();
    assert((size * 382 - 2000) * (size * 264 - 2000) + (size * 128 - 2000) * (size * 264 - 2000)
        > (size * 34 + 2000) * (size * 264 + 2000)) by (nonlinear_arith)
        requires
            96 <= size,
    ;
    lemma_more_ink(ROOK_BODY@, ROOK_FACE@, ROOK_MARK@, f, one, two, size, light, dark);
}

spec fn bishop_spots() -> (contours::Frame, Spot, Spot) {
    (
        contours::Frame { left: 435, top: 350, right: 565, bottom: 500 },
        Spot {
            frame: contours::Frame { left: 450, top: 500, right: 550, bottom: 722 },
            face: (10, 13),
            body: (11, 15),
        },
        Spot {
            frame: contours::Frame { left: 396, top: 722, right: 604, bottom: 822 },
            face: (8, 10),
            body: (10, 12),
        },
    )
}

proof fn lemma_bishop_spots()
    ensures
        round_the_mark(bishop_spots().0, BISHOP_MARK@),
        on_the_face(bishop_spots().1, BISHOP_BODY@, BISHOP_FACE@),
        on_the_face(bishop_spots().2, BISHOP_BODY@, BISHOP_FACE@),
{
    let (f, one, two) = bishop_spots();
    reveal_with_fuel(within::clear_upto, 27);
    within::lemma_goes_by(BISHOP_FACE@, one.face.0, one.face.1, one.frame);
    within::lemma_goes_by(BISHOP_BODY@, one.body.0, one.body.1, one.frame);
    within::lemma_goes_by(BISHOP_FACE@, two.face.0, two.face.1, two.frame);
    within::lemma_goes_by(BISHOP_BODY@, two.body.0, two.body.1, two.frame);
}

proof fn lemma_bishop(size: int, light: ColoredCoverage, dark: ColoredCoverage)
    requires
        96 <= size <= i32::MAX,
        chess::shows(light, piece_art::piece(true, BISHOP_BODY@, BISHOP_FACE@, BISHOP_MARK@), size),
        chess::shows(dark, piece_art::piece(false, BISHOP_BODY@, BISHOP_FACE@, BISHOP_MARK@), size),
    ensures
        ink(dark) > ink(light),
{
    let (f, one, two) = bishop_spots();
    lemma_bishop_spots();
    assert((size * 222 - 2000) * (size * 100 - 2000) + (size * 100 - 2000) * (size * 208 - 2000)
        > (size * 150 + 2000) * (size * 130 + 2000)) by (nonlinear_arith)
        requires
            96 <= size,
    ;
    lemma_more_ink(BISHOP_BODY@, BISHOP_FACE@, BISHOP_MARK@, f, one, two, size, light, dark);
}

spec fn knight_spots() -> (contours::Frame, Spot, Spot) {
    (
        contours::Frame { left: 400, top: 310, right: 440, bottom: 350 },
        Spot {
            frame: contours::Frame { left: 484, top: 350, right: 650, bottom: 664 },
            face: (7, 14),
            body: (6, 14),
        },
        Spot {
            frame: contours::Frame { left: 392, top: 664, right: 712, bottom: 822 },
            face: (5, 7),
            body: (5, 7),
        },
    )
}

proof fn lemma_knight_spots()
    ensures
        round_the_mark(knight_spots().0, KNIGHT_MARK@),
        on_the_face(knight_spots().1, KNIGHT_BODY@, KNIGHT_FACE@),
        on_the_face(knight_spots().2, KNIGHT_BODY@, KNIGHT_FACE@),
{
    let (f, one, two) = knight_spots();
    reveal_with_fuel(within::clear_upto, 27);
    within::lemma_goes_by(KNIGHT_FACE@, one.face.0, one.face.1, one.frame);
    within::lemma_goes_by(KNIGHT_BODY@, one.body.0, one.body.1, one.frame);
    within::lemma_goes_by(KNIGHT_FACE@, two.face.0, two.face.1, two.frame);
    within::lemma_goes_by(KNIGHT_BODY@, two.body.0, two.body.1, two.frame);
}

proof fn lemma_knight(size: int, light: ColoredCoverage, dark: ColoredCoverage)
    requires
        96 <= size <= i32::MAX,
        chess::shows(light, piece_art::piece(true, KNIGHT_BODY@, KNIGHT_FACE@, KNIGHT_MARK@), size),
        chess::shows(dark, piece_art::piece(false, KNIGHT_BODY@, KNIGHT_FACE@, KNIGHT_MARK@), size),
    ensures
        ink(dark) > ink(light),
{
    let (f, one, two) = knight_spots();
    lemma_knight_spots();
    assert((size * 314 - 2000) * (size * 166 - 2000) + (size * 158 - 2000) * (size * 320 - 2000)
        > (size * 40 + 2000) * (size * 40 + 2000)) by (nonlinear_arith)
        requires
            96 <= size,
    ;
    lemma_more_ink(KNIGHT_BODY@, KNIGHT_FACE@, KNIGHT_MARK@, f, one, two, size, light, dark);
}

spec fn pawn_spots() -> (contours::Frame, Spot, Spot) {
    (
        contours::Frame { left: 310, top: 770, right: 690, bottom: 790 },
        Spot {
            frame: contours::Frame { left: 418, top: 275, right: 582, bottom: 378 },
            face: (15, 17),
            body: (15, 17),
        },
        Spot {
            frame: contours::Frame { left: 438, top: 612, right: 562, bottom: 770 },
            face: (11, 13),
            body: (11, 13),
        },
    )
}

proof fn lemma_pawn_spots()
    ensures
        round_the_mark(pawn_spots().0, PAWN_MARK@),
        on_the_face(pawn_spots().1, PAWN_BODY@, PAWN_FACE@),
        on_the_face(pawn_spots().2, PAWN_BODY@, PAWN_FACE@),
{
    let (f, one, two) = pawn_spots();
    reveal_with_fuel(within::clear_upto, 27);
    within::lemma_goes_by(PAWN_FACE@, one.face.0, one.face.1, one.frame);
    within::lemma_goes_by(PAWN_BODY@, one.body.0, one.body.1, one.frame);
    within::lemma_goes_by(PAWN_FACE@, two.face.0, two.face.1, two.frame);
    within::lemma_goes_by(PAWN_BODY@, two.body.0, two.body.1, two.frame);
}

proof fn lemma_pawn(size: int, light: ColoredCoverage, dark: ColoredCoverage)
    requires
        96 <= size <= i32::MAX,
        chess::shows(light, piece_art::piece(true, PAWN_BODY@, PAWN_FACE@, PAWN_MARK@), size),
        chess::shows(dark, piece_art::piece(false, PAWN_BODY@, PAWN_FACE@, PAWN_MARK@), size),
    ensures
        ink(dark) > ink(light),
{
    let (f, one, two) = pawn_spots();
    lemma_pawn_spots();
    assert((size * 103 - 2000) * (size * 164 - 2000) + (size * 158 - 2000) * (size * 124 - 2000)
        > (size * 20 + 2000) * (size * 380 + 2000)) by (nonlinear_arith)
        requires
            96 <= size,
    ;
    lemma_more_ink(PAWN_BODY@, PAWN_FACE@, PAWN_MARK@, f, one, two, size, light, dark);
}

} // verus!
