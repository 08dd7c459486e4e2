use kobo_ui::{
    back_arrow, bluetooth, chess_coverage, render, shapes, wifi, ChessCache, Glyph, Path, Shape,
    Signal, UNITS, WEIGHT,
};

const EVERY: [Glyph; Glyph::ALL.len()] = Glyph::ALL;

fn inked(glyph: Glyph, size: i32) -> usize {
    render(&shapes(glyph), size)
        .alpha
        .iter()
        .filter(|&&value| value > 0)
        .count()
}

fn chess_ink(glyph: Glyph, size: i32) -> usize {
    let image = chess_coverage(&mut ChessCache::new(), glyph, size).expect("chess artwork");
    image
        .tone
        .iter()
        .zip(&image.alpha)
        .map(|(&tone, &alpha)| usize::from(255 - tone) * usize::from(alpha) / 255)
        .sum()
}

/// The vertical extent of the ink, in design units.
fn ink_band(shapes: &[Shape]) -> (i32, i32) {
    const SIZE: i32 = 200;
    let coverage = render(shapes, SIZE);
    let (mut top, mut bottom) = (i32::MAX, i32::MIN);
    for row in 0..SIZE {
        for column in 0..SIZE {
            if coverage.at(column, row) > 0 {
                top = top.min(row);
                bottom = bottom.max(row);
            }
        }
    }
    let to_units = |value: i32| value * UNITS / SIZE;
    (to_units(top), to_units(bottom))
}

#[test]
fn black_chess_pieces_carry_more_ink_than_white_pieces() {
    for (white, black) in [
        (Glyph::ChessWhiteKing, Glyph::ChessBlackKing),
        (Glyph::ChessWhiteQueen, Glyph::ChessBlackQueen),
        (Glyph::ChessWhiteRook, Glyph::ChessBlackRook),
        (Glyph::ChessWhiteBishop, Glyph::ChessBlackBishop),
        (Glyph::ChessWhiteKnight, Glyph::ChessBlackKnight),
        (Glyph::ChessWhitePawn, Glyph::ChessBlackPawn),
    ] {
        assert!(chess_ink(black, 96) > chess_ink(white, 96));
    }
}

#[test]
fn the_status_marks_sit_on_one_line() {
    // These are drawn side by side in a strip eight pixels tall, where a mark
    // hung fifty units low out of a thousand is plainly crooked to the eye but
    // invisible to a test that only asks whether the glyph drew anything.
    let marks = [
        ("bluetooth", bluetooth()),
        ("wifi", wifi(Signal::Strong)),
        ("wifi off", wifi(Signal::Off)),
    ];
    for (name, shapes) in marks {
        let (top, bottom) = ink_band(&shapes);
        let centre = (top + bottom) / 2;
        let drift = (centre - UNITS / 2).abs();
        assert!(
            drift <= 20,
            "the {name} mark centres at {centre} rather than {}, which reads as crooked \
             beside the marks either side of it",
            UNITS / 2
        );
    }
}

#[test]
fn every_glyph_draws_something_at_every_size_a_panel_asks_for() {
    // The sizes the row and tile layouts produce across the supported panels.
    // An icon that vanishes at one of them is a blank space beside a label.
    for glyph in EVERY {
        for size in [24, 32, 40, 48, 56, 64, 96] {
            assert!(inked(glyph, size) > 0, "{glyph:?} vanished at {size}");
        }
    }
}

#[test]
fn nothing_is_drawn_outside_the_box() {
    // Coverage is indexed by the caller against the rect it asked for, so an
    // icon whose geometry left the unit box would silently overdraw the text
    // beside it.
    for glyph in EVERY {
        let coverage = render(&shapes(glyph), 64);
        assert_eq!(coverage.alpha.len(), 64 * 64, "{glyph:?}");
        for edge in 0..64 {
            assert_eq!(coverage.at(-1, edge), 0);
            assert_eq!(coverage.at(64, edge), 0);
        }
    }
}

#[test]
fn an_icon_grows_with_the_box_rather_than_staying_the_same_size() {
    // The whole point. A bitmap grid scaled by whole cells drew the same
    // number of inked cells at 33 pixels as at 48.
    for glyph in EVERY {
        let small = inked(glyph, 32);
        let large = inked(glyph, 64);
        assert!(large > small * 2, "{glyph:?}: {small} then {large}");
    }
}

#[test]
fn edges_are_grey_rather_than_stepped() {
    // If every value is 0 or 255 the rasteriser is not antialiasing at all,
    // and diagonals will stair-step exactly as bitmaps do.
    let coverage = render(&shapes(Glyph::Search), 64);
    let partial = coverage
        .alpha
        .iter()
        .filter(|&&value| value > 0 && value < 255)
        .count();
    assert!(partial > 40, "only {partial} grey pixels");
}

#[test]
fn chess_pieces_are_vector_art_with_distinct_sides() {
    let white = chess_ink(Glyph::ChessWhiteQueen, 64);
    let black = chess_ink(Glyph::ChessBlackQueen, 64);
    assert!(white > 200, "white queen is too faint: {white}");
    assert!(black > white, "black queen must read darker than white");
    for glyph in [
        Glyph::ChessWhiteKing,
        Glyph::ChessWhiteQueen,
        Glyph::ChessWhiteRook,
        Glyph::ChessWhiteBishop,
        Glyph::ChessWhiteKnight,
        Glyph::ChessWhitePawn,
        Glyph::ChessBlackKing,
        Glyph::ChessBlackQueen,
        Glyph::ChessBlackRook,
        Glyph::ChessBlackBishop,
        Glyph::ChessBlackKnight,
        Glyph::ChessBlackPawn,
    ] {
        assert!(inked(glyph, 64) > 150, "{glyph:?} did not render");
    }
}

#[test]
fn a_stroke_corner_is_solid_rather_than_holed() {
    // The failure this covers: the quadrilateral for a segment and the disc at
    // its joint are generated independently, and if they are wound oppositely
    // the non-zero rule cancels them and punches a hole at every corner.
    let path = Path::new()
        .move_to(200, 200)
        .line_to(800, 200)
        .line_to(800, 800);
    let coverage = render(&[Shape::Stroke { path, width: 120 }], 100);
    assert_eq!(coverage.at(80, 20), 255, "the corner has a hole in it");
}

#[test]
fn the_back_arrow_is_cut_like_every_other_mark() {
    // A stroke half again the weight the icon set uses would make the one
    // control guaranteed to be on every screen the odd one out in its own bar.
    let shapes = back_arrow();
    let Some(Shape::Stroke { width, .. }) = shapes.first() else {
        panic!("the back mark is a stroke");
    };
    assert_eq!(*width, WEIGHT, "the back mark is cut to its own weight");
    let coverage = render(&shapes, 60);
    let inked = coverage.alpha.iter().filter(|&&value| value > 0).count();
    assert!(inked * 3 < 60 * 60, "the arrow still fills {inked} pixels");
    assert!(inked > 100, "the arrow is too faint at {inked} pixels");
}

#[test]
fn a_zero_sized_box_is_empty_rather_than_a_panic() {
    assert!(render(&shapes(Glyph::App), 0).alpha.is_empty());
    assert!(render(&shapes(Glyph::App), -5).alpha.is_empty());
}

#[test]
fn the_design_box_is_the_one_the_geometry_uses() {
    // A guard on the constant: every icon is authored against it.
    assert_eq!(UNITS, 1000);
}
