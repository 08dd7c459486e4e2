use kobo_ui::curve::{cubic_point, quad_point};
use kobo_ui::edge::{divide, push_contour, Edge};
use kobo_ui::fill::{add_span, fill};
use kobo_ui::flatten::flatten;
use kobo_ui::icon::{black_shapes, game_piece_shapes, stroke_shapes};
use kobo_ui::line_art::outline as line_outlines;
use kobo_ui::mark::{BATTERY_WEIGHT, RADIO_WEIGHT};
use kobo_ui::piece_art::{layers, BLACK, WHITE};
use kobo_ui::root::{half_root_of, length_of};
use kobo_ui::stroke::{disc, outline};
use kobo_ui::{
    back_arrow, battery, bluetooth, render, shapes, wifi, Cmd, Coverage, Glyph, Path, Percent,
    Shape, Signal, WEIGHT,
};

fn block(left: i32, top: i32, right: i32, bottom: i32) -> Shape {
    Shape::Fill(
        Path::new()
            .move_to(left, top)
            .line_to(right, top)
            .line_to(right, bottom)
            .line_to(left, bottom)
            .close(),
    )
}

fn ink(coverage: &Coverage) -> u64 {
    coverage.alpha.iter().map(|&value| u64::from(value)).sum()
}

// Pictures.

#[test]
fn shapes_can_be_drawn_in_any_order() {
    let all = shapes(Glyph::Mill);
    let mut back = all.clone();
    back.reverse();
    assert_ne!(all, back);
    assert_eq!(render(&all, 40), render(&back, 40));
}

#[test]
fn drawing_everything_twice_is_drawing_it_once() {
    let once = shapes(Glyph::Backspace);
    let mut twice = once.clone();
    twice.extend(once.clone());
    assert_eq!(render(&once, 40), render(&twice, 40));
}

#[test]
fn nothing_drawn_is_nothing_seen() {
    let coverage = render(&[], 3);
    assert_eq!(coverage.size, 3);
    assert_eq!(coverage.alpha, vec![0; 9]);
}

#[test]
fn a_block_over_the_whole_box_is_solid() {
    assert_eq!(render(&[block(0, 0, 1000, 1000)], 4).alpha, vec![255; 16]);
    assert_eq!(render(&[block(-900, -900, 1900, 1900)], 2).alpha, vec![255; 4]);
}

#[test]
fn a_block_covers_what_lies_between_its_sides() {
    // In a box of two pixels, 250 units are half a pixel.
    let coverage = render(&[block(250, 0, 1000, 500)], 2);
    assert_eq!(coverage.alpha, vec![127, 255, 0, 0]);
    let coverage = render(&[block(0, 250, 500, 1000)], 2);
    assert_eq!(coverage.alpha, vec![127, 0, 255, 0]);
    // Half of half a pixel.
    let coverage = render(&[block(250, 250, 500, 500)], 2);
    assert_eq!(coverage.alpha, vec![63, 0, 0, 0]);
}

#[test]
fn a_pixel_is_read_by_its_column_and_its_row() {
    let coverage = render(&[block(500, 0, 1000, 500)], 2);
    assert_eq!(coverage.at(1, 0), 255);
    assert_eq!(coverage.at(0, 1), 0);
    for (x, y) in [(-1, 0), (0, -1), (2, 0), (0, 2), (i32::MAX, i32::MAX), (i32::MIN, 0)] {
        assert_eq!(coverage.at(x, y), 0);
    }
}

#[test]
fn reading_where_the_values_run_out_gives_nothing() {
    let short = Coverage { size: 3, alpha: vec![9; 4] };
    assert_eq!(short.at(0, 1), 9);
    assert_eq!(short.at(1, 1), 0);
    assert_eq!(short.at(2, 2), 0);
    let huge = Coverage { size: i32::MAX, alpha: vec![1] };
    assert_eq!(huge.at(0, 0), 1);
    assert_eq!(huge.at(i32::MAX - 1, i32::MAX - 1), 0);
}

#[test]
fn coverage_and_shapes_can_be_copied() {
    let coverage = render(&shapes(Glyph::Search), 16);
    assert_eq!(coverage.clone(), coverage);
    let all = shapes(Glyph::Search);
    assert_eq!(all.clone(), all);
    assert_eq!(Path::default(), Path::new());
}

// Directions.

#[test]
fn the_way_round_a_block_does_not_matter() {
    let there = Path::new().move_to(100, 100).line_to(900, 200).line_to(400, 800).close();
    let back = Path::new().move_to(400, 800).line_to(900, 200).line_to(100, 100).close();
    assert_eq!(
        render(&[Shape::Fill(there)], 33),
        render(&[Shape::Fill(back)], 33)
    );
}

#[test]
fn opposite_blocks_that_overlap_do_not_cancel() {
    let there = Path::new()
        .move_to(0, 0)
        .line_to(600, 0)
        .line_to(600, 1000)
        .line_to(0, 1000)
        .close();
    let back = Path::new()
        .move_to(400, 0)
        .line_to(400, 1000)
        .line_to(1000, 1000)
        .line_to(1000, 0)
        .close();
    let both = [Shape::Fill(there), Shape::Fill(back)];
    assert_eq!(render(&both, 5).alpha, vec![255; 25]);
}

#[test]
fn more_of_the_same_direction_never_lightens() {
    let first = [block(100, 100, 700, 600)];
    let both = [block(100, 100, 700, 600), block(300, 300, 900, 950)];
    let (one, two) = (render(&first, 30), render(&both, 30));
    for (before, after) in one.alpha.iter().zip(&two.alpha) {
        assert!(before <= after);
    }
    assert!(ink(&two) > ink(&one));
}

#[test]
fn a_stroke_covers_all_of_its_pieces() {
    // Sharp turns both ways, and a way back over itself.
    let corners = [
        (150, 200),
        (800, 260),
        (220, 330),
        (240, 800),
        (700, 420),
        (700, 850),
        (700, 500),
        (860, 840),
    ];
    let mut path = Path::new().move_to(corners[0].0, corners[0].1);
    for corner in &corners[1..] {
        path = path.line_to(corner.0, corner.1);
    }
    for (width, size) in [(60, 24), (90, 50), (140, 33)] {
        let whole = render(&[Shape::Stroke { path: path.clone(), width }], size);
        for piece in outline(&corners, width) {
            let mut polygon = Path::new();
            for (x, y) in piece {
                let (x, y) = (i32::try_from(x).unwrap(), i32::try_from(y).unwrap());
                polygon = if polygon.commands().is_empty() {
                    polygon.move_to(x, y)
                } else {
                    polygon.line_to(x, y)
                };
            }
            let alone = render(&[Shape::Fill(polygon)], size);
            for (part, all) in alone.alpha.iter().zip(&whole.alpha) {
                // A pinched piece can take away a position, no more.
                assert!(u16::from(*all) + 1 >= u16::from(*part));
            }
        }
    }
}

#[test]
fn every_contour_is_taken_round_in_one_direction() {
    let expected = vec![
        Edge { x0: 256, y0: 0, x1: 256, y1: 256 },
        Edge { x0: 0, y0: 256, x1: 0, y1: 0 },
    ];
    let mut edges = Vec::new();
    push_contour(&mut edges, &[(0, 0), (500, 0), (500, 500), (0, 500)], 2);
    assert_eq!(edges, expected);
    // From the same corner, the other way round.
    edges.clear();
    push_contour(&mut edges, &[(0, 0), (0, 500), (500, 500), (500, 0)], 2);
    assert_eq!(edges, expected);
    assert_eq!(fill(&edges, 2).alpha, vec![255, 0, 0, 0]);
}

#[test]
fn a_contour_without_a_side_has_no_edges() {
    let mut edges = Vec::new();
    push_contour(&mut edges, &[], 10);
    push_contour(&mut edges, &[(1, 2)], 10);
    push_contour(&mut edges, &[(1, 2), (900, 2)], 10);
    assert!(edges.is_empty());
    assert_eq!(fill(&edges, 1).alpha, vec![0]);
}

#[test]
fn a_ring_has_the_same_edges_from_its_last_corner_back() {
    let there = [(0, 0), (500, 100), (400, 700), (-30, 500)];
    let back = [(-30, 500), (400, 700), (500, 100), (0, 0)];
    let (mut one, mut other) = (Vec::new(), Vec::new());
    push_contour(&mut one, &there, 9);
    push_contour(&mut other, &back, 9);
    let key = |e: &Edge| (e.x0, e.y0, e.x1, e.y1);
    one.sort_by_key(key);
    other.sort_by_key(key);
    assert_eq!(one.len(), 4);
    assert_eq!(one, other);
}

#[test]
fn a_span_is_shared_out_between_the_pixels() {
    let mut row = vec![5, 0, 0, 7];
    add_span(&mut row, 200, 600);
    assert_eq!(row, vec![61, 256, 88, 7]);
    // What lies outside of the row is left out.
    add_span(&mut row, -1000, 3);
    add_span(&mut row, 1020, 5000);
    add_span(&mut row, 2000, 3000);
    assert_eq!(row, vec![64, 256, 88, 11]);
    add_span(&mut row, i64::MIN, i64::MAX);
    assert_eq!(row, vec![320, 512, 344, 267]);
}

#[test]
fn a_span_that_ends_before_it_starts_is_nothing() {
    let mut row = vec![1, 2, 3];
    add_span(&mut row, 300, 300);
    add_span(&mut row, 700, 10);
    assert_eq!(row, vec![1, 2, 3]);
    add_span(&mut Vec::new(), 0, 100);
}

#[test]
fn a_span_can_be_added_in_two_parts() {
    for middle in [-70, 0, 90, 256, 300, 511] {
        let (mut whole, mut parts) = (vec![0, 9], vec![0, 9]);
        add_span(&mut whole, -70, 511);
        add_span(&mut parts, -70, middle);
        add_span(&mut parts, middle, 511);
        assert_eq!(whole, parts);
    }
}

#[test]
fn a_box_without_room_has_no_pixels() {
    let edges = vec![Edge { x0: 0, y0: 0, x1: 9, y1: 700 }];
    for size in [0, -1, i32::MIN] {
        let coverage = fill(&edges, size);
        assert_eq!((coverage.size, coverage.alpha), (size, Vec::new()));
    }
}

#[test]
fn edges_need_to_balance_on_the_lines_that_are_looked_at_only() {
    // The second edge has nothing to it above the first line and below the box.
    let edges = vec![
        Edge { x0: 0, y0: 0, x1: 0, y1: 900 },
        Edge { x0: 128, y0: 700, x1: 128, y1: 4 },
    ];
    assert_eq!(fill(&edges, 2).alpha, vec![127, 0, 127, 0]);
}

#[test]
fn quotients_are_rounded_toward_zero() {
    assert_eq!(divide(7, 2), 3);
    assert_eq!(divide(-7, 2), -3);
    assert_eq!(divide(7, -2), -3);
    assert_eq!(divide(-7, -2), 3);
}

#[test]
fn an_outline_beyond_the_box_is_cut_off_at_it() {
    let edge = i32::MAX;
    let far = Path::new()
        .move_to(i32::MIN, i32::MIN)
        .line_to(edge, i32::MIN)
        .line_to(edge, edge)
        .line_to(i32::MIN, edge)
        .close();
    assert_eq!(render(&[Shape::Fill(far.clone())], 3).alpha, vec![255; 9]);
    let wide = Shape::Stroke { path: far, width: i32::MAX };
    assert_eq!(render(&[wide], 3).alpha, vec![0; 9]);
    let aside = block(1200, 0, 1900, 1000);
    assert_eq!(render(&[aside], 3).alpha, vec![0; 9]);
}

// Outlines.

#[test]
fn curves_end_where_they_should() {
    assert_eq!(quad_point(-17, 4_000, 123_456_789, 12), 123_456_789);
    assert_eq!(quad_point(5, i32::MAX, i32::MIN, 12), i32::MIN);
    assert_eq!(cubic_point(9, -8, 7, -6, 12), -6);
    assert_eq!(cubic_point(0, 0, 0, i32::MAX, 12), i32::MAX);
}

#[test]
fn curve_points_are_whole_units_nearest_to_the_curve() {
    // 0, 100, 200 is a straight run: a twelfth of 200 is 16.67.
    assert_eq!(quad_point(0, 100, 200, 1), 17);
    // (121 * 0 + 22 * 300 + 90) / 144 is 46.46.
    assert_eq!(quad_point(0, 300, 90, 1), 46);
    // (1331 * 0 + 363 * 300 + 33 * 90 + 10) / 1728 is 64.75.
    assert_eq!(cubic_point(0, 300, 90, 10, 1), 65);
    // Halves go away from zero.
    assert_eq!(quad_point(0, 1, 0, 6), 1);
    assert_eq!(quad_point(0, -1, 0, 6), -1);
}

#[test]
fn straight_lines_are_kept_point_for_point() {
    let path = Path::new().move_to(1, 2).line_to(-3, 4).line_to(5, -6);
    assert_eq!(flatten(&path), vec![vec![(1, 2), (-3, 4), (5, -6)]]);
    assert_eq!(flatten(&Path::line(1, 2, 3, 4)), vec![vec![(1, 2), (3, 4)]]);
}

#[test]
fn a_single_point_is_no_contour() {
    assert!(flatten(&Path::new()).is_empty());
    assert!(flatten(&Path::new().move_to(4, 4)).is_empty());
    assert!(flatten(&Path::new().move_to(4, 4).move_to(5, 5)).is_empty());
    assert!(flatten(&Path::new().line_to(4, 4)).is_empty());
    assert!(flatten(&Path::new().close()).is_empty());
}

#[test]
fn closing_goes_back_to_the_start() {
    let path = Path::new()
        .move_to(1, 1)
        .line_to(9, 1)
        .close()
        .line_to(1, 9);
    assert_eq!(
        flatten(&path),
        vec![vec![(1, 1), (9, 1), (1, 1)], vec![(1, 1), (1, 9)]]
    );
    let dot = Path::new().move_to(7, 7).close();
    assert_eq!(flatten(&dot), vec![vec![(7, 7), (7, 7)]]);
}

#[test]
fn a_moved_pen_starts_afresh() {
    let path = Path::new()
        .move_to(0, 0)
        .line_to(1, 0)
        .move_to(5, 5)
        .line_to(6, 5);
    assert_eq!(
        flatten(&path),
        vec![vec![(0, 0), (1, 0)], vec![(5, 5), (6, 5)]]
    );
}

#[test]
fn a_curve_starts_where_the_pen_is() {
    let contours = flatten(&Path::new().move_to(100, 100).quad_to(200, 100, 200, 200));
    assert_eq!(contours.len(), 1);
    assert_eq!(contours[0].len(), 13);
    assert_eq!(contours[0][0], (100, 100));
    assert_eq!(contours[0][6], (175, 125));
    assert_eq!(contours[0][12], (200, 200));
    // Without a start, a curve sets out from the origin.
    let contours = flatten(&Path::new().quad_to(0, 0, 120, 240));
    assert_eq!(contours[0].len(), 12);
    assert_eq!(contours[0][5], (30, 60));
}

#[test]
fn a_curve_stays_between_its_points() {
    let commands = [Cmd::Move(10, 20), Cmd::Cubic(900, 30, 40, 800, 700, 600)];
    for &(x, y) in &flatten(&Path::from_commands(&commands))[0] {
        assert!((10..=900).contains(&x));
        assert!((20..=800).contains(&y));
    }
}

// Round things.

#[test]
fn a_circle_is_eight_arcs() {
    assert_eq!(
        Path::circle(500, 500, 100).commands(),
        [
            Cmd::Move(600, 500),
            Cmd::Quad(600, 541, 571, 571),
            Cmd::Quad(541, 600, 500, 600),
            Cmd::Quad(459, 600, 429, 571),
            Cmd::Quad(400, 541, 400, 500),
            Cmd::Quad(400, 459, 429, 429),
            Cmd::Quad(459, 400, 500, 400),
            Cmd::Quad(541, 400, 571, 429),
            Cmd::Quad(600, 459, 600, 500),
            Cmd::Close,
        ]
    );
}

#[test]
fn a_circle_beyond_the_coordinates_is_held_at_them() {
    let commands = Path::circle(i32::MAX, 0, 10);
    assert_eq!(commands.commands()[0], Cmd::Move(i32::MAX, 0));
    assert_eq!(commands.commands()[3], Cmd::Quad(i32::MAX - 4, 10, i32::MAX - 7, 7));
}

#[test]
fn corners_take_at_most_half_of_a_side() {
    assert_eq!(
        Path::rounded(10, 20, 100, 40, 5).commands(),
        [
            Cmd::Move(15, 20),
            Cmd::Line(105, 20),
            Cmd::Quad(110, 20, 110, 25),
            Cmd::Line(110, 55),
            Cmd::Quad(110, 60, 105, 60),
            Cmd::Line(15, 60),
            Cmd::Quad(10, 60, 10, 55),
            Cmd::Line(10, 25),
            Cmd::Quad(10, 20, 15, 20),
            Cmd::Close,
        ]
    );
    // Half of the shorter side, and never less than nothing.
    assert_eq!(Path::rounded(0, 0, 9, 40, 100).commands()[0], Cmd::Move(4, 0));
    assert_eq!(Path::rounded(0, 0, 9, 40, -3).commands()[0], Cmd::Move(0, 0));
    assert_eq!(Path::rounded(0, 0, -9, 40, 5).commands()[0], Cmd::Move(0, 0));
}

#[test]
fn a_disc_has_twelve_corners() {
    assert_eq!(
        disc(0, 0, 31),
        vec![
            (31, 0),
            (27, 15),
            (16, 27),
            (0, 31),
            (-15, 27),
            (-27, 15),
            (-31, 0),
            (-27, -15),
            (-16, -27),
            (0, -31),
            (16, -27),
            (27, -16),
        ]
    );
}

#[test]
fn a_stroke_is_a_block_for_each_segment_and_a_disc_for_each_point() {
    let pieces = outline(&[(0, 0), (30, 40), (30, 40)], 20);
    assert_eq!(pieces.len(), 4);
    assert_eq!(pieces[0], vec![(-8, 6), (22, 46), (38, 34), (8, -6)]);
    assert_eq!(pieces[1], disc(0, 0, 10));
    assert_eq!(pieces[2], disc(30, 40, 10));
    assert_eq!(pieces[3], pieces[2]);
    assert!(outline(&[], 20).is_empty());
    // A stroke without a width still has a radius of one.
    assert_eq!(outline(&[(5, 5)], -7), vec![disc(5, 5, 1)]);
    assert_eq!(outline(&[(5, 5)], 3), vec![disc(5, 5, 1)]);
}

#[test]
fn roots_are_the_nearest_whole_numbers() {
    // Half the root of 2 * 100 * 100 is 70.71, of 8 * 100 * 100 is 141.42.
    assert_eq!(half_root_of(20_000, 1, 100), 71);
    assert_eq!(half_root_of(80_000, 1, 200), 141);
    assert_eq!(half_root_of(0, 5, 3), 0);
    // Halves go up: half the root of 9 is one and a half.
    assert_eq!(half_root_of(9, 1, 4), 2);
    assert_eq!(half_root_of(36, 4, 4), 2);
}

#[test]
fn lengths_are_the_nearest_doubles() {
    // Five is five quarters of four.
    assert_eq!(length_of(25), (5 << 50, 2));
    assert_eq!(length_of(1), (1 << 52, 0));
    // The root of two, counting `2^-52`.
    assert_eq!(length_of(2), (6_369_051_672_525_773, 0));
    assert_eq!(length_of(1 << 66), (1 << 52, 33));
}

#[test]
fn a_segment_is_moved_sideways_by_the_radius() {
    // To the left of the way to the right is up, and the other way round.
    assert_eq!(
        outline(&[(0, 0), (100, 0)], 20)[0],
        vec![(0, 10), (100, 10), (100, -10), (0, -10)]
    );
    // On a diagonal either share is the root of a half: 7.07 of ten.
    assert_eq!(
        outline(&[(0, 0), (-50, 50)], 20)[0],
        vec![(-7, -7), (-57, 43), (-43, 57), (7, 7)]
    );
}

// Icons and marks.

#[test]
fn the_list_of_glyphs_is_in_order_and_has_each_once() {
    for (place, glyph) in Glyph::ALL.iter().enumerate() {
        assert_eq!(glyph.index(), place);
    }
    assert_eq!(Glyph::ALL.len(), 25);
}

#[test]
fn nothing_of_an_icon_is_cut_off() {
    // Every icon keeps a hair's breadth from the sides.
    for glyph in Glyph::ALL {
        let coverage = render(&shapes(glyph), 100);
        for at in 0..100 {
            for pixel in [(at, 0), (at, 99), (0, at), (99, at)] {
                assert_eq!(coverage.at(pixel.0, pixel.1), 0, "{glyph:?} at {pixel:?}");
            }
        }
    }
}

#[test]
fn line_art_is_cut_to_one_weight() {
    for glyph in [Glyph::App, Glyph::Search, Glyph::Shift, Glyph::Backspace] {
        let all = shapes(glyph);
        assert!(!all.is_empty());
        for shape in all {
            assert!(matches!(shape, Shape::Stroke { width: WEIGHT, .. }), "{glyph:?}");
        }
    }
    assert_eq!(WEIGHT, 62);
}

#[test]
fn the_keys_have_their_geometry() {
    let shift = Path::new()
        .move_to(500, 100)
        .line_to(100, 500)
        .line_to(350, 500)
        .line_to(350, 850)
        .line_to(650, 850)
        .line_to(650, 500)
        .line_to(900, 500)
        .close();
    assert_eq!(shapes(Glyph::Shift), vec![Shape::Stroke { path: shift, width: 62 }]);
    let tag = Path::new()
        .move_to(350, 250)
        .line_to(850, 250)
        .line_to(850, 750)
        .line_to(350, 750)
        .line_to(100, 500)
        .close();
    assert_eq!(
        shapes(Glyph::Backspace),
        vec![
            Shape::Stroke { path: tag, width: 62 },
            Shape::Stroke { path: Path::line(470, 385, 700, 615), width: 62 },
            Shape::Stroke { path: Path::line(700, 385, 470, 615), width: 62 },
        ]
    );
}

#[test]
fn round_pieces_are_solid_or_rings() {
    let man = Path::circle(500, 500, 300);
    for glyph in [Glyph::BlackDisc, Glyph::BlackDraughtsMan] {
        assert_eq!(shapes(glyph), vec![Shape::Fill(man.clone())]);
    }
    for glyph in [Glyph::WhiteDisc, Glyph::WhiteDraughtsMan] {
        assert_eq!(
            shapes(glyph),
            vec![Shape::Stroke { path: man.clone(), width: 64 }]
        );
    }
    let (lower, upper) = (Path::circle(500, 590, 270), Path::circle(500, 385, 215));
    assert_eq!(
        shapes(Glyph::BlackDraughtsKing),
        vec![Shape::Fill(lower.clone()), Shape::Fill(upper.clone())]
    );
    assert_eq!(
        shapes(Glyph::WhiteDraughtsKing),
        vec![
            Shape::Stroke { path: lower, width: 64 },
            Shape::Stroke { path: upper, width: 64 },
        ]
    );
}

#[test]
fn board_points_have_their_geometry() {
    assert_eq!(
        game_piece_shapes(Glyph::BoardPoint),
        Some(vec![Shape::Fill(Path::circle(500, 500, 55))])
    );
    assert_eq!(
        game_piece_shapes(Glyph::LegalPoint),
        Some(vec![Shape::Stroke { path: Path::circle(500, 500, 175), width: 54 }])
    );
    assert_eq!(
        game_piece_shapes(Glyph::Mill),
        Some(vec![
            Shape::Stroke { path: Path::line(170, 500, 830, 500), width: 44 },
            Shape::Fill(Path::circle(170, 500, 105)),
            Shape::Fill(Path::circle(500, 500, 105)),
            Shape::Fill(Path::circle(830, 500, 105)),
        ])
    );
    for glyph in [Glyph::App, Glyph::Shift, Glyph::ChessWhitePawn] {
        assert_eq!(game_piece_shapes(glyph), None);
    }
}

#[test]
fn chess_pieces_without_tone_are_their_black_layers() {
    let white = layers(Glyph::ChessWhiteRook).expect("a chess piece");
    let tones: Vec<u8> = white.iter().map(|layer| layer.tone).collect();
    assert_eq!(tones, vec![BLACK, WHITE, BLACK]);
    assert_eq!(
        shapes(Glyph::ChessWhiteRook),
        vec![
            Shape::Fill(white[0].path.clone()),
            Shape::Fill(white[2].path.clone())
        ]
    );
    assert_eq!(black_shapes(&white), shapes(Glyph::ChessWhiteRook));
    assert!(layers(Glyph::Mill).is_none());
}

#[test]
fn line_art_is_stroked_outline_by_outline() {
    let outlines = line_outlines(Glyph::Search);
    assert_eq!(outlines.len(), 2);
    assert_eq!(stroke_shapes(&outlines), shapes(Glyph::Search));
    assert!(line_outlines(Glyph::Mill).is_empty());
    assert!(stroke_shapes(&Vec::new()).is_empty());
}

#[test]
fn percentages_end_at_a_hundred() {
    assert_eq!(Percent::new(0).get(), 0);
    assert_eq!(Percent::new(100).get(), 100);
    assert_eq!(Percent::new(101).get(), 100);
    assert_eq!(Percent::new(255).get(), 100);
}

#[test]
fn the_battery_fill_grows_with_the_charge() {
    let mut last = 0;
    for percent in 0..=100 {
        let mark = battery(Percent::new(percent), false);
        if percent == 0 {
            assert_eq!(mark.len(), 2);
            last = ink(&render(&mark, 200));
            continue;
        }
        let width = 580 * i32::from(percent) / 100;
        assert_eq!(mark[2], Shape::Fill(Path::rounded(160, 400, width, 200, 20)));
        let now = ink(&render(&mark, 200));
        assert!(now > last, "{percent}");
        last = now;
    }
}

#[test]
fn the_battery_fill_never_touches_the_shell() {
    for (percent, charging) in [(1, false), (37, false), (100, false), (50, true)] {
        let mark = battery(Percent::new(percent), charging);
        let shell = render(&mark[..1], 240);
        let content = render(&mark[2..], 240);
        assert!(ink(&content) > 0);
        for (one, other) in shell.alpha.iter().zip(&content.alpha) {
            assert!(*one == 0 || *other == 0);
        }
    }
}

#[test]
fn the_battery_has_its_geometry() {
    let mark = battery(Percent::new(0), false);
    assert_eq!(
        mark,
        vec![
            Shape::Stroke { path: Path::rounded(60, 300, 780, 400, 60), width: BATTERY_WEIGHT },
            Shape::Fill(Path::rounded(880, 430, 60, 140, 30)),
        ]
    );
    let bolt = Path::new()
        .move_to(520, 340)
        .line_to(300, 530)
        .line_to(430, 530)
        .line_to(380, 660)
        .line_to(600, 470)
        .line_to(470, 470)
        .close();
    let charging = battery(Percent::new(80), true);
    assert_eq!(charging[..2], mark[..]);
    assert_eq!(charging[2..], [Shape::Fill(bolt)]);
    assert_eq!(battery(Percent::new(3), true), charging);
    assert_eq!(BATTERY_WEIGHT, 60);
}

#[test]
fn arcs_are_added_outward() {
    let strong = wifi(Signal::Strong);
    assert_eq!(strong.len(), 4);
    assert_eq!(strong[0], Shape::Fill(Path::circle(500, 780, 60)));
    let arcs = [
        Path::new().move_to(400, 660).quad_to(500, 580, 600, 660),
        Path::new().move_to(270, 510).quad_to(500, 330, 730, 510),
        Path::new().move_to(120, 350).quad_to(500, 50, 880, 350),
    ];
    for (arc, shape) in arcs.into_iter().zip(&strong[1..]) {
        assert_eq!(*shape, Shape::Stroke { path: arc, width: RADIO_WEIGHT });
    }
    assert_eq!(wifi(Signal::Fair)[..], strong[..3]);
    assert_eq!(wifi(Signal::Weak)[..], strong[..2]);
    assert_eq!(RADIO_WEIGHT, 70);
}

#[test]
fn no_radio_has_nothing_in_common_with_a_signal() {
    let off = wifi(Signal::Off);
    assert_eq!(
        off,
        vec![
            Shape::Fill(Path::circle(500, 760, 90)),
            Shape::Stroke { path: Path::line(180, 180, 820, 820), width: 70 },
        ]
    );
    for shape in wifi(Signal::Strong) {
        assert!(!off.contains(&shape));
    }
}

#[test]
fn the_other_marks_have_their_geometry() {
    let rune = Path::new()
        .move_to(330, 330)
        .line_to(670, 670)
        .line_to(500, 840)
        .line_to(500, 160)
        .line_to(670, 330)
        .line_to(330, 670);
    assert_eq!(bluetooth(), vec![Shape::Stroke { path: rune, width: 70 }]);
    let chevron = Path::new().move_to(625, 250).line_to(375, 500).line_to(625, 750);
    assert_eq!(back_arrow(), vec![Shape::Stroke { path: chevron, width: 62 }]);
}
