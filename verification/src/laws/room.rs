//! Every icon and every mark stays in the design box.
use crate::angle;
use crate::angle::{EIGHTH_COSINES, EIGHTH_SINES, MIDDLE_COSINES, MIDDLE_SINES, WHOLE};
use crate::edge::FIXED;
use crate::fill;
use crate::glyph::{Glyph, Signal};
use crate::icon;
use crate::laws::frame;
use crate::laws::roundness;
use crate::line_art;
use crate::mark;
use crate::path;
use crate::path::{Cmd, UNITS};
use crate::piece_art;
use crate::render;
use vstd::prelude::*;

verus! {

/// Whether an outline is authored at least `margin` away from the sides of the
/// design box.
pub open spec fn has_room(commands: Seq<Cmd>, margin: int) -> bool {
    frame::design_box().grown(-margin).holds_outline(commands)
}

/// Whether a figure is authored with room for its stroke.
pub open spec fn fits(figure: path::Figure) -> bool {
    has_room(frame::outline(figure), frame::margin(figure))
}

/// Whether all figures of a list are.
pub open spec fn all_fit(figures: Seq<path::Figure>) -> bool {
    forall|i: int| 0 <= i < figures.len() ==> fits(#[trigger] figures[i])
}

/// Figures authored with room for their strokes are drawn in the design box.
pub proof fn law_what_fits_stays_in_the_box(figures: Seq<path::Figure>)
    requires
        all_fit(figures),
    ensures
        frame::holds_polygons(frame::design_box(), render::polygons(figures)),
    decreases figures.len(),
{
    if figures.len() > 0 {
        let before = figures.drop_last();
        let last = figures[figures.len() - 1];
        assert(all_fit(before)) by {
            assert forall|i: int| 0 <= i < before.len() implies fits(#[trigger] before[i]) by {
                assert(before[i] == figures[i]);
            }
        }
        law_what_fits_stays_in_the_box(before);
        assert(fits(last));
        let m = frame::margin(last);
        let inner = frame::design_box().grown(-m);
        frame::law_figures_stay_in_frame(last, inner);
        assert(inner.grown(m) == frame::design_box());
        let all = render::polygons(before) + render::figure_polygons(last);
        assert forall|i: int| 0 <= i < all.len() implies frame::holds_polygon(
            frame::design_box(),
            #[trigger] all[i],
        ) by {}
    }
}

proof fn lemma_circle_has_room(cx: int, cy: int, r: int, margin: int)
    requires
        0 <= r,
        0 <= margin,
        margin <= cx - r && cx + r <= UNITS - margin,
        margin <= cy - r && cy + r <= UNITS - margin,
    ensures
        has_room(path::circle(cx, cy, r), margin),
{
    let inner = frame::design_box().grown(-margin);
    let commands = path::circle(cx, cy, r);
    assert forall|i: int| 0 <= i < commands.len() implies inner.holds_command(
        #[trigger] commands[i],
    ) by {
        roundness::law_a_circle_stays_within_its_radius(cx, r, WHOLE as int);
        roundness::law_a_circle_stays_within_its_radius(cy, r, 0);
        if 1 <= i <= 8 {
            assert(commands[i] == path::eighth(cx, cy, r, i - 1));
            angle::lemma_eighths(i - 1);
            roundness::law_a_circle_stays_within_its_radius(cx, r, EIGHTH_COSINES@[i - 1] as int);
            roundness::law_a_circle_stays_within_its_radius(cy, r, EIGHTH_SINES@[i - 1] as int);
            roundness::law_tangents_stay_within_the_radius(cx, r, MIDDLE_COSINES@[i - 1] as int);
            roundness::law_tangents_stay_within_the_radius(cy, r, MIDDLE_SINES@[i - 1] as int);
        }
    }
}

proof fn lemma_rounded_has_room(
    x: int,
    y: int,
    width: int,
    height: int,
    radius: int,
    margin: int,
)
    requires
        0 <= width,
        0 <= height,
        0 <= margin,
        margin <= x && x + width <= UNITS - margin,
        margin <= y && y + height <= UNITS - margin,
    ensures
        has_room(path::rounded(x, y, width, height, radius), margin),
{
    roundness::law_corners_fit(width, height, radius);
    let inner = frame::design_box().grown(-margin);
    let commands = path::rounded(x, y, width, height, radius);
    assert forall|i: int| 0 <= i < commands.len() implies inner.holds_command(
        #[trigger] commands[i],
    ) by {}
}

proof fn lemma_polygon_has_room(corners: Seq<i32>)
    requires
        2 <= corners.len(),
        corners.len() % 2 == 0,
        forall|i: int| 0 <= i < corners.len() ==> 0 <= #[trigger] corners[i] <= UNITS,
    ensures
        has_room(piece_art::through(corners), 0),
{
    let commands = piece_art::through(corners);
    let inner = frame::design_box().grown(0);
    assert forall|i: int| 0 <= i < commands.len() implies inner.holds_command(
        #[trigger] commands[i],
    ) by {
        if i < corners.len() / 2 {
            assert(0 <= corners[2 * i] <= UNITS);
            assert(0 <= corners[2 * i + 1] <= UNITS);
        }
    }
}

/// The marks stay in the design box.
pub proof fn law_marks_stay_in_the_box(percent: int, charging: bool, strength: Signal)
    requires
        0 <= percent <= 100,
    ensures
        all_fit(seq![path::Figure::Stroke(mark::chevron(), mark::WEIGHT)]),
        all_fit(mark::battery_figures(percent, charging)),
        all_fit(mark::wifi_figures(strength)),
        all_fit(seq![path::Figure::Stroke(mark::rune(), mark::RADIO_WEIGHT)]),
{
    lemma_rounded_has_room(60, 300, 780, 400, 60, 30);
    lemma_rounded_has_room(880, 430, 60, 140, 30, 0);
    lemma_rounded_has_room(160, 400, mark::battery_level(percent), 200, 20, 0);
    lemma_circle_has_room(500, 760, 90, 0);
    lemma_circle_has_room(500, 780, 60, 0);
    lemma_arcs_have_room();
    let battery = mark::battery_figures(percent, charging);
    assert forall|i: int| 0 <= i < battery.len() implies fits(#[trigger] battery[i]) by {}
    let wifi = mark::wifi_figures(strength);
    assert forall|i: int| 0 <= i < wifi.len() implies fits(#[trigger] wifi[i]) by {}
}

proof fn lemma_arcs_have_room()
    ensures
        has_room(mark::wifi_arc(0), 35),
        has_room(mark::wifi_arc(1), 35),
        has_room(mark::wifi_arc(2), 35),
        has_room(mark::chevron(), 31),
        has_room(mark::bolt(), 0),
        has_room(mark::rune(), 35),
{
}

/// Every icon stays in the design box.
pub proof fn law_icons_stay_in_the_box(glyph: Glyph)
    ensures
        all_fit(icon::icon(glyph)),
{
    if glyph == Glyph::Shift || glyph == Glyph::Backspace {
        lemma_keys_fit();
    } else if icon::game_piece(glyph) is Some {
        lemma_game_piece_fits(glyph);
    } else if piece_art::piece_layers(glyph) is Some {
        lemma_pieces_fit(glyph);
        lemma_silhouette_fits(piece_art::piece_layers(glyph)->0);
    } else {
        lemma_line_art_fits(glyph);
    }
}

proof fn lemma_keys_fit()
    ensures
        all_fit(icon::shift_key()),
        all_fit(icon::backspace_key()),
{
    assert(has_room(icon::arrow_up(), 31));
    assert(has_room(icon::tag_left(), 31));
}

proof fn lemma_counter_fits(black: bool, cx: int, cy: int, r: int)
    requires
        0 <= r,
        32 <= cx - r && cx + r <= UNITS - 32,
        32 <= cy - r && cy + r <= UNITS - 32,
    ensures
        fits(icon::counter(black, cx, cy, r)),
{
    if black {
        lemma_circle_has_room(cx, cy, r, 0);
    } else {
        lemma_circle_has_room(cx, cy, r, 32);
    }
}

proof fn lemma_dot_fits(cx: int, cy: int, r: int)
    requires
        0 <= r,
        0 <= cx - r && cx + r <= UNITS,
        0 <= cy - r && cy + r <= UNITS,
    ensures
        fits(path::Figure::Fill(path::circle(cx, cy, r))),
{
    lemma_circle_has_room(cx, cy, r, 0);
}

proof fn lemma_mill_fits()
    ensures
        all_fit(icon::mill()),
{
    lemma_dot_fits(170, 500, 105);
    lemma_dot_fits(500, 500, 105);
    lemma_dot_fits(830, 500, 105);
    assert(has_room(seq![Cmd::Move(170, 500), Cmd::Line(830, 500)], 22));
}

proof fn lemma_legal_point_fits()
    ensures
        fits(path::Figure::Stroke(path::circle(500, 500, 175), 54)),
{
    lemma_circle_has_room(500, 500, 175, 27);
}

proof fn lemma_game_piece_fits(glyph: Glyph)
    requires
        icon::game_piece(glyph) is Some,
    ensures
        all_fit(icon::game_piece(glyph)->0),
{
    match glyph {
        Glyph::BoardPoint => {
            lemma_dot_fits(500, 500, 55);
        },
        Glyph::Mill => {
            lemma_mill_fits();
        },
        Glyph::LegalPoint => {
            lemma_legal_point_fits();
        },
        _ => {
            let black = glyph == Glyph::BlackDisc || glyph == Glyph::BlackDraughtsKing || glyph
                == Glyph::BlackDraughtsMan;
            lemma_counter_fits(black, 500, 590, 270);
            lemma_counter_fits(black, 500, 385, 215);
            lemma_counter_fits(black, 500, 500, 300);
        },
    }
}

proof fn lemma_line_art_fits(glyph: Glyph)
    ensures
        all_fit(icon::stroked(line_art::line_art(glyph))),
{
    lemma_rounded_has_room(167, 167, 250, 250, 42, 31);
    lemma_rounded_has_room(167, 583, 250, 250, 42, 31);
    lemma_rounded_has_room(583, 583, 250, 250, 42, 31);
    assert(has_room(seq![Cmd::Move(583, 292), Cmd::Line(833, 292)], 31));
    assert(has_room(seq![Cmd::Move(708, 167), Cmd::Line(708, 417)], 31));
    assert(has_room(line_art::lens(), 31));
    assert(has_room(seq![Cmd::Move(875, 875), Cmd::Line(625, 625)], 31));
    let outlines = line_art::line_art(glyph);
    assert forall|i: int| 0 <= i < outlines.len() implies has_room(
        #[trigger] outlines[i],
        31,
    ) by {}
    let figures = icon::stroked(outlines);
    assert forall|i: int| 0 <= i < figures.len() implies fits(#[trigger] figures[i]) by {
        assert(has_room(outlines[i], 31));
    }
}

/// Whether all layers of a stack are authored in the design box.
spec fn layers_fit(stack: Seq<(u8, Seq<Cmd>)>) -> bool {
    forall|i: int| 0 <= i < stack.len() ==> has_room((#[trigger] stack[i]).1, 0)
}

proof fn lemma_silhouette_fits(stack: Seq<(u8, Seq<Cmd>)>)
    requires
        layers_fit(stack),
    ensures
        all_fit(icon::silhouette(stack)),
    decreases stack.len(),
{
    if stack.len() > 0 {
        let below = stack.drop_last();
        assert(layers_fit(below)) by {
            assert forall|i: int| 0 <= i < below.len() implies has_room(
                (#[trigger] below[i]).1,
                0,
            ) by {
                assert(below[i] == stack[i]);
            }
        }
        lemma_silhouette_fits(below);
        assert(has_room(stack[stack.len() - 1].1, 0));
        let figures = icon::silhouette(stack);
        assert forall|i: int| 0 <= i < figures.len() implies fits(#[trigger] figures[i]) by {
            if i < icon::silhouette(below).len() {
                assert(fits(icon::silhouette(below)[i]));
            }
        }
    }
}

/// Whether every number of a list is a coordinate of the design box.
spec fn in_units(corners: Seq<i32>) -> bool {
    forall|i: int| 0 <= i < corners.len() ==> 0 <= #[trigger] corners[i] <= UNITS
}

proof fn lemma_pieces_fit(glyph: Glyph)
    requires
        piece_art::piece_layers(glyph) is Some,
    ensures
        layers_fit(piece_art::piece_layers(glyph)->0),
{
    assert(in_units(piece_art::KING_BODY@));
    assert(in_units(piece_art::KING_FACE@));
    assert(in_units(piece_art::KING_MARK@));
    assert(in_units(piece_art::QUEEN_BODY@));
    assert(in_units(piece_art::QUEEN_FACE@));
    assert(in_units(piece_art::QUEEN_MARK@));
    assert(in_units(piece_art::ROOK_BODY@));
    assert(in_units(piece_art::ROOK_FACE@));
    assert(in_units(piece_art::ROOK_MARK@));
    assert(in_units(piece_art::BISHOP_BODY@));
    assert(in_units(piece_art::BISHOP_FACE@));
    assert(in_units(piece_art::BISHOP_MARK@));
    assert(in_units(piece_art::KNIGHT_BODY@));
    assert(in_units(piece_art::KNIGHT_FACE@));
    assert(in_units(piece_art::KNIGHT_MARK@));
    assert(in_units(piece_art::PAWN_BODY@));
    assert(in_units(piece_art::PAWN_FACE@));
    assert(in_units(piece_art::PAWN_MARK@));
    lemma_polygon_has_room(piece_art::KING_BODY@);
    lemma_polygon_has_room(piece_art::KING_FACE@);
    lemma_polygon_has_room(piece_art::KING_MARK@);
    lemma_polygon_has_room(piece_art::QUEEN_BODY@);
    lemma_polygon_has_room(piece_art::QUEEN_FACE@);
    lemma_polygon_has_room(piece_art::QUEEN_MARK@);
    lemma_polygon_has_room(piece_art::ROOK_BODY@);
    lemma_polygon_has_room(piece_art::ROOK_FACE@);
    lemma_polygon_has_room(piece_art::ROOK_MARK@);
    lemma_polygon_has_room(piece_art::BISHOP_BODY@);
    lemma_polygon_has_room(piece_art::BISHOP_FACE@);
    lemma_polygon_has_room(piece_art::BISHOP_MARK@);
    lemma_polygon_has_room(piece_art::KNIGHT_BODY@);
    lemma_polygon_has_room(piece_art::KNIGHT_FACE@);
    lemma_polygon_has_room(piece_art::KNIGHT_MARK@);
    lemma_polygon_has_room(piece_art::PAWN_BODY@);
    lemma_polygon_has_room(piece_art::PAWN_FACE@);
    lemma_polygon_has_room(piece_art::PAWN_MARK@);
}

/// Nothing of an icon is cut off at the sides of the box: every position that
/// it covers lies in the box on the panel.
pub proof fn law_icons_are_not_cut_off(figures: Seq<path::Figure>, size: int, x: int, y: int)
    requires
        0 < size <= i32::MAX,
        all_fit(figures),
        fill::winding(render::picture_edges(figures, size), x, y) != 0,
    ensures
        0 <= x < FIXED * size,
        0 <= y < FIXED * size,
{
    law_what_fits_stays_in_the_box(figures);
    frame::law_the_design_box_fills_the_panel_box(size);
    frame::law_polygons_stay_in_frame(
        render::polygons(figures),
        frame::design_box(),
        size,
        x,
        y,
    );
}

} // verus!
