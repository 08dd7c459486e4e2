//! What the status marks show.
use crate::flatten;
use crate::glyph::{Glyph, Signal};
use crate::icon;
use crate::laws::{contours, outlines, roundness};
use crate::mark;
use crate::path;
use crate::path::Cmd;
use crate::piece_art;
use vstd::prelude::*;

verus! {

/// More charge never shows less: the fill grows with the charge, from nothing
/// at all when empty to all the room there is when full.
pub proof fn law_the_fill_grows_with_the_charge(less: int, more: int)
    requires
        0 <= less <= more <= 100,
    ensures
        0 <= mark::battery_level(less) <= mark::battery_level(more) <= 580,
        mark::battery_level(0) == 0,
        mark::battery_level(100) == 580,
        mark::battery_level(less) == 0 <==> less == 0,
{
}

/// A charging battery shows a bolt, whatever its charge.
pub proof fn law_a_charging_battery_shows_no_level(percent: int, other: int)
    ensures
        mark::battery_figures(percent, true) == mark::battery_figures(other, true),
{
}

/// The battery keeps its shape: whatever the charge, and charging or not, the first
/// two figures are those of the empty battery. What the charge changes is one figure
/// more, which is there as soon as there is a charge or a charger.
pub proof fn law_the_charge_changes_one_figure(percent: int, charging: bool)
    requires
        0 <= percent <= 100,
    ensures
        mark::battery_figures(0, false).len() == 2,
        mark::battery_figures(percent, charging).take(2) == mark::battery_figures(0, false),
        mark::battery_figures(percent, charging).len() == if charging || 0 < percent {
            3nat
        } else {
            2nat
        },
{
    assert(mark::battery_figures(percent, charging).take(2) =~= mark::battery_figures(0, false));
}

/// Whether an outline is one contour that fills a box.
pub open spec fn fills(outline: Seq<Cmd>, left: int, top: int, right: int, bottom: int) -> bool {
    &&& flatten::contours(outline).len() == 1
    &&& outlines::fills_box(
        flatten::contours(outline)[0],
        contours::Frame { left, top, right, bottom },
    )
}

/// The shell of a battery is drawn as a line and its terminal is solid. The terminal
/// stands off the right of the shell, and its top and its bottom are equally far from
/// those of the shell, a hundred and thirty units, whatever the charge. Both have
/// rounded corners.
pub proof fn law_the_terminal_is_centred_on_the_shell(percent: int, charging: bool)
    requires
        0 <= percent <= 100,
    ensures
        ({
            let figures = mark::battery_figures(percent, charging);
            &&& figures[0] matches path::Figure::Stroke(shell, width)
            &&& figures[1] matches path::Figure::Fill(terminal)
            &&& width == 60
            &&& shell == path::rounded(60, 300, 780, 400, 60)
            &&& terminal == path::rounded(880, 430, 60, 140, 30)
            &&& fills(shell, 60, 300, 840, 700)
            &&& fills(terminal, 880, 430, 940, 570)
        }),
{
    outlines::law_a_rounded_rectangle_fills_its_box(60, 300, 780, 400, 60);
    outlines::law_a_rounded_rectangle_fills_its_box(880, 430, 60, 140, 30);
    law_the_charge_changes_one_figure(percent, charging);
    let figures = mark::battery_figures(percent, charging);
    let empty = mark::battery_figures(0, false);
    assert(figures[0] == figures.take(2)[0] && figures[1] == figures.take(2)[1]);
    assert(empty[0] == path::Figure::Stroke(path::rounded(60, 300, 780, 400, 60), 60));
    assert(empty[1] == path::Figure::Fill(path::rounded(880, 430, 60, 140, 30)));
}

/// A battery in use is filled in proportion to its charge. The fill is solid. It starts
/// a hundred units in from the left of the shell, keeps a hundred from its top and its
/// bottom, and is as many hundredths of the room as the charge says, rounded down.
pub proof fn law_the_fill_is_the_share_of_the_charge(percent: int) -> (width: int)
    requires
        0 < percent <= 100,
    ensures
        100 * width <= 580 * percent < 100 * (width + 1),
        mark::battery_figures(percent, false)[2] matches path::Figure::Fill(fill) && fill
            == path::rounded(160, 400, width, 200, 20) && fills(fill, 160, 400, 160 + width, 600),
{
    let width = mark::battery_level(percent);
    outlines::law_a_rounded_rectangle_fills_its_box(160, 400, width, 200, 20);
    width
}

/// A battery on a charger has a solid bolt in place of the fill. It is a closed polygon
/// of six corners, the same turned half round in the middle of the shell, and it keeps
/// forty units from the top and the bottom of the shell.
pub proof fn law_the_bolt_is_in_the_middle_of_the_shell(percent: int, k: int)
    requires
        0 <= k < 3,
    ensures
        mark::battery_figures(percent, true)[2] matches path::Figure::Fill(bolt) && {
            let (a, b) = (outlines::end_of(bolt[k])->0, outlines::end_of(bolt[k + 3])->0);
            &&& bolt == seq![
                Cmd::Move(520, 340),
                Cmd::Line(300, 530),
                Cmd::Line(430, 530),
                Cmd::Line(380, 660),
                Cmd::Line(600, 470),
                Cmd::Line(470, 470),
                Cmd::Close,
            ]
            &&& a.0 + b.0 == 60 + 840
            &&& a.1 + b.1 == 300 + 700
            &&& 300 + 40 <= a.1 <= 700 - 40 && 300 + 40 <= b.1 <= 700 - 40
        },
{
    let bolt = mark::battery_figures(percent, true)[2]->Fill_0;
    assert(bolt =~= seq![
        Cmd::Move(520, 340),
        Cmd::Line(300, 530),
        Cmd::Line(430, 530),
        Cmd::Line(380, 660),
        Cmd::Line(600, 470),
        Cmd::Line(470, 470),
        Cmd::Close,
    ]);
}

/// A stronger signal shows all that a weaker one does, in the same place, and
/// more arcs outside it.
pub proof fn law_arcs_are_added_outward(weaker: Signal, stronger: Signal)
    requires
        weaker !is Off,
        stronger !is Off,
        mark::wifi_arcs(weaker) <= mark::wifi_arcs(stronger),
    ensures
        mark::wifi_figures(stronger).len() == 1 + mark::wifi_arcs(stronger),
        mark::wifi_figures(stronger).take(mark::wifi_figures(weaker).len() as int)
            == mark::wifi_figures(weaker),
{
    assert(mark::wifi_figures(stronger).take(mark::wifi_figures(weaker).len() as int)
        =~= mark::wifi_figures(weaker));
}

/// A signal lights one arc if it is weak, two if it is fair and three if it is strong.
/// Under them is one solid dot.
pub proof fn law_arcs_count_the_strength(strength: Signal)
    requires
        strength !is Off,
    ensures
        mark::wifi_figures(strength).len() == match strength {
            Signal::Off => 0nat,
            Signal::Weak => 2,
            Signal::Fair => 3,
            Signal::Strong => 4,
        },
        mark::wifi_figures(strength)[0] == path::Figure::Fill(path::circle(500, 780, 60)),
{
}

/// An arc of the radio mark is one curve, drawn at the one weight of the radio marks. It
/// is the same on either side of the upright through the dot, and its ends are level.
pub proof fn law_arcs_are_centred_on_the_dot(strength: Signal, i: int)
    requires
        strength !is Off,
        1 <= i < mark::wifi_figures(strength).len(),
    ensures
        mark::wifi_figures(strength)[i] matches path::Figure::Stroke(arc, width) && {
            &&& width == 70
            &&& arc.len() == 2
            &&& arc[0] matches Cmd::Move(x0, y0)
            &&& arc[1] matches Cmd::Quad(x1, y1, x2, y2)
            &&& x0 + x2 == 1000 && x1 == 500
            &&& y1 < y0 && y0 == y2
            &&& (x0, y0, y1) == if i == 1 {
                (400i32, 660i32, 580i32)
            } else if i == 2 {
                (270, 510, 330)
            } else {
                (120, 350, 50)
            }
        },
{
    assert(mark::wifi_figures(strength)[i] == path::Figure::Stroke(mark::wifi_arc(i - 1), 70));
}

/// Each arc of a signal goes over the one before it: it reaches farther to both sides and
/// lies higher, at its ends and in its middle.
pub proof fn law_arcs_go_over_each_other(strength: Signal, i: int, j: int)
    requires
        strength !is Off,
        1 <= i < j < mark::wifi_figures(strength).len(),
    ensures
        mark::wifi_figures(strength)[i] matches path::Figure::Stroke(inner, _) && {
            &&& mark::wifi_figures(strength)[j] matches path::Figure::Stroke(outer, _)
            &&& outer[0]->Move_0 < inner[0]->Move_0
            &&& inner[1]->Quad_2 < outer[1]->Quad_2
            &&& outer[0]->Move_1 < inner[0]->Move_1
            &&& outer[1]->Quad_1 < inner[1]->Quad_1
        },
{
    law_arcs_are_centred_on_the_dot(strength, i);
    law_arcs_are_centred_on_the_dot(strength, j);
}

/// No radio is a larger dot and a stroke through the middle of the box, from one corner
/// towards the other.
pub proof fn law_no_radio_is_a_dot_struck_out()
    ensures
        mark::wifi_figures(Signal::Off) == seq![
            path::Figure::Fill(path::circle(500, 760, 90)),
            path::Figure::Stroke(seq![Cmd::Move(180, 180), Cmd::Line(820, 820)], 70),
        ],
{
}

/// The Bluetooth rune is one stroke of six corners. It is the same upside down, drawn
/// from its other end. Its spine is the upright in the middle of the box, and its arms
/// reach equally far to both sides of the spine and cross it at half the height.
pub proof fn law_the_rune_is_the_same_upside_down(k: int)
    requires
        0 <= k < 6,
    ensures
        mark::rune().len() == 6,
        ({
            let (one, other) = (mark::rune()[k], mark::rune()[5 - k]);
            let (a, b) = (outlines::end_of(one)->0, outlines::end_of(other)->0);
            &&& a.0 == b.0
            &&& a.1 + b.1 == 1000
            &&& a == if k == 0 {
                (330int, 330int)
            } else if k == 1 {
                (670, 670)
            } else if k == 2 {
                (500, 840)
            } else if k == 3 {
                (500, 160)
            } else if k == 4 {
                (670, 330)
            } else {
                (330, 670)
            }
            &&& one is Move <==> k == 0
            &&& one is Line <==> k != 0
        }),
{
}

/// The chevron of the back control points left. It is the same upside down, and it is
/// as high as both its arms are wide.
pub proof fn law_the_chevron_points_left()
    ensures
        mark::chevron().len() == 3,
        ({
            let (upper, tip, lower) = (mark::chevron()[0], mark::chevron()[1], mark::chevron()[2]);
            &&& upper == Cmd::Move(625, 250)
            &&& tip == Cmd::Line(375, 500)
            &&& lower == Cmd::Line(625, 750)
            &&& tip->Line_0 < upper->Move_0 && upper->Move_0 == lower->Line_0
            &&& upper->Move_0 + tip->Line_0 == 1000
            &&& upper->Move_1 + lower->Line_1 == 1000 && tip->Line_1 == 500
        }),
{
}

/// The weights of the marks.
pub proof fn law_marks_have_their_weights()
    ensures
        mark::WEIGHT == 62,
        mark::BATTERY_WEIGHT == 60,
        mark::RADIO_WEIGHT == 70,
{
}

/// No radio differs in shape from any signal, not in quantity: it has nothing
/// in common with the others.
pub proof fn law_no_radio_looks_different(strength: Signal, i: int, j: int)
    requires
        strength !is Off,
        0 <= i < mark::wifi_figures(Signal::Off).len(),
        0 <= j < mark::wifi_figures(strength).len(),
    ensures
        mark::wifi_figures(Signal::Off)[i] != mark::wifi_figures(strength)[j],
{
    let off = mark::wifi_figures(Signal::Off);
    let on = mark::wifi_figures(strength);
    let dot = path::circle(500, 760, 90);
    let small = path::circle(500, 780, 60);
    roundness::law_a_circle_starts_at_its_right(500, 760, 90);
    roundness::law_a_circle_starts_at_its_right(500, 780, 60);
    assert(dot[0] == Cmd::Move(590, 760));
    assert(small[0] == Cmd::Move(560, 780));
    let slash = seq![Cmd::Move(180, 180), Cmd::Line(820, 820)];
    assert(slash[0] == Cmd::Move(180, 180));
    if j > 0 {
        let arc = mark::wifi_arc(j - 1);
        assert(arc[0] != slash[0]);
    }
}

/// The icons in line, the two keys and the back control are all cut to one
/// weight.
pub proof fn law_one_weight_for_the_set(glyph: Glyph, i: int)
    requires
        icon::game_piece(glyph) is None,
        piece_art::piece_layers(glyph) is None,
        0 <= i < icon::icon(glyph).len(),
    ensures
        icon::icon(glyph)[i] matches path::Figure::Stroke(_, width) && width == mark::WEIGHT,
{
}

/// A chess piece is drawn from its black layers alone where there is no tone.
pub proof fn law_pieces_are_filled(glyph: Glyph, i: int)
    requires
        piece_art::piece_layers(glyph) is Some,
        0 <= i < icon::icon(glyph).len(),
    ensures
        icon::icon(glyph)[i] is Fill,
        exists|k: int|
            0 <= k < piece_art::piece_layers(glyph)->0.len() && (
            #[trigger] piece_art::piece_layers(glyph)->0[k]) == (
                piece_art::BLACK,
                icon::icon(glyph)[i]->Fill_0,
            ),
{
    lemma_silhouette_layers(piece_art::piece_layers(glyph)->0, i);
}

proof fn lemma_silhouette_layers(stack: Seq<(u8, Seq<Cmd>)>, i: int)
    requires
        0 <= i < icon::silhouette(stack).len(),
    ensures
        icon::silhouette(stack)[i] is Fill,
        exists|k: int|
            0 <= k < stack.len() && (#[trigger] stack[k]) == (
                piece_art::BLACK,
                icon::silhouette(stack)[i]->Fill_0,
            ),
    decreases stack.len(),
{
    let below = stack.drop_last();
    if i < icon::silhouette(below).len() {
        lemma_silhouette_layers(below, i);
        let k = choose|k: int|
            0 <= k < below.len() && (#[trigger] below[k]) == (
                piece_art::BLACK,
                icon::silhouette(below)[i]->Fill_0,
            );
        assert(stack[k] == below[k]);
    } else {
        let last = stack.len() - 1;
        assert(stack[last] == (piece_art::BLACK, icon::silhouette(stack)[i]->Fill_0));
    }
}

} // verus!
