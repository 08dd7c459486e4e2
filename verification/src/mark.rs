//! The marks of the status strip and the back control.
use crate::glyph::{Percent, Signal};
use crate::path;
use crate::path::{Cmd, Path, Shape};
use vstd::prelude::*;

verus! {

/// The stroke weight of the icons in line, the keys and the back control.
///
/// One weight for all of them: a row of icons at mixed weights looks like a row
/// from different sets. The pieces and points of a board, which are not set in
/// a row with them, have weights of their own.
pub const WEIGHT: i32 = 62;

/// The stroke weight of the battery.
pub const BATTERY_WEIGHT: i32 = 60;

/// The stroke weight of the radio marks.
pub const RADIO_WEIGHT: i32 = 70;

/// The chevron of the back control.
pub open spec fn chevron() -> Seq<Cmd> {
    seq![Cmd::Move(625, 250), Cmd::Line(375, 500), Cmd::Line(625, 750)]
}

/// The back control, drawn rather than typed.
///
/// The built-in typeface has no arrow, and an application must never be able
/// to substitute this control by writing a character that looks like one. It
/// lives here, in the same geometry as the icons and at their weight, so that
/// it is cut like every other mark in its bar.
#[must_use]
pub fn back_arrow() -> (shapes: Vec<Shape>)
    ensures
        path::figures(shapes@) == seq![path::Figure::Stroke(chevron(), WEIGHT)],
{
    let path = Path::new().move_to(625, 250).line_to(375, 500).line_to(625, 750);
    assert(path@ =~= chevron());
    vec![Shape::Stroke { path, width: WEIGHT }]
}

/// The shell of the battery, with room on the right for the terminal nub.
pub open spec fn battery_shell() -> Seq<path::Figure> {
    seq![
        path::Figure::Stroke(path::rounded(60, 300, 780, 400, 60), BATTERY_WEIGHT),
        path::Figure::Fill(path::rounded(880, 430, 60, 140, 30)),
    ]
}

/// The bolt of a battery that is charging.
pub open spec fn bolt() -> Seq<Cmd> {
    seq![
        Cmd::Move(520, 340),
        Cmd::Line(300, 530),
        Cmd::Line(430, 530),
        Cmd::Line(380, 660),
        Cmd::Line(600, 470),
        Cmd::Line(470, 470),
        Cmd::Close,
    ]
}

/// How wide the fill of the battery is: its part of the room in the shell,
/// rounded down.
pub open spec fn battery_level(percent: int) -> int {
    580 * percent / 100
}

/// The figures of the battery.
pub open spec fn battery_figures(percent: int, charging: bool) -> Seq<path::Figure> {
    if charging {
        battery_shell().push(path::Figure::Fill(bolt()))
    } else if battery_level(percent) > 0 {
        battery_shell().push(
            path::Figure::Fill(path::rounded(160, 400, battery_level(percent), 200, 20)),
        )
    } else {
        battery_shell()
    }
}

/// A battery showing how much is left, rather than a battery.
///
/// The fill is proportional and the whole mark is drawn wider than tall so it
/// reads at status-band size, where the square design box would leave it about
/// three millimetres across.
///
/// `percent` is clamped by [`Percent`]. `charging` replaces the fill with a
/// bolt, because a charging battery's level is the least interesting thing
/// about it and an animated fill is not something this panel can afford.
#[must_use]
pub fn battery(percent: Percent, charging: bool) -> (shapes: Vec<Shape>)
    ensures
        path::figures(shapes@) == battery_figures(percent@, charging),
{
    let (x, y, width, height): (i32, i32, i32, i32) = (60, 300, 780, 400);
    let mut shapes: Vec<Shape> = vec![
        Shape::Stroke { path: Path::rounded(x, y, width, height, 60), width: BATTERY_WEIGHT },
        Shape::Fill(Path::rounded(x + width + 40, 430, 60, 140, 30)),
    ];
    assert(path::figures(shapes@) =~= battery_shell());
    if charging {
        // A bolt across the shell. Drawn as a fill so it survives being
        // rasterised at eight pixels tall, where a stroked one closes up.
        let path = Path::new()
            .move_to(520, 340)
            .line_to(300, 530)
            .line_to(430, 530)
            .line_to(380, 660)
            .line_to(600, 470)
            .line_to(470, 470)
            .close();
        assert(path@ =~= bolt());
        shapes.push(Shape::Fill(path));
        assert(path::figures(shapes@) =~= battery_figures(percent@, charging));
        return shapes;
    }
    // Inset by the stroke and one gap, so the fill never touches the shell:
    // at this size a fill that meets the outline reads as a solid black brick.

    let inset: i32 = BATTERY_WEIGHT + 40;
    let room: i32 = width - 2 * inset;
    let part: i32 = percent.get() as i32;
    assert(0 <= room * part <= 58000 && room * part == 580 * part) by (nonlinear_arith)
        requires
            room == 580,
            0 <= part <= 100,
    ;
    let filled: i32 = room * part / 100;
    assert(filled == battery_level(percent@));
    if filled > 0 {
        shapes.push(
            Shape::Fill(Path::rounded(x + inset, y + inset, filled, height - 2 * inset, 20)),
        );
    }
    assert(path::figures(shapes@) =~= battery_figures(percent@, charging));
    shapes
}

/// The arcs of the radio mark, from its dot outward.
pub open spec fn wifi_arc(index: int) -> Seq<Cmd> {
    if index == 0 {
        seq![Cmd::Move(400, 660), Cmd::Quad(500, 580, 600, 660)]
    } else if index == 1 {
        seq![Cmd::Move(270, 510), Cmd::Quad(500, 330, 730, 510)]
    } else {
        seq![Cmd::Move(120, 350), Cmd::Quad(500, 50, 880, 350)]
    }
}

/// How many arcs a signal lights.
pub open spec fn wifi_arcs(strength: Signal) -> nat {
    match strength {
        Signal::Off => 0,
        Signal::Weak => 1,
        Signal::Fair => 2,
        Signal::Strong => 3,
    }
}

/// The dot of the radio mark and the arcs next to it.
pub open spec fn wifi_lit(arcs: nat) -> Seq<path::Figure> {
    seq![path::Figure::Fill(path::circle(500, 780, 60))] + Seq::new(
        arcs,
        |i: int| path::Figure::Stroke(wifi_arc(i), RADIO_WEIGHT),
    )
}

/// The figures of the radio mark.
pub open spec fn wifi_figures(strength: Signal) -> Seq<path::Figure> {
    if strength is Off {
        seq![
            path::Figure::Fill(path::circle(500, 760, 90)),
            path::Figure::Stroke(seq![Cmd::Move(180, 180), Cmd::Line(820, 820)], RADIO_WEIGHT),
        ]
    } else {
        wifi_lit(wifi_arcs(strength))
    }
}

/// The radio, drawn at the strength it is actually running at.
///
/// Arcs are added from the bottom up, so a weak signal is a dot and one arc
/// and a strong one is a dot and three. An unlit arc is left out rather than
/// drawn faintly: this panel has no colour to spare and a ghosted arc at eight
/// pixels is indistinguishable from a lit one.
///
/// The geometry is placed so that the *full* three-arc mark is centred in the
/// design box, which is what puts it on the same line as the Bluetooth mark
/// beside it. Centring each strength on its own would be worse: the dot would
/// then jump up the strip every time the signal dropped an arc.
#[must_use]
pub fn wifi(strength: Signal) -> (shapes: Vec<Shape>)
    ensures
        path::figures(shapes@) == wifi_figures(strength),
{
    if strength == Signal::Off {
        // The mark for "no radio" has to be different in shape, not just in
        // quantity, or it reads as a weak signal.
        let shapes: Vec<Shape> = vec![
            Shape::Fill(Path::circle(500, 760, 90)),
            Shape::Stroke { path: Path::line(180, 180, 820, 820), width: RADIO_WEIGHT },
        ];
        assert(path::figures(shapes@) =~= wifi_figures(strength));
        return shapes;
    }
    let lit: usize = match strength {
        Signal::Off => 0,
        Signal::Weak => 1,
        Signal::Fair => 2,
        Signal::Strong => 3,
    };
    let mut shapes: Vec<Shape> = vec![Shape::Fill(Path::circle(500, 780, 60))];
    assert(path::figures(shapes@) =~= wifi_lit(0));
    for index in 0..lit
        invariant
            lit == wifi_arcs(strength),
            lit <= 3,
            path::figures(shapes@) == wifi_lit(index as nat),
    {
        let arc = if index == 0 {
            Path::new().move_to(400, 660).quad_to(500, 580, 600, 660)
        } else if index == 1 {
            Path::new().move_to(270, 510).quad_to(500, 330, 730, 510)
        } else {
            Path::new().move_to(120, 350).quad_to(500, 50, 880, 350)
        };
        assert(arc@ =~= wifi_arc(index as int));
        let ghost before = shapes@;
        shapes.push(Shape::Stroke { path: arc, width: RADIO_WEIGHT });
        assert(path::figures(shapes@) =~= path::figures(before).push(
            path::Figure::Stroke(wifi_arc(index as int), RADIO_WEIGHT),
        ));
        assert(path::figures(shapes@) =~= wifi_lit(index as nat + 1));
    }
    shapes
}

/// The Bluetooth rune.
pub open spec fn rune() -> Seq<Cmd> {
    seq![
        Cmd::Move(330, 330),
        Cmd::Line(670, 670),
        Cmd::Line(500, 840),
        Cmd::Line(500, 160),
        Cmd::Line(670, 330),
        Cmd::Line(330, 670),
    ]
}

/// The Bluetooth rune, drawn only when something is actually connected.
///
/// One continuous stroke: a vertical spine with two crossing arms that meet it
/// at the quarter points. Drawn as a single path rather than a spine plus four
/// arms so that the joins stay closed when it is rasterised at eight pixels,
/// where four separate strokes come apart into a smudge.
#[must_use]
pub fn bluetooth() -> (shapes: Vec<Shape>)
    ensures
        path::figures(shapes@) == seq![path::Figure::Stroke(rune(), RADIO_WEIGHT)],
{
    let path = Path::new()
        .move_to(330, 330)
        .line_to(670, 670)
        .line_to(500, 840)
        .line_to(500, 160)
        .line_to(670, 330)
        .line_to(330, 670);
    assert(path@ =~= rune());
    vec![Shape::Stroke { path, width: RADIO_WEIGHT }]
}

} // verus!
