//! The fill of the battery never touches its shell.
use crate::edge;
use crate::fill;
use crate::flatten;
use crate::laws::contours;
use crate::laws::frame;
use crate::laws::picture;
use crate::laws::roundness;
use crate::mark;
use crate::path;
use crate::path::Cmd;
use crate::render;
use crate::stroke;
use vstd::prelude::*;

verus! {

/// The outline of the shell.
pub open spec fn shell() -> Seq<Cmd> {
    path::rounded(60, 300, 780, 400, 60)
}

/// The four bands that the outline of the shell runs along.
pub open spec fn band(k: int) -> contours::Frame {
    let all = contours::Frame { left: 0, top: 0, right: 1000, bottom: 1000 };
    if k == 0 {
        contours::Frame { right: 120, ..all }
    } else if k == 1 {
        contours::Frame { left: 780, ..all }
    } else if k == 2 {
        contours::Frame { bottom: 300, ..all }
    } else {
        contours::Frame { top: 700, ..all }
    }
}

/// Whether a point lies in a band.
pub open spec fn in_band(k: int, p: (i32, i32)) -> bool {
    band(k).holds(p.0 as int, p.1 as int)
}

/// Whether a segment runs along one of the bands.
pub open spec fn banded(p: (i32, i32), q: (i32, i32)) -> bool {
    exists|k: int| 0 <= k < 4 && #[trigger] in_band(k, p) && in_band(k, q)
}

/// Whether every segment of a contour does.
pub open spec fn hugs(points: Seq<(i32, i32)>) -> bool {
    forall|i: int, j: int|
        0 <= i && j == i + 1 && j < points.len() ==> banded(
            #[trigger] points[i],
            #[trigger] points[j],
        )
}

proof fn lemma_hugs_on(points: Seq<(i32, i32)>, more: Seq<(i32, i32)>, k: int)
    requires
        0 <= k < 4,
        1 <= points.len(),
        hugs(points),
        in_band(k, points.last()),
        band(k).holds_contour(more),
    ensures
        hugs(points + more),
{
    let all = points + more;
    assert forall|i: int, j: int| 0 <= i && j == i + 1 && j < all.len() implies banded(
        #[trigger] all[i],
        #[trigger] all[j],
    ) by {
        if j < points.len() {
            assert(banded(points[i], points[j]));
        } else {
            assert(in_band(k, all[j])) by {
                assert(all[j] == more[j - points.len()]);
            }
            assert(in_band(k, all[i])) by {
                if i < points.len() {
                    assert(all[i] == points.last());
                } else {
                    assert(all[i] == more[i - points.len()]);
                }
            }
        }
    }
}

/// What the pen has drawn along the bands, and where it is.
#[verifier::opaque]
spec fn on_the_way(commands: Seq<Cmd>, cursor: (i32, i32)) -> bool {
    let pen = flatten::pen_after(commands);
    &&& pen.finished.len() == 0
    &&& pen.current.len() > 0
    &&& pen.current[0] == (120i32, 300i32)
    &&& pen.cursor == cursor
    &&& hugs(pen.current)
}

/// The pen starts out at the left of the upper edge.
proof fn lemma_setting_out()
    ensures
        on_the_way(seq![Cmd::Move(120, 300)], (120, 300)),
{
    reveal(on_the_way);
    let commands = seq![Cmd::Move(120, 300)];
    let nothing = Seq::<Cmd>::empty();
    assert(commands.drop_last() =~= nothing);
    assert(flatten::pen_after(nothing).finished.len() == 0);
    assert(flatten::pen_after(nothing).current.len() == 0);
    assert(flatten::pen_after(commands).current =~= seq![(120i32, 300i32)]);
}

/// A line along a band.
proof fn lemma_line_along(commands: Seq<Cmd>, from: (i32, i32), to: (i32, i32), k: int)
    requires
        0 <= k < 4,
        on_the_way(commands, from),
        in_band(k, from),
        in_band(k, to),
    ensures
        on_the_way(commands.push(Cmd::Line(to.0, to.1)), to),
{
    reveal(on_the_way);
    let command = Cmd::Line(to.0, to.1);
    let pen = flatten::pen_after(commands);
    contours::law_the_pen_stays_where_it_drew(commands);
    assert(commands.push(command).drop_last() =~= commands);
    lemma_hugs_on(pen.current, seq![to], k);
    assert(pen.current.push(to) =~= pen.current + seq![to]);
}

/// A curve along a band.
proof fn lemma_curve_along(
    commands: Seq<Cmd>,
    from: (i32, i32),
    control: (i32, i32),
    to: (i32, i32),
    k: int,
)
    requires
        0 <= k < 4,
        on_the_way(commands, from),
        in_band(k, from),
        in_band(k, control),
        in_band(k, to),
    ensures
        on_the_way(commands.push(Cmd::Quad(control.0, control.1, to.0, to.1)), to),
{
    reveal(on_the_way);
    let command = Cmd::Quad(control.0, control.1, to.0, to.1);
    let pen = flatten::pen_after(commands);
    contours::law_the_pen_stays_where_it_drew(commands);
    assert(commands.push(command).drop_last() =~= commands);
    contours::lemma_quad_in_frame(from, control, to, band(k));
    lemma_hugs_on(pen.current, flatten::quad_points(from, control, to), k);
}

/// The way back to the start.
proof fn lemma_coming_back(commands: Seq<Cmd>)
    requires
        on_the_way(commands, (120, 300)),
    ensures
        flatten::contours(commands.push(Cmd::Close)).len() == 1,
        hugs(flatten::contours(commands.push(Cmd::Close))[0]),
        flatten::contours(commands.push(Cmd::Close))[0].len() >= 2,
{
    reveal(on_the_way);
    let pen = flatten::pen_after(commands);
    let start = (120i32, 300i32);
    contours::law_the_pen_stays_where_it_drew(commands);
    lemma_hugs_on(pen.current, seq![start], 0);
    assert(pen.current.push(start) =~= pen.current + seq![start]);
    contours::law_close_goes_back_to_the_start(commands);
}

/// The outline of the shell runs along the bands.
proof fn lemma_shell_hugs()
    ensures
        flatten::contours(shell()).len() == 1,
        hugs(flatten::contours(shell())[0]),
        flatten::contours(shell())[0].len() >= 2,
{
    let c1 = seq![Cmd::Move(120, 300)];
    let c2 = c1.push(Cmd::Line(780, 300));
    let c3 = c2.push(Cmd::Quad(840, 300, 840, 360));
    let c4 = c3.push(Cmd::Line(840, 640));
    let c5 = c4.push(Cmd::Quad(840, 700, 780, 700));
    let c6 = c5.push(Cmd::Line(120, 700));
    let c7 = c6.push(Cmd::Quad(60, 700, 60, 640));
    let c8 = c7.push(Cmd::Line(60, 360));
    let c9 = c8.push(Cmd::Quad(60, 300, 120, 300));
    lemma_setting_out();
    lemma_line_along(c1, (120, 300), (780, 300), 2);
    lemma_curve_along(c2, (780, 300), (840, 300), (840, 360), 1);
    lemma_line_along(c3, (840, 360), (840, 640), 1);
    lemma_curve_along(c4, (840, 640), (840, 700), (780, 700), 1);
    lemma_line_along(c5, (780, 700), (120, 700), 3);
    lemma_curve_along(c6, (120, 700), (60, 700), (60, 640), 0);
    lemma_line_along(c7, (60, 640), (60, 360), 0);
    lemma_curve_along(c8, (60, 360), (60, 300), (120, 300), 0);
    lemma_coming_back(c9);
    assert(c9.push(Cmd::Close) =~= shell());
}

/// Whether a polygon keeps out of the room in the shell.
spec fn keeps_out(polygon: Seq<(i64, i64)>) -> bool {
    exists|k: int| 0 <= k < 4 && frame::holds_polygon(#[trigger] band(k).grown(30), polygon)
}

proof fn lemma_segments_keep_out(points: Seq<(i32, i32)>)
    requires
        hugs(points),
    ensures
        forall|i: int|
            0 <= i < stroke::segments(points, 30).len() ==> keeps_out(
                #[trigger] stroke::segments(points, 30)[i],
            ),
    decreases points.len(),
{
    if points.len() >= 2 {
        let shorter = points.drop_last();
        let p = points[points.len() - 2];
        let q = points[points.len() - 1];
        assert(hugs(shorter)) by {
            assert forall|i: int, j: int| 0 <= i && j == i + 1 && j < shorter.len() implies banded(
                #[trigger] shorter[i],
                #[trigger] shorter[j],
            ) by {
                assert(banded(points[i], points[j]));
            }
        }
        lemma_segments_keep_out(shorter);
        assert(banded(p, q));
        let k = choose|k: int| 0 <= k < 4 && #[trigger] in_band(k, p) && in_band(k, q);
        if p != q {
            frame::lemma_segment_in(p, q, 30, band(k));
            assert(keeps_out(stroke::segment_corners(p, q, 30)));
        }
        let before = stroke::segments(shorter, 30);
        let all = stroke::segments(points, 30);
        assert forall|i: int| 0 <= i < all.len() implies keeps_out(#[trigger] all[i]) by {
            if i < before.len() {
                assert(all[i] == before[i]);
            }
        }
    }
}

proof fn lemma_joints_keep_out(points: Seq<(i32, i32)>, i: int)
    requires
        hugs(points),
        2 <= points.len(),
        0 <= i < points.len(),
    ensures
        keeps_out(stroke::disc_corners(points[i], 30)),
{
    let k = if i + 1 < points.len() {
        assert(banded(points[i], points[i + 1]));
        choose|k: int|
            0 <= k < 4 && #[trigger] in_band(k, points[i]) && in_band(k, points[i + 1])
    } else {
        assert(banded(points[i - 1], points[i]));
        choose|k: int|
            0 <= k < 4 && #[trigger] in_band(k, points[i - 1]) && in_band(k, points[i])
    };
    assert(in_band(k, points[i]));
    frame::lemma_disc_in(points[i], 30, band(k));
}

/// The room in the shell, in fixed-point pixels.
pub open spec fn in_the_room(size: int, x: int, y: int) -> bool {
    &&& edge::scaled(150, size) <= x < edge::scaled(750, size)
    &&& edge::scaled(330, size) <= y < edge::scaled(670, size)
}

proof fn lemma_kept_clear(polygons: Seq<Seq<(i64, i64)>>, size: int, x: int, y: int)
    requires
        0 < size <= i32::MAX,
        in_the_room(size, x, y),
        forall|i: int| 0 <= i < polygons.len() ==> keeps_out(#[trigger] polygons[i]),
    ensures
        fill::winding(edge::all_edges(polygons, size), x, y) == 0,
    decreases polygons.len(),
{
    if polygons.len() > 0 {
        let before = polygons.drop_last();
        let last = polygons[polygons.len() - 1];
        assert forall|i: int| 0 <= i < before.len() implies keeps_out(#[trigger] before[i]) by {
            assert(before[i] == polygons[i]);
        }
        lemma_kept_clear(before, size, x, y);
        assert(keeps_out(last));
        let k = choose|k: int|
            0 <= k < 4 && frame::holds_polygon(#[trigger] band(k).grown(30), last);
        let alone = seq![last];
        let edges = edge::contour_edges(last, size);
        assert(edge::all_edges(alone, size) =~= edges) by {
            assert(alone.drop_last() =~= Seq::<Seq<(i64, i64)>>::empty());
            assert(edge::all_edges(alone.drop_last(), size) =~= Seq::<edge::Edge>::empty());
        }
        if fill::winding(edges, x, y) != 0 {
            frame::law_polygons_stay_in_frame(alone, band(k).grown(30), size, x, y);
        }
        picture::law_windings_add(edge::all_edges(before, size), edges, x, y);
    }
}

/// The shell leaves the room inside it clear.
pub proof fn law_the_shell_keeps_its_room_clear(size: int, x: int, y: int)
    requires
        0 < size <= i32::MAX,
        in_the_room(size, x, y),
    ensures
        picture::figure_winding(mark::battery_shell()[0], size, x, y) == 0,
{
    reveal(picture::figure_winding);
    lemma_shell_hugs();
    let lines = flatten::contours(shell());
    let ring = lines[0];
    assert(lines.drop_last() =~= Seq::<Seq<(i32, i32)>>::empty());
    let pieces = stroke::stroke_polygons(ring, 60);
    assert(render::all_strokes(lines.drop_last(), 60) =~= Seq::<Seq<(i64, i64)>>::empty());
    assert(render::all_strokes(lines, 60) =~= pieces);
    lemma_segments_keep_out(ring);
    assert forall|i: int| 0 <= i < pieces.len() implies keeps_out(#[trigger] pieces[i]) by {
        let segments = stroke::segments(ring, 30);
        if i < segments.len() {
            assert(pieces[i] == segments[i]);
        } else {
            lemma_joints_keep_out(ring, i - segments.len());
            assert(pieces[i] == stroke::disc_corners(ring[i - segments.len()], 30));
        }
    }
    lemma_kept_clear(pieces, size, x, y);
}

/// The fill never touches the shell, nor does the bolt: no position is inside
/// both, at any size.
pub proof fn law_the_fill_never_touches_the_shell(
    percent: int,
    charging: bool,
    size: int,
    x: int,
    y: int,
)
    requires
        0 <= percent <= 100,
        0 < size <= i32::MAX,
        mark::battery_figures(percent, charging).len() == 3,
    ensures
        ({
            let figures = mark::battery_figures(percent, charging);
            picture::figure_winding(figures[0], size, x, y) == 0 || picture::figure_winding(
                figures[2],
                size,
                x,
                y,
            ) == 0
        }),
{
    let figures = mark::battery_figures(percent, charging);
    let content = figures[2];
    let commands = frame::outline(content);
    let room = contours::Frame { left: 160, top: 340, right: 740, bottom: 660 };
    assert(room.holds_outline(commands)) by {
        if charging {
            assert(commands == mark::bolt());
            assert forall|i: int| 0 <= i < commands.len() implies room.holds_command(
                #[trigger] commands[i],
            ) by {}
        } else {
            let level = mark::battery_level(percent);
            assert(0 < level <= 580);
            roundness::law_corners_fit(level, 200, 20);
            assert(commands == path::rounded(160, 400, level, 200, 20));
            assert forall|i: int| 0 <= i < commands.len() implies room.holds_command(
                #[trigger] commands[i],
            ) by {}
        }
    }
    frame::law_figures_stay_in_frame(content, room);
    assert(room.grown(0) == room);
    if picture::figure_winding(content, size, x, y) != 0 {
        reveal(picture::figure_winding);
        frame::law_polygons_stay_in_frame(
            render::figure_polygons(content),
            room,
            size,
            x,
            y,
        );
        frame::law_scaling_keeps_order(150, 160, size);
        frame::law_scaling_keeps_order(740, 750, size);
        frame::law_scaling_keeps_order(330, 340, size);
        frame::law_scaling_keeps_order(660, 670, size);
        assert(figures[0] == mark::battery_shell()[0]);
        law_the_shell_keeps_its_room_clear(size, x, y);
    }
}

} // verus!
