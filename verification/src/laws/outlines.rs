//! What the outlines of rectangles and circles are like.
use crate::edge;
use crate::flatten;
use crate::laws::circles;
use crate::laws::contours;
use crate::path;
use crate::path::Cmd;
use vstd::prelude::*;

verus! {

/// Where a command leaves the pen, if it moves it.
pub open spec fn end_of(command: Cmd) -> Option<(int, int)> {
    match command {
        Cmd::Move(x, y) => Some((x as int, y as int)),
        Cmd::Line(x, y) => Some((x as int, y as int)),
        Cmd::Quad(_, _, x, y) => Some((x as int, y as int)),
        Cmd::Cubic(_, _, _, _, x, y) => Some((x as int, y as int)),
        Cmd::Close => None,
    }
}

/// The corners of a rectangle are rounded as far as they may be: by the radius that
/// was asked for, by no more than half of either side, and not at all by less than
/// nothing or where a side goes backward.
pub proof fn law_corners_take_what_they_may(width: int, height: int, radius: int)
    ensures
        ({
            let r = path::corner(width, height, radius);
            let room = 0 <= radius && 0 <= width && 0 <= height;
            &&& !room ==> r == 0
            &&& room ==> 0 <= r <= radius && 2 * r <= width && 2 * r <= height
            &&& room ==> r == radius || width < 2 * r + 2 || height < 2 * r + 2
        }),
{
}

/// Whether the points of a contour stay in a box and reach all four sides of it.
pub open spec fn fills_box(points: Seq<(i32, i32)>, frame: contours::Frame) -> bool {
    &&& frame.holds_contour(points)
    &&& exists|k: int| 0 <= k < points.len() && (#[trigger] points[k]).0 == frame.left
    &&& exists|k: int| 0 <= k < points.len() && (#[trigger] points[k]).0 == frame.right
    &&& exists|k: int| 0 <= k < points.len() && (#[trigger] points[k]).1 == frame.top
    &&& exists|k: int| 0 <= k < points.len() && (#[trigger] points[k]).1 == frame.bottom
}

/// The box between a corner and the one that is a width and a height away, either of
/// which may go backward.
pub open spec fn box_of(x: int, y: int, width: int, height: int) -> contours::Frame {
    let (left, right) = if 0 <= width {
        (x, x + width)
    } else {
        (x + width, x)
    };
    let (top, bottom) = if 0 <= height {
        (y, y + height)
    } else {
        (y + height, y)
    };
    contours::Frame { left, top, right, bottom }
}

/// A rounded rectangle fills its box: its outline is one contour, which reaches all
/// four sides of the box and does not go beyond any.
pub proof fn law_a_rounded_rectangle_fills_its_box(
    x: int,
    y: int,
    width: int,
    height: int,
    radius: int,
)
    requires
        i32::MIN <= x <= i32::MAX && i32::MIN <= x + width <= i32::MAX,
        i32::MIN <= y <= i32::MAX && i32::MIN <= y + height <= i32::MAX,
    ensures
        ({
            let lines = flatten::contours(path::rounded(x, y, width, height, radius));
            &&& lines.len() == 1
            &&& fills_box(lines[0], box_of(x, y, width, height))
        }),
{
    let frame = box_of(x, y, width, height);
    let r = path::corner(width, height, radius);
    law_corners_take_what_they_may(width, height, radius);
    let all = path::rounded(x, y, width, height, radius);
    let lines = flatten::contours(all);
    assert forall|i: int| 0 <= i < all.len() implies frame.holds_command(#[trigger] all[i]) by {}
    assert(frame.holds_outline(all));
    lemma_open_contour(all.take(9));
    assert(all.drop_last() =~= all.take(9));
    let pen = flatten::pen_after(all.take(9));
    let after = flatten::pen_after(all);
    assert(lines =~= seq![pen.current.push(pen.current[0])]);
    contours::law_contours_stay_in_frame(all, frame, 0);
    let points = lines[0];
    lemma_anchor(all.take(9), 0);
    lemma_anchor(all.take(9), 3);
    lemma_anchor(all.take(9), 5);
    lemma_anchor(all.take(9), 7);
    let top = choose|k: int|
        0 <= k < pen.current.len() && (#[trigger] pen.current[k]) == (
            all[0]->Move_0,
            all[0]->Move_1,
        );
    assert(points[top].1 == y);
    let right = choose|k: int|
        0 <= k < pen.current.len() && (#[trigger] pen.current[k]) == (
            all[3]->Line_0,
            all[3]->Line_1,
        );
    assert(points[right].0 == x + width);
    let bottom = choose|k: int|
        0 <= k < pen.current.len() && (#[trigger] pen.current[k]) == (
            all[5]->Line_0,
            all[5]->Line_1,
        );
    assert(points[bottom].1 == y + height);
    let left = choose|k: int|
        0 <= k < pen.current.len() && (#[trigger] pen.current[k]) == (
            all[7]->Line_0,
            all[7]->Line_1,
        );
    assert(points[left].0 == x);
}

/// Whether an outline starts with a move and goes on without another or a close.
spec fn unbroken(commands: Seq<Cmd>) -> bool {
    &&& 0 < commands.len()
    &&& commands[0] is Move
    &&& forall|i: int|
        1 <= i < commands.len() ==> !((#[trigger] commands[i]) is Move) && !(commands[i] is Close)
}

/// An outline without a break is one contour in progress.
proof fn lemma_open_contour(commands: Seq<Cmd>)
    requires
        unbroken(commands),
    ensures
        flatten::pen_after(commands).finished.len() == 0,
        flatten::pen_after(commands).current.len() > 0,
    decreases commands.len(),
{
    let before = commands.drop_last();
    if before.len() == 0 {
        let pen = flatten::pen_after(before);
        assert(pen.current.len() == 0 && pen.finished.len() == 0);
    } else {
        assert(unbroken(before)) by {
            assert forall|i: int| 1 <= i < before.len() implies !((
            #[trigger] before[i]) is Move) && !(before[i] is Close) by {
                assert(before[i] == commands[i]);
            }
        }
        lemma_open_contour(before);
        assert(commands.last() == commands[commands.len() - 1]);
    }
}

/// Where a straight command leaves the pen is a point of the contour.
proof fn lemma_anchor(commands: Seq<Cmd>, i: int)
    requires
        unbroken(commands),
        0 <= i < commands.len(),
        commands[i] is Move || commands[i] is Line,
    ensures
        ({
            let at = match commands[i] {
                Cmd::Move(x, y) => (x, y),
                Cmd::Line(x, y) => (x, y),
                _ => (0i32, 0i32),
            };
            exists|k: int|
                0 <= k < flatten::pen_after(commands).current.len() && (
                #[trigger] flatten::pen_after(commands).current[k]) == at
        }),
    decreases commands.len(),
{
    let before = commands.drop_last();
    let pen = flatten::pen_after(before);
    let after = flatten::pen_after(commands);
    if i == commands.len() - 1 {
        assert(commands.last() == commands[i]);
        let last = after.current.len() - 1;
        assert(after.current[last] == match commands[i] {
            Cmd::Move(x, y) => (x, y),
            Cmd::Line(x, y) => (x, y),
            _ => (0i32, 0i32),
        });
    } else {
        assert(unbroken(before)) by {
            assert forall|j: int| 1 <= j < before.len() implies !((
            #[trigger] before[j]) is Move) && !(before[j] is Close) by {
                assert(before[j] == commands[j]);
            }
        }
        assert(before[i] == commands[i]);
        lemma_anchor(before, i);
        let at = match commands[i] {
            Cmd::Move(x, y) => (x, y),
            Cmd::Line(x, y) => (x, y),
            _ => (0i32, 0i32),
        };
        let k = choose|k: int| 0 <= k < pen.current.len() && (#[trigger] pen.current[k]) == at;
        assert(commands.last() == commands[commands.len() - 1]);
        assert(after.current[k] == pen.current[k]);
    }
}

/// Whether a command of an outline rounds a corner by `r`: it bends toward the
/// corner, from one point at the distance `r` on one side to one on the other. It
/// comes from the level side or from the upright one.
pub open spec fn rounds_corner(
    outline: Seq<Cmd>,
    k: int,
    corner: (int, int),
    inward: (int, int),
    r: int,
    from_level: bool,
) -> bool {
    let (h, v) = ((corner.0 + inward.0 * r, corner.1), (corner.0, corner.1 + inward.1 * r));
    &&& 1 <= k < outline.len()
    &&& outline[k] matches Cmd::Quad(cx, cy, _, _) && (cx as int, cy as int) == corner
    &&& from_level ==> end_of(outline[k - 1]) == Some(h) && end_of(outline[k]) == Some(v)
    &&& !from_level ==> end_of(outline[k - 1]) == Some(v) && end_of(outline[k]) == Some(h)
}

/// All four corners of a rounded rectangle are rounded alike, in turn from its top right
/// round to its top left, and between them its sides are straight.
pub proof fn law_corners_are_rounded_alike(
    x: int,
    y: int,
    width: int,
    height: int,
    radius: int,
)
    requires
        i32::MIN <= x <= i32::MAX && i32::MIN <= x + width <= i32::MAX,
        i32::MIN <= y <= i32::MAX && i32::MIN <= y + height <= i32::MAX,
    ensures
        ({
            let outline = path::rounded(x, y, width, height, radius);
            let r = path::corner(width, height, radius);
            &&& outline.len() == 10
            &&& rounds_corner(outline, 2, (x + width, y), (-1, 1), r, true)
            &&& rounds_corner(outline, 4, (x + width, y + height), (-1, -1), r, false)
            &&& rounds_corner(outline, 6, (x, y + height), (1, -1), r, true)
            &&& rounds_corner(outline, 8, (x, y), (1, 1), r, false)
            &&& outline[1] is Line && outline[3] is Line && outline[5] is Line && outline[7] is Line
            &&& outline[0] is Move && outline[9] is Close
            &&& end_of(outline[8]) == end_of(outline[0])
        }),
{
    law_corners_take_what_they_may(width, height, radius);
    let r = path::corner(width, height, radius);
    assert(-1 * r == -r && 1 * r == r);
    let outline = path::rounded(x, y, width, height, radius);
    assert(rounds_corner(outline, 2, (x + width, y), (-1, 1), r, true));
    assert(rounds_corner(outline, 4, (x + width, y + height), (-1, -1), r, false));
    assert(rounds_corner(outline, 6, (x, y + height), (1, -1), r, true));
    assert(rounds_corner(outline, 8, (x, y), (1, 1), r, false));
}

/// Moving the box of a rounded rectangle moves its outline, and changes nothing
/// else about it.
pub proof fn law_rounded_rectangles_can_be_moved(
    x: int,
    y: int,
    width: int,
    height: int,
    radius: int,
    dx: int,
    dy: int,
    k: int,
)
    requires
        i32::MIN <= x <= i32::MAX && i32::MIN <= x + width <= i32::MAX,
        i32::MIN <= y <= i32::MAX && i32::MIN <= y + height <= i32::MAX,
        i32::MIN <= x + dx <= i32::MAX && i32::MIN <= x + dx + width <= i32::MAX,
        i32::MIN <= y + dy <= i32::MAX && i32::MIN <= y + dy + height <= i32::MAX,
        0 <= k < path::rounded(x, y, width, height, radius).len(),
    ensures
        ({
            let here = path::rounded(x, y, width, height, radius)[k];
            let there = path::rounded(x + dx, y + dy, width, height, radius)[k];
            match here {
                Cmd::Move(a, b) => there == Cmd::Move((a + dx) as i32, (b + dy) as i32),
                Cmd::Line(a, b) => there == Cmd::Line((a + dx) as i32, (b + dy) as i32),
                Cmd::Quad(a, b, c, d) => there == Cmd::Quad(
                    (a + dx) as i32,
                    (b + dy) as i32,
                    (c + dx) as i32,
                    (d + dy) as i32,
                ),
                _ => there == here,
            }
        }),
{
    law_corners_take_what_they_may(width, height, radius);
}

/// A circle goes round its centre: its eight arcs end right below, below, left below
/// of it and so on, round to the right of it again. Every other one ends on an
/// axis, at the radius; the others end as far along one axis as along the other, to
/// one unit.
pub proof fn law_a_circle_goes_round(cx: int, cy: int, r: int, i: int)
    requires
        0 <= r,
        i32::MIN <= cx - r && cx + r <= i32::MAX,
        i32::MIN <= cy - r && cy + r <= i32::MAX,
        0 <= i < 8,
    ensures
        path::circle(cx, cy, r).len() == 10,
        path::circle(cx, cy, r)[i + 1] matches Cmd::Quad(_, _, x, y) && {
            let (dx, dy) = (x - cx, y - cy);
            &&& i == 1 ==> dx == 0 && dy == r
            &&& i == 3 ==> dx == -r && dy == 0
            &&& i == 5 ==> dx == 0 && dy == -r
            &&& i == 7 ==> dx == r && dy == 0
            &&& i == 0 ==> 0 <= dx && 0 <= dy
            &&& i == 2 ==> dx <= 0 && 0 <= dy
            &&& i == 4 ==> dx <= 0 && dy <= 0
            &&& i == 6 ==> 0 <= dx && dy <= 0
            &&& i % 2 == 0 ==> -1 <= edge::magnitude(dx) - edge::magnitude(dy) <= 1
        },
{
    assert(path::circle(cx, cy, r)[i + 1] == path::eighth(cx, cy, r, i));
    circles::lemma_ends(cx, cy, r, i);
}

} // verus!
