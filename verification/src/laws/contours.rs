//! What flattening keeps of an outline.
use crate::flatten;
use crate::laws::curves;
use crate::path::Cmd;
use vstd::prelude::*;

verus! {

/// The pen stays where it drew: a contour in progress ends at the cursor.
pub proof fn law_the_pen_stays_where_it_drew(commands: Seq<Cmd>)
    ensures
        ({
            let pen = flatten::pen_after(commands);
            pen.current.len() > 0 ==> pen.current.last() == pen.cursor
        }),
    decreases commands.len(),
{
    if commands.len() > 0 {
        let pen = flatten::pen_after(commands.drop_last());
        law_the_pen_stays_where_it_drew(commands.drop_last());
        match commands.last() {
            Cmd::Quad(cx, cy, x, y) => {
                curves::law_quad_ends_at_its_end(pen.cursor.0, cx, x);
                curves::law_quad_ends_at_its_end(pen.cursor.1, cy, y);
                let points = flatten::quad_points(pen.cursor, (cx, cy), (x, y));
                assert(points.last() == (x, y));
            },
            Cmd::Cubic(ax, ay, bx, by, x, y) => {
                curves::law_cubic_ends_at_its_end(pen.cursor.0, ax, bx, x);
                curves::law_cubic_ends_at_its_end(pen.cursor.1, ay, by, y);
                let points = flatten::cubic_points(pen.cursor, (ax, ay), (bx, by), (x, y));
                assert(points.last() == (x, y));
            },
            _ => {},
        }
    }
}

/// Every contour has at least two points.
pub proof fn law_contours_have_a_side(commands: Seq<Cmd>, i: int)
    requires
        0 <= i < flatten::contours(commands).len(),
    ensures
        flatten::contours(commands)[i].len() >= 2,
{
    lemma_finished_have_a_side(commands);
}

proof fn lemma_finished_have_a_side(commands: Seq<Cmd>)
    ensures
        forall|i: int|
            0 <= i < flatten::pen_after(commands).finished.len()
                ==> (#[trigger] flatten::pen_after(commands).finished[i]).len() >= 2,
    decreases commands.len(),
{
    if commands.len() > 0 {
        lemma_finished_have_a_side(commands.drop_last());
        let before = flatten::pen_after(commands.drop_last());
        let after = flatten::pen_after(commands);
        assert forall|i: int| 0 <= i < after.finished.len() implies (
        #[trigger] after.finished[i]).len() >= 2 by {
            if i < before.finished.len() {
                assert(before.finished[i].len() >= 2);
            }
        }
    }
}

/// Closing an outline that has been started adds a contour that ends where it
/// starts, and puts the pen back there.
pub proof fn law_close_goes_back_to_the_start(commands: Seq<Cmd>)
    requires
        flatten::pen_after(commands).current.len() > 0,
    ensures
        ({
            let before = flatten::pen_after(commands);
            let after = flatten::pen_after(commands.push(Cmd::Close));
            &&& after.finished == before.finished.push(before.current.push(before.current[0]))
            &&& after.current == seq![before.current[0]]
            &&& after.cursor == before.current[0]
            &&& flatten::contours(commands.push(Cmd::Close)) == after.finished
        }),
{
    assert(commands.push(Cmd::Close).drop_last() =~= commands);
}

/// Closing an outline that has not been started does nothing.
pub proof fn law_nothing_is_closed_by_itself(commands: Seq<Cmd>)
    requires
        flatten::pen_after(commands).current.len() == 0,
    ensures
        flatten::pen_after(commands.push(Cmd::Close)) == flatten::pen_after(commands),
{
    assert(commands.push(Cmd::Close).drop_last() =~= commands);
}

/// A moved pen starts afresh: what was drawn before stays, and does not touch
/// what comes next.
pub proof fn law_move_starts_afresh(commands: Seq<Cmd>, x: i32, y: i32)
    ensures
        flatten::contours(commands.push(Cmd::Move(x, y))) == flatten::contours(commands),
        flatten::pen_after(commands.push(Cmd::Move(x, y))).current == seq![(x, y)],
{
    assert(commands.push(Cmd::Move(x, y)).drop_last() =~= commands);
}

/// A line adds the point it goes to.
pub proof fn law_a_line_adds_its_end(commands: Seq<Cmd>, x: i32, y: i32)
    ensures
        ({
            let before = flatten::pen_after(commands);
            let after = flatten::pen_after(commands.push(Cmd::Line(x, y)));
            &&& after.finished == before.finished
            &&& after.current == before.current.push((x, y))
            &&& after.cursor == (x, y)
        }),
{
    assert(commands.push(Cmd::Line(x, y)).drop_last() =~= commands);
}

/// A quadratic curve adds twelve points, from where the pen is on to its end, each
/// of them a whole unit nearest to the curve.
pub proof fn law_a_quad_adds_twelve_points(
    commands: Seq<Cmd>,
    cx: i32,
    cy: i32,
    x: i32,
    y: i32,
    step: int,
)
    requires
        1 <= step <= 12,
    ensures
        ({
            let before = flatten::pen_after(commands);
            let after = flatten::pen_after(commands.push(Cmd::Quad(cx, cy, x, y)));
            let count = before.current.len();
            let p = after.current[count + step - 1];
            let from = before.cursor;
            &&& after.finished == before.finished
            &&& after.current.len() == count + 12
            &&& after.current.take(count as int) == before.current
            &&& after.cursor == (x, y)
            &&& -72 <= 144 * p.0 - curves::quad_point_144(
                from.0 as int,
                cx as int,
                x as int,
                step,
            ) <= 72
            &&& -72 <= 144 * p.1 - curves::quad_point_144(
                from.1 as int,
                cy as int,
                y as int,
                step,
            ) <= 72
        }),
{
    let command = Cmd::Quad(cx, cy, x, y);
    assert(commands.push(command).drop_last() =~= commands);
    let before = flatten::pen_after(commands);
    let after = flatten::pen_after(commands.push(command));
    curves::law_quad_points_are_nearest(before.cursor.0, cx, x, step);
    curves::law_quad_points_are_nearest(before.cursor.1, cy, y, step);
    let added = flatten::quad_points(before.cursor, (cx, cy), (x, y));
    assert(after.current[before.current.len() + step - 1] == added[step - 1]);
    assert(after.current.take(before.current.len() as int) =~= before.current);
}

/// A cubic curve adds twelve points, from where the pen is on to its end, each of
/// them a whole unit nearest to the curve.
pub proof fn law_a_cubic_adds_twelve_points(
    commands: Seq<Cmd>,
    a: (i32, i32),
    b: (i32, i32),
    x: i32,
    y: i32,
    step: int,
)
    requires
        1 <= step <= 12,
    ensures
        ({
            let before = flatten::pen_after(commands);
            let after = flatten::pen_after(commands.push(Cmd::Cubic(a.0, a.1, b.0, b.1, x, y)));
            let count = before.current.len();
            let p = after.current[count + step - 1];
            let from = before.cursor;
            &&& after.finished == before.finished
            &&& after.current.len() == count + 12
            &&& after.current.take(count as int) == before.current
            &&& after.cursor == (x, y)
            &&& -864 <= 1728 * p.0 - curves::cubic_point_1728(
                from.0 as int,
                a.0 as int,
                b.0 as int,
                x as int,
                step,
            ) <= 864
            &&& -864 <= 1728 * p.1 - curves::cubic_point_1728(
                from.1 as int,
                a.1 as int,
                b.1 as int,
                y as int,
                step,
            ) <= 864
        }),
{
    let command = Cmd::Cubic(a.0, a.1, b.0, b.1, x, y);
    assert(commands.push(command).drop_last() =~= commands);
    let before = flatten::pen_after(commands);
    let after = flatten::pen_after(commands.push(command));
    curves::law_cubic_points_are_nearest(before.cursor.0, a.0, b.0, x, step);
    curves::law_cubic_points_are_nearest(before.cursor.1, a.1, b.1, y, step);
    let added = flatten::cubic_points(before.cursor, a, b, (x, y));
    assert(after.current[before.current.len() + step - 1] == added[step - 1]);
    assert(after.current.take(before.current.len() as int) =~= before.current);
}

/// The contours of an outline are those that are finished, and the one in progress
/// if it has a side. An outline starts with none, and with the pen at the origin.
pub proof fn law_contours_are_kept_in_order(commands: Seq<Cmd>)
    ensures
        ({
            let pen = flatten::pen_after(commands);
            let all = flatten::contours(commands);
            &&& pen.current.len() < 2 ==> all == pen.finished
            &&& 2 <= pen.current.len() ==> all == pen.finished.push(pen.current)
        }),
        ({
            let pen = flatten::pen_after(Seq::empty());
            pen.finished.len() == 0 && pen.current.len() == 0 && pen.cursor == (0i32, 0i32)
        }),
{
}

/// The commands that go straight from point to point.
pub open spec fn straight(points: Seq<(i32, i32)>) -> Seq<Cmd> {
    Seq::new(
        points.len(),
        |i: int|
            if i == 0 {
                Cmd::Move(points[i].0, points[i].1)
            } else {
                Cmd::Line(points[i].0, points[i].1)
            },
    )
}

/// Straight lines are kept as they are: point for point.
pub proof fn law_straight_lines_are_kept(points: Seq<(i32, i32)>)
    requires
        2 <= points.len(),
    ensures
        flatten::contours(straight(points)) == seq![points],
{
    lemma_straight(points);
    assert(flatten::contours(straight(points)) =~= seq![points]);
}

pub proof fn lemma_straight(points: Seq<(i32, i32)>)
    requires
        1 <= points.len(),
    ensures
        flatten::pen_after(straight(points)).finished.len() == 0,
        flatten::pen_after(straight(points)).current == points,
    decreases points.len(),
{
    let commands = straight(points);
    assert(commands.drop_last() =~= straight(points.drop_last()));
    if points.len() == 1 {
        let start = flatten::pen_after(commands.drop_last());
        assert(start.current.len() == 0 && start.finished.len() == 0);
        assert(flatten::pen_after(commands).current =~= points);
    } else {
        lemma_straight(points.drop_last());
        assert(flatten::pen_after(commands).current =~= points);
    }
}

/// A rectangle in icon units.
pub ghost struct Frame {
    pub left: int,
    pub top: int,
    pub right: int,
    pub bottom: int,
}

impl Frame {
    /// Whether the rectangle takes in a point.
    pub open spec fn holds(self, x: int, y: int) -> bool {
        self.left <= x <= self.right && self.top <= y <= self.bottom
    }

    /// The rectangle with a margin round it.
    pub open spec fn grown(self, margin: int) -> Frame {
        Frame {
            left: self.left - margin,
            top: self.top - margin,
            right: self.right + margin,
            bottom: self.bottom + margin,
        }
    }

    /// Whether every point of a command is in the rectangle.
    pub open spec fn holds_command(self, command: Cmd) -> bool {
        match command {
            Cmd::Move(x, y) => self.holds(x as int, y as int),
            Cmd::Line(x, y) => self.holds(x as int, y as int),
            Cmd::Quad(cx, cy, x, y) => self.holds(cx as int, cy as int) && self.holds(
                x as int,
                y as int,
            ),
            Cmd::Cubic(ax, ay, bx, by, x, y) => self.holds(ax as int, ay as int) && self.holds(
                bx as int,
                by as int,
            ) && self.holds(x as int, y as int),
            Cmd::Close => true,
        }
    }

    /// Whether an outline is authored inside the rectangle.
    pub open spec fn holds_outline(self, commands: Seq<Cmd>) -> bool {
        &&& self.holds(0, 0) || commands.len() == 0 || commands[0] is Move
        &&& forall|i: int| 0 <= i < commands.len() ==> self.holds_command(#[trigger] commands[i])
    }

    /// Whether every point of a contour is in the rectangle.
    pub open spec fn holds_contour(self, points: Seq<(i32, i32)>) -> bool {
        forall|i: int|
            0 <= i < points.len() ==> self.holds(
                (#[trigger] points[i]).0 as int,
                points[i].1 as int,
            )
    }
}

/// Flattening does not leave the rectangle that an outline is authored in.
pub proof fn law_contours_stay_in_frame(commands: Seq<Cmd>, frame: Frame, i: int)
    requires
        frame.holds_outline(commands),
        0 <= i < flatten::contours(commands).len(),
    ensures
        frame.holds_contour(flatten::contours(commands)[i]),
{
    lemma_pen_in_frame(commands, frame);
}

proof fn lemma_pen_in_frame(commands: Seq<Cmd>, frame: Frame)
    requires
        frame.holds_outline(commands),
    ensures
        ({
            let pen = flatten::pen_after(commands);
            &&& forall|i: int|
                0 <= i < pen.finished.len() ==> frame.holds_contour(#[trigger] pen.finished[i])
            &&& frame.holds_contour(pen.current)
            &&& commands.len() > 0 || frame.holds(0, 0) ==> frame.holds(
                pen.cursor.0 as int,
                pen.cursor.1 as int,
            )
        }),
    decreases commands.len(),
{
    if commands.len() > 0 {
        let before = commands.drop_last();
        let pen = flatten::pen_after(before);
        let after = flatten::pen_after(commands);
        lemma_pen_in_frame(before, frame);
        assert(frame.holds_command(commands[commands.len() - 1]));
        if before.len() == 0 {
            assert(commands[0] == commands.last());
        }
        match commands.last() {
            Cmd::Quad(cx, cy, x, y) => {
                lemma_quad_in_frame(pen.cursor, (cx, cy), (x, y), frame);
            },
            Cmd::Cubic(ax, ay, bx, by, x, y) => {
                lemma_cubic_in_frame(pen.cursor, (ax, ay), (bx, by), (x, y), frame);
            },
            _ => {},
        }
        assert forall|i: int| 0 <= i < after.current.len() implies frame.holds(
            (#[trigger] after.current[i]).0 as int,
            after.current[i].1 as int,
        ) by {
            if i < pen.current.len() {
                assert(frame.holds(pen.current[i].0 as int, pen.current[i].1 as int));
            }
        }
        if pen.current.len() > 0 {
            assert(frame.holds(pen.current[0].0 as int, pen.current[0].1 as int));
        }
    }
}

pub proof fn lemma_quad_in_frame(
    p0: (i32, i32),
    p1: (i32, i32),
    p2: (i32, i32),
    frame: Frame,
)
    requires
        frame.holds(p0.0 as int, p0.1 as int),
        frame.holds(p1.0 as int, p1.1 as int),
        frame.holds(p2.0 as int, p2.1 as int),
    ensures
        frame.holds_contour(flatten::quad_points(p0, p1, p2)),
{
    let points = flatten::quad_points(p0, p1, p2);
    assert forall|i: int| 0 <= i < points.len() implies frame.holds(
        (#[trigger] points[i]).0 as int,
        points[i].1 as int,
    ) by {
        curves::law_quad_stays_between(p0.0, p1.0, p2.0, frame.left, frame.right, i + 1);
        curves::law_quad_stays_between(p0.1, p1.1, p2.1, frame.top, frame.bottom, i + 1);
    }
}

pub proof fn lemma_cubic_in_frame(
    p0: (i32, i32),
    p1: (i32, i32),
    p2: (i32, i32),
    p3: (i32, i32),
    frame: Frame,
)
    requires
        frame.holds(p0.0 as int, p0.1 as int),
        frame.holds(p1.0 as int, p1.1 as int),
        frame.holds(p2.0 as int, p2.1 as int),
        frame.holds(p3.0 as int, p3.1 as int),
    ensures
        frame.holds_contour(flatten::cubic_points(p0, p1, p2, p3)),
{
    let points = flatten::cubic_points(p0, p1, p2, p3);
    assert forall|i: int| 0 <= i < points.len() implies frame.holds(
        (#[trigger] points[i]).0 as int,
        points[i].1 as int,
    ) by {
        curves::law_cubic_stays_between(p0.0, p1.0, p2.0, p3.0, frame.left, frame.right, i + 1);
        curves::law_cubic_stays_between(p0.1, p1.1, p2.1, p3.1, frame.top, frame.bottom, i + 1);
    }
}

} // verus!
