//! From outlines to straight points.
use crate::curve;
use crate::curve::CURVE_STEPS;
use crate::path::{Cmd, Path};
use vstd::prelude::*;

verus! {

/// What has been drawn so far: the contours that are finished, the one in
/// progress, and the point that the next curve starts from.
pub ghost struct Pen {
    pub finished: Seq<Seq<(i32, i32)>>,
    pub current: Seq<(i32, i32)>,
    pub cursor: (i32, i32),
}

/// The contours once the pen is lifted. A single point draws nothing.
pub open spec fn lifted(pen: Pen) -> Seq<Seq<(i32, i32)>> {
    if pen.current.len() > 1 {
        pen.finished.push(pen.current)
    } else {
        pen.finished
    }
}

/// The points of a quadratic curve after its start.
pub open spec fn quad_points(p0: (i32, i32), p1: (i32, i32), p2: (i32, i32)) -> Seq<(i32, i32)> {
    Seq::new(
        CURVE_STEPS as nat,
        |i: int|
            (
                curve::quad_coordinate(p0.0 as int, p1.0 as int, p2.0 as int, i + 1) as i32,
                curve::quad_coordinate(p0.1 as int, p1.1 as int, p2.1 as int, i + 1) as i32,
            ),
    )
}

/// The points of a cubic curve after its start.
pub open spec fn cubic_points(
    p0: (i32, i32),
    p1: (i32, i32),
    p2: (i32, i32),
    p3: (i32, i32),
) -> Seq<(i32, i32)> {
    Seq::new(
        CURVE_STEPS as nat,
        |i: int|
            (
                curve::cubic_coordinate(
                    p0.0 as int,
                    p1.0 as int,
                    p2.0 as int,
                    p3.0 as int,
                    i + 1,
                ) as i32,
                curve::cubic_coordinate(
                    p0.1 as int,
                    p1.1 as int,
                    p2.1 as int,
                    p3.1 as int,
                    i + 1,
                ) as i32,
            ),
    )
}

/// What one command does to the pen.
pub open spec fn drawn(pen: Pen, command: Cmd) -> Pen {
    match command {
        Cmd::Move(x, y) => Pen {
            finished: lifted(pen),
            current: seq![(x, y)],
            cursor: (x, y),
        },
        Cmd::Line(x, y) => Pen { current: pen.current.push((x, y)), cursor: (x, y), ..pen },
        Cmd::Quad(cx, cy, x, y) => Pen {
            current: pen.current + quad_points(pen.cursor, (cx, cy), (x, y)),
            cursor: (x, y),
            ..pen
        },
        Cmd::Cubic(ax, ay, bx, by, x, y) => Pen {
            current: pen.current + cubic_points(pen.cursor, (ax, ay), (bx, by), (x, y)),
            cursor: (x, y),
            ..pen
        },
        Cmd::Close => if pen.current.len() == 0 {
            pen
        } else {
            Pen {
                finished: pen.finished.push(pen.current.push(pen.current[0])),
                current: seq![pen.current[0]],
                cursor: pen.current[0],
            }
        },
    }
}

/// The pen after a list of commands. It starts at the origin.
pub open spec fn pen_after(commands: Seq<Cmd>) -> Pen
    decreases commands.len(),
{
    if commands.len() == 0 {
        Pen { finished: Seq::empty(), current: Seq::empty(), cursor: (0, 0) }
    } else {
        drawn(pen_after(commands.drop_last()), commands.last())
    }
}

/// The contours of an outline.
pub open spec fn contours(commands: Seq<Cmd>) -> Seq<Seq<(i32, i32)>> {
    lifted(pen_after(commands))
}

/// The contents of a list of vectors.
pub open spec fn contents<T>(vectors: Seq<Vec<T>>) -> Seq<Seq<T>> {
    vectors.map_values(|vector: Vec<T>| vector@)
}

/// Appending to a list of vectors appends to its contents.
pub proof fn lemma_contents_push<T>(vectors: Seq<Vec<T>>, vector: Vec<T>)
    ensures
        contents(vectors.push(vector)) == contents(vectors).push(vector@),
{
    assert(contents(vectors.push(vector)) =~= contents(vectors).push(vector@));
}

/// Splits a path into contours of straight points, in icon units.
pub fn flatten(path: &Path) -> (r: Vec<Vec<(i32, i32)>>)
    ensures
        contents(r@) == contours(path@),
{
    let commands = path.commands();
    let count: usize = commands.len();
    let mut finished: Vec<Vec<(i32, i32)>> = Vec::new();
    let mut current: Vec<(i32, i32)> = Vec::new();
    let mut cursor: (i32, i32) = (0, 0);
    assert(contents(finished@) =~= Seq::<Seq<(i32, i32)>>::empty());
    for i in 0..count
        invariant
            commands@ == path@,
            count == commands@.len(),
            contents(finished@) == pen_after(commands@.take(i as int)).finished,
            current@ == pen_after(commands@.take(i as int)).current,
            cursor == pen_after(commands@.take(i as int)).cursor,
    {
        let ghost pen = pen_after(commands@.take(i as int));
        proof {
            assert(commands@.take(i + 1).drop_last() =~= commands@.take(i as int));
            assert(pen_after(commands@.take(i + 1)) == drawn(pen, commands@[i as int]));
        }
        match commands[i] {
            Cmd::Move(x, y) => {
                if current.len() > 1 {
                    proof {
                        lemma_contents_push(finished@, current);
                    }
                    finished.push(current);
                }
                cursor = (x, y);
                current = vec![cursor];
            },
            Cmd::Line(x, y) => {
                cursor = (x, y);
                current.push(cursor);
            },
            Cmd::Quad(cx, cy, x, y) => {
                push_quad(&mut current, cursor, (cx, cy), (x, y));
                cursor = (x, y);
            },
            Cmd::Cubic(ax, ay, bx, by, x, y) => {
                push_cubic(&mut current, cursor, (ax, ay), (bx, by), (x, y));
                cursor = (x, y);
            },
            Cmd::Close => {
                if current.len() > 0 {
                    let first: (i32, i32) = current[0];
                    current.push(first);
                    proof {
                        lemma_contents_push(finished@, current);
                    }
                    finished.push(current);
                    cursor = first;
                    current = vec![cursor];
                }
            },
        }
    }
    assert(commands@.take(count as int) =~= commands@);
    if current.len() > 1 {
        proof {
            lemma_contents_push(finished@, current);
        }
        finished.push(current);
    }
    finished
}

/// Appends the points of a quadratic curve.
fn push_quad(points: &mut Vec<(i32, i32)>, p0: (i32, i32), p1: (i32, i32), p2: (i32, i32))
    ensures
        final(points)@ == old(points)@ + quad_points(p0, p1, p2),
{
    let ghost start = points@;
    let ghost all = quad_points(p0, p1, p2);
    assert(start =~= start + all.take(0));
    for step in 1..CURVE_STEPS + 1
        invariant
            all == quad_points(p0, p1, p2),
            points@ == start + all.take(step - 1),
    {
        let x: i32 = curve::quad_point(p0.0, p1.0, p2.0, step);
        let y: i32 = curve::quad_point(p0.1, p1.1, p2.1, step);
        points.push((x, y));
        assert(all.take(step as int) =~= all.take(step - 1).push(all[step - 1]));
        assert(points@ =~= start + all.take(step as int));
    }
    assert(all.take(CURVE_STEPS as int) =~= all);
}

/// Appends the points of a cubic curve.
fn push_cubic(
    points: &mut Vec<(i32, i32)>,
    p0: (i32, i32),
    p1: (i32, i32),
    p2: (i32, i32),
    p3: (i32, i32),
)
    ensures
        final(points)@ == old(points)@ + cubic_points(p0, p1, p2, p3),
{
    let ghost start = points@;
    let ghost all = cubic_points(p0, p1, p2, p3);
    assert(start =~= start + all.take(0));
    for step in 1..CURVE_STEPS + 1
        invariant
            all == cubic_points(p0, p1, p2, p3),
            points@ == start + all.take(step - 1),
    {
        let x: i32 = curve::cubic_point(p0.0, p1.0, p2.0, p3.0, step);
        let y: i32 = curve::cubic_point(p0.1, p1.1, p2.1, p3.1, step);
        points.push((x, y));
        assert(all.take(step as int) =~= all.take(step - 1).push(all[step - 1]));
        assert(points@ =~= start + all.take(step as int));
    }
    assert(all.take(CURVE_STEPS as int) =~= all);
}

} // verus!
