//! Scanline fill with non-zero winding.
use crate::coverage::Coverage;
use crate::edge;
use crate::edge::{Edge, FIXED};
use vstd::prelude::*;

verus! {

/// Sub-scanlines per pixel row. Four is the point where more stops being
/// visible at icon sizes on a sixteen-level panel.
pub const SUB: i64 = 4;

/// How an edge crosses the scanline at `y`: `1` on its way down, `-1` on its
/// way up, `0` if it does not. Of its two ends, an edge takes in the upper one,
/// so that two edges that meet are crossed once.
pub open spec fn turn(e: Edge, y: int) -> int {
    if e.y0 <= y < e.y1 {
        1
    } else if e.y1 <= y < e.y0 {
        -1
    } else {
        0
    }
}

/// Where an edge crosses the scanline at `y`.
pub open spec fn crossing(e: Edge, y: int) -> int {
    e.x0 + edge::quotient((e.x1 - e.x0) * (y - e.y0), e.y1 - e.y0)
}

/// The winding number at a point: how often the edges wind round it, counted
/// by the crossings at or to the left of it.
pub open spec fn winding(edges: Seq<Edge>, x: int, y: int) -> int
    decreases edges.len(),
{
    if edges.len() == 0 {
        0
    } else {
        let e = edges.last();
        winding(edges.drop_last(), x, y) + if crossing(e, y) <= x {
            turn(e, y)
        } else {
            0
        }
    }
}

/// The crossings of a whole scanline, those one way less those the other way.
pub open spec fn net(edges: Seq<Edge>, y: int) -> int
    decreases edges.len(),
{
    if edges.len() == 0 {
        0
    } else {
        net(edges.drop_last(), y) + turn(edges.last(), y)
    }
}

/// Whether every scanline leaves what it enters, as it does where the edges
/// are those of closed contours.
pub open spec fn balanced(edges: Seq<Edge>) -> bool {
    forall|y: int| #[trigger] net(edges, y) == 0
}

/// Whether the sub-scanlines of a box of `size` leave what they enter.
pub open spec fn settled(edges: Seq<Edge>, size: int) -> bool {
    forall|row: int, sub: int|
        0 <= row < size && 0 <= sub < SUB ==> net(edges, #[trigger] scanline(row, sub)) == 0
}

/// How many of the positions `from .. to` are inside.
pub open spec fn count(inside: spec_fn(int) -> bool, from: int, to: int) -> int
    decreases to - from,
{
    if from >= to {
        0
    } else {
        count(inside, from, to - 1) + if inside(to - 1) {
            1int
        } else {
            0
        }
    }
}

/// The positions of a scanline that are inside: those with a winding number
/// other than zero.
pub open spec fn inside(edges: Seq<Edge>, y: int) -> spec_fn(int) -> bool {
    |x: int| winding(edges, x, y) != 0
}

/// The height of a sub-scanline, at the middle of its quarter of the row.
pub open spec fn scanline(row: int, sub: int) -> int {
    FIXED * row + 64 * sub + 32
}

/// How many of the positions in one pixel of a sub-scanline are inside.
pub open spec fn span_cover(edges: Seq<Edge>, row: int, column: int, sub: int) -> int {
    count(inside(edges, scanline(row, sub)), FIXED * column, FIXED * (column + 1))
}

/// How many of the positions in a pixel are inside, over its sub-scanlines.
pub open spec fn pixel_cover(edges: Seq<Edge>, row: int, column: int) -> int {
    span_cover(edges, row, column, 0) + span_cover(edges, row, column, 1) + span_cover(
        edges,
        row,
        column,
        2,
    ) + span_cover(edges, row, column, 3)
}

/// The alpha of a pixel: the share of it that is inside, out of 255, rounded
/// down.
pub open spec fn pixel_alpha(edges: Seq<Edge>, row: int, column: int) -> u8 {
    (255 * pixel_cover(edges, row, column) / (FIXED * SUB)) as u8
}

/// The alpha of every pixel of a square, row by row.
pub open spec fn alphas(edges: Seq<Edge>, size: int) -> Seq<u8> {
    Seq::new((size * size) as nat, |i: int| pixel_alpha(edges, i / size, i % size))
}

/// A count is between nothing and everything.
pub proof fn lemma_count_bounds(inside: spec_fn(int) -> bool, from: int, to: int)
    requires
        from <= to,
    ensures
        0 <= count(inside, from, to) <= to - from,
    decreases to - from,
{
    if from < to {
        lemma_count_bounds(inside, from, to - 1);
    }
}

/// Counting can be done in two parts.
pub proof fn lemma_count_split(inside: spec_fn(int) -> bool, from: int, middle: int, to: int)
    requires
        from <= middle <= to,
    ensures
        count(inside, from, to) == count(inside, from, middle) + count(inside, middle, to),
    decreases to - middle,
{
    if middle < to {
        lemma_count_split(inside, from, middle, to - 1);
    }
}

/// Counting depends only on the positions counted.
pub proof fn lemma_count_same(f: spec_fn(int) -> bool, g: spec_fn(int) -> bool, from: int, to: int)
    requires
        forall|x: int| from <= x < to ==> #[trigger] f(x) == g(x),
    ensures
        count(f, from, to) == count(g, from, to),
    decreases to - from,
{
    if from < to {
        lemma_count_same(f, g, from, to - 1);
    }
}

/// Where nothing is inside, the count is zero.
pub proof fn lemma_count_none(f: spec_fn(int) -> bool, from: int, to: int)
    requires
        forall|x: int| from <= x < to ==> !#[trigger] f(x),
    ensures
        count(f, from, to) == 0,
    decreases to - from,
{
    if from < to {
        lemma_count_none(f, from, to - 1);
    }
}

/// Where everything is inside, the count is the length.
pub proof fn lemma_count_all(f: spec_fn(int) -> bool, from: int, to: int)
    requires
        from <= to,
        forall|x: int| from <= x < to ==> #[trigger] f(x),
    ensures
        count(f, from, to) == to - from,
    decreases to - from,
{
    if from < to {
        lemma_count_all(f, from, to - 1);
    }
}

/// The sum of the directions of the crossings at or to the left of `x`.
spec fn sum_at(crossings: Seq<(i64, i32)>, x: int) -> int
    decreases crossings.len(),
{
    if crossings.len() == 0 {
        0
    } else {
        sum_at(crossings.drop_last(), x) + if crossings.last().0 <= x {
            crossings.last().1 as int
        } else {
            0
        }
    }
}

/// The sum of the directions of all crossings.
spec fn sum_of(crossings: Seq<(i64, i32)>) -> int
    decreases crossings.len(),
{
    if crossings.len() == 0 {
        0
    } else {
        sum_of(crossings.drop_last()) + crossings.last().1
    }
}

spec fn sorted(crossings: Seq<(i64, i32)>) -> bool {
    forall|i: int, j: int|
        0 <= i <= j < crossings.len() ==> crossings[i].0 <= crossings[j].0
}

spec fn single_turns(crossings: Seq<(i64, i32)>) -> bool {
    forall|i: int|
        0 <= i < crossings.len() ==> (#[trigger] crossings[i]).1 == 1 || crossings[i].1 == -1
}

spec fn crossings_in_reach(crossings: Seq<(i64, i32)>) -> bool {
    forall|i: int|
        0 <= i < crossings.len() ==> -0x4000_0000_0000_0000 <= (#[trigger] crossings[i]).0
            <= 0x4000_0000_0000_0000
}

/// Whether the crossings are those of the edges, sorted.
spec fn crossings_of(crossings: Seq<(i64, i32)>, edges: Seq<Edge>, y: int) -> bool {
    &&& sorted(crossings)
    &&& single_turns(crossings)
    &&& crossings_in_reach(crossings)
    &&& sum_of(crossings) == net(edges, y)
    &&& forall|x: int| #[trigger] sum_at(crossings, x) == winding(edges, x, y)
}

proof fn lemma_sum_insert(crossings: Seq<(i64, i32)>, at: int, c: (i64, i32))
    requires
        0 <= at <= crossings.len(),
    ensures
        sum_of(crossings.insert(at, c)) == sum_of(crossings) + c.1,
        forall|x: int|
            #[trigger] sum_at(crossings.insert(at, c), x) == sum_at(crossings, x) + if c.0 <= x {
                c.1 as int
            } else {
                0
            },
    decreases crossings.len(),
{
    let longer = crossings.insert(at, c);
    if at == crossings.len() {
        assert(longer.drop_last() =~= crossings);
    } else {
        assert(longer.drop_last() =~= crossings.drop_last().insert(at, c));
        assert(longer.last() == crossings.last());
        let shorter = crossings.drop_last();
        lemma_sum_insert(shorter, at, c);
        assert forall|x: int|
            #[trigger] sum_at(longer, x) == sum_at(crossings, x) + if c.0 <= x {
                c.1 as int
            } else {
                0
            } by {
            assert(sum_at(shorter.insert(at, c), x) == sum_at(shorter, x) + if c.0 <= x {
                c.1 as int
            } else {
                0
            });
        }
    }
}

/// Between two neighbours of a sorted list, the sum is that of the first part.
proof fn lemma_sum_between(crossings: Seq<(i64, i32)>, j: int, x: int)
    requires
        sorted(crossings),
        0 <= j <= crossings.len(),
        j > 0 ==> crossings[j - 1].0 <= x,
        j < crossings.len() ==> x < crossings[j].0,
    ensures
        sum_at(crossings, x) == sum_of(crossings.take(j)),
    decreases crossings.len(),
{
    if crossings.len() > 0 {
        let shorter = crossings.drop_last();
        if j == crossings.len() {
            assert(crossings.take(j) =~= crossings);
            assert(shorter.take(j - 1) =~= shorter);
            lemma_sum_between(shorter, j - 1, x);
        } else {
            assert(shorter.take(j) =~= crossings.take(j));
            lemma_sum_between(shorter, j, x);
        }
    } else {
        assert(crossings.take(j) =~= crossings);
    }
}

/// A crossing lies between the ends of its edge.
pub proof fn lemma_crossing_between(e: Edge, y: int)
    requires
        turn(e, y) != 0,
    ensures
        e.x0 <= crossing(e, y) <= e.x1 || e.x1 <= crossing(e, y) <= e.x0,
{
    let a = e.x1 - e.x0;
    let b = y - e.y0;
    let c = e.y1 - e.y0;
    let (m, n, d) = (edge::magnitude(a), edge::magnitude(b), edge::magnitude(c));
    assert(n <= d && d > 0);
    assert(edge::magnitude(a * b) == m * n) by (nonlinear_arith)
        requires
            m == edge::magnitude(a),
            n == edge::magnitude(b),
    ;
    assert(0 <= (m * n) / d <= m) by (nonlinear_arith)
        requires
            0 <= m,
            0 <= n <= d,
            0 < d,
    ;
    // The quotient has the sign of the way from one end to the other.
    assert(b == 0 || (b < 0) == (c < 0));
    assert(a >= 0 && b >= 0 ==> a * b >= 0) by (nonlinear_arith);
    assert(a >= 0 && b <= 0 ==> a * b <= 0) by (nonlinear_arith);
    assert(a <= 0 && b >= 0 ==> a * b <= 0) by (nonlinear_arith);
    assert(a <= 0 && b <= 0 ==> a * b >= 0) by (nonlinear_arith);
    assert(a * b == 0 ==> (m * n) / d == 0) by {
        if a * b == 0 {
            assert(0int / d == 0) by (nonlinear_arith)
                requires
                    d > 0,
            ;
        }
    }
}

/// Computing a crossing stays in range.
proof fn lemma_crossing_in_reach(e: Edge, y: int)
    requires
        edge::edge_in_reach(e),
        turn(e, y) != 0,
    ensures
        -0x4000_0000_0000_0000 <= crossing(e, y) <= 0x4000_0000_0000_0000,
        -0x4000_0000_0000_0000_0000_0000_0000_0000 <= (e.x1 - e.x0) * (y - e.y0)
            <= 0x4000_0000_0000_0000_0000_0000_0000_0000,
{
    let a = e.x1 - e.x0;
    let b = y - e.y0;
    lemma_crossing_between(e, y);
    assert(-0x4000_0000_0000_0000_0000_0000_0000_0000 <= a * b
        <= 0x4000_0000_0000_0000_0000_0000_0000_0000) by (nonlinear_arith)
        requires
            -0x8000_0000_0000_0000 <= a <= 0x8000_0000_0000_0000,
            -0x8000_0000_0000_0000 <= b <= 0x8000_0000_0000_0000,
    ;
}

/// Collects the crossings of a scanline, sorted.
fn cross(edges: &Vec<Edge>, y: i64) -> (crossings: Vec<(i64, i32)>)
    requires
        forall|i: int| 0 <= i < edges@.len() ==> edge::edge_in_reach(#[trigger] edges@[i]),
    ensures
        crossings_of(crossings@, edges@, y as int),
{
    let total: usize = edges.len();
    let mut crossings: Vec<(i64, i32)> = Vec::new();
    for i in 0..total
        invariant
            total == edges@.len(),
            forall|i: int| 0 <= i < edges@.len() ==> edge::edge_in_reach(#[trigger] edges@[i]),
            crossings_of(crossings@, edges@.take(i as int), y as int),
    {
        let e: Edge = edges[i];
        proof {
            assert(edges@.take(i + 1).drop_last() =~= edges@.take(i as int));
        }
        let direction: i32 = if e.y0 <= y && y < e.y1 {
            1
        } else if e.y1 <= y && y < e.y0 {
            -1
        } else {
            0
        };
        if direction != 0 {
            proof {
                lemma_crossing_in_reach(e, y as int);
            }
            let n: i128 = (e.x1 as i128 - e.x0 as i128) * (y as i128 - e.y0 as i128);
            let x: i64 = (e.x0 as i128 + edge::divide(n, e.y1 as i128 - e.y0 as i128)) as i64;
            let ghost before = crossings@;
            let at: usize = place_for(&crossings, x);
            crossings.insert(at, (x, direction));
            proof {
                lemma_sum_insert(before, at as int, (x, direction));
                assert(sorted(crossings@));
                assert forall|i: int| 0 <= i < crossings@.len() implies crossings@[i] == (
                    x,
                    direction,
                ) || (#[trigger] crossings@[i]) == before[i] && i < before.len() || crossings@[i]
                    == before[i - 1] && 0 < i by {}
                assert(single_turns(crossings@));
                assert(crossings_in_reach(crossings@));
            }
        }
    }
    assert(edges@.take(total as int) =~= edges@);
    crossings
}

/// Where a crossing belongs in a sorted list.
fn place_for(crossings: &Vec<(i64, i32)>, x: i64) -> (at: usize)
    requires
        sorted(crossings@),
    ensures
        at <= crossings@.len(),
        forall|i: int| 0 <= i < at ==> (#[trigger] crossings@[i]).0 <= x,
        forall|i: int| at <= i < crossings@.len() ==> x <= (#[trigger] crossings@[i]).0,
{
    let mut at: usize = crossings.len();
    while at > 0 && crossings[at - 1].0 > x
        invariant
            at <= crossings@.len(),
            forall|i: int| at <= i < crossings@.len() ==> x <= (#[trigger] crossings@[i]).0,
        decreases at,
    {
        at = at - 1;
    }
    at
}

/// A position, moved into a pixel.
pub open spec fn clipped(x: int, pixel: int) -> int {
    if x < FIXED * pixel {
        FIXED * pixel
    } else if x > FIXED * (pixel + 1) {
        FIXED * (pixel + 1)
    } else {
        x
    }
}

/// How many positions of a pixel a span covers: none if it ends before it
/// starts.
pub open spec fn span_in_pixel(from: int, to: int, pixel: int) -> int {
    if from < to {
        clipped(to, pixel) - clipped(from, pixel)
    } else {
        0
    }
}

/// Adds one inside span, in fixed-point x, to a row of accumulators.
pub fn add_span(accumulator: &mut Vec<i64>, from: i64, to: i64)
    requires
        old(accumulator)@.len() * FIXED <= i64::MAX,
        forall|p: int|
            0 <= p < old(accumulator)@.len() ==> (#[trigger] old(accumulator)@[p]) + FIXED
                <= i64::MAX,
    ensures
        final(accumulator)@.len() == old(accumulator)@.len(),
        forall|p: int|
            0 <= p < old(accumulator)@.len() ==> (#[trigger] final(accumulator)@[p]) == old(
                accumulator,
            )@[p] + span_in_pixel(from as int, to as int, p),
{
    if to <= from {
        return ;
    }
    let ghost start = accumulator@;
    let last: i64 = accumulator.len() as i64;
    let first_pixel: i64 = if from < 0 {
        0
    } else {
        from / FIXED
    };
    let last_pixel: i64 = if to < 1 {
        -1
    } else if (to - 1) / FIXED < last - 1 {
        (to - 1) / FIXED
    } else {
        last - 1
    };
    let mut pixel: i64 = first_pixel;
    while pixel <= last_pixel
        invariant
            0 <= first_pixel <= pixel,
            pixel <= last_pixel + 1 || pixel == first_pixel,
            last_pixel < last,
            last == start.len(),
            last * FIXED <= i64::MAX,
            last <= usize::MAX,
            accumulator@.len() == start.len(),
            from < to,
            forall|p: int|
                0 <= p < start.len() ==> (#[trigger] start[p]) + FIXED <= i64::MAX,
            forall|p: int|
                first_pixel <= p < pixel && p < start.len() ==> (#[trigger] accumulator@[p])
                    == start[p] + clipped(to as int, p) - clipped(from as int, p),
            forall|p: int|
                0 <= p < start.len() && !(first_pixel <= p < pixel) ==> (
                #[trigger] accumulator@[p]) == start[p],
        decreases last_pixel + 1 - pixel,
    {
        let left: i64 = if pixel * FIXED > from {
            pixel * FIXED
        } else {
            from
        };
        let right: i64 = if (pixel + 1) * FIXED < to {
            (pixel + 1) * FIXED
        } else {
            to
        };
        if right > left {
            let value: i64 = accumulator[pixel as usize];
            accumulator.set(pixel as usize, value + (right - left));
        }
        pixel = pixel + 1;
    }
}

/// The positions that the crossings are round.
spec fn wound(crossings: Seq<(i64, i32)>) -> spec_fn(int) -> bool {
    |x: int| sum_at(crossings, x) != 0
}

/// A stretch with nothing inside adds nothing to any pixel.
proof fn lemma_skip(f: spec_fn(int) -> bool, from: int, to: int, pixel: int)
    requires
        from <= to,
        forall|x: int| from <= x < to ==> !#[trigger] f(x),
    ensures
        count(f, FIXED * pixel, clipped(to, pixel)) == count(
            f,
            FIXED * pixel,
            clipped(from, pixel),
        ),
{
    lemma_count_split(f, FIXED * pixel, clipped(from, pixel), clipped(to, pixel));
    lemma_count_none(f, clipped(from, pixel), clipped(to, pixel));
}

/// A stretch with everything inside adds its part of each pixel.
proof fn lemma_span(f: spec_fn(int) -> bool, from: int, to: int, pixel: int)
    requires
        from <= to,
        forall|x: int| from <= x < to ==> #[trigger] f(x),
    ensures
        count(f, FIXED * pixel, clipped(to, pixel)) == count(
            f,
            FIXED * pixel,
            clipped(from, pixel),
        ) + clipped(to, pixel) - clipped(from, pixel),
{
    lemma_count_split(f, FIXED * pixel, clipped(from, pixel), clipped(to, pixel));
    lemma_count_all(f, clipped(from, pixel), clipped(to, pixel));
}

/// Adds the inside spans of one scanline to a row of accumulators.
fn sweep(accumulator: &mut Vec<i64>, crossings: &Vec<(i64, i32)>)
    requires
        forall|p: int|
            0 <= p < old(accumulator)@.len() ==> 0 <= (#[trigger] old(accumulator)@[p])
                <= 0x1000_0000,
        old(accumulator)@.len() <= i32::MAX,
        sorted(crossings@),
        single_turns(crossings@),
        sum_of(crossings@) == 0,
        crossings_in_reach(crossings@),
    ensures
        final(accumulator)@.len() == old(accumulator)@.len(),
        forall|p: int|
            0 <= p < old(accumulator)@.len() ==> (#[trigger] final(accumulator)@[p]) == old(
                accumulator,
            )@[p] + count(wound(crossings@), FIXED * p, FIXED * (p + 1)),
{
    let ghost start = accumulator@;
    let ghost f = wound(crossings@);
    let ghost cs = crossings@;
    // Everything to the left of this position is accounted for.
    let ghost mut done: int = if cs.len() > 0 && cs[0].0 < 0 {
        cs[0].0 as int
    } else {
        0
    };
    let total: usize = crossings.len();
    let mut level: i128 = 0;
    let mut span_start: i64 = 0;
    assert(cs.take(0) =~= Seq::<(i64, i32)>::empty());
    for j in 0..total
        invariant
            cs == crossings@,
            f == wound(cs),
            total == cs.len(),
            sorted(cs),
            single_turns(cs),
            start.len() <= i32::MAX,
            accumulator@.len() == start.len(),
            crossings_in_reach(cs),
            forall|p: int| 0 <= p < start.len() ==> 0 <= (#[trigger] start[p]) <= 0x1000_0000,
            level == sum_of(cs.take(j as int)),
            -j <= level <= j,
            j == 0 ==> done <= 0 && (cs.len() > 0 ==> done <= cs[0].0),
            j > 0 ==> done <= cs[j - 1].0,
            j > 0 && level == 0 ==> done == cs[j - 1].0,
            level != 0 ==> done == span_start,
            level != 0 ==> forall|x: int| done <= x < cs[j - 1].0 ==> #[trigger] f(x),
            -0x4000_0000_0000_0000 <= span_start <= 0x4000_0000_0000_0000,
            forall|p: int|
                0 <= p < start.len() ==> (#[trigger] accumulator@[p]) == start[p] + count(
                    f,
                    FIXED * p,
                    clipped(done, p),
                ),
    {
        let x: i64 = crossings[j].0;
        let direction: i32 = crossings[j].1;
        let ghost before = level as int;
        proof {
            assert(cs[j as int].1 == 1 || cs[j as int].1 == -1);
            assert(cs.take(j + 1).drop_last() =~= cs.take(j as int));
            assert forall|at: int|
                (j > 0 ==> cs[j - 1].0 <= at) && at < cs[j as int].0 implies #[trigger] f(at) == (
            before != 0) by {
                lemma_sum_between(cs, j as int, at);
            }
            if before == 0 {
                assert forall|p: int| 0 <= p < start.len() implies count(
                    f,
                    FIXED * p,
                    clipped(x as int, p),
                ) == count(f, FIXED * p, #[trigger] clipped(done, p)) by {
                    lemma_skip(f, done, x as int, p);
                }
            }
        }
        if level == 0 {
            span_start = x;
            proof {
                done = x as int;
                assert forall|p: int| 0 <= p < start.len() implies (#[trigger] accumulator@[p])
                    == start[p] + count(f, FIXED * p, clipped(done, p)) by {}
            }
        }
        level = level + direction as i128;
        if level == 0 {
            proof {
                assert forall|at: int| done <= at < x implies #[trigger] f(at) by {}
                assert forall|p: int| 0 <= p < start.len() implies 0 <= (
                #[trigger] accumulator@[p]) <= 0x1_0000_0000 by {
                    lemma_count_bounds(f, FIXED * p, clipped(done, p));
                }
            }
            let ghost filled = accumulator@;
            add_span(accumulator, span_start, x);
            proof {
                assert forall|p: int| 0 <= p < start.len() implies (#[trigger] accumulator@[p])
                    == start[p] + count(f, FIXED * p, clipped(x as int, p)) by {
                    assert(filled[p] == start[p] + count(f, FIXED * p, clipped(done, p)));
                    lemma_span(f, done, x as int, p);
                }
                done = x as int;
            }
        }
    }
    proof {
        assert(cs.take(total as int) =~= cs);
        assert forall|at: int| done <= at implies !#[trigger] f(at) by {
            if total > 0 {
                lemma_sum_between(cs, total as int, at);
            }
        }
        assert forall|p: int| 0 <= p < start.len() implies (#[trigger] accumulator@[p]) == start[p]
            + count(f, FIXED * p, FIXED * (p + 1)) by {
            lemma_count_split(f, FIXED * p, clipped(done, p), FIXED * (p + 1));
            lemma_count_none(f, clipped(done, p), FIXED * (p + 1));
        }
    }
}

/// Scanline fill with non-zero winding and vertical supersampling. A box without
/// room has no pixels.
pub fn fill(edges: &Vec<Edge>, size: i32) -> (coverage: Coverage)
    requires
        0 < size ==> size * size <= usize::MAX,
        forall|i: int| 0 <= i < edges@.len() ==> edge::edge_in_reach(#[trigger] edges@[i]),
        settled(edges@, size as int),
    ensures
        coverage.size == size,
        coverage.alpha@ == if size <= 0 {
            Seq::empty()
        } else {
            alphas(edges@, size as int)
        },
{
    if size <= 0 {
        return Coverage { size, alpha: Vec::new() };
    }
    let width: usize = size as usize;
    let mut alpha: Vec<u8> = Vec::new();
    let ghost all = alphas(edges@, size as int);
    proof {
        lemma_square(size as int, 0);
    }
    for row in 0..size
        invariant
            0 < size == width,
            forall|i: int| 0 <= i < edges@.len() ==> edge::edge_in_reach(#[trigger] edges@[i]),
            settled(edges@, size as int),
            all == alphas(edges@, size as int),
            alpha@ == all.take(row * size),
    {
        let accumulator: Vec<i64> = cover_row(edges, row, width);
        proof {
            lemma_square(size as int, row as int);
        }
        for column in 0..width
            invariant
                0 < size == width,
                0 <= row < size,
                0 <= row * size,
                row * size + size <= all.len(),
                all == alphas(edges@, size as int),
                accumulator@.len() == width,
                forall|p: int|
                    0 <= p < width ==> (#[trigger] accumulator@[p]) == pixel_cover(
                        edges@,
                        row as int,
                        p,
                    ),
                forall|p: int| 0 <= p < width ==> 0 <= #[trigger] accumulator@[p] <= FIXED * SUB,
                alpha@ == all.take(row * size + column),
        {
            let value: i64 = accumulator[column];
            alpha.push((value * 255 / (FIXED * SUB)) as u8);
            proof {
                let i = row * size + column;
                lemma_row_column(size as int, row as int, column as int);
                assert(all[i] == pixel_alpha(edges@, row as int, column as int));
                assert(all.take(i + 1) =~= all.take(i).push(all[i]));
            }
        }
        assert(row * size + size == (row + 1) * size) by (nonlinear_arith);
    }
    assert(all.take(size * size) =~= all);
    Coverage { size, alpha }
}

/// The rows before a given one, and it, fit in the square.
proof fn lemma_square(size: int, row: int)
    requires
        0 <= row,
        0 < size,
    ensures
        0 * size == 0,
        0 <= row * size,
        row < size ==> row * size + size <= size * size,
        0 <= size * size,
{
    assert(0 <= row * size) by (nonlinear_arith)
        requires
            0 <= row,
            0 < size,
    ;
    assert(row < size ==> row * size + size <= size * size) by (nonlinear_arith)
        requires
            0 <= row,
            0 < size,
    ;
    assert(0 <= size * size) by (nonlinear_arith)
        requires
            0 < size,
    ;
}

/// The index of a pixel gives its row and its column.
pub proof fn lemma_row_column(size: int, row: int, column: int)
    requires
        0 <= row,
        0 <= column < size,
    ensures
        (row * size + column) / size == row,
        (row * size + column) % size == column,
{
    vstd::arithmetic::div_mod::lemma_fundamental_div_mod_converse(
        row * size + column,
        size,
        row,
        column,
    );
}

/// How many positions of each pixel of a row are inside.
fn cover_row(edges: &Vec<Edge>, row: i32, width: usize) -> (accumulator: Vec<i64>)
    requires
        0 <= row,
        width <= i32::MAX,
        forall|i: int| 0 <= i < edges@.len() ==> edge::edge_in_reach(#[trigger] edges@[i]),
        forall|sub: int|
            0 <= sub < SUB ==> net(edges@, #[trigger] scanline(row as int, sub)) == 0,
    ensures
        accumulator@.len() == width,
        forall|p: int|
            0 <= p < width ==> (#[trigger] accumulator@[p]) == pixel_cover(edges@, row as int, p),
        forall|p: int| 0 <= p < width ==> 0 <= #[trigger] accumulator@[p] <= FIXED * SUB,
{
    let mut accumulator: Vec<i64> = vec![0i64; width];
    for sub in 0..SUB
        invariant
            0 <= row,
            width <= i32::MAX,
            forall|i: int| 0 <= i < edges@.len() ==> edge::edge_in_reach(#[trigger] edges@[i]),
            forall|sub: int|
                0 <= sub < SUB ==> net(edges@, #[trigger] scanline(row as int, sub)) == 0,
            accumulator@.len() == width,
            forall|p: int|
                0 <= p < width ==> (#[trigger] accumulator@[p]) == partial_cover(
                    edges@,
                    row as int,
                    p,
                    sub as int,
                ),
            forall|p: int| 0 <= p < width ==> 0 <= #[trigger] accumulator@[p] <= FIXED * sub,
    {
        let y: i64 = row as i64 * FIXED + (sub * FIXED * 2 + FIXED) / (SUB * 2);
        assert(y == scanline(row as int, sub as int));
        let crossings: Vec<(i64, i32)> = cross(edges, y);
        let ghost before = accumulator@;
        assert(net(edges@, y as int) == 0);
        sweep(&mut accumulator, &crossings);
        proof {
            let f = wound(crossings@);
            let g = inside(edges@, y as int);
            assert forall|p: int| 0 <= p < width implies (#[trigger] accumulator@[p]) == before[p]
                + span_cover(edges@, row as int, p, sub as int) && 0 <= span_cover(
                edges@,
                row as int,
                p,
                sub as int,
            ) <= FIXED by {
                lemma_count_same(f, g, FIXED * p, FIXED * (p + 1));
                lemma_count_bounds(g, FIXED * p, FIXED * (p + 1));
            }
        }
    }
    proof {
        assert forall|p: int| 0 <= p < width implies (#[trigger] accumulator@[p]) == pixel_cover(
            edges@,
            row as int,
            p,
        ) by {
            reveal_with_fuel(partial_cover, 5);
        }
    }
    accumulator
}

/// How many positions of a pixel are inside on its first sub-scanlines.
spec fn partial_cover(edges: Seq<Edge>, row: int, column: int, subs: int) -> int
    decreases subs,
{
    if subs <= 0 {
        0
    } else {
        partial_cover(edges, row, column, subs - 1) + span_cover(edges, row, column, subs - 1)
    }
}

} // verus!
