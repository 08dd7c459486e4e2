//! Outlines in icon units, and what to do with them.
use crate::angle;
use crate::angle::{
    TangentRadius, EIGHTH_COSINES, EIGHTH_SINES, MIDDLE_COSINES, MIDDLE_SINES, WHOLE,
};
use crate::curve;
use vstd::prelude::*;

verus! {

/// The side of the box every icon is designed in.
///
/// A round number well above the pixel size of any panel, so an icon is
/// authored in proportions rather than in pixels and the same definition is
/// crisp on a 212 and a 300 pixel-per-inch screen.
pub const UNITS: i32 = 1000;

/// One step of an outline.
#[derive(Clone, Copy, Debug, PartialEq, Eq, Structural)]
pub enum Cmd {
    Move(i32, i32),
    Line(i32, i32),
    /// One control point and an end point.
    Quad(i32, i32, i32, i32),
    /// Two control points and an end point.
    Cubic(i32, i32, i32, i32, i32, i32),
    Close,
}

/// An outline in icon units.
#[derive(Debug, PartialEq, Eq)]
pub struct Path {
    commands: Vec<Cmd>,
}

impl View for Path {
    type V = Seq<Cmd>;

    closed spec fn view(&self) -> Seq<Cmd> {
        self.commands@
    }
}

impl Default for Path {
    fn default() -> (path: Self)
        ensures
            path@ == Seq::<Cmd>::empty(),
    {
        Path { commands: Vec::new() }
    }
}

impl Clone for Path {
    fn clone(&self) -> (path: Self)
        ensures
            path@ == self@,
    {
        Self::from_commands(self.commands())
    }
}

/// The commands of a circle: a start at its right, and eight arcs of an eighth
/// each.
pub open spec fn circle(cx: int, cy: int, r: int) -> Seq<Cmd> {
    seq![circle_start(cx, cy, r)] + Seq::new(8, |i: int| eighth(cx, cy, r, i)) + seq![Cmd::Close]
}

/// Where a circle starts.
pub open spec fn circle_start(cx: int, cy: int, r: int) -> Cmd {
    Cmd::Move(
        angle::on_circle(cx, r, WHOLE as int) as i32,
        angle::on_circle(cy, r, 0) as i32,
    )
}

/// An eighth of a circle. It ends on the circle, and its control point is where
/// the tangents at its two ends meet.
pub open spec fn eighth(cx: int, cy: int, r: int, i: int) -> Cmd {
    Cmd::Quad(
        angle::on_tangents(cx, r, MIDDLE_COSINES@[i] as int) as i32,
        angle::on_tangents(cy, r, MIDDLE_SINES@[i] as int) as i32,
        angle::on_circle(cx, r, EIGHTH_COSINES@[i] as int) as i32,
        angle::on_circle(cy, r, EIGHTH_SINES@[i] as int) as i32,
    )
}

/// A coordinate, saturated.
pub open spec fn unit(n: int) -> i32 {
    curve::saturated(n) as i32
}

pub open spec fn arc(cx: int, cy: int, x: int, y: int) -> Cmd {
    Cmd::Quad(unit(cx), unit(cy), unit(x), unit(y))
}

/// The corner radius a rectangle has room for.
pub open spec fn corner(width: int, height: int, radius: int) -> int {
    let room = if width < height {
        width / 2
    } else {
        height / 2
    };
    if radius < 0 || room < 0 {
        0
    } else if radius < room {
        radius
    } else {
        room
    }
}

/// The commands of a rectangle with rounded corners, from the start of its top
/// edge round to there again.
pub open spec fn rounded(x: int, y: int, width: int, height: int, radius: int) -> Seq<Cmd> {
    let r = corner(width, height, radius);
    let right = x + width;
    let bottom = y + height;
    seq![
        Cmd::Move(unit(x + r), unit(y)),
        Cmd::Line(unit(right - r), unit(y)),
        arc(right, y, right, y + r),
        Cmd::Line(unit(right), unit(bottom - r)),
        arc(right, bottom, right - r, bottom),
        Cmd::Line(unit(x + r), unit(bottom)),
        arc(x, bottom, x, bottom - r),
        Cmd::Line(unit(x), unit(y + r)),
        arc(x, y, x + r, y),
        Cmd::Close,
    ]
}

impl Path {
    #[must_use]
    pub fn new() -> (path: Self)
        ensures
            path@ == Seq::<Cmd>::empty(),
    {
        Self::default()
    }

    #[must_use]
    pub fn move_to(self, x: i32, y: i32) -> (path: Self)
        ensures
            path@ == self@.push(Cmd::Move(x, y)),
    {
        self.with(Cmd::Move(x, y))
    }

    #[must_use]
    pub fn line_to(self, x: i32, y: i32) -> (path: Self)
        ensures
            path@ == self@.push(Cmd::Line(x, y)),
    {
        self.with(Cmd::Line(x, y))
    }

    #[must_use]
    pub fn quad_to(self, cx: i32, cy: i32, x: i32, y: i32) -> (path: Self)
        ensures
            path@ == self@.push(Cmd::Quad(cx, cy, x, y)),
    {
        self.with(Cmd::Quad(cx, cy, x, y))
    }

    #[must_use]
    pub fn close(self) -> (path: Self)
        ensures
            path@ == self@.push(Cmd::Close),
    {
        self.with(Cmd::Close)
    }

    fn with(self, command: Cmd) -> (path: Self)
        ensures
            path@ == self@.push(command),
    {
        let mut commands: Vec<Cmd> = self.commands;
        commands.push(command);
        Path { commands }
    }

    /// An outline that was authored as a list of commands.
    #[must_use]
    pub fn from_commands(commands: &[Cmd]) -> (path: Self)
        ensures
            path@ == commands@,
    {
        let mut copy: Vec<Cmd> = Vec::new();
        let count: usize = commands.len();
        for i in 0..count
            invariant
                count == commands@.len(),
                copy@ == commands@.take(i as int),
        {
            copy.push(commands[i]);
            assert(commands@.take(i + 1) =~= commands@.take(i as int).push(commands@[i as int]));
        }
        assert(commands@.take(count as int) =~= commands@);
        Path { commands: copy }
    }

    /// The commands, in drawing order.
    #[must_use]
    pub fn commands(&self) -> (commands: &[Cmd])
        ensures
            commands@ == self@,
    {
        self.commands.as_slice()
    }

    /// A circle, as eight quadratic arcs.
    ///
    /// Eight rather than the usual four: four leaves an error of about three
    /// percent of the radius, which at icon sizes is a visibly flat-sided
    /// circle. Eight puts the error below a fifth of a pixel.
    #[must_use]
    pub fn circle(cx: i32, cy: i32, r: i32) -> (path: Self)
        ensures
            path@ == circle(cx as int, cy as int, r as int),
    {
        let ghost all = circle(cx as int, cy as int, r as int);
        let control: TangentRadius = TangentRadius::new(r);
        let mut path = Self::new().move_to(
            angle::circle_point(cx, r, WHOLE),
            angle::circle_point(cy, r, 0),
        );
        assert(path@ =~= all.take(1));
        for index in 0..8usize
            invariant
                all == circle(cx as int, cy as int, r as int),
                control@ == angle::tangent_radius(r as int),
                path@ == all.take(index + 1),
        {
            let ax: i32 = control.point(cx, MIDDLE_COSINES[index]);
            let ay: i32 = control.point(cy, MIDDLE_SINES[index]);
            let x: i32 = angle::circle_point(cx, r, EIGHTH_COSINES[index]);
            let y: i32 = angle::circle_point(cy, r, EIGHTH_SINES[index]);
            path = path.quad_to(ax, ay, x, y);
            assert(all[index + 1] == eighth(cx as int, cy as int, r as int, index as int));
            assert(path@ =~= all.take(index + 2));
        }
        path = path.close();
        assert(path@ =~= all);
        path
    }

    /// A rectangle with equal corner radii.
    #[must_use]
    pub fn rounded(x: i32, y: i32, width: i32, height: i32, radius: i32) -> (path: Self)
        requires
            i32::MIN <= x + width <= i32::MAX,
            i32::MIN <= y + height <= i32::MAX,
        ensures
            path@ == rounded(x as int, y as int, width as int, height as int, radius as int),
    {
        let (right, bottom): (i32, i32) = (x + width, y + height);
        let room: i32 = if width < height {
            width / 2
        } else {
            height / 2
        };
        let r: i32 = if radius < 0 || room < 0 {
            0
        } else if radius < room {
            radius
        } else {
            room
        };
        assert(r == corner(width as int, height as int, radius as int));
        let path = Self::new()
            .move_to(x + r, y)
            .line_to(right - r, y)
            .quad_to(right, y, right, y + r)
            .line_to(right, bottom - r)
            .quad_to(right, bottom, right - r, bottom)
            .line_to(x + r, bottom)
            .quad_to(x, bottom, x, bottom - r)
            .line_to(x, y + r)
            .quad_to(x, y, x + r, y)
            .close();
        assert(path@ =~= rounded(x as int, y as int, width as int, height as int, radius as int));
        path
    }

    #[must_use]
    pub fn line(x0: i32, y0: i32, x1: i32, y1: i32) -> (path: Self)
        ensures
            path@ == seq![Cmd::Move(x0, y0), Cmd::Line(x1, y1)],
    {
        Self::new().move_to(x0, y0).line_to(x1, y1)
    }
}

/// What to do with an outline.
#[derive(Debug, PartialEq, Eq)]
pub enum Shape {
    Fill(Path),
    /// Centred on the outline, with round caps and joins. Round because an
    /// icon set with mitred corners needs every corner angle checked by eye,
    /// and round never produces a spike.
    Stroke { path: Path, width: i32 },
}

/// What a shape is: its commands, and how they are drawn.
pub ghost enum Figure {
    Fill(Seq<Cmd>),
    Stroke(Seq<Cmd>, i32),
}

impl View for Shape {
    type V = Figure;

    open spec fn view(&self) -> Figure {
        match self {
            Shape::Fill(path) => Figure::Fill(path@),
            Shape::Stroke { path, width } => Figure::Stroke(path@, *width),
        }
    }
}

impl Clone for Shape {
    fn clone(&self) -> (shape: Self)
        ensures
            shape@ == self@,
    {
        match self {
            Shape::Fill(path) => Shape::Fill(path.clone()),
            Shape::Stroke { path, width } => Shape::Stroke { path: path.clone(), width: *width },
        }
    }
}

/// The figures of a list of shapes.
pub open spec fn figures(shapes: Seq<Shape>) -> Seq<Figure> {
    shapes.map_values(|shape: Shape| shape@)
}

} // verus!
