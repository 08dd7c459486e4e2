//! Holds the integer arithmetic of the library against plain floating point.

use kobo_ui::coverage::Coverage;
use kobo_ui::curve::{cubic_point, quad_point};
use kobo_ui::flatten::flatten;
use kobo_ui::stroke::{disc, outline};
use kobo_ui::{
    back_arrow, battery, bluetooth, render, shapes, wifi, Cmd, Glyph, Path, Percent, Shape, Signal,
    UNITS,
};

fn round(value: f64) -> i32 {
    value.round() as i32
}

fn quad_at(p0: i32, p1: i32, p2: i32, step: i32) -> i32 {
    let t = f64::from(step) / 12.0;
    let inverse = 1.0 - t;
    round(inverse.mul_add(
        inverse.mul_add(f64::from(p0), 2.0 * t * f64::from(p1)),
        t * t * f64::from(p2),
    ))
}

fn cubic_at(p0: i32, p1: i32, p2: i32, p3: i32, step: i32) -> i32 {
    let t = f64::from(step) / 12.0;
    let inverse = 1.0 - t;
    let w0 = inverse * inverse * inverse;
    let w1 = 3.0 * inverse * inverse * t;
    let w2 = 3.0 * inverse * t * t;
    let w3 = t * t * t;
    round(w3.mul_add(
        f64::from(p3),
        w2.mul_add(
            f64::from(p2),
            w1.mul_add(f64::from(p1), w0 * f64::from(p0)),
        ),
    ))
}

fn circle_commands(cx: i32, cy: i32, r: i32) -> Vec<Cmd> {
    let step = std::f64::consts::FRAC_PI_4;
    let control = f64::from(r) / (step / 2.0).cos();
    let at = |angle: f64, radius: f64| {
        (
            round(f64::from(cx) + radius * angle.cos()),
            round(f64::from(cy) + radius * angle.sin()),
        )
    };
    let (sx, sy) = at(0.0, f64::from(r));
    let mut commands = vec![Cmd::Move(sx, sy)];
    for index in 0..8 {
        let middle = step.mul_add(f64::from(index), step / 2.0);
        let end = step * f64::from(index + 1);
        let (ax, ay) = at(middle, control);
        let (ex, ey) = at(end, f64::from(r));
        commands.push(Cmd::Quad(ax, ay, ex, ey));
    }
    commands.push(Cmd::Close);
    commands
}

fn disc_corners(cx: i32, cy: i32, radius: i32) -> Vec<(i64, i64)> {
    (0..12)
        .map(|index| {
            let angle = std::f64::consts::TAU * f64::from(index) / 12.0;
            (
                i64::from(cx) + (f64::from(radius) * angle.cos()).round() as i64,
                i64::from(cy) + (f64::from(radius) * angle.sin()).round() as i64,
            )
        })
        .collect()
}

fn outline_pieces(points: &[(i32, i32)], width: i32) -> Vec<Vec<(i64, i64)>> {
    let radius = (width / 2).max(1);
    let mut polygons = Vec::new();
    for pair in points.windows(2) {
        let (x0, y0) = (i64::from(pair[0].0), i64::from(pair[0].1));
        let (x1, y1) = (i64::from(pair[1].0), i64::from(pair[1].1));
        let (dx, dy) = ((x1 - x0) as f64, (y1 - y0) as f64);
        let length = dx.hypot(dy);
        if length < 1.0 {
            continue;
        }
        let nx = (-dy / length * f64::from(radius)).round() as i64;
        let ny = (dx / length * f64::from(radius)).round() as i64;
        polygons.push(vec![
            (x0 + nx, y0 + ny),
            (x1 + nx, y1 + ny),
            (x1 - nx, y1 - ny),
            (x0 - nx, y0 - ny),
        ]);
    }
    for &(x, y) in points {
        polygons.push(disc_corners(x, y, radius));
    }
    polygons
}

fn contours_of(commands: &[Cmd]) -> Vec<Vec<(i32, i32)>> {
    let mut contours = Vec::new();
    let mut current: Vec<(i32, i32)> = Vec::new();
    let mut cursor = (0, 0);
    for command in commands {
        match *command {
            Cmd::Move(x, y) => {
                if current.len() > 1 {
                    contours.push(std::mem::take(&mut current));
                }
                current = vec![(x, y)];
                cursor = (x, y);
            }
            Cmd::Line(x, y) => {
                current.push((x, y));
                cursor = (x, y);
            }
            Cmd::Quad(ax, ay, x, y) => {
                for step in 1..=12 {
                    current.push((quad_at(cursor.0, ax, x, step), quad_at(cursor.1, ay, y, step)));
                }
                cursor = (x, y);
            }
            Cmd::Cubic(ax, ay, bx, by, x, y) => {
                for step in 1..=12 {
                    current.push((
                        cubic_at(cursor.0, ax, bx, x, step),
                        cubic_at(cursor.1, ay, by, y, step),
                    ));
                }
                cursor = (x, y);
            }
            Cmd::Close => {
                if let Some(&first) = current.first() {
                    current.push(first);
                    contours.push(std::mem::take(&mut current));
                    cursor = first;
                    current.push(first);
                }
            }
        }
    }
    if current.len() > 1 {
        contours.push(current);
    }
    contours
}

fn edges_of(polygon: &[(i64, i64)], size: i32, edges: &mut Vec<[i64; 4]>) {
    let scale = |value: i64| value * i64::from(size) * 256 / i64::from(UNITS);
    let mut ring = polygon.to_vec();
    if ring.first() != ring.last() {
        ring.push(ring[0]);
    }
    let area: i64 = ring
        .windows(2)
        .map(|p| p[0].0 * p[1].1 - p[1].0 * p[0].1)
        .sum();
    if area < 0 {
        ring.reverse();
    }
    for p in ring.windows(2) {
        if p[0].1 != p[1].1 {
            edges.push([scale(p[0].0), scale(p[0].1), scale(p[1].0), scale(p[1].1)]);
        }
    }
}

/// Every position of every sub-scanline, asked one by one.
fn pixels_of(shapes: &[Shape], size: i32) -> Vec<u8> {
    let mut edges = Vec::new();
    for shape in shapes {
        match shape {
            Shape::Fill(path) => {
                for contour in contours_of(path.commands()) {
                    let contour: Vec<(i64, i64)> = contour
                        .into_iter()
                        .map(|(x, y)| (i64::from(x), i64::from(y)))
                        .collect();
                    edges_of(&contour, size, &mut edges);
                }
            }
            Shape::Stroke { path, width } => {
                for contour in contours_of(path.commands()) {
                    for piece in outline_pieces(&contour, *width) {
                        edges_of(&piece, size, &mut edges);
                    }
                }
            }
        }
    }
    let mut alpha = Vec::new();
    for row in 0..size {
        let mut inside = vec![0_i64; size as usize];
        for sub in 0..4 {
            let y = i64::from(row) * 256 + 64 * sub + 32;
            let mut turns = vec![0_i64; size as usize * 256 + 1];
            for e in &edges {
                if y < e[1].min(e[3]) || y >= e[1].max(e[3]) {
                    continue;
                }
                let x = e[0] + (e[2] - e[0]) * (y - e[1]) / (e[3] - e[1]);
                let at = x.clamp(0, i64::from(size) * 256) as usize;
                turns[at] += if e[3] > e[1] { 1 } else { -1 };
            }
            let mut winding = 0;
            for x in 0..size as usize * 256 {
                winding += turns[x];
                if winding != 0 {
                    inside[x / 256] += 1;
                }
            }
        }
        alpha.extend(inside.iter().map(|&covered| (covered * 255 / 1024) as u8));
    }
    alpha
}

struct Numbers(u64);

impl Numbers {
    fn below(&mut self, bound: u64) -> u64 {
        self.0 = self
            .0
            .wrapping_mul(6364136223846793005)
            .wrapping_add(1442695040888963407);
        (self.0 >> 11) % bound
    }

    fn within(&mut self, bound: i32) -> i32 {
        (self.below(2 * bound as u64 + 1) as i64 - i64::from(bound)) as i32
    }
}

#[test]
fn quadratic_points_are_those_of_double_precision() {
    let mut numbers = Numbers(1);
    for bound in [3, 40, 1000, 1_000_000, i32::MAX] {
        for _ in 0..4000 {
            let (a, b, c) = (
                numbers.within(bound),
                numbers.within(bound),
                numbers.within(bound),
            );
            for step in 1..=12 {
                assert_eq!(
                    quad_point(a, b, c, step),
                    quad_at(a, b, c, step),
                    "{a} {b} {c} at {step}"
                );
            }
        }
    }
}

#[test]
fn cubic_points_are_those_of_double_precision() {
    let mut numbers = Numbers(2);
    for bound in [3, 40, 1000, 1_000_000, i32::MAX] {
        for _ in 0..4000 {
            let (a, b, c, d) = (
                numbers.within(bound),
                numbers.within(bound),
                numbers.within(bound),
                numbers.within(bound),
            );
            for step in 1..=12 {
                assert_eq!(
                    cubic_point(a, b, c, d, step),
                    cubic_at(a, b, c, d, step),
                    "{a} {b} {c} {d} at {step}"
                );
            }
        }
    }
}

#[test]
fn extreme_curves_are_those_of_double_precision() {
    let ends = [i32::MIN, i32::MIN + 1, -1, 0, 1, i32::MAX - 1, i32::MAX];
    for a in ends {
        for b in ends {
            for c in ends {
                for step in 1..=12 {
                    assert_eq!(quad_point(a, b, c, step), quad_at(a, b, c, step));
                    assert_eq!(cubic_point(a, b, c, a, step), cubic_at(a, b, c, a, step));
                }
            }
        }
    }
}

#[test]
fn halves_fall_the_way_double_precision_lets_them() {
    // At step 6 the exact value of a quadratic is a quarter of `a + 2b + c`.
    for a in -20..20 {
        for c in -20..20 {
            for b in -20..20 {
                assert_eq!(quad_point(a, b, c, 6), quad_at(a, b, c, 6));
                assert_eq!(quad_point(a, b, c, 3), quad_at(a, b, c, 3));
                assert_eq!(cubic_point(a, b, c, b, 6), cubic_at(a, b, c, b, 6));
            }
        }
    }
}

#[test]
fn circles_are_those_of_sine_and_cosine() {
    for r in -3000..3000 {
        assert_eq!(
            Path::circle(500, 400, r).commands(),
            circle_commands(500, 400, r),
            "radius {r}"
        );
    }
    let mut numbers = Numbers(3);
    for bound in [1 << 20, 1 << 28, i32::MAX] {
        for _ in 0..20000 {
            let r = numbers.within(bound);
            let (cx, cy) = (numbers.within(bound), numbers.within(bound));
            assert_eq!(
                Path::circle(cx, cy, r).commands(),
                circle_commands(cx, cy, r),
                "{cx} {cy} {r}"
            );
        }
    }
    for r in [i32::MIN, i32::MIN + 1, i32::MAX - 1, i32::MAX] {
        for (cx, cy) in [(0, 0), (i32::MIN, i32::MAX), (3, -4)] {
            assert_eq!(Path::circle(cx, cy, r).commands(), circle_commands(cx, cy, r));
        }
    }
}

#[test]
fn discs_are_those_of_sine_and_cosine() {
    for radius in -20000..20000 {
        assert_eq!(disc(7, -9, radius), disc_corners(7, -9, radius), "radius {radius}");
    }
    let mut numbers = Numbers(8);
    for bound in [1 << 22, 1 << 28, i32::MAX] {
        for _ in 0..20000 {
            let radius = numbers.within(bound);
            let (cx, cy) = (numbers.within(bound), numbers.within(bound));
            assert_eq!(disc(cx, cy, radius), disc_corners(cx, cy, radius), "radius {radius}");
        }
    }
    for radius in [i32::MIN, i32::MAX] {
        assert_eq!(disc(-1, 1, radius), disc_corners(-1, 1, radius));
    }
}

#[test]
fn large_discs_round_like_double_precision() {
    // The exact offset is just below 354079488.5; the double product is not.
    let corners = disc(0, 0, 408_855_776);
    assert_eq!(corners, disc_corners(0, 0, 408_855_776));
    assert_eq!(corners[4].1, 354_079_489);
}

#[test]
fn flattened_circles_are_round() {
    // Eight arcs leave an error of a third of a percent, rounding adds a unit.
    for radius in [0, 1, 2, 55, 105, 175, 300, 5000, 400_000] {
        let contours = flatten(&Path::circle(70, -9, radius));
        assert_eq!((contours.len(), contours[0].len()), (1, 98));
        for (x, y) in &contours[0] {
            let off = f64::from(*x - 70).hypot(f64::from(*y + 9)) - f64::from(radius);
            assert!(off.abs() <= 1.5 + f64::from(radius) * 0.0032, "{radius}: {off}");
        }
    }
}

#[test]
fn segments_follow_the_curve() {
    let mut numbers = Numbers(7);
    for _ in 0..300 {
        let (a, b, c) = (
            numbers.within(1000),
            numbers.within(1000),
            numbers.within(1000),
        );
        let allowed = 0.5 + f64::from((a - 2 * b + c).abs()) / 576.0 + 1e-6;
        for step in 0..12 {
            let from = if step == 0 { a } else { quad_point(a, b, c, step) };
            let to = quad_point(a, b, c, step + 1);
            for part in 0..=8 {
                let part = f64::from(part) / 8.0;
                let chord = f64::from(from) * (1.0 - part) + f64::from(to) * part;
                let t = (f64::from(step) + part) / 12.0;
                let exact = (1.0 - t) * (1.0 - t) * f64::from(a)
                    + 2.0 * t * (1.0 - t) * f64::from(b)
                    + t * t * f64::from(c);
                assert!((chord - exact).abs() <= allowed);
            }
        }
    }
}

#[test]
fn stroke_pieces_are_those_of_the_hypotenuse() {
    let mut numbers = Numbers(4);
    for _ in 0..20000 {
        let points: Vec<(i32, i32)> = (0..3)
            .map(|_| (numbers.within(1000), numbers.within(1000)))
            .collect();
        let width = numbers.within(400);
        assert_eq!(
            outline(&points, width),
            outline_pieces(&points, width),
            "{points:?} at {width}"
        );
    }
}

#[test]
fn large_strokes_are_those_of_the_hypotenuse() {
    let mut numbers = Numbers(9);
    for bound in [1 << 20, 1 << 26, i32::MAX] {
        for _ in 0..10000 {
            let points: Vec<(i32, i32)> = (0..2)
                .map(|_| (numbers.within(bound), numbers.within(bound)))
                .collect();
            let width = numbers.within(bound);
            assert_eq!(
                outline(&points, width),
                outline_pieces(&points, width),
                "{points:?} at {width}"
            );
        }
    }
    let ends = [i32::MIN, -1, 0, 1, i32::MAX];
    for a in ends {
        for b in ends {
            let points = [(a, b), (b, -1), (0, a)];
            assert_eq!(outline(&points, i32::MAX), outline_pieces(&points, i32::MAX));
        }
    }
}

#[test]
fn outlines_flatten_to_the_same_contours() {
    let mut numbers = Numbers(5);
    for _ in 0..2000 {
        let mut commands = Vec::new();
        for _ in 0..numbers.below(9) {
            let mut n = || numbers.within(1200);
            let (a, b, c, d, e, f) = (n(), n(), n(), n(), n(), n());
            commands.push(match numbers.below(6) {
                0 => Cmd::Move(a, b),
                1 | 2 => Cmd::Line(a, b),
                3 => Cmd::Quad(a, b, c, d),
                4 => Cmd::Cubic(a, b, c, d, e, f),
                _ => Cmd::Close,
            });
        }
        let path = Path::from_commands(&commands);
        assert_eq!(flatten(&path), contours_of(&commands), "{commands:?}");
    }
}

#[test]
fn icons_have_the_same_pixels() {
    for glyph in Glyph::ALL {
        for size in [1, 7, 24, 33, 64] {
            let expected = Coverage {
                size,
                alpha: pixels_of(&shapes(glyph), size),
            };
            assert_eq!(
                render(&shapes(glyph), size),
                expected,
                "{glyph:?} at {size}"
            );
        }
    }
}

#[test]
fn marks_have_the_same_pixels() {
    let mut marks = vec![back_arrow(), bluetooth()];
    for percent in [0, 1, 50, 100] {
        marks.push(battery(Percent::new(percent), false));
        marks.push(battery(Percent::new(percent), true));
    }
    for signal in [Signal::Off, Signal::Weak, Signal::Fair, Signal::Strong] {
        marks.push(wifi(signal));
    }
    for mark in marks {
        for size in [8, 21, 48] {
            assert_eq!(render(&mark, size).alpha, pixels_of(&mark, size));
        }
    }
}

#[test]
fn scribbles_have_the_same_pixels() {
    // Outlines that cross themselves and leave the box on every side.
    let mut numbers = Numbers(6);
    for _ in 0..150 {
        let mut shapes = Vec::new();
        for _ in 0..2 {
            let mut path = Path::new();
            for _ in 0..6 {
                let mut n = || numbers.within(1400) + 500;
                let (a, b, c, d) = (n(), n(), n(), n());
                path = match numbers.below(4) {
                    0 => path.move_to(a, b),
                    1 => path.quad_to(a, b, c, d),
                    2 => path.close(),
                    _ => path.line_to(a, b),
                };
            }
            shapes.push(if numbers.below(2) == 0 {
                Shape::Fill(path)
            } else {
                Shape::Stroke { path, width: numbers.within(200) }
            });
        }
        let size = 1 + numbers.below(24) as i32;
        assert_eq!(
            render(&shapes, size).alpha,
            pixels_of(&shapes, size),
            "{shapes:?} at {size}"
        );
    }
}
