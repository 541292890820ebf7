//! The geometric primitives and their rasterization onto a canvas.
//!
//! `Line` steps along the segment in equal real-valued increments of the
//! dominant axis and rounds every position to the nearest pixel;
//! `Triangle` and `Rectangle` compose lines.

use vstd::prelude::*;
use vstd::arithmetic::mul::lemma_mul_inequality;
use vstd::math::{abs, max, min};
use crate::canvas::{paint, write1, Canvas, Color, Displayable};
use crate::circle_step::{
    cand_a, cand_b, cand_c, closer_exec, lemma_rim_picks_b, lemma_ring_pixels_on_ring,
    lemma_ring_pixels_symmetric, on_ring, picks_a, picks_b, ring_pixels, sq, step_u, step_v,
    symmetric_groups,
};
use crate::rounding::{lemma_rnd_exact, lemma_rnd_range, rnd, rnd_exec};
use crate::rng::sample_range;

verus! {

/// A shape that can write its outline into a canvas.
pub trait Drawable {
    /// The bounds a shape needs before drawing, so that its pixel
    /// arithmetic stays within machine integers.
    spec fn draw_pre(&self) -> bool;

    /// Writes the shape's pixels into the canvas, using `color()` for
    /// each write.
    fn draw(&self, image: &mut Canvas)
        requires
            self.draw_pre(),
    ;

    /// The color the shape draws with.
    fn color(&self) -> Color;
}

/// A discrete 2D coordinate.
#[derive(Clone, Copy, PartialEq, Eq, Structural, Debug)]
pub struct Point {
    pub x: i32,
    pub y: i32,
}

impl Point {
    pub fn new(x: i32, y: i32) -> (p: Point)
        ensures
            p == (Point { x, y }),
    {
        Point { x, y }
    }

    /// A point drawn uniformly from `[0, max_x) x [0, max_y)`.
    pub fn random(max_x: i32, max_y: i32) -> (p: Point)
        requires
            1 <= max_x,
            1 <= max_y,
        ensures
            0 <= p.x < max_x,
            0 <= p.y < max_y,
    {
        let x = sample_range(0, max_x);
        let y = sample_range(0, max_y);
        Point::new(x, y)
    }
}

impl Drawable for Point {
    open spec fn draw_pre(&self) -> bool {
        true
    }

    fn draw(&self, image: &mut Canvas)
        ensures
            final(image)@ == write1(
                old(image)@,
                (self.x as int, self.y as int),
                Color::white_spec(),
            ),
            final(image).spec_width() == old(image).spec_width(),
            final(image).spec_height() == old(image).spec_height(),
    {
        let c = self.color();
        image.display(self.x, self.y, c)
    }

    fn color(&self) -> (c: Color)
        ensures
            c == Color::white_spec(),
    {
        Color::white()
    }
}

/// The sequence of positions of a pixel list, as mathematical integers.
pub open spec fn pixel_seq(v: Seq<(i32, i32)>) -> Seq<(int, int)> {
    v.map_values(|p: (i32, i32)| (p.0 as int, p.1 as int))
}

/// The number of steps of the segment: the extent of its dominant axis.
pub open spec fn line_steps(sx: int, sy: int, ex: int, ey: int) -> int {
    max(abs(ex - sx) as int, abs(ey - sy) as int)
}

/// The i-th pixel of the segment: the position `i / steps` of the way
/// from start to end, each coordinate rounded to the nearest integer.
pub open spec fn line_pixel(sx: int, sy: int, ex: int, ey: int, i: int) -> (int, int) {
    let s = line_steps(sx, sy, ex, ey);
    (rnd(sx * s + i * (ex - sx), s), rnd(sy * s + i * (ey - sy), s))
}

/// All pixels of the segment, in drawing order. A zero-length segment is
/// a single pixel.
pub open spec fn line_pixels(sx: int, sy: int, ex: int, ey: int) -> Seq<(int, int)> {
    let s = line_steps(sx, sy, ex, ey);
    if s == 0 {
        seq![(sx, sy)]
    } else {
        Seq::new((s + 1) as nat, |i: int| line_pixel(sx, sy, ex, ey, i))
    }
}

/// A segment writes exactly `steps + 1` pixels; the first is exactly its
/// start and the last exactly its end.
pub proof fn lemma_line_pixels_endpoints(sx: int, sy: int, ex: int, ey: int)
    ensures
        line_pixels(sx, sy, ex, ey).len() == line_steps(sx, sy, ex, ey) + 1,
        line_pixels(sx, sy, ex, ey)[0] == (sx, sy),
        line_pixels(sx, sy, ex, ey).last() == (ex, ey),
{
    let s = line_steps(sx, sy, ex, ey);
    if s != 0 {
        lemma_rnd_exact(sx, s);
        lemma_rnd_exact(sy, s);
        assert(sx * s + 0 * (ex - sx) == sx * s) by (nonlinear_arith);
        assert(sy * s + 0 * (ey - sy) == sy * s) by (nonlinear_arith);
        assert(sx * s + s * (ex - sx) == ex * s) by (nonlinear_arith);
        assert(sy * s + s * (ey - sy) == ey * s) by (nonlinear_arith);
        lemma_rnd_exact(ex, s);
        lemma_rnd_exact(ey, s);
    }
}

/// A straight segment between two points.
pub struct Line {
    pub start: Point,
    pub end: Point,
}

impl Line {
    pub fn new(s: Point, e: Point) -> (l: Line)
        ensures
            l == (Line { start: s, end: e }),
    {
        Line { start: s, end: e }
    }

    /// A segment between two points drawn uniformly from
    /// `[0, max_x) x [0, max_y)`.
    pub fn random(max_x: i32, max_y: i32) -> (l: Line)
        requires
            1 <= max_x,
            1 <= max_y,
        ensures
            0 <= l.start.x < max_x,
            0 <= l.start.y < max_y,
            0 <= l.end.x < max_x,
            0 <= l.end.y < max_y,
    {
        let s = Point::random(max_x, max_y);
        let e = Point::random(max_x, max_y);
        Line::new(s, e)
    }

    pub open spec fn steps_spec(&self) -> int {
        line_steps(self.start.x as int, self.start.y as int, self.end.x as int, self.end.y as int)
    }

    pub open spec fn pixels_spec(&self) -> Seq<(int, int)> {
        line_pixels(self.start.x as int, self.start.y as int, self.end.x as int, self.end.y as int)
    }

    /// The pixels along the segment, in drawing order: exactly
    /// `steps + 1` of them, starting at `start` and ending at `end`.
    pub fn points(&self) -> (v: Vec<(i32, i32)>)
        ensures
            pixel_seq(v@) == self.pixels_spec(),
            v@.len() == self.steps_spec() + 1,
            v@[0] == (self.start.x, self.start.y),
            v@[v@.len() - 1] == (self.end.x, self.end.y),
    {
        let sx = self.start.x;
        let sy = self.start.y;
        let ex = self.end.x;
        let ey = self.end.y;
        let ghost gsx = sx as int;
        let ghost gsy = sy as int;
        let ghost gex = ex as int;
        let ghost gey = ey as int;
        let dx: i64 = ex as i64 - sx as i64;
        let dy: i64 = ey as i64 - sy as i64;
        let adx: i64 = if dx < 0 { -dx } else { dx };
        let ady: i64 = if dy < 0 { -dy } else { dy };
        let steps: i64 = if adx > ady { adx } else { ady };
        let ghost s = steps as int;
        let mut v: Vec<(i32, i32)> = Vec::new();
        if steps == 0 {
            v.push((sx, sy));
            proof {
                lemma_line_pixels_endpoints(gsx, gsy, gex, gey);
                assert(pixel_seq(v@) =~= self.pixels_spec());
            }
            return v;
        }
        let ghost lox: int = if dx >= 0 { gsx } else { gex };
        let ghost hix: int = if dx >= 0 { gex } else { gsx };
        let ghost loy: int = if dy >= 0 { gsy } else { gey };
        let ghost hiy: int = if dy >= 0 { gey } else { gsy };
        proof {
            assert(gsx * s <= i64::MAX && gsx * s >= i64::MIN && gsy * s <= i64::MAX && gsy * s
                >= i64::MIN) by (nonlinear_arith)
                requires
                    -0x8000_0000 <= gsx <= 0x7fff_ffff,
                    -0x8000_0000 <= gsy <= 0x7fff_ffff,
                    0 <= s < 0x1_0000_0000,
            ;
        }
        let mut numx: i64 = (sx as i64) * steps;
        let mut numy: i64 = (sy as i64) * steps;
        let mut i: i64 = 0;
        while i < steps
            invariant
                1 <= steps,
                s == steps as int,
                s == line_steps(gsx, gsy, gex, gey),
                s < 0x1_0000_0000,
                gsx == self.start.x as int && gsy == self.start.y as int,
                gex == self.end.x as int && gey == self.end.y as int,
                dx as int == gex - gsx,
                dy as int == gey - gsy,
                lox == (if dx >= 0 { gsx } else { gex }),
                hix == (if dx >= 0 { gex } else { gsx }),
                loy == (if dy >= 0 { gsy } else { gey }),
                hiy == (if dy >= 0 { gey } else { gsy }),
                0 <= i <= steps,
                numx as int == gsx * s + i as int * (gex - gsx),
                numy as int == gsy * s + i as int * (gey - gsy),
                v@.len() == i as int,
                forall|j: int|
                    0 <= j < i as int ==> ((#[trigger] v@[j]).0 as int, v@[j].1 as int)
                        == line_pixel(gsx, gsy, gex, gey, j),
            decreases steps - i,
        {
            proof {
                lemma_num_between(gsx, gex, s, i as int);
                lemma_num_between(gsy, gey, s, i as int);
            }
            let px64 = rnd_exec(numx, steps);
            let py64 = rnd_exec(numy, steps);
            proof {
                lemma_rnd_range(numx as int, s, lox, hix);
                lemma_rnd_range(numy as int, s, loy, hiy);
                lemma_num_between(gsx, gex, s, i as int + 1);
                lemma_num_between(gsy, gey, s, i as int + 1);
            }
            v.push((px64 as i32, py64 as i32));
            proof {
                assert(numx as int + dx as int == gsx * s + (i as int + 1) * (gex - gsx))
                    by (nonlinear_arith)
                    requires
                        numx as int == gsx * s + i as int * (gex - gsx),
                        dx as int == gex - gsx,
                ;
                assert(numy as int + dy as int == gsy * s + (i as int + 1) * (gey - gsy))
                    by (nonlinear_arith)
                    requires
                        numy as int == gsy * s + i as int * (gey - gsy),
                        dy as int == gey - gsy,
                ;
            }
            numx = numx + dx;
            numy = numy + dy;
            i = i + 1;
        }
        proof {
            lemma_num_between(gsx, gex, s, s);
            lemma_num_between(gsy, gey, s, s);
        }
        let px64 = rnd_exec(numx, steps);
        let py64 = rnd_exec(numy, steps);
        proof {
            lemma_rnd_range(numx as int, s, lox, hix);
            lemma_rnd_range(numy as int, s, loy, hiy);
        }
        v.push((px64 as i32, py64 as i32));
        proof {
            lemma_line_pixels_endpoints(gsx, gsy, gex, gey);
            assert(pixel_seq(v@) =~= self.pixels_spec());
            assert((v@[0].0 as int, v@[0].1 as int) == line_pixel(gsx, gsy, gex, gey, 0));
            assert((v@[s].0 as int, v@[s].1 as int) == line_pixel(gsx, gsy, gex, gey, s));
        }
        v
    }
}

/// The numerator of the i-th position stays between the two endpoint
/// multiples, and within `i64` range.
proof fn lemma_num_between(a: int, b: int, s: int, i: int)
    requires
        1 <= s < 0x1_0000_0000,
        -0x8000_0000 <= a <= 0x7fff_ffff,
        -0x8000_0000 <= b <= 0x7fff_ffff,
        abs(b - a) <= s,
        0 <= i <= s,
    ensures
        b >= a ==> a * s <= a * s + i * (b - a) <= b * s,
        b < a ==> b * s <= a * s + i * (b - a) <= a * s,
        i64::MIN <= a * s + i * (b - a) <= i64::MAX,
{
    if b >= a {
        lemma_mul_inequality(0, i, b - a);
        lemma_mul_inequality(i, s, b - a);
        assert(a * s + s * (b - a) == b * s) by (nonlinear_arith);
        assert(a * s >= -0x8000_0000 * 0x1_0000_0000) by (nonlinear_arith)
            requires
                -0x8000_0000 <= a && 1 <= s < 0x1_0000_0000,
        ;
        assert(b * s <= 0x7fff_ffff * 0x1_0000_0000) by (nonlinear_arith)
            requires
                b <= 0x7fff_ffff && 1 <= s < 0x1_0000_0000,
        ;
    } else {
        lemma_mul_inequality(0, i, a - b);
        lemma_mul_inequality(i, s, a - b);
        assert(i * (a - b) == -(i * (b - a))) by (nonlinear_arith);
        assert(s * (a - b) == -(s * (b - a))) by (nonlinear_arith);
        assert(a * s + s * (b - a) == b * s) by (nonlinear_arith);
        assert(b * s >= -0x8000_0000 * 0x1_0000_0000) by (nonlinear_arith)
            requires
                -0x8000_0000 <= b && 1 <= s < 0x1_0000_0000,
        ;
        assert(a * s <= 0x7fff_ffff * 0x1_0000_0000) by (nonlinear_arith)
            requires
                a <= 0x7fff_ffff && 1 <= s < 0x1_0000_0000,
        ;
    }
}

impl Drawable for Line {
    open spec fn draw_pre(&self) -> bool {
        true
    }

    fn draw(&self, image: &mut Canvas)
        ensures
            final(image)@ == paint(old(image)@, self.pixels_spec(), Color::white_spec()),
            final(image).spec_width() == old(image).spec_width(),
            final(image).spec_height() == old(image).spec_height(),
    {
        let pts = self.points();
        let ghost m0 = image@;
        let ghost target = self.pixels_spec();
        let ghost w0 = image.spec_width();
        let ghost h0 = image.spec_height();
        let mut k: usize = 0;
        while k < pts.len()
            invariant
                pixel_seq(pts@) == target,
                k <= pts.len(),
                image@ == paint(m0, target.take(k as int), Color::white_spec()),
                image.spec_width() == w0,
                image.spec_height() == h0,
            decreases pts.len() - k,
        {
            let p = pts[k];
            let c = self.color();
            image.display(p.0, p.1, c);
            proof {
                crate::canvas::lemma_paint_snoc(
                    m0,
                    target.take(k as int),
                    (p.0 as int, p.1 as int),
                    Color::white_spec(),
                );
                assert(target[k as int] == (p.0 as int, p.1 as int));
                assert(target.take(k as int + 1) =~= target.take(k as int).push(
                    (p.0 as int, p.1 as int),
                ));
            }
            k = k + 1;
        }
        proof {
            assert(target.take(pts@.len() as int) =~= target);
        }
    }

    fn color(&self) -> (c: Color)
        ensures
            c == Color::white_spec(),
    {
        Color::white()
    }
}

/// Three points joined by three edges.
pub struct Triangle {
    pub start: Point,
    pub middle: Point,
    pub end: Point,
}

impl Triangle {
    pub fn new(s: &Point, m: &Point, e: &Point) -> (t: Triangle)
        ensures
            t == (Triangle { start: *s, middle: *m, end: *e }),
    {
        Triangle { start: *s, middle: *m, end: *e }
    }

    /// The pixels of the three edges, in drawing order.
    pub open spec fn pixels_spec(&self) -> Seq<(int, int)> {
        line_pixels(self.start.x as int, self.start.y as int, self.middle.x as int, self.middle.y as int)
            + line_pixels(self.middle.x as int, self.middle.y as int, self.end.x as int, self.end.y as int)
            + line_pixels(self.end.x as int, self.end.y as int, self.start.x as int, self.start.y as int)
    }
}

impl Drawable for Triangle {
    open spec fn draw_pre(&self) -> bool {
        true
    }

    fn draw(&self, image: &mut Canvas)
        ensures
            final(image)@ == paint(old(image)@, self.pixels_spec(), Color::white_spec()),
            final(image).spec_width() == old(image).spec_width(),
            final(image).spec_height() == old(image).spec_height(),
    {
        let ghost m0 = image@;
        Line::new(self.start, self.middle).draw(image);
        Line::new(self.middle, self.end).draw(image);
        Line::new(self.end, self.start).draw(image);
        proof {
            let e1 = line_pixels(self.start.x as int, self.start.y as int, self.middle.x as int, self.middle.y as int);
            let e2 = line_pixels(self.middle.x as int, self.middle.y as int, self.end.x as int, self.end.y as int);
            let e3 = line_pixels(self.end.x as int, self.end.y as int, self.start.x as int, self.start.y as int);
            crate::canvas::lemma_paint_concat(m0, e1, e2, Color::white_spec());
            crate::canvas::lemma_paint_concat(m0, e1 + e2, e3, Color::white_spec());
        }
    }

    fn color(&self) -> (c: Color)
        ensures
            c == Color::white_spec(),
    {
        Color::white()
    }
}

/// An axis-aligned rectangle given by two opposite corners.
pub struct Rectangle {
    pub point1: Point,
    pub point2: Point,
}

impl Rectangle {
    pub fn new(point1: &Point, point2: &Point) -> (r: Rectangle)
        ensures
            r == (Rectangle { point1: *point1, point2: *point2 }),
    {
        Rectangle {
            point1: Point::new(point1.x, point1.y),
            point2: Point::new(point2.x, point2.y),
        }
    }

    /// The corner sharing `point1`'s row and `point2`'s column.
    pub open spec fn corner3(&self) -> Point {
        Point { x: self.point2.x, y: self.point1.y }
    }

    /// The corner sharing `point2`'s row and `point1`'s column.
    pub open spec fn corner4(&self) -> Point {
        Point { x: self.point1.x, y: self.point2.y }
    }

    /// The pixels of the four edges, drawn in a fixed cyclic order:
    /// `point1 -> corner3 -> point2 -> corner4 -> point1`.
    pub open spec fn pixels_spec(&self) -> Seq<(int, int)> {
        line_pixels(self.point1.x as int, self.point1.y as int, self.corner3().x as int, self.corner3().y as int)
            + line_pixels(self.corner3().x as int, self.corner3().y as int, self.point2.x as int, self.point2.y as int)
            + line_pixels(self.point2.x as int, self.point2.y as int, self.corner4().x as int, self.corner4().y as int)
            + line_pixels(self.corner4().x as int, self.corner4().y as int, self.point1.x as int, self.point1.y as int)
    }
}

impl Drawable for Rectangle {
    open spec fn draw_pre(&self) -> bool {
        true
    }

    fn draw(&self, image: &mut Canvas)
        ensures
            final(image)@ == paint(old(image)@, self.pixels_spec(), Color::white_spec()),
            final(image).spec_width() == old(image).spec_width(),
            final(image).spec_height() == old(image).spec_height(),
    {
        let point3 = Point::new(self.point2.x, self.point1.y);
        let point4 = Point::new(self.point1.x, self.point2.y);
        let ghost m0 = image@;
        Line::new(self.point1, point3).draw(image);
        Line::new(point3, self.point2).draw(image);
        Line::new(self.point2, point4).draw(image);
        Line::new(point4, self.point1).draw(image);
        proof {
            let e1 = line_pixels(self.point1.x as int, self.point1.y as int, self.corner3().x as int, self.corner3().y as int);
            let e2 = line_pixels(self.corner3().x as int, self.corner3().y as int, self.point2.x as int, self.point2.y as int);
            let e3 = line_pixels(self.point2.x as int, self.point2.y as int, self.corner4().x as int, self.corner4().y as int);
            let e4 = line_pixels(self.corner4().x as int, self.corner4().y as int, self.point1.x as int, self.point1.y as int);
            crate::canvas::lemma_paint_concat(m0, e1, e2, Color::white_spec());
            crate::canvas::lemma_paint_concat(m0, e1 + e2, e3, Color::white_spec());
            crate::canvas::lemma_paint_concat(m0, e1 + e2 + e3, e4, Color::white_spec());
        }
    }

    fn color(&self) -> (c: Color)
        ensures
            c == Color::white_spec(),
    {
        Color::white()
    }
}


/// Every pixel a circle writes, in drawing order. A negative radius
/// draws nothing; a zero radius writes the four coincident reflections
/// of the center, i.e. the center pixel four times.
pub open spec fn circle_pixels(cx: int, cy: int, r: int) -> Seq<(int, int)> {
    if r < 0 {
        Seq::empty()
    } else if r == 0 {
        seq![(cx, cy), (cx, cy), (cx, cy), (cx, cy)]
    } else {
        ring_pixels(cx, cy, r, 0, -r)
    }
}

/// A circular outline given by its center and radius.
pub struct Circle {
    pub center: Point,
    pub radius: i32,
}

impl Circle {
    pub fn new(center: Point, radius: i32) -> (c: Self)
        ensures
            c == (Circle { center, radius }),
    {
        Self { center, radius }
    }

    /// A circle with a center drawn uniformly from
    /// `[0, x_rng) x [0, y_rng)` and a radius drawn uniformly from
    /// `[0, min(x_rng, y_rng) / 2)`.
    pub fn random(x_rng: i32, y_rng: i32) -> (c: Self)
        requires
            2 <= x_rng,
            2 <= y_rng,
        ensures
            0 <= c.center.x < x_rng,
            0 <= c.center.y < y_rng,
            0 <= c.radius < (if x_rng < y_rng { x_rng } else { y_rng }) / 2,
    {
        let center = Point::random(x_rng, y_rng);
        let m = if x_rng < y_rng { x_rng } else { y_rng };
        let radius = sample_range(0, m / 2);
        Self::new(center, radius)
    }

    pub open spec fn pixels_spec(&self) -> Seq<(int, int)> {
        circle_pixels(self.center.x as int, self.center.y as int, self.radius as int)
    }

    /// The bounds under which the circle's stepping arithmetic stays
    /// within machine integers: the radius within `2^30` and the ring's
    /// bounding box within `i32`.
    pub open spec fn in_draw_range(&self) -> bool {
        &&& self.radius <= 0x4000_0000
    &&& i32::MIN <= self.center.x - self.radius
        &&& self.center.x + self.radius <= i32::MAX
        &&& i32::MIN <= self.center.y - self.radius
        &&& self.center.y + self.radius <= i32::MAX
    }

    /// Checks the drawing bounds at run time, so that a caller can test
    /// any circle before drawing it.
    pub fn can_draw(&self) -> (b: bool)
        ensures
            b == self.in_draw_range(),
    {
        let cx = self.center.x as i64;
        let cy = self.center.y as i64;
        let r = self.radius as i64;
        r <= 0x4000_0000 && i32::MIN as i64 <= cx - r && cx + r <= i32::MAX as i64
            && i32::MIN as i64 <= cy - r && cy + r <= i32::MAX as i64
    }

    /// The pixels of the outline, in drawing order: for each step of the
    /// tracker, the four reflections of its position about the center.
    pub fn points(&self) -> (v: Vec<(i32, i32)>)
        requires
            self.in_draw_range(),
        ensures
            pixel_seq(v@) == self.pixels_spec(),
    {
        let cx = self.center.x;
        let cy = self.center.y;
        let r = self.radius;
        let ghost gcx = cx as int;
        let ghost gcy = cy as int;
        let ghost gr = r as int;
        let mut v: Vec<(i32, i32)> = Vec::new();
        if r < 0 {
            proof {
                assert(pixel_seq(v@) =~= self.pixels_spec());
            }
            return v;
        }
        if r == 0 {
            v.push((cx, cy));
            v.push((cx, cy));
            v.push((cx, cy));
            v.push((cx, cy));
            proof {
                assert(pixel_seq(v@) =~= self.pixels_spec());
            }
            return v;
        }
        let mut x = cx;
        let mut y = cy - r;
        while y <= cy
            invariant
                1 <= gr <= 0x4000_0000,
                gcx == self.center.x as int && gcy == self.center.y as int && gr
                    == self.radius as int,
                cx == self.center.x && cy == self.center.y && r == self.radius,
                self.in_draw_range(),
                gcx <= x as int <= gcx + gr,
                gcy - gr <= y as int <= gcy + 1,
                pixel_seq(v@) + ring_pixels(gcx, gcy, gr, x as int - gcx, y as int - gcy)
                    == ring_pixels(gcx, gcy, gr, 0, -gr),
            decreases 2 * (gcy + 1 - y as int) + (gcx + gr - x as int),
        {
            let ghost u = x as int - gcx;
            let ghost gv = y as int - gcy;
            let ghost before = pixel_seq(v@);
            let ghost g = seq![
                (gcx + u, gcy + gv),
                (gcx - u, gcy + gv),
                (gcx + u, gcy - gv),
                (gcx - u, gcy - gv),
            ];
            proof {
                if u == gr {
                    lemma_rim_picks_b(gr, u, gv);
                }
                assert(1 <= gr && 0 <= u <= gr && -gr <= gv && gv <= 0);
                assert(0 <= step_u(gr, u, gv) <= gr && -gr <= step_v(gr, u, gv));
            }
            let ghost rest = ring_pixels(gcx, gcy, gr, step_u(gr, u, gv), step_v(gr, u, gv));
            proof {
                assert(ring_pixels(gcx, gcy, gr, u, gv) == g + rest);
            }
            let mx: i32 = (2 * (cx as i64) - (x as i64)) as i32;
            let my: i32 = (2 * (cy as i64) - (y as i64)) as i32;
            v.push((x, y));
            v.push((mx, y));
            v.push((x, my));
            v.push((mx, my));
            let du: i64 = (x - cx) as i64;
            let dv: i64 = (y - cy) as i64;
            proof {
                assert(0 <= (du as int + 1) * (du as int + 1) <= 0x2000_0000_0000_0000 && 0 <= (
                du as int) * (du as int) <= 0x2000_0000_0000_0000 && 0 <= (dv as int) * (
                dv as int) <= 0x2000_0000_0000_0000 && 0 <= (dv as int + 1) * (dv as int + 1)
                    <= 0x2000_0000_0000_0000) by (nonlinear_arith)
                    requires
                        0 <= du as int <= 0x4000_0000,
                        -0x4000_0000 <= dv as int <= 0,
                ;
            }
            let da: i64 = (du + 1) * (du + 1) + dv * dv;
            let db: i64 = du * du + (dv + 1) * (dv + 1);
            let dc: i64 = (du + 1) * (du + 1) + (dv + 1) * (dv + 1);
            proof {
                assert(da as int == cand_a(u, gv) && db as int == cand_b(u, gv) && dc as int
                    == cand_c(u, gv));
            }
            if closer_exec(da, db, r as i64) && closer_exec(da, dc, r as i64) {
                proof {
                    assert(picks_a(gr, u, gv));
                }
                x = x + 1;
            } else if closer_exec(db, dc, r as i64) {
                proof {
                    assert(picks_b(gr, u, gv));
                }
                y = y + 1;
            } else {
                x = x + 1;
                y = y + 1;
            }
            proof {
                assert(x as int - gcx == step_u(gr, u, gv));
                assert(y as int - gcy == step_v(gr, u, gv));
                assert(pixel_seq(v@) =~= before + g);
                assert((before + g) + rest =~= before + (g + rest));
            }
        }
        proof {
            assert(ring_pixels(gcx, gcy, gr, x as int - gcx, y as int - gcy) =~= Seq::empty());
            assert(pixel_seq(v@) =~= pixel_seq(v@) + Seq::empty());
            assert(pixel_seq(v@) =~= self.pixels_spec());
        }
        v
    }
}

impl Drawable for Circle {
    open spec fn draw_pre(&self) -> bool {
        self.in_draw_range()
    }

    /// Writes the outline, asking `color()` anew for every single pixel
    /// write: the reflections of one step may carry different colors.
    fn draw(&self, image: &mut Canvas)
        ensures
            final(image).spec_width() == old(image).spec_width(),
            final(image).spec_height() == old(image).spec_height(),
            final(image)@.dom() == old(image)@.dom(),
            forall|p: (int, int)|
                old(image)@.dom().contains(p) && !self.pixels_spec().contains(p)
                    ==> final(image)@[p] == old(image)@[p],
            forall|p: (int, int)|
                old(image)@.dom().contains(p) && self.pixels_spec().contains(p)
                    ==> final(image)@[p].a >= 100,
    {
        let pts = self.points();
        let ghost m0 = image@;
        let ghost w0 = image.spec_width();
        let ghost h0 = image.spec_height();
        let ghost full = pixel_seq(pts@);
        let mut k: usize = 0;
        while k < pts.len()
            invariant
                full == self.pixels_spec(),
                full == pixel_seq(pts@),
                k <= pts.len(),
                image.spec_width() == w0,
                image.spec_height() == h0,
                image@.dom() == m0.dom(),
                forall|p: (int, int)|
                    #[trigger] m0.dom().contains(p) && !full.contains(p) ==> image@[p] == m0[p],
                forall|p: (int, int)|
                    #[trigger] m0.dom().contains(p) && full.take(k as int).contains(p)
                        ==> image@[p].a >= 100,
            decreases pts.len() - k,
        {
            let p = pts[k];
            let c = self.color();
            let ghost prev = image@;
            let ghost pi = (p.0 as int, p.1 as int);
            image.display(p.0, p.1, c);
            proof {
                assert(full[k as int] == pi);
                assert(full.contains(pi));
                assert(image@.dom() =~= prev.dom());
                assert forall|q: (int, int)|
                    #[trigger] m0.dom().contains(q) && full.take(k as int + 1).contains(q)
                        implies image@[q].a >= 100 by {
                    let i = choose|i: int|
                        0 <= i < k as int + 1 && (#[trigger] full.take(k as int + 1)[i]) == q;
                    if i < k as int {
                        assert(full.take(k as int)[i] == q);
                        assert(full.take(k as int).contains(q));
                    } else {
                        assert(q == pi);
                    }
                }
            }
            k = k + 1;
        }
        proof {
            assert(full.take(pts@.len() as int) =~= full);
        }
    }

    /// A fresh uniformly random color on every call; only the alpha
    /// channel is promised, at least 100.
    fn color(&self) -> (c: Color)
        ensures
            100 <= c.a,
    {
        let r = sample_range(0, 256) as u8;
        let g = sample_range(0, 256) as u8;
        let b = sample_range(0, 256) as u8;
        let a = sample_range(100, 256) as u8;
        Color::new(r, g, b, a)
    }
}

/// Whatever the radius, a circle's writes come in groups of four that
/// are reflections of one tracked position about the center's row and
/// column; for a zero radius the four reflections coincide at the
/// center.
pub proof fn lemma_circle_pixels_symmetric(cx: int, cy: int, r: int)
    ensures
        symmetric_groups(circle_pixels(cx, cy, r), cx, cy),
{
    if r < 0 {
        assert(circle_pixels(cx, cy, r).len() == 0);
    } else if r == 0 {
        let s = circle_pixels(cx, cy, r);
        assert forall|k: int| 0 <= k && 4 * k + 3 < s.len() implies {
            &&& (#[trigger] s[4 * k + 1]) == ((2 * cx - s[4 * k].0, s[4 * k].1))
            &&& s[4 * k + 2] == ((s[4 * k].0, 2 * cy - s[4 * k].1))
            &&& s[4 * k + 3] == ((2 * cx - s[4 * k].0, 2 * cy - s[4 * k].1))
        } by {
            assert(k == 0);
            assert(s[0] == ((cx, cy)) && s[1] == ((cx, cy)) && s[2] == ((cx, cy)) && s[3] == ((
            cx,
            cy,
            )));
        }
    } else {
        lemma_ring_pixels_symmetric(cx, cy, r, 0, -r);
    }
}

/// Along its dominant axis a segment advances by exactly one pixel per
/// step, and a coordinate with no extent never moves: the rounding is
/// exact there.
pub proof fn lemma_line_dominant_axis(sx: int, sy: int, ex: int, ey: int, i: int)
    requires
        1 <= line_steps(sx, sy, ex, ey),
        0 <= i <= line_steps(sx, sy, ex, ey),
    ensures
        ex - sx == line_steps(sx, sy, ex, ey) ==> line_pixels(sx, sy, ex, ey)[i].0 == sx + i,
        sx - ex == line_steps(sx, sy, ex, ey) ==> line_pixels(sx, sy, ex, ey)[i].0 == sx - i,
        ex == sx ==> line_pixels(sx, sy, ex, ey)[i].0 == sx,
        ey - sy == line_steps(sx, sy, ex, ey) ==> line_pixels(sx, sy, ex, ey)[i].1 == sy + i,
        sy - ey == line_steps(sx, sy, ex, ey) ==> line_pixels(sx, sy, ex, ey)[i].1 == sy - i,
        ey == sy ==> line_pixels(sx, sy, ex, ey)[i].1 == sy,
{
    let s = line_steps(sx, sy, ex, ey);
    if ex - sx == s {
        assert(sx * s + i * (ex - sx) == (sx + i) * s) by (nonlinear_arith)
            requires
                ex - sx == s,
        ;
        lemma_rnd_exact(sx + i, s);
    }
    if sx - ex == s {
        assert(sx * s + i * (ex - sx) == (sx - i) * s) by (nonlinear_arith)
            requires
                sx - ex == s,
        ;
        lemma_rnd_exact(sx - i, s);
    }
    if ex == sx {
        assert(sx * s + i * (ex - sx) == sx * s) by (nonlinear_arith)
            requires
                ex == sx,
        ;
        lemma_rnd_exact(sx, s);
    }
    if ey - sy == s {
        assert(sy * s + i * (ey - sy) == (sy + i) * s) by (nonlinear_arith)
            requires
                ey - sy == s,
        ;
        lemma_rnd_exact(sy + i, s);
    }
    if sy - ey == s {
        assert(sy * s + i * (ey - sy) == (sy - i) * s) by (nonlinear_arith)
            requires
                sy - ey == s,
        ;
        lemma_rnd_exact(sy - i, s);
    }
    if ey == sy {
        assert(sy * s + i * (ey - sy) == sy * s) by (nonlinear_arith)
            requires
                ey == sy,
        ;
        lemma_rnd_exact(sy, s);
    }
}

/// A horizontal segment's pixels are exactly the positions of its row
/// between its endpoints.
proof fn lemma_hline_contains(a: int, c: int, b: int, x: int, y: int)
    ensures
        line_pixels(a, c, b, c).contains((x, y)) <==> (y == c && min(a, b) <= x <= max(a, b)),
{
    let s = line_steps(a, c, b, c);
    let pix = line_pixels(a, c, b, c);
    assert(s == abs(b - a) as int);
    if s == 0 {
        assert(pix == seq![(a, c)]);
        assert(pix.contains((x, y)) <==> (x, y) == (a, c)) by {
            if pix.contains((x, y)) {
                let i = choose|i: int| 0 <= i < pix.len() && pix[i] == (x, y);
                assert(pix[i] == (a, c));
            }
            assert(pix[0] == (a, c));
        }
    } else {
        if pix.contains((x, y)) {
            let i = choose|i: int| 0 <= i < pix.len() && pix[i] == (x, y);
            lemma_line_dominant_axis(a, c, b, c, i);
        }
        if y == c && min(a, b) <= x <= max(a, b) {
            let i = abs(x - a) as int;
            lemma_line_dominant_axis(a, c, b, c, i);
            assert(pix[i] == (x, y));
            assert(pix.contains((x, y)));
        }
    }
}

/// A vertical segment's pixels are exactly the positions of its column
/// between its endpoints.
proof fn lemma_vline_contains(a: int, c: int, b: int, x: int, y: int)
    ensures
        line_pixels(c, a, c, b).contains((x, y)) <==> (x == c && min(a, b) <= y <= max(a, b)),
{
    let s = line_steps(c, a, c, b);
    let pix = line_pixels(c, a, c, b);
    assert(s == abs(b - a) as int);
    if s == 0 {
        assert(pix == seq![(c, a)]);
        assert(pix.contains((x, y)) <==> (x, y) == (c, a)) by {
            if pix.contains((x, y)) {
                let i = choose|i: int| 0 <= i < pix.len() && pix[i] == (x, y);
                assert(pix[i] == (c, a));
            }
            assert(pix[0] == (c, a));
        }
    } else {
        if pix.contains((x, y)) {
            let i = choose|i: int| 0 <= i < pix.len() && pix[i] == (x, y);
            lemma_line_dominant_axis(c, a, c, b, i);
        }
        if x == c && min(a, b) <= y <= max(a, b) {
            let i = abs(y - a) as int;
            lemma_line_dominant_axis(c, a, c, b, i);
            assert(pix[i] == (x, y));
            assert(pix.contains((x, y)));
        }
    }
}

/// A concatenation holds a position exactly when one of its parts does.
proof fn lemma_concat_contains(s1: Seq<(int, int)>, s2: Seq<(int, int)>, p: (int, int))
    ensures
        (s1 + s2).contains(p) <==> s1.contains(p) || s2.contains(p),
{
    if (s1 + s2).contains(p) {
        let i = choose|i: int| 0 <= i < (s1 + s2).len() && (s1 + s2)[i] == p;
        if i < s1.len() {
            assert(s1[i] == p);
        } else {
            assert(s2[i - s1.len()] == p);
        }
    }
    if s1.contains(p) {
        let i = choose|i: int| 0 <= i < s1.len() && s1[i] == p;
        assert((s1 + s2)[i] == p);
    }
    if s2.contains(p) {
        let i = choose|i: int| 0 <= i < s2.len() && s2[i] == p;
        assert((s1 + s2)[s1.len() + i] == p);
    }
}

/// A position lies on the outline of the axis-aligned rectangle spanned
/// by the two corners: on one of the two rows between the columns, or
/// on one of the two columns between the rows.
pub open spec fn on_rectangle_boundary(r: Rectangle, x: int, y: int) -> bool {
    let x1 = r.point1.x as int;
    let y1 = r.point1.y as int;
    let x2 = r.point2.x as int;
    let y2 = r.point2.y as int;
    ||| (min(x1, x2) <= x <= max(x1, x2) && (y == y1 || y == y2))
    ||| (min(y1, y2) <= y <= max(y1, y2) && (x == x1 || x == x2))
}

/// The four derived edges of a rectangle cover exactly the boundary
/// pixels of its outline, whatever the ordering of its two corners.
pub proof fn lemma_rectangle_covers_boundary(r: Rectangle, x: int, y: int)
    ensures
        r.pixels_spec().contains((x, y)) == on_rectangle_boundary(r, x, y),
{
    let x1 = r.point1.x as int;
    let y1 = r.point1.y as int;
    let x2 = r.point2.x as int;
    let y2 = r.point2.y as int;
    let e1 = line_pixels(x1, y1, x2, y1);
    let e2 = line_pixels(x2, y1, x2, y2);
    let e3 = line_pixels(x2, y2, x1, y2);
    let e4 = line_pixels(x1, y2, x1, y1);
    assert(r.pixels_spec() == e1 + e2 + e3 + e4);
    lemma_concat_contains(e1 + e2 + e3, e4, (x, y));
    lemma_concat_contains(e1 + e2, e3, (x, y));
    lemma_concat_contains(e1, e2, (x, y));
    lemma_hline_contains(x1, y1, x2, x, y);
    lemma_vline_contains(y1, x2, y2, x, y);
    lemma_hline_contains(x2, y2, x1, x, y);
    lemma_vline_contains(y2, x1, y1, x, y);
}

/// Bounded rasterization error: every pixel a circle of positive radius
/// writes has its squared distance to the center within
/// `[(r-1)^2, (r+1)^2]`, i.e. its distance stays within one unit of the
/// radius.
pub proof fn lemma_circle_pixels_on_ring(cx: int, cy: int, r: int, j: int)
    requires
        1 <= r,
        0 <= j < circle_pixels(cx, cy, r).len(),
    ensures
        on_ring(
            r,
            sq(circle_pixels(cx, cy, r)[j].0 - cx) + sq(circle_pixels(cx, cy, r)[j].1 - cy),
        ),
{
    assert((r - 1) * (r - 1) <= r * r <= (r + 1) * (r + 1) && (-r) * (-r) == r * r && 0 * 0
        == 0) by (nonlinear_arith)
        requires
            1 <= r,
    ;
    lemma_ring_pixels_on_ring(cx, cy, r, 0, -r);
}

} // verus!
