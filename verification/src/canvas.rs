//! The pixel canvas: a rectangular buffer of colors, written one pixel at
//! a time, together with the spec-level `paint` operation that describes a
//! sequence of same-colored pixel writes.

use vstd::prelude::*;

verus! {

/// An RGBA color: four 8-bit channels.
#[derive(Clone, Copy, PartialEq, Eq, Structural, Debug)]
pub struct Color {
    pub r: u8,
    pub g: u8,
    pub b: u8,
    pub a: u8,
}

impl Color {
    pub fn new(r: u8, g: u8, b: u8, a: u8) -> (c: Color)
        ensures
            c == (Color { r, g, b, a }),
    {
        Color { r, g, b, a }
    }

    /// The default drawing color: opaque white.
    pub open spec fn white_spec() -> Color {
        Color { r: 255, g: 255, b: 255, a: 255 }
    }

    pub fn white() -> (c: Color)
        ensures
            c == Color::white_spec(),
    {
        Color { r: 255, g: 255, b: 255, a: 255 }
    }

    /// The color a fresh canvas is filled with: opaque black.
    pub open spec fn black_spec() -> Color {
        Color { r: 0, g: 0, b: 0, a: 255 }
    }
}

/// One pixel write into the map of a canvas: coordinates outside the
/// canvas are clipped, a write inside replaces the stored color.
pub open spec fn write1(m: Map<(int, int), Color>, p: (int, int), c: Color) -> Map<
    (int, int),
    Color,
> {
    if m.dom().contains(p) {
        m.insert(p, c)
    } else {
        m
    }
}

/// The pixel writes of a whole sequence of positions, all with the same
/// color, applied left to right.
pub open spec fn paint(m: Map<(int, int), Color>, pts: Seq<(int, int)>, c: Color) -> Map<
    (int, int),
    Color,
> {
    pts.fold_left(m, |acc: Map<(int, int), Color>, p: (int, int)| write1(acc, p, c))
}

/// Anything that exposes a pixel-set operation, described by the map of
/// its pixels.
pub trait Displayable {
    /// The colors currently held, keyed by pixel position.
    spec fn pixel_map(&self) -> Map<(int, int), Color>;

    /// Writes one pixel; positions outside the pixel map are ignored.
    fn display(&mut self, x: i32, y: i32, color: Color)
        ensures
            final(self).pixel_map() == write1(
                old(self).pixel_map(),
                (x as int, y as int),
                color,
            ),
    ;
}

/// A rectangular pixel buffer, stored row-major.
pub struct Canvas {
    width: usize,
    height: usize,
    pixels: Vec<Color>,
}

impl View for Canvas {
    type V = Map<(int, int), Color>;

    closed spec fn view(&self) -> Map<(int, int), Color> {
        Map::new(
            |p: (int, int)| 0 <= p.0 < self.width && 0 <= p.1 < self.height,
            |p: (int, int)| self.pixels@[p.1 * self.width + p.0],
        )
    }
}

impl Canvas {
    #[verifier::type_invariant]
    spec fn well_formed(self) -> bool {
        self.pixels.len() == self.width * self.height
    }

    pub closed spec fn spec_width(&self) -> int {
        self.width as int
    }

    pub closed spec fn spec_height(&self) -> int {
        self.height as int
    }

    /// Allocates a buffer of the given size, filled with opaque black.
    pub fn new(width: usize, height: usize) -> (canvas: Canvas)
        requires
            width * height <= usize::MAX,
        ensures
            canvas.spec_width() == width,
            canvas.spec_height() == height,
            canvas@ == Map::new(
                |p: (int, int)| 0 <= p.0 < width && 0 <= p.1 < height,
                |p: (int, int)| Color::black_spec(),
            ),
    {
        let n = width * height;
        let mut pixels: Vec<Color> = Vec::new();
        while pixels.len() < n
            invariant
                pixels.len() <= n,
                forall|i: int| 0 <= i < pixels.len() ==> pixels@[i] == Color::black_spec(),
            decreases n - pixels.len(),
        {
            pixels.push(Color { r: 0, g: 0, b: 0, a: 255 });
        }
        let canvas = Canvas { width, height, pixels };
        proof {
            assert(canvas@ =~= Map::new(
                |p: (int, int)| 0 <= p.0 < width && 0 <= p.1 < height,
                |p: (int, int)| Color::black_spec(),
            )) by {
                assert forall|p: (int, int)|
                    0 <= p.0 < width && 0 <= p.1 < height implies {
                    &&& 0 <= p.1 * canvas.width + p.0 < canvas.pixels.len()
                    &&& canvas.pixels@[p.1 * canvas.width + p.0] == Color::black_spec()
                } by {
                    lemma_row_major_index_bound(width as int, height as int, p.0, p.1);
                }
            }
        }
        canvas
    }

    pub fn width(&self) -> (w: usize)
        ensures
            w == self.spec_width(),
    {
        self.width
    }

    pub fn height(&self) -> (h: usize)
        ensures
            h == self.spec_height(),
    {
        self.height
    }

    /// The color at a position, or `None` outside the canvas.
    pub fn pixel(&self, x: i32, y: i32) -> (c: Option<Color>)
        ensures
            c == (if self@.dom().contains((x as int, y as int)) {
                Some(self@[(x as int, y as int)])
            } else {
                None::<Color>
            }),
    {
        proof {
            use_type_invariant(&*self);
        }
        if x >= 0 && y >= 0 && (x as usize) < self.width && (y as usize) < self.height {
            proof {
                lemma_row_major_index_bound(
                    self.width as int,
                    self.height as int,
                    x as int,
                    y as int,
                );
            }
            let idx = (y as usize) * self.width + (x as usize);
            Some(self.pixels[idx])
        } else {
            None
        }
    }
}

impl Displayable for Canvas {
    open spec fn pixel_map(&self) -> Map<(int, int), Color> {
        self@
    }

    fn display(&mut self, x: i32, y: i32, color: Color)
        ensures
            final(self).spec_width() == old(self).spec_width(),
            final(self).spec_height() == old(self).spec_height(),
    {
        proof {
            use_type_invariant(&*self);
        }
        if x >= 0 && y >= 0 && (x as usize) < self.width && (y as usize) < self.height {
            proof {
                lemma_row_major_index_bound(
                    self.width as int,
                    self.height as int,
                    x as int,
                    y as int,
                );
            }
            let idx = (y as usize) * self.width + (x as usize);
            let mut tmp = Canvas { width: 0, height: 0, pixels: Vec::new() };
            std::mem::swap(self, &mut tmp);
            let Canvas { width, height, mut pixels } = tmp;
            pixels.set(idx, color);
            *self = Canvas { width, height, pixels };
            proof {
                let p0 = (x as int, y as int);
                assert(self@ =~= write1(old(self)@, p0, color)) by {
                    assert forall|p: (int, int)| #[trigger] self@.dom().contains(p) implies
                        self@[p] == write1(old(self)@, p0, color)[p] by {
                        lemma_row_major_index_bound(
                            self.width as int,
                            self.height as int,
                            p.0,
                            p.1,
                        );
                        if p != p0 {
                            lemma_row_major_index_injective(
                                self.width as int,
                                p.0,
                                p.1,
                                x as int,
                                y as int,
                            );
                        }
                    }
                }
            }
        }
    }
}

/// Painting a sequence extended by one position paints the sequence and
/// then writes the extra pixel.
pub proof fn lemma_paint_snoc(m: Map<(int, int), Color>, s: Seq<(int, int)>, p: (int, int), c: Color)
    ensures
        paint(m, s.push(p), c) == write1(paint(m, s, c), p, c),
{
    assert(s.push(p).drop_last() =~= s);
    assert(s.push(p).last() == p);
}

/// Painting a concatenation paints the first part, then the second.
pub proof fn lemma_paint_concat(m: Map<(int, int), Color>, s1: Seq<(int, int)>, s2: Seq<(int, int)>, c: Color)
    ensures
        paint(m, s1 + s2, c) == paint(paint(m, s1, c), s2, c),
    decreases s2.len(),
{
    if s2.len() == 0 {
        assert(s1 + s2 =~= s1);
    } else {
        lemma_paint_concat(m, s1, s2.drop_last(), c);
        assert((s1 + s2).drop_last() =~= s1 + s2.drop_last());
        lemma_paint_snoc(m, s1 + s2.drop_last(), s2.last(), c);
        lemma_paint_snoc(paint(m, s1, c), s2.drop_last(), s2.last(), c);
        assert((s1 + s2.drop_last()).push(s2.last()) =~= s1 + s2);
    }
}

/// Painting never adds or removes positions: the domain stays the
/// canvas rectangle.
pub proof fn lemma_paint_dom(m: Map<(int, int), Color>, s: Seq<(int, int)>, c: Color)
    ensures
        paint(m, s, c).dom() == m.dom(),
    decreases s.len(),
{
    if s.len() > 0 {
        lemma_paint_dom(m, s.drop_last(), c);
        lemma_paint_snoc(m, s.drop_last(), s.last(), c);
        assert(s.drop_last().push(s.last()) =~= s);
        assert(paint(m, s, c).dom() =~= m.dom());
    }
}

/// A position that a sequence does not touch keeps its color.
pub proof fn lemma_paint_frame(m: Map<(int, int), Color>, s: Seq<(int, int)>, c: Color, p: (int, int))
    requires
        !s.contains(p),
    ensures
        paint(m, s, c).dom() == m.dom(),
        m.dom().contains(p) ==> paint(m, s, c)[p] == m[p],
    decreases s.len(),
{
    lemma_paint_dom(m, s, c);
    if s.len() > 0 {
        assert(!s.drop_last().contains(p)) by {
            if s.drop_last().contains(p) {
                let i = choose|i: int| 0 <= i < s.drop_last().len() && s.drop_last()[i] == p;
                assert(s[i] == p);
            }
        }
        assert(s.last() != p) by {
            assert(s[s.len() - 1] == s.last());
        }
        lemma_paint_frame(m, s.drop_last(), c, p);
        lemma_paint_snoc(m, s.drop_last(), s.last(), c);
        assert(s.drop_last().push(s.last()) =~= s);
    }
}

/// A position that a sequence touches ends up with the painting color,
/// provided it lies on the canvas.
pub proof fn lemma_paint_covers(m: Map<(int, int), Color>, s: Seq<(int, int)>, c: Color, p: (int, int))
    requires
        s.contains(p),
        m.dom().contains(p),
    ensures
        paint(m, s, c)[p] == c,
    decreases s.len(),
{
    lemma_paint_dom(m, s.drop_last(), c);
    lemma_paint_snoc(m, s.drop_last(), s.last(), c);
    assert(s.drop_last().push(s.last()) =~= s);
    if s.last() == p {
        assert(paint(m, s, c) == write1(paint(m, s.drop_last(), c), p, c));
    } else {
        let i = choose|i: int| 0 <= i < s.len() && s[i] == p;
        assert(s.drop_last()[i] == p);
        lemma_paint_covers(m, s.drop_last(), c, p);
    }
}

/// Painting the same positions with the same color twice leaves the
/// canvas exactly as painting them once: pixel writes overwrite, they do
/// not accumulate. Every shape with a fixed color draws through `paint`,
/// so drawing such a shape twice equals drawing it once.
pub proof fn lemma_paint_idempotent(m: Map<(int, int), Color>, s: Seq<(int, int)>, c: Color)
    ensures
        paint(paint(m, s, c), s, c) == paint(m, s, c),
{
    let m1 = paint(m, s, c);
    let m2 = paint(m1, s, c);
    lemma_paint_dom(m, s, c);
    lemma_paint_dom(m1, s, c);
    assert(m2 =~= m1) by {
        assert forall|p: (int, int)| #[trigger] m1.dom().contains(p) implies m2[p] == m1[p] by {
            if s.contains(p) {
                lemma_paint_covers(m, s, c, p);
                lemma_paint_covers(m1, s, c, p);
            } else {
                lemma_paint_frame(m1, s, c, p);
            }
        }
    }
}

/// A position inside the rectangle has its row-major index inside the
/// buffer.
proof fn lemma_row_major_index_bound(w: int, h: int, x: int, y: int)
    requires
        0 <= x < w,
        0 <= y < h,
    ensures
        0 <= y * w + x < w * h,
{
    assert(0 <= y * w + x < w * h) by (nonlinear_arith)
        requires
            0 <= x < w,
            0 <= y < h,
    ;
}

/// Distinct positions in the rectangle have distinct row-major indices.
proof fn lemma_row_major_index_injective(w: int, x0: int, y0: int, x1: int, y1: int)
    requires
        0 <= x0 < w,
        0 <= x1 < w,
        (x0, y0) != (x1, y1),
    ensures
        y0 * w + x0 != y1 * w + x1,
{
    assert(y0 * w + x0 != y1 * w + x1) by (nonlinear_arith)
        requires
            0 <= x0 < w,
            0 <= x1 < w,
            !(x0 == x1 && y0 == y1),
    ;
}

} // verus!
