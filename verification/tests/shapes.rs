use geoshapes::canvas::{Canvas, Color, Displayable};
use geoshapes::geometrical_shapes::{Circle, Drawable, Line, Point, Rectangle, Triangle};

fn white() -> Color {
    Color::new(255, 255, 255, 255)
}

fn black() -> Color {
    Color::new(0, 0, 0, 255)
}

#[test]
fn line_writes_steps_plus_one_pixels() {
    let l = Line::new(Point::new(3, 7), Point::new(10, 2));
    let pts = l.points();
    // steps = max(|10 - 3|, |2 - 7|) = 7
    assert_eq!(pts.len(), 8);
    assert_eq!(pts[0], (3, 7));
    assert_eq!(pts[7], (10, 2));
}

#[test]
fn steep_line_endpoints() {
    let l = Line::new(Point::new(0, 0), Point::new(2, -6));
    let pts = l.points();
    assert_eq!(pts.len(), 7);
    assert_eq!(pts[0], (0, 0));
    assert_eq!(pts[6], (2, -6));
}

#[test]
fn zero_length_line_is_one_pixel() {
    let p = Point::new(4, 5);
    let l = Line::new(p, p);
    let pts = l.points();
    assert_eq!(pts, vec![(4, 5)]);
}

#[test]
fn horizontal_line_pixels_in_order() {
    let l = Line::new(Point::new(0, 0), Point::new(5, 0));
    let pts = l.points();
    assert_eq!(pts, vec![(0, 0), (1, 0), (2, 0), (3, 0), (4, 0), (5, 0)]);
}

#[test]
fn diagonal_line_pixels() {
    let l = Line::new(Point::new(0, 0), Point::new(3, 3));
    let pts = l.points();
    assert_eq!(pts, vec![(0, 0), (1, 1), (2, 2), (3, 3)]);
}

#[test]
fn line_rounds_halves_away_from_zero() {
    // x advances by 0.5 per step: 0, 0.5, 1 rounds to 0, 1, 1
    let l = Line::new(Point::new(0, 0), Point::new(1, 2));
    let pts = l.points();
    assert_eq!(pts, vec![(0, 0), (1, 1), (1, 2)]);
}

#[test]
fn line_draw_writes_white_on_canvas() {
    let mut canvas = Canvas::new(8, 8);
    let l = Line::new(Point::new(0, 3), Point::new(4, 3));
    l.draw(&mut canvas);
    let mut x: i32 = 0;
    while x <= 4 {
        assert_eq!(canvas.pixel(x, 3), Some(white()));
        x += 1;
    }
    assert_eq!(canvas.pixel(5, 3), Some(black()));
    assert_eq!(canvas.pixel(2, 2), Some(black()));
}

#[test]
fn point_draw_writes_one_pixel() {
    let mut canvas = Canvas::new(4, 4);
    Point::new(2, 1).draw(&mut canvas);
    let mut y: i32 = 0;
    while y < 4 {
        let mut x: i32 = 0;
        while x < 4 {
            let expected = if (x, y) == (2, 1) { white() } else { black() };
            assert_eq!(canvas.pixel(x, y), Some(expected));
            x += 1;
        }
        y += 1;
    }
}

#[test]
fn out_of_bounds_writes_are_clipped() {
    let mut canvas = Canvas::new(3, 3);
    Point::new(-1, 0).draw(&mut canvas);
    Point::new(0, 7).draw(&mut canvas);
    canvas.display(3, 0, white());
    let mut y: i32 = 0;
    while y < 3 {
        let mut x: i32 = 0;
        while x < 3 {
            assert_eq!(canvas.pixel(x, y), Some(black()));
            x += 1;
        }
        y += 1;
    }
    assert_eq!(canvas.pixel(-1, 0), None);
    assert_eq!(canvas.pixel(3, 0), None);
}

#[test]
fn rectangle_covers_boundary_of_3x3() {
    let mut canvas = Canvas::new(3, 3);
    let r = Rectangle::new(&Point::new(0, 0), &Point::new(2, 2));
    r.draw(&mut canvas);
    let mut y: i32 = 0;
    while y < 3 {
        let mut x: i32 = 0;
        while x < 3 {
            let on_boundary = x == 0 || x == 2 || y == 0 || y == 2;
            let expected = if on_boundary { white() } else { black() };
            assert_eq!(canvas.pixel(x, y), Some(expected), "pixel ({}, {})", x, y);
            x += 1;
        }
        y += 1;
    }
}

#[test]
fn rectangle_handles_any_corner_ordering() {
    let mut canvas = Canvas::new(4, 4);
    // point1 is the bottom-right corner here
    let r = Rectangle::new(&Point::new(3, 3), &Point::new(1, 1));
    r.draw(&mut canvas);
    let mut y: i32 = 1;
    while y <= 3 {
        let mut x: i32 = 1;
        while x <= 3 {
            let on_boundary = x == 1 || x == 3 || y == 1 || y == 3;
            let expected = if on_boundary { white() } else { black() };
            assert_eq!(canvas.pixel(x, y), Some(expected), "pixel ({}, {})", x, y);
            x += 1;
        }
        y += 1;
    }
    assert_eq!(canvas.pixel(0, 0), Some(black()));
}

#[test]
fn triangle_draws_its_three_edges() {
    let mut canvas = Canvas::new(6, 6);
    let t = Triangle::new(&Point::new(0, 0), &Point::new(4, 0), &Point::new(0, 4));
    t.draw(&mut canvas);
    // the three vertices
    assert_eq!(canvas.pixel(0, 0), Some(white()));
    assert_eq!(canvas.pixel(4, 0), Some(white()));
    assert_eq!(canvas.pixel(0, 4), Some(white()));
    // a pixel of each edge
    assert_eq!(canvas.pixel(2, 0), Some(white()));
    assert_eq!(canvas.pixel(0, 2), Some(white()));
    assert_eq!(canvas.pixel(2, 2), Some(white()));
    // inside stays untouched
    assert_eq!(canvas.pixel(1, 1), Some(black()));
}

#[test]
fn circle_pixels_stay_within_one_of_radius() {
    let c = Circle::new(Point::new(10, 10), 5);
    let pts = c.points();
    assert!(!pts.is_empty());
    for p in pts.iter() {
        let dx: i64 = (p.0 - 10) as i64;
        let dy: i64 = (p.1 - 10) as i64;
        let d2: i64 = dx * dx + dy * dy;
        // |dist - 5| <= 1 means (5-1)^2 <= d2 <= (5+1)^2
        assert!(16 <= d2 && d2 <= 36, "pixel {:?} strays from the ring", p);
    }
}

#[test]
fn circle_writes_are_symmetric_groups_of_four() {
    let c = Circle::new(Point::new(10, 10), 5);
    let pts = c.points();
    assert_eq!(pts.len() % 4, 0);
    let mut k: usize = 0;
    while k < pts.len() {
        let (x, y) = pts[k];
        assert_eq!(pts[k + 1], (20 - x, y));
        assert_eq!(pts[k + 2], (x, 20 - y));
        assert_eq!(pts[k + 3], (20 - x, 20 - y));
        k += 4;
    }
}

#[test]
fn circle_radius_zero_writes_center_four_times() {
    let c = Circle::new(Point::new(7, 9), 0);
    let pts = c.points();
    assert_eq!(pts, vec![(7, 9), (7, 9), (7, 9), (7, 9)]);

    let mut canvas = Canvas::new(16, 16);
    c.draw(&mut canvas);
    let mut y: i32 = 0;
    while y < 16 {
        let mut x: i32 = 0;
        while x < 16 {
            if (x, y) == (7, 9) {
                assert!(canvas.pixel(x, y).unwrap().a >= 100);
            } else {
                assert_eq!(canvas.pixel(x, y), Some(black()));
            }
            x += 1;
        }
        y += 1;
    }
}

#[test]
fn circle_negative_radius_draws_nothing() {
    let c = Circle::new(Point::new(5, 5), -3);
    assert!(c.points().is_empty());
    let mut canvas = Canvas::new(10, 10);
    c.draw(&mut canvas);
    let mut y: i32 = 0;
    while y < 10 {
        let mut x: i32 = 0;
        while x < 10 {
            assert_eq!(canvas.pixel(x, y), Some(black()));
            x += 1;
        }
        y += 1;
    }
}

#[test]
fn circle_draw_touches_exactly_its_pixels() {
    let c = Circle::new(Point::new(6, 6), 4);
    let pts = c.points();
    let mut canvas = Canvas::new(13, 13);
    c.draw(&mut canvas);
    let mut y: i32 = 0;
    while y < 13 {
        let mut x: i32 = 0;
        while x < 13 {
            if pts.contains(&(x, y)) {
                assert!(canvas.pixel(x, y).unwrap().a >= 100, "pixel ({}, {})", x, y);
            } else {
                assert_eq!(canvas.pixel(x, y), Some(black()), "pixel ({}, {})", x, y);
            }
            x += 1;
        }
        y += 1;
    }
}

#[test]
fn can_draw_rejects_oversized_circles() {
    assert!(Circle::new(Point::new(10, 10), 5).can_draw());
    assert!(!Circle::new(Point::new(10, 10), 0x4000_0001).can_draw());
    assert!(!Circle::new(Point::new(i32::MAX - 2, 0), 5).can_draw());
    assert!(Circle::new(Point::new(0, 0), 0x4000_0000).can_draw());
}

#[test]
fn drawing_a_line_twice_equals_once() {
    let l = Line::new(Point::new(1, 1), Point::new(8, 4));
    let mut once = Canvas::new(10, 10);
    let mut twice = Canvas::new(10, 10);
    l.draw(&mut once);
    l.draw(&mut twice);
    l.draw(&mut twice);
    let mut y: i32 = 0;
    while y < 10 {
        let mut x: i32 = 0;
        while x < 10 {
            assert_eq!(once.pixel(x, y), twice.pixel(x, y));
            x += 1;
        }
        y += 1;
    }
}

#[test]
fn drawing_a_rectangle_twice_equals_once() {
    let r = Rectangle::new(&Point::new(2, 1), &Point::new(7, 6));
    let mut once = Canvas::new(9, 9);
    let mut twice = Canvas::new(9, 9);
    r.draw(&mut once);
    r.draw(&mut twice);
    r.draw(&mut twice);
    let mut y: i32 = 0;
    while y < 9 {
        let mut x: i32 = 0;
        while x < 9 {
            assert_eq!(once.pixel(x, y), twice.pixel(x, y));
            x += 1;
        }
        y += 1;
    }
}

#[test]
fn default_shape_color_is_white() {
    let l = Line::new(Point::new(0, 0), Point::new(1, 1));
    assert_eq!(l.color(), white());
    let p = Point::new(0, 0);
    assert_eq!(p.color(), white());
}

#[test]
fn circle_color_alpha_is_at_least_100() {
    let c = Circle::new(Point::new(0, 0), 1);
    let mut i: usize = 0;
    while i < 64 {
        let col = c.color();
        assert!(col.a >= 100);
        i += 1;
    }
}

#[test]
fn random_shapes_stay_in_their_ranges() {
    let mut i: usize = 0;
    while i < 64 {
        let p = Point::random(10, 20);
        assert!(0 <= p.x && p.x < 10);
        assert!(0 <= p.y && p.y < 20);
        let l = Line::random(15, 5);
        assert!(0 <= l.start.x && l.start.x < 15);
        assert!(0 <= l.start.y && l.start.y < 5);
        assert!(0 <= l.end.x && l.end.x < 15);
        assert!(0 <= l.end.y && l.end.y < 5);
        let c = Circle::random(10, 20);
        assert!(0 <= c.center.x && c.center.x < 10);
        assert!(0 <= c.center.y && c.center.y < 20);
        assert!(0 <= c.radius && c.radius < 5);
        i += 1;
    }
}

#[test]
fn random_points_are_not_all_equal() {
    let first = Point::random(1000, 1000);
    let mut all_equal = true;
    let mut i: usize = 0;
    while i < 64 {
        if Point::random(1000, 1000) != first {
            all_equal = false;
        }
        i += 1;
    }
    assert!(!all_equal);
}

#[test]
fn canvas_reports_its_dimensions() {
    let canvas = Canvas::new(7, 3);
    assert_eq!(canvas.width(), 7);
    assert_eq!(canvas.height(), 3);
    assert_eq!(canvas.pixel(6, 2), Some(black()));
    assert_eq!(canvas.pixel(7, 0), None);
    assert_eq!(canvas.pixel(0, 3), None);
}

#[test]
fn display_overwrites_previous_color() {
    let mut canvas = Canvas::new(2, 2);
    let red = Color::new(255, 0, 0, 255);
    canvas.display(1, 1, red);
    assert_eq!(canvas.pixel(1, 1), Some(red));
    canvas.display(1, 1, white());
    assert_eq!(canvas.pixel(1, 1), Some(white()));
}
