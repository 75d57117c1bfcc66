use cloth::{Canvas, Cloth, Color, Target, SUBPIXELS};

const S: i32 = SUBPIXELS as i32;

fn rect(cloth: &mut Cloth<Canvas>, x0: i32, y0: i32, x1: i32, y1: i32) {
    cloth.begin_path();
    cloth.move_to(x0, y0);
    cloth.line_to(x1, y0);
    cloth.line_to(x1, y1);
    cloth.line_to(x0, y1);
    cloth.close_path();
}

fn snapshot(c: &Canvas) -> Vec<Color> {
    let mut v = Vec::new();
    for y in 0..c.height() {
        for x in 0..c.width() {
            v.push(c.get_pixel(x, y));
        }
    }
    v
}

#[test]
fn new_canvas_is_transparent() {
    let c = Canvas::new(3, 2);
    assert_eq!(c.width(), 3);
    assert_eq!(c.height(), 2);
    assert!(snapshot(&c).iter().all(|p| *p == [0, 0, 0, 0]));
}

#[test]
fn canvas_set_then_get() {
    let mut c = Canvas::new(4, 4);
    c.set_pixel(3, 2, [1, 2, 3, 4]);
    assert_eq!(c.get_pixel(3, 2), [1, 2, 3, 4]);
    assert_eq!(c.get_pixel(2, 3), [0, 0, 0, 0]);
}

#[test]
fn into_target_returns_surface() {
    let mut c = Canvas::new(2, 2);
    c.set_pixel(1, 1, [9, 9, 9, 9]);
    let cloth = Cloth::new(c);
    let back = cloth.into_target();
    assert_eq!(back.get_pixel(1, 1), [9, 9, 9, 9]);
    assert_eq!(back.width(), 2);
}

#[test]
fn default_fill_is_opaque_black() {
    let mut cloth = Cloth::new(Canvas::new(4, 4));
    rect(&mut cloth, 0, 0, 2 * S, 2 * S);
    cloth.fill();
    let c = cloth.into_target();
    assert_eq!(c.get_pixel(1, 1), [0, 0, 0, 255]);
    assert_eq!(c.get_pixel(2, 2), [0, 0, 0, 0]);
}

#[test]
fn opaque_rectangle_fills_exactly_its_pixels() {
    let mut cloth = Cloth::new(Canvas::new(10, 10));
    cloth.set_fill([10, 20, 30, 255]);
    rect(&mut cloth, 2 * S, 3 * S, 6 * S, 8 * S);
    cloth.fill();
    let c = cloth.into_target();
    for y in 0..10 {
        for x in 0..10 {
            let inside = (2..6).contains(&x) && (3..8).contains(&y);
            let want = if inside { [10, 20, 30, 255] } else { [0, 0, 0, 0] };
            assert_eq!(c.get_pixel(x, y), want, "pixel {} {}", x, y);
        }
    }
}

#[test]
fn fill_without_close_closes_the_path() {
    let mut cloth = Cloth::new(Canvas::new(6, 6));
    cloth.set_fill([1, 1, 1, 255]);
    cloth.begin_path();
    cloth.move_to(S, S);
    cloth.line_to(4 * S, S);
    cloth.line_to(4 * S, 4 * S);
    cloth.line_to(S, 4 * S);
    cloth.fill();
    let c = cloth.into_target();
    assert_eq!(c.get_pixel(1, 1), [1, 1, 1, 255]);
    assert_eq!(c.get_pixel(3, 3), [1, 1, 1, 255]);
    assert_eq!(c.get_pixel(4, 4), [0, 0, 0, 0]);
}

#[test]
fn fill_twice_paints_the_same_path_twice() {
    let fill: Color = [255, 0, 0, 127];
    let mut once_more = Cloth::new(Canvas::new(8, 8));
    once_more.set_fill(fill);
    rect(&mut once_more, S + S / 2, S, 6 * S + S / 4, 6 * S);
    once_more.fill();
    once_more.fill();

    let mut rebuilt = Cloth::new(Canvas::new(8, 8));
    rebuilt.set_fill(fill);
    rect(&mut rebuilt, S + S / 2, S, 6 * S + S / 4, 6 * S);
    rebuilt.fill();
    rect(&mut rebuilt, S + S / 2, S, 6 * S + S / 4, 6 * S);
    rebuilt.fill();

    assert_eq!(snapshot(&once_more.into_target()), snapshot(&rebuilt.into_target()));
}

#[test]
fn fill_twice_writes_the_same_pixel_set() {
    let mut cloth = Cloth::new(Canvas::new(8, 8));
    cloth.set_fill([0, 0, 255, 100]);
    rect(&mut cloth, S, 2 * S, 5 * S, 7 * S);
    cloth.fill();
    let first = snapshot(&cloth.into_target());
    let mut cloth = Cloth::new(Canvas::new(8, 8));
    cloth.set_fill([0, 0, 255, 100]);
    rect(&mut cloth, S, 2 * S, 5 * S, 7 * S);
    cloth.fill();
    cloth.fill();
    let second = snapshot(&cloth.into_target());
    for i in 0..64 {
        assert_eq!(first[i] == [0, 0, 0, 0], second[i] == [0, 0, 0, 0]);
    }
}

#[test]
fn fractional_edges_are_antialiased() {
    let mut cloth = Cloth::new(Canvas::new(6, 3));
    cloth.set_fill([255, 255, 255, 255]);
    // x from 1.5 to 3.25 pixels, rows 0 and 1
    rect(&mut cloth, S + S / 2, 0, 3 * S + S / 4, 2 * S);
    cloth.fill();
    let c = cloth.into_target();
    for y in 0..2 {
        assert_eq!(c.get_pixel(0, y), [0, 0, 0, 0]);
        assert_eq!(c.get_pixel(1, y), [255, 255, 255, 128]);
        assert_eq!(c.get_pixel(2, y), [255, 255, 255, 255]);
        assert_eq!(c.get_pixel(3, y), [255, 255, 255, 64]);
        assert_eq!(c.get_pixel(4, y), [0, 0, 0, 0]);
    }
    assert_eq!(c.get_pixel(2, 2), [0, 0, 0, 0]);
}

#[test]
fn narrow_span_takes_left_edge_coverage() {
    let mut cloth = Cloth::new(Canvas::new(4, 1));
    cloth.set_fill([255, 255, 255, 255]);
    // x from 1.25 to 1.75 pixels: one column; left coverage 0.75
    rect(&mut cloth, S + S / 4, 0, S + 3 * S / 4, S);
    cloth.fill();
    let c = cloth.into_target();
    assert_eq!(c.get_pixel(1, 0), [255, 255, 255, 191]);
    assert_eq!(c.get_pixel(0, 0), [0, 0, 0, 0]);
    assert_eq!(c.get_pixel(2, 0), [0, 0, 0, 0]);
}

#[test]
fn path_beyond_surface_fills_only_the_overlap() {
    let mut cloth = Cloth::new(Canvas::new(5, 4));
    cloth.set_fill([7, 7, 7, 255]);
    rect(&mut cloth, -3 * S - S / 3, -10 * S, 3 * S, 100 * S);
    cloth.fill();
    let c = cloth.into_target();
    for y in 0..4 {
        for x in 0..5 {
            let want = if x < 3 { [7, 7, 7, 255] } else { [0, 0, 0, 0] };
            assert_eq!(c.get_pixel(x, y), want, "pixel {} {}", x, y);
        }
    }
}

#[test]
fn path_covering_everything_and_more() {
    let mut cloth = Cloth::new(Canvas::new(3, 3));
    cloth.set_fill([1, 2, 3, 255]);
    rect(&mut cloth, i32::MIN, i32::MIN, i32::MAX, i32::MAX);
    cloth.fill();
    let c = cloth.into_target();
    assert!(snapshot(&c).iter().all(|p| *p == [1, 2, 3, 255]));
}

#[test]
fn path_entirely_off_surface_paints_nothing() {
    let mut cloth = Cloth::new(Canvas::new(4, 4));
    rect(&mut cloth, 10 * S, 10 * S, 20 * S, 20 * S);
    cloth.fill();
    rect(&mut cloth, -20 * S, -20 * S, -10 * S, -10 * S);
    cloth.fill();
    assert!(snapshot(&cloth.into_target()).iter().all(|p| *p == [0, 0, 0, 0]));
}

#[test]
fn empty_surface_and_empty_path() {
    let mut cloth = Cloth::new(Canvas::new(0, 0));
    rect(&mut cloth, 0, 0, 5 * S, 5 * S);
    cloth.fill();
    let mut cloth = Cloth::new(Canvas::new(3, 3));
    cloth.begin_path();
    cloth.fill();
    cloth.move_to(S, S);
    cloth.fill();
    assert!(snapshot(&cloth.into_target()).iter().all(|p| *p == [0, 0, 0, 0]));
}

#[test]
fn figure_eight_fills_paired_spans() {
    let mut cloth = Cloth::new(Canvas::new(8, 8));
    cloth.set_fill([0, 0, 0, 255]);
    cloth.begin_path();
    cloth.move_to(0, 0);
    cloth.line_to(8 * S, 8 * S);
    cloth.line_to(8 * S, 0);
    cloth.line_to(0, 8 * S);
    cloth.close_path();
    cloth.fill();
    let c = cloth.into_target();
    // row 1 samples y = 1.5: spans [0, 1.5] and [6.5, 8]
    assert_eq!(c.get_pixel(0, 1), [0, 0, 0, 255]);
    assert_eq!(c.get_pixel(1, 1), [0, 0, 0, 128]);
    assert_eq!(c.get_pixel(4, 1), [0, 0, 0, 0]);
    assert_eq!(c.get_pixel(6, 1), [0, 0, 0, 128]);
    assert_eq!(c.get_pixel(7, 1), [0, 0, 0, 255]);
}

#[test]
fn unpaired_crossing_is_dropped() {
    let mut cloth = Cloth::new(Canvas::new(10, 8));
    cloth.set_fill([0, 0, 0, 255]);
    cloth.begin_path();
    cloth.move_to(0, 0);
    cloth.line_to(4 * S, 8 * S);
    cloth.move_to(8 * S, 0);
    cloth.line_to(8 * S, 8 * S);
    cloth.fill();
    let c = cloth.into_target();
    // row 4 samples y = 4.5: crossings 2.25, 8, 8; only [2.25, 8] is a span
    assert_eq!(c.get_pixel(1, 4), [0, 0, 0, 0]);
    assert_eq!(c.get_pixel(2, 4), [0, 0, 0, 191]);
    assert_eq!(c.get_pixel(5, 4), [0, 0, 0, 255]);
    assert_eq!(c.get_pixel(7, 4), [0, 0, 0, 255]);
    assert_eq!(c.get_pixel(8, 4), [0, 0, 0, 0]);
    assert_eq!(c.get_pixel(9, 4), [0, 0, 0, 0]);
}

#[test]
fn overlapping_translucent_rectangles() {
    let mut cloth = Cloth::new(Canvas::new(250, 310));
    cloth.set_fill([255, 0, 0, 127]);
    rect(&mut cloth, 0, 0, 200 * S, 200 * S);
    cloth.fill();
    cloth.set_fill([0, 255, 0, 127]);
    rect(&mut cloth, 50 * S, 0, 250 * S, 200 * S);
    cloth.fill();
    let c = cloth.into_target();
    assert_eq!(c.get_pixel(10, 10), [255, 0, 0, 127]);
    assert_eq!(c.get_pixel(100, 100), [85, 170, 0, 191]);
    assert_eq!(c.get_pixel(199, 199), [85, 170, 0, 191]);
    assert_eq!(c.get_pixel(220, 50), [0, 255, 0, 127]);
    assert_eq!(c.get_pixel(249, 199), [0, 255, 0, 127]);
    assert_eq!(c.get_pixel(100, 200), [0, 0, 0, 0]);
    assert_eq!(c.get_pixel(100, 309), [0, 0, 0, 0]);
}
