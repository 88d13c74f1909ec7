use freehand::Canvas;
use freehand::Curve;
use freehand::Point;

fn pt(x: i32, y: i32) -> Point {
    Point { x, y }
}

/// Draws the polyline through `pts` as one committed stroke.
fn draw(canvas: &mut Canvas, pts: &[Point]) {
    canvas.begin_stroke(pts[0]).unwrap();
    for p in &pts[1..] {
        canvas.continue_stroke(*p).unwrap();
    }
    canvas.end_stroke().unwrap();
}

#[test]
fn commit_threshold_single_point_discarded() {
    let mut c = Canvas::new();
    c.begin_stroke(pt(0, 0)).unwrap();
    c.end_stroke().unwrap();
    assert_eq!(c.render().len(), 0);
}

#[test]
fn commit_threshold_two_points_kept() {
    let mut c = Canvas::new();
    c.begin_stroke(pt(0, 0)).unwrap();
    c.continue_stroke(pt(1, 1)).unwrap();
    c.end_stroke().unwrap();
    let visible = c.render();
    assert_eq!(visible.len(), 1);
    assert_eq!(visible[0], vec![pt(0, 0), pt(1, 1)]);
}

#[test]
fn stroke_protocol_errors() {
    let mut c = Canvas::new();
    assert!(c.continue_stroke(pt(0, 0)).is_err());
    assert!(c.end_stroke().is_err());
    c.begin_stroke(pt(0, 0)).unwrap();
    c.continue_stroke(pt(1, 1)).unwrap();
    // beginning again fails and does not discard the accumulated points
    assert!(c.begin_stroke(pt(9, 9)).is_err());
    let visible = c.render();
    assert_eq!(visible.len(), 1);
    assert_eq!(visible[0], vec![pt(0, 0), pt(1, 1)]);
    c.end_stroke().unwrap();
    assert_eq!(c.render(), vec![vec![pt(0, 0), pt(1, 1)]]);
}

#[test]
fn stroke_in_progress_query() {
    let mut c = Canvas::new();
    assert!(!c.is_stroke_in_progress());
    c.begin_stroke(pt(0, 0)).unwrap();
    assert!(c.is_stroke_in_progress());
    c.end_stroke().unwrap();
    assert!(!c.is_stroke_in_progress());
}

#[test]
fn erase_deletes_crossed_curve() {
    let mut c = Canvas::new();
    draw(&mut c, &[pt(0, 0), pt(10, 0)]);
    c.begin_erasure(pt(5, -5)).unwrap();
    c.continue_erasure(pt(5, 5)).unwrap();
    c.end_erasure().unwrap();
    assert_eq!(c.render().len(), 0);
}

#[test]
fn erase_spares_distant_curve() {
    let mut c = Canvas::new();
    draw(&mut c, &[pt(0, 100), pt(10, 100)]);
    c.begin_erasure(pt(5, -5)).unwrap();
    c.continue_erasure(pt(5, 5)).unwrap();
    c.end_erasure().unwrap();
    assert_eq!(c.render(), vec![vec![pt(0, 100), pt(10, 100)]]);
}

#[test]
fn erase_touching_counts_as_intersecting() {
    let mut c = Canvas::new();
    draw(&mut c, &[pt(0, 0), pt(10, 0)]);
    // the sweep only touches the curve at its endpoint (10,0)
    c.begin_erasure(pt(10, 0)).unwrap();
    c.continue_erasure(pt(20, 10)).unwrap();
    assert_eq!(c.render().len(), 0);
}

#[test]
fn begin_erasure_deletes_nothing() {
    let mut c = Canvas::new();
    draw(&mut c, &[pt(0, 0), pt(10, 0)]);
    c.begin_erasure(pt(5, 0)).unwrap();
    assert_eq!(c.render().len(), 1);
}

#[test]
fn erase_protocol_errors() {
    let mut c = Canvas::new();
    assert!(c.continue_erasure(pt(0, 0)).is_err());
    assert!(c.end_erasure().is_err());
    c.begin_erasure(pt(0, 0)).unwrap();
    assert!(c.begin_erasure(pt(1, 1)).is_err());
    assert!(c.is_erasure_in_progress());
    c.end_erasure().unwrap();
    assert!(!c.is_erasure_in_progress());
}

#[test]
fn draw_and_erase_sessions_are_independent() {
    let mut c = Canvas::new();
    c.begin_stroke(pt(0, 0)).unwrap();
    c.begin_erasure(pt(5, 5)).unwrap();
    assert!(c.is_stroke_in_progress());
    assert!(c.is_erasure_in_progress());
    c.end_erasure().unwrap();
    assert!(c.is_stroke_in_progress());
    c.end_stroke().unwrap();
}

#[test]
fn render_is_idempotent() {
    let mut c = Canvas::new();
    draw(&mut c, &[pt(0, 0), pt(5, 5), pt(10, 0)]);
    draw(&mut c, &[pt(20, 20), pt(30, 30)]);
    c.begin_stroke(pt(50, 50)).unwrap();
    c.continue_stroke(pt(60, 60)).unwrap();
    let first = c.render();
    let second = c.render();
    assert_eq!(first, second);
    assert_eq!(first.len(), 3);
    assert_eq!(first[2], vec![pt(50, 50), pt(60, 60)]);
}

#[test]
fn render_lists_curves_in_insertion_order() {
    let mut c = Canvas::new();
    draw(&mut c, &[pt(0, 0), pt(1, 0)]);
    draw(&mut c, &[pt(0, 1), pt(1, 1)]);
    draw(&mut c, &[pt(0, 2), pt(1, 2)]);
    let visible = c.render();
    assert_eq!(visible[0][0], pt(0, 0));
    assert_eq!(visible[1][0], pt(0, 1));
    assert_eq!(visible[2][0], pt(0, 2));
}

#[test]
fn erase_is_order_independent() {
    // Three curves; the eraser sweep along x = 5 crosses the first two and
    // misses the third. Whatever order they were drawn in, the same set of
    // curves survives.
    let curves: [&[Point]; 3] = [
        &[pt(0, 0), pt(10, 0)],
        &[pt(0, 2), pt(10, 2)],
        &[pt(100, 0), pt(110, 0)],
    ];
    let orders: [[usize; 3]; 3] = [[0, 1, 2], [2, 1, 0], [1, 2, 0]];
    let mut survivors: Vec<Vec<Vec<Point>>> = Vec::new();
    for order in &orders {
        let mut c = Canvas::new();
        for &i in order {
            draw(&mut c, curves[i]);
        }
        c.begin_erasure(pt(5, -5)).unwrap();
        c.continue_erasure(pt(5, 5)).unwrap();
        let mut visible = c.render();
        visible.sort_by_key(|poly| (poly[0].x, poly[0].y));
        survivors.push(visible);
    }
    assert_eq!(survivors[0], vec![vec![pt(100, 0), pt(110, 0)]]);
    assert_eq!(survivors[0], survivors[1]);
    assert_eq!(survivors[0], survivors[2]);
}

#[test]
fn multi_segment_curve_erased_by_any_segment_hit() {
    let mut c = Canvas::new();
    // an L-shaped curve; the sweep crosses only its second leg
    draw(&mut c, &[pt(0, 0), pt(10, 0), pt(10, 10)]);
    c.begin_erasure(pt(5, 5)).unwrap();
    c.continue_erasure(pt(15, 5)).unwrap();
    assert_eq!(c.render().len(), 0);
}

#[test]
fn eraser_position_moves_with_each_step() {
    let mut c = Canvas::new();
    draw(&mut c, &[pt(0, 10), pt(10, 10)]);
    c.begin_erasure(pt(5, 0)).unwrap();
    // first step goes right, missing the curve
    c.continue_erasure(pt(20, 0)).unwrap();
    assert_eq!(c.render().len(), 1);
    // second step sweeps up from (20,0), still missing it
    c.continue_erasure(pt(20, 20)).unwrap();
    assert_eq!(c.render().len(), 1);
    // third step sweeps back across the curve
    c.continue_erasure(pt(5, 5)).unwrap();
    assert_eq!(c.render().len(), 0);
}

#[test]
fn curve_accumulates_points_and_bounding_box() {
    let mut curve = Curve::new(pt(3, 4));
    assert_eq!(curve.len(), 1);
    curve.add_point(pt(-1, 10));
    curve.add_point(pt(5, 0));
    assert_eq!(curve.len(), 3);
    assert_eq!(curve.point_at(0), pt(3, 4));
    assert_eq!(curve.point_at(2), pt(5, 0));
    assert_eq!(curve.points(), vec![pt(3, 4), pt(-1, 10), pt(5, 0)]);
}

#[test]
fn curve_segments_are_consecutive_windows() {
    let mut curve = Curve::new(pt(0, 0));
    curve.add_point(pt(1, 1));
    curve.add_point(pt(2, 0));
    let segs = curve.segments();
    assert_eq!(segs, vec![(pt(0, 0), pt(1, 1)), (pt(1, 1), pt(2, 0))]);
    let single = Curve::new(pt(9, 9));
    assert_eq!(single.segments(), vec![]);
}

#[test]
fn curve_intersection_is_exact_not_bounding_box() {
    // A V-shaped curve whose bounding box covers (0,0)-(10,5); a segment
    // inside the box but missing both legs must not count as a hit.
    let mut curve = Curve::new(pt(0, 0));
    curve.add_point(pt(5, 5));
    curve.add_point(pt(10, 0));
    assert!(!curve.intersects_segment(pt(4, 0), pt(6, 0)));
    assert!(curve.intersects_segment(pt(5, 0), pt(5, 10)));
}

#[test]
fn bounding_boxes_track_visible_curves() {
    let mut c = Canvas::new();
    draw(&mut c, &[pt(0, 0), pt(10, 5)]);
    c.begin_stroke(pt(25, 30)).unwrap();
    c.continue_stroke(pt(20, 20)).unwrap();
    let boxes = c.bounding_boxes();
    assert_eq!(boxes.len(), 2);
    assert_eq!(boxes[0].p1, pt(0, 0));
    assert_eq!(boxes[0].p2, pt(10, 5));
    assert_eq!(boxes[1].p1, pt(20, 20));
    assert_eq!(boxes[1].p2, pt(25, 30));
}

#[test]
fn default_canvas_is_empty() {
    let c = Canvas::default();
    assert_eq!(c.render().len(), 0);
    assert!(!c.is_stroke_in_progress());
    assert!(!c.is_erasure_in_progress());
}
