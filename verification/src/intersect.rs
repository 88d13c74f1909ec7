//! Exact segment/segment and polyline/segment intersection on the integer
//! grid, via orientation (cross product) tests. Touching at a single shared
//! point counts as intersecting: containment is boundary inclusive.

use vstd::prelude::*;
use vstd::math::max;
use vstd::math::min;
use crate::geometry::Point;
use crate::geometry::mul_wide;

verus! {

/// Twice the signed area of the triangle `a b c`: positive when `c` lies to
/// the left of the directed line from `a` to `b`, zero when collinear.
pub open spec fn orient(a: Point, b: Point, c: Point) -> int {
    (b.x - a.x) * (c.y - a.y) - (b.y - a.y) * (c.x - a.x)
}

/// For `c` collinear with `a` and `b`: `c` lies on the segment `[a, b]` iff
/// it lies within the segment's axis-aligned span.
pub open spec fn within_span(a: Point, b: Point, c: Point) -> bool {
    min(a.x as int, b.x as int) <= c.x <= max(a.x as int, b.x as int) && min(
        a.y as int,
        b.y as int,
    ) <= c.y <= max(a.y as int, b.y as int)
}

/// The segments `[p1, p2]` and `[q1, q2]` share at least one point,
/// endpoints included: either each segment's endpoints lie strictly on
/// opposite sides of the other's line, or some endpoint lies on the other
/// segment.
pub open spec fn segs_intersect(p1: Point, p2: Point, q1: Point, q2: Point) -> bool {
    let d1 = orient(q1, q2, p1);
    let d2 = orient(q1, q2, p2);
    let d3 = orient(p1, p2, q1);
    let d4 = orient(p1, p2, q2);
    ||| (((d1 > 0 && d2 < 0) || (d1 < 0 && d2 > 0)) && ((d3 > 0 && d4 < 0) || (d3 < 0 && d4 > 0)))
    ||| (d1 == 0 && within_span(q1, q2, p1))
    ||| (d2 == 0 && within_span(q1, q2, p2))
    ||| (d3 == 0 && within_span(p1, p2, q1))
    ||| (d4 == 0 && within_span(p1, p2, q2))
}

/// The connected polyline through the points of `s` shares at least one
/// point with the segment `[q1, q2]`.
pub open spec fn polyline_hits(s: Seq<Point>, q1: Point, q2: Point) -> bool {
    exists|i: int|
        0 <= i < s.len() - 1 && #[trigger] segs_intersect(s[i], s[i + 1], q1, q2)
}

/// The orientation value, computed exactly in wide arithmetic.
fn orient_val(a: Point, b: Point, c: Point) -> (r: i128)
    ensures
        r == orient(a, b, c),
{
    let abx: i64 = b.x as i64 - a.x as i64;
    let aby: i64 = b.y as i64 - a.y as i64;
    let acx: i64 = c.x as i64 - a.x as i64;
    let acy: i64 = c.y as i64 - a.y as i64;
    mul_wide(abx, acy) - mul_wide(aby, acx)
}

/// `c` lies within the axis-aligned span of the segment `[a, b]`.
fn span_contains(a: Point, b: Point, c: Point) -> (r: bool)
    ensures
        r == within_span(a, b, c),
{
    let lo_x: i32 = if a.x <= b.x {
        a.x
    } else {
        b.x
    };
    let hi_x: i32 = if a.x <= b.x {
        b.x
    } else {
        a.x
    };
    let lo_y: i32 = if a.y <= b.y {
        a.y
    } else {
        b.y
    };
    let hi_y: i32 = if a.y <= b.y {
        b.y
    } else {
        a.y
    };
    lo_x <= c.x && c.x <= hi_x && lo_y <= c.y && c.y <= hi_y
}

/// Do the segments `[p1, p2]` and `[q1, q2]` intersect, endpoints included?
pub fn segments_intersect(p1: Point, p2: Point, q1: Point, q2: Point) -> (r: bool)
    ensures
        r == segs_intersect(p1, p2, q1, q2),
{
    let d1 = orient_val(q1, q2, p1);
    let d2 = orient_val(q1, q2, p2);
    let d3 = orient_val(p1, p2, q1);
    let d4 = orient_val(p1, p2, q2);
    if ((d1 > 0 && d2 < 0) || (d1 < 0 && d2 > 0)) && ((d3 > 0 && d4 < 0) || (d3 < 0 && d4 > 0)) {
        true
    } else if d1 == 0 && span_contains(q1, q2, p1) {
        true
    } else if d2 == 0 && span_contains(q1, q2, p2) {
        true
    } else if d3 == 0 && span_contains(p1, p2, q1) {
        true
    } else {
        d4 == 0 && span_contains(p1, p2, q2)
    }
}

} // verus!
