//! A committed or in-progress stroke: an ordered, non-empty sequence of
//! points plus a bounding box kept incrementally equal to the smallest
//! axis-aligned box containing every point.

use vstd::prelude::*;
use crate::geometry::Box;
use crate::geometry::Point;
use crate::intersect::polyline_hits;
use crate::intersect::segments_intersect;
use crate::intersect::segs_intersect;

verus! {

/// A sequence of points; no thickness information attached.
/// The bounding box lets a caller quickly discard curves that are nowhere
/// near a query region before running an exact test over every point.
pub struct Curve {
    points: Vec<Point>,
    bounding_box: Box,
}

impl View for Curve {
    type V = Seq<Point>;

    closed spec fn view(&self) -> Seq<Point> {
        self.points@
    }
}

impl Curve {
    /// The bounding box that is maintained alongside the points.
    pub closed spec fn bbox(&self) -> Box {
        self.bounding_box
    }

    /// Validity: at least one point, and the bounding box is exactly the
    /// smallest axis-aligned box containing every point — it contains each
    /// of them, and each of its four corner coordinates is attained by some
    /// point.
    pub open spec fn wf(&self) -> bool {
        &&& self@.len() >= 1
        &&& self.bbox().wf()
        &&& forall|i: int| 0 <= i < self@.len() ==> self.bbox().spec_contains(#[trigger] self@[i])
        &&& exists|i: int| 0 <= i < self@.len() && (#[trigger] self@[i]).x == self.bbox().p1.x
        &&& exists|i: int| 0 <= i < self@.len() && (#[trigger] self@[i]).y == self.bbox().p1.y
        &&& exists|i: int| 0 <= i < self@.len() && (#[trigger] self@[i]).x == self.bbox().p2.x
        &&& exists|i: int| 0 <= i < self@.len() && (#[trigger] self@[i]).y == self.bbox().p2.y
    }

    /// A one-point curve; its bounding box is the degenerate box at that
    /// point.
    pub fn new(first_point: Point) -> (c: Curve)
        ensures
            c@ == seq![first_point],
            c.bbox() == (Box { p1: first_point, p2: first_point }),
            c.wf(),
    {
        let mut points: Vec<Point> = Vec::new();
        points.push(first_point);
        let c = Curve { points, bounding_box: Box::at_point(first_point) };
        proof {
            assert(c@ =~= seq![first_point]);
            assert(c@[0] == first_point);
        }
        c
    }

    /// Appends `p` and expands the bounding box exactly as much as needed to
    /// keep it the smallest box containing every point.
    pub fn add_point(&mut self, p: Point)
        requires
            old(self).wf(),
        ensures
            final(self)@ == old(self)@.push(p),
            final(self).bbox() == old(self).bbox().spec_expand(p),
            final(self).wf(),
    {
        let ghost old_pts = self.points@;
        let ghost old_box = self.bounding_box;
        self.points.push(p);
        self.bounding_box.expand_to_contain(p);
        proof {
            let n: int = self@.len() as int;
            assert(self@[n - 1] == p);
            assert forall|i: int| 0 <= i < n implies self.bbox().spec_contains(
                #[trigger] self@[i],
            ) by {
                if i < n - 1 {
                    assert(self@[i] == old_pts[i]);
                    assert(old_box.spec_contains(old_pts[i]));
                }
            }
            if p.x <= old_box.p1.x {
                assert(self@[n - 1].x == self.bbox().p1.x);
            } else {
                let i: int = choose|i: int| 0 <= i < old_pts.len() && old_pts[i].x == old_box.p1.x;
                assert(self@[i].x == self.bbox().p1.x);
            }
            if p.y <= old_box.p1.y {
                assert(self@[n - 1].y == self.bbox().p1.y);
            } else {
                let i: int = choose|i: int| 0 <= i < old_pts.len() && old_pts[i].y == old_box.p1.y;
                assert(self@[i].y == self.bbox().p1.y);
            }
            if p.x >= old_box.p2.x {
                assert(self@[n - 1].x == self.bbox().p2.x);
            } else {
                let i: int = choose|i: int| 0 <= i < old_pts.len() && old_pts[i].x == old_box.p2.x;
                assert(self@[i].x == self.bbox().p2.x);
            }
            if p.y >= old_box.p2.y {
                assert(self@[n - 1].y == self.bbox().p2.y);
            } else {
                let i: int = choose|i: int| 0 <= i < old_pts.len() && old_pts[i].y == old_box.p2.y;
                assert(self@[i].y == self.bbox().p2.y);
            }
        }
    }

    /// The bounding box, for diagnostic overlays and fast-reject filtering.
    pub fn bounding_box(&self) -> (b: Box)
        ensures
            b == self.bbox(),
    {
        self.bounding_box
    }

    /// How many points the curve holds.
    pub fn len(&self) -> (n: usize)
        ensures
            n == self@.len(),
    {
        self.points.len()
    }

    /// The point at position `i`.
    pub fn point_at(&self, i: usize) -> (p: Point)
        requires
            i < self@.len(),
        ensures
            p == self@[i as int],
    {
        self.points[i]
    }

    /// A copy of the ordered point sequence.
    pub fn points(&self) -> (r: Vec<Point>)
        ensures
            r@ == self@,
    {
        let mut r: Vec<Point> = Vec::new();
        let mut i: usize = 0;
        while i < self.points.len()
            invariant
                i <= self.points.len(),
                r@ == self.points@.take(i as int),
            decreases self.points.len() - i,
        {
            r.push(self.points[i]);
            proof {
                assert(r@ =~= self.points@.take(i + 1 as int));
            }
            i = i + 1;
        }
        proof {
            assert(r@ =~= self@);
        }
        r
    }

    /// Does the polyline of this curve share at least one point with the
    /// segment `[q1, q2]`? Exact: every consecutive pair of points is
    /// tested; the bounding box plays no part in the answer.
    pub fn intersects_segment(&self, q1: Point, q2: Point) -> (r: bool)
        ensures
            r == polyline_hits(self@, q1, q2),
    {
        if self.points.len() == 0 {
            return false;
        }
        let mut i: usize = 0;
        while i + 1 < self.points.len()
            invariant
                i + 1 <= self.points.len(),
                forall|j: int|
                    0 <= j < i ==> !(#[trigger] segs_intersect(
                        self.points@[j],
                        self.points@[j + 1],
                        q1,
                        q2,
                    )),
            decreases self.points.len() - i,
        {
            if segments_intersect(self.points[i], self.points[i + 1], q1, q2) {
                proof {
                    assert(segs_intersect(self@[i as int], self@[i + 1], q1, q2));
                }
                return true;
            }
            i = i + 1;
        }
        false
    }

    /// The consecutive segments of the polyline, in drawing order: one pair
    /// of endpoints for every window of two neighbouring points.
    pub fn segments(&self) -> (r: Vec<(Point, Point)>)
        requires
            self@.len() >= 1,
        ensures
            r@.len() == self@.len() - 1,
            forall|i: int|
                0 <= i < r@.len() ==> (#[trigger] r@[i]).0 == self@[i] && r@[i].1 == self@[i + 1],
    {
        let mut r: Vec<(Point, Point)> = Vec::new();
        let mut i: usize = 0;
        while i + 1 < self.points.len()
            invariant
                self.points.len() >= 1,
                i <= self.points.len() - 1,
                r@.len() == i,
                forall|j: int|
                    0 <= j < i ==> (#[trigger] r@[j]).0 == self.points@[j] && r@[j].1
                        == self.points@[j + 1],
            decreases self.points.len() - i,
        {
            r.push((self.points[i], self.points[i + 1]));
            i = i + 1;
        }
        r
    }
}

} // verus!
