//! The canvas: the collection of committed curves, the (at most one)
//! stroke being drawn, and the (at most one) erase path being swept, with
//! the begin/continue/end protocols for both tools.

use vstd::prelude::*;
use vstd::multiset::Multiset;
use crate::curve::Curve;
use crate::geometry::Box;
use crate::geometry::Point;
use crate::intersect::polyline_hits;

verus! {

/// Error returned when starting a session (stroke or erasure) while one is
/// already in progress.
#[derive(Debug)]
pub struct AlreadyExists;

/// Error returned when continuing or finishing a session (stroke or
/// erasure) while none is in progress.
#[derive(Debug)]
pub struct DoesntExist;

/// The predicate a committed curve must satisfy to survive an eraser sweep
/// along the segment `[q1, q2]`: its polyline does not intersect the swept
/// segment.
pub open spec fn survives(q1: Point, q2: Point) -> spec_fn(Curve) -> bool {
    |c: Curve| !polyline_hits(c@, q1, q2)
}

/// Owns every committed curve, plus the in-progress stroke and the
/// remembered previous eraser position, each present iff that session is
/// active.
pub struct Canvas {
    curves: Vec<Curve>,
    current_curve: Option<Curve>,
    prev_erase_point: Option<Point>,
}

impl Canvas {
    /// The committed curves, in insertion order.
    pub closed spec fn committed(&self) -> Seq<Curve> {
        self.curves@
    }

    /// The stroke being drawn, if a draw session is active.
    pub closed spec fn in_progress(&self) -> Option<Curve> {
        self.current_curve
    }

    /// The last observed eraser position, if an erase session is active.
    pub closed spec fn eraser(&self) -> Option<Point> {
        self.prev_erase_point
    }

    /// Validity: every committed curve is well formed and has at least two
    /// points, and the in-progress stroke, if any, is well formed.
    pub open spec fn wf(&self) -> bool {
        &&& forall|i: int|
            0 <= i < self.committed().len() ==> (#[trigger] self.committed()[i]).wf()
                && self.committed()[i]@.len() >= 2
        &&& (self.in_progress() matches Some(c) ==> c.wf())
    }

    /// A canvas with no committed curves and no active session.
    pub fn new() -> (c: Canvas)
        ensures
            c.committed().len() == 0,
            c.in_progress() is None,
            c.eraser() is None,
            c.wf(),
    {
        Canvas { curves: Vec::new(), current_curve: None, prev_erase_point: None }
    }

    /// Start drawing a stroke on the canvas, seeded with `first_point`.
    /// Fails, touching nothing, if a stroke is already in progress.
    pub fn begin_stroke(&mut self, first_point: Point) -> (r: Result<(), AlreadyExists>)
        requires
            old(self).wf(),
        ensures
            final(self).wf(),
            final(self).committed() == old(self).committed(),
            final(self).eraser() == old(self).eraser(),
            old(self).in_progress() is Some ==> r is Err && *final(self) == *old(self),
            old(self).in_progress() is None ==> r is Ok
                && (final(self).in_progress() matches Some(c) && c@ == seq![first_point]),
    {
        if self.current_curve.is_some() {
            Err(AlreadyExists)
        } else {
            self.current_curve = Some(Curve::new(first_point));
            proof {
                assert(self.committed() == old(self).committed());
                assert(self.wf());
            }
            Ok(())
        }
    }

    /// Add a point to the stroke currently being drawn.
    /// Fails, touching nothing, if no stroke is in progress.
    pub fn continue_stroke(&mut self, p: Point) -> (r: Result<(), DoesntExist>)
        requires
            old(self).wf(),
        ensures
            final(self).wf(),
            final(self).committed() == old(self).committed(),
            final(self).eraser() == old(self).eraser(),
            old(self).in_progress() is None ==> r is Err && *final(self) == *old(self),
            old(self).in_progress() matches Some(c0) ==> r is Ok
                && (final(self).in_progress() matches Some(c1) && c1@ == c0@.push(p)),
    {
        let r = match &mut self.current_curve {
            Some(curve) => {
                curve.add_point(p);
                Ok(())
            },
            None => Err(DoesntExist),
        };
        proof {
            assert(self.committed() == old(self).committed());
            assert(self.wf());
        }
        r
    }

    /// Finish drawing the current stroke. If the stroke has more than one
    /// point it is committed to the canvas; a single-point stroke is
    /// discarded silently, so every committed curve can be rendered and
    /// tested for intersection. Fails, touching nothing, if no stroke is in
    /// progress.
    pub fn end_stroke(&mut self) -> (r: Result<(), DoesntExist>)
        requires
            old(self).wf(),
        ensures
            final(self).wf(),
            final(self).eraser() == old(self).eraser(),
            old(self).in_progress() is None ==> r is Err && *final(self) == *old(self),
            old(self).in_progress() matches Some(c) ==> r is Ok && final(self).in_progress() is None
                && final(self).committed() == if c@.len() >= 2 {
                old(self).committed().push(c)
            } else {
                old(self).committed()
            },
    {
        let mut taken: Option<Curve> = None;
        core::mem::swap(&mut self.current_curve, &mut taken);
        match taken {
            Some(curve) => {
                if curve.len() >= 2 {
                    self.curves.push(curve);
                    proof {
                        let n: int = self.committed().len() as int;
                        assert(self.committed()[n - 1] == curve);
                        assert forall|i: int|
                            0 <= i < n implies (#[trigger] self.committed()[i]).wf()
                            && self.committed()[i]@.len() >= 2 by {
                            if i < n - 1 {
                                assert(self.committed()[i] == old(self).committed()[i]);
                            }
                        }
                        assert(self.wf());
                    }
                } else {
                    proof {
                        assert(self.committed() == old(self).committed());
                        assert(self.wf());
                    }
                }
                Ok(())
            },
            None => Err(DoesntExist),
        }
    }

    /// Is a stroke currently being drawn on the canvas?
    pub fn is_stroke_in_progress(&self) -> (r: bool)
        ensures
            r == (self.in_progress() is Some),
    {
        self.current_curve.is_some()
    }

    /// Start erasing, remembering `first_point` as the eraser's position.
    /// Nothing is deleted yet: a single point has no swept segment. Fails,
    /// touching nothing, if an erasure is already in progress.
    pub fn begin_erasure(&mut self, first_point: Point) -> (r: Result<(), AlreadyExists>)
        requires
            old(self).wf(),
        ensures
            final(self).wf(),
            final(self).committed() == old(self).committed(),
            final(self).in_progress() == old(self).in_progress(),
            old(self).eraser() is Some ==> r is Err && *final(self) == *old(self),
            old(self).eraser() is None ==> r is Ok && final(self).eraser() == Some(first_point),
    {
        if self.prev_erase_point.is_some() {
            Err(AlreadyExists)
        } else {
            self.prev_erase_point = Some(first_point);
            proof {
                assert(self.committed() == old(self).committed());
                assert(self.wf());
            }
            Ok(())
        }
    }

    /// Move the eraser to `p`: every committed curve whose polyline
    /// intersects the segment swept from the previous eraser position to
    /// `p` is deleted, and `p` becomes the remembered position. Fails,
    /// touching nothing, if no erasure is in progress.
    pub fn continue_erasure(&mut self, p: Point) -> (r: Result<(), DoesntExist>)
        requires
            old(self).wf(),
        ensures
            final(self).wf(),
            final(self).in_progress() == old(self).in_progress(),
            old(self).eraser() is None ==> r is Err && *final(self) == *old(self),
            old(self).eraser() matches Some(prev) ==> r is Ok && final(self).eraser() == Some(p)
                && final(self).committed() == old(self).committed().filter(survives(prev, p)),
    {
        match self.prev_erase_point {
            Some(prev) => {
                self.erase(prev, p);
                self.prev_erase_point = Some(p);
                Ok(())
            },
            None => Err(DoesntExist),
        }
    }

    /// Stop erasing. Fails, touching nothing, if no erasure is in progress.
    pub fn end_erasure(&mut self) -> (r: Result<(), DoesntExist>)
        requires
            old(self).wf(),
        ensures
            final(self).wf(),
            final(self).committed() == old(self).committed(),
            final(self).in_progress() == old(self).in_progress(),
            old(self).eraser() is None ==> r is Err && *final(self) == *old(self),
            old(self).eraser() is Some ==> r is Ok && final(self).eraser() is None,
    {
        if self.prev_erase_point.is_some() {
            self.prev_erase_point = None;
            proof {
                assert(self.committed() == old(self).committed());
                assert(self.wf());
            }
            Ok(())
        } else {
            Err(DoesntExist)
        }
    }

    /// Is an erase session currently active?
    pub fn is_erasure_in_progress(&self) -> (r: bool)
        ensures
            r == (self.eraser() is Some),
    {
        self.prev_erase_point.is_some()
    }

    /// Delete every committed curve whose polyline intersects the segment
    /// `[p1, p2]`. The test is exact — every consecutive pair of curve
    /// points against the swept segment — and the surviving curves keep
    /// their insertion order.
    fn erase(&mut self, p1: Point, p2: Point)
        requires
            old(self).wf(),
        ensures
            final(self).wf(),
            final(self).committed() == old(self).committed().filter(survives(p1, p2)),
            final(self).in_progress() == old(self).in_progress(),
            final(self).eraser() == old(self).eraser(),
    {
        let ghost pred = survives(p1, p2);
        let mut pending: Vec<Curve> = Vec::new();
        core::mem::swap(&mut self.curves, &mut pending);
        let ghost all = pending@;
        proof {
            assert(all.take(0).filter(pred) =~= self.curves@) by {
                reveal_with_fuel(Seq::filter, 1);
                assert(all.take(0) =~= Seq::<Curve>::empty());
            }
        }
        while pending.len() > 0
            invariant
                old(self).wf(),
                pred == survives(p1, p2),
                all == old(self).committed(),
                pending@.len() <= all.len(),
                pending@ == all.skip(all.len() - pending@.len()),
                self.curves@ == all.take(all.len() - pending@.len()).filter(pred),
                forall|i: int|
                    0 <= i < self.curves@.len() ==> (#[trigger] self.curves@[i]).wf()
                        && self.curves@[i]@.len() >= 2,
                self.current_curve == old(self).in_progress(),
                self.prev_erase_point == old(self).eraser(),
            decreases pending.len(),
        {
            let ghost done_before: int = all.len() - pending@.len();
            let ghost pend_pre = pending@;
            let c = pending.remove(0);
            proof {
                assert(0 <= done_before < all.len());
                assert(pend_pre[0] == all.skip(done_before)[0]);
                assert(c == all[done_before]);
                assert(pending@ == pend_pre.remove(0));
                assert(pending@ =~= all.skip(done_before + 1));
                assert(old(self).committed()[done_before].wf());
                assert(old(self).committed()[done_before]@.len() >= 2);
                assert(c.wf());
            }
            let hit = c.intersects_segment(p1, p2);
            if !hit {
                self.curves.push(c);
            }
            proof {
                let done: int = done_before + 1;
                assert(survives(p1, p2)(c) == !polyline_hits(c@, p1, p2));
                assert(pred(c) == !polyline_hits(c@, p1, p2));
                assert(all.take(done) =~= all.take(done_before) + seq![c]);
                Seq::<Curve>::filter_distributes_over_add(all.take(done_before), seq![c], pred);
                lemma_filter_singleton(c, pred);
                if !hit {
                    assert(self.curves@ =~= all.take(done_before).filter(pred) + seq![c]);
                } else {
                    assert(self.curves@ =~= all.take(done_before).filter(pred));
                }
                assert(self.curves@ == all.take(done).filter(pred));
            }
        }
        proof {
            assert(all.take(all.len() as int) =~= all);
        }
    }

    /// Everything that must currently be drawn, as ordered point sequences:
    /// one entry per committed curve, in insertion order, then the
    /// in-progress stroke if there is one.
    pub open spec fn visible(&self) -> Seq<Seq<Point>> {
        let committed = Seq::new(self.committed().len(), |i: int| self.committed()[i]@);
        match self.in_progress() {
            Some(cur) => committed.push(cur@),
            None => committed,
        }
    }

    /// Everything currently visible, as ordered point sequences. The result
    /// is exactly `visible()`, a function of the canvas state alone, and the
    /// canvas is taken by shared reference: rendering twice with no mutation
    /// in between yields the same sequences both times.
    pub fn render(&self) -> (r: Vec<Vec<Point>>)
        ensures
            r@.map_values(|v: Vec<Point>| v@) == self.visible(),
            r@.len() == self.visible().len(),
    {
        let mut r: Vec<Vec<Point>> = Vec::new();
        let mut i: usize = 0;
        while i < self.curves.len()
            invariant
                i <= self.curves.len(),
                r@.len() == i,
                forall|j: int| 0 <= j < i ==> (#[trigger] r@[j])@ == self.curves@[j]@,
            decreases self.curves.len() - i,
        {
            r.push(self.curves[i].points());
            i = i + 1;
        }
        match &self.current_curve {
            Some(curve) => {
                r.push(curve.points());
            },
            None => {},
        }
        proof {
            assert(r@.map_values(|v: Vec<Point>| v@) =~= self.visible());
        }
        r
    }

    /// The bounding box of every visible curve, for a diagnostic overlay:
    /// one box per committed curve, in insertion order, then the box of the
    /// in-progress stroke if there is one.
    pub fn bounding_boxes(&self) -> (r: Vec<Box>)
        ensures
            r@.len() == self.visible().len(),
            forall|i: int|
                0 <= i < self.committed().len() ==> r@[i] == (#[trigger] self.committed()[i]).bbox(),
            self.in_progress() matches Some(c) ==> r@[r@.len() - 1] == c.bbox(),
    {
        let mut r: Vec<Box> = Vec::new();
        let mut i: usize = 0;
        while i < self.curves.len()
            invariant
                i <= self.curves.len(),
                r@.len() == i,
                forall|j: int| 0 <= j < i ==> r@[j] == (#[trigger] self.curves@[j]).bbox(),
            decreases self.curves.len() - i,
        {
            r.push(self.curves[i].bounding_box());
            i = i + 1;
        }
        match &self.current_curve {
            Some(curve) => {
                r.push(curve.bounding_box());
            },
            None => {},
        }
        r
    }
}

impl Default for Canvas {
    /// A canvas with no committed curves and no active session.
    fn default() -> (c: Canvas)
        ensures
            c.committed().len() == 0,
            c.in_progress() is None,
            c.eraser() is None,
            c.wf(),
    {
        Canvas::new()
    }
}

/// Filtering a sequence and collecting the result into a multiset is the
/// same as filtering the multiset of its elements: which elements survive a
/// filter does not depend on their order.
proof fn lemma_filter_to_multiset<A>(s: Seq<A>, pred: spec_fn(A) -> bool)
    ensures
        s.filter(pred).to_multiset() == s.to_multiset().filter(pred),
    decreases s.len(),
{
    broadcast use vstd::seq_lib::group_to_multiset_ensures;
    broadcast use vstd::multiset::group_multiset_axioms;

    if s.len() == 0 {
        assert(s =~= Seq::<A>::empty());
        reveal_with_fuel(Seq::filter, 1);
        assert(s.filter(pred) =~= Seq::<A>::empty());
        assert(s.to_multiset() =~= Multiset::<A>::empty()) by {
            vstd::multiset::lemma_multiset_empty_len(s.to_multiset());
        }
        assert(s.filter(pred).to_multiset() =~= Multiset::<A>::empty()) by {
            vstd::multiset::lemma_multiset_empty_len(s.filter(pred).to_multiset());
        }
        assert(Multiset::<A>::empty().filter(pred) =~= Multiset::<A>::empty());
    } else {
        let t = s.drop_last();
        let x = s.last();
        lemma_filter_to_multiset(t, pred);
        assert(s =~= t.push(x));
        assert(s.to_multiset() == t.to_multiset().insert(x));
        reveal(Seq::filter);
        if pred(x) {
            assert(s.filter(pred) == t.filter(pred).push(x));
            assert(s.filter(pred).to_multiset() == t.filter(pred).to_multiset().insert(x));
            assert(t.to_multiset().insert(x).filter(pred) =~= t.to_multiset().filter(pred).insert(
                x,
            ));
        } else {
            assert(s.filter(pred) == t.filter(pred));
            assert(t.to_multiset().insert(x).filter(pred) =~= t.to_multiset().filter(pred));
        }
    }
}

/// Erasing removes exactly the set of curves whose polyline intersects the
/// swept segment `[q1, q2]`: a curve value survives with the multiplicity it
/// had when it misses the segment, and is gone entirely when it hits it.
pub proof fn lemma_erase_removes_exactly(s: Seq<Curve>, q1: Point, q2: Point, c: Curve)
    ensures
        s.filter(survives(q1, q2)).to_multiset().count(c) == if polyline_hits(c@, q1, q2) {
            0nat
        } else {
            s.to_multiset().count(c)
        },
{
    broadcast use vstd::multiset::group_multiset_axioms;

    lemma_filter_to_multiset(s, survives(q1, q2));
    assert(survives(q1, q2)(c) == !polyline_hits(c@, q1, q2));
}

/// Order independence of erase: two canvases whose committed curves are the
/// same up to insertion order still hold the same curves, up to order,
/// after an eraser sweep along the same segment.
pub proof fn lemma_erase_order_independent(a: Seq<Curve>, b: Seq<Curve>, q1: Point, q2: Point)
    requires
        a.to_multiset() == b.to_multiset(),
    ensures
        a.filter(survives(q1, q2)).to_multiset() == b.filter(survives(q1, q2)).to_multiset(),
{
    lemma_filter_to_multiset(a, survives(q1, q2));
    lemma_filter_to_multiset(b, survives(q1, q2));
}

/// Filtering a one-element sequence keeps or drops that element.
proof fn lemma_filter_singleton<A>(x: A, pred: spec_fn(A) -> bool)
    ensures
        seq![x].filter(pred) == if pred(x) {
            seq![x]
        } else {
            Seq::<A>::empty()
        },
{
    reveal_with_fuel(Seq::filter, 2);
    assert(seq![x].drop_last() =~= Seq::<A>::empty());
}

} // verus!
