//! Geometry primitives: 2D points on an integer grid, axis-aligned bounding
//! boxes, and oriented rectangles.

use vstd::prelude::*;
use vstd::math::max;
use vstd::math::min;

verus! {

/// A 2D coordinate on the integer grid. The same type doubles as a 2D
/// vector (a displacement between two points).
#[derive(Clone, Copy, PartialEq, Eq, Structural, Debug)]
pub struct Point {
    pub x: i32,
    pub y: i32,
}

/// A rectangle with no rotation information.
/// Satisfies `p1.x <= p2.x`, `p1.y <= p2.y` whenever it is well formed.
#[derive(Clone, Copy, PartialEq, Eq, Structural, Debug)]
pub struct Box {
    pub p1: Point,
    pub p2: Point,
}

impl Box {
    /// Corner ordering invariant: `p1` is the low corner, `p2` the high one.
    pub open spec fn wf(self) -> bool {
        self.p1.x <= self.p2.x && self.p1.y <= self.p2.y
    }

    /// `p` lies in the box, boundary included.
    pub open spec fn spec_contains(self, p: Point) -> bool {
        self.p1.x <= p.x <= self.p2.x && self.p1.y <= p.y <= self.p2.y
    }

    /// The smallest box containing both the old extent and `p`.
    pub open spec fn spec_expand(self, p: Point) -> Box {
        Box {
            p1: Point {
                x: min(self.p1.x as int, p.x as int) as i32,
                y: min(self.p1.y as int, p.y as int) as i32,
            },
            p2: Point {
                x: max(self.p2.x as int, p.x as int) as i32,
                y: max(self.p2.y as int, p.y as int) as i32,
            },
        }
    }

    /// The degenerate box whose two corners are both `p`.
    pub fn at_point(p: Point) -> (b: Box)
        ensures
            b == (Box { p1: p, p2: p }),
            b.wf(),
            b.spec_contains(p),
    {
        Box { p1: p, p2: p }
    }

    /// Expands exactly as much as needed to contain `p`: each corner moves
    /// by a component-wise min/max. The new region always contains the old
    /// one; interior points are never lost.
    pub fn expand_to_contain(&mut self, p: Point)
        ensures
            *final(self) == old(self).spec_expand(p),
            final(self).wf(),
            final(self).spec_contains(p),
            forall|q: Point| old(self).spec_contains(q) ==> final(self).spec_contains(q),
    {
        if p.x < self.p1.x {
            self.p1.x = p.x;
        }
        if p.y < self.p1.y {
            self.p1.y = p.y;
        }
        if p.x > self.p2.x {
            self.p2.x = p.x;
        }
        if p.y > self.p2.y {
            self.p2.y = p.y;
        }
    }

    /// Returns true iff `p` is in the box (boundary included).
    pub fn contains(&self, p: Point) -> (r: bool)
        ensures
            r == self.spec_contains(p),
    {
        self.p1.x <= p.x && self.p1.y <= p.y && self.p2.x >= p.x && self.p2.y >= p.y
    }
}

/// The box obtained by feeding every point of `s`, in order, to
/// `expand_to_contain`, starting from `b`.
pub open spec fn expand_all(b: Box, s: Seq<Point>) -> Box
    decreases s.len(),
{
    if s.len() == 0 {
        b
    } else {
        expand_all(b, s.drop_last()).spec_expand(s.last())
    }
}

/// Box monotonicity: however many points are fed to `expand_to_contain`, the
/// resulting box keeps the corner ordering invariant, contains every point of
/// the sequence, and still contains everything the starting box contained.
pub proof fn lemma_expand_all_monotone(b: Box, s: Seq<Point>)
    requires
        b.wf(),
    ensures
        expand_all(b, s).wf(),
        forall|i: int| 0 <= i < s.len() ==> expand_all(b, s).spec_contains(s[i]),
        forall|q: Point| b.spec_contains(q) ==> expand_all(b, s).spec_contains(q),
    decreases s.len(),
{
    if s.len() > 0 {
        lemma_expand_all_monotone(b, s.drop_last());
        let prev = expand_all(b, s.drop_last());
        let cur = expand_all(b, s);
        assert(cur == prev.spec_expand(s.last()));
        assert(forall|i: int| 0 <= i < s.len() - 1 ==> s.drop_last()[i] == s[i]);
    }
}

/// A multiplication producing a wide result, for dot and cross products
/// whose operands came from 32-bit coordinates.
pub(crate) fn mul_wide(a: i64, b: i64) -> (r: i128)
    requires
        -0x2_0000_0000 <= a <= 0x2_0000_0000,
        -0x2_0000_0000 <= b <= 0x2_0000_0000,
    ensures
        r == a * b,
        -0x4_0000_0000_0000_0000 <= r <= 0x4_0000_0000_0000_0000,
{
    proof {
        assert(-0x4_0000_0000_0000_0000 <= (a as int) * (b as int) <= 0x4_0000_0000_0000_0000)
            by (nonlinear_arith)
            requires
                -0x2_0000_0000 <= a as int <= 0x2_0000_0000,
                -0x2_0000_0000 <= b as int <= 0x2_0000_0000,
        ;
    }
    (a as i128) * (b as i128)
}

/// A rectangle with an orientation.
/// Think of it as the rectangle formed by connecting points `abcda` in that
/// order. `a` is the position of one corner; `ab` and `ad` are an orthogonal
/// pair of vectors giving the sides of the rectangle adjacent to `a`.
#[derive(Clone, Copy, PartialEq, Eq, Structural, Debug)]
pub struct Rectangle {
    pub a: Point,
    pub ab: Point,
    pub ad: Point,
}

impl Rectangle {
    /// `p` is in the rectangle iff the projection of `ap = p - a` onto each
    /// basis vector lies between 0 and that vector's squared length,
    /// boundary included. Valid as a containment test when `ab` and `ad` are
    /// orthogonal.
    pub open spec fn spec_contains(self, p: Point) -> bool {
        let apx = p.x - self.a.x;
        let apy = p.y - self.a.y;
        0 <= apx * self.ab.x + apy * self.ab.y
            <= self.ab.x * self.ab.x + self.ab.y * self.ab.y
            && 0 <= apx * self.ad.x + apy * self.ad.y
            <= self.ad.x * self.ad.x + self.ad.y * self.ad.y
    }

    /// Is the point inside the rectangle? Includes the boundary.
    pub fn contains(&self, p: Point) -> (r: bool)
        ensures
            r == self.spec_contains(p),
    {
        let apx: i64 = p.x as i64 - self.a.x as i64;
        let apy: i64 = p.y as i64 - self.a.y as i64;
        let proj_ab: i128 = mul_wide(apx, self.ab.x as i64) + mul_wide(apy, self.ab.y as i64);
        let sq_ab: i128 = mul_wide(self.ab.x as i64, self.ab.x as i64) + mul_wide(
            self.ab.y as i64,
            self.ab.y as i64,
        );
        let proj_ad: i128 = mul_wide(apx, self.ad.x as i64) + mul_wide(apy, self.ad.y as i64);
        let sq_ad: i128 = mul_wide(self.ad.x as i64, self.ad.x as i64) + mul_wide(
            self.ad.y as i64,
            self.ad.y as i64,
        );
        0 <= proj_ab && proj_ab <= sq_ab && 0 <= proj_ad && proj_ad <= sq_ad
    }

    /// Creates a rectangle of width `w` along the line segment `[p, p + v]`:
    /// `ab` is `v` itself, `ad` is the perpendicular of `v` brought to length
    /// `w` (the zero vector when `v` is zero), and the corner `a` sits half
    /// of `ad` away from `p`, so the rectangle straddles the segment
    /// symmetrically. On the integer grid the unit perpendicular is formed
    /// with a floor square root and truncating division.
    pub fn along_line_segment(p: Point, v: Point, w: i32) -> (r: Rectangle)
        requires
            0 <= w <= 0x4000_0000,
            -0x4000_0000 <= p.x <= 0x4000_0000,
            -0x4000_0000 <= p.y <= 0x4000_0000,
        ensures
            r.ab == v,
            r.ad == perp_scaled(v, w as int),
            r.a.x == p.x - half_toward_zero(r.ad.x as int),
            r.a.y == p.y - half_toward_zero(r.ad.y as int),
    {
        let vx: i64 = v.x as i64;
        let vy: i64 = v.y as i64;
        proof {
            assert(0 <= vx * vx <= 0x4000_0000_0000_0000 && 0 <= vy * vy <= 0x4000_0000_0000_0000)
                by (nonlinear_arith)
                requires
                    -0x8000_0000 <= vx <= 0x8000_0000,
                    -0x8000_0000 <= vy <= 0x8000_0000,
            ;
        }
        let xsq: u64 = (vx * vx) as u64;
        let ysq: u64 = (vy * vy) as u64;
        let nsq: u64 = xsq + ysq;
        let len: u64 = isqrt(nsq);
        if len == 0 {
            Rectangle { a: p, ab: v, ad: Point { x: 0, y: 0 } }
        } else {
            let x_abs: u64 = if v.x >= 0 {
                v.x as u64
            } else {
                (-(v.x as i64)) as u64
            };
            let y_abs: u64 = if v.y >= 0 {
                v.y as u64
            } else {
                (-(v.y as i64)) as u64
            };
            proof {
                assert(x_abs * x_abs == vx * vx && y_abs * y_abs == vy * vy) by (nonlinear_arith)
                    requires
                        x_abs == if vx >= 0 { vx as int } else { -(vx as int) },
                        y_abs == if vy >= 0 { vy as int } else { -(vy as int) },
                ;
                lemma_abs_le_sqrt(x_abs as int, len as int, nsq as int);
                lemma_abs_le_sqrt(y_abs as int, len as int, nsq as int);
                assert(len as int <= 0x1_0000_0000) by (nonlinear_arith)
                    requires
                        0 <= len as int,
                        (len as int) * (len as int) <= nsq as int,
                        (nsq as int) < 0x1_0000_0000_0000_0000,
                ;
                assert(x_abs * w <= len * w && y_abs * w <= len * w) by (nonlinear_arith)
                    requires
                        0 <= x_abs <= len as int,
                        0 <= y_abs <= len as int,
                        0 <= w,
                ;
                assert(len * w <= 0x4000_0000_0000_0000) by (nonlinear_arith)
                    requires
                        0 <= len as int <= 0x1_0000_0000,
                        0 <= w <= 0x4000_0000,
                ;
            }
            let qx: u64 = y_abs * (w as u64) / len;
            let qy: u64 = x_abs * (w as u64) / len;
            proof {
                lemma_scale_bounded(y_abs as int, w as int, len as int);
                lemma_scale_bounded(x_abs as int, w as int, len as int);
            }
            let adx: i32 = if v.y >= 0 {
                -(qx as i32)
            } else {
                qx as i32
            };
            let ady: i32 = if v.x >= 0 {
                qy as i32
            } else {
                -(qy as i32)
            };
            let hx: i32 = (qx / 2) as i32;
            let hy: i32 = (qy / 2) as i32;
            let ax: i32 = if v.y >= 0 {
                p.x + hx
            } else {
                p.x - hx
            };
            let ay: i32 = if v.x >= 0 {
                p.y - hy
            } else {
                p.y + hy
            };
            proof {
                assert(nsq == v.x * v.x + v.y * v.y);
                assert(len == floor_sqrt(nsq as int));
                assert(qx == (y_abs as int) * (w as int) / (len as int));
                assert(qy == (x_abs as int) * (w as int) / (len as int));
                if v.y > 0 {
                    assert(scale_toward_zero(-(v.y as int), w as int, len as int) == -((v.y as int)
                        * (w as int) / (len as int)));
                    assert(qx == (v.y as int) * (w as int) / (len as int));
                    assert(adx == -(qx as int));
                } else if v.y == 0 {
                    assert(y_abs == 0);
                    assert(0 * (w as int) == 0);
                    assert(qx == 0int / (len as int));
                    assert(qx == 0) by {
                        vstd::arithmetic::div_mod::lemma_div_basics(len as int);
                    }
                    assert(scale_toward_zero(-(v.y as int), w as int, len as int) == 0);
                    assert(adx == 0);
                } else {
                    assert(scale_toward_zero(-(v.y as int), w as int, len as int) == (-(v.y as int))
                        * (w as int) / (len as int));
                    assert(qx == (-(v.y as int)) * (w as int) / (len as int));
                    assert(adx == qx as int);
                }
                assert(adx == scale_toward_zero(-(v.y as int), w as int, len as int));
                assert(ady == scale_toward_zero(v.x as int, w as int, len as int));
                assert(ax == p.x - half_toward_zero(adx as int));
                assert(ay == p.y - half_toward_zero(ady as int));
            }
            Rectangle { a: Point { x: ax, y: ay }, ab: v, ad: Point { x: adx, y: ady } }
        }
    }
}

/// `r` is the floor of the square root of `n`.
pub open spec fn is_floor_sqrt(n: int, r: int) -> bool {
    0 <= r && r * r <= n && n < (r + 1) * (r + 1)
}

/// The floor of the square root of a non-negative integer.
pub closed spec fn floor_sqrt(n: int) -> int {
    choose|r: int| is_floor_sqrt(n, r)
}

/// The floor square root is the unique value satisfying `is_floor_sqrt`.
pub proof fn lemma_floor_sqrt_unique(n: int, r: int)
    requires
        is_floor_sqrt(n, r),
    ensures
        floor_sqrt(n) == r,
{
    let c: int = floor_sqrt(n);
    assert(is_floor_sqrt(n, c));
    if c < r {
        assert(false) by (nonlinear_arith)
            requires
                0 <= c < r,
                r * r <= n,
                n < (c + 1) * (c + 1),
        ;
    }
    if r < c {
        assert(false) by (nonlinear_arith)
            requires
                0 <= r < c,
                c * c <= n,
                n < (r + 1) * (r + 1),
        ;
    }
}

/// A coordinate whose square is at most `n` is at most the floor square root
/// of `n`.
proof fn lemma_abs_le_sqrt(a: int, len: int, n: int)
    requires
        0 <= a,
        a * a <= n,
        is_floor_sqrt(n, len),
    ensures
        a <= len,
{
    if a > len {
        assert(false) by (nonlinear_arith)
            requires
                0 <= len < a,
                a * a <= n,
                n < (len + 1) * (len + 1),
        ;
    }
}

/// Scaling a coordinate no longer than `len` by `w / len` yields at most `w`.
proof fn lemma_scale_bounded(a: int, w: int, len: int)
    requires
        0 <= a <= len,
        0 < len,
        0 <= w,
    ensures
        a * w / len <= w,
        0 <= a * w / len,
{
    assert(a * w <= len * w) by (nonlinear_arith)
        requires
            0 <= a <= len,
            0 <= w,
    ;
    assert(0 <= a * w) by (nonlinear_arith)
        requires
            0 <= a,
            0 <= w,
    ;
    assert(a * w / len <= len * w / len) by {
        vstd::arithmetic::div_mod::lemma_div_is_ordered(a * w, len * w, len);
    }
    assert(len * w / len == w) by {
        vstd::arithmetic::div_mod::lemma_div_by_multiple(w, len);
    }
}

/// The floor of the integer square root of `n`, by bisection.
pub fn isqrt(n: u64) -> (r: u64)
    ensures
        is_floor_sqrt(n as int, r as int),
        r == floor_sqrt(n as int),
{
    let mut lo: u64 = 0;
    let mut hi: u64 = 0x1_0000_0000;
    while lo + 1 < hi
        invariant
            lo < hi <= 0x1_0000_0000,
            lo * lo <= n,
            (n as int) < (hi as int) * (hi as int),
        decreases hi - lo,
    {
        let mid: u64 = lo + (hi - lo) / 2;
        proof {
            assert(mid * mid < 0x1_0000_0000_0000_0000) by (nonlinear_arith)
                requires
                    0 <= mid as int <= 0xffff_ffff,
            ;
        }
        let sq: u64 = mid * mid;
        if sq <= n {
            lo = mid;
        } else {
            hi = mid;
        }
    }
    proof {
        lemma_floor_sqrt_unique(n as int, lo as int);
    }
    lo
}

/// The component of the scaled perpendicular: `c` scaled by `w / len` with
/// truncation toward zero.
pub open spec fn scale_toward_zero(c: int, w: int, len: int) -> int {
    if c >= 0 {
        c * w / len
    } else {
        -((-c) * w / len)
    }
}

/// Halving with truncation toward zero.
pub open spec fn half_toward_zero(x: int) -> int {
    if x >= 0 {
        x / 2
    } else {
        -((-x) / 2)
    }
}

/// The perpendicular of `v`, brought to length `w` by truncating integer
/// division with the floor square root of `v`'s squared length; the zero
/// vector when `v` is zero.
pub open spec fn perp_scaled(v: Point, w: int) -> Point {
    let len = floor_sqrt(v.x * v.x + v.y * v.y);
    if len == 0 {
        Point { x: 0, y: 0 }
    } else {
        Point {
            x: scale_toward_zero(-(v.y as int), w, len) as i32,
            y: scale_toward_zero(v.x as int, w, len) as i32,
        }
    }
}

} // verus!
