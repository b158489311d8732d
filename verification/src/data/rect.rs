use vstd::prelude::*;
use core::ops::Range;
use crate::data::d4::{D4, act_x, act_y};
use crate::data::e2::{E2, small};
use crate::data::vector::{Vector, rot_x, rot_y};

verus! {

/// An axis-aligned rectangle given by a corner `origin` and a signed extent `diag`:
/// along each axis it covers `origin .. origin + diag` when the extent is positive,
/// and `origin + diag + 1 ..= origin` otherwise.
#[derive(Clone, Copy, Debug, PartialEq, Eq, Structural, Hash, PartialOrd, Ord)]
pub struct Rect {
    origin: Vector<i32>,
    diag: Vector<i32>,
}

/// Start of the covered interval along one axis.
pub open spec fn range_start(o: int, d: int) -> int {
    if d > 0 { o } else { o + d + 1 }
}

/// End (exclusive) of the covered interval along one axis.
pub open spec fn range_end(o: int, d: int) -> int {
    if d > 0 { o + d } else { o + 1 }
}

pub open spec fn max_int(a: int, b: int) -> int {
    if a >= b { a } else { b }
}

pub open spec fn min_int(a: int, b: int) -> int {
    if a <= b { a } else { b }
}

/// The intersection of `[s1, e1)` and `[s2, e2)`, as `(start, end)`; empty ones start
/// at the larger start.
pub open spec fn interval_meet(s1: int, e1: int, s2: int, e2: int) -> (int, int) {
    let s = max_int(s1, s2);
    let e = min_int(e1, e2);
    if s < e { (s, e) } else { (s, s) }
}

impl Rect {
    pub closed spec fn origin_spec(self) -> Vector<i32> {
        self.origin
    }

    pub closed spec fn diag_spec(self) -> Vector<i32> {
        self.diag
    }

    pub open spec fn x_start(self) -> int {
        range_start(self.origin_spec().x as int, self.diag_spec().x as int)
    }

    pub open spec fn x_end(self) -> int {
        range_end(self.origin_spec().x as int, self.diag_spec().x as int)
    }

    pub open spec fn y_start(self) -> int {
        range_start(self.origin_spec().y as int, self.diag_spec().y as int)
    }

    pub open spec fn y_end(self) -> int {
        range_end(self.origin_spec().y as int, self.diag_spec().y as int)
    }

    /// Corner and extent are within `(-2^30, 2^30)`, so no computation on them overflows.
    pub open spec fn fits(self) -> bool {
        small(self.origin_spec()) && small(self.diag_spec())
    }

    /// Whether the point lies in the rectangle.
    pub open spec fn contains_spec(self, p: Vector<i32>) -> bool {
        self.x_start() <= p.x < self.x_end() && self.y_start() <= p.y < self.y_end()
    }

    pub fn new(origin: Vector<i32>, diag: Vector<i32>) -> (r: Self)
        ensures
            r.origin_spec() == origin,
            r.diag_spec() == diag,
    {
        Self { origin, diag }
    }

    /// The corner the rectangle was built from.
    pub fn origin(&self) -> (r: Vector<i32>)
        ensures
            r == self.origin_spec(),
    {
        self.origin
    }

    /// The signed extent of the rectangle.
    pub fn diag(&self) -> (r: Vector<i32>)
        ensures
            r == self.diag_spec(),
    {
        self.diag
    }

    /// The rectangle with the given inclusive corners.
    pub fn from_min_max(min: Vector<i32>, max: Vector<i32>) -> (r: Self)
        requires
            small(min),
            small(max),
        ensures
            r.origin_spec() == min,
            r.diag_spec().x == max.x - min.x + 1,
            r.diag_spec().y == max.y - min.y + 1,
    {
        let d = max.minus(&min);
        Self::new(min, Vector::new(d.x + 1, d.y + 1))
    }

    pub fn roted90(&self, count: usize) -> (r: Self)
        requires
            self.origin_spec().negatable(),
            self.diag_spec().negatable(),
        ensures
            r.origin_spec().x == rot_x(self.origin_spec().x as int, self.origin_spec().y as int, count as int),
            r.origin_spec().y == rot_y(self.origin_spec().x as int, self.origin_spec().y as int, count as int),
            r.diag_spec().x == rot_x(self.diag_spec().x as int, self.diag_spec().y as int, count as int),
            r.diag_spec().y == rot_y(self.diag_spec().x as int, self.diag_spec().y as int, count as int),
    {
        Self::new(self.origin.roted90(count), self.diag.roted90(count))
    }

    pub fn rot90(&mut self, count: usize)
        requires
            old(self).origin_spec().negatable(),
            old(self).diag_spec().negatable(),
        ensures
            *final(self) == old(self).roted90_spec(count as int),
    {
        self.origin.rot90(count);
        self.diag.rot90(count);
    }

    pub open spec fn roted90_spec(self, count: int) -> Rect {
        Rect::spec_new(
            Vector {
                x: rot_x(self.origin_spec().x as int, self.origin_spec().y as int, count) as i32,
                y: rot_y(self.origin_spec().x as int, self.origin_spec().y as int, count) as i32,
            },
            Vector {
                x: rot_x(self.diag_spec().x as int, self.diag_spec().y as int, count) as i32,
                y: rot_y(self.diag_spec().x as int, self.diag_spec().y as int, count) as i32,
            },
        )
    }

    pub closed spec fn spec_new(origin: Vector<i32>, diag: Vector<i32>) -> Rect {
        Rect { origin, diag }
    }

    pub fn flipped(&self) -> (r: Self)
        requires
            self.origin_spec().x > i32::MIN,
            self.diag_spec().x > i32::MIN,
        ensures
            r.origin_spec().x == -self.origin_spec().x,
            r.origin_spec().y == self.origin_spec().y,
            r.diag_spec().x == -self.diag_spec().x,
            r.diag_spec().y == self.diag_spec().y,
    {
        Self::new(self.origin.flipped(), self.diag.flipped())
    }

    /// The rectangle translated by `delta`.
    pub fn moved(&self, delta: &Vector<i32>) -> (r: Self)
        requires
            small(self.origin_spec()),
            small(*delta),
        ensures
            r.origin_spec().x == self.origin_spec().x + delta.x,
            r.origin_spec().y == self.origin_spec().y + delta.y,
            r.diag_spec() == self.diag_spec(),
    {
        Self::new(self.origin.plus(delta), self.diag)
    }

    pub fn x_range(&self) -> (r: Range<i32>)
        requires
            self.fits(),
        ensures
            r.start == self.x_start(),
            r.end == self.x_end(),
    {
        if self.diag.x > 0 {
            self.origin.x..self.origin.x + self.diag.x
        } else {
            self.origin.x + self.diag.x + 1..self.origin.x + 1
        }
    }

    pub fn y_range(&self) -> (r: Range<i32>)
        requires
            self.fits(),
        ensures
            r.start == self.y_start(),
            r.end == self.y_end(),
    {
        if self.diag.y > 0 {
            self.origin.y..self.origin.y + self.diag.y
        } else {
            self.origin.y + self.diag.y + 1..self.origin.y + 1
        }
    }

    pub fn min_corner(&self) -> (r: Vector<i32>)
        requires
            self.fits(),
        ensures
            r.x == self.x_start(),
            r.y == self.y_start(),
    {
        Vector::new(self.x_range().start, self.y_range().start)
    }

    pub fn max_corner(&self) -> (r: Vector<i32>)
        requires
            self.fits(),
        ensures
            r.x == self.x_end() - 1,
            r.y == self.y_end() - 1,
    {
        Vector::new(self.x_range().end - 1, self.y_range().end - 1)
    }

    /// The common part of two rectangles (empty, with zero extent, if they are disjoint).
    pub fn intersection(&self, other: &Rect) -> (r: Rect)
        requires
            self.fits(),
            other.fits(),
        ensures
            ({
                let (s, e) = interval_meet(self.x_start(), self.x_end(), other.x_start(), other.x_end());
                r.origin_spec().x == s && r.diag_spec().x == e - s
            }),
            ({
                let (s, e) = interval_meet(self.y_start(), self.y_end(), other.y_start(), other.y_end());
                r.origin_spec().y == s && r.diag_spec().y == e - s
            }),
            r.diag_spec().x >= 0,
            r.diag_spec().y >= 0,
            forall|p: Vector<i32>| r.contains_spec(p) <==> (self.contains_spec(p) && other.contains_spec(p)),
    {
        let x_range = meet(self.x_range(), other.x_range());
        let y_range = meet(self.y_range(), other.y_range());
        Rect::new(
            Vector::new(x_range.start, y_range.start),
            Vector::new(x_range.end - x_range.start, y_range.end - y_range.start),
        )
    }

    pub fn contains(&self, point: &Vector<i32>) -> (r: bool)
        requires
            self.fits(),
        ensures
            r == self.contains_spec(*point),
    {
        let xr = self.x_range();
        let yr = self.y_range();
        xr.start <= point.x && point.x < xr.end && yr.start <= point.y && point.y < yr.end
    }

    /// The number of cells covered.
    pub fn area(&self) -> (r: u32)
        requires
            self.fits(),
            abs(self.diag_spec().x as int) * abs(self.diag_spec().y as int) <= u32::MAX,
        ensures
            r == abs(self.diag_spec().x as int) * abs(self.diag_spec().y as int),
    {
        let a = unsigned_abs(self.diag.x);
        let b = unsigned_abs(self.diag.y);
        a * b
    }

    pub fn is_empty(&self) -> (r: bool)
        ensures
            r == (self.diag_spec().x == 0 || self.diag_spec().y == 0),
    {
        self.diag.x == 0 || self.diag.y == 0
    }

    /// Extent along x (rows).
    pub fn height(&self) -> (r: usize)
        requires
            self.fits(),
        ensures
            r == abs(self.diag_spec().x as int),
    {
        unsigned_abs(self.diag.x) as usize
    }

    /// Extent along y (columns).
    pub fn width(&self) -> (r: usize)
        requires
            self.fits(),
        ensures
            r == abs(self.diag_spec().y as int),
    {
        unsigned_abs(self.diag.y) as usize
    }

    /// The image under a symmetry: flipped if `d` flips, then rotated.
    pub fn transformed(&self, d: D4) -> (r: Rect)
        requires
            self.fits(),
        ensures
            r.origin_spec().x == act_x(d, self.origin_spec().x as int, self.origin_spec().y as int),
            r.origin_spec().y == act_y(d, self.origin_spec().x as int, self.origin_spec().y as int),
            r.diag_spec().x == act_x(d, self.diag_spec().x as int, self.diag_spec().y as int),
            r.diag_spec().y == act_y(d, self.diag_spec().x as int, self.diag_spec().y as int),
            r.fits(),
    {
        let f = if d.get_flip() { self.flipped() } else { *self };
        f.roted90(d.get_rot())
    }

    /// The image under a rigid motion: `m.r` applied, then moved by `m.d`.
    pub fn moved_by(&self, m: &E2) -> (r: Rect)
        requires
            self.fits(),
            small(m.d),
        ensures
            r.origin_spec().x == act_x(m.r, self.origin_spec().x as int, self.origin_spec().y as int) + m.d.x,
            r.origin_spec().y == act_y(m.r, self.origin_spec().x as int, self.origin_spec().y as int) + m.d.y,
            r.diag_spec().x == act_x(m.r, self.diag_spec().x as int, self.diag_spec().y as int),
            r.diag_spec().y == act_y(m.r, self.diag_spec().x as int, self.diag_spec().y as int),
    {
        self.transformed(m.r).moved(&m.d)
    }
}

pub open spec fn abs(a: int) -> int {
    if a < 0 { -a } else { a }
}

fn unsigned_abs(a: i32) -> (r: u32)
    ensures
        r == abs(a as int),
{
    if a < 0 {
        (-(a as i64)) as u32
    } else {
        a as u32
    }
}

fn meet(a: Range<i32>, b: Range<i32>) -> (r: Range<i32>)
    ensures
        (r.start as int, r.end as int) == interval_meet(a.start as int, a.end as int, b.start as int, b.end as int),
{
    let start = if a.start >= b.start { a.start } else { b.start };
    let end = if a.end <= b.end { a.end } else { b.end };
    if start < end {
        start..end
    } else {
        start..start
    }
}

} // verus!
