use vstd::prelude::*;

verus! {

/// A point (or displacement) on the grid. `x` is the row, `y` the column.
#[derive(Clone, Copy, Debug, PartialEq, Eq, Structural, Hash, PartialOrd, Ord)]
pub struct Vector<T> {
    pub x: T,
    pub y: T,
}

/// The x coordinate of a point rotated by `count` quarter turns counter-clockwise.
pub open spec fn rot_x(x: int, y: int, count: int) -> int {
    let c = count % 4;
    if c == 0 { x } else if c == 1 { -y } else if c == 2 { -x } else { y }
}

/// The y coordinate of a point rotated by `count` quarter turns counter-clockwise.
pub open spec fn rot_y(x: int, y: int, count: int) -> int {
    let c = count % 4;
    if c == 0 { y } else if c == 1 { x } else if c == 2 { -y } else { -x }
}

impl<T> Vector<T> {
    pub fn new(x: T, y: T) -> (r: Self)
        ensures
            r.x == x,
            r.y == y,
    {
        Self { x, y }
    }
}

impl Vector<i32> {
    /// Neither coordinate is `i32::MIN`, so both can be negated.
    pub open spec fn negatable(self) -> bool {
        self.x > i32::MIN && self.y > i32::MIN
    }

    pub fn flipped(&self) -> (r: Self)
        requires
            self.x > i32::MIN,
        ensures
            r.x == -self.x,
            r.y == self.y,
    {
        Self::new(-self.x, self.y)
    }

    /// The point turned `count` quarter turns; only the coordinates that change sign need
    /// to be negatable.
    pub fn roted90(&self, count: usize) -> (r: Self)
        requires
            i32::MIN <= rot_x(self.x as int, self.y as int, count as int) <= i32::MAX,
            i32::MIN <= rot_y(self.x as int, self.y as int, count as int) <= i32::MAX,
        ensures
            r.x == rot_x(self.x as int, self.y as int, count as int),
            r.y == rot_y(self.x as int, self.y as int, count as int),
            self.negatable() ==> r.negatable(),
    {
        let c = count & 3;
        assert(c == count % 4) by (bit_vector)
            requires
                c == count & 3,
        ;
        if c == 0 {
            *self
        } else if c == 1 {
            Self::new(-self.y, self.x)
        } else if c == 2 {
            Self::new(-self.x, -self.y)
        } else {
            Self::new(self.y, -self.x)
        }
    }

    pub fn rot90(&mut self, count: usize)
        requires
            i32::MIN <= rot_x(old(self).x as int, old(self).y as int, count as int) <= i32::MAX,
            i32::MIN <= rot_y(old(self).x as int, old(self).y as int, count as int) <= i32::MAX,
        ensures
            final(self).x == rot_x(old(self).x as int, old(self).y as int, count as int),
            final(self).y == rot_y(old(self).x as int, old(self).y as int, count as int),
            old(self).negatable() ==> final(self).negatable(),
    {
        *self = self.roted90(count);
    }

    pub fn pairwise_min(&self, rhs: &Vector<i32>) -> (r: Vector<i32>)
        ensures
            r.x == (if self.x <= rhs.x { self.x } else { rhs.x }),
            r.y == (if self.y <= rhs.y { self.y } else { rhs.y }),
    {
        Self::new(
            if self.x <= rhs.x { self.x } else { rhs.x },
            if self.y <= rhs.y { self.y } else { rhs.y },
        )
    }

    pub fn pairwise_max(&self, rhs: &Vector<i32>) -> (r: Vector<i32>)
        ensures
            r.x == (if self.x >= rhs.x { self.x } else { rhs.x }),
            r.y == (if self.y >= rhs.y { self.y } else { rhs.y }),
    {
        Self::new(
            if self.x >= rhs.x { self.x } else { rhs.x },
            if self.y >= rhs.y { self.y } else { rhs.y },
        )
    }

    /// Component-wise sum.
    pub fn plus(&self, rhs: &Vector<i32>) -> (r: Vector<i32>)
        requires
            i32::MIN <= self.x + rhs.x <= i32::MAX,
            i32::MIN <= self.y + rhs.y <= i32::MAX,
        ensures
            r.x == self.x + rhs.x,
            r.y == self.y + rhs.y,
    {
        Self::new(self.x + rhs.x, self.y + rhs.y)
    }

    /// Component-wise difference.
    pub fn minus(&self, rhs: &Vector<i32>) -> (r: Vector<i32>)
        requires
            i32::MIN <= self.x - rhs.x <= i32::MAX,
            i32::MIN <= self.y - rhs.y <= i32::MAX,
        ensures
            r.x == self.x - rhs.x,
            r.y == self.y - rhs.y,
    {
        Self::new(self.x - rhs.x, self.y - rhs.y)
    }

    /// Component-wise negation.
    pub fn negated(&self) -> (r: Vector<i32>)
        requires
            self.negatable(),
        ensures
            r.x == -self.x,
            r.y == -self.y,
    {
        Self::new(-self.x, -self.y)
    }

    /// The four edge-adjacent cells, in the order (0,1), (1,0), (0,-1), (-1,0).
    pub fn neighbors4(&self) -> (r: [Vector<i32>; 4])
        requires
            i32::MIN < self.x < i32::MAX,
            i32::MIN < self.y < i32::MAX,
        ensures
            r@[0] == (Vector { x: self.x, y: (self.y + 1) as i32 }),
            r@[1] == (Vector { x: (self.x + 1) as i32, y: self.y }),
            r@[2] == (Vector { x: self.x, y: (self.y - 1) as i32 }),
            r@[3] == (Vector { x: (self.x - 1) as i32, y: self.y }),
    {
        [
            Vector::new(self.x, self.y + 1),
            Vector::new(self.x + 1, self.y),
            Vector::new(self.x, self.y - 1),
            Vector::new(self.x - 1, self.y),
        ]
    }
}

/// The row step of the `k`-th of the eight directions, counter-clockwise from (0, 1):
/// (0,1), (1,1), (1,0), (1,-1), (0,-1), (-1,-1), (-1,0), (-1,1).
pub open spec fn dir8_x(k: int) -> int {
    if k == 1 || k == 2 || k == 3 { 1 } else if k == 5 || k == 6 || k == 7 { -1 } else { 0 }
}

/// The column step of the `k`-th of the eight directions.
pub open spec fn dir8_y(k: int) -> int {
    if k == 0 || k == 1 || k == 7 { 1 } else if k == 3 || k == 4 || k == 5 { -1 } else { 0 }
}

impl Vector<i32> {
    /// The eight directions to the cells around a cell, edges and corners alternating,
    /// starting at (0, 1).
    pub fn directions8() -> (r: [Vector<i32>; 8])
        ensures
            forall|k: int| 0 <= k < 8 ==> (#[trigger] r@[k]).x == dir8_x(k) && r@[k].y == dir8_y(k),
    {
        [
            Vector::new(0, 1),
            Vector::new(1, 1),
            Vector::new(1, 0),
            Vector::new(1, -1),
            Vector::new(0, -1),
            Vector::new(-1, -1),
            Vector::new(-1, 0),
            Vector::new(-1, 1),
        ]
    }

    /// The eight cells around this one, in the order of `directions8`.
    pub fn neighbors8(&self) -> (r: [Vector<i32>; 8])
        requires
            i32::MIN < self.x < i32::MAX,
            i32::MIN < self.y < i32::MAX,
        ensures
            forall|k: int| 0 <= k < 8 ==> (#[trigger] r@[k]).x == self.x + dir8_x(k) && r@[k].y == self.y + dir8_y(k),
    {
        let d = Self::directions8();
        let r = [
            self.plus(&d[0]),
            self.plus(&d[1]),
            self.plus(&d[2]),
            self.plus(&d[3]),
            self.plus(&d[4]),
            self.plus(&d[5]),
            self.plus(&d[6]),
            self.plus(&d[7]),
        ];
        proof {
            assert forall|k: int| 0 <= k < 8 implies (#[trigger] r@[k]).x == self.x + dir8_x(k) && r@[k].y == self.y + dir8_y(k) by {
                assert(d@[k].x == dir8_x(k));
            }
        }
        r
    }
}

/// Lemma: rotating by `a` then by `b` quarter turns is rotating by `a + b`.
pub proof fn lemma_rot_compose(x: int, y: int, a: int, b: int)
    requires
        a >= 0,
        b >= 0,
    ensures
        rot_x(rot_x(x, y, a), rot_y(x, y, a), b) == rot_x(x, y, a + b),
        rot_y(rot_x(x, y, a), rot_y(x, y, a), b) == rot_y(x, y, a + b),
{
    assert((a + b) % 4 == (a % 4 + b % 4) % 4) by (nonlinear_arith)
        requires a >= 0, b >= 0;
}

} // verus!
