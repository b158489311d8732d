use vstd::prelude::*;
use std::rc::Rc;
use crate::data::tight_poly::TightPoly;

verus! {

/// A polyomino placed with its origin at `(dx, dy)`.
#[derive(Debug, Clone, PartialEq, Eq)]
pub struct Placement {
    dx: i32,
    dy: i32,
    poly: Rc<TightPoly>,
}

/// Another pointer to the same polyomino: `Rc::clone` shares the allocation, so the
/// value seen through the result is the value seen through the argument.
#[verifier::external_body]
pub(crate) fn share(p: &Rc<TightPoly>) -> (r: Rc<TightPoly>)
    ensures
        *r == **p,
{
    Rc::clone(p)
}

impl Placement {
    pub closed spec fn dx_spec(self) -> int {
        self.dx as int
    }

    pub closed spec fn dy_spec(self) -> int {
        self.dy as int
    }

    /// The placed polyomino.
    pub closed spec fn shape(self) -> TightPoly {
        *self.poly
    }

    /// Whether the placement occupies the cell `(x, y)`.
    pub open spec fn covers(self, x: int, y: int) -> bool {
        self.shape().cell(x - self.dx_spec(), y - self.dy_spec())
    }

    pub fn new(dx: i32, dy: i32, poly: Rc<TightPoly>) -> (r: Placement)
        ensures
            r.dx_spec() == dx,
            r.dy_spec() == dy,
            r.shape() == *poly,
    {
        Placement { dx, dy, poly }
    }

    /// A copy of the placement that shares its polyomino.
    pub fn duplicate(&self) -> (r: Placement)
        ensures
            r == *self,
    {
        Placement { dx: self.dx, dy: self.dy, poly: share(&self.poly) }
    }

    /// Whether the two placements share a cell.
    pub fn intersects(&self, other: &Placement) -> (r: bool)
        requires
            self.shape().wf(),
            other.shape().wf(),
            self.shape().h() <= 512,
            other.shape().h() <= 512,
            -0x2000_0000 < self.dx_spec() < 0x2000_0000,
            -0x2000_0000 < other.dx_spec() < 0x2000_0000,
            -640 < other.dy_spec() - self.dy_spec() < 640,
        ensures
            r == exists|x: int, y: int| #[trigger] self.covers(x, y) && other.covers(x, y),
    {
        let r = self.poly.intersects(&other.poly, other.dx - self.dx, other.dy - self.dy);
        proof {
            let (sx, sy) = (self.dx as int, self.dy as int);
            let (ddx, ddy) = (other.dx - self.dx, other.dy - self.dy);
            if r {
                let (x, y) = choose|x: int, y: int| #[trigger] self.shape().cell(x, y) && other.shape().cell(x - ddx, y - ddy);
                assert(self.covers(x + sx, y + sy) && other.covers(x + sx, y + sy));
            }
            if exists|x: int, y: int| #[trigger] self.covers(x, y) && other.covers(x, y) {
                let (x, y) = choose|x: int, y: int| #[trigger] self.covers(x, y) && other.covers(x, y);
                assert(self.shape().cell(x - sx, y - sy) && other.shape().cell(x - sx - ddx, y - sy - ddy));
            }
        }
        r
    }

    /// Whether the placement occupies the cell `(x, y)`.
    pub fn get(&self, x: u32, y: u32) -> (r: bool)
        requires
            self.shape().wf(),
            x < 0x4000_0000,
            y < 0x4000_0000,
            -0x4000_0000 < self.dx_spec() < 0x4000_0000,
            -0x4000_0000 < self.dy_spec() < 0x4000_0000,
            0 <= x - self.dx_spec() < self.shape().h() ==> y - self.dy_spec() < 512,
        ensures
            r == self.covers(x as int, y as int),
    {
        x as i32 >= self.dx && y as i32 >= self.dy && self.poly.get(
            (x as i32 - self.dx) as usize,
            (y as i32 - self.dy) as usize,
        )
    }
}

} // verus!
