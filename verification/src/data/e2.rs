use vstd::prelude::*;
use crate::data::d4::{D4, act_x, act_y, compose_spec, lemma_identity_inverse, lemma_act_compose};
use crate::data::vector::Vector;

verus! {

/// A rigid motion of the grid: the symmetry `r` followed by the translation `d`.
#[derive(Clone, Copy, Debug, PartialEq, Eq, Structural, Hash, PartialOrd, Ord)]
pub struct E2 {
    pub r: D4,
    pub d: Vector<i32>,
}

/// Both coordinates lie strictly between `-2^30` and `2^30`.
pub open spec fn small(v: Vector<i32>) -> bool {
    -0x4000_0000 < v.x < 0x4000_0000 && -0x4000_0000 < v.y < 0x4000_0000
}

impl E2 {
    pub fn new(r: D4, d: Vector<i32>) -> (res: Self)
        ensures
            res.r == r,
            res.d == d,
    {
        Self { r, d }
    }

    /// The image of the point `v`: `r * v + d`.
    pub fn apply(&self, v: &Vector<i32>) -> (res: Vector<i32>)
        requires
            i32::MIN <= act_x(self.r, v.x as int, v.y as int) <= i32::MAX,
            i32::MIN <= act_y(self.r, v.x as int, v.y as int) <= i32::MAX,
            i32::MIN <= act_x(self.r, v.x as int, v.y as int) + self.d.x <= i32::MAX,
            i32::MIN <= act_y(self.r, v.x as int, v.y as int) + self.d.y <= i32::MAX,
        ensures
            res.x == act_x(self.r, v.x as int, v.y as int) + self.d.x,
            res.y == act_y(self.r, v.x as int, v.y as int) + self.d.y,
    {
        let w = self.r.apply(*v);
        w.plus(&self.d)
    }

    /// The product `self * rhs`: apply `rhs` first, then `self`.
    pub fn compose(&self, rhs: &E2) -> (res: E2)
        requires
            i32::MIN <= act_x(self.r, rhs.d.x as int, rhs.d.y as int) <= i32::MAX,
            i32::MIN <= act_y(self.r, rhs.d.x as int, rhs.d.y as int) <= i32::MAX,
            i32::MIN <= act_x(self.r, rhs.d.x as int, rhs.d.y as int) + self.d.x <= i32::MAX,
            i32::MIN <= act_y(self.r, rhs.d.x as int, rhs.d.y as int) + self.d.y <= i32::MAX,
        ensures
            res.r == compose_spec(self.r, rhs.r),
            res.d.x == act_x(self.r, rhs.d.x as int, rhs.d.y as int) + self.d.x,
            res.d.y == act_y(self.r, rhs.d.x as int, rhs.d.y as int) + self.d.y,
    {
        E2::new(self.r.compose(rhs.r), self.apply(&rhs.d))
    }

    /// The inverse motion.
    pub fn inverse(&self) -> (res: E2)
        requires
            self.d.negatable(),
        ensures
            res.r == self.r.inverse_spec(),
            res.d.x == act_x(self.r.inverse_spec(), -self.d.x, -self.d.y),
            res.d.y == act_y(self.r.inverse_spec(), -self.d.x, -self.d.y),
    {
        let r = self.r.inverse();
        let d = r.apply(self.d.negated());
        Self::new(r, d)
    }

    /// The same motion followed by the translation `v`.
    pub fn shifted(&self, v: &Vector<i32>) -> (res: E2)
        requires
            i32::MIN <= self.d.x + v.x <= i32::MAX,
            i32::MIN <= self.d.y + v.y <= i32::MAX,
        ensures
            res.r == self.r,
            res.d.x == self.d.x + v.x,
            res.d.y == self.d.y + v.y,
    {
        E2::new(self.r, v.plus(&self.d))
    }
}

/// A motion and its inverse cancel in either order: the symmetries compose to the
/// identity and the translations add up to nothing.
pub proof fn lemma_inverse_cancels(r: D4, dx: int, dy: int)
    ensures
        compose_spec(r, r.inverse_spec()) == D4::I,
        compose_spec(r.inverse_spec(), r) == D4::I,
        act_x(r, act_x(r.inverse_spec(), -dx, -dy), act_y(r.inverse_spec(), -dx, -dy)) + dx == 0,
        act_y(r, act_x(r.inverse_spec(), -dx, -dy), act_y(r.inverse_spec(), -dx, -dy)) + dy == 0,
        act_x(r.inverse_spec(), dx, dy) + act_x(r.inverse_spec(), -dx, -dy) == 0,
        act_y(r.inverse_spec(), dx, dy) + act_y(r.inverse_spec(), -dx, -dy) == 0,
{
    lemma_identity_inverse(r);
    lemma_act_compose(r, r.inverse_spec(), -dx, -dy);
}

} // verus!
