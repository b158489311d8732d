use vstd::prelude::*;
use crate::data::vector::{Vector, rot_x, rot_y};

verus! {

/// The dihedral group of order 8: the four rotations `I`, `R1`, `R2`, `R3`
/// (quarter turns) and the four reflections `S0`..`S3` (`Sk` is `Rk` after a flip).
#[derive(Clone, Copy, Debug, PartialEq, Eq, Structural, Hash, PartialOrd, Ord)]
pub enum D4 {
    I,
    R1,
    R2,
    R3,
    S0,
    S1,
    S2,
    S3,
}

/// The element with the given flip and rotation count (taken modulo 4).
pub open spec fn d4_of(flip: bool, rot: int) -> D4 {
    let r = rot % 4;
    if !flip {
        if r == 0 { D4::I } else if r == 1 { D4::R1 } else if r == 2 { D4::R2 } else { D4::R3 }
    } else {
        if r == 0 { D4::S0 } else if r == 1 { D4::S1 } else if r == 2 { D4::S2 } else { D4::S3 }
    }
}

/// The element with index `i` in the order `I, R1, R2, R3, S0, S1, S2, S3`.
pub open spec fn d4_at(i: int) -> D4 {
    d4_of(i >= 4, i % 4)
}

/// The flip component of a composition: `a * b` flips iff exactly one of them does.
pub open spec fn compose_spec(a: D4, b: D4) -> D4 {
    d4_of(
        a.flip_spec() != b.flip_spec(),
        if a.flip_spec() { a.rot_spec() + 4 - b.rot_spec() } else { a.rot_spec() + b.rot_spec() },
    )
}

/// x coordinate of `g * (x, y)`: flip (negate x) if `g` flips, then rotate.
pub open spec fn act_x(g: D4, x: int, y: int) -> int {
    let fx = if g.flip_spec() { -x } else { x };
    rot_x(fx, y, g.rot_spec())
}

/// y coordinate of `g * (x, y)`.
pub open spec fn act_y(g: D4, x: int, y: int) -> int {
    let fx = if g.flip_spec() { -x } else { x };
    rot_y(fx, y, g.rot_spec())
}

impl D4 {
    /// The index of the element in `I, R1, R2, R3, S0, S1, S2, S3`.
    pub open spec fn idx(self) -> int {
        match self {
            D4::I => 0,
            D4::R1 => 1,
            D4::R2 => 2,
            D4::R3 => 3,
            D4::S0 => 4,
            D4::S1 => 5,
            D4::S2 => 6,
            D4::S3 => 7,
        }
    }

    pub open spec fn rot_spec(self) -> int {
        self.idx() % 4
    }

    pub open spec fn flip_spec(self) -> bool {
        self.idx() >= 4
    }

    pub open spec fn inverse_spec(self) -> D4 {
        if self == D4::R1 {
            D4::R3
        } else if self == D4::R3 {
            D4::R1
        } else {
            self
        }
    }

    /// The index of the element, as a number.
    pub fn index(self) -> (r: usize)
        ensures
            r == self.idx(),
    {
        match self {
            D4::I => 0,
            D4::R1 => 1,
            D4::R2 => 2,
            D4::R3 => 3,
            D4::S0 => 4,
            D4::S1 => 5,
            D4::S2 => 6,
            D4::S3 => 7,
        }
    }

    /// The element at the given index.
    pub fn from_index(i: usize) -> (r: D4)
        requires
            i < 8,
        ensures
            r == d4_at(i as int),
            r.idx() == i,
    {
        if i == 0 {
            D4::I
        } else if i == 1 {
            D4::R1
        } else if i == 2 {
            D4::R2
        } else if i == 3 {
            D4::R3
        } else if i == 4 {
            D4::S0
        } else if i == 5 {
            D4::S1
        } else if i == 6 {
            D4::S2
        } else {
            D4::S3
        }
    }

    /// All eight elements in index order.
    pub fn all() -> (r: [D4; 8])
        ensures
            forall|i: int| 0 <= i < 8 ==> (#[trigger] r@[i]).idx() == i,
    {
        [D4::I, D4::R1, D4::R2, D4::R3, D4::S0, D4::S1, D4::S2, D4::S3]
    }

    pub fn new(flip: bool, rot: usize) -> (r: D4)
        ensures
            r == d4_of(flip, rot as int),
            r.flip_spec() == flip,
            r.rot_spec() == rot % 4,
    {
        let r = rot & 3;
        assert(r == rot % 4) by (bit_vector)
            requires
                r == rot & 3,
        ;
        Self::from_index(if flip { 4 + r } else { r })
    }

    pub fn get_rot(self) -> (r: usize)
        ensures
            r == self.rot_spec(),
    {
        self.index() % 4
    }

    pub fn get_flip(self) -> (r: bool)
        ensures
            r == self.flip_spec(),
    {
        self.index() >= 4
    }

    /// Rotates by `rot` further quarter turns, keeping the flip.
    pub fn roted(self, rot: usize) -> (r: D4)
        ensures
            r == d4_of(self.flip_spec(), self.rot_spec() + rot),
    {
        let x = self.index();
        let s = (x % 4 + rot % 4) % 4;
        assert(s == (x % 4 + rot) % 4) by (nonlinear_arith)
            requires
                s == (x % 4 + rot % 4) % 4,
        ;
        Self::new(x >= 4, s)
    }

    /// Toggles the flip, keeping the rotation count.
    pub fn flipped(self) -> (r: D4)
        ensures
            r == d4_of(!self.flip_spec(), self.rot_spec()),
    {
        let x = self.index();
        Self::new(x < 4, x % 4)
    }

    pub fn inverse(self) -> (r: D4)
        ensures
            r == self.inverse_spec(),
    {
        if self == D4::R1 {
            D4::R3
        } else if self == D4::R3 {
            D4::R1
        } else {
            self
        }
    }

    /// The group product `self * rhs` (apply `rhs` first, then `self`).
    pub fn compose(self, rhs: D4) -> (r: D4)
        ensures
            r == compose_spec(self, rhs),
    {
        let flip = self.get_flip() != rhs.get_flip();
        let rot = if self.get_flip() {
            self.get_rot() + 4 - rhs.get_rot()
        } else {
            self.get_rot() + rhs.get_rot()
        };
        Self::new(flip, rot)
    }

    /// The action on a displacement: flip (negate x) when `self` flips, then rotate.
    /// Each coordinate of the result is one of `v`'s, possibly negated, so only the result
    /// needs to fit.
    pub fn apply(self, v: Vector<i32>) -> (r: Vector<i32>)
        requires
            i32::MIN <= act_x(self, v.x as int, v.y as int) <= i32::MAX,
            i32::MIN <= act_y(self, v.x as int, v.y as int) <= i32::MAX,
        ensures
            r.x == act_x(self, v.x as int, v.y as int),
            r.y == act_y(self, v.x as int, v.y as int),
            v.negatable() ==> r.negatable(),
    {
        match self {
            D4::I => Vector::new(v.x, v.y),
            D4::R1 => Vector::new(-v.y, v.x),
            D4::R2 => Vector::new(-v.x, -v.y),
            D4::R3 => Vector::new(v.y, -v.x),
            D4::S0 => Vector::new(-v.x, v.y),
            D4::S1 => Vector::new(-v.y, -v.x),
            D4::S2 => Vector::new(v.x, -v.y),
            D4::S3 => Vector::new(v.y, v.x),
        }
    }
}

/// `d4_of` picks the element with the given flip and rotation count modulo 4,
/// and every element is `d4_of` of its own flip and rotation.
pub proof fn lemma_d4_of(flip: bool, rot: int, g: D4)
    ensures
        d4_of(flip, rot).flip_spec() == flip,
        d4_of(flip, rot).rot_spec() == rot % 4,
        g == d4_of(g.flip_spec(), g.rot_spec()),
        0 <= g.rot_spec() < 4,
{
}

proof fn lemma_rot_assoc(fa: bool, fb: bool, ra: int, rb: int, rc: int) by (nonlinear_arith)
    requires
        0 <= ra < 4,
        0 <= rb < 4,
        0 <= rc < 4,
    ensures
        ({
            let abr = (if fa { ra + 4 - rb } else { ra + rb }) % 4;
            let bcr = (if fb { rb + 4 - rc } else { rb + rc }) % 4;
            (if fa != fb { abr + 4 - rc } else { abr + rc }) % 4 == (if fa { ra + 4 - bcr } else { ra
                + bcr }) % 4
        }),
{
}

/// Composition is associative.
pub proof fn lemma_compose_assoc(a: D4, b: D4, c: D4)
    ensures
        compose_spec(compose_spec(a, b), c) == compose_spec(a, compose_spec(b, c)),
{
    let ab = compose_spec(a, b);
    let bc = compose_spec(b, c);
    let abr = if a.flip_spec() { a.rot_spec() + 4 - b.rot_spec() } else { a.rot_spec() + b.rot_spec() };
    let bcr = if b.flip_spec() { b.rot_spec() + 4 - c.rot_spec() } else { b.rot_spec() + c.rot_spec() };
    lemma_d4_of(a.flip_spec() != b.flip_spec(), abr, a);
    lemma_d4_of(b.flip_spec() != c.flip_spec(), bcr, b);
    lemma_d4_of(true, 0, c);
    lemma_rot_assoc(a.flip_spec(), b.flip_spec(), a.rot_spec(), b.rot_spec(), c.rot_spec());
}

/// `I` is the identity of the composition, and `inverse` gives the inverse element.
pub proof fn lemma_identity_inverse(g: D4)
    ensures
        compose_spec(D4::I, g) == g,
        compose_spec(g, D4::I) == g,
        compose_spec(g, g.inverse_spec()) == D4::I,
        compose_spec(g.inverse_spec(), g) == D4::I,
{
}

/// Acting by a product is acting by the factors in turn: `(a * b) * v == a * (b * v)`.
pub proof fn lemma_act_compose(a: D4, b: D4, x: int, y: int)
    ensures
        act_x(compose_spec(a, b), x, y) == act_x(a, act_x(b, x, y), act_y(b, x, y)),
        act_y(compose_spec(a, b), x, y) == act_y(a, act_x(b, x, y), act_y(b, x, y)),
{
}

} // verus!
