use vstd::prelude::*;
use vstd::arithmetic::power2::{pow2, lemma_pow2_pos, lemma_pow2_unfold, lemma2_to64};
use crate::data::sparse_t2_rect::{ceil_log2, is_ceil_log2, lemma_shl_or};
use crate::data::vector::Vector;

verus! {

/// A counter for each point of the box `[min, max]`; rows are `2^x_shift` entries apart.
#[derive(Clone, Debug, PartialEq, Eq)]
pub struct T2Counter {
    min: Vector<isize>,
    max: Vector<i32>,
    height: usize,
    x_shift: usize,
    counter: Vec<usize>,
}

/// The box is small enough for the counters to be indexed.
pub open spec fn counter_box_ok(min: Vector<i32>, max: Vector<i32>) -> bool {
    &&& min.x <= max.x
    &&& min.y <= max.y
    &&& -0x1000_0000 < min.x
    &&& -0x1000_0000 < min.y
    &&& max.x < 0x1000_0000
    &&& max.y < 0x1000_0000
    &&& (max.x - min.x + 1) * (max.y - min.y + 1) <= 0x40_0000
}

impl T2Counter {
    pub closed spec fn min_spec(self) -> Vector<isize> {
        self.min
    }

    pub closed spec fn max_spec(self) -> Vector<i32> {
        self.max
    }

    pub closed spec fn stride(self) -> nat {
        pow2(self.x_shift as nat)
    }

    /// Whether `(x, y)` lies in the box.
    pub open spec fn in_box(self, x: int, y: int) -> bool {
        self.min_spec().x <= x <= self.max_spec().x && self.min_spec().y <= y <= self.max_spec().y
    }

    /// The entry of the point `(x, y)` of the box.
    pub open spec fn entry(self, x: int, y: int) -> int {
        (x - self.min_spec().x) * self.stride() + (y - self.min_spec().y)
    }

    pub closed spec fn counts(self) -> Seq<usize> {
        self.counter@
    }

    /// The counter of the point `(x, y)` of the box.
    pub open spec fn count(self, x: int, y: int) -> usize {
        self.counts()[self.entry(x, y)]
    }

    /// The consistency of the representation.
    pub closed spec fn wf(self) -> bool {
        &&& counter_box_ok(Vector { x: self.min.x as i32, y: self.min.y as i32 }, self.max)
        &&& self.height == self.max.x - self.min.x + 1
        &&& is_ceil_log2((self.max.y - self.min.y + 1) as nat, self.x_shift as nat)
        &&& self.x_shift <= 30
        &&& self.counter@.len() == self.height * self.stride()
        &&& self.height * self.stride() <= 0x100_0000
    }

    /// Every entry of the box is an index of the counters.
    proof fn lemma_entry(self, x: int, y: int)
        requires
            self.wf(),
            self.in_box(x, y),
        ensures
            0 <= self.entry(x, y) < self.counts().len(),
            forall|a: int, b: int| #[trigger] self.in_box(a, b) && self.entry(a, b) == self.entry(x, y) ==> a == x && b == y,
    {
        lemma_pow2_pos(self.x_shift as nat);
        let st = self.stride() as int;
        let (dx, dy) = (x - self.min.x, y - self.min.y);
        assert(dy < st);
        assert(0 <= dx * st + dy < self.height * st) by (nonlinear_arith)
            requires
                0 <= dx < self.height,
                0 <= dy < st,
        ;
        assert forall|a: int, b: int| #[trigger] self.in_box(a, b) && self.entry(a, b) == self.entry(x, y) implies a == x && b == y by {
            let (ax, ay) = (a - self.min.x, b - self.min.y);
            assert(ax == dx && ay == dy) by (nonlinear_arith)
                requires
                    ax * st + ay == dx * st + dy,
                    0 <= ay < st,
                    0 <= dy < st,
                    ax >= 0,
                    dx >= 0,
            ;
        }
    }

    /// All counters at zero over the box `[min, max]`.
    pub fn new(min: Vector<i32>, max: Vector<i32>) -> (r: Self)
        requires
            counter_box_ok(min, max),
        ensures
            r.wf(),
            r.min_spec() == (Vector { x: min.x as isize, y: min.y as isize }),
            r.max_spec() == max,
            forall|x: int, y: int| #[trigger] r.in_box(x, y) ==> r.count(x, y) == 0,
    {
        let height = (max.x - min.x + 1) as usize;
        let w = (max.y - min.y + 1) as usize;
        let x_shift = ceil_log2(w);
        proof {
            lemma2_to64();
            lemma_pow2_pos(x_shift as nat);
            let p = pow2(x_shift as nat);
            if x_shift > 0 {
                lemma_pow2_unfold(x_shift as nat);
                assert(p == 2 * pow2((x_shift - 1) as nat));
            }
            assert(height * p <= 0x100_0000) by (nonlinear_arith)
                requires
                    p <= 2 * w,
                    height * w <= 0x40_0000,
            ;
            lemma_shl_or(height, 0, x_shift);
            assert((height << x_shift) | 0usize == height << x_shift) by (bit_vector);
        }
        let len = height << x_shift;
        let mut counter: Vec<usize> = Vec::new();
        while counter.len() < len
            invariant
                counter.len() <= len,
                forall|i: int| 0 <= i < counter.len() ==> counter@[i] == 0usize,
            decreases len - counter.len(),
        {
            counter.push(0);
        }
        let r = Self { min: Vector::new(min.x as isize, min.y as isize), max, height, x_shift, counter };
        proof {
            assert forall|x: int, y: int| #[trigger] r.in_box(x, y) implies r.count(x, y) == 0 by {
                r.lemma_entry(x, y);
            }
        }
        r
    }

    /// The low corner of the box.
    pub fn min(&self) -> (r: &Vector<isize>)
        ensures
            *r == self.min_spec(),
    {
        &self.min
    }

    /// The index of the entry of `v`.
    fn index(&self, v: &Vector<isize>) -> (r: usize)
        requires
            self.wf(),
            self.in_box(v.x as int, v.y as int),
        ensures
            r == self.entry(v.x as int, v.y as int),
            r < self.counts().len(),
    {
        proof {
            self.lemma_entry(v.x as int, v.y as int);
            lemma_pow2_pos(self.x_shift as nat);
            let (dx, dy) = ((v.x - self.min.x) as usize, (v.y - self.min.y) as usize);
            assert(dx <= dx * self.stride()) by (nonlinear_arith)
                requires
                    self.stride() >= 1,
            ;
            lemma_shl_or(dx, dy, self.x_shift);
        }
        ((v.x - self.min.x) as usize) << self.x_shift | ((v.y - self.min.y) as usize)
    }

    /// The counter of `v`, or `None` outside the box.
    pub fn get(&self, v: &Vector<isize>) -> (r: Option<usize>)
        requires
            self.wf(),
        ensures
            r == if self.in_box(v.x as int, v.y as int) { Some(self.count(v.x as int, v.y as int)) } else { None },
    {
        if v.x < self.min.x || v.x > self.max.x as isize || v.y < self.min.y || v.y > self.max.y as isize {
            None
        } else {
            Some(self.get_unchecked(v))
        }
    }

    /// The counter of `v`, a point of the box.
    pub fn get_unchecked(&self, v: &Vector<isize>) -> (r: usize)
        requires
            self.wf(),
            self.in_box(v.x as int, v.y as int),
        ensures
            r == self.count(v.x as int, v.y as int),
    {
        let i = self.index(v);
        self.counter[i]
    }

    /// Updating the entry of `v` changes the counter of `v` alone.
    pub proof fn lemma_update(self, other: Self, v: Vector<isize>, val: usize)
        requires
            self.wf(),
            self.in_box(v.x as int, v.y as int),
            other.min_spec() == self.min_spec(),
            other.max_spec() == self.max_spec(),
            other.stride() == self.stride(),
            other.counts() == self.counts().update(self.entry(v.x as int, v.y as int), val),
        ensures
            forall|x: int, y: int| #[trigger] other.in_box(x, y) ==> other.count(x, y) == if x == v.x && y == v.y {
                val
            } else {
                self.count(x, y)
            },
    {
        assert forall|x: int, y: int| #[trigger] other.in_box(x, y) implies other.count(x, y) == if x == v.x && y == v.y {
            val
        } else {
            self.count(x, y)
        } by {
            self.lemma_entry(v.x as int, v.y as int);
            self.lemma_entry(x, y);
        }
    }

    /// The counter of `v`, a point of the box, to update in place.
    pub fn get_mut(&mut self, v: &Vector<isize>) -> (r: &mut usize)
        requires
            old(self).wf(),
            old(self).in_box(v.x as int, v.y as int),
        ensures
            *r == old(self).count(v.x as int, v.y as int),
            final(self).wf(),
            final(self).min_spec() == old(self).min_spec(),
            final(self).max_spec() == old(self).max_spec(),
            final(self).stride() == old(self).stride(),
            final(self).counts() == old(self).counts().update(old(self).entry(v.x as int, v.y as int), *final(r)),
    {
        let i = self.index(v);
        &mut self.counter[i]
    }
}

} // verus!
