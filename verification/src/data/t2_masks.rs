use vstd::prelude::*;
use vstd::arithmetic::power2::{pow2, lemma_pow2_pos, lemma_pow2_unfold, lemma2_to64};
use crate::data::sparse_t2_rect::{SparseT2Rect, ceil_log2, is_ceil_log2, lemma_shl_or};
use crate::data::vector::Vector;

verus! {

/// A mask for each point of the box `[min, max]` (of sides multiple of 4), with, for
/// each mask value, the grid of the points that hold it.
#[derive(Clone, Debug, PartialEq, Eq)]
pub struct T2Masks {
    min: Vector<i32>,
    max: Vector<i32>,
    height: usize,
    width: usize,
    x_shift: usize,
    masks: Vec<usize>,
    rects: Vec<SparseT2Rect>,
}

/// The box suits the masks: sides multiple of 4, small enough to index.
pub open spec fn masks_box_ok(min: Vector<i32>, max: Vector<i32>) -> bool {
    &&& min.x <= max.x
    &&& min.y <= max.y
    &&& (max.x - min.x + 1) % 4 == 0
    &&& (max.y - min.y + 1) % 4 == 0
    &&& -0x1000_0000 < min.x
    &&& -0x1000_0000 < min.y
    &&& max.x < 0x1000_0000
    &&& max.y < 0x1000_0000
    &&& (max.x - min.x + 1) * (max.y - min.y + 1) <= 0x40_0000
}

impl T2Masks {
    pub closed spec fn min_spec(self) -> Vector<i32> {
        self.min
    }

    pub closed spec fn max_spec(self) -> Vector<i32> {
        self.max
    }

    pub closed spec fn stride(self) -> nat {
        pow2(self.x_shift as nat)
    }

    /// The largest mask value.
    pub closed spec fn full(self) -> nat {
        (self.rects@.len() - 1) as nat
    }

    /// Whether `(x, y)` lies in the box.
    pub open spec fn in_box(self, x: int, y: int) -> bool {
        self.min_spec().x <= x <= self.max_spec().x && self.min_spec().y <= y <= self.max_spec().y
    }

    pub closed spec fn entry(self, x: int, y: int) -> int {
        (x - self.min.x) * self.stride() + (y - self.min.y)
    }

    /// The mask of the point `(x, y)` of the box.
    pub closed spec fn mask(self, x: int, y: int) -> usize {
        self.masks@[self.entry(x, y)]
    }

    /// The grid of the points whose mask is `m`, in coordinates relative to `min`: all of
    /// them for a nonzero `m`, and for 0 those whose mask went back to 0.
    pub closed spec fn grid(self, m: int) -> SparseT2Rect {
        self.rects@[m]
    }

    /// The consistency of the representation: every mask is at most `full`, and the grid
    /// of `m` flags exactly the points whose mask is `m`.
    pub closed spec fn wf(self) -> bool {
        &&& self.index_ok()
        &&& self.rects@.len() >= 1
        &&& forall|m: int| 0 <= m < self.rects@.len() ==> {
            let r = #[trigger] self.rects@[m];
            &&& r.wf()
            &&& 4 * r.hb() == self.height
            &&& 4 * r.wb() == self.width
        }
        &&& forall|x: int, y: int| #[trigger] self.in_box(x, y) ==> self.mask(x, y) <= self.full()
        &&& forall|m: int, cx: int, cy: int| 1 <= m < self.rects@.len() ==> #[trigger] self.rects@[m].cell(cx, cy) == (self.in_box(
            self.min.x + cx,
            self.min.y + cy,
        ) && self.mask(self.min.x + cx, self.min.y + cy) == m)
        &&& forall|cx: int, cy: int| #[trigger] self.rects@[0].cell(cx, cy) ==> self.in_box(self.min.x + cx, self.min.y + cy)
            && self.mask(self.min.x + cx, self.min.y + cy) == 0
    }

    /// The masks are laid out over the box.
    closed spec fn index_ok(self) -> bool {
        &&& masks_box_ok(self.min, self.max)
        &&& self.height == self.max.x - self.min.x + 1
        &&& self.width == self.max.y - self.min.y + 1
        &&& is_ceil_log2(self.width as nat, self.x_shift as nat)
        &&& self.x_shift <= 30
        &&& self.masks@.len() == self.height * self.stride()
        &&& self.height * self.stride() <= 0x100_0000
    }

    /// Every entry of the box is an index of the masks.
    proof fn lemma_entry(self, x: int, y: int)
        requires
            self.index_ok(),
            self.in_box(x, y),
        ensures
            0 <= self.entry(x, y) < self.masks@.len(),
            forall|a: int, b: int| #[trigger] self.in_box(a, b) && self.entry(a, b) == self.entry(x, y) ==> a == x && b == y,
    {
        lemma_pow2_pos(self.x_shift as nat);
        let st = self.stride() as int;
        let (dx, dy) = (x - self.min.x, y - self.min.y);
        assert(dy < st);
        assert(0 <= dx * st + dy < self.height * st) by (nonlinear_arith)
            requires
                0 <= dx < self.height,
                0 <= dy < st,
        ;
        assert forall|a: int, b: int| #[trigger] self.in_box(a, b) && self.entry(a, b) == self.entry(x, y) implies a == x && b == y by {
            let (ax, ay) = (a - self.min.x, b - self.min.y);
            assert(ax == dx && ay == dy) by (nonlinear_arith)
                requires
                    ax * st + ay == dx * st + dy,
                    0 <= ay < st,
                    0 <= dy < st,
                    ax >= 0,
                    dx >= 0,
            ;
        }
    }

    /// The box suits the masks.
    pub proof fn lemma_box(self)
        requires
            self.wf(),
        ensures
            masks_box_ok(self.min_spec(), self.max_spec()),
    {
    }

    /// Every mask of the box is at most `full`.
    pub proof fn lemma_mask_bound(self, x: int, y: int)
        requires
            self.wf(),
            self.in_box(x, y),
        ensures
            self.mask(x, y) <= self.full(),
    {
    }

    /// Every point of the box `[min, max]` with mask 0; masks go up to `full_mask`.
    pub fn new(min: Vector<i32>, max: Vector<i32>, full_mask: usize) -> (r: Self)
        requires
            masks_box_ok(min, max),
            full_mask < 0x8000_0000,
        ensures
            r.wf(),
            r.min_spec() == min,
            r.max_spec() == max,
            r.full() == full_mask,
            forall|x: int, y: int| #[trigger] r.in_box(x, y) ==> r.mask(x, y) == 0,
    {
        let height = (max.x - min.x + 1) as usize;
        let width = (max.y - min.y + 1) as usize;
        let x_shift = ceil_log2(width);
        proof {
            lemma2_to64();
            lemma_pow2_pos(x_shift as nat);
            let p = pow2(x_shift as nat);
            if x_shift > 0 {
                lemma_pow2_unfold(x_shift as nat);
                assert(p == 2 * pow2((x_shift - 1) as nat));
            }
            assert(height * p <= 0x100_0000) by (nonlinear_arith)
                requires
                    p <= 2 * width,
                    height * width <= 0x40_0000,
            ;
            lemma_shl_or(height, 0, x_shift);
            assert((height << x_shift) | 0usize == height << x_shift) by (bit_vector);
            assert(height <= 0x40_0000 && width <= 0x40_0000) by (nonlinear_arith)
                requires
                    height * width <= 0x40_0000,
                    height >= 1,
                    width >= 1,
            ;
            assert((height / 4) * (width / 4) <= 0x40_0000) by (nonlinear_arith)
                requires
                    height * width <= 0x40_0000,
                    height >= 0,
                    width >= 0,
            ;
        }
        let len = height << x_shift;
        let mut masks: Vec<usize> = Vec::new();
        while masks.len() < len
            invariant
                masks.len() <= len,
                forall|i: int| 0 <= i < masks.len() ==> masks@[i] == 0usize,
            decreases len - masks.len(),
        {
            masks.push(0);
        }
        let mut rects: Vec<SparseT2Rect> = Vec::new();
        while rects.len() <= full_mask
            invariant
                rects.len() <= full_mask + 1,
                full_mask < 0x8000_0000,
                height % 4 == 0,
                width % 4 == 0,
                height <= 0x1000_0000,
                width <= 0x1000_0000,
                (height / 4) * (width / 4) <= 0x40_0000,
                forall|m: int| 0 <= m < rects.len() ==> {
                    let r = #[trigger] rects@[m];
                    &&& r.wf()
                    &&& 4 * r.hb() == height
                    &&& 4 * r.wb() == width
                    &&& forall|cx: int, cy: int| !#[trigger] r.cell(cx, cy)
                },
            decreases full_mask + 1 - rects.len(),
        {
            let rect = SparseT2Rect::new(height, width);
            let ghost prev = rects@;
            rects.push(rect);
            proof {
                assert forall|m: int| 0 <= m < rects.len() implies {
                    let r = #[trigger] rects@[m];
                    &&& r.wf()
                    &&& 4 * r.hb() == height
                    &&& 4 * r.wb() == width
                    &&& forall|cx: int, cy: int| !#[trigger] r.cell(cx, cy)
                } by {
                    if m < prev.len() {
                        assert(rects@[m] == prev[m]);
                    }
                }
            }
        }
        let r = Self { min, max, height, width, x_shift, masks, rects };
        proof {
            assert forall|x: int, y: int| #[trigger] r.in_box(x, y) implies r.mask(x, y) == 0 by {
                r.lemma_entry(x, y);
            }
            assert forall|m: int, cx: int, cy: int| 1 <= m < r.rects@.len() implies #[trigger] r.rects@[m].cell(cx, cy) == (r.in_box(
                min.x + cx,
                min.y + cy,
            ) && r.mask(min.x + cx, min.y + cy) == m) by {
                assert(!r.rects@[m].cell(cx, cy));
                if r.in_box(min.x + cx, min.y + cy) {
                    r.lemma_entry(min.x + cx, min.y + cy);
                }
            }
            assert forall|cx: int, cy: int| #[trigger] r.rects@[0].cell(cx, cy) implies r.in_box(min.x + cx, min.y + cy)
                && r.mask(min.x + cx, min.y + cy) == 0 by {
                assert(!r.rects@[0].cell(cx, cy));
            }
        }
        r
    }

    /// The low corner of the box.
    pub fn min(&self) -> (r: &Vector<i32>)
        ensures
            *r == self.min_spec(),
    {
        &self.min
    }

    /// The high corner of the box.
    pub fn max(&self) -> (r: &Vector<i32>)
        ensures
            *r == self.max_spec(),
    {
        &self.max
    }

    /// The number of rows of the box.
    pub fn height(&self) -> (r: usize)
        requires
            self.wf(),
        ensures
            r == self.max_spec().x - self.min_spec().x + 1,
    {
        self.height
    }

    /// The number of columns of the box.
    pub fn width(&self) -> (r: usize)
        requires
            self.wf(),
        ensures
            r == self.max_spec().y - self.min_spec().y + 1,
    {
        self.width
    }

    /// Flips the bits `i` of the mask of the point `v` and returns the new mask.
    pub fn flip(&mut self, v: &Vector<i32>, i: usize) -> (r: usize)
        requires
            old(self).wf(),
            old(self).in_box(v.x as int, v.y as int),
            old(self).mask(v.x as int, v.y as int) ^ i <= old(self).full(),
        ensures
            final(self).wf(),
            final(self).min_spec() == old(self).min_spec(),
            final(self).max_spec() == old(self).max_spec(),
            final(self).full() == old(self).full(),
            r == old(self).mask(v.x as int, v.y as int) ^ i,
            forall|x: int, y: int| #[trigger] final(self).in_box(x, y) ==> final(self).mask(x, y) == if x == v.x && y == v.y {
                r
            } else {
                old(self).mask(x, y)
            },
    {
        let ghost o = *old(self);
        let px = (v.x as isize - self.min.x as isize) as usize;
        let py = (v.y as isize - self.min.y as isize) as usize;
        let p = Vector::new(px, py);
        proof {
            o.lemma_entry(v.x as int, v.y as int);
            lemma_pow2_pos(self.x_shift as nat);
            assert(px <= px * self.stride()) by (nonlinear_arith)
                requires
                    self.stride() >= 1,
            ;
            lemma_shl_or(px, py, self.x_shift);
        }
        let k = px << self.x_shift | py;
        let m = self.masks[k];
        proof {
            let r = o.rects@[m as int];
            assert(r.wf() && 4 * r.hb() == o.height && 4 * r.wb() == o.width);
        }
        self.rects[m].clear(&p);
        let ghost after_clear = self.rects@;
        let m2 = m ^ i;
        self.masks.set(k, m2);
        proof {
            let r = after_clear[m2 as int];
            assert(r.wf() && 4 * r.hb() == o.height && 4 * r.wb() == o.width);
        }
        self.rects[m2].set(&p);
        proof {
            let s = *self;
            assert(s.masks@.len() == o.masks@.len());
            assert(s.rects@.len() == o.rects@.len());
            assert forall|mm: int, cx: int, cy: int| 0 <= mm < s.rects@.len() implies #[trigger] s.rects@[mm].cell(cx, cy) == (o.rects@[mm].cell(
                cx,
                cy,
            ) && !(mm == m && cx == px && cy == py) || (mm == m2 && cx == px && cy == py)) by {
                if mm != m2 {
                    assert(s.rects@[mm] == after_clear[mm]);
                }
                if mm != m {
                    assert(after_clear[mm] == o.rects@[mm]);
                }
            }
            assert forall|x: int, y: int| #[trigger] s.in_box(x, y) implies s.mask(x, y) == if x == v.x && y == v.y {
                m2
            } else {
                o.mask(x, y)
            } && s.mask(x, y) <= s.full() by {
                o.lemma_entry(x, y);
                assert(o.in_box(x, y));
            }
            assert forall|mm: int| 0 <= mm < s.rects@.len() implies {
                let r = #[trigger] s.rects@[mm];
                &&& r.wf()
                &&& 4 * r.hb() == s.height
                &&& 4 * r.wb() == s.width
            } by {
                assert(o.rects@[mm].wf());
            }
            assert forall|mm: int, cx: int, cy: int| 1 <= mm < s.rects@.len() implies #[trigger] s.rects@[mm].cell(cx, cy) == (s.in_box(
                s.min.x + cx,
                s.min.y + cy,
            ) && s.mask(s.min.x + cx, s.min.y + cy) == mm) by {
                assert(o.rects@[mm].cell(cx, cy) == (o.in_box(o.min.x + cx, o.min.y + cy) && o.mask(o.min.x + cx, o.min.y + cy) == mm));
                assert(s.rects@[mm].cell(cx, cy) == (o.rects@[mm].cell(cx, cy) && !(mm == m && cx == px && cy == py) || (mm == m2 && cx == px && cy == py)));
                if s.in_box(s.min.x + cx, s.min.y + cy) {
                    o.lemma_entry(s.min.x + cx, s.min.y + cy);
                    assert(s.in_box(s.min.x + cx, s.min.y + cy));
                }
            }
            assert forall|cx: int, cy: int| #[trigger] s.rects@[0].cell(cx, cy) implies s.in_box(s.min.x + cx, s.min.y + cy)
                && s.mask(s.min.x + cx, s.min.y + cy) == 0 by {
                assert(s.rects@[0].cell(cx, cy) == (o.rects@[0].cell(cx, cy) && !(0 == m && cx == px && cy == py) || (0 == m2 && cx == px && cy == py)));
                if o.rects@[0].cell(cx, cy) {
                    assert(o.in_box(o.min.x + cx, o.min.y + cy));
                }
                assert(s.in_box(s.min.x + cx, s.min.y + cy));
            }
        }
        m2
    }

    /// The mask at row `x` and column `y` of the box, counted from `min`.
    pub fn get_raw(&self, x: usize, y: usize) -> (r: usize)
        requires
            self.wf(),
            x < self.max_spec().x - self.min_spec().x + 1,
            y < self.max_spec().y - self.min_spec().y + 1,
        ensures
            r == self.mask(self.min_spec().x + x, self.min_spec().y + y),
    {
        proof {
            self.lemma_entry(self.min.x + x, self.min.y + y);
            lemma_pow2_pos(self.x_shift as nat);
            assert(x <= x * self.stride()) by (nonlinear_arith)
                requires
                    self.stride() >= 1,
            ;
            lemma_shl_or(x, y, self.x_shift);
        }
        self.masks[x << self.x_shift | y]
    }

    /// The grid of the points whose mask is `mask`, relative to `min`.
    pub(crate) fn rect(&self, mask: usize) -> (r: &SparseT2Rect)
        requires
            self.wf(),
            mask <= self.full(),
        ensures
            *r == self.grid(mask as int),
            r.wf(),
            4 * r.hb() == self.max_spec().x - self.min_spec().x + 1,
            4 * r.wb() == self.max_spec().y - self.min_spec().y + 1,
            mask >= 1 ==> forall|cx: int, cy: int| #[trigger] r.cell(cx, cy) == (self.in_box(self.min_spec().x + cx, self.min_spec().y + cy)
                && self.mask(self.min_spec().x + cx, self.min_spec().y + cy) == mask),
            forall|cx: int, cy: int| #[trigger] r.cell(cx, cy) ==> self.in_box(self.min_spec().x + cx, self.min_spec().y + cy)
                && self.mask(self.min_spec().x + cx, self.min_spec().y + cy) == mask,
    {
        &self.rects[mask]
    }
}

} // verus!
