use vstd::prelude::*;
use vstd::arithmetic::power2::{pow2, lemma_pow2_pos, lemma_pow2_unfold, lemma_pow2_strictly_increases, lemma2_to64};
use vstd::bits::lemma_usize_shl_is_mul;
use crate::data::vector::Vector;

verus! {

/// Bit `k` of a 16-bit word.
pub open spec fn bit16(c: u16, k: int) -> bool {
    (c >> (k as u16)) & 1u16 == 1u16
}

/// How a single-bit flip, set or clear acts on the bits of a 16-bit word.
proof fn lemma_bit16_update(c: u16, k: u16, j: u16)
    by (bit_vector)
    requires
        k < 16,
        j < 16,
    ensures
        ((c ^ (1u16 << k)) >> j) & 1u16 == 1u16 <==> (((c >> j) & 1u16 == 1u16) != (j == k)),
        ((c | (1u16 << k)) >> j) & 1u16 == 1u16 <==> (((c >> j) & 1u16 == 1u16) || j == k),
        ((c & !(1u16 << k)) >> j) & 1u16 == 1u16 <==> (((c >> j) & 1u16 == 1u16) && j != k),
        ((c >> k) & 1u16 != 0u16) == ((c >> k) & 1u16 == 1u16),
{
}

/// The bits of a conjunction of 16-bit words.
proof fn lemma_bit16_and(a: u16, c: u16, j: u16)
    by (bit_vector)
    requires
        j < 16,
    ensures
        ((a & c) >> j) & 1u16 == 1u16 <==> (((a >> j) & 1u16 == 1u16) && ((c >> j) & 1u16 == 1u16)),
{
}

/// The order in which `iter` lists cells: blocks from the last to the first, and in a
/// block the places in increasing order.
pub open spec fn iter_before(a: Vector<i32>, b: Vector<i32>) -> bool {
    let (ax, ay, bx, by) = (a.x / 4, a.y / 4, b.x / 4, b.y / 4);
    ax > bx || (ax == bx && (ay > by || (ay == by && SparseT2Rect::place(a.x as int, a.y as int) < SparseT2Rect::place(
        b.x as int,
        b.y as int,
    ))))
}

/// The order in which `and_iter` lists cells, relative to `origin`: blocks in increasing
/// order, and in a block the places in increasing order.
pub open spec fn and_iter_before(origin: Vector<usize>, a: Vector<i32>, b: Vector<i32>) -> bool {
    let (ax, ay, bx, by) = ((a.x - origin.x) / 4, (a.y - origin.y) / 4, (b.x - origin.x) / 4, (b.y - origin.y) / 4);
    ax < bx || (ax == bx && (ay < by || (ay == by && SparseT2Rect::place(a.x as int, a.y as int) < SparseT2Rect::place(
        b.x as int,
        b.y as int,
    ))))
}

/// Splitting a coordinate into its block and its place in the block.
proof fn lemma_split4(v: usize)
    by (bit_vector)
    ensures
        v >> 2usize == v / 4,
        v & 3usize == v % 4,
        (v >> 2usize) << 2usize == v - v % 4,
{
}

/// `a << s | b` is `a * 2^s + b` when `b` is below `2^s` and nothing overflows.
pub proof fn lemma_shl_or(a: usize, b: usize, s: usize)
    requires
        s < 32,
        b < pow2(s as nat),
        a * pow2(s as nat) + b < 0x1_0000_0000,
    ensures
        (a << s) | b == a * pow2(s as nat) + b,
{
    lemma2_to64();
    if s < 31 {
        lemma_pow2_strictly_increases(s as nat, 31);
    }
    lemma_pow2_pos(s as nat);
    let p = pow2(s as nat);
    assert(a <= a * p) by (nonlinear_arith)
        requires
            p >= 1,
    ;
    lemma_usize_shl_is_mul(a, s);
    lemma_usize_shl_is_mul(1, s);
    let sh = a << s;
    assert(sh | b == sh + b) by (bit_vector)
        requires
            s < 32,
            b < (1usize << s),
            sh == a << s,
            sh + b < 0x1_0000_0000,
    ;
}

/// The smallest `s` with `n <= 2^s`: the exponent of `n.next_power_of_two()`.
pub open spec fn is_ceil_log2(n: nat, s: nat) -> bool {
    &&& n <= pow2(s)
    &&& (s == 0 || pow2((s - 1) as nat) < n)
}

/// The exponent of the smallest power of two at least `n`.
pub fn ceil_log2(n: usize) -> (s: usize)
    requires
        n <= 0x4000_0000,
    ensures
        is_ceil_log2(n as nat, s as nat),
        s <= 30,
{
    proof {
        lemma2_to64();
    }
    let mut s: usize = 0;
    let mut p: usize = 1;
    while p < n
        invariant
            p == pow2(s as nat),
            p >= 1,
            s <= 30,
            n <= 0x4000_0000,
            s == 0 || pow2((s - 1) as nat) < n,
            p <= 0x4000_0000,
        decreases 0x4000_0000 - p,
    {
        proof {
            lemma2_to64();
            lemma_pow2_unfold((s + 1) as nat);
            assert(s < 30) by {
                if s == 30 {
                    assert(p == 0x4000_0000);
                }
            }
        }
        p = p * 2;
        s = s + 1;
    }
    s
}

/// A `height x width` grid of flags (both multiples of 4), kept in 4x4 blocks of 16 bits;
/// block rows are `2^x_shift` blocks apart.
#[derive(Debug, Clone, PartialEq, Eq, Hash)]
pub struct SparseT2Rect {
    height: usize,
    width: usize,
    x_shift: usize,
    components: Vec<u16>,
}

impl SparseT2Rect {
    /// The number of block rows.
    pub closed spec fn hb(self) -> nat {
        self.height as nat
    }

    /// The number of block columns.
    pub closed spec fn wb(self) -> nat {
        self.width as nat
    }

    /// The distance between block rows.
    pub closed spec fn stride(self) -> nat {
        pow2(self.x_shift as nat)
    }

    /// The index of the block of `(x, y)`.
    pub open spec fn block(self, x: int, y: int) -> int {
        (x / 4) * self.stride() + y / 4
    }

    /// The place of `(x, y)` in its block.
    pub open spec fn place(x: int, y: int) -> int {
        (x % 4) * 4 + y % 4
    }

    pub closed spec fn comps(self) -> Seq<u16> {
        self.components@
    }

    /// The consistency of the representation.
    pub open spec fn wf(self) -> bool {
        &&& is_ceil_log2(self.wb(), self.stride_exp())
        &&& self.stride_exp() <= 30
        &&& self.comps().len() == self.hb() * self.stride()
        &&& self.hb() * self.stride() <= 0x1000_0000
        &&& self.wb() <= 0x1000_0000
        &&& self.hb() <= 0x1000_0000
    }

    pub closed spec fn stride_exp(self) -> nat {
        self.x_shift as nat
    }

    /// Whether the flag at `(x, y)` is set.
    pub open spec fn cell(self, x: int, y: int) -> bool {
        0 <= x < 4 * self.hb() && 0 <= y < 4 * self.wb() && bit16(self.comps()[self.block(x, y)], Self::place(x, y))
    }

    proof fn lemma_stride(self)
        requires
            self.wf(),
        ensures
            self.stride() == pow2(self.stride_exp()),
            self.wb() <= self.stride(),
            self.stride() >= 1,
    {
        lemma_pow2_pos(self.stride_exp());
    }

    /// The block index of `(x, y)` lies in the components, and differs for cells of
    /// different blocks.
    proof fn lemma_block(self, x: int, y: int)
        requires
            self.wf(),
            0 <= x < 4 * self.hb(),
            0 <= y < 4 * self.wb(),
        ensures
            0 <= self.block(x, y) < self.comps().len(),
            0 <= Self::place(x, y) < 16,
            forall|a: int, b: int| 0 <= a < 4 * self.hb() && 0 <= b < 4 * self.wb() && #[trigger] self.block(a, b) == self.block(x, y)
                && Self::place(a, b) == Self::place(x, y) ==> a == x && b == y,
    {
        self.lemma_stride();
        let st = self.stride() as int;
        let (bx, by) = (x / 4, y / 4);
        assert(bx < self.hb());
        assert(by < st);
        assert(bx * st + by < self.hb() * st) by (nonlinear_arith)
            requires
                0 <= bx < self.hb(),
                0 <= by < st,
        ;
        assert(bx * st >= 0) by (nonlinear_arith)
            requires
                bx >= 0,
                st >= 1,
        ;
        assert forall|a: int, b: int| 0 <= a < 4 * self.hb() && 0 <= b < 4 * self.wb() && #[trigger] self.block(a, b) == self.block(x, y)
            && Self::place(a, b) == Self::place(x, y) implies a == x && b == y by {
            let (ax, ay) = (a / 4, b / 4);
            assert(ay < st);
            assert(ax == bx && ay == by) by (nonlinear_arith)
                requires
                    ax * st + ay == bx * st + by,
                    0 <= ay < st,
                    0 <= by < st,
                    ax >= 0,
                    bx >= 0,
            ;
        }
    }

    /// An all-clear grid of `height x width` flags.
    pub fn new(height: usize, width: usize) -> (r: Self)
        requires
            height % 4 == 0,
            width % 4 == 0,
            width <= 0x1000_0000,
            height <= 0x1000_0000,
            (height / 4) * (width / 4) <= 0x40_0000,
        ensures
            r.wf(),
            r.hb() == height / 4,
            r.wb() == width / 4,
            forall|x: int, y: int| !#[trigger] r.cell(x, y),
    {
        let h = height / 4;
        let w = width / 4;
        let x_shift = ceil_log2(w);
        proof {
            lemma2_to64();
            lemma_pow2_pos(x_shift as nat);
            if x_shift > 0 {
                lemma_pow2_unfold(x_shift as nat);
            }
            let p = pow2(x_shift as nat);
            if x_shift > 0 {
                assert(p == 2 * pow2((x_shift - 1) as nat));
                assert(p <= 2 * w);
            }
            assert(h <= h * p) by (nonlinear_arith)
                requires
                    p >= 1,
            ;
            assert(h * p <= 0x1000_0000) by (nonlinear_arith)
                requires
                    p <= 2 * w || p == 1,
                    h * w <= 0x40_0000,
                    h <= 0x400_0000,
            ;
            lemma_shl_or(h, 0, x_shift);
            assert((h << x_shift) | 0usize == h << x_shift) by (bit_vector);
        }
        let len = h << x_shift;
        let mut components: Vec<u16> = Vec::new();
        while components.len() < len
            invariant
                components.len() <= len,
                forall|i: int| 0 <= i < components.len() ==> components@[i] == 0u16,
            decreases len - components.len(),
        {
            components.push(0);
        }
        let r = Self { height: h, width: w, x_shift, components };
        proof {
            assert forall|x: int, y: int| !#[trigger] r.cell(x, y) by {
                if 0 <= x < 4 * r.hb() && 0 <= y < 4 * r.wb() {
                    r.lemma_block(x, y);
                    let k = Self::place(x, y) as u16;
                    assert((0u16 >> k) & 1u16 == 0u16) by (bit_vector);
                }
            }
        }
        r
    }

    /// The number of rows.
    pub fn height(&self) -> (r: usize)
        requires
            self.wf(),
        ensures
            r == 4 * self.hb(),
    {
        let h = self.height;
        proof {
            self.lemma_stride();
            assert(self.hb() <= self.hb() * self.stride()) by (nonlinear_arith)
                requires
                    self.stride() >= 1,
            ;
            assert(h << 2usize == h * 4) by (bit_vector)
                requires
                    h <= 0x1000_0000,
            ;
        }
        h << 2
    }

    /// The number of columns.
    pub fn width(&self) -> (r: usize)
        requires
            self.wf(),
        ensures
            r == 4 * self.wb(),
    {
        let w = self.width;
        proof {
            self.lemma_stride();
            assert(w << 2usize == w * 4) by (bit_vector)
                requires
                    w <= 0x1000_0000,
            ;
        }
        w << 2
    }

    /// The component index and the bit of the cell `(x, y)`.
    fn locate(&self, x: usize, y: usize) -> (r: (usize, u16))
        requires
            self.wf(),
            x < 4 * self.hb(),
            y < 4 * self.wb(),
        ensures
            r.0 == self.block(x as int, y as int),
            r.0 < self.comps().len(),
            r.1 == Self::place(x as int, y as int),
            r.1 < 16,
    {
        proof {
            self.lemma_block(x as int, y as int);
            lemma_split4(x);
            lemma_split4(y);
            self.lemma_stride();
            lemma_shl_or(x / 4, y / 4, self.x_shift);
            let k = ((x & 3usize) << 2usize) | (y & 3usize);
            assert(k == (x % 4) * 4 + y % 4) by (bit_vector)
                requires
                    k == ((x & 3usize) << 2usize) | (y & 3usize),
            ;
        }
        let i = (x >> 2) << self.x_shift | (y >> 2);
        let k = ((x & 3) << 2 | (y & 3)) as u16;
        (i, k)
    }

    /// Flips the flag at `v`.
    pub fn flip(&mut self, v: Vector<usize>)
        requires
            old(self).wf(),
            v.x < 4 * old(self).hb(),
            v.y < 4 * old(self).wb(),
        ensures
            final(self).wf(),
            final(self).hb() == old(self).hb(),
            final(self).wb() == old(self).wb(),
            forall|x: int, y: int| #[trigger] final(self).cell(x, y) == (old(self).cell(x, y) != (x == v.x && y == v.y)),
    {
        let (i, k) = self.locate(v.x, v.y);
        let c = self.components[i];
        self.components.set(i, c ^ (1u16 << k));
        proof {
            let o = *old(self);
            assert forall|x: int, y: int| #[trigger] self.cell(x, y) == (o.cell(x, y) != (x == v.x && y == v.y)) by {
                if 0 <= x < 4 * o.hb() && 0 <= y < 4 * o.wb() {
                    o.lemma_block(x, y);
                    o.lemma_block(v.x as int, v.y as int);
                    lemma_bit16_update(o.comps()[o.block(x, y)], k, Self::place(x, y) as u16);
                }
            }
        }
    }

    /// Clears the flag at `v`.
    pub(crate) fn clear(&mut self, v: &Vector<usize>)
        requires
            old(self).wf(),
            v.x < 4 * old(self).hb(),
            v.y < 4 * old(self).wb(),
        ensures
            final(self).wf(),
            final(self).hb() == old(self).hb(),
            final(self).wb() == old(self).wb(),
            forall|x: int, y: int| #[trigger] final(self).cell(x, y) == (old(self).cell(x, y) && !(x == v.x && y == v.y)),
    {
        let (i, k) = self.locate(v.x, v.y);
        let c = self.components[i];
        self.components.set(i, c & !(1u16 << k));
        proof {
            let o = *old(self);
            assert forall|x: int, y: int| #[trigger] self.cell(x, y) == (o.cell(x, y) && !(x == v.x && y == v.y)) by {
                if 0 <= x < 4 * o.hb() && 0 <= y < 4 * o.wb() {
                    o.lemma_block(x, y);
                    o.lemma_block(v.x as int, v.y as int);
                    lemma_bit16_update(o.comps()[o.block(x, y)], k, Self::place(x, y) as u16);
                }
            }
        }
    }

    /// Sets the flag at `v`.
    pub(crate) fn set(&mut self, v: &Vector<usize>)
        requires
            old(self).wf(),
            v.x < 4 * old(self).hb(),
            v.y < 4 * old(self).wb(),
        ensures
            final(self).wf(),
            final(self).hb() == old(self).hb(),
            final(self).wb() == old(self).wb(),
            forall|x: int, y: int| #[trigger] final(self).cell(x, y) == (old(self).cell(x, y) || (x == v.x && y == v.y)),
    {
        let (i, k) = self.locate(v.x, v.y);
        let c = self.components[i];
        self.components.set(i, c | (1u16 << k));
        proof {
            let o = *old(self);
            assert forall|x: int, y: int| #[trigger] self.cell(x, y) == (o.cell(x, y) || (x == v.x && y == v.y)) by {
                if 0 <= x < 4 * o.hb() && 0 <= y < 4 * o.wb() {
                    o.lemma_block(x, y);
                    o.lemma_block(v.x as int, v.y as int);
                    lemma_bit16_update(o.comps()[o.block(x, y)], k, Self::place(x, y) as u16);
                }
            }
        }
    }

    /// Whether the flag at `v` is set.
    pub fn get(&self, v: &Vector<i32>) -> (r: bool)
        requires
            self.wf(),
            0 <= v.x < 4 * self.hb(),
            0 <= v.y < 4 * self.wb(),
        ensures
            r == self.cell(v.x as int, v.y as int),
    {
        let (i, k) = self.locate(v.x as usize, v.y as usize);
        proof {
            lemma_bit16_update(self.comps()[i as int], k, k);
        }
        (self.components[i] >> k) & 1 != 0
    }

    /// The index of block `(bx, by)`.
    fn block_index(&self, bx: usize, by: usize) -> (r: usize)
        requires
            self.wf(),
            bx < self.hb(),
            by < self.wb(),
        ensures
            r == bx * self.stride() + by,
            r < self.comps().len(),
    {
        proof {
            self.lemma_block(4 * bx as int, 4 * by as int);
            assert((4 * bx as int) / 4 == bx && (4 * by as int) / 4 == by);
            self.lemma_stride();
            lemma_shl_or(bx, by, self.x_shift);
        }
        bx << self.x_shift | by
    }

    /// The set flags, block by block from the last block to the first, and in a block by
    /// increasing place.
    pub fn iter(&self) -> (r: Vec<Vector<i32>>)
        requires
            self.wf(),
        ensures
            forall|j: int| 0 <= j < r.len() ==> self.cell(#[trigger] r@[j].x as int, r@[j].y as int),
            forall|x: int, y: int| #[trigger] self.cell(x, y) ==> r@.contains(Vector { x: x as i32, y: y as i32 }),
            forall|i: int, j: int| 0 <= i < j < r.len() ==> iter_before(r@[i], r@[j]),
    {
        let mut res: Vec<Vector<i32>> = Vec::new();
        let mut bx = self.height;
        while bx > 0
            invariant
                self.wf(),
                bx <= self.hb(),
                forall|j: int| 0 <= j < res.len() ==> self.cell(#[trigger] res@[j].x as int, res@[j].y as int) && res@[j].x / 4 >= bx,
                forall|x: int, y: int| #[trigger] self.cell(x, y) && x / 4 >= bx ==> res@.contains(Vector { x: x as i32, y: y as i32 }),
                forall|i: int, j: int| 0 <= i < j < res.len() ==> iter_before(res@[i], res@[j]),
            decreases bx,
        {
            bx -= 1;
            let mut by = self.width;
            while by > 0
                invariant
                    self.wf(),
                    bx < self.hb(),
                    by <= self.wb(),
                    forall|j: int| 0 <= j < res.len() ==> self.cell(#[trigger] res@[j].x as int, res@[j].y as int) && (res@[j].x / 4 > bx
                        || (res@[j].x / 4 == bx && res@[j].y / 4 >= by)),
                    forall|x: int, y: int| #[trigger] self.cell(x, y) && (x / 4 > bx || (x / 4 == bx && y / 4 >= by)) ==> res@.contains(
                        Vector { x: x as i32, y: y as i32 },
                    ),
                    forall|i: int, j: int| 0 <= i < j < res.len() ==> iter_before(res@[i], res@[j]),
                decreases by,
            {
                by -= 1;
                let i = self.block_index(bx, by);
                let c = self.components[i];
                let mut k: u16 = 0;
                while k < 16
                    invariant
                        self.wf(),
                        bx < self.hb(),
                        by < self.wb(),
                        k <= 16,
                        i == bx * self.stride() + by,
                        i < self.comps().len(),
                        c == self.comps()[i as int],
                        forall|j: int| 0 <= j < res.len() ==> self.cell(#[trigger] res@[j].x as int, res@[j].y as int) && (res@[j].x / 4 > bx
                            || (res@[j].x / 4 == bx && res@[j].y / 4 > by) || (res@[j].x / 4 == bx && res@[j].y / 4 == by
                            && Self::place(res@[j].x as int, res@[j].y as int) < k)),
                        forall|x: int, y: int| #[trigger] self.cell(x, y) && (x / 4 > bx || (x / 4 == bx && y / 4 > by) || (x / 4 == bx
                            && y / 4 == by && Self::place(x, y) < k)) ==> res@.contains(Vector { x: x as i32, y: y as i32 }),
                        forall|i: int, j: int| 0 <= i < j < res.len() ==> iter_before(res@[i], res@[j]),
                    decreases 16 - k,
                {
                    proof {
                        lemma_bit16_update(c, k, k);
                    }
                    let ghost before = res@;
                    if (c >> k) & 1 != 0 {
                        let x = (4 * bx + (k / 4) as usize) as i32;
                        let y = (4 * by + (k % 4) as usize) as i32;
                        let ghost prev = res@;
                        proof {
                            assert(x / 4 == bx && y / 4 == by);
                            assert(Self::place(x as int, y as int) == k);
                            assert(self.block(x as int, y as int) == i);
                        }
                        res.push(Vector::new(x, y));
                        proof {
                            assert forall|a: int, b: int| 0 <= a < b < res.len() implies iter_before(res@[a], res@[b]) by {
                                if b == res.len() - 1 {
                                    assert(res@[a] == prev[a]);
                                }
                            }
                        }
                    }
                    proof {
                        assert forall|x: int, y: int| #[trigger] self.cell(x, y) && (x / 4 > bx || (x / 4 == bx && y / 4 > by) || (x / 4 == bx
                            && y / 4 == by && Self::place(x, y) < k + 1)) implies res@.contains(Vector { x: x as i32, y: y as i32 }) by {
                            if x / 4 == bx && y / 4 == by && Self::place(x, y) == k {
                                self.lemma_block(x, y);
                                assert(self.block(x, y) == i);
                                assert(x == 4 * bx + k / 4 && y == 4 * by + k % 4);
                                assert(res@[res.len() - 1] == Vector { x: x as i32, y: y as i32 });
                            } else {
                                assert(before.contains(Vector { x: x as i32, y: y as i32 }));
                                let idx = choose|idx: int| 0 <= idx < before.len() && before[idx] == Vector { x: x as i32, y: y as i32 };
                                assert(res@[idx] == before[idx]);
                            }
                        }
                    }
                    k += 1;
                }
            }
        }
        res
    }

    /// The cells `p` set here whose flag at `p - origin` is set in `rhs` (a rectangle
    /// that fits here at `origin`), block by block of `rhs` in increasing order, and in
    /// a block by increasing place.
    pub fn and_iter(&self, origin: Vector<usize>, rhs: &SparseT2Rect) -> (r: Vec<Vector<i32>>)
        requires
            self.wf(),
            rhs.wf(),
            origin.x % 4 == 0,
            origin.y % 4 == 0,
            rhs.hb() >= 1,
            rhs.wb() >= 1,
            origin.x / 4 + rhs.hb() <= self.hb(),
            origin.y / 4 + rhs.wb() <= self.wb(),
        ensures
            forall|j: int| 0 <= j < r.len() ==> self.cell(#[trigger] r@[j].x as int, r@[j].y as int) && rhs.cell(
                r@[j].x - origin.x,
                r@[j].y - origin.y,
            ),
            forall|x: int, y: int| #[trigger] self.cell(x, y) && rhs.cell(x - origin.x, y - origin.y) ==> r@.contains(
                Vector { x: x as i32, y: y as i32 },
            ),
            forall|i: int, j: int| 0 <= i < j < r.len() ==> and_iter_before(origin, r@[i], r@[j]),
    {
        let ox = origin.x / 4;
        let oy = origin.y / 4;
        let mut res: Vec<Vector<i32>> = Vec::new();
        let mut bx: usize = 0;
        while bx < rhs.height
            invariant
                self.wf(),
                rhs.wf(),
                origin.x % 4 == 0,
                origin.y % 4 == 0,
                ox == origin.x / 4,
                oy == origin.y / 4,
                ox + rhs.hb() <= self.hb(),
                oy + rhs.wb() <= self.wb(),
                bx <= rhs.hb(),
                forall|j: int| 0 <= j < res.len() ==> self.cell(#[trigger] res@[j].x as int, res@[j].y as int) && rhs.cell(
                    res@[j].x - origin.x,
                    res@[j].y - origin.y,
                ) && (res@[j].x - origin.x) / 4 < bx,
                forall|x: int, y: int| #[trigger] self.cell(x, y) && rhs.cell(x - origin.x, y - origin.y) && (x - origin.x) / 4 < bx ==> res@.contains(
                    Vector { x: x as i32, y: y as i32 },
                ),
                forall|i: int, j: int| 0 <= i < j < res.len() ==> and_iter_before(origin, res@[i], res@[j]),
            decreases rhs.hb() - bx,
        {
            let mut by: usize = 0;
            while by < rhs.width
                invariant
                    self.wf(),
                    rhs.wf(),
                    origin.x % 4 == 0,
                    origin.y % 4 == 0,
                    ox == origin.x / 4,
                    oy == origin.y / 4,
                    ox + rhs.hb() <= self.hb(),
                    oy + rhs.wb() <= self.wb(),
                    bx < rhs.hb(),
                    by <= rhs.wb(),
                    forall|j: int| 0 <= j < res.len() ==> self.cell(#[trigger] res@[j].x as int, res@[j].y as int) && rhs.cell(
                        res@[j].x - origin.x,
                        res@[j].y - origin.y,
                    ) && ((res@[j].x - origin.x) / 4 < bx || ((res@[j].x - origin.x) / 4 == bx && (res@[j].y - origin.y) / 4 < by)),
                    forall|x: int, y: int| #[trigger] self.cell(x, y) && rhs.cell(x - origin.x, y - origin.y) && ((x - origin.x) / 4 < bx
                        || ((x - origin.x) / 4 == bx && (y - origin.y) / 4 < by)) ==> res@.contains(Vector { x: x as i32, y: y as i32 }),
                    forall|i: int, j: int| 0 <= i < j < res.len() ==> and_iter_before(origin, res@[i], res@[j]),
                decreases rhs.wb() - by,
            {
                let i1 = self.block_index(ox + bx, oy + by);
                let i2 = rhs.block_index(bx, by);
                let m = self.components[i1] & rhs.components[i2];
                let ghost c1 = self.comps()[i1 as int];
                let ghost c2 = rhs.comps()[i2 as int];
                let mut k: u16 = 0;
                while k < 16
                    invariant
                        self.wf(),
                        rhs.wf(),
                        origin.x % 4 == 0,
                        origin.y % 4 == 0,
                        ox == origin.x / 4,
                        oy == origin.y / 4,
                        ox + rhs.hb() <= self.hb(),
                        oy + rhs.wb() <= self.wb(),
                        bx < rhs.hb(),
                        by < rhs.wb(),
                        k <= 16,
                        i1 == (ox + bx) * self.stride() + (oy + by),
                        i2 == bx * rhs.stride() + by,
                        c1 == self.comps()[i1 as int],
                        c2 == rhs.comps()[i2 as int],
                        m == c1 & c2,
                        forall|j: int| 0 <= j < res.len() ==> self.cell(#[trigger] res@[j].x as int, res@[j].y as int) && rhs.cell(
                            res@[j].x - origin.x,
                            res@[j].y - origin.y,
                        ) && ((res@[j].x - origin.x) / 4 < bx || ((res@[j].x - origin.x) / 4 == bx && (res@[j].y - origin.y) / 4 < by)
                            || ((res@[j].x - origin.x) / 4 == bx && (res@[j].y - origin.y) / 4 == by && Self::place(
                            res@[j].x as int,
                            res@[j].y as int,
                        ) < k)),
                        forall|x: int, y: int| #[trigger] self.cell(x, y) && rhs.cell(x - origin.x, y - origin.y) && ((x - origin.x) / 4 < bx
                            || ((x - origin.x) / 4 == bx && (y - origin.y) / 4 < by) || ((x - origin.x) / 4 == bx && (y - origin.y) / 4 == by
                            && Self::place(x, y) < k)) ==> res@.contains(Vector { x: x as i32, y: y as i32 }),
                        forall|i: int, j: int| 0 <= i < j < res.len() ==> and_iter_before(origin, res@[i], res@[j]),
                    decreases 16 - k,
                {
                    proof {
                        lemma_bit16_update(m, k, k);
                        lemma_bit16_and(c1, c2, k);
                    }
                    let ghost before = res@;
                    if (m >> k) & 1 != 0 {
                        let x = (4 * (ox + bx) + (k / 4) as usize) as i32;
                        let y = (4 * (oy + by) + (k % 4) as usize) as i32;
                        let ghost prev = res@;
                        proof {
                            assert(x / 4 == ox + bx && y / 4 == oy + by);
                            assert(Self::place(x as int, y as int) == k);
                            assert(self.block(x as int, y as int) == i1);
                            assert((x - origin.x) / 4 == bx && (y - origin.y) / 4 == by);
                            assert(Self::place(x - origin.x, y - origin.y) == k);
                            assert(rhs.block(x - origin.x, y - origin.y) == i2);
                        }
                        res.push(Vector::new(x, y));
                        proof {
                            assert forall|a: int, b: int| 0 <= a < b < res.len() implies and_iter_before(origin, res@[a], res@[b]) by {
                                if b == res.len() - 1 {
                                    assert(res@[a] == prev[a]);
                                }
                            }
                        }
                    }
                    proof {
                        assert forall|x: int, y: int| #[trigger] self.cell(x, y) && rhs.cell(x - origin.x, y - origin.y) && ((x - origin.x) / 4
                            < bx || ((x - origin.x) / 4 == bx && (y - origin.y) / 4 < by) || ((x - origin.x) / 4 == bx && (y - origin.y) / 4
                            == by && Self::place(x, y) < k + 1)) implies res@.contains(Vector { x: x as i32, y: y as i32 }) by {
                            if (x - origin.x) / 4 == bx && (y - origin.y) / 4 == by && Self::place(x, y) == k {
                                self.lemma_block(x, y);
                                rhs.lemma_block(x - origin.x, y - origin.y);
                                assert(x / 4 == ox + bx && y / 4 == oy + by);
                                assert(self.block(x, y) == i1);
                                assert(rhs.block(x - origin.x, y - origin.y) == i2);
                                assert(Self::place(x - origin.x, y - origin.y) == k);
                                assert(x == 4 * (ox + bx) + k / 4 && y == 4 * (oy + by) + k % 4);
                                assert(res@[res.len() - 1] == Vector { x: x as i32, y: y as i32 });
                            } else {
                                assert(before.contains(Vector { x: x as i32, y: y as i32 }));
                                let idx = choose|idx: int| 0 <= idx < before.len() && before[idx] == Vector { x: x as i32, y: y as i32 };
                                assert(res@[idx] == before[idx]);
                            }
                        }
                    }
                    k += 1;
                }
                by += 1;
            }
            bx += 1;
        }
        res
    }
}

} // verus!
