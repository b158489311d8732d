use vstd::prelude::*;
use vstd::arithmetic::power2::{pow2, lemma_pow2_pos};
use crate::data::bit_poly::BitPoly;
use crate::data::sparse_t2_rect::{ceil_log2, is_ceil_log2, lemma_shl_or};
use crate::data::u256::{count_true, Us, U128, U256};
use crate::data::vector::Vector;

verus! {

/// How far a cell lies from the front of its row or diagonal: `depth` lines behind the
/// first occupied one, after `nth` occupied cells of its own line.
#[derive(Debug, Clone, Copy, PartialEq, Eq, Structural)]
pub struct Shallowness {
    pub depth: usize,
    pub nth: usize,
}

/// The cell of the fundamental domain `0 <= x <= y < (side + 1) / 2` that the symmetries
/// of the `side x side` board map `(vx, vy)` to.
pub open spec fn norm(side: int, vx: int, vy: int) -> (int, int) {
    let x = if vx <= side - 1 - vx { vx } else { side - 1 - vx };
    let y = if vy <= side - 1 - vy { vy } else { side - 1 - vy };
    if x > y {
        (y, x)
    } else {
        (x, y)
    }
}

/// The position of entry `(x, y)` in a table whose rows hold `st` entries each.
pub open spec fn slot(st: int, x: int, y: int) -> int {
    x * st + y
}

proof fn lemma_slot(st: int, h: int, x: int, y: int)
    requires
        0 <= x < h,
        0 <= y < st,
    ensures
        0 <= slot(st, x, y) < st * h,
{
    assert(0 <= x * st + y < st * h) by (nonlinear_arith)
        requires
            0 <= x < h,
            0 <= y < st,
    ;
}

/// Distinct entries have distinct positions.
proof fn lemma_slot_inj(st: int, x: int, y: int, a: int, b: int)
    requires
        0 <= x,
        0 <= a,
        0 <= y < st,
        0 <= b < st,
        slot(st, x, y) == slot(st, a, b),
    ensures
        x == a,
        y == b,
{
    if x < a {
        assert(x * st + y < a * st + b) by (nonlinear_arith)
            requires
                x < a,
                0 <= y < st,
                0 <= b,
        ;
    } else if a < x {
        assert(a * st + b < x * st + y) by (nonlinear_arith)
            requires
                a < x,
                0 <= b < st,
                0 <= y,
        ;
    }
}

/// The position of entry `(x, y)` in a table whose rows hold `2^sb` entries each.
fn slot_of(x: usize, y: usize, sb: usize) -> (r: usize)
    requires
        sb <= 9,
        x < 512,
        y < pow2(sb as nat),
    ensures
        r == slot(pow2(sb as nat) as int, x as int, y as int),
{
    proof {
        vstd::arithmetic::power2::lemma2_to64();
        if sb < 9 {
            vstd::arithmetic::power2::lemma_pow2_strictly_increases(sb as nat, 9);
        }
        assert(x * pow2(sb as nat) + y < 0x1_0000_0000) by (nonlinear_arith)
            requires
                x < 512,
                y < pow2(sb as nat),
                pow2(sb as nat) <= 512,
        ;
        lemma_shl_or(x, y, sb);
    }
    x << sb | y
}

/// The first set at position `from` or later that has a bit.
fn first_nonzero<const N: usize>(v: &Vec<Us<N>>, from: usize) -> (r: usize)
    requires
        from < v@.len(),
        !v@[v@.len() - 1].is_zero_spec(),
    ensures
        from <= r < v@.len(),
        !v@[r as int].is_zero_spec(),
        forall|k: int| from <= k < r ==> #[trigger] v@[k].is_zero_spec(),
{
    let mut r = from;
    while v[r].is_zero()
        invariant
            from <= r < v@.len(),
            !v@[v@.len() - 1].is_zero_spec(),
            forall|k: int| from <= k < r ==> #[trigger] v@[k].is_zero_spec(),
        decreases v@.len() - r,
    {
        assert(v@[r as int].is_zero_spec());
        assert(r + 1 < v.len());
        r += 1;
    }
    r
}

/// Of the cells `(x', s - x')` with `x' < x` that lie before column `h`, those whose bit
/// `s / 2 - x'` is set in `bits`.
spec fn diag_prefix(bits: Seq<bool>, s: int, h: int, x: int) -> nat
    decreases x,
{
    if x <= 0 {
        0
    } else {
        diag_prefix(bits, s, h, x - 1) + if s - (x - 1) < h && bits[s / 2 - (x - 1)] { 1nat } else { 0nat }
    }
}

proof fn lemma_diag_prefix_bound(bits: Seq<bool>, s: int, h: int, x: int)
    requires
        x >= 0,
    ensures
        diag_prefix(bits, s, h, x) <= x,
    decreases x,
{
    if x > 0 {
        lemma_diag_prefix_bound(bits, s, h, x - 1);
    }
}

proof fn lemma_diag_prefix_zero(bits: Seq<bool>, s: int, h: int, x: int)
    requires
        s - x + 1 >= h,
    ensures
        diag_prefix(bits, s, h, x) == 0,
    decreases x,
{
    if x > 0 {
        lemma_diag_prefix_zero(bits, s, h, x - 1);
    }
}

/// Rewrites the entries `(x, y)`, `x <= y < h`, of `nth` with the running counts of `row`.
fn fill_row(nth: &mut Vec<usize>, row: &U256, x: usize, h: usize, sb: usize)
    requires
        x < h <= 256,
        sb <= 9,
        h <= pow2(sb as nat),
        old(nth)@.len() == pow2(sb as nat) * h,
    ensures
        final(nth)@.len() == old(nth)@.len(),
        forall|a: int, b: int|
            0 <= a < h && 0 <= b < pow2(sb as nat) && !(a == x && x <= b < h) ==> #[trigger] final(nth)@[slot(
                pow2(sb as nat) as int,
                a,
                b,
            )] == old(nth)@[slot(pow2(sb as nat) as int, a, b)],
        forall|b: int| x <= b < h ==> #[trigger] final(nth)@[slot(pow2(sb as nat) as int, x as int, b)] == count_true(row@, 0, b - x),
{
    let ghost st = pow2(sb as nat) as int;
    let mut y1 = x;
    while y1 < h
        invariant
            x <= y1 <= h,
            h <= 256,
            sb <= 9,
            h <= st,
            st == pow2(sb as nat),
            nth@.len() == st * h,
            forall|a: int, b: int|
                0 <= a < h && 0 <= b < st && !(a == x && x <= b < y1) ==> #[trigger] nth@[slot(st, a, b)] == old(nth)@[slot(
                    st,
                    a,
                    b,
                )],
            forall|b: int| x <= b < y1 ==> #[trigger] nth@[slot(st, x as int, b)] == count_true(row@, 0, b - x),
        decreases h - y1,
    {
        let i = slot_of(x, y1, sb);
        proof {
            lemma_slot(st, h as int, x as int, y1 as int);
        }
        let val: usize = if y1 == x {
            0
        } else {
            let j = slot_of(x, y1 - 1, sb);
            proof {
                lemma_slot(st, h as int, x as int, y1 - 1);
                crate::data::u256::lemma_count_bound(row@, 0, y1 - 1 - x);
                assert(nth@[slot(st, x as int, y1 - 1)] == count_true(row@, 0, y1 - 1 - x));
            }
            nth[j] + if row.get(y1 - 1 - x) { 1 } else { 0 }
        };
        nth.set(i, val);
        proof {
            assert forall|a: int, b: int|
                0 <= a < h && 0 <= b < st && !(a == x && x <= b < y1 + 1) implies #[trigger] nth@[slot(st, a, b)] == old(nth)@[slot(
                st,
                a,
                b,
            )] by {
                lemma_slot(st, h as int, a, b);
                if slot(st, a, b) == slot(st, x as int, y1 as int) {
                    lemma_slot_inj(st, a, b, x as int, y1 as int);
                }
            }
            assert forall|b: int| x <= b < y1 + 1 implies #[trigger] nth@[slot(st, x as int, b)] == count_true(row@, 0, b - x) by {
                if b < y1 {
                    lemma_slot(st, h as int, x as int, b);
                    if slot(st, x as int, b) == slot(st, x as int, y1 as int) {
                        lemma_slot_inj(st, x as int, b, x as int, y1 as int);
                    }
                }
            }
        }
        y1 += 1;
    }
}

/// Rewrites the entries `(x, s - x)`, `x <= s - x <= h`, of `nth` with the running counts of
/// the diagonal `diag`; the entries past column `h` must be zero and stay so.
fn fill_diag(nth: &mut Vec<usize>, diag: &U128, s: usize, h: usize, sb: usize)
    requires
        h <= 256,
        sb <= 9,
        s < pow2(sb as nat),
        h <= pow2(sb as nat),
        old(nth)@.len() == pow2(sb as nat) * h,
        forall|a: int, b: int|
            0 <= a < h && h < b < pow2(sb as nat) ==> #[trigger] old(nth)@[slot(pow2(sb as nat) as int, a, b)] == 0,
    ensures
        final(nth)@.len() == old(nth)@.len(),
        forall|a: int, b: int|
            0 <= a < h && 0 <= b < pow2(sb as nat) && !(a + b == s && a <= b <= h) ==> #[trigger] final(nth)@[slot(
                pow2(sb as nat) as int,
                a,
                b,
            )] == old(nth)@[slot(pow2(sb as nat) as int, a, b)],
        forall|a: int|
            0 <= a < h && a <= s - a <= h ==> #[trigger] final(nth)@[slot(pow2(sb as nat) as int, a, s - a)] == diag_prefix(
                diag@,
                s as int,
                h as int,
                a,
            ),
{
    let ghost st = pow2(sb as nat) as int;
    let mut x1: usize = 0;
    while x1 < h && x1 * 2 <= s
        invariant
            x1 <= h,
            h <= 256,
            sb <= 9,
            s < st,
            h <= st,
            st == pow2(sb as nat),
            nth@.len() == st * h,
            forall|a: int, b: int|
                0 <= a < h && 0 <= b < st && !(a + b == s && a <= b <= h && a < x1) ==> #[trigger] nth@[slot(st, a, b)]
                    == old(nth)@[slot(st, a, b)],
            forall|a: int, b: int| 0 <= a < h && h < b < st ==> #[trigger] old(nth)@[slot(st, a, b)] == 0,
            forall|a: int|
                0 <= a < x1 && a <= s - a <= h ==> #[trigger] nth@[slot(st, a, s - a)] == diag_prefix(diag@, s as int, h as int, a),
        decreases h - x1,
    {
        let y1 = s - x1;
        if y1 <= h {
            let i = slot_of(x1, y1, sb);
            proof {
                lemma_slot(st, h as int, x1 as int, y1 as int);
            }
            let val: usize = if x1 == 0 {
                0
            } else {
                let j = slot_of(x1 - 1, y1 + 1, sb);
                proof {
                    lemma_slot(st, h as int, x1 - 1, y1 + 1);
                    let p = x1 - 1;
                    if y1 + 1 <= h {
                        assert(nth@[slot(st, p, s - p)] == diag_prefix(diag@, s as int, h as int, p));
                    } else {
                        assert(nth@[slot(st, p, y1 + 1)] == old(nth)@[slot(st, p, y1 + 1)]);
                        lemma_diag_prefix_zero(diag@, s as int, h as int, p);
                    }
                    lemma_diag_prefix_bound(diag@, s as int, h as int, p);
                }
                let bit = if y1 + 1 < h {
                    diag.get((y1 + 1 - (x1 - 1)) / 2)
                } else {
                    false
                };
                nth[j] + if bit { 1 } else { 0 }
            };
            nth.set(i, val);
            proof {
                assert forall|a: int, b: int|
                    0 <= a < h && 0 <= b < st && !(a + b == s && a <= b <= h && a < x1 + 1) implies #[trigger] nth@[slot(
                    st,
                    a,
                    b,
                )] == old(nth)@[slot(st, a, b)] by {
                    lemma_slot(st, h as int, a, b);
                    if slot(st, a, b) == slot(st, x1 as int, y1 as int) {
                        lemma_slot_inj(st, a, b, x1 as int, y1 as int);
                    }
                }
                assert forall|a: int|
                    0 <= a < x1 + 1 && a <= s - a <= h implies #[trigger] nth@[slot(st, a, s - a)] == diag_prefix(
                    diag@,
                    s as int,
                    h as int,
                    a,
                ) by {
                    if a < x1 {
                        lemma_slot(st, h as int, a, s - a);
                        if slot(st, a, s - a) == slot(st, x1 as int, y1 as int) {
                            lemma_slot_inj(st, a, s - a, x1 as int, y1 as int);
                        }
                    }
                }
            }
        } else {
            proof {
                assert forall|a: int|
                    0 <= a < x1 + 1 && a <= s - a <= h implies #[trigger] nth@[slot(st, a, s - a)] == diag_prefix(
                    diag@,
                    s as int,
                    h as int,
                    a,
                ) by {
                }
            }
        }
        x1 += 1;
    }
}

/// `n` zeros.
fn zeros(n: usize) -> (r: Vec<usize>)
    ensures
        r@.len() == n,
        forall|k: int| 0 <= k < n ==> #[trigger] r@[k] == 0,
{
    let mut r: Vec<usize> = Vec::new();
    while r.len() < n
        invariant
            r@.len() <= n,
            forall|k: int| 0 <= k < r@.len() ==> #[trigger] r@[k] == 0,
        decreases n - r.len(),
    {
        r.push(0);
    }
    r
}

/// A `side x side` board of cells that records, for the cells of the fundamental domain
/// of its symmetries, the occupied cells row by row, column by column and diagonal by
/// diagonal, with running counts along rows and diagonals.
#[derive(Debug, Clone)]
pub struct BoardAnalyzerSymmetric {
    poly: BitPoly,
    side_bits: usize,
    side: usize,
    smallest_x: usize,
    rows: Vec<U256>,
    smallest_xy: usize,
    diags: Vec<U128>,
    row_nth: Vec<usize>,
    diag_nth: Vec<usize>,
    cols: Vec<U256>,
}

impl BoardAnalyzerSymmetric {
    /// The side of the board.
    pub closed spec fn side_spec(self) -> int {
        self.side as int
    }

    /// The number of rows of the fundamental domain.
    pub open spec fn half(self) -> int {
        (self.side_spec() + 1) / 2
    }

    /// Whether `(x, y)` is occupied.
    pub closed spec fn cell(self, x: int, y: int) -> bool {
        self.poly.cell(x, y)
    }

    /// Whether `(x, y)` is an occupied cell of the fundamental domain.
    pub open spec fn dcell(self, x: int, y: int) -> bool {
        0 <= x <= y < self.half() && self.cell(x, y)
    }

    /// Row `x` of the domain holds a cell.
    pub open spec fn row_used(self, x: int) -> bool {
        exists|y: int| #[trigger] self.dcell(x, y)
    }

    /// The diagonal `x + y == s` of the domain holds a cell.
    pub open spec fn diag_used(self, s: int) -> bool {
        exists|x: int| #[trigger] self.dcell(x, s - x)
    }

    /// The occupied cells `(x, y')` of the domain with `y' < y`.
    pub open spec fn row_count(self, x: int, y: int) -> nat
        decreases y - x,
    {
        if y <= x {
            0
        } else {
            self.row_count(x, y - 1) + if self.dcell(x, y - 1) { 1nat } else { 0nat }
        }
    }

    /// The occupied cells `(x', s - x')` of the domain with `x' < x`.
    pub open spec fn diag_count(self, s: int, x: int) -> nat
        decreases x,
    {
        if x <= 0 {
            0
        } else {
            self.diag_count(s, x - 1) + if self.dcell(x - 1, s - (x - 1)) { 1nat } else { 0nat }
        }
    }

    /// The occupied cells `(x', y)` of the domain with `x' < x`.
    pub open spec fn col_count(self, y: int, x: int) -> nat
        decreases x,
    {
        if x <= 0 {
            0
        } else {
            self.col_count(y, x - 1) + if self.dcell(x - 1, y) { 1nat } else { 0nat }
        }
    }

    /// The entries per row of the tables `row_nth` and `diag_nth`.
    spec fn st(self) -> int {
        pow2(self.side_bits as nat) as int
    }

    /// Sizes, and the nonempty sets that end `rows` and `diags`.
    closed spec fn shape_ok(self) -> bool {
        let h = self.half();
        &&& self.poly.wf()
        &&& self.poly.h() == self.side
        &&& self.poly.w() == self.side
        &&& self.side < 512
        &&& is_ceil_log2(self.side as nat, self.side_bits as nat)
        &&& self.side_bits <= 9
        &&& 1 <= self.st() <= 512
        &&& self.rows@.len() == h + 1
        &&& self.cols@.len() == h
        &&& self.diags@.len() == self.side + 1
        &&& !self.rows@[h].is_zero_spec()
        &&& !self.diags@[self.side as int].is_zero_spec()
        &&& self.row_nth@.len() == self.st() * h
        &&& self.diag_nth@.len() == self.st() * h
    }

    /// Bit `k` of row `x` is the domain cell `(x, x + k)`.
    closed spec fn row_bits_ok(self, x: int) -> bool {
        forall|k: int| 0 <= k < 256 ==> #[trigger] self.rows@[x]@[k] == self.dcell(x, x + k)
    }

    /// Bit `k` of column `y` is the domain cell `(y - k, y)`.
    closed spec fn col_bits_ok(self, y: int) -> bool {
        forall|k: int| 0 <= k < 256 ==> #[trigger] self.cols@[y]@[k] == self.dcell(y - k, y)
    }

    /// Bit `i` of diagonal `s` is the domain cell `(s / 2 - i, s - (s / 2 - i))`.
    closed spec fn diag_bits_ok(self, s: int) -> bool {
        forall|i: int| 0 <= i < 128 ==> #[trigger] self.diags@[s]@[i] == self.dcell(s / 2 - i, s - (s / 2 - i))
    }

    /// `smallest_x` and `smallest_xy` are the first used row and diagonal.
    closed spec fn smallest_ok(self) -> bool {
        &&& self.smallest_x <= self.half()
        &&& forall|x: int| 0 <= x < self.smallest_x ==> !#[trigger] self.row_used(x)
        &&& self.smallest_x < self.half() ==> self.row_used(self.smallest_x as int)
        &&& self.smallest_xy <= self.side
        &&& forall|s: int| 0 <= s < self.smallest_xy ==> !#[trigger] self.diag_used(s)
        &&& self.smallest_xy < self.side ==> self.diag_used(self.smallest_xy as int)
    }

    /// The entries of row `x` of `row_nth` are the running counts of row `x`.
    closed spec fn row_nth_ok(self, x: int) -> bool {
        forall|y: int| x <= y < self.half() ==> #[trigger] self.row_nth@[slot(self.st(), x, y)] == self.row_count(x, y)
    }

    /// The entries of diagonal `s` of `diag_nth` are the running counts of diagonal `s`.
    closed spec fn diag_nth_ok(self, s: int) -> bool {
        forall|x: int|
            0 <= x < self.half() && x <= s - x <= self.half() ==> #[trigger] self.diag_nth@[slot(self.st(), x, s - x)]
                == self.diag_count(s, x)
    }

    /// The entries of `diag_nth` past the domain are zero.
    closed spec fn pad_ok(self) -> bool {
        forall|x: int, y: int|
            0 <= x < self.half() && self.half() < y < self.st() ==> #[trigger] self.diag_nth@[slot(self.st(), x, y)] == 0
    }

    /// The consistency of the representation.
    pub closed spec fn wf(self) -> bool {
        &&& self.shape_ok()
        &&& forall|x: int| 0 <= x < self.half() ==> #[trigger] self.row_bits_ok(x)
        &&& forall|y: int| 0 <= y < self.half() ==> #[trigger] self.col_bits_ok(y)
        &&& forall|s: int| 0 <= s < self.side ==> #[trigger] self.diag_bits_ok(s)
        &&& self.smallest_ok()
        &&& forall|x: int| 0 <= x < self.half() ==> #[trigger] self.row_nth_ok(x)
        &&& forall|s: int| 0 <= s < self.side ==> #[trigger] self.diag_nth_ok(s)
        &&& self.pad_ok()
    }

    /// An empty board of side `side`.
    pub fn new(side: usize) -> (r: Self)
        requires
            side < 512,
        ensures
            r.wf(),
            r.side_spec() == side,
            forall|x: int, y: int| !#[trigger] r.cell(x, y),
    {
        let half = (side + 1) / 2;
        let mut rows: Vec<U256> = Vec::new();
        while rows.len() < half
            invariant
                rows@.len() <= half,
                forall|x: int, k: int| 0 <= x < rows@.len() && 0 <= k < 256 ==> !#[trigger] rows@[x]@[k],
            decreases half - rows.len(),
        {
            rows.push(U256::zero());
        }
        let mut diags: Vec<U128> = Vec::new();
        while diags.len() < side
            invariant
                diags@.len() <= side,
                forall|x: int, k: int| 0 <= x < diags@.len() && 0 <= k < 128 ==> !#[trigger] diags@[x]@[k],
            decreases side - diags.len(),
        {
            diags.push(U128::zero());
        }
        let mut top = U256::zero();
        top.set(0);
        rows.push(top);
        let mut dtop = U128::zero();
        dtop.set(0);
        diags.push(dtop);
        let mut cols: Vec<U256> = Vec::new();
        while cols.len() < half
            invariant
                cols@.len() <= half,
                forall|x: int, k: int| 0 <= x < cols@.len() && 0 <= k < 256 ==> !#[trigger] cols@[x]@[k],
            decreases half - cols.len(),
        {
            cols.push(U256::zero());
        }
        let side_bits = ceil_log2(side);
        proof {
            lemma_pow2_pos(side_bits as nat);
            vstd::arithmetic::power2::lemma2_to64();
            if side_bits > 9 {
                vstd::arithmetic::power2::lemma_pow2_strictly_increases(9, (side_bits - 1) as nat);
            }
            crate::check::check::lemma_shl_pow2(side_bits);
            assert((side_bits as int) <= 9);
            if side_bits < 9 {
                vstd::arithmetic::power2::lemma_pow2_strictly_increases(side_bits as nat, 9);
            }
            assert(pow2(side_bits as nat) * half <= 512 * 256) by (nonlinear_arith)
                requires
                    pow2(side_bits as nat) <= 512,
                    half <= 256,
            ;
        }
        let n = (1usize << side_bits) * half;
        let r = Self {
            poly: BitPoly::new(side, side),
            side_bits,
            side,
            smallest_x: half,
            rows,
            smallest_xy: side,
            diags,
            row_nth: zeros(n),
            diag_nth: zeros(n),
            cols,
        };
        proof {
            let st = pow2(side_bits as nat) as int;
            assert(r.rows@[half as int]@[0]);
            assert(r.diags@[side as int]@[0]);
            assert forall|x: int| 0 <= x < half implies #[trigger] r.row_nth_ok(x) by {
                assert forall|y: int| x <= y < half implies #[trigger] r.row_nth@[slot(st, x, y)] == r.row_count(x, y) by {
                    r.lemma_row_count_zero(x, y);
                    lemma_slot(st, half as int, x, y);
                }
            }
            assert forall|s: int| 0 <= s < side implies #[trigger] r.diag_nth_ok(s) by {
                assert forall|x: int| 0 <= x < half && x <= s - x <= half implies #[trigger] r.diag_nth@[slot(st, x, s - x)]
                    == r.diag_count(s, x) by {
                    r.lemma_diag_count_zero(s, x);
                    lemma_slot(st, half as int, x, s - x);
                }
            }
            assert forall|x: int, y: int| 0 <= x < half && half < y < st implies #[trigger] r.diag_nth@[slot(st, x, y)] == 0 by {
                lemma_slot(st, half as int, x, y);
            }
            assert(r.pad_ok());
        }
        r
    }

    /// The row of the domain cell of `p`.
    pub open spec fn nx(self, p: Vector<i32>) -> int {
        norm(self.side_spec(), p.x as int, p.y as int).0
    }

    /// The column of the domain cell of `p`.
    pub open spec fn ny(self, p: Vector<i32>) -> int {
        norm(self.side_spec(), p.x as int, p.y as int).1
    }

    /// Where the domain cell of `p` stands in its row and in its diagonal: how many lines
    /// lie between the first occupied one and its own, and how many occupied cells come
    /// before it in its line.
    pub fn shallowness(&self, p: Vector<i32>) -> (r: [Shallowness; 2])
        requires
            self.wf(),
            0 <= p.x < self.side_spec(),
            0 <= p.y < self.side_spec(),
            exists|m: int| m <= self.nx(p) && #[trigger] self.row_used(m),
            exists|t: int| t <= self.nx(p) + self.ny(p) && #[trigger] self.diag_used(t),
        ensures
            r[0].nth == self.row_count(self.nx(p), self.ny(p)),
            r[1].nth == self.diag_count(self.nx(p) + self.ny(p), self.nx(p)),
            self.row_used(self.nx(p) - r[0].depth),
            forall|m: int| m < self.nx(p) - r[0].depth ==> !#[trigger] self.row_used(m),
            self.diag_used(self.nx(p) + self.ny(p) - r[1].depth),
            forall|t: int| t < self.nx(p) + self.ny(p) - r[1].depth ==> !#[trigger] self.diag_used(t),
    {
        let (x, y) = self.normalize(p);
        let ghost st = self.st();
        proof {
            let m = choose|m: int| m <= self.nx(p) && #[trigger] self.row_used(m);
            let t = choose|t: int| t <= self.nx(p) + self.ny(p) && #[trigger] self.diag_used(t);
            let ym = choose|ym: int| #[trigger] self.dcell(m, ym);
            let xt = choose|xt: int| #[trigger] self.dcell(xt, t - xt);
            if m < self.smallest_x {
                assert(!self.row_used(m));
            }
            if t < self.smallest_xy {
                assert(!self.diag_used(t));
            }
            assert(self.row_nth_ok(x as int));
            assert(self.diag_nth_ok(x + y));
            assert(self.diag_nth@[slot(st, x as int, (x + y) - x)] == self.diag_count(x + y, x as int));
            lemma_slot(st, self.half(), x as int, y as int);
            assert forall|mm: int| mm < self.smallest_x implies !#[trigger] self.row_used(mm) by {
                if self.row_used(mm) {
                    let yy = choose|yy: int| #[trigger] self.dcell(mm, yy);
                    assert(0 <= mm);
                }
            }
            assert forall|tt: int| tt < self.smallest_xy implies !#[trigger] self.diag_used(tt) by {
                if self.diag_used(tt) {
                    let xx = choose|xx: int| #[trigger] self.dcell(xx, tt - xx);
                    assert(0 <= tt);
                }
            }
        }
        let i = slot_of(x, y, self.side_bits);
        [
            Shallowness { depth: x - self.smallest_x, nth: self.row_nth[i] },
            Shallowness { depth: x + y - self.smallest_xy, nth: self.diag_nth[i] },
        ]
    }

    /// The cell of the fundamental domain that the symmetries map `v` to.
    fn normalize(&self, v: Vector<i32>) -> (r: (usize, usize))
        requires
            self.wf(),
            0 <= v.x < self.side_spec(),
            0 <= v.y < self.side_spec(),
        ensures
            r.0 == norm(self.side_spec(), v.x as int, v.y as int).0,
            r.1 == norm(self.side_spec(), v.x as int, v.y as int).1,
            r.0 <= r.1 < self.half(),
    {
        let s = self.side as i32;
        let x = if v.x <= s - 1 - v.x { v.x } else { s - 1 - v.x };
        let y = if v.y <= s - 1 - v.y { v.y } else { s - 1 - v.y };
        if x > y {
            (y as usize, x as usize)
        } else {
            (x as usize, y as usize)
        }
    }

    /// Whether `p` is occupied.
    pub(crate) fn get(&self, p: Vector<i32>) -> (r: bool)
        requires
            self.wf(),
            0 <= p.x < self.side_spec() ==> p.y < 512,
        ensures
            r == self.cell(p.x as int, p.y as int),
    {
        self.poly.get_v(p)
    }

    /// The number of occupied cells of the domain in front of the cell of `p`: in its
    /// column, closer to the edge.
    pub fn frontness(&self, p: Vector<i32>) -> (r: usize)
        requires
            self.wf(),
            0 <= p.x < self.side_spec(),
            0 <= p.y < self.side_spec(),
            norm(self.side_spec(), p.x as int, p.y as int).1 - norm(self.side_spec(), p.x as int, p.y as int).0 + 1 < 256,
        ensures
            r == self.col_count(norm(self.side_spec(), p.x as int, p.y as int).1, norm(self.side_spec(), p.x as int, p.y as int).0),
    {
        let (x, y) = self.normalize(p);
        let c = self.cols[y].count_ones_gt(y - x);
        proof {
            self.lemma_col_count(y as int, x as int);
        }
        c as usize
    }

    /// Toggles the cell `v`.
    pub fn flip(&mut self, v: Vector<i32>)
        requires
            old(self).wf(),
            0 <= v.x < old(self).side_spec(),
            0 <= v.y < old(self).side_spec(),
        ensures
            final(self).wf(),
            final(self).side_spec() == old(self).side_spec(),
            forall|a: int, b: int|
                #[trigger] final(self).cell(a, b) == if a == v.x && b == v.y {
                    !old(self).cell(a, b)
                } else {
                    old(self).cell(a, b)
                },
    {
        let ghost pre = *self;
        let (x, y) = self.normalize(v);
        self.poly.flip(&v);
        if v.x as usize != x || v.y as usize != y {
            proof {
                assert forall|a: int, b: int| #[trigger] self.dcell(a, b) == pre.dcell(a, b) by {
                    if a == v.x && b == v.y && 0 <= a <= b < pre.half() {
                        assert(norm(pre.side_spec(), a, b) == (a, b));
                    }
                }
                pre.lemma_same_domain(*self);
            }
            return;
        }
        let ghost h = pre.half();
        let d = y - x;
        let s = x + y;
        self.rows[x].flip(d);
        self.cols[y].flip(d);
        self.diags[s].flip(d / 2);
        let ghost b1 = *self;
        proof {
            pre.lemma_toggle_bits(b1, x as int, y as int);
        }
        if x < self.smallest_x && !self.rows[x].is_zero() {
            self.smallest_x = x;
        } else if x == self.smallest_x && self.rows[x].is_zero() {
            self.smallest_x = first_nonzero(&self.rows, x + 1);
            proof {
                assert forall|a: int| x < a < self.smallest_x implies !#[trigger] b1.row_used(a) by {
                    b1.lemma_row_used_bits(a);
                }
                if self.smallest_x < h {
                    b1.lemma_row_used_bits(self.smallest_x as int);
                }
            }
        }
        if s < self.smallest_xy && !self.diags[s].is_zero() {
            self.smallest_xy = s;
        } else if s == self.smallest_xy && self.diags[s].is_zero() {
            self.smallest_xy = first_nonzero(&self.diags, s + 1);
            proof {
                assert forall|t: int| s < t < self.smallest_xy implies !#[trigger] b1.diag_used(t) by {
                    b1.lemma_diag_used_bits(t);
                }
                if self.smallest_xy < self.side {
                    b1.lemma_diag_used_bits(self.smallest_xy as int);
                }
            }
        }
        let ghost mid = *self;
        proof {
            assert forall|a: int, b: int| #[trigger] mid.dcell(a, b) == b1.dcell(a, b) by {}
            b1.lemma_used_same(mid);
            assert(mid.smallest_ok());
            assert forall|a: int| 0 <= a < h implies #[trigger] mid.row_bits_ok(a) by {
                assert(b1.row_bits_ok(a));
            }
            assert forall|a: int| 0 <= a < h implies #[trigger] mid.col_bits_ok(a) by {
                assert(b1.col_bits_ok(a));
            }
            assert forall|t: int| 0 <= t < mid.side implies #[trigger] mid.diag_bits_ok(t) by {
                assert(b1.diag_bits_ok(t));
            }
        }
        let half = (self.side + 1) / 2;
        fill_row(&mut self.row_nth, &self.rows[x], x, half, self.side_bits);
        fill_diag(&mut self.diag_nth, &self.diags[s], s, half, self.side_bits);
        proof {
            pre.lemma_recount(mid, *self, x as int, y as int);
        }
    }

    /// With the same cells of the domain, the same tables describe the board.
    proof fn lemma_same_domain(self, other: Self)
        requires
            self.wf(),
            other.poly.wf(),
            other.poly.h() == self.poly.h(),
            other.poly.w() == self.poly.w(),
            other.side == self.side,
            other.side_bits == self.side_bits,
            other.smallest_x == self.smallest_x,
            other.smallest_xy == self.smallest_xy,
            other.rows == self.rows,
            other.cols == self.cols,
            other.diags == self.diags,
            other.row_nth == self.row_nth,
            other.diag_nth == self.diag_nth,
            forall|a: int, b: int| #[trigger] other.dcell(a, b) == self.dcell(a, b),
        ensures
            other.wf(),
    {
        let h = self.half();
        self.lemma_used_same(other);
        assert forall|x: int| 0 <= x < h implies #[trigger] other.row_bits_ok(x) by {
            assert(self.row_bits_ok(x));
        }
        assert forall|x: int| 0 <= x < h implies #[trigger] other.col_bits_ok(x) by {
            assert(self.col_bits_ok(x));
        }
        assert forall|t: int| 0 <= t < self.side implies #[trigger] other.diag_bits_ok(t) by {
            assert(self.diag_bits_ok(t));
        }
        assert forall|x: int| 0 <= x < h implies #[trigger] other.row_nth_ok(x) by {
            assert(self.row_nth_ok(x));
            assert forall|y: int| x <= y < h implies #[trigger] other.row_nth@[slot(other.st(), x, y)] == other.row_count(x, y) by {
                self.lemma_row_count_same(other, x, y);
            }
        }
        assert forall|t: int| 0 <= t < self.side implies #[trigger] other.diag_nth_ok(t) by {
            assert(self.diag_nth_ok(t));
            assert forall|x: int| 0 <= x < h && x <= t - x <= h implies #[trigger] other.diag_nth@[slot(other.st(), x, t - x)]
                == other.diag_count(t, x) by {
                self.lemma_diag_count_same(other, t, x);
            }
        }
    }

    /// Toggling the cell `(x, y)` of the domain and its bits in its row, column and diagonal
    /// keeps the bits in step with the cells; only its row and diagonal may change use.
    proof fn lemma_toggle_bits(self, b1: Self, x: int, y: int)
        requires
            self.wf(),
            0 <= x <= y < self.half(),
            forall|a: int, b: int|
                #[trigger] b1.cell(a, b) == if a == x && b == y {
                    !self.cell(a, b)
                } else {
                    self.cell(a, b)
                },
            b1.poly.wf(),
            b1.poly.h() == self.poly.h(),
            b1.poly.w() == self.poly.w(),
            b1.side == self.side,
            b1.side_bits == self.side_bits,
            b1.smallest_x == self.smallest_x,
            b1.smallest_xy == self.smallest_xy,
            b1.row_nth == self.row_nth,
            b1.diag_nth == self.diag_nth,
            b1.rows@ == self.rows@.update(x, b1.rows@[x]),
            b1.rows@[x]@ == self.rows@[x]@.update(y - x, !self.rows@[x]@[y - x]),
            b1.cols@ == self.cols@.update(y, b1.cols@[y]),
            b1.cols@[y]@ == self.cols@[y]@.update(y - x, !self.cols@[y]@[y - x]),
            b1.diags@ == self.diags@.update(x + y, b1.diags@[x + y]),
            b1.diags@[x + y]@ == self.diags@[x + y]@.update((y - x) / 2, !self.diags@[x + y]@[(y - x) / 2]),
        ensures
            forall|a: int, b: int| #[trigger] b1.dcell(a, b) == (self.dcell(a, b) != (a == x && b == y)),
            b1.shape_ok(),
            forall|a: int| 0 <= a < b1.half() ==> #[trigger] b1.row_bits_ok(a),
            forall|a: int| 0 <= a < b1.half() ==> #[trigger] b1.col_bits_ok(a),
            forall|t: int| 0 <= t < b1.side ==> #[trigger] b1.diag_bits_ok(t),
            b1.row_used(x) == !b1.rows@[x].is_zero_spec(),
            b1.diag_used(x + y) == !b1.diags@[x + y].is_zero_spec(),
            forall|a: int| a != x ==> #[trigger] b1.row_used(a) == self.row_used(a),
            forall|t: int| t != x + y ==> #[trigger] b1.diag_used(t) == self.diag_used(t),
    {
        let h = self.half();
        let s = x + y;
        let d = y - x;
        assert forall|a: int, b: int| #[trigger] b1.dcell(a, b) == (self.dcell(a, b) != (a == x && b == y)) by {}
        assert forall|a: int| 0 <= a < h implies #[trigger] b1.row_bits_ok(a) by {
            assert(self.row_bits_ok(a));
        }
        assert forall|a: int| 0 <= a < h implies #[trigger] b1.col_bits_ok(a) by {
            assert(self.col_bits_ok(a));
        }
        assert forall|t: int| 0 <= t < b1.side implies #[trigger] b1.diag_bits_ok(t) by {
            assert(self.diag_bits_ok(t));
            if t == s {
                assert(s / 2 - d / 2 == x);
            }
        }
        assert(b1.rows@[h] == self.rows@[h]);
        assert(b1.diags@[self.side as int] == self.diags@[self.side as int]);
        b1.lemma_row_used_bits(x);
        b1.lemma_diag_used_bits(s);
        assert forall|a: int| a != x implies #[trigger] b1.row_used(a) == self.row_used(a) by {
            if b1.row_used(a) {
                let b = choose|b: int| #[trigger] b1.dcell(a, b);
                assert(self.dcell(a, b));
            }
            if self.row_used(a) {
                let b = choose|b: int| #[trigger] self.dcell(a, b);
                assert(b1.dcell(a, b));
            }
        }
        assert forall|t: int| t != s implies #[trigger] b1.diag_used(t) == self.diag_used(t) by {
            if b1.diag_used(t) {
                let a = choose|a: int| #[trigger] b1.dcell(a, t - a);
                assert(self.dcell(a, t - a));
            }
            if self.diag_used(t) {
                let a = choose|a: int| #[trigger] self.dcell(a, t - a);
                assert(b1.dcell(a, t - a));
            }
        }
    }

    /// With the same cells of the domain, the same rows and diagonals are used.
    proof fn lemma_used_same(self, other: Self)
        requires
            forall|a: int, b: int| #[trigger] other.dcell(a, b) == self.dcell(a, b),
        ensures
            forall|x: int| #[trigger] other.row_used(x) == self.row_used(x),
            forall|t: int| #[trigger] other.diag_used(t) == self.diag_used(t),
    {
        assert forall|x: int| #[trigger] other.row_used(x) == self.row_used(x) by {
            if other.row_used(x) {
                let b = choose|b: int| #[trigger] other.dcell(x, b);
                assert(self.dcell(x, b));
            }
            if self.row_used(x) {
                let b = choose|b: int| #[trigger] self.dcell(x, b);
                assert(other.dcell(x, b));
            }
        }
        assert forall|t: int| #[trigger] other.diag_used(t) == self.diag_used(t) by {
            if other.diag_used(t) {
                let a = choose|a: int| #[trigger] other.dcell(a, t - a);
                assert(self.dcell(a, t - a));
            }
            if self.diag_used(t) {
                let a = choose|a: int| #[trigger] self.dcell(a, t - a);
                assert(other.dcell(a, t - a));
            }
        }
    }

    /// After the cell `(x, y)` of the domain was toggled, the rewritten entries of the two
    /// tables are the new running counts and the others still hold.
    proof fn lemma_recount(self, mid: Self, fin: Self, x: int, y: int)
        requires
            self.wf(),
            0 <= x <= y < self.half(),
            forall|a: int, b: int| #[trigger] mid.dcell(a, b) == (self.dcell(a, b) != (a == x && b == y)),
            mid.shape_ok(),
            mid.side == self.side,
            mid.side_bits == self.side_bits,
            forall|a: int| 0 <= a < mid.half() ==> #[trigger] mid.row_bits_ok(a),
            forall|a: int| 0 <= a < mid.half() ==> #[trigger] mid.col_bits_ok(a),
            forall|t: int| 0 <= t < mid.side ==> #[trigger] mid.diag_bits_ok(t),
            mid.smallest_ok(),
            mid.row_nth == self.row_nth,
            mid.diag_nth == self.diag_nth,
            fin.poly == mid.poly,
            fin.side == mid.side,
            fin.side_bits == mid.side_bits,
            fin.smallest_x == mid.smallest_x,
            fin.smallest_xy == mid.smallest_xy,
            fin.rows == mid.rows,
            fin.cols == mid.cols,
            fin.diags == mid.diags,
            fin.row_nth@.len() == mid.row_nth@.len(),
            fin.diag_nth@.len() == mid.diag_nth@.len(),
            forall|a: int, b: int|
                0 <= a < self.half() && 0 <= b < self.st() && !(a == x && x <= b < self.half()) ==> #[trigger] fin.row_nth@[slot(
                    self.st(),
                    a,
                    b,
                )] == mid.row_nth@[slot(self.st(), a, b)],
            forall|b: int|
                x <= b < self.half() ==> #[trigger] fin.row_nth@[slot(self.st(), x, b)] == count_true(mid.rows@[x]@, 0, b - x),
            forall|a: int, b: int|
                0 <= a < self.half() && 0 <= b < self.st() && !(a + b == x + y && a <= b <= self.half()) ==> #[trigger] fin.diag_nth@[slot(
                    self.st(),
                    a,
                    b,
                )] == mid.diag_nth@[slot(self.st(), a, b)],
            forall|a: int|
                0 <= a < self.half() && a <= (x + y) - a <= self.half() ==> #[trigger] fin.diag_nth@[slot(self.st(), a, (x + y) - a)]
                    == diag_prefix(mid.diags@[x + y]@, x + y, self.half(), a),
        ensures
            fin.wf(),
    {
        let h = self.half();
        let st = self.st();
        let s = x + y;
        assert forall|a: int, b: int| #[trigger] fin.dcell(a, b) == mid.dcell(a, b) by {}
        assert forall|a: int| 0 <= a < h implies #[trigger] fin.row_nth_ok(a) by {
            assert forall|b: int| a <= b < h implies #[trigger] fin.row_nth@[slot(st, a, b)] == fin.row_count(a, b) by {
                if a == x {
                    assert(mid.row_bits_ok(a));
                    mid.lemma_row_count_bits(a, b);
                    mid.lemma_row_count_same(fin, a, b);
                } else {
                    assert(self.row_nth_ok(a));
                    self.lemma_row_count_same(fin, a, b);
                }
            }
        }
        assert forall|t: int| 0 <= t < self.side implies #[trigger] fin.diag_nth_ok(t) by {
            assert forall|a: int| 0 <= a < h && a <= t - a <= h implies #[trigger] fin.diag_nth@[slot(st, a, t - a)]
                == fin.diag_count(t, a) by {
                if t == s {
                    assert(mid.diag_bits_ok(t));
                    mid.lemma_diag_count_bits(t, a);
                    mid.lemma_diag_count_same(fin, t, a);
                } else {
                    assert(self.diag_nth_ok(t));
                    self.lemma_diag_count_same(fin, t, a);
                }
            }
        }
        assert forall|a: int, b: int| 0 <= a < h && h < b < st implies #[trigger] fin.diag_nth@[slot(st, a, b)] == 0 by {
            assert(self.pad_ok());
        }
        assert forall|a: int| 0 <= a < h implies #[trigger] fin.row_bits_ok(a) by {
            assert(mid.row_bits_ok(a));
        }
        assert forall|a: int| 0 <= a < h implies #[trigger] fin.col_bits_ok(a) by {
            assert(mid.col_bits_ok(a));
        }
        assert forall|t: int| 0 <= t < self.side implies #[trigger] fin.diag_bits_ok(t) by {
            assert(mid.diag_bits_ok(t));
        }
        mid.lemma_used_same(fin);
    }

    /// Row counts are the set bits of the row below the position.
    proof fn lemma_row_count_bits(self, x: int, y: int)
        requires
            self.row_bits_ok(x),
            0 <= x <= y <= self.half(),
            self.half() <= 256,
        ensures
            self.row_count(x, y) == count_true(self.rows@[x]@, 0, y - x),
        decreases y - x,
    {
        if y > x {
            self.lemma_row_count_bits(x, y - 1);
            assert(self.rows@[x]@[y - 1 - x] == self.dcell(x, x + (y - 1 - x)));
        }
    }

    /// Diagonal counts are the set bits of the diagonal above the position.
    proof fn lemma_diag_count_bits(self, s: int, x: int)
        requires
            self.diag_bits_ok(s),
            0 <= x,
            2 * x <= s,
            self.half() <= 256,
        ensures
            self.diag_count(s, x) == diag_prefix(self.diags@[s]@, s, self.half(), x),
        decreases x,
    {
        if x > 0 {
            self.lemma_diag_count_bits(s, x - 1);
            if s - (x - 1) < self.half() {
                let i = s / 2 - (x - 1);
                assert(0 <= i < 128);
                assert(self.diags@[s]@[i] == self.dcell(s / 2 - i, s - (s / 2 - i)));
            }
        }
    }

    /// Row counts depend on the cells of the row alone.
    proof fn lemma_row_count_same(self, other: Self, x: int, y: int)
        requires
            forall|b: int| #[trigger] self.dcell(x, b) == other.dcell(x, b),
        ensures
            self.row_count(x, y) == other.row_count(x, y),
        decreases y - x,
    {
        if y > x {
            self.lemma_row_count_same(other, x, y - 1);
            assert(self.dcell(x, y - 1) == other.dcell(x, y - 1));
        }
    }

    /// Diagonal counts depend on the cells of the diagonal alone.
    proof fn lemma_diag_count_same(self, other: Self, s: int, x: int)
        requires
            forall|a: int| #[trigger] self.dcell(a, s - a) == other.dcell(a, s - a),
        ensures
            self.diag_count(s, x) == other.diag_count(s, x),
        decreases x,
    {
        if x > 0 {
            self.lemma_diag_count_same(other, s, x - 1);
            assert(self.dcell(x - 1, s - (x - 1)) == other.dcell(x - 1, s - (x - 1)));
        }
    }

    /// A row of the domain is used exactly when its set has a bit.
    proof fn lemma_row_used_bits(self, x: int)
        requires
            self.row_bits_ok(x),
            0 <= x < self.half(),
            self.half() <= 256,
        ensures
            self.row_used(x) == !self.rows@[x].is_zero_spec(),
    {
        if self.row_used(x) {
            let y = choose|y: int| #[trigger] self.dcell(x, y);
            assert(self.rows@[x]@[y - x] == self.dcell(x, x + (y - x)));
        }
        if !self.rows@[x].is_zero_spec() {
            let k = choose|k: int| 0 <= k < 256 && #[trigger] self.rows@[x]@[k];
            assert(self.dcell(x, x + k));
        }
    }

    /// A diagonal is used exactly when its set has a bit.
    proof fn lemma_diag_used_bits(self, s: int)
        requires
            self.diag_bits_ok(s),
            0 <= s,
            self.half() <= 256,
        ensures
            self.diag_used(s) == !self.diags@[s].is_zero_spec(),
    {
        if self.diag_used(s) {
            let x = choose|x: int| #[trigger] self.dcell(x, s - x);
            let i = s / 2 - x;
            assert(0 <= i < 128);
            assert(self.diags@[s]@[i] == self.dcell(s / 2 - i, s - (s / 2 - i)));
        }
        if !self.diags@[s].is_zero_spec() {
            let i = choose|i: int| 0 <= i < 128 && #[trigger] self.diags@[s]@[i];
            assert(self.dcell(s / 2 - i, s - (s / 2 - i)));
        }
    }

    /// The column count is the number of set bits of the column above `y - x`.
    proof fn lemma_col_count(self, y: int, x: int)
        requires
            self.wf(),
            0 <= x <= y < self.half(),
        ensures
            self.col_count(y, x) == self.cols@[y].count_spec(y - x + 1, 256),
        decreases x,
    {
        let c = self.cols@[y];
        if x == 0 {
            assert(self.col_bits_ok(y));
            assert forall|k: int| y + 1 <= k < 256 implies !c@[k] by {
                assert(c@[k] == self.dcell(y - k, y));
            }
            crate::data::u256::lemma_count_none(c@, y + 1, 256);
        } else {
            self.lemma_col_count(y, x - 1);
            assert(self.col_bits_ok(y));
            crate::data::u256::lemma_count_split(c@, y - x + 1, y - x + 2, 256);
            assert(c@[y - x + 1] == self.dcell(x - 1, y));
            assert(crate::data::u256::count_true(c@, y - x + 1, y - x + 1) == 0);
            assert(crate::data::u256::count_true(c@, y - x + 1, y - x + 2) == if c@[y - x + 1] { 1nat } else { 0nat });
        }
    }

    /// With no occupied cell every count is zero.
    proof fn lemma_row_count_zero(self, x: int, y: int)
        requires
            forall|a: int, b: int| !#[trigger] self.cell(a, b),
        ensures
            self.row_count(x, y) == 0,
        decreases y - x,
    {
        if y > x {
            self.lemma_row_count_zero(x, y - 1);
        }
    }

    /// With no occupied cell every count is zero.
    proof fn lemma_diag_count_zero(self, s: int, x: int)
        requires
            forall|a: int, b: int| !#[trigger] self.cell(a, b),
        ensures
            self.diag_count(s, x) == 0,
        decreases x,
    {
        if x > 0 {
            self.lemma_diag_count_zero(s, x - 1);
        }
    }
}

} // verus!
