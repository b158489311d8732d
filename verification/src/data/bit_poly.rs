use vstd::prelude::*;
use crate::data::u256::{U512, count_true, lemma_count_update, lemma_count_bound, lemma_count_shift, lemma_count_zero_iff};
use crate::data::vector::Vector;
use crate::data::rect::Rect;

verus! {

/// A set of cells inside a `height x width` box (`width < 512`, `height <= 512`), stored
/// as one 512-bit row per line, together with per-column counts and the sets of
/// non-empty rows and columns.
#[derive(Clone, Debug)]
pub struct BitPoly {
    rows: Vec<U512>,
    width: usize,
    x_nonzero: U512,
    y_count: Vec<usize>,
    y_nonzero: U512,
    cell_count: usize,
}

/// The sum of `row_sizes` over the first `n` rows of a cell predicate.
pub open spec fn total_cells(cells: spec_fn(int, int) -> bool, n: int, w: int) -> nat
    decreases n,
{
    if n <= 0 {
        0
    } else {
        total_cells(cells, n - 1, w) + count_true(Seq::new(w as nat, |y: int| cells(n - 1, y)), 0, w)
    }
}

/// Toggling one cell of a predicate changes the total over the rows containing it by one.
pub proof fn lemma_total_toggle(f: spec_fn(int, int) -> bool, g: spec_fn(int, int) -> bool, n: int, w: int, x: int, y: int)
    requires
        0 <= y < w,
        0 <= x,
        forall|a: int, b: int| (a != x || b != y) ==> #[trigger] f(a, b) == g(a, b),
        g(x, y) == !f(x, y),
    ensures
        n <= x ==> total_cells(g, n, w) == total_cells(f, n, w),
        n > x ==> total_cells(g, n, w) + (if f(x, y) { 1int } else { 0int }) == total_cells(f, n, w) + (if g(x, y) { 1int } else { 0int }),
    decreases n,
{
    if n > 0 {
        lemma_total_toggle(f, g, n - 1, w, x, y);
        let rf = Seq::new(w as nat, |b: int| f(n - 1, b));
        let rg = Seq::new(w as nat, |b: int| g(n - 1, b));
        if n - 1 == x {
            assert(rg =~= rf.update(y, !rf[y]));
            lemma_count_update(rf, y, !rf[y], 0, w);
        } else {
            assert(rg =~= rf);
        }
    }
}

impl BitPoly {
    pub closed spec fn h(self) -> nat {
        self.rows@.len()
    }

    pub closed spec fn w(self) -> nat {
        self.width as nat
    }

    /// Whether the cell `(x, y)` belongs to the set.
    pub closed spec fn cell(self, x: int, y: int) -> bool {
        0 <= x < self.h() && 0 <= y < self.w() && self.rows@[x]@[y]
    }

    pub open spec fn cells_fn(self) -> spec_fn(int, int) -> bool {
        |x: int, y: int| self.cell(x, y)
    }

    /// Column `y` as a sequence over the rows.
    pub open spec fn column(self, y: int) -> Seq<bool> {
        Seq::new(self.h(), |x: int| self.cell(x, y))
    }

    /// Row `x` as a sequence over the columns.
    pub open spec fn row(self, x: int) -> Seq<bool> {
        Seq::new(self.w(), |y: int| self.cell(x, y))
    }

    /// The number of cells of the set.
    pub open spec fn count(self) -> nat {
        total_cells(self.cells_fn(), self.h() as int, self.w() as int)
    }

    pub open spec fn row_empty(self, x: int) -> bool {
        forall|y: int| 0 <= y < self.w() ==> !self.cell(x, y)
    }

    pub open spec fn col_empty(self, y: int) -> bool {
        forall|x: int| 0 <= x < self.h() ==> !self.cell(x, y)
    }

    /// The internal consistency of the representation.
    pub closed spec fn wf(self) -> bool {
        &&& self.width < 512
        &&& self.rows@.len() <= 512
        &&& forall|x: int, y: int| 0 <= x < self.h() && self.width <= y < 512 ==> !(#[trigger] self.rows@[x]@[y])
        &&& self.y_count@.len() == self.width
        &&& forall|y: int| 0 <= y < self.width ==> #[trigger] self.y_count@[y] == count_true(self.column(y), 0, self.h() as int)
        &&& forall|x: int| 0 <= x < 512 ==> #[trigger] self.x_nonzero@[x] == (x < self.h() && !self.row_empty(x))
        &&& forall|y: int| 0 <= y < 512 ==> #[trigger] self.y_nonzero@[y] == (y < self.width && !self.col_empty(y))
        &&& self.cell_count == self.count()
    }

    proof fn lemma_row_count_bound(self, x: int)
        ensures
            count_true(self.row(x), 0, self.w() as int) <= self.w(),
    {
        lemma_count_bound(self.row(x), 0, self.w() as int);
    }

    proof fn lemma_count_bound(self, n: int)
        requires
            0 <= n <= self.h(),
        ensures
            total_cells(self.cells_fn(), n, self.w() as int) <= n * self.w(),
        decreases n,
    {
        if n > 0 {
            self.lemma_count_bound(n - 1);
            lemma_count_bound(Seq::new(self.w(), |y: int| self.cells_fn()(n - 1, y)), 0, self.w() as int);
            assert(n * self.w() == (n - 1) * self.w() + self.w()) by (nonlinear_arith);
        }
    }

    /// An empty set in a `height x width` box.
    pub fn new(height: usize, width: usize) -> (r: Self)
        requires
            width < 512,
            height <= 512,
        ensures
            r.wf(),
            r.h() == height,
            r.w() == width,
            forall|x: int, y: int| !r.cell(x, y),
    {
        let mut rows: Vec<U512> = Vec::new();
        let z = U512::zero();
        let mut i: usize = 0;
        while i < height
            invariant
                i <= height,
                rows@.len() == i,
                forall|y: int| 0 <= y < 512 ==> !(#[trigger] z@[y]),
                forall|x: int, y: int| 0 <= x < i && 0 <= y < 512 ==> !(#[trigger] rows@[x]@[y]),
            decreases height - i,
        {
            rows.push(z);
            i += 1;
        }
        let mut y_count: Vec<usize> = Vec::new();
        let mut j: usize = 0;
        while j < width
            invariant
                j <= width,
                y_count@.len() == j,
                forall|y: int| 0 <= y < j ==> y_count@[y] == 0,
            decreases width - j,
        {
            y_count.push(0);
            j += 1;
        }
        let r = Self { rows, width, x_nonzero: U512::zero(), y_count, y_nonzero: U512::zero(), cell_count: 0 };
        proof {
            assert forall|y: int| 0 <= y < width implies #[trigger] r.y_count@[y] == count_true(r.column(y), 0, r.h() as int) by {
                crate::data::u256::lemma_count_none(r.column(y), 0, r.h() as int);
            }
            r.lemma_total_zero(height as int);
        }
        r
    }

    proof fn lemma_total_zero(self, n: int)
        requires
            forall|x: int, y: int| !self.cell(x, y),
        ensures
            total_cells(self.cells_fn(), n, self.w() as int) == 0,
        decreases n,
    {
        if n > 0 {
            self.lemma_total_zero(n - 1);
            crate::data::u256::lemma_count_none(Seq::new(self.w(), |y: int| self.cells_fn()(n - 1, y)), 0, self.w() as int);
        }
    }

    /// Toggles the cell `v` and returns whether it is in the set afterwards.
    pub fn flip(&mut self, v: &Vector<i32>) -> (r: bool)
        requires
            old(self).wf(),
            0 <= v.x < old(self).h(),
            0 <= v.y < old(self).w(),
        ensures
            final(self).wf(),
            final(self).h() == old(self).h(),
            final(self).w() == old(self).w(),
            forall|a: int, b: int| #[trigger] final(self).cell(a, b) == (if a == v.x && b == v.y { !old(self).cell(a, b) } else { old(self).cell(a, b) }),
            r == final(self).cell(v.x as int, v.y as int),
            r == !old(self).cell(v.x as int, v.y as int),
    {
        let x = v.x as usize;
        let y = v.y as usize;
        let ghost old_self = *self;
        let mut row = self.rows[x];
        let was_zero = row.is_zero();
        if was_zero {
            self.x_nonzero.set(x);
        }
        row.flip(y);
        let set = row.get(y);
        self.rows.set(x, row);
        let ghost mid = *self;
        proof {
            assert forall|a: int, b: int| #[trigger] mid.cell(a, b) == (if a == x && b == y { !old_self.cell(a, b) } else { old_self.cell(a, b) }) by {}
            assert forall|a: int, b: int| 0 <= a < mid.h() && mid.width <= b < 512 implies !(#[trigger] mid.rows@[a]@[b]) by {
                assert(old_self.wf());
            }
            lemma_total_toggle(old_self.cells_fn(), mid.cells_fn(), old_self.h() as int, old_self.w() as int, x as int, y as int);
            old_self.lemma_count_bound(old_self.h() as int);
            assert(mid.column(y as int) =~= old_self.column(y as int).update(x as int, !old_self.column(y as int)[x as int]));
            lemma_count_update(old_self.column(y as int), x as int, !old_self.column(y as int)[x as int], 0, old_self.h() as int);
            lemma_count_bound(old_self.column(y as int), 0, old_self.h() as int);
            assert(old_self.h() * old_self.w() <= 512 * 512) by (nonlinear_arith)
                requires old_self.h() <= 512, old_self.w() <= 512;
        }
        proof {
            lemma_count_zero_iff(old_self.column(y as int), 0, old_self.h() as int);
            lemma_count_zero_iff(mid.column(y as int), 0, mid.h() as int);
            assert forall|j: int| 0 <= j < mid.h() implies #[trigger] mid.column(y as int)[j] == mid.cell(j, y as int) by {}
            assert forall|j: int| 0 <= j < old_self.h() implies #[trigger] old_self.column(y as int)[j] == old_self.cell(j, y as int) by {}
            assert(old_self.y_count@[y as int] == count_true(old_self.column(y as int), 0, old_self.h() as int));
            assert(old_self.y_nonzero@[y as int] == !old_self.col_empty(y as int));
            if old_self.col_empty(y as int) {
                assert forall|j: int| 0 <= j < old_self.h() implies !old_self.column(y as int)[j] by {
                    assert(!old_self.cell(j, y as int));
                }
            } else {
                let j = choose|j: int| 0 <= j < old_self.h() && old_self.cell(j, y as int);
                assert(old_self.column(y as int)[j]);
            }
            if mid.col_empty(y as int) {
                assert forall|j: int| 0 <= j < mid.h() implies !mid.column(y as int)[j] by {
                    assert(!mid.cell(j, y as int));
                }
            } else {
                let j = choose|j: int| 0 <= j < mid.h() && mid.cell(j, y as int);
                assert(mid.column(y as int)[j]);
            }
            assert(row@ == mid.rows@[x as int]@);
        }
        if set {
            if self.y_count[y] == 0 {
                self.y_nonzero.set(y);
            }
            self.cell_count += 1;
            let c = self.y_count[y];
            self.y_count.set(y, c + 1);
            assert(self.y_nonzero@[y as int]);
            assert(!mid.row_empty(x as int)) by {
                assert(mid.cell(x as int, y as int));
            }
            assert(self.x_nonzero@[x as int]) by {
                if !was_zero {
                    let b = choose|b: int| 0 <= b < 512 && old_self.rows@[x as int]@[b];
                    assert(old_self.cell(x as int, b));
                }
            }
        } else {
            self.cell_count -= 1;
            let c = self.y_count[y];
            self.y_count.set(y, c - 1);
            if row.is_zero() {
                self.x_nonzero.clear(x);
            }
            if self.y_count[y] == 0 {
                self.y_nonzero.clear(y);
            }
            assert(self.y_nonzero@[y as int] == !mid.col_empty(y as int));
            assert(self.x_nonzero@[x as int] == !mid.row_empty(x as int)) by {
                if row.is_zero_spec() {
                    assert forall|b: int| 0 <= b < mid.w() implies !mid.cell(x as int, b) by {
                        assert(!row@[b]);
                    }
                } else {
                    let b = choose|b: int| 0 <= b < 512 && row@[b];
                    assert(mid.cell(x as int, b));
                }
            }
        }
        proof {
            let fin = *self;
            assert forall|a: int, b: int| #[trigger] fin.cell(a, b) == mid.cell(a, b) by {}
            assert(fin.cells_fn() =~= mid.cells_fn());
            assert forall|b: int| 0 <= b < fin.width implies #[trigger] fin.y_count@[b] == count_true(fin.column(b), 0, fin.h() as int) by {
                if b != y {
                    assert(fin.column(b) =~= old_self.column(b));
                } else {
                    assert(fin.column(b) =~= mid.column(b));
                }
            }
            assert forall|a: int| 0 <= a < 512 implies #[trigger] fin.x_nonzero@[a] == (a < fin.h() && !fin.row_empty(a)) by {
                if a != x {
                    assert(fin.x_nonzero@[a] == old_self.x_nonzero@[a]);
                    assert(fin.w() == old_self.w());
                    if old_self.row_empty(a) {
                        assert forall|c: int| 0 <= c < fin.w() implies !fin.cell(a, c) by {
                            assert(!old_self.cell(a, c));
                        }
                    }
                    if fin.row_empty(a) {
                        assert forall|c: int| 0 <= c < old_self.w() implies !old_self.cell(a, c) by {
                            assert(!fin.cell(a, c));
                        }
                    }
                } else {
                    if mid.row_empty(a) {
                        assert forall|c: int| 0 <= c < fin.w() implies !fin.cell(a, c) by {
                            assert(!mid.cell(a, c));
                        }
                    }
                    if fin.row_empty(a) {
                        assert forall|c: int| 0 <= c < mid.w() implies !mid.cell(a, c) by {
                            assert(!fin.cell(a, c));
                        }
                    }
                }
            }
            assert forall|b: int| 0 <= b < 512 implies #[trigger] fin.y_nonzero@[b] == (b < fin.width && !fin.col_empty(b)) by {
                if b != y {
                    assert(fin.y_nonzero@[b] == old_self.y_nonzero@[b]);
                    if old_self.col_empty(b) {
                        assert forall|c: int| 0 <= c < fin.h() implies !fin.cell(c, b) by {
                            assert(!old_self.cell(c, b));
                        }
                    }
                    if fin.col_empty(b) {
                        assert forall|c: int| 0 <= c < old_self.h() implies !old_self.cell(c, b) by {
                            assert(!fin.cell(c, b));
                        }
                    }
                } else {
                    if mid.col_empty(b) {
                        assert forall|c: int| 0 <= c < fin.h() implies !fin.cell(c, b) by {
                            assert(!mid.cell(c, b));
                        }
                    }
                    if fin.col_empty(b) {
                        assert forall|c: int| 0 <= c < mid.h() implies !mid.cell(c, b) by {
                            assert(!fin.cell(c, b));
                        }
                    }
                }
            }
        }
        set
    }

    /// The cells of the set, row by row from the last row to the first, and by
    /// increasing column within a row.
    pub fn cells(&self) -> (r: Vec<Vector<i32>>)
        requires
            self.wf(),
            self.h() > 0,
        ensures
            forall|k: int| 0 <= k < r.len() ==> #[trigger] self.cell(r@[k].x as int, r@[k].y as int),
            forall|a: int, b: int| #[trigger] self.cell(a, b) ==> r@.contains(Vector { x: a as i32, y: b as i32 }),
            forall|k: int, l: int| 0 <= k < l < r.len() ==> r@[k].x > r@[l].x || (r@[k].x == r@[l].x && r@[k].y < r@[l].y),
    {
        let mut res: Vec<Vector<i32>> = Vec::new();
        let mut x = self.rows.len();
        while x > 0
            invariant
                self.wf(),
                x <= self.h(),
                forall|k: int| 0 <= k < res.len() ==> self.cell(#[trigger] res@[k].x as int, res@[k].y as int) && res@[k].x >= x,
                forall|a: int, b: int| a >= x && #[trigger] self.cell(a, b) ==> res@.contains(Vector { x: a as i32, y: b as i32 }),
                forall|k: int, l: int| 0 <= k < l < res.len() ==> res@[k].x > res@[l].x || (res@[k].x == res@[l].x && res@[k].y < res@[l].y),
            decreases x,
        {
            x -= 1;
            let ones = self.rows[x].ones();
            let ghost start = res.len();
            let ghost before = res@;
            let mut i: usize = 0;
            while i < ones.len()
                invariant
                    self.wf(),
                    x < self.h(),
                    start == before.len(),
                    res.len() == start + i,
                    i <= ones.len(),
                    forall|k: int| 0 <= k < start ==> res@[k] == before[k],
                    forall|k: int| 0 <= k < before.len() ==> before[k].x > x,
                    forall|k: int| 0 <= k < ones.len() ==> #[trigger] ones@[k] < 512 && self.rows@[x as int]@[ones@[k] as int],
                    forall|k: int, l: int| 0 <= k < l < ones.len() ==> ones@[k] < ones@[l],
                    forall|k: int| start <= k < res.len() ==> res@[k] == (Vector { x: x as i32, y: ones@[k - start] as i32 }),
                    forall|k: int| 0 <= k < res.len() ==> self.cell(#[trigger] res@[k].x as int, res@[k].y as int) && res@[k].x >= x,
                    forall|k: int, l: int| 0 <= k < l < res.len() ==> res@[k].x > res@[l].x || (res@[k].x == res@[l].x && res@[k].y < res@[l].y),
                decreases ones.len() - i,
            {
                let y = ones[i];
                proof {
                    assert(self.rows@[x as int]@[y as int]);
                    assert(y < self.w()) by {
                        if y >= self.width {
                            assert(!self.rows@[x as int]@[y as int]);
                        }
                    }
                }
                let ghost prev = res@;
                res.push(Vector::new(x as i32, y as i32));
                proof {
                    assert forall|k: int, l: int| 0 <= k < l < res.len() implies res@[k].x > res@[l].x || (res@[k].x == res@[l].x && res@[k].y < res@[l].y) by {
                        if l == res.len() - 1 {
                            if k >= start {
                                assert(ones@[k - start] < ones@[l - start]);
                            } else {
                                assert(res@[k] == before[k]);
                                assert(before[k].x > x);
                            }
                        } else {
                            assert(res@[k] == prev[k] && res@[l] == prev[l]);
                        }
                    }
                }
                i += 1;
            }
            proof {
                assert forall|a: int, b: int| a >= x && #[trigger] self.cell(a, b) implies res@.contains(Vector { x: a as i32, y: b as i32 }) by {
                    if a == x {
                        assert(self.rows@[x as int]@[b]);
                        assert(ones@.contains(b as u32));
                        let k = choose|k: int| 0 <= k < ones.len() && ones@[k] == b as u32;
                        assert(res@[start + k] == (Vector { x: a as i32, y: b as i32 }));
                    } else {
                        assert(before.contains(Vector { x: a as i32, y: b as i32 }));
                        let k = choose|k: int| 0 <= k < before.len() && before[k] == (Vector { x: a as i32, y: b as i32 });
                        assert(res@[k] == before[k]);
                    }
                }
            }
        }
        res
    }

    /// The smallest rectangle holding every cell (an empty rectangle at the origin when
    /// the set is empty).
    pub fn bounding_box(&self) -> (r: Rect)
        requires
            self.wf(),
        ensures
            self.count() == 0 ==> r.origin_spec() == (Vector { x: 0i32, y: 0i32 }) && r.diag_spec() == (Vector { x: 0i32, y: 0i32 }),
            self.count() != 0 ==> ({
                let (x0, y0) = (r.origin_spec().x as int, r.origin_spec().y as int);
                let (x1, y1) = (x0 + r.diag_spec().x - 1, y0 + r.diag_spec().y - 1);
                &&& 0 <= x0 <= x1 < self.h()
                &&& 0 <= y0 <= y1 < self.w()
                &&& !self.row_empty(x0) && !self.row_empty(x1)
                &&& !self.col_empty(y0) && !self.col_empty(y1)
                &&& forall|a: int, b: int| #[trigger] self.cell(a, b) ==> x0 <= a <= x1 && y0 <= b <= y1
            }),
    {
        if self.is_empty() {
            return Rect::new(Vector::new(0, 0), Vector::new(0, 0));
        }
        proof {
            self.lemma_nonempty_has_cell();
            let (a, b) = choose|a: int, b: int| #[trigger] self.cell(a, b);
            assert(!self.row_empty(a));
            assert(self.x_nonzero@[a]);
            assert(!self.col_empty(b));
            assert(self.y_nonzero@[b]);
        }
        let min_x = self.x_nonzero.trailing_zeros() as i32;
        let min_y = self.y_nonzero.trailing_zeros() as i32;
        let max_x = (511 - self.x_nonzero.leading_zeros()) as i32;
        let max_y = (511 - self.y_nonzero.leading_zeros()) as i32;
        let r = Rect::from_min_max(Vector::new(min_x, min_y), Vector::new(max_x, max_y));
        proof {
            assert forall|a: int, b: int| #[trigger] self.cell(a, b) implies min_x <= a <= max_x && min_y <= b <= max_y by {
                assert(!self.row_empty(a));
                assert(self.x_nonzero@[a]);
                assert(!self.col_empty(b));
                assert(self.y_nonzero@[b]);
            }
        }
        r
    }

    /// A cell is counted in the sum over the rows up to `n` that include it.
    pub proof fn lemma_total_has(f: spec_fn(int, int) -> bool, n: int, w: int, x: int, y: int)
        requires
            0 <= x < n,
            0 <= y < w,
            f(x, y),
        ensures
            total_cells(f, n, w) >= 1,
        decreases n,
    {
        if n - 1 > x {
            Self::lemma_total_has(f, n - 1, w, x, y);
        } else {
            let row = Seq::new(w as nat, |b: int| f(n - 1, b));
            assert(row[y]);
            lemma_count_zero_iff(row, 0, w);
        }
    }

    /// A predicate with no cell in the first `n` rows sums to zero over them.
    pub proof fn lemma_total_none(f: spec_fn(int, int) -> bool, n: int, w: int)
        requires
            forall|x: int, y: int| 0 <= x < n && 0 <= y < w ==> !#[trigger] f(x, y),
        ensures
            total_cells(f, n, w) == 0,
        decreases n,
    {
        if n > 0 {
            Self::lemma_total_none(f, n - 1, w);
            crate::data::u256::lemma_count_none(Seq::new(w as nat, |y: int| f(n - 1, y)), 0, w);
        }
    }

    /// The sum over the first `n` rows of `w` columns is at most `n * w`.
    pub proof fn lemma_total_bound(f: spec_fn(int, int) -> bool, n: int, w: int)
        requires
            0 <= n,
            0 <= w,
        ensures
            total_cells(f, n, w) <= n * w,
        decreases n,
    {
        if n > 0 {
            Self::lemma_total_bound(f, n - 1, w);
            lemma_count_bound(Seq::new(w as nat, |y: int| f(n - 1, y)), 0, w);
            assert(n * w == (n - 1) * w + w) by (nonlinear_arith);
        }
    }

    /// A set with a cell has a nonzero count.
    pub proof fn lemma_cell_counted(self, x: int, y: int)
        requires
            self.cell(x, y),
        ensures
            self.count() >= 1,
    {
        Self::lemma_total_has(self.cells_fn(), self.h() as int, self.w() as int, x, y);
    }

    /// A set with two cells has a count of at least two.
    pub proof fn lemma_two_cells(self, a: (int, int), b: (int, int))
        requires
            self.cell(a.0, a.1),
            self.cell(b.0, b.1),
            a != b,
        ensures
            self.count() >= 2,
    {
        let f = self.cells_fn();
        let g = |x: int, y: int| f(x, y) && !(x == b.0 && y == b.1);
        assert forall|x: int, y: int| (x != b.0 || y != b.1) implies #[trigger] f(x, y) == g(x, y) by {}
        lemma_total_toggle(f, g, self.h() as int, self.w() as int, b.0, b.1);
        assert(g(a.0, a.1));
        Self::lemma_total_has(g, self.h() as int, self.w() as int, a.0, a.1);
    }

    proof fn lemma_nonempty_has_cell(self)
        requires
            self.wf(),
            self.count() != 0,
        ensures
            exists|a: int, b: int| #[trigger] self.cell(a, b),
    {
        if !(exists|a: int, b: int| #[trigger] self.cell(a, b)) {
            self.lemma_total_zero(self.h() as int);
        }
    }

    pub fn height(&self) -> (r: usize)
        ensures
            r == self.h(),
    {
        self.rows.len()
    }

    pub fn width(&self) -> (r: usize)
        ensures
            r == self.w(),
    {
        self.width
    }

    pub fn cell_count(&self) -> (r: usize)
        requires
            self.wf(),
        ensures
            r == self.count(),
    {
        self.cell_count
    }

    pub fn is_empty(&self) -> (r: bool)
        requires
            self.wf(),
        ensures
            r == (self.count() == 0),
    {
        self.cell_count == 0
    }

    /// Whether the cell `(x, y)` is in the set.
    pub fn get(&self, x: usize, y: usize) -> (r: bool)
        requires
            self.wf(),
            x < self.h() ==> y < 512,
        ensures
            r == self.cell(x as int, y as int),
    {
        x < self.rows.len() && self.rows[x].get(y)
    }

    /// Whether the cell `v` is in the set (cells with a negative coordinate are not).
    pub fn get_v(&self, v: Vector<i32>) -> (r: bool)
        requires
            self.wf(),
            0 <= v.x < self.h() ==> v.y < 512,
        ensures
            r == self.cell(v.x as int, v.y as int),
    {
        v.x >= 0 && v.y >= 0 && self.get(v.x as usize, v.y as usize)
    }

    /// The rows, as bit masks.
    pub closed spec fn row_masks(self) -> Seq<U512> {
        self.rows@
    }

    /// A row's bits are its cells.
    pub proof fn lemma_row_masks(self)
        requires
            self.wf(),
        ensures
            self.row_masks().len() == self.h(),
            forall|x: int, y: int| 0 <= x < self.h() && 0 <= y < 512 ==> #[trigger] self.row_masks()[x]@[y] == self.cell(x, y),
            forall|x: int, y: int| #[trigger] self.cell(x, y) ==> 0 <= x < self.h() && 0 <= y < self.w(),
            self.w() < 512,
            self.h() <= 512,
    {
    }

    /// The rows, as bit masks.
    pub fn rows(&self) -> (r: &Vec<U512>)
        ensures
            r@ == self.row_masks(),
    {
        &self.rows
    }
}

} // verus!
