use vstd::prelude::*;
use crate::data::u256::U512;
use crate::data::vector::Vector;
use crate::data::d4::{D4, d4_of, compose_spec, lemma_d4_of, lemma_identity_inverse};
use crate::data::outline::{cell_image, outline_image, lemma_cell_image_compose};
use crate::data::rect::Rect;
use crate::data::lex::{lex_lt, lex_compare, lemma_lex_transitive, lemma_lex_irreflexive};
use crate::data::flood::{flood, reachable, open_cell, is_seed, is_walk, adjacent, at, lemma_at_div_mod, lemma_index_split};

verus! {

/// Why a list of rows is not a tight polyomino.
#[derive(Clone, Copy, Debug, PartialEq, Eq, Structural)]
pub enum TightPolyError {
    /// A row holds no cell.
    EmptyRow,
    /// No row has a cell in the first column.
    EmptyFirstColumn,
}

/// A set of cells whose first row, last row and first column are occupied: each row is
/// a 512-bit mask, `width` is one past the last occupied column.
#[derive(Clone, Debug, PartialEq, Eq, Hash)]
pub struct TightPoly {
    width: usize,
    rows: Vec<U512>,
}

/// Whether every row of the list has a cell.
pub open spec fn rows_nonempty(rows: Seq<U512>) -> bool {
    forall|x: int| 0 <= x < rows.len() ==> !(#[trigger] rows[x]).is_zero_spec()
}

/// Whether some row has a cell in column `y`.
pub open spec fn column_used(rows: Seq<U512>, y: int) -> bool {
    exists|x: int| 0 <= x < rows.len() && (#[trigger] rows[x])@[y]
}

/// `w` is one past the last column used by the rows (0 when there is no cell).
pub open spec fn is_width_of(rows: Seq<U512>, w: int) -> bool {
    &&& 0 <= w <= 512
    &&& forall|x: int, y: int| 0 <= x < rows.len() && w <= y < 512 ==> !(#[trigger] rows[x]@[y])
    &&& w > 0 ==> column_used(rows, w - 1)
}

fn clone_rows(rows: &Vec<U512>) -> (r: Vec<U512>)
    ensures
        r@ == rows@,
{
    let mut res: Vec<U512> = Vec::new();
    let mut i: usize = 0;
    while i < rows.len()
        invariant
            i <= rows.len(),
            res@ == rows@.subrange(0, i as int),
        decreases rows.len() - i,
    {
        res.push(rows[i]);
        i += 1;
    }
    assert(res@ =~= rows@);
    res
}

/// Images compose: if `q` is the image of `p` under `g1` and `r` is the image of `q`
/// under `g2`, then `r` is the image of `p` under `g2 * g1`.
pub proof fn lemma_image_compose(p: TightPoly, q: TightPoly, r: TightPoly, g1: D4, g2: D4)
    requires
        p.is_image(g1, q),
        q.is_image(g2, r),
    ensures
        p.is_image(compose_spec(g2, g1), r),
{
    let (h, w) = (p.h() as int, p.w() as int);
    assert forall|x: int, y: int| 0 <= x < p.h() && 0 <= y < p.w() implies ({
        let (a, b) = cell_image(compose_spec(g2, g1), h, w, x, y);
        r.cell(a, b) == #[trigger] p.cell(x, y)
    }) by {
        lemma_cell_image_compose(g2, g1, h, w, x, y);
        let (x2, y2) = cell_image(g1, h, w, x, y);
        lemma_cell_image_in_box(g1, h, w, x, y);
        assert(q.cell(x2, y2) == p.cell(x, y));
        assert(r.cell(cell_image(g2, q.h() as int, q.w() as int, x2, y2).0, cell_image(g2, q.h() as int, q.w() as int, x2, y2).1) == q.cell(x2, y2));
    }
}

/// The image of a cell of the box lies in the transformed box.
pub proof fn lemma_cell_image_in_box(g: D4, h: int, w: int, x: int, y: int)
    requires
        0 <= x < h,
        0 <= y < w,
    ensures
        0 <= cell_image(g, h, w, x, y).0 < outline_image(g, h, w).0,
        0 <= cell_image(g, h, w, x, y).1 < outline_image(g, h, w).1,
{
}

/// A walk whose column goes from at most `y` to at least `y`, or from at least `y` to at
/// most `y`, passes through column `y`.
proof fn lemma_walk_crosses(pass: Seq<bool>, h: int, w: int, p: Seq<(int, int)>, y: int)
    requires
        is_walk(pass, h, w, p),
        (p[0].1 <= y <= p.last().1) || (p.last().1 <= y <= p[0].1),
    ensures
        exists|i: int| 0 <= i < p.len() && (#[trigger] p[i]).1 == y,
    decreases p.len(),
{
    if p[0].1 == y {
        assert(p[0].1 == y);
    } else {
        assert(p.len() > 1);
        assert(adjacent(p[0], p[1]));
        let r = p.drop_first();
        assert forall|i: int| 0 <= i < r.len() - 1 implies adjacent(#[trigger] r[i], r[i + 1]) by {
            assert(adjacent(p[i + 1], p[i + 2]));
        }
        assert forall|i: int| 0 <= i < r.len() implies open_cell(pass, h, w, (#[trigger] r[i]).0, r[i].1) by {
            assert(r[i] == p[i + 1]);
        }
        lemma_walk_crosses(pass, h, w, r, y);
        let i = choose|i: int| 0 <= i < r.len() && (#[trigger] r[i]).1 == y;
        assert(p[i + 1].1 == y);
    }
}

/// A connected polyomino has a cell in every column of its box.
pub proof fn lemma_connected_columns(p: TightPoly)
    requires
        p.wf(),
        p.h() <= 512,
        p.is_connected_spec(),
    ensures
        p.rotatable(),
{
    let (h, w) = (p.h() as int, p.w() as int);
    assert forall|y: int| 0 <= y < w implies column_used(p.row_masks(), y) by {
        let x0 = choose|x: int| 0 <= x < p.row_masks().len() && (#[trigger] p.row_masks()[x])@[0];
        let x1 = choose|x: int| 0 <= x < p.row_masks().len() && (#[trigger] p.row_masks()[x])@[w - 1];
        assert(p.cell(x0, 0));
        assert(p.cell(x1, w - 1));
        let m = p.cell_mask();
        let s = p.first_mask();
        let w0 = choose|q: Seq<(int, int)>| #[trigger] is_walk(m, h, w, q) && is_seed(s, h, w, q[0].0, q[0].1) && q.last() == (x0, 0int);
        let w1 = choose|q: Seq<(int, int)>| #[trigger] is_walk(m, h, w, q) && is_seed(s, h, w, q[0].0, q[0].1) && q.last() == (x1, w - 1);
        assert(0 <= w0[0].1 < w && 0 <= w1[0].1 < w);
        assert(w0[0] == w1[0]) by {
            let (a, b) = (w0[0], w1[0]);
            lemma_at_div_mod(h, w, a.0, a.1);
            lemma_at_div_mod(h, w, b.0, b.1);
            if at(w, a.0, a.1) < at(w, b.0, b.1) {
                assert(!m[at(w, a.0, a.1)] || !s[at(w, b.0, b.1)]);
            } else if at(w, b.0, b.1) < at(w, a.0, a.1) {
                assert(!m[at(w, b.0, b.1)] || !s[at(w, a.0, a.1)]);
            }
        }
        let q = if y <= w0[0].1 { w0 } else { w1 };
        lemma_walk_crosses(m, h, w, q, y);
        let i = choose|i: int| 0 <= i < q.len() && (#[trigger] q[i]).1 == y;
        assert(open_cell(m, h, w, q[i].0, q[i].1));
        lemma_at_div_mod(h, w, q[i].0, q[i].1);
        assert(p.cell(q[i].0, y));
        assert(p.row_masks()[q[i].0]@[y]);
    }
}

/// The key by which polyominoes are ordered, as the derived `Ord` orders them: the width,
/// then the words of each row, lowest word first.
pub open spec fn order_key(p: TightPoly) -> Seq<u128> {
    seq![p.w() as u128] + Seq::new(4 * p.h(), |k: int| p.row_masks()[k / 4].limbs()[k % 4])
}

/// Polyominoes with the same key have the same size and the same cells.
pub proof fn lemma_same_key(p: TightPoly, q: TightPoly)
    requires
        p.wf(),
        q.wf(),
        order_key(p) == order_key(q),
    ensures
        p.h() == q.h(),
        p.w() == q.w(),
        forall|x: int, y: int| p.cell(x, y) == q.cell(x, y),
{
    let kp = order_key(p);
    let kq = order_key(q);
    assert(kp.len() == 1 + 4 * p.h());
    assert(p.w() == kp[0]);
    assert(q.w() == kq[0]);
    assert forall|x: int| 0 <= x < p.h() implies (#[trigger] p.row_masks()[x])@ == q.row_masks()[x]@ by {
        let a = p.row_masks()[x];
        let b = q.row_masks()[x];
        a.lemma_limbs_len();
        b.lemma_limbs_len();
        assert forall|l: int| 0 <= l < 4 implies a.limbs()[l] == b.limbs()[l] by {
            let k = 4 * x + l;
            assert(k / 4 == x && k % 4 == l);
            assert(kp[1 + k] == a.limbs()[l]);
            assert(kq[1 + k] == b.limbs()[l]);
        }
        assert(a.limbs() =~= b.limbs());
        a.lemma_same_limbs(b);
    }
}

/// Consistent polyominoes with the same box and the same cells have the same row words:
/// the cells fix every bit inside the width, and consistency clears every bit past it.
pub proof fn lemma_same_rows(p: TightPoly, q: TightPoly)
    requires
        p.wf(),
        q.wf(),
        p.h() == q.h(),
        p.w() == q.w(),
        forall|x: int, y: int| #[trigger] p.cell(x, y) == q.cell(x, y),
    ensures
        p.row_masks() == q.row_masks(),
{
    assert forall|x: int| 0 <= x < p.h() implies #[trigger] p.row_masks()[x] == q.row_masks()[x] by {
        let a = p.row_masks()[x];
        let b = q.row_masks()[x];
        assert forall|y: int| 0 <= y < 512 implies a@[y] == b@[y] by {
            if y < p.w() {
                assert(p.cell(x, y) == q.cell(x, y));
            }
        }
        assert(a@ =~= b@);
        a.lemma_same_bits(b);
    }
    assert(p.row_masks() =~= q.row_masks());
}

/// Being an image only depends on the key of the image.
pub proof fn lemma_image_same_key(p: TightPoly, d: D4, q: TightPoly, r: TightPoly)
    requires
        q.wf(),
        r.wf(),
        p.is_image(d, q),
        order_key(q) == order_key(r),
    ensures
        p.is_image(d, r),
{
    lemma_same_key(q, r);
}

/// A symmetry keeps the number of cells: the cells of the image are the images of the
/// cells, and different cells have different images. `s` lists the cells of `p`, and `t`,
/// if it lists those of the image, is as long.
pub proof fn lemma_image_cell_count(p: TightPoly, d: D4, q: TightPoly, s: Seq<Vector<i32>>, t: Seq<Vector<i32>>)
    requires
        p.wf(),
        p.h() <= 512,
        p.is_cell_list(s),
        p.is_image(d, q),
        q.wf(),
        q.h() <= 512,
        q.is_cell_list(t),
    ensures
        crate::check::check::num_cells(q) == crate::check::check::num_cells(p),
        t.len() == s.len(),
{
    let h = p.h() as int;
    let w = p.w() as int;
    let (h2, w2) = outline_image(d, h, w);
    let f = |c: (int, int)| cell_image(d, h, w, c.0, c.1);
    let ps = Set::new(|c: (int, int)| p.cell(c.0, c.1));
    let qs = Set::new(|c: (int, int)| q.cell(c.0, c.1));
    crate::check::check::lemma_cell_list_len(p, s);
    crate::check::check::lemma_cell_list_len(q, t);
    let s2 = s.map_values(|v: Vector<i32>| (v.x as int, v.y as int));
    assert(s2.to_set() =~= ps) by {
        assert forall|c: (int, int)| s2.to_set().contains(c) implies ps.contains(c) by {
            let i = choose|i: int| 0 <= i < s2.len() && s2[i] == c;
            assert(p.cell(s[i].x as int, s[i].y as int));
        }
        assert forall|c: (int, int)| ps.contains(c) implies s2.to_set().contains(c) by {
            assert(s.contains(Vector { x: c.0 as i32, y: c.1 as i32 }));
            let i = choose|i: int| 0 <= i < s.len() && s[i] == Vector { x: c.0 as i32, y: c.1 as i32 };
            assert(s2[i] == c);
        }
    }
    assert(vstd::relations::injective_on(f, ps)) by {
        assert forall|a: (int, int), b: (int, int)| ps.contains(a) && ps.contains(b) && #[trigger] f(a) == #[trigger] f(b) implies a == b by {}
    }
    assert(ps.map(f) =~= qs) by {
        assert forall|c: (int, int)| ps.map(f).contains(c) implies qs.contains(c) by {
            let a = choose|a: (int, int)| ps.contains(a) && f(a) == c;
            assert(p.cell(a.0, a.1));
        }
        assert forall|c: (int, int)| qs.contains(c) implies ps.map(f).contains(c) by {
            let di = d.inverse_spec();
            let a = cell_image(di, h2, w2, c.0, c.1);
            lemma_cell_image_compose(d, di, h2, w2, c.0, c.1);
            lemma_identity_inverse(d);
            lemma_cell_image_in_box(di, h2, w2, c.0, c.1);
            assert(outline_image(di, h2, w2) == (h, w));
            assert(f(a) == c);
            assert(p.cell(a.0, a.1));
            assert(ps.contains(a));
        }
    }
    vstd::set_lib::lemma_map_size(ps, qs, f);
}

/// Moving a polyomino by a symmetry and then by its inverse gives it back: the same box, the
/// same cells, hence the same number of cells and, for consistent polyominoes, the same rows.
pub proof fn lemma_apply_inverse(p: TightPoly, d: D4, q: TightPoly, r: TightPoly)
    requires
        p.is_image(d, q),
        q.is_image(d.inverse_spec(), r),
    ensures
        r.h() == p.h(),
        r.w() == p.w(),
        forall|x: int, y: int| #[trigger] r.cell(x, y) == p.cell(x, y),
        crate::check::check::num_cells(r) == crate::check::check::num_cells(p),
        p.wf() && r.wf() ==> r.row_masks() == p.row_masks(),
{
    lemma_image_compose(p, q, r, d, d.inverse_spec());
    lemma_identity_inverse(d);
    lemma_apply_identity(p, r);
}

/// The identity moves nothing: same box, same cells and, when both are consistent, same rows.
pub proof fn lemma_apply_identity(p: TightPoly, r: TightPoly)
    requires
        p.is_image(D4::I, r),
    ensures
        r.h() == p.h(),
        r.w() == p.w(),
        forall|x: int, y: int| #[trigger] r.cell(x, y) == p.cell(x, y),
        crate::check::check::num_cells(r) == crate::check::check::num_cells(p),
        p.wf() && r.wf() ==> r.row_masks() == p.row_masks(),
{
    assert forall|x: int, y: int| #[trigger] r.cell(x, y) == p.cell(x, y) by {
        if 0 <= x < p.h() && 0 <= y < p.w() {
            assert(cell_image(D4::I, p.h() as int, p.w() as int, x, y) == (x, y));
        }
    }
    assert(Set::new(|c: (int, int)| r.cell(c.0, c.1)) =~= Set::new(|c: (int, int)| p.cell(c.0, c.1)));
    if p.wf() && r.wf() {
        lemma_same_rows(r, p);
    }
}

impl TightPoly {
    pub closed spec fn h(self) -> nat {
        self.rows@.len()
    }

    pub closed spec fn w(self) -> nat {
        self.width as nat
    }

    pub closed spec fn row_masks(self) -> Seq<U512> {
        self.rows@
    }

    /// Whether the cell `(x, y)` is occupied.
    pub open spec fn cell(self, x: int, y: int) -> bool {
        0 <= x < self.h() && 0 <= y < self.w() && self.row_masks()[x]@[y]
    }

    /// The consistency of the representation.
    pub open spec fn wf(self) -> bool {
        &&& rows_nonempty(self.row_masks())
        &&& is_width_of(self.row_masks(), self.w() as int)
        &&& (self.h() > 0 ==> column_used(self.row_masks(), 0))
    }

    /// Every column inside the width has a cell, and there are at most 512 rows, so the
    /// polyomino can be rotated.
    pub open spec fn rotatable(self) -> bool {
        &&& self.wf()
        &&& self.h() <= 512
        &&& forall|y: int| 0 <= y < self.w() ==> column_used(self.row_masks(), y)
    }

    /// `other` is `self` moved by the symmetry `d` of its bounding box.
    pub open spec fn is_image(self, d: D4, other: TightPoly) -> bool {
        &&& (other.h() as int, other.w() as int) == outline_image(d, self.h() as int, self.w() as int)
        &&& forall|x: int, y: int| 0 <= x < self.h() && 0 <= y < self.w() ==> ({
            let (a, b) = cell_image(d, self.h() as int, self.w() as int, x, y);
            other.cell(a, b) == #[trigger] self.cell(x, y)
        })
    }

    /// `s` lists the occupied cells, row by row and by increasing column within a row.
    pub open spec fn is_cell_list(self, s: Seq<Vector<i32>>) -> bool {
        &&& forall|k: int| 0 <= k < s.len() ==> self.cell(#[trigger] s[k].x as int, s[k].y as int)
        &&& forall|a: int, b: int| #[trigger] self.cell(a, b) ==> s.contains(Vector { x: a as i32, y: b as i32 })
        &&& forall|k: int, l: int| 0 <= k < l < s.len() ==> s[k].x < s[l].x || (s[k].x == s[l].x && s[k].y < s[l].y)
    }

    /// `list` holds the distinct images of `self` under the symmetries of its box, in
    /// increasing order of their keys.
    pub open spec fn is_rot_rev_list(self, list: Seq<TightPoly>) -> bool {
        &&& forall|i: int| 0 <= i < list.len() ==> (#[trigger] list[i]).rotatable() && self.has_some_image(list[i])
        &&& forall|d: D4| #[trigger] self.has_image(d, list)
        &&& forall|i: int, j: int| 0 <= i < j < list.len() ==> lex_lt(order_key(#[trigger] list[i]), order_key(#[trigger] list[j]))
    }

    /// `q` is an image of `self` under some symmetry.
    pub open spec fn has_some_image(self, q: TightPoly) -> bool {
        exists|d: D4| self.is_image(d, q)
    }

    /// Some polyomino of the list is the image of `self` under `d`.
    pub open spec fn has_image(self, d: D4, list: Seq<TightPoly>) -> bool {
        exists|i: int| 0 <= i < list.len() && self.is_image(d, #[trigger] list[i])
    }

    /// The row `x` has a cell.
    pub open spec fn row_has_a_cell(self, x: int) -> bool {
        exists|y: int| 0 <= y < self.w() && #[trigger] self.cell(x, y)
    }

    /// What the consistency says of the cells: every row has one, the first column has one,
    /// and the last column of the width has one.
    pub proof fn lemma_tight_cells(self)
        requires
            self.wf(),
        ensures
            self.w() <= 512,
            forall|x: int| 0 <= x < self.h() ==> #[trigger] self.row_has_a_cell(x),
            self.h() > 0 ==> exists|x: int| 0 <= x < self.h() && #[trigger] self.cell(x, 0),
            self.w() > 0 ==> exists|x: int| 0 <= x < self.h() && #[trigger] self.cell(x, self.w() - 1),
            self.h() > 0 ==> self.w() > 0,
    {
        assert forall|x: int| 0 <= x < self.h() implies #[trigger] self.row_has_a_cell(x) by {
            assert(!self.row_masks()[x].is_zero_spec());
            let y = choose|y: int| 0 <= y < 512 && self.row_masks()[x]@[y];
            assert(self.cell(x, y));
        }
        if self.h() > 0 {
            let x = choose|x: int| 0 <= x < self.h() && (#[trigger] self.row_masks()[x])@[0];
            assert(self.cell(x, 0));
        }
        if self.w() > 0 {
            let x = choose|x: int| 0 <= x < self.h() && (#[trigger] self.row_masks()[x])@[self.w() - 1];
            assert(self.cell(x, self.w() - 1));
        }
    }

    proof fn lemma_cell_bits(self)
        requires
            self.wf(),
        ensures
            forall|x: int, y: int| 0 <= x < self.h() && 0 <= y < 512 ==> #[trigger] self.row_masks()[x]@[y] == self.cell(x, y),
    {
    }

    /// Checks the rows and builds the polyomino.
    pub fn new(rows: Vec<U512>) -> (r: Result<Self, TightPolyError>)
        ensures
            r is Ok <==> (rows_nonempty(rows@) && (rows@.len() > 0 ==> column_used(rows@, 0))),
            !rows_nonempty(rows@) ==> r == Err::<Self, TightPolyError>(TightPolyError::EmptyRow),
            rows_nonempty(rows@) && rows@.len() > 0 && !column_used(rows@, 0) ==> r == Err::<
                Self,
                TightPolyError,
            >(TightPolyError::EmptyFirstColumn),
            r matches Ok(p) ==> p.wf() && p.row_masks() == rows@ && p.h() == rows@.len() && is_width_of(rows@, p.w() as int),
    {
        let mut mask = U512::zero();
        let mut i: usize = 0;
        while i < rows.len()
            invariant
                i <= rows.len(),
                forall|x: int| 0 <= x < i ==> !(#[trigger] rows@[x]).is_zero_spec(),
                forall|y: int| 0 <= y < 512 ==> #[trigger] mask@[y] == (exists|x: int| 0 <= x < i && (#[trigger] rows@[x])@[y]),
            decreases rows.len() - i,
        {
            if rows[i].is_zero() {
                return Err(TightPolyError::EmptyRow);
            }
            let ghost prev = mask;
            mask = mask.or(&rows[i]);
            proof {
                assert forall|y: int| 0 <= y < 512 implies #[trigger] mask@[y] == (exists|x: int| 0 <= x < i + 1 && (#[trigger] rows@[x])@[y]) by {
                    if rows@[i as int]@[y] {
                        assert(0 <= i < i + 1 && rows@[i as int]@[y]);
                    }
                    if exists|x: int| 0 <= x < i + 1 && (#[trigger] rows@[x])@[y] {
                        let x = choose|x: int| 0 <= x < i + 1 && (#[trigger] rows@[x])@[y];
                        if x < i {
                            assert(prev@[y]);
                        }
                    }
                }
            }
            i += 1;
        }
        if rows.len() > 0 && !mask.get(0) {
            proof {
                assert(!column_used(rows@, 0)) by {
                    if column_used(rows@, 0) {
                        let x = choose|x: int| 0 <= x < rows@.len() && (#[trigger] rows@[x])@[0];
                        assert(mask@[0]);
                    }
                }
            }
            return Err(TightPolyError::EmptyFirstColumn);
        }
        let lz = mask.leading_zeros();
        let width = (512 - lz) as usize;
        proof {
            if rows@.len() > 0 {
                assert(mask@[0]);
            }
            assert forall|x: int, y: int| 0 <= x < rows@.len() && width <= y < 512 implies !(#[trigger] rows@[x]@[y]) by {
                if rows@[x]@[y] {
                    assert(mask@[y]);
                }
            }
            if width > 0 {
                assert(mask@[width - 1]);
                let x = choose|x: int| 0 <= x < rows@.len() && (#[trigger] rows@[x])@[width - 1];
            }
            if rows@.len() > 0 {
                assert(column_used(rows@, 0)) by {
                    let x = choose|x: int| 0 <= x < rows@.len() && (#[trigger] rows@[x])@[0];
                }
            }
        }
        Ok(Self { width, rows })
    }

    pub fn width(&self) -> (r: usize)
        ensures
            r == self.w(),
    {
        self.width
    }

    pub fn height(&self) -> (r: usize)
        ensures
            r == self.h(),
    {
        self.rows.len()
    }

    /// The rows, as bit masks.
    pub(crate) fn rows(&self) -> (r: &Vec<U512>)
        ensures
            r@ == self.row_masks(),
            r@.len() == self.h(),
    {
        &self.rows
    }

    /// Whether the cell `(x, y)` is occupied.
    pub fn get(&self, x: usize, y: usize) -> (r: bool)
        requires
            self.wf(),
            x < self.h() ==> y < 512,
        ensures
            r == self.cell(x as int, y as int),
    {
        x < self.rows.len() && self.rows[x].get(y)
    }

    /// Whether the cell `v` is occupied (cells with a negative coordinate are not).
    pub fn get_v(&self, v: Vector<i32>) -> (r: bool)
        requires
            self.wf(),
            0 <= v.x < self.h() ==> v.y < 512,
        ensures
            r == self.cell(v.x as int, v.y as int),
    {
        v.x >= 0 && v.y >= 0 && self.get(v.x as usize, v.y as usize)
    }

    /// A quarter turn: the cell `(i, j)` moves to `(width - 1 - j, i)`.
    pub fn roted90(&self) -> (r: Self)
        requires
            self.rotatable(),
        ensures
            self.is_image(D4::R1, r),
            r.rotatable(),
    {
        let h = self.rows.len();
        let w = self.width;
        let mut rows: Vec<U512> = Vec::new();
        let z = U512::zero();
        let mut k: usize = 0;
        while k < w
            invariant
                k <= w,
                rows@.len() == k,
                forall|y: int| 0 <= y < 512 ==> !(#[trigger] z@[y]),
                forall|a: int, b: int| 0 <= a < k && 0 <= b < 512 ==> !(#[trigger] rows@[a]@[b]),
            decreases w - k,
        {
            rows.push(z);
            k += 1;
        }
        let mut i: usize = 0;
        while i < h
            invariant
                self.rotatable(),
                h == self.h(),
                w == self.w(),
                i <= h,
                rows@.len() == w,
                forall|a: int, b: int| 0 <= a < w && 0 <= b < 512 ==> #[trigger] rows@[a]@[b] == (b < i && self.cell(b, w - 1 - a)),
            decreases h - i,
        {
            let mut j: usize = 0;
            while j < w
                invariant
                    self.rotatable(),
                    h == self.h(),
                    w == self.w(),
                    i < h,
                    j <= w,
                    rows@.len() == w,
                    forall|a: int, b: int| 0 <= a < w && 0 <= b < 512 ==> #[trigger] rows@[a]@[b] == ((b < i || (b == i && a > w - 1 - j)) && self.cell(b, w - 1 - a)),
                decreases w - j,
            {
                if self.get(i, j) {
                    let t = w - 1 - j;
                    let mut row = rows[t];
                    row.set(i);
                    rows.set(t, row);
                }
                j += 1;
            }
            i += 1;
        }
        let ghost rs = rows@;
        proof {
            assert forall|a: int| 0 <= a < rs.len() implies !(#[trigger] rs[a]).is_zero_spec() by {
                assert(column_used(self.row_masks(), w - 1 - a));
                let x = choose|x: int| 0 <= x < self.h() && (#[trigger] self.row_masks()[x])@[w - 1 - a];
                assert(self.cell(x, w - 1 - a));
                assert(rs[a]@[x]);
            }
            if rs.len() > 0 {
                assert(!self.row_masks()[0].is_zero_spec());
                let b = choose|b: int| 0 <= b < 512 && #[trigger] self.row_masks()[0]@[b];
                assert(b < w);
                assert(rs[w - 1 - b]@[0]);
            }
        }
        match Self::new(rows) {
            Ok(p) => {
                proof {
                    assert(p.w() == h) by {
                        if h > 0 {
                            assert(!self.row_masks()[h - 1].is_zero_spec());
                            let b = choose|b: int| 0 <= b < 512 && #[trigger] self.row_masks()[h - 1]@[b];
                            assert(self.row_masks()[h - 1]@[b]);
                            assert(b < w);
                            assert(p.row_masks()[w - 1 - b]@[h - 1]);
                            assert(p.w() >= h);
                            if p.w() > h {
                                let a = choose|a: int| 0 <= a < p.h() && (#[trigger] p.row_masks()[a])@[p.w() - 1];
                            }
                        } else {
                            if p.w() > 0 {
                                let a = choose|a: int| 0 <= a < p.h() && (#[trigger] p.row_masks()[a])@[p.w() - 1];
                            }
                        }
                    }
                    assert forall|y: int| 0 <= y < p.w() implies column_used(p.row_masks(), y) by {
                        assert(!self.row_masks()[y].is_zero_spec());
                        let b = choose|b: int| 0 <= b < 512 && #[trigger] self.row_masks()[y]@[b];
                        assert(b < w);
                        assert(p.row_masks()[w - 1 - b]@[y]);
                    }
                }
                p
            },
            Err(_) => {
                proof {
                    assert(false);
                }
                Self { width: 0, rows: Vec::new() }
            },
        }
    }

    /// Mirrors the rows: the cell `(i, j)` moves to `(height - 1 - i, j)`.
    pub fn flipped(&self) -> (r: Self)
        requires
            self.wf(),
        ensures
            self.is_image(D4::S0, r),
            r.wf(),
            self.rotatable() ==> r.rotatable(),
    {
        let h = self.rows.len();
        let mut rows: Vec<U512> = Vec::new();
        let mut k: usize = h;
        while k > 0
            invariant
                k <= h,
                h == self.h(),
                rows@.len() == h - k,
                forall|a: int| 0 <= a < h - k ==> #[trigger] rows@[a] == self.row_masks()[h - 1 - a],
            decreases k,
        {
            k -= 1;
            rows.push(self.rows[k]);
        }
        let ghost rs = rows@;
        proof {
            assert forall|a: int| 0 <= a < rs.len() implies !(#[trigger] rs[a]).is_zero_spec() by {
                assert(rs[a] == self.row_masks()[h - 1 - a]);
            }
            if h > 0 {
                let x = choose|x: int| 0 <= x < self.h() && (#[trigger] self.row_masks()[x])@[0];
                assert(rs[h - 1 - x] == self.row_masks()[x]);
            }
        }
        match Self::new(rows) {
            Ok(p) => {
                proof {
                    assert(p.w() == self.w()) by {
                        if self.w() > 0 {
                            let x = choose|x: int| 0 <= x < self.h() && (#[trigger] self.row_masks()[x])@[self.w() - 1];
                            assert(rs[h - 1 - x] == self.row_masks()[x]);
                        }
                        if p.w() > 0 {
                            let x = choose|x: int| 0 <= x < p.h() && (#[trigger] p.row_masks()[x])@[p.w() - 1];
                            assert(rs[x] == self.row_masks()[h - 1 - x]);
                        }
                    }
                    assert forall|x: int, y: int| 0 <= x < self.h() && 0 <= y < self.w() implies ({
                        let (a, b) = cell_image(D4::S0, self.h() as int, self.w() as int, x, y);
                        p.cell(a, b) == #[trigger] self.cell(x, y)
                    }) by {
                        assert(rs[h - 1 - x] == self.row_masks()[x]);
                    }
                    if self.rotatable() {
                        assert forall|y: int| 0 <= y < p.w() implies column_used(p.row_masks(), y) by {
                            assert(column_used(self.row_masks(), y));
                            let x = choose|x: int| 0 <= x < self.h() && (#[trigger] self.row_masks()[x])@[y];
                            assert(rs[h - 1 - x] == self.row_masks()[x]);
                        }
                    }
                }
                p
            },
            Err(_) => {
                proof {
                    assert(false);
                }
                Self { width: 0, rows: Vec::new() }
            },
        }
    }

    /// The image under the symmetry `d`: flipped first if `d` flips, then turned
    /// `d.get_rot()` times.
    pub fn apply(&self, d: D4) -> (r: TightPoly)
        requires
            self.rotatable(),
        ensures
            self.is_image(d, r),
            r.rotatable(),
    {
        let mut res = if d.get_flip() { self.flipped() } else { self.clone_poly() };
        let ghost mut g = if d.flip_spec() { D4::S0 } else { D4::I };
        let rot = d.get_rot();
        let mut k: usize = 0;
        proof {
            lemma_d4_of(d.flip_spec(), 0, g);
            lemma_d4_of(d.flip_spec(), 0, d);
        }
        while k < rot
            invariant
                self.rotatable(),
                res.rotatable(),
                k <= rot,
                rot == d.rot_spec(),
                rot < 4,
                g == d4_of(d.flip_spec(), k as int),
                self.is_image(g, res),
            decreases rot - k,
        {
            let next = res.roted90();
            proof {
                lemma_image_compose(*self, res, next, g, D4::R1);
                lemma_d4_of(d.flip_spec(), k as int, g);
                lemma_d4_of(d.flip_spec(), k + 1, D4::R1);
                g = compose_spec(D4::R1, g);
            }
            res = next;
            k += 1;
        }
        proof {
            lemma_d4_of(d.flip_spec(), rot as int, d);
        }
        res
    }

    /// Whether some cell is occupied both in `self` and in `other` placed with its
    /// origin at `(dx, dy)`.
    pub fn intersects(&self, other: &TightPoly, dx: i32, dy: i32) -> (r: bool)
        requires
            self.wf(),
            other.wf(),
            self.h() <= i32::MAX,
            other.h() <= i32::MAX,
            dx + other.h() <= i32::MAX,
            -640 < dy < 640,
        ensures
            r == exists|x: int, y: int| #[trigger] self.cell(x, y) && other.cell(x - dx, y - dy),
    {
        let start_x: i32 = if dx > 0 { dx } else { 0 };
        let e1: i32 = dx + other.rows.len() as i32;
        let e2: i32 = self.rows.len() as i32;
        let end_x: i32 = if e1 < e2 { e1 } else { e2 };
        let mut x = start_x;
        while x < end_x
            invariant
                self.wf(),
                other.wf(),
                self.h() <= i32::MAX,
                other.h() <= i32::MAX,
                -640 < dy < 640,
                start_x <= x,
                start_x >= 0,
                start_x >= dx,
                end_x <= self.h(),
                end_x <= dx + other.h(),
                forall|a: int, y: int| a < x && #[trigger] self.cell(a, y) ==> !other.cell(a - dx, y - dy),
            decreases end_x - x,
        {
            let other_x = (x - dx) as usize;
            let mut mask = self.rows[x as usize];
            let mut other_mask = other.rows[other_x];
            if dy < 0 {
                mask = mask.shl((-dy) as usize);
            } else {
                other_mask = other_mask.shl(dy as usize);
            }
            let both = mask.and(&other_mask);
            if !both.is_zero() {
                proof {
                    let j = choose|j: int| 0 <= j < 512 && #[trigger] both@[j];
                    if dy < 0 {
                        assert(self.cell(x as int, j + dy));
                        assert(other.cell(x - dx, j));
                    } else {
                        assert(self.cell(x as int, j));
                        assert(other.cell(x - dx, j - dy));
                    }
                }
                return true;
            }
            proof {
                assert forall|a: int, y: int| a < x + 1 && #[trigger] self.cell(a, y) implies !other.cell(a - dx, y - dy) by {
                    if a == x && other.cell(a - dx, y - dy) {
                        if dy < 0 {
                            assert(both@[y - dy]);
                        } else {
                            assert(both@[y]);
                        }
                    }
                }
            }
            x += 1;
        }
        proof {
            assert forall|a: int, y: int| #[trigger] self.cell(a, y) implies !other.cell(a - dx, y - dy) by {
                if a >= x && other.cell(a - dx, y - dy) {
                }
            }
        }
        false
    }

    /// The rectangle `[0, height) x [0, width)`.
    pub fn bounding_rect(&self) -> (r: Rect)
        requires
            self.h() <= 512,
            self.wf(),
        ensures
            r.origin_spec() == (Vector { x: 0i32, y: 0i32 }),
            r.diag_spec() == (Vector { x: self.h() as i32, y: self.w() as i32 }),
    {
        let max = Vector::new(self.rows.len() as i32 - 1, self.width as i32 - 1);
        let min = Vector::new(0, 0);
        Rect::from_min_max(min, max)
    }

    /// Row-major flags of the empty cells of the bounding box.
    pub open spec fn empty_mask(self) -> Seq<bool> {
        Seq::new(self.h() * self.w(), |i: int| !self.cell(i / self.w() as int, i % self.w() as int))
    }

    /// Row-major flags of the occupied cells of the bounding box.
    pub open spec fn cell_mask(self) -> Seq<bool> {
        Seq::new(self.h() * self.w(), |i: int| self.cell(i / self.w() as int, i % self.w() as int))
    }

    /// Row-major flags of the cells on the boundary of the bounding box.
    pub open spec fn border_mask(self) -> Seq<bool> {
        Seq::new(self.h() * self.w(), |i: int| {
            let (x, y) = (i / self.w() as int, i % self.w() as int);
            x == 0 || x == self.h() - 1 || y == 0 || y == self.w() - 1
        })
    }

    /// Row-major flag of the first occupied cell (in row-major order).
    pub open spec fn first_mask(self) -> Seq<bool> {
        Seq::new(self.h() * self.w(), |i: int| self.cell_mask()[i] && forall|j: int| 0 <= j < i ==> !self.cell_mask()[j])
    }

    /// Some empty cell of the bounding box cannot be reached from its boundary through
    /// empty cells (boxes of height or width at most 2 have no hole).
    pub open spec fn has_hole_spec(self) -> bool {
        &&& self.h() > 2
        &&& self.w() > 2
        &&& exists|x: int, y: int| 0 <= x < self.h() && 0 <= y < self.w() && !#[trigger] self.cell(x, y)
            && !reachable(self.empty_mask(), self.h() as int, self.w() as int, self.border_mask(), (x, y))
    }

    /// Every occupied cell can be reached from the first occupied cell through occupied
    /// cells.
    pub open spec fn is_connected_spec(self) -> bool {
        forall|x: int, y: int| #[trigger] self.cell(x, y) ==> reachable(self.cell_mask(), self.h() as int, self.w() as int, self.first_mask(), (x, y))
    }

    /// Whether the polyomino encloses an empty region.
    pub fn has_hole(&self) -> (r: bool)
        requires
            self.wf(),
            self.h() <= 512,
        ensures
            r == self.has_hole_spec(),
    {
        let h = self.rows.len();
        let w = self.width;
        if h <= 2 || w <= 2 {
            return false;
        }
        proof {
            assert(h * w <= 512 * 512) by (nonlinear_arith)
                requires h <= 512, w <= 512;
        }
        let n = h * w;
        let mut pass: Vec<bool> = Vec::new();
        let mut seeds: Vec<bool> = Vec::new();
        let mut i: usize = 0;
        while i < n
            invariant
                self.wf(),
                h == self.h(),
                w == self.w(),
                w > 2,
                h > 2,
                n == h * w,
                i <= n,
                pass@.len() == i,
                seeds@.len() == i,
                forall|j: int| 0 <= j < i ==> #[trigger] pass@[j] == self.empty_mask()[j],
                forall|j: int| 0 <= j < i ==> #[trigger] seeds@[j] == self.border_mask()[j],
            decreases n - i,
        {
            proof {
                lemma_index_split(h as int, w as int, i as int);
            }
            let x = i / w;
            let y = i % w;
            pass.push(!self.get(x, y));
            seeds.push(x == 0 || x == h - 1 || y == 0 || y == w - 1);
            i += 1;
        }
        proof {
            assert(pass@ =~= self.empty_mask());
            assert(seeds@ =~= self.border_mask());
        }
        let marks = flood(&pass, h, w, &seeds);
        let mut k: usize = 0;
        while k < n
            invariant
                self.wf(),
                h == self.h(),
                w == self.w(),
                w > 2,
                h > 2,
                n == h * w,
                k <= n,
                pass@ == self.empty_mask(),
                seeds@ == self.border_mask(),
                marks@.len() == n,
                forall|x: int, y: int| 0 <= x < h && 0 <= y < w ==> #[trigger] marks@[at(w as int, x, y)] == reachable(pass@, h as int, w as int, seeds@, (x, y)),
                forall|j: int| 0 <= j < k ==> !(pass@[j] && !marks@[j]),
            decreases n - k,
        {
            if pass[k] && !marks[k] {
                proof {
                    lemma_index_split(h as int, w as int, k as int);
                    let (x, y) = (k / w, k % w);
                    assert(marks@[at(w as int, x as int, y as int)] == reachable(pass@, h as int, w as int, seeds@, (x as int, y as int)));
                    assert(!self.cell(x as int, y as int));
                }
                return true;
            }
            k += 1;
        }
        proof {
            assert forall|x: int, y: int| 0 <= x < h && 0 <= y < w && !#[trigger] self.cell(x, y) implies reachable(self.empty_mask(), h as int, w as int, self.border_mask(), (x, y)) by {
                lemma_at_div_mod(h as int, w as int, x, y);
                let j = at(w as int, x, y);
                assert(pass@[j]);
                assert(!(pass@[j] && !marks@[j]));
            }
        }
        false
    }

    /// Whether the occupied cells form one edge-connected piece.
    pub fn is_connected(&self) -> (r: bool)
        requires
            self.wf(),
            self.h() <= 512,
        ensures
            r == self.is_connected_spec(),
    {
        let h = self.rows.len();
        let w = self.width;
        proof {
            assert(h * w <= 512 * 512) by (nonlinear_arith)
                requires h <= 512, w <= 512;
        }
        let n = h * w;
        let mut pass: Vec<bool> = Vec::new();
        let mut seeds: Vec<bool> = Vec::new();
        let mut found = false;
        let mut i: usize = 0;
        while i < n
            invariant
                self.wf(),
                h == self.h(),
                w == self.w(),
                n == h * w,
                i <= n,
                pass@.len() == i,
                seeds@.len() == i,
                found == (exists|j: int| 0 <= j < i && self.cell_mask()[j]),
                forall|j: int| 0 <= j < i ==> #[trigger] pass@[j] == self.cell_mask()[j],
                forall|j: int| 0 <= j < i ==> #[trigger] seeds@[j] == self.first_mask()[j],
            decreases n - i,
        {
            proof {
                lemma_index_split(h as int, w as int, i as int);
            }
            let x = i / w;
            let y = i % w;
            let c = self.get(x, y);
            pass.push(c);
            seeds.push(c && !found);
            proof {
                assert(self.first_mask()[i as int] == (c && !found)) by {
                    if found {
                        let j = choose|j: int| 0 <= j < i && self.cell_mask()[j];
                    }
                }
                if c {
                    assert(self.cell_mask()[i as int]);
                }
            }
            found = found || c;
            i += 1;
        }
        proof {
            assert(pass@ =~= self.cell_mask());
            assert(seeds@ =~= self.first_mask());
        }
        let marks = flood(&pass, h, w, &seeds);
        let mut k: usize = 0;
        while k < n
            invariant
                self.wf(),
                h == self.h(),
                w == self.w(),
                n == h * w,
                k <= n,
                pass@ == self.cell_mask(),
                seeds@ == self.first_mask(),
                marks@.len() == n,
                forall|x: int, y: int| 0 <= x < h && 0 <= y < w ==> #[trigger] marks@[at(w as int, x, y)] == reachable(pass@, h as int, w as int, seeds@, (x, y)),
                forall|j: int| 0 <= j < k ==> !(pass@[j] && !marks@[j]),
            decreases n - k,
        {
            if pass[k] && !marks[k] {
                proof {
                    lemma_index_split(h as int, w as int, k as int);
                    let (x, y) = (k / w, k % w);
                    assert(marks@[at(w as int, x as int, y as int)] == reachable(pass@, h as int, w as int, seeds@, (x as int, y as int)));
                    assert(self.cell(x as int, y as int));
                }
                return false;
            }
            k += 1;
        }
        proof {
            assert forall|x: int, y: int| #[trigger] self.cell(x, y) implies reachable(self.cell_mask(), h as int, w as int, self.first_mask(), (x, y)) by {
                lemma_at_div_mod(h as int, w as int, x, y);
                let j = at(w as int, x, y);
                assert(pass@[j]);
                assert(!(pass@[j] && !marks@[j]));
            }
        }
        true
    }

    /// The order key of the polyomino.
    fn order_key_vec(&self) -> (r: Vec<u128>)
        requires
            self.wf(),
        ensures
            r@ == order_key(*self),
    {
        let mut v: Vec<u128> = Vec::new();
        v.push(self.width as u128);
        let mut x: usize = 0;
        while x < self.rows.len()
            invariant
                x <= self.h(),
                self.w() <= 512,
                v@ == seq![self.w() as u128] + Seq::new(4 * x as nat, |k: int| self.row_masks()[k / 4].limbs()[k % 4]),
            decreases self.h() - x,
        {
            let d = self.rows[x].data();
            let mut l: usize = 0;
            while l < 4
                invariant
                    x < self.h(),
                    l <= 4,
                    d@ == self.row_masks()[x as int].limbs(),
                    v@ == seq![self.w() as u128] + Seq::new((4 * x + l) as nat, |k: int| self.row_masks()[k / 4].limbs()[k % 4]),
                decreases 4 - l,
            {
                proof {
                    self.row_masks()[x as int].lemma_limbs_len();
                }
                v.push(d[l]);
                proof {
                    let k = 4 * x + l;
                    assert(k / 4 == x && k % 4 == l);
                    assert(v@ =~= seq![self.w() as u128] + Seq::new((k + 1) as nat, |k: int| self.row_masks()[k / 4].limbs()[k % 4]));
                }
                l += 1;
            }
            x += 1;
        }
        v
    }

    /// The distinct images of the polyomino under the eight symmetries of its box, in
    /// increasing order of their keys; there are 1, 2, 4 or 8 of them.
    pub fn unique_rot_revs(&self) -> (r: Vec<TightPoly>)
        requires
            self.rotatable(),
        ensures
            self.is_rot_rev_list(r@),
            r.len() == 1 || r.len() == 2 || r.len() == 4 || r.len() == 8,
    {
        let all = D4::all();
        let mut res: Vec<TightPoly> = Vec::new();
        let mut keys: Vec<Vec<u128>> = Vec::new();
        let mut k: usize = 0;
        while k < 8
            invariant
                self.rotatable(),
                k <= 8,
                forall|i: int| 0 <= i < 8 ==> (#[trigger] all@[i]).idx() == i,
                res.len() == keys.len(),
                forall|i: int| 0 <= i < keys.len() ==> (#[trigger] keys@[i])@ == order_key(res@[i]),
                forall|i: int| 0 <= i < res.len() ==> (#[trigger] res@[i]).rotatable() && self.has_some_image(res@[i]),
                forall|i: int, j: int| 0 <= i < j < keys.len() ==> lex_lt((#[trigger] keys@[i])@, (#[trigger] keys@[j])@),
                forall|m: int| 0 <= m < k ==> exists|i: int| 0 <= i < res.len() && self.is_image(#[trigger] all@[m], res@[i]),
            decreases 8 - k,
        {
            let c = self.apply(all[k]);
            let kc = c.order_key_vec();
            let mut j: usize = 0;
            let mut found = false;
            while j < keys.len()
                invariant_except_break
                    !found,
                invariant
                    j <= keys.len(),
                    forall|i: int| 0 <= i < j ==> lex_lt((#[trigger] keys@[i])@, kc@),
                ensures
                    j <= keys.len(),
                    forall|i: int| 0 <= i < j ==> lex_lt((#[trigger] keys@[i])@, kc@),
                    found ==> j < keys.len() && keys@[j as int]@ == kc@,
                    !found ==> j == keys.len() || lex_lt(kc@, keys@[j as int]@),
                decreases keys.len() - j,
            {
                let o = lex_compare(&keys[j], &kc);
                if o < 0 {
                    j += 1;
                } else {
                    found = o == 0;
                    break;
                }
            }
            let ghost old_res = res@;
            let ghost old_keys = keys@;
            if found {
                proof {
                    lemma_image_same_key(*self, all@[k as int], c, res@[j as int]);
                }
            } else {
                res.insert(j, c);
                keys.insert(j, kc);
                proof {
                    assert forall|i: int| 0 <= i < keys.len() implies (#[trigger] keys@[i])@ == order_key(res@[i]) by {
                        if i < j {
                            assert(keys@[i] == old_keys[i] && res@[i] == old_res[i]);
                        } else if i > j {
                            assert(keys@[i] == old_keys[i - 1] && res@[i] == old_res[i - 1]);
                        }
                    }
                    assert forall|i: int| 0 <= i < res.len() implies (#[trigger] res@[i]).rotatable() && self.has_some_image(res@[i]) by {
                        if i < j {
                            assert(res@[i] == old_res[i]);
                        } else if i > j {
                            assert(res@[i] == old_res[i - 1]);
                        } else {
                            assert(self.is_image(all@[k as int], res@[i]));
                        }
                    }
                    assert forall|a: int, b: int| 0 <= a < b < keys.len() implies lex_lt((#[trigger] keys@[a])@, (#[trigger] keys@[b])@) by {
                        if b < j {
                            assert(keys@[a] == old_keys[a] && keys@[b] == old_keys[b]);
                        } else if b == j {
                            assert(keys@[a] == old_keys[a]);
                        } else if a > j {
                            assert(keys@[a] == old_keys[a - 1] && keys@[b] == old_keys[b - 1]);
                        } else if a == j {
                            assert(keys@[b] == old_keys[b - 1]);
                            if b - 1 > j {
                                lemma_lex_transitive(kc@, old_keys[j as int]@, old_keys[b - 1]@);
                            }
                        } else {
                            assert(keys@[a] == old_keys[a] && keys@[b] == old_keys[b - 1]);
                            assert(lex_lt(old_keys[a]@, kc@));
                            if b - 1 > j {
                                lemma_lex_transitive(kc@, old_keys[j as int]@, old_keys[b - 1]@);
                            }
                            lemma_lex_transitive(old_keys[a]@, kc@, old_keys[b - 1]@);
                        }
                    }
                }
            }
            proof {
                assert forall|m: int| 0 <= m < k + 1 implies exists|i: int| 0 <= i < res.len() && self.is_image(#[trigger] all@[m], res@[i]) by {
                    if m == k {
                        assert(self.is_image(all@[m], res@[j as int]));
                    } else {
                        let i = choose|i: int| 0 <= i < old_res.len() && self.is_image(all@[m], old_res[i]);
                        if found {
                            assert(res@[i] == old_res[i]);
                        } else if i < j {
                            assert(res@[i] == old_res[i]);
                        } else {
                            assert(res@[i + 1] == old_res[i]);
                        }
                    }
                }
            }
            k += 1;
        }
        proof {
            assert forall|d: D4| #[trigger] self.has_image(d, res@) by {
                let m = d.idx();
                assert(all@[m] == d);
                let i = choose|i: int| 0 <= i < res.len() && self.is_image(all@[m], res@[i]);
                assert(self.is_image(d, res@[i]));
            }
            assert forall|i: int, j: int| 0 <= i < j < res.len() implies lex_lt(order_key(#[trigger] res@[i]), order_key(#[trigger] res@[j])) by {
                assert(lex_lt(keys@[i]@, keys@[j]@));
            }
            crate::data::orbit::lemma_rot_rev_count(*self, res@);
        }
        res
    }

    /// A copy of the polyomino.
    pub fn clone_poly(&self) -> (r: Self)
        ensures
            r.h() == self.h(),
            r.w() == self.w(),
            r.row_masks() == self.row_masks(),
    {
        TightPoly { width: self.width, rows: clone_rows(&self.rows) }
    }

    /// The occupied cells, row by row and by increasing column within a row.
    pub fn cells(&self) -> (r: Vec<Vector<i32>>)
        requires
            self.wf(),
            self.h() <= 0x4000_0000,
        ensures
            self.is_cell_list(r@),
    {
        let mut res: Vec<Vector<i32>> = Vec::new();
        let mut x: usize = 0;
        while x < self.rows.len()
            invariant
                self.wf(),
                self.h() <= 0x4000_0000,
                x <= self.h(),
                forall|k: int| 0 <= k < res.len() ==> self.cell(#[trigger] res@[k].x as int, res@[k].y as int) && res@[k].x < x,
                forall|a: int, b: int| a < x && #[trigger] self.cell(a, b) ==> res@.contains(Vector { x: a as i32, y: b as i32 }),
                forall|k: int, l: int| 0 <= k < l < res.len() ==> res@[k].x < res@[l].x || (res@[k].x == res@[l].x && res@[k].y < res@[l].y),
            decreases self.h() - x,
        {
            let ones = self.rows[x].ones();
            let ghost start = res.len();
            let ghost before = res@;
            let mut i: usize = 0;
            while i < ones.len()
                invariant
                    self.wf(),
                    x < self.h(),
                    self.h() <= 0x4000_0000,
                    start == before.len(),
                    res.len() == start + i,
                    i <= ones.len(),
                    forall|k: int| 0 <= k < start ==> res@[k] == before[k],
                    forall|k: int| 0 <= k < before.len() ==> before[k].x < x,
                    forall|k: int| 0 <= k < ones.len() ==> #[trigger] ones@[k] < 512 && self.row_masks()[x as int]@[ones@[k] as int],
                    forall|k: int, l: int| 0 <= k < l < ones.len() ==> ones@[k] < ones@[l],
                    forall|k: int| start <= k < res.len() ==> res@[k] == (Vector { x: x as i32, y: ones@[k - start] as i32 }),
                    forall|k: int| 0 <= k < res.len() ==> self.cell(#[trigger] res@[k].x as int, res@[k].y as int) && res@[k].x <= x,
                    forall|k: int, l: int| 0 <= k < l < res.len() ==> res@[k].x < res@[l].x || (res@[k].x == res@[l].x && res@[k].y < res@[l].y),
                decreases ones.len() - i,
            {
                let y = ones[i];
                proof {
                    assert(self.row_masks()[x as int]@[y as int]);
                    assert(y < self.w()) by {
                        if y >= self.w() {
                            assert(!self.row_masks()[x as int]@[y as int]);
                        }
                    }
                }
                let ghost prev = res@;
                res.push(Vector::new(x as i32, y as i32));
                proof {
                    assert forall|k: int, l: int| 0 <= k < l < res.len() implies res@[k].x < res@[l].x || (res@[k].x == res@[l].x && res@[k].y < res@[l].y) by {
                        if l == res.len() - 1 {
                            if k >= start {
                                assert(ones@[k - start] < ones@[l - start]);
                            } else {
                                assert(res@[k] == before[k]);
                            }
                        } else {
                            assert(res@[k] == prev[k] && res@[l] == prev[l]);
                        }
                    }
                }
                i += 1;
            }
            proof {
                assert forall|a: int, b: int| a < x + 1 && #[trigger] self.cell(a, b) implies res@.contains(Vector { x: a as i32, y: b as i32 }) by {
                    if a == x {
                        assert(self.row_masks()[x as int]@[b]);
                        assert(ones@.contains(b as u32));
                        let k = choose|k: int| 0 <= k < ones.len() && ones@[k] == b as u32;
                        assert(res@[start + k] == (Vector { x: a as i32, y: b as i32 }));
                    } else {
                        assert(before.contains(Vector { x: a as i32, y: b as i32 }));
                        let k = choose|k: int| 0 <= k < before.len() && before[k] == (Vector { x: a as i32, y: b as i32 });
                        assert(res@[k] == before[k]);
                    }
                }
            }
            x += 1;
        }
        res
    }
}

} // verus!
