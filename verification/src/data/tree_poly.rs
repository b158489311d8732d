use vstd::prelude::*;
use crate::data::bit_poly::{BitPoly, total_cells};
use crate::data::vector::Vector;
use crate::data::u256::U512;
use crate::data::tight_poly::{TightPoly, rows_nonempty, column_used};

verus! {

/// The row step of direction `d`: directions 0..4 point to (0,1), (1,0), (0,-1), (-1,0).
pub open spec fn dir_x(d: int) -> int {
    if d == 1 { 1 } else if d == 3 { -1 } else { 0 }
}

/// The column step of direction `d`.
pub open spec fn dir_y(d: int) -> int {
    if d == 0 { 1 } else if d == 2 { -1 } else { 0 }
}

/// The steps of direction `d`.
fn dir(d: usize) -> (r: (i32, i32))
    requires
        d < 4,
    ensures
        r.0 == dir_x(d as int),
        r.1 == dir_y(d as int),
{
    match d {
        0 => (0, 1),
        1 => (1, 0),
        2 => (0, -1),
        _ => (-1, 0),
    }
}

/// `p` and `q` are side by side.
pub open spec fn next_to(p: (int, int), q: (int, int)) -> bool {
    (p.0 == q.0 && (p.1 - q.1 == 1 || q.1 - p.1 == 1)) || (p.1 == q.1 && (p.0 - q.0 == 1 || q.0 - p.0 == 1))
}

/// The squares side by side with `(x, y)` are its neighbors in the four directions.
pub proof fn lemma_next_to_dir(x: int, y: int, q: (int, int))
    ensures
        next_to((x, y), q) <==> exists|d: int| 0 <= d < 4 && q.0 == x + dir_x(d) && q.1 == y + dir_y(d),
{
    if next_to((x, y), q) {
        if q.1 == y + 1 {
            assert(q.0 == x + dir_x(0) && q.1 == y + dir_y(0));
        } else if q.0 == x + 1 {
            assert(q.0 == x + dir_x(1) && q.1 == y + dir_y(1));
        } else if q.1 == y - 1 {
            assert(q.0 == x + dir_x(2) && q.1 == y + dir_y(2));
        } else {
            assert(q.0 == x + dir_x(3) && q.1 == y + dir_y(3));
        }
    }
}

/// Bit `k` of a word.
pub open spec fn ubit(m: usize, k: int) -> bool {
    (m >> (k as usize)) & 1usize == 1usize
}

/// Why a tree refused a change.
#[derive(Clone, Copy, Debug, PartialEq, Eq, Structural)]
pub enum TreeError {
    /// The cells around do not allow the change.
    Refused,
}

/// A polyomino grown leaf by leaf in a `height x width` box: a cell is added only next to
/// exactly one cell and away from the cells around it, and only a leaf is removed, so the
/// cells stay a tree.
#[derive(Debug, Clone)]
pub struct TreePoly {
    width: usize,
    poly: BitPoly,
}

impl TreePoly {
    /// The cells, as a bit polyomino.
    pub closed spec fn poly_spec(self) -> BitPoly {
        self.poly
    }

    pub open spec fn h(self) -> nat {
        self.poly_spec().h()
    }

    pub open spec fn w(self) -> nat {
        self.poly_spec().w()
    }

    /// Whether `(x, y)` is a cell.
    pub open spec fn cell(self, x: int, y: int) -> bool {
        self.poly_spec().cell(x, y)
    }

    /// The number of cells.
    pub open spec fn count(self) -> nat {
        self.poly_spec().count()
    }

    /// The consistency of the representation.
    pub closed spec fn wf(self) -> bool {
        &&& self.poly.wf()
        &&& self.width == self.poly.w()
        &&& self.connected()
    }

    /// `s` is a set of cells that holds every cell next to one of its members.
    pub open spec fn is_closed(self, s: Set<(int, int)>) -> bool {
        &&& forall|p: (int, int)| #[trigger] s.contains(p) ==> self.cell(p.0, p.1)
        &&& forall|p: (int, int), q: (int, int)|
            #[trigger] s.contains(p) && #[trigger] self.cell(q.0, q.1) && next_to(p, q) ==> s.contains(q)
    }

    /// The cells are connected: a closed set of cells with one cell has them all.
    pub open spec fn connected(self) -> bool {
        forall|s: Set<(int, int)>, p: (int, int)| #[trigger] self.is_closed(s) && #[trigger] s.contains(p) ==> forall|q: (int, int)|
            #[trigger] self.cell(q.0, q.1) ==> s.contains(q)
    }

    pub proof fn lemma_wf(self)
        requires
            self.wf(),
        ensures
            self.poly_spec().wf(),
            self.w() < 512,
            self.h() <= 512,
            forall|x: int, y: int| #[trigger] self.cell(x, y) ==> 0 <= x < self.h() && 0 <= y < self.w(),
            self.connected(),
    {
        self.poly.lemma_row_masks();
    }

    /// The neighbor of `(x, y)` in direction `d` is a cell.
    pub open spec fn nbr(self, x: int, y: int, d: int) -> bool {
        self.cell(x + dir_x(d), y + dir_y(d))
    }

    /// The number of cells next to `(x, y)`.
    pub open spec fn nbr_count(self, x: int, y: int) -> nat {
        (if self.nbr(x, y, 0) { 1nat } else { 0nat }) + (if self.nbr(x, y, 1) { 1nat } else { 0nat }) + (if self.nbr(x, y, 2) {
            1nat
        } else {
            0nat
        }) + (if self.nbr(x, y, 3) { 1nat } else { 0nat })
    }

    /// Whether `(x, y)` is a cell next to at most one cell.
    pub open spec fn leaf_at(self, x: int, y: int) -> bool {
        self.cell(x, y) && self.nbr_count(x, y) <= 1
    }

    /// Row `x` holds a cell.
    pub open spec fn row_used(self, x: int) -> bool {
        exists|y: int| #[trigger] self.cell(x, y)
    }

    /// Column `y` holds a cell.
    pub open spec fn col_used(self, y: int) -> bool {
        exists|x: int| #[trigger] self.cell(x, y)
    }

    /// The rows that hold cells are consecutive, as they are for any connected set of cells.
    pub open spec fn rows_consecutive(self) -> bool {
        forall|a: int, b: int, c: int|
            a < b < c && #[trigger] self.row_used(a) && #[trigger] self.row_used(c) ==> #[trigger] self.row_used(b)
    }

    /// Row `s` and column `c` are the first ones that hold cells.
    pub open spec fn is_corner(self, s: int, c: int) -> bool {
        &&& self.row_used(s)
        &&& forall|x: int| x < s ==> !#[trigger] self.row_used(x)
        &&& self.col_used(c)
        &&& forall|y: int| y < c ==> !#[trigger] self.col_used(y)
    }

    /// The two cells beyond `(x, y)` on the side away from its neighbor in direction `d`
    /// are free.
    pub open spec fn far_side_free(self, x: int, y: int, d: int) -> bool {
        forall|e: int|
            0 <= e < 2 ==> !#[trigger] self.cell(
                x + dir_x((d + e + 1) % 4) + dir_x((d + e + 2) % 4),
                y + dir_y((d + e + 1) % 4) + dir_y((d + e + 2) % 4),
            )
    }

    /// Whether `(x, y)` can become a leaf: a free cell of the box next to at most one
    /// cell, away from the cells beyond it, and next to one unless the tree is empty.
    pub open spec fn can_set_spec(self, x: int, y: int) -> bool {
        &&& 0 <= x < self.h()
        &&& 0 <= y < self.w()
        &&& !self.cell(x, y)
        &&& self.nbr_count(x, y) <= 1
        &&& forall|d: int| 0 <= d < 4 && #[trigger] self.nbr(x, y, d) ==> self.far_side_free(x, y, d)
        &&& (self.nbr_count(x, y) == 1 || self.count() == 0)
    }

    /// Whether `(x, y)` is a leaf that can go: a cell next to exactly one cell, or the only
    /// cell.
    pub open spec fn can_clear_spec(self, x: int, y: int) -> bool {
        &&& self.cell(x, y)
        &&& (self.nbr_count(x, y) == 1 || (self.count() == 1 && self.nbr_count(x, y) == 0))
    }

    /// `other` is `self` with the cell `(x, y)` flipped.
    pub open spec fn flipped_at(self, other: TreePoly, x: int, y: int) -> bool {
        &&& other.h() == self.h()
        &&& other.w() == self.w()
        &&& forall|a: int, b: int| #[trigger] other.cell(a, b) == (self.cell(a, b) != (a == x && b == y))
    }

    /// `(x, y)` has exactly one side without a cell: the one in direction `k`.
    pub open spec fn lone_gap(self, x: int, y: int, k: int) -> bool {
        &&& 0 <= k < 4
        &&& !self.nbr(x, y, k)
        &&& forall|j: int| 0 <= j < 4 && j != k ==> #[trigger] self.nbr(x, y, j)
    }

    /// `(cx, cy)` is a cell exactly when `want`, and the squares one step `d`, one step `e`
    /// and one step of each beyond it are free.
    pub open spec fn corner_ok(self, cx: int, cy: int, dx: int, dy: int, ex: int, ey: int, want: bool) -> bool {
        &&& self.cell(cx, cy) == want
        &&& !self.cell(cx + dx, cy + dy)
        &&& !self.cell(cx + ex, cy + ey)
        &&& !self.cell(cx + dx + ex, cy + dy + ey)
    }

    /// For a zip at `(x, y)` whose lone gap is in direction `k`: the corner one step away
    /// from the gap and one step in direction `j` is a cell exactly when `(x, y)` is not,
    /// and the three squares beyond the corner are free.
    pub open spec fn zip_side_ok(self, x: int, y: int, k: int, j: int) -> bool {
        let m = (k + 2) % 4;
        self.corner_ok(
            x + dir_x(m) + dir_x(j),
            y + dir_y(m) + dir_y(j),
            dir_x(m),
            dir_y(m),
            dir_x(j),
            dir_y(j),
            !self.cell(x, y),
        )
    }

    /// Whether a zip at `(x, y)` is possible: one side free, and both corners away from it as
    /// a zip needs them.
    pub open spec fn can_zip_spec(self, x: int, y: int) -> bool {
        exists|k: int|
            #[trigger] self.lone_gap(x, y, k) && self.zip_side_ok(x, y, k, (k + 1) % 4) && self.zip_side_ok(x, y, k, (k + 3) % 4)
    }

    /// Every tree is connected, so the rows that hold its cells are consecutive.
    pub proof fn lemma_tree_connected(self)
        requires
            self.wf(),
        ensures
            self.connected(),
            self.rows_consecutive(),
    {
        assert forall|a: int, b: int, c: int| a < b < c && #[trigger] self.row_used(a) && #[trigger] self.row_used(c) implies #[trigger] self.row_used(
            b,
        ) by {
            if !self.row_used(b) {
                let s = Set::new(|p: (int, int)| self.cell(p.0, p.1) && p.0 < b);
                assert(self.is_closed(s)) by {
                    assert forall|p: (int, int), q: (int, int)| #[trigger] s.contains(p) && #[trigger] self.cell(q.0, q.1) && next_to(p, q)
                        implies s.contains(q) by {
                        if q.0 == b {
                            assert(self.row_used(b));
                        }
                    }
                }
                let ya = choose|y: int| #[trigger] self.cell(a, y);
                let yc = choose|y: int| #[trigger] self.cell(c, y);
                assert(s.contains((a, ya)));
                assert(self.cell((c, yc).0, (c, yc).1));
                assert(s.contains((c, yc)));
            }
        }
    }

    /// A cell next to exactly one cell has a single neighbor `u`.
    proof fn lemma_single_neighbor(self, x: int, y: int) -> (u: (int, int))
        requires
            self.nbr_count(x, y) == 1,
        ensures
            self.cell(u.0, u.1),
            next_to((x, y), u),
            forall|q: (int, int)| #[trigger] self.cell(q.0, q.1) && next_to((x, y), q) ==> q == u,
    {
        let d: int = if self.nbr(x, y, 0) {
            0
        } else if self.nbr(x, y, 1) {
            1
        } else if self.nbr(x, y, 2) {
            2
        } else {
            3
        };
        let u = (x + dir_x(d), y + dir_y(d));
        assert forall|q: (int, int)| #[trigger] self.cell(q.0, q.1) && next_to((x, y), q) implies q == u by {
            lemma_next_to_dir(x, y, q);
            let e = choose|e: int| 0 <= e < 4 && q.0 == x + dir_x(e) && q.1 == y + dir_y(e);
            assert(self.nbr(x, y, e));
        }
        u
    }

    /// Adding a leaf keeps the cells connected.
    proof fn lemma_set_connected(self, t: TreePoly, x: int, y: int)
        requires
            self.connected(),
            self.poly_spec().wf(),
            self.can_set_spec(x, y),
            self.flipped_at(t, x, y),
        ensures
            t.connected(),
    {
        let v = (x, y);
        assert forall|s: Set<(int, int)>, p: (int, int)| #[trigger] t.is_closed(s) && #[trigger] s.contains(p) implies forall|q: (int, int)|
            #[trigger] t.cell(q.0, q.1) ==> s.contains(q) by {
            if self.nbr_count(x, y) == 0 {
                assert forall|q: (int, int)| #[trigger] t.cell(q.0, q.1) implies s.contains(q) by {
                    if q != v {
                        self.poly_spec().lemma_cell_counted(q.0, q.1);
                        assert(self.cell(q.0, q.1));
                    }
                    if p != v {
                        assert(t.cell(p.0, p.1));
                        self.poly_spec().lemma_cell_counted(p.0, p.1);
                    }
                }
            } else {
                let u = self.lemma_single_neighbor(x, y);
                assert(t.cell(u.0, u.1));
                let s2 = s.remove(v);
                assert(self.is_closed(s2)) by {
                    assert forall|a: (int, int)| #[trigger] s2.contains(a) implies self.cell(a.0, a.1) by {
                        assert(t.cell(a.0, a.1));
                    }
                    assert forall|a: (int, int), b: (int, int)| #[trigger] s2.contains(a) && #[trigger] self.cell(b.0, b.1) && next_to(a, b)
                        implies s2.contains(b) by {
                        assert(t.cell(b.0, b.1));
                    }
                }
                let c = if p == v {
                    assert(next_to(v, u));
                    assert(s.contains(u));
                    u
                } else {
                    p
                };
                assert(s2.contains(c));
                assert forall|q: (int, int)| #[trigger] t.cell(q.0, q.1) implies s.contains(q) by {
                    if q == v {
                        assert(s2.contains(u));
                        assert(next_to(u, v));
                    } else {
                        assert(self.cell(q.0, q.1));
                        assert(s2.contains(q));
                    }
                }
            }
        }
    }

    /// Removing a leaf keeps the cells connected.
    proof fn lemma_clear_connected(self, t: TreePoly, x: int, y: int)
        requires
            self.connected(),
            self.poly_spec().wf(),
            self.can_clear_spec(x, y),
            self.flipped_at(t, x, y),
        ensures
            t.connected(),
    {
        let v = (x, y);
        assert forall|s: Set<(int, int)>, p: (int, int)| #[trigger] t.is_closed(s) && #[trigger] s.contains(p) implies forall|q: (int, int)|
            #[trigger] t.cell(q.0, q.1) ==> s.contains(q) by {
            assert(t.cell(p.0, p.1));
            assert(p != v);
            if self.nbr_count(x, y) == 0 {
                // (x, y) was the only cell
                assert(self.count() == 1);
                self.poly_spec().lemma_cell_counted(p.0, p.1);
                assert(false) by {
                    self.poly_spec().lemma_two_cells(v, p);
                }
            } else {
                let u = self.lemma_single_neighbor(x, y);
                let s1 = s.remove(v);
                let s2 = if s.contains(u) { s1.insert(v) } else { s1 };
                assert(self.is_closed(s2)) by {
                    assert forall|a: (int, int)| #[trigger] s2.contains(a) implies self.cell(a.0, a.1) by {
                        if a != v {
                            assert(t.cell(a.0, a.1));
                        }
                    }
                    assert forall|a: (int, int), b: (int, int)| #[trigger] s2.contains(a) && #[trigger] self.cell(b.0, b.1) && next_to(a, b)
                        implies s2.contains(b) by {
                        if a == v {
                            assert(b == u);
                        } else if b == v {
                            assert(t.cell(a.0, a.1));
                            assert(next_to(v, a));
                            assert(a == u);
                        } else {
                            assert(t.cell(b.0, b.1));
                        }
                    }
                }
                assert(s2.contains(p));
                assert forall|q: (int, int)| #[trigger] t.cell(q.0, q.1) implies s.contains(q) by {
                    assert(self.cell(q.0, q.1));
                    assert(s2.contains(q));
                }
            }
        }
    }

    /// Adding a free square next to a cell keeps the cells connected.
    proof fn lemma_add_connected(self, t: TreePoly, x: int, y: int, u: (int, int))
        requires
            self.connected(),
            !self.cell(x, y),
            self.cell(u.0, u.1),
            next_to((x, y), u),
            self.flipped_at(t, x, y),
        ensures
            t.connected(),
    {
        let v = (x, y);
        assert forall|s: Set<(int, int)>, p: (int, int)| #[trigger] t.is_closed(s) && #[trigger] s.contains(p) implies forall|q: (int, int)|
            #[trigger] t.cell(q.0, q.1) ==> s.contains(q) by {
            assert(t.cell(u.0, u.1));
            let s2 = s.remove(v);
            assert(self.is_closed(s2)) by {
                assert forall|a: (int, int)| #[trigger] s2.contains(a) implies self.cell(a.0, a.1) by {
                    assert(t.cell(a.0, a.1));
                }
                assert forall|a: (int, int), b: (int, int)| #[trigger] s2.contains(a) && #[trigger] self.cell(b.0, b.1) && next_to(a, b)
                    implies s2.contains(b) by {
                    assert(t.cell(b.0, b.1));
                }
            }
            let c = if p == v {
                assert(next_to(v, u));
                assert(s.contains(u));
                u
            } else {
                p
            };
            assert(s2.contains(c));
            assert forall|q: (int, int)| #[trigger] t.cell(q.0, q.1) implies s.contains(q) by {
                if q == v {
                    assert(s2.contains(u));
                    assert(next_to(u, v));
                } else {
                    assert(self.cell(q.0, q.1));
                    assert(s2.contains(q));
                }
            }
        }
    }

    /// Removing a cell keeps the cells connected when every closed set of the remaining cells
    /// that holds one of its neighbors holds them all.
    proof fn lemma_remove_connected(self, t: TreePoly, x: int, y: int)
        requires
            self.connected(),
            self.cell(x, y),
            self.flipped_at(t, x, y),
            forall|s: Set<(int, int)>, a: (int, int), b: (int, int)|
                #[trigger] t.is_closed(s) && #[trigger] s.contains(a) && self.cell(a.0, a.1) && next_to(a, (x, y)) && #[trigger] self.cell(
                    b.0,
                    b.1,
                ) && next_to(b, (x, y)) ==> s.contains(b),
        ensures
            t.connected(),
    {
        let c = (x, y);
        assert forall|s: Set<(int, int)>, p: (int, int)| #[trigger] t.is_closed(s) && #[trigger] s.contains(p) implies forall|q: (int, int)|
            #[trigger] t.cell(q.0, q.1) ==> s.contains(q) by {
            assert(t.cell(p.0, p.1));
            if exists|a: (int, int)| #[trigger] s.contains(a) && self.cell(a.0, a.1) && next_to(a, c) {
                let a = choose|a: (int, int)| #[trigger] s.contains(a) && self.cell(a.0, a.1) && next_to(a, c);
                let s2 = s.insert(c);
                assert(self.is_closed(s2)) by {
                    assert forall|a2: (int, int)| #[trigger] s2.contains(a2) implies self.cell(a2.0, a2.1) by {
                        if a2 != c {
                            assert(t.cell(a2.0, a2.1));
                        }
                    }
                    assert forall|a2: (int, int), b2: (int, int)| #[trigger] s2.contains(a2) && #[trigger] self.cell(b2.0, b2.1) && next_to(
                        a2,
                        b2,
                    ) implies s2.contains(b2) by {
                        if a2 == c {
                            assert(next_to(b2, c));
                            assert(s.contains(b2));
                        } else if b2 != c {
                            assert(t.cell(b2.0, b2.1));
                        }
                    }
                }
                assert(s2.contains(p));
                assert forall|q: (int, int)| #[trigger] t.cell(q.0, q.1) implies s.contains(q) by {
                    assert(self.cell(q.0, q.1));
                    assert(s2.contains(q));
                }
            } else {
                assert(self.is_closed(s)) by {
                    assert forall|a2: (int, int)| #[trigger] s.contains(a2) implies self.cell(a2.0, a2.1) by {
                        assert(t.cell(a2.0, a2.1));
                    }
                    assert forall|a2: (int, int), b2: (int, int)| #[trigger] s.contains(a2) && #[trigger] self.cell(b2.0, b2.1) && next_to(
                        a2,
                        b2,
                    ) implies s.contains(b2) by {
                        assert(t.cell(a2.0, a2.1));
                        if b2 == c {
                            assert(s.contains(a2) && self.cell(a2.0, a2.1) && next_to(a2, c));
                        } else {
                            assert(t.cell(b2.0, b2.1));
                        }
                    }
                }
                assert(self.cell(c.0, c.1));
                assert(s.contains(c));
                assert(t.cell(c.0, c.1));
            }
        }
    }

    /// Removing a cell whose neighbors are `n1` and `n2`, both next to a remaining cell `mid`,
    /// keeps the cells connected.
    proof fn lemma_remove_via(self, t: TreePoly, c: (int, int), n1: (int, int), n2: (int, int), mid: (int, int))
        requires
            self.connected(),
            self.cell(c.0, c.1),
            self.flipped_at(t, c.0, c.1),
            forall|q: (int, int)| #[trigger] self.cell(q.0, q.1) && next_to(q, c) ==> q == n1 || q == n2,
            t.cell(mid.0, mid.1),
            t.cell(n1.0, n1.1),
            t.cell(n2.0, n2.1),
            next_to(n1, mid),
            next_to(n2, mid),
        ensures
            t.connected(),
    {
        assert forall|s: Set<(int, int)>, a: (int, int), b: (int, int)|
            #[trigger] t.is_closed(s) && #[trigger] s.contains(a) && self.cell(a.0, a.1) && next_to(a, c) && #[trigger] self.cell(b.0, b.1)
                && next_to(b, c) implies s.contains(b) by {
            assert(a == n1 || a == n2);
            assert(b == n1 || b == n2);
            assert(next_to(mid, n1));
            assert(next_to(mid, n2));
            assert(s.contains(mid));
        }
        self.lemma_remove_connected(t, c.0, c.1);
    }

    /// A second zip at the same square undoes the first: the lone gap is the same, so it
    /// toggles the same two corners, and the cells are those before the first zip.
    pub proof fn lemma_zip_restores(self, t: TreePoly, u: TreePoly, x: int, y: int, k: int, k2: int)
        requires
            self.lone_gap(x, y, k),
            self.zip_side_ok(x, y, k, (k + 1) % 4),
            self.zip_side_ok(x, y, k, (k + 3) % 4),
            forall|p: int, q: int|
                #[trigger] t.cell(p, q) == (self.cell(p, q) != ((p == x && q == y) || (p == x + dir_x((k + 2) % 4) + dir_x((k + 1) % 4) && q
                    == y + dir_y((k + 2) % 4) + dir_y((k + 1) % 4)) || (p == x + dir_x((k + 2) % 4) + dir_x((k + 3) % 4) && q == y + dir_y(
                    (k + 2) % 4,
                ) + dir_y((k + 3) % 4)))),
            t.lone_gap(x, y, k2),
            forall|p: int, q: int|
                #[trigger] u.cell(p, q) == (t.cell(p, q) != ((p == x && q == y) || (p == x + dir_x((k2 + 2) % 4) + dir_x((k2 + 1) % 4) && q
                    == y + dir_y((k2 + 2) % 4) + dir_y((k2 + 1) % 4)) || (p == x + dir_x((k2 + 2) % 4) + dir_x((k2 + 3) % 4) && q == y + dir_y(
                    (k2 + 2) % 4,
                ) + dir_y((k2 + 3) % 4)))),
        ensures
            k2 == k,
            t.can_zip_spec(x, y),
            forall|p: int, q: int| #[trigger] u.cell(p, q) == self.cell(p, q),
    {
        self.lemma_zip_twice(t, x, y, k);
        if k2 != k {
            assert(t.nbr(x, y, k2));
        }
        assert forall|p: int, q: int| #[trigger] u.cell(p, q) == self.cell(p, q) by {
            assert(t.cell(p, q) == (self.cell(p, q) != ((p == x && q == y) || (p == x + dir_x((k + 2) % 4) + dir_x((k + 1) % 4) && q == y + dir_y(
                (k + 2) % 4,
            ) + dir_y((k + 1) % 4)) || (p == x + dir_x((k + 2) % 4) + dir_x((k + 3) % 4) && q == y + dir_y((k + 2) % 4) + dir_y((k + 3) % 4)))));
        }
    }

    /// Whether a zip is possible depends on the cells alone; it needs a cell next to the
    /// square.
    pub proof fn lemma_zip_same_cells(self, t: TreePoly, x: int, y: int)
        requires
            self.wf(),
            forall|p: int, q: int| #[trigger] t.cell(p, q) == self.cell(p, q),
        ensures
            t.can_zip_spec(x, y) == self.can_zip_spec(x, y),
            self.can_zip_spec(x, y) ==> -1 <= x <= self.h() && -1 <= y <= self.w(),
    {
        self.lemma_wf();
        if self.can_zip_spec(x, y) {
            let k = choose|k: int| #[trigger] self.lone_gap(x, y, k) && self.zip_side_ok(x, y, k, (k + 1) % 4) && self.zip_side_ok(x, y, k, (k + 3) % 4);
            assert(self.nbr(x, y, (k + 1) % 4));
            assert(self.nbr(x, y, (k + 2) % 4));
            assert forall|j: int| 0 <= j < 4 && j != k implies #[trigger] t.nbr(x, y, j) by {
                assert(self.nbr(x, y, j));
            }
            assert(t.lone_gap(x, y, k));
            assert(t.zip_side_ok(x, y, k, (k + 1) % 4));
            assert(t.zip_side_ok(x, y, k, (k + 3) % 4));
        }
        if t.can_zip_spec(x, y) {
            let k = choose|k: int| #[trigger] t.lone_gap(x, y, k) && t.zip_side_ok(x, y, k, (k + 1) % 4) && t.zip_side_ok(x, y, k, (k + 3) % 4);
            assert forall|j: int| 0 <= j < 4 && j != k implies #[trigger] self.nbr(x, y, j) by {
                assert(t.nbr(x, y, j));
            }
            assert(self.lone_gap(x, y, k));
            assert(self.zip_side_ok(x, y, k, (k + 1) % 4));
            assert(self.zip_side_ok(x, y, k, (k + 3) % 4));
        }
    }

    /// A zip keeps the cells free of full 2x2 squares and of cells that meet at a corner
    /// alone.
    pub proof fn lemma_zip_keeps_shape(self, t: TreePoly, x: int, y: int, k: int)
        requires
            self.tree_shape(),
            self.lone_gap(x, y, k),
            self.zip_side_ok(x, y, k, (k + 1) % 4),
            self.zip_side_ok(x, y, k, (k + 3) % 4),
            forall|p: int, q: int|
                #[trigger] t.cell(p, q) == (self.cell(p, q) != ((p == x && q == y) || (p == x + dir_x((k + 2) % 4) + dir_x((k + 1) % 4) && q
                    == y + dir_y((k + 2) % 4) + dir_y((k + 1) % 4)) || (p == x + dir_x((k + 2) % 4) + dir_x((k + 3) % 4) && q == y + dir_y(
                    (k + 2) % 4,
                ) + dir_y((k + 3) % 4)))),
        ensures
            t.tree_shape(),
    {
        assert(self.nbr(x, y, (k + 1) % 4));
        assert(self.nbr(x, y, (k + 2) % 4));
        assert(self.nbr(x, y, (k + 3) % 4));
        assert forall|a: int, b: int| !t.diagonal_only(a, b) && !t.full_block(a, b) by {
            assert(!self.diagonal_only(a, b) && !self.full_block(a, b));
            assert(!self.diagonal_only(a - 1, b) && !self.full_block(a - 1, b));
            assert(!self.diagonal_only(a + 1, b) && !self.full_block(a + 1, b));
            assert(!self.diagonal_only(a, b - 1) && !self.full_block(a, b - 1));
            assert(!self.diagonal_only(a, b + 1) && !self.full_block(a, b + 1));
        }
    }

    /// A zip undoes itself: after a zip at `(x, y)`, whose lone gap is in direction `k`, the
    /// same zip is possible again, and it toggles the same three squares back.
    pub proof fn lemma_zip_twice(self, t: TreePoly, x: int, y: int, k: int)
        requires
            self.lone_gap(x, y, k),
            self.zip_side_ok(x, y, k, (k + 1) % 4),
            self.zip_side_ok(x, y, k, (k + 3) % 4),
            forall|p: int, q: int|
                #[trigger] t.cell(p, q) == (self.cell(p, q) != ((p == x && q == y) || (p == x + dir_x((k + 2) % 4) + dir_x((k + 1) % 4) && q
                    == y + dir_y((k + 2) % 4) + dir_y((k + 1) % 4)) || (p == x + dir_x((k + 2) % 4) + dir_x((k + 3) % 4) && q == y + dir_y(
                    (k + 2) % 4,
                ) + dir_y((k + 3) % 4)))),
        ensures
            t.lone_gap(x, y, k),
            t.zip_side_ok(x, y, k, (k + 1) % 4),
            t.zip_side_ok(x, y, k, (k + 3) % 4),
            t.can_zip_spec(x, y),
    {
        assert(self.nbr(x, y, (k + 1) % 4));
        assert(self.nbr(x, y, (k + 2) % 4));
        assert(self.nbr(x, y, (k + 3) % 4));
        assert forall|j: int| 0 <= j < 4 && j != k implies #[trigger] t.nbr(x, y, j) by {
            assert(self.nbr(x, y, j));
        }
        assert(t.lone_gap(x, y, k));
        assert(t.zip_side_ok(x, y, k, (k + 1) % 4));
        assert(t.zip_side_ok(x, y, k, (k + 3) % 4));
    }

    /// An empty tree in a `height x width` box.
    pub fn new(height: usize, width: usize) -> (r: Self)
        requires
            width < 512,
            height <= 512,
        ensures
            r.wf(),
            r.h() == height,
            r.w() == width,
            forall|x: int, y: int| !#[trigger] r.cell(x, y),
    {
        let r = Self { width, poly: BitPoly::new(height, width) };
        proof {
            assert forall|s: Set<(int, int)>, p: (int, int)| #[trigger] r.is_closed(s) && #[trigger] s.contains(p) implies forall|q: (int, int)|
                #[trigger] r.cell(q.0, q.1) ==> s.contains(q) by {
                assert(r.cell(p.0, p.1));
            }
        }
        r
    }

    pub fn width(&self) -> (r: usize)
        requires
            self.wf(),
        ensures
            r == self.w(),
    {
        self.width
    }

    pub fn height(&self) -> (r: usize)
        ensures
            r == self.h(),
    {
        self.poly().height()
    }

    /// The cells, as a bit polyomino.
    pub fn poly(&self) -> (r: &BitPoly)
        ensures
            *r == self.poly_spec(),
    {
        &self.poly
    }

    /// Whether `(x, y)` is a cell.
    pub fn get(&self, x: usize, y: usize) -> (r: bool)
        requires
            self.wf(),
            x < self.h() ==> y < 512,
        ensures
            r == self.cell(x as int, y as int),
    {
        self.poly.get(x, y)
    }

    /// Whether `v` is a cell.
    pub(crate) fn get_v(&self, v: Vector<i32>) -> (r: bool)
        requires
            self.wf(),
            0 <= v.x < self.h() ==> v.y < 512,
        ensures
            r == self.cell(v.x as int, v.y as int),
    {
        self.poly.get_v(v)
    }

    /// Checks that `(x, y)` can become a leaf, and gives its neighbor.
    fn check_can_set(&self, x: usize, y: usize) -> (r: Result<Option<Vector<i32>>, TreeError>)
        requires
            self.wf(),
        ensures
            r is Ok <==> self.can_set_spec(x as int, y as int),
            r matches Ok(Some(v)) ==> exists|d: int| 0 <= d < 4 && #[trigger] self.nbr(x as int, y as int, d) && v.x == x + dir_x(d) && v.y
                == y + dir_y(d),
            r matches Ok(None) ==> self.nbr_count(x as int, y as int) == 0,
    {
        proof {
            self.lemma_wf();
        }
        if !(x < self.height() && y < self.width()) {
            return Err(TreeError::Refused);
        }
        if self.get(x, y) {
            return Err(TreeError::Refused);
        }
        let mut adjacent: Option<Vector<i32>> = None;
        let p = Vector::new(x as i32, y as i32);
        let ns = p.neighbors4();
        let mut d: usize = 0;
        while d < 4
            invariant
                self.wf(),
                x < self.h(),
                y < self.w(),
                self.w() < 512,
                self.h() <= 512,
                !self.cell(x as int, y as int),
                p.x == x,
                p.y == y,
                d <= 4,
                forall|k: int| 0 <= k < 4 ==> (#[trigger] ns@[k]).x == x + dir_x(k) && ns@[k].y == y + dir_y(k),
                adjacent is None <==> forall|k: int| 0 <= k < d ==> !#[trigger] self.nbr(x as int, y as int, k),
                adjacent matches Some(v) ==> exists|k: int| 0 <= k < d && #[trigger] self.nbr(x as int, y as int, k) && v.x == x + dir_x(k)
                    && v.y == y + dir_y(k) && forall|k2: int| 0 <= k2 < d && k2 != k ==> !#[trigger] self.nbr(x as int, y as int, k2),
                forall|k: int| 0 <= k < d && #[trigger] self.nbr(x as int, y as int, k) ==> self.far_side_free(x as int, y as int, k),
            decreases 4 - d,
        {
            let np = ns[d];
            if self.get_v(np) {
                if adjacent.is_some() {
                    proof {
                        let v = adjacent->0;
                        let k = choose|k: int| 0 <= k < d && #[trigger] self.nbr(x as int, y as int, k) && v.x == x + dir_x(k) && v.y == y
                            + dir_y(k) && forall|k2: int| 0 <= k2 < d && k2 != k ==> !#[trigger] self.nbr(x as int, y as int, k2);
                        assert(self.nbr(x as int, y as int, d as int));
                        assert(self.nbr_count(x as int, y as int) >= 2);
                    }
                    return Err(TreeError::Refused);
                }
                adjacent = Some(np);
                let mut e: usize = 0;
                while e < 2
                    invariant
                        self.wf(),
                        x < self.h(),
                        y < self.w(),
                        self.w() < 512,
                        self.h() <= 512,
                        d < 4,
                        e <= 2,
                        forall|k: int| 0 <= k < e ==> !#[trigger] self.cell(
                            x + dir_x((d + k + 1) % 4) + dir_x((d + k + 2) % 4),
                            y + dir_y((d + k + 1) % 4) + dir_y((d + k + 2) % 4),
                        ),
                        self.nbr(x as int, y as int, d as int),
                    decreases 2 - e,
                {
                    let d1: usize = (d + e + 1) & 3;
                    let d2: usize = (d + e + 2) & 3;
                    proof {
                        let s1: usize = (d + e + 1) as usize;
                        let s2: usize = (d + e + 2) as usize;
                        assert(s1 & 3 == s1 % 4 && s2 & 3 == s2 % 4) by (bit_vector);
                    }
                    let (ax, ay) = dir(d1);
                    let (bx, by) = dir(d2);
                    let nnx = x as i32 + ax + bx;
                    let nny = y as i32 + ay + by;
                    proof {
                        let (k1, k2) = (((d + e + 1) % 4) as int, ((d + e + 2) % 4) as int);
                        assert(k2 == (k1 + 1) % 4);
                        assert(-1 <= ay + by <= 1);
                    }
                    if self.get_v(Vector::new(nnx, nny)) {
                        proof {
                            let k1 = ((d + e + 1) % 4) as int;
                            let k2 = ((d + e + 2) % 4) as int;
                            assert(self.cell(x + dir_x(k1) + dir_x(k2), y + dir_y(k1) + dir_y(k2)));
                            assert(!self.far_side_free(x as int, y as int, d as int));
                            assert(self.nbr(x as int, y as int, d as int));
                        }
                        return Err(TreeError::Refused);
                    }
                    e += 1;
                }
            }
            d += 1;
        }
        if adjacent.is_none() && !self.poly.is_empty() {
            proof {
                assert(self.nbr_count(x as int, y as int) == 0);
            }
            return Err(TreeError::Refused);
        }
        proof {
            if adjacent is Some {
                let v = adjacent->0;
                let k = choose|k: int| 0 <= k < 4 && #[trigger] self.nbr(x as int, y as int, k) && v.x == x + dir_x(k) && v.y == y + dir_y(k)
                    && forall|k2: int| 0 <= k2 < 4 && k2 != k ==> !#[trigger] self.nbr(x as int, y as int, k2);
                assert(self.nbr_count(x as int, y as int) == 1) by {
                    assert(self.nbr(x as int, y as int, k));
                    assert(forall|k2: int| 0 <= k2 < 4 && k2 != k ==> !#[trigger] self.nbr(x as int, y as int, k2));
                }
            } else {
                assert(self.nbr_count(x as int, y as int) == 0);
            }
        }
        Ok(adjacent)
    }

    /// Adds the leaf `(x, y)` if the tree allows it.
    pub fn set_leaf(&mut self, x: usize, y: usize) -> (r: Result<(), TreeError>)
        requires
            old(self).wf(),
        ensures
            final(self).wf(),
            r is Ok <==> old(self).can_set_spec(x as int, y as int),
            r is Ok ==> old(self).flipped_at(*final(self), x as int, y as int),
            r is Err ==> *final(self) == *old(self),
    {
        match self.check_can_set(x, y) {
            Err(e) => Err(e),
            Ok(_) => {
                proof {
                    self.lemma_wf();
                }
                let ghost before = *self;
                self.poly.flip(&Vector::new(x as i32, y as i32));
                proof {
                    before.lemma_set_connected(*self, x as int, y as int);
                }
                Ok(())
            },
        }
    }

    /// Adds the leaf `v` if the tree allows it.
    pub fn set_leaf_v(&mut self, v: Vector<i32>) -> (r: Result<(), TreeError>)
        requires
            old(self).wf(),
        ensures
            final(self).wf(),
            r is Ok <==> old(self).can_set_spec(v.x as int, v.y as int),
            r is Ok ==> old(self).flipped_at(*final(self), v.x as int, v.y as int),
            r is Err ==> *final(self) == *old(self),
    {
        if !(v.x >= 0 && v.y >= 0) {
            return Err(TreeError::Refused);
        }
        self.set_leaf(v.x as usize, v.y as usize)
    }

    /// Whether `(x, y)` can become a leaf.
    pub fn can_set(&self, x: usize, y: usize) -> (r: bool)
        requires
            self.wf(),
        ensures
            r == self.can_set_spec(x as int, y as int),
    {
        self.check_can_set(x, y).is_ok()
    }

    /// The number of cells next to `v`.
    fn neighbors_count(&self, v: Vector<i32>) -> (r: usize)
        requires
            self.wf(),
            -1 <= v.x <= 512,
            -1 <= v.y <= 510,
        ensures
            r == self.nbr_count(v.x as int, v.y as int),
    {
        proof {
            self.lemma_wf();
        }
        let ns = v.neighbors4();
        let mut c: usize = 0;
        let mut d: usize = 0;
        while d < 4
            invariant
                self.wf(),
                self.w() < 512,
                d <= 4,
                -1 <= v.x <= 512,
                -1 <= v.y <= 510,
                forall|k: int| 0 <= k < 4 ==> (#[trigger] ns@[k]).x == v.x + dir_x(k) && ns@[k].y == v.y + dir_y(k),
                c == (if d > 0 && self.nbr(v.x as int, v.y as int, 0) { 1nat } else { 0nat }) + (if d > 1 && self.nbr(
                    v.x as int,
                    v.y as int,
                    1,
                ) { 1nat } else { 0nat }) + (if d > 2 && self.nbr(v.x as int, v.y as int, 2) { 1nat } else { 0nat }) + (if d > 3
                    && self.nbr(v.x as int, v.y as int, 3) { 1nat } else { 0nat }),
            decreases 4 - d,
        {
            if self.get_v(ns[d]) {
                c += 1;
            }
            d += 1;
        }
        c
    }

    /// Checks that `(x, y)` is a leaf that can go, and gives its neighbor.
    fn check_can_clear(&self, x: usize, y: usize) -> (r: Result<Option<Vector<i32>>, TreeError>)
        requires
            self.wf(),
            x < self.h() ==> y < 512,
        ensures
            r is Ok <==> self.can_clear_spec(x as int, y as int),
    {
        proof {
            self.lemma_wf();
        }
        if !self.get(x, y) {
            return Err(TreeError::Refused);
        }
        let p = Vector::new(x as i32, y as i32);
        let ns = p.neighbors4();
        let mut count: usize = 0;
        let mut adjacent: Option<Vector<i32>> = None;
        let mut d: usize = 0;
        while d < 4
            invariant
                self.wf(),
                self.w() < 512,
                x < self.h(),
                y < self.w(),
                p.x == x,
                p.y == y,
                d <= 4,
                forall|k: int| 0 <= k < 4 ==> (#[trigger] ns@[k]).x == x + dir_x(k) && ns@[k].y == y + dir_y(k),
                count == (if d > 0 && self.nbr(x as int, y as int, 0) { 1nat } else { 0nat }) + (if d > 1 && self.nbr(x as int, y as int, 1) {
                    1nat
                } else {
                    0nat
                }) + (if d > 2 && self.nbr(x as int, y as int, 2) { 1nat } else { 0nat }) + (if d > 3 && self.nbr(x as int, y as int, 3) {
                    1nat
                } else {
                    0nat
                }),
            decreases 4 - d,
        {
            if self.get_v(ns[d]) {
                count += 1;
                adjacent = Some(ns[d]);
            }
            d += 1;
        }
        if !(count == 1 || self.poly.cell_count() == 1 && count == 0) {
            return Err(TreeError::Refused);
        }
        Ok(adjacent)
    }

    /// Removes the leaf `(x, y)` if the tree allows it.
    pub fn clear_leaf(&mut self, x: usize, y: usize) -> (r: Result<(), TreeError>)
        requires
            old(self).wf(),
            x < old(self).h() ==> y < 512,
        ensures
            final(self).wf(),
            r is Ok <==> old(self).can_clear_spec(x as int, y as int),
            r is Ok ==> old(self).flipped_at(*final(self), x as int, y as int),
            r is Err ==> *final(self) == *old(self),
    {
        match self.check_can_clear(x, y) {
            Err(e) => Err(e),
            Ok(_) => {
                proof {
                    self.lemma_wf();
                }
                let ghost before = *self;
                self.poly.flip(&Vector::new(x as i32, y as i32));
                proof {
                    before.lemma_clear_connected(*self, x as int, y as int);
                }
                Ok(())
            },
        }
    }

    /// Whether `(x, y)` is a leaf that can go.
    pub fn can_clear(&self, x: usize, y: usize) -> (r: bool)
        requires
            self.wf(),
            x < self.h() ==> y < 512,
        ensures
            r == self.can_clear_spec(x as int, y as int),
    {
        self.check_can_clear(x, y).is_ok()
    }

    /// Removes the leaf `(x, y)` if it is a cell, adds it otherwise, if the tree allows it.
    pub fn flip(&mut self, x: usize, y: usize) -> (r: Result<(), TreeError>)
        requires
            old(self).wf(),
            x < old(self).h() ==> y < 512,
        ensures
            final(self).wf(),
            r is Ok <==> if old(self).cell(x as int, y as int) {
                old(self).can_clear_spec(x as int, y as int)
            } else {
                old(self).can_set_spec(x as int, y as int)
            },
            r is Ok ==> old(self).flipped_at(*final(self), x as int, y as int),
            r is Err ==> *final(self) == *old(self),
    {
        if self.get(x, y) {
            self.clear_leaf(x, y)
        } else {
            self.set_leaf(x, y)
        }
    }

    /// Whether `(x, y)` is a cell; any coordinates may be asked.
    fn at(&self, x: i32, y: i32) -> (r: bool)
        requires
            self.wf(),
        ensures
            r == self.cell(x as int, y as int),
    {
        proof {
            self.lemma_wf();
        }
        if x < 0 || y < 0 || y as usize >= self.width {
            return false;
        }
        self.get(x as usize, y as usize)
    }

    /// Whether the corner `(cx, cy)` is a cell exactly when `want` and the squares one step
    /// `d`, one step `e` and one step of each beyond it are free.
    fn corner_free(&self, cx: i32, cy: i32, d: (i32, i32), e: (i32, i32), want: bool) -> (r: bool)
        requires
            self.wf(),
            -0x4000_0010 < cx < 0x4000_0010,
            -0x4000_0010 < cy < 0x4000_0010,
            -1 <= d.0 <= 1,
            -1 <= d.1 <= 1,
            -1 <= e.0 <= 1,
            -1 <= e.1 <= 1,
        ensures
            r == self.corner_ok(cx as int, cy as int, d.0 as int, d.1 as int, e.0 as int, e.1 as int, want),
    {
        self.at(cx, cy) == want && !self.at(cx + d.0, cy + d.1) && !self.at(cx + e.0, cy + e.1) && !self.at(
            cx + d.0 + e.0,
            cy + d.1 + e.1,
        )
    }

    /// Zips at `v`. Where `v` has exactly one free side and both corners away from that side
    /// are cells exactly when `v` is not, with the squares beyond them free, toggles `v` and
    /// the two corners, and gives the corners: the one turned a quarter counter-clockwise from
    /// the free side first.
    pub fn try_zip(&mut self, v: Vector<i32>) -> (r: Result<(Vector<i32>, Vector<i32>), TreeError>)
        requires
            old(self).wf(),
            -0x4000_0000 < v.x < 0x4000_0000,
            -0x4000_0000 < v.y < 0x4000_0000,
        ensures
            final(self).wf(),
            r is Ok <==> old(self).can_zip_spec(v.x as int, v.y as int),
            r matches Ok(ab) ==> exists|k: int|
                #[trigger] old(self).lone_gap(v.x as int, v.y as int, k) && ab.0.x == v.x + dir_x((k + 2) % 4) + dir_x((k + 1) % 4) && ab.0.y
                    == v.y + dir_y((k + 2) % 4) + dir_y((k + 1) % 4) && ab.1.x == v.x + dir_x((k + 2) % 4) + dir_x((k + 3) % 4) && ab.1.y
                    == v.y + dir_y((k + 2) % 4) + dir_y((k + 3) % 4),
            r is Ok ==> final(self).h() == old(self).h() && final(self).w() == old(self).w(),
            r matches Ok(ab) ==> forall|p: int, q: int|
                #[trigger] final(self).cell(p, q) == (old(self).cell(p, q) != ((p == v.x && q == v.y) || (p == ab.0.x && q == ab.0.y) || (p
                    == ab.1.x && q == ab.1.y))),
            r is Err ==> *final(self) == *old(self),
    {
        proof {
            self.lemma_wf();
        }
        let filled = self.at(v.x, v.y);
        let mut gap: Option<usize> = None;
        let mut k: usize = 0;
        while k < 4
            invariant
                self.wf(),
                k <= 4,
                -0x4000_0000 < v.x < 0x4000_0000,
                -0x4000_0000 < v.y < 0x4000_0000,
                gap matches Some(g) ==> g < k && !self.nbr(v.x as int, v.y as int, g as int) && forall|j: int|
                    0 <= j < k && j != g ==> #[trigger] self.nbr(v.x as int, v.y as int, j),
                gap is None ==> forall|j: int| 0 <= j < k ==> #[trigger] self.nbr(v.x as int, v.y as int, j),
            decreases 4 - k,
        {
            let (dx, dy) = dir(k);
            if !self.at(v.x + dx, v.y + dy) {
                if let Some(g) = gap {
                    proof {
                        if self.can_zip_spec(v.x as int, v.y as int) {
                            let kk = choose|kk: int|
                                #[trigger] self.lone_gap(v.x as int, v.y as int, kk) && self.zip_side_ok(v.x as int, v.y as int, kk, (kk + 1) % 4)
                                    && self.zip_side_ok(v.x as int, v.y as int, kk, (kk + 3) % 4);
                            if kk == g as int {
                                assert(self.nbr(v.x as int, v.y as int, k as int));
                            } else {
                                assert(self.nbr(v.x as int, v.y as int, g as int));
                            }
                        }
                    }
                    return Err(TreeError::Refused);
                }
                gap = Some(k);
            }
            k += 1;
        }
        let g = match gap {
            Some(g) => g,
            None => {
                proof {
                    if self.can_zip_spec(v.x as int, v.y as int) {
                        let kk = choose|kk: int|
                            #[trigger] self.lone_gap(v.x as int, v.y as int, kk) && self.zip_side_ok(v.x as int, v.y as int, kk, (kk + 1) % 4)
                                && self.zip_side_ok(v.x as int, v.y as int, kk, (kk + 3) % 4);
                        assert(self.nbr(v.x as int, v.y as int, kk));
                    }
                }
                return Err(TreeError::Refused);
            },
        };
        let ghost gi = g as int;
        proof {
            assert(self.lone_gap(v.x as int, v.y as int, gi));
        }
        let d = dir((g + 2) % 4);
        let e1 = dir((g + 1) % 4);
        let e2 = dir((g + 3) % 4);
        let a = Vector::new(v.x + d.0 + e1.0, v.y + d.1 + e1.1);
        let b = Vector::new(v.x + d.0 + e2.0, v.y + d.1 + e2.1);
        let ok1 = self.corner_free(a.x, a.y, d, e1, !filled);
        let ok2 = self.corner_free(b.x, b.y, d, e2, !filled);
        if !(ok1 && ok2) {
            proof {
                if self.can_zip_spec(v.x as int, v.y as int) {
                    let kk = choose|kk: int|
                        #[trigger] self.lone_gap(v.x as int, v.y as int, kk) && self.zip_side_ok(v.x as int, v.y as int, kk, (kk + 1) % 4)
                            && self.zip_side_ok(v.x as int, v.y as int, kk, (kk + 3) % 4);
                    if kk != gi {
                        assert(self.nbr(v.x as int, v.y as int, gi));
                    }
                }
            }
            return Err(TreeError::Refused);
        }
        proof {
            assert(self.zip_side_ok(v.x as int, v.y as int, gi, (gi + 1) % 4));
            assert(self.zip_side_ok(v.x as int, v.y as int, gi, (gi + 3) % 4));
            assert(self.can_zip_spec(v.x as int, v.y as int));
        }
        let ghost t0 = *self;
        let ghost nd = (v.x + d.0, v.y + d.1);
        let ghost ne1 = (v.x + e1.0, v.y + e1.1);
        let ghost ne2 = (v.x + e2.0, v.y + e2.1);
        let ghost vv = (v.x as int, v.y as int);
        let ghost ca = (a.x as int, a.y as int);
        let ghost cb = (b.x as int, b.y as int);
        proof {
            assert(self.nbr(v.x as int, v.y as int, (gi + 2) % 4));
            assert(self.nbr(v.x as int, v.y as int, (gi + 1) % 4));
            assert(self.nbr(v.x as int, v.y as int, (gi + 3) % 4));
            assert(t0.cell(nd.0, nd.1));
            assert(t0.cell(ne1.0, ne1.1));
            assert(t0.cell(ne2.0, ne2.1));
            assert(!t0.nbr(v.x as int, v.y as int, gi));
        }
        if filled {
            self.poly.flip(&a);
            let ghost t1 = *self;
            proof {
                t0.lemma_add_connected(t1, ca.0, ca.1, nd);
            }
            self.poly.flip(&b);
            let ghost t2 = *self;
            proof {
                t1.lemma_add_connected(t2, cb.0, cb.1, nd);
            }
            self.poly.flip(&v);
            proof {
                let t3 = *self;
                assert forall|s: Set<(int, int)>, p: (int, int), q: (int, int)|
                    #[trigger] t3.is_closed(s) && #[trigger] s.contains(p) && t2.cell(p.0, p.1) && next_to(p, vv) && #[trigger] t2.cell(
                        q.0,
                        q.1,
                    ) && next_to(q, vv) implies s.contains(q) by {
                    lemma_next_to_dir(vv.0, vv.1, p);
                    lemma_next_to_dir(vv.0, vv.1, q);
                    assert(t3.cell(ca.0, ca.1));
                    assert(t3.cell(cb.0, cb.1));
                    assert(t3.cell(nd.0, nd.1));
                    assert(t3.cell(ne1.0, ne1.1));
                    assert(t3.cell(ne2.0, ne2.1));
                    if s.contains(ne1) {
                        assert(next_to(ne1, ca));
                        assert(s.contains(ca));
                    }
                    if s.contains(ne2) {
                        assert(next_to(ne2, cb));
                        assert(s.contains(cb));
                    }
                    if s.contains(ca) {
                        assert(next_to(ca, nd));
                    }
                    if s.contains(cb) {
                        assert(next_to(cb, nd));
                    }
                    assert(s.contains(nd));
                    assert(next_to(nd, ca));
                    assert(next_to(nd, cb));
                    assert(next_to(ca, ne1));
                    assert(next_to(cb, ne2));
                    assert(s.contains(ne1));
                    assert(s.contains(ne2));
                }
                t2.lemma_remove_connected(t3, vv.0, vv.1);
            }
        } else {
            self.poly.flip(&v);
            let ghost t1 = *self;
            proof {
                t0.lemma_add_connected(t1, vv.0, vv.1, nd);
            }
            self.poly.flip(&a);
            let ghost t2 = *self;
            proof {
                assert forall|q: (int, int)| #[trigger] t1.cell(q.0, q.1) && next_to(q, ca) implies q == nd || q == ne1 by {
                    lemma_next_to_dir(ca.0, ca.1, q);
                }
                t1.lemma_remove_via(t2, ca, nd, ne1, vv);
            }
            self.poly.flip(&b);
            proof {
                let t3 = *self;
                assert forall|q: (int, int)| #[trigger] t2.cell(q.0, q.1) && next_to(q, cb) implies q == nd || q == ne2 by {
                    lemma_next_to_dir(cb.0, cb.1, q);
                }
                t2.lemma_remove_via(t3, cb, nd, ne2, vv);
            }
        }
        Ok((a, b))
    }

    /// Whether `p` is a cell next to at most one cell.
    pub(crate) fn is_leaf(&self, p: Vector<i32>) -> (r: bool)
        requires
            self.wf(),
            -1 <= p.x <= 512,
            -1 <= p.y <= 510,
        ensures
            r == self.leaf_at(p.x as int, p.y as int),
    {
        proof {
            self.lemma_wf();
        }
        if !self.get_v(p) {
            return false;
        }
        self.neighbors_count(p) <= 1
    }

    /// The cells next to at most one cell, row by row.
    pub fn leaves_slow(&self) -> (r: Vec<Vector<i32>>)
        requires
            self.wf(),
        ensures
            forall|k: int| 0 <= k < r.len() ==> self.leaf_at(#[trigger] r@[k].x as int, r@[k].y as int),
            forall|a: int, b: int| #[trigger] self.leaf_at(a, b) ==> r@.contains(Vector { x: a as i32, y: b as i32 }),
            forall|k: int, l: int| 0 <= k < l < r.len() ==> r@[k].x < r@[l].x || (r@[k].x == r@[l].x && r@[k].y < r@[l].y),
    {
        proof {
            self.lemma_wf();
        }
        let mut res: Vec<Vector<i32>> = Vec::new();
        let h = self.height();
        let w = self.width();
        let mut x: usize = 0;
        while x < h
            invariant
                self.wf(),
                h == self.h(),
                w == self.w(),
                h <= 512,
                w < 512,
                x <= h,
                forall|k: int| 0 <= k < res.len() ==> self.leaf_at(#[trigger] res@[k].x as int, res@[k].y as int) && res@[k].x < x,
                forall|a: int, b: int| #[trigger] self.leaf_at(a, b) && a < x ==> res@.contains(Vector { x: a as i32, y: b as i32 }),
                forall|k: int, l: int| 0 <= k < l < res.len() ==> res@[k].x < res@[l].x || (res@[k].x == res@[l].x && res@[k].y < res@[l].y),
            decreases h - x,
        {
            proof {
                self.lemma_wf();
            }
            let mut y: usize = 0;
            while y < w
                invariant
                    self.wf(),
                    h == self.h(),
                    w == self.w(),
                    h <= 512,
                    w < 512,
                    x < h,
                    y <= w,
                    forall|a: int, b: int| #[trigger] self.cell(a, b) ==> 0 <= a < h && 0 <= b < w,
                    forall|k: int| 0 <= k < res.len() ==> self.leaf_at(#[trigger] res@[k].x as int, res@[k].y as int) && (res@[k].x < x
                        || (res@[k].x == x && res@[k].y < y)),
                    forall|a: int, b: int| #[trigger] self.leaf_at(a, b) && (a < x || (a == x && b < y)) ==> res@.contains(
                        Vector { x: a as i32, y: b as i32 },
                    ),
                    forall|k: int, l: int| 0 <= k < l < res.len() ==> res@[k].x < res@[l].x || (res@[k].x == res@[l].x && res@[k].y
                        < res@[l].y),
                decreases w - y,
            {
                let v = Vector::new(x as i32, y as i32);
                let ghost before = res@;
                let leaf = self.is_leaf(v);
                if leaf {
                    res.push(v);
                }
                proof {
                    assert forall|a: int, b: int| #[trigger] self.leaf_at(a, b) && (a < x || (a == x && b < y + 1)) implies res@.contains(
                        Vector { x: a as i32, y: b as i32 },
                    ) by {
                        if a == x && b == y {
                            assert(res@[res.len() - 1] == v);
                        } else {
                            assert(before.contains(Vector { x: a as i32, y: b as i32 }));
                            let i = choose|i: int| 0 <= i < before.len() && before[i] == Vector { x: a as i32, y: b as i32 };
                            assert(res@[i] == before[i]);
                        }
                    }
                }
                y += 1;
            }
            x += 1;
        }
        res
    }

    /// The bits `x * side + y` of the cells `origin + (x, y)` of the `side x side` square.
    pub fn mask_2d(&self, origin: Vector<i32>, side: usize) -> (r: usize)
        requires
            self.wf(),
            side * side <= 32,
            origin.x + side <= 0x8000_0000,
            origin.y + side <= 0x8000_0000,
            origin.x + side <= 0 || origin.x >= self.h() || origin.y + side <= 512,
        ensures
            forall|x: int, y: int| 0 <= x < side && 0 <= y < side ==> #[trigger] ubit(r, x * side + y) == self.cell(origin.x + x, origin.y + y),
            forall|k: int| side * side <= k < 32 ==> !#[trigger] ubit(r, k),
    {
        proof {
            self.lemma_wf();
            assert(side <= 5) by (nonlinear_arith)
                requires
                    side * side <= 32,
            ;
            assert forall|k: int| 0 <= k < 32 implies !#[trigger] ubit(0usize, k) by {
                let ku = k as usize;
                assert((0usize >> ku) & 1usize == 0usize) by (bit_vector);
            }
        }
        let mut mask: usize = 0;
        let mut x: usize = 0;
        while x < side
            invariant
                self.wf(),
                self.w() < 512,
                side <= 5,
                side * side <= 32,
                origin.x + side <= 0x8000_0000,
                origin.y + side <= 0x8000_0000,
                origin.x + side <= 0 || origin.x >= self.h() || origin.y + side <= 512,
                x <= side,
                forall|a: int, b: int| 0 <= a < x && 0 <= b < side ==> #[trigger] ubit(mask, a * side + b) == self.cell(origin.x + a, origin.y + b),
                forall|k: int| x * side <= k < 32 ==> !#[trigger] ubit(mask, k),
            decreases side - x,
        {
            let mut y: usize = 0;
            while y < side
                invariant
                    self.wf(),
                    self.w() < 512,
                    side <= 5,
                    side * side <= 32,
                    origin.x + side <= 0x8000_0000,
                    origin.y + side <= 0x8000_0000,
                    origin.x + side <= 0 || origin.x >= self.h() || origin.y + side <= 512,
                    x < side,
                    y <= side,
                    forall|a: int, b: int| 0 <= a < x && 0 <= b < side ==> #[trigger] ubit(mask, a * side + b) == self.cell(origin.x + a, origin.y + b),
                    forall|b: int| 0 <= b < y ==> #[trigger] ubit(mask, x * side + b) == self.cell(origin.x + x, origin.y + b),
                    forall|k: int| x * side + y <= k < 32 ==> !#[trigger] ubit(mask, k),
                decreases side - y,
            {
                proof {
                    assert(x * side + y < side * side) by (nonlinear_arith)
                        requires
                            x < side,
                            y < side,
                    ;
                    assert(0 <= x * side) by (nonlinear_arith);
                }
                let v = Vector::new(origin.x + x as i32, origin.y + y as i32);
                let k: usize = x * side + y;
                let ghost old_mask = mask;
                if self.get_v(v) {
                    mask = mask | (1usize << k);
                    proof {
                        assert forall|j: int| 0 <= j < 32 implies #[trigger] ubit(mask, j) == (ubit(old_mask, j) || j == k) by {
                            let ju = j as usize;
                            let om: usize = old_mask;
                            assert((((om | (1usize << k)) >> ju) & 1usize == 1usize) == (((om >> ju) & 1usize == 1usize) || ju == k))
                                by (bit_vector)
                                requires
                                    k < 32,
                                    ju < 32,
                            ;
                        }
                    }
                }
                proof {
                    assert forall|a: int, b: int| 0 <= a < x && 0 <= b < side implies #[trigger] ubit(mask, a * side + b) == self.cell(
                        origin.x + a,
                        origin.y + b,
                    ) by {
                        assert(0 <= a * side + b < x * side) by (nonlinear_arith)
                            requires
                                0 <= a < x,
                                0 <= b < side,
                        ;
                        assert(ubit(old_mask, a * side + b) == self.cell(origin.x + a, origin.y + b));
                    }
                    assert forall|b: int| 0 <= b < y + 1 implies #[trigger] ubit(mask, x * side + b) == self.cell(origin.x + x, origin.y + b) by {
                        if b < y {
                            assert(ubit(old_mask, x * side + b) == self.cell(origin.x + x, origin.y + b));
                        } else {
                            assert(!ubit(old_mask, x * side + y));
                        }
                    }
                }
                y += 1;
            }
            proof {
                assert((x + 1) * side == x * side + side) by (nonlinear_arith);
                assert forall|a: int, b: int| 0 <= a < x + 1 && 0 <= b < side implies #[trigger] ubit(mask, a * side + b) == self.cell(
                    origin.x + a,
                    origin.y + b,
                ) by {
                    if a == x {
                        assert(ubit(mask, x * side + b) == self.cell(origin.x + x, origin.y + b));
                    }
                }
            }
            x += 1;
        }
        mask
    }
}

impl TightPoly {
    /// The cells of a tree, moved so that the first row and the first column holding
    /// cells become row 0 and column 0.
    pub fn from_tree(value: &TreePoly) -> (r: TightPoly)
        requires
            value.wf(),
        ensures
            r.wf(),
            (forall|x: int, y: int| !#[trigger] value.cell(x, y)) ==> r.h() == 0,
            (exists|x: int, y: int| #[trigger] value.cell(x, y)) ==> exists|s: int, c: int|
                #[trigger] value.is_corner(s, c) && forall|a: int, b: int| #[trigger] r.cell(a, b) == value.cell(a + s, b + c),
    {
        proof {
            value.lemma_wf();
            value.lemma_tree_connected();
            value.poly_spec().lemma_row_masks();
        }
        let all = value.poly().rows();
        let n = all.len();
        let mut i: usize = 0;
        while i < n && all[i].is_zero()
            invariant
                n == all@.len(),
                i <= n,
                forall|x: int| 0 <= x < i ==> (#[trigger] all@[x]).is_zero_spec(),
            decreases n - i,
        {
            i += 1;
        }
        let mut rows: Vec<U512> = Vec::new();
        let mut j: usize = i;
        while j < n && !all[j].is_zero()
            invariant
                n == all@.len(),
                i <= j <= n,
                rows@.len() == j - i,
                forall|a: int| 0 <= a < j - i ==> #[trigger] rows@[a] == all@[a + i],
                forall|x: int| i <= x < j ==> !(#[trigger] all@[x]).is_zero_spec(),
            decreases n - j,
        {
            rows.push(all[j]);
            j += 1;
        }
        let ghost t = value.poly_spec();
        proof {
            assert forall|x: int, y: int| 0 <= x < i implies !#[trigger] value.cell(x, y) by {
                if value.cell(x, y) {
                    assert(all@[x]@[y]);
                }
            }
        }
        if rows.len() == 0 {
            proof {
                assert forall|x: int, y: int| !#[trigger] value.cell(x, y) by {
                    if value.cell(x, y) {
                        assert(x >= i);
                        assert(all@[x]@[y]);
                    }
                }
            }
            let r = TightPoly::new(rows);
            return r.unwrap();
        }
        // Row `i` holds a cell; the rows from `j` on hold none.
        proof {
            assert(!all@[i as int].is_zero_spec());
            let y0 = choose|y: int| 0 <= y < 512 && !!(#[trigger] all@[i as int]@[y]);
            assert(value.cell(i as int, y0));
            assert(value.row_used(i as int));
            assert forall|x: int, y: int| x >= j implies !#[trigger] value.cell(x, y) by {
                if value.cell(x, y) {
                    assert(value.row_used(x));
                    if x > j {
                        assert(value.row_used(j as int));
                    }
                    let yj = choose|yy: int| #[trigger] value.cell(j as int, yy);
                    assert(all@[j as int]@[yj]);
                }
            }
        }
        let mut shift: u32 = 512;
        let mut k: usize = 0;
        while k < n
            invariant
                n == all@.len(),
                n <= 512,
                k <= n,
                shift <= 512,
                forall|x: int, y: int| 0 <= x < k && 0 <= y < shift ==> !(#[trigger] all@[x]@[y]),
                shift < 512 ==> exists|x: int| 0 <= x < k && (#[trigger] all@[x])@[shift as int],
            decreases n - k,
        {
            let tz = all[k].trailing_zeros();
            if tz < shift {
                shift = tz;
            }
            k += 1;
        }
        proof {
            let y0 = choose|y: int| 0 <= y < 512 && !!(#[trigger] all@[i as int]@[y]);
            assert(shift <= y0);
        }
        let ghost before = rows@;
        let mut m: usize = 0;
        while m < rows.len()
            invariant
                rows@.len() == before.len(),
                m <= rows@.len(),
                shift < 512,
                forall|a: int, b: int| 0 <= a < m && 0 <= b < 512 ==> #[trigger] rows@[a]@[b] == before[a].shr_bit(shift as int, b),
                forall|a: int| m <= a < rows@.len() ==> #[trigger] rows@[a] == before[a],
            decreases rows@.len() - m,
        {
            let shifted = rows[m].shr(shift as usize);
            rows.set(m, shifted);
            m += 1;
        }
        let h = rows.len();
        proof {
            assert forall|a: int| 0 <= a < h implies !(#[trigger] rows@[a]).is_zero_spec() by {
                assert(!all@[a + i].is_zero_spec());
                let y = choose|y: int| 0 <= y < 512 && !!(#[trigger] all@[a + i]@[y]);
                assert(y >= shift);
                assert(rows@[a]@[y - shift]);
            }
            let x = choose|x: int| 0 <= x < n && (#[trigger] all@[x])@[shift as int];
            assert(value.cell(x, shift as int));
            assert(i <= x < j);
            assert(rows@[x - i]@[0]);
            assert(column_used(rows@, 0));
        }
        let r = TightPoly::new(rows);
        let r = r.unwrap();
        proof {
            let c = shift as int;
            let s = i as int;
            assert(value.col_used(c)) by {
                let x = choose|x: int| 0 <= x < n && (#[trigger] all@[x])@[shift as int];
                assert(value.cell(x, c));
            }
            assert forall|y: int| y < c implies !#[trigger] value.col_used(y) by {
                if value.col_used(y) {
                    let x = choose|x: int| #[trigger] value.cell(x, y);
                    assert(all@[x]@[y]);
                }
            }
            assert forall|x: int| x < s implies !#[trigger] value.row_used(x) by {
                if value.row_used(x) {
                    let y = choose|y: int| #[trigger] value.cell(x, y);
                }
            }
            assert(value.is_corner(s, c));
            assert forall|a: int, b: int| #[trigger] r.cell(a, b) == value.cell(a + s, b + c) by {
                if 0 <= a < h && 0 <= b < 512 {
                    assert(r.row_masks()[a]@[b] == before[a].shr_bit(c, b));
                    if b >= r.w() {
                        assert(!r.row_masks()[a]@[b]);
                    }
                } else if 0 <= a < h && b < 0 {
                    if value.cell(a + s, b + c) {
                        assert(value.col_used(b + c));
                    }
                } else if a < 0 {
                    if value.cell(a + s, b + c) {
                        assert(value.row_used(a + s));
                    }
                }
            }
        }
        r
    }
}

/// No cell of the first `n` rows when their total is zero.
proof fn lemma_total_zero_empty(f: spec_fn(int, int) -> bool, n: int, w: int)
    requires
        total_cells(f, n, w) == 0,
    ensures
        forall|x: int, y: int| 0 <= x < n && 0 <= y < w ==> !#[trigger] f(x, y),
    decreases n,
{
    if n > 0 {
        crate::data::u256::lemma_count_zero_iff(Seq::new(w as nat, |y: int| f(n - 1, y)), 0, w);
        lemma_total_zero_empty(f, n - 1, w);
        assert forall|x: int, y: int| 0 <= x < n && 0 <= y < w implies !#[trigger] f(x, y) by {
            if x == n - 1 {
                assert(Seq::new(w as nat, |y2: int| f(n - 1, y2))[y] == f(x, y));
            }
        }
    }
}

impl TreePoly {
    /// The 2x2 window with `(x, y)` as its first square holds exactly the two cells of one
    /// diagonal.
    pub open spec fn diagonal_only(self, x: int, y: int) -> bool {
        let a = self.cell(x, y);
        let b = self.cell(x, y + 1);
        let c = self.cell(x + 1, y);
        let d = self.cell(x + 1, y + 1);
        (a && d && !b && !c) || (b && c && !a && !d)
    }

    /// The 2x2 window with `(x, y)` as its first square is full.
    pub open spec fn full_block(self, x: int, y: int) -> bool {
        self.cell(x, y) && self.cell(x, y + 1) && self.cell(x + 1, y) && self.cell(x + 1, y + 1)
    }

    /// No 2x2 window is full or holds the cells of one diagonal only: no cell touches
    /// another by a corner alone, and no four cells close a square.
    pub open spec fn tree_shape(self) -> bool {
        forall|x: int, y: int|
            #![trigger self.diagonal_only(x, y)]
            #![trigger self.full_block(x, y)]
            !self.diagonal_only(x, y) && !self.full_block(x, y)
    }

    proof fn lemma_far(self, x: int, y: int, d: int, e: int)
        requires
            self.far_side_free(x, y, d),
            0 <= e < 2,
        ensures
            !self.cell(x + dir_x((d + e + 1) % 4) + dir_x((d + e + 2) % 4), y + dir_y((d + e + 1) % 4) + dir_y((d + e + 2) % 4)),
    {
    }

    /// A flip keeps the shape of a tree: a leaf is added only away from the cells beyond
    /// it, and only a leaf is removed.
    pub proof fn lemma_flip_keeps_shape(self, other: TreePoly, x: int, y: int)
        requires
            self.wf(),
            self.tree_shape(),
            if self.cell(x, y) { self.can_clear_spec(x, y) } else { self.can_set_spec(x, y) },
            self.flipped_at(other, x, y),
        ensures
            other.tree_shape(),
    {
        self.lemma_wf();
        if !self.cell(x, y) && self.nbr_count(x, y) == 0 {
            self.poly.lemma_row_masks();
            lemma_total_zero_empty(self.poly_spec().cells_fn(), self.h() as int, self.w() as int);
            assert forall|a: int, b: int| !#[trigger] self.cell(a, b) by {
                if self.cell(a, b) {
                    assert(self.poly_spec().cells_fn()(a, b));
                }
            }
        }
        assert forall|a: int, b: int|
            #![trigger other.diagonal_only(a, b)]
            #![trigger other.full_block(a, b)]
            !other.diagonal_only(a, b) && !other.full_block(a, b) by {
            assert(!self.diagonal_only(a, b) && !self.full_block(a, b));
            assert(other.cell(a, b) == (self.cell(a, b) != (a == x && b == y)));
            assert(other.cell(a, b + 1) == (self.cell(a, b + 1) != (a == x && b + 1 == y)));
            assert(other.cell(a + 1, b) == (self.cell(a + 1, b) != (a + 1 == x && b == y)));
            assert(other.cell(a + 1, b + 1) == (self.cell(a + 1, b + 1) != (a + 1 == x && b + 1 == y)));
            assert(self.nbr(x, y, 0) == self.cell(x, y + 1));
            assert(self.nbr(x, y, 1) == self.cell(x + 1, y));
            assert(self.nbr(x, y, 2) == self.cell(x, y - 1));
            assert(self.nbr(x, y, 3) == self.cell(x - 1, y));
            if !self.cell(x, y) && self.nbr_count(x, y) == 1 {
                assert forall|d: int| 0 <= d < 4 && #[trigger] self.nbr(x, y, d) implies self.far_side_free(x, y, d) by {}
                if self.nbr(x, y, 0) {
                    self.lemma_far(x, y, 0, 0);
                    self.lemma_far(x, y, 0, 1);
                    assert(!self.cell(x + dir_x(1) + dir_x(2), y + dir_y(1) + dir_y(2)));
                    assert(!self.cell(x + dir_x(2) + dir_x(3), y + dir_y(2) + dir_y(3)));
                } else if self.nbr(x, y, 1) {
                    self.lemma_far(x, y, 1, 0);
                    self.lemma_far(x, y, 1, 1);
                    assert(!self.cell(x + dir_x(2) + dir_x(3), y + dir_y(2) + dir_y(3)));
                    assert(!self.cell(x + dir_x(3) + dir_x(0), y + dir_y(3) + dir_y(0)));
                } else if self.nbr(x, y, 2) {
                    self.lemma_far(x, y, 2, 0);
                    self.lemma_far(x, y, 2, 1);
                    assert(!self.cell(x + dir_x(3) + dir_x(0), y + dir_y(3) + dir_y(0)));
                    assert(!self.cell(x + dir_x(0) + dir_x(1), y + dir_y(0) + dir_y(1)));
                } else {
                    assert(self.nbr(x, y, 3));
                    self.lemma_far(x, y, 3, 0);
                    self.lemma_far(x, y, 3, 1);
                    assert(!self.cell(x + dir_x(0) + dir_x(1), y + dir_y(0) + dir_y(1)));
                    assert(!self.cell(x + dir_x(1) + dir_x(2), y + dir_y(1) + dir_y(2)));
                }
            }
        }
    }
}

/// The number of places before `n` where `t` is set minus where `s` is set, when they
/// differ only at `p` and `q`.
proof fn lemma_count_two(s: Seq<bool>, t: Seq<bool>, n: int, p: int, q: int)
    requires
        0 <= n <= s.len(),
        s.len() == t.len(),
        p != q,
        forall|i: int| 0 <= i < n && i != p && i != q ==> #[trigger] s[i] == t[i],
    ensures
        crate::data::u256::count_true(t, 0, n) - crate::data::u256::count_true(s, 0, n) == (if 0 <= p < n {
            (if t[p] { 1int } else { 0int }) - (if s[p] { 1int } else { 0int })
        } else {
            0int
        }) + (if 0 <= q < n {
            (if t[q] { 1int } else { 0int }) - (if s[q] { 1int } else { 0int })
        } else {
            0int
        }),
    decreases n,
{
    if n > 0 {
        lemma_count_two(s, t, n - 1, p, q);
    }
}

/// The pairs of cells side by side in row `x` (each cell with the one after it) and between
/// row `x` and the next.
pub open spec fn row_pairs(f: spec_fn(int, int) -> bool, x: int, w: int) -> int {
    (crate::data::u256::count_true(Seq::new(w as nat, |y: int| f(x, y) && f(x, y + 1)), 0, w) + crate::data::u256::count_true(
        Seq::new(w as nat, |y: int| f(x, y) && f(x + 1, y)),
        0,
        w,
    )) as int
}

/// The pairs of cells side by side that start in the first `n` rows.
pub open spec fn total_pairs(f: spec_fn(int, int) -> bool, n: int, w: int) -> int
    decreases n,
{
    if n <= 0 {
        0
    } else {
        total_pairs(f, n - 1, w) + row_pairs(f, n - 1, w)
    }
}

/// Toggling the cell `(a, b)` changes the pairs by the number of its neighbors.
proof fn lemma_pairs_toggle(f: spec_fn(int, int) -> bool, g: spec_fn(int, int) -> bool, n: int, w: int, a: int, b: int)
    requires
        0 <= a < n,
        0 <= b < w,
        forall|x: int, y: int| (x != a || y != b) ==> #[trigger] f(x, y) == g(x, y),
        g(a, b) == !f(a, b),
        forall|x: int, y: int| #[trigger] f(x, y) ==> 0 <= x < n && 0 <= y < w,
    ensures
        ({
            let k = (if f(a, b + 1) { 1int } else { 0int }) + (if f(a + 1, b) { 1int } else { 0int }) + (if f(a, b - 1) { 1int } else { 0int }) + (if f(a - 1, b) {
                1int
            } else {
                0int
            });
            total_pairs(g, n, w) - total_pairs(f, n, w) == if g(a, b) { k } else { -k }
        }),
    decreases n,
{
    // the row of the cell
    let hf = Seq::new(w as nat, |y: int| f(a, y) && f(a, y + 1));
    let hg = Seq::new(w as nat, |y: int| g(a, y) && g(a, y + 1));
    let vf = Seq::new(w as nat, |y: int| f(a, y) && f(a + 1, y));
    let vg = Seq::new(w as nat, |y: int| g(a, y) && g(a + 1, y));
    lemma_count_two(hf, hg, w, b - 1, b);
    lemma_count_two(vf, vg, w, b, -1);
    if !(0 <= b + 1 < w) {
        assert(!f(a, b + 1));
    }
    let k3 = (if f(a, b + 1) { 1int } else { 0int }) + (if f(a + 1, b) { 1int } else { 0int }) + (if f(a, b - 1) { 1int } else { 0int });
    assert(row_pairs(g, a, w) - row_pairs(f, a, w) == if g(a, b) { k3 } else { -k3 });
    // the row before it
    let uf = Seq::new(w as nat, |y: int| f(a - 1, y) && f(a, y));
    let ug = Seq::new(w as nat, |y: int| g(a - 1, y) && g(a, y));
    let hf1 = Seq::new(w as nat, |y: int| f(a - 1, y) && f(a - 1, y + 1));
    let hg1 = Seq::new(w as nat, |y: int| g(a - 1, y) && g(a - 1, y + 1));
    lemma_count_two(uf, ug, w, b, -1);
    assert(hf1 =~= hg1);
    let k1 = if f(a - 1, b) { 1int } else { 0int };
    assert(row_pairs(g, a - 1, w) - row_pairs(f, a - 1, w) == if g(a, b) { k1 } else { -k1 });
    lemma_pairs_rows(f, g, n, w, a, b);
    if a == 0 {
        assert(!f(a - 1, b));
    }
}

/// Only the row of the toggled cell and the row before it change their pairs.
proof fn lemma_pairs_rows(f: spec_fn(int, int) -> bool, g: spec_fn(int, int) -> bool, n: int, w: int, a: int, b: int)
    requires
        0 <= a,
        0 <= b < w,
        forall|x: int, y: int| (x != a || y != b) ==> #[trigger] f(x, y) == g(x, y),
    ensures
        total_pairs(g, n, w) - total_pairs(f, n, w) == (if 0 <= a < n { row_pairs(g, a, w) - row_pairs(f, a, w) } else { 0int }) + (if 0 <= a - 1 < n {
            row_pairs(g, a - 1, w) - row_pairs(f, a - 1, w)
        } else {
            0int
        }),
    decreases n,
{
    if n > 0 {
        lemma_pairs_rows(f, g, n - 1, w, a, b);
        let x = n - 1;
        if x != a && x != a - 1 {
            let hf = Seq::new(w as nat, |y: int| f(x, y) && f(x, y + 1));
            let hg = Seq::new(w as nat, |y: int| g(x, y) && g(x, y + 1));
            let vf = Seq::new(w as nat, |y: int| f(x, y) && f(x + 1, y));
            let vg = Seq::new(w as nat, |y: int| g(x, y) && g(x + 1, y));
            assert(hf =~= hg);
            assert(vf =~= vg);
        }
    }
}

impl TreePoly {
    /// The pairs of cells side by side.
    pub open spec fn pairs(self) -> int {
        total_pairs(self.poly_spec().cells_fn(), self.h() as int, self.w() as int)
    }

    /// The cells form a tree: none, or one fewer pair of cells side by side than cells, as
    /// a connected set of cells without a cycle has.
    pub open spec fn is_tree(self) -> bool {
        self.count() == 0 || self.pairs() + 1 == self.count()
    }

    /// A flip keeps the cells a tree: a leaf added next to one cell adds one pair, a leaf
    /// removed takes one away.
    pub proof fn lemma_flip_keeps_tree(self, other: TreePoly, x: int, y: int)
        requires
            self.wf(),
            self.is_tree(),
            if self.cell(x, y) { self.can_clear_spec(x, y) } else { self.can_set_spec(x, y) },
            self.flipped_at(other, x, y),
        ensures
            other.is_tree(),
    {
        self.lemma_wf();
        let f = self.poly_spec().cells_fn();
        let g = other.poly_spec().cells_fn();
        assert(0 <= x < self.h() && 0 <= y < self.w()) by {
            if self.cell(x, y) {
            }
        }
        assert forall|a: int, b: int| (a != x || b != y) implies #[trigger] f(a, b) == g(a, b) by {
            assert(other.cell(a, b) == self.cell(a, b));
        }
        assert(g(x, y) == !f(x, y)) by {
            assert(other.cell(x, y) == !self.cell(x, y));
        }
        assert forall|a: int, b: int| #[trigger] f(a, b) implies 0 <= a < self.h() && 0 <= b < self.w() by {
            assert(self.cell(a, b));
        }
        crate::data::bit_poly::lemma_total_toggle(f, g, self.h() as int, self.w() as int, x, y);
        lemma_pairs_toggle(f, g, self.h() as int, self.w() as int, x, y);
        assert(self.nbr(x, y, 0) == f(x, y + 1));
        assert(self.nbr(x, y, 1) == f(x + 1, y));
        assert(self.nbr(x, y, 2) == f(x, y - 1));
        assert(self.nbr(x, y, 3) == f(x - 1, y));
        assert(self.count() == total_cells(f, self.h() as int, self.w() as int));
        assert(other.count() == total_cells(g, self.h() as int, self.w() as int));
        assert(self.pairs() == total_pairs(f, self.h() as int, self.w() as int));
        assert(other.pairs() == total_pairs(g, self.h() as int, self.w() as int));
        if self.count() == 0 {
            lemma_total_zero_empty(f, self.h() as int, self.w() as int);
            lemma_pairs_empty(f, self.h() as int, self.w() as int);
            assert(!f(x, y + 1) && !f(x + 1, y) && !f(x, y - 1) && !f(x - 1, y)) by {
                if f(x, y + 1) {} if f(x + 1, y) {} if f(x, y - 1) {} if f(x - 1, y) {}
            }
            assert(!f(x, y));
        }
    }
}

/// With no cell, there is no pair.
proof fn lemma_pairs_empty(f: spec_fn(int, int) -> bool, n: int, w: int)
    requires
        forall|x: int, y: int| 0 <= x < n && 0 <= y < w ==> !#[trigger] f(x, y),
    ensures
        total_pairs(f, n, w) == 0,
    decreases n,
{
    if n > 0 {
        lemma_pairs_empty(f, n - 1, w);
        let x = n - 1;
        let hf = Seq::new(w as nat, |y: int| f(x, y) && f(x, y + 1));
        let vf = Seq::new(w as nat, |y: int| f(x, y) && f(x + 1, y));
        crate::data::u256::lemma_count_zero_iff(hf, 0, w);
        crate::data::u256::lemma_count_zero_iff(vf, 0, w);
        assert forall|j: int| 0 <= j < w implies !hf[j] by {
            assert(!f(x, j));
        }
        assert forall|j: int| 0 <= j < w implies !vf[j] by {
            assert(!f(x, j));
        }
    }
}

/// The number of the four neighbors of `(a, b)` that `f` holds.
pub open spec fn nbrs_of(f: spec_fn(int, int) -> bool, a: int, b: int) -> int {
    (if f(a, b + 1) { 1int } else { 0int }) + (if f(a + 1, b) { 1int } else { 0int }) + (if f(a, b - 1) { 1int } else { 0int }) + (if f(a - 1, b) {
        1int
    } else {
        0int
    })
}

/// `f` with the square `(a, b)` toggled.
pub open spec fn toggled_at(f: spec_fn(int, int) -> bool, a: int, b: int) -> spec_fn(int, int) -> bool {
    |p: int, q: int| f(p, q) != (p == a && q == b)
}

/// One toggle inside the box changes the cells by one and the pairs by the neighbors.
proof fn lemma_one_toggle(f: spec_fn(int, int) -> bool, n: int, w: int, a: int, b: int)
    requires
        0 <= a < n,
        0 <= b < w,
        forall|x: int, y: int| #[trigger] f(x, y) ==> 0 <= x < n && 0 <= y < w,
    ensures
        total_cells(toggled_at(f, a, b), n, w) == total_cells(f, n, w) + if f(a, b) { -1int } else { 1int },
        total_pairs(toggled_at(f, a, b), n, w) == total_pairs(f, n, w) + if f(a, b) { -nbrs_of(f, a, b) } else { nbrs_of(f, a, b) },
        forall|x: int, y: int| #[trigger] toggled_at(f, a, b)(x, y) ==> 0 <= x < n && 0 <= y < w,
{
    let g = toggled_at(f, a, b);
    assert forall|x: int, y: int| (x != a || y != b) implies #[trigger] f(x, y) == g(x, y) by {}
    crate::data::bit_poly::lemma_total_toggle(f, g, n, w, a, b);
    lemma_pairs_toggle(f, g, n, w, a, b);
}

impl TreePoly {
    /// A zip keeps the cells a tree: the middle square trades its three neighbors for the
    /// two corners, each next to two of them.
    pub proof fn lemma_zip_keeps_tree(self, t: TreePoly, x: int, y: int, k: int)
        requires
            self.wf(),
            t.wf(),
            self.is_tree(),
            t.h() == self.h(),
            t.w() == self.w(),
            self.lone_gap(x, y, k),
            self.zip_side_ok(x, y, k, (k + 1) % 4),
            self.zip_side_ok(x, y, k, (k + 3) % 4),
            forall|p: int, q: int|
                #[trigger] t.cell(p, q) == (self.cell(p, q) != ((p == x && q == y) || (p == x + dir_x((k + 2) % 4) + dir_x((k + 1) % 4) && q
                    == y + dir_y((k + 2) % 4) + dir_y((k + 1) % 4)) || (p == x + dir_x((k + 2) % 4) + dir_x((k + 3) % 4) && q == y + dir_y(
                    (k + 2) % 4,
                ) + dir_y((k + 3) % 4)))),
        ensures
            t.is_tree(),
    {
        self.lemma_wf();
        t.lemma_wf();
        let n = self.h() as int;
        let w = self.w() as int;
        let m = (k + 2) % 4;
        let ax = x + dir_x(m) + dir_x((k + 1) % 4);
        let ay = y + dir_y(m) + dir_y((k + 1) % 4);
        let bx = x + dir_x(m) + dir_x((k + 3) % 4);
        let by = y + dir_y(m) + dir_y((k + 3) % 4);
        let f0 = self.poly_spec().cells_fn();
        let f1 = toggled_at(f0, x, y);
        let f2 = toggled_at(f1, ax, ay);
        let f3 = toggled_at(f2, bx, by);
        assert(0 <= k < 4);
        assert(self.nbr(x, y, (k + 1) % 4));
        assert(self.nbr(x, y, m));
        assert(self.nbr(x, y, (k + 3) % 4));
        assert(!self.nbr(x, y, k));
        assert forall|p: int, q: int| #[trigger] f0(p, q) implies 0 <= p < n && 0 <= q < w by {
            assert(self.cell(p, q));
        }
        // the three squares lie in the box
        assert(0 <= x < n && 0 <= y < w) by {
            if k == 0 {
                assert(self.cell(x + 1, y) && self.cell(x - 1, y) && self.cell(x, y - 1));
            } else if k == 1 {
                assert(self.cell(x, y + 1) && self.cell(x - 1, y) && self.cell(x, y - 1));
            } else if k == 2 {
                assert(self.cell(x, y + 1) && self.cell(x + 1, y) && self.cell(x - 1, y));
            } else {
                assert(self.cell(x, y + 1) && self.cell(x + 1, y) && self.cell(x, y - 1));
            }
        }
        assert(0 <= ax < n && 0 <= ay < w) by {
            if self.cell(ax, ay) {
            } else {
                assert(t.cell(ax, ay));
            }
        }
        assert(0 <= bx < n && 0 <= by < w) by {
            if self.cell(bx, by) {
            } else {
                assert(t.cell(bx, by));
            }
        }
        lemma_one_toggle(f0, n, w, x, y);
        lemma_one_toggle(f1, n, w, ax, ay);
        lemma_one_toggle(f2, n, w, bx, by);
        // the neighbors at each step
        assert(nbrs_of(f0, x, y) == 3) by {
            if k == 0 {
                assert(f0(x + 1, y) && f0(x - 1, y) && f0(x, y - 1) && !f0(x, y + 1));
            } else if k == 1 {
                assert(f0(x, y + 1) && f0(x - 1, y) && f0(x, y - 1) && !f0(x + 1, y));
            } else if k == 2 {
                assert(f0(x, y + 1) && f0(x + 1, y) && f0(x - 1, y) && !f0(x, y - 1));
            } else {
                assert(f0(x, y + 1) && f0(x + 1, y) && f0(x, y - 1) && !f0(x - 1, y));
            }
        }
        assert(self.corner_ok(ax, ay, dir_x(m), dir_y(m), dir_x((k + 1) % 4), dir_y((k + 1) % 4), !self.cell(x, y)));
        assert(self.corner_ok(bx, by, dir_x(m), dir_y(m), dir_x((k + 3) % 4), dir_y((k + 3) % 4), !self.cell(x, y)));
        assert(nbrs_of(f1, ax, ay) == 2) by {
            if k == 0 {
                assert(f1(ax - 1, ay) && f1(ax, ay + 1) && !f1(ax + 1, ay) && !f1(ax, ay - 1));
            } else if k == 1 {
                assert(f1(ax + 1, ay) && f1(ax, ay + 1) && !f1(ax - 1, ay) && !f1(ax, ay - 1));
            } else if k == 2 {
                assert(f1(ax + 1, ay) && f1(ax, ay - 1) && !f1(ax - 1, ay) && !f1(ax, ay + 1));
            } else {
                assert(f1(ax - 1, ay) && f1(ax, ay - 1) && !f1(ax + 1, ay) && !f1(ax, ay + 1));
            }
        }
        assert(nbrs_of(f2, bx, by) == 2) by {
            if k == 0 {
                assert(f2(bx, by + 1) && f2(bx + 1, by) && !f2(bx, by - 1) && !f2(bx - 1, by));
            } else if k == 1 {
                assert(f2(bx, by - 1) && f2(bx + 1, by) && !f2(bx, by + 1) && !f2(bx - 1, by));
            } else if k == 2 {
                assert(f2(bx, by - 1) && f2(bx - 1, by) && !f2(bx, by + 1) && !f2(bx + 1, by));
            } else {
                assert(f2(bx, by + 1) && f2(bx - 1, by) && !f2(bx, by - 1) && !f2(bx + 1, by));
            }
        }
        assert(f1(ax, ay) == f0(ax, ay));
        assert(f2(bx, by) == f0(bx, by));
        assert(f3 =~= t.poly_spec().cells_fn()) by {
            assert forall|p: int, q: int| #[trigger] f3(p, q) == t.poly_spec().cells_fn()(p, q) by {
                assert(t.cell(p, q) == t.poly_spec().cells_fn()(p, q));
            }
        }
        if self.count() == 0 {
            lemma_total_zero_empty(f0, n, w);
            assert(f0(x + dir_x(m), y + dir_y(m)));
        }
    }
}

} // verus!

verus! {

/// `s` holds only cells of `f`, and every cell of `f` next to one of its members.
pub open spec fn closed_in(f: spec_fn(int, int) -> bool, s: Set<(int, int)>) -> bool {
    &&& forall|p: (int, int)| #[trigger] s.contains(p) ==> f(p.0, p.1)
    &&& forall|p: (int, int), q: (int, int)| #[trigger] s.contains(p) && #[trigger] f(q.0, q.1) && next_to(p, q) ==> s.contains(q)
}

/// The cells of `f` are connected: a closed set with one of them has them all.
pub open spec fn connected_fn(f: spec_fn(int, int) -> bool) -> bool {
    forall|s: Set<(int, int)>, p: (int, int)| #[trigger] closed_in(f, s) && #[trigger] s.contains(p) ==> forall|q: (int, int)|
        #[trigger] f(q.0, q.1) ==> s.contains(q)
}

/// The 2x2 window of `f` with `(x, y)` as its first square holds exactly the two cells of
/// one diagonal.
pub open spec fn diagonal_only_fn(f: spec_fn(int, int) -> bool, x: int, y: int) -> bool {
    let a = f(x, y);
    let b = f(x, y + 1);
    let c = f(x + 1, y);
    let d = f(x + 1, y + 1);
    (a && d && !b && !c) || (b && c && !a && !d)
}

/// The cells of `f`, all inside the `n x w` box, form a tree: none, or connected with one
/// fewer pair of cells side by side than cells; and no two cells touch at a corner alone.
pub open spec fn grid_tree(f: spec_fn(int, int) -> bool, n: int, w: int) -> bool {
    &&& forall|x: int, y: int| #[trigger] f(x, y) ==> 0 <= x < n && 0 <= y < w
    &&& connected_fn(f)
    &&& (total_cells(f, n, w) == 0 || total_pairs(f, n, w) + 1 == total_cells(f, n, w))
    &&& forall|x: int, y: int| !#[trigger] diagonal_only_fn(f, x, y)
}

/// In a tree every non-empty part has fewer pairs side by side than cells.
pub proof fn lemma_forest(t: spec_fn(int, int) -> bool, x: spec_fn(int, int) -> bool, n: int, w: int, a0: int, b0: int)
    requires
        forall|p: int, q: int| #[trigger] t(p, q) ==> 0 <= p < n && 0 <= q < w,
        connected_fn(t),
        total_pairs(t, n, w) + 1 == total_cells(t, n, w),
        forall|p: int, q: int| #[trigger] x(p, q) ==> t(p, q),
        x(a0, b0),
    ensures
        total_pairs(x, n, w) + 1 <= total_cells(x, n, w),
    decreases total_cells(|p: int, q: int| t(p, q) && !x(p, q), n, w),
{
    let d = |p: int, q: int| t(p, q) && !x(p, q);
    if forall|p: int, q: int| #[trigger] t(p, q) ==> x(p, q) {
        assert(x =~= t) by {
            assert forall|p: int, q: int| #[trigger] x(p, q) == t(p, q) by {
                if t(p, q) {
                    assert(x(p, q));
                }
            }
        }
    } else {
        let s = Set::new(|p: (int, int)| x(p.0, p.1));
        let (qa, qb) = choose|p: int, q: int| #[trigger] t(p, q) && !x(p, q);
        assert(s.contains((a0, b0)));
        if closed_in(t, s) {
            assert(t((qa, qb).0, (qa, qb).1));
            assert(s.contains((qa, qb)));
            assert(false);
        }
        let (p, q) = choose|p: (int, int), q: (int, int)| #[trigger] s.contains(p) && #[trigger] t(q.0, q.1) && next_to(p, q) && !s.contains(q);
        assert(x(p.0, p.1));
        assert(!x(q.0, q.1));
        let x2 = toggled_at(x, q.0, q.1);
        lemma_one_toggle(x, n, w, q.0, q.1);
        lemma_next_to_dir(q.0, q.1, p);
        assert(next_to((q.0, q.1), p));
        let dd = choose|dd: int| 0 <= dd < 4 && p.0 == q.0 + dir_x(dd) && p.1 == q.1 + dir_y(dd);
        assert(nbrs_of(x, q.0, q.1) >= 1);
        let d2 = |p2: int, q2: int| t(p2, q2) && !x2(p2, q2);
        assert(d2 =~= toggled_at(d, q.0, q.1));
        lemma_one_toggle(d, n, w, q.0, q.1);
        lemma_forest(t, x2, n, w, a0, b0);
    }
}

impl TreePoly {
    /// A square of a tree `f` that holds the cells of `self`, next to one of them (or any
    /// square of `f` when `self` is empty), can be added to `self` as a leaf.
    pub proof fn lemma_can_grow(self, f: spec_fn(int, int) -> bool, c: (int, int))
        requires
            self.wf(),
            self.is_tree(),
            grid_tree(f, self.h() as int, self.w() as int),
            forall|x: int, y: int| #[trigger] self.cell(x, y) ==> f(x, y),
            f(c.0, c.1),
            !self.cell(c.0, c.1),
            self.count() == 0 || exists|d: int| 0 <= d < 4 && #[trigger] self.nbr(c.0, c.1, d),
        ensures
            self.can_set_spec(c.0, c.1),
    {
        self.lemma_wf();
        let n = self.h() as int;
        let w = self.w() as int;
        let g = self.poly_spec().cells_fn();
        assert forall|x: int, y: int| #[trigger] g(x, y) ==> 0 <= x < n && 0 <= y < w by {
            if g(x, y) {
                assert(self.cell(x, y));
            }
        }
        let tc = total_cells(f, n, w);
        assert(tc > 0) by {
            if tc == 0 {
                lemma_total_zero_empty(f, n, w);
            }
        }
        assert(nbrs_of(g, c.0, c.1) == self.nbr_count(c.0, c.1) as int);
        let x1 = toggled_at(g, c.0, c.1);
        lemma_one_toggle(g, n, w, c.0, c.1);
        assert forall|p: int, q: int| #[trigger] x1(p, q) implies f(p, q) by {
            if g(p, q) {
                assert(self.cell(p, q));
            }
        }
        if self.nbr_count(c.0, c.1) >= 1 {
            let d = if self.nbr(c.0, c.1, 0) { 0int } else if self.nbr(c.0, c.1, 1) { 1int } else if self.nbr(c.0, c.1, 2) { 2int } else { 3int };
            assert(self.nbr(c.0, c.1, d));
            assert(g(c.0 + dir_x(d), c.1 + dir_y(d)));
            BitPoly::lemma_total_has(g, n, w, c.0 + dir_x(d), c.1 + dir_y(d));
        }
        if self.nbr_count(c.0, c.1) >= 2 {
            assert(self.count() > 0);
            lemma_forest(f, x1, n, w, c.0, c.1);
            assert(false);
        }
        assert forall|d: int| 0 <= d < 4 && #[trigger] self.nbr(c.0, c.1, d) implies self.far_side_free(c.0, c.1, d) by {
            assert forall|e: int| 0 <= e < 2 implies !#[trigger] self.cell(
                c.0 + dir_x((d + e + 1) % 4) + dir_x((d + e + 2) % 4),
                c.1 + dir_y((d + e + 1) % 4) + dir_y((d + e + 2) % 4),
            ) by {
                let j1 = (d + e + 1) % 4;
                let j2 = (d + e + 2) % 4;
                let gx = c.0 + dir_x(j1) + dir_x(j2);
                let gy = c.1 + dir_y(j1) + dir_y(j2);
                if self.cell(gx, gy) {
                    assert(f(gx, gy));
                    assert(!diagonal_only_fn(f, c.0, c.1));
                    assert(!diagonal_only_fn(f, c.0, c.1 - 1));
                    assert(!diagonal_only_fn(f, c.0 - 1, c.1 - 1));
                    assert(!diagonal_only_fn(f, c.0 - 1, c.1));
                    let m = if f(c.0 + dir_x(j1), c.1 + dir_y(j1)) { j1 } else { j2 };
                    assert(f(c.0 + dir_x(m), c.1 + dir_y(m)));
                    let nx = c.0 + dir_x(m);
                    let ny = c.1 + dir_y(m);
                    assert(m != d);
                    assert(!self.cell(nx, ny)) by {
                        if self.cell(nx, ny) {
                            assert(self.nbr(c.0, c.1, m));
                            assert(self.nbr_count(c.0, c.1) >= 2);
                        }
                    }
                    assert(!x1(nx, ny));
                    assert(x1(c.0, c.1));
                    assert(x1(gx, gy));
                    assert(nbrs_of(x1, nx, ny) >= 2);
                    lemma_one_toggle(x1, n, w, nx, ny);
                    let x2 = toggled_at(x1, nx, ny);
                    assert forall|p: int, q: int| #[trigger] x2(p, q) implies f(p, q) by {
                        if x1(p, q) {
                            assert(f(p, q));
                        }
                    }
                    assert(self.count() > 0);
                    lemma_forest(f, x2, n, w, c.0, c.1);
                    assert(false);
                }
            }
        }
    }
}

} // verus!
