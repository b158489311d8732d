use vstd::prelude::*;
use crate::data::d4::{D4, act_x, act_y};
use crate::data::e2::E2;
use crate::data::outline::{Outline, cell_image};
use crate::data::vector::Vector;
use crate::data::rect::Rect;
use crate::data::tight_poly::TightPoly;
use crate::data::tree_poly::{TreePoly, TreeError, dir_x, dir_y, grid_tree, closed_in, lemma_next_to_dir, next_to};
use crate::data::bit_poly::BitPoly;
use crate::data::cover1_queries::Cover1Queries;
use crate::data::cover2_queries::Cover2Queries;
use crate::check::check::num_cells;

verus! {

/// The motion that takes the cell `(0, 0)` of an `h x w` box to its image under `g` takes
/// every cell of the box to its image.
pub proof fn lemma_base_motion(g: D4, h: int, w: int, x: int, y: int)
    ensures
        act_x(g, x, y) + cell_image(g, h, w, 0, 0).0 == cell_image(g, h, w, x, y).0,
        act_y(g, x, y) + cell_image(g, h, w, 0, 0).1 == cell_image(g, h, w, x, y).1,
{
}

/// The larger of the two sides.
pub open spec fn side_of(h: int, w: int) -> int {
    if h >= w { h } else { w }
}

/// `(x, y)` is the image under `g` of a cell of `t`, in the box of `t`.
pub open spec fn in_image(t: TreePoly, g: D4, x: int, y: int) -> bool {
    exists|p: (int, int)| #[trigger] t.cell(p.0, p.1) && cell_image(g, t.h() as int, t.w() as int, p.0, p.1) == (x, y)
}

/// Why a change of the board was refused.
#[derive(Clone, Copy, Debug, PartialEq, Eq, Structural)]
pub enum BoardError {
    /// The change would leave the board without a cell.
    WouldEmpty,
    /// After the change the board would hold a whole copy of the problem.
    CoveredByOne,
    /// The cells around do not allow the change.
    Tree,
    /// A pass of the candidate's cells placed none of them.
    CandidateRefused,
}

/// A candidate grown cell by cell in a box: a tree of cells, with the placements of the
/// problem it holds whole, and the two-copy queries of its images under the symmetries.
pub struct Board {
    problem: TightPoly,
    tree: TreePoly,
    d4s: Vec<D4>,
    base_movements: Vec<E2>,
    cover2_queries: Cover2Queries,
    cover1_queries: Cover1Queries,
    check_cover1: bool,
}

impl Board {
    /// The cells of the candidate.
    pub closed spec fn tree_spec(self) -> TreePoly {
        self.tree
    }

    /// The problem.
    pub closed spec fn problem_spec(self) -> TightPoly {
        self.problem
    }

    /// The symmetries under which the candidate is placed.
    pub closed spec fn d4s_spec(self) -> Seq<D4> {
        self.d4s@
    }

    /// Whether a change that would hold a whole copy of the problem is refused.
    pub closed spec fn check_cover1_spec(self) -> bool {
        self.check_cover1
    }

    pub open spec fn h(self) -> int {
        self.tree_spec().h() as int
    }

    pub open spec fn w(self) -> int {
        self.tree_spec().w() as int
    }

    pub open spec fn side(self) -> int {
        side_of(self.h(), self.w())
    }

    /// Whether `(x, y)` is a cell of the candidate.
    pub open spec fn cell(self, x: int, y: int) -> bool {
        self.tree_spec().cell(x, y)
    }

    /// `(x, y)` is the image under the symmetry `i` of a cell of the candidate.
    pub open spec fn moved_cell(self, i: int, x: int, y: int) -> bool {
        in_image(self.tree_spec(), self.d4s_spec()[i], x, y)
    }

    /// The problem's cells in increasing order.
    pub closed spec fn cells2(self) -> Seq<Vector<i32>> {
        self.cover2_queries.cells()
    }

    /// The image of the candidate under the symmetry `i`, moved by `d`, holds the problem's
    /// cell `k`.
    pub open spec fn covers(self, i: int, d: Vector<i32>, k: int) -> bool {
        self.moved_cell(i, self.cells2()[k].x - d.x, self.cells2()[k].y - d.y)
    }

    /// The images of the candidate under the symmetries `i` and `j`, moved by `da` and
    /// `db`, cover the problem together: each of its cells by exactly one, each image at
    /// least one, the two sharing no cell; when `i == j`, the first image covers the first
    /// cell.
    pub open spec fn is_cover2(self, i: int, j: int, da: Vector<i32>, db: Vector<i32>) -> bool {
        &&& forall|k: int| 0 <= k < self.cells2().len() ==> #[trigger] self.covers(i, da, k) != self.covers(j, db, k)
        &&& exists|k: int| 0 <= k < self.cells2().len() && #[trigger] self.covers(i, da, k)
        &&& exists|k: int| 0 <= k < self.cells2().len() && #[trigger] self.covers(j, db, k)
        &&& forall|x: int, y: int| #[trigger] self.moved_cell(i, x, y) ==> !self.moved_cell(j, x + da.x - db.x, y + da.y - db.y)
        &&& (i == j ==> self.covers(i, da, 0))
    }

    /// The motion that places the candidate under the symmetry `i` and then moves it by `d`.
    pub open spec fn placed(self, i: int, d: Vector<i32>) -> E2 {
        let o = cell_image(self.d4s_spec()[i], self.h(), self.w(), 0, 0);
        E2 { r: self.d4s_spec()[i], d: Vector { x: (d.x + o.0) as i32, y: (d.y + o.1) as i32 } }
    }

    /// The pair of motions of a cover by two images.
    pub open spec fn pair_of(self, i: int, j: int, da: Vector<i32>, db: Vector<i32>) -> (E2, E2) {
        (self.placed(i, da), self.placed(j, db))
    }

    /// `e` is the pair of a cover by the images `i` and `j` with `j <= i`, listed before the
    /// pair of symmetries `(il, jl)`.
    pub open spec fn found(self, e: (E2, E2), il: int, jl: int) -> bool {
        exists|i: int, j: int, da: Vector<i32>, db: Vector<i32>|
            0 <= j <= i < self.d4s_spec().len() && (i < il || (i == il && j < jl)) && #[trigger] self.is_cover2(i, j, da, db) && e == self.pair_of(
                i,
                j,
                da,
                db,
            )
    }

    /// Whether the candidate holds the problem moved by `(a, b)`.
    pub open spec fn holds_copy_at(self, a: int, b: int) -> bool {
        forall|u: int, v: int| #[trigger] self.problem_spec().cell(u, v) ==> self.cell(a + u, b + v)
    }

    /// Whether the candidate holds a whole copy of the problem moved by an offset of
    /// `[0, side)^2`.
    pub open spec fn holds_copy(self) -> bool {
        exists|a: int, b: int| 0 <= a < self.side() && 0 <= b < self.side() && #[trigger] self.holds_copy_at(a, b)
    }

    /// Whether the candidate with `(x, y)` flipped holds the problem moved by `(a, b)`.
    pub open spec fn holds_copy_after(self, x: int, y: int, a: int, b: int) -> bool {
        forall|u: int, v: int| #[trigger] self.problem_spec().cell(u, v) ==> (self.cell(a + u, b + v) != (a + u == x && b + v == y))
    }

    /// Whether the candidate with `(x, y)` flipped holds a whole copy of the problem moved by
    /// an offset of `[0, side)^2`.
    pub open spec fn covered_once_after(self, x: int, y: int) -> bool {
        exists|a: int, b: int| 0 <= a < self.side() && 0 <= b < self.side() && #[trigger] self.holds_copy_after(x, y, a, b)
    }

    /// The square `(p, q)` is one of the three that a zip at `(x, y)` with its lone gap in
    /// direction `k` toggles: `(x, y)` and the two corners away from the gap.
    pub open spec fn zipped(x: int, y: int, k: int, p: int, q: int) -> bool {
        let m = (k + 2) % 4;
        ||| (p == x && q == y)
        ||| (p == x + dir_x(m) + dir_x((k + 1) % 4) && q == y + dir_y(m) + dir_y((k + 1) % 4))
        ||| (p == x + dir_x(m) + dir_x((k + 3) % 4) && q == y + dir_y(m) + dir_y((k + 3) % 4))
    }

    /// Whether the candidate with the zip at `(x, y)` (lone gap `k`) made holds the problem
    /// moved by `(a, b)`.
    pub open spec fn holds_copy_after_zip(self, x: int, y: int, k: int, a: int, b: int) -> bool {
        forall|u: int, v: int| #[trigger] self.problem_spec().cell(u, v) ==> (self.cell(a + u, b + v) != Self::zipped(x, y, k, a + u, b + v))
    }

    /// Whether the candidate with the zip at `(x, y)` (lone gap `k`) made holds a whole copy
    /// of the problem moved by an offset of `[0, side)^2`.
    pub open spec fn covered_after_zip(self, x: int, y: int, k: int) -> bool {
        exists|a: int, b: int| 0 <= a < self.side() && 0 <= b < self.side() && #[trigger] self.holds_copy_after_zip(x, y, k, a, b)
    }

    /// Whether `try_flip` accepts the flip of `(x, y)`.
    pub open spec fn can_flip_spec(self, x: int, y: int) -> bool {
        &&& (self.tree_spec().count() > 1 || !self.cell(x, y))
        &&& (self.check_cover1_spec() ==> !self.covered_once_after(x, y))
        &&& if self.cell(x, y) {
            self.tree_spec().can_clear_spec(x, y)
        } else {
            self.tree_spec().can_set_spec(x, y)
        }
    }

    /// The parts agree: the one-copy queries see the cells of the candidate, and the
    /// two-copy queries see their image under each symmetry.
    pub closed spec fn wf(self) -> bool {
        let h = self.tree.h() as int;
        let w = self.tree.w() as int;
        let side = side_of(h, w);
        &&& self.tree.wf()
        &&& self.tree.tree_shape()
        &&& self.tree.is_tree()
        &&& 1 <= h && 1 <= w && side < 512
        &&& self.problem.wf()
        &&& self.problem.h() + side <= 1000
        &&& self.problem.w() + side <= 1000
        &&& self.cover1_queries.wf()
        &&& self.problem.is_cell_list(self.cover1_queries.cells())
        &&& self.cover1_queries.cells().len() > 0
        &&& self.cover1_queries.side_spec() == side
        &&& forall|a: int, b: int| self.cover1_queries.board_cells().contains((a, b)) <==> #[trigger] self.tree.cell(a, b)
        &&& self.cover2_queries.wf()
        &&& self.problem.is_cell_list(self.cover2_queries.cells())
        &&& self.cover2_queries.n() == self.d4s@.len()
        &&& self.base_movements@.len() == self.d4s@.len()
        &&& self.cover2_queries.hh() == side
        &&& self.cover2_queries.ww() == side
        &&& forall|i: int| 0 <= i < self.d4s@.len() ==> (#[trigger] self.base_movements@[i]).r == self.d4s@[i] && (
        self.base_movements@[i].d.x as int, self.base_movements@[i].d.y as int) == cell_image(self.d4s@[i], h, w, 0, 0)
        &&& forall|i: int, x: int, y: int| 0 <= i < self.d4s@.len() ==> (#[trigger] self.cover2_queries.in_a(i, x, y) <==> self.moved_cell(i, x, y))
        &&& forall|i: int, x: int, y: int| 0 <= i < self.d4s@.len() ==> (#[trigger] self.cover2_queries.in_b(i, x, y) <==> self.moved_cell(i, x, y))
    }

    /// An empty board of `max_height x max_width` for the problem, with the candidate placed
    /// under all eight symmetries. It is always made.
    pub fn new(problem: TightPoly, max_height: usize, max_width: usize) -> (res: Result<Self, BoardError>)
        requires
            problem.wf(),
            problem.h() <= 512,
            1 <= num_cells(problem) <= 31,
            1 <= max_height,
            1 <= max_width,
            side_of(max_height as int, max_width as int) < 512,
            problem.h() + side_of(max_height as int, max_width as int) <= 1000,
            problem.w() + side_of(max_height as int, max_width as int) <= 1000,
        ensures
            res is Ok,
            res matches Ok(r) ==> {
                &&& r.wf()
                &&& r.h() == max_height
                &&& r.w() == max_width
                &&& r.problem_spec() == problem
                &&& r.check_cover1_spec()
                &&& r.d4s_spec().len() == 8
                &&& forall|i: int| 0 <= i < 8 ==> (#[trigger] r.d4s_spec()[i]).idx() == i
                &&& forall|x: int, y: int| !#[trigger] r.cell(x, y)
            },
    {
        let p1 = problem.clone_poly();
        let p2 = problem.clone_poly();
        proof {
            assert(Set::new(|c: (int, int)| p1.cell(c.0, c.1)) =~= Set::new(|c: (int, int)| problem.cell(c.0, c.1)));
            assert(Set::new(|c: (int, int)| p2.cell(c.0, c.1)) =~= Set::new(|c: (int, int)| problem.cell(c.0, c.1)));
        }
        let max_side = if max_height >= max_width { max_height } else { max_width };
        let cover1_queries = Cover1Queries::new(p1, max_side);
        let cover2_queries = Cover2Queries::new(p2, max_side, max_side, 8);
        proof {
            assert forall|a: int, b: int| #[trigger] problem.cell(a, b) implies cover1_queries.cells().contains(Vector { x: a as i32, y: b as i32 }) by {
                assert(p1.cell(a, b));
            }
            assert forall|a: int, b: int| #[trigger] problem.cell(a, b) implies cover2_queries.cells().contains(Vector { x: a as i32, y: b as i32 }) by {
                assert(p2.cell(a, b));
            }
        }
        proof {
            crate::check::check::lemma_cell_list_len(problem, cover1_queries.cells());
        }
        let all = D4::all();
        let outline = Outline::new(max_height, max_width);
        let mut d4s: Vec<D4> = Vec::new();
        let mut base_movements: Vec<E2> = Vec::new();
        let mut k: usize = 0;
        while k < 8
            invariant
                k <= 8,
                outline.height == max_height,
                outline.width == max_width,
                1 <= max_height,
                1 <= max_width,
                max_height < 512,
                max_width < 512,
                forall|i: int| 0 <= i < 8 ==> (#[trigger] all@[i]).idx() == i,
                d4s@.len() == k,
                base_movements@.len() == k,
                forall|i: int| 0 <= i < k ==> (#[trigger] d4s@[i]) == all@[i],
                forall|i: int| 0 <= i < k ==> (#[trigger] base_movements@[i]).r == d4s@[i] && (
                base_movements@[i].d.x as int, base_movements@[i].d.y as int) == cell_image(d4s@[i], max_height as int, max_width as int, 0, 0),
            decreases 8 - k,
        {
            let r = all[k];
            let (dx, dy) = outline.cell(0, 0).transform(r);
            base_movements.push(E2::new(r, Vector::new(dx as i32, dy as i32)));
            d4s.push(r);
            k += 1;
        }
        let tree = TreePoly::new(max_height, max_width);
        proof {
            assert(tree.count() == 0) by {
                tree.lemma_wf();
                assert forall|x: int, y: int| 0 <= x < tree.h() && 0 <= y < tree.w() implies !#[trigger] tree.poly_spec().cells_fn()(x, y) by {
                    assert(!tree.cell(x, y));
                }
                BitPoly::lemma_total_none(tree.poly_spec().cells_fn(), tree.h() as int, tree.w() as int);
            }
        }
        let board = Board {
            problem,
            tree,
            d4s,
            base_movements,
            cover2_queries,
            cover1_queries,
            check_cover1: true,
        };
        proof {
            assert forall|i: int, x: int, y: int| 0 <= i < 8 implies !#[trigger] board.cover2_queries.in_b(i, x, y) by {
                assert(!board.cover2_queries.in_a(i, x, y));
            }
            assert forall|i: int, x: int, y: int| 0 <= i < board.d4s@.len() implies !board.moved_cell(i, x, y) by {
                if board.moved_cell(i, x, y) {
                    let p = choose|p: (int, int)| #[trigger] board.tree.cell(p.0, p.1) && cell_image(board.d4s@[i], board.tree.h() as int, board.tree.w() as int, p.0, p.1) == (x, y);
                    assert(board.tree.cell(p.0, p.1));
                }
            }
        }
        Ok(board)
    }
}

/// The cells of a polyomino, as a predicate.
pub open spec fn poly_cells(p: TightPoly) -> spec_fn(int, int) -> bool {
    |x: int, y: int| p.cell(x, y)
}

/// `cand` holds the problem moved by `(a, b)`.
pub open spec fn holds_problem_at(problem: TightPoly, cand: TightPoly, a: int, b: int) -> bool {
    forall|u: int, v: int| #[trigger] problem.cell(u, v) ==> cand.cell(a + u, b + v)
}

/// A candidate that a board can be loaded with: its cells form a tree without cells that
/// touch at a corner alone, and it holds no copy of the problem moved by an offset of
/// `[0, side)^2`.
pub open spec fn loadable(problem: TightPoly, cand: TightPoly) -> bool {
    &&& grid_tree(poly_cells(cand), cand.h() as int, cand.w() as int)
    &&& forall|a: int, b: int|
        0 <= a < side_of(cand.h() as int, cand.w() as int) && 0 <= b < side_of(cand.h() as int, cand.w() as int) ==> !#[trigger] holds_problem_at(
            problem,
            cand,
            a,
            b,
        )
}

/// `c` is a cell of `cand` outside `s`, next to a cell of `s` unless `s` is empty, and
/// `s` holds only cells of `cand`.
pub open spec fn growable_at(s: TreePoly, cand: TightPoly, c: Vector<i32>) -> bool {
    &&& cand.cell(c.x as int, c.y as int)
    &&& !s.cell(c.x as int, c.y as int)
    &&& (s.count() == 0 || exists|d: int| 0 <= d < 4 && #[trigger] s.nbr(c.x as int, c.y as int, d))
    &&& forall|x: int, y: int| #[trigger] s.cell(x, y) ==> cand.cell(x, y)
}

/// While a tree candidate is not fully placed, one of the cells left can grow the placed
/// part.
proof fn lemma_pass_start(s: TreePoly, cand: TightPoly, cells: Seq<Vector<i32>>) -> (kc: int)
    requires
        s.wf(),
        s.h() == cand.h(),
        s.w() == cand.w(),
        grid_tree(poly_cells(cand), cand.h() as int, cand.w() as int),
        cells.len() > 0,
        forall|u: int| 0 <= u < cells.len() ==> 0 <= (#[trigger] cells[u]).x < cand.h() && 0 <= cells[u].y < cand.w(),
        forall|x: int, y: int| 0 <= x < cand.h() && 0 <= y < cand.w() ==> #[trigger] s.cell(x, y) != cells.contains(
            Vector { x: x as i32, y: y as i32 },
        ) == cand.cell(x, y),
        forall|x: int, y: int| 0 <= x < cand.h() && 0 <= y < cand.w() ==> !(#[trigger] s.cell(x, y) && cells.contains(
            Vector { x: x as i32, y: y as i32 },
        )),
    ensures
        0 <= kc < cells.len(),
        growable_at(s, cand, cells[kc]),
{
    s.lemma_wf();
    let f = poly_cells(cand);
    let c0 = cells[0];
    assert(cells.contains(Vector { x: c0.x as int as i32, y: c0.y as int as i32 }));
    assert(!s.cell(c0.x as int, c0.y as int));
    assert(cand.cell(c0.x as int, c0.y as int));
    assert forall|x: int, y: int| #[trigger] s.cell(x, y) implies cand.cell(x, y) by {
        assert(!cells.contains(Vector { x: x as i32, y: y as i32 }));
    }
    if s.count() == 0 {
        return 0;
    }
    let g = s.poly_spec().cells_fn();
    assert(exists|x: int, y: int| #[trigger] s.cell(x, y)) by {
        if forall|x: int, y: int| !#[trigger] s.cell(x, y) {
            assert forall|x: int, y: int| 0 <= x < s.h() && 0 <= y < s.w() implies !#[trigger] g(x, y) by {
                assert(!s.cell(x, y));
            }
            BitPoly::lemma_total_none(g, s.h() as int, s.w() as int);
        }
    }
    let (x0, y0) = choose|x: int, y: int| #[trigger] s.cell(x, y);
    let set = Set::new(|p: (int, int)| s.cell(p.0, p.1));
    assert(set.contains((x0, y0)));
    if closed_in(f, set) {
        assert(f(c0.x as int, c0.y as int));
        assert(set.contains((c0.x as int, c0.y as int)));
        assert(false);
    }
    let (p, q) = choose|p: (int, int), q: (int, int)| #[trigger] set.contains(p) && #[trigger] f(q.0, q.1) && next_to(p, q) && !set.contains(q);
    assert(cand.cell(q.0, q.1));
    assert(!s.cell(q.0, q.1));
    let e = Vector { x: q.0 as i32, y: q.1 as i32 };
    assert(cells.contains(e));
    let kc = choose|kc: int| 0 <= kc < cells.len() && cells[kc] == e;
    lemma_next_to_dir(q.0, q.1, p);
    assert(next_to((q.0, q.1), p));
    let d = choose|d: int| 0 <= d < 4 && p.0 == q.0 + dir_x(d) && p.1 == q.1 + dir_y(d);
    assert(s.nbr(q.0, q.1, d));
    kc
}

/// On a board holding part of a loadable candidate, a cell that can grow that part is
/// accepted by `try_flip`.
proof fn lemma_grow_step(b: Board, problem: TightPoly, cand: TightPoly, c: Vector<i32>)
    requires
        b.wf(),
        b.problem_spec() == problem,
        b.h() == cand.h(),
        b.w() == cand.w(),
        loadable(problem, cand),
        growable_at(b.tree_spec(), cand, c),
    ensures
        b.can_flip_spec(c.x as int, c.y as int),
{
    b.lemma_board_is_tree();
    if b.tree.count() != 0 {
        let d = choose|d: int| 0 <= d < 4 && #[trigger] b.tree.nbr(c.x as int, c.y as int, d);
        assert(b.tree.nbr((c.x as int, c.y as int).0, (c.x as int, c.y as int).1, d));
    }
    b.tree.lemma_can_grow(poly_cells(cand), (c.x as int, c.y as int));
    if b.check_cover1_spec() && b.covered_once_after(c.x as int, c.y as int) {
        let (a, bb) = choose|a: int, bb: int| 0 <= a < b.side() && 0 <= bb < b.side() && #[trigger] b.holds_copy_after(c.x as int, c.y as int, a, bb);
        assert forall|u: int, v: int| #[trigger] problem.cell(u, v) implies cand.cell(a + u, bb + v) by {
            assert(b.cell(a + u, bb + v) != (a + u == c.x && bb + v == c.y));
        }
        assert(holds_problem_at(problem, cand, a, bb));
    }
}

/// Different cells of a box have different images.
proof fn lemma_image_injective(g: D4, h: int, w: int, a: int, b: int, c: int, d: int)
    requires
        cell_image(g, h, w, a, b) == cell_image(g, h, w, c, d),
    ensures
        a == c && b == d,
{
}

impl Board {
    /// After the flip of `(x, y)` the one-copy queries `c1` see a whole copy of the problem
    /// exactly when the candidate with `(x, y)` flipped holds one.
    proof fn lemma_cover1_after(self, c1: Cover1Queries, x: int, y: int)
        requires
            self.wf(),
            c1.cells() == self.cover1_queries.cells(),
            c1.side_spec() == self.cover1_queries.side_spec(),
            forall|a: int, b: int| c1.board_cells().contains((a, b)) <==> (self.cell(a, b) != (a == x && b == y)),
        ensures
            (exists|v: Vector<i32>| #[trigger] c1.is_cover1(v)) <==> self.covered_once_after(x, y),
    {
        let cells = c1.cells();
        if exists|v: Vector<i32>| #[trigger] c1.is_cover1(v) {
            let v = choose|v: Vector<i32>| #[trigger] c1.is_cover1(v);
            let (a, b) = (-v.x, -v.y);
            assert forall|u: int, t: int| #[trigger] self.problem_spec().cell(u, t) implies (self.cell(a + u, b + t) != (a + u == x && b + t == y)) by {
                let e = Vector { x: u as i32, y: t as i32 };
                assert(cells.contains(e));
                let i = choose|i: int| 0 <= i < cells.len() && cells[i] == e;
                assert(c1.board_cells().contains((a + cells[i].x, b + cells[i].y)));
            }
            assert(self.holds_copy_after(x, y, a, b));
        }
        if self.covered_once_after(x, y) {
            let (a, b) = choose|a: int, b: int| 0 <= a < self.side() && 0 <= b < self.side() && #[trigger] self.holds_copy_after(x, y, a, b);
            let v = Vector { x: -a as i32, y: -b as i32 };
            assert forall|i: int| 0 <= i < cells.len() implies c1.board_cells().contains((a + (#[trigger] cells[i]).x, b + cells[i].y)) by {
                assert(self.problem_spec().cell(cells[i].x as int, cells[i].y as int));
            }
            assert(c1.is_cover1(v));
        }
    }

    /// The box is at least one cell on each side and less than 512.
    pub proof fn lemma_dims(self)
        requires
            self.wf(),
        ensures
            1 <= self.h() < 512,
            1 <= self.w() < 512,
    {
    }

    /// Outside the box no cell is, and none can be added.
    pub proof fn lemma_outside(self, x: int, y: int)
        requires
            self.wf(),
            !(0 <= x < self.h() && 0 <= y < self.w()),
        ensures
            !self.cell(x, y),
            !self.tree_spec().can_set_spec(x, y),
    {
        self.tree.lemma_wf();
    }

    /// The cells of a board are a tree without full 2x2 squares or cells that meet at a
    /// corner alone.
    pub proof fn lemma_board_is_tree(self)
        requires
            self.wf(),
        ensures
            self.tree_spec().wf(),
            self.tree_spec().tree_shape(),
            self.tree_spec().is_tree(),
    {
    }

    /// A leaf added to a board that holds no whole copy of the problem can be taken back:
    /// on the board after the flip, the flip of the same cell is accepted again, and by
    /// `try_flip` it gives back the cells of the first board.
    pub proof fn lemma_flip_undo(b0: Board, b1: Board, x: int, y: int)
        requires
            b0.wf(),
            b1.wf(),
            !b0.cell(x, y),
            b0.can_flip_spec(x, y),
            b0.tree_spec().count() >= 1,
            !b0.holds_copy(),
            b1.problem_spec() == b0.problem_spec(),
            b1.check_cover1_spec() == b0.check_cover1_spec(),
            b1.h() == b0.h(),
            b1.w() == b0.w(),
            forall|a: int, b: int| #[trigger] b1.cell(a, b) == (b0.cell(a, b) != (a == x && b == y)),
        ensures
            b1.can_flip_spec(x, y),
    {
        let f = b0.tree_spec().poly_spec().cells_fn();
        let g = b1.tree_spec().poly_spec().cells_fn();
        assert forall|a: int, b: int| (a != x || b != y) implies #[trigger] f(a, b) == g(a, b) by {
            assert(b1.cell(a, b) == b0.cell(a, b));
        }
        assert(g(x, y) == !f(x, y)) by {
            assert(b1.cell(x, y));
        }
        crate::data::bit_poly::lemma_total_toggle(f, g, b0.h(), b0.w(), x, y);
        assert(b1.tree_spec().nbr_count(x, y) == b0.tree_spec().nbr_count(x, y)) by {
            assert forall|d: int| 0 <= d < 4 implies #[trigger] b1.tree_spec().nbr(x, y, d) == b0.tree_spec().nbr(x, y, d) by {
                assert(b1.cell(x + crate::data::tree_poly::dir_x(d), y + crate::data::tree_poly::dir_y(d)) == b0.cell(
                    x + crate::data::tree_poly::dir_x(d),
                    y + crate::data::tree_poly::dir_y(d),
                ));
            }
        }
        if b1.check_cover1_spec() && b1.covered_once_after(x, y) {
            let (a, b) = choose|a: int, b: int| 0 <= a < b1.side() && 0 <= b < b1.side() && #[trigger] b1.holds_copy_after(x, y, a, b);
            assert forall|u: int, v: int| #[trigger] b0.problem_spec().cell(u, v) implies b0.cell(a + u, b + v) by {
                assert(b1.cell(a + u, b + v) != (a + u == x && b + v == y));
            }
            assert(b0.holds_copy_at(a, b));
        }
    }

    /// After the zip at `(x, y)` (lone gap `k`) the one-copy queries `c1` see a whole copy
    /// of the problem exactly when the zipped candidate holds one.
    proof fn lemma_cover1_after_zip(self, c1: Cover1Queries, x: int, y: int, k: int)
        requires
            self.wf(),
            c1.cells() == self.cover1_queries.cells(),
            c1.side_spec() == self.cover1_queries.side_spec(),
            forall|a: int, b: int| c1.board_cells().contains((a, b)) <==> (self.cell(a, b) != Self::zipped(x, y, k, a, b)),
        ensures
            (exists|v: Vector<i32>| #[trigger] c1.is_cover1(v)) <==> self.covered_after_zip(x, y, k),
    {
        let cells = c1.cells();
        if exists|v: Vector<i32>| #[trigger] c1.is_cover1(v) {
            let v = choose|v: Vector<i32>| #[trigger] c1.is_cover1(v);
            let (a, b) = (-v.x, -v.y);
            assert forall|u: int, t: int| #[trigger] self.problem_spec().cell(u, t) implies (self.cell(a + u, b + t) != Self::zipped(x, y, k, a + u, b + t)) by {
                let e = Vector { x: u as i32, y: t as i32 };
                assert(cells.contains(e));
                let i = choose|i: int| 0 <= i < cells.len() && cells[i] == e;
                assert(c1.board_cells().contains((a + cells[i].x, b + cells[i].y)));
            }
            assert(self.holds_copy_after_zip(x, y, k, a, b));
        }
        if self.covered_after_zip(x, y, k) {
            let (a, b) = choose|a: int, b: int| 0 <= a < self.side() && 0 <= b < self.side() && #[trigger] self.holds_copy_after_zip(x, y, k, a, b);
            let v = Vector { x: -a as i32, y: -b as i32 };
            assert forall|i: int| 0 <= i < cells.len() implies c1.board_cells().contains((a + (#[trigger] cells[i]).x, b + cells[i].y)) by {
                assert(self.problem_spec().cell(cells[i].x as int, cells[i].y as int));
            }
            assert(c1.is_cover1(v));
        }
    }

    /// Toggles the square `p` in the one-copy queries.
    fn flip_cover1_at(&mut self, p: Vector<i32>)
        requires
            old(self).cover1_queries.wf(),
            old(self).problem.is_cell_list(old(self).cover1_queries.cells()),
            old(self).cover1_queries.side_spec() == side_of(old(self).tree.h() as int, old(self).tree.w() as int),
            side_of(old(self).tree.h() as int, old(self).tree.w() as int) < 512,
            0 <= p.x < old(self).tree.h(),
            0 <= p.y < old(self).tree.w(),
        ensures
            final(self).tree == old(self).tree,
            final(self).cover2_queries == old(self).cover2_queries,
            final(self).problem == old(self).problem,
            final(self).d4s == old(self).d4s,
            final(self).base_movements == old(self).base_movements,
            final(self).check_cover1 == old(self).check_cover1,
            final(self).cover1_queries.wf(),
            final(self).cover1_queries.cells() == old(self).cover1_queries.cells(),
            final(self).cover1_queries.side_spec() == old(self).cover1_queries.side_spec(),
            forall|x: int, y: int| #[trigger] final(self).cover1_queries.board_cells().contains((x, y)) == (old(self).cover1_queries.board_cells().contains(
                (x, y),
            ) != (x == p.x && y == p.y)),
    {
        proof {
            assert forall|i: int| 0 <= i < self.cover1_queries.cells().len() && (#[trigger] self.cover1_queries.cells()[i]).x <= p.x
                && self.cover1_queries.cells()[i].y <= p.y implies p.x - self.cover1_queries.cells()[i].x < self.cover1_queries.side_spec()
                && p.y - self.cover1_queries.cells()[i].y < self.cover1_queries.side_spec() by {
                let c = self.cover1_queries.cells()[i];
                assert(self.problem.cell(c.x as int, c.y as int));
            }
        }
        self.cover1_queries.flip(p);
    }

    /// A board whose one-copy queries see the same cells again, all else unchanged, is the
    /// same board.
    proof fn lemma_same_cells1(self, b: Board)
        requires
            self.wf(),
            b.tree == self.tree,
            b.cover2_queries == self.cover2_queries,
            b.problem == self.problem,
            b.d4s == self.d4s,
            b.base_movements == self.base_movements,
            b.check_cover1 == self.check_cover1,
            b.cover1_queries.wf(),
            b.cover1_queries.cells() == self.cover1_queries.cells(),
            b.cover1_queries.side_spec() == self.cover1_queries.side_spec(),
            forall|x: int, y: int| #[trigger] b.cover1_queries.board_cells().contains((x, y)) == self.cover1_queries.board_cells().contains((x, y)),
        ensures
            b.wf(),
            b.tree_spec() == self.tree_spec(),
    {
        assert forall|c: (int, int)| b.cover1_queries.board_cells().contains(c) == self.cover1_queries.board_cells().contains(c) by {
            assert(b.cover1_queries.board_cells().contains((c.0, c.1)) == self.cover1_queries.board_cells().contains((c.0, c.1)));
        }
        assert(b.cover1_queries.board_cells() =~= self.cover1_queries.board_cells());
    }

    /// A board whose tree holds the same cells again, all else unchanged, keeps its
    /// invariant.
    proof fn lemma_tree_refreshed(b0: Board, b2: Board)
        requires
            b0.wf(),
            b2.tree.wf(),
            b2.tree.h() == b0.tree.h(),
            b2.tree.w() == b0.tree.w(),
            forall|p: int, q: int| #[trigger] b2.tree.cell(p, q) == b0.tree.cell(p, q),
            b2.problem == b0.problem,
            b2.d4s == b0.d4s,
            b2.base_movements == b0.base_movements,
            b2.check_cover1 == b0.check_cover1,
            b2.cover2_queries == b0.cover2_queries,
            b2.cover1_queries == b0.cover1_queries,
        ensures
            b2.wf(),
    {
        assert forall|a: int, b: int| b2.cover1_queries.board_cells().contains((a, b)) <==> #[trigger] b2.tree.cell(a, b) by {
            assert(b0.cover1_queries.board_cells().contains((a, b)) == b0.tree.cell(a, b));
        }
        assert forall|i: int, x: int, y: int| 0 <= i < b0.d4s@.len() implies in_image(b2.tree, b0.d4s@[i], x, y) == in_image(b0.tree, b0.d4s@[i], x, y) by {
            let none = |p: int, q: int| false;
            Self::lemma_images_follow(b0.tree, b2.tree, b0.d4s@[i], in_image(b0.tree, b0.d4s@[i], x, y), in_image(b0.tree, b0.d4s@[i], x, y), x, y, none);
        }
        assert forall|i: int, x: int, y: int| 0 <= i < b2.d4s@.len() implies (#[trigger] b2.cover2_queries.in_a(i, x, y) <==> b2.moved_cell(i, x, y)) by {
            assert(b0.cover2_queries.in_a(i, x, y) <==> b0.moved_cell(i, x, y));
        }
        assert forall|i: int, x: int, y: int| 0 <= i < b2.d4s@.len() implies (#[trigger] b2.cover2_queries.in_b(i, x, y) <==> b2.moved_cell(i, x, y)) by {
            assert(b0.cover2_queries.in_b(i, x, y) <==> b0.moved_cell(i, x, y));
        }
        b0.tree.lemma_wf();
        assert(b2.tree.tree_shape()) by {
            assert forall|a: int, b: int| !b2.tree.diagonal_only(a, b) && !b2.tree.full_block(a, b) by {
                assert(!b0.tree.diagonal_only(a, b) && !b0.tree.full_block(a, b));
            }
        }
        assert(b2.tree.count() == b0.tree.count() && b2.tree.pairs() == b0.tree.pairs()) by {
            assert forall|x: int, y: int| #[trigger] b2.tree.poly_spec().cells_fn()(x, y) == b0.tree.poly_spec().cells_fn()(x, y) by {
                assert(b2.tree.cell(x, y) == b0.tree.cell(x, y));
            }
            assert(b2.tree.poly_spec().cells_fn() =~= b0.tree.poly_spec().cells_fn());
        }
    }

    /// Whether a zip at `v` is possible: it is made and undone, which gives back the same
    /// cells.
    pub fn can_zip(&mut self, v: Vector<i32>) -> (r: bool)
        requires
            old(self).wf(),
            -0x4000_0000 < v.x < 0x4000_0000,
            -0x4000_0000 < v.y < 0x4000_0000,
        ensures
            final(self).wf(),
            r == old(self).tree_spec().can_zip_spec(v.x as int, v.y as int),
            forall|p: int, q: int| #[trigger] final(self).cell(p, q) == old(self).cell(p, q),
            final(self).problem_spec() == old(self).problem_spec(),
            final(self).d4s_spec() == old(self).d4s_spec(),
            final(self).check_cover1_spec() == old(self).check_cover1_spec(),
            final(self).h() == old(self).h(),
            final(self).w() == old(self).w(),
    {
        let ghost b0 = *self;
        proof {
            b0.tree.lemma_wf();
        }
        let ab = match self.tree.try_zip(v) {
            Ok(ab) => ab,
            Err(_) => {
                return false;
            },
        };
        let ghost k = choose|k: int|
            #[trigger] b0.tree.lone_gap(v.x as int, v.y as int, k) && ab.0.x == v.x + dir_x((k + 2) % 4) + dir_x((k + 1) % 4) && ab.0.y == v.y
                + dir_y((k + 2) % 4) + dir_y((k + 1) % 4) && ab.1.x == v.x + dir_x((k + 2) % 4) + dir_x((k + 3) % 4) && ab.1.y == v.y + dir_y(
                (k + 2) % 4,
            ) + dir_y((k + 3) % 4);
        let ghost t1 = self.tree;
        proof {
            let k2 = choose|k2: int|
                #[trigger] b0.tree.lone_gap(v.x as int, v.y as int, k2) && b0.tree.zip_side_ok(v.x as int, v.y as int, k2, (k2 + 1) % 4)
                    && b0.tree.zip_side_ok(v.x as int, v.y as int, k2, (k2 + 3) % 4);
            if k2 != k {
                assert(b0.tree.nbr(v.x as int, v.y as int, k2));
            }
            b0.tree.lemma_zip_twice(t1, v.x as int, v.y as int, k);
        }
        let again = self.tree.try_zip(v);
        proof {
            assert(again is Ok);
            let ab2 = again->Ok_0;
            let k2 = choose|k2: int|
                #[trigger] t1.lone_gap(v.x as int, v.y as int, k2) && ab2.0.x == v.x + dir_x((k2 + 2) % 4) + dir_x((k2 + 1) % 4) && ab2.0.y == v.y
                    + dir_y((k2 + 2) % 4) + dir_y((k2 + 1) % 4) && ab2.1.x == v.x + dir_x((k2 + 2) % 4) + dir_x((k2 + 3) % 4) && ab2.1.y == v.y
                    + dir_y((k2 + 2) % 4) + dir_y((k2 + 3) % 4);
            b0.tree.lemma_zip_restores(t1, self.tree, v.x as int, v.y as int, k, k2);
            Self::lemma_tree_refreshed(b0, *self);
        }
        true
    }

    /// Zipping again at the same square after a refused zip gives back the first board.
    proof fn lemma_unzip(b0: Board, b2: Board, t1: TreePoly, v: Vector<i32>, k: int, again: Result<(Vector<i32>, Vector<i32>), TreeError>)
        requires
            b0.wf(),
            b0.tree.lone_gap(v.x as int, v.y as int, k),
            b0.tree.zip_side_ok(v.x as int, v.y as int, k, (k + 1) % 4),
            b0.tree.zip_side_ok(v.x as int, v.y as int, k, (k + 3) % 4),
            t1.can_zip_spec(v.x as int, v.y as int),
            forall|p: int, q: int| #[trigger] t1.cell(p, q) == (b0.tree.cell(p, q) != Self::zipped(v.x as int, v.y as int, k, p, q)),
            t1.h() == b0.tree.h(),
            t1.w() == b0.tree.w(),
            again is Ok <==> t1.can_zip_spec(v.x as int, v.y as int),
            again matches Ok(ab) ==> exists|k2: int|
                #[trigger] t1.lone_gap(v.x as int, v.y as int, k2) && ab.0.x == v.x + dir_x((k2 + 2) % 4) + dir_x((k2 + 1) % 4) && ab.0.y == v.y + dir_y(
                    (k2 + 2) % 4,
                ) + dir_y((k2 + 1) % 4) && ab.1.x == v.x + dir_x((k2 + 2) % 4) + dir_x((k2 + 3) % 4) && ab.1.y == v.y + dir_y((k2 + 2) % 4)
                    + dir_y((k2 + 3) % 4),
            again is Ok ==> b2.tree.h() == t1.h() && b2.tree.w() == t1.w(),
            again matches Ok(ab) ==> forall|p: int, q: int|
                #[trigger] b2.tree.cell(p, q) == (t1.cell(p, q) != ((p == v.x && q == v.y) || (p == ab.0.x && q == ab.0.y) || (p == ab.1.x && q
                    == ab.1.y))),
            b2.tree.wf(),
            b2.problem == b0.problem,
            b2.d4s == b0.d4s,
            b2.base_movements == b0.base_movements,
            b2.check_cover1 == b0.check_cover1,
            b2.cover2_queries == b0.cover2_queries,
            b2.cover1_queries.wf(),
            b2.cover1_queries.cells() == b0.cover1_queries.cells(),
            b2.cover1_queries.side_spec() == b0.cover1_queries.side_spec(),
            forall|x: int, y: int| #[trigger] b2.cover1_queries.board_cells().contains((x, y)) == b0.cover1_queries.board_cells().contains((x, y)),
        ensures
            b2.wf(),
            forall|p: int, q: int| #[trigger] b2.cell(p, q) == b0.cell(p, q),
    {
        assert(again is Ok);
        let ab = again->Ok_0;
        let k2 = choose|k2: int|
            #[trigger] t1.lone_gap(v.x as int, v.y as int, k2) && ab.0.x == v.x + dir_x((k2 + 2) % 4) + dir_x((k2 + 1) % 4) && ab.0.y == v.y + dir_y(
                (k2 + 2) % 4,
            ) + dir_y((k2 + 1) % 4) && ab.1.x == v.x + dir_x((k2 + 2) % 4) + dir_x((k2 + 3) % 4) && ab.1.y == v.y + dir_y((k2 + 2) % 4)
                + dir_y((k2 + 3) % 4);
        assert(t1.lone_gap(v.x as int, v.y as int, k)) by {
            b0.tree.lemma_zip_twice(t1, v.x as int, v.y as int, k);
        }
        if k2 != k {
            assert(t1.nbr(v.x as int, v.y as int, k2));
        }
        assert forall|p: int, q: int| #[trigger] b2.tree.cell(p, q) == b0.tree.cell(p, q) by {
            assert(t1.cell(p, q) == (b0.tree.cell(p, q) != Self::zipped(v.x as int, v.y as int, k, p, q)));
        }
        assert forall|c: (int, int)| b2.cover1_queries.board_cells().contains(c) == b0.cover1_queries.board_cells().contains(c) by {
            assert(b2.cover1_queries.board_cells().contains((c.0, c.1)) == b0.cover1_queries.board_cells().contains((c.0, c.1)));
        }
        assert(b2.cover1_queries.board_cells() =~= b0.cover1_queries.board_cells());
        assert forall|a: int, b: int| b2.cover1_queries.board_cells().contains((a, b)) <==> #[trigger] b2.tree.cell(a, b) by {
            assert(b0.cover1_queries.board_cells().contains((a, b)) == b0.tree.cell(a, b));
        }
        assert forall|i: int, x: int, y: int| 0 <= i < b0.d4s@.len() implies in_image(b2.tree, b0.d4s@[i], x, y) == in_image(b0.tree, b0.d4s@[i], x, y) by {
            let none = |p: int, q: int| false;
            Self::lemma_images_follow(b0.tree, b2.tree, b0.d4s@[i], in_image(b0.tree, b0.d4s@[i], x, y), in_image(b0.tree, b0.d4s@[i], x, y), x, y, none);
        }
        assert forall|i: int, x: int, y: int| 0 <= i < b2.d4s@.len() implies (#[trigger] b2.cover2_queries.in_a(i, x, y) <==> b2.moved_cell(i, x, y)) by {
            assert(b0.cover2_queries.in_a(i, x, y) <==> b0.moved_cell(i, x, y));
        }
        assert forall|i: int, x: int, y: int| 0 <= i < b2.d4s@.len() implies (#[trigger] b2.cover2_queries.in_b(i, x, y) <==> b2.moved_cell(i, x, y)) by {
            assert(b0.cover2_queries.in_b(i, x, y) <==> b0.moved_cell(i, x, y));
        }
        b0.tree.lemma_wf();
        assert(b2.tree.tree_shape()) by {
            assert forall|a: int, b: int| !b2.tree.diagonal_only(a, b) && !b2.tree.full_block(a, b) by {
                assert(!b0.tree.diagonal_only(a, b) && !b0.tree.full_block(a, b));
            }
        }
        assert(b2.tree.count() == b0.tree.count() && b2.tree.pairs() == b0.tree.pairs()) by {
            assert forall|x: int, y: int| #[trigger] b2.tree.poly_spec().cells_fn()(x, y) == b0.tree.poly_spec().cells_fn()(x, y) by {
                assert(b2.tree.cell(x, y) == b0.tree.cell(x, y));
            }
            assert(b2.tree.poly_spec().cells_fn() =~= b0.tree.poly_spec().cells_fn());
        }
    }

    /// Toggles the images of the square `p` in the two-copy queries.
    fn flip_cover2_at(&mut self, p: Vector<i32>)
        requires
            old(self).tree.wf(),
            1 <= old(self).tree.h(),
            1 <= old(self).tree.w(),
            side_of(old(self).tree.h() as int, old(self).tree.w() as int) < 512,
            old(self).cover2_queries.wf(),
            old(self).cover2_queries.n() == old(self).d4s@.len(),
            old(self).base_movements@.len() == old(self).d4s@.len(),
            old(self).cover2_queries.hh() == side_of(old(self).tree.h() as int, old(self).tree.w() as int),
            old(self).cover2_queries.ww() == side_of(old(self).tree.h() as int, old(self).tree.w() as int),
            forall|i: int| 0 <= i < old(self).d4s@.len() ==> (#[trigger] old(self).base_movements@[i]).r == old(self).d4s@[i] && (
            old(self).base_movements@[i].d.x as int, old(self).base_movements@[i].d.y as int) == cell_image(
                old(self).d4s@[i],
                old(self).tree.h() as int,
                old(self).tree.w() as int,
                0,
                0,
            ),
            0 <= p.x < old(self).tree.h(),
            0 <= p.y < old(self).tree.w(),
        ensures
            final(self).tree == old(self).tree,
            final(self).cover1_queries == old(self).cover1_queries,
            final(self).problem == old(self).problem,
            final(self).d4s == old(self).d4s,
            final(self).base_movements == old(self).base_movements,
            final(self).check_cover1 == old(self).check_cover1,
            final(self).cover2_queries.wf(),
            final(self).cover2_queries.n() == old(self).cover2_queries.n(),
            final(self).cover2_queries.hh() == old(self).cover2_queries.hh(),
            final(self).cover2_queries.ww() == old(self).cover2_queries.ww(),
            final(self).cover2_queries.cells() == old(self).cover2_queries.cells(),
            forall|k: int, a: int, b: int| 0 <= k < old(self).d4s@.len() ==> #[trigger] final(self).cover2_queries.in_a(k, a, b) == (old(
                self,
            ).cover2_queries.in_a(k, a, b) != ((a, b) == cell_image(old(self).d4s@[k], old(self).tree.h() as int, old(self).tree.w() as int, p.x as int, p.y as int))),
            forall|k: int, a: int, b: int| 0 <= k < old(self).d4s@.len() ==> #[trigger] final(self).cover2_queries.in_b(k, a, b) == (old(
                self,
            ).cover2_queries.in_b(k, a, b) != ((a, b) == cell_image(old(self).d4s@[k], old(self).tree.h() as int, old(self).tree.w() as int, p.x as int, p.y as int))),
    {
        let ghost b0 = *self;
        let n = self.base_movements.len();
        let mut i: usize = 0;
        while i < n
            invariant
                i <= n,
                n == b0.base_movements@.len(),
                n == b0.d4s@.len(),
                n == b0.cover2_queries.n(),
                b0.tree.wf(),
                1 <= b0.tree.h(),
                1 <= b0.tree.w(),
                side_of(b0.tree.h() as int, b0.tree.w() as int) < 512,
                b0.cover2_queries.hh() == side_of(b0.tree.h() as int, b0.tree.w() as int),
                b0.cover2_queries.ww() == side_of(b0.tree.h() as int, b0.tree.w() as int),
                forall|i: int| 0 <= i < b0.d4s@.len() ==> (#[trigger] b0.base_movements@[i]).r == b0.d4s@[i] && (
                b0.base_movements@[i].d.x as int, b0.base_movements@[i].d.y as int) == cell_image(b0.d4s@[i], b0.tree.h() as int, b0.tree.w() as int, 0, 0),
                0 <= p.x < b0.tree.h(),
                0 <= p.y < b0.tree.w(),
                self.tree == b0.tree,
                self.cover1_queries == b0.cover1_queries,
                self.problem == b0.problem,
                self.d4s == b0.d4s,
                self.base_movements == b0.base_movements,
                self.check_cover1 == b0.check_cover1,
                self.cover2_queries.wf(),
                self.cover2_queries.n() == b0.cover2_queries.n(),
                self.cover2_queries.hh() == b0.cover2_queries.hh(),
                self.cover2_queries.ww() == b0.cover2_queries.ww(),
                self.cover2_queries.cells() == b0.cover2_queries.cells(),
                forall|k: int, a: int, b: int| 0 <= k < n ==> #[trigger] self.cover2_queries.in_a(k, a, b) == (b0.cover2_queries.in_a(k, a, b) != (k < i
                    && (a, b) == cell_image(b0.d4s@[k], b0.tree.h() as int, b0.tree.w() as int, p.x as int, p.y as int))),
                forall|k: int, a: int, b: int| 0 <= k < n ==> #[trigger] self.cover2_queries.in_b(k, a, b) == (b0.cover2_queries.in_b(k, a, b) != (k < i
                    && (a, b) == cell_image(b0.d4s@[k], b0.tree.h() as int, b0.tree.w() as int, p.x as int, p.y as int))),
            decreases n - i,
        {
            let m = self.base_movements[i];
            proof {
                let g = b0.d4s@[i as int];
                assert(m == b0.base_movements@[i as int]);
                lemma_base_motion(g, b0.tree.h() as int, b0.tree.w() as int, p.x as int, p.y as int);
            }
            let q = m.apply(&p);
            self.cover2_queries.flip(i, q);
            i += 1;
        }
    }

    /// The images under the symmetries follow the cells: where the cells of `t1` are those
    /// of `t0` toggled on a set `s`, with the two-copy sets toggled on the images of `s`.
    proof fn lemma_images_follow(
        t0: TreePoly,
        t1: TreePoly,
        g: D4,
        in0: bool,
        in1: bool,
        x: int,
        y: int,
        s: spec_fn(int, int) -> bool,
    )
        requires
            t1.h() == t0.h(),
            t1.w() == t0.w(),
            forall|a: int, b: int| #[trigger] t1.cell(a, b) == (t0.cell(a, b) != s(a, b)),
            in0 == in_image(t0, g, x, y),
            in1 == (in0 != exists|a: int, b: int| #[trigger] s(a, b) && cell_image(g, t0.h() as int, t0.w() as int, a, b) == (x, y)),
        ensures
            in1 == in_image(t1, g, x, y),
    {
        let h = t0.h() as int;
        let w = t0.w() as int;
        if exists|a: int, b: int| #[trigger] s(a, b) && cell_image(g, h, w, a, b) == (x, y) {
            let (a, b) = choose|a: int, b: int| #[trigger] s(a, b) && cell_image(g, h, w, a, b) == (x, y);
            let wp = (a, b);
            if in_image(t1, g, x, y) {
                let q = choose|q: (int, int)| #[trigger] t1.cell(q.0, q.1) && cell_image(g, h, w, q.0, q.1) == (x, y);
                lemma_image_injective(g, h, w, q.0, q.1, a, b);
            }
            if t1.cell(wp.0, wp.1) {
                assert(in_image(t1, g, x, y));
            }
            if in_image(t0, g, x, y) {
                let q = choose|q: (int, int)| #[trigger] t0.cell(q.0, q.1) && cell_image(g, h, w, q.0, q.1) == (x, y);
                lemma_image_injective(g, h, w, q.0, q.1, a, b);
            }
            if t0.cell(wp.0, wp.1) {
                assert(in_image(t0, g, x, y));
            }
        } else {
            if in_image(t1, g, x, y) {
                let q = choose|q: (int, int)| #[trigger] t1.cell(q.0, q.1) && cell_image(g, h, w, q.0, q.1) == (x, y);
                assert(!s(q.0, q.1));
                assert(t0.cell(q.0, q.1));
            }
            if in_image(t0, g, x, y) {
                let q = choose|q: (int, int)| #[trigger] t0.cell(q.0, q.1) && cell_image(g, h, w, q.0, q.1) == (x, y);
                assert(!s(q.0, q.1));
                assert(t1.cell(q.0, q.1));
            }
        }
    }

    /// The covers that the two-copy queries list are those of the candidate's images.
    proof fn lemma_cover2_same(self, i: int, j: int, da: Vector<i32>, db: Vector<i32>)
        requires
            self.wf(),
            0 <= j <= i < self.d4s_spec().len(),
        ensures
            self.cover2_queries.is_cover2(i, j, da, db) == self.is_cover2(i, j, da, db),
    {
        let c = self.cover2_queries;
        assert forall|k: int| 0 <= k < self.cells2().len() implies #[trigger] c.covers_a(i, da, k) == self.covers(i, da, k) && c.covers_b(j, db, k)
            == self.covers(j, db, k) && c.covers_a(j, db, k) == self.covers(j, db, k) by {
            assert(c.in_a(i, self.cells2()[k].x - da.x, self.cells2()[k].y - da.y) == self.moved_cell(i, self.cells2()[k].x - da.x, self.cells2()[k].y - da.y));
            assert(c.in_b(j, self.cells2()[k].x - db.x, self.cells2()[k].y - db.y) == self.moved_cell(j, self.cells2()[k].x - db.x, self.cells2()[k].y - db.y));
        }
        if c.is_cover2(i, j, da, db) {
            let k1 = choose|k: int| 0 <= k < c.cells().len() && #[trigger] c.covers_a(i, da, k);
            assert(self.covers(i, da, k1));
            let k2 = choose|k: int| 0 <= k < c.cells().len() && #[trigger] c.covers_b(j, db, k);
            assert(self.covers(j, db, k2));
            assert forall|k: int| 0 <= k < self.cells2().len() implies #[trigger] self.covers(i, da, k) != self.covers(j, db, k) by {
                assert(c.covers_a(i, da, k) != c.covers_b(j, db, k));
            }
            assert forall|x: int, y: int| #[trigger] self.moved_cell(i, x, y) implies !self.moved_cell(j, x + da.x - db.x, y + da.y - db.y) by {
                assert(c.in_a(i, x, y));
                assert(!c.in_b(j, x + da.x - db.x, y + da.y - db.y));
            }
            if i == j {
                assert(c.covers_a(i, da, 0));
            }
        }
        if self.is_cover2(i, j, da, db) {
            let k1 = choose|k: int| 0 <= k < self.cells2().len() && #[trigger] self.covers(i, da, k);
            assert(c.covers_a(i, da, k1));
            let k2 = choose|k: int| 0 <= k < self.cells2().len() && #[trigger] self.covers(j, db, k);
            assert(c.covers_b(j, db, k2));
            assert forall|k: int| 0 <= k < c.cells().len() implies #[trigger] c.covers_a(i, da, k) != c.covers_b(j, db, k) by {
                assert(self.covers(i, da, k) != self.covers(j, db, k));
            }
            assert forall|x: int, y: int| #[trigger] c.in_a(i, x, y) implies !c.in_b(j, x + da.x - db.x, y + da.y - db.y) by {
                assert(self.moved_cell(i, x, y));
                assert(!self.moved_cell(j, x + da.x - db.x, y + da.y - db.y));
            }
            if i == j {
                assert(self.covers(i, da, 0));
            }
        }
    }

    /// The moves of a cover are small: the image holds a cell of the problem, whose
    /// coordinates and those of the image are below 512.
    proof fn lemma_cover2_small(self, i: int, j: int, da: Vector<i32>, db: Vector<i32>)
        requires
            self.wf(),
            0 <= j <= i < self.d4s_spec().len(),
            self.is_cover2(i, j, da, db),
        ensures
            -512 < da.x < 1024 && -512 < da.y < 1024,
            -512 < db.x < 1024 && -512 < db.y < 1024,
    {
        self.tree.lemma_wf();
        let cs = self.cells2();
        let k1 = choose|k: int| 0 <= k < cs.len() && #[trigger] self.covers(i, da, k);
        let p1 = choose|p: (int, int)| #[trigger] self.tree.cell(p.0, p.1) && cell_image(self.d4s@[i], self.tree.h() as int, self.tree.w() as int, p.0, p.1)
            == (cs[k1].x - da.x, cs[k1].y - da.y);
        assert(self.problem.cell(cs[k1].x as int, cs[k1].y as int));
        let k2 = choose|k: int| 0 <= k < cs.len() && #[trigger] self.covers(j, db, k);
        let p2 = choose|p: (int, int)| #[trigger] self.tree.cell(p.0, p.1) && cell_image(self.d4s@[j], self.tree.h() as int, self.tree.w() as int, p.0, p.1)
            == (cs[k2].x - db.x, cs[k2].y - db.y);
        assert(self.problem.cell(cs[k2].x as int, cs[k2].y as int));
    }

    /// The pairs of motions with which two images of the candidate cover the problem: for
    /// each pair of symmetries `j <= i`, each pair of moves.
    pub fn coverings2(&self) -> (r: Vec<(E2, E2)>)
        requires
            self.wf(),
        ensures
            forall|e: (E2, E2)| r@.contains(e) <==> self.found(e, self.d4s_spec().len() as int, 0),
    {
        let n = self.base_movements.len();
        let mut out: Vec<(E2, E2)> = Vec::new();
        let mut i: usize = 0;
        while i < n
            invariant
                self.wf(),
                n == self.d4s@.len(),
                i <= n,
                forall|e: (E2, E2)| out@.contains(e) <==> self.found(e, i as int, 0),
            decreases n - i,
        {
            let mut j: usize = 0;
            while j <= i
                invariant
                    self.wf(),
                    n == self.d4s@.len(),
                    i < n,
                    j <= i + 1,
                    forall|e: (E2, E2)| out@.contains(e) <==> self.found(e, i as int, j as int),
                decreases i + 1 - j,
            {
                let cs = self.cover2_queries.coverings2(i, j);
                let bi = self.base_movements[i];
                let bj = self.base_movements[j];
                let mut t: usize = 0;
                while t < cs.len()
                    invariant
                        self.wf(),
                        n == self.d4s@.len(),
                        j <= i < n,
                        t <= cs@.len(),
                        bi == self.base_movements@[i as int],
                        bj == self.base_movements@[j as int],
                        forall|da: Vector<i32>, db: Vector<i32>| #[trigger] cs@.contains((da, db)) <==> self.cover2_queries.is_cover2(
                            i as int,
                            j as int,
                            da,
                            db,
                        ),
                        forall|e: (E2, E2)| out@.contains(e) <==> self.found(e, i as int, j as int) || exists|u: int| 0 <= u < t && e == self.pair_of(
                            i as int,
                            j as int,
                            #[trigger] cs@[u].0,
                            cs@[u].1,
                        ),
                    decreases cs@.len() - t,
                {
                    let (da, db) = cs[t];
                    proof {
                        assert(cs@.contains((da, db)));
                        self.lemma_cover2_same(i as int, j as int, da, db);
                        self.lemma_cover2_small(i as int, j as int, da, db);
                    }
                    let e1 = E2::new(bi.r, Vector::new(da.x + bi.d.x, da.y + bi.d.y));
                    let e2 = E2::new(bj.r, Vector::new(db.x + bj.d.x, db.y + bj.d.y));
                    let ghost old_out = out@;
                    out.push((e1, e2));
                    proof {
                        assert((e1, e2) == self.pair_of(i as int, j as int, cs@[t as int].0, cs@[t as int].1));
                        assert forall|e: (E2, E2)| out@.contains(e) <==> self.found(e, i as int, j as int) || exists|u: int| 0 <= u < t + 1 && e
                            == self.pair_of(i as int, j as int, #[trigger] cs@[u].0, cs@[u].1) by {
                            if out@.contains(e) && e != (e1, e2) {
                                let w = choose|w: int| 0 <= w < out@.len() && out@[w] == e;
                                assert(old_out.contains(e)) by {
                                    assert(old_out[w] == e);
                                }
                            }
                            if e == (e1, e2) {
                                assert(out@[out@.len() - 1] == e);
                            }
                            if exists|u: int| 0 <= u < t + 1 && e == self.pair_of(i as int, j as int, #[trigger] cs@[u].0, cs@[u].1) {
                                let u = choose|u: int| 0 <= u < t + 1 && e == self.pair_of(i as int, j as int, #[trigger] cs@[u].0, cs@[u].1);
                                if u < t {
                                    assert(old_out.contains(e));
                                    let w = choose|w: int| 0 <= w < old_out.len() && old_out[w] == e;
                                    assert(out@[w] == e);
                                } else {
                                    assert(out@[out@.len() - 1] == e);
                                }
                            }
                            if self.found(e, i as int, j as int) {
                                assert(old_out.contains(e));
                                let w = choose|w: int| 0 <= w < old_out.len() && old_out[w] == e;
                                assert(out@[w] == e);
                            }
                        }
                    }
                    t += 1;
                }
                proof {
                    assert forall|e: (E2, E2)| out@.contains(e) <==> self.found(e, i as int, j + 1) by {
                        if self.found(e, i as int, j + 1) {
                            let (i2, j2, da, db) = choose|i2: int, j2: int, da: Vector<i32>, db: Vector<i32>|
                                0 <= j2 <= i2 < self.d4s_spec().len() && (i2 < i || (i2 == i && j2 < j + 1)) && #[trigger] self.is_cover2(i2, j2, da, db)
                                    && e == self.pair_of(i2, j2, da, db);
                            if i2 == i && j2 == j {
                                self.lemma_cover2_same(i as int, j as int, da, db);
                                assert(cs@.contains((da, db)));
                                let u = choose|u: int| 0 <= u < cs@.len() && cs@[u] == (da, db);
                                assert(e == self.pair_of(i as int, j as int, cs@[u].0, cs@[u].1));
                            } else {
                                assert(self.found(e, i as int, j as int));
                            }
                        }
                        if out@.contains(e) {
                            if !self.found(e, i as int, j as int) {
                                let u = choose|u: int| 0 <= u < cs@.len() && e == self.pair_of(i as int, j as int, #[trigger] cs@[u].0, cs@[u].1);
                                let (da, db) = cs@[u];
                                assert(cs@.contains((da, db)));
                                self.lemma_cover2_same(i as int, j as int, da, db);
                                assert(self.is_cover2(i as int, j as int, da, db));
                            } else {
                                let (i2, j2, da, db) = choose|i2: int, j2: int, da: Vector<i32>, db: Vector<i32>|
                                    0 <= j2 <= i2 < self.d4s_spec().len() && (i2 < i || (i2 == i && j2 < j)) && #[trigger] self.is_cover2(i2, j2, da, db)
                                        && e == self.pair_of(i2, j2, da, db);
                                assert(self.is_cover2(i2, j2, da, db));
                            }
                        }
                    }
                }
                j += 1;
            }
            proof {
                assert forall|e: (E2, E2)| #[trigger] self.found(e, i as int, i + 1) <==> self.found(e, i + 1, 0) by {
                    if self.found(e, i as int, i + 1) {
                        let (i2, j2, da, db) = choose|i2: int, j2: int, da: Vector<i32>, db: Vector<i32>|
                            0 <= j2 <= i2 < self.d4s_spec().len() && (i2 < i || (i2 == i && j2 < i + 1)) && #[trigger] self.is_cover2(i2, j2, da, db)
                                && e == self.pair_of(i2, j2, da, db);
                        assert(self.is_cover2(i2, j2, da, db));
                    }
                    if self.found(e, i + 1, 0) {
                        let (i2, j2, da, db) = choose|i2: int, j2: int, da: Vector<i32>, db: Vector<i32>|
                            0 <= j2 <= i2 < self.d4s_spec().len() && (i2 < i + 1 || (i2 == i + 1 && j2 < 0)) && #[trigger] self.is_cover2(i2, j2, da, db)
                                && e == self.pair_of(i2, j2, da, db);
                        assert(self.is_cover2(i2, j2, da, db));
                    }
                }
            }
            i += 1;
        }
        out
    }

    /// A board of the size of `cand` holding its cells: they are flipped in passes, each
    /// pass trying every cell not yet placed, until none is left. Refused when a pass
    /// places none of the cells left; a candidate whose cells form a tree without cells
    /// touching at a corner alone, and that holds no copy of the problem, is always loaded.
    pub fn new_with_initial_cand(problem: TightPoly, cand: &TightPoly) -> (res: Result<Board, BoardError>)
        requires
            problem.wf(),
            problem.h() <= 512,
            1 <= num_cells(problem) <= 31,
            cand.wf(),
            1 <= cand.h(),
            1 <= cand.w(),
            side_of(cand.h() as int, cand.w() as int) < 512,
            problem.h() + side_of(cand.h() as int, cand.w() as int) <= 1000,
            problem.w() + side_of(cand.h() as int, cand.w() as int) <= 1000,
        ensures
            res matches Ok(b) ==> {
                &&& b.wf()
                &&& b.problem_spec() == problem
                &&& b.h() == cand.h()
                &&& b.w() == cand.w()
                &&& b.check_cover1_spec()
                &&& forall|x: int, y: int| #[trigger] b.cell(x, y) == cand.cell(x, y)
            },
            res matches Err(e) ==> e == BoardError::CandidateRefused,
            loadable(problem, *cand) ==> res is Ok,
    {
        let ghost good = loadable(problem, *cand);
        let mut board = match Board::new(problem, cand.height(), cand.width()) {
            Ok(b) => b,
            Err(e) => {
                return Err(e);
            },
        };
        let mut cells = cand.cells();
        proof {
            board.lemma_dims();
            assert forall|x: int, y: int| 0 <= x < cand.h() && 0 <= y < cand.w() implies #[trigger] board.cell(x, y) != cells@.contains(
                Vector { x: x as i32, y: y as i32 },
            ) == cand.cell(x, y) by {
                let e = Vector { x: x as i32, y: y as i32 };
                if cells@.contains(e) {
                    let k = choose|k: int| 0 <= k < cells@.len() && cells@[k] == e;
                    assert(cand.cell(cells@[k].x as int, cells@[k].y as int));
                }
            }
            assert forall|u: int| 0 <= u < cells@.len() implies 0 <= (#[trigger] cells@[u]).x < cand.h() && 0 <= cells@[u].y < cand.w() by {
                assert(cand.cell(cells@[u].x as int, cells@[u].y as int));
            }
            assert forall|v: Vector<i32>| #[trigger] cells@.contains(v) implies 0 <= v.x < cand.h() && 0 <= v.y < cand.w() by {
                let k = choose|k: int| 0 <= k < cells@.len() && cells@[k] == v;
                assert(cand.cell(cells@[k].x as int, cells@[k].y as int));
            }
            assert forall|u: int, v: int| 0 <= u < v < cells@.len() implies #[trigger] cells@[u] != #[trigger] cells@[v] by {}
        }
        while cells.len() > 0
            invariant
                good == loadable(problem, *cand),
                forall|x: int, y: int| 0 <= x < cand.h() && 0 <= y < cand.w() ==> !(#[trigger] board.cell(x, y) && cells@.contains(
                    Vector { x: x as i32, y: y as i32 },
                )),
                board.wf(),
                board.problem_spec() == problem,
                board.h() == cand.h(),
                board.w() == cand.w(),
                board.check_cover1_spec(),
                forall|u: int| 0 <= u < cells@.len() ==> 0 <= (#[trigger] cells@[u]).x < cand.h() && 0 <= cells@[u].y < cand.w(),
                forall|u: int, v: int| 0 <= u < v < cells@.len() ==> #[trigger] cells@[u] != #[trigger] cells@[v],
                forall|x: int, y: int| 0 <= x < cand.h() && 0 <= y < cand.w() ==> #[trigger] board.cell(x, y) != cells@.contains(
                    Vector { x: x as i32, y: y as i32 },
                ) == cand.cell(x, y),
                forall|v: Vector<i32>| #[trigger] cells@.contains(v) ==> 0 <= v.x < cand.h() && 0 <= v.y < cand.w(),
            decreases cells.len(),
        {
            let mut rest: Vec<Vector<i32>> = Vec::new();
            let mut k: usize = 0;
            let ghost s0 = board.tree_spec();
            let ghost mut kc: int = 0;
            proof {
                assert(cells@.subrange(0, cells@.len() as int) =~= cells@);
                if good {
                    assert forall|x: int, y: int| 0 <= x < cand.h() && 0 <= y < cand.w() implies #[trigger] s0.cell(x, y) != cells@.contains(
                        Vector { x: x as i32, y: y as i32 },
                    ) == cand.cell(x, y) && !(s0.cell(x, y) && cells@.contains(Vector { x: x as i32, y: y as i32 })) by {
                        assert(board.cell(x, y) == s0.cell(x, y));
                    }
                    kc = lemma_pass_start(s0, *cand, cells@);
                }
            }
            while k < cells.len()
                invariant
                    good == loadable(problem, *cand),
                    forall|x: int, y: int| 0 <= x < cand.h() && 0 <= y < cand.w() ==> !(#[trigger] board.cell(x, y) && (rest@.contains(
                        Vector { x: x as i32, y: y as i32 },
                    ) || cells@.subrange(k as int, cells@.len() as int).contains(Vector { x: x as i32, y: y as i32 }))),
                    rest@.len() == k ==> board.tree_spec() == s0,
                    good ==> 0 <= kc < cells@.len() && growable_at(s0, *cand, cells@[kc]),
                    good && k > kc ==> rest@.len() < k,
                    board.wf(),
                    board.problem_spec() == problem,
                    board.h() == cand.h(),
                    board.w() == cand.w(),
                    board.check_cover1_spec(),
                    k <= cells@.len(),
                    rest@.len() <= k,
                    forall|u: int| 0 <= u < cells@.len() ==> 0 <= (#[trigger] cells@[u]).x < cand.h() && 0 <= cells@[u].y < cand.w(),
                    forall|u: int, v: int| 0 <= u < v < cells@.len() ==> #[trigger] cells@[u] != #[trigger] cells@[v],
                    forall|u: int| 0 <= u < rest@.len() ==> exists|w: int| 0 <= w < k && #[trigger] cells@[w] == #[trigger] rest@[u],
                    forall|u: int, v: int| 0 <= u < v < rest@.len() ==> #[trigger] rest@[u] != #[trigger] rest@[v],
                    forall|x: int, y: int| 0 <= x < cand.h() && 0 <= y < cand.w() ==> #[trigger] board.cell(x, y) != (rest@.contains(Vector { x: x as i32, y: y as i32 }) || cells@.subrange(
                        k as int,
                        cells@.len() as int,
                    ).contains(Vector { x: x as i32, y: y as i32 })) == cand.cell(x, y),
                decreases cells.len() - k,
            {
                let v = cells[k];
                let ghost b0 = board;
                let ghost r0 = rest@;
                proof {
                    if good && k == kc && rest@.len() == k {
                        lemma_grow_step(board, problem, *cand, v);
                    }
                }
                let res = board.try_flip(v.x as usize, v.y as usize);
                if res.is_err() {
                    rest.push(v);
                }
                proof {
                    assert forall|x: int, y: int| 0 <= x < cand.h() && 0 <= y < cand.w() implies #[trigger] board.cell(x, y) != (rest@.contains(Vector { x: x as i32, y: y as i32 }) || cells@.subrange(
                        k + 1,
                        cells@.len() as int,
                    ).contains(Vector { x: x as i32, y: y as i32 })) == cand.cell(x, y) by {
                        let e = Vector { x: x as i32, y: y as i32 };
                        let tail0 = cells@.subrange(k as int, cells@.len() as int);
                        let tail1 = cells@.subrange(k + 1, cells@.len() as int);
                        assert(b0.cell(x, y) != (r0.contains(e) || tail0.contains(e)) == cand.cell(x, y));
                        assert(tail0[0] == v);
                        assert(tail1.contains(e) ==> tail0.contains(e)) by {
                            if tail1.contains(e) {
                                let w = choose|w: int| 0 <= w < tail1.len() && tail1[w] == e;
                                assert(tail0[w + 1] == e);
                            }
                        }
                        assert(tail0.contains(e) && e != v ==> tail1.contains(e)) by {
                            if tail0.contains(e) && e != v {
                                let w = choose|w: int| 0 <= w < tail0.len() && tail0[w] == e;
                                assert(w != 0);
                                assert(tail1[w - 1] == e);
                            }
                        }
                        assert(!tail1.contains(v)) by {
                            if tail1.contains(v) {
                                let w = choose|w: int| 0 <= w < tail1.len() && tail1[w] == v;
                                assert(cells@[k + 1 + w] == cells@[k as int]);
                            }
                        }
                        assert(!r0.contains(v)) by {
                            if r0.contains(v) {
                                let u = choose|u: int| 0 <= u < r0.len() && r0[u] == v;
                                let w = choose|w: int| 0 <= w < k && #[trigger] cells@[w] == #[trigger] r0[u];
                                assert(cells@[w] == cells@[k as int]);
                            }
                        }
                        if res.is_err() {
                            assert(rest@ == r0.push(v));
                            assert(rest@.contains(e) == (r0.contains(e) || e == v)) by {
                                if rest@.contains(e) {
                                    let u = choose|u: int| 0 <= u < rest@.len() && rest@[u] == e;
                                    if u < r0.len() {
                                        assert(r0[u] == e);
                                    }
                                }
                                if e == v {
                                    assert(rest@[r0.len() as int] == e);
                                }
                                if r0.contains(e) {
                                    let u = choose|u: int| 0 <= u < r0.len() && r0[u] == e;
                                    assert(rest@[u] == e);
                                }
                            }
                        } else {
                            assert(rest@ == r0);
                        }
                    }
                    assert forall|x: int, y: int| 0 <= x < cand.h() && 0 <= y < cand.w() implies !(#[trigger] board.cell(x, y) && (rest@.contains(
                        Vector { x: x as i32, y: y as i32 },
                    ) || cells@.subrange(k + 1, cells@.len() as int).contains(Vector { x: x as i32, y: y as i32 }))) by {
                        let e = Vector { x: x as i32, y: y as i32 };
                        let tail0 = cells@.subrange(k as int, cells@.len() as int);
                        let tail1 = cells@.subrange(k + 1, cells@.len() as int);
                        assert(!(b0.cell(x, y) && (r0.contains(e) || tail0.contains(e))));
                        assert(tail0[0] == v);
                        assert(tail0.contains(v));
                        if tail1.contains(e) {
                            let w = choose|w: int| 0 <= w < tail1.len() && tail1[w] == e;
                            assert(tail0[w + 1] == e);
                        }
                        if rest@.contains(e) && !r0.contains(e) {
                            let u = choose|u: int| 0 <= u < rest@.len() && rest@[u] == e;
                            if u < r0.len() {
                                assert(r0[u] == rest@[u]);
                            }
                        }
                    }
                    if res.is_ok() {
                        assert(rest@.len() == r0.len());
                    }
                    assert forall|u: int| 0 <= u < rest@.len() implies exists|w: int| 0 <= w < k + 1 && #[trigger] cells@[w] == #[trigger] rest@[u] by {
                        if u < r0.len() {
                            let w = choose|w: int| 0 <= w < k && #[trigger] cells@[w] == #[trigger] r0[u];
                            assert(cells@[w] == rest@[u]);
                        } else {
                            assert(cells@[k as int] == rest@[u]);
                        }
                    }
                    assert forall|u: int, w: int| 0 <= u < w < rest@.len() implies #[trigger] rest@[u] != #[trigger] rest@[w] by {
                        if w == r0.len() && res.is_err() {
                            let z = choose|z: int| 0 <= z < k && #[trigger] cells@[z] == #[trigger] r0[u];
                            assert(cells@[z] != cells@[k as int]);
                        } else {
                            assert(r0[u] != r0[w]);
                        }
                    }
                }
                k += 1;
            }
            if rest.len() == cells.len() {
                return Err(BoardError::CandidateRefused);
            }
            proof {
                assert forall|x: int, y: int| 0 <= x < cand.h() && 0 <= y < cand.w() implies !(#[trigger] board.cell(x, y) && rest@.contains(
                    Vector { x: x as i32, y: y as i32 },
                )) by {
                    assert(cells@.subrange(cells@.len() as int, cells@.len() as int).len() == 0);
                }
                assert(cells@.subrange(cells@.len() as int, cells@.len() as int).len() == 0);
                assert forall|x: int, y: int| 0 <= x < cand.h() && 0 <= y < cand.w() implies #[trigger] board.cell(x, y) != rest@.contains(
                    Vector { x: x as i32, y: y as i32 },
                ) == cand.cell(x, y) by {
                    let e = Vector { x: x as i32, y: y as i32 };
                    assert(!cells@.subrange(cells@.len() as int, cells@.len() as int).contains(e));
                }
                assert forall|u: int| 0 <= u < rest@.len() implies 0 <= (#[trigger] rest@[u]).x < cand.h() && 0 <= rest@[u].y < cand.w() by {
                    let w = choose|w: int| 0 <= w < cells@.len() && #[trigger] cells@[w] == #[trigger] rest@[u];
                }
                assert forall|v: Vector<i32>| #[trigger] rest@.contains(v) implies 0 <= v.x < cand.h() && 0 <= v.y < cand.w() by {
                    let u = choose|u: int| 0 <= u < rest@.len() && rest@[u] == v;
                    let w = choose|w: int| 0 <= w < cells@.len() && #[trigger] cells@[w] == #[trigger] rest@[u];
                }
            }
            cells = rest;
        }
        proof {
            assert forall|x: int, y: int| #[trigger] board.cell(x, y) == cand.cell(x, y) by {
                if 0 <= x < cand.h() && 0 <= y < cand.w() {
                    assert(!cells@.contains(Vector { x: x as i32, y: y as i32 }));
                } else {
                    board.lemma_outside(x, y);
                }
            }
        }
        Ok(board)
    }

    /// Whether `(x, y)` can become a leaf of the candidate.
    pub fn can_set(&self, x: usize, y: usize) -> (r: bool)
        requires
            self.wf(),
        ensures
            r == self.tree_spec().can_set_spec(x as int, y as int),
    {
        self.tree.can_set(x, y)
    }

    /// Whether `v` can become a leaf of the candidate.
    pub fn can_set_v(&self, v: Vector<i32>) -> (r: bool)
        requires
            self.wf(),
        ensures
            r == self.tree_spec().can_set_spec(v.x as int, v.y as int),
    {
        v.x >= 0 && v.y >= 0 && self.tree.can_set(v.x as usize, v.y as usize)
    }

    /// Whether `(x, y)` is a leaf of the candidate that can go.
    pub fn can_clear(&self, x: usize, y: usize) -> (r: bool)
        requires
            self.wf(),
            x < self.h() ==> y < 512,
        ensures
            r == self.tree_spec().can_clear_spec(x as int, y as int),
    {
        self.tree.can_clear(x, y)
    }

    /// Whether `v` is a leaf of the candidate that can go.
    pub fn can_clear_v(&self, v: Vector<i32>) -> (r: bool)
        requires
            self.wf(),
            0 <= v.x < self.h() ==> v.y < 512,
        ensures
            r == self.tree_spec().can_clear_spec(v.x as int, v.y as int),
    {
        proof {
            if v.x < 0 || v.y < 0 {
                self.lemma_outside(v.x as int, v.y as int);
            }
        }
        v.x >= 0 && v.y >= 0 && self.tree.can_clear(v.x as usize, v.y as usize)
    }

    /// The cell opposite `v` through the centre of the box.
    pub fn rot180(&self, v: &Vector<i32>) -> (r: Vector<i32>)
        requires
            self.wf(),
            -0x4000_0000 < v.x < 0x4000_0000,
            -0x4000_0000 < v.y < 0x4000_0000,
        ensures
            r.x == self.h() - 1 - v.x,
            r.y == self.w() - 1 - v.y,
    {
        proof {
            self.lemma_dims();
        }
        Vector::new(self.height() as i32 - 1 - v.x, self.width() as i32 - 1 - v.y)
    }

    /// The image of the cell `v` of the box under `d`, in the transformed box.
    pub fn applied(&self, d: D4, v: &Vector<i32>) -> (r: Vector<i32>)
        requires
            self.wf(),
            0 <= v.x < self.h(),
            0 <= v.y < self.w(),
        ensures
            (r.x as int, r.y as int) == cell_image(d, self.h(), self.w(), v.x as int, v.y as int),
    {
        proof {
            self.lemma_dims();
        }
        let l = Outline::new(self.height(), self.width());
        let (x, y) = l.cell(v.x as usize, v.y as usize).transform(d);
        Vector::new(x as i32, y as i32)
    }

    /// Zips at `v` (see `TreePoly::try_zip`) unless the board would then hold a whole copy
    /// of the problem (where that is checked).
    #[verifier::rlimit(50)]
    pub fn try_zip(&mut self, v: Vector<i32>) -> (r: Result<(), BoardError>)
        requires
            old(self).wf(),
            -0x4000_0000 < v.x < 0x4000_0000,
            -0x4000_0000 < v.y < 0x4000_0000,
        ensures
            final(self).wf(),
            final(self).problem_spec() == old(self).problem_spec(),
            final(self).d4s_spec() == old(self).d4s_spec(),
            final(self).check_cover1_spec() == old(self).check_cover1_spec(),
            final(self).h() == old(self).h(),
            final(self).w() == old(self).w(),
            r is Ok <==> exists|k: int|
                #[trigger] old(self).tree_spec().lone_gap(v.x as int, v.y as int, k) && old(self).tree_spec().zip_side_ok(
                    v.x as int,
                    v.y as int,
                    k,
                    (k + 1) % 4,
                ) && old(self).tree_spec().zip_side_ok(v.x as int, v.y as int, k, (k + 3) % 4) && (old(self).check_cover1_spec()
                    ==> !old(self).covered_after_zip(v.x as int, v.y as int, k)),
            r is Ok ==> exists|k: int|
                #[trigger] old(self).tree_spec().lone_gap(v.x as int, v.y as int, k) && forall|p: int, q: int|
                    #[trigger] final(self).cell(p, q) == (old(self).cell(p, q) != Self::zipped(v.x as int, v.y as int, k, p, q)),
            r is Err ==> forall|p: int, q: int| #[trigger] final(self).cell(p, q) == old(self).cell(p, q),
    {
        let ghost b0 = *self;
        proof {
            b0.tree.lemma_wf();
        }
        let ab = match self.tree.try_zip(v) {
            Ok(ab) => ab,
            Err(_) => {
                proof {
                    if exists|k: int|
                        #[trigger] b0.tree.lone_gap(v.x as int, v.y as int, k) && b0.tree.zip_side_ok(v.x as int, v.y as int, k, (k + 1) % 4)
                            && b0.tree.zip_side_ok(v.x as int, v.y as int, k, (k + 3) % 4) {
                        assert(b0.tree.can_zip_spec(v.x as int, v.y as int));
                    }
                }
                return Err(BoardError::Tree);
            },
        };
        let (a, b) = ab;
        let ghost k = choose|k: int|
            #[trigger] b0.tree.lone_gap(v.x as int, v.y as int, k) && a.x == v.x + dir_x((k + 2) % 4) + dir_x((k + 1) % 4) && a.y == v.y + dir_y(
                (k + 2) % 4,
            ) + dir_y((k + 1) % 4) && b.x == v.x + dir_x((k + 2) % 4) + dir_x((k + 3) % 4) && b.y == v.y + dir_y((k + 2) % 4) + dir_y((k + 3) % 4);
        let ghost t1 = self.tree;
        proof {
            t1.lemma_wf();
            assert(b0.tree.can_zip_spec(v.x as int, v.y as int));
            let k2 = choose|k2: int|
                #[trigger] b0.tree.lone_gap(v.x as int, v.y as int, k2) && b0.tree.zip_side_ok(v.x as int, v.y as int, k2, (k2 + 1) % 4)
                    && b0.tree.zip_side_ok(v.x as int, v.y as int, k2, (k2 + 3) % 4);
            if k2 != k {
                assert(b0.tree.nbr(v.x as int, v.y as int, k2));
            }
            assert forall|p: int, q: int| #[trigger] t1.cell(p, q) == (b0.tree.cell(p, q) != Self::zipped(v.x as int, v.y as int, k, p, q)) by {}
            // The three squares lie in the box: each is a cell before or after.
            assert(t1.cell(v.x as int, v.y as int) || b0.tree.cell(v.x as int, v.y as int));
            assert(t1.cell(a.x as int, a.y as int) || b0.tree.cell(a.x as int, a.y as int));
            assert(t1.cell(b.x as int, b.y as int) || b0.tree.cell(b.x as int, b.y as int));
            b0.tree.lemma_zip_keeps_shape(t1, v.x as int, v.y as int, k);
            b0.tree.lemma_zip_keeps_tree(t1, v.x as int, v.y as int, k);
        }
        proof {
            assert(0 <= v.x < b0.h() && 0 <= v.y < b0.w());
            assert(0 <= a.x < b0.h() && 0 <= a.y < b0.w());
            assert(0 <= b.x < b0.h() && 0 <= b.y < b0.w());
        }
        self.flip_cover1_at(v);
        self.flip_cover1_at(a);
        self.flip_cover1_at(b);
        proof {
            assert forall|x: int, y: int| self.cover1_queries.board_cells().contains((x, y)) <==> (b0.cell(x, y) != Self::zipped(
                v.x as int,
                v.y as int,
                k,
                x,
                y,
            )) by {}
            b0.lemma_cover1_after_zip(self.cover1_queries, v.x as int, v.y as int, k);
        }
        if self.check_cover1 {
            let cs = self.cover1_queries.coverings1();
            let found = cs.len() > 0;
            proof {
                if found {
                    assert(cs@.contains(cs@[0]));
                    assert(self.cover1_queries.is_cover1(cs@[0]));
                }
                if exists|w: Vector<i32>| #[trigger] self.cover1_queries.is_cover1(w) {
                    let w = choose|w: Vector<i32>| #[trigger] self.cover1_queries.is_cover1(w);
                    assert(cs@.contains(w));
                }
            }
            if found {
                self.flip_cover1_at(v);
                self.flip_cover1_at(a);
                self.flip_cover1_at(b);
                proof {
                    b0.tree.lemma_zip_twice(t1, v.x as int, v.y as int, k);
                }
                let again = self.tree.try_zip(v);
                proof {
                    Self::lemma_unzip(b0, *self, t1, v, k, again);
                }
                return Err(BoardError::CoveredByOne);
            }
        }
        self.flip_cover2_at(v);
        self.flip_cover2_at(a);
        self.flip_cover2_at(b);
        proof {
            let b1 = *self;
            let h = b0.h();
            let w = b0.w();
            let sz = |p: int, q: int| Self::zipped(v.x as int, v.y as int, k, p, q);
            assert forall|i: int, x: int, y: int| 0 <= i < b1.d4s@.len() implies (#[trigger] b1.cover2_queries.in_a(i, x, y) <==> b1.moved_cell(i, x, y))
                && (b1.cover2_queries.in_b(i, x, y) <==> b1.moved_cell(i, x, y)) by {
                let g = b0.d4s@[i];
                let iv = cell_image(g, h, w, v.x as int, v.y as int);
                let ia = cell_image(g, h, w, a.x as int, a.y as int);
                let ib = cell_image(g, h, w, b.x as int, b.y as int);
                let hit = exists|p: int, q: int| #[trigger] sz(p, q) && cell_image(g, h, w, p, q) == (x, y);
                assert(hit == ((x, y) == iv || (x, y) == ia || (x, y) == ib)) by {
                    if hit {
                        let (p, q) = choose|p: int, q: int| #[trigger] sz(p, q) && cell_image(g, h, w, p, q) == (x, y);
                    }
                    if (x, y) == iv {
                        assert(sz(v.x as int, v.y as int));
                    }
                    if (x, y) == ia {
                        assert(sz(a.x as int, a.y as int));
                    }
                    if (x, y) == ib {
                        assert(sz(b.x as int, b.y as int));
                    }
                }
                // The three images are different.
                if iv == ia {
                    lemma_image_injective(g, h, w, v.x as int, v.y as int, a.x as int, a.y as int);
                }
                if iv == ib {
                    lemma_image_injective(g, h, w, v.x as int, v.y as int, b.x as int, b.y as int);
                }
                if ia == ib {
                    lemma_image_injective(g, h, w, a.x as int, a.y as int, b.x as int, b.y as int);
                }
                Self::lemma_images_follow(b0.tree, t1, g, in_image(b0.tree, g, x, y), b1.cover2_queries.in_a(i, x, y), x, y, sz);
                Self::lemma_images_follow(b0.tree, t1, g, in_image(b0.tree, g, x, y), b1.cover2_queries.in_b(i, x, y), x, y, sz);
            }
            assert forall|i: int, x: int, y: int| 0 <= i < b1.d4s@.len() implies (#[trigger] b1.cover2_queries.in_b(i, x, y) <==> b1.moved_cell(i, x, y)) by {
                assert(b1.cover2_queries.in_a(i, x, y) <==> b1.moved_cell(i, x, y));
            }
            assert forall|p: int, q: int| #[trigger] b1.cell(p, q) == (b0.cell(p, q) != Self::zipped(v.x as int, v.y as int, k, p, q)) by {}
        }
        Ok(())
    }

    /// The smallest box around the cells of the candidate (all zero when it has none).
    pub fn bounding_box(&self) -> (r: Rect)
        requires
            self.wf(),
        ensures
            self.tree_spec().count() == 0 ==> r.origin_spec() == (Vector { x: 0i32, y: 0i32 }) && r.diag_spec() == (Vector { x: 0i32, y: 0i32 }),
            self.tree_spec().count() != 0 ==> ({
                let (x0, y0) = (r.origin_spec().x as int, r.origin_spec().y as int);
                let (x1, y1) = (x0 + r.diag_spec().x - 1, y0 + r.diag_spec().y - 1);
                &&& 0 <= x0 <= x1 < self.h()
                &&& 0 <= y0 <= y1 < self.w()
                &&& (exists|b: int| #[trigger] self.cell(x0, b)) && (exists|b: int| #[trigger] self.cell(x1, b))
                &&& (exists|a: int| #[trigger] self.cell(a, y0)) && (exists|a: int| #[trigger] self.cell(a, y1))
                &&& forall|a: int, b: int| #[trigger] self.cell(a, b) ==> x0 <= a <= x1 && y0 <= b <= y1
            }),
    {
        proof {
            self.tree.lemma_wf();
        }
        let r = self.tree.poly().bounding_box();
        proof {
            let p = self.tree.poly_spec();
            if p.count() != 0 {
                let (x0, y0) = (r.origin_spec().x as int, r.origin_spec().y as int);
                let (x1, y1) = (x0 + r.diag_spec().x - 1, y0 + r.diag_spec().y - 1);
                assert(!p.row_empty(x0) && !p.row_empty(x1) && !p.col_empty(y0) && !p.col_empty(y1));
                let b0 = choose|b: int| 0 <= b < p.w() && #[trigger] p.cell(x0, b);
                assert(self.cell(x0, b0));
                let b1 = choose|b: int| 0 <= b < p.w() && #[trigger] p.cell(x1, b);
                assert(self.cell(x1, b1));
                let a0 = choose|a: int| 0 <= a < p.h() && #[trigger] p.cell(a, y0);
                assert(self.cell(a0, y0));
                let a1 = choose|a: int| 0 <= a < p.h() && #[trigger] p.cell(a, y1);
                assert(self.cell(a1, y1));
            }
        }
        r
    }

    /// Whether `(x, y)` is a cell of the candidate.
    pub fn get(&self, x: usize, y: usize) -> (r: bool)
        requires
            self.wf(),
            x < self.h() ==> y < 512,
        ensures
            r == self.cell(x as int, y as int),
    {
        self.tree.get(x, y)
    }

    pub fn height(&self) -> (r: usize)
        ensures
            r == self.h(),
    {
        self.tree.height()
    }

    pub fn width(&self) -> (r: usize)
        requires
            self.wf(),
        ensures
            r == self.w(),
    {
        self.tree.width()
    }

    /// Flips `(x, y)` unless that would empty the board, the board would then hold a whole
    /// copy of the problem (where that is checked), or the tree does not allow it.
    pub fn try_flip(&mut self, x: usize, y: usize) -> (r: Result<(), BoardError>)
        requires
            old(self).wf(),
            x < old(self).h(),
            y < old(self).w(),
        ensures
            final(self).wf(),
            final(self).problem_spec() == old(self).problem_spec(),
            final(self).d4s_spec() == old(self).d4s_spec(),
            final(self).check_cover1_spec() == old(self).check_cover1_spec(),
            final(self).h() == old(self).h(),
            final(self).w() == old(self).w(),
            r is Ok <==> old(self).can_flip_spec(x as int, y as int),
            r is Ok ==> forall|a: int, b: int| #[trigger] final(self).cell(a, b) == (old(self).cell(a, b) != (a == x && b == y)),
            r is Err ==> final(self).tree_spec() == old(self).tree_spec(),
            r == Err::<(), BoardError>(BoardError::WouldEmpty) <==> old(self).tree_spec().count() <= 1 && old(self).cell(x as int, y as int),
    {
        proof {
            self.tree.lemma_wf();
        }
        if !(self.tree.poly().cell_count() > 1 || !self.tree.get(x, y)) {
            return Err(BoardError::WouldEmpty);
        }
        self.try_flip_no_empty_check(x, y)
    }

    /// Whether the tree allows the flip of `v`.
    pub fn can_flip(&self, v: Vector<i32>) -> (r: bool)
        requires
            self.wf(),
            0 <= v.x < self.h() ==> 0 <= v.y < 512,
        ensures
            r == if self.cell(v.x as int, v.y as int) {
                self.tree_spec().can_clear_spec(v.x as int, v.y as int)
            } else {
                self.tree_spec().can_set_spec(v.x as int, v.y as int)
            },
    {
        proof {
            self.tree.lemma_wf();
        }
        if v.x < 0 || v.y < 0 {
            return false;
        }
        if self.tree.get(v.x as usize, v.y as usize) {
            self.tree.can_clear(v.x as usize, v.y as usize)
        } else {
            self.tree.can_set(v.x as usize, v.y as usize)
        }
    }

    /// Turns the check for a whole copy of the problem on or off.
    pub fn set_check_cover1_for_testing(&mut self, check_cover1: bool)
        requires
            old(self).wf(),
        ensures
            final(self).wf(),
            final(self).tree_spec() == old(self).tree_spec(),
            final(self).problem_spec() == old(self).problem_spec(),
            final(self).d4s_spec() == old(self).d4s_spec(),
            final(self).check_cover1_spec() == check_cover1,
    {
        self.check_cover1 = check_cover1;
    }

    /// The problem.
    pub fn problem(&self) -> (r: &TightPoly)
        ensures
            *r == self.problem_spec(),
    {
        &self.problem
    }

    /// The negated offsets of the whole copies of the problem that the board holds, in
    /// increasing order.
    pub fn coverings1_for_testing(&self) -> (r: &Vec<Vector<i32>>)
        requires
            self.wf(),
        ensures
            forall|v: Vector<i32>| r@.contains(v) <==> 0 <= -v.x < self.side() && 0 <= -v.y < self.side() && forall|u: int, t: int|
                #[trigger] self.problem_spec().cell(u, t) ==> self.cell(-v.x + u, -v.y + t),
    {
        let r = self.cover1_queries.coverings1();
        proof {
            let cells = self.cover1_queries.cells();
            assert forall|v: Vector<i32>| r@.contains(v) <==> 0 <= -v.x < self.side() && 0 <= -v.y < self.side() && forall|u: int, t: int|
                #[trigger] self.problem_spec().cell(u, t) ==> self.cell(-v.x + u, -v.y + t) by {
                if r@.contains(v) {
                    assert(self.cover1_queries.is_cover1(v));
                    assert forall|u: int, t: int| #[trigger] self.problem_spec().cell(u, t) implies self.cell(-v.x + u, -v.y + t) by {
                        let e = Vector { x: u as i32, y: t as i32 };
                        assert(cells.contains(e));
                        let i = choose|i: int| 0 <= i < cells.len() && cells[i] == e;
                        assert(self.cover1_queries.board_cells().contains((-v.x + cells[i].x, -v.y + cells[i].y)));
                    }
                }
                if 0 <= -v.x < self.side() && 0 <= -v.y < self.side() && forall|u: int, t: int|
                    #[trigger] self.problem_spec().cell(u, t) ==> self.cell(-v.x + u, -v.y + t) {
                    assert forall|i: int| 0 <= i < cells.len() implies self.cover1_queries.board_cells().contains(
                        (-v.x + (#[trigger] cells[i]).x, -v.y + cells[i].y),
                    ) by {
                        assert(self.problem_spec().cell(cells[i].x as int, cells[i].y as int));
                    }
                    assert(self.cover1_queries.is_cover1(v));
                }
            }
        }
        r
    }

    /// Flips `(x, y)` unless the board would then hold a whole copy of the problem (where
    /// that is checked) or the tree does not allow it.
    pub fn try_flip_no_empty_check(&mut self, x: usize, y: usize) -> (r: Result<(), BoardError>)
        requires
            old(self).wf(),
            x < old(self).h(),
            y < old(self).w(),
        ensures
            final(self).wf(),
            final(self).problem_spec() == old(self).problem_spec(),
            final(self).d4s_spec() == old(self).d4s_spec(),
            final(self).check_cover1_spec() == old(self).check_cover1_spec(),
            final(self).h() == old(self).h(),
            final(self).w() == old(self).w(),
            r is Ok <==> (old(self).check_cover1_spec() ==> !old(self).covered_once_after(x as int, y as int)) && if old(self).cell(
                x as int,
                y as int,
            ) {
                old(self).tree_spec().can_clear_spec(x as int, y as int)
            } else {
                old(self).tree_spec().can_set_spec(x as int, y as int)
            },
            r is Ok ==> forall|a: int, b: int| #[trigger] final(self).cell(a, b) == (old(self).cell(a, b) != (a == x && b == y)),
            r is Err ==> final(self).tree_spec() == old(self).tree_spec(),
            r == Err::<(), BoardError>(BoardError::CoveredByOne) ==> old(self).check_cover1_spec() && old(self).covered_once_after(x as int, y as int),
            r != Err::<(), BoardError>(BoardError::WouldEmpty),
    {
        let ghost b0 = *self;
        proof {
            b0.tree.lemma_wf();
        }
        let p = Vector::new(x as i32, y as i32);
        self.flip_cover1_at(p);
        proof {
            b0.lemma_cover1_after(self.cover1_queries, x as int, y as int);
        }
        if self.check_cover1 {
            let cs = self.cover1_queries.coverings1();
            let found = cs.len() > 0;
            proof {
                if found {
                    assert(cs@.contains(cs@[0]));
                    assert(self.cover1_queries.is_cover1(cs@[0]));
                }
                if exists|v: Vector<i32>| #[trigger] self.cover1_queries.is_cover1(v) {
                    let v = choose|v: Vector<i32>| #[trigger] self.cover1_queries.is_cover1(v);
                    assert(cs@.contains(v));
                }
            }
            if found {
                self.flip_cover1_at(p);
                proof {
                    b0.lemma_same_cells1(*self);
                }
                return Err(BoardError::CoveredByOne);
            }
        }
        let res = self.tree.flip(x, y);
        if res.is_err() {
            self.flip_cover1_at(p);
            proof {
                b0.lemma_same_cells1(*self);
            }
            return Err(BoardError::Tree);
        }
        proof {
            b0.tree.lemma_flip_keeps_shape(self.tree, x as int, y as int);
            b0.tree.lemma_flip_keeps_tree(self.tree, x as int, y as int);
        }
        let ghost c2_0 = self.cover2_queries;
        self.flip_cover2_at(p);
        proof {
            let b1 = *self;
            assert forall|k: int, a: int, b: int| 0 <= k < b1.d4s@.len() implies (#[trigger] b1.cover2_queries.in_a(k, a, b) <==> b1.moved_cell(k, a, b))
                && (b1.cover2_queries.in_b(k, a, b) <==> b1.moved_cell(k, a, b)) by {
                let g = b0.d4s@[k];
                let img = cell_image(g, b0.h(), b0.w(), x as int, y as int);
                assert(c2_0.in_a(k, a, b) <==> b0.moved_cell(k, a, b));
                assert(c2_0.in_b(k, a, b) <==> b0.moved_cell(k, a, b));
                if (a, b) == img {
                    let w = (x as int, y as int);
                    if b1.moved_cell(k, a, b) {
                        let q = choose|q: (int, int)| #[trigger] b1.tree.cell(q.0, q.1) && cell_image(g, b1.tree.h() as int, b1.tree.w() as int, q.0, q.1) == (a, b);
                        lemma_image_injective(g, b0.h(), b0.w(), q.0, q.1, x as int, y as int);
                    }
                    if b1.tree.cell(w.0, w.1) {
                        assert(b1.moved_cell(k, a, b));
                    }
                    if b0.moved_cell(k, a, b) {
                        let q = choose|q: (int, int)| #[trigger] b0.tree.cell(q.0, q.1) && cell_image(g, b0.tree.h() as int, b0.tree.w() as int, q.0, q.1) == (a, b);
                        lemma_image_injective(g, b0.h(), b0.w(), q.0, q.1, x as int, y as int);
                    }
                    if b0.tree.cell(w.0, w.1) {
                        assert(b0.moved_cell(k, a, b));
                    }
                } else {
                    if b1.moved_cell(k, a, b) {
                        let q = choose|q: (int, int)| #[trigger] b1.tree.cell(q.0, q.1) && cell_image(g, b1.tree.h() as int, b1.tree.w() as int, q.0, q.1) == (a, b);
                        assert(b0.tree.cell(q.0, q.1));
                    }
                    if b0.moved_cell(k, a, b) {
                        let q = choose|q: (int, int)| #[trigger] b0.tree.cell(q.0, q.1) && cell_image(g, b0.tree.h() as int, b0.tree.w() as int, q.0, q.1) == (a, b);
                        assert(b1.tree.cell(q.0, q.1));
                    }
                }
            }
            assert forall|k: int, a: int, b: int| 0 <= k < b1.d4s@.len() implies (#[trigger] b1.cover2_queries.in_b(k, a, b) <==> b1.moved_cell(k, a, b)) by {
                assert(b1.cover2_queries.in_a(k, a, b) <==> b1.moved_cell(k, a, b));
            }
        }
        Ok(())
    }
}

} // verus!
