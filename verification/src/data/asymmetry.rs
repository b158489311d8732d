use vstd::prelude::*;
use crate::data::d4::{D4, compose_spec};
use crate::data::outline::{Outline, cell_image, outline_image, lemma_cell_image_compose};
use crate::data::tight_poly::TightPoly;

verus! {

/// The side of the square box that holds an `h x w` polyomino.
pub open spec fn square_side(h: int, w: int) -> int {
    if h >= w { h } else { w }
}

/// With the `h x w` polyomino centered in its square box, whether `g` takes the cell `(x, y)`
/// into the rows and columns of the polyomino's place (widened by one where the margins
/// differ in size).
pub open spec fn sym_ok(h: int, w: int, x: int, y: int, g: D4) -> bool {
    let side = square_side(h, w);
    let ox = (side - h) / 2;
    let oy = (side - w) / 2;
    let c = cell_image(g, side, side, x + ox, y + oy);
    ox <= c.0 < side - ox && oy <= c.1 < side - oy
}

/// The row, in the polyomino's coordinates, that `g` takes `(x, y)` to.
pub open spec fn sym_x(h: int, w: int, x: int, y: int, g: D4) -> int {
    let side = square_side(h, w);
    let ox = (side - h) / 2;
    let oy = (side - w) / 2;
    cell_image(g, side, side, x + ox, y + oy).0 - ox
}

/// The column, in the polyomino's coordinates, that `g` takes `(x, y)` to.
pub open spec fn sym_y(h: int, w: int, x: int, y: int, g: D4) -> int {
    let side = square_side(h, w);
    let ox = (side - h) / 2;
    let oy = (side - w) / 2;
    cell_image(g, side, side, x + ox, y + oy).1 - oy
}

/// What the image of `(x, y)` under `g` adds up: 1 on a cell, -1 on a free square, 0 when
/// the image leaves the polyomino's place.
pub open spec fn sym_term(p: TightPoly, x: int, y: int, g: D4) -> int {
    if sym_ok(p.h() as int, p.w() as int, x, y, g) {
        if p.cell(sym_x(p.h() as int, p.w() as int, x, y, g), sym_y(p.h() as int, p.w() as int, x, y, g)) {
            1
        } else {
            -1
        }
    } else {
        0
    }
}

/// The balance of the images of `(x, y)` under the four rotations.
pub open spec fn rot_balance(p: TightPoly, x: int, y: int) -> int {
    sym_term(p, x, y, D4::I) + sym_term(p, x, y, D4::R1) + sym_term(p, x, y, D4::R2) + sym_term(p, x, y, D4::R3)
}

/// The balance of the images of `(x, y)` under all eight symmetries.
pub open spec fn full_balance(p: TightPoly, x: int, y: int) -> int {
    rot_balance(p, x, y) + sym_term(p, x, y, D4::S0) + sym_term(p, x, y, D4::S1) + sym_term(p, x, y, D4::S2) + sym_term(
        p,
        x,
        y,
        D4::S3,
    )
}

pub open spec fn abs(d: int) -> int {
    if d < 0 { -d } else { d }
}

/// How asymmetric a cell is under all eight symmetries, in eighths: none when all images
/// agree, half when they split evenly.
pub open spec fn full_units(d: int) -> int {
    if abs(d) == 8 {
        0
    } else if abs(d) == 0 {
        1
    } else if abs(d) == 2 || abs(d) == 6 {
        4
    } else {
        2
    }
}

/// How asymmetric a cell is under the rotations, in eighths.
pub open spec fn rot_units(d: int) -> int {
    if abs(d) == 4 {
        0
    } else if abs(d) == 2 {
        4
    } else {
        2
    }
}

/// The asymmetry of the cell `(x, y)`, in eighths.
pub open spec fn cell_units(p: TightPoly, x: int, y: int) -> int {
    full_units(full_balance(p, x, y)) + rot_units(rot_balance(p, x, y))
}

/// The asymmetry of the first `n` cells of row `x`, in eighths.
pub open spec fn row_units(p: TightPoly, x: int, n: int) -> int
    decreases n,
{
    if n <= 0 {
        0
    } else {
        row_units(p, x, n - 1) + cell_units(p, x, n - 1)
    }
}

/// The asymmetry of the first `n` rows, in eighths.
pub open spec fn rows_units(p: TightPoly, n: int) -> int
    decreases n,
{
    if n <= 0 {
        0
    } else {
        rows_units(p, n - 1) + row_units(p, n - 1, p.w() as int)
    }
}

/// Turning by half a turn after `g` lands on the point reflection of `g`'s image, so the
/// images under `g` and under `R2 * g` leave the centered place together.
proof fn lemma_half_turn_pairs(h: int, w: int, x: int, y: int, g: D4)
    requires
        0 <= x < h,
        0 <= y < w,
    ensures
        sym_ok(h, w, x, y, compose_spec(D4::R2, g)) == sym_ok(h, w, x, y, g),
{
    let side = square_side(h, w);
    let ox = (side - h) / 2;
    let oy = (side - w) / 2;
    lemma_cell_image_compose(D4::R2, g, side, side, x + ox, y + oy);
    assert(outline_image(g, side, side) == (side, side));
}

/// Under all eight symmetries and under the four rotations the balance of a cell is even,
/// and never more than the number of images.
proof fn lemma_balance_even(p: TightPoly, x: int, y: int)
    requires
        0 <= x < p.h(),
        0 <= y < p.w(),
    ensures
        abs(full_balance(p, x, y)) == 0 || abs(full_balance(p, x, y)) == 2 || abs(full_balance(p, x, y)) == 4 || abs(
            full_balance(p, x, y),
        ) == 6 || abs(full_balance(p, x, y)) == 8,
        abs(rot_balance(p, x, y)) == 0 || abs(rot_balance(p, x, y)) == 2 || abs(rot_balance(p, x, y)) == 4,
{
    let h = p.h() as int;
    let w = p.w() as int;
    lemma_half_turn_pairs(h, w, x, y, D4::I);
    lemma_half_turn_pairs(h, w, x, y, D4::R1);
    lemma_half_turn_pairs(h, w, x, y, D4::S0);
    lemma_half_turn_pairs(h, w, x, y, D4::S1);
    assert(compose_spec(D4::R2, D4::I) == D4::R2);
    assert(compose_spec(D4::R2, D4::R1) == D4::R3);
    assert(compose_spec(D4::R2, D4::S0) == D4::S2);
    assert(compose_spec(D4::R2, D4::S1) == D4::S3);
}

impl TightPoly {
    /// What the image of `(x, y)` under `g` adds up, with the polyomino centered in its
    /// square box.
    fn sym_term_at(&self, outline: &Outline, x: usize, y: usize, ox: usize, oy: usize, g: D4) -> (r: i32)
        requires
            self.wf(),
            self.h() <= 512,
            x < self.h(),
            y < self.w(),
            outline.height == square_side(self.h() as int, self.w() as int),
            outline.width == outline.height,
            ox == (outline.height - self.h()) / 2,
            oy == (outline.width - self.w()) / 2,
        ensures
            r == sym_term(*self, x as int, y as int, g),
    {
        let side = outline.height;
        let (x2, y2) = outline.cell(x + ox, y + oy).transform(g);
        if !(ox <= x2 && x2 < side - ox && oy <= y2 && y2 < side - oy) {
            return 0;
        }
        proof {
            crate::data::tight_poly::lemma_cell_image_in_box(g, side as int, side as int, (x + ox) as int, (y + oy) as int);
        }
        if self.get(x2 - ox, y2 - oy) {
            1
        } else {
            -1
        }
    }

    /// The asymmetry of the cell `(x, y)`, in eighths.
    fn cell_units_at(&self, outline: &Outline, x: usize, y: usize, ox: usize, oy: usize) -> (r: u64)
        requires
            self.wf(),
            self.h() <= 512,
            x < self.h(),
            y < self.w(),
            outline.height == square_side(self.h() as int, self.w() as int),
            outline.width == outline.height,
            ox == (outline.height - self.h()) / 2,
            oy == (outline.width - self.w()) / 2,
        ensures
            r == cell_units(*self, x as int, y as int),
            r <= 8,
    {
        let t0 = self.sym_term_at(&outline, x, y, ox, oy, D4::I);
        let t1 = self.sym_term_at(&outline, x, y, ox, oy, D4::R1);
        let t2 = self.sym_term_at(&outline, x, y, ox, oy, D4::R2);
        let t3 = self.sym_term_at(&outline, x, y, ox, oy, D4::R3);
        let t4 = self.sym_term_at(&outline, x, y, ox, oy, D4::S0);
        let t5 = self.sym_term_at(&outline, x, y, ox, oy, D4::S1);
        let t6 = self.sym_term_at(&outline, x, y, ox, oy, D4::S2);
        let t7 = self.sym_term_at(&outline, x, y, ox, oy, D4::S3);
        proof {
            lemma_balance_even(*self, x as int, y as int);
        }
        let full = t0 + t1 + t2 + t3 + t4 + t5 + t6 + t7;
        let full_abs = if full < 0 { -full } else { full };
        let a8: u64 = if full_abs == 8 {
            0
        } else if full_abs == 0 {
            1
        } else if full_abs == 2 || full_abs == 6 {
            4
        } else {
            2
        };
        let rot = t0 + t1 + t2 + t3;
        let rot_abs = if rot < 0 { -rot } else { rot };
        let a4: u64 = if rot_abs == 4 {
            0
        } else if rot_abs == 2 {
            4
        } else {
            2
        };
        a8 + a4
    }

    /// How far the polyomino is from being symmetric, in eighths of a cell: for each cell,
    /// centered in the square box, the disagreement among its images under all eight
    /// symmetries plus that among its images under the four rotations. Divided by eight
    /// times the area this is the asymmetricity, 0 for a completely symmetric polyomino.
    pub fn asymmetricity_units(&self) -> (r: u64)
        requires
            self.wf(),
            self.h() <= 512,
        ensures
            r == rows_units(*self, self.h() as int),
            self.h() == self.w() && self.h() >= 1 ==> r < 8 * self.h() * self.w(),
    {
        let h = self.height();
        let w = self.width();
        let side = if h >= w { h } else { w };
        let outline = Outline::new(side, side);
        let ox = (side - h) / 2;
        let oy = (side - w) / 2;
        let mut res: u64 = 0;
        let mut x: usize = 0;
        while x < h
            invariant
                self.wf(),
                h == self.h(),
                w == self.w(),
                h <= 512,
                w <= 512,
                x <= h,
                outline.height == square_side(h as int, w as int),
                outline.width == outline.height,
                ox == (outline.height - h) / 2,
                oy == (outline.width - w) / 2,
                res == rows_units(*self, x as int),
                res <= 8 * x * w,
            decreases h - x,
        {
            let mut y: usize = 0;
            let ghost base = res;
            while y < w
                invariant
                    self.wf(),
                    h == self.h(),
                    w == self.w(),
                    h <= 512,
                    w <= 512,
                    x < h,
                    y <= w,
                    outline.height == square_side(h as int, w as int),
                    outline.width == outline.height,
                    ox == (outline.height - h) / 2,
                    oy == (outline.width - w) / 2,
                    base == rows_units(*self, x as int),
                    base <= 8 * x * w,
                    res == base + row_units(*self, x as int, y as int),
                    res <= base + 8 * y,
                decreases w - y,
            {
                let c = self.cell_units_at(&outline, x, y, ox, oy);
                proof {
                    assert(8 * x * w + 8 * y + 8 <= 8 * 512 * 512) by (nonlinear_arith)
                        requires
                            x < h,
                            h <= 512,
                            y < w,
                            w <= 512,
                    ;
                }
                res = res + c;
                y += 1;
            }
            proof {
                assert(8 * x * w + 8 * w == 8 * (x + 1) * w) by (nonlinear_arith);
            }
            x += 1;
        }
        proof {
            if self.h() == self.w() && self.h() >= 1 {
                lemma_square_units_strict(*self);
            }
        }
        res
    }
}

/// Each cell adds between nothing and a whole unit of eight.
proof fn lemma_cell_units_bound(p: TightPoly, x: int, y: int)
    ensures
        0 <= cell_units(p, x, y) <= 8,
{
}

proof fn lemma_row_units_bound(p: TightPoly, x: int, n: int)
    requires
        0 <= n,
    ensures
        0 <= row_units(p, x, n) <= 8 * n,
    decreases n,
{
    if n > 0 {
        lemma_row_units_bound(p, x, n - 1);
        lemma_cell_units_bound(p, x, n - 1);
    }
}

/// The asymmetry of a polyomino, in eighths, is between nothing and one per square of its
/// box, so the asymmetricity lies between 0 and 1.
pub proof fn lemma_units_bound(p: TightPoly, n: int)
    requires
        0 <= n,
    ensures
        0 <= rows_units(p, n) <= 8 * n * p.w(),
    decreases n,
{
    if n > 0 {
        lemma_units_bound(p, n - 1);
        lemma_row_units_bound(p, n - 1, p.w() as int);
        assert(8 * (n - 1) * p.w() + 8 * p.w() == 8 * n * p.w()) by (nonlinear_arith);
    }
}

/// In a square box the eight images of the corner cell are the four corners, each reached
/// once by a rotation and once by a reflection, so the corner adds at most six eighths.
proof fn lemma_square_corner(p: TightPoly)
    requires
        p.h() == p.w(),
        p.h() >= 1,
    ensures
        cell_units(p, 0, 0) <= 6,
{
    let n = p.h() as int;
    assert(square_side(n, n) == n);
    assert(sym_term(p, 0, 0, D4::S0) + sym_term(p, 0, 0, D4::S1) + sym_term(p, 0, 0, D4::S2) + sym_term(p, 0, 0, D4::S3)
        == rot_balance(p, 0, 0));
    let r = rot_balance(p, 0, 0);
    assert(r == -4 || r == -2 || r == 0 || r == 2 || r == 4);
}

/// The asymmetry of the first `m` cells of the first row of a square polyomino stays two
/// eighths below its bound, because of the corner.
proof fn lemma_square_first_row(p: TightPoly, m: int)
    requires
        p.h() == p.w(),
        p.h() >= 1,
        1 <= m,
    ensures
        row_units(p, 0, m) <= 8 * m - 2,
    decreases m,
{
    if m == 1 {
        lemma_square_corner(p);
        assert(row_units(p, 0, 0) == 0);
        assert(row_units(p, 0, 1) == cell_units(p, 0, 0));
    } else {
        lemma_square_first_row(p, m - 1);
        lemma_cell_units_bound(p, 0, m - 1);
    }
}

/// A square polyomino is less than wholly asymmetric: its asymmetry, in eighths, stays
/// below eight per square of its box, so its asymmetricity is below 1.
pub proof fn lemma_square_units_strict(p: TightPoly)
    requires
        p.h() == p.w(),
        p.h() >= 1,
    ensures
        rows_units(p, p.h() as int) < 8 * p.h() * p.w(),
{
    lemma_square_rows(p, p.h() as int);
}

proof fn lemma_square_rows(p: TightPoly, k: int)
    requires
        p.h() == p.w(),
        p.h() >= 1,
        1 <= k,
    ensures
        rows_units(p, k) <= 8 * k * p.w() - 2,
    decreases k,
{
    if k == 1 {
        lemma_square_first_row(p, p.w() as int);
        assert(rows_units(p, 0) == 0);
    } else {
        lemma_square_rows(p, k - 1);
        lemma_row_units_bound(p, k - 1, p.w() as int);
        assert(8 * (k - 1) * p.w() + 8 * p.w() == 8 * k * p.w()) by (nonlinear_arith);
    }
}

/// With all eight images of the cell `(x, y)` in place, the cell adds nothing to the
/// asymmetry exactly when all eight images agree.
pub proof fn lemma_cell_units_zero(p: TightPoly, x: int, y: int)
    requires
        forall|g: D4| #[trigger] sym_term(p, x, y, g) != 0,
    ensures
        cell_units(p, x, y) == 0 <==> forall|g: D4| #[trigger] sym_term(p, x, y, g) == sym_term(p, x, y, D4::I),
{
    let t0 = sym_term(p, x, y, D4::I);
    let t1 = sym_term(p, x, y, D4::R1);
    let t2 = sym_term(p, x, y, D4::R2);
    let t3 = sym_term(p, x, y, D4::R3);
    let t4 = sym_term(p, x, y, D4::S0);
    let t5 = sym_term(p, x, y, D4::S1);
    let t6 = sym_term(p, x, y, D4::S2);
    let t7 = sym_term(p, x, y, D4::S3);
    assert(-1 <= t0 <= 1 && -1 <= t1 <= 1 && -1 <= t2 <= 1 && -1 <= t3 <= 1);
    assert(-1 <= t4 <= 1 && -1 <= t5 <= 1 && -1 <= t6 <= 1 && -1 <= t7 <= 1);
    if cell_units(p, x, y) == 0 {
        assert forall|g: D4| #[trigger] sym_term(p, x, y, g) == sym_term(p, x, y, D4::I) by {
            match g {
                D4::I => {},
                D4::R1 => {},
                D4::R2 => {},
                D4::R3 => {},
                D4::S0 => {},
                D4::S1 => {},
                D4::S2 => {},
                D4::S3 => {},
            }
        }
    }
    if forall|g: D4| #[trigger] sym_term(p, x, y, g) == sym_term(p, x, y, D4::I) {
        assert(t1 == t0 && t2 == t0 && t3 == t0 && t4 == t0 && t5 == t0 && t6 == t0 && t7 == t0);
    }
}

/// With all eight images of the cell `(x, y)` in place and all but the image under `g0`
/// agreeing, the eight images split seven to one and count half a unit (four eighths); the
/// four rotations add another four eighths when the odd image is one of theirs (split three
/// to one), and nothing when they agree.
pub proof fn lemma_cell_units_seven_to_one(p: TightPoly, x: int, y: int, g0: D4, t: int)
    requires
        t == 1 || t == -1,
        sym_term(p, x, y, g0) == -t,
        forall|g: D4| g != g0 ==> #[trigger] sym_term(p, x, y, g) == t,
    ensures
        cell_units(p, x, y) == 4 + (if g0 == D4::I || g0 == D4::R1 || g0 == D4::R2 || g0 == D4::R3 { 4int } else { 0int }),
{
    assert(sym_term(p, x, y, D4::I) == if g0 == D4::I { -t } else { t });
    assert(sym_term(p, x, y, D4::R1) == if g0 == D4::R1 { -t } else { t });
    assert(sym_term(p, x, y, D4::R2) == if g0 == D4::R2 { -t } else { t });
    assert(sym_term(p, x, y, D4::R3) == if g0 == D4::R3 { -t } else { t });
    assert(sym_term(p, x, y, D4::S0) == if g0 == D4::S0 { -t } else { t });
    assert(sym_term(p, x, y, D4::S1) == if g0 == D4::S1 { -t } else { t });
    assert(sym_term(p, x, y, D4::S2) == if g0 == D4::S2 { -t } else { t });
    assert(sym_term(p, x, y, D4::S3) == if g0 == D4::S3 { -t } else { t });
}

/// How many of the images of `(x, y)` under the given symmetries land on a cell.
pub open spec fn on_cells(p: TightPoly, x: int, y: int, gs: Seq<D4>) -> int
    decreases gs.len(),
{
    if gs.len() == 0 {
        0
    } else {
        on_cells(p, x, y, gs.drop_last()) + if sym_term(p, x, y, gs.last()) == 1 { 1int } else { 0int }
    }
}

/// With all eight images of the cell `(x, y)` in place, its asymmetry in eighths is read off
/// how the images split between cells and free squares: over the eight symmetries, nothing for
/// 8:0, four for 7:1 or 5:3, two for 6:2 and one for 4:4; over the four rotations, nothing
/// for 4:0, four for 3:1 and two for 2:2.
pub proof fn lemma_cell_units_by_split(p: TightPoly, x: int, y: int)
    requires
        forall|g: D4| #[trigger] sym_term(p, x, y, g) != 0,
    ensures
        ({
            let all = on_cells(p, x, y, seq![D4::I, D4::R1, D4::R2, D4::R3, D4::S0, D4::S1, D4::S2, D4::S3]);
            let rot = on_cells(p, x, y, seq![D4::I, D4::R1, D4::R2, D4::R3]);
            let full_part = if all == 0 || all == 8 {
                0int
            } else if all == 1 || all == 7 || all == 3 || all == 5 {
                4int
            } else if all == 2 || all == 6 {
                2int
            } else {
                1int
            };
            let rot_part = if rot == 0 || rot == 4 {
                0int
            } else if rot == 1 || rot == 3 {
                4int
            } else {
                2int
            };
            cell_units(p, x, y) == full_part + rot_part
        }),
{
    let s8 = seq![D4::I, D4::R1, D4::R2, D4::R3, D4::S0, D4::S1, D4::S2, D4::S3];
    let s4 = seq![D4::I, D4::R1, D4::R2, D4::R3];
    assert(s8.drop_last() =~= seq![D4::I, D4::R1, D4::R2, D4::R3, D4::S0, D4::S1, D4::S2]);
    assert(s8.drop_last().drop_last() =~= seq![D4::I, D4::R1, D4::R2, D4::R3, D4::S0, D4::S1]);
    assert(s8.drop_last().drop_last().drop_last() =~= seq![D4::I, D4::R1, D4::R2, D4::R3, D4::S0]);
    assert(s8.drop_last().drop_last().drop_last().drop_last() =~= s4);
    assert(s4.drop_last() =~= seq![D4::I, D4::R1, D4::R2]);
    assert(s4.drop_last().drop_last() =~= seq![D4::I, D4::R1]);
    assert(s4.drop_last().drop_last().drop_last() =~= seq![D4::I]);
    assert(s4.drop_last().drop_last().drop_last().drop_last() =~= Seq::<D4>::empty());
    reveal_with_fuel(on_cells, 9);
    let t0 = sym_term(p, x, y, D4::I);
    let t1 = sym_term(p, x, y, D4::R1);
    let t2 = sym_term(p, x, y, D4::R2);
    let t3 = sym_term(p, x, y, D4::R3);
    let t4 = sym_term(p, x, y, D4::S0);
    let t5 = sym_term(p, x, y, D4::S1);
    let t6 = sym_term(p, x, y, D4::S2);
    let t7 = sym_term(p, x, y, D4::S3);
    assert(-1 <= t0 <= 1 && -1 <= t1 <= 1 && -1 <= t2 <= 1 && -1 <= t3 <= 1);
    assert(-1 <= t4 <= 1 && -1 <= t5 <= 1 && -1 <= t6 <= 1 && -1 <= t7 <= 1);
    let rot = on_cells(p, x, y, s4);
    let all = on_cells(p, x, y, s8);
    assert(rot_balance(p, x, y) == 2 * rot - 4);
    assert(full_balance(p, x, y) == 2 * all - 8);
}

/// A square polyomino that every symmetry of its box maps onto itself.
pub open spec fn fully_symmetric(p: TightPoly) -> bool {
    &&& p.h() == p.w()
    &&& forall|g: D4, x: int, y: int| 0 <= x < p.h() && 0 <= y < p.w() ==> #[trigger] p.cell(
        cell_image(g, p.h() as int, p.w() as int, x, y).0,
        cell_image(g, p.h() as int, p.w() as int, x, y).1,
    ) == p.cell(x, y)
}

proof fn lemma_symmetric_cell(p: TightPoly, x: int, y: int)
    requires
        fully_symmetric(p),
        0 <= x < p.h(),
        0 <= y < p.w(),
    ensures
        cell_units(p, x, y) == 0,
{
    let n = p.h() as int;
    assert(square_side(n, n) == n);
    assert forall|g: D4| #[trigger] sym_term(p, x, y, g) == (if p.cell(x, y) { 1int } else { -1int }) by {
        lemma_cell_image_in_box_sq(g, n, x, y);
        assert(p.cell(cell_image(g, n, n, x, y).0, cell_image(g, n, n, x, y).1) == p.cell(x, y));
    }
    assert(sym_term(p, x, y, D4::I) == sym_term(p, x, y, D4::R1));
    assert(sym_term(p, x, y, D4::I) == sym_term(p, x, y, D4::R2));
    assert(sym_term(p, x, y, D4::I) == sym_term(p, x, y, D4::R3));
    assert(sym_term(p, x, y, D4::I) == sym_term(p, x, y, D4::S0));
    assert(sym_term(p, x, y, D4::I) == sym_term(p, x, y, D4::S1));
    assert(sym_term(p, x, y, D4::I) == sym_term(p, x, y, D4::S2));
    assert(sym_term(p, x, y, D4::I) == sym_term(p, x, y, D4::S3));
}

proof fn lemma_cell_image_in_box_sq(g: D4, n: int, x: int, y: int)
    requires
        0 <= x < n,
        0 <= y < n,
    ensures
        0 <= cell_image(g, n, n, x, y).0 < n,
        0 <= cell_image(g, n, n, x, y).1 < n,
{
}

proof fn lemma_symmetric_row(p: TightPoly, x: int, k: int)
    requires
        fully_symmetric(p),
        0 <= x < p.h(),
        0 <= k <= p.w(),
    ensures
        row_units(p, x, k) == 0,
    decreases k,
{
    if k > 0 {
        lemma_symmetric_row(p, x, k - 1);
        lemma_symmetric_cell(p, x, k - 1);
    }
}

/// A square polyomino that all eight symmetries map onto itself has no asymmetry.
pub proof fn lemma_symmetric_units(p: TightPoly, n: int)
    requires
        fully_symmetric(p),
        0 <= n <= p.h(),
    ensures
        rows_units(p, n) == 0,
    decreases n,
{
    if n > 0 {
        lemma_symmetric_units(p, n - 1);
        lemma_symmetric_row(p, n - 1, p.w() as int);
    }
}

} // verus!
