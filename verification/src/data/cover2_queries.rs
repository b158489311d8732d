use vstd::prelude::*;
use vstd::arithmetic::power2::{pow2, lemma_pow2_pos, lemma2_to64, lemma_pow2_strictly_increases};
use crate::check::bits::{bit32, lemma_u32_shl_pow2, lemma_to_bits_value, lemma_u32_bits_eq};
use crate::data::bit_poly::{BitPoly, total_cells, lemma_total_toggle};
use crate::data::sparse_t2_query::{SparseT2Query, query_before};
use crate::data::sparse_t2_rect::iter_before;
use crate::data::u256::{ones_below, word_count_ones};
use crate::data::t2_counter::{T2Counter, counter_box_ok};
use crate::data::t2_masks::{T2Masks, masks_box_ok};
use crate::data::tight_poly::TightPoly;
use crate::check::check::{num_cells, lemma_cell_list_len};
use crate::data::vector::Vector;
use crate::data::cover1_queries::occurrences;

verus! {

/// Bit `k` of a mask of problem cells.
pub open spec fn mbit(m: usize, k: int) -> bool {
    bit32(m as u32, k)
}

/// For `n` pairs of polyominoes `A_i`, `B_i` drawn on a `height x width` board, the
/// placements of the problem's cells covered by moved copies of them, and the pairs of
/// moves that cover the problem with one copy of `A_i` and one of `B_j` without overlap.
#[derive(Clone)]
pub struct Cover2Queries {
    problem: TightPoly,
    problem_cells: Vec<Vector<i32>>,
    height: usize,
    width: usize,
    a: Vec<BitPoly>,
    b: Vec<BitPoly>,
    // for i >= j: the moves d with (A_i) and (B_j + d) disjoint are flagged
    stq: Vec<Vec<SparseT2Query>>,
    // for i >= j: d -> |A_i and (B_j + d)|
    counter: Vec<Vec<T2Counter>>,
    inner: Inner,
}

#[derive(Clone, Debug, PartialEq, Eq)]
struct Inner {
    full_mask: usize,
    // -d -> the problem cells that A_i + d covers, over [-max_mask_corner, -min_mask_corner]
    ma_inv: Vec<T2Masks>,
    // d -> the problem cells that B_i + d covers, over [min_mask_corner, max_mask_corner]
    mb: Vec<T2Masks>,
    coverings2: Vec<Vec<Vec<(Vector<i32>, Vector<i32>)>>>,
}

/// The bit facts that masks of at most 31 problem cells use, in 32-bit words.
proof fn lemma_mask_word(f: u32, a: u32, b: u32, m: u32, t: u32, k: u32)
    by (bit_vector)
    requires
        m <= 31,
        t < 32,
        k < 32,
        f == ((1u32 << m) - 1u32) as u32,
    ensures
        ((f >> k) & 1u32 == 1u32) == (k < m),
        (((f & !b) >> k) & 1u32 == 1u32) == (((f >> k) & 1u32 == 1u32) && !((b >> k) & 1u32 == 1u32)),
        (((a ^ (1u32 << t)) >> k) & 1u32 == 1u32) == (((a >> k) & 1u32 == 1u32) != (k == t)),
        ((a & 1u32) == 1u32) == ((a >> 0u32) & 1u32 == 1u32),
        (0u32 >> k) & 1u32 != 1u32,
        a <= f && m <= k ==> (a >> k) & 1u32 != 1u32,
        a <= f && t < m ==> (a ^ (1u32 << t)) <= f,
        a <= f ==> (f & !a) <= f,
{
}

/// Masks below `2^31` keep their value and their operations as 32-bit words.
proof fn lemma_mask_usize(f: usize, a: usize, b: usize, t: usize)
    by (bit_vector)
    requires
        f < 0x8000_0000,
        a < 0x8000_0000,
        b < 0x8000_0000,
        t < 31,
    ensures
        ((f & !b) as u32) == (f as u32) & !(b as u32),
        ((a ^ (1usize << t)) as u32) == (a as u32) ^ (1u32 << (t as u32)),
        (a ^ (1usize << t)) < 0x8000_0000,
        ((a & 1usize) == 1usize) == (((a as u32) & 1u32) == 1u32),
        (a == b) == ((a as u32) == (b as u32)),
        (a == 0usize) == ((a as u32) == 0u32),
        (f & !b) < 0x8000_0000,
        (a as u32) as usize == a,
        (a & 1usize) <= 1usize,
        (a ^ (1usize << t)) ^ (1usize << t) == a,
        (f & !0usize) == f,
{
}

/// What the bits of masks below `2^c` say, for `c <= 31` problem cells.
proof fn lemma_masks(f: usize, ma: usize, mb: usize, c: nat)
    requires
        1 <= c <= 31,
        f == pow2(c) - 1,
        ma <= f,
        mb <= f,
    ensures
        forall|k: int| c <= k < 32 ==> !#[trigger] mbit(ma, k),
        (ma != 0) == (exists|k: int| 0 <= k < c && #[trigger] mbit(ma, k)),
        forall|k: int| 0 <= k < 32 ==> #[trigger] mbit(f & !mb, k) == (k < c && !mbit(mb, k)),
        (ma == f & !mb) == (forall|k: int| 0 <= k < c ==> #[trigger] mbit(ma, k) != mbit(mb, k)),
        (ma & 1 == 1) == mbit(ma, 0),
        f & !mb <= f,
{
    let cu = c as u32;
    lemma_u32_shl_pow2(cu);
    lemma_pow2_pos(c);
    lemma2_to64();
    if c < 31 {
        lemma_pow2_strictly_increases(c, 31);
    }
    let fu = f as u32;
    let au = ma as u32;
    let bu = mb as u32;
    lemma_mask_usize(f, ma, mb, 0);
    assert(f < 0x8000_0000);
    assert(fu == ((1u32 << cu) - 1u32) as u32);
    assert forall|k: int| 0 <= k < 32 implies {
        &&& (#[trigger] mbit(f, k)) == (k < c)
        &&& mbit(f & !mb, k) == (k < c && !mbit(mb, k))
        &&& (c <= k ==> !mbit(ma, k))
        &&& !bit32(0u32, k)
    } by {
        lemma_mask_word(fu, au, bu, cu, 0, k as u32);
        lemma_mask_word(fu, bu, au, cu, 0, k as u32);
    }
    assert forall|k: int| 0 <= k < 32 implies #[trigger] mbit(f & !mb, k) == (k < c && !mbit(mb, k)) by {
        lemma_mask_word(fu, au, bu, cu, 0, k as u32);
    }
    assert forall|k: int| c <= k < 32 implies !#[trigger] mbit(ma, k) by {
        assert(mbit(f, k) == (k < c));
    }
    lemma_mask_word(fu, au, bu, cu, 0, 0);
    if ma == 0 {
        assert forall|k: int| 0 <= k < c implies !#[trigger] mbit(ma, k) by {
            lemma_mask_word(fu, au, bu, cu, 0, k as u32);
        }
    }
    if ma != 0 && !(exists|k: int| 0 <= k < c && #[trigger] mbit(ma, k)) {
        assert forall|k: int| 0 <= k < 32 implies #[trigger] bit32(au, k) == bit32(0u32, k) by {
            assert(mbit(f, k) == (k < c));
            if k < c {
                assert(!mbit(ma, k));
            }
        }
        lemma_u32_bits_eq(au, 0u32);
    }
    if forall|k: int| 0 <= k < c ==> #[trigger] mbit(ma, k) != mbit(mb, k) {
        let g = f & !mb;
        assert forall|k: int| 0 <= k < 32 implies #[trigger] bit32(au, k) == bit32(g as u32, k) by {
            assert(mbit(f, k) == (k < c));
            assert(mbit(g, k) == (k < c && !mbit(mb, k)));
            if k < c {
                assert(mbit(ma, k) != mbit(mb, k));
            }
        }
        lemma_u32_bits_eq(au, g as u32);
        lemma_mask_usize(f, ma, g, 0);
    }
    if ma == f & !mb {
        assert forall|k: int| 0 <= k < c implies #[trigger] mbit(ma, k) != mbit(mb, k) by {
            assert(mbit(f & !mb, k) == (k < c && !mbit(mb, k)));
        }
    }
    lemma_mask_word(fu, bu, au, cu, 0, 0);
}

/// `pad4(s)` makes `s` a multiple of 4.
pub open spec fn pad4(s: int) -> int {
    (4 - s % 4) % 4
}

/// The moves of the pair differ by `(dx, dy)`.
pub open spec fn has_diff(e: (Vector<i32>, Vector<i32>), dx: int, dy: int) -> bool {
    e.1.x - e.0.x == dx && e.1.y - e.0.y == dy
}

/// The overlap of the cells `fa` with the cells `fb` moved by `(dx, dy)`, over the first
/// `h` rows of `w` columns.
pub open spec fn overlap_of(fa: spec_fn(int, int) -> bool, fb: spec_fn(int, int) -> bool, dx: int, dy: int, h: int, w: int) -> nat {
    total_cells(|x: int, y: int| fa(x, y) && fb(x - dx, y - dy), h, w)
}

/// `f` with the cell `p` flipped.
pub open spec fn toggled(f: spec_fn(int, int) -> bool, p: Vector<i32>) -> spec_fn(int, int) -> bool {
    |x: int, y: int| f(x, y) != (x == p.x && y == p.y)
}

/// The overlap is zero exactly when no cell of the board is in both.
proof fn lemma_overlap_zero(fa: spec_fn(int, int) -> bool, fb: spec_fn(int, int) -> bool, dx: int, dy: int, h: int, w: int)
    requires
        0 <= h,
        0 <= w,
    ensures
        (overlap_of(fa, fb, dx, dy, h, w) == 0) == (forall|x: int, y: int| 0 <= x < h && 0 <= y < w ==> !(#[trigger] fa(x, y) && fb(
            x - dx,
            y - dy,
        ))),
{
    let g = |x: int, y: int| fa(x, y) && fb(x - dx, y - dy);
    assert(overlap_of(fa, fb, dx, dy, h, w) == total_cells(g, h, w)) by {
        assert(g =~= (|x: int, y: int| fa(x, y) && fb(x - dx, y - dy)));
    }
    if forall|x: int, y: int| 0 <= x < h && 0 <= y < w ==> !(#[trigger] fa(x, y) && fb(x - dx, y - dy)) {
        assert forall|x: int, y: int| 0 <= x < h && 0 <= y < w implies !#[trigger] g(x, y) by {
            assert(!(fa(x, y) && fb(x - dx, y - dy)));
        }
        BitPoly::lemma_total_none(g, h, w);
    } else {
        let (x, y) = choose|x: int, y: int| 0 <= x < h && 0 <= y < w && (#[trigger] fa(x, y) && fb(x - dx, y - dy));
        assert(g(x, y));
        BitPoly::lemma_total_has(g, h, w, x, y);
    }
}

/// Flipping the cell `p` of `fa` changes its overlap with the moved `fb` by one when the
/// moved `fb` holds `p`.
proof fn lemma_overlap_flip_a(fa: spec_fn(int, int) -> bool, fb: spec_fn(int, int) -> bool, p: Vector<i32>, dx: int, dy: int, h: int, w: int)
    requires
        0 <= p.x < h,
        0 <= p.y < w,
    ensures
        overlap_of(fa, fb, dx, dy, h, w) + (if !fa(p.x as int, p.y as int) && fb(p.x - dx, p.y - dy) { 1int } else { 0int })
            == overlap_of(toggled(fa, p), fb, dx, dy, h, w) + (if fa(p.x as int, p.y as int) && fb(p.x - dx, p.y - dy) { 1int } else { 0int }),
{
    let g = |x: int, y: int| fa(x, y) && fb(x - dx, y - dy);
    let f = |x: int, y: int| toggled(fa, p)(x, y) && fb(x - dx, y - dy);
    assert(overlap_of(fa, fb, dx, dy, h, w) == total_cells(g, h, w)) by {
        assert(g =~= (|x: int, y: int| fa(x, y) && fb(x - dx, y - dy)));
    }
    assert(overlap_of(toggled(fa, p), fb, dx, dy, h, w) == total_cells(f, h, w)) by {
        assert(f =~= (|x: int, y: int| toggled(fa, p)(x, y) && fb(x - dx, y - dy)));
    }
    if fb(p.x - dx, p.y - dy) {
        assert forall|x: int, y: int| (x != p.x || y != p.y) implies #[trigger] f(x, y) == g(x, y) by {}
        lemma_total_toggle(f, g, h, w, p.x as int, p.y as int);
    } else {
        assert(f =~= g);
    }
}

/// Flipping the cell `p` of `fb` changes the overlap of `fa` with the moved `fb` by one
/// when `fa` holds `p` moved.
proof fn lemma_overlap_flip_b(fa: spec_fn(int, int) -> bool, fb: spec_fn(int, int) -> bool, p: Vector<i32>, dx: int, dy: int, h: int, w: int)
    requires
        forall|x: int, y: int| #[trigger] fa(x, y) ==> 0 <= x < h && 0 <= y < w,
    ensures
        overlap_of(fa, fb, dx, dy, h, w) + (if fa(p.x + dx, p.y + dy) && !fb(p.x as int, p.y as int) { 1int } else { 0int })
            == overlap_of(fa, toggled(fb, p), dx, dy, h, w) + (if fa(p.x + dx, p.y + dy) && fb(p.x as int, p.y as int) { 1int } else { 0int }),
{
    let g = |x: int, y: int| fa(x, y) && fb(x - dx, y - dy);
    let f = |x: int, y: int| fa(x, y) && toggled(fb, p)(x - dx, y - dy);
    assert(overlap_of(fa, fb, dx, dy, h, w) == total_cells(g, h, w)) by {
        assert(g =~= (|x: int, y: int| fa(x, y) && fb(x - dx, y - dy)));
    }
    assert(overlap_of(fa, toggled(fb, p), dx, dy, h, w) == total_cells(f, h, w)) by {
        assert(f =~= (|x: int, y: int| fa(x, y) && toggled(fb, p)(x - dx, y - dy)));
    }
    let (qx, qy) = (p.x + dx, p.y + dy);
    if fa(qx, qy) {
        assert forall|x: int, y: int| (x != qx || y != qy) implies #[trigger] f(x, y) == g(x, y) by {}
        lemma_total_toggle(f, g, h, w, qx, qy);
    } else {
        assert forall|x: int, y: int| #[trigger] f(x, y) == g(x, y) by {
            if x == qx && y == qy {
            }
        }
        assert(f =~= g);
    }
}

/// The step from `x` hits the difference `(dx, dy)`: `p - x` when `A` changed at `p`,
/// `x - p` when `B` did.
pub open spec fn hits(x: Vector<i32>, a: bool, p: Vector<i32>, dx: int, dy: int) -> bool {
    if a {
        p.x - x.x == dx && p.y - x.y == dy
    } else {
        x.x - p.x == dx && x.y - p.y == dy
    }
}

/// The list holds no entry twice.
pub open spec fn no_dup<T>(l: Seq<T>) -> bool {
    forall|u: int, v: int| 0 <= u < v < l.len() ==> #[trigger] l[u] != #[trigger] l[v]
}

/// Which entries a filter drops: mode 0 the pairs whose moves differ by `v`, mode 1 those
/// whose first move is `v`, mode 2 those whose second move is `v`.
pub open spec fn drops(e: (Vector<i32>, Vector<i32>), mode: u8, v: Vector<i32>) -> bool {
    if mode == 0 {
        has_diff(e, v.x as int, v.y as int)
    } else if mode == 1 {
        e.0 == v
    } else {
        e.1 == v
    }
}

/// The entries of `l` that the filter `mode` keeps.
fn without(l: &Vec<(Vector<i32>, Vector<i32>)>, mode: u8, d: &Vector<i32>) -> (r: Vec<(Vector<i32>, Vector<i32>)>)
    ensures
        forall|e: (Vector<i32>, Vector<i32>)| #[trigger] r@.contains(e) <==> (l@.contains(e) && !drops(e, mode, *d)),
        no_dup(l@) ==> no_dup(r@),
{
    let mut r: Vec<(Vector<i32>, Vector<i32>)> = Vec::new();
    let mut t: usize = 0;
    while t < l.len()
        invariant
            t <= l.len(),
            forall|e: (Vector<i32>, Vector<i32>)| #[trigger] r@.contains(e) <==> (l@.subrange(0, t as int).contains(e) && !drops(e, mode, *d)),
            no_dup(l@) ==> no_dup(r@),
        decreases l.len() - t,
    {
        let e = l[t];
        let ghost before = r@;
        let keep = if mode == 0 {
            (e.1.x as i64 - e.0.x as i64) != d.x as i64 || (e.1.y as i64 - e.0.y as i64) != d.y as i64
        } else if mode == 1 {
            e.0 != *d
        } else {
            e.1 != *d
        };
        if keep {
            r.push(e);
        }
        proof {
            assert(keep == !drops(e, mode, *d));
            assert forall|f: (Vector<i32>, Vector<i32>)| #[trigger] r@.contains(f) <==> (l@.subrange(0, t + 1).contains(f) && !drops(f, mode, *d)) by {
                if l@.subrange(0, t + 1).contains(f) {
                    let u = choose|u: int| 0 <= u < t + 1 && #[trigger] l@.subrange(0, t + 1)[u] == f;
                    if u < t {
                        assert(l@.subrange(0, t as int)[u] == f);
                    } else if !drops(f, mode, *d) {
                        assert(f == e);
                        assert(r@[before.len() as int] == e);
                    }
                }
                if l@.subrange(0, t as int).contains(f) {
                    let u = choose|u: int| 0 <= u < t && #[trigger] l@.subrange(0, t as int)[u] == f;
                    assert(l@.subrange(0, t + 1)[u] == f);
                }
                if r@.contains(f) && !before.contains(f) {
                    assert(f == e);
                    assert(l@.subrange(0, t + 1)[t as int] == e);
                }
                if before.contains(f) {
                    let u = choose|u: int| 0 <= u < before.len() && #[trigger] before[u] == f;
                    assert(r@[u] == f);
                }
            }
            if no_dup(l@) {
                assert forall|u: int, v: int| 0 <= u < v < r@.len() implies #[trigger] r@[u] != #[trigger] r@[v] by {
                    if v == before.len() && r@.len() > before.len() {
                        assert(before.contains(r@[u]));
                        let w = choose|w: int| 0 <= w < t && #[trigger] l@.subrange(0, t as int)[w] == r@[u];
                        assert(l@[w] == r@[u]);
                        assert(l@[t as int] == e);
                    } else {
                        assert(r@[u] == before[u] && r@[v] == before[v]);
                    }
                }
            }
        }
        t += 1;
    }
    proof {
        assert(l@.subrange(0, l@.len() as int) =~= l@);
    }
    r
}

impl Inner {
    /// The masks at `-da` of `A_i` and at `db` of `B_j` split the problem's cells between
    /// them, both sides nonempty, and when `i == j` the first cell goes to `A_i`.
    spec fn mask_pair(self, i: int, j: int, da: Vector<i32>, db: Vector<i32>) -> bool {
        let ma = self.ma_inv@[i];
        let mb = self.mb@[j];
        let f = self.full_mask;
        &&& ma.in_box(-da.x, -da.y)
        &&& mb.in_box(db.x as int, db.y as int)
        &&& mb.mask(db.x as int, db.y as int) != 0
        &&& f & !mb.mask(db.x as int, db.y as int) != 0
        &&& ma.mask(-da.x, -da.y) == f & !mb.mask(db.x as int, db.y as int)
        &&& (i == j ==> ma.mask(-da.x, -da.y) & 1 == 1)
    }
}

/// The pair that a difference found by a query makes with the move `x`: `(x, x + d)` for a
/// move of `A`, `(x - d, x)` for a move of `B`.
pub open spec fn made(d: Vector<i32>, x: Vector<i32>, a: bool) -> (Vector<i32>, Vector<i32>) {
    if a {
        (x, Vector { x: (x.x + d.x) as i32, y: (x.y + d.y) as i32 })
    } else {
        (Vector { x: (x.x - d.x) as i32, y: (x.y - d.y) as i32 }, x)
    }
}

/// A point with small coordinates.
pub open spec fn small(v: Vector<i32>) -> bool {
    -0x1000_0000 < v.x < 0x1000_0000 && -0x1000_0000 < v.y < 0x1000_0000
}

/// Appends the pairs that the differences `found` make with the move `x`.
fn push_found(l: &mut Vec<(Vector<i32>, Vector<i32>)>, found: &Vec<Vector<i32>>, x: &Vector<i32>, a: bool)
    requires
        small(*x),
        forall|t: int| 0 <= t < found@.len() ==> small(#[trigger] found@[t]),
        forall|t: int, u: int| 0 <= t < u < found@.len() ==> #[trigger] found@[t] != #[trigger] found@[u],
    ensures
        forall|e: (Vector<i32>, Vector<i32>)| #[trigger] final(l)@.contains(e) <==> (old(l)@.contains(e) || exists|t: int|
            0 <= t < found@.len() && e == #[trigger] made(found@[t], *x, a)),
        no_dup(old(l)@) && (forall|e: (Vector<i32>, Vector<i32>)| #[trigger] old(l)@.contains(e) ==> (if a { e.0 != *x } else { e.1 != *x }))
            ==> no_dup(final(l)@),
{
    let ghost l0 = l@;
    let mut t: usize = 0;
    while t < found.len()
        invariant
            small(*x),
            forall|t: int| 0 <= t < found@.len() ==> small(#[trigger] found@[t]),
            forall|t: int, u: int| 0 <= t < u < found@.len() ==> #[trigger] found@[t] != #[trigger] found@[u],
            t <= found.len(),
            l@.len() == l0.len() + t,
            forall|k: int| 0 <= k < l0.len() ==> #[trigger] l@[k] == l0[k],
            forall|k: int| 0 <= k < t ==> #[trigger] l@[l0.len() + k] == made(found@[k], *x, a),
        decreases found.len() - t,
    {
        let d = found[t];
        let e = if a { (*x, x.plus(&d)) } else { (x.minus(&d), *x) };
        l.push(e);
        t += 1;
    }
    proof {
        assert forall|e: (Vector<i32>, Vector<i32>)| #[trigger] l@.contains(e) <==> (l0.contains(e) || exists|t: int|
            0 <= t < found@.len() && e == #[trigger] made(found@[t], *x, a)) by {
            if l@.contains(e) {
                let k = choose|k: int| 0 <= k < l@.len() && #[trigger] l@[k] == e;
                if k < l0.len() {
                    assert(l0[k] == e);
                } else {
                    assert(l@[l0.len() + (k - l0.len())] == made(found@[k - l0.len()], *x, a));
                }
            }
            if l0.contains(e) {
                let k = choose|k: int| 0 <= k < l0.len() && #[trigger] l0[k] == e;
                assert(l@[k] == e);
            }
            if exists|t: int| 0 <= t < found@.len() && e == #[trigger] made(found@[t], *x, a) {
                let t = choose|t: int| 0 <= t < found@.len() && e == #[trigger] made(found@[t], *x, a);
                assert(l@[l0.len() + t] == e);
            }
        }
        if no_dup(l0) && (forall|e: (Vector<i32>, Vector<i32>)| #[trigger] l0.contains(e) ==> (if a { e.0 != *x } else { e.1 != *x })) {
            assert forall|u: int, v: int| 0 <= u < v < l@.len() implies #[trigger] l@[u] != #[trigger] l@[v] by {
                if v >= l0.len() {
                    let fv = found@[v - l0.len()];
                    assert(l@[l0.len() + (v - l0.len())] == made(fv, *x, a));
                    if u < l0.len() {
                        assert(l0.contains(l@[u]));
                    } else {
                        let fu = found@[u - l0.len()];
                        assert(l@[l0.len() + (u - l0.len())] == made(fu, *x, a));
                        assert(fu != fv);
                    }
                } else {
                    assert(l@[u] == l0[u] && l@[v] == l0[v]);
                }
            }
        }
    }
}

impl Inner {
    /// The masks of `A_i` and `B_j` lie over mirror boxes.
    spec fn mirrored(self, i: int, j: int) -> bool {
        let ma = self.ma_inv@[i];
        let mb = self.mb@[j];
        &&& 0 <= i < self.ma_inv@.len()
        &&& 0 <= j < self.mb@.len()
        &&& 0 <= i < self.coverings2@.len()
        &&& 0 <= j < self.coverings2@[i].len()
        &&& ma.wf()
        &&& mb.wf()
        &&& ma.min_spec().x == -mb.max_spec().x
        &&& ma.min_spec().y == -mb.max_spec().y
        &&& ma.max_spec().x == -mb.min_spec().x
        &&& ma.max_spec().y == -mb.min_spec().y
        &&& self.full_mask < 0x8000_0000
        &&& ma.full() == self.full_mask
        &&& mb.full() == self.full_mask
    }

    /// Everything but the list of `(i, j)` is as in `old`.
    spec fn same_but(self, old: Inner, i: int, j: int) -> bool {
        &&& self.full_mask == old.full_mask
        &&& self.ma_inv == old.ma_inv
        &&& self.mb == old.mb
        &&& self.coverings2@.len() == old.coverings2@.len()
        &&& forall|k: int| 0 <= k < self.coverings2@.len() && k != i ==> #[trigger] self.coverings2@[k] == old.coverings2@[k]
        &&& self.coverings2@[i].len() == old.coverings2@[i].len()
        &&& forall|l: int| 0 <= l < self.coverings2@[i].len() && l != j ==> #[trigger] self.coverings2@[i]@[l] == old.coverings2@[i]@[l]
    }

    /// Drops from the list of `(i, j)` the pairs whose moves differ by `d`, or, when the
    /// moves by `d` became free of overlap, adds the pairs of moves differing by `d`
    /// whose masks split the problem.
    fn update_coverings2_for_feasible_set(&mut self, is_feasible: bool, i: usize, j: usize, d: &Vector<i32>)
        requires
            old(self).mirrored(i as int, j as int),
            old(self).mb@[j as int].min_spec().x - old(self).mb@[j as int].max_spec().x <= d.x <= old(self).mb@[j as int].max_spec().x
                - old(self).mb@[j as int].min_spec().x,
            old(self).mb@[j as int].min_spec().y - old(self).mb@[j as int].max_spec().y <= d.y <= old(self).mb@[j as int].max_spec().y
                - old(self).mb@[j as int].min_spec().y,
            is_feasible ==> forall|e: (Vector<i32>, Vector<i32>)| #[trigger] old(self).coverings2@[i as int]@[j as int]@.contains(e)
                ==> !has_diff(e, d.x as int, d.y as int),
        ensures
            final(self).same_but(*old(self), i as int, j as int),
            !is_feasible ==> forall|e: (Vector<i32>, Vector<i32>)| #[trigger] final(self).coverings2@[i as int]@[j as int]@.contains(e) <==> (
                old(self).coverings2@[i as int]@[j as int]@.contains(e) && !has_diff(e, d.x as int, d.y as int)),
            is_feasible ==> forall|e: (Vector<i32>, Vector<i32>)| #[trigger] final(self).coverings2@[i as int]@[j as int]@.contains(e) <==> (
                old(self).coverings2@[i as int]@[j as int]@.contains(e) || (has_diff(e, d.x as int, d.y as int) && old(self).mask_pair(
                i as int,
                j as int,
                e.0,
                e.1,
            ))),
            no_dup(old(self).coverings2@[i as int]@[j as int]@) ==> no_dup(final(self).coverings2@[i as int]@[j as int]@),
    {
        if !is_feasible {
            let kept = without(&self.coverings2[i][j], 0, d);
            self.coverings2[i][j] = kept;
            return;
        }
        let ghost o = *self;
        let ghost l0 = self.coverings2@[i as int]@[j as int]@;
        proof {
            o.ma_inv@[i as int].lemma_box();
            o.mb@[j as int].lemma_box();
        }
        let a_min = *self.ma_inv[i].min();
        let b_min = *self.mb[j].min();
        let b_max = *self.mb[j].max();
        let hgt = b_max.x - b_min.x + 1;
        let wid = b_max.y - b_min.y + 1;
        let bx1: i32 = if d.x > 0 { d.x } else { 0 };
        let by1: i32 = if d.y > 0 { d.y } else { 0 };
        let bx2: i32 = (if d.x < 0 { d.x } else { 0 }) + hgt;
        let by2: i32 = (if d.y < 0 { d.y } else { 0 }) + wid;
        let ab_x = d.x - a_min.x - b_min.x;
        let ab_y = d.y - a_min.y - b_min.y;
        let f = self.full_mask;
        let must0 = i == j;
        let mut bx = bx1;
        while bx < bx2
            invariant
                self.same_but(o, i as int, j as int),
                o.mirrored(i as int, j as int),
                a_min == o.ma_inv@[i as int].min_spec(),
                b_min == o.mb@[j as int].min_spec(),
                b_max == o.mb@[j as int].max_spec(),
                hgt == b_max.x - b_min.x + 1,
                wid == b_max.y - b_min.y + 1,
                b_min.x - b_max.x <= d.x <= b_max.x - b_min.x,
                b_min.y - b_max.y <= d.y <= b_max.y - b_min.y,
                bx1 == (if d.x > 0 { d.x } else { 0 }),
                by1 == (if d.y > 0 { d.y } else { 0 }),
                bx2 == (if d.x < 0 { d.x } else { 0 }) + hgt,
                by2 == (if d.y < 0 { d.y } else { 0 }) + wid,
                ab_x == d.x - a_min.x - b_min.x,
                ab_y == d.y - a_min.y - b_min.y,
                f == o.full_mask,
                must0 == (i == j),
                bx1 <= bx <= bx2,
                l0 == o.coverings2@[i as int]@[j as int]@,
                forall|e: (Vector<i32>, Vector<i32>)| #[trigger] l0.contains(e) ==> !has_diff(e, d.x as int, d.y as int),
                forall|e: (Vector<i32>, Vector<i32>)| #[trigger] self.coverings2@[i as int]@[j as int]@.contains(e) <==> (l0.contains(e) || (
                    has_diff(e, d.x as int, d.y as int) && o.mask_pair(i as int, j as int, e.0, e.1) && e.1.x - b_min.x < bx)),
                no_dup(l0) ==> no_dup(self.coverings2@[i as int]@[j as int]@),
            decreases bx2 - bx,
        {
            let mut by = by1;
            while by < by2
                invariant
                    self.same_but(o, i as int, j as int),
                    o.mirrored(i as int, j as int),
                    a_min == o.ma_inv@[i as int].min_spec(),
                    b_min == o.mb@[j as int].min_spec(),
                    b_max == o.mb@[j as int].max_spec(),
                    hgt == b_max.x - b_min.x + 1,
                    wid == b_max.y - b_min.y + 1,
                    b_min.x - b_max.x <= d.x <= b_max.x - b_min.x,
                    b_min.y - b_max.y <= d.y <= b_max.y - b_min.y,
                    bx1 == (if d.x > 0 { d.x } else { 0 }),
                    by1 == (if d.y > 0 { d.y } else { 0 }),
                    bx2 == (if d.x < 0 { d.x } else { 0 }) + hgt,
                    by2 == (if d.y < 0 { d.y } else { 0 }) + wid,
                    ab_x == d.x - a_min.x - b_min.x,
                    ab_y == d.y - a_min.y - b_min.y,
                    f == o.full_mask,
                    must0 == (i == j),
                    bx1 <= bx < bx2,
                    by1 <= by <= by2,
                    l0 == o.coverings2@[i as int]@[j as int]@,
                    forall|e: (Vector<i32>, Vector<i32>)| #[trigger] l0.contains(e) ==> !has_diff(e, d.x as int, d.y as int),
                    forall|e: (Vector<i32>, Vector<i32>)| #[trigger] self.coverings2@[i as int]@[j as int]@.contains(e) <==> (l0.contains(e) || (
                        has_diff(e, d.x as int, d.y as int) && o.mask_pair(i as int, j as int, e.0, e.1) && (e.1.x - b_min.x < bx || (e.1.x
                        - b_min.x == bx && e.1.y - b_min.y < by)))),
                    no_dup(l0) ==> no_dup(self.coverings2@[i as int]@[j as int]@),
                decreases by2 - by,
            {
                let other_mask = self.mb[j].get_raw(bx as usize, by as usize);
                let mask = f & !other_mask;
                let ax = ab_x - bx;
                let ay = ab_y - by;
                let ghost before = self.coverings2@[i as int]@[j as int]@;
                let cand_b = Vector::new(bx + b_min.x, by + b_min.y);
                let cand_a = Vector::new(-(ax + a_min.x), -(ay + a_min.y));
                let a_mask = self.ma_inv[i].get_raw(ax as usize, ay as usize);
                let found = other_mask != 0 && mask != 0 && a_mask == mask && !(must0 && mask & 1 != 1);
                proof {
                    assert(o.mb@[j as int].in_box(cand_b.x as int, cand_b.y as int));
                    assert(o.ma_inv@[i as int].in_box(-cand_a.x, -cand_a.y));
                    assert(found == o.mask_pair(i as int, j as int, cand_a, cand_b));
                }
                if found {
                    self.coverings2[i][j].push((cand_a, cand_b));
                }
                proof {
                    let cand = (cand_a, cand_b);
                    assert(has_diff(cand, d.x as int, d.y as int));
                    assert(-cand_a.x == a_min.x + ax && -cand_a.y == a_min.y + ay);
                    let now = self.coverings2@[i as int]@[j as int]@;
                    assert forall|e: (Vector<i32>, Vector<i32>)| #[trigger] now.contains(e) <==> (l0.contains(e) || (has_diff(
                        e,
                        d.x as int,
                        d.y as int,
                    ) && o.mask_pair(i as int, j as int, e.0, e.1) && (e.1.x - b_min.x < bx || (e.1.x - b_min.x == bx && e.1.y - b_min.y
                        < by + 1)))) by {
                        if has_diff(e, d.x as int, d.y as int) && e.1.x - b_min.x == bx && e.1.y - b_min.y == by {
                            assert(e.1 == cand_b);
                            assert(e.0 == cand_a);
                            assert(e == cand);
                        }
                        if now.contains(e) && !before.contains(e) {
                            assert(e == cand);
                        }
                        if before.contains(e) {
                            let u = choose|u: int| 0 <= u < before.len() && #[trigger] before[u] == e;
                            assert(now[u] == e);
                        }
                        if e == cand && now.len() > before.len() {
                            assert(now[before.len() as int] == e);
                        }
                    }
                    if no_dup(l0) && now.len() > before.len() {
                        assert forall|u: int, v: int| 0 <= u < v < now.len() implies #[trigger] now[u] != #[trigger] now[v] by {
                            if v == before.len() {
                                assert(before.contains(now[u]));
                                if now[u] == cand {
                                    assert(!l0.contains(cand));
                                }
                            } else {
                                assert(now[u] == before[u] && now[v] == before[v]);
                            }
                        }
                    }
                }
                by += 1;
            }
            bx += 1;
        }
        proof {
            assert forall|e: (Vector<i32>, Vector<i32>)| #[trigger] self.coverings2@[i as int]@[j as int]@.contains(e) <==> (l0.contains(e) || (
                has_diff(e, d.x as int, d.y as int) && o.mask_pair(i as int, j as int, e.0, e.1))) by {
                if has_diff(e, d.x as int, d.y as int) && o.mask_pair(i as int, j as int, e.0, e.1) {
                    assert(e.1.x - b_min.x < bx2);
                }
            }
        }
    }
}

impl Cover2Queries {
    /// The number of pairs.
    pub closed spec fn n(self) -> nat {
        self.a@.len()
    }

    /// The problem's cells, row by row.
    pub closed spec fn cells(self) -> Seq<Vector<i32>> {
        self.problem_cells@
    }

    /// The height of the board.
    pub closed spec fn hh(self) -> nat {
        self.height as nat
    }

    /// The width of the board.
    pub closed spec fn ww(self) -> nat {
        self.width as nat
    }

    /// Whether `(x, y)` is a cell of `A_i`.
    pub closed spec fn in_a(self, i: int, x: int, y: int) -> bool {
        self.a@[i].cell(x, y)
    }

    /// Whether `(x, y)` is a cell of `B_j`.
    pub closed spec fn in_b(self, j: int, x: int, y: int) -> bool {
        self.b@[j].cell(x, y)
    }

    /// The copy of `A_i` moved by `da` covers the problem's cell `k`.
    pub open spec fn covers_a(self, i: int, da: Vector<i32>, k: int) -> bool {
        self.in_a(i, self.cells()[k].x - da.x, self.cells()[k].y - da.y)
    }

    /// The copy of `B_j` moved by `db` covers the problem's cell `k`.
    pub open spec fn covers_b(self, j: int, db: Vector<i32>, k: int) -> bool {
        self.in_b(j, self.cells()[k].x - db.x, self.cells()[k].y - db.y)
    }

    /// The number of cells of `A_i` whose move by `-d` is a cell of `B_j`: the overlap of
    /// `A_i` with `B_j` moved by `d`.
    pub open spec fn overlap_spec(self, i: int, j: int, dx: int, dy: int) -> nat {
        overlap_of(self.fa(i), self.fb(j), dx, dy, self.hh() as int, self.ww() as int)
    }

    /// The cells of `A_i`.
    pub open spec fn fa(self, i: int) -> spec_fn(int, int) -> bool {
        |x: int, y: int| self.in_a(i, x, y)
    }

    /// The cells of `B_j`.
    pub open spec fn fb(self, j: int) -> spec_fn(int, int) -> bool {
        |x: int, y: int| self.in_b(j, x, y)
    }

    /// `A_i` moved by `da` and `B_j` moved by `db` share no cell.
    pub open spec fn disjoint(self, i: int, j: int, da: Vector<i32>, db: Vector<i32>) -> bool {
        forall|x: int, y: int| #[trigger] self.in_a(i, x, y) ==> !self.in_b(j, x + da.x - db.x, y + da.y - db.y)
    }

    /// `A_i` moved by `da` and `B_j` moved by `db` cover the problem: each of its cells
    /// by exactly one of them, each of them at least one, without overlapping each other;
    /// when `i == j`, the copy of `A_i` covers the first cell.
    pub open spec fn is_cover2(self, i: int, j: int, da: Vector<i32>, db: Vector<i32>) -> bool {
        &&& forall|k: int| 0 <= k < self.cells().len() ==> #[trigger] self.covers_a(i, da, k) != self.covers_b(j, db, k)
        &&& exists|k: int| 0 <= k < self.cells().len() && #[trigger] self.covers_a(i, da, k)
        &&& exists|k: int| 0 <= k < self.cells().len() && #[trigger] self.covers_b(j, db, k)
        &&& self.disjoint(i, j, da, db)
        &&& (i == j ==> self.covers_a(i, da, 0))
    }

    /// The low corner of the moves of `B_i` that can meet the problem.
    pub closed spec fn mn_corner(self) -> Vector<i32> {
        Vector { x: (1 - self.height) as i32, y: (1 - self.width) as i32 }
    }

    /// The high corner of the moves of `B_i` that can meet the problem, pushed out so that
    /// the box has sides multiple of 4.
    pub closed spec fn mx_corner(self) -> Vector<i32> {
        let ph = self.problem.h() as int;
        let pw = self.problem.w() as int;
        Vector {
            x: (ph - 1 + pad4(ph + self.height - 1)) as i32,
            y: (pw - 1 + pad4(pw + self.width - 1)) as i32,
        }
    }

    /// The low corner of the differences of moves.
    pub closed spec fn dmin(self) -> Vector<i32> {
        Vector { x: (self.mn_corner().x - self.mx_corner().x) as i32, y: (self.mn_corner().y - self.mx_corner().y) as i32 }
    }

    /// The high corner of the differences of moves.
    pub closed spec fn dmax(self) -> Vector<i32> {
        Vector { x: (self.mx_corner().x - self.mn_corner().x) as i32, y: (self.mx_corner().y - self.mn_corner().y) as i32 }
    }

    /// The shape of the representation.
    closed spec fn shape(self) -> bool {
        let n = self.a@.len();
        let c = self.problem_cells@.len();
        let (mn, mx, dn, dx) = (self.mn_corner(), self.mx_corner(), self.dmin(), self.dmax());
        &&& self.problem.wf()
        &&& self.problem.is_cell_list(self.problem_cells@)
        &&& 1 <= c <= 31
        &&& self.inner.full_mask == pow2(c) - 1
        &&& 1 <= self.height <= 512
        &&& 1 <= self.width < 512
        &&& self.problem.h() + self.height <= 1000
        &&& self.problem.w() + self.width <= 1000
        &&& self.b@.len() == n
        &&& self.inner.ma_inv@.len() == n
        &&& self.inner.mb@.len() == n
        &&& self.stq@.len() == n
        &&& self.counter@.len() == n
        &&& self.inner.coverings2@.len() == n
        &&& forall|i: int|
            #![trigger self.a@[i]]
            #![trigger self.b@[i]]
            #![trigger self.inner.ma_inv@[i]]
            #![trigger self.inner.mb@[i]]
            #![trigger self.stq@[i]]
            #![trigger self.counter@[i]]
            #![trigger self.inner.coverings2@[i]]
            0 <= i < n ==> {
            &&& self.a@[i].wf()
            &&& self.a@[i].h() == self.height
            &&& self.a@[i].w() == self.width
            &&& self.b@[i].wf()
            &&& self.b@[i].h() == self.height
            &&& self.b@[i].w() == self.width
            &&& self.inner.ma_inv@[i].wf()
            &&& self.inner.ma_inv@[i].min_spec() == (Vector { x: (-mx.x) as i32, y: (-mx.y) as i32 })
            &&& self.inner.ma_inv@[i].max_spec() == (Vector { x: (-mn.x) as i32, y: (-mn.y) as i32 })
            &&& self.inner.ma_inv@[i].full() == self.inner.full_mask
            &&& self.inner.mb@[i].wf()
            &&& self.inner.mb@[i].min_spec() == mn
            &&& self.inner.mb@[i].max_spec() == mx
            &&& self.inner.mb@[i].full() == self.inner.full_mask
            &&& self.stq@[i].len() == i + 1
            &&& self.counter@[i].len() == i + 1
            &&& self.inner.coverings2@[i].len() == i + 1
        }
        &&& forall|i: int, j: int|
            #![trigger self.counter@[i]@[j]]
            #![trigger self.stq@[i]@[j]]
            0 <= j <= i < n ==> {
            &&& self.counter@[i]@[j].wf()
            &&& self.counter@[i]@[j].min_spec() == (Vector { x: dn.x as isize, y: dn.y as isize })
            &&& self.counter@[i]@[j].max_spec() == dx
            &&& self.stq@[i]@[j].wf()
            &&& self.stq@[i]@[j].min_spec() == dn
            &&& self.stq@[i]@[j].max_spec() == dx
        }
    }

    /// The mask of `A_i` at `e` flags the problem's cells `q` with `q + e` in `A_i`.
    closed spec fn a_ok(self, i: int) -> bool {
        let ma = self.inner.ma_inv@[i];
        forall|ex: int, ey: int, k: int| #[trigger] ma.in_box(ex, ey) && 0 <= k < self.problem_cells@.len() ==> #[trigger] mbit(
            ma.mask(ex, ey),
            k,
        ) == self.in_a(i, self.problem_cells@[k].x + ex, self.problem_cells@[k].y + ey)
    }

    /// The mask of `B_j` at `d` flags the problem's cells that `B_j` moved by `d` covers.
    closed spec fn b_ok(self, j: int) -> bool {
        let mb = self.inner.mb@[j];
        forall|x: int, y: int, k: int| #[trigger] mb.in_box(x, y) && 0 <= k < self.problem_cells@.len() ==> #[trigger] mbit(
            mb.mask(x, y),
            k,
        ) == self.in_b(j, self.problem_cells@[k].x - x, self.problem_cells@[k].y - y)
    }

    /// The counters of `(i, j)` are the overlaps.
    closed spec fn cnt_ok(self, i: int, j: int) -> bool {
        let c = self.counter@[i]@[j];
        forall|x: int, y: int| #[trigger] c.in_box(x, y) ==> c.count(x, y) == self.overlap_spec(i, j, x, y)
    }

    /// The flags of `(i, j)` mark the moves without overlap.
    closed spec fn stq_ok(self, i: int, j: int) -> bool {
        let c = self.counter@[i]@[j];
        let q = self.stq@[i]@[j];
        forall|x: int, y: int| #[trigger] c.in_box(x, y) ==> q.flagged(x, y) == (c.count(x, y) == 0)
    }

    /// The pair of moves is a covering by the stored masks and counters.
    closed spec fn cov_m(self, i: int, j: int, da: Vector<i32>, db: Vector<i32>) -> bool {
        &&& self.inner.mask_pair(i, j, da, db)
        &&& self.counter@[i]@[j].count(db.x - da.x, db.y - da.y) == 0
    }

    /// The list of `(i, j)` holds each stored covering once.
    closed spec fn cov_ok(self, i: int, j: int) -> bool {
        let l = self.inner.coverings2@[i]@[j]@;
        &&& no_dup(l)
        &&& forall|da: Vector<i32>, db: Vector<i32>| #[trigger] l.contains((da, db)) <==> self.cov_m(i, j, da, db)
    }

    /// The cells of the problem and of the pairs lie in their boxes, which fit the moves.
    proof fn lemma_shape(self)
        requires
            self.shape(),
        ensures
            forall|k: int| 0 <= k < self.problem_cells@.len() ==> 0 <= (#[trigger] self.problem_cells@[k]).x < self.problem.h() && 0
                <= self.problem_cells@[k].y < self.problem.w(),
            forall|i: int, x: int, y: int| 0 <= i < self.n() && #[trigger] self.in_a(i, x, y) ==> 0 <= x < self.height && 0 <= y
                < self.width,
            forall|i: int, x: int, y: int| 0 <= i < self.n() && #[trigger] self.in_b(i, x, y) ==> 0 <= x < self.height && 0 <= y
                < self.width,
            self.mn_corner().x == 1 - self.height,
            self.mn_corner().y == 1 - self.width,
            self.problem.h() - 1 <= self.mx_corner().x <= self.problem.h() + 2,
            self.problem.w() - 1 <= self.mx_corner().y <= self.problem.w() + 2,
            (self.mx_corner().x - self.mn_corner().x + 1) % 4 == 0,
            (self.mx_corner().y - self.mn_corner().y + 1) % 4 == 0,
            self.dmin().x == self.mn_corner().x - self.mx_corner().x,
            self.dmin().y == self.mn_corner().y - self.mx_corner().y,
            self.dmax().x == self.mx_corner().x - self.mn_corner().x,
            self.dmax().y == self.mx_corner().y - self.mn_corner().y,
            1 <= self.problem.h(),
            1 <= self.problem.w(),
            self.dmin().x <= 1 - self.height,
            self.dmin().y <= 1 - self.width,
            self.dmax().x >= self.height - 1,
            self.dmax().y >= self.width - 1,
            self.inner.full_mask < 0x8000_0000,
            self.inner.full_mask >= 1,
    {
        assert(self.problem.cell(self.problem_cells@[0].x as int, self.problem_cells@[0].y as int));
        lemma_pow2_pos(self.problem_cells@.len());
        lemma_pow2_strictly_increases(0, self.problem_cells@.len());
        lemma2_to64();
        if self.problem_cells@.len() < 31 {
            lemma_pow2_strictly_increases(self.problem_cells@.len(), 31);
        }
        assert forall|k: int| 0 <= k < self.problem_cells@.len() implies 0 <= (#[trigger] self.problem_cells@[k]).x < self.problem.h() && 0
            <= self.problem_cells@[k].y < self.problem.w() by {
            assert(self.problem.cell(self.problem_cells@[k].x as int, self.problem_cells@[k].y as int));
        }
        assert forall|i: int, x: int, y: int| 0 <= i < self.n() && #[trigger] self.in_a(i, x, y) implies 0 <= x < self.height && 0 <= y
            < self.width by {
            self.a@[i].lemma_row_masks();
        }
        assert forall|i: int, x: int, y: int| 0 <= i < self.n() && #[trigger] self.in_b(i, x, y) implies 0 <= x < self.height && 0 <= y
            < self.width by {
            self.b@[i].lemma_row_masks();
        }
    }

    /// A covering of the problem is stored in the masks and counters.
    #[verifier::rlimit(40)]
    proof fn lemma_cov_from(self, i: int, j: int, da: Vector<i32>, db: Vector<i32>)
        requires
            self.shape(),
            0 <= j <= i < self.n(),
            self.a_ok(i),
            self.b_ok(j),
            self.cnt_ok(i, j),
            self.is_cover2(i, j, da, db),
        ensures
            self.cov_m(i, j, da, db),
    {
        self.lemma_shape();
        let ma_t = self.inner.ma_inv@[i];
        let mb_t = self.inner.mb@[j];
        let cs = self.problem_cells@;
        let c = cs.len();
        let f = self.inner.full_mask;
        let (dx, dy) = (db.x - da.x, db.y - da.y);
        let cnt = self.counter@[i]@[j];
        let k1 = choose|k: int| 0 <= k < c && #[trigger] self.covers_a(i, da, k);
        let k2 = choose|k: int| 0 <= k < c && #[trigger] self.covers_b(j, db, k);
        assert(self.in_a(i, cs[k1].x - da.x, cs[k1].y - da.y));
        assert(self.in_b(j, cs[k2].x - db.x, cs[k2].y - db.y));
        assert(ma_t.in_box(-da.x, -da.y));
        assert(mb_t.in_box(db.x as int, db.y as int));
        let ma = ma_t.mask(-da.x, -da.y);
        let mbm = mb_t.mask(db.x as int, db.y as int);
        ma_t.lemma_mask_bound(-da.x, -da.y);
        mb_t.lemma_mask_bound(db.x as int, db.y as int);
        lemma_masks(f, ma, mbm, c);
        lemma_masks(f, mbm, ma, c);
        assert forall|k: int| 0 <= k < c implies #[trigger] mbit(ma, k) != mbit(mbm, k) by {
            assert(mbit(ma, k) == self.in_a(i, cs[k].x + (-da.x), cs[k].y + (-da.y)));
            assert(mbit(mbm, k) == self.in_b(j, cs[k].x - db.x, cs[k].y - db.y));
            assert(self.covers_a(i, da, k) != self.covers_b(j, db, k));
        }
        assert(ma == f & !mbm);
        assert(mbit(ma, k1)) by {
            assert(mbit(ma, k1) == self.in_a(i, cs[k1].x + (-da.x), cs[k1].y + (-da.y)));
        }
        assert(mbit(mbm, k2)) by {
            assert(mbit(mbm, k2) == self.in_b(j, cs[k2].x - db.x, cs[k2].y - db.y));
        }
        assert(ma != 0);
        assert(mbm != 0);
        assert(cnt.in_box(dx, dy));
        lemma_overlap_zero(self.fa(i), self.fb(j), dx, dy, self.hh() as int, self.ww() as int);
        assert forall|x: int, y: int| 0 <= x < self.hh() && 0 <= y < self.ww() implies !(#[trigger] self.fa(i)(x, y) && self.fb(j)(
            x - dx,
            y - dy,
        )) by {
            if self.in_a(i, x, y) {
                assert(!self.in_b(j, x + da.x - db.x, y + da.y - db.y));
            }
        }
        assert(cnt.count(dx, dy) == 0);
        if i == j {
            assert(self.covers_a(i, da, 0));
            assert(mbit(ma, 0) == self.in_a(i, cs[0].x + (-da.x), cs[0].y + (-da.y)));
        }
    }

    /// What the masks and counters store is a covering of the problem.
    proof fn lemma_cov_to(self, i: int, j: int, da: Vector<i32>, db: Vector<i32>)
        requires
            self.shape(),
            0 <= j <= i < self.n(),
            self.a_ok(i),
            self.b_ok(j),
            self.cnt_ok(i, j),
            self.cov_m(i, j, da, db),
        ensures
            self.is_cover2(i, j, da, db),
    {
        self.lemma_shape();
        let ma_t = self.inner.ma_inv@[i];
        let mb_t = self.inner.mb@[j];
        let cs = self.problem_cells@;
        let c = cs.len();
        let f = self.inner.full_mask;
        let (dx, dy) = (db.x - da.x, db.y - da.y);
        let cnt = self.counter@[i]@[j];
        let ma = ma_t.mask(-da.x, -da.y);
        let mbm = mb_t.mask(db.x as int, db.y as int);
        ma_t.lemma_mask_bound(-da.x, -da.y);
        mb_t.lemma_mask_bound(db.x as int, db.y as int);
        lemma_masks(f, ma, mbm, c);
        lemma_masks(f, mbm, ma, c);
        assert forall|k: int| 0 <= k < c implies #[trigger] self.covers_a(i, da, k) != self.covers_b(j, db, k) by {
            assert(mbit(ma, k) == self.in_a(i, cs[k].x + (-da.x), cs[k].y + (-da.y)));
            assert(mbit(mbm, k) == self.in_b(j, cs[k].x - db.x, cs[k].y - db.y));
            assert(mbit(ma, k) != mbit(mbm, k));
        }
        let k1 = choose|k: int| 0 <= k < c && #[trigger] mbit(ma, k);
        assert(mbit(ma, k1) == self.in_a(i, cs[k1].x + (-da.x), cs[k1].y + (-da.y)));
        assert(self.covers_a(i, da, k1));
        let k2 = choose|k: int| 0 <= k < c && #[trigger] mbit(mbm, k);
        assert(mbit(mbm, k2) == self.in_b(j, cs[k2].x - db.x, cs[k2].y - db.y));
        assert(self.covers_b(j, db, k2));
        assert(cnt.in_box(dx, dy));
        lemma_overlap_zero(self.fa(i), self.fb(j), dx, dy, self.hh() as int, self.ww() as int);
        assert forall|x: int, y: int| #[trigger] self.in_a(i, x, y) implies !self.in_b(j, x + da.x - db.x, y + da.y - db.y) by {
            assert(self.fa(i)(x, y));
        }
        if i == j {
            assert(mbit(ma, 0) == self.in_a(i, cs[0].x + (-da.x), cs[0].y + (-da.y)));
        }
    }

    /// A flag grid over the box `[min, max]` with every point flagged.
    fn all_flagged(min: Vector<i32>, max: Vector<i32>, query_height: usize, query_width: usize) -> (r: SparseT2Query)
        requires
            min.x <= max.x,
            min.y <= max.y,
            query_height % 4 == 0,
            query_width % 4 == 0,
            max.x - min.x < 0x100_0000,
            max.y - min.y < 0x100_0000,
            -0x1000_0000 < min.x,
            -0x1000_0000 < min.y,
            max.x < 0x1000_0000,
            max.y < 0x1000_0000,
            query_height < 0x1000_0000,
            query_width < 0x1000_0000,
            (max.x - min.x + 4) * (max.y - min.y + 4) <= 0x40_0000,
        ensures
            r.wf(),
            r.min_spec() == min,
            r.max_spec() == max,
            forall|x: int, y: int| #[trigger] r.flagged(x, y) == (min.x <= x <= max.x && min.y <= y <= max.y),
    {
        let mut q = SparseT2Query::new(min, max, query_height, query_width);
        let mut x = min.x;
        while x <= max.x
            invariant
                q.wf(),
                q.min_spec() == min,
                q.max_spec() == max,
                min.x <= x <= max.x + 1,
                max.x < 0x1000_0000,
                forall|a: int, b: int| #[trigger] q.flagged(a, b) == (min.x <= a < x && min.y <= b <= max.y),
            decreases max.x + 1 - x,
        {
            let mut y = min.y;
            while y <= max.y
                invariant
                    q.wf(),
                    q.min_spec() == min,
                    q.max_spec() == max,
                    min.x <= x <= max.x,
                    min.y <= y <= max.y + 1,
                    max.y < 0x1000_0000,
                    forall|a: int, b: int| #[trigger] q.flagged(a, b) == ((min.x <= a < x && min.y <= b <= max.y) || (a == x && min.y <= b < y)),
                decreases max.y + 1 - y,
            {
                q.flip(&Vector::new(x, y));
                y += 1;
            }
            x += 1;
        }
        q
    }

    /// `n` empty pairs on a `height x width` board for the problem.
    pub fn new(problem: TightPoly, height: usize, width: usize, n: usize) -> (r: Self)
        requires
            problem.wf(),
            problem.h() <= 512,
            1 <= num_cells(problem) <= 31,
            1 <= height <= 512,
            1 <= width,
            width < 512,
            problem.h() + height <= 1000,
            problem.w() + width <= 1000,
        ensures
            r.wf(),
            r.n() == n,
            r.hh() == height,
            r.ww() == width,
            problem.is_cell_list(r.cells()),
            forall|i: int, x: int, y: int| 0 <= i < n ==> !#[trigger] r.in_a(i, x, y) && !r.in_b(i, x, y),
    {
        let problem_cells = problem.cells();
        proof {
            lemma_cell_list_len(problem, problem_cells@);
            assert(problem.cell(problem_cells@[0].x as int, problem_cells@[0].y as int));
        }
        let ph = problem.height();
        let pw = problem.width();
        let min_mask_corner = Vector::new(1 - height as i32, 1 - width as i32);
        let mut max_mask_corner = Vector::new(ph as i32 - 1, pw as i32 - 1);
        let ghost sx = ph + height - 1;
        let ghost sy = pw + width - 1;
        while (max_mask_corner.x - min_mask_corner.x + 1) % 4 != 0
            invariant
                min_mask_corner.x == 1 - height,
                height <= 512,
                ph <= 512,
                sx == ph + height - 1,
                ph - 1 <= max_mask_corner.x <= ph - 1 + pad4(sx),
                max_mask_corner.y == pw - 1,
            decreases ph - 1 + pad4(sx) - max_mask_corner.x,
        {
            max_mask_corner.x += 1;
        }
        proof {
            let t = max_mask_corner.x - (ph - 1);
            assert((t + sx) % 4 == 0);
            assert(max_mask_corner.x == ph - 1 + pad4(sx));
        }
        while (max_mask_corner.y - min_mask_corner.y + 1) % 4 != 0
            invariant
                min_mask_corner.y == 1 - width,
                width < 512,
                pw <= 512,
                sy == pw + width - 1,
                pw - 1 <= max_mask_corner.y <= pw - 1 + pad4(sy),
                max_mask_corner.x == ph - 1 + pad4(sx),
            decreases pw - 1 + pad4(sy) - max_mask_corner.y,
        {
            max_mask_corner.y += 1;
        }
        proof {
            let t2 = max_mask_corner.y - (pw - 1);
            assert((t2 + sy) % 4 == 0);
            assert(max_mask_corner.y == pw - 1 + pad4(sy));
        }
        let query_height = (max_mask_corner.x - min_mask_corner.x + 1) as usize;
        let query_width = (max_mask_corner.y - min_mask_corner.y + 1) as usize;
        let min = min_mask_corner.minus(&max_mask_corner);
        let max = max_mask_corner.minus(&min_mask_corner);
        proof {
            assert(0 <= pad4(sx) <= 3 && 0 <= pad4(sy) <= 3);
            assert(max.x - min.x == 2 * (max_mask_corner.x - min_mask_corner.x));
            assert(max.y - min.y == 2 * (max_mask_corner.y - min_mask_corner.y));
            assert((max.x - min.x + 4) * (max.y - min.y + 4) <= 0x40_0000) by (nonlinear_arith)
                requires
                    0 <= max.x - min.x + 4 <= 2010,
                    0 <= max.y - min.y + 4 <= 2010,
            ;
            assert((max.x - min.x + 1) * (max.y - min.y + 1) <= 0x40_0000) by (nonlinear_arith)
                requires
                    0 <= max.x - min.x + 1 <= 2010,
                    0 <= max.y - min.y + 1 <= 2010,
            ;
            assert((max_mask_corner.x - min_mask_corner.x + 1) * (max_mask_corner.y - min_mask_corner.y + 1) <= 0x40_0000) by (nonlinear_arith)
                requires
                    0 <= max_mask_corner.x - min_mask_corner.x + 1 <= 2010,
                    0 <= max_mask_corner.y - min_mask_corner.y + 1 <= 2010,
            ;
        }
        let len = problem_cells.len();
        proof {
            crate::check::check::lemma_shl_pow2(len);
            lemma_pow2_pos(len as nat);
            lemma2_to64();
            if len < 31 {
                lemma_pow2_strictly_increases(len as nat, 31);
            }
        }
        let full_mask: usize = (1usize << len) - 1;
        let ghost mn = min_mask_corner;
        let ghost mx = max_mask_corner;
        let amin = max_mask_corner.negated();
        let amax = min_mask_corner.negated();
        let mut a: Vec<BitPoly> = Vec::new();
        let mut b: Vec<BitPoly> = Vec::new();
        let mut ma_inv: Vec<T2Masks> = Vec::new();
        let mut mb: Vec<T2Masks> = Vec::new();
        let mut counter: Vec<Vec<T2Counter>> = Vec::new();
        let mut stq: Vec<Vec<SparseT2Query>> = Vec::new();
        let mut coverings2: Vec<Vec<Vec<(Vector<i32>, Vector<i32>)>>> = Vec::new();
        let mut i: usize = 0;
        while i < n
            invariant
                i <= n,
                height <= 512,
                width < 512,
                full_mask < 0x8000_0000,
                counter_box_ok(min, max),
                masks_box_ok(mn, mx),
                masks_box_ok(amin, amax),
                min.x <= max.x,
                min.y <= max.y,
                query_height % 4 == 0,
                query_width % 4 == 0,
                max.x - min.x < 0x100_0000,
                max.y - min.y < 0x100_0000,
                -0x1000_0000 < min.x,
                -0x1000_0000 < min.y,
                max.x < 0x1000_0000,
                max.y < 0x1000_0000,
                query_height < 0x1000_0000,
                query_width < 0x1000_0000,
                (max.x - min.x + 4) * (max.y - min.y + 4) <= 0x40_0000,
                mn == min_mask_corner,
                mx == max_mask_corner,
                a@.len() == i,
                b@.len() == i,
                ma_inv@.len() == i,
                mb@.len() == i,
                counter@.len() == i,
                stq@.len() == i,
                coverings2@.len() == i,
                forall|k: int| 0 <= k < i ==> {
                    &&& (#[trigger] a@[k]).wf()
                    &&& a@[k].h() == height
                    &&& a@[k].w() == width
                    &&& forall|x: int, y: int| !a@[k].cell(x, y)
                    &&& b@[k].wf()
                    &&& b@[k].h() == height
                    &&& b@[k].w() == width
                    &&& forall|x: int, y: int| !b@[k].cell(x, y)
                    &&& ma_inv@[k].wf()
                    &&& ma_inv@[k].min_spec() == amin
                    &&& ma_inv@[k].max_spec() == amax
                    &&& ma_inv@[k].full() == full_mask
                    &&& forall|x: int, y: int| #[trigger] ma_inv@[k].in_box(x, y) ==> ma_inv@[k].mask(x, y) == 0
                    &&& mb@[k].wf()
                    &&& mb@[k].min_spec() == mn
                    &&& mb@[k].max_spec() == mx
                    &&& mb@[k].full() == full_mask
                    &&& forall|x: int, y: int| #[trigger] mb@[k].in_box(x, y) ==> mb@[k].mask(x, y) == 0
                    &&& counter@[k].len() == k + 1
                    &&& stq@[k].len() == k + 1
                    &&& coverings2@[k].len() == k + 1
                },
                forall|k: int, l: int| 0 <= l <= k < i ==> {
                    &&& (#[trigger] counter@[k]@[l]).wf()
                    &&& counter@[k]@[l].min_spec() == (Vector { x: min.x as isize, y: min.y as isize })
                    &&& counter@[k]@[l].max_spec() == max
                    &&& forall|x: int, y: int| #[trigger] counter@[k]@[l].in_box(x, y) ==> counter@[k]@[l].count(x, y) == 0
                    &&& stq@[k]@[l].wf()
                    &&& stq@[k]@[l].min_spec() == min
                    &&& stq@[k]@[l].max_spec() == max
                    &&& forall|x: int, y: int| #[trigger] stq@[k]@[l].flagged(x, y) == (min.x <= x <= max.x && min.y <= y <= max.y)
                    &&& coverings2@[k]@[l]@.len() == 0
                },
            decreases n - i,
        {
            let mut crow: Vec<T2Counter> = Vec::new();
            let mut srow: Vec<SparseT2Query> = Vec::new();
            let mut vrow: Vec<Vec<(Vector<i32>, Vector<i32>)>> = Vec::new();
            let mut j: usize = 0;
            while j <= i
                invariant
                    j <= i + 1,
                    i < n,
                    counter_box_ok(min, max),
                    min.x <= max.x,
                    min.y <= max.y,
                    query_height % 4 == 0,
                    query_width % 4 == 0,
                    max.x - min.x < 0x100_0000,
                    max.y - min.y < 0x100_0000,
                    -0x1000_0000 < min.x,
                    -0x1000_0000 < min.y,
                    max.x < 0x1000_0000,
                    max.y < 0x1000_0000,
                    query_height < 0x1000_0000,
                    query_width < 0x1000_0000,
                    (max.x - min.x + 4) * (max.y - min.y + 4) <= 0x40_0000,
                    crow@.len() == j,
                    srow@.len() == j,
                    vrow@.len() == j,
                    forall|l: int| 0 <= l < j ==> {
                        &&& (#[trigger] crow@[l]).wf()
                        &&& crow@[l].min_spec() == (Vector { x: min.x as isize, y: min.y as isize })
                        &&& crow@[l].max_spec() == max
                        &&& forall|x: int, y: int| #[trigger] crow@[l].in_box(x, y) ==> crow@[l].count(x, y) == 0
                        &&& srow@[l].wf()
                        &&& srow@[l].min_spec() == min
                        &&& srow@[l].max_spec() == max
                        &&& forall|x: int, y: int| #[trigger] srow@[l].flagged(x, y) == (min.x <= x <= max.x && min.y <= y <= max.y)
                        &&& vrow@[l]@.len() == 0
                    },
                decreases i + 1 - j,
            {
                let ghost (c0, s0, v0) = (crow@, srow@, vrow@);
                vrow.push(Vec::new());
                crow.push(T2Counter::new(min, max));
                srow.push(Self::all_flagged(min, max, query_height, query_width));
                proof {
                    assert forall|l: int| 0 <= l < j + 1 implies {
                        &&& (#[trigger] crow@[l]).wf()
                        &&& crow@[l].min_spec() == (Vector { x: min.x as isize, y: min.y as isize })
                        &&& crow@[l].max_spec() == max
                        &&& forall|x: int, y: int| #[trigger] crow@[l].in_box(x, y) ==> crow@[l].count(x, y) == 0
                        &&& srow@[l].wf()
                        &&& srow@[l].min_spec() == min
                        &&& srow@[l].max_spec() == max
                        &&& forall|x: int, y: int| #[trigger] srow@[l].flagged(x, y) == (min.x <= x <= max.x && min.y <= y <= max.y)
                        &&& vrow@[l]@.len() == 0
                    } by {
                        if l < j {
                            assert(crow@[l] == c0[l]);
                            assert(srow@[l] == s0[l]);
                            assert(vrow@[l] == v0[l]);
                        }
                    }
                }
                j += 1;
            }
            let ghost (oa, ob, oma, omb, oc, os, ov) = (a@, b@, ma_inv@, mb@, counter@, stq@, coverings2@);
            counter.push(crow);
            stq.push(srow);
            coverings2.push(vrow);
            a.push(BitPoly::new(height, width));
            b.push(BitPoly::new(height, width));
            ma_inv.push(T2Masks::new(amin, amax, full_mask));
            mb.push(T2Masks::new(min_mask_corner, max_mask_corner, full_mask));
            proof {
                assert forall|k: int| 0 <= k < i + 1 implies {
                    &&& (#[trigger] a@[k]).wf()
                    &&& a@[k].h() == height
                    &&& a@[k].w() == width
                    &&& forall|x: int, y: int| !a@[k].cell(x, y)
                    &&& b@[k].wf()
                    &&& b@[k].h() == height
                    &&& b@[k].w() == width
                    &&& forall|x: int, y: int| !b@[k].cell(x, y)
                    &&& ma_inv@[k].wf()
                    &&& ma_inv@[k].min_spec() == amin
                    &&& ma_inv@[k].max_spec() == amax
                    &&& ma_inv@[k].full() == full_mask
                    &&& forall|x: int, y: int| #[trigger] ma_inv@[k].in_box(x, y) ==> ma_inv@[k].mask(x, y) == 0
                    &&& mb@[k].wf()
                    &&& mb@[k].min_spec() == mn
                    &&& mb@[k].max_spec() == mx
                    &&& mb@[k].full() == full_mask
                    &&& forall|x: int, y: int| #[trigger] mb@[k].in_box(x, y) ==> mb@[k].mask(x, y) == 0
                    &&& counter@[k].len() == k + 1
                    &&& stq@[k].len() == k + 1
                    &&& coverings2@[k].len() == k + 1
                } by {
                    if k < i {
                        assert(a@[k] == oa[k] && b@[k] == ob[k] && ma_inv@[k] == oma[k] && mb@[k] == omb[k]);
                        assert(counter@[k] == oc[k] && stq@[k] == os[k] && coverings2@[k] == ov[k]);
                    } else {
                        assert(ma_inv@[k].min_spec() == amin);
                        assert(ma_inv@[k].max_spec() == amax);
                        assert(counter@[k].len() == k + 1);
                    }
                }
                assert forall|k: int, l: int| 0 <= l <= k < i + 1 implies {
                    &&& (#[trigger] counter@[k]@[l]).wf()
                    &&& counter@[k]@[l].min_spec() == (Vector { x: min.x as isize, y: min.y as isize })
                    &&& counter@[k]@[l].max_spec() == max
                    &&& forall|x: int, y: int| #[trigger] counter@[k]@[l].in_box(x, y) ==> counter@[k]@[l].count(x, y) == 0
                    &&& stq@[k]@[l].wf()
                    &&& stq@[k]@[l].min_spec() == min
                    &&& stq@[k]@[l].max_spec() == max
                    &&& forall|x: int, y: int| #[trigger] stq@[k]@[l].flagged(x, y) == (min.x <= x <= max.x && min.y <= y <= max.y)
                    &&& coverings2@[k]@[l]@.len() == 0
                } by {
                    if k == i {
                        assert(crow@[l] == counter@[k]@[l]);
                    } else {
                        assert(counter@[k] == oc[k] && stq@[k] == os[k] && coverings2@[k] == ov[k]);
                    }
                }
            }
            i += 1;
        }
        let r = Self {
            problem,
            problem_cells,
            height,
            width,
            a,
            b,
            stq,
            counter,
            inner: Inner { full_mask, ma_inv, mb, coverings2 },
        };
        proof {
            assert(r.mn_corner() == mn);
            assert(r.mx_corner() == mx);
            assert(r.dmin() == min);
            assert(r.dmax() == max);
            assert(problem.is_cell_list(problem_cells@));
            assert(full_mask == pow2(len as nat) - 1);
            assert forall|k: int| 0 <= k < n implies {
                &&& (#[trigger] r.a@[k]).wf()
                &&& r.inner.ma_inv@[k].min_spec() == (Vector { x: (-mx.x) as i32, y: (-mx.y) as i32 })
                &&& r.inner.ma_inv@[k].max_spec() == (Vector { x: (-mn.x) as i32, y: (-mn.y) as i32 })
                &&& r.stq@[k].len() == k + 1
            } by {
                assert(r.a@[k] == a@[k]);
            }
            assert forall|k: int, l: int| 0 <= l <= k < n implies {
                &&& (#[trigger] r.counter@[k]@[l]).wf()
                &&& r.counter@[k]@[l].min_spec() == (Vector { x: min.x as isize, y: min.y as isize })
                &&& r.stq@[k]@[l].wf()
            } by {
                assert(r.counter@[k]@[l] == counter@[k]@[l]);
            }
            assert(r.problem.wf());
            assert(r.problem.is_cell_list(r.problem_cells@));
            assert(1 <= r.problem_cells@.len() <= 31);
            assert(r.inner.full_mask == pow2(r.problem_cells@.len()) - 1);
            assert(r.problem.h() + r.height <= 1000);
            assert(r.problem.w() + r.width <= 1000);
            assert(r.inner.coverings2@.len() == n);
            assert(forall|i: int|
            #![trigger r.a@[i]]
            0 <= i < n ==> {
            &&& r.a@[i].wf()
            &&& r.a@[i].h() == r.height
            &&& r.a@[i].w() == r.width
            &&& r.b@[i].wf()
            &&& r.b@[i].h() == r.height
            &&& r.b@[i].w() == r.width
            &&& r.inner.ma_inv@[i].wf()
            &&& r.inner.ma_inv@[i].full() == r.inner.full_mask
            &&& r.inner.mb@[i].wf()
            &&& r.inner.mb@[i].min_spec() == mn
            &&& r.inner.mb@[i].max_spec() == mx
            &&& r.inner.mb@[i].full() == r.inner.full_mask
            &&& r.stq@[i].len() == i + 1
            &&& r.counter@[i].len() == i + 1
            &&& r.inner.coverings2@[i].len() == i + 1
            });
            assert(forall|i: int, j: int|
            #![trigger r.counter@[i]@[j]]
            0 <= j <= i < n ==> {
            &&& r.counter@[i]@[j].wf()
            &&& r.counter@[i]@[j].max_spec() == max
            &&& r.stq@[i]@[j].wf()
            &&& r.stq@[i]@[j].min_spec() == min
            &&& r.stq@[i]@[j].max_spec() == max
            });
            assert(r.shape());
            r.lemma_shape();
            lemma_u32_shl_pow2(len as u32);
            assert forall|k: int| 0 <= k < n implies #[trigger] r.a_ok(k) && r.b_ok(k) by {
                let fu = full_mask as u32;
                assert(fu == ((1u32 << (len as u32)) - 1u32) as u32);
                assert forall|ex: int, ey: int, c: int| #[trigger] r.inner.ma_inv@[k].in_box(ex, ey) && 0 <= c < r.problem_cells@.len()
                    implies !#[trigger] mbit(r.inner.ma_inv@[k].mask(ex, ey), c) by {
                    lemma_mask_word(fu, 0, 0, len as u32, 0, c as u32);
                }
                assert forall|x: int, y: int, c: int| #[trigger] r.inner.mb@[k].in_box(x, y) && 0 <= c < r.problem_cells@.len()
                    implies !#[trigger] mbit(r.inner.mb@[k].mask(x, y), c) by {
                    lemma_mask_word(fu, 0, 0, len as u32, 0, c as u32);
                }
            }
            assert forall|k: int, l: int| 0 <= l <= k < n implies #[trigger] r.cnt_ok(k, l) && r.stq_ok(k, l) && r.cov_ok(k, l) by {
                assert forall|x: int, y: int| #[trigger] r.counter@[k]@[l].in_box(x, y) implies r.counter@[k]@[l].count(x, y)
                    == r.overlap_spec(k, l, x, y) by {
                    lemma_overlap_zero(r.fa(k), r.fb(l), x, y, height as int, width as int);
                    assert forall|u: int, v: int| 0 <= u < height && 0 <= v < width implies !(#[trigger] r.fa(k)(u, v) && r.fb(l)(
                        u - x,
                        v - y,
                    )) by {}
                }
                assert(r.a@[l] == a@[l]);
                assert(r.a@[k] == a@[k]);
                assert(r.counter@[k]@[l] == counter@[k]@[l]);
                assert(r.inner.coverings2@[k]@[l]@.len() == 0);
                assert(r.inner.mb@[l] == mb@[l]);
                assert forall|da: Vector<i32>, db: Vector<i32>| #[trigger] r.inner.coverings2@[k]@[l]@.contains((da, db)) <==> r.cov_m(
                    k,
                    l,
                    da,
                    db,
                ) by {
                    if r.inner.mb@[l].in_box(db.x as int, db.y as int) {
                        assert(mb@[l].in_box(db.x as int, db.y as int));
                        assert(r.inner.mb@[l].mask(db.x as int, db.y as int) == 0);
                    }
                    assert(!r.cov_m(k, l, da, db));
                    assert(!r.inner.coverings2@[k]@[l]@.contains((da, db)));
                }
            }
        }
        r
    }

    /// Only the counters, flags and list of the pair `(i, j)` may differ from `old`, and
    /// they keep their boxes.
    closed spec fn same_but_pair(self, old: Self, i: int, j: int) -> bool {
        &&& self.problem == old.problem
        &&& self.problem_cells == old.problem_cells
        &&& self.height == old.height
        &&& self.width == old.width
        &&& self.a == old.a
        &&& self.b == old.b
        &&& self.inner.same_but(old.inner, i, j)
        &&& self.counter@.len() == old.counter@.len()
        &&& self.stq@.len() == old.stq@.len()
        &&& forall|k: int| 0 <= k < self.counter@.len() && k != i ==> #[trigger] self.counter@[k] == old.counter@[k]
        &&& forall|k: int| 0 <= k < self.stq@.len() && k != i ==> #[trigger] self.stq@[k] == old.stq@[k]
        &&& self.counter@[i].len() == old.counter@[i].len()
        &&& self.stq@[i].len() == old.stq@[i].len()
        &&& forall|l: int| 0 <= l < self.counter@[i].len() && l != j ==> #[trigger] self.counter@[i]@[l] == old.counter@[i]@[l]
        &&& forall|l: int| 0 <= l < self.stq@[i].len() && l != j ==> #[trigger] self.stq@[i]@[l] == old.stq@[i]@[l]
        &&& self.counter@[i]@[j].wf()
        &&& self.counter@[i]@[j].min_spec() == old.counter@[i]@[j].min_spec()
        &&& self.counter@[i]@[j].max_spec() == old.counter@[i]@[j].max_spec()
        &&& self.stq@[i]@[j].wf()
        &&& self.stq@[i]@[j].min_spec() == old.stq@[i]@[j].min_spec()
        &&& self.stq@[i]@[j].max_spec() == old.stq@[i]@[j].max_spec()
    }

    /// Brings the counters, flags and list of the pair `(i, j)` up to date after the cell
    /// `p` was flipped in `A_i` (`a`) or in `B_j` (`!a`): `add` tells whether it was added.
    fn update_counters(&mut self, add: bool, i: usize, j: usize, a: bool, p: &Vector<i32>)
        requires
            old(self).shape(),
            j <= i < old(self).n(),
            0 <= p.x < old(self).hh(),
            0 <= p.y < old(self).ww(),
            old(self).stq_ok(i as int, j as int),
            old(self).cov_ok(i as int, j as int),
            a ==> old(self).in_a(i as int, p.x as int, p.y as int) == add,
            !a ==> old(self).in_b(j as int, p.x as int, p.y as int) == add,
            forall|x: int, y: int| #[trigger] old(self).counter@[i as int]@[j as int].in_box(x, y) ==> old(self).counter@[i as int]@[j as int].count(x, y)
                == overlap_of(
                if a { toggled(old(self).fa(i as int), *p) } else { old(self).fa(i as int) },
                if a { old(self).fb(j as int) } else { toggled(old(self).fb(j as int), *p) },
                x,
                y,
                old(self).hh() as int,
                old(self).ww() as int,
            ),
        ensures
            final(self).same_but_pair(*old(self), i as int, j as int),
            final(self).cnt_ok(i as int, j as int),
            final(self).stq_ok(i as int, j as int),
            final(self).cov_ok(i as int, j as int),
    {
        let ghost o = *self;
        let ghost h = o.hh() as int;
        let ghost w = o.ww() as int;
        let ghost oc = o.counter@[i as int]@[j as int];
        proof {
            o.lemma_shape();
            assert(o.a@[i as int].wf());
            assert(o.a@[j as int].wf());
            assert(o.counter@[i as int]@[j as int].wf());
            assert(o.inner.mirrored(i as int, j as int)) by {
                lemma_pow2_pos(o.problem_cells@.len());
                lemma2_to64();
                if o.problem_cells@.len() < 31 {
                    lemma_pow2_strictly_increases(o.problem_cells@.len(), 31);
                }
            }
        }
        let xs = if a { self.b[j].cells() } else { self.a[i].cells() };
        proof {
            assert forall|s: int| 0 <= s < xs.len() implies 0 <= (#[trigger] xs@[s]).x < h && 0 <= xs@[s].y < w by {
                if a {
                    assert(o.in_b(j as int, xs@[s].x as int, xs@[s].y as int));
                } else {
                    assert(o.in_a(i as int, xs@[s].x as int, xs@[s].y as int));
                }
            }
        }
        let mut t: usize = 0;
        while t < xs.len()
            invariant
                self.same_but_pair(o, i as int, j as int),
                o.shape(),
                o.inner.mirrored(i as int, j as int),
                j <= i < o.n(),
                h == o.hh(),
                w == o.ww(),
                oc == o.counter@[i as int]@[j as int],
                0 <= p.x < h,
                0 <= p.y < w,
                a ==> o.in_a(i as int, p.x as int, p.y as int) == add,
                !a ==> o.in_b(j as int, p.x as int, p.y as int) == add,
                forall|x: int, y: int| #[trigger] oc.in_box(x, y) ==> oc.count(x, y) == overlap_of(
                    if a { toggled(o.fa(i as int), *p) } else { o.fa(i as int) },
                    if a { o.fb(j as int) } else { toggled(o.fb(j as int), *p) },
                    x,
                    y,
                    h,
                    w,
                ),
                forall|s: int| 0 <= s < xs.len() ==> if a {
                    o.in_b(j as int, (#[trigger] xs@[s]).x as int, xs@[s].y as int)
                } else {
                    o.in_a(i as int, xs@[s].x as int, xs@[s].y as int)
                },
                a ==> forall|x: int, y: int| #[trigger] o.in_b(j as int, x, y) ==> xs@.contains(Vector { x: x as i32, y: y as i32 }),
                !a ==> forall|x: int, y: int| #[trigger] o.in_a(i as int, x, y) ==> xs@.contains(Vector { x: x as i32, y: y as i32 }),
                forall|s: int, u: int| 0 <= s < u < xs.len() ==> #[trigger] xs@[s] != #[trigger] xs@[u],
                forall|s: int| 0 <= s < xs.len() ==> 0 <= (#[trigger] xs@[s]).x < h && 0 <= xs@[s].y < w,
                oc.min_spec().x <= 1 - h,
                oc.min_spec().y <= 1 - w,
                oc.max_spec().x >= h - 1,
                oc.max_spec().y >= w - 1,
                oc.wf(),
                t <= xs.len(),
                self.stq_ok(i as int, j as int),
                self.cov_ok(i as int, j as int),
                forall|x: int, y: int| #[trigger] oc.in_box(x, y) ==> self.counter@[i as int]@[j as int].count(x, y) == if (exists|s: int|
                    0 <= s < t && #[trigger] hits(xs@[s], a, *p, x, y)) {
                    o.overlap_spec(i as int, j as int, x, y) as int
                } else {
                    oc.count(x, y) as int
                },
            decreases xs.len() - t,
        {
            let x = xs[t];
            let d = if a { p.minus(&x) } else { x.minus(p) };
            let di = Vector::new(d.x as isize, d.y as isize);
            let ghost cur = self.counter@[i as int]@[j as int];
            let ghost (dx, dy) = (d.x as int, d.y as int);
            proof {
                assert(hits(x, a, *p, dx, dy));
                assert(oc.in_box(dx, dy));
                if exists|s: int| 0 <= s < t && #[trigger] hits(xs@[s], a, *p, dx, dy) {
                    let s = choose|s: int| 0 <= s < t && #[trigger] hits(xs@[s], a, *p, dx, dy);
                    assert(xs@[s] == x);
                    assert(xs@[s] != xs@[t as int]);
                }
                assert(cur.count(dx, dy) == oc.count(dx, dy));
                if a {
                    lemma_overlap_flip_a(o.fa(i as int), o.fb(j as int), *p, dx, dy, h, w);
                    assert(o.fb(j as int)(p.x - dx, p.y - dy));
                } else {
                    o.lemma_shape();
                    assert forall|u: int, v: int| #[trigger] o.fa(i as int)(u, v) implies 0 <= u < h && 0 <= v < w by {
                        assert(o.in_a(i as int, u, v));
                    }
                    lemma_overlap_flip_b(o.fa(i as int), o.fb(j as int), *p, dx, dy, h, w);
                    assert(o.fa(i as int)(p.x + dx, p.y + dy));
                }
                BitPoly::lemma_total_bound(|u: int, v: int| o.fa(i as int)(u, v) && o.fb(j as int)(u - dx, v - dy), h, w);
                assert(h * w <= 512 * 512) by (nonlinear_arith)
                    requires
                        0 <= h <= 512,
                        0 <= w <= 512,
                ;
            }
            let ghost pre = *self;
            let c = self.counter[i][j].get_mut(&di);
            if add {
                *c += 1;
            } else {
                *c -= 1;
            }
            let v = *c;
            proof {
                cur.lemma_update(self.counter@[i as int]@[j as int], di, v);
                assert(v == o.overlap_spec(i as int, j as int, dx, dy));
            }
            let flips = if add { v == 1 } else { v == 0 };
            let ghost mid = *self;
            proof {
                assert(flips == ((cur.count(dx, dy) == 0) != (v == 0)));
                if flips && !add {
                    assert forall|e: (Vector<i32>, Vector<i32>)| #[trigger] mid.inner.coverings2@[i as int]@[j as int]@.contains(e) implies !has_diff(
                        e,
                        d.x as int,
                        d.y as int,
                    ) by {
                        assert(pre.inner.coverings2@[i as int]@[j as int]@.contains(e));
                        assert(pre.cov_m(i as int, j as int, e.0, e.1));
                        if has_diff(e, d.x as int, d.y as int) {
                            assert(cur.count(e.1.x - e.0.x, e.1.y - e.0.y) == cur.count(dx, dy));
                        }
                    }
                }
            }
            if flips {
                self.inner.update_coverings2_for_feasible_set(!add, i, j, &d);
                self.stq[i][j].flip(&d);
            }
            proof {
                let now = self.counter@[i as int]@[j as int];
                assert forall|x: int, y: int| #[trigger] now.in_box(x, y) implies self.stq@[i as int]@[j as int].flagged(x, y) == (now.count(
                    x,
                    y,
                ) == 0) by {
                    assert(cur.in_box(x, y));
                    assert(pre.stq@[i as int]@[j as int].flagged(x, y) == (cur.count(x, y) == 0));
                }
                assert forall|e: (Vector<i32>, Vector<i32>)| #[trigger] self.inner.coverings2@[i as int]@[j as int]@.contains(e) <==> self.cov_m(
                    i as int,
                    j as int,
                    e.0,
                    e.1,
                ) by {
                    assert(self.inner.mask_pair(i as int, j as int, e.0, e.1) == pre.inner.mask_pair(i as int, j as int, e.0, e.1));
                    assert(pre.inner.coverings2@[i as int]@[j as int]@.contains(e) == pre.cov_m(i as int, j as int, e.0, e.1));
                    if self.inner.mask_pair(i as int, j as int, e.0, e.1) {
                        assert(now.in_box(e.1.x - e.0.x, e.1.y - e.0.y));
                        assert(cur.in_box(e.1.x - e.0.x, e.1.y - e.0.y));
                    }
                }
                assert forall|x: int, y: int| #[trigger] oc.in_box(x, y) implies self.counter@[i as int]@[j as int].count(x, y) == if (exists|
                    s: int,
                | 0 <= s < t + 1 && #[trigger] hits(xs@[s], a, *p, x, y)) {
                    o.overlap_spec(i as int, j as int, x, y) as int
                } else {
                    oc.count(x, y) as int
                } by {
                    assert(now.in_box(x, y));
                    assert(cur.in_box(x, y));
                    if x == dx && y == dy {
                        assert(hits(xs@[t as int], a, *p, x, y));
                    } else {
                        assert(!hits(xs@[t as int], a, *p, x, y));
                        if exists|s: int| 0 <= s < t + 1 && #[trigger] hits(xs@[s], a, *p, x, y) {
                            let s = choose|s: int| 0 <= s < t + 1 && #[trigger] hits(xs@[s], a, *p, x, y);
                            assert(s < t);
                        }
                    }
                }
            }
            t += 1;
        }
        proof {
            let fin = self.counter@[i as int]@[j as int];
            assert forall|x: int, y: int| #[trigger] fin.in_box(x, y) implies fin.count(x, y) == self.overlap_spec(i as int, j as int, x, y) by {
                assert(oc.in_box(x, y));
                assert(self.fa(i as int) =~= o.fa(i as int));
                assert(self.fb(j as int) =~= o.fb(j as int));
                assert(self.overlap_spec(i as int, j as int, x, y) == o.overlap_spec(i as int, j as int, x, y));
                if !(exists|s: int| 0 <= s < t && #[trigger] hits(xs@[s], a, *p, x, y)) {
                    if a {
                        if o.in_b(j as int, p.x - x, p.y - y) {
                            assert(xs@.contains(Vector { x: (p.x - x) as i32, y: (p.y - y) as i32 }));
                            let s = choose|s: int| 0 <= s < xs.len() && xs@[s] == Vector { x: (p.x - x) as i32, y: (p.y - y) as i32 };
                            assert(hits(xs@[s], a, *p, x, y));
                        }
                        lemma_overlap_flip_a(o.fa(i as int), o.fb(j as int), *p, x, y, h, w);
                        assert(!o.fb(j as int)(p.x - x, p.y - y));
                    } else {
                        if o.in_a(i as int, p.x + x, p.y + y) {
                            assert(xs@.contains(Vector { x: (p.x + x) as i32, y: (p.y + y) as i32 }));
                            let s = choose|s: int| 0 <= s < xs.len() && xs@[s] == Vector { x: (p.x + x) as i32, y: (p.y + y) as i32 };
                            assert(hits(xs@[s], a, *p, x, y));
                        }
                        o.lemma_shape();
                        assert forall|u: int, v: int| #[trigger] o.fa(i as int)(u, v) implies 0 <= u < h && 0 <= v < w by {
                            assert(o.in_a(i as int, u, v));
                        }
                        lemma_overlap_flip_b(o.fa(i as int), o.fb(j as int), *p, x, y, h, w);
                        assert(!o.fa(i as int)(p.x + x, p.y + y));
                    }
                }
            }
        }
    }

    /// Only the lists of the pairs that `A_i` (`a`) or `B_i` (`!a`) takes part in may
    /// differ from `old`.
    closed spec fn same_but_lists(self, old: Self, i: int, a: bool) -> bool {
        &&& self.problem == old.problem
        &&& self.problem_cells == old.problem_cells
        &&& self.height == old.height
        &&& self.width == old.width
        &&& self.a == old.a
        &&& self.b == old.b
        &&& self.stq == old.stq
        &&& self.counter == old.counter
        &&& self.inner.full_mask == old.inner.full_mask
        &&& self.inner.ma_inv == old.inner.ma_inv
        &&& self.inner.mb == old.inner.mb
        &&& self.inner.coverings2@.len() == old.inner.coverings2@.len()
        &&& forall|k: int| 0 <= k < self.inner.coverings2@.len() ==> #[trigger] self.inner.coverings2@[k].len() == old.inner.coverings2@[k].len()
        &&& forall|k: int, l: int|
            0 <= k < self.inner.coverings2@.len() && 0 <= l < self.inner.coverings2@[k].len() && !(if a { k == i } else { l == i })
                ==> #[trigger] self.inner.coverings2@[k]@[l] == old.inner.coverings2@[k]@[l]
    }

    /// The pair `e` of the list `(k, l)` is one that a query finds for the move `x` of
    /// `A_i` (`a`) or `B_i` (`!a`) whose mask became `mask`.
    closed spec fn pair_found(self, k: int, l: int, i: int, a: bool, x: Vector<i32>, mask: usize, e: (Vector<i32>, Vector<i32>)) -> bool {
        let f = self.inner.full_mask;
        &&& (if a { e.0 == x } else { e.1 == x })
        &&& self.stq@[k]@[l].flagged(e.1.x - e.0.x, e.1.y - e.0.y)
        &&& if a {
            &&& (l < i || mask & 1 == 1)
            &&& self.inner.mb@[l].in_box(e.1.x as int, e.1.y as int)
            &&& self.inner.mb@[l].mask(e.1.x as int, e.1.y as int) == f & !mask
        } else {
            &&& (k > i || mask & 1 == 0)
            &&& self.inner.ma_inv@[k].in_box(-e.0.x, -e.0.y)
            &&& self.inner.ma_inv@[k].mask(-e.0.x, -e.0.y) == f & !mask
        }
    }

    /// After the mask of `A_i` at `-x` (`a`) or of `B_i` at `x` (`!a`) stopped (`!add`)
    /// or started (`add`) being `mask`, drops or adds the pairs with that move.
    fn update_coverings2_for_mask(&mut self, add: bool, i: usize, a: bool, x: &Vector<i32>, mask: usize)
        requires
            old(self).shape(),
            i < old(self).n(),
            mask <= old(self).inner.full_mask,
            a ==> old(self).inner.ma_inv@[i as int].in_box(-x.x, -x.y),
            !a ==> old(self).inner.mb@[i as int].in_box(x.x as int, x.y as int),
            add ==> forall|k: int, l: int, e: (Vector<i32>, Vector<i32>)|
                0 <= l <= k < old(self).n() && (if a { k == i } else { l == i }) && #[trigger] old(self).inner.coverings2@[k]@[l]@.contains(e)
                    ==> (if a { e.0 != *x } else { e.1 != *x }),
        ensures
            final(self).same_but_lists(*old(self), i as int, a),
            forall|k: int, l: int| 0 <= l <= k < old(self).n() && (if a { k == i } else { l == i }) ==> (no_dup(
                #[trigger] old(self).inner.coverings2@[k]@[l]@,
            ) ==> no_dup(final(self).inner.coverings2@[k]@[l]@)),
            forall|k: int, l: int, e: (Vector<i32>, Vector<i32>)|
                0 <= l <= k < old(self).n() && (if a { k == i } else { l == i }) ==> (#[trigger] final(self).inner.coverings2@[k]@[l]@.contains(e)
                    <==> ((old(self).inner.coverings2@[k]@[l]@.contains(e) && !(!add && mask != 0 && old(self).inner.full_mask & !mask != 0 && (
                if a { e.0 == *x } else { e.1 == *x }))) || (add && mask != 0 && old(self).inner.full_mask & !mask != 0 && old(self).pair_found(
                    k,
                    l,
                    i as int,
                    a,
                    *x,
                    mask,
                    e,
                )))),
    {
        let f = self.inner.full_mask;
        let remaining = f & !mask;
        if mask == 0 || remaining == 0 {
            return;
        }
        let n = self.a.len();
        let ghost o = *self;
        proof {
            o.lemma_shape();
        }
        if !add {
            if a {
                let mut j: usize = 0;
                while j <= i
                    invariant
                        self.same_but_lists(o, i as int, a),
                        o.shape(),
                        a,
                        i < n,
                        n == o.n(),
                        j <= i + 1,
                        forall|l: int| 0 <= l < j ==> (no_dup(#[trigger] o.inner.coverings2@[i as int]@[l]@) ==> no_dup(
                            self.inner.coverings2@[i as int]@[l]@,
                        )),
                        forall|l: int, e: (Vector<i32>, Vector<i32>)| 0 <= l < j ==> (#[trigger] self.inner.coverings2@[i as int]@[l]@.contains(e)
                            <==> (o.inner.coverings2@[i as int]@[l]@.contains(e) && e.0 != *x)),
                        forall|l: int| j <= l <= i ==> #[trigger] self.inner.coverings2@[i as int]@[l] == o.inner.coverings2@[i as int]@[l],
                    decreases i + 1 - j,
                {
                    assert(o.a@[i as int].wf());
                    assert(self.inner.coverings2@[i as int].len() == o.inner.coverings2@[i as int].len());
                    let kept = without(&self.inner.coverings2[i][j], 1, x);
                    self.inner.coverings2[i][j] = kept;
                    j += 1;
                }
            } else {
                let mut j: usize = i;
                while j < n
                    invariant
                        self.same_but_lists(o, i as int, a),
                        o.shape(),
                        !a,
                        i < n,
                        n == o.n(),
                        i <= j <= n,
                        forall|k: int| i <= k < j ==> (no_dup(#[trigger] o.inner.coverings2@[k]@[i as int]@) ==> no_dup(
                            self.inner.coverings2@[k]@[i as int]@,
                        )),
                        forall|k: int, e: (Vector<i32>, Vector<i32>)| i <= k < j ==> (#[trigger] self.inner.coverings2@[k]@[i as int]@.contains(e)
                            <==> (o.inner.coverings2@[k]@[i as int]@.contains(e) && e.1 != *x)),
                        forall|k: int| j <= k < n ==> #[trigger] self.inner.coverings2@[k]@[i as int] == o.inner.coverings2@[k]@[i as int],
                    decreases n - j,
                {
                    assert(o.a@[j as int].wf());
                    assert(self.inner.coverings2@[j as int].len() == o.inner.coverings2@[j as int].len());
                    let kept = without(&self.inner.coverings2[j][i], 2, x);
                    self.inner.coverings2[j][i] = kept;
                    j += 1;
                }
            }
            return;
        }
        proof {
            lemma_masks(f, mask, mask, o.problem_cells@.len());
            lemma_mask_usize(f, mask, mask, 0);
        }
        let edge = i + (mask & 1);
        if a {
            let neg_x = x.negated();
            let mut j: usize = 0;
            while j < edge
                invariant
                    self.same_but_lists(o, i as int, a),
                    o.shape(),
                    a,
                    i < n,
                    n == o.n(),
                    edge == i + (mask & 1),
                    edge <= i + 1,
                    j <= edge,
                    f == o.inner.full_mask,
                    remaining == f & !mask,
                    remaining != 0,
                    remaining <= f,
                    mask != 0,
                    neg_x.x == -x.x,
                    neg_x.y == -x.y,
                    o.inner.ma_inv@[i as int].in_box(-x.x, -x.y),
                    forall|l: int, e: (Vector<i32>, Vector<i32>)| 0 <= l <= i && #[trigger] o.inner.coverings2@[i as int]@[l]@.contains(e) ==> e.0 != *x,
                    forall|l: int| 0 <= l < j ==> (no_dup(#[trigger] o.inner.coverings2@[i as int]@[l]@) ==> no_dup(
                        self.inner.coverings2@[i as int]@[l]@,
                    )),
                    forall|l: int, e: (Vector<i32>, Vector<i32>)| 0 <= l < j ==> (#[trigger] self.inner.coverings2@[i as int]@[l]@.contains(e)
                        <==> (o.inner.coverings2@[i as int]@[l]@.contains(e) || o.pair_found(i as int, l, i as int, a, *x, mask, e))),
                    forall|l: int| j <= l <= i ==> #[trigger] self.inner.coverings2@[i as int]@[l] == o.inner.coverings2@[i as int]@[l],
                decreases edge - j,
            {
                assert(o.a@[i as int].wf());
                assert(o.a@[j as int].wf());
                assert(o.counter@[i as int]@[j as int].wf());
                assert(self.inner.coverings2@[i as int].len() == o.inner.coverings2@[i as int].len());
                let origin = neg_x.plus(self.inner.mb[j].min());
                let found = self.stq[i][j].query(origin, self.inner.mb[j].rect(remaining));
                let ghost before = self.inner.coverings2@[i as int]@[j as int]@;
                proof {
                    assert forall|t: int| 0 <= t < found@.len() implies small(#[trigger] found@[t]) by {
                        assert(o.stq@[i as int]@[j as int].flagged(found@[t].x as int, found@[t].y as int));
                    }
                    assert forall|t: int, u: int| 0 <= t < u < found@.len() implies #[trigger] found@[t] != #[trigger] found@[u] by {
                        assert(query_before(origin, found@[t], found@[u]));
                    }
                }
                push_found(&mut self.inner.coverings2[i][j], &found, x, true);
                proof {
                    let now = self.inner.coverings2@[i as int]@[j as int]@;
                    assert forall|e: (Vector<i32>, Vector<i32>)| #[trigger] now.contains(e) <==> (before.contains(e) || o.pair_found(
                        i as int,
                        j as int,
                        i as int,
                        a,
                        *x,
                        mask,
                        e,
                    )) by {
                        let dd = Vector { x: (e.1.x - x.x) as i32, y: (e.1.y - x.y) as i32 };
                        if o.pair_found(i as int, j as int, i as int, a, *x, mask, e) {
                            assert(found@.contains(dd));
                            let t = choose|t: int| 0 <= t < found@.len() && found@[t] == dd;
                            assert(made(found@[t], *x, true) == e);
                        }
                        if exists|t: int| 0 <= t < found@.len() && e == #[trigger] made(found@[t], *x, true) {
                            let t = choose|t: int| 0 <= t < found@.len() && e == #[trigger] made(found@[t], *x, true);
                            assert(found@[t] == dd);
                        }
                    }
                }
                j += 1;
            }
        } else {
            let mut j: usize = edge;
            while j < n
                invariant
                    self.same_but_lists(o, i as int, a),
                    o.shape(),
                    !a,
                    i < n,
                    n == o.n(),
                    edge == i + (mask & 1),
                    i <= edge <= j <= n,
                    f == o.inner.full_mask,
                    remaining == f & !mask,
                    remaining != 0,
                    remaining <= f,
                    mask != 0,
                    o.inner.mb@[i as int].in_box(x.x as int, x.y as int),
                    forall|k: int, e: (Vector<i32>, Vector<i32>)| i <= k < n && #[trigger] o.inner.coverings2@[k]@[i as int]@.contains(e) ==> e.1 != *x,
                    forall|k: int| edge <= k < j ==> (no_dup(#[trigger] o.inner.coverings2@[k]@[i as int]@) ==> no_dup(
                        self.inner.coverings2@[k]@[i as int]@,
                    )),
                    forall|k: int, e: (Vector<i32>, Vector<i32>)| edge <= k < j ==> (#[trigger] self.inner.coverings2@[k]@[i as int]@.contains(e)
                        <==> (o.inner.coverings2@[k]@[i as int]@.contains(e) || o.pair_found(k, i as int, i as int, a, *x, mask, e))),
                    forall|k: int| i <= k < n && (k < edge || j <= k) ==> #[trigger] self.inner.coverings2@[k]@[i as int] == o.inner.coverings2@[k]@[i as int],
                decreases n - j,
            {
                assert(o.a@[i as int].wf());
                assert(o.a@[j as int].wf());
                assert(o.counter@[j as int]@[i as int].wf());
                assert(self.inner.coverings2@[j as int].len() == o.inner.coverings2@[j as int].len());
                let origin = x.plus(self.inner.ma_inv[j].min());
                let found = self.stq[j][i].query(origin, self.inner.ma_inv[j].rect(remaining));
                let ghost before = self.inner.coverings2@[j as int]@[i as int]@;
                proof {
                    assert forall|t: int| 0 <= t < found@.len() implies small(#[trigger] found@[t]) by {
                        assert(o.stq@[j as int]@[i as int].flagged(found@[t].x as int, found@[t].y as int));
                    }
                    assert forall|t: int, u: int| 0 <= t < u < found@.len() implies #[trigger] found@[t] != #[trigger] found@[u] by {
                        assert(query_before(origin, found@[t], found@[u]));
                    }
                }
                push_found(&mut self.inner.coverings2[j][i], &found, x, false);
                proof {
                    let now = self.inner.coverings2@[j as int]@[i as int]@;
                    assert forall|e: (Vector<i32>, Vector<i32>)| #[trigger] now.contains(e) <==> (before.contains(e) || o.pair_found(
                        j as int,
                        i as int,
                        i as int,
                        a,
                        *x,
                        mask,
                        e,
                    )) by {
                        let dd = Vector { x: (x.x - e.0.x) as i32, y: (x.y - e.0.y) as i32 };
                        if o.pair_found(j as int, i as int, i as int, a, *x, mask, e) {
                            assert(found@.contains(dd));
                            let t = choose|t: int| 0 <= t < found@.len() && found@[t] == dd;
                            assert(made(found@[t], *x, false) == e);
                        }
                        if exists|t: int| 0 <= t < found@.len() && e == #[trigger] made(found@[t], *x, false) {
                            let t = choose|t: int| 0 <= t < found@.len() && e == #[trigger] made(found@[t], *x, false);
                            assert(found@[t] == dd);
                        }
                    }
                }
                j += 1;
            }
        }
    }

    /// Every pair keeps its flags in step with its counters and its list in step with the
    /// masks and counters.
    closed spec fn pairs_ok(self) -> bool {
        forall|k: int, l: int| 0 <= l <= k < self.n() ==> #[trigger] self.stq_ok(k, l) && self.cov_ok(k, l)
    }

    /// Flips the bit `k` (the problem's cell `t`) of the mask of `A_i` at `-x` (`a`) or of
    /// `B_i` at `x` (`!a`), and brings the lists up to date.
    fn update_mask_bit(&mut self, i: usize, a: bool, x: &Vector<i32>, k: usize, Ghost(t): Ghost<nat>)
        requires
            old(self).shape(),
            old(self).pairs_ok(),
            i < old(self).n(),
            t < old(self).problem_cells@.len(),
            k == 1usize << t,
            a ==> old(self).inner.ma_inv@[i as int].in_box(-x.x, -x.y),
            !a ==> old(self).inner.mb@[i as int].in_box(x.x as int, x.y as int),
        ensures
            final(self).shape(),
            final(self).pairs_ok(),
            final(self).problem == old(self).problem,
            final(self).problem_cells == old(self).problem_cells,
            final(self).height == old(self).height,
            final(self).width == old(self).width,
            final(self).a == old(self).a,
            final(self).b == old(self).b,
            final(self).counter == old(self).counter,
            final(self).stq == old(self).stq,
            a ==> final(self).inner.mb == old(self).inner.mb,
            !a ==> final(self).inner.ma_inv == old(self).inner.ma_inv,
            forall|k2: int| 0 <= k2 < old(self).n() && k2 != i ==> #[trigger] final(self).inner.ma_inv@[k2] == old(self).inner.ma_inv@[k2]
                && final(self).inner.mb@[k2] == old(self).inner.mb@[k2],
            a ==> forall|ex: int, ey: int| #[trigger] final(self).inner.ma_inv@[i as int].in_box(ex, ey) ==> final(self).inner.ma_inv@[i as int].mask(
                ex,
                ey,
            ) == if ex == -x.x && ey == -x.y {
                old(self).inner.ma_inv@[i as int].mask(ex, ey) ^ k
            } else {
                old(self).inner.ma_inv@[i as int].mask(ex, ey)
            },
            !a ==> forall|ex: int, ey: int| #[trigger] final(self).inner.mb@[i as int].in_box(ex, ey) ==> final(self).inner.mb@[i as int].mask(
                ex,
                ey,
            ) == if ex == x.x && ey == x.y {
                old(self).inner.mb@[i as int].mask(ex, ey) ^ k
            } else {
                old(self).inner.mb@[i as int].mask(ex, ey)
            },
    {
        let ghost o = *self;
        proof {
            o.lemma_shape();
            assert(o.a@[i as int].wf());
            crate::check::check::lemma_shl_pow2(t as usize);
            assert(o.pairs_ok());
        }
        let neg_x = x.negated();
        let ghost m_old = if a { o.inner.ma_inv@[i as int].mask(-x.x, -x.y) } else { o.inner.mb@[i as int].mask(x.x as int, x.y as int) };
        proof {
            if a {
                o.inner.ma_inv@[i as int].lemma_mask_bound(-x.x, -x.y);
            } else {
                o.inner.mb@[i as int].lemma_mask_bound(x.x as int, x.y as int);
            }
            let f = o.inner.full_mask;
            lemma_mask_usize(f, m_old, m_old, t as usize);
            lemma_u32_shl_pow2(o.problem_cells@.len() as u32);
            lemma_mask_word(f as u32, m_old as u32, 0, o.problem_cells@.len() as u32, t as u32, 0);
        }
        let flipped = if a { self.inner.ma_inv[i].flip(&neg_x, k) } else { self.inner.mb[i].flip(x, k) };
        let ghost mid = *self;
        proof {
            assert(mid.shape());
        }
        self.update_coverings2_for_mask(false, i, a, x, flipped ^ k);
        let ghost r1 = *self;
        let ghost f = o.inner.full_mask;
        let ghost c = o.problem_cells@.len();
        proof {
            assert(flipped ^ k == m_old);
            let live_old = m_old != 0 && f & !m_old != 0;
            assert forall|kk: int, ll: int, e: (Vector<i32>, Vector<i32>)|
                0 <= ll <= kk < r1.n() && (if a { kk == i } else { ll == i }) && #[trigger] r1.inner.coverings2@[kk]@[ll]@.contains(e)
                implies (if a { e.0 != *x } else { e.1 != *x }) by {
                assert(mid.inner.coverings2@[kk]@[ll]@.contains(e));
                if !live_old && (if a { e.0 == *x } else { e.1 == *x }) {
                    assert(o.pairs_ok());
                    assert(r1.n() == o.n());
                    assert(0 <= ll <= kk < o.n());
                    assert(o.stq_ok(kk, ll));
                    assert(o.cov_ok(kk, ll));
                    assert(o.inner.coverings2@[kk]@[ll] == mid.inner.coverings2@[kk]@[ll]);
                    assert(o.cov_m(kk, ll, e.0, e.1));
                    if a {
                        let mbv = o.inner.mb@[ll].mask(e.1.x as int, e.1.y as int);
                        assert(o.a@[ll].wf());
                        o.inner.mb@[ll].lemma_mask_bound(e.1.x as int, e.1.y as int);
                        lemma_masks(f, m_old, mbv, c);
                        lemma_masks(f, mbv, m_old, c);
                    }
                }
            }
        }
        self.update_coverings2_for_mask(true, i, a, x, flipped);
        proof {
            let fin = *self;
            assert(fin.shape());
            assert forall|kk: int, ll: int| 0 <= ll <= kk < fin.n() implies #[trigger] fin.stq_ok(kk, ll) && fin.cov_ok(kk, ll) by {
                assert(o.pairs_ok());
                assert(fin.n() == o.n());
                assert(0 <= ll <= kk < o.n());
                assert(o.stq_ok(kk, ll));
                assert(o.cov_ok(kk, ll));
                assert(o.a@[kk].wf());
                assert(o.a@[ll].wf());
                let affected = if a { kk == i } else { ll == i };
                if !affected {
                    assert(fin.inner.coverings2@[kk]@[ll] == o.inner.coverings2@[kk]@[ll]);
                    assert(fin.inner.ma_inv@[kk] == o.inner.ma_inv@[kk]);
                    assert(fin.inner.mb@[ll] == o.inner.mb@[ll]);
                    assert forall|da: Vector<i32>, db: Vector<i32>| fin.cov_m(kk, ll, da, db) == o.cov_m(kk, ll, da, db) by {}
                } else {
                    assert forall|da: Vector<i32>, db: Vector<i32>| #[trigger] fin.inner.coverings2@[kk]@[ll]@.contains((da, db))
                        <==> fin.cov_m(kk, ll, da, db) by {
                        let e = (da, db);
                        let at_x = if a { da == *x } else { db == *x };
                        assert(fin.inner.ma_inv@[kk].min_spec() == o.inner.ma_inv@[kk].min_spec());
                        assert(fin.inner.ma_inv@[kk].max_spec() == o.inner.ma_inv@[kk].max_spec());
                        assert(fin.inner.mb@[ll].min_spec() == o.inner.mb@[ll].min_spec());
                        assert(fin.inner.mb@[ll].max_spec() == o.inner.mb@[ll].max_spec());
                        assert(r1.inner.coverings2@[kk]@[ll]@.contains(e) == (mid.inner.coverings2@[kk]@[ll]@.contains(e) && !(
                            m_old != 0 && f & !m_old != 0 && at_x)));
                        assert(mid.inner.coverings2@[kk]@[ll] == o.inner.coverings2@[kk]@[ll]);
                        if !at_x {
                            assert(fin.inner.coverings2@[kk]@[ll]@.contains(e) == r1.inner.coverings2@[kk]@[ll]@.contains(e));
                            assert(fin.inner.coverings2@[kk]@[ll]@.contains(e) == o.inner.coverings2@[kk]@[ll]@.contains(e));
                            assert(o.inner.coverings2@[kk]@[ll]@.contains(e) == o.cov_m(kk, ll, da, db));
                            if a {
                                assert(fin.inner.ma_inv@[kk].mask(-da.x, -da.y) == o.inner.ma_inv@[kk].mask(-da.x, -da.y)
                                    || !fin.inner.ma_inv@[kk].in_box(-da.x, -da.y));
                            } else {
                                assert(fin.inner.mb@[ll].mask(db.x as int, db.y as int) == o.inner.mb@[ll].mask(db.x as int, db.y as int)
                                    || !fin.inner.mb@[ll].in_box(db.x as int, db.y as int));
                            }
                            assert(fin.cov_m(kk, ll, da, db) == o.cov_m(kk, ll, da, db));
                        } else {
                            let mv = flipped;
                            assert(!r1.inner.coverings2@[kk]@[ll]@.contains(e));
                            assert(fin.inner.coverings2@[kk]@[ll]@.contains(e) == (mv != 0 && f & !mv != 0 && mid.pair_found(
                                kk,
                                ll,
                                i as int,
                                a,
                                *x,
                                mv,
                                e,
                            )));
                            assert(mid.stq@[kk]@[ll] == o.stq@[kk]@[ll]);
                            assert(o.counter@[kk]@[ll].wf());
                            if a {
                                let mbv = fin.inner.mb@[ll].mask(db.x as int, db.y as int);
                                assert(da == *x);
                                assert(fin.inner.ma_inv@[kk].in_box(-da.x, -da.y));
                                assert(fin.inner.ma_inv@[kk].mask(-da.x, -da.y) == mv);
                                if fin.inner.mb@[ll].in_box(db.x as int, db.y as int) {
                                    fin.inner.mb@[ll].lemma_mask_bound(db.x as int, db.y as int);
                                    fin.inner.ma_inv@[kk].lemma_mask_bound(-x.x, -x.y);
                                    lemma_masks(f, mv, mbv, c);
                                    lemma_masks(f, mbv, mv, c);
                                    assert(o.counter@[kk]@[ll].in_box(db.x - da.x, db.y - da.y));
                                }
                            } else {
                                let mav = fin.inner.ma_inv@[kk].mask(-da.x, -da.y);
                                assert(db == *x);
                                assert(fin.inner.mb@[ll].in_box(db.x as int, db.y as int));
                                assert(fin.inner.mb@[ll].mask(db.x as int, db.y as int) == mv);
                                if fin.inner.ma_inv@[kk].in_box(-da.x, -da.y) {
                                    fin.inner.ma_inv@[kk].lemma_mask_bound(-da.x, -da.y);
                                    fin.inner.mb@[ll].lemma_mask_bound(x.x as int, x.y as int);
                                    lemma_masks(f, mv, mav, c);
                                    lemma_masks(f, mav, mv, c);
                                    lemma_mask_usize(f, mv, mv, 0);
                                    assert(o.counter@[kk]@[ll].in_box(db.x - da.x, db.y - da.y));
                                }
                            }
                        }
                    }
                    assert(no_dup(fin.inner.coverings2@[kk]@[ll]@));
                }
            }
        }
    }

    /// The masks of `A_i` agree with the cells `fa`.
    closed spec fn a_masks_of(self, i: int, fa: spec_fn(int, int) -> bool) -> bool {
        let ma = self.inner.ma_inv@[i];
        forall|ex: int, ey: int, k: int| #[trigger] ma.in_box(ex, ey) && 0 <= k < self.problem_cells@.len() ==> #[trigger] mbit(
            ma.mask(ex, ey),
            k,
        ) == fa(self.problem_cells@[k].x + ex, self.problem_cells@[k].y + ey)
    }

    /// The masks of `B_j` agree with the cells `fb`.
    closed spec fn b_masks_of(self, j: int, fb: spec_fn(int, int) -> bool) -> bool {
        let mb = self.inner.mb@[j];
        forall|x: int, y: int, k: int| #[trigger] mb.in_box(x, y) && 0 <= k < self.problem_cells@.len() ==> #[trigger] mbit(
            mb.mask(x, y),
            k,
        ) == fb(self.problem_cells@[k].x - x, self.problem_cells@[k].y - y)
    }

    /// Brings the masks of `A_i` (`a`) or `B_i` (`!a`) up to date after their cell `p`
    /// flipped, with the lists.
    fn update_mask(&mut self, i: usize, a: bool, p: &Vector<i32>)
        requires
            old(self).shape(),
            old(self).pairs_ok(),
            i < old(self).n(),
            0 <= p.x < old(self).hh(),
            0 <= p.y < old(self).ww(),
            a ==> old(self).a_masks_of(i as int, toggled(old(self).fa(i as int), *p)),
            !a ==> old(self).b_masks_of(i as int, toggled(old(self).fb(i as int), *p)),
        ensures
            final(self).shape(),
            final(self).pairs_ok(),
            final(self).problem == old(self).problem,
            final(self).problem_cells == old(self).problem_cells,
            final(self).height == old(self).height,
            final(self).width == old(self).width,
            final(self).a == old(self).a,
            final(self).b == old(self).b,
            final(self).counter == old(self).counter,
            final(self).stq == old(self).stq,
            a ==> final(self).inner.mb == old(self).inner.mb,
            !a ==> final(self).inner.ma_inv == old(self).inner.ma_inv,
            forall|k2: int| 0 <= k2 < old(self).n() && k2 != i ==> #[trigger] final(self).inner.ma_inv@[k2] == old(self).inner.ma_inv@[k2]
                && final(self).inner.mb@[k2] == old(self).inner.mb@[k2],
            a ==> final(self).a_masks_of(i as int, old(self).fa(i as int)),
            !a ==> final(self).b_masks_of(i as int, old(self).fb(i as int)),
    {
        let ghost o = *self;
        let ghost c = o.problem_cells@.len();
        let ghost fo = if a { o.fa(i as int) } else { o.fb(i as int) };
        let ghost ft = toggled(fo, *p);
        proof {
            o.lemma_shape();
            assert(o.a@[i as int].wf());
        }
        let mut t: usize = 0;
        while t < self.problem_cells.len()
            invariant
                self.shape(),
                self.pairs_ok(),
                o.shape(),
                i < o.n(),
                c == o.problem_cells@.len(),
                0 <= p.x < o.hh(),
                0 <= p.y < o.ww(),
                fo == if a { o.fa(i as int) } else { o.fb(i as int) },
                ft == toggled(fo, *p),
                t <= c,
                self.problem == o.problem,
                self.problem_cells == o.problem_cells,
                self.height == o.height,
                self.width == o.width,
                self.a == o.a,
                self.b == o.b,
                self.counter == o.counter,
                self.stq == o.stq,
                a ==> self.inner.mb == o.inner.mb,
                !a ==> self.inner.ma_inv == o.inner.ma_inv,
                forall|k2: int| 0 <= k2 < o.n() && k2 != i ==> #[trigger] self.inner.ma_inv@[k2] == o.inner.ma_inv@[k2] && self.inner.mb@[k2]
                    == o.inner.mb@[k2],
                a ==> forall|ex: int, ey: int, k: int| #[trigger] self.inner.ma_inv@[i as int].in_box(ex, ey) && 0 <= k < c ==> #[trigger] mbit(
                    self.inner.ma_inv@[i as int].mask(ex, ey),
                    k,
                ) == if k < t {
                    fo(o.problem_cells@[k].x + ex, o.problem_cells@[k].y + ey)
                } else {
                    ft(o.problem_cells@[k].x + ex, o.problem_cells@[k].y + ey)
                },
                !a ==> forall|x: int, y: int, k: int| #[trigger] self.inner.mb@[i as int].in_box(x, y) && 0 <= k < c ==> #[trigger] mbit(
                    self.inner.mb@[i as int].mask(x, y),
                    k,
                ) == if k < t {
                    fo(o.problem_cells@[k].x - x, o.problem_cells@[k].y - y)
                } else {
                    ft(o.problem_cells@[k].x - x, o.problem_cells@[k].y - y)
                },
            decreases c - t,
        {
            let q = self.problem_cells[t];
            let x = q.minus(p);
            let ghost before = *self;
            proof {
                self.lemma_shape();
                assert(self.a@[i as int].wf());
                crate::check::check::lemma_shl_pow2(t);
            }
            self.update_mask_bit(i, a, &x, 1usize << t, Ghost(t as nat));
            proof {
                let f = o.inner.full_mask;
                if a {
                    let (px, py) = (-x.x, -x.y);
                    assert forall|ex: int, ey: int, k: int| #[trigger] self.inner.ma_inv@[i as int].in_box(ex, ey) && 0 <= k < c implies #[trigger] mbit(
                        self.inner.ma_inv@[i as int].mask(ex, ey),
                        k,
                    ) == if k < t + 1 {
                        fo(o.problem_cells@[k].x + ex, o.problem_cells@[k].y + ey)
                    } else {
                        ft(o.problem_cells@[k].x + ex, o.problem_cells@[k].y + ey)
                    } by {
                        let mo = before.inner.ma_inv@[i as int].mask(ex, ey);
                        assert(before.inner.ma_inv@[i as int].in_box(ex, ey));
                        assert(mbit(mo, k) == if k < t {
                            fo(o.problem_cells@[k].x + ex, o.problem_cells@[k].y + ey)
                        } else {
                            ft(o.problem_cells@[k].x + ex, o.problem_cells@[k].y + ey)
                        });
                        if ex == px && ey == py {
                            before.inner.ma_inv@[i as int].lemma_mask_bound(ex, ey);
                            lemma_mask_usize(f, mo, mo, t);
                            lemma_u32_shl_pow2(c as u32);
                            assert(f as u32 == ((1u32 << (c as u32)) - 1u32) as u32);
                            lemma_mask_word(f as u32, mo as u32, 0, c as u32, t as u32, k as u32);
                        }
                    }
                } else {
                    assert forall|ex: int, ey: int, k: int| #[trigger] self.inner.mb@[i as int].in_box(ex, ey) && 0 <= k < c implies #[trigger] mbit(
                        self.inner.mb@[i as int].mask(ex, ey),
                        k,
                    ) == if k < t + 1 {
                        fo(o.problem_cells@[k].x - ex, o.problem_cells@[k].y - ey)
                    } else {
                        ft(o.problem_cells@[k].x - ex, o.problem_cells@[k].y - ey)
                    } by {
                        let mo = before.inner.mb@[i as int].mask(ex, ey);
                        assert(before.inner.mb@[i as int].in_box(ex, ey));
                        assert(mbit(mo, k) == if k < t {
                            fo(o.problem_cells@[k].x - ex, o.problem_cells@[k].y - ey)
                        } else {
                            ft(o.problem_cells@[k].x - ex, o.problem_cells@[k].y - ey)
                        });
                        if ex == x.x && ey == x.y {
                            before.inner.mb@[i as int].lemma_mask_bound(ex, ey);
                            lemma_mask_usize(f, mo, mo, t);
                            lemma_u32_shl_pow2(c as u32);
                            assert(f as u32 == ((1u32 << (c as u32)) - 1u32) as u32);
                            lemma_mask_word(f as u32, mo as u32, 0, c as u32, t as u32, k as u32);
                        }
                    }
                }
            }
            t += 1;
        }
    }

    /// A change confined to the pair `(i, j)` keeps the shape and what the other pairs and
    /// the masks satisfy.
    proof fn lemma_same_but_pair(self, old: Self, i: int, j: int)
        requires
            old.shape(),
            self.same_but_pair(old, i, j),
            0 <= j <= i < old.n(),
        ensures
            self.shape(),
            self.n() == old.n(),
            self.inner.ma_inv == old.inner.ma_inv,
            self.inner.mb == old.inner.mb,
            forall|k: int, l: int| 0 <= l <= k < old.n() && (k != i || l != j) ==> (#[trigger] self.stq_ok(k, l) == old.stq_ok(k, l))
                && self.cov_ok(k, l) == old.cov_ok(k, l) && self.cnt_ok(k, l) == old.cnt_ok(k, l),
            forall|k: int| 0 <= k < old.n() ==> (#[trigger] self.a_ok(k) == old.a_ok(k)) && self.b_ok(k) == old.b_ok(k),
            forall|k: int, fa: spec_fn(int, int) -> bool| 0 <= k < old.n() ==> #[trigger] self.a_masks_of(k, fa) == old.a_masks_of(k, fa),
            forall|k: int, fb: spec_fn(int, int) -> bool| 0 <= k < old.n() ==> #[trigger] self.b_masks_of(k, fb) == old.b_masks_of(k, fb),
            forall|k: int, l: int, x: int, y: int| 0 <= l <= k < old.n() ==> #[trigger] self.overlap_spec(k, l, x, y) == old.overlap_spec(k, l, x, y),
            forall|k: int| 0 <= k < old.n() ==> #[trigger] self.fa(k) == old.fa(k) && self.fb(k) == old.fb(k),
    {
        assert forall|k: int| 0 <= k < old.n() implies #[trigger] self.fa(k) == old.fa(k) && self.fb(k) == old.fb(k) by {
            assert(self.fa(k) =~= old.fa(k));
            assert(self.fb(k) =~= old.fb(k));
        }
        assert forall|k: int, l: int| 0 <= l <= k < old.n() && (k != i || l != j) implies (#[trigger] self.stq_ok(k, l) == old.stq_ok(k, l))
            && self.cov_ok(k, l) == old.cov_ok(k, l) && self.cnt_ok(k, l) == old.cnt_ok(k, l) by {
            assert(old.a@[k].wf());
            assert(self.counter@[k]@[l] == old.counter@[k]@[l]);
            assert(self.stq@[k]@[l] == old.stq@[k]@[l]);
            assert(self.inner.coverings2@[k]@[l] == old.inner.coverings2@[k]@[l]);
            assert(self.fa(k) =~= old.fa(k));
            assert(self.fb(l) =~= old.fb(l));
            assert forall|da: Vector<i32>, db: Vector<i32>| self.cov_m(k, l, da, db) == old.cov_m(k, l, da, db) by {}
            assert forall|x: int, y: int| self.overlap_spec(k, l, x, y) == old.overlap_spec(k, l, x, y) by {}
        }
        assert forall|k: int, l: int, x: int, y: int| 0 <= l <= k < old.n() implies #[trigger] self.overlap_spec(k, l, x, y) == old.overlap_spec(
            k,
            l,
            x,
            y,
        ) by {
            assert(self.fa(k) =~= old.fa(k));
            assert(self.fb(l) =~= old.fb(l));
        }
        assert forall|k: int| 0 <= k < old.n() implies self.inner.coverings2@[k].len() == old.inner.coverings2@[k].len() by {
            if k != i {
                assert(self.inner.coverings2@[k] == old.inner.coverings2@[k]);
            }
        }
        assert(self.shape()) by {
            assert forall|k: int, l: int| 0 <= l <= k < old.n() implies #[trigger] self.counter@[k]@[l].wf() && self.stq@[k]@[l].wf() by {
                assert(old.counter@[k]@[l].wf());
                if k != i {
                    assert(self.counter@[k] == old.counter@[k]);
                    assert(self.stq@[k] == old.stq@[k]);
                }
            }
        }
    }

    /// The pair `(k, l)` takes part in a change of `A_i` (`a`) or `B_i` (`!a`).
    spec fn changed(i: int, a: bool, k: int, l: int) -> bool {
        if a {
            k == i
        } else {
            l == i
        }
    }

    /// The counters of `(k, l)` are the overlaps before the cell `p` flipped in `A_k`
    /// (`a`) or in `B_l` (`!a`), the cells being those of `o`.
    closed spec fn pre_counts(self, o: Self, k: int, l: int, a: bool, p: Vector<i32>) -> bool {
        let c = self.counter@[k]@[l];
        forall|x: int, y: int| #[trigger] c.in_box(x, y) ==> c.count(x, y) == overlap_of(
            if a { toggled(o.fa(k), p) } else { o.fa(k) },
            if a { o.fb(l) } else { toggled(o.fb(l), p) },
            x,
            y,
            o.hh() as int,
            o.ww() as int,
        )
    }

    /// After the cell `p` of `A_i` (`a`) or of `B_i` (`!a`) flipped (`add`: it came in),
    /// brings the counters, flags, masks and lists up to date.
    fn update(&mut self, add: bool, a: bool, i: usize, p: &Vector<i32>)
        requires
            old(self).shape(),
            old(self).pairs_ok(),
            i < old(self).n(),
            0 <= p.x < old(self).hh(),
            0 <= p.y < old(self).ww(),
            a ==> old(self).in_a(i as int, p.x as int, p.y as int) == add,
            !a ==> old(self).in_b(i as int, p.x as int, p.y as int) == add,
            a ==> old(self).a_masks_of(i as int, toggled(old(self).fa(i as int), *p)),
            !a ==> old(self).b_masks_of(i as int, toggled(old(self).fb(i as int), *p)),
            forall|k: int| 0 <= k < old(self).n() && !(a && k == i) ==> #[trigger] old(self).a_ok(k),
            forall|k: int| 0 <= k < old(self).n() && !(!a && k == i) ==> #[trigger] old(self).b_ok(k),
            forall|k: int, l: int| 0 <= l <= k < old(self).n() && Self::changed(i as int, a, k, l) ==> #[trigger] old(self).pre_counts(
                *old(self),
                k,
                l,
                a,
                *p,
            ),
            forall|k: int, l: int| 0 <= l <= k < old(self).n() && !Self::changed(i as int, a, k, l) ==> #[trigger] old(self).cnt_ok(k, l),
        ensures
            final(self).wf(),
            final(self).problem == old(self).problem,
            final(self).problem_cells == old(self).problem_cells,
            final(self).height == old(self).height,
            final(self).width == old(self).width,
            final(self).a == old(self).a,
            final(self).b == old(self).b,
    {
        let ghost o = *self;
        let n = self.a.len();
        let mut j: usize = 0;
        while j < n
            invariant
                o.shape(),
                self.shape(),
                self.pairs_ok(),
                n == o.n(),
                i < n,
                j <= n,
                0 <= p.x < o.hh(),
                0 <= p.y < o.ww(),
                a ==> o.in_a(i as int, p.x as int, p.y as int) == add,
                !a ==> o.in_b(i as int, p.x as int, p.y as int) == add,
                self.problem == o.problem,
                self.problem_cells == o.problem_cells,
                self.height == o.height,
                self.width == o.width,
                self.a == o.a,
                self.b == o.b,
                self.inner.ma_inv == o.inner.ma_inv,
                self.inner.mb == o.inner.mb,
                forall|k: int| 0 <= k < n ==> #[trigger] self.fa(k) == o.fa(k) && self.fb(k) == o.fb(k),
                forall|k: int, l: int|
                    0 <= l <= k < n && Self::changed(i as int, a, k, l) && (if a { l >= j } else { k >= j }) ==> #[trigger] self.pre_counts(
                        o,
                        k,
                        l,
                        a,
                        *p,
                    ),
                forall|k: int, l: int|
                    0 <= l <= k < n && !(Self::changed(i as int, a, k, l) && (if a { l >= j } else { k >= j })) ==> #[trigger] self.cnt_ok(k, l),
            decreases n - j,
        {
            let (pi, pj) = if a { (i, j) } else { (j, i) };
            if pi >= pj {
                let ghost before = *self;
                proof {
                    assert(before.pairs_ok());
                    assert(before.stq_ok(pi as int, pj as int));
                    assert(before.cov_ok(pi as int, pj as int));
                    assert(before.fa(pi as int) == o.fa(pi as int));
                    assert(before.fb(pj as int) == o.fb(pj as int));
                    assert(before.pre_counts(o, pi as int, pj as int, a, *p));
                    assert(before.hh() == o.hh() && before.ww() == o.ww());
                }
                self.update_counters(add, pi, pj, a, p);
                proof {
                    self.lemma_same_but_pair(before, pi as int, pj as int);
                    assert forall|k: int, l: int| 0 <= l <= k < n implies #[trigger] self.stq_ok(k, l) && self.cov_ok(k, l) by {
                        if k != pi || l != pj {
                            assert(before.stq_ok(k, l) && before.cov_ok(k, l));
                        }
                    }
                    assert forall|k: int| 0 <= k < n implies #[trigger] self.fa(k) == o.fa(k) && self.fb(k) == o.fb(k) by {
                        assert(before.fa(k) == o.fa(k));
                    }
                    assert forall|k: int, l: int|
                        0 <= l <= k < n && Self::changed(i as int, a, k, l) && (if a { l >= j + 1 } else { k >= j + 1 }) implies #[trigger] self.pre_counts(
                            o,
                            k,
                            l,
                            a,
                            *p,
                        ) by {
                        assert(before.pre_counts(o, k, l, a, *p));
                        assert(self.counter@[k]@[l] == before.counter@[k]@[l]);
                    }
                    assert forall|k: int, l: int|
                        0 <= l <= k < n && !(Self::changed(i as int, a, k, l) && (if a { l >= j + 1 } else { k >= j + 1 })) implies #[trigger] self.cnt_ok(
                            k,
                            l,
                        ) by {
                        if k != pi || l != pj {
                            assert(before.cnt_ok(k, l));
                        }
                    }
                }
            }
            j += 1;
        }
        proof {
            assert(self.fa(i as int) == o.fa(i as int) && self.fb(i as int) == o.fb(i as int));
            assert(self.hh() == o.hh());
        }
        let ghost mid = *self;
        self.update_mask(i, a, p);
        proof {
            let fin = *self;
            assert forall|k: int| 0 <= k < n implies #[trigger] fin.a_ok(k) && fin.b_ok(k) by {
                assert(mid.fa(k) == o.fa(k) && mid.fb(k) == o.fb(k));
                if a && k == i {
                    assert(fin.a_masks_of(k, o.fa(k)));
                } else {
                    assert(o.a_ok(k));
                    assert(fin.inner.ma_inv@[k] == o.inner.ma_inv@[k]);
                }
                if !a && k == i {
                    assert(fin.b_masks_of(k, o.fb(k)));
                } else {
                    assert(o.b_ok(k));
                    assert(fin.inner.mb@[k] == o.inner.mb@[k]);
                }
            }
            assert forall|k: int, l: int| 0 <= l <= k < n implies #[trigger] fin.cnt_ok(k, l) && fin.stq_ok(k, l) && fin.cov_ok(k, l) by {
                assert(mid.cnt_ok(k, l));
                assert(fin.pairs_ok());
                assert(fin.n() == n);
                assert(fin.stq_ok(k, l));
                assert(fin.cov_ok(k, l));
                assert(fin.fa(k) =~= mid.fa(k));
                assert(fin.fb(l) =~= mid.fb(l));
            }
        }
    }

    /// `self` is `old` with the cell `p` of `A_i` (`a`) or of `B_i` (`!a`) flipped, and
    /// everything else as it was.
    proof fn lemma_after_cell_flip(self, old: Self, i: int, a: bool, p: Vector<i32>, add: bool)
        requires
            old.wf(),
            0 <= i < old.n(),
            0 <= p.x < old.hh(),
            0 <= p.y < old.ww(),
            self.problem == old.problem,
            self.problem_cells == old.problem_cells,
            self.height == old.height,
            self.width == old.width,
            self.stq == old.stq,
            self.counter == old.counter,
            self.inner == old.inner,
            a ==> self.b == old.b,
            !a ==> self.a == old.a,
            a ==> self.a@.len() == old.a@.len(),
            !a ==> self.b@.len() == old.b@.len(),
            a ==> forall|k: int| 0 <= k < old.n() && k != i ==> #[trigger] self.a@[k] == old.a@[k],
            !a ==> forall|k: int| 0 <= k < old.n() && k != i ==> #[trigger] self.b@[k] == old.b@[k],
            a ==> self.a@[i].wf() && self.a@[i].h() == old.a@[i].h() && self.a@[i].w() == old.a@[i].w(),
            !a ==> self.b@[i].wf() && self.b@[i].h() == old.b@[i].h() && self.b@[i].w() == old.b@[i].w(),
            a ==> forall|x: int, y: int| #[trigger] self.a@[i].cell(x, y) == (old.a@[i].cell(x, y) != (x == p.x && y == p.y)),
            !a ==> forall|x: int, y: int| #[trigger] self.b@[i].cell(x, y) == (old.b@[i].cell(x, y) != (x == p.x && y == p.y)),
            a ==> add == self.a@[i].cell(p.x as int, p.y as int),
            !a ==> add == self.b@[i].cell(p.x as int, p.y as int),
        ensures
            self.shape(),
            self.pairs_ok(),
            self.n() == old.n(),
            a ==> self.in_a(i, p.x as int, p.y as int) == add,
            !a ==> self.in_b(i, p.x as int, p.y as int) == add,
            a ==> self.a_masks_of(i, toggled(self.fa(i), p)),
            !a ==> self.b_masks_of(i, toggled(self.fb(i), p)),
            forall|k: int| 0 <= k < self.n() && !(a && k == i) ==> #[trigger] self.a_ok(k),
            forall|k: int| 0 <= k < self.n() && !(!a && k == i) ==> #[trigger] self.b_ok(k),
            forall|k: int, l: int| 0 <= l <= k < self.n() && Self::changed(i, a, k, l) ==> #[trigger] self.pre_counts(self, k, l, a, p),
            forall|k: int, l: int| 0 <= l <= k < self.n() && !Self::changed(i, a, k, l) ==> #[trigger] self.cnt_ok(k, l),
    {
        old.lemma_shape();
        assert(self.shape()) by {
            assert forall|k: int| 0 <= k < old.n() implies #[trigger] self.a@[k].wf() && self.b@[k].wf() && self.a@[k].h() == self.height
                && self.a@[k].w() == self.width && self.b@[k].h() == self.height && self.b@[k].w() == self.width by {
                assert(old.a@[k].wf());
            }
            assert forall|k: int, l: int| 0 <= l <= k < old.n() implies #[trigger] self.counter@[k]@[l].wf() by {
                assert(old.counter@[k]@[l].wf());
            }
        }
        assert(self.pairs_ok()) by {
            assert forall|k: int, l: int| 0 <= l <= k < self.n() implies #[trigger] self.stq_ok(k, l) && self.cov_ok(k, l) by {
                assert(old.cnt_ok(k, l));
                assert(old.stq_ok(k, l));
                assert(old.cov_ok(k, l));
                assert forall|da: Vector<i32>, db: Vector<i32>| self.cov_m(k, l, da, db) == old.cov_m(k, l, da, db) by {}
            }
        }
        let tf = if a { toggled(self.fa(i), p) } else { toggled(self.fb(i), p) };
        assert(old.a_ok(i));
        if a {
            assert(tf =~= old.fa(i));
            assert(self.a_masks_of(i, tf));
        } else {
            assert(tf =~= old.fb(i));
            assert(self.b_masks_of(i, tf));
        }
        assert(self.n() == old.n());
        assert forall|k: int| 0 <= k < self.n() && !(a && k == i) implies #[trigger] self.a_ok(k) by {
            assert(old.a_ok(k));
            assert(self.inner.ma_inv@[k] == old.inner.ma_inv@[k]);
        }
        assert forall|k: int| 0 <= k < self.n() && !(!a && k == i) implies #[trigger] self.b_ok(k) by {
            assert(old.a_ok(k));
            assert(old.b_ok(k));
        }
        assert forall|k: int, l: int| 0 <= l <= k < self.n() && Self::changed(i, a, k, l) implies #[trigger] self.pre_counts(self, k, l, a, p) by {
            assert(old.cnt_ok(k, l));
            assert(old.a@[k].wf());
            if a {
                assert(toggled(self.fa(k), p) =~= old.fa(k));
                assert(self.fb(l) =~= old.fb(l));
            } else {
                assert(toggled(self.fb(l), p) =~= old.fb(l));
                assert(self.fa(k) =~= old.fa(k));
            }
        }
        assert forall|k: int, l: int| 0 <= l <= k < self.n() && !Self::changed(i, a, k, l) implies #[trigger] self.cnt_ok(k, l) by {
            assert(old.cnt_ok(k, l));
            assert(old.a@[k].wf());
            assert(self.fa(k) =~= old.fa(k));
            assert(self.fb(l) =~= old.fb(l));
            assert forall|x: int, y: int| self.overlap_spec(k, l, x, y) == old.overlap_spec(k, l, x, y) by {}
        }
    }

    /// Flips the cell `p` in `A_i` and in `B_i`.
    pub fn flip(&mut self, i: usize, p: Vector<i32>)
        requires
            old(self).wf(),
            i < old(self).n(),
            0 <= p.x < old(self).hh(),
            0 <= p.y < old(self).ww(),
        ensures
            final(self).wf(),
            final(self).n() == old(self).n(),
            final(self).hh() == old(self).hh(),
            final(self).ww() == old(self).ww(),
            final(self).cells() == old(self).cells(),
            forall|k: int, x: int, y: int| 0 <= k < old(self).n() ==> #[trigger] final(self).in_a(k, x, y) == (old(self).in_a(k, x, y) != (k == i
                && x == p.x && y == p.y)),
            forall|k: int, x: int, y: int| 0 <= k < old(self).n() ==> #[trigger] final(self).in_b(k, x, y) == (old(self).in_b(k, x, y) != (k == i
                && x == p.x && y == p.y)),
    {
        let ghost o = *self;
        proof {
            o.lemma_shape();
            assert(o.a@[i as int].wf());
        }
        let add_a = self.a[i].flip(&p);
        proof {
            self.lemma_after_cell_flip(o, i as int, true, p, add_a);
        }
        self.update(add_a, true, i, &p);
        let ghost m = *self;
        proof {
            m.lemma_shape();
            assert(m.a@[i as int].wf());
        }
        let add_b = self.b[i].flip(&p);
        proof {
            self.lemma_after_cell_flip(m, i as int, false, p, add_b);
        }
        self.update(add_b, false, i, &p);
    }

    /// The move `v` of `B_i` lies in the box of the masks.
    pub closed spec fn b_in_box(self, i: int, v: Vector<i32>) -> bool {
        self.inner.mb@[i].in_box(v.x as int, v.y as int)
    }

    /// The mask of the problem's cells that `B_i` moved by `v` covers.
    pub closed spec fn b_mask(self, i: int, v: Vector<i32>) -> usize {
        self.inner.mb@[i].mask(v.x as int, v.y as int)
    }

    /// The moves `v` with which `B_i` covers the whole problem, in the order of the grid of
    /// full masks.
    pub fn coverings1(&self, i: usize) -> (r: Vec<Vector<i32>>)
        requires
            self.wf(),
            i < self.n(),
        ensures
            forall|v: Vector<i32>| #[trigger] r@.contains(v) <==> forall|k: int| 0 <= k < self.cells().len() ==> #[trigger] self.covers_b(
                i as int,
                v,
                k,
            ),
            no_dup(r@),
    {
        proof {
            self.lemma_shape();
            assert(self.a@[i as int].wf());
            assert(self.a_ok(i as int));
            assert(self.b_ok(i as int));
        }
        let mb = &self.inner.mb[i];
        let min = *mb.min();
        let f = self.inner.full_mask;
        proof {
            mb.lemma_box();
        }
        let cells = mb.rect(f).iter();
        let ghost rect = mb.grid(f as int);
        let mut res: Vec<Vector<i32>> = Vec::new();
        let mut t: usize = 0;
        while t < cells.len()
            invariant
                t <= cells.len(),
                res@.len() == t,
                forall|u: int| 0 <= u < t ==> #[trigger] res@[u] == (Vector { x: (cells@[u].x + min.x) as i32, y: (cells@[u].y + min.y) as i32 }),
                forall|u: int| 0 <= u < cells.len() ==> rect.cell(#[trigger] cells@[u].x as int, cells@[u].y as int),
                min == mb.min_spec(),
                rect == mb.grid(f as int),
                mb.wf(),
                self.inner.mb@[i as int] == *mb,
                f == self.inner.full_mask,
                f >= 1,
                f <= mb.full(),
                masks_box_ok(mb.min_spec(), mb.max_spec()),
                forall|cx: int, cy: int| #[trigger] rect.cell(cx, cy) == (mb.in_box(mb.min_spec().x + cx, mb.min_spec().y + cy) && mb.mask(
                    mb.min_spec().x + cx,
                    mb.min_spec().y + cy,
                ) == f),
            decreases cells.len() - t,
        {
            let c = cells[t];
            proof {
                assert(rect.cell(c.x as int, c.y as int));
            }
            res.push(Vector::new(c.x + min.x, c.y + min.y));
            t += 1;
        }
        proof {
            let c = self.problem_cells@.len();
            lemma_mask_usize(f, 0, 0, 0);
            lemma_masks(f, 0, 0, c);
            assert forall|v: Vector<i32>| #[trigger] res@.contains(v) <==> forall|k: int| 0 <= k < self.cells().len() ==> #[trigger] self.covers_b(
                i as int,
                v,
                k,
            ) by {
                let cv = Vector { x: (v.x - min.x) as i32, y: (v.y - min.y) as i32 };
                if res@.contains(v) {
                    let u = choose|u: int| 0 <= u < res@.len() && res@[u] == v;
                    assert(rect.cell(cells@[u].x as int, cells@[u].y as int));
                    let m = mb.mask(v.x as int, v.y as int);
                    mb.lemma_mask_bound(v.x as int, v.y as int);
                    lemma_masks(f, m, 0, c);
                    assert forall|k: int| 0 <= k < self.cells().len() implies #[trigger] self.covers_b(i as int, v, k) by {
                        assert(mbit(m, k) == self.in_b(i as int, self.problem_cells@[k].x - v.x, self.problem_cells@[k].y - v.y));
                        assert(!mbit(0, k));
                    }
                }
                if forall|k: int| 0 <= k < self.cells().len() ==> #[trigger] self.covers_b(i as int, v, k) {
                    assert(self.covers_b(i as int, v, 0));
                    assert(self.in_b(i as int, self.problem_cells@[0].x - v.x, self.problem_cells@[0].y - v.y));
                    assert(mb.in_box(v.x as int, v.y as int));
                    let m = mb.mask(v.x as int, v.y as int);
                    mb.lemma_mask_bound(v.x as int, v.y as int);
                    lemma_masks(f, m, 0, c);
                    assert forall|k: int| 0 <= k < c implies #[trigger] mbit(m, k) != mbit(0, k) by {
                        assert(self.covers_b(i as int, v, k));
                        assert(mbit(m, k) == self.in_b(i as int, self.problem_cells@[k].x - v.x, self.problem_cells@[k].y - v.y));
                        assert(!mbit(0, k));
                    }
                    assert(m == f);
                    assert(rect.cell(cv.x as int, cv.y as int));
                    let u = choose|u: int| 0 <= u < cells.len() && cells@[u] == cv;
                    assert(res@[u] == v);
                }
            }
            assert forall|u: int, w: int| 0 <= u < w < res@.len() implies #[trigger] res@[u] != #[trigger] res@[w] by {
                assert(iter_before(cells@[u], cells@[w]));
            }
        }
        res
    }

    /// The pairs of moves `(da, db)` with which `A_i` and `B_j` cover the problem together
    /// (`i >= j`).
    pub fn coverings2(&self, i: usize, j: usize) -> (r: &[(Vector<i32>, Vector<i32>)])
        requires
            self.wf(),
            j <= i < self.n(),
        ensures
            forall|da: Vector<i32>, db: Vector<i32>| #[trigger] r@.contains((da, db)) <==> self.is_cover2(i as int, j as int, da, db),
            no_dup(r@),
    {
        proof {
            assert(self.a_ok(i as int));
            assert(self.a_ok(j as int));
            assert(self.b_ok(j as int));
            assert(self.cnt_ok(i as int, j as int) && self.cov_ok(i as int, j as int));
            assert forall|da: Vector<i32>, db: Vector<i32>| #[trigger] self.inner.coverings2@[i as int]@[j as int]@.contains((da, db))
                <==> self.is_cover2(i as int, j as int, da, db) by {
                if self.cov_m(i as int, j as int, da, db) {
                    self.lemma_cov_to(i as int, j as int, da, db);
                }
                if self.is_cover2(i as int, j as int, da, db) {
                    self.lemma_cov_from(i as int, j as int, da, db);
                }
            }
        }
        self.inner.coverings2[i][j].as_slice()
    }

    /// Whether `A_i` moved by `da` and `B_j` moved by `db` overlap; `db - da` lies in the
    /// box of differences.
    pub fn overlap_unchecked(&self, i: usize, j: usize, da: &Vector<isize>, db: &Vector<isize>) -> (r: bool)
        requires
            self.wf(),
            j <= i < self.n(),
            self.dmin().x <= db.x - da.x <= self.dmax().x,
            self.dmin().y <= db.y - da.y <= self.dmax().y,
        ensures
            r == (self.overlap_spec(i as int, j as int, db.x - da.x, db.y - da.y) != 0),
    {
        proof {
            assert(self.cnt_ok(i as int, j as int));
            self.lemma_shape();
            assert(self.counter@[i as int]@[j as int].wf());
        }
        self.counter[i][j].get_unchecked(&Vector::new(db.x - da.x, db.y - da.y)) != 0
    }

    /// Whether `A_i` moved by `da` and `B_j` moved by `db` overlap.
    pub fn overlap(&self, i: usize, j: usize, da: &Vector<isize>, db: &Vector<isize>) -> (r: bool)
        requires
            self.wf(),
            j <= i < self.n(),
            isize::MIN <= db.x - da.x <= isize::MAX,
            isize::MIN <= db.y - da.y <= isize::MAX,
        ensures
            r == (self.overlap_spec(i as int, j as int, db.x - da.x, db.y - da.y) != 0),
    {
        self.overlap_count(i, j, da, db) != 0
    }

    /// The number of cells that `A_i` moved by `da` and `B_j` moved by `db` share.
    pub fn overlap_count(&self, i: usize, j: usize, da: &Vector<isize>, db: &Vector<isize>) -> (r: usize)
        requires
            self.wf(),
            j <= i < self.n(),
            isize::MIN <= db.x - da.x <= isize::MAX,
            isize::MIN <= db.y - da.y <= isize::MAX,
        ensures
            r == self.overlap_spec(i as int, j as int, db.x - da.x, db.y - da.y),
    {
        proof {
            assert(self.cnt_ok(i as int, j as int));
            assert(self.a_ok(i as int));
            self.lemma_shape();
            assert(self.counter@[i as int]@[j as int].wf());
            let (dx, dy) = (db.x - da.x, db.y - da.y);
            if !self.counter@[i as int]@[j as int].in_box(dx, dy) {
                lemma_overlap_zero(self.fa(i as int), self.fb(j as int), dx, dy, self.hh() as int, self.ww() as int);
                assert forall|x: int, y: int| 0 <= x < self.hh() && 0 <= y < self.ww() implies !(#[trigger] self.fa(i as int)(x, y)
                    && self.fb(j as int)(x - dx, y - dy)) by {
                    if self.fa(i as int)(x, y) && self.fb(j as int)(x - dx, y - dy) {
                        assert(self.in_b(j as int, x - dx, y - dy));
                    }
                }
            }
        }
        match self.counter[i][j].get(&Vector::new(db.x - da.x, db.y - da.y)) {
            Some(c) => c,
            None => 0,
        }
    }

    /// The moves of `B_i` that cover some of the problem's cells and at most `max_count`
    /// of them, row by row, each with the mask of the cells it covers.
    pub(crate) fn all_placements(&self, i: usize, max_count: u32) -> (r: Vec<(usize, Vector<i32>)>)
        requires
            self.wf(),
            i < self.n(),
        ensures
            forall|m: usize, v: Vector<i32>| #[trigger] r@.contains((m, v)) <==> {
                &&& self.b_in_box(i as int, v)
                &&& m == self.b_mask(i as int, v)
                &&& m != 0
                &&& ones_below(m as u128, 128) <= max_count
            },
            forall|m: usize, v: Vector<i32>, k: int| #[trigger] r@.contains((m, v)) && 0 <= k < self.cells().len() ==> #[trigger] mbit(m, k)
                == self.covers_b(i as int, v, k),
    {
        proof {
            self.lemma_shape();
            assert(self.a@[i as int].wf());
            assert(self.a_ok(i as int));
            assert(self.b_ok(i as int));
        }
        let mb = &self.inner.mb[i];
        let min = *mb.min();
        let h = mb.height();
        let w = mb.width();
        proof {
            mb.lemma_box();
        }
        let mut res: Vec<(usize, Vector<i32>)> = Vec::new();
        let mut x: usize = 0;
        while x < h
            invariant
                mb.wf(),
                masks_box_ok(mb.min_spec(), mb.max_spec()),
                min == mb.min_spec(),
                h == mb.max_spec().x - mb.min_spec().x + 1,
                w == mb.max_spec().y - mb.min_spec().y + 1,
                x <= h,
                forall|m: usize, v: Vector<i32>| #[trigger] res@.contains((m, v)) <==> {
                    &&& mb.in_box(v.x as int, v.y as int)
                    &&& v.x - min.x < x
                    &&& m == mb.mask(v.x as int, v.y as int)
                    &&& m != 0
                    &&& ones_below(m as u128, 128) <= max_count
                },
            decreases h - x,
        {
            let mut y: usize = 0;
            while y < w
                invariant
                    mb.wf(),
                    masks_box_ok(mb.min_spec(), mb.max_spec()),
                    min == mb.min_spec(),
                    h == mb.max_spec().x - mb.min_spec().x + 1,
                    w == mb.max_spec().y - mb.min_spec().y + 1,
                    x < h,
                    y <= w,
                    forall|m: usize, v: Vector<i32>| #[trigger] res@.contains((m, v)) <==> {
                        &&& mb.in_box(v.x as int, v.y as int)
                        &&& (v.x - min.x < x || (v.x - min.x == x && v.y - min.y < y))
                        &&& m == mb.mask(v.x as int, v.y as int)
                        &&& m != 0
                        &&& ones_below(m as u128, 128) <= max_count
                    },
                decreases w - y,
            {
                let mask = mb.get_raw(x, y);
                let v = Vector::new(x as i32 + min.x, y as i32 + min.y);
                let ghost before = res@;
                if mask != 0 && word_count_ones(mask as u128) <= max_count {
                    res.push((mask, v));
                }
                proof {
                    assert forall|m: usize, u: Vector<i32>| #[trigger] res@.contains((m, u)) <==> {
                        &&& mb.in_box(u.x as int, u.y as int)
                        &&& (u.x - min.x < x || (u.x - min.x == x && u.y - min.y < y + 1))
                        &&& m == mb.mask(u.x as int, u.y as int)
                        &&& m != 0
                        &&& ones_below(m as u128, 128) <= max_count
                    } by {
                        if before.contains((m, u)) {
                            let k = choose|k: int| 0 <= k < before.len() && before[k] == (m, u);
                            assert(res@[k] == (m, u));
                        }
                        if res@.contains((m, u)) && !before.contains((m, u)) {
                            assert(u == v);
                        }
                        if u == v && m == mask && res@.len() > before.len() {
                            assert(res@[before.len() as int] == (m, u));
                        }
                    }
                }
                y += 1;
            }
            x += 1;
        }
        proof {
            let f = self.inner.full_mask;
            assert forall|m: usize, v: Vector<i32>, k: int| #[trigger] res@.contains((m, v)) && 0 <= k < self.cells().len() implies #[trigger] mbit(
                m,
                k,
            ) == self.covers_b(i as int, v, k) by {
                assert(mb.in_box(v.x as int, v.y as int));
            }
        }
        res
    }

    /// The consistency of the representation.
    pub closed spec fn wf(self) -> bool {
        &&& self.shape()
        &&& forall|i: int| 0 <= i < self.n() ==> #[trigger] self.a_ok(i) && self.b_ok(i)
        &&& forall|i: int, j: int| 0 <= j <= i < self.n() ==> #[trigger] self.cnt_ok(i, j) && self.stq_ok(i, j) && self.cov_ok(i, j)
    }
}

/// `b` is `a` after the flip of the point `p` in the `i`-th pair of polyominoes, as `flip`
/// states it.
pub open spec fn flip_step2(a: Cover2Queries, b: Cover2Queries, i: int, p: Vector<i32>) -> bool {
    &&& b.wf()
    &&& b.n() == a.n()
    &&& b.hh() == a.hh()
    &&& b.ww() == a.ww()
    &&& b.cells() == a.cells()
    &&& forall|k: int, x: int, y: int| 0 <= k < a.n() ==> #[trigger] b.in_a(k, x, y) == (a.in_a(k, x, y) != (k == i && x == p.x && y == p.y))
    &&& forall|k: int, x: int, y: int| 0 <= k < a.n() ==> #[trigger] b.in_b(k, x, y) == (a.in_b(k, x, y) != (k == i && x == p.x && y == p.y))
}

/// The flips as triples of the index and the point.
pub open spec fn flip_triples(ks: Seq<int>, ps: Seq<Vector<i32>>) -> Seq<(int, int, int)> {
    Seq::new(ks.len(), |t: int| (ks[t], ps[t].x as int, ps[t].y as int))
}

/// From fresh polyominoes, after the flips of the points `ps[t]` in the pairs `ks[t]` one by
/// one, the `k`-th pair holds exactly the points flipped in it an odd number of times; the
/// covers by two copies and the overlaps are those of these sets.
pub proof fn lemma_flip2_run(qs: Seq<Cover2Queries>, ks: Seq<int>, ps: Seq<Vector<i32>>)
    requires
        qs.len() == ps.len() + 1,
        ks.len() == ps.len(),
        forall|k: int, x: int, y: int| 0 <= k < qs[0].n() ==> !#[trigger] qs[0].in_a(k, x, y) && !qs[0].in_b(k, x, y),
        forall|t: int| 0 <= t < ps.len() ==> #[trigger] flip_step2(qs[t], qs[t + 1], ks[t], ps[t]),
    ensures
        qs.last().n() == qs[0].n(),
        qs.last().cells() == qs[0].cells(),
        forall|k: int, x: int, y: int| 0 <= k < qs[0].n() ==> (#[trigger] qs.last().in_a(k, x, y) <==> occurrences(
            flip_triples(ks, ps),
            (k, x, y),
        ) % 2 == 1),
        forall|k: int, x: int, y: int| 0 <= k < qs[0].n() ==> (#[trigger] qs.last().in_b(k, x, y) <==> occurrences(
            flip_triples(ks, ps),
            (k, x, y),
        ) % 2 == 1),
    decreases ps.len(),
{
    if ps.len() == 0 {
        assert forall|k: int, x: int, y: int| 0 <= k < qs[0].n() implies !#[trigger] qs[0].in_b(k, x, y) by {
            assert(!qs[0].in_a(k, x, y) && !qs[0].in_b(k, x, y));
        }
    }
    if ps.len() > 0 {
        let n = ps.len() - 1;
        let qs1 = qs.drop_last();
        let ks1 = ks.drop_last();
        let ps1 = ps.drop_last();
        assert forall|t: int| 0 <= t < ps1.len() implies #[trigger] flip_step2(qs1[t], qs1[t + 1], ks1[t], ps1[t]) by {
            assert(flip_step2(qs[t], qs[t + 1], ks[t], ps[t]));
        }
        assert(qs1[0] == qs[0]);
        lemma_flip2_run(qs1, ks1, ps1);
        assert(flip_step2(qs[n], qs[n + 1], ks[n], ps[n]));
        assert(flip_triples(ks, ps).drop_last() =~= flip_triples(ks1, ps1));
        assert(qs1.last() == qs[n]);
        assert forall|k: int, x: int, y: int| 0 <= k < qs[0].n() implies (#[trigger] qs.last().in_a(k, x, y) <==> occurrences(
            flip_triples(ks, ps),
            (k, x, y),
        ) % 2 == 1) by {
            assert(qs[n].in_a(k, x, y) <==> occurrences(flip_triples(ks1, ps1), (k, x, y)) % 2 == 1);
        }
        assert forall|k: int, x: int, y: int| 0 <= k < qs[0].n() implies (#[trigger] qs.last().in_b(k, x, y) <==> occurrences(
            flip_triples(ks, ps),
            (k, x, y),
        ) % 2 == 1) by {
            assert(qs[n].in_b(k, x, y) <==> occurrences(flip_triples(ks1, ps1), (k, x, y)) % 2 == 1);
        }
    }
}

/// Flipping a point twice gives back the same polyominoes, so the same covers by two copies
/// and the same overlaps.
pub proof fn lemma_flip2_twice(a: Cover2Queries, b: Cover2Queries, c: Cover2Queries, i: int, p: Vector<i32>)
    requires
        flip_step2(a, b, i, p),
        flip_step2(b, c, i, p),
    ensures
        forall|k: int, x: int, y: int| 0 <= k < a.n() ==> #[trigger] c.in_a(k, x, y) == a.in_a(k, x, y),
        forall|k: int, x: int, y: int| 0 <= k < a.n() ==> #[trigger] c.in_b(k, x, y) == a.in_b(k, x, y),
        forall|k: int, l: int, da: Vector<i32>, db: Vector<i32>|
            0 <= k < a.n() && 0 <= l < a.n() ==> #[trigger] c.is_cover2(k, l, da, db) == a.is_cover2(k, l, da, db),
        forall|k: int, l: int, dx: int, dy: int|
            0 <= k < a.n() && 0 <= l < a.n() ==> #[trigger] c.overlap_spec(k, l, dx, dy) == a.overlap_spec(k, l, dx, dy),
{
    assert forall|k: int, x: int, y: int|
        #![trigger c.in_a(k, x, y)]
        #![trigger c.in_b(k, x, y)]
        0 <= k < a.n() implies c.in_a(k, x, y) == a.in_a(k, x, y) && c.in_b(k, x, y) == a.in_b(k, x, y) by {
        assert(b.in_a(k, x, y) == (a.in_a(k, x, y) != (k == i && x == p.x && y == p.y)));
        assert(b.in_b(k, x, y) == (a.in_b(k, x, y) != (k == i && x == p.x && y == p.y)));
    }
    assert forall|k: int, l: int, da: Vector<i32>, db: Vector<i32>| 0 <= k < a.n() && 0 <= l < a.n() implies #[trigger] c.is_cover2(
        k,
        l,
        da,
        db,
    ) == a.is_cover2(k, l, da, db) by {
        assert forall|m: int|
            #![trigger c.covers_a(k, da, m)]
            #![trigger a.covers_a(k, da, m)]
            #![trigger c.covers_b(l, db, m)]
            #![trigger a.covers_b(l, db, m)]
            0 <= m < a.cells().len() implies c.covers_a(k, da, m) == a.covers_a(k, da, m) && c.covers_b(l, db, m) == a.covers_b(l, db, m) by {
            assert(c.in_a(k, a.cells()[m].x - da.x, a.cells()[m].y - da.y) == a.in_a(k, a.cells()[m].x - da.x, a.cells()[m].y - da.y));
            assert(c.in_b(l, a.cells()[m].x - db.x, a.cells()[m].y - db.y) == a.in_b(l, a.cells()[m].x - db.x, a.cells()[m].y - db.y));
        }
        if exists|m: int| 0 <= m < a.cells().len() && #[trigger] a.covers_a(k, da, m) {
            let m = choose|m: int| 0 <= m < a.cells().len() && #[trigger] a.covers_a(k, da, m);
            assert(c.covers_a(k, da, m));
        }
        if exists|m: int| 0 <= m < c.cells().len() && #[trigger] c.covers_a(k, da, m) {
            let m = choose|m: int| 0 <= m < c.cells().len() && #[trigger] c.covers_a(k, da, m);
            assert(a.covers_a(k, da, m));
        }
        if exists|m: int| 0 <= m < a.cells().len() && #[trigger] a.covers_b(l, db, m) {
            let m = choose|m: int| 0 <= m < a.cells().len() && #[trigger] a.covers_b(l, db, m);
            assert(c.covers_b(l, db, m));
        }
        if exists|m: int| 0 <= m < c.cells().len() && #[trigger] c.covers_b(l, db, m) {
            let m = choose|m: int| 0 <= m < c.cells().len() && #[trigger] c.covers_b(l, db, m);
            assert(a.covers_b(l, db, m));
        }
        if a.cells().len() > 0 {
            assert(c.covers_a(k, da, 0) == a.covers_a(k, da, 0));
        } else {
            assert(c.covers_a(k, da, 0) == a.covers_a(k, da, 0));
        }
        assert(c.disjoint(k, l, da, db) == a.disjoint(k, l, da, db)) by {
            if a.disjoint(k, l, da, db) {
                assert forall|x: int, y: int| #[trigger] c.in_a(k, x, y) implies !c.in_b(l, x + da.x - db.x, y + da.y - db.y) by {
                    assert(c.in_a(k, x, y) == a.in_a(k, x, y));
                    assert(c.in_b(l, x + da.x - db.x, y + da.y - db.y) == a.in_b(l, x + da.x - db.x, y + da.y - db.y));
                }
            }
            if c.disjoint(k, l, da, db) {
                assert forall|x: int, y: int| #[trigger] a.in_a(k, x, y) implies !a.in_b(l, x + da.x - db.x, y + da.y - db.y) by {
                    assert(c.in_a(k, x, y) == a.in_a(k, x, y));
                    assert(c.in_b(l, x + da.x - db.x, y + da.y - db.y) == a.in_b(l, x + da.x - db.x, y + da.y - db.y));
                }
            }
        }
    }
    assert forall|k: int, l: int, dx: int, dy: int| 0 <= k < a.n() && 0 <= l < a.n() implies #[trigger] c.overlap_spec(k, l, dx, dy)
        == a.overlap_spec(k, l, dx, dy) by {
        assert(c.fa(k) =~= a.fa(k));
        assert(c.fb(l) =~= a.fb(l));
    }
}

} // verus!
