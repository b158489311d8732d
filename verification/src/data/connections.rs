use vstd::prelude::*;
use std::collections::BTreeMap;
use vstd::arithmetic::power2::{pow2, lemma_pow2_unfold, lemma_pow2_pos, lemma_pow2_strictly_increases};
use vstd::arithmetic::div_mod::{lemma_fundamental_div_mod, lemma_fundamental_div_mod_converse};
use crate::check::bits::{bits_value, bit32, to_bits, lemma_to_bits_value, lemma_bits_value_injective, lemma_bits_value_bound};
use crate::data::connection::{sq, sq_id, filled, bad_block, has_bad_block, has_hole, has_isolated, on_rim, rim_labels, rim_rows, rim_row, Surroundings, SurroundingsError, surroundings_result};
use crate::data::d4::D4;
use crate::data::outline::{cell_image, outline_image, keeps_x, keeps_y, swaps};
use crate::data::tight_poly::{TightPoly, lemma_cell_image_in_box};
use crate::data::tree_poly::ubit;

verus! {

broadcast use vstd::laws_cmp::group_laws_cmp;

/// The block with `(x, y)` as its last square is forbidden in the bits `b` of a grid: all
/// four squares set, or exactly the two on one diagonal.
pub open spec fn bad_block_b(b: Seq<bool>, s: int, x: int, y: int) -> bool {
    let a = b[sq_id(s, x - 1, y - 1)];
    let c = b[sq_id(s, x - 1, y)];
    let e = b[sq_id(s, x, y - 1)];
    let f = b[sq_id(s, x, y)];
    (a && c && e && f) || (a && !c && !e && f) || (!a && c && e && !f)
}

/// Every square of `list` is at or after `k` and set in `b`.
pub open spec fn all_fixed_set(b: Seq<bool>, list: Seq<usize>, k: int) -> bool {
    forall|i: int| 0 <= i < list.len() ==> (#[trigger] list[i]) >= k && b[list[i] as int]
}

/// Among the squares from `k` on, no block is forbidden and no listed placement is all set.
pub open spec fn partial_ok(b: Seq<bool>, s: int, k: int, plist: Seq<Seq<usize>>) -> bool {
    &&& forall|x: int, y: int|
        1 <= x < s && 1 <= y < s && sq_id(s, x - 1, y - 1) >= k ==> !#[trigger] bad_block_b(b, s, x, y)
    &&& forall|t: int| 0 <= t < plist.len() ==> !#[trigger] all_fixed_set(b, plist[t], k)
}

/// The values of the ways to choose the squares before `k` of `b` so that the whole grid is
/// acceptable, in increasing order.
pub open spec fn completions(b: Seq<bool>, k: int, s: int, plist: Seq<Seq<usize>>) -> Seq<usize>
    decreases k,
{
    if k <= 0 {
        if partial_ok(b, s, 0, plist) {
            seq![bits_value(b) as usize]
        } else {
            Seq::empty()
        }
    } else {
        completions(b.update(k - 1, false), k - 1, s, plist) + completions(b.update(k - 1, true), k - 1, s, plist)
    }
}

/// Every square of every listed placement lies in a grid of `n` squares.
pub open spec fn lists_in(plist: Seq<Seq<usize>>, n: int) -> bool {
    forall|t: int, i: int| 0 <= t < plist.len() && 0 <= i < plist[t].len() ==> #[trigger] plist[t][i] < n
}

/// The squares of `c` from `k` on are those of `b`.
pub open spec fn agrees_from(c: Seq<bool>, b: Seq<bool>, k: int) -> bool {
    c.len() == b.len() && forall|i: int| k <= i < b.len() ==> c[i] == b[i]
}

/// Once something is wrong among the fixed squares, nothing completes the grid.
proof fn lemma_pruned(b: Seq<bool>, k: int, s: int, plist: Seq<Seq<usize>>)
    requires
        0 <= k <= b.len(),
        1 <= s,
        b.len() == s * s,
        lists_in(plist, b.len() as int),
        !partial_ok(b, s, k, plist),
    ensures
        completions(b, k, s, plist) == Seq::<usize>::empty(),
    decreases k,
{
    if k > 0 {
        let j = k - 1;
        assert forall|v: bool| !partial_ok(#[trigger] b.update(j, v), s, j, plist) by {
            let c = b.update(j, v);
            if exists|x: int, y: int| 1 <= x < s && 1 <= y < s && sq_id(s, x - 1, y - 1) >= k && #[trigger] bad_block_b(b, s, x, y) {
                let (x, y) = choose|x: int, y: int| 1 <= x < s && 1 <= y < s && sq_id(s, x - 1, y - 1) >= k && #[trigger] bad_block_b(b, s, x, y);
                lemma_block_after(s, x, y);
                assert(bad_block_b(c, s, x, y));
            } else {
                let t = choose|t: int| 0 <= t < plist.len() && #[trigger] all_fixed_set(b, plist[t], k);
                assert forall|i: int| 0 <= i < plist[t].len() implies (#[trigger] plist[t][i]) >= j && c[plist[t][i] as int] by {
                    assert(plist[t][i] < b.len());
                }
                assert(all_fixed_set(c, plist[t], j));
            }
        }
        lemma_pruned(b.update(j, false), j, s, plist);
        lemma_pruned(b.update(j, true), j, s, plist);
    }
}

/// The squares of a block come at or after its first one.
proof fn lemma_block_after(s: int, x: int, y: int)
    requires
        1 <= x < s,
        1 <= y < s,
    ensures
        sq_id(s, x - 1, y) == sq_id(s, x - 1, y - 1) + 1,
        sq_id(s, x, y - 1) == sq_id(s, x - 1, y - 1) + s,
        sq_id(s, x, y) == sq_id(s, x - 1, y - 1) + s + 1,
        0 <= sq_id(s, x - 1, y - 1),
        sq_id(s, x, y) < s * s,
{
    assert(x * s == (x - 1) * s + s) by (nonlinear_arith);
    assert(0 <= (x - 1) * s) by (nonlinear_arith)
        requires
            1 <= x,
            1 <= s,
    ;
    assert(x * s + y < s * s) by (nonlinear_arith)
        requires
            0 <= x < s,
            0 <= y < s,
    ;
}

/// The completions are the values of the acceptable grids that agree with `b` from `k` on.
proof fn lemma_completions(b: Seq<bool>, k: int, s: int, plist: Seq<Seq<usize>>, v: usize)
    requires
        0 <= k <= b.len(),
        b.len() <= 25,
    ensures
        completions(b, k, s, plist).contains(v) <==> exists|c: Seq<bool>|
            agrees_from(c, b, k) && #[trigger] partial_ok(c, s, 0, plist) && bits_value(c) == v,
    decreases k,
{
    lemma_bits_value_bound(b);
    lemma_pow2_small(b.len());
    if k == 0 {
        if completions(b, k, s, plist).contains(v) {
            assert(completions(b, k, s, plist)[0] == v);
            assert(agrees_from(b, b, 0));
            assert(partial_ok(b, s, 0, plist));
        }
        if exists|c: Seq<bool>| agrees_from(c, b, k) && #[trigger] partial_ok(c, s, 0, plist) && bits_value(c) == v {
            let c = choose|c: Seq<bool>| agrees_from(c, b, k) && #[trigger] partial_ok(c, s, 0, plist) && bits_value(c) == v;
            assert(c =~= b);
            assert(completions(b, k, s, plist)[0] == v);
        }
    } else {
        let j = k - 1;
        let b0 = b.update(j, false);
        let b1 = b.update(j, true);
        lemma_completions(b0, j, s, plist, v);
        lemma_completions(b1, j, s, plist, v);
        let l = completions(b0, j, s, plist);
        let r = completions(b1, j, s, plist);
        assert(completions(b, k, s, plist) == l + r);
        if (l + r).contains(v) {
            let i = choose|i: int| 0 <= i < (l + r).len() && (l + r)[i] == v;
            if i < l.len() {
                assert(l[i] == v);
                let c = choose|c: Seq<bool>| agrees_from(c, b0, j) && #[trigger] partial_ok(c, s, 0, plist) && bits_value(c) == v;
                assert(agrees_from(c, b, k));
            } else {
                assert(r[i - l.len()] == v);
                let c = choose|c: Seq<bool>| agrees_from(c, b1, j) && #[trigger] partial_ok(c, s, 0, plist) && bits_value(c) == v;
                assert(agrees_from(c, b, k));
            }
        }
        if exists|c: Seq<bool>| agrees_from(c, b, k) && #[trigger] partial_ok(c, s, 0, plist) && bits_value(c) == v {
            let c = choose|c: Seq<bool>| agrees_from(c, b, k) && #[trigger] partial_ok(c, s, 0, plist) && bits_value(c) == v;
            if c[j] {
                assert(agrees_from(c, b1, j));
                assert(r.contains(v));
                let i = choose|i: int| 0 <= i < r.len() && r[i] == v;
                assert((l + r)[l.len() + i] == v);
            } else {
                assert(agrees_from(c, b0, j));
                assert(l.contains(v));
                let i = choose|i: int| 0 <= i < l.len() && l[i] == v;
                assert((l + r)[i] == v);
            }
        }
    }
}

/// The squares of each listed placement.
pub open spec fn lists_view(plist: Seq<Vec<usize>>) -> Seq<Seq<usize>> {
    plist.map_values(|l: Vec<usize>| l@)
}

/// Whether the grid is acceptable from `k` on depends only on the squares from `k` on.
proof fn lemma_partial_same(b: Seq<bool>, c: Seq<bool>, s: int, k: int, plist: Seq<Seq<usize>>)
    requires
        0 <= k,
        1 <= s,
        b.len() == s * s,
        agrees_from(c, b, k),
        lists_in(plist, b.len() as int),
    ensures
        partial_ok(b, s, k, plist) == partial_ok(c, s, k, plist),
{
    assert forall|x: int, y: int|
        #![trigger bad_block_b(b, s, x, y)]
        #![trigger bad_block_b(c, s, x, y)]
        1 <= x < s && 1 <= y < s && sq_id(s, x - 1, y - 1) >= k implies bad_block_b(b, s, x, y) == bad_block_b(c, s, x, y) by {
        lemma_block_after(s, x, y);
    }
    assert forall|t: int|
        #![trigger all_fixed_set(b, plist[t], k)]
        #![trigger all_fixed_set(c, plist[t], k)]
        0 <= t < plist.len() implies all_fixed_set(b, plist[t], k) == all_fixed_set(c, plist[t], k) by {
        assert forall|i: int| 0 <= i < plist[t].len() && (#[trigger] plist[t][i]) >= k implies b[plist[t][i] as int] == c[plist[t][i] as int] by {
            assert(plist[t][i] < b.len());
        }
    }
}

/// The value of the bits, the first the lowest.
fn value_of(b: &Vec<bool>) -> (r: usize)
    requires
        b.len() <= 25,
    ensures
        r == bits_value(b@),
{
    let mut acc: usize = 0;
    let mut p: usize = 1;
    let mut i: usize = 0;
    proof {
        vstd::arithmetic::power2::lemma2_to64();
        assert(b@.subrange(0, 0) =~= Seq::<bool>::empty());
    }
    while i < b.len()
        invariant
            i <= b.len(),
            b.len() <= 25,
            acc == bits_value(b@.subrange(0, i as int)),
            p == pow2(i as nat),
        decreases b.len() - i,
    {
        proof {
            let t = b@.subrange(0, i + 1);
            assert(t.drop_last() =~= b@.subrange(0, i as int));
            lemma_bits_value_bound(t);
            lemma_pow2_small((i + 1) as nat);
            lemma_pow2_unfold((i + 1) as nat);
        }
        if b[i] {
            acc = acc + p;
        }
        p = p * 2;
        i += 1;
    }
    assert(b@.subrange(0, b.len() as int) =~= b@);
    acc
}

/// Whether the grid stays acceptable once the square `j` is fixed too.
fn fixed_ok(s: usize, j: usize, b: &Vec<bool>, plist: &Vec<Vec<usize>>) -> (r: bool)
    requires
        2 <= s <= 5,
        b.len() == s * s,
        j < s * s,
        lists_in(lists_view(plist@), (s * s) as int),
        partial_ok(b@, s as int, j + 1, lists_view(plist@)),
    ensures
        r == partial_ok(b@, s as int, j as int, lists_view(plist@)),
{
    let ghost si = s as int;
    let ghost pv = lists_view(plist@);
    let x = j / s;
    let y = j % s;
    proof {
        lemma_fundamental_div_mod(j as int, si);
        assert(x * si == si * x) by (nonlinear_arith);
        assert(j == sq_id(si, x as int, y as int));
    }
    if x + 1 < s && y + 1 < s {
        proof {
            lemma_block_after(si, x + 1, y + 1);
        }
        let a = b[j];
        let c = b[j + 1];
        let e = b[j + s];
        let f = b[j + s + 1];
        if (a && c && e && f) || (a && !c && !e && f) || (!a && c && e && !f) {
            proof {
                assert(bad_block_b(b@, si, x + 1, y + 1));
            }
            return false;
        }
    }
    let mut t: usize = 0;
    while t < plist.len()
        invariant
            t <= plist.len(),
            pv == lists_view(plist@),
            b.len() == s * s,
            lists_in(pv, (s * s) as int),
            forall|u: int| 0 <= u < t ==> !#[trigger] all_fixed_set(b@, pv[u], j as int),
        decreases plist.len() - t,
    {
        let l = &plist[t];
        assert(l@ == pv[t as int]);
        let mut i: usize = 0;
        let mut all = true;
        while i < l.len()
            invariant
                i <= l.len(),
                l@ == pv[t as int],
                0 <= t < pv.len(),
                b.len() == s * s,
                lists_in(pv, (s * s) as int),
                all == forall|u: int| 0 <= u < i ==> (#[trigger] l@[u]) >= j && b@[l@[u] as int],
            decreases l.len() - i,
        {
            let e = l[i];
            assert(pv[t as int][i as int] < s * s);
            if e < j || !b[e] {
                all = false;
            }
            i += 1;
        }
        if all {
            proof {
                assert(all_fixed_set(b@, pv[t as int], j as int));
            }
            return false;
        }
        t += 1;
    }
    proof {
        assert forall|x2: int, y2: int| 1 <= x2 < s && 1 <= y2 < s && sq_id(si, x2 - 1, y2 - 1) >= j implies !#[trigger] bad_block_b(
            b@,
            si,
            x2,
            y2,
        ) by {
            if sq_id(si, x2 - 1, y2 - 1) == j {
                lemma_fundamental_div_mod_converse(j as int, si, x2 - 1, y2 - 1);
            }
        }
    }
    true
}

/// Appends the values of the acceptable grids that agree with `b` from `k` on, in increasing
/// order.
fn search(s: usize, k: usize, b: &mut Vec<bool>, plist: &Vec<Vec<usize>>, out: &mut Vec<usize>)
    requires
        2 <= s <= 5,
        old(b).len() == s * s,
        k <= s * s,
        forall|i: int| 0 <= i < k ==> !old(b)@[i],
        lists_in(lists_view(plist@), (s * s) as int),
        partial_ok(old(b)@, s as int, k as int, lists_view(plist@)),
    ensures
        final(b)@ == old(b)@,
        final(out)@ == old(out)@ + completions(old(b)@, k as int, s as int, lists_view(plist@)),
    decreases k,
{
    let ghost pv = lists_view(plist@);
    let ghost b0 = b@;
    proof {
        assert(s * s <= 25) by (nonlinear_arith)
            requires
                s <= 5,
        ;
    }
    if k == 0 {
        let v = value_of(b);
        out.push(v);
        return;
    }
    let j = k - 1;
    proof {
        assert(b0.update(j as int, false) =~= b0);
    }
    let ghost o1 = out@;
    if fixed_ok(s, j, b, plist) {
        search(s, j, b, plist, out);
    } else {
        proof {
            lemma_pruned(b0, j as int, s as int, pv);
        }
    }
    let ghost o2 = out@;
    b.set(j, true);
    let ghost b1 = b@;
    proof {
        assert(b1 =~= b0.update(j as int, true));
        assert(agrees_from(b1, b0, k as int));
        lemma_partial_same(b0, b1, s as int, k as int, pv);
    }
    if fixed_ok(s, j, b, plist) {
        search(s, j, b, plist, out);
    } else {
        proof {
            lemma_pruned(b1, j as int, s as int, pv);
        }
    }
    b.set(j, false);
    proof {
        assert(b@ =~= b0);
        assert(out@ =~= o1 + completions(b0, k as int, s as int, pv));
    }
}

/// The image of `p` under `d` fits in the `s x s` grid with its box at `(x, y)`.
pub open spec fn image_fits(s: int, p: TightPoly, d: D4, x: int, y: int) -> bool {
    let hw = outline_image(d, p.h() as int, p.w() as int);
    0 <= x && x + hw.0 <= s && 0 <= y && y + hw.1 <= s
}

/// Where the cell `(a, b)` of `p` goes when `p` is moved by `d` and placed at `(x, y)`.
pub open spec fn image_square(s: int, p: TightPoly, d: D4, x: int, y: int, a: int, b: int) -> int {
    let c = cell_image(d, p.h() as int, p.w() as int, a, b);
    sq_id(s, x + c.0, y + c.1)
}

/// The image of `p` under `d`, placed with its box at `(x, y)`, fits in the grid and all its
/// squares are set in `mask`.
pub open spec fn image_in(mask: usize, s: int, p: TightPoly, d: D4, x: int, y: int) -> bool {
    &&& image_fits(s, p, d, x, y)
    &&& forall|a: int, b: int| #[trigger] p.cell(a, b) ==> ubit(mask, image_square(s, p, d, x, y, a, b))
}

/// Some image of `p` under a symmetry lies among the set squares of `mask`.
pub open spec fn holds_image(mask: usize, s: int, p: TightPoly) -> bool {
    exists|d: D4, x: int, y: int| #[trigger] image_in(mask, s, p, d, x, y)
}

/// `v` is a square of the image of `p` under `d` placed at `(x, y)`.
pub open spec fn is_image_square(v: int, s: int, p: TightPoly, d: D4, x: int, y: int) -> bool {
    exists|a: int, b: int| #[trigger] p.cell(a, b) && v == image_square(s, p, d, x, y, a, b)
}

/// `list` holds the squares of the image of `p` under `d` placed at `(x, y)`.
pub open spec fn list_is(list: Seq<usize>, s: int, p: TightPoly, d: D4, x: int, y: int) -> bool {
    &&& image_fits(s, p, d, x, y)
    &&& forall|i: int| 0 <= i < list.len() ==> #[trigger] is_image_square(list[i] as int, s, p, d, x, y)
    &&& forall|a: int, b: int| #[trigger] p.cell(a, b) ==> list.contains(image_square(s, p, d, x, y, a, b) as usize)
}

/// The cell of the original box that `g` sends to `(i, j)`.
pub open spec fn cell_preimage(g: D4, h: int, w: int, i: int, j: int) -> (int, int) {
    let (x1, y1) = if swaps(g) { (j, i) } else { (i, j) };
    (if keeps_x(g) { x1 } else { h - 1 - x1 }, if keeps_y(g) { y1 } else { w - 1 - y1 })
}

proof fn lemma_preimage(g: D4, h: int, w: int, i: int, j: int)
    requires
        0 <= i < outline_image(g, h, w).0,
        0 <= j < outline_image(g, h, w).1,
    ensures
        0 <= cell_preimage(g, h, w, i, j).0 < h,
        0 <= cell_preimage(g, h, w, i, j).1 < w,
        cell_image(g, h, w, cell_preimage(g, h, w, i, j).0, cell_preimage(g, h, w, i, j).1) == (i, j),
{
}

/// The squares of `img`, which is `p` moved by `d`, placed with its box at `(x, y)`.
fn placement(s: usize, p: Ghost<TightPoly>, d: Ghost<D4>, img: &TightPoly, x: usize, y: usize) -> (r: Vec<usize>)
    requires
        2 <= s <= 5,
        img.wf(),
        p@.wf(),
        p@.is_image(d@, *img),
        image_fits(s as int, p@, d@, x as int, y as int),
    ensures
        list_is(r@, s as int, p@, d@, x as int, y as int),
        forall|i: int| 0 <= i < r@.len() ==> #[trigger] r@[i] < s * s,
{
    let ghost (h, w) = (p@.h() as int, p@.w() as int);
    let h2 = img.height();
    let w2 = img.width();
    let mut res: Vec<usize> = Vec::new();
    let mut i: usize = 0;
    while i < h2
        invariant
            2 <= s <= 5,
            img.wf(),
            p@.wf(),
            p@.is_image(d@, *img),
            image_fits(s as int, p@, d@, x as int, y as int),
            (h2 as int, w2 as int) == outline_image(d@, h, w),
            h == p@.h(),
            w == p@.w(),
            i <= h2,
            forall|k: int| 0 <= k < res@.len() ==> #[trigger] res@[k] < s * s,
            forall|k: int| 0 <= k < res@.len() ==> #[trigger] is_image_square(res@[k] as int, s as int, p@, d@, x as int, y as int),
            forall|a: int, b: int| #[trigger] p@.cell(a, b) && cell_image(d@, h, w, a, b).0 < i ==> res@.contains(image_square(s as int, p@, d@, x as int, y as int, a, b) as usize),
        decreases h2 - i,
    {
        let mut j: usize = 0;
        while j < w2
            invariant
                2 <= s <= 5,
                img.wf(),
                p@.wf(),
                p@.is_image(d@, *img),
                image_fits(s as int, p@, d@, x as int, y as int),
                (h2 as int, w2 as int) == outline_image(d@, h, w),
                h == p@.h(),
                w == p@.w(),
                i < h2,
                j <= w2,
                forall|k: int| 0 <= k < res@.len() ==> #[trigger] res@[k] < s * s,
                forall|k: int| 0 <= k < res@.len() ==> #[trigger] is_image_square(res@[k] as int, s as int, p@, d@, x as int, y as int),
                forall|a: int, b: int| #[trigger] p@.cell(a, b) && (cell_image(d@, h, w, a, b).0 < i || (cell_image(d@, h, w, a, b).0 == i && cell_image(d@, h, w, a, b).1 < j)) ==> res@.contains(image_square(s as int, p@, d@, x as int, y as int, a, b) as usize),
            decreases w2 - j,
        {
            proof {
                assert((x + i) * s + (y + j) < s * s && (x + i) * s < 25 && s * s <= 25) by (nonlinear_arith)
                    requires
                        x + i < s,
                        y + j < s,
                        s <= 5,
                ;
            }
            if img.get(i, j) {
                let ghost (a, b) = cell_preimage(d@, h, w, i as int, j as int);
                proof {
                    lemma_preimage(d@, h, w, i as int, j as int);
                    assert(p@.cell(a, b));
                }
                let v = (x + i) * s + (y + j);
                let ghost old_res = res@;
                res.push(v);
                proof {
                    assert(res@[old_res.len() as int] == v);
                    assert(is_image_square(v as int, s as int, p@, d@, x as int, y as int));
                    assert forall|k: int| 0 <= k < res@.len() implies #[trigger] is_image_square(res@[k] as int, s as int, p@, d@, x as int, y as int) by {
                        if k < old_res.len() {
                            assert(res@[k] == old_res[k]);
                        }
                    }
                    assert forall|a2: int, b2: int| #[trigger] p@.cell(a2, b2) && (cell_image(d@, h, w, a2, b2).0 < i || (cell_image(d@, h, w, a2, b2).0 == i && cell_image(d@, h, w, a2, b2).1 < j + 1)) implies res@.contains(image_square(s as int, p@, d@, x as int, y as int, a2, b2) as usize) by {
                        if cell_image(d@, h, w, a2, b2) == (i as int, j as int) {
                            assert(res@[old_res.len() as int] == image_square(s as int, p@, d@, x as int, y as int, a2, b2));
                        } else {
                            let k = choose|k: int| 0 <= k < old_res.len() && old_res[k] == image_square(s as int, p@, d@, x as int, y as int, a2, b2) as usize;
                            assert(res@[k] == old_res[k]);
                        }
                    }
                }
            } else {
                proof {
                    assert forall|a2: int, b2: int| #[trigger] p@.cell(a2, b2) && (cell_image(d@, h, w, a2, b2).0 < i || (cell_image(d@, h, w, a2, b2).0 == i && cell_image(d@, h, w, a2, b2).1 < j + 1)) implies res@.contains(image_square(s as int, p@, d@, x as int, y as int, a2, b2) as usize) by {
                        if cell_image(d@, h, w, a2, b2) == (i as int, j as int) {
                            lemma_cell_image_in_box(d@, h, w, a2, b2);
                            assert(img.cell(i as int, j as int));
                        }
                    }
                }
            }
            j += 1;
        }
        i += 1;
    }
    proof {
        assert forall|a: int, b: int| #[trigger] p@.cell(a, b) implies res@.contains(image_square(s as int, p@, d@, x as int, y as int, a, b) as usize) by {
            lemma_cell_image_in_box(d@, h, w, a, b);
        }
    }
    res
}

/// `list` holds the squares of some image of `p` placed somewhere in the grid.
pub open spec fn is_some_image_list(list: Seq<usize>, s: int, p: TightPoly) -> bool {
    exists|d: D4, x: int, y: int| #[trigger] list_is(list, s, p, d, x, y)
}

/// Some list of `plist` holds the image of `p` under `d` placed at `(x, y)`.
pub open spec fn covered(plist: Seq<Seq<usize>>, s: int, p: TightPoly, d: D4, x: int, y: int) -> bool {
    exists|t: int| 0 <= t < plist.len() && #[trigger] list_is(plist[t], s, p, d, x, y)
}

/// The squares of every image of `p` under a symmetry, at every place of the `s x s` grid
/// where it fits.
fn placements(s: usize, p: &TightPoly) -> (r: Vec<Vec<usize>>)
    requires
        2 <= s <= 5,
        p.rotatable(),
    ensures
        lists_in(lists_view(r@), (s * s) as int),
        forall|t: int| 0 <= t < r@.len() ==> #[trigger] is_some_image_list(lists_view(r@)[t], s as int, *p),
        forall|d: D4, x: int, y: int| #[trigger] image_fits(s as int, *p, d, x, y) ==> covered(lists_view(r@), s as int, *p, d, x, y),
{
    let ghost si = s as int;
    let mut res: Vec<Vec<usize>> = Vec::new();
    let mut i: usize = 0;
    while i < 8
        invariant
            2 <= s <= 5,
            si == s,
            p.rotatable(),
            i <= 8,
            lists_in(lists_view(res@), (s * s) as int),
            forall|t: int| 0 <= t < res@.len() ==> #[trigger] is_some_image_list(lists_view(res@)[t], si, *p),
            forall|d: D4, x: int, y: int| d.idx() < i && #[trigger] image_fits(si, *p, d, x, y) ==> covered(lists_view(res@), si, *p, d, x, y),
        decreases 8 - i,
    {
        let d = D4::from_index(i);
        let img = p.apply(d);
        let h2 = img.height();
        let w2 = img.width();
        if h2 <= s && w2 <= s {
            let mut x: usize = 0;
            while x <= s - h2
                invariant
                    2 <= s <= 5,
                    si == s,
                    p.rotatable(),
                    i < 8,
                    d.idx() == i,
                    img.wf(),
                    p.is_image(d, img),
                    h2 == img.h(),
                    w2 == img.w(),
                    h2 <= s,
                    w2 <= s,
                    x <= s - h2 + 1,
                    lists_in(lists_view(res@), (s * s) as int),
                    forall|t: int| 0 <= t < res@.len() ==> #[trigger] is_some_image_list(lists_view(res@)[t], si, *p),
                    forall|d2: D4, x2: int, y2: int| (d2.idx() < i || (d2 == d && x2 < x)) && #[trigger] image_fits(si, *p, d2, x2, y2) ==> covered(lists_view(res@), si, *p, d2, x2, y2),
                decreases s - h2 + 1 - x,
            {
                let mut y: usize = 0;
                while y <= s - w2
                    invariant
                        2 <= s <= 5,
                        si == s,
                        p.rotatable(),
                        i < 8,
                        d.idx() == i,
                        img.wf(),
                        p.is_image(d, img),
                        h2 == img.h(),
                        w2 == img.w(),
                        h2 <= s,
                        w2 <= s,
                        x <= s - h2,
                        y <= s - w2 + 1,
                        lists_in(lists_view(res@), (s * s) as int),
                        forall|t: int| 0 <= t < res@.len() ==> #[trigger] is_some_image_list(lists_view(res@)[t], si, *p),
                        forall|d2: D4, x2: int, y2: int| (d2.idx() < i || (d2 == d && (x2 < x || (x2 == x && y2 < y)))) && #[trigger] image_fits(si, *p, d2, x2, y2) ==> covered(lists_view(res@), si, *p, d2, x2, y2),
                    decreases s - w2 + 1 - y,
                {
                    let l = placement(s, Ghost(*p), Ghost(d), &img, x, y);
                    let ghost old_res = res@;
                    res.push(l);
                    proof {
                        let v = lists_view(res@);
                        assert(v[old_res.len() as int] == l@);
                        assert(lists_view(old_res) =~= v.subrange(0, old_res.len() as int));
                        assert forall|t: int, k: int| 0 <= t < v.len() && 0 <= k < v[t].len() implies #[trigger] v[t][k] < s * s by {
                            if t < old_res.len() {
                                assert(v[t] == lists_view(old_res)[t]);
                            }
                        }
                        assert forall|t: int| 0 <= t < v.len() implies #[trigger] is_some_image_list(v[t], si, *p) by {
                            if t < old_res.len() {
                                assert(v[t] == lists_view(old_res)[t]);
                            } else {
                                assert(list_is(v[t], si, *p, d, x as int, y as int));
                            }
                        }
                        assert forall|d2: D4, x2: int, y2: int| (d2.idx() < i || (d2 == d && (x2 < x || (x2 == x && y2 < y + 1)))) && #[trigger] image_fits(si, *p, d2, x2, y2) implies covered(v, si, *p, d2, x2, y2) by {
                            if d2 == d && x2 == x && y2 == y {
                                assert(list_is(v[old_res.len() as int], si, *p, d2, x2, y2));
                            } else {
                                assert(covered(lists_view(old_res), si, *p, d2, x2, y2));
                                let t = choose|t: int| 0 <= t < old_res.len() && #[trigger] list_is(lists_view(old_res)[t], si, *p, d2, x2, y2);
                                assert(v[t] == lists_view(old_res)[t]);
                            }
                        }
                    }
                    y += 1;
                }
                proof {
                    assert forall|d2: D4, x2: int, y2: int| (d2.idx() < i || (d2 == d && x2 < x + 1)) && #[trigger] image_fits(si, *p, d2, x2, y2) implies covered(lists_view(res@), si, *p, d2, x2, y2) by {
                        if d2 == d && x2 == x {
                            assert(y2 < y);
                        }
                    }
                }
                x += 1;
            }
            proof {
                assert forall|d2: D4, x2: int, y2: int| d2.idx() < i + 1 && #[trigger] image_fits(si, *p, d2, x2, y2) implies covered(lists_view(res@), si, *p, d2, x2, y2) by {
                    if d2.idx() == i {
                        assert(d2 == d);
                    }
                }
            }
        } else {
            proof {
                assert forall|d2: D4, x2: int, y2: int| d2.idx() < i + 1 && #[trigger] image_fits(si, *p, d2, x2, y2) implies covered(lists_view(res@), si, *p, d2, x2, y2) by {
                    if d2.idx() == i {
                        assert(d2 == d);
                    }
                }
            }
        }
        i += 1;
    }
    proof {
        assert forall|d: D4, x: int, y: int| #[trigger] image_fits(si, *p, d, x, y) implies covered(lists_view(res@), si, *p, d, x, y) by {
            assert(d.idx() < 8);
        }
    }
    res
}

/// Some image of the problem, if there is one, lies among the set squares of `mask`.
pub open spec fn forbidden(mask: usize, s: int, problem: Option<TightPoly>) -> bool {
    match problem {
        Some(p) => holds_image(mask, s, p),
        None => false,
    }
}

/// `mask` is an `s x s` grid with no forbidden block and no image of the problem.
pub open spec fn acceptable(mask: usize, s: int, problem: Option<TightPoly>) -> bool {
    &&& mask < pow2((s * s) as nat)
    &&& !has_bad_block(mask, s)
    &&& !forbidden(mask, s, problem)
}

/// The lists of squares that no acceptable grid holds all of.
pub open spec fn lists_for(plist: Seq<Seq<usize>>, s: int, problem: Option<TightPoly>) -> bool {
    &&& lists_in(plist, s * s)
    &&& match problem {
        Some(p) => {
            &&& forall|t: int| 0 <= t < plist.len() ==> #[trigger] is_some_image_list(plist[t], s, p)
            &&& forall|d: D4, x: int, y: int| #[trigger] image_fits(s, p, d, x, y) ==> covered(plist, s, p, d, x, y)
        },
        None => plist.len() == 0,
    }
}

/// Bit `k` of a word read as a `usize`.
proof fn lemma_ubit_u32(m: u32, k: int)
    requires
        0 <= k < 32,
    ensures
        ubit(m as usize, k) == bit32(m, k),
{
    let ku = k as usize;
    assert((((m as usize) >> ku) & 1usize == 1usize) == ((m >> (ku as u32)) & 1u32 == 1u32)) by (bit_vector)
        requires
            ku < 32,
    ;
}

/// A grid of up to 25 squares and the bits of its value agree.
proof fn lemma_value_bits(c: Seq<bool>, m: usize)
    requires
        c.len() <= 25,
        bits_value(c) == m,
    ensures
        forall|k: int| 0 <= k < c.len() ==> #[trigger] ubit(m, k) == c[k],
{
    lemma_bits_value_bound(c);
    lemma_pow2_small(c.len());
    let m32 = m as u32;
    lemma_to_bits_value(m32, c.len());
    lemma_bits_value_injective(to_bits(m32, c.len()), c);
    assert forall|k: int| 0 <= k < c.len() implies #[trigger] ubit(m, k) == c[k] by {
        lemma_ubit_u32(m32, k);
        assert(to_bits(m32, c.len())[k] == bit32(m32, k));
    }
}

/// The bits `c` of an `s x s` grid pass the checks exactly when their value is acceptable.
proof fn lemma_link(c: Seq<bool>, m: usize, s: int, problem: Option<TightPoly>, plist: Seq<Seq<usize>>)
    requires
        2 <= s <= 5,
        c.len() == s * s,
        bits_value(c) == m,
        lists_for(plist, s, problem),
    ensures
        partial_ok(c, s, 0, plist) == acceptable(m, s, problem),
{
    assert(s * s <= 25) by (nonlinear_arith)
        requires
            0 <= s <= 5,
    ;
    lemma_value_bits(c, m);
    lemma_bits_value_bound(c);
    assert forall|x: int, y: int| 1 <= x < s && 1 <= y < s implies #[trigger] bad_block_b(c, s, x, y) == bad_block(m, s, x, y) by {
        lemma_block_after(s, x, y);
    }
    if has_bad_block(m, s) {
        let (x, y) = choose|x: int, y: int| 1 <= x < s && 1 <= y < s && #[trigger] bad_block(m, s, x, y);
        lemma_block_after(s, x, y);
        assert(bad_block_b(c, s, x, y));
    }
    if !has_bad_block(m, s) {
        assert forall|x: int, y: int| 1 <= x < s && 1 <= y < s && sq_id(s, x - 1, y - 1) >= 0 implies !#[trigger] bad_block_b(c, s, x, y) by {
            assert(!bad_block(m, s, x, y));
        }
    }
    match problem {
        Some(p) => {
            if holds_image(m, s, p) {
                let (d, x, y) = choose|d: D4, x: int, y: int| #[trigger] image_in(m, s, p, d, x, y);
                let t = choose|t: int| 0 <= t < plist.len() && #[trigger] list_is(plist[t], s, p, d, x, y);
                assert forall|i: int| 0 <= i < plist[t].len() implies (#[trigger] plist[t][i]) >= 0 && c[plist[t][i] as int] by {
                    assert(is_image_square(plist[t][i] as int, s, p, d, x, y));
                    let (a, b) = choose|a: int, b: int| #[trigger] p.cell(a, b) && plist[t][i] == image_square(s, p, d, x, y, a, b);
                    assert(plist[t][i] < s * s);
                }
                assert(all_fixed_set(c, plist[t], 0));
                assert(!partial_ok(c, s, 0, plist));
            }
            if exists|t: int| 0 <= t < plist.len() && #[trigger] all_fixed_set(c, plist[t], 0) {
                let t = choose|t: int| 0 <= t < plist.len() && #[trigger] all_fixed_set(c, plist[t], 0);
                assert(is_some_image_list(plist[t], s, p));
                let (d, x, y) = choose|d: D4, x: int, y: int| #[trigger] list_is(plist[t], s, p, d, x, y);
                assert forall|a: int, b: int| #[trigger] p.cell(a, b) implies ubit(m, image_square(s, p, d, x, y, a, b)) by {
                    lemma_cell_image_in_box(d, p.h() as int, p.w() as int, a, b);
                    let ci = cell_image(d, p.h() as int, p.w() as int, a, b);
                    assert(sq(s, x + ci.0, y + ci.1));
                    lemma_sq_bound(s, x + ci.0, y + ci.1);
                    let i = choose|i: int| 0 <= i < plist[t].len() && plist[t][i] == image_square(s, p, d, x, y, a, b) as usize;
                    assert(plist[t][i] < s * s);
                }
                assert(image_in(m, s, p, d, x, y));
                assert(holds_image(m, s, p));
            }
        },
        None => {},
    }
    assert(m < pow2((s * s) as nat));
}

proof fn lemma_sq_bound(s: int, x: int, y: int)
    requires
        sq(s, x, y),
    ensures
        0 <= sq_id(s, x, y) < s * s,
{
    assert(0 <= x * s + y < s * s) by (nonlinear_arith)
        requires
            0 <= x < s,
            0 <= y < s,
    ;
}

/// The problem behind the reference, if there is one.
pub open spec fn problem_of(problem: Option<&TightPoly>) -> Option<TightPoly> {
    match problem {
        Some(p) => Some(*p),
        None => None,
    }
}

/// The lists of squares of the images of the problem, none if there is no problem.
fn problem_placements(s: usize, problem: Option<&TightPoly>) -> (r: Vec<Vec<usize>>)
    requires
        2 <= s <= 5,
        problem matches Some(p) ==> p.rotatable(),
    ensures
        lists_for(lists_view(r@), s as int, problem_of(problem)),
{
    match problem {
        Some(p) => placements(s, p),
        None => {
            let r: Vec<Vec<usize>> = Vec::new();
            assert(lists_view(r@).len() == 0);
            r
        },
    }
}

/// The `s x s` grids, as masks of their squares row by row, with no forbidden 2x2 block
/// and holding no image of the problem under a symmetry.
pub fn acceptable_masks(s: usize, problem: Option<&TightPoly>) -> (r: Vec<usize>)
    requires
        2 <= s <= 5,
        problem matches Some(p) ==> p.rotatable(),
    ensures
        forall|m: usize| r@.contains(m) <==> #[trigger] acceptable(m, s as int, problem_of(problem)),
{
    let ghost si = s as int;
    let plist = problem_placements(s, problem);
    let ghost pv = lists_view(plist@);
    proof {
        assert(s * s <= 25) by (nonlinear_arith)
            requires
                s <= 5,
        ;
    }
    let n = s * s;
    let mut b: Vec<bool> = Vec::new();
    while b.len() < n
        invariant
            b.len() <= n,
            forall|i: int| 0 <= i < b.len() ==> !b@[i],
        decreases n - b.len(),
    {
        b.push(false);
    }
    let ghost b0 = b@;
    let mut out: Vec<usize> = Vec::new();
    let mut t: usize = 0;
    let mut empty_list = false;
    while t < plist.len()
        invariant
            t <= plist.len(),
            pv == lists_view(plist@),
            empty_list == exists|u: int| 0 <= u < t && (#[trigger] pv[u]).len() == 0,
        decreases plist.len() - t,
    {
        assert(plist@[t as int]@ == pv[t as int]);
        if plist[t].len() == 0 {
            empty_list = true;
        }
        proof {
            if empty_list && plist@[t as int]@.len() != 0 {
                let u = choose|u: int| 0 <= u < t && (#[trigger] pv[u]).len() == 0;
                assert(0 <= u < t + 1 && pv[u].len() == 0);
            }
        }
        t += 1;
    }
    if empty_list {
        proof {
            let u = choose|u: int| 0 <= u < plist.len() && (#[trigger] pv[u]).len() == 0;
            assert(all_fixed_set(b0, pv[u], n as int));
            lemma_pruned(b0, n as int, si, pv);
        }
    } else {
        proof {
            assert forall|x: int, y: int| 1 <= x < s && 1 <= y < s && sq_id(si, x - 1, y - 1) >= n implies !#[trigger] bad_block_b(b0, si, x, y) by {
                lemma_block_after(si, x, y);
            }
            assert forall|u: int| 0 <= u < pv.len() implies !#[trigger] all_fixed_set(b0, pv[u], n as int) by {
                assert(pv[u][0] < n);
            }
        }
        search(s, n, &mut b, &plist, &mut out);
    }
    proof {
        assert forall|m: usize| out@.contains(m) <==> #[trigger] acceptable(m, si, problem_of(problem)) by {
            lemma_completions(b0, n as int, si, pv, m);
            if acceptable(m, si, problem_of(problem)) {
                lemma_pow2_small(n as nat);
                let c = to_bits(m as u32, n as nat);
                lemma_to_bits_value(m as u32, n as nat);
                lemma_link(c, m, si, problem_of(problem), pv);
                assert(agrees_from(c, b0, n as int));
            }
            if out@.contains(m) {
                let c = choose|c: Seq<bool>| agrees_from(c, b0, n as int) && #[trigger] partial_ok(c, si, 0, pv) && bits_value(c) == m;
                lemma_link(c, m, si, problem_of(problem), pv);
            }
        }
    }
    out
}

/// The number written for a label: 0 for a free square, one more than the label otherwise.
pub open spec fn label_code(o: Option<u8>) -> nat {
    match o {
        None => 0,
        Some(l) => l as nat + 1,
    }
}

/// The labels read as the digits of a number in base 257, the last the lowest.
pub open spec fn labels_number(c: Seq<Option<u8>>) -> nat
    decreases c.len(),
{
    if c.len() == 0 {
        0
    } else {
        labels_number(c.drop_last()) * 257 + label_code(c.last())
    }
}

/// `257^k`.
pub open spec fn pow257(k: nat) -> nat
    decreases k,
{
    if k == 0 {
        1
    } else {
        pow257((k - 1) as nat) * 257
    }
}

/// The labels of one part of a rim, a third of the squares at a time.
pub open spec fn part(c: Seq<Option<u8>>, i: int) -> Seq<Option<u8>> {
    let lo = if 9 * i < c.len() { 9 * i } else { c.len() as int };
    let hi = if 9 * i + 9 < c.len() { 9 * i + 9 } else { c.len() as int };
    c.subrange(lo, hi)
}

/// The key under which labels of up to 27 squares are grouped.
pub open spec fn labels_key(c: Seq<Option<u8>>) -> (u128, u128, u128) {
    (labels_number(part(c, 0)) as u128, labels_number(part(c, 1)) as u128, labels_number(part(c, 2)) as u128)
}

proof fn lemma_labels_number_bound(c: Seq<Option<u8>>)
    ensures
        labels_number(c) < pow257(c.len()),
    decreases c.len(),
{
    if c.len() > 0 {
        lemma_labels_number_bound(c.drop_last());
        let a = labels_number(c.drop_last());
        let p = pow257((c.len() - 1) as nat);
        assert(a * 257 + 256 < p * 257) by (nonlinear_arith)
            requires
                a < p,
        ;
    }
}

proof fn lemma_labels_number_injective(a: Seq<Option<u8>>, b: Seq<Option<u8>>)
    requires
        a.len() == b.len(),
        labels_number(a) == labels_number(b),
    ensures
        a == b,
    decreases a.len(),
{
    if a.len() == 0 {
        assert(a =~= b);
    } else {
        let x = labels_number(a);
        lemma_fundamental_div_mod_converse(x as int, 257, labels_number(a.drop_last()) as int, label_code(a.last()) as int);
        lemma_fundamental_div_mod_converse(x as int, 257, labels_number(b.drop_last()) as int, label_code(b.last()) as int);
        lemma_labels_number_injective(a.drop_last(), b.drop_last());
        assert(a =~= a.drop_last().push(a.last()));
        assert(b =~= b.drop_last().push(b.last()));
    }
}

/// Labels of up to 27 squares with one key are equal when they have one length.
proof fn lemma_key_injective(a: Seq<Option<u8>>, b: Seq<Option<u8>>)
    requires
        a.len() == b.len(),
        a.len() <= 27,
        labels_key(a) == labels_key(b),
    ensures
        a == b,
{
    lemma_pow257_9();
    assert forall|i: int| 0 <= i < 3 implies #[trigger] part(a, i) == part(b, i) by {
        lemma_labels_number_bound(part(a, i));
        lemma_labels_number_bound(part(b, i));
        lemma_pow257_mono(part(a, i).len(), 9);
        lemma_labels_number_injective(part(a, i), part(b, i));
    }
    assert(part(a, 0) == part(b, 0));
    assert(part(a, 1) == part(b, 1));
    assert(part(a, 2) == part(b, 2));
    assert forall|k: int| 0 <= k < a.len() implies a[k] == b[k] by {
        if k < 9 {
            assert(part(a, 0)[k] == a[k]);
            assert(part(b, 0)[k] == b[k]);
        } else if k < 18 {
            assert(part(a, 1)[k - 9] == a[k]);
            assert(part(b, 1)[k - 9] == b[k]);
        } else {
            assert(part(a, 2)[k - 18] == a[k]);
            assert(part(b, 2)[k - 18] == b[k]);
        }
    }
    assert(a =~= b);
}

proof fn lemma_pow257_9()
    ensures
        pow257(9) == 4891005035897482905857,
{
    reveal_with_fuel(pow257, 10);
}

proof fn lemma_pow257_mono(k: nat, l: nat)
    requires
        k <= l,
    ensures
        pow257(k) <= pow257(l),
    decreases l,
{
    if k < l {
        lemma_pow257_mono(k, (l - 1) as nat);
    }
}

/// The number of up to nine labels.
fn labels_number_of(c: &Vec<Option<u8>>, lo: usize, hi: usize) -> (r: u128)
    requires
        lo <= hi <= c.len(),
        hi - lo <= 9,
    ensures
        r == labels_number(c@.subrange(lo as int, hi as int)),
{
    let mut acc: u128 = 0;
    let mut i: usize = lo;
    proof {
        lemma_pow257_9();
        assert(c@.subrange(lo as int, lo as int) =~= Seq::<Option<u8>>::empty());
    }
    while i < hi
        invariant
            lo <= i <= hi,
            hi <= c.len(),
            hi - lo <= 9,
            pow257(9) == 4891005035897482905857,
            acc == labels_number(c@.subrange(lo as int, i as int)),
        decreases hi - i,
    {
        let ghost t = c@.subrange(lo as int, i + 1);
        proof {
            assert(t.drop_last() =~= c@.subrange(lo as int, i as int));
            lemma_labels_number_bound(c@.subrange(lo as int, i as int));
            lemma_pow257_mono((i - lo) as nat, 8);
            assert(pow257(9) == pow257(8) * 257);
        }
        let code: u128 = match c[i] {
            None => 0,
            Some(l) => l as u128 + 1,
        };
        acc = acc * 257 + code;
        i += 1;
    }
    acc
}

/// The key of the labels.
fn key_of(c: &Vec<Option<u8>>) -> (r: (u128, u128, u128))
    requires
        c.len() <= 27,
    ensures
        r == labels_key(c@),
{
    let n = c.len();
    let a = if n < 9 { n } else { 9 };
    let b = if n < 18 { n } else { 18 };
    let k0 = labels_number_of(c, 0, a);
    let k1 = labels_number_of(c, a, b);
    let k2 = labels_number_of(c, b, n);
    (k0, k1, k2)
}

/// One label per square of the list.
proof fn lemma_rim_labels_len(mask: usize, s: int, cells: Seq<int>)
    ensures
        rim_labels(mask, s, cells).0.len() == cells.len(),
    decreases cells.len(),
{
    if cells.len() > 0 {
        lemma_rim_labels_len(mask, s, cells.drop_last());
    }
}

proof fn lemma_rim_row_len(s: int, x: int, y: int)
    ensures
        rim_row(s, x, y).len() <= if y < 0 { 0 } else { y },
    decreases y,
{
    if y > 0 {
        lemma_rim_row_len(s, x, y - 1);
    }
}

proof fn lemma_rim_rows_len(s: int, x: int)
    requires
        0 <= s,
    ensures
        rim_rows(s, x).len() <= if x < 0 { 0 } else { x * s },
    decreases x,
{
    if x > 0 {
        lemma_rim_rows_len(s, x - 1);
        lemma_rim_row_len(s, x - 1, s);
        assert((x - 1) * s + s == x * s) by (nonlinear_arith);
    }
}

/// How the rim of the grid connects: the labels of its squares.
pub open spec fn surroundings_of(mask: usize, s: int) -> Seq<Option<u8>> {
    rim_labels(mask, s, rim_rows(s, s)).0
}

proof fn lemma_surroundings_len(mask: usize, s: int)
    requires
        0 <= s <= 5,
    ensures
        surroundings_of(mask, s).len() == rim_rows(s, s).len(),
        rim_rows(s, s).len() <= 25,
{
    lemma_rim_labels_len(mask, s, rim_rows(s, s));
    lemma_rim_rows_len(s, s);
    assert(s * s <= 25) by (nonlinear_arith)
        requires
            0 <= s <= 5,
    ;
}

/// The squares inside the rim, row by row.
pub open spec fn interior_bits(mask: usize, s: int) -> Seq<bool> {
    Seq::new(((s - 2) * (s - 2)) as nat, |k: int| filled(mask, s, k / (s - 2) + 1, k % (s - 2) + 1))
}

/// The mask of the squares inside the rim: the square `(x, y)` of the inside is its bit
/// `x * (s - 2) + y`.
pub open spec fn interior(mask: usize, s: int) -> nat {
    bits_value(interior_bits(mask, s))
}

/// The mask of the squares inside the rim.
fn interior_of(mask: usize, s: usize) -> (r: usize)
    requires
        2 <= s <= 5,
    ensures
        r == interior(mask, s as int),
{
    let inner = s - 2;
    let ghost bits = interior_bits(mask, s as int);
    proof {
        assert(inner * inner <= 9) by (nonlinear_arith)
            requires
                inner <= 3,
        ;
        vstd::arithmetic::power2::lemma2_to64();
        assert(bits.subrange(0, 0) =~= Seq::<bool>::empty());
    }
    let total = inner * inner;
    let mut acc: usize = 0;
    let mut p: usize = 1;
    let mut k: usize = 0;
    while k < total
        invariant
            inner == s - 2,
            2 <= s <= 5,
            total == inner * inner,
            total <= 9,
            bits == interior_bits(mask, s as int),
            bits.len() == total,
            k <= total,
            acc == bits_value(bits.subrange(0, k as int)),
            p == pow2(k as nat),
        decreases total - k,
    {
        let i = k / inner;
        let j = k % inner;
        proof {
            lemma_fundamental_div_mod(k as int, inner as int);
            assert(i < inner) by (nonlinear_arith)
                requires
                    k == inner * i + j,
                    0 <= j,
                    k < inner * inner,
                    0 <= i,
            ;
            assert((i + 1) * s + j + 1 < 25) by (nonlinear_arith)
                requires
                    i < inner,
                    j < inner,
                    inner == s - 2,
                    s <= 5,
            ;
            let t = bits.subrange(0, k + 1);
            assert(t.drop_last() =~= bits.subrange(0, k as int));
            lemma_bits_value_bound(t);
            lemma_pow2_small((k + 1) as nat);
            lemma_pow2_unfold((k + 1) as nat);
        }
        let bit = (mask >> ((i + 1) * s + j + 1)) & 1 == 1;
        if bit {
            acc = acc + p;
        }
        p = p * 2;
        k += 1;
    }
    assert(bits.subrange(0, total as int) =~= bits);
    acc
}

/// The grid is acceptable and also has no hole and no piece cut off from the rim.
pub open spec fn usable(mask: usize, s: int, problem: Option<TightPoly>) -> bool {
    &&& acceptable(mask, s, problem)
    &&& !has_hole(mask, s)
    &&& !has_isolated(mask, s)
}

/// For each `s x s` grid, the masks of the insides that go with the same rim: the insides of
/// the usable grids whose rim connects in the same way, or none if the grid is not usable.
pub struct Connections {
    side: usize,
    classes: Vec<Vec<usize>>,
    class_of: Vec<usize>,
}

impl Connections {
    /// The side of the grids, rim included.
    pub closed spec fn side_spec(self) -> int {
        self.side as int
    }

    pub closed spec fn wf(self) -> bool {
        &&& 2 <= self.side <= 5
        &&& self.class_of@.len() == pow2((self.side * self.side) as nat)
        &&& self.classes@.len() >= 1
        &&& forall|m: int| 0 <= m < self.class_of@.len() ==> #[trigger] self.class_of@[m] < self.classes@.len()
    }

    /// The insides listed for the grid `mask`.
    pub closed spec fn cands(self, mask: int) -> Seq<usize> {
        self.classes@[self.class_of@[mask] as int]@
    }

    /// The lists are those of the grids of side `s`, for the problem.
    pub open spec fn connects(self, s: int, problem: Option<TightPoly>) -> bool {
        &&& self.wf()
        &&& self.side_spec() == s
        &&& forall|mask: usize| #![trigger self.cands(mask as int)] mask < pow2((s * s) as nat) ==> {
            &&& !usable(mask, s, problem) ==> self.cands(mask as int).len() == 0
            &&& usable(mask, s, problem) ==> forall|v: usize| self.cands(mask as int).contains(v) <==> exists|m: usize|
                #[trigger] usable(m, s, problem) && surroundings_of(m, s) == surroundings_of(mask, s) && v == interior(m, s)
        }
    }

    /// The insides that go with the rim of the grid `mask_2d`.
    pub fn candidates(&self, mask_2d: usize) -> (r: Vec<usize>)
        requires
            self.wf(),
            mask_2d < pow2((self.side_spec() * self.side_spec()) as nat),
        ensures
            r@ == self.cands(mask_2d as int),
    {
        let c = self.class_of[mask_2d];
        let list = &self.classes[c];
        let mut r: Vec<usize> = Vec::new();
        let mut i: usize = 0;
        while i < list.len()
            invariant
                i <= list.len(),
                r@ == list@.subrange(0, i as int),
            decreases list.len() - i,
        {
            r.push(list[i]);
            i += 1;
        }
        assert(r@ =~= list@);
        r
    }
}

/// The `i`-th grid of the list has surroundings.
pub open spec fn found_ok(found: Seq<Result<Surroundings, SurroundingsError>>, i: int) -> bool {
    found[i] is Ok
}

/// The labels of the `i`-th grid of the list, when it has surroundings.
pub open spec fn found_labels(found: Seq<Result<Surroundings, SurroundingsError>>, i: int) -> Seq<Option<u8>> {
    match found[i] {
        Ok(sur) => sur.components@,
        Err(_) => Seq::empty(),
    }
}

/// The class `c` holds the insides of the grids before `i` with surroundings `rep`.
pub open spec fn class_holds(
    class: Seq<usize>,
    rep: Seq<Option<u8>>,
    masks: Seq<usize>,
    found: Seq<Result<Surroundings, SurroundingsError>>,
    i: int,
    s: int,
) -> bool {
    forall|v: usize| class.contains(v) <==> exists|j: int|
        0 <= j < i && #[trigger] found_ok(found, j) && found_labels(found, j) == rep && v == interior(masks[j], s)
}

impl Connections {
    /// Groups the acceptable grids `masks` by their surroundings, `found[i]` being what the
    /// surroundings of `masks[i]` are.
    pub fn from_surroundings(
        interior_side: usize,
        problem: Option<&TightPoly>,
        masks: &Vec<usize>,
        found: &Vec<Result<Surroundings, SurroundingsError>>,
    ) -> (r: Connections)
        requires
            interior_side <= 3,
            masks.len() == found.len(),
            forall|m: usize| masks@.contains(m) <==> #[trigger] acceptable(m, interior_side + 2, problem_of(problem)),
            forall|i: int| 0 <= i < masks.len() ==> #[trigger] surroundings_result(masks@[i], interior_side + 2, found@[i]),
        ensures
            r.connects(interior_side + 2, problem_of(problem)),
    {
        let s = interior_side + 2;
        let ghost si = s as int;
        let ghost prob = problem_of(problem);
        let ghost l = rim_rows(si, si).len();
        proof {
            lemma_surroundings_len(0, si);
        }
        let mut map: BTreeMap<(u128, u128, u128), usize> = BTreeMap::new();
        let mut classes: Vec<Vec<usize>> = Vec::new();
        classes.push(Vec::new());
        let ghost mut reps: Seq<Seq<Option<u8>>> = seq![Seq::empty()];
        let mut assigned: Vec<usize> = Vec::new();
        let mut i: usize = 0;
        while i < masks.len()
            invariant
                2 <= s <= 5,
                si == s,
                l == rim_rows(si, si).len(),
                l <= 25,
                masks.len() == found.len(),
                forall|i2: int| 0 <= i2 < masks.len() ==> #[trigger] surroundings_result(masks@[i2], si, found@[i2]),
                i <= masks.len(),
                classes.len() == reps.len(),
                classes.len() >= 1,
                classes@[0]@.len() == 0,
                assigned.len() == i,
                forall|c: int| 1 <= c < reps.len() ==> (#[trigger] reps[c]).len() == l,
                forall|c: int| 1 <= c < reps.len() ==> #[trigger] map@.contains_key(labels_key(reps[c])) && map@[labels_key(reps[c])] == c,
                forall|k: (u128, u128, u128)| #[trigger] map@.contains_key(k) ==> 1 <= map@[k] < reps.len() && labels_key(reps[map@[k] as int]) == k,
                forall|c: int| 1 <= c < reps.len() ==> class_holds(#[trigger] classes@[c]@, reps[c], masks@, found@, i as int, si),
                forall|j: int| 0 <= j < i ==> #[trigger] found_ok(found@, j) ==> 1 <= assigned@[j] < reps.len() && reps[assigned@[j] as int] == found_labels(found@, j),
            decreases masks.len() - i,
        {
            proof {
                assert(surroundings_result(masks@[i as int], si, found@[i as int]));
                lemma_surroundings_len(masks@[i as int], si);
            }
            let ghost old_classes = classes@;
            let ghost old_reps = reps;
            let ghost old_assigned = assigned@;
            let ghost old_map = map@;
            match &found[i] {
                Err(_) => {
                    assigned.push(0);
                    proof {
                        assert forall|c: int| 1 <= c < reps.len() implies class_holds(#[trigger] classes@[c]@, reps[c], masks@, found@, i + 1, si) by {
                            assert(class_holds(classes@[c]@, reps[c], masks@, found@, i as int, si));
                            assert forall|v: usize| classes@[c]@.contains(v) <==> exists|j: int|
                                0 <= j < i + 1 && #[trigger] found_ok(found@, j) && found_labels(found@, j) == reps[c] && v == interior(masks@[j], si) by {
                                if exists|j: int| 0 <= j < i + 1 && #[trigger] found_ok(found@, j) && found_labels(found@, j) == reps[c] && v == interior(masks@[j], si) {
                                    let j = choose|j: int| 0 <= j < i + 1 && #[trigger] found_ok(found@, j) && found_labels(found@, j) == reps[c] && v == interior(masks@[j], si);
                                    assert(j < i);
                                }
                            }
                        }
                    }
                },
                Ok(sur) => {
                    let key = key_of(&sur.components);
                    let v = interior_of(masks[i], s);
                    let c: usize;
                    match map.get(&key) {
                        Some(found_c) => {
                            c = *found_c;
                            proof {
                                lemma_key_injective(reps[c as int], sur.components@);
                                assert(reps[c as int] == sur.components@);
                            }
                            classes[c].push(v);
                            proof {
                                assert(classes@[c as int]@ == old_classes[c as int]@.push(v));
                                assert forall|c3: int| 0 <= c3 < classes.len() && c3 != c implies classes@[c3] == old_classes[c3] by {}
                            }
                        },
                        None => {
                            c = classes.len();
                            let mut fresh: Vec<usize> = Vec::new();
                            fresh.push(v);
                            classes.push(fresh);
                            proof {
                                assert(!old_map.contains_key(labels_key(sur.components@)));
                                reps = reps.push(sur.components@);
                            }
                            map.insert(key, c);
                        },
                    }
                    assigned.push(c);
                    proof {
                        assert(found_labels(found@, i as int) == sur.components@);
                        assert(found_ok(found@, i as int));
                        assert forall|c2: int| 1 <= c2 < reps.len() implies class_holds(#[trigger] classes@[c2]@, reps[c2], masks@, found@, i + 1, si) by {
                            if c2 < old_reps.len() {
                                assert(class_holds(old_classes[c2]@, reps[c2], masks@, found@, i as int, si));
                            }
                            if c2 == c && c2 < old_reps.len() {
                                assert(classes@[c2]@ == old_classes[c2]@.push(v));
                                assert forall|w: usize| #[trigger] classes@[c2]@.contains(w) implies exists|j: int|
                                    0 <= j < i + 1 && #[trigger] found_ok(found@, j) && found_labels(found@, j) == reps[c2] && w == interior(masks@[j], si) by {
                                    if w != v {
                                        let k = choose|k: int| 0 <= k < classes@[c2]@.len() && classes@[c2]@[k] == w;
                                        assert(old_classes[c2]@[k] == w);
                                        assert(old_classes[c2]@.contains(w));
                                    } else {
                                        assert(found_ok(found@, i as int) && found_labels(found@, i as int) == reps[c2] && w == interior(masks@[i as int], si));
                                    }
                                }
                                assert forall|w: usize| (exists|j: int|
                                    0 <= j < i + 1 && #[trigger] found_ok(found@, j) && found_labels(found@, j) == reps[c2] && w == interior(masks@[j], si)) implies #[trigger] classes@[c2]@.contains(w) by {
                                    let j = choose|j: int| 0 <= j < i + 1 && #[trigger] found_ok(found@, j) && found_labels(found@, j) == reps[c2] && w == interior(masks@[j], si);
                                    if j < i {
                                        assert(old_classes[c2]@.contains(w));
                                        let k = choose|k: int| 0 <= k < old_classes[c2]@.len() && old_classes[c2]@[k] == w;
                                        assert(classes@[c2]@[k] == w);
                                    } else {
                                        assert(classes@[c2]@[classes@[c2]@.len() - 1] == w);
                                    }
                                }
                            } else if c2 == c {
                                assert(classes@[c2]@ == seq![v]);
                                assert forall|w: usize| #[trigger] classes@[c2]@.contains(w) implies exists|j: int|
                                    0 <= j < i + 1 && #[trigger] found_ok(found@, j) && found_labels(found@, j) == reps[c2] && w == interior(masks@[j], si) by {
                                    assert(classes@[c2]@[0] == w);
                                    assert(found_ok(found@, i as int) && found_labels(found@, i as int) == reps[c2] && w == interior(masks@[i as int], si));
                                }
                                assert forall|w: usize| (exists|j: int|
                                    0 <= j < i + 1 && #[trigger] found_ok(found@, j) && found_labels(found@, j) == reps[c2] && w == interior(masks@[j], si)) implies #[trigger] classes@[c2]@.contains(w) by {
                                    let j = choose|j: int| 0 <= j < i + 1 && #[trigger] found_ok(found@, j) && found_labels(found@, j) == reps[c2] && w == interior(masks@[j], si);
                                    if j < i {
                                        let a = old_assigned[j];
                                        assert(old_reps[a as int] == reps[c2]);
                                        assert(old_map.contains_key(labels_key(old_reps[a as int])));
                                        assert(false);
                                    }
                                    assert(classes@[c2]@[0] == w);
                                }
                            } else {
                                assert(classes@[c2] == old_classes[c2]);
                                assert forall|w: usize| #[trigger] classes@[c2]@.contains(w) implies exists|j: int|
                                    0 <= j < i + 1 && #[trigger] found_ok(found@, j) && found_labels(found@, j) == reps[c2] && w == interior(masks@[j], si) by {
                                    assert(old_classes[c2]@.contains(w));
                                }
                                assert forall|w: usize| (exists|j: int|
                                    0 <= j < i + 1 && #[trigger] found_ok(found@, j) && found_labels(found@, j) == reps[c2] && w == interior(masks@[j], si)) implies #[trigger] classes@[c2]@.contains(w) by {
                                    let j = choose|j: int| 0 <= j < i + 1 && #[trigger] found_ok(found@, j) && found_labels(found@, j) == reps[c2] && w == interior(masks@[j], si);
                                    if j == i {
                                        assert(reps[c2] == reps[c as int]);
                                        assert(old_map.contains_key(labels_key(old_reps[c2])));
                                        assert(old_map[labels_key(old_reps[c2])] == c2);
                                        if c < old_reps.len() {
                                            assert(old_map[labels_key(old_reps[c as int])] == c);
                                        }
                                        assert(false);
                                    }
                                    assert(old_classes[c2]@.contains(w));
                                }
                            }
                        }
                        assert forall|j: int| 0 <= j < i + 1 implies #[trigger] found_ok(found@, j) ==> 1 <= assigned@[j] < reps.len() && reps[assigned@[j] as int] == found_labels(found@, j) by {
                            if j < i {
                                assert(assigned@[j] == old_assigned[j]);
                            }
                        }
                    }
                },
            }
            i += 1;
        }
        // The table from each grid to its class.
        let mut size: usize = 1;
        let mut e: usize = 0;
        proof {
            assert(s * s <= 25) by (nonlinear_arith)
                requires
                    s <= 5,
            ;
        }
        let n = s * s;
        proof {
            lemma_pow2_pos(0);
            vstd::arithmetic::power2::lemma2_to64();
        }
        while e < n
            invariant
                e <= n,
                n <= 25,
                size == pow2(e as nat),
            decreases n - e,
        {
            proof {
                lemma_pow2_small((e + 1) as nat);
                lemma_pow2_unfold((e + 1) as nat);
            }
            size = size * 2;
            e += 1;
        }
        let mut class_of: Vec<usize> = vec![0usize; size];
        let mut j: usize = 0;
        while j < masks.len()
            invariant
                2 <= s <= 5,
                si == s,
                n == s * s,
                size == pow2(n as nat),
                class_of.len() == size,
                j <= masks.len(),
                masks.len() == found.len(),
                assigned.len() == masks.len(),
                forall|m: usize| masks@.contains(m) ==> #[trigger] acceptable(m, si, prob),
                forall|i2: int| 0 <= i2 < masks.len() ==> #[trigger] found_ok(found@, i2) ==> 1 <= assigned@[i2] < reps.len() && reps[assigned@[i2] as int] == found_labels(found@, i2),
                forall|i2: int| 0 <= i2 < masks.len() ==> #[trigger] surroundings_result(masks@[i2], si, found@[i2]),
                forall|c: int| 1 <= c < reps.len() ==> #[trigger] map@.contains_key(labels_key(reps[c])) && map@[labels_key(reps[c])] == c,
                forall|m: int| 0 <= m < size ==> #[trigger] class_of@[m] < reps.len(),
                forall|m: int| 0 <= m < size && #[trigger] class_of@[m] != 0 ==> exists|i2: int| 0 <= i2 < j && masks@[i2] == m && #[trigger] found_ok(found@, i2) && reps[class_of@[m] as int] == found_labels(found@, i2),
                forall|i2: int| 0 <= i2 < j && #[trigger] found_ok(found@, i2) ==> class_of@[masks@[i2] as int] != 0,
            decreases masks.len() - j,
        {
            proof {
                assert(masks@.contains(masks@[j as int]));
                assert(surroundings_result(masks@[j as int], si, found@[j as int]));
            }
            if found[j].is_ok() {
                let m = masks[j];
                proof {
                    assert(acceptable(m, si, prob));
                    assert(found_ok(found@, j as int));
                }
                let ghost old_table = class_of@;
                assert(assigned@[j as int] >= 1);
                class_of.set(m, assigned[j]);
                proof {
                    assert forall|m2: int| 0 <= m2 < size && #[trigger] class_of@[m2] != 0 implies exists|i2: int| 0 <= i2 < j + 1 && masks@[i2] == m2 && #[trigger] found_ok(found@, i2) && reps[class_of@[m2] as int] == found_labels(found@, i2) by {
                        if m2 == m {
                            assert(found_ok(found@, j as int));
                        } else {
                            assert(old_table[m2] != 0);
                        }
                    }
                    assert forall|i2: int| 0 <= i2 < j + 1 && #[trigger] found_ok(found@, i2) implies class_of@[masks@[i2] as int] != 0 by {
                        assert(masks@.contains(masks@[i2]));
                        assert(acceptable(masks@[i2], si, prob));
                        if masks@[i2] as int != m as int {
                            assert(i2 < j);
                            assert(old_table[masks@[i2] as int] != 0);
                        }
                    }
                }
            }
            j += 1;
        }
        let r = Connections { side: s, classes, class_of };
        proof {
            assert forall|mask: usize| #![trigger r.cands(mask as int)] mask < pow2((si * si) as nat) implies {
                &&& !usable(mask, si, prob) ==> r.cands(mask as int).len() == 0
                &&& usable(mask, si, prob) ==> forall|v: usize| r.cands(mask as int).contains(v) <==> exists|m: usize|
                    #[trigger] usable(m, si, prob) && surroundings_of(m, si) == surroundings_of(mask, si) && v == interior(m, si)
            } by {
                if usable(mask, si, prob) {
                    assert(masks@.contains(mask));
                    let i2 = choose|i2: int| 0 <= i2 < masks.len() && masks@[i2] == mask;
                    assert(surroundings_result(masks@[i2], si, found@[i2]));
                    assert(found_ok(found@, i2));
                    let c = class_of@[mask as int];
                    assert(c != 0);
                    let i3 = choose|i3: int| 0 <= i3 < j && masks@[i3] == mask && #[trigger] found_ok(found@, i3) && reps[c as int] == found_labels(found@, i3);
                    assert(surroundings_result(masks@[i3], si, found@[i3]));
                    assert(reps[c as int] == surroundings_of(mask, si));
                    assert(class_holds(classes@[c as int]@, reps[c as int], masks@, found@, masks.len() as int, si));
                    assert forall|v: usize| r.cands(mask as int).contains(v) <==> exists|m: usize|
                        #[trigger] usable(m, si, prob) && surroundings_of(m, si) == surroundings_of(mask, si) && v == interior(m, si) by {
                        if r.cands(mask as int).contains(v) {
                            let j2 = choose|j2: int| 0 <= j2 < masks.len() && #[trigger] found_ok(found@, j2) && found_labels(found@, j2) == reps[c as int] && v == interior(masks@[j2], si);
                            assert(surroundings_result(masks@[j2], si, found@[j2]));
                            assert(masks@.contains(masks@[j2]));
                            assert(usable(masks@[j2], si, prob));
                        }
                        if exists|m: usize| #[trigger] usable(m, si, prob) && surroundings_of(m, si) == surroundings_of(mask, si) && v == interior(m, si) {
                            let m = choose|m: usize| #[trigger] usable(m, si, prob) && surroundings_of(m, si) == surroundings_of(mask, si) && v == interior(m, si);
                            assert(masks@.contains(m));
                            let j2 = choose|j2: int| 0 <= j2 < masks.len() && masks@[j2] == m;
                            assert(surroundings_result(masks@[j2], si, found@[j2]));
                            assert(found_ok(found@, j2));
                        }
                    }
                } else {
                    if class_of@[mask as int] != 0 {
                        let i3 = choose|i3: int| 0 <= i3 < j && masks@[i3] == mask && #[trigger] found_ok(found@, i3) && reps[class_of@[mask as int] as int] == found_labels(found@, i3);
                        assert(surroundings_result(masks@[i3], si, found@[i3]));
                        assert(masks@.contains(mask));
                    }
                }
            }
        }
        r
    }
}

impl Connections {
    /// The lists for the grids with `interior_side` squares inside the rim on each side.
    pub fn new(interior_side: usize) -> (r: Connections)
        requires
            interior_side <= 3,
        ensures
            r.connects(interior_side + 2, None),
    {
        Self::new_inner(interior_side, None)
    }

    /// The lists for the grids with `interior_side` squares inside the rim on each side, the
    /// grids that hold an image of `problem` left out.
    pub fn new_with_problem(interior_side: usize, problem: &TightPoly) -> (r: Connections)
        requires
            interior_side <= 3,
            problem.rotatable(),
        ensures
            r.connects(interior_side + 2, Some(*problem)),
    {
        Self::new_inner(interior_side, Some(problem))
    }

    fn new_inner(interior_side: usize, problem: Option<&TightPoly>) -> (r: Connections)
        requires
            interior_side <= 3,
            problem matches Some(p) ==> p.rotatable(),
        ensures
            r.connects(interior_side + 2, problem_of(problem)),
    {
        let s = interior_side + 2;
        let masks = acceptable_masks(s, problem);
        let mut found: Vec<Result<Surroundings, SurroundingsError>> = Vec::new();
        let mut i: usize = 0;
        while i < masks.len()
            invariant
                2 <= s <= 5,
                i <= masks.len(),
                found.len() == i,
                forall|j: int| 0 <= j < i ==> #[trigger] surroundings_result(masks@[j], s as int, found@[j]),
            decreases masks.len() - i,
        {
            let f = Surroundings::try_from_mask(masks[i], s);
            found.push(f);
            i += 1;
        }
        Self::from_surroundings(interior_side, problem, &masks, &found)
    }
}

/// Grids of up to 25 squares have values below `2^25`.
proof fn lemma_pow2_small(n: nat)
    requires
        n <= 25,
    ensures
        pow2(n) <= pow2(25),
        pow2(25) == 0x200_0000,
{
    vstd::arithmetic::power2::lemma2_to64();
    if n < 25 {
        lemma_pow2_strictly_increases(n, 25);
    }
}

} // verus!
