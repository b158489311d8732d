use vstd::prelude::*;
use std::rc::Rc;
use vstd::arithmetic::power2::{pow2, lemma_pow2_pos, lemma_pow2_unfold, lemma_pow2_strictly_increases};
use vstd::bits::lemma_usize_shl_is_mul;
use crate::check::bits::{bits_value, all_bits, complement, lemma_bits_value_bound, lemma_bits_value_injective, lemma_all_bits_value, lemma_complement_value, lemma_bits_value_parity, lemma_bits_value_zero};
use crate::check::placement::{Placement, share};
use crate::data::tight_poly::TightPoly;
use crate::data::vector::Vector;
use crate::data::text::{decimal, push_decimal};
use crate::data::tight_poly::lemma_connected_columns;
use crate::check::search::{full_check_dfs, is_partition, search_ctx, placed_ok};
use crate::check::bits::{bit32, to_bits, lemma_to_bits_value, lemma_u32_shl_pow2};
use vstd::string::StringExecFns;

verus! {

/// A placement in the abstract: the index of a polyomino in a list and an offset.
pub type Spot = (int, int, int);

/// Whether the polyomino `list[t.0]`, placed at `(t.1, t.2)`, occupies `(x, y)`.
pub open spec fn covers(list: Seq<TightPoly>, t: Spot, x: int, y: int) -> bool {
    0 <= t.0 < list.len() && list[t.0].cell(x - t.1, y - t.2)
}

/// The placement covers some cell of the problem.
pub open spec fn relevant(list: Seq<TightPoly>, problem: TightPoly, t: Spot) -> bool {
    0 <= t.0 < list.len() && exists|x: int, y: int| #[trigger] problem.cell(x, y) && covers(list, t, x, y)
}

/// The placement covers every cell of the problem.
pub open spec fn covers_all(list: Seq<TightPoly>, problem: TightPoly, t: Spot) -> bool {
    forall|x: int, y: int| #[trigger] problem.cell(x, y) ==> covers(list, t, x, y)
}

/// The two placements share a cell.
pub open spec fn overlap(list: Seq<TightPoly>, t1: Spot, t2: Spot) -> bool {
    exists|x: int, y: int| #[trigger] covers(list, t1, x, y) && covers(list, t2, x, y)
}

/// `(x, y)` is the first cell of the problem, row by row.
pub open spec fn is_first_cell(problem: TightPoly, x: int, y: int) -> bool {
    &&& problem.cell(x, y)
    &&& forall|a: int, b: int| #[trigger] problem.cell(a, b) ==> x < a || (x == a && y <= b)
}

/// The placement covers the first cell of the problem.
pub open spec fn covers_first(list: Seq<TightPoly>, problem: TightPoly, t: Spot) -> bool {
    exists|x: int, y: int| #[trigger] is_first_cell(problem, x, y) && covers(list, t, x, y)
}

/// The placements that cover the whole problem.
pub open spec fn single_covers(list: Seq<TightPoly>, problem: TightPoly) -> Set<Spot> {
    Set::new(|t: Spot| relevant(list, problem, t) && covers_all(list, problem, t))
}

/// The pairs of placements that do not overlap, each cover some of the problem, cover
/// all of it together, the first one covering its first cell.
pub open spec fn double_covers(list: Seq<TightPoly>, problem: TightPoly) -> Set<(Spot, Spot)> {
    Set::new(
        |pr: (Spot, Spot)|
            {
                &&& relevant(list, problem, pr.0)
                &&& relevant(list, problem, pr.1)
                &&& covers_first(list, problem, pr.0)
                &&& !covers_first(list, problem, pr.1)
                &&& !overlap(list, pr.0, pr.1)
                &&& forall|x: int, y: int| #[trigger] problem.cell(x, y) ==> covers(list, pr.0, x, y) || covers(list, pr.1, x, y)
            },
    )
}

/// The number of cells of a polyomino.
pub open spec fn num_cells(p: TightPoly) -> nat {
    Set::new(|c: (int, int)| p.cell(c.0, c.1)).len()
}

/// For each cell of the list, whether the placement covers it.
pub open spec fn cover_bits(list: Seq<TightPoly>, pc: Seq<Vector<i32>>, t: Spot) -> Seq<bool> {
    Seq::new(pc.len(), |k: int| covers(list, t, pc[k].x as int, pc[k].y as int))
}

/// The bit mask of the cells of the list that the placement covers.
pub open spec fn mask_of(list: Seq<TightPoly>, pc: Seq<Vector<i32>>, t: Spot) -> nat {
    bits_value(cover_bits(list, pc, t))
}

/// `pl` is the placement `t` of the list.
pub open spec fn placement_is(pl: Placement, list: Seq<TightPoly>, t: Spot) -> bool {
    &&& 0 <= t.0 < list.len()
    &&& pl.shape() == list[t.0]
    &&& pl.dx_spec() == t.1
    &&& pl.dy_spec() == t.2
}

/// What the check asks of its input: polyominoes whose placements the bit masks can
/// hold and compare.
pub open spec fn check_input(problem: TightPoly, answer: TightPoly) -> bool {
    &&& problem.wf()
    &&& problem.h() <= 512
    &&& answer.rotatable()
    &&& num_cells(problem) <= 31
    &&& problem.w() + answer.h() <= 512
    &&& problem.w() + answer.w() <= 512
    &&& problem.h() + answer.h() <= 512
    &&& problem.h() + answer.w() <= 512
}

/// The lists of placements by the mask of the problem cells they cover.
pub open spec fn lists_ok(
    res: Seq<Vec<Placement>>,
    spots: Seq<Seq<Spot>>,
    list: Seq<TightPoly>,
    pc: Seq<Vector<i32>>,
    problem: TightPoly,
) -> bool {
    &&& res.len() == spots.len()
    &&& res.len() == pow2(pc.len())
    &&& forall|m: int| 0 <= m < res.len() ==> (#[trigger] res[m])@.len() == spots[m].len()
    &&& forall|m: int, j: int|
        0 <= m < res.len() && 0 <= j < spots[m].len() ==> {
            &&& placement_is(#[trigger] res[m]@[j], list, spots[m][j])
            &&& mask_of(list, pc, spots[m][j]) == m
            &&& relevant(list, problem, spots[m][j])
        }
    &&& forall|m: int| 0 <= m < spots.len() ==> (#[trigger] spots[m]).no_duplicates()
}

/// Every relevant placement stands in the list of its mask.
pub open spec fn lists_complete(spots: Seq<Seq<Spot>>, list: Seq<TightPoly>, pc: Seq<Vector<i32>>, problem: TightPoly) -> bool {
    forall|t: Spot| #[trigger] relevant(list, problem, t) ==> spots[mask_of(list, pc, t) as int].contains(t)
}

/// The images of a polyomino have its size, maybe turned.
proof fn lemma_image_dims(answer: TightPoly, list: Seq<TightPoly>, i: int)
    requires
        answer.is_rot_rev_list(list),
        0 <= i < list.len(),
    ensures
        (list[i].h() == answer.h() && list[i].w() == answer.w()) || (list[i].h() == answer.w() && list[i].w() == answer.h()),
        list[i].rotatable(),
{
    assert(list[i].rotatable() && answer.has_some_image(list[i]));
}

/// `e` is the offset that brings `c` onto `p`.
pub open spec fn is_dir(e: (i32, i32), p: Vector<i32>, c: Vector<i32>) -> bool {
    e.0 == p.x - c.x && e.1 == p.y - c.y
}

/// The offsets that bring a cell of `cc` onto a cell of `pc`, each once.
fn directions(cc: &Vec<Vector<i32>>, pc: &Vec<Vector<i32>>) -> (r: Vec<(i32, i32)>)
    requires
        forall|a: int| 0 <= a < cc.len() ==> 0 <= #[trigger] cc@[a].x < 512 && 0 <= cc@[a].y < 512,
        forall|k: int| 0 <= k < pc.len() ==> 0 <= #[trigger] pc@[k].x < 512 && 0 <= pc@[k].y < 512,
    ensures
        r@.no_duplicates(),
        forall|e: (i32, i32)| r@.contains(e) <==> exists|a: int, k: int|
            0 <= a < cc.len() && 0 <= k < pc.len() && is_dir(e, #[trigger] pc@[k], #[trigger] cc@[a]),
{
    let mut res: Vec<(i32, i32)> = Vec::new();
    let mut a: usize = 0;
    while a < cc.len()
        invariant
            a <= cc.len(),
            forall|a: int| 0 <= a < cc.len() ==> 0 <= #[trigger] cc@[a].x < 512 && 0 <= cc@[a].y < 512,
            forall|k: int| 0 <= k < pc.len() ==> 0 <= #[trigger] pc@[k].x < 512 && 0 <= pc@[k].y < 512,
            res@.no_duplicates(),
            forall|e: (i32, i32)| res@.contains(e) <==> exists|a2: int, k: int|
                0 <= a2 < a && 0 <= k < pc.len() && is_dir(e, #[trigger] pc@[k], #[trigger] cc@[a2]),
        decreases cc.len() - a,
    {
        let mut k: usize = 0;
        while k < pc.len()
            invariant
                a < cc.len(),
                k <= pc.len(),
                forall|a: int| 0 <= a < cc.len() ==> 0 <= #[trigger] cc@[a].x < 512 && 0 <= cc@[a].y < 512,
                forall|k: int| 0 <= k < pc.len() ==> 0 <= #[trigger] pc@[k].x < 512 && 0 <= pc@[k].y < 512,
                res@.no_duplicates(),
                forall|e: (i32, i32)| res@.contains(e) <==> (exists|a2: int, k2: int|
                    0 <= a2 < a && 0 <= k2 < pc.len() && is_dir(e, #[trigger] pc@[k2], #[trigger] cc@[a2]))
                    || (exists|k2: int| 0 <= k2 < k && is_dir(e, #[trigger] pc@[k2], cc@[a as int])),
            decreases pc.len() - k,
        {
            let e = (pc[k].x - cc[a].x, pc[k].y - cc[a].y);
            let mut j: usize = 0;
            let mut seen = false;
            while j < res.len()
                invariant
                    j <= res.len(),
                    !seen ==> forall|i: int| 0 <= i < j ==> res@[i] != e,
                    seen ==> res@.contains(e),
                decreases res.len() - j,
            {
                if res[j].0 == e.0 && res[j].1 == e.1 {
                    seen = true;
                }
                j += 1;
            }
            let ghost before = res@;
            if !seen {
                res.push(e);
                proof {
                    assert forall|i: int, l: int| 0 <= i < l < res@.len() implies res@[i] != res@[l] by {
                        if l == res@.len() - 1 {
                            assert(res@[i] == before[i]);
                        } else {
                            assert(before[i] != before[l]);
                        }
                    }
                }
            }
            proof {
                assert forall|e2: (i32, i32)| res@.contains(e2) <==> (exists|a2: int, k2: int|
                    0 <= a2 < a && 0 <= k2 < pc.len() && is_dir(e2, #[trigger] pc@[k2], #[trigger] cc@[a2]))
                    || (exists|k2: int| 0 <= k2 < k + 1 && is_dir(e2, #[trigger] pc@[k2], cc@[a as int])) by {
                    if res@.contains(e2) && !before.contains(e2) {
                        assert(e2 == e);
                        assert(is_dir(e2, pc@[k as int], cc@[a as int]));
                    }
                    if before.contains(e2) {
                        let i = choose|i: int| 0 <= i < before.len() && before[i] == e2;
                        assert(res@[i] == e2);
                    }
                    if exists|k2: int| 0 <= k2 < k + 1 && is_dir(e2, #[trigger] pc@[k2], cc@[a as int]) {
                        let k2 = choose|k2: int| 0 <= k2 < k + 1 && is_dir(e2, #[trigger] pc@[k2], cc@[a as int]);
                        if k2 == k {
                            if !seen {
                                assert(res@[res@.len() - 1] == e2);
                            }
                        } else {
                            assert(before.contains(e2));
                            let i = choose|i: int| 0 <= i < before.len() && before[i] == e2;
                            assert(res@[i] == e2);
                        }
                    }
                }
            }
            k += 1;
        }
        proof {
            assert forall|e2: (i32, i32)| res@.contains(e2) <==> exists|a2: int, k2: int|
                0 <= a2 < a + 1 && 0 <= k2 < pc.len() && is_dir(e2, #[trigger] pc@[k2], #[trigger] cc@[a2]) by {
                if exists|a2: int, k2: int|
                    0 <= a2 < a + 1 && 0 <= k2 < pc.len() && is_dir(e2, #[trigger] pc@[k2], #[trigger] cc@[a2]) {
                    let (a2, k2) = choose|a2: int, k2: int|
                        0 <= a2 < a + 1 && 0 <= k2 < pc.len() && is_dir(e2, #[trigger] pc@[k2], #[trigger] cc@[a2]);
                    if a2 == a {
                        assert(0 <= k2 < pc.len() && is_dir(e2, pc@[k2], cc@[a as int]));
                    }
                }
            }
        }
        a += 1;
    }
    res
}

/// `1 << k` is `2^k` for the shifts the masks use.
pub proof fn lemma_shl_pow2(k: usize)
    requires
        k <= 31,
    ensures
        (1usize << k) == pow2(k as nat),
        pow2(k as nat) <= 0x8000_0000,
{
    vstd::arithmetic::power2::lemma2_to64();
    if k < 31 {
        lemma_pow2_strictly_increases(k as nat, 31);
    }
    lemma_usize_shl_is_mul(1, k);
}

/// The mask of the cells of `pc` that the placement covers.
fn placement_mask(
    pl: &Placement,
    pc: &Vec<Vector<i32>>,
    Ghost(list): Ghost<Seq<TightPoly>>,
    Ghost(t): Ghost<Spot>,
    Ghost(problem): Ghost<TightPoly>,
) -> (m: usize)
    requires
        placement_is(*pl, list, t),
        list[t.0].wf(),
        pc.len() <= 31,
        problem.is_cell_list(pc@),
        problem.wf(),
        problem.w() + list[t.0].w() <= 512,
        problem.h() <= 512,
        -(list[t.0].w() as int) < t.2 < problem.w(),
        -(list[t.0].h() as int) < t.1 <= problem.h(),
        list[t.0].h() <= 512,
    ensures
        m == mask_of(list, pc@, t),
        m < pow2(pc.len() as nat),
{
    let ghost b = cover_bits(list, pc@, t);
    let mut mask: usize = 0;
    let mut k: usize = 0;
    proof {
        assert(b.take(0) =~= Seq::<bool>::empty());
        lemma_pow2_pos(0);
    }
    while k < pc.len()
        invariant
            k <= pc.len(),
            pc.len() <= 31,
            placement_is(*pl, list, t),
            list[t.0].wf(),
            problem.is_cell_list(pc@),
            problem.wf(),
            problem.w() + list[t.0].w() <= 512,
            problem.h() <= 512,
            -(list[t.0].w() as int) < t.2 < problem.w(),
            -(list[t.0].h() as int) < t.1 <= problem.h(),
            list[t.0].h() <= 512,
            b == cover_bits(list, pc@, t),
            mask == bits_value(b.take(k as int)),
            mask < pow2(k as nat),
        decreases pc.len() - k,
    {
        let p = pc[k];
        proof {
            assert(problem.cell(p.x as int, p.y as int));
        }
        let c = pl.get(p.x as u32, p.y as u32);
        proof {
            assert(b.take(k + 1) =~= b.take(k as int).push(b[k as int]));
            assert(b.take(k + 1).drop_last() =~= b.take(k as int));
            lemma_shl_pow2(k);
            lemma_pow2_unfold((k + 1) as nat);
            assert(c == b[k as int]);
        }
        if c {
            let bit: usize = 1usize << k;
            assert(mask | bit == mask + bit) by (bit_vector)
                requires
                    mask < bit,
                    bit == (1usize << k),
                    k <= 31,
            ;
            mask = mask | bit;
        }
        k += 1;
    }
    proof {
        assert(b.take(k as int) =~= b);
    }
    mask
}

/// A list of cells has one entry per cell.
pub proof fn lemma_cell_list_len(p: TightPoly, s: Seq<Vector<i32>>)
    requires
        p.wf(),
        p.h() <= 512,
        p.is_cell_list(s),
    ensures
        s.len() == num_cells(p),
{
    let s2 = s.map_values(|v: Vector<i32>| (v.x as int, v.y as int));
    assert forall|i: int, j: int| 0 <= i < s2.len() && 0 <= j < s2.len() && i != j implies s2[i] != s2[j] by {
        if i < j {
            assert(s[i].x < s[j].x || (s[i].x == s[j].x && s[i].y < s[j].y));
        } else {
            assert(s[j].x < s[i].x || (s[j].x == s[i].x && s[j].y < s[i].y));
        }
    }
    assert(s2.no_duplicates());
    s2.unique_seq_to_set();
    assert(s2.to_set() =~= Set::new(|c: (int, int)| p.cell(c.0, c.1))) by {
        assert forall|c: (int, int)| s2.to_set().contains(c) implies p.cell(c.0, c.1) by {
            let i = choose|i: int| 0 <= i < s2.len() && s2[i] == c;
            assert(p.cell(s[i].x as int, s[i].y as int));
        }
        assert forall|c: (int, int)| p.cell(c.0, c.1) implies s2.to_set().contains(c) by {
            assert(s.contains(Vector { x: c.0 as i32, y: c.1 as i32 }));
            let i = choose|i: int| 0 <= i < s.len() && s[i] == Vector { x: c.0 as i32, y: c.1 as i32 };
            assert(s2[i] == c);
        }
    }
}

/// The first entry of a list of cells is the first cell.
pub proof fn lemma_cell_list_first(p: TightPoly, s: Seq<Vector<i32>>)
    requires
        p.wf(),
        p.h() <= 512,
        p.is_cell_list(s),
        s.len() > 0,
    ensures
        is_first_cell(p, s[0].x as int, s[0].y as int),
{
    assert(p.cell(s[0].x as int, s[0].y as int));
    assert forall|a: int, b: int| #[trigger] p.cell(a, b) implies s[0].x < a || (s[0].x == a && s[0].y <= b) by {
        assert(s.contains(Vector { x: a as i32, y: b as i32 }));
        let i = choose|i: int| 0 <= i < s.len() && s[i] == Vector { x: a as i32, y: b as i32 };
        if i > 0 {
            assert(s[0].x < s[i].x || (s[0].x == s[i].x && s[0].y < s[i].y));
        }
    }
}

/// A placement is relevant exactly when it covers a listed cell.
pub proof fn lemma_relevant_bits(list: Seq<TightPoly>, problem: TightPoly, pc: Seq<Vector<i32>>, t: Spot)
    requires
        problem.wf(),
        problem.h() <= 512,
        problem.is_cell_list(pc),
        0 <= t.0 < list.len(),
    ensures
        relevant(list, problem, t) == exists|k: int| 0 <= k < pc.len() && #[trigger] cover_bits(list, pc, t)[k],
        covers_all(list, problem, t) == (cover_bits(list, pc, t) == all_bits(pc.len())),
{
    let b = cover_bits(list, pc, t);
    if relevant(list, problem, t) {
        let (x, y) = choose|x: int, y: int| #[trigger] problem.cell(x, y) && covers(list, t, x, y);
        assert(pc.contains(Vector { x: x as i32, y: y as i32 }));
        let k = choose|k: int| 0 <= k < pc.len() && pc[k] == Vector { x: x as i32, y: y as i32 };
        assert(b[k]);
    }
    if exists|k: int| 0 <= k < pc.len() && #[trigger] cover_bits(list, pc, t)[k] {
        let k = choose|k: int| 0 <= k < pc.len() && #[trigger] cover_bits(list, pc, t)[k];
        assert(problem.cell(pc[k].x as int, pc[k].y as int));
    }
    if covers_all(list, problem, t) {
        assert forall|k: int| 0 <= k < pc.len() implies b[k] == all_bits(pc.len())[k] by {
            assert(problem.cell(pc[k].x as int, pc[k].y as int));
        }
        assert(b =~= all_bits(pc.len()));
    }
    if b == all_bits(pc.len()) {
        assert forall|x: int, y: int| #[trigger] problem.cell(x, y) implies covers(list, t, x, y) by {
            assert(pc.contains(Vector { x: x as i32, y: y as i32 }));
            let k = choose|k: int| 0 <= k < pc.len() && pc[k] == Vector { x: x as i32, y: y as i32 };
            assert(b[k]);
        }
    }
}

/// For each mask of the problem's cells, the placements of the answer's distinct images
/// that cover exactly those cells of the problem.
pub fn mask_to_placements(problem: &TightPoly, answer: &TightPoly) -> (r: Vec<Vec<Placement>>)
    requires
        check_input(*problem, *answer),
    ensures
        exists|list: Seq<TightPoly>, pc: Seq<Vector<i32>>, spots: Seq<Seq<Spot>>|
            #![trigger lists_ok(r@, spots, list, pc, *problem)]
            answer.is_rot_rev_list(list) && problem.is_cell_list(pc) && pc.len() <= 31 && lists_ok(r@, spots, list, pc, *problem)
                && lists_complete(spots, list, pc, *problem),
{
    let (res, Ghost(list), Ghost(pc), Ghost(spots)) = collect_placements(problem, answer);
    proof {
        assert(lists_ok(res@, spots, list, pc, *problem));
    }
    res
}

/// Builds, for each mask of the problem's cells, the list of the placements of the
/// answer's images that cover exactly those cells, with the images, the problem's cells
/// and the placements as spots.
fn collect_placements(problem: &TightPoly, answer: &TightPoly) -> (r: (
    Vec<Vec<Placement>>,
    Ghost<Seq<TightPoly>>,
    Ghost<Seq<Vector<i32>>>,
    Ghost<Seq<Seq<Spot>>>,
))
    requires
        check_input(*problem, *answer),
    ensures
        answer.is_rot_rev_list(r.1@),
        problem.is_cell_list(r.2@),
        r.2@.len() <= 31,
        lists_ok(r.0@, r.3@, r.1@, r.2@, *problem),
        lists_complete(r.3@, r.1@, r.2@, *problem),
{
    let mut cands = answer.unique_rot_revs();
    let ghost list = cands@;
    let pc = problem.cells();
    proof {
        lemma_cell_list_len(*problem, pc@);
    }
    let n = pc.len();
    proof {
        lemma_shl_pow2(n);
    }
    let size: usize = 1usize << n;
    let mut res: Vec<Vec<Placement>> = Vec::new();
    let ghost mut spots: Seq<Seq<Spot>> = Seq::empty();
    while res.len() < size
        invariant
            res.len() <= size,
            spots.len() == res.len(),
            forall|m: int| 0 <= m < res.len() ==> (#[trigger] res@[m])@.len() == 0,
            forall|m: int| 0 <= m < spots.len() ==> (#[trigger] spots[m]).len() == 0,
        decreases size - res.len(),
    {
        res.push(Vec::new());
        proof {
            spots = spots.push(Seq::empty());
        }
    }
    let num = cands.len();
    let mut i: usize = 0;
    proof {
        assert(cands@.skip(0) =~= cands@);
    }
    while i < num
        invariant
            i <= num,
            num == list.len(),
            cands@ == list.skip(i as int),
            check_input(*problem, *answer),
            answer.is_rot_rev_list(list),
            problem.is_cell_list(pc@),
            pc.len() <= 31,
            lists_ok(res@, spots, list, pc@, *problem),
            forall|m: int, j: int| 0 <= m < spots.len() && 0 <= j < spots[m].len() ==> (#[trigger] spots[m][j]).0 < i,
            forall|t: Spot| #[trigger] relevant(list, *problem, t) && t.0 < i ==> spots[mask_of(list, pc@, t) as int].contains(t),
        decreases num - i,
    {
        let cand = cands.remove(0);
        proof {
            assert(cand == list[i as int]);
            assert(cands@ =~= list.skip(i + 1));
            lemma_image_dims(*answer, list, i as int);
        }
        let cc = cand.cells();
        proof {
            assert(cand.rotatable());
            assert forall|a: int| 0 <= a < cc.len() implies 0 <= #[trigger] cc@[a].x < 512 && 0 <= cc@[a].y < 512 by {
                assert(cand.cell(cc@[a].x as int, cc@[a].y as int));
            }
        }
        let dirs = directions(&cc, &pc);
        let rc = Rc::new(cand);
        let mut j: usize = 0;
        while j < dirs.len()
            invariant
                i < num,
                num == list.len(),
                j <= dirs.len(),
                *rc == list[i as int],
                check_input(*problem, *answer),
                list[i as int].rotatable(),
                (list[i as int].h() == answer.h() && list[i as int].w() == answer.w()) || (list[i as int].h() == answer.w() && list[i as int].w() == answer.h()),
                problem.is_cell_list(pc@),
                list[i as int].is_cell_list(cc@),
                pc.len() <= 31,
                dirs@.no_duplicates(),
                forall|e: (i32, i32)| dirs@.contains(e) <==> exists|a: int, k: int|
                    0 <= a < cc.len() && 0 <= k < pc.len() && is_dir(e, #[trigger] pc@[k], #[trigger] cc@[a]),
                lists_ok(res@, spots, list, pc@, *problem),
                forall|m: int, jj: int| 0 <= m < spots.len() && 0 <= jj < spots[m].len() ==> (#[trigger] spots[m][jj]).0 < i
                    || (spots[m][jj].0 == i && exists|d: int| 0 <= d < j && dirs@[d].0 == spots[m][jj].1 && dirs@[d].1 == spots[m][jj].2),
                forall|t: Spot| #[trigger] relevant(list, *problem, t) && (t.0 < i || (t.0 == i && exists|d: int| 0 <= d < j && dirs@[d].0 == t.1 && dirs@[d].1 == t.2))
                    ==> spots[mask_of(list, pc@, t) as int].contains(t),
            decreases dirs.len() - j,
        {
            let (dx, dy) = dirs[j];
            proof {
                assert(dirs@.contains(dirs@[j as int]));
            }
            let ghost t: Spot = (i as int, dx as int, dy as int);
            let ghost (ka, kk) = choose|a: int, k: int| 0 <= a < cc.len() && 0 <= k < pc.len() && is_dir(dirs@[j as int], #[trigger] pc@[k], #[trigger] cc@[a]);
            proof {
                assert(list[i as int].cell(cc@[ka].x as int, cc@[ka].y as int));
                assert(problem.cell(pc@[kk].x as int, pc@[kk].y as int));
                assert(covers(list, t, pc@[kk].x as int, pc@[kk].y as int));
                assert(relevant(list, *problem, t));
            }
            let pl = Placement::new(dx, dy, share(&rc));
            let mask = placement_mask(&pl, &pc, Ghost(list), Ghost(t), Ghost(*problem));
            let ghost old_spots = spots;
            let ghost old_res = res@;
            proof {
                assert(!spots[mask as int].contains(t)) by {
                    if spots[mask as int].contains(t) {
                        let jj = choose|jj: int| 0 <= jj < spots[mask as int].len() && spots[mask as int][jj] == t;
                        assert(spots[mask as int][jj].0 == i);
                        let d = choose|d: int| 0 <= d < j && dirs@[d].0 == spots[mask as int][jj].1 && dirs@[d].1 == spots[mask as int][jj].2;
                        assert(dirs@[d] == dirs@[j as int]);
                    }
                }
            }
            res[mask].push(pl);
            proof {
                spots = spots.update(mask as int, spots[mask as int].push(t));
                assert forall|m: int| 0 <= m < res@.len() implies (#[trigger] res@[m])@.len() == spots[m].len() by {
                    if m != mask {
                        assert(res@[m] == old_res[m]);
                    }
                }
                assert forall|m: int, jj: int| 0 <= m < res@.len() && 0 <= jj < spots[m].len() implies {
                    &&& placement_is(#[trigger] res@[m]@[jj], list, spots[m][jj])
                    &&& mask_of(list, pc@, spots[m][jj]) == m
                    &&& relevant(list, *problem, spots[m][jj])
                } by {
                    if m != mask {
                        assert(res@[m] == old_res[m]);
                        assert(spots[m] == old_spots[m]);
                    } else if jj < old_spots[m].len() {
                        assert(res@[m]@[jj] == old_res[m]@[jj]);
                        assert(spots[m][jj] == old_spots[m][jj]);
                    }
                }
                assert forall|m: int| 0 <= m < spots.len() implies (#[trigger] spots[m]).no_duplicates() by {
                    if m == mask {
                        assert forall|a: int, b: int| 0 <= a < b < spots[m].len() implies spots[m][a] != spots[m][b] by {
                            if b == spots[m].len() - 1 {
                                assert(spots[m][a] == old_spots[m][a]);
                                assert(old_spots[m].contains(old_spots[m][a]));
                            } else {
                                assert(spots[m][a] == old_spots[m][a] && spots[m][b] == old_spots[m][b]);
                            }
                        }
                    } else {
                        assert(spots[m] == old_spots[m]);
                    }
                }
                assert forall|m: int, jj: int| 0 <= m < spots.len() && 0 <= jj < spots[m].len() implies (#[trigger] spots[m][jj]).0 < i
                    || (spots[m][jj].0 == i && exists|d: int| 0 <= d < j + 1 && dirs@[d].0 == spots[m][jj].1 && dirs@[d].1 == spots[m][jj].2) by {
                    if m == mask && jj == spots[m].len() - 1 {
                        assert(spots[m][jj] == t);
                    } else {
                        assert(spots[m][jj] == old_spots[m][jj]);
                    }
                }
                assert forall|t2: Spot| #[trigger] relevant(list, *problem, t2) && (t2.0 < i || (t2.0 == i && exists|d: int| 0 <= d < j + 1 && dirs@[d].0 == t2.1 && dirs@[d].1 == t2.2))
                    implies spots[mask_of(list, pc@, t2) as int].contains(t2) by {
                    let m2 = mask_of(list, pc@, t2) as int;
                    lemma_bits_value_bound(cover_bits(list, pc@, t2));
                    if t2 == t {
                        assert(spots[m2][spots[m2].len() - 1] == t);
                    } else {
                        if t2.0 == i {
                            let d = choose|d: int| 0 <= d < j + 1 && dirs@[d].0 == t2.1 && dirs@[d].1 == t2.2;
                            if d == j {
                                assert(t2 == t);
                            }
                        }
                        assert(old_spots[m2].contains(t2));
                        let jj = choose|jj: int| 0 <= jj < old_spots[m2].len() && old_spots[m2][jj] == t2;
                        assert(spots[m2][jj] == t2);
                    }
                }
            }
            j += 1;
        }
        proof {
            assert forall|t2: Spot| #[trigger] relevant(list, *problem, t2) && t2.0 < i + 1 implies spots[mask_of(list, pc@, t2) as int].contains(t2) by {
                if t2.0 == i {
                    let (x, y) = choose|x: int, y: int| #[trigger] problem.cell(x, y) && covers(list, t2, x, y);
                    assert(pc@.contains(Vector { x: x as i32, y: y as i32 }));
                    let k = choose|k: int| 0 <= k < pc.len() && pc@[k] == Vector { x: x as i32, y: y as i32 };
                    assert(list[i as int].cell(x - t2.1, y - t2.2));
                    assert(cc@.contains(Vector { x: (x - t2.1) as i32, y: (y - t2.2) as i32 }));
                    let a = choose|a: int| 0 <= a < cc.len() && cc@[a] == Vector { x: (x - t2.1) as i32, y: (y - t2.2) as i32 };
                    let e: (i32, i32) = (t2.1 as i32, t2.2 as i32);
                    assert(is_dir(e, pc@[k], cc@[a]));
                    assert(dirs@.contains(e));
                    let d = choose|d: int| 0 <= d < dirs@.len() && dirs@[d] == e;
                    assert(dirs@[d].0 == t2.1 && dirs@[d].1 == t2.2);
                }
            }
            assert forall|m: int, jj: int| 0 <= m < spots.len() && 0 <= jj < spots[m].len() implies (#[trigger] spots[m][jj]).0 < i + 1 by {
            }
        }
        i += 1;
    }
    (res, Ghost(list), Ghost(pc@), Ghost(spots))
}

/// The pairs of elements of a finite set form a finite set.
proof fn lemma_pairs_finite<A>(r: Set<A>)
    requires
        r.finite(),
    ensures
        Set::new(|pr: (A, A)| r.contains(pr.0) && r.contains(pr.1)).finite(),
{
    let f = |a: A| r.map(|b: A| (a, b));
    let big = r.map(f);
    r.lemma_map_finite(f);
    assert forall|s2: Set<(A, A)>| big.contains(s2) implies #[trigger] s2.finite() by {
        let a = choose|a: A| r.contains(a) && s2 == f(a);
        r.lemma_map_finite(|b: A| (a, b));
    }
    big.lemma_flatten_finite();
    let target = Set::new(|pr: (A, A)| r.contains(pr.0) && r.contains(pr.1));
    assert forall|pr: (A, A)| target.contains(pr) implies big.flatten().contains(pr) by {
        assert(big.contains(f(pr.0)));
        assert(f(pr.0).contains(pr));
    }
    vstd::set_lib::lemma_len_subset(target, big.flatten());
}

/// The spots of the first `k` lists form a finite set.
proof fn lemma_spots_finite(spots: Seq<Seq<Spot>>, k: int)
    requires
        0 <= k <= spots.len(),
    ensures
        Set::new(|t: Spot| exists|m: int| 0 <= m < k && #[trigger] spots[m].contains(t)).finite(),
    decreases k,
{
    let s_k = Set::new(|t: Spot| exists|m: int| 0 <= m < k && #[trigger] spots[m].contains(t));
    if k == 0 {
        assert(s_k =~= Set::empty());
    } else {
        lemma_spots_finite(spots, k - 1);
        let s_prev = Set::new(|t: Spot| exists|m: int| 0 <= m < k - 1 && #[trigger] spots[m].contains(t));
        assert(s_k =~= s_prev.union(spots[k - 1].to_set()));
    }
}

/// The pairs that the count of double covers visits: a relevant placement with an odd
/// mask below the full mask, and one with the complementary mask, not overlapping it.
pub open spec fn pair_ok(list: Seq<TightPoly>, problem: TightPoly, pc: Seq<Vector<i32>>, pr: (Spot, Spot)) -> bool {
    let full = (pow2(pc.len()) - 1) as nat;
    &&& relevant(list, problem, pr.0)
    &&& relevant(list, problem, pr.1)
    &&& mask_of(list, pc, pr.0) % 2 == 1
    &&& mask_of(list, pc, pr.0) < full
    &&& mask_of(list, pc, pr.1) == full - mask_of(list, pc, pr.0)
    &&& !overlap(list, pr.0, pr.1)
}

/// The single covers are the list of the full mask.
proof fn lemma_single_covers(
    list: Seq<TightPoly>,
    problem: TightPoly,
    pc: Seq<Vector<i32>>,
    res: Seq<Vec<Placement>>,
    spots: Seq<Seq<Spot>>,
)
    requires
        problem.wf(),
        problem.h() <= 512,
        problem.is_cell_list(pc),
        lists_ok(res, spots, list, pc, problem),
        lists_complete(spots, list, pc, problem),
    ensures
        single_covers(list, problem) == spots[pow2(pc.len()) - 1].to_set(),
        single_covers(list, problem).len() == spots[pow2(pc.len()) - 1].len(),
{
    let full = pow2(pc.len()) - 1;
    lemma_all_bits_value(pc.len());
    lemma_pow2_pos(pc.len());
    assert forall|t: Spot| single_covers(list, problem).contains(t) implies spots[full].to_set().contains(t) by {
        lemma_relevant_bits(list, problem, pc, t);
        assert(cover_bits(list, pc, t) == all_bits(pc.len()));
    }
    assert forall|t: Spot| spots[full].to_set().contains(t) implies single_covers(list, problem).contains(t) by {
        let j = choose|j: int| 0 <= j < spots[full].len() && spots[full][j] == t;
        assert(placement_is(res[full]@[j], list, spots[full][j]));
        lemma_relevant_bits(list, problem, pc, t);
        lemma_bits_value_injective(cover_bits(list, pc, t), all_bits(pc.len()));
    }
    assert(single_covers(list, problem) =~= spots[full].to_set());
    spots[full].unique_seq_to_set();
}

/// The visited pairs are the double covers.
proof fn lemma_double_covers(list: Seq<TightPoly>, problem: TightPoly, pc: Seq<Vector<i32>>)
    requires
        problem.wf(),
        problem.h() <= 512,
        problem.is_cell_list(pc),
    ensures
        double_covers(list, problem) == Set::new(|pr: (Spot, Spot)| pair_ok(list, problem, pc, pr)),
{
    let n = pc.len();
    let full = (pow2(n) - 1) as nat;
    lemma_pow2_pos(n);
    assert forall|pr: (Spot, Spot)| double_covers(list, problem).contains(pr) <==> pair_ok(list, problem, pc, pr) by {
        let (t1, t2) = pr;
        let b1 = cover_bits(list, pc, t1);
        let b2 = cover_bits(list, pc, t2);
        lemma_complement_value(b1);
        lemma_bits_value_bound(b1);
        lemma_all_bits_value(n);
        if 0 <= t1.0 < list.len() && 0 <= t2.0 < list.len() {
            lemma_relevant_bits(list, problem, pc, t1);
            lemma_relevant_bits(list, problem, pc, t2);
        }
        if n > 0 {
            lemma_cell_list_first(problem, pc);
            lemma_bits_value_parity(b1);
            lemma_bits_value_parity(b2);
            assert(covers_first(list, problem, t1) == b1[0]) by {
                if covers_first(list, problem, t1) {
                    let (x, y) = choose|x: int, y: int| #[trigger] is_first_cell(problem, x, y) && covers(list, t1, x, y);
                    assert(problem.cell(pc[0].x as int, pc[0].y as int));
                }
                if b1[0] {
                    assert(is_first_cell(problem, pc[0].x as int, pc[0].y as int));
                }
            }
            assert(covers_first(list, problem, t2) == b2[0]) by {
                if covers_first(list, problem, t2) {
                    let (x, y) = choose|x: int, y: int| #[trigger] is_first_cell(problem, x, y) && covers(list, t2, x, y);
                    assert(problem.cell(pc[0].x as int, pc[0].y as int));
                }
                if b2[0] {
                    assert(is_first_cell(problem, pc[0].x as int, pc[0].y as int));
                }
            }
        }
        if double_covers(list, problem).contains(pr) {
            assert(b2 == complement(b1)) by {
                assert forall|k: int| 0 <= k < n implies b2[k] == complement(b1)[k] by {
                    let (x, y) = (pc[k].x as int, pc[k].y as int);
                    assert(problem.cell(x, y));
                    if b1[k] && b2[k] {
                        assert(covers(list, t1, x, y) && covers(list, t2, x, y));
                    }
                }
                assert(b2 =~= complement(b1));
            }
            let k2 = choose|k: int| 0 <= k < pc.len() && #[trigger] b2[k];
            assert(!b1[k2]);
            if bits_value(b1) == full {
                lemma_bits_value_injective(b1, all_bits(n));
                assert(all_bits(n)[k2]);
            }
        }
        if pair_ok(list, problem, pc, pr) {
            assert(bits_value(b2) == bits_value(complement(b1)));
            lemma_bits_value_injective(b2, complement(b1));
            assert forall|x: int, y: int| #[trigger] problem.cell(x, y) implies covers(list, t1, x, y) || covers(list, t2, x, y) by {
                assert(pc.contains(Vector { x: x as i32, y: y as i32 }));
                let k = choose|k: int| 0 <= k < pc.len() && pc[k] == Vector { x: x as i32, y: y as i32 };
                assert(b1[k] || complement(b1)[k]);
            }
            assert(n > 0) by {
                let k = choose|k: int| 0 <= k < pc.len() && #[trigger] b1[k];
            }
        }
    }
    assert(double_covers(list, problem) =~= Set::new(|pr: (Spot, Spot)| pair_ok(list, problem, pc, pr)));
}

/// The offsets of a relevant placement stay near the problem.
pub proof fn lemma_placement_bounds(list: Seq<TightPoly>, answer: TightPoly, problem: TightPoly, pc: Seq<Vector<i32>>, t: Spot)
    requires
        check_input(problem, answer),
        answer.is_rot_rev_list(list),
        relevant(list, problem, t),
    ensures
        list[t.0].wf(),
        list[t.0].h() <= 512,
        -(list[t.0].h() as int) < t.1 < problem.h(),
        -(list[t.0].w() as int) < t.2 < problem.w(),
        problem.w() + list[t.0].w() <= 512,
{
    lemma_image_dims(answer, list, t.0);
    let (x, y) = choose|x: int, y: int| #[trigger] problem.cell(x, y) && covers(list, t, x, y);
}

/// How many placements of the answer's images cover the problem, alone and in pairs.
#[derive(Debug, Clone, PartialEq, Eq, Structural)]
pub struct CheckResult {
    pub cover_with_1_count: u32,
    pub cover_with_2_count: u32,
}

/// The counts of the result are those of the images in `list`.
pub open spec fn counts_match(list: Seq<TightPoly>, problem: TightPoly, r: CheckResult) -> bool {
    &&& r.cover_with_1_count == single_covers(list, problem).len() as u32
    &&& r.cover_with_1_count > 0 ==> r.cover_with_2_count == 0
    &&& r.cover_with_1_count == 0 ==> r.cover_with_2_count == double_covers(list, problem).len()
}

/// The number of double covers fits the counter.
pub open spec fn counts_fit(problem: TightPoly, answer: TightPoly) -> bool {
    forall|list: Seq<TightPoly>| #[trigger] answer.is_rot_rev_list(list) ==> double_covers(list, problem).len() <= u32::MAX
}

/// Counts the covers from the lists of placements by mask.
fn count_covers(
    placements: &Vec<Vec<Placement>>,
    Ghost(list): Ghost<Seq<TightPoly>>,
    Ghost(pc): Ghost<Seq<Vector<i32>>>,
    Ghost(spots): Ghost<Seq<Seq<Spot>>>,
    Ghost(problem): Ghost<TightPoly>,
    Ghost(answer): Ghost<TightPoly>,
) -> (r: CheckResult)
    requires
        search_ctx(placements@, spots, list, pc, problem, answer),
        counts_fit(problem, answer),
    ensures
        counts_match(list, problem, r),
{
    let ghost n = pc.len();
    proof {
        lemma_pow2_pos(n);
        lemma_single_covers(list, problem, pc, placements@, spots);
        lemma_double_covers(list, problem, pc);
        lemma_shl_pow2(n as usize);
    }
    let complete_mask = placements.len() - 1;
    let cover_with_1_count = placements[complete_mask].len() as u32;
    if cover_with_1_count > 0 {
        let r = CheckResult { cover_with_1_count, cover_with_2_count: 0 };
        assert(counts_match(list, problem, r));
        return r;
    }
    let ghost target = Set::new(|pr: (Spot, Spot)| pair_ok(list, problem, pc, pr));
    proof {
        let all = Set::new(|t: Spot| exists|m: int| 0 <= m < spots.len() && #[trigger] spots[m].contains(t));
        lemma_spots_finite(spots, spots.len() as int);
        lemma_pairs_finite(all);
        assert forall|pr: (Spot, Spot)| target.contains(pr) implies all.contains(pr.0) && all.contains(pr.1) by {
            lemma_bits_value_bound(cover_bits(list, pc, pr.0));
            lemma_bits_value_bound(cover_bits(list, pc, pr.1));
            assert(spots[mask_of(list, pc, pr.0) as int].contains(pr.0));
            assert(spots[mask_of(list, pc, pr.1) as int].contains(pr.1));
        }
        vstd::set_lib::lemma_len_subset(target, Set::new(|pr: (Spot, Spot)| all.contains(pr.0) && all.contains(pr.1)));
        assert(answer.is_rot_rev_list(list));
    }
    let mut count: u32 = 0;
    let ghost mut seen: Set<(Spot, Spot)> = Set::empty();
    let mut mask1: usize = 1;
    while mask1 < complete_mask
        invariant
            lists_ok(placements@, spots, list, pc, problem),
            lists_complete(spots, list, pc, problem),
            problem.wf(),
            problem.h() <= 512,
            problem.is_cell_list(pc),
            n == pc.len(),
            n <= 31,
            complete_mask == pow2(n) - 1,
            placements.len() == pow2(n),
            check_input(problem, answer),
            answer.is_rot_rev_list(list),
            target == Set::new(|pr: (Spot, Spot)| pair_ok(list, problem, pc, pr)),
            target.finite(),
            target.len() <= u32::MAX,
            mask1 % 2 == 1,
            1 <= mask1 <= complete_mask + 1,
            seen.finite(),
            seen.len() == count,
            seen == Set::new(|pr: (Spot, Spot)| pair_ok(list, problem, pc, pr) && mask_of(list, pc, pr.0) < mask1),
        decreases complete_mask + 1 - mask1,
    {
        let mask2 = complete_mask ^ mask1;
        let ghost nu: usize = n as usize;
        proof {
            lemma_shl_pow2(nu);
        }
        assert(complete_mask ^ mask1 == complete_mask - mask1) by (bit_vector)
            requires
                complete_mask == (1usize << nu) - 1,
                mask1 < complete_mask,
                nu <= 31,
        ;
        let ghost m1 = mask1 as int;
        let ghost m2 = mask2 as int;
        let mut a: usize = 0;
        while a < placements[mask1].len()
            invariant
                lists_ok(placements@, spots, list, pc, problem),
                lists_complete(spots, list, pc, problem),
                problem.wf(),
                problem.h() <= 512,
                problem.is_cell_list(pc),
                n == pc.len(),
                n <= 31,
                complete_mask == pow2(n) - 1,
                placements.len() == pow2(n),
                check_input(problem, answer),
                answer.is_rot_rev_list(list),
                target == Set::new(|pr: (Spot, Spot)| pair_ok(list, problem, pc, pr)),
                target.finite(),
                target.len() <= u32::MAX,
                m1 == mask1,
                m2 == mask2,
                mask2 == complete_mask - mask1,
                mask1 % 2 == 1,
                1 <= mask1 < complete_mask,
                a <= placements@[mask1 as int]@.len(),
                seen.finite(),
                seen.len() == count,
                seen == Set::new(|pr: (Spot, Spot)| pair_ok(list, problem, pc, pr) && (mask_of(list, pc, pr.0) < m1
                    || (mask_of(list, pc, pr.0) == m1 && exists|a2: int| 0 <= a2 < a && spots[m1][a2] == pr.0))),
            decreases placements@[mask1 as int]@.len() - a,
        {
            let mut b: usize = 0;
            while b < placements[mask2].len()
                invariant
                    lists_ok(placements@, spots, list, pc, problem),
                    lists_complete(spots, list, pc, problem),
                    problem.wf(),
                    problem.h() <= 512,
                    problem.is_cell_list(pc),
                    n == pc.len(),
                    n <= 31,
                    complete_mask == pow2(n) - 1,
                    placements.len() == pow2(n),
                    check_input(problem, answer),
                    answer.is_rot_rev_list(list),
                    target == Set::new(|pr: (Spot, Spot)| pair_ok(list, problem, pc, pr)),
                    target.finite(),
                    target.len() <= u32::MAX,
                    m1 == mask1,
                    m2 == mask2,
                    mask2 == complete_mask - mask1,
                    mask1 % 2 == 1,
                    1 <= mask1 < complete_mask,
                    a < placements@[mask1 as int]@.len(),
                    b <= placements@[mask2 as int]@.len(),
                    seen.finite(),
                    seen.len() == count,
                    seen == Set::new(|pr: (Spot, Spot)| pair_ok(list, problem, pc, pr) && (mask_of(list, pc, pr.0) < m1
                        || (mask_of(list, pc, pr.0) == m1 && (exists|a2: int| 0 <= a2 < a && spots[m1][a2] == pr.0))
                        || (pr.0 == spots[m1][a as int] && exists|b2: int| 0 <= b2 < b && spots[m2][b2] == pr.1))),
                decreases placements@[mask2 as int]@.len() - b,
            {
                let ghost t1 = spots[m1][a as int];
                let ghost t2 = spots[m2][b as int];
                proof {
                    assert(placement_is(placements@[m1]@[a as int], list, t1));
                    assert(placement_is(placements@[m2]@[b as int], list, t2));
                    lemma_placement_bounds(list, answer, problem, pc, t1);
                    lemma_placement_bounds(list, answer, problem, pc, t2);
                }
                let hit = placements[mask1][a].intersects(&placements[mask2][b]);
                let ghost old_seen = seen;
                proof {
                    assert(hit == overlap(list, t1, t2)) by {
                        let p1 = placements@[m1]@[a as int];
                        let p2 = placements@[m2]@[b as int];
                        if hit {
                            let (x, y) = choose|x: int, y: int| #[trigger] p1.covers(x, y) && p2.covers(x, y);
                            assert(covers(list, t1, x, y) && covers(list, t2, x, y));
                        }
                        if overlap(list, t1, t2) {
                            let (x, y) = choose|x: int, y: int| #[trigger] covers(list, t1, x, y) && covers(list, t2, x, y);
                            assert(p1.covers(x, y) && p2.covers(x, y));
                        }
                    }
                    assert(pair_ok(list, problem, pc, (t1, t2)) == !hit);
                    assert(!old_seen.contains((t1, t2))) by {
                        if old_seen.contains((t1, t2)) {
                            if exists|a2: int| 0 <= a2 < a && spots[m1][a2] == t1 {
                                let a2 = choose|a2: int| 0 <= a2 < a && spots[m1][a2] == t1;
                                assert(spots[m1].no_duplicates());
                            } else {
                                let b2 = choose|b2: int| 0 <= b2 < b && spots[m2][b2] == t2;
                                assert(spots[m2].no_duplicates());
                            }
                        }
                    }
                }
                if !hit {
                    proof {
                        seen = seen.insert((t1, t2));
                        vstd::set_lib::lemma_len_subset(seen, target);
                    }
                    count = count + 1;
                }
                proof {
                    assert(seen =~= Set::new(|pr: (Spot, Spot)| pair_ok(list, problem, pc, pr) && (mask_of(list, pc, pr.0) < m1
                        || (mask_of(list, pc, pr.0) == m1 && (exists|a2: int| 0 <= a2 < a && spots[m1][a2] == pr.0))
                        || (pr.0 == spots[m1][a as int] && exists|b2: int| 0 <= b2 < b + 1 && spots[m2][b2] == pr.1)))) by {
                        assert forall|pr: (Spot, Spot)| (pr.0 == spots[m1][a as int] && exists|b2: int| 0 <= b2 < b + 1 && spots[m2][b2] == pr.1)
                            && !(pr.0 == spots[m1][a as int] && exists|b2: int| 0 <= b2 < b && spots[m2][b2] == pr.1) implies pr == (t1, t2) by {
                            let b2 = choose|b2: int| 0 <= b2 < b + 1 && spots[m2][b2] == pr.1;
                        }
                    }
                }
                b += 1;
            }
            proof {
                assert(placement_is(placements@[m1]@[a as int], list, spots[m1][a as int]));
                assert(seen =~= Set::new(|pr: (Spot, Spot)| pair_ok(list, problem, pc, pr) && (mask_of(list, pc, pr.0) < m1
                    || (mask_of(list, pc, pr.0) == m1 && exists|a2: int| 0 <= a2 < a + 1 && spots[m1][a2] == pr.0)))) by {
                    assert forall|pr: (Spot, Spot)| pair_ok(list, problem, pc, pr) && pr.0 == spots[m1][a as int]
                        implies exists|b2: int| 0 <= b2 < placements@[m2]@.len() && spots[m2][b2] == pr.1 by {
                        assert(placement_is(placements@[m1]@[a as int], list, spots[m1][a as int]));
                        assert(mask_of(list, pc, pr.0) == m1);
                        lemma_bits_value_bound(cover_bits(list, pc, pr.1));
                        assert(spots[mask_of(list, pc, pr.1) as int].contains(pr.1));
                    }
                    assert forall|pr: (Spot, Spot)| (exists|a2: int| 0 <= a2 < a + 1 && spots[m1][a2] == pr.0)
                        && !(exists|a2: int| 0 <= a2 < a && spots[m1][a2] == pr.0) implies pr.0 == spots[m1][a as int] by {
                        let a2 = choose|a2: int| 0 <= a2 < a + 1 && spots[m1][a2] == pr.0;
                    }
                }
            }
            a += 1;
        }
        proof {
            assert(seen =~= Set::new(|pr: (Spot, Spot)| pair_ok(list, problem, pc, pr) && mask_of(list, pc, pr.0) < mask1 + 2)) by {
                assert forall|pr: (Spot, Spot)| pair_ok(list, problem, pc, pr) && mask_of(list, pc, pr.0) == m1
                    implies exists|a2: int| 0 <= a2 < placements@[m1]@.len() && spots[m1][a2] == pr.0 by {
                    assert(spots[m1].contains(pr.0));
                }
            }
        }
        mask1 = mask1 + 2;
    }
    proof {
        assert(seen =~= target);
        lemma_double_covers(list, problem, pc);
    }
    let r = CheckResult { cover_with_1_count, cover_with_2_count: count };
    assert(counts_match(list, problem, r));
    r
}

/// Counts the placements of the answer's rotations and reflections that cover the whole
/// problem, and, when there is none, the pairs of non-overlapping placements that cover
/// it together.
pub fn check(problem: &TightPoly, answer: &TightPoly) -> (r: CheckResult)
    requires
        check_input(*problem, *answer),
        counts_fit(*problem, *answer),
    ensures
        exists|list: Seq<TightPoly>| #[trigger] answer.is_rot_rev_list(list) && counts_match(list, *problem, r),
{
    let (placements, Ghost(list), Ghost(pc), Ghost(spots)) = collect_placements(problem, answer);
    count_covers(&placements, Ghost(list), Ghost(pc), Ghost(spots), Ghost(*problem), Ghost(*answer))
}

/// Why an answer is refused.
#[derive(Debug, Clone, Copy, PartialEq, Eq, Structural)]
pub enum CheckError {
    /// The answer has no cell.
    EmptyAnswer,
    /// The answer encloses an empty region.
    AnswerHasHole,
    /// The answer is not connected.
    AnswerNotConnected,
    /// Some placement of the answer covers the whole problem.
    ContainedInAnswer,
    /// Pairs of placements cover the problem; the number of such pairs.
    CoveredWithTwo(u32),
    /// Three or more placements cover the problem.
    CoveredWithMore,
}

impl CheckError {
    /// The message that tells the user why the answer was refused.
    pub fn message(&self) -> (r: String)
        ensures
            match *self {
                CheckError::EmptyAnswer => r@ == "The answer is empty"@,
                CheckError::AnswerHasHole => r@ == "The answer has a hole"@,
                CheckError::AnswerNotConnected => r@ == "The answer is not connected"@,
                CheckError::ContainedInAnswer => r@ == "The problem is contained in the answer"@,
                CheckError::CoveredWithTwo(c) => r@ == "The problem can be covered with two copies of the answer: count "@ + decimal(
                    c as nat,
                ),
                CheckError::CoveredWithMore => r@ == "The problem can be covered with more than two copies of the answer"@,
            },
    {
        match *self {
            CheckError::EmptyAnswer => String::from_str("The answer is empty"),
            CheckError::AnswerHasHole => String::from_str("The answer has a hole"),
            CheckError::AnswerNotConnected => String::from_str("The answer is not connected"),
            CheckError::ContainedInAnswer => String::from_str("The problem is contained in the answer"),
            CheckError::CoveredWithTwo(c) => {
                let mut s = String::from_str("The problem can be covered with two copies of the answer: count ");
                push_decimal(&mut s, c as usize);
                s
            },
            CheckError::CoveredWithMore => String::from_str(
                "The problem can be covered with more than two copies of the answer",
            ),
        }
    }
}

/// Relevant placements of the images that overlap each other nowhere and together
/// cover every cell of the problem.
pub open spec fn is_cover_family(list: Seq<TightPoly>, problem: TightPoly, q: Seq<Spot>) -> bool {
    &&& forall|i: int| 0 <= i < q.len() ==> relevant(list, problem, #[trigger] q[i])
    &&& forall|i: int, j: int| 0 <= i < q.len() && 0 <= j < q.len() && i != j ==> !overlap(list, #[trigger] q[i], #[trigger] q[j])
    &&& forall|x: int, y: int| #[trigger] problem.cell(x, y) ==> exists|i: int| 0 <= i < q.len() && covers(list, #[trigger] q[i], x, y)
}

/// What the full check answers once the answer is a connected polyomino without hole.
pub open spec fn full_outcome(list: Seq<TightPoly>, problem: TightPoly, r: Result<(), CheckError>) -> bool {
    let one = single_covers(list, problem).len() as u32;
    let two = double_covers(list, problem).len();
    if one > 0 {
        r == Err::<(), CheckError>(CheckError::ContainedInAnswer)
    } else if two > 0 {
        r == Err::<(), CheckError>(CheckError::CoveredWithTwo(two as u32))
    } else if exists|q: Seq<Spot>| #[trigger] is_cover_family(list, problem, q) {
        r == Err::<(), CheckError>(CheckError::CoveredWithMore)
    } else {
        r == Ok::<(), CheckError>(())
    }
}

/// What the full check asks of its input.
pub open spec fn full_check_input(problem: TightPoly, answer: TightPoly) -> bool {
    &&& problem.wf()
    &&& problem.h() <= 512
    &&& answer.wf()
    &&& answer.h() <= 512
    &&& num_cells(problem) <= 31
    &&& (exists|x: int, y: int| #[trigger] answer.cell(x, y)) && !answer.has_hole_spec() && answer.is_connected_spec() ==> {
        &&& problem.w() + answer.h() <= 512
        &&& problem.w() + answer.w() <= 512
        &&& problem.h() + answer.h() <= 512
        &&& problem.h() + answer.w() <= 512
        &&& counts_fit(problem, answer)
    }
}

/// A partition of all the listed cells, with nothing placed, is a cover family.
proof fn lemma_partition_family(list: Seq<TightPoly>, problem: TightPoly, pc: Seq<Vector<i32>>, q: Seq<Spot>, full: u32)
    requires
        problem.wf(),
        problem.h() <= 512,
        problem.is_cell_list(pc),
        pc.len() <= 31,
        full as nat == pow2(pc.len()) - 1,
    ensures
        is_partition(list, problem, pc, q, full, Seq::empty()) == is_cover_family(list, problem, q),
{
    lemma_pow2_pos(pc.len());
    lemma_to_bits_value(full, pc.len());
    lemma_all_bits_value(pc.len());
    lemma_bits_value_injective(to_bits(full, pc.len()), all_bits(pc.len()));
    assert forall|k: int| 0 <= k < pc.len() implies bit32(full, k) by {
        assert(to_bits(full, pc.len())[k]);
    }
    if is_partition(list, problem, pc, q, full, Seq::empty()) {
        assert forall|x: int, y: int| #[trigger] problem.cell(x, y) implies exists|i: int| 0 <= i < q.len() && covers(list, #[trigger] q[i], x, y) by {
            assert(pc.contains(Vector { x: x as i32, y: y as i32 }));
            let k = choose|k: int| 0 <= k < pc.len() && pc[k] == Vector { x: x as i32, y: y as i32 };
            assert(bit32(full, k));
            let i = choose|i: int| 0 <= i < q.len() && #[trigger] cover_bits(list, pc, q[i])[k];
            assert(covers(list, q[i], x, y));
        }
    }
    if is_cover_family(list, problem, q) {
        assert forall|k: int| 0 <= k < pc.len() implies (bit32(full, k) <==> exists|i: int| 0 <= i < q.len() && #[trigger] cover_bits(list, pc, q[i])[k]) by {
            let (x, y) = (pc[k].x as int, pc[k].y as int);
            assert(problem.cell(x, y));
            let i = choose|i: int| 0 <= i < q.len() && covers(list, #[trigger] q[i], x, y);
            assert(cover_bits(list, pc, q[i])[k]);
        }
    }
}

/// Checks an answer to a problem: the answer must be a connected polyomino without hole,
/// and no placement of its rotations and reflections, nor any set of non-overlapping
/// placements, may cover the problem.
pub fn full_check(problem: &TightPoly, answer: &TightPoly) -> (r: Result<(), CheckError>)
    requires
        full_check_input(*problem, *answer),
    ensures
        (forall|x: int, y: int| !#[trigger] answer.cell(x, y)) ==> r == Err::<(), CheckError>(CheckError::EmptyAnswer),
        (exists|x: int, y: int| #[trigger] answer.cell(x, y)) && answer.has_hole_spec() ==> r == Err::<(), CheckError>(
            CheckError::AnswerHasHole,
        ),
        (exists|x: int, y: int| #[trigger] answer.cell(x, y)) && !answer.has_hole_spec() && !answer.is_connected_spec() ==> r
            == Err::<(), CheckError>(CheckError::AnswerNotConnected),
        (exists|x: int, y: int| #[trigger] answer.cell(x, y)) && !answer.has_hole_spec() && answer.is_connected_spec() ==> exists|
            list: Seq<TightPoly>,
        | #[trigger] answer.is_rot_rev_list(list) && full_outcome(list, *problem, r),
{
    let cells = answer.cells();
    if cells.len() == 0 {
        proof {
            assert forall|x: int, y: int| !#[trigger] answer.cell(x, y) by {
                if answer.cell(x, y) {
                    assert(cells@.contains(Vector { x: x as i32, y: y as i32 }));
                }
            }
        }
        return Err(CheckError::EmptyAnswer);
    }
    proof {
        assert(answer.cell(cells@[0].x as int, cells@[0].y as int));
    }
    if answer.has_hole() {
        return Err(CheckError::AnswerHasHole);
    }
    if !answer.is_connected() {
        return Err(CheckError::AnswerNotConnected);
    }
    proof {
        lemma_connected_columns(*answer);
    }
    let (placements, Ghost(list), Ghost(pc), Ghost(spots)) = collect_placements(problem, answer);
    let check_res = count_covers(&placements, Ghost(list), Ghost(pc), Ghost(spots), Ghost(*problem), Ghost(*answer));
    if check_res.cover_with_1_count > 0 {
        return Err(CheckError::ContainedInAnswer);
    }
    if check_res.cover_with_2_count > 0 {
        return Err(CheckError::CoveredWithTwo(check_res.cover_with_2_count));
    }
    proof {
        lemma_pow2_pos(pc.len());
        lemma_u32_shl_pow2(pc.len() as u32);
    }
    let full = placements.len() as u32 - 1;
    let mut placed: Vec<Placement> = Vec::new();
    let found = full_check_dfs(&placements, full, &mut placed, Ghost(list), Ghost(pc), Ghost(spots), Ghost(*problem), Ghost(*answer));
    proof {
        if found {
            let q = choose|q: Seq<Spot>| #[trigger] is_partition(list, *problem, pc, q, full, Seq::<Placement>::empty());
            lemma_partition_family(list, *problem, pc, q, full);
        } else {
            assert forall|q: Seq<Spot>| !#[trigger] is_cover_family(list, *problem, q) by {
                lemma_partition_family(list, *problem, pc, q, full);
            }
        }
    }
    if found {
        return Err(CheckError::CoveredWithMore);
    }
    Ok(())
}

} // verus!
