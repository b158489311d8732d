use vstd::prelude::*;
use vstd::arithmetic::power2::{pow2, lemma_pow2_pos};
use crate::check::bits::{
    bits_value, bit32, to_bits, lemma_bits_value_bound, lemma_bits_value_injective, lemma_bits_value_zero,
    lemma_to_bits_value, lemma_u32_bits_eq, lemma_xor_bits, lemma_and_bits, lemma_next_submask, lemma_low_bit,
};
use crate::check::check::{
    Spot, covers, relevant, overlap, cover_bits, mask_of, placement_is, check_input, lists_ok, lists_complete,
    lemma_placement_bounds,
};
use crate::check::placement::Placement;
use crate::data::tight_poly::TightPoly;
use crate::data::vector::Vector;

verus! {

/// Whether the placement `p` shares a cell with the placement `t` of the list.
pub open spec fn hits(p: Placement, list: Seq<TightPoly>, t: Spot) -> bool {
    exists|x: int, y: int| #[trigger] p.covers(x, y) && covers(list, t, x, y)
}

/// `q` are relevant placements that overlap neither each other nor the placed ones, and
/// that together cover exactly the listed cells whose bit is set in `rem`.
pub open spec fn is_partition(
    list: Seq<TightPoly>,
    problem: TightPoly,
    pc: Seq<Vector<i32>>,
    q: Seq<Spot>,
    rem: u32,
    placed: Seq<Placement>,
) -> bool {
    &&& forall|i: int| 0 <= i < q.len() ==> relevant(list, problem, #[trigger] q[i])
    &&& forall|i: int, j: int| 0 <= i < q.len() && 0 <= j < q.len() && i != j ==> !overlap(list, #[trigger] q[i], #[trigger] q[j])
    &&& forall|i: int, l: int| 0 <= i < q.len() && 0 <= l < placed.len() ==> !hits(#[trigger] placed[l], list, #[trigger] q[i])
    &&& forall|k: int| 0 <= k < pc.len() ==> (bit32(rem, k) <==> exists|i: int| 0 <= i < q.len() && #[trigger] cover_bits(list, pc, q[i])[k])
}

/// Every placed placement is a relevant placement of the list.
pub open spec fn placed_ok(list: Seq<TightPoly>, problem: TightPoly, placed: Seq<Placement>) -> bool {
    forall|l: int| 0 <= l < placed.len() ==> stands_for_some(#[trigger] placed[l], list, problem)
}

/// The placement is a relevant placement of the list.
pub open spec fn stands_for_some(p: Placement, list: Seq<TightPoly>, problem: TightPoly) -> bool {
    exists|t: Spot| relevant(list, problem, t) && #[trigger] placement_is(p, list, t)
}

/// What the search works on.
pub open spec fn search_ctx(
    res: Seq<Vec<Placement>>,
    spots: Seq<Seq<Spot>>,
    list: Seq<TightPoly>,
    pc: Seq<Vector<i32>>,
    problem: TightPoly,
    answer: TightPoly,
) -> bool {
    &&& check_input(problem, answer)
    &&& answer.is_rot_rev_list(list)
    &&& problem.is_cell_list(pc)
    &&& pc.len() <= 31
    &&& lists_ok(res, spots, list, pc, problem)
    &&& lists_complete(spots, list, pc, problem)
}

/// A placement occupies the cells of the placement of the list it stands for.
proof fn lemma_placement_covers(p: Placement, list: Seq<TightPoly>, t: Spot)
    requires
        placement_is(p, list, t),
    ensures
        forall|x: int, y: int| #[trigger] p.covers(x, y) == covers(list, t, x, y),
{
}

/// The mask of a placement, as a word, has the placement's cover bits.
proof fn lemma_mask_bits(list: Seq<TightPoly>, pc: Seq<Vector<i32>>, t: Spot)
    requires
        pc.len() <= 31,
    ensures
        mask_of(list, pc, t) < pow2(pc.len()),
        mask_of(list, pc, t) < 0x8000_0000,
        to_bits(mask_of(list, pc, t) as u32, pc.len()) == cover_bits(list, pc, t),
        forall|k: int| 0 <= k < pc.len() ==> #[trigger] bit32(mask_of(list, pc, t) as u32, k) == cover_bits(list, pc, t)[k],
        forall|k: int| pc.len() <= k < 32 ==> !#[trigger] bit32(mask_of(list, pc, t) as u32, k),
{
    let b = cover_bits(list, pc, t);
    lemma_bits_value_bound(b);
    crate::check::bits::lemma_u32_shl_pow2(pc.len() as u32);
    let v = mask_of(list, pc, t) as u32;
    lemma_to_bits_value(v, pc.len());
    lemma_bits_value_injective(to_bits(v, pc.len()), b);
    assert forall|k: int| 0 <= k < pc.len() implies #[trigger] bit32(v, k) == b[k] by {
        assert(to_bits(v, pc.len())[k] == bit32(v, k));
    }
}

/// A part of a partition has a mask inside the remaining cells.
proof fn lemma_part_submask(
    list: Seq<TightPoly>,
    problem: TightPoly,
    pc: Seq<Vector<i32>>,
    q: Seq<Spot>,
    rem: u32,
    placed: Seq<Placement>,
    i: int,
)
    requires
        pc.len() <= 31,
        rem < pow2(pc.len()),
        is_partition(list, problem, pc, q, rem, placed),
        0 <= i < q.len(),
    ensures
        (mask_of(list, pc, q[i]) as u32) & rem == mask_of(list, pc, q[i]) as u32,
{
    let v = mask_of(list, pc, q[i]) as u32;
    lemma_mask_bits(list, pc, q[i]);
    lemma_to_bits_value(rem, pc.len());
    assert forall|k: int| 0 <= k < 32 implies #[trigger] bit32(v & rem, k) == bit32(v, k) by {
        lemma_and_bits(v, rem, k);
        if k < pc.len() && bit32(v, k) {
            assert(cover_bits(list, pc, q[i])[k]);
        }
    }
    lemma_u32_bits_eq(v & rem, v);
}

/// Adding a placement that covers the cleared cells to a partition of the rest.
proof fn lemma_partition_extend(
    list: Seq<TightPoly>,
    problem: TightPoly,
    pc: Seq<Vector<i32>>,
    q: Seq<Spot>,
    rem: u32,
    mask: u32,
    placed: Seq<Placement>,
    p: Placement,
    t: Spot,
)
    requires
        pc.len() <= 31,
        mask & rem == mask,
        mask == mask_of(list, pc, t),
        relevant(list, problem, t),
        placement_is(p, list, t),
        forall|l: int| 0 <= l < placed.len() ==> !hits(#[trigger] placed[l], list, t),
        is_partition(list, problem, pc, q, rem ^ mask, placed.push(p)),
    ensures
        is_partition(list, problem, pc, q.push(t), rem, placed),
{
    let q2 = q.push(t);
    let placed2 = placed.push(p);
    lemma_placement_covers(p, list, t);
    lemma_mask_bits(list, pc, t);
    assert forall|i: int, j: int| 0 <= i < q2.len() && 0 <= j < q2.len() && i != j implies !overlap(list, #[trigger] q2[i], #[trigger] q2[j]) by {
        if j == q.len() {
            assert(!hits(placed2[placed.len() as int], list, q[i]));
            if overlap(list, q2[i], q2[j]) {
                let (x, y) = choose|x: int, y: int| #[trigger] covers(list, q2[i], x, y) && covers(list, q2[j], x, y);
                assert(p.covers(x, y));
            }
        } else if i == q.len() {
            assert(!hits(placed2[placed.len() as int], list, q[j]));
            if overlap(list, q2[i], q2[j]) {
                let (x, y) = choose|x: int, y: int| #[trigger] covers(list, q2[i], x, y) && covers(list, q2[j], x, y);
                assert(p.covers(x, y));
            }
        } else {
            assert(q2[i] == q[i] && q2[j] == q[j]);
        }
    }
    assert forall|i: int, l: int| 0 <= i < q2.len() && 0 <= l < placed.len() implies !hits(#[trigger] placed[l], list, #[trigger] q2[i]) by {
        if i < q.len() {
            assert(placed2[l] == placed[l]);
            assert(q2[i] == q[i]);
        }
    }
    assert forall|k: int| 0 <= k < pc.len() implies (bit32(rem, k) <==> exists|i: int| 0 <= i < q2.len() && #[trigger] cover_bits(list, pc, q2[i])[k]) by {
        lemma_xor_bits(rem, mask, k);
        if exists|i: int| 0 <= i < q2.len() && #[trigger] cover_bits(list, pc, q2[i])[k] {
            let i = choose|i: int| 0 <= i < q2.len() && #[trigger] cover_bits(list, pc, q2[i])[k];
            if i < q.len() {
                assert(cover_bits(list, pc, q[i])[k]);
            }
        }
        if bit32(rem, k) && !bit32(mask, k) {
            let i = choose|i: int| 0 <= i < q.len() && #[trigger] cover_bits(list, pc, q[i])[k];
            assert(cover_bits(list, pc, q2[i])[k]);
        }
        if bit32(mask, k) {
            assert(cover_bits(list, pc, q2[q.len() as int])[k]);
        }
    }
}

/// Taking out of a partition a part that covers exactly `mask` leaves a partition of the
/// rest, once that part is placed.
proof fn lemma_partition_remove(
    list: Seq<TightPoly>,
    problem: TightPoly,
    pc: Seq<Vector<i32>>,
    q: Seq<Spot>,
    rem: u32,
    mask: u32,
    placed: Seq<Placement>,
    p: Placement,
    i: int,
)
    requires
        pc.len() <= 31,
        problem.wf(),
        problem.h() <= 512,
        problem.is_cell_list(pc),
        mask & rem == mask,
        0 <= i < q.len(),
        mask == mask_of(list, pc, q[i]),
        placement_is(p, list, q[i]),
        is_partition(list, problem, pc, q, rem, placed),
    ensures
        is_partition(list, problem, pc, q.remove(i), rem ^ mask, placed.push(p)),
{
    let q2 = q.remove(i);
    let placed2 = placed.push(p);
    lemma_placement_covers(p, list, q[i]);
    lemma_mask_bits(list, pc, q[i]);
    assert forall|a: int| 0 <= a < q2.len() implies #[trigger] q2[a] == q[if a < i { a } else { a + 1 }] by {
    }
    assert forall|a: int, b: int| 0 <= a < q2.len() && 0 <= b < q2.len() && a != b implies !overlap(list, #[trigger] q2[a], #[trigger] q2[b]) by {
        let a1 = if a < i { a } else { a + 1 };
        let b1 = if b < i { b } else { b + 1 };
        assert(!overlap(list, q[a1], q[b1]));
    }
    assert forall|a: int, l: int| 0 <= a < q2.len() && 0 <= l < placed2.len() implies !hits(#[trigger] placed2[l], list, #[trigger] q2[a]) by {
        let a1 = if a < i { a } else { a + 1 };
        if l < placed.len() {
            assert(placed2[l] == placed[l]);
            assert(!hits(placed[l], list, q[a1]));
        } else {
            assert(!overlap(list, q[i], q[a1]));
            if hits(placed2[l], list, q2[a]) {
                let (x, y) = choose|x: int, y: int| #[trigger] placed2[l].covers(x, y) && covers(list, q2[a], x, y);
                assert(covers(list, q[i], x, y));
            }
        }
    }
    assert forall|k: int| 0 <= k < pc.len() implies (bit32(rem ^ mask, k) <==> exists|a: int| 0 <= a < q2.len() && #[trigger] cover_bits(list, pc, q2[a])[k]) by {
        lemma_xor_bits(rem, mask, k);
        if exists|a: int| 0 <= a < q2.len() && #[trigger] cover_bits(list, pc, q2[a])[k] {
            let a = choose|a: int| 0 <= a < q2.len() && #[trigger] cover_bits(list, pc, q2[a])[k];
            let a1 = if a < i { a } else { a + 1 };
            assert(cover_bits(list, pc, q[a1])[k]);
            if cover_bits(list, pc, q[i])[k] {
                let (x, y) = (pc[k].x as int, pc[k].y as int);
                assert(covers(list, q[i], x, y) && covers(list, q[a1], x, y));
                assert(overlap(list, q[i], q[a1]));
            }
        }
        if bit32(rem, k) && !bit32(mask, k) {
            let a1 = choose|a1: int| 0 <= a1 < q.len() && #[trigger] cover_bits(list, pc, q[a1])[k];
            assert(a1 != i);
            let a = if a1 < i { a1 } else { a1 - 1 };
            assert(q2[a] == q[a1]);
            assert(cover_bits(list, pc, q2[a])[k]);
        }
    }
}

/// Whether the listed cells whose bit is set in `remaining` can be split among
/// placements of the lists that overlap neither each other nor the placed ones.
pub(crate) fn full_check_dfs(
    placements: &Vec<Vec<Placement>>,
    remaining: u32,
    placed: &mut Vec<Placement>,
    Ghost(list): Ghost<Seq<TightPoly>>,
    Ghost(pc): Ghost<Seq<Vector<i32>>>,
    Ghost(spots): Ghost<Seq<Seq<Spot>>>,
    Ghost(problem): Ghost<TightPoly>,
    Ghost(answer): Ghost<TightPoly>,
) -> (r: bool)
    requires
        search_ctx(placements@, spots, list, pc, problem, answer),
        remaining < pow2(pc.len()),
        placed_ok(list, problem, old(placed)@),
    ensures
        final(placed)@ == old(placed)@,
        r == exists|q: Seq<Spot>| #[trigger] is_partition(list, problem, pc, q, remaining, old(placed)@),
    decreases remaining,
{
    let ghost placed0 = placed@;
    let ghost n = pc.len();
    if remaining == 0 {
        proof {
            lemma_to_bits_value(0, n);
            lemma_bits_value_zero(to_bits(0, n));
            assert forall|k: int| 0 <= k < n implies !bit32(0, k) by {
                assert(!to_bits(0, n)[k]);
            }
            assert(is_partition(list, problem, pc, Seq::<Spot>::empty(), remaining, placed0));
        }
        return true;
    }
    proof {
        lemma_low_bit(remaining);
        lemma_to_bits_value(remaining, n);
    }
    let lo = remaining.trailing_zeros();
    let last_bit: u32 = 1u32 << lo;
    let mut mask = remaining;
    proof {
        assert((remaining & remaining) == remaining) by (bit_vector);
        assert forall|q: Seq<Spot>, i: int| #![trigger is_partition(list, problem, pc, q, remaining, placed0), q[i]] is_partition(list, problem, pc, q, remaining, placed0) && 0 <= i < q.len()
            && cover_bits(list, pc, q[i])[lo as int] implies mask_of(list, pc, q[i]) <= mask by {
            lemma_part_submask(list, problem, pc, q, remaining, placed0, i);
            let v = mask_of(list, pc, q[i]) as u32;
            lemma_mask_bits(list, pc, q[i]);
            assert((v & remaining) <= remaining) by (bit_vector);
        }
    }
    while mask > 0
        invariant
            search_ctx(placements@, spots, list, pc, problem, answer),
            n == pc.len(),
            remaining != 0,
            remaining < pow2(n),
            lo == remaining.trailing_zeros(),
            lo < 32,
            last_bit == 1u32 << lo,
            bit32(remaining, lo as int),
            forall|m: u32| ((#[trigger] (m & (1u32 << lo))) > 0) == bit32(m, lo as int),
            lo < n,
            mask & remaining == mask,
            placed@ == placed0,
            placed0 == old(placed)@,
            placed_ok(list, problem, placed0),
            forall|q: Seq<Spot>, i: int| #![trigger is_partition(list, problem, pc, q, remaining, placed0), q[i]] is_partition(list, problem, pc, q, remaining, placed0) && 0 <= i < q.len()
                && cover_bits(list, pc, q[i])[lo as int] ==> mask_of(list, pc, q[i]) <= mask,
        decreases mask,
    {
        proof {
            lemma_pow2_pos(n);
        }
        if mask & last_bit > 0 {
            let ghost m = mask as int;
            proof {
                lemma_bits_value_bound(to_bits(remaining, n));
                assert(mask <= remaining) by (bit_vector)
                    requires
                        mask & remaining == mask,
                ;
            }
            let mut j: usize = 0;
            while j < placements[mask as usize].len()
                invariant
                    search_ctx(placements@, spots, list, pc, problem, answer),
                    n == pc.len(),
                    remaining != 0,
                    remaining < pow2(n),
                    lo < n,
                    m == mask,
                    mask > 0,
                    placed0 == old(placed)@,
                    mask <= remaining,
                    mask & remaining == mask,
                    bit32(mask, lo as int),
                    placed@ == placed0,
                    placed_ok(list, problem, placed0),
                    j <= placements@[m]@.len(),
                    forall|q: Seq<Spot>, i: int| #![trigger is_partition(list, problem, pc, q, remaining, placed0), q[i]] is_partition(list, problem, pc, q, remaining, placed0) && 0 <= i < q.len()
                        && cover_bits(list, pc, q[i])[lo as int] ==> mask_of(list, pc, q[i]) <= mask,
                    forall|q: Seq<Spot>, i: int, j2: int| #![trigger is_partition(list, problem, pc, q, remaining, placed0), q[i], spots[m][j2]] is_partition(list, problem, pc, q, remaining, placed0) && 0 <= i < q.len()
                        && 0 <= j2 < j ==> spots[m][j2] != q[i],
                decreases placements@[m]@.len() - j,
            {
                let p = &placements[mask as usize][j];
                let ghost t = spots[m][j as int];
                proof {
                    assert(placement_is(placements@[m]@[j as int], list, t));
                    assert(mask_of(list, pc, t) == m);
                    lemma_placement_bounds(list, answer, problem, pc, t);
                    lemma_placement_covers(*p, list, t);
                }
                let mut ok = true;
                let mut l: usize = 0;
                while l < placed.len()
                    invariant_except_break
                        ok,
                    invariant
                        search_ctx(placements@, spots, list, pc, problem, answer),
                        placed@ == placed0,
                        placed_ok(list, problem, placed0),
                        l <= placed.len(),
                        placement_is(*p, list, t),
                        relevant(list, problem, t),
                        forall|x: int, y: int| #[trigger] p.covers(x, y) == covers(list, t, x, y),
                        forall|l2: int| 0 <= l2 < l ==> !hits(#[trigger] placed0[l2], list, t),
                    ensures
                        ok ==> forall|l2: int| 0 <= l2 < placed0.len() ==> !hits(#[trigger] placed0[l2], list, t),
                        !ok ==> exists|l2: int| 0 <= l2 < placed0.len() && hits(#[trigger] placed0[l2], list, t),
                    decreases placed.len() - l,
                {
                    let ghost t2 = choose|t2: Spot| relevant(list, problem, t2) && #[trigger] placement_is(placed0[l as int], list, t2);
                    proof {
                        assert(placed_ok(list, problem, placed0));
                        assert(stands_for_some(placed0[l as int], list, problem));
                        lemma_placement_bounds(list, answer, problem, pc, t);
                        lemma_placement_bounds(list, answer, problem, pc, t2);
                    }
                    let hit = p.intersects(&placed[l]);
                    proof {
                        lemma_placement_covers(placed0[l as int], list, t2);
                        if hit {
                            let (x, y) = choose|x: int, y: int| #[trigger] p.covers(x, y) && placed0[l as int].covers(x, y);
                            assert(placed0[l as int].covers(x, y) && covers(list, t, x, y));
                        } else {
                            if hits(placed0[l as int], list, t) {
                                let (x, y) = choose|x: int, y: int| #[trigger] placed0[l as int].covers(x, y) && covers(list, t, x, y);
                                assert(p.covers(x, y));
                            }
                        }
                    }
                    if hit {
                        ok = false;
                        break;
                    }
                    l += 1;
                }
                if ok {
                    let dup = p.duplicate();
                    placed.push(dup);
                    proof {
                        assert forall|l2: int| 0 <= l2 < placed@.len() implies stands_for_some(#[trigger] placed@[l2], list, problem) by {
                            if l2 < placed0.len() {
                                assert(placed@[l2] == placed0[l2]);
                            } else {
                                assert(placement_is(placed@[l2], list, t));
                            }
                        }
                        lemma_xor_bits(remaining, mask, 0);
                    }
                    let found = full_check_dfs(placements, remaining ^ mask, placed, Ghost(list), Ghost(pc), Ghost(spots), Ghost(problem), Ghost(answer));
                    let _ = placed.pop();
                    proof {
                        assert(placed@ =~= placed0);
                    }
                    if found {
                        proof {
                            let q = choose|q: Seq<Spot>| #[trigger] is_partition(list, problem, pc, q, remaining ^ mask, placed0.push(dup));
                            lemma_partition_extend(list, problem, pc, q, remaining, mask, placed0, dup, t);
                            assert(is_partition(list, problem, pc, q.push(t), remaining, placed0));
                        }
                        return true;
                    }
                    proof {
                        assert forall|q: Seq<Spot>, i: int, j2: int| #![trigger is_partition(list, problem, pc, q, remaining, placed0), q[i], spots[m][j2]] is_partition(list, problem, pc, q, remaining, placed0) && 0 <= i < q.len()
                            && 0 <= j2 < j + 1 implies spots[m][j2] != q[i] by {
                            if j2 == j && spots[m][j2] == q[i] {
                                lemma_partition_remove(list, problem, pc, q, remaining, mask, placed0, dup, i);
                                assert(is_partition(list, problem, pc, q.remove(i), remaining ^ mask, placed0.push(dup)));
                            }
                        }
                    }
                } else {
                    proof {
                        assert forall|q: Seq<Spot>, i: int, j2: int| #![trigger is_partition(list, problem, pc, q, remaining, placed0), q[i], spots[m][j2]] is_partition(list, problem, pc, q, remaining, placed0) && 0 <= i < q.len()
                            && 0 <= j2 < j + 1 implies spots[m][j2] != q[i] by {
                            if j2 == j && spots[m][j2] == q[i] {
                                let l2 = choose|l2: int| 0 <= l2 < placed0.len() && hits(#[trigger] placed0[l2], list, t);
                                assert(!hits(placed0[l2], list, q[i]));
                            }
                        }
                    }
                }
                j += 1;
            }
            proof {
                assert forall|q: Seq<Spot>, i: int| #![trigger is_partition(list, problem, pc, q, remaining, placed0), q[i]] is_partition(list, problem, pc, q, remaining, placed0) && 0 <= i < q.len()
                    && cover_bits(list, pc, q[i])[lo as int] implies mask_of(list, pc, q[i]) != mask by {
                    if mask_of(list, pc, q[i]) == mask {
                        assert(spots[m].contains(q[i]));
                        let j2 = choose|j2: int| 0 <= j2 < spots[m].len() && spots[m][j2] == q[i];
                        assert(placements@[m]@.len() == spots[m].len());
                    }
                }
            }
        } else {
            proof {
                assert forall|q: Seq<Spot>, i: int| #![trigger is_partition(list, problem, pc, q, remaining, placed0), q[i]] is_partition(list, problem, pc, q, remaining, placed0) && 0 <= i < q.len()
                    && cover_bits(list, pc, q[i])[lo as int] implies mask_of(list, pc, q[i]) != mask by {
                    lemma_mask_bits(list, pc, q[i]);
                    assert(bit32(mask_of(list, pc, q[i]) as u32, lo as int));
                }
            }
        }
        let next = (mask - 1) & remaining;
        proof {
            assert forall|q: Seq<Spot>, i: int| #![trigger is_partition(list, problem, pc, q, remaining, placed0), q[i]] is_partition(list, problem, pc, q, remaining, placed0) && 0 <= i < q.len()
                && cover_bits(list, pc, q[i])[lo as int] implies mask_of(list, pc, q[i]) <= next by {
                lemma_part_submask(list, problem, pc, q, remaining, placed0, i);
                lemma_mask_bits(list, pc, q[i]);
                let v = mask_of(list, pc, q[i]) as u32;
                lemma_next_submask(remaining, mask, v);
            }
            assert((0u32 & remaining) == 0u32) by (bit_vector);
            lemma_next_submask(remaining, mask, 0);
        }
        mask = next;
    }
    proof {
        assert forall|q: Seq<Spot>| !#[trigger] is_partition(list, problem, pc, q, remaining, placed0) by {
            if is_partition(list, problem, pc, q, remaining, placed0) {
                let i = choose|i: int| 0 <= i < q.len() && #[trigger] cover_bits(list, pc, q[i])[lo as int];
                lemma_bits_value_zero(cover_bits(list, pc, q[i]));
            }
        }
    }
    false
}

} // verus!
