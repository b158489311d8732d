use vstd::prelude::*;

verus! {

/// The answer of a search that may run out of its budget.
#[derive(Clone, Copy, Debug, PartialEq, Eq, Structural)]
pub enum Tri {
    Yes,
    No,
    Unknown,
}

/// The value fits in an `i32`.
pub open spec fn fits(v: int) -> bool {
    i32::MIN <= v <= i32::MAX
}

/// Every move that takes a cell of an orientation onto a cell of the region, and every cell
/// of the orientation so moved, has coordinates that fit in an `i32`: the arithmetic of the
/// search does not overflow.
pub open spec fn moves_fit(orients: Seq<Seq<(i32, i32)>>, region: Seq<(i32, i32)>) -> bool {
    forall|o: int, k1: int, k2: int, r: int|
        #![trigger region[r], orients[o][k1], orients[o][k2]]
        0 <= o < orients.len() && 0 <= k1 < orients[o].len() && 0 <= k2 < orients[o].len() && 0 <= r < region.len() ==> {
            &&& fits(region[r].0 - orients[o][k1].0)
            &&& fits(region[r].1 - orients[o][k1].1)
            &&& fits(region[r].0 - orients[o][k1].0 + orients[o][k2].0)
            &&& fits(region[r].1 - orients[o][k1].1 + orients[o][k2].1)
        }
}

/// `a` comes before `b` in the order of orientation, then row move, then column move.
pub open spec fn lex3(a: (int, int, int), b: (int, int, int)) -> bool {
    a.0 < b.0 || (a.0 == b.0 && (a.1 < b.1 || (a.1 == b.1 && a.2 < b.2)))
}

/// The cell `k` of the orientation `p.0` moved by `(p.1, p.2)`.
pub open spec fn shifted(orients: Seq<Seq<(i32, i32)>>, p: (int, int, int), k: int) -> (int, int) {
    (orients[p.0][k].0 + p.1, orients[p.0][k].1 + p.2)
}

/// The copy `p` (an orientation and a move) holds the cell `c`.
pub open spec fn piece_has(orients: Seq<Seq<(i32, i32)>>, p: (int, int, int), c: (int, int)) -> bool {
    &&& 0 <= p.0 < orients.len()
    &&& exists|k: int| 0 <= k < orients[p.0].len() && #[trigger] shifted(orients, p, k) == c
}

/// The cell of the region as a pair of integers.
pub open spec fn cell_at(region: Seq<(i32, i32)>, i: int) -> (int, int) {
    (region[i].0 as int, region[i].1 as int)
}

/// The copy `p` meets the region.
pub open spec fn touches(orients: Seq<Seq<(i32, i32)>>, region: Seq<(i32, i32)>, p: (int, int, int)) -> bool {
    exists|i: int| 0 <= i < region.len() && #[trigger] piece_has(orients, p, cell_at(region, i))
}

/// The copies `p` and `q` share a cell.
pub open spec fn overlap(orients: Seq<Seq<(i32, i32)>>, p: (int, int, int), q: (int, int, int)) -> bool {
    exists|c: (int, int)| #[trigger] piece_has(orients, p, c) && piece_has(orients, q, c)
}

/// The copies `q` meet the region, share no cell, and together hold every cell of it.
pub open spec fn disjoint_cover(orients: Seq<Seq<(i32, i32)>>, region: Seq<(i32, i32)>, q: Seq<(int, int, int)>) -> bool {
    &&& forall|i: int| 0 <= i < q.len() ==> #[trigger] touches(orients, region, q[i])
    &&& forall|i: int, j: int| 0 <= i < j < q.len() ==> !#[trigger] overlap(orients, q[i], q[j])
    &&& forall|r: int| 0 <= r < region.len() ==> #[trigger] held(orients, region, q, r)
}

/// Some copy of `q` holds the cell `r` of the region.
pub open spec fn held(orients: Seq<Seq<(i32, i32)>>, region: Seq<(i32, i32)>, q: Seq<(int, int, int)>, r: int) -> bool {
    exists|i: int| 0 <= i < q.len() && #[trigger] piece_has(orients, q[i], cell_at(region, r))
}

/// The inputs of the search: non-empty orientations and a non-empty region (the bounding
/// boxes of both are taken), the region without repeated cells, and moves that fit.
pub open spec fn search_input(orients: Seq<Seq<(i32, i32)>>, region: Seq<(i32, i32)>) -> bool {
    &&& region.len() > 0
    &&& forall|i: int, j: int| 0 <= i < j < region.len() ==> region[i] != region[j]
    &&& forall|o: int| 0 <= o < orients.len() ==> (#[trigger] orients[o]).len() > 0
    &&& moves_fit(orients, region)
}

/// The smallest and largest coordinates of the cells, each taken by some cell.
fn bbox(cells: &Vec<(i32, i32)>) -> (r: (i32, i32, i32, i32))
    requires
        cells.len() > 0,
    ensures
        forall|i: int| 0 <= i < cells.len() ==> r.0 <= (#[trigger] cells@[i]).0 <= r.1 && r.2 <= cells@[i].1 <= r.3,
        exists|i: int| 0 <= i < cells.len() && (#[trigger] cells@[i]).0 == r.0,
        exists|i: int| 0 <= i < cells.len() && (#[trigger] cells@[i]).0 == r.1,
        exists|i: int| 0 <= i < cells.len() && (#[trigger] cells@[i]).1 == r.2,
        exists|i: int| 0 <= i < cells.len() && (#[trigger] cells@[i]).1 == r.3,
{
    let mut minx = cells[0].0;
    let mut maxx = cells[0].0;
    let mut miny = cells[0].1;
    let mut maxy = cells[0].1;
    let ghost mut w: (int, int, int, int) = (0, 0, 0, 0);
    let mut i: usize = 1;
    while i < cells.len()
        invariant
            1 <= i <= cells.len(),
            forall|j: int| 0 <= j < i ==> minx <= (#[trigger] cells@[j]).0 <= maxx && miny <= cells@[j].1 <= maxy,
            0 <= w.0 < i && cells@[w.0].0 == minx,
            0 <= w.1 < i && cells@[w.1].0 == maxx,
            0 <= w.2 < i && cells@[w.2].1 == miny,
            0 <= w.3 < i && cells@[w.3].1 == maxy,
        decreases cells.len() - i,
    {
        let (x, y) = cells[i];
        if x < minx {
            minx = x;
            proof { w.0 = i as int; }
        }
        if x > maxx {
            maxx = x;
            proof { w.1 = i as int; }
        }
        if y < miny {
            miny = y;
            proof { w.2 = i as int; }
        }
        if y > maxy {
            maxy = y;
            proof { w.3 = i as int; }
        }
        i += 1;
    }
    (minx, maxx, miny, maxy)
}

/// A copy of an orientation: its cells, and the indices of the cells of the region that it
/// holds, in increasing order.
pub struct Placement {
    pub cells: Vec<(i32, i32)>,
    pub cover: Vec<usize>,
}

/// `pl` is the copy `p`, and it meets the region.
pub open spec fn placement_is(pl: Placement, orients: Seq<Seq<(i32, i32)>>, region: Seq<(i32, i32)>, p: (int, int, int)) -> bool {
    &&& 0 <= p.0 < orients.len()
    &&& pl.cells@.len() == orients[p.0].len()
    &&& forall|k: int| 0 <= k < pl.cells@.len() ==> (#[trigger] pl.cells@[k].0 as int, pl.cells@[k].1 as int) == shifted(orients, p, k)
    &&& forall|t: int| 0 <= t < pl.cover@.len() ==> (#[trigger] pl.cover@[t]) < region.len()
    &&& forall|t: int, u: int| 0 <= t < u < pl.cover@.len() ==> pl.cover@[t] < pl.cover@[u]
    &&& forall|i: int| 0 <= i < region.len() ==> (pl.cover@.contains(i as usize) <==> #[trigger] piece_has(orients, p, cell_at(region, i)))
    &&& pl.cover@.len() > 0
}

/// The region's cells held by `cells`, in increasing order of index.
fn cover_of(region: &Vec<(i32, i32)>, cells: &Vec<(i32, i32)>) -> (r: Vec<usize>)
    ensures
        forall|t: int| 0 <= t < r@.len() ==> (#[trigger] r@[t]) < region.len(),
        forall|t: int, u: int| 0 <= t < u < r@.len() ==> r@[t] < r@[u],
        forall|i: int| 0 <= i < region.len() ==> (r@.contains(i as usize) <==> cells@.contains(#[trigger] region@[i])),
{
    let mut r: Vec<usize> = Vec::new();
    let mut i: usize = 0;
    while i < region.len()
        invariant
            i <= region.len(),
            forall|t: int| 0 <= t < r@.len() ==> (#[trigger] r@[t]) < i,
            forall|t: int, u: int| 0 <= t < u < r@.len() ==> r@[t] < r@[u],
            forall|j: int| 0 <= j < i ==> (r@.contains(j as usize) <==> cells@.contains(#[trigger] region@[j])),
        decreases region.len() - i,
    {
        let c = region[i];
        let mut k: usize = 0;
        let mut found = false;
        while k < cells.len()
            invariant
                k <= cells.len(),
                found == exists|m: int| 0 <= m < k && cells@[m] == c,
            decreases cells.len() - k,
        {
            if cells[k].0 == c.0 && cells[k].1 == c.1 {
                found = true;
            }
            k += 1;
        }
        let ghost old_r = r@;
        if found {
            r.push(i);
        }
        proof {
            assert forall|j: int| 0 <= j < i + 1 implies (r@.contains(j as usize) <==> cells@.contains(#[trigger] region@[j])) by {
                if j < i {
                    if r@.contains(j as usize) {
                        let t = choose|t: int| 0 <= t < r@.len() && r@[t] == j as usize;
                        if t < old_r.len() {
                            assert(old_r.contains(j as usize));
                        }
                    }
                    if old_r.contains(j as usize) {
                        let t = choose|t: int| 0 <= t < old_r.len() && old_r[t] == j as usize;
                        assert(r@[t] == j as usize);
                    }
                } else {
                    if found {
                        assert(r@[r@.len() - 1] == i);
                    } else {
                        if r@.contains(j as usize) {
                            let t = choose|t: int| 0 <= t < r@.len() && r@[t] == j as usize;
                            assert(old_r[t] < i);
                        }
                    }
                }
            }
        }
        i += 1;
    }
    r
}

/// The orientations as sequences of cells.
pub open spec fn orients_view(orients: Seq<Vec<(i32, i32)>>) -> Seq<Seq<(i32, i32)>> {
    orients.map_values(|v: Vec<(i32, i32)>| v@)
}

/// The copy of the orientation `s` moved by `(tx, ty)`.
fn moved(s: &Vec<(i32, i32)>, tx: i32, ty: i32) -> (r: Vec<(i32, i32)>)
    requires
        forall|k: int| 0 <= k < s.len() ==> fits((#[trigger] s@[k]).0 + tx) && fits(s@[k].1 + ty),
    ensures
        r@.len() == s@.len(),
        forall|k: int| 0 <= k < r@.len() ==> (#[trigger] r@[k].0 as int, r@[k].1 as int) == (s@[k].0 + tx, s@[k].1 + ty),
{
    let mut r: Vec<(i32, i32)> = Vec::new();
    let mut k: usize = 0;
    while k < s.len()
        invariant
            k <= s.len(),
            r@.len() == k,
            forall|j: int| 0 <= j < s.len() ==> fits((#[trigger] s@[j]).0 + tx) && fits(s@[j].1 + ty),
            forall|j: int| 0 <= j < k ==> (#[trigger] r@[j].0 as int, r@[j].1 as int) == (s@[j].0 + tx, s@[j].1 + ty),
        decreases s.len() - k,
    {
        let (x, y) = s[k];
        r.push((x + tx, y + ty));
        k += 1;
    }
    r
}

/// Every copy of every orientation that meets the region, each with the ghost copy it is;
/// and for each cell of the region, the indices of the copies that hold it, in increasing
/// order.
fn build_placements(orients: &Vec<Vec<(i32, i32)>>, region: &Vec<(i32, i32)>) -> (r: (Vec<Placement>, Vec<Vec<usize>>, Ghost<Seq<(int, int, int)>>))
    requires
        search_input(orients_view(orients@), region@),
    ensures
        r.2@.len() == r.0@.len(),
        forall|t1: int, t2: int| 0 <= t1 < t2 < r.2@.len() ==> lex3(#[trigger] r.2@[t1], #[trigger] r.2@[t2]),
        forall|t: int| 0 <= t < r.0@.len() ==> #[trigger] placement_is(r.0@[t], orients_view(orients@), region@, r.2@[t]),
        forall|p: (int, int, int)| 0 <= p.0 < orients@.len() && #[trigger] touches(orients_view(orients@), region@, p) ==> r.2@.contains(p),
        r.1@.len() == region@.len(),
        forall|i: int, u: int| 0 <= i < region@.len() && 0 <= u < r.1@[i]@.len() ==> (#[trigger] r.1@[i]@[u]) < r.0@.len(),
        forall|i: int, u: int, v: int| 0 <= i < region@.len() && 0 <= u < v < r.1@[i]@.len() ==> #[trigger] r.1@[i]@[u] < #[trigger] r.1@[i]@[v],
        forall|i: int, t: int| 0 <= i < region@.len() && 0 <= t < r.0@.len() ==> (r.1@[i]@.contains(t as usize) <==> #[trigger] piece_has(
            orients_view(orients@),
            r.2@[t],
            cell_at(region@, i),
        )),
{
    let ghost ov = orients_view(orients@);
    let (rminx, rmaxx, rminy, rmaxy) = bbox(region);
    let ghost r0 = choose|i: int| 0 <= i < region.len() && (#[trigger] region@[i]).0 == rminx;
    let ghost r1 = choose|i: int| 0 <= i < region.len() && (#[trigger] region@[i]).0 == rmaxx;
    let ghost r2 = choose|i: int| 0 <= i < region.len() && (#[trigger] region@[i]).1 == rminy;
    let ghost r3 = choose|i: int| 0 <= i < region.len() && (#[trigger] region@[i]).1 == rmaxy;
    let mut pls: Vec<Placement> = Vec::new();
    let ghost mut ids: Seq<(int, int, int)> = Seq::empty();
    let mut o: usize = 0;
    while o < orients.len()
        invariant
            ov == orients_view(orients@),
            search_input(ov, region@),
            forall|i: int| 0 <= i < region.len() ==> rminx <= (#[trigger] region@[i]).0 <= rmaxx && rminy <= region@[i].1 <= rmaxy,
            0 <= r0 < region.len() && region@[r0].0 == rminx,
            0 <= r1 < region.len() && region@[r1].0 == rmaxx,
            0 <= r2 < region.len() && region@[r2].1 == rminy,
            0 <= r3 < region.len() && region@[r3].1 == rmaxy,
            o <= orients.len(),
            ids.len() == pls.len(),
            forall|t: int| 0 <= t < pls.len() ==> #[trigger] placement_is(pls@[t], ov, region@, ids[t]),
            forall|t1: int, t2: int| 0 <= t1 < t2 < ids.len() ==> lex3(#[trigger] ids[t1], #[trigger] ids[t2]),
            forall|t: int| 0 <= t < ids.len() ==> (#[trigger] ids[t]).0 < o,
            forall|p: (int, int, int)| 0 <= p.0 < o && #[trigger] touches(ov, region@, p) ==> ids.contains(p),
        decreases orients.len() - o,
    {
        let s = &orients[o];
        proof {
            assert(ov[o as int] == s@);
            assert(s@.len() > 0);
        }
        let (sminx, smaxx, sminy, smaxy) = bbox(s);
        let ghost k0 = choose|i: int| 0 <= i < s.len() && (#[trigger] s@[i]).0 == sminx;
        let ghost k1 = choose|i: int| 0 <= i < s.len() && (#[trigger] s@[i]).0 == smaxx;
        let ghost k2 = choose|i: int| 0 <= i < s.len() && (#[trigger] s@[i]).1 == sminy;
        let ghost k3 = choose|i: int| 0 <= i < s.len() && (#[trigger] s@[i]).1 == smaxy;
        proof {
            let oo = o as int;
            assert(ov[oo][k1] == s@[k1] && ov[oo][k0] == s@[k0] && ov[oo][k2] == s@[k2] && ov[oo][k3] == s@[k3]);
            assert(fits(region@[r0].0 - ov[oo][k1].0) && fits(region@[r0].0 - ov[oo][k1].0 + ov[oo][k0].0));
            assert(fits(region@[r1].0 - ov[oo][k0].0) && fits(region@[r1].0 - ov[oo][k0].0 + ov[oo][k1].0));
            assert(fits(region@[r2].1 - ov[oo][k3].1) && fits(region@[r2].1 - ov[oo][k3].1 + ov[oo][k2].1));
            assert(fits(region@[r3].1 - ov[oo][k2].1) && fits(region@[r3].1 - ov[oo][k2].1 + ov[oo][k3].1));
        }
        let lo_x: i64 = rminx as i64 - smaxx as i64;
        let hi_x: i64 = rmaxx as i64 - sminx as i64;
        let lo_y: i64 = rminy as i64 - smaxy as i64;
        let hi_y: i64 = rmaxy as i64 - sminy as i64;
        proof {
            assert(rminy <= region@[r2].1 <= rmaxy);
            assert(sminy <= s@[k2].1 <= smaxy);
        }
        let mut tx: i64 = lo_x;
        while tx <= hi_x
            invariant
                ov == orients_view(orients@),
                search_input(ov, region@),
                forall|i: int| 0 <= i < region.len() ==> rminx <= (#[trigger] region@[i]).0 <= rmaxx && rminy <= region@[i].1 <= rmaxy,
                forall|k: int| 0 <= k < s.len() ==> sminx <= (#[trigger] s@[k]).0 <= smaxx && sminy <= s@[k].1 <= smaxy,
                ov[o as int] == s@,
                o < orients.len(),
                lo_x == rminx - smaxx,
                hi_x == rmaxx - sminx,
                lo_y == rminy - smaxy,
                hi_y == rmaxy - sminy,
                fits(lo_x as int) && fits(hi_x as int) && fits(sminx + lo_x) && fits(smaxx + hi_x),
                fits(lo_y as int) && fits(hi_y as int) && fits(sminy + lo_y) && fits(smaxy + hi_y),
                lo_x <= tx <= hi_x + 1,
                lo_y <= hi_y,
                ids.len() == pls.len(),
                forall|t: int| 0 <= t < pls.len() ==> #[trigger] placement_is(pls@[t], ov, region@, ids[t]),
                forall|t1: int, t2: int| 0 <= t1 < t2 < ids.len() ==> lex3(#[trigger] ids[t1], #[trigger] ids[t2]),
                forall|t: int| 0 <= t < ids.len() ==> (#[trigger] ids[t]).0 < o || (ids[t].0 == o && ids[t].1 < tx),
                forall|p: (int, int, int)| (0 <= p.0 < o || (p.0 == o && p.1 < tx)) && #[trigger] touches(ov, region@, p) ==> ids.contains(p),
            decreases hi_x + 1 - tx,
        {
            let mut ty: i64 = lo_y;
            while ty <= hi_y
                invariant
                    ov == orients_view(orients@),
                    search_input(ov, region@),
                    forall|i: int| 0 <= i < region.len() ==> rminx <= (#[trigger] region@[i]).0 <= rmaxx && rminy <= region@[i].1 <= rmaxy,
                    forall|k: int| 0 <= k < s.len() ==> sminx <= (#[trigger] s@[k]).0 <= smaxx && sminy <= s@[k].1 <= smaxy,
                    ov[o as int] == s@,
                    o < orients.len(),
                    lo_x == rminx - smaxx,
                    hi_x == rmaxx - sminx,
                    lo_y == rminy - smaxy,
                    hi_y == rmaxy - sminy,
                    fits(lo_x as int) && fits(hi_x as int) && fits(sminx + lo_x) && fits(smaxx + hi_x),
                    fits(lo_y as int) && fits(hi_y as int) && fits(sminy + lo_y) && fits(smaxy + hi_y),
                    lo_x <= tx <= hi_x,
                    lo_y <= ty <= hi_y + 1,
                    ids.len() == pls.len(),
                    forall|t: int| 0 <= t < pls.len() ==> #[trigger] placement_is(pls@[t], ov, region@, ids[t]),
                    forall|t1: int, t2: int| 0 <= t1 < t2 < ids.len() ==> lex3(#[trigger] ids[t1], #[trigger] ids[t2]),
                    forall|t: int| 0 <= t < ids.len() ==> (#[trigger] ids[t]).0 < o || (ids[t].0 == o && (ids[t].1 < tx || (ids[t].1 == tx && ids[t].2 < ty))),
                    forall|p: (int, int, int)| (0 <= p.0 < o || (p.0 == o && (p.1 < tx || (p.1 == tx && p.2 < ty)))) && #[trigger] touches(ov, region@, p) ==> ids.contains(p),
                decreases hi_y + 1 - ty,
            {
                let tx32 = tx as i32;
                let ty32 = ty as i32;
                proof {
                    assert forall|k: int| 0 <= k < s.len() implies fits((#[trigger] s@[k]).0 + tx32) && fits(s@[k].1 + ty32) by {}
                }
                let cells = moved(s, tx32, ty32);
                let cover = cover_of(region, &cells);
                let ghost p: (int, int, int) = (o as int, tx as int, ty as int);
                proof {
                    assert forall|i: int| 0 <= i < region.len() implies (cells@.contains(#[trigger] region@[i]) <==> piece_has(ov, p, cell_at(region@, i))) by {
                        if cells@.contains(region@[i]) {
                            let k = choose|k: int| 0 <= k < cells@.len() && cells@[k] == region@[i];
                            assert(shifted(ov, p, k) == cell_at(region@, i));
                        }
                        if piece_has(ov, p, cell_at(region@, i)) {
                            let k = choose|k: int| 0 <= k < ov[p.0].len() && #[trigger] shifted(ov, p, k) == cell_at(region@, i);
                            assert((cells@[k].0 as int, cells@[k].1 as int) == cell_at(region@, i));
                            assert(cells@[k] == region@[i]);
                        }
                    }
                }
                let ghost old_ids = ids;
                if cover.len() > 0 {
                    let pl = Placement { cells, cover };
                    let ghost old_pls = pls@;
                    proof {
                        assert(placement_is(pl, ov, region@, p));
                        ids = ids.push(p);
                    }
                    pls.push(pl);
                    proof {
                        assert forall|t: int| 0 <= t < pls.len() implies #[trigger] placement_is(pls@[t], ov, region@, ids[t]) by {
                            if t < old_ids.len() {
                                assert(pls@[t] == old_pls[t]);
                            }
                        }
                        assert forall|t1: int, t2: int| 0 <= t1 < t2 < ids.len() implies lex3(#[trigger] ids[t1], #[trigger] ids[t2]) by {
                            assert(ids[t1] == old_ids[t1]);
                            if t2 < old_ids.len() {
                                assert(ids[t2] == old_ids[t2]);
                            }
                        }
                    }
                }
                proof {
                    assert forall|t: int| 0 <= t < ids.len() implies (#[trigger] ids[t]).0 < o || (ids[t].0 == o && (ids[t].1 < tx || (ids[t].1 == tx && ids[t].2 < ty + 1))) by {
                        if t < old_ids.len() {
                            assert(ids[t] == old_ids[t]);
                        }
                    }
                    assert forall|q: (int, int, int)| (0 <= q.0 < o || (q.0 == o && (q.1 < tx || (q.1 == tx && q.2 < ty + 1)))) && #[trigger] touches(ov, region@, q) implies ids.contains(q) by {
                        if q == p {
                            let i = choose|i: int| 0 <= i < region.len() && #[trigger] piece_has(ov, q, cell_at(region@, i));
                            assert(cover@.contains(i as usize));
                            assert(ids[ids.len() - 1] == p);
                        } else {
                            assert(old_ids.contains(q));
                            let t = choose|t: int| 0 <= t < old_ids.len() && old_ids[t] == q;
                            assert(ids[t] == q);
                        }
                    }
                }
                ty += 1;
            }
            proof {
                assert forall|q: (int, int, int)| (0 <= q.0 < o || (q.0 == o && q.1 < tx + 1)) && #[trigger] touches(ov, region@, q) implies ids.contains(q) by {
                    if q.0 == o && q.1 == tx {
                        let i = choose|i: int| 0 <= i < region.len() && #[trigger] piece_has(ov, q, cell_at(region@, i));
                        let k = choose|k: int| 0 <= k < ov[q.0].len() && #[trigger] shifted(ov, q, k) == cell_at(region@, i);
                        assert(s@[k].1 + q.2 == region@[i].1);
                    }
                }
            }
            tx += 1;
        }
        proof {
            assert forall|q: (int, int, int)| 0 <= q.0 < o + 1 && #[trigger] touches(ov, region@, q) implies ids.contains(q) by {
                if q.0 == o {
                    let i = choose|i: int| 0 <= i < region.len() && #[trigger] piece_has(ov, q, cell_at(region@, i));
                    let k = choose|k: int| 0 <= k < ov[q.0].len() && #[trigger] shifted(ov, q, k) == cell_at(region@, i);
                    assert(s@[k].0 + q.1 == region@[i].0);
                }
            }
        }
        o += 1;
    }
    // The copies that hold each cell of the region.
    let mut by_cell: Vec<Vec<usize>> = Vec::new();
    while by_cell.len() < region.len()
        invariant
            by_cell.len() <= region.len(),
            forall|i: int| 0 <= i < by_cell.len() ==> (#[trigger] by_cell@[i])@.len() == 0,
        decreases region.len() - by_cell.len(),
    {
        by_cell.push(Vec::new());
    }
    let mut t: usize = 0;
    while t < pls.len()
        invariant
            ov == orients_view(orients@),
            t <= pls.len(),
            ids.len() == pls.len(),
            by_cell.len() == region.len(),
            forall|u: int| 0 <= u < pls.len() ==> #[trigger] placement_is(pls@[u], ov, region@, ids[u]),
            forall|i: int, u: int| 0 <= i < region@.len() && 0 <= u < by_cell@[i]@.len() ==> (#[trigger] by_cell@[i]@[u]) < t,
            forall|i: int, u: int| 0 <= i < region@.len() && 0 <= u < t ==> (by_cell@[i]@.contains(u as usize) <==> #[trigger] pls@[u].cover@.contains(i as usize)),
            forall|i: int, u: int, v: int| 0 <= i < region@.len() && 0 <= u < v < by_cell@[i]@.len() ==> #[trigger] by_cell@[i]@[u] < #[trigger] by_cell@[i]@[v],
        decreases pls.len() - t,
    {
        let cover = &pls[t].cover;
        let mut k: usize = 0;
        while k < cover.len()
            invariant
                t < pls.len(),
                cover@ == pls@[t as int].cover@,
                placement_is(pls@[t as int], ov, region@, ids[t as int]),
                k <= cover.len(),
                by_cell.len() == region.len(),
                forall|i: int, u: int| 0 <= i < region@.len() && 0 <= u < by_cell@[i]@.len() ==> (#[trigger] by_cell@[i]@[u]) <= t,
                forall|i: int, u: int| 0 <= i < region@.len() && 0 <= u < t ==> (by_cell@[i]@.contains(u as usize) <==> #[trigger] pls@[u].cover@.contains(i as usize)),
                forall|i: int| 0 <= i < region@.len() ==> (#[trigger] by_cell@[i]@.contains(t) <==> exists|m: int| 0 <= m < k && #[trigger] cover@[m] == i as usize),
                forall|i: int, u: int, v: int| 0 <= i < region@.len() && 0 <= u < v < by_cell@[i]@.len() ==> #[trigger] by_cell@[i]@[u] < #[trigger] by_cell@[i]@[v],
            decreases cover.len() - k,
        {
            let i = cover[k];
            let ghost old_by = by_cell@;
            proof {
                assert(!old_by[i as int]@.contains(t)) by {
                    if old_by[i as int]@.contains(t) {
                        let m = choose|m: int| 0 <= m < k && #[trigger] cover@[m] == i;
                        assert(cover@[m] < cover@[k as int]);
                    }
                }
                assert forall|u: int| 0 <= u < old_by[i as int]@.len() implies #[trigger] old_by[i as int]@[u] < t by {
                    assert(old_by[i as int]@[u] <= t);
                    if old_by[i as int]@[u] == t {
                        assert(old_by[i as int]@.contains(t));
                    }
                }
            }
            by_cell[i].push(t);
            proof {
                assert forall|i2: int, u: int, v: int| 0 <= i2 < region@.len() && 0 <= u < v < by_cell@[i2]@.len() implies #[trigger] by_cell@[i2]@[u] < #[trigger] by_cell@[i2]@[v] by {
                    if i2 == i {
                        if v == by_cell@[i2]@.len() - 1 {
                            assert(by_cell@[i2]@[u] == old_by[i2]@[u]);
                        } else {
                            assert(by_cell@[i2]@[u] == old_by[i2]@[u]);
                            assert(by_cell@[i2]@[v] == old_by[i2]@[v]);
                        }
                    } else {
                        assert(by_cell@[i2] == old_by[i2]);
                    }
                }
                assert forall|i2: int| 0 <= i2 < region@.len() implies (#[trigger] by_cell@[i2]@.contains(t) <==> exists|m: int| 0 <= m < k + 1 && #[trigger] cover@[m] == i2 as usize) by {
                    if i2 == i {
                        assert(by_cell@[i2]@[by_cell@[i2]@.len() - 1] == t);
                        assert(cover@[k as int] == i);
                    } else {
                        assert(by_cell@[i2] == old_by[i2]);
                        if exists|m: int| 0 <= m < k + 1 && #[trigger] cover@[m] == i2 as usize {
                            let m = choose|m: int| 0 <= m < k + 1 && #[trigger] cover@[m] == i2 as usize;
                            assert(m < k);
                        }
                    }
                }
                assert forall|i2: int, u: int| 0 <= i2 < region@.len() && 0 <= u < t implies (by_cell@[i2]@.contains(u as usize) <==> #[trigger] pls@[u].cover@.contains(i2 as usize)) by {
                    if i2 == i {
                        assert(old_by[i2]@.contains(u as usize) == pls@[u].cover@.contains(i2 as usize));
                        if by_cell@[i2]@.contains(u as usize) {
                            let m = choose|m: int| 0 <= m < by_cell@[i2]@.len() && by_cell@[i2]@[m] == u as usize;
                            if m < old_by[i2]@.len() {
                                assert(old_by[i2]@[m] == u);
                            }
                        }
                        if old_by[i2]@.contains(u as usize) {
                            let m = choose|m: int| 0 <= m < old_by[i2]@.len() && old_by[i2]@[m] == u as usize;
                            assert(by_cell@[i2]@[m] == u);
                        }
                    } else {
                        assert(by_cell@[i2] == old_by[i2]);
                    }
                }
            }
            k += 1;
        }
        proof {
            assert forall|i2: int, u: int| 0 <= i2 < region@.len() && 0 <= u < t + 1 implies (by_cell@[i2]@.contains(u as usize) <==> #[trigger] pls@[u].cover@.contains(i2 as usize)) by {
                if u == t {
                    if cover@.contains(i2 as usize) {
                        let m = choose|m: int| 0 <= m < cover@.len() && cover@[m] == i2 as usize;
                        assert(cover@[m] == i2 as usize);
                    }
                }
            }
        }
        t += 1;
    }
    proof {
        assert forall|i: int, t2: int| 0 <= i < region@.len() && 0 <= t2 < pls@.len() implies (by_cell@[i]@.contains(t2 as usize) <==> #[trigger] piece_has(
            ov,
            ids[t2],
            cell_at(region@, i),
        )) by {
            assert(placement_is(pls@[t2], ov, region@, ids[t2]));
            assert(by_cell@[i]@.contains(t2 as usize) <==> pls@[t2].cover@.contains(i as usize));
        }
    }
    (pls, by_cell, Ghost(ids))
}

/// What the search builds from the input: the copies that meet the region, with the ghost
/// copies they are, and for each cell of the region the copies that hold it.
pub open spec fn search_ctx(
    ov: Seq<Seq<(i32, i32)>>,
    region: Seq<(i32, i32)>,
    pls: Seq<Placement>,
    by_cell: Seq<Vec<usize>>,
    ids: Seq<(int, int, int)>,
) -> bool {
    &&& search_input(ov, region)
    &&& ids.len() == pls.len()
    &&& forall|t: int| 0 <= t < pls.len() ==> #[trigger] placement_is(pls[t], ov, region, ids[t])
    &&& forall|p: (int, int, int)| 0 <= p.0 < ov.len() && #[trigger] touches(ov, region, p) ==> ids.contains(p)
    &&& by_cell.len() == region.len()
    &&& forall|i: int, u: int| 0 <= i < region.len() && 0 <= u < by_cell[i]@.len() ==> (#[trigger] by_cell[i]@[u]) < pls.len()
    &&& forall|i: int, u: int, v: int| 0 <= i < region.len() && 0 <= u < v < by_cell[i]@.len() ==> #[trigger] by_cell[i]@[u] < #[trigger] by_cell[i]@[v]
    &&& forall|i: int, t: int| 0 <= i < region.len() && 0 <= t < pls.len() ==> (by_cell[i]@.contains(t as usize) <==> #[trigger] piece_has(
        ov,
        ids[t],
        cell_at(region, i),
    ))
}

/// Some cell of `occupied` is `c`.
pub open spec fn occupies(occupied: Seq<(i32, i32)>, c: (int, int)) -> bool {
    exists|m: int| 0 <= m < occupied.len() && (occupied[m].0 as int, occupied[m].1 as int) == c
}

/// The copies placed so far meet the region and share no cell; `occupied` holds their
/// cells and `covered` the cells of the region they hold.
pub open spec fn state_ok(
    ov: Seq<Seq<(i32, i32)>>,
    region: Seq<(i32, i32)>,
    placed: Seq<(int, int, int)>,
    covered: Seq<bool>,
    occupied: Seq<(i32, i32)>,
) -> bool {
    &&& forall|i: int| 0 <= i < placed.len() ==> #[trigger] touches(ov, region, placed[i])
    &&& forall|i: int, j: int| 0 <= i < j < placed.len() ==> !#[trigger] overlap(ov, placed[i], placed[j])
    &&& forall|c: (int, int)| #[trigger] occupies(occupied, c) <==> exists|i: int| 0 <= i < placed.len() && #[trigger] piece_has(ov, placed[i], c)
    &&& covered.len() == region.len()
    &&& forall|r: int| 0 <= r < region.len() ==> (covered[r] <==> #[trigger] held(ov, region, placed, r))
}

/// `q` has every copy of `placed`.
pub open spec fn extends(q: Seq<(int, int, int)>, placed: Seq<(int, int, int)>) -> bool {
    forall|i: int| 0 <= i < placed.len() ==> q.contains(#[trigger] placed[i])
}

/// No cover by at least two and at most `max_depth` copies has all the copies of `placed`.
pub open spec fn no_multi_cover(ov: Seq<Seq<(i32, i32)>>, region: Seq<(i32, i32)>, placed: Seq<(int, int, int)>, max_depth: int) -> bool {
    forall|q: Seq<(int, int, int)>| #[trigger] disjoint_cover(ov, region, q) && q.len() <= max_depth && extends(q, placed) ==> q.len() < 2
}

/// Copies that meet the region and share no cell are all different.
proof fn lemma_distinct(ov: Seq<Seq<(i32, i32)>>, region: Seq<(i32, i32)>, q: Seq<(int, int, int)>)
    requires
        forall|i: int| 0 <= i < q.len() ==> #[trigger] touches(ov, region, q[i]),
        forall|i: int, j: int| 0 <= i < j < q.len() ==> !#[trigger] overlap(ov, q[i], q[j]),
    ensures
        q.no_duplicates(),
{
    assert forall|i: int, j: int| 0 <= i < q.len() && 0 <= j < q.len() && i != j implies q[i] != q[j] by {
        if q[i] == q[j] {
            assert(touches(ov, region, q[i]));
            let r = choose|r: int| 0 <= r < region.len() && #[trigger] piece_has(ov, q[i], cell_at(region, r));
            if i < j {
                assert(overlap(ov, q[i], q[j]));
            } else {
                assert(overlap(ov, q[j], q[i]));
            }
        }
    }
}

/// Distinct items all found in `b` are no more than `b`, and fewer when `b` has one more.
proof fn lemma_sub_len<A>(a: Seq<A>, b: Seq<A>, x: A, strict: bool)
    requires
        a.no_duplicates(),
        forall|i: int| 0 <= i < a.len() ==> b.contains(#[trigger] a[i]),
        strict ==> b.contains(x) && forall|i: int| 0 <= i < a.len() ==> #[trigger] a[i] != x,
    ensures
        a.len() <= b.len(),
        strict ==> a.len() < b.len(),
{
    broadcast use vstd::seq_lib::seq_to_set_is_finite;
    a.unique_seq_to_set();
    b.lemma_cardinality_of_set();
    let t = if strict { b.to_set().remove(x) } else { b.to_set() };
    assert forall|y: A| a.to_set().contains(y) implies t.contains(y) by {
        let i = choose|i: int| 0 <= i < a.len() && a[i] == y;
        assert(b.contains(a[i]));
    }
    vstd::set_lib::lemma_len_subset(a.to_set(), t);
    if strict {
        assert(b.to_set().contains(x));
    }
}

/// Whether a cell of `cells` is in `occupied`.
fn clashes(cells: &Vec<(i32, i32)>, occupied: &Vec<(i32, i32)>) -> (r: bool)
    ensures
        r == exists|k: int, m: int| 0 <= k < cells.len() && 0 <= m < occupied.len() && #[trigger] cells@[k] == #[trigger] occupied@[m],
{
    let mut k: usize = 0;
    while k < cells.len()
        invariant
            k <= cells.len(),
            forall|k2: int, m: int| 0 <= k2 < k && 0 <= m < occupied.len() ==> #[trigger] cells@[k2] != #[trigger] occupied@[m],
        decreases cells.len() - k,
    {
        let mut m: usize = 0;
        while m < occupied.len()
            invariant
                k < cells.len(),
                m <= occupied.len(),
                forall|k2: int, m2: int| 0 <= k2 < k && 0 <= m2 < occupied.len() ==> #[trigger] cells@[k2] != #[trigger] occupied@[m2],
                forall|m2: int| 0 <= m2 < m ==> cells@[k as int] != #[trigger] occupied@[m2],
            decreases occupied.len() - m,
        {
            if cells[k].0 == occupied[m].0 && cells[k].1 == occupied[m].1 {
                assert(cells@[k as int] == occupied@[m as int]);
                return true;
            }
            m += 1;
        }
        k += 1;
    }
    false
}

/// The copy `t` shares a cell with a copy placed so far.
pub open spec fn clash(ov: Seq<Seq<(i32, i32)>>, ids: Seq<(int, int, int)>, placed: Seq<(int, int, int)>, t: int) -> bool {
    exists|i: int| 0 <= i < placed.len() && #[trigger] overlap(ov, ids[t], placed[i])
}

/// A cell of the copy is in `occupied` exactly when it shares a cell with a placed copy.
proof fn lemma_clash(
    ov: Seq<Seq<(i32, i32)>>,
    region: Seq<(i32, i32)>,
    pl: Placement,
    ids: Seq<(int, int, int)>,
    t: int,
    placed: Seq<(int, int, int)>,
    covered: Seq<bool>,
    occupied: Seq<(i32, i32)>,
)
    requires
        0 <= t < ids.len(),
        placement_is(pl, ov, region, ids[t]),
        state_ok(ov, region, placed, covered, occupied),
    ensures
        (exists|k: int, m: int| 0 <= k < pl.cells@.len() && 0 <= m < occupied.len() && #[trigger] pl.cells@[k] == #[trigger] occupied[m])
            == clash(ov, ids, placed, t),
{
    let p = ids[t];
    if exists|k: int, m: int| 0 <= k < pl.cells@.len() && 0 <= m < occupied.len() && #[trigger] pl.cells@[k] == #[trigger] occupied[m] {
        let (k, m) = choose|k: int, m: int| 0 <= k < pl.cells@.len() && 0 <= m < occupied.len() && #[trigger] pl.cells@[k] == #[trigger] occupied[m];
        let c = (occupied[m].0 as int, occupied[m].1 as int);
        assert(shifted(ov, p, k) == c);
        assert(piece_has(ov, p, c));
        assert(occupies(occupied, c));
        let i = choose|i: int| 0 <= i < placed.len() && #[trigger] piece_has(ov, placed[i], c);
        assert(overlap(ov, ids[t], placed[i]));
    }
    if clash(ov, ids, placed, t) {
        let i = choose|i: int| 0 <= i < placed.len() && #[trigger] overlap(ov, ids[t], placed[i]);
        let c = choose|c: (int, int)| #[trigger] piece_has(ov, ids[t], c) && piece_has(ov, placed[i], c);
        assert(occupies(occupied, c));
        let m = choose|m: int| 0 <= m < occupied.len() && (occupied[m].0 as int, occupied[m].1 as int) == c;
        let k = choose|k: int| 0 <= k < ov[p.0].len() && #[trigger] shifted(ov, p, k) == c;
        assert((pl.cells@[k].0 as int, pl.cells@[k].1 as int) == c);
        assert(pl.cells@[k] == occupied[m]);
    }
}

/// A cover that has the placed copies holds the uncovered cell `r` by a copy that is not
/// placed, that the search lists, and that shares no cell with the placed copies.
proof fn lemma_next_copy(
    ov: Seq<Seq<(i32, i32)>>,
    region: Seq<(i32, i32)>,
    pls: Seq<Placement>,
    by_cell: Seq<Vec<usize>>,
    ids: Seq<(int, int, int)>,
    placed: Seq<(int, int, int)>,
    covered: Seq<bool>,
    occupied: Seq<(i32, i32)>,
    q: Seq<(int, int, int)>,
    r: int,
) -> (t: int)
    requires
        search_ctx(ov, region, pls, by_cell, ids),
        state_ok(ov, region, placed, covered, occupied),
        disjoint_cover(ov, region, q),
        extends(q, placed),
        0 <= r < region.len(),
        !covered[r],
    ensures
        0 <= t < pls.len(),
        by_cell[r]@.contains(t as usize),
        !clash(ov, ids, placed, t),
        q.contains(ids[t]),
        forall|i: int| 0 <= i < placed.len() ==> placed[i] != ids[t],
{
    assert(held(ov, region, q, r));
    let j = choose|j: int| 0 <= j < q.len() && #[trigger] piece_has(ov, q[j], cell_at(region, r));
    assert(touches(ov, region, q[j]));
    assert(ids.contains(q[j]));
    let t = choose|t: int| 0 <= t < ids.len() && ids[t] == q[j];
    assert(piece_has(ov, ids[t], cell_at(region, r)));
    assert forall|i: int| 0 <= i < placed.len() implies placed[i] != ids[t] by {
        if placed[i] == ids[t] {
            assert(held(ov, region, placed, r));
        }
    }
    if clash(ov, ids, placed, t) {
        let i = choose|i: int| 0 <= i < placed.len() && #[trigger] overlap(ov, ids[t], placed[i]);
        assert(q.contains(placed[i]));
        let j2 = choose|j2: int| 0 <= j2 < q.len() && q[j2] == placed[i];
        assert(j2 != j);
        let c = choose|c: (int, int)| #[trigger] piece_has(ov, ids[t], c) && piece_has(ov, placed[i], c);
        if j < j2 {
            assert(overlap(ov, q[j], q[j2]));
        } else {
            assert(overlap(ov, q[j2], q[j]));
        }
    }
    t
}

/// The copies of a cover that has the placed copies, when these hold the whole region, are
/// the placed ones; when the placed copies leave a cell uncovered, the cover has more.
proof fn lemma_cover_size(
    ov: Seq<Seq<(i32, i32)>>,
    region: Seq<(i32, i32)>,
    placed: Seq<(int, int, int)>,
    covered: Seq<bool>,
    occupied: Seq<(i32, i32)>,
    q: Seq<(int, int, int)>,
)
    requires
        state_ok(ov, region, placed, covered, occupied),
        disjoint_cover(ov, region, q),
        extends(q, placed),
    ensures
        (forall|r: int| 0 <= r < region.len() ==> covered[r]) ==> q.len() <= placed.len(),
        (exists|r: int| 0 <= r < region.len() && !covered[r]) ==> placed.len() < q.len(),
{
    lemma_distinct(ov, region, q);
    lemma_distinct(ov, region, placed);
    if forall|r: int| 0 <= r < region.len() ==> covered[r] {
        assert forall|j: int| 0 <= j < q.len() implies placed.contains(#[trigger] q[j]) by {
            assert(touches(ov, region, q[j]));
            let r = choose|r: int| 0 <= r < region.len() && #[trigger] piece_has(ov, q[j], cell_at(region, r));
            assert(covered[r]);
            assert(held(ov, region, placed, r));
            let i = choose|i: int| 0 <= i < placed.len() && #[trigger] piece_has(ov, placed[i], cell_at(region, r));
            assert(q.contains(placed[i]));
            let j2 = choose|j2: int| 0 <= j2 < q.len() && q[j2] == placed[i];
            if j2 != j {
                if j < j2 {
                    assert(overlap(ov, q[j], q[j2]));
                } else {
                    assert(overlap(ov, q[j2], q[j]));
                }
            }
        }
        lemma_sub_len(q, placed, q[0], false);
    }
    if exists|r: int| 0 <= r < region.len() && !covered[r] {
        let r = choose|r: int| 0 <= r < region.len() && !covered[r];
        assert(held(ov, region, q, r));
        let j = choose|j: int| 0 <= j < q.len() && #[trigger] piece_has(ov, q[j], cell_at(region, r));
        assert forall|i: int| 0 <= i < placed.len() implies #[trigger] placed[i] != q[j] by {
            if placed[i] == q[j] {
                assert(held(ov, region, placed, r));
            }
        }
        assert forall|i: int| 0 <= i < placed.len() implies q.contains(#[trigger] placed[i]) by {}
        lemma_sub_len(placed, q, q[j], true);
    }
}

/// The copies that hold the cell `r` and share no cell with `occupied`, in the order of
/// `by_cell[r]`.
fn options(r: usize, by_cell: &Vec<Vec<usize>>, pls: &Vec<Placement>, occupied: &Vec<(i32, i32)>) -> (o: Vec<usize>)
    requires
        r < by_cell.len(),
        forall|u: int| 0 <= u < by_cell@[r as int]@.len() ==> (#[trigger] by_cell@[r as int]@[u]) < pls.len(),
    ensures
        o@ == free_prefix(by_cell@[r as int]@, cells_of(pls@), occupied@, by_cell@[r as int]@.len() as int),
        o@.len() <= by_cell@[r as int]@.len(),
        forall|t: int| 0 <= t < o@.len() ==> (#[trigger] o@[t]) < pls.len(),
        forall|t: usize| o@.contains(t) <==> by_cell@[r as int]@.contains(t) && !exists|k: int, m: int|
            0 <= k < pls@[t as int].cells@.len() && 0 <= m < occupied@.len() && #[trigger] pls@[t as int].cells@[k] == #[trigger] occupied@[m],
{
    let list = &by_cell[r];
    let mut o: Vec<usize> = Vec::new();
    let mut u: usize = 0;
    while u < list.len()
        invariant
            list@ == by_cell@[r as int]@,
            u <= list.len(),
            o@ == free_prefix(list@, cells_of(pls@), occupied@, u as int),
            o@.len() <= u,
            forall|u2: int| 0 <= u2 < list@.len() ==> (#[trigger] list@[u2]) < pls.len(),
            forall|t: int| 0 <= t < o@.len() ==> (#[trigger] o@[t]) < pls.len(),
            forall|t: usize| o@.contains(t) <==> (exists|u2: int| 0 <= u2 < u && #[trigger] list@[u2] == t) && !exists|k: int, m: int|
                0 <= k < pls@[t as int].cells@.len() && 0 <= m < occupied@.len() && #[trigger] pls@[t as int].cells@[k] == #[trigger] occupied@[m],
        decreases list.len() - u,
    {
        let t = list[u];
        let c = clashes(&pls[t].cells, occupied);
        proof {
            assert(cells_of(pls@)[list@[u as int] as int] == pls@[t as int].cells@);
        }
        let ghost old_o = o@;
        if !c {
            o.push(t);
        }
        proof {
            assert forall|t2: usize| o@.contains(t2) <==> (exists|u2: int| 0 <= u2 < u + 1 && #[trigger] list@[u2] == t2) && !exists|k: int, m: int|
                0 <= k < pls@[t2 as int].cells@.len() && 0 <= m < occupied@.len() && #[trigger] pls@[t2 as int].cells@[k] == #[trigger] occupied@[m] by {
                if o@.contains(t2) {
                    let w = choose|w: int| 0 <= w < o@.len() && o@[w] == t2;
                    if w < old_o.len() {
                        assert(old_o.contains(t2));
                    }
                }
                if old_o.contains(t2) {
                    let w = choose|w: int| 0 <= w < old_o.len() && old_o[w] == t2;
                    assert(o@[w] == t2);
                }
                if (exists|u2: int| 0 <= u2 < u + 1 && #[trigger] list@[u2] == t2) && t2 == t && !c {
                    assert(o@[o@.len() - 1] == t2);
                }
            }
        }
        u += 1;
    }
    proof {
        assert forall|t: usize| (exists|u2: int| 0 <= u2 < list.len() && #[trigger] list@[u2] == t) <==> by_cell@[r as int]@.contains(t) by {}
    }
    o
}

/// How many cells of the region, not yet covered, the copy holds.
fn gain(pl: &Placement, covered: &Vec<bool>) -> (g: usize)
    requires
        forall|t: int| 0 <= t < pl.cover@.len() ==> (#[trigger] pl.cover@[t]) < covered.len(),
    ensures
        g <= pl.cover@.len(),
        g == gain_prefix(pl.cover@, covered@, pl.cover@.len() as int),
{
    let mut g: usize = 0;
    let mut k: usize = 0;
    while k < pl.cover.len()
        invariant
            k <= pl.cover.len(),
            g <= k,
            g == gain_prefix(pl.cover@, covered@, k as int),
            forall|t: int| 0 <= t < pl.cover@.len() ==> (#[trigger] pl.cover@[t]) < covered.len(),
        decreases pl.cover.len() - k,
    {
        if !covered[pl.cover[k]] {
            g += 1;
        }
        k += 1;
    }
    g
}

/// The copies in decreasing order of gain, those of equal gain in their order in `opts`.
fn order_by_gain(opts: &Vec<usize>, pls: &Vec<Placement>, covered: &Vec<bool>) -> (r: Vec<usize>)
    requires
        forall|t: int| 0 <= t < opts@.len() ==> (#[trigger] opts@[t]) < pls.len(),
        forall|t: int, u: int| 0 <= t < pls.len() && 0 <= u < pls@[t].cover@.len() ==> (#[trigger] pls@[t].cover@[u]) < covered.len(),
    ensures
        r@.len() == opts@.len(),
        forall|t: usize| r@.contains(t) <==> opts@.contains(t),
        r@ == order_prefix(opts@, covers_of(pls@), covered@, opts@.len() as int).0,
{
    let mut order: Vec<usize> = Vec::new();
    let mut gains: Vec<usize> = Vec::new();
    let mut k: usize = 0;
    while k < opts.len()
        invariant
            k <= opts.len(),
            order.len() == gains.len(),
            order.len() == k,
            (order@, gains@) == order_prefix(opts@, covers_of(pls@), covered@, k as int),
            forall|t: int| 0 <= t < opts@.len() ==> (#[trigger] opts@[t]) < pls.len(),
            forall|t: int, u: int| 0 <= t < pls.len() && 0 <= u < pls@[t].cover@.len() ==> (#[trigger] pls@[t].cover@[u]) < covered.len(),
            forall|t: usize| order@.contains(t) <==> exists|u: int| 0 <= u < k && #[trigger] opts@[u] == t,
        decreases opts.len() - k,
    {
        let t = opts[k];
        let g = gain(&pls[t], covered);
        proof {
            assert(covers_of(pls@)[t as int] == pls@[t as int].cover@);
        }
        let mut p: usize = 0;
        while p < gains.len() && gains[p] >= g
            invariant
                p <= gains.len(),
                first_below(gains@, g, 0) == first_below(gains@, g, p as int),
            decreases gains.len() - p,
        {
            p += 1;
        }
        let ghost old_order = order@;
        order.insert(p, t);
        gains.insert(p, g);
        proof {
            assert forall|t2: usize| order@.contains(t2) <==> exists|u: int| 0 <= u < k + 1 && #[trigger] opts@[u] == t2 by {
                if order@.contains(t2) {
                    let w = choose|w: int| 0 <= w < order@.len() && order@[w] == t2;
                    if w < p {
                        assert(old_order[w] == t2);
                        assert(old_order.contains(t2));
                    } else if w > p {
                        assert(old_order[w - 1] == t2);
                        assert(old_order.contains(t2));
                    }
                }
                if exists|u: int| 0 <= u < k + 1 && #[trigger] opts@[u] == t2 {
                    let u = choose|u: int| 0 <= u < k + 1 && #[trigger] opts@[u] == t2;
                    if u < k {
                        assert(old_order.contains(t2));
                        let w = choose|w: int| 0 <= w < old_order.len() && old_order[w] == t2;
                        if w < p {
                            assert(order@[w] == t2);
                        } else {
                            assert(order@[w + 1] == t2);
                        }
                    } else {
                        assert(order@[p as int] == t2);
                    }
                }
            }
        }
        k += 1;
    }
    proof {
        assert forall|t: usize| order@.contains(t) <==> opts@.contains(t) by {
            if opts@.contains(t) {
                let u = choose|u: int| 0 <= u < opts@.len() && opts@[u] == t;
                assert(opts@[u] == t);
            }
        }
    }
    order
}

/// Placing a listed copy that shares no cell with the placed ones keeps the state.
proof fn lemma_child_state(
    ov: Seq<Seq<(i32, i32)>>,
    region: Seq<(i32, i32)>,
    pls: Seq<Placement>,
    by_cell: Seq<Vec<usize>>,
    ids: Seq<(int, int, int)>,
    placed: Seq<(int, int, int)>,
    covered: Seq<bool>,
    occupied: Seq<(i32, i32)>,
    t: int,
    covered2: Seq<bool>,
    occupied2: Seq<(i32, i32)>,
)
    requires
        search_ctx(ov, region, pls, by_cell, ids),
        state_ok(ov, region, placed, covered, occupied),
        0 <= t < pls.len(),
        !clash(ov, ids, placed, t),
        covered2.len() == covered.len(),
        forall|r: int| 0 <= r < covered.len() ==> covered2[r] == (covered[r] || pls[t].cover@.contains(r as usize)),
        occupied2 == occupied + pls[t].cells@,
    ensures
        state_ok(ov, region, placed.push(ids[t]), covered2, occupied2),
{
    let p = ids[t];
    let placed2 = placed.push(p);
    assert(placement_is(pls[t], ov, region, p));
    let i0 = pls[t].cover@[0];
    assert(pls[t].cover@.contains(i0));
    assert(piece_has(ov, p, cell_at(region, i0 as int)));
    assert(touches(ov, region, p));
    assert forall|i: int| 0 <= i < placed2.len() implies #[trigger] touches(ov, region, placed2[i]) by {
        if i < placed.len() {
            assert(placed2[i] == placed[i]);
            assert(touches(ov, region, placed[i]));
        } else {
            assert(placed2[i] == p);
        }
    }
    assert forall|i: int, j: int| 0 <= i < j < placed2.len() implies !#[trigger] overlap(ov, placed2[i], placed2[j]) by {
        if j == placed.len() {
            if overlap(ov, placed2[i], placed2[j]) {
                let c = choose|c: (int, int)| #[trigger] piece_has(ov, placed2[i], c) && piece_has(ov, placed2[j], c);
                assert(overlap(ov, ids[t], placed[i]));
            }
        } else {
            assert(placed2[i] == placed[i] && placed2[j] == placed[j]);
        }
    }
    assert forall|c: (int, int)| #[trigger] occupies(occupied2, c) <==> exists|i: int| 0 <= i < placed2.len() && #[trigger] piece_has(ov, placed2[i], c) by {
        if occupies(occupied2, c) {
            let m = choose|m: int| 0 <= m < occupied2.len() && (occupied2[m].0 as int, occupied2[m].1 as int) == c;
            if m < occupied.len() {
                assert(occupies(occupied, c));
                let i = choose|i: int| 0 <= i < placed.len() && #[trigger] piece_has(ov, placed[i], c);
                assert(placed2[i] == placed[i]);
            } else {
                let k = m - occupied.len();
                assert(occupied2[m] == pls[t].cells@[k]);
                assert(shifted(ov, p, k) == c);
                assert(piece_has(ov, placed2[placed.len() as int], c));
            }
        }
        if exists|i: int| 0 <= i < placed2.len() && #[trigger] piece_has(ov, placed2[i], c) {
            let i = choose|i: int| 0 <= i < placed2.len() && #[trigger] piece_has(ov, placed2[i], c);
            if i < placed.len() {
                assert(placed2[i] == placed[i]);
                assert(occupies(occupied, c));
                let m = choose|m: int| 0 <= m < occupied.len() && (occupied[m].0 as int, occupied[m].1 as int) == c;
                assert(occupied2[m] == occupied[m]);
            } else {
                let k = choose|k: int| 0 <= k < ov[p.0].len() && #[trigger] shifted(ov, p, k) == c;
                assert(occupied2[occupied.len() + k] == pls[t].cells@[k]);
            }
        }
    }
    assert forall|r: int| 0 <= r < region.len() implies (covered2[r] <==> #[trigger] held(ov, region, placed2, r)) by {
        assert(covered[r] <==> held(ov, region, placed, r));
        if held(ov, region, placed, r) {
            let i = choose|i: int| 0 <= i < placed.len() && #[trigger] piece_has(ov, placed[i], cell_at(region, r));
            assert(placed2[i] == placed[i]);
        }
        if pls[t].cover@.contains(r as usize) {
            assert(piece_has(ov, placed2[placed.len() as int], cell_at(region, r)));
        }
        if held(ov, region, placed2, r) {
            let i = choose|i: int| 0 <= i < placed2.len() && #[trigger] piece_has(ov, placed2[i], cell_at(region, r));
            if i < placed.len() {
                assert(placed2[i] == placed[i]);
            }
        }
    }
    assert(forall|i: int, j: int| 0 <= i < j < placed2.len() ==> !#[trigger] overlap(ov, placed2[i], placed2[j]));
    assert(covered2.len() == region.len());
    assert(forall|r: int| 0 <= r < region.len() ==> (covered2[r] <==> #[trigger] held(ov, region, placed2, r)));
}

/// The most nodes a search `k` levels deep visits with at most `p` copies to try at each
/// node.
pub open spec fn node_bound(p: nat, k: nat) -> nat
    decreases k,
{
    if k == 0 {
        1
    } else {
        1 + p * node_bound(p, (k - 1) as nat)
    }
}

proof fn lemma_node_bound_mono(p: nat, k: nat, l: nat)
    requires
        k <= l,
    ensures
        1 <= node_bound(p, k) <= node_bound(p, l),
    decreases l,
{
    if l > 0 {
        if k < l {
            lemma_node_bound_mono(p, k, (l - 1) as nat);
        }
        lemma_node_bound_mono(p, 0, (l - 1) as nat);
        let b = node_bound(p, (l - 1) as nat);
        assert(p * b >= 0) by (nonlinear_arith)
            requires
                b >= 1,
        ;
        if p >= 1 {
            assert(p * b >= b) by (nonlinear_arith)
                requires
                    p >= 1,
                    b >= 1,
            ;
        }
    }
}

/// Strictly increasing indices below `p` are at most `p`.
proof fn lemma_increasing_len(s: Seq<usize>, p: int)
    requires
        0 <= p,
        forall|u: int| 0 <= u < s.len() ==> (#[trigger] s[u]) < p,
        forall|u: int, v: int| 0 <= u < v < s.len() ==> #[trigger] s[u] < #[trigger] s[v],
    ensures
        s.len() <= p,
    decreases s.len(),
{
    if s.len() > 0 {
        let t = s.drop_last();
        assert(s[s.len() - 1] < p);
        assert forall|u: int| 0 <= u < t.len() implies (#[trigger] t[u]) < s.last() by {
            assert(s[u] < s[s.len() - 1]);
        }
        lemma_increasing_len(t, s.last() as int);
    }
}

/// The number of set entries among the first `n`.
proof fn lemma_count_bounds(s: Seq<bool>, n: int)
    requires
        0 <= n <= s.len(),
    ensures
        crate::data::u256::count_true(s, 0, n) <= n,
        (exists|i: int| 0 <= i < n && !s[i]) ==> crate::data::u256::count_true(s, 0, n) < n,
    decreases n,
{
    if n > 0 {
        lemma_count_bounds(s, n - 1);
    }
}

/// Setting more entries, one of them newly, counts at least one more.
proof fn lemma_count_more(s: Seq<bool>, t: Seq<bool>, n: int, j: int)
    requires
        0 <= n <= s.len(),
        s.len() == t.len(),
        forall|i: int| 0 <= i < n && s[i] ==> t[i],
        0 <= j < n,
        !s[j],
        t[j],
    ensures
        crate::data::u256::count_true(t, 0, n) >= crate::data::u256::count_true(s, 0, n) + 1,
    decreases n,
{
    if n - 1 > j {
        lemma_count_more(s, t, n - 1, j);
    } else {
        lemma_count_mono(s, t, n - 1);
    }
}

proof fn lemma_count_mono(s: Seq<bool>, t: Seq<bool>, n: int)
    requires
        0 <= n <= s.len(),
        s.len() == t.len(),
        forall|i: int| 0 <= i < n && s[i] ==> t[i],
    ensures
        crate::data::u256::count_true(t, 0, n) >= crate::data::u256::count_true(s, 0, n),
    decreases n,
{
    if n > 0 {
        lemma_count_mono(s, t, n - 1);
    }
}

/// The cells of each copy.
pub open spec fn cells_of(pls: Seq<Placement>) -> Seq<Seq<(i32, i32)>> {
    Seq::new(pls.len(), |t: int| pls[t].cells@)
}

/// The region cells each copy holds.
pub open spec fn covers_of(pls: Seq<Placement>) -> Seq<Seq<usize>> {
    Seq::new(pls.len(), |t: int| pls[t].cover@)
}

/// The copies that hold each region cell.
pub open spec fn lists_of(by_cell: Seq<Vec<usize>>) -> Seq<Seq<usize>> {
    Seq::new(by_cell.len(), |i: int| by_cell[i]@)
}

/// The cells of a copy share none with `occ`.
pub open spec fn free_of(cells: Seq<(i32, i32)>, occ: Seq<(i32, i32)>) -> bool {
    !exists|k: int, m: int| 0 <= k < cells.len() && 0 <= m < occ.len() && #[trigger] cells[k] == #[trigger] occ[m]
}

/// The first `u` entries of `list` whose copies share no cell with `occ`, in order.
pub open spec fn free_prefix(list: Seq<usize>, cells: Seq<Seq<(i32, i32)>>, occ: Seq<(i32, i32)>, u: int) -> Seq<usize>
    decreases u,
{
    if u <= 0 {
        Seq::empty()
    } else {
        let p = free_prefix(list, cells, occ, u - 1);
        if free_of(cells[list[u - 1] as int], occ) {
            p.push(list[u - 1])
        } else {
            p
        }
    }
}

/// How many of the first `k` cells of `cover` are not yet covered.
pub open spec fn gain_prefix(cover: Seq<usize>, covered: Seq<bool>, k: int) -> nat
    decreases k,
{
    if k <= 0 {
        0
    } else {
        gain_prefix(cover, covered, k - 1) + if !covered[cover[k - 1] as int] { 1nat } else { 0nat }
    }
}

/// The first position from `p` on where the gains drop below `x` (or the end).
pub open spec fn first_below(g: Seq<usize>, x: usize, p: int) -> int
    decreases g.len() - p,
{
    if p >= g.len() || p < 0 || g[p] < x {
        p
    } else {
        first_below(g, x, p + 1)
    }
}

/// The first `k` options inserted one by one after all those of larger or equal gain:
/// the order, and the gains in it.
pub open spec fn order_prefix(opts: Seq<usize>, covers: Seq<Seq<usize>>, covered: Seq<bool>, k: int) -> (Seq<usize>, Seq<usize>)
    decreases k,
{
    if k <= 0 {
        (Seq::empty(), Seq::empty())
    } else {
        let (o, g) = order_prefix(opts, covers, covered, k - 1);
        let t = opts[k - 1];
        let gk = gain_prefix(covers[t as int], covered, covers[t as int].len() as int) as usize;
        let p = first_below(g, gk, 0);
        (o.insert(p, t), g.insert(p, gk))
    }
}

/// From cell `r` on, the uncovered cell with the fewest free copies, the first one on a
/// tie, stopping at one with a single copy; `None` when an uncovered cell has none.
pub open spec fn select(
    covered: Seq<bool>,
    occ: Seq<(i32, i32)>,
    lists: Seq<Seq<usize>>,
    cells: Seq<Seq<(i32, i32)>>,
    r: int,
    found: bool,
    cell: int,
    opts: Seq<usize>,
) -> Option<(int, Seq<usize>)>
    decreases covered.len() - r,
{
    if r >= covered.len() || r < 0 || (found && opts.len() == 1) {
        Some((cell, opts))
    } else if !covered[r] {
        let o = free_prefix(lists[r], cells, occ, lists[r].len() as int);
        if o.len() == 0 {
            None
        } else if !found || o.len() < opts.len() {
            select(covered, occ, lists, cells, r + 1, true, r, o)
        } else {
            select(covered, occ, lists, cells, r + 1, found, cell, opts)
        }
    } else {
        select(covered, occ, lists, cells, r + 1, found, cell, opts)
    }
}

/// `covered` with the cells of `cover` set.
pub open spec fn cover_with(covered: Seq<bool>, cover: Seq<usize>) -> Seq<bool> {
    Seq::new(covered.len(), |i: int| covered[i] || cover.contains(i as usize))
}

/// The answer and the number of nodes of the depth-first search below a node, without a
/// budget: `cells`, `covers` and `lists` are the copies' cells, the region cells each
/// copy holds, and the copies that hold each region cell.
pub open spec fn search(
    cells: Seq<Seq<(i32, i32)>>,
    covers: Seq<Seq<usize>>,
    lists: Seq<Seq<usize>>,
    max_depth: int,
    covered: Seq<bool>,
    occ: Seq<(i32, i32)>,
    depth: int,
) -> (Tri, nat)
    decreases max_depth - depth, 1int, 0int,
{
    if forall|r: int| 0 <= r < covered.len() ==> covered[r] {
        (if depth >= 2 { Tri::Yes } else { Tri::No }, 1)
    } else if depth >= max_depth {
        (Tri::No, 1)
    } else {
        match select(covered, occ, lists, cells, 0, false, 0, Seq::empty()) {
            None => (Tri::No, 1),
            Some(picked) => {
                let order = order_prefix(picked.1, covers, covered, picked.1.len() as int).0;
                let c = children(cells, covers, lists, max_depth, covered, occ, depth, order, 0);
                (c.0, 1 + c.1)
            },
        }
    }
}

/// The search below the children of a node, from the `k`-th copy of `order` on, up to
/// the first that does not answer `No`.
pub open spec fn children(
    cells: Seq<Seq<(i32, i32)>>,
    covers: Seq<Seq<usize>>,
    lists: Seq<Seq<usize>>,
    max_depth: int,
    covered: Seq<bool>,
    occ: Seq<(i32, i32)>,
    depth: int,
    order: Seq<usize>,
    k: int,
) -> (Tri, nat)
    decreases max_depth - depth, 0int, order.len() - k,
{
    if depth >= max_depth || k >= order.len() || k < 0 {
        (Tri::No, 0)
    } else {
        let t = order[k] as int;
        let a = search(cells, covers, lists, max_depth, cover_with(covered, covers[t]), occ + cells[t], depth + 1);
        if a.0 == Tri::No {
            let b = children(cells, covers, lists, max_depth, covered, occ, depth, order, k + 1);
            (b.0, a.1 + b.1)
        } else {
            a
        }
    }
}

/// The levels the search below a node can still go down: no further than the depth limit,
/// and no further than the cells of the region left uncovered.
pub open spec fn levels_left(max_depth: int, depth: int, region_len: int, covered: Seq<bool>) -> nat {
    let a = max_depth - depth;
    let b = region_len - crate::data::u256::count_true(covered, 0, region_len);
    (if a <= b { a } else { b }) as nat
}

/// The most nodes the search below a node visits, with `p` copies in all.
pub open spec fn search_budget(p: nat, max_depth: int, depth: int, covered: Seq<bool>) -> nat {
    node_bound(p, levels_left(max_depth, depth, covered.len() as int, covered))
}

/// The copies of the orientations that meet the region.
pub open spec fn copies(ov: Seq<Seq<(i32, i32)>>, region: Seq<(i32, i32)>) -> Set<(int, int, int)> {
    Set::new(|p: (int, int, int)| 0 <= p.0 < ov.len() && touches(ov, region, p))
}

/// The search below the copies placed so far: `Yes` when it finds a cover by at least two
/// and at most `max_depth` copies, `No` when there is none with the placed copies, `Unknown`
/// when it has visited more than `node_limit` nodes.
fn dfs(
    covered: &Vec<bool>,
    occupied: &mut Vec<(i32, i32)>,
    depth: usize,
    pls: &Vec<Placement>,
    by_cell: &Vec<Vec<usize>>,
    nodes: &mut usize,
    node_limit: usize,
    max_depth: usize,
    Ghost(ov): Ghost<Seq<Seq<(i32, i32)>>>,
    Ghost(region): Ghost<Seq<(i32, i32)>>,
    Ghost(ids): Ghost<Seq<(int, int, int)>>,
    Ghost(placed): Ghost<Seq<(int, int, int)>>,
) -> (r: Tri)
    requires
        search_ctx(ov, region, pls@, by_cell@, ids),
        state_ok(ov, region, placed, covered@, old(occupied)@),
        placed.len() == depth,
        depth <= max_depth,
        *old(nodes) <= node_limit,
        node_limit < usize::MAX,
    ensures
        final(occupied)@ == old(occupied)@,
        r != Tri::Unknown ==> *final(nodes) <= node_limit,
        r == Tri::Yes ==> exists|q: Seq<(int, int, int)>| #[trigger] disjoint_cover(ov, region, q) && 2 <= q.len() <= max_depth,
        r == Tri::No ==> no_multi_cover(ov, region, placed, max_depth as int),
        *old(nodes) + search_budget(pls.len() as nat, max_depth as int, depth as int, covered@) <= node_limit ==> r != Tri::Unknown
            && *final(nodes) <= *old(nodes) + search_budget(pls.len() as nat, max_depth as int, depth as int, covered@),
        ({
            let a = search(cells_of(pls@), covers_of(pls@), lists_of(by_cell@), max_depth as int, covered@, old(occupied)@, depth as int);
            &&& *old(nodes) + a.1 <= node_limit ==> r == a.0 && r != Tri::Unknown && *final(nodes) == *old(nodes) + a.1
            &&& *old(nodes) + a.1 > node_limit ==> r == Tri::Unknown
        }),
    decreases max_depth - depth,
{
    let ghost n0: int = *nodes as int;
    let ghost sa = search(cells_of(pls@), covers_of(pls@), lists_of(by_cell@), max_depth as int, covered@, occupied@, depth as int);
    proof {
        assert(sa.1 >= 1);
    }
    let ghost lv: nat = levels_left(max_depth as int, depth as int, covered.len() as int, covered@);
    let ghost big: nat = search_budget(pls.len() as nat, max_depth as int, depth as int, covered@);
    proof {
        lemma_count_bounds(covered@, covered.len() as int);
        lemma_node_bound_mono(pls.len() as nat, 0, lv);
    }
    *nodes = *nodes + 1;
    if *nodes > node_limit {
        return Tri::Unknown;
    }
    let mut all = true;
    let mut r0: usize = 0;
    while r0 < covered.len()
        invariant
            r0 <= covered.len(),
            all == forall|r: int| 0 <= r < r0 ==> covered@[r],
        decreases covered.len() - r0,
    {
        if !covered[r0] {
            all = false;
        }
        r0 += 1;
    }
    if all {
        if depth >= 2 {
            proof {
                assert(disjoint_cover(ov, region, placed));
            }
            return Tri::Yes;
        } else {
            proof {
                assert forall|q: Seq<(int, int, int)>| #[trigger] disjoint_cover(ov, region, q) && q.len() <= max_depth && extends(q, placed) implies q.len() < 2 by {
                    lemma_cover_size(ov, region, placed, covered@, occupied@, q);
                }
            }
            return Tri::No;
        }
    }
    if depth >= max_depth {
        proof {
            assert forall|q: Seq<(int, int, int)>| #[trigger] disjoint_cover(ov, region, q) && q.len() <= max_depth && extends(q, placed) implies q.len() < 2 by {
                lemma_cover_size(ov, region, placed, covered@, occupied@, q);
            }
        }
        return Tri::No;
    }
    // The uncovered cell held by the fewest copies that fit.
    let mut best_found = false;
    let mut best_cell: usize = 0;
    let mut best_opts: Vec<usize> = Vec::new();
    let mut done = false;
    let mut r: usize = 0;
    while r < covered.len() && !done
        invariant
            search_ctx(ov, region, pls@, by_cell@, ids),
            state_ok(ov, region, placed, covered@, occupied@),
            r <= covered.len(),
            *nodes <= node_limit,
            *nodes == n0 + 1,
            n0 == *old(nodes),
            !(forall|r2: int| 0 <= r2 < covered@.len() ==> covered@[r2]),
            depth < max_depth,
            sa == search(cells_of(pls@), covers_of(pls@), lists_of(by_cell@), max_depth as int, covered@, occupied@, depth as int),
            select(covered@, occupied@, lists_of(by_cell@), cells_of(pls@), 0, false, 0, Seq::empty()) == select(
                covered@,
                occupied@,
                lists_of(by_cell@),
                cells_of(pls@),
                r as int,
                best_found,
                best_cell as int,
                best_opts@,
            ),
            done == (best_found && best_opts@.len() == 1),
            big >= 1,
            big == search_budget(pls.len() as nat, max_depth as int, depth as int, covered@),
            done ==> best_found,
            !best_found ==> forall|r2: int| 0 <= r2 < r ==> covered@[r2],
            best_found ==> best_cell < covered.len() && !covered@[best_cell as int],
            best_found ==> forall|t: usize| best_opts@.contains(t) <==> by_cell@[best_cell as int]@.contains(t) && !clash(ov, ids, placed, t as int),
            best_found ==> best_opts@.len() <= by_cell@[best_cell as int]@.len(),
            forall|t: int| 0 <= t < best_opts@.len() ==> (#[trigger] best_opts@[t]) < pls.len(),
        decreases covered.len() - r,
    {
        if !covered[r] {
            let opts = options(r, by_cell, pls, occupied);
            proof {
                assert(lists_of(by_cell@)[r as int] == by_cell@[r as int]@);
            }
            proof {
                assert forall|t: usize| opts@.contains(t) <==> by_cell@[r as int]@.contains(t) && !clash(ov, ids, placed, t as int) by {
                    if by_cell@[r as int]@.contains(t) {
                        let u = choose|u: int| 0 <= u < by_cell@[r as int]@.len() && by_cell@[r as int]@[u] == t;
                        assert(by_cell@[r as int]@[u] < pls.len());
                        lemma_clash(ov, region, pls@[t as int], ids, t as int, placed, covered@, occupied@);
                    }
                }
            }
            if opts.len() == 0 {
                proof {
                    assert forall|q: Seq<(int, int, int)>| #[trigger] disjoint_cover(ov, region, q) && q.len() <= max_depth && extends(q, placed) implies q.len() < 2 by {
                        let t = lemma_next_copy(ov, region, pls@, by_cell@, ids, placed, covered@, occupied@, q, r as int);
                        assert(opts@.contains(t as usize));
                    }
                }
                return Tri::No;
            }
            if !best_found || opts.len() < best_opts.len() {
                best_found = true;
                best_cell = r;
                best_opts = opts;
                if best_opts.len() == 1 {
                    done = true;
                }
            }
        }
        r += 1;
    }
    proof {
        if !best_found {
            assert(forall|r2: int| 0 <= r2 < covered.len() ==> covered@[r2]);
            assert(false);
        }
    }
    proof {
        assert forall|t: int, u: int| 0 <= t < pls.len() && 0 <= u < pls@[t].cover@.len() implies (#[trigger] pls@[t].cover@[u]) < covered.len() by {
            assert(placement_is(pls@[t], ov, region, ids[t]));
        }
    }
    let order = order_by_gain(&best_opts, pls, covered);
    let ghost cc = children(cells_of(pls@), covers_of(pls@), lists_of(by_cell@), max_depth as int, covered@, occupied@, depth as int, order@, 0);
    proof {
        assert(sa == (cc.0, 1 + cc.1));
    }
    let ghost p: nat = pls.len() as nat;
    let ghost mm: nat = node_bound(p, (lv - 1) as nat);
    proof {
        lemma_increasing_len(by_cell@[best_cell as int]@, pls.len() as int);
        lemma_count_bounds(covered@, covered.len() as int);
        assert(lv >= 1);
        assert(big == 1 + p * mm);
        lemma_node_bound_mono(p, 0, (lv - 1) as nat);
    }
    let ghost occ0 = occupied@;
    let mut k: usize = 0;
    while k < order.len()
        invariant
            search_ctx(ov, region, pls@, by_cell@, ids),
            state_ok(ov, region, placed, covered@, occupied@),
            occupied@ == occ0,
            occ0 == old(occupied)@,
            placed.len() == depth,
            depth < max_depth,
            *nodes <= node_limit,
            node_limit < usize::MAX,
            k <= order.len(),
            forall|t: usize| order@.contains(t) <==> best_opts@.contains(t),
            best_cell < covered.len() && !covered@[best_cell as int],
            forall|t: usize| best_opts@.contains(t) <==> by_cell@[best_cell as int]@.contains(t) && !clash(ov, ids, placed, t as int),
            forall|t: int| 0 <= t < best_opts@.len() ==> (#[trigger] best_opts@[t]) < pls.len(),
            forall|u: int| 0 <= u < k ==> no_multi_cover(ov, region, placed.push(ids[#[trigger] order@[u] as int]), max_depth as int),
            order@.len() <= p,
            p == pls.len(),
            lv >= 1,
            lv == levels_left(max_depth as int, depth as int, covered.len() as int, covered@),
            mm == node_bound(p, (lv - 1) as nat),
            big == 1 + p * mm,
            big == search_budget(pls.len() as nat, max_depth as int, depth as int, covered@),
            n0 + big <= node_limit ==> *nodes <= n0 + 1 + k * mm,
            n0 == *old(nodes),
            sa == (cc.0, 1 + cc.1),
            sa == search(cells_of(pls@), covers_of(pls@), lists_of(by_cell@), max_depth as int, covered@, old(occupied)@, depth as int),
            ({
                let ck = children(cells_of(pls@), covers_of(pls@), lists_of(by_cell@), max_depth as int, covered@, occ0, depth as int, order@, k as int);
                cc.0 == ck.0 && cc.1 == (*nodes - n0 - 1) + ck.1
            }),
        decreases order.len() - k,
    {
        let pi = order[k];
        proof {
            assert(order@.contains(pi));
            assert(best_opts@.contains(pi));
            let w = choose|w: int| 0 <= w < best_opts@.len() && best_opts@[w] == pi;
            assert(best_opts@[w] < pls.len());
            assert(placement_is(pls@[pi as int], ov, region, ids[pi as int]));
        }
        let pl = &pls[pi];
        let mut cov2: Vec<bool> = Vec::new();
        let mut i: usize = 0;
        while i < covered.len()
            invariant
                i <= covered.len(),
                cov2@ == covered@.subrange(0, i as int),
            decreases covered.len() - i,
        {
            cov2.push(covered[i]);
            i += 1;
        }
        let mut u: usize = 0;
        while u < pl.cover.len()
            invariant
                placement_is(*pl, ov, region, ids[pi as int]),
                covered.len() == region.len(),
                u <= pl.cover.len(),
                cov2@.len() == covered@.len(),
                forall|r2: int| 0 <= r2 < covered.len() ==> cov2@[r2] == (covered@[r2] || exists|u2: int| 0 <= u2 < u && #[trigger] pl.cover@[u2] == r2 as usize),
            decreases pl.cover.len() - u,
        {
            cov2.set(pl.cover[u], true);
            u += 1;
        }
        let old_len = occupied.len();
        let mut c: usize = 0;
        while c < pl.cells.len()
            invariant
                c <= pl.cells.len(),
                occupied@ == occ0 + pl.cells@.subrange(0, c as int),
                old_len == occ0.len(),
            decreases pl.cells.len() - c,
        {
            occupied.push(pl.cells[c]);
            c += 1;
        }
        proof {
            assert(pl.cells@.subrange(0, pl.cells@.len() as int) =~= pl.cells@);
            assert forall|r2: int| 0 <= r2 < covered.len() implies cov2@[r2] == (covered@[r2] || pl.cover@.contains(r2 as usize)) by {
                if pl.cover@.contains(r2 as usize) {
                    let u2 = choose|u2: int| 0 <= u2 < pl.cover@.len() && pl.cover@[u2] == r2 as usize;
                    assert(pl.cover@[u2] == r2 as usize);
                }
            }
            lemma_child_state(ov, region, pls@, by_cell@, ids, placed, covered@, occ0, pi as int, cov2@, occupied@);
            assert(by_cell@[best_cell as int]@.contains(pi));
            assert(piece_has(ov, ids[pi as int], cell_at(region, best_cell as int)));
            assert(pl.cover@.contains(best_cell as usize));
            assert(cov2@[best_cell as int]);
            lemma_count_more(covered@, cov2@, covered.len() as int, best_cell as int);
            lemma_count_bounds(cov2@, covered.len() as int);
            let lc = levels_left(max_depth as int, depth + 1, cov2@.len() as int, cov2@);
            assert(lc <= lv - 1);
            lemma_node_bound_mono(p, lc, (lv - 1) as nat);
            assert((k + 1) * mm <= p * mm) by (nonlinear_arith)
                requires
                    k + 1 <= p,
            ;
            assert(k * mm + mm == (k + 1) * mm) by (nonlinear_arith);
        }
        let ghost nb: int = *nodes as int;
        proof {
            assert(cells_of(pls@)[pi as int] == pl.cells@);
            assert(covers_of(pls@)[pi as int] == pl.cover@);
            assert(cov2@ =~= cover_with(covered@, pl.cover@));
            assert(occupied@ =~= occ0 + pl.cells@);
        }
        let res = dfs(
            &cov2,
            occupied,
            depth + 1,
            pls,
            by_cell,
            nodes,
            node_limit,
            max_depth,
            Ghost(ov),
            Ghost(region),
            Ghost(ids),
            Ghost(placed.push(ids[pi as int])),
        );
        occupied.truncate(old_len);
        proof {
            assert(occupied@ =~= occ0);
            let t = order@[k as int] as int;
            assert(t == pi as int);
            let ach = search(cells_of(pls@), covers_of(pls@), lists_of(by_cell@), max_depth as int, cover_with(covered@, covers_of(pls@)[t]), occ0 + cells_of(pls@)[t], depth + 1);
            let ck = children(cells_of(pls@), covers_of(pls@), lists_of(by_cell@), max_depth as int, covered@, occ0, depth as int, order@, k as int);
            let ck1 = children(cells_of(pls@), covers_of(pls@), lists_of(by_cell@), max_depth as int, covered@, occ0, depth as int, order@, k + 1);
            assert(ck == if ach.0 == Tri::No { (ck1.0, ach.1 + ck1.1) } else { ach });
            assert(nb + ach.1 <= node_limit ==> res == ach.0 && res != Tri::Unknown && *nodes == nb + ach.1);
            assert(nb + ach.1 > node_limit ==> res == Tri::Unknown);
            let ck0 = children(cells_of(pls@), covers_of(pls@), lists_of(by_cell@), max_depth as int, covered@, occ0, depth as int, order@, k as int);
            assert(cc.0 == ck0.0 && cc.1 == (nb - n0 - 1) + ck0.1);
            if res == Tri::Yes {
                assert(ach.0 == Tri::Yes);
                assert(sa.0 == Tri::Yes);
                assert(sa.1 == *nodes - n0);
            }
            if res == Tri::Unknown {
                assert(nb + ach.1 > node_limit);
                assert(ck0.1 >= ach.1);
                assert(n0 + sa.1 > node_limit);
            }
        }
        assert(n0 + big <= node_limit ==> res != Tri::Unknown && *nodes <= n0 + 1 + (k + 1) * mm);
        match res {
            Tri::Yes => {
                return Tri::Yes;
            },
            Tri::Unknown => {
                return Tri::Unknown;
            },
            Tri::No => {},
        }
        k += 1;
    }
    proof {
        assert forall|q: Seq<(int, int, int)>| #[trigger] disjoint_cover(ov, region, q) && q.len() <= max_depth && extends(q, placed) implies q.len() < 2 by {
            let t = lemma_next_copy(ov, region, pls@, by_cell@, ids, placed, covered@, occupied@, q, best_cell as int);
            assert(best_opts@.contains(t as usize));
            assert(order@.contains(t as usize));
            let u = choose|u: int| 0 <= u < order@.len() && order@[u] == t as usize;
            assert(no_multi_cover(ov, region, placed.push(ids[order@[u] as int]), max_depth as int));
            assert(extends(q, placed.push(ids[t])));
        }
        assert(order@.len() * mm <= p * mm) by (nonlinear_arith)
            requires
                order@.len() <= p,
        ;
    }
    Tri::No
}

/// `a` is strictly increasing under `lt`.
pub open spec fn increasing<A>(a: Seq<A>, lt: spec_fn(A, A) -> bool) -> bool {
    forall|i: int, j: int| 0 <= i < j < a.len() ==> lt(#[trigger] a[i], #[trigger] a[j])
}

/// Two sequences strictly increasing under the same strict order, with the same members,
/// are equal.
pub proof fn lemma_sorted_unique<A>(a: Seq<A>, b: Seq<A>, lt: spec_fn(A, A) -> bool)
    requires
        forall|x: A| !#[trigger] lt(x, x),
        forall|x: A, y: A, z: A| #[trigger] lt(x, y) && #[trigger] lt(y, z) ==> lt(x, z),
        increasing(a, lt),
        increasing(b, lt),
        forall|x: A| a.contains(x) <==> b.contains(x),
    ensures
        a == b,
    decreases a.len(),
{
    if a.len() == 0 {
        if b.len() > 0 {
            assert(b.contains(b[0]));
        }
        assert(a =~= b);
    } else {
        if b.len() == 0 {
            assert(a.contains(a[0]));
        }
        assert(a.contains(a[0]));
        assert(b.contains(b[0]));
        let j = choose|j: int| 0 <= j < b.len() && b[j] == a[0];
        let i = choose|i: int| 0 <= i < a.len() && a[i] == b[0];
        if j > 0 {
            assert(lt(b[0], b[j]));
            if i > 0 {
                assert(lt(a[0], a[i]));
            }
        }
        assert(a[0] == b[0]);
        let a1 = a.drop_first();
        let b1 = b.drop_first();
        assert forall|x: A| a1.contains(x) <==> b1.contains(x) by {
            if a1.contains(x) {
                let u = choose|u: int| 0 <= u < a1.len() && a1[u] == x;
                assert(lt(a[0], a[u + 1]));
                assert(b.contains(x));
                let w = choose|w: int| 0 <= w < b.len() && b[w] == x;
                if w == 0 {
                    assert(lt(x, x));
                }
                assert(b1[w - 1] == x);
            }
            if b1.contains(x) {
                let u = choose|u: int| 0 <= u < b1.len() && b1[u] == x;
                assert(lt(b[0], b[u + 1]));
                assert(a.contains(x));
                let w = choose|w: int| 0 <= w < a.len() && a[w] == x;
                if w == 0 {
                    assert(lt(x, x));
                }
                assert(a1[w - 1] == x);
            }
        }
        assert forall|i2: int, j2: int| 0 <= i2 < j2 < a1.len() implies lt(#[trigger] a1[i2], #[trigger] a1[j2]) by {
            assert(lt(a[i2 + 1], a[j2 + 1]));
        }
        assert forall|i2: int, j2: int| 0 <= i2 < j2 < b1.len() implies lt(#[trigger] b1[i2], #[trigger] b1[j2]) by {
            assert(lt(b[i2 + 1], b[j2 + 1]));
        }
        lemma_sorted_unique(a1, b1, lt);
        assert(a =~= b) by {
            assert forall|k: int| 0 <= k < a.len() implies a[k] == b[k] by {
                if k > 0 {
                    assert(a[k] == a1[k - 1]);
                    assert(b[k] == b1[k - 1]);
                }
            }
        }
    }
}

/// The order of copies: by orientation, then row move, then column move.
pub open spec fn lex3_lt() -> spec_fn((int, int, int), (int, int, int)) -> bool {
    |a: (int, int, int), b: (int, int, int)| lex3(a, b)
}

/// The order of indices.
pub open spec fn index_lt() -> spec_fn(usize, usize) -> bool {
    |a: usize, b: usize| a < b
}

/// The tables the search runs on: the copies that meet the region in increasing order
/// (`ids`), the cells of each, the region cells each holds in increasing order, and for
/// each region cell the copies that hold it in increasing order.
pub open spec fn tables(
    ov: Seq<Seq<(i32, i32)>>,
    region: Seq<(i32, i32)>,
    t: (Seq<(int, int, int)>, Seq<Seq<(i32, i32)>>, Seq<Seq<usize>>, Seq<Seq<usize>>),
) -> bool {
    let (ids, cells, covers, lists) = t;
    &&& increasing(ids, lex3_lt())
    &&& forall|p: (int, int, int)| ids.contains(p) <==> copies(ov, region).contains(p)
    &&& cells.len() == ids.len()
    &&& covers.len() == ids.len()
    &&& forall|u: int| #![trigger cells[u]] 0 <= u < ids.len() ==> cells[u].len() == ov[ids[u].0].len() && forall|k: int|
        0 <= k < cells[u].len() ==> (#[trigger] cells[u][k].0 as int, cells[u][k].1 as int) == shifted(ov, ids[u], k)
    &&& forall|u: int| #![trigger covers[u]] 0 <= u < ids.len() ==> increasing(covers[u], index_lt()) && forall|i: usize|
        #[trigger] covers[u].contains(i) <==> (i < region.len() && piece_has(ov, ids[u], cell_at(region, i as int)))
    &&& lists.len() == region.len()
    &&& forall|i: int| #![trigger lists[i]] 0 <= i < region.len() ==> increasing(lists[i], index_lt()) && forall|u: usize|
        #[trigger] lists[i].contains(u) <==> (u < ids.len() && piece_has(ov, ids[u as int], cell_at(region, i)))
}

/// Tables are determined by the input.
pub proof fn lemma_tables_unique(
    ov: Seq<Seq<(i32, i32)>>,
    region: Seq<(i32, i32)>,
    t1: (Seq<(int, int, int)>, Seq<Seq<(i32, i32)>>, Seq<Seq<usize>>, Seq<Seq<usize>>),
    t2: (Seq<(int, int, int)>, Seq<Seq<(i32, i32)>>, Seq<Seq<usize>>, Seq<Seq<usize>>),
)
    requires
        tables(ov, region, t1),
        tables(ov, region, t2),
    ensures
        t1 == t2,
{
    let lt3 = lex3_lt();
    let lti = index_lt();
    assert forall|x: (int, int, int), y: (int, int, int), z: (int, int, int)| #[trigger] lt3(x, y) && #[trigger] lt3(y, z) implies lt3(x, z) by {}
    assert forall|x: usize, y: usize, z: usize| #[trigger] lti(x, y) && #[trigger] lti(y, z) implies lti(x, z) by {}
    lemma_sorted_unique(t1.0, t2.0, lt3);
    let ids = t1.0;
    assert(t1.1 =~= t2.1) by {
        assert forall|u: int| 0 <= u < ids.len() implies t1.1[u] == t2.1[u] by {
            assert(t1.1[u].len() == t2.1[u].len());
            assert(t1.1[u] =~= t2.1[u]) by {
                assert forall|k: int| 0 <= k < t1.1[u].len() implies t1.1[u][k] == t2.1[u][k] by {
                    assert((t1.1[u][k].0 as int, t1.1[u][k].1 as int) == shifted(ov, ids[u], k));
                    assert((t2.1[u][k].0 as int, t2.1[u][k].1 as int) == shifted(ov, ids[u], k));
                }
            }
        }
    }
    assert(t1.2 =~= t2.2) by {
        assert forall|u: int| 0 <= u < ids.len() implies t1.2[u] == t2.2[u] by {
            assert forall|i: usize| t1.2[u].contains(i) <==> t2.2[u].contains(i) by {}
            lemma_sorted_unique(t1.2[u], t2.2[u], lti);
        }
    }
    assert(t1.3 =~= t2.3) by {
        assert forall|i: int| 0 <= i < region.len() implies t1.3[i] == t2.3[i] by {
            assert forall|u: usize| t1.3[i].contains(u) <==> t2.3[i].contains(u) by {}
            lemma_sorted_unique(t1.3[i], t2.3[i], lti);
        }
    }
}

/// The tables of the input.
pub open spec fn tables_of(ov: Seq<Seq<(i32, i32)>>, region: Seq<(i32, i32)>) -> (
    Seq<(int, int, int)>,
    Seq<Seq<(i32, i32)>>,
    Seq<Seq<usize>>,
    Seq<Seq<usize>>,
) {
    choose|t: (Seq<(int, int, int)>, Seq<Seq<(i32, i32)>>, Seq<Seq<usize>>, Seq<Seq<usize>>)| tables(ov, region, t)
}

/// The answer and the number of nodes of the whole search, without a budget, from no copy
/// placed.
pub open spec fn whole_search(ov: Seq<Seq<(i32, i32)>>, region: Seq<(i32, i32)>, max_depth: int) -> (Tri, nat) {
    let t = tables_of(ov, region);
    search(t.1, t.2, t.3, max_depth, Seq::new(region.len(), |i: int| false), Seq::empty(), 0)
}

/// Whether the region can be covered by at least two and at most `max_depth` copies of the
/// orientations that share no cell, each meeting the region: `Yes` when such a cover is
/// found, `No` when there is none, `Unknown` when the search visits more than `node_limit`
/// nodes first. The search visits at most `node_bound(c, l)` nodes, with `c` the copies that
/// meet the region and `l` the lesser of `max_depth` and the number of cells: with a
/// `node_limit` that large the answer is never `Unknown`.
pub fn has_multi(orients: &Vec<Vec<(i32, i32)>>, region: &Vec<(i32, i32)>, node_limit: usize, max_depth: usize) -> (r: Tri)
    requires
        search_input(orients_view(orients@), region@),
        node_limit < usize::MAX,
    ensures
        r == Tri::Yes ==> exists|q: Seq<(int, int, int)>| #[trigger] disjoint_cover(orients_view(orients@), region@, q) && 2 <= q.len() <= max_depth,
        r == Tri::No ==> forall|q: Seq<(int, int, int)>| #[trigger] disjoint_cover(orients_view(orients@), region@, q) && q.len() <= max_depth ==> q.len() < 2,
        node_limit >= node_bound(
            copies(orients_view(orients@), region@).len(),
            if max_depth <= region.len() { max_depth as nat } else { region.len() as nat },
        ) ==> r != Tri::Unknown,
        r == Tri::Unknown <==> whole_search(orients_view(orients@), region@, max_depth as int).1 > node_limit,
        r != Tri::Unknown ==> r == whole_search(orients_view(orients@), region@, max_depth as int).0,
{
    let ghost ov = orients_view(orients@);
    let (pls, by_cell, Ghost(ids)) = build_placements(orients, region);
    let mut covered: Vec<bool> = Vec::new();
    while covered.len() < region.len()
        invariant
            covered.len() <= region.len(),
            forall|i: int| 0 <= i < covered.len() ==> !covered@[i],
        decreases region.len() - covered.len(),
    {
        covered.push(false);
    }
    let mut occupied: Vec<(i32, i32)> = Vec::new();
    let mut nodes: usize = 0;
    let ghost placed: Seq<(int, int, int)> = Seq::empty();
    proof {
        assert forall|r: int| 0 <= r < region.len() implies (covered@[r] <==> #[trigger] held(ov, region@, placed, r)) by {}
        assert forall|c: (int, int)| #[trigger] occupies(occupied@, c) <==> exists|i: int| 0 <= i < placed.len() && #[trigger] piece_has(ov, placed[i], c) by {}
    }
    proof {
        crate::data::u256::lemma_count_none(covered@, 0, covered.len() as int);
        assert forall|p: (int, int, int)| ids.contains(p) <==> copies(ov, region@).contains(p) by {
            if ids.contains(p) {
                let t = choose|t: int| 0 <= t < ids.len() && ids[t] == p;
                assert(placement_is(pls@[t], ov, region@, ids[t]));
                let c = pls@[t].cover@[0];
                assert(pls@[t].cover@.contains(c));
                assert(piece_has(ov, p, cell_at(region@, c as int)));
            }
        }
        assert(ids.to_set() =~= copies(ov, region@));
        assert forall|i: int, j: int| 0 <= i < ids.len() && 0 <= j < ids.len() && i != j implies ids[i] != ids[j] by {
            if i < j {
                assert(lex3(ids[i], ids[j]));
            } else {
                assert(lex3(ids[j], ids[i]));
            }
        }
        assert(ids.no_duplicates());
        ids.unique_seq_to_set();
        let te = (ids, cells_of(pls@), covers_of(pls@), lists_of(by_cell@));
        assert(tables(ov, region@, te)) by {
            assert forall|p: (int, int, int)| ids.contains(p) <==> copies(ov, region@).contains(p) by {}
            assert forall|u: int| 0 <= u < ids.len() implies te.1[u].len() == ov[ids[u].0].len() && forall|k: int|
                0 <= k < te.1[u].len() ==> (#[trigger] te.1[u][k].0 as int, te.1[u][k].1 as int) == shifted(ov, ids[u], k) by {
                assert(placement_is(pls@[u], ov, region@, ids[u]));
                assert forall|k: int| 0 <= k < te.1[u].len() implies (#[trigger] te.1[u][k].0 as int, te.1[u][k].1 as int) == shifted(ov, ids[u], k) by {
                    assert(te.1[u][k] == pls@[u].cells@[k]);
                }
            }
            assert forall|u: int| 0 <= u < ids.len() implies increasing(te.2[u], index_lt()) && forall|i: usize|
                #[trigger] te.2[u].contains(i) <==> (i < region@.len() && piece_has(ov, ids[u], cell_at(region@, i as int))) by {
                assert(placement_is(pls@[u], ov, region@, ids[u]));
                assert(te.2[u] == pls@[u].cover@);
                assert forall|i: usize| #[trigger] te.2[u].contains(i) implies i < region@.len() by {
                    let w = choose|w: int| 0 <= w < te.2[u].len() && te.2[u][w] == i;
                    assert(pls@[u].cover@[w] < region@.len());
                }
                assert forall|a: int, b: int| 0 <= a < b < te.2[u].len() implies index_lt()(#[trigger] te.2[u][a], #[trigger] te.2[u][b]) by {}
            }
            assert forall|i: int| 0 <= i < region@.len() implies increasing(te.3[i], index_lt()) && forall|u: usize|
                #[trigger] te.3[i].contains(u) <==> (u < ids.len() && piece_has(ov, ids[u as int], cell_at(region@, i))) by {
                assert(te.3[i] == by_cell@[i]@);
                assert forall|u: usize| #[trigger] te.3[i].contains(u) implies u < ids.len() by {
                    let w = choose|w: int| 0 <= w < te.3[i].len() && te.3[i][w] == u;
                    assert(by_cell@[i]@[w] < pls.len());
                }
                assert forall|a: int, b: int| 0 <= a < b < te.3[i].len() implies index_lt()(#[trigger] te.3[i][a], #[trigger] te.3[i][b]) by {
                    assert(by_cell@[i]@[a] < by_cell@[i]@[b]);
                }
            }
            assert forall|a: int, b: int| 0 <= a < b < ids.len() implies lex3_lt()(#[trigger] ids[a], #[trigger] ids[b]) by {
                assert(lex3(ids[a], ids[b]));
            }
        }
        lemma_tables_unique(ov, region@, te, tables_of(ov, region@));
        assert(covered@ =~= Seq::new(region@.len(), |i: int| false));
        assert(occupied@ =~= Seq::<(i32, i32)>::empty());
    }
    let r = dfs(&covered, &mut occupied, 0, &pls, &by_cell, &mut nodes, node_limit, max_depth, Ghost(ov), Ghost(region@), Ghost(ids), Ghost(placed));
    proof {
        if r == Tri::No {
            assert forall|q: Seq<(int, int, int)>| #[trigger] disjoint_cover(ov, region@, q) && q.len() <= max_depth implies q.len() < 2 by {
                assert(extends(q, placed));
            }
        }
    }
    r
}

/// What the search knows of a candidate: its orientations, the regions whose covers are
/// asked for, its size and holes, and its rows as text.
pub struct Context {
    pub all_or: Vec<Vec<(i32, i32)>>,
    pub regions: Vec<Vec<(i32, i32)>>,
    pub size: usize,
    pub holes: usize,
    pub rows: Vec<String>,
}

/// The answer of the search on a budget: `Unknown` when the whole search takes more than
/// `limit` nodes, its answer otherwise.
pub open spec fn budgeted(ov: Seq<Seq<(i32, i32)>>, region: Seq<(i32, i32)>, limit: int, depth: int) -> Tri {
    let w = whole_search(ov, region, depth);
    if w.1 > limit {
        Tri::Unknown
    } else {
        w.0
    }
}

/// The first answer other than `No` among the regions from the `i`-th on, or `No`.
pub open spec fn first_multi(ov: Seq<Seq<(i32, i32)>>, regions: Seq<Seq<(i32, i32)>>, limit: int, depth: int, i: int) -> Tri
    decreases regions.len() - i,
{
    if i >= regions.len() || i < 0 {
        Tri::No
    } else {
        let a = budgeted(ov, regions[i], limit, depth);
        if a == Tri::No {
            first_multi(ov, regions, limit, depth, i + 1)
        } else {
            a
        }
    }
}

/// Whether some region of the candidate has a cover by several copies: the quick check
/// with a budget of 80000 nodes and 12 copies, the deep one with 900000 nodes and 18.
pub fn verify_multi(ctx: &Context, deep: bool) -> (r: Tri)
    requires
        forall|i: int| 0 <= i < ctx.regions@.len() ==> search_input(orients_view(ctx.all_or@), (#[trigger] ctx.regions@[i])@),
    ensures
        r == first_multi(
            orients_view(ctx.all_or@),
            orients_view(ctx.regions@),
            if deep { 900_000int } else { 80_000int },
            if deep { 18int } else { 12int },
            0,
        ),
{
    let (limit, depth) = if deep {
        (900_000usize, 18usize)
    } else {
        (80_000usize, 12usize)
    };
    let ghost ov = orients_view(ctx.all_or@);
    let ghost rs = orients_view(ctx.regions@);
    let mut i: usize = 0;
    while i < ctx.regions.len()
        invariant
            i <= ctx.regions.len(),
            ov == orients_view(ctx.all_or@),
            rs == orients_view(ctx.regions@),
            limit == (if deep { 900_000int } else { 80_000int }),
            depth == (if deep { 18int } else { 12int }),
            forall|j: int| 0 <= j < ctx.regions@.len() ==> search_input(ov, (#[trigger] ctx.regions@[j])@),
            first_multi(ov, rs, limit as int, depth as int, 0) == first_multi(ov, rs, limit as int, depth as int, i as int),
        decreases ctx.regions.len() - i,
    {
        proof {
            assert(rs[i as int] == ctx.regions@[i as int]@);
        }
        let a = has_multi(&ctx.all_or, &ctx.regions[i], limit, depth);
        match a {
            Tri::Yes => {
                return Tri::Yes;
            },
            Tri::Unknown => {
                return Tri::Unknown;
            },
            Tri::No => {},
        }
        i += 1;
    }
    Tri::No
}

/// The cells of `s` as a predicate.
pub open spec fn cell_fn(s: Seq<(i32, i32)>) -> spec_fn(int, int) -> bool {
    |x: int, y: int| in_cells(s, x, y)
}

/// The cell as a pair of integers.
pub open spec fn pt(c: (i32, i32)) -> (int, int) {
    (c.0 as int, c.1 as int)
}

/// Whether the cells `a` and `b` are side by side.
fn side_by_side(a: (i32, i32), b: (i32, i32)) -> (r: bool)
    ensures
        r == crate::data::tree_poly::next_to(pt(a), pt(b)),
{
    let dx: i64 = a.0 as i64 - b.0 as i64;
    let dy: i64 = a.1 as i64 - b.1 as i64;
    (dx == 0 && (dy == 1 || dy == -1)) || (dy == 0 && (dx == 1 || dx == -1))
}

/// Whether the cells, all different, are connected: there is at least one, and every one
/// is reached from the first by steps between cells side by side.
pub fn connected_set(cells: &Vec<(i32, i32)>) -> (r: bool)
    requires
        forall|i: int, j: int| 0 <= i < j < cells.len() ==> cells@[i] != cells@[j],
    ensures
        r == (cells.len() > 0 && crate::data::tree_poly::connected_fn(cell_fn(cells@))),
{
    let ghost f = cell_fn(cells@);
    let n = cells.len();
    if n == 0 {
        return false;
    }
    let mut vis: Vec<bool> = Vec::new();
    while vis.len() < n
        invariant
            vis.len() <= n,
            forall|j: int| 0 <= j < vis.len() ==> !vis@[j],
        decreases n - vis.len(),
    {
        vis.push(false);
    }
    vis.set(0, true);
    let mut queue: Vec<usize> = Vec::new();
    queue.push(0);
    let mut head: usize = 0;
    let ghost c0 = pt(cells@[0]);
    proof {
        assert(f(c0.0, c0.1)) by {
            assert(cells@[0].0 == c0.0 && cells@[0].1 == c0.1);
        }
        assert(queue@[0] == 0);
        assert forall|j: int| 0 <= j < n && #[trigger] vis@[j] implies queue@.contains(j as usize) by {
            assert(j == 0);
        }
        crate::data::u256::lemma_count_none(vis@, 1, n as int);
        crate::data::u256::lemma_count_split(vis@, 0, 1, n as int);
        assert(crate::data::u256::count_true(vis@, 0, 0) == 0);
        assert(crate::data::u256::count_true(vis@, 0, 1) == 1);
    }
    while head < queue.len()
        invariant
            n == cells.len(),
            vis.len() == n,
            f == cell_fn(cells@),
            c0 == pt(cells@[0]),
            n > 0,
            vis@[0],
            head <= queue.len(),
            forall|u: int| 0 <= u < queue.len() ==> (#[trigger] queue@[u]) < n && vis@[queue@[u] as int],
            forall|j: int| 0 <= j < n && #[trigger] vis@[j] ==> queue@.contains(j as usize),
            forall|u: int, v: int| 0 <= u < v < queue.len() ==> queue@[u] != queue@[v],
            queue.len() == crate::data::u256::count_true(vis@, 0, n as int),
            queue.len() <= n,
            forall|j: int| #![trigger vis@[j]] 0 <= j < n && vis@[j] ==> forall|t: Set<(int, int)>|
                #[trigger] crate::data::tree_poly::closed_in(f, t) ==> (t.contains(pt(cells@[j])) == t.contains(c0)),
            forall|u: int, j: int| 0 <= u < head && 0 <= j < n && crate::data::tree_poly::next_to(pt(cells@[#[trigger] queue@[u] as int]), pt(#[trigger] cells@[j]))
                ==> vis@[j],
        decreases n - head,
    {
        let i = queue[head];
        let mut j: usize = 0;
        while j < n
            invariant
                n == cells.len(),
                vis.len() == n,
                f == cell_fn(cells@),
                c0 == pt(cells@[0]),
                vis@[0],
                head < queue.len(),
                i == queue@[head as int],
                i < n,
                vis@[i as int],
                j <= n,
                forall|u: int| 0 <= u < queue.len() ==> (#[trigger] queue@[u]) < n && vis@[queue@[u] as int],
                forall|j2: int| 0 <= j2 < n && #[trigger] vis@[j2] ==> queue@.contains(j2 as usize),
                forall|u: int, v: int| 0 <= u < v < queue.len() ==> queue@[u] != queue@[v],
                queue.len() == crate::data::u256::count_true(vis@, 0, n as int),
                queue.len() <= n,
                forall|j2: int| #![trigger vis@[j2]] 0 <= j2 < n && vis@[j2] ==> forall|t: Set<(int, int)>|
                    #[trigger] crate::data::tree_poly::closed_in(f, t) ==> (t.contains(pt(cells@[j2])) == t.contains(c0)),
                forall|u: int, j2: int| 0 <= u < head && 0 <= j2 < n && crate::data::tree_poly::next_to(pt(cells@[#[trigger] queue@[u] as int]), pt(#[trigger] cells@[j2]))
                    ==> vis@[j2],
                forall|j2: int| 0 <= j2 < j && crate::data::tree_poly::next_to(pt(cells@[i as int]), pt(#[trigger] cells@[j2])) ==> vis@[j2],
            decreases n - j,
        {
            if !vis[j] && side_by_side(cells[i], cells[j]) {
                proof {
                    // The new cell lies in exactly the closed sets that hold the first one.
                    assert forall|t: Set<(int, int)>| #[trigger] crate::data::tree_poly::closed_in(f, t) implies (t.contains(pt(cells@[j as int]))
                        == t.contains(c0)) by {
                        let a = pt(cells@[i as int]);
                        let b = pt(cells@[j as int]);
                        assert(f(a.0, a.1)) by {
                            assert(cells@[i as int].0 == a.0 && cells@[i as int].1 == a.1);
                        }
                        assert(f(b.0, b.1)) by {
                            assert(cells@[j as int].0 == b.0 && cells@[j as int].1 == b.1);
                        }
                        assert(t.contains(a) == t.contains(c0));
                        if t.contains(a) {
                            assert(t.contains(b));
                        }
                        if t.contains(b) {
                            assert(crate::data::tree_poly::next_to(b, a));
                            assert(t.contains(a));
                        }
                    }
                    // The queue holds each index once.
                    if queue@.contains(j) {
                        let u = choose|u: int| 0 <= u < queue.len() && queue@[u] == j;
                        assert(vis@[queue@[u] as int]);
                    }
                }
                let ghost q0 = queue@;
                let ghost v0 = vis@;
                vis.set(j, true);
                queue.push(j);
                proof {
                    assert(queue@[queue.len() - 1] == j);
                    assert(vis@ == v0.update(j as int, true));
                    crate::data::u256::lemma_count_update(v0, j as int, true, 0, n as int);
                    crate::data::u256::lemma_count_bound(vis@, 0, n as int);
                    assert forall|j2: int| 0 <= j2 < n && #[trigger] vis@[j2] implies queue@.contains(j2 as usize) by {
                        if j2 != j {
                            assert(v0[j2]);
                            assert(q0.contains(j2 as usize));
                            let u = choose|u: int| 0 <= u < q0.len() && q0[u] == j2 as usize;
                            assert(queue@[u] == j2 as usize);
                        }
                    }
                }
            }
            j += 1;
        }
        head += 1;
    }
    let mut all = true;
    let mut k: usize = 0;
    while k < n
        invariant
            k <= n,
            vis.len() == n,
            all == forall|j: int| 0 <= j < k ==> vis@[j],
        decreases n - k,
    {
        if !vis[k] {
            all = false;
        }
        k += 1;
    }
    proof {
        if all {
            assert forall|t: Set<(int, int)>, p: (int, int)| #[trigger] crate::data::tree_poly::closed_in(f, t) && #[trigger] t.contains(p) implies forall|q: (int, int)|
                #[trigger] f(q.0, q.1) ==> t.contains(q) by {
                assert(f(p.0, p.1));
                let kp = choose|kk: int| 0 <= kk < cells@.len() && cells@[kk].0 == p.0 && cells@[kk].1 == p.1;
                assert(vis@[kp]);
                assert(pt(cells@[kp]) == p);
                assert(t.contains(c0));
                assert forall|q: (int, int)| #[trigger] f(q.0, q.1) implies t.contains(q) by {
                    let kq = choose|kk: int| 0 <= kk < cells@.len() && cells@[kk].0 == q.0 && cells@[kk].1 == q.1;
                    assert(vis@[kq]);
                    assert(pt(cells@[kq]) == q);
                }
            }
        } else {
            let km = choose|j: int| 0 <= j < n && !vis@[j];
            let vset = Set::new(|c: (int, int)| exists|j: int| 0 <= j < n && vis@[j] && pt(cells@[j]) == c);
            assert(crate::data::tree_poly::closed_in(f, vset)) by {
                assert forall|c: (int, int)| #[trigger] vset.contains(c) implies f(c.0, c.1) by {
                    let j = choose|j: int| 0 <= j < n && vis@[j] && pt(cells@[j]) == c;
                    assert(cells@[j].0 == c.0 && cells@[j].1 == c.1);
                }
                assert forall|p: (int, int), q: (int, int)| #[trigger] vset.contains(p) && #[trigger] f(q.0, q.1) && crate::data::tree_poly::next_to(p, q) implies vset.contains(q) by {
                    let jp = choose|j: int| 0 <= j < n && vis@[j] && pt(cells@[j]) == p;
                    let jq = choose|kk: int| 0 <= kk < cells@.len() && cells@[kk].0 == q.0 && cells@[kk].1 == q.1;
                    assert(queue@.contains(jp as usize));
                    let u = choose|u: int| 0 <= u < queue.len() && queue@[u] == jp as usize;
                    assert(pt(cells@[jq]) == q);
                    assert(vis@[jq]);
                }
            }
            assert(vset.contains(c0)) by {
                assert(pt(cells@[0]) == c0);
            }
            let qm = pt(cells@[km]);
            assert(f(qm.0, qm.1)) by {
                assert(cells@[km].0 == qm.0 && cells@[km].1 == qm.1);
            }
            assert(!vset.contains(qm)) by {
                if vset.contains(qm) {
                    let j = choose|j: int| 0 <= j < n && vis@[j] && pt(cells@[j]) == qm;
                    assert(cells@[j] == cells@[km]);
                }
            }
        }
    }
    all
}

/// Some cell of `s` is `(x, y)`.
pub open spec fn in_cells(s: Seq<(i32, i32)>, x: int, y: int) -> bool {
    exists|k: int| 0 <= k < s.len() && s[k].0 == x && s[k].1 == y
}

/// The orientation `s` moved by `(tx, ty)` holds every cell of the region.
pub open spec fn held_by(s: Seq<(i32, i32)>, region: Seq<(i32, i32)>, tx: int, ty: int) -> bool {
    forall|i: int| 0 <= i < region.len() ==> #[trigger] in_cells(s, region[i].0 - tx, region[i].1 - ty)
}

/// Whether `(x, y)` is a cell of `s`.
fn has_cell(s: &Vec<(i32, i32)>, x: i64, y: i64) -> (r: bool)
    ensures
        r == in_cells(s@, x as int, y as int),
{
    let mut k: usize = 0;
    while k < s.len()
        invariant
            k <= s.len(),
            forall|j: int| 0 <= j < k ==> !((#[trigger] s@[j]).0 == x && s@[j].1 == y),
        decreases s.len() - k,
    {
        if s[k].0 as i64 == x && s[k].1 as i64 == y {
            return true;
        }
        k += 1;
    }
    false
}

/// Whether `s` moved by `(tx, ty)` holds every cell of the region.
fn held_all(s: &Vec<(i32, i32)>, region: &Vec<(i32, i32)>, tx: i64, ty: i64) -> (r: bool)
    requires
        -0x1_0000_0000 <= tx <= 0x1_0000_0000,
        -0x1_0000_0000 <= ty <= 0x1_0000_0000,
    ensures
        r == held_by(s@, region@, tx as int, ty as int),
{
    let mut i: usize = 0;
    while i < region.len()
        invariant
            i <= region.len(),
            -0x1_0000_0000 <= tx <= 0x1_0000_0000,
            -0x1_0000_0000 <= ty <= 0x1_0000_0000,
            forall|j: int| 0 <= j < i ==> #[trigger] in_cells(s@, region@[j].0 - tx, region@[j].1 - ty),
        decreases region.len() - i,
    {
        if !has_cell(s, region[i].0 as i64 - tx, region[i].1 as i64 - ty) {
            return false;
        }
        i += 1;
    }
    true
}

/// The copies (orientation, row move, column move) that hold the whole region, in
/// increasing order.
#[verifier::rlimit(50)]
pub fn single_covers(orients: &Vec<Vec<(i32, i32)>>, region: &Vec<(i32, i32)>) -> (r: Vec<(usize, i32, i32)>)
    requires
        search_input(orients_view(orients@), region@),
    ensures
        forall|e: (usize, i32, i32)| r@.contains(e) <==> e.0 < orients.len() && held_by(orients@[e.0 as int]@, region@, e.1 as int, e.2 as int),
        forall|a: int, b: int| 0 <= a < b < r@.len() ==> lex3(
            (#[trigger] r@[a].0 as int, r@[a].1 as int, r@[a].2 as int),
            (#[trigger] r@[b].0 as int, r@[b].1 as int, r@[b].2 as int),
        ),
{
    let ghost ov = orients_view(orients@);
    let (rminx, rmaxx, rminy, rmaxy) = bbox(region);
    let mut ans: Vec<(usize, i32, i32)> = Vec::new();
    let mut oi: usize = 0;
    while oi < orients.len()
        invariant
            oi <= orients.len(),
            ov == orients_view(orients@),
            search_input(ov, region@),
            exists|i: int| 0 <= i < region@.len() && (#[trigger] region@[i]).0 == rminx,
            exists|i: int| 0 <= i < region@.len() && (#[trigger] region@[i]).0 == rmaxx,
            exists|i: int| 0 <= i < region@.len() && (#[trigger] region@[i]).1 == rminy,
            exists|i: int| 0 <= i < region@.len() && (#[trigger] region@[i]).1 == rmaxy,
            forall|i: int| 0 <= i < region@.len() ==> rminx <= (#[trigger] region@[i]).0 <= rmaxx && rminy <= region@[i].1 <= rmaxy,
            forall|e: (usize, i32, i32)| ans@.contains(e) <==> e.0 < oi && held_by(orients@[e.0 as int]@, region@, e.1 as int, e.2 as int),
            forall|a: int, b: int| 0 <= a < b < ans@.len() ==> lex3(
                (#[trigger] ans@[a].0 as int, ans@[a].1 as int, ans@[a].2 as int),
                (#[trigger] ans@[b].0 as int, ans@[b].1 as int, ans@[b].2 as int),
            ),
            forall|a: int| 0 <= a < ans@.len() ==> (#[trigger] ans@[a]).0 < oi,
        decreases orients.len() - oi,
    {
        let s = &orients[oi];
        proof {
            assert(ov[oi as int] == s@);
            assert(ov[oi as int].len() > 0);
        }
        let (sminx, smaxx, sminy, smaxy) = bbox(s);
        proof {
            let i0 = choose|i: int| 0 <= i < region@.len() && (#[trigger] region@[i]).0 == rminx;
            let i1 = choose|i: int| 0 <= i < region@.len() && (#[trigger] region@[i]).0 == rmaxx;
            let i2 = choose|i: int| 0 <= i < region@.len() && (#[trigger] region@[i]).1 == rminy;
            let i3 = choose|i: int| 0 <= i < region@.len() && (#[trigger] region@[i]).1 == rmaxy;
            let k0 = choose|i: int| 0 <= i < s@.len() && (#[trigger] s@[i]).0 == sminx;
            let k1 = choose|i: int| 0 <= i < s@.len() && (#[trigger] s@[i]).0 == smaxx;
            let k2 = choose|i: int| 0 <= i < s@.len() && (#[trigger] s@[i]).1 == sminy;
            let k3 = choose|i: int| 0 <= i < s@.len() && (#[trigger] s@[i]).1 == smaxy;
            assert(ov[oi as int][k0] == s@[k0]);
            assert(ov[oi as int][k1] == s@[k1]);
            assert(ov[oi as int][k2] == s@[k2]);
            assert(ov[oi as int][k3] == s@[k3]);
            assert(region@[i0] == region@[i0] && ov[oi as int][k1] == ov[oi as int][k1]);
            assert(fits(region@[i0].0 - ov[oi as int][k1].0 + ov[oi as int][k1].0));
            assert(fits(region@[i0].0 - ov[oi as int][k1].0));
            assert(fits(region@[i1].0 - ov[oi as int][k0].0));
            assert(fits(region@[i2].1 - ov[oi as int][k3].1));
            assert(fits(region@[i3].1 - ov[oi as int][k2].1));
        }
        proof {
            assert(sminx <= smaxx && sminy <= smaxy) by {
                assert(s@[0].0 == s@[0].0);
            }
            assert(rminy <= rmaxy && rminx <= rmaxx) by {
                assert(region@[0].0 == region@[0].0);
            }
            assert forall|e: (usize, i32, i32)| e.0 == oi && held_by(orients@[e.0 as int]@, region@, e.1 as int, e.2 as int) implies e.1 >= rminx - smaxx by {
                let i0 = choose|i: int| 0 <= i < region@.len() && (#[trigger] region@[i]).0 == rminx;
                assert(in_cells(orients@[e.0 as int]@, region@[i0].0 - e.1, region@[i0].1 - e.2));
                let k0 = choose|k: int| 0 <= k < s@.len() && s@[k].0 == region@[i0].0 - e.1 && s@[k].1 == region@[i0].1 - e.2;
                assert(s@[k0].0 <= smaxx);
            }
        }
        let mut tx: i64 = rminx as i64 - smaxx as i64;
        while tx <= rmaxx as i64 - sminx as i64
            invariant
                oi < orients.len(),
                s@ == orients@[oi as int]@,
                ov == orients_view(orients@),
                search_input(ov, region@),
                exists|i: int| 0 <= i < region@.len() && (#[trigger] region@[i]).0 == rminx,
                exists|i: int| 0 <= i < region@.len() && (#[trigger] region@[i]).0 == rmaxx,
                exists|i: int| 0 <= i < region@.len() && (#[trigger] region@[i]).1 == rminy,
                exists|i: int| 0 <= i < region@.len() && (#[trigger] region@[i]).1 == rmaxy,
                fits(rminx - smaxx),
                fits(rmaxx - sminx),
                sminx <= smaxx && sminy <= smaxy,
                rminx <= rmaxx && rminy <= rmaxy,
                fits(rminy - smaxy),
                fits(rmaxy - sminy),
                rminx - smaxx <= tx <= rmaxx - sminx + 1,
                forall|i: int| 0 <= i < s@.len() ==> sminx <= (#[trigger] s@[i]).0 <= smaxx && sminy <= s@[i].1 <= smaxy,
                forall|i: int| 0 <= i < region@.len() ==> rminx <= (#[trigger] region@[i]).0 <= rmaxx && rminy <= region@[i].1 <= rmaxy,
                forall|e: (usize, i32, i32)| ans@.contains(e) <==> (e.0 < oi || (e.0 == oi && e.1 < tx)) && held_by(
                    orients@[e.0 as int]@,
                    region@,
                    e.1 as int,
                    e.2 as int,
                ),
                forall|a: int, b: int| 0 <= a < b < ans@.len() ==> lex3(
                    (#[trigger] ans@[a].0 as int, ans@[a].1 as int, ans@[a].2 as int),
                    (#[trigger] ans@[b].0 as int, ans@[b].1 as int, ans@[b].2 as int),
                ),
                forall|a: int| 0 <= a < ans@.len() ==> (#[trigger] ans@[a]).0 < oi || (ans@[a].0 == oi && ans@[a].1 < tx),
            decreases rmaxx - sminx + 1 - tx,
        {
            proof {
                assert forall|e: (usize, i32, i32)| e.0 == oi && e.1 == tx && held_by(orients@[e.0 as int]@, region@, e.1 as int, e.2 as int) implies e.2
                    >= rminy - smaxy by {
                    let i2 = choose|i: int| 0 <= i < region@.len() && (#[trigger] region@[i]).1 == rminy;
                    assert(in_cells(orients@[e.0 as int]@, region@[i2].0 - e.1, region@[i2].1 - e.2));
                    let k2 = choose|k: int| 0 <= k < s@.len() && s@[k].0 == region@[i2].0 - e.1 && s@[k].1 == region@[i2].1 - e.2;
                    assert(s@[k2].1 <= smaxy);
                }
            }
            let mut ty: i64 = rminy as i64 - smaxy as i64;
            while ty <= rmaxy as i64 - sminy as i64
                invariant
                    oi < orients.len(),
                    s@ == orients@[oi as int]@,
                    fits(rminy - smaxy),
                    fits(rmaxy - sminy),
                    rminx - smaxx <= tx <= rmaxx - sminx,
                    fits(tx as int),
                    rminy - smaxy <= ty <= rmaxy - sminy + 1,
                    forall|e: (usize, i32, i32)| ans@.contains(e) <==> (e.0 < oi || (e.0 == oi && (e.1 < tx || (e.1 == tx && e.2 < ty))))
                        && held_by(orients@[e.0 as int]@, region@, e.1 as int, e.2 as int),
                    forall|a: int, b: int| 0 <= a < b < ans@.len() ==> lex3(
                        (#[trigger] ans@[a].0 as int, ans@[a].1 as int, ans@[a].2 as int),
                        (#[trigger] ans@[b].0 as int, ans@[b].1 as int, ans@[b].2 as int),
                    ),
                    forall|a: int| 0 <= a < ans@.len() ==> (#[trigger] ans@[a]).0 < oi || (ans@[a].0 == oi && (ans@[a].1 < tx || (ans@[a].1 == tx
                        && ans@[a].2 < ty))),
                decreases rmaxy - sminy + 1 - ty,
            {
                let ok = held_all(s, region, tx, ty);
                let ghost before = ans@;
                if ok {
                    ans.push((oi, tx as i32, ty as i32));
                }
                proof {
                    assert forall|e: (usize, i32, i32)| ans@.contains(e) <==> (e.0 < oi || (e.0 == oi && (e.1 < tx || (e.1 == tx && e.2 < ty + 1))))
                        && held_by(orients@[e.0 as int]@, region@, e.1 as int, e.2 as int) by {
                        if ans@.contains(e) {
                            let w = choose|w: int| 0 <= w < ans@.len() && ans@[w] == e;
                            if w < before.len() {
                                assert(before.contains(e));
                            }
                        }
                        if (e.0 < oi || (e.0 == oi && (e.1 < tx || (e.1 == tx && e.2 < ty + 1)))) && held_by(
                            orients@[e.0 as int]@,
                            region@,
                            e.1 as int,
                            e.2 as int,
                        ) {
                            if e.0 == oi && e.1 == tx && e.2 == ty {
                                assert(ans@[ans@.len() - 1] == e);
                            } else {
                                assert(before.contains(e));
                                let w = choose|w: int| 0 <= w < before.len() && before[w] == e;
                                assert(ans@[w] == e);
                            }
                        }
                    }
                }
                ty += 1;
            }
            proof {
                assert forall|e: (usize, i32, i32)| ans@.contains(e) <==> (e.0 < oi || (e.0 == oi && e.1 < tx + 1)) && held_by(
                    orients@[e.0 as int]@,
                    region@,
                    e.1 as int,
                    e.2 as int,
                ) by {
                    if e.0 == oi && e.1 == tx && held_by(orients@[e.0 as int]@, region@, e.1 as int, e.2 as int) {
                        // The move takes a cell of the orientation onto each region cell.
                        let i2 = choose|i: int| 0 <= i < region@.len() && (#[trigger] region@[i]).1 == rminy;
                        assert(in_cells(orients@[e.0 as int]@, region@[i2].0 - e.1, region@[i2].1 - e.2));
                        let i3 = choose|i: int| 0 <= i < region@.len() && (#[trigger] region@[i]).1 == rmaxy;
                        assert(in_cells(orients@[e.0 as int]@, region@[i3].0 - e.1, region@[i3].1 - e.2));
                        let k2 = choose|k: int| 0 <= k < s@.len() && s@[k].0 == region@[i2].0 - e.1 && s@[k].1 == region@[i2].1 - e.2;
                        let k3 = choose|k: int| 0 <= k < s@.len() && s@[k].0 == region@[i3].0 - e.1 && s@[k].1 == region@[i3].1 - e.2;
                        assert(s@[k2].1 >= sminy);
                        assert(s@[k3].1 <= smaxy);
                    }
                }
            }
            tx += 1;
        }
        proof {
            assert forall|e: (usize, i32, i32)| ans@.contains(e) <==> e.0 < oi + 1 && held_by(orients@[e.0 as int]@, region@, e.1 as int, e.2 as int) by {
                if e.0 == oi && held_by(orients@[e.0 as int]@, region@, e.1 as int, e.2 as int) {
                    let i0 = choose|i: int| 0 <= i < region@.len() && (#[trigger] region@[i]).0 == rminx;
                    assert(in_cells(orients@[e.0 as int]@, region@[i0].0 - e.1, region@[i0].1 - e.2));
                    let i1 = choose|i: int| 0 <= i < region@.len() && (#[trigger] region@[i]).0 == rmaxx;
                    assert(in_cells(orients@[e.0 as int]@, region@[i1].0 - e.1, region@[i1].1 - e.2));
                    let k0 = choose|k: int| 0 <= k < s@.len() && s@[k].0 == region@[i0].0 - e.1 && s@[k].1 == region@[i0].1 - e.2;
                    let k1 = choose|k: int| 0 <= k < s@.len() && s@[k].0 == region@[i1].0 - e.1 && s@[k].1 == region@[i1].1 - e.2;
                    assert(s@[k0].0 <= smaxx);
                    assert(s@[k1].0 >= sminx);
                }
            }
        }
        oi += 1;
    }
    ans
}

} // verus!
