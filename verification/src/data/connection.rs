use vstd::prelude::*;
use petgraph::unionfind::UnionFind;
use crate::data::tree_poly::{dir_x, dir_y, ubit};

verus! {

#[verifier::external_type_specification]
#[verifier::external_body]
#[verifier::reject_recursive_types(K)]
pub struct ExUnionFind<K>(UnionFind<K>);

/// The representative of each element of a union-find structure: what `find` gives for it.
pub uninterp spec fn uf_roots(uf: UnionFind<usize>) -> Seq<usize>;

/// `after` is `before` with every element whose representative is `rx` or `ry` given the
/// representative `l`.
pub open spec fn merged(before: Seq<usize>, after: Seq<usize>, rx: usize, ry: usize, l: usize) -> bool {
    &&& after.len() == before.len()
    &&& forall|i: int|
        0 <= i < before.len() ==> #[trigger] after[i] == if before[i] == rx || before[i] == ry {
            l
        } else {
            before[i]
        }
}

/// `UnionFind::new`: `n` elements, each in a set of its own and so its own representative.
#[verifier::external_body]
fn uf_new(n: usize) -> (r: UnionFind<usize>)
    ensures
        uf_roots(r).len() == n,
        forall|i: int| 0 <= i < n ==> #[trigger] uf_roots(r)[i] == i,
{
    UnionFind::new(n)
}

/// `UnionFind::find`: the representative of `x` (the source panics past the last element).
#[verifier::external_body]
fn uf_find(uf: &UnionFind<usize>, x: usize) -> (r: usize)
    requires
        x < uf_roots(*uf).len(),
    ensures
        r == uf_roots(*uf)[x as int],
{
    uf.find(x)
}

/// `UnionFind::equiv`: whether `x` and `y` have the same representative.
#[verifier::external_body]
fn uf_equiv(uf: &UnionFind<usize>, x: usize, y: usize) -> (r: bool)
    requires
        x < uf_roots(*uf).len(),
        y < uf_roots(*uf).len(),
    ensures
        r == (uf_roots(*uf)[x as int] == uf_roots(*uf)[y as int]),
{
    uf.equiv(x, y)
}

/// `UnionFind::union`: merges the sets of `x` and `y`. Every element of the two sets gets as
/// its representative one of the two former representatives (which one depends on the
/// ranks, which this contract leaves open); the other elements keep theirs. The result says
/// whether the sets were different.
#[verifier::external_body]
fn uf_union(uf: &mut UnionFind<usize>, x: usize, y: usize) -> (r: bool)
    requires
        x < uf_roots(*old(uf)).len(),
        y < uf_roots(*old(uf)).len(),
    ensures
        uf_roots(*final(uf)).len() == uf_roots(*old(uf)).len(),
        r == (uf_roots(*old(uf))[x as int] != uf_roots(*old(uf))[y as int]),
        merged(uf_roots(*old(uf)), uf_roots(*final(uf)), uf_roots(*old(uf))[x as int], uf_roots(*old(uf))[y as int], uf_roots(
            *old(uf),
        )[x as int]) || merged(uf_roots(*old(uf)), uf_roots(*final(uf)), uf_roots(*old(uf))[x as int], uf_roots(*old(uf))[y as int], uf_roots(
            *old(uf),
        )[y as int]),
{
    uf.union(x, y)
}

/// The square `(x, y)` lies in the `s x s` grid.
pub open spec fn sq(s: int, x: int, y: int) -> bool {
    0 <= x < s && 0 <= y < s
}

/// The index of the square `(x, y)` in a mask of the `s x s` grid, row by row.
pub open spec fn sq_id(s: int, x: int, y: int) -> int {
    x * s + y
}

/// The square `(x, y)` is set in `mask`.
pub open spec fn filled(mask: usize, s: int, x: int, y: int) -> bool {
    ubit(mask, sq_id(s, x, y))
}

/// The square `(x, y)` lies on the rim of the `s x s` grid.
pub open spec fn on_rim(s: int, x: int, y: int) -> bool {
    x == 0 || y == 0 || x == s - 1 || y == s - 1
}

/// `set` keeps together the squares of one color that share a side, and the free squares
/// of the rim with the outside, numbered `s * s`.
pub open spec fn closed_set(mask: usize, s: int, set: Set<int>) -> bool {
    &&& forall|x: int, y: int, d: int|
        #![trigger set.contains(sq_id(s, x, y)), set.contains(sq_id(s, x + dir_x(d), y + dir_y(d)))]
        sq(s, x, y) && 0 <= d < 4 && sq(s, x + dir_x(d), y + dir_y(d)) && filled(mask, s, x, y) == filled(
            mask,
            s,
            x + dir_x(d),
            y + dir_y(d),
        ) ==> (set.contains(sq_id(s, x, y)) == set.contains(sq_id(s, x + dir_x(d), y + dir_y(d))))
    &&& forall|x: int, y: int|
        sq(s, x, y) && on_rim(s, x, y) && !filled(mask, s, x, y) ==> (#[trigger] set.contains(sq_id(s, x, y)) == set.contains(
            s * s,
        ))
}

/// `a` and `b` are in one piece: squares of one color joined side by side, the free ones
/// also through the outside.
pub open spec fn joined(mask: usize, s: int, a: int, b: int) -> bool {
    forall|set: Set<int>| #[trigger] closed_set(mask, s, set) && set.contains(a) ==> set.contains(b)
}

proof fn lemma_joined_refl(mask: usize, s: int, a: int)
    ensures
        joined(mask, s, a, a),
{
}

proof fn lemma_joined_trans(mask: usize, s: int, a: int, b: int, c: int)
    requires
        joined(mask, s, a, b),
        joined(mask, s, b, c),
    ensures
        joined(mask, s, a, c),
{
    assert forall|set: Set<int>| #[trigger] closed_set(mask, s, set) && set.contains(a) implies set.contains(c) by {
        assert(set.contains(b));
    }
}

proof fn lemma_joined_sym(mask: usize, s: int, a: int, b: int)
    requires
        joined(mask, s, a, b),
    ensures
        joined(mask, s, b, a),
{
    assert forall|set: Set<int>| #[trigger] closed_set(mask, s, set) && set.contains(b) implies set.contains(a) by {
        if !set.contains(a) {
            let other = Set::new(|k: int| !set.contains(k));
            assert(closed_set(mask, s, other));
            assert(other.contains(a));
            assert(other.contains(b));
        }
    }
}

/// Two squares of one color that share a side are in one piece.
proof fn lemma_joined_step(mask: usize, s: int, x: int, y: int, d: int)
    requires
        sq(s, x, y),
        0 <= d < 4,
        sq(s, x + dir_x(d), y + dir_y(d)),
        filled(mask, s, x, y) == filled(mask, s, x + dir_x(d), y + dir_y(d)),
    ensures
        joined(mask, s, sq_id(s, x, y), sq_id(s, x + dir_x(d), y + dir_y(d))),
{
    assert forall|set: Set<int>| #[trigger] closed_set(mask, s, set) && set.contains(sq_id(s, x, y)) implies set.contains(
        sq_id(s, x + dir_x(d), y + dir_y(d)),
    ) by {
        assert(set.contains(sq_id(s, x, y)) == set.contains(sq_id(s, x + dir_x(d), y + dir_y(d))));
    }
}

/// A free square of the rim is in one piece with the outside.
proof fn lemma_joined_out(mask: usize, s: int, x: int, y: int)
    requires
        sq(s, x, y),
        on_rim(s, x, y),
        !filled(mask, s, x, y),
    ensures
        joined(mask, s, sq_id(s, x, y), s * s),
{
    assert forall|set: Set<int>| #[trigger] closed_set(mask, s, set) && set.contains(sq_id(s, x, y)) implies set.contains(s * s) by {
        assert(set.contains(sq_id(s, x, y)) == set.contains(s * s));
    }
}

/// The squares of the grid have the indices `0 .. s * s`, the neighbors' indices one or
/// `s` away.
proof fn lemma_sq_id(s: int, x: int, y: int)
    requires
        sq(s, x, y),
    ensures
        0 <= sq_id(s, x, y) < s * s,
        sq_id(s, x + 1, y) == sq_id(s, x, y) + s,
        sq_id(s, x - 1, y) == sq_id(s, x, y) - s,
{
    assert(0 <= x * s + y < s * s) by (nonlinear_arith)
        requires
            0 <= x < s,
            0 <= y < s,
    ;
    assert((x + 1) * s == x * s + s) by (nonlinear_arith);
    assert((x - 1) * s == x * s - s) by (nonlinear_arith);
}

/// Every representative is an element.
pub open spec fn roots_in(roots: Seq<usize>) -> bool {
    forall|i: int| 0 <= i < roots.len() ==> #[trigger] roots[i] < roots.len()
}

/// Elements with one representative are in one piece.
pub open spec fn roots_joined(mask: usize, s: int, roots: Seq<usize>) -> bool {
    forall|a: int, b: int|
        0 <= a < roots.len() && 0 <= b < roots.len() && roots[a] == roots[b] ==> #[trigger] joined(mask, s, a, b)
}

/// Elements with one representative before still have one after.
pub open spec fn keeps_equal(before: Seq<usize>, after: Seq<usize>) -> bool {
    forall|a: int, b: int|
        0 <= a < before.len() && 0 <= b < before.len() && before[a] == before[b] ==> #[trigger] after[a] == #[trigger] after[b]
}

/// The side of the square `(x, y)` in direction `d` is accounted for: a neighbor of its color
/// has its representative, and when the square is free and the neighbor lies outside the
/// grid, the outside has it.
pub open spec fn edge_done(mask: usize, s: int, roots: Seq<usize>, x: int, y: int, d: int) -> bool {
    if sq(s, x + dir_x(d), y + dir_y(d)) {
        filled(mask, s, x, y) == filled(mask, s, x + dir_x(d), y + dir_y(d)) ==> roots[sq_id(s, x, y)] == roots[sq_id(
            s,
            x + dir_x(d),
            y + dir_y(d),
        )]
    } else {
        !filled(mask, s, x, y) ==> roots[sq_id(s, x, y)] == roots[s * s]
    }
}

/// The sides of the squares before `(x, y)`, row by row, are accounted for.
pub open spec fn done_before(mask: usize, s: int, roots: Seq<usize>, x: int, y: int) -> bool {
    forall|x2: int, y2: int, d: int|
        sq(s, x2, y2) && (x2 < x || (x2 == x && y2 < y)) && 0 <= d < 4 ==> #[trigger] edge_done(mask, s, roots, x2, y2, d)
}

proof fn lemma_done_kept(mask: usize, s: int, before: Seq<usize>, after: Seq<usize>, x: int, y: int)
    requires
        2 <= s,
        before.len() == s * s + 1,
        after.len() == before.len(),
        keeps_equal(before, after),
        done_before(mask, s, before, x, y),
    ensures
        done_before(mask, s, after, x, y),
{
    assert forall|x2: int, y2: int, d: int|
        sq(s, x2, y2) && (x2 < x || (x2 == x && y2 < y)) && 0 <= d < 4 implies #[trigger] edge_done(mask, s, after, x2, y2, d) by {
        assert(edge_done(mask, s, before, x2, y2, d));
        lemma_sq_id(s, x2, y2);
        let nx = x2 + dir_x(d);
        let ny = y2 + dir_y(d);
        if sq(s, nx, ny) {
            lemma_sq_id(s, nx, ny);
            if filled(mask, s, x2, y2) == filled(mask, s, nx, ny) {
                assert(after[sq_id(s, x2, y2)] == after[sq_id(s, nx, ny)]);
            }
        } else if !filled(mask, s, x2, y2) {
            assert(after[sq_id(s, x2, y2)] == after[s * s]);
        }
    }
}

/// Joins the square `(x, y)` with its neighbor in direction `d` when the two have one color,
/// or with the outside when the neighbor lies outside the grid and the square is free.
fn link(uf: &mut UnionFind<usize>, mask: usize, s: usize, x: usize, y: usize, d: usize)
    requires
        2 <= s <= 5,
        x < s,
        y < s,
        d < 4,
        uf_roots(*old(uf)).len() == s * s + 1,
        roots_in(uf_roots(*old(uf))),
        roots_joined(mask, s as int, uf_roots(*old(uf))),
    ensures
        uf_roots(*final(uf)).len() == s * s + 1,
        roots_in(uf_roots(*final(uf))),
        roots_joined(mask, s as int, uf_roots(*final(uf))),
        keeps_equal(uf_roots(*old(uf)), uf_roots(*final(uf))),
        edge_done(mask, s as int, uf_roots(*final(uf)), x as int, y as int, d as int),
{
    let ghost si = s as int;
    proof {
        lemma_sq_id(si, x as int, y as int);
        assert(s * s <= 25) by (nonlinear_arith)
            requires
                s <= 5,
        ;
    }
    let n = s * s;
    let i = x * s + y;
    let bi = (mask >> i) & 1 == 1;
    let inside = if d == 0 {
        y + 1 < s
    } else if d == 1 {
        x + 1 < s
    } else if d == 2 {
        y >= 1
    } else {
        x >= 1
    };
    let ghost nx = x + dir_x(d as int);
    let ghost ny = y + dir_y(d as int);
    let ghost before = uf_roots(*uf);
    if !inside {
        if !bi {
            uf_union(uf, i, n);
            proof {
                lemma_joined_out(mask, si, x as int, y as int);
                self::lemma_union_joined(mask, si, before, uf_roots(*uf), i as int, n as int);
            }
        } else {
            proof {
                assert forall|a: int, b: int|
                    0 <= a < before.len() && 0 <= b < before.len() && before[a] == before[b] implies #[trigger] uf_roots(*uf)[a]
                    == #[trigger] uf_roots(*uf)[b] by {}
            }
        }
    } else {
        let j = if d == 0 {
            i + 1
        } else if d == 1 {
            i + s
        } else if d == 2 {
            i - 1
        } else {
            i - s
        };
        proof {
            lemma_sq_id(si, nx, ny);
            assert(j == sq_id(si, nx, ny));
        }
        let bj = (mask >> j) & 1 == 1;
        if bi == bj {
            uf_union(uf, i, j);
            proof {
                lemma_joined_step(mask, si, x as int, y as int, d as int);
                self::lemma_union_joined(mask, si, before, uf_roots(*uf), i as int, j as int);
            }
        } else {
            proof {
                assert forall|a: int, b: int|
                    0 <= a < before.len() && 0 <= b < before.len() && before[a] == before[b] implies #[trigger] uf_roots(*uf)[a]
                    == #[trigger] uf_roots(*uf)[b] by {}
            }
        }
    }
}

/// Merging the sets of two elements in one piece keeps the sets in pieces.
proof fn lemma_union_joined(mask: usize, s: int, before: Seq<usize>, after: Seq<usize>, i: int, j: int)
    requires
        0 <= i < before.len(),
        0 <= j < before.len(),
        roots_in(before),
        roots_joined(mask, s, before),
        joined(mask, s, i, j),
        merged(before, after, before[i], before[j], before[i]) || merged(before, after, before[i], before[j], before[j]),
    ensures
        after.len() == before.len(),
        roots_in(after),
        roots_joined(mask, s, after),
        keeps_equal(before, after),
        after[i] == after[j],
{
    let l = if merged(before, after, before[i], before[j], before[i]) { before[i] } else { before[j] };
    assert(merged(before, after, before[i], before[j], l));
    assert forall|k: int| 0 <= k < after.len() implies #[trigger] after[k] < after.len() by {
        assert(before[k] < before.len());
    }
    assert forall|a: int, b: int|
        0 <= a < before.len() && 0 <= b < before.len() && before[a] == before[b] implies #[trigger] after[a] == #[trigger] after[b] by {}
    assert forall|a: int, b: int|
        0 <= a < after.len() && 0 <= b < after.len() && after[a] == after[b] implies #[trigger] joined(mask, s, a, b) by {
        let ina = before[a] == before[i] || before[a] == before[j];
        let inb = before[b] == before[i] || before[b] == before[j];
        if !ina && !inb {
            assert(before[a] == before[b]);
        } else if ina && inb {
            // a is in one piece with i or j, and so is b; i and j are in one piece.
            lemma_joined_sym(mask, s, i, j);
            let ca = if before[a] == before[i] { i } else { j };
            let cb = if before[b] == before[i] { i } else { j };
            assert(joined(mask, s, a, ca));
            assert(joined(mask, s, cb, b)) by {
                assert(joined(mask, s, b, cb));
                lemma_joined_sym(mask, s, b, cb);
            }
            assert(joined(mask, s, ca, cb)) by {
                if ca == cb {
                    lemma_joined_refl(mask, s, ca);
                }
            }
            lemma_joined_trans(mask, s, a, ca, cb);
            lemma_joined_trans(mask, s, a, cb, b);
        } else if ina {
            assert(after[a] == l);
            assert(after[b] == before[b]);
        } else {
            assert(after[b] == l);
            assert(after[a] == before[a]);
        }
    }
}

/// The 2x2 block with `(x, y)` as its last square is forbidden: all four squares set, or
/// exactly the two on one diagonal.
pub open spec fn bad_block(mask: usize, s: int, x: int, y: int) -> bool {
    let a = filled(mask, s, x - 1, y - 1);
    let b = filled(mask, s, x - 1, y);
    let c = filled(mask, s, x, y - 1);
    let d = filled(mask, s, x, y);
    (a && b && c && d) || (a && !b && !c && d) || (!a && b && c && !d)
}

pub open spec fn has_bad_block(mask: usize, s: int) -> bool {
    exists|x: int, y: int| 1 <= x < s && 1 <= y < s && #[trigger] bad_block(mask, s, x, y)
}

/// `(x, y)` is a free square cut off from the outside.
pub open spec fn hole_at(mask: usize, s: int, x: int, y: int) -> bool {
    sq(s, x, y) && !filled(mask, s, x, y) && !joined(mask, s, sq_id(s, x, y), s * s)
}

pub open spec fn has_hole(mask: usize, s: int) -> bool {
    exists|x: int, y: int| #[trigger] hole_at(mask, s, x, y)
}

/// `(x, y)` is a set square inside the rim whose piece reaches no set square of the rim.
pub open spec fn isolated_at(mask: usize, s: int, x: int, y: int) -> bool {
    &&& 1 <= x < s - 1
    &&& 1 <= y < s - 1
    &&& filled(mask, s, x, y)
    &&& !exists|x2: int, y2: int|
        sq(s, x2, y2) && on_rim(s, x2, y2) && filled(mask, s, x2, y2) && #[trigger] joined(mask, s, sq_id(s, x, y), sq_id(s, x2, y2))
}

pub open spec fn has_isolated(mask: usize, s: int) -> bool {
    exists|x: int, y: int| #[trigger] isolated_at(mask, s, x, y)
}

/// The indices of the rim squares of row `x` before column `y`.
pub open spec fn rim_row(s: int, x: int, y: int) -> Seq<int>
    decreases y,
{
    if y <= 0 {
        Seq::empty()
    } else {
        rim_row(s, x, y - 1) + if on_rim(s, x, y - 1) { seq![sq_id(s, x, y - 1)] } else { Seq::empty() }
    }
}

/// The indices of the rim squares of the rows before `x`, row by row.
pub open spec fn rim_rows(s: int, x: int) -> Seq<int>
    decreases x,
{
    if x <= 0 {
        Seq::empty()
    } else {
        rim_rows(s, x - 1) + rim_row(s, x - 1, s)
    }
}

/// The labels of the rim squares `cells`, in order: `None` for a free square, otherwise the
/// number of its piece, the pieces numbered in the order in which they first appear; and the
/// first square of each piece met so far.
pub open spec fn rim_labels(mask: usize, s: int, cells: Seq<int>) -> (Seq<Option<u8>>, Seq<int>)
    decreases cells.len(),
{
    if cells.len() == 0 {
        (Seq::empty(), Seq::empty())
    } else {
        let prev = rim_labels(mask, s, cells.drop_last());
        let c = cells.last();
        if !ubit(mask, c) {
            (prev.0.push(None), prev.1)
        } else if exists|t: int| 0 <= t < prev.1.len() && #[trigger] joined(mask, s, prev.1[t], c) {
            let t = choose|t: int| 0 <= t < prev.1.len() && #[trigger] joined(mask, s, prev.1[t], c);
            (prev.0.push(Some(t as u8)), prev.1)
        } else {
            (prev.0.push(Some(prev.1.len() as u8)), prev.1.push(c))
        }
    }
}

/// How the squares on the rim of a grid of squares connect: for each rim square, row by row,
/// whether it is free or else which piece of set squares it belongs to.
#[derive(Debug, Clone, PartialEq, Eq)]
pub struct Surroundings {
    pub components: Vec<Option<u8>>,
}

/// Why a grid of squares has no surroundings.
#[derive(Debug, Clone, Copy, PartialEq, Eq, Structural)]
pub enum SurroundingsError {
    /// A 2x2 block is full, or set on exactly one diagonal.
    ForbiddenBlock,
    /// A free square is cut off from the outside.
    Hole,
    /// A piece of set squares does not reach the rim.
    Isolated,
}

/// `r` is what the surroundings of the `s x s` grid of `mask` are: the first of the refusals
/// that applies, or the labels of the rim squares.
pub open spec fn surroundings_result(mask: usize, s: int, r: Result<Surroundings, SurroundingsError>) -> bool {
    match r {
        Err(SurroundingsError::ForbiddenBlock) => has_bad_block(mask, s),
        Err(SurroundingsError::Hole) => !has_bad_block(mask, s) && has_hole(mask, s),
        Err(SurroundingsError::Isolated) => !has_bad_block(mask, s) && !has_hole(mask, s) && has_isolated(mask, s),
        Ok(sur) => {
            &&& !has_bad_block(mask, s)
            &&& !has_hole(mask, s)
            &&& !has_isolated(mask, s)
            &&& sur.components@ == rim_labels(mask, s, rim_rows(s, s)).0
        },
    }
}

/// After all sides are accounted for, two elements have one representative exactly when
/// they are in one piece.
proof fn lemma_roots_exact(mask: usize, s: int, roots: Seq<usize>)
    requires
        2 <= s,
        roots.len() == s * s + 1,
        roots_joined(mask, s, roots),
        done_before(mask, s, roots, s, 0),
    ensures
        forall|a: int, b: int|
            0 <= a < roots.len() && 0 <= b < roots.len() ==> (roots[a] == roots[b] <==> #[trigger] joined(mask, s, a, b)),
{
    assert forall|a: int, b: int| 0 <= a < roots.len() && 0 <= b < roots.len() && #[trigger] joined(mask, s, a, b) implies roots[a]
        == roots[b] by {
        let set = Set::new(|k: int| 0 <= k < roots.len() && roots[k] == roots[a]);
        assert(closed_set(mask, s, set)) by {
            assert forall|x: int, y: int, d: int|
                #![trigger set.contains(sq_id(s, x, y)), set.contains(sq_id(s, x + dir_x(d), y + dir_y(d)))]
                sq(s, x, y) && 0 <= d < 4 && sq(s, x + dir_x(d), y + dir_y(d)) && filled(mask, s, x, y) == filled(
                    mask,
                    s,
                    x + dir_x(d),
                    y + dir_y(d),
                ) implies (set.contains(sq_id(s, x, y)) == set.contains(sq_id(s, x + dir_x(d), y + dir_y(d)))) by {
                assert(edge_done(mask, s, roots, x, y, d));
                lemma_sq_id(s, x, y);
                lemma_sq_id(s, x + dir_x(d), y + dir_y(d));
            }
            assert forall|x: int, y: int|
                sq(s, x, y) && on_rim(s, x, y) && !filled(mask, s, x, y) implies (#[trigger] set.contains(sq_id(s, x, y)) == set.contains(
                s * s,
            )) by {
                lemma_sq_id(s, x, y);
                let d: int = if y == s - 1 {
                    0
                } else if x == s - 1 {
                    1
                } else if y == 0 {
                    2
                } else {
                    3
                };
                assert(edge_done(mask, s, roots, x, y, d));
            }
        }
        assert(set.contains(a));
    }
}

impl Surroundings {
    /// The surroundings of the `s x s` grid whose set squares are the bits of `mask`, row by
    /// row: refused when a 2x2 block is full or set on one diagonal only, when a free square
    /// is cut off from the outside, or when a piece of set squares does not reach the rim.
    pub fn try_from_mask(mask: usize, s: usize) -> (r: Result<Surroundings, SurroundingsError>)
        requires
            2 <= s <= 5,
        ensures
            surroundings_result(mask, s as int, r),
    {
        let ghost si = s as int;
        proof {
            assert(s * s <= 25) by (nonlinear_arith)
                requires
                    s <= 5,
            ;
        }
        let n = s * s;
        let mut uf = uf_new(n + 1);
        proof {
            assert forall|a: int, b: int|
                0 <= a < uf_roots(uf).len() && 0 <= b < uf_roots(uf).len() && uf_roots(uf)[a] == uf_roots(uf)[b] implies #[trigger] joined(
                mask,
                si,
                a,
                b,
            ) by {
                lemma_joined_refl(mask, si, a);
            }
        }
        let mut x: usize = 0;
        while x < s
            invariant
                si == s as int,
                2 <= s <= 5,
                n == s * s,
                n <= 25,
                x <= s,
                uf_roots(uf).len() == n + 1,
                roots_in(uf_roots(uf)),
                roots_joined(mask, si, uf_roots(uf)),
                done_before(mask, si, uf_roots(uf), x as int, 0),
                forall|x2: int, y2: int| 1 <= x2 < x && 1 <= y2 < s ==> !#[trigger] bad_block(mask, si, x2, y2),
            decreases s - x,
        {
            let mut y: usize = 0;
            while y < s
                invariant
                    si == s as int,
                    2 <= s <= 5,
                    n == s * s,
                    n <= 25,
                    x < s,
                    y <= s,
                    uf_roots(uf).len() == n + 1,
                    roots_in(uf_roots(uf)),
                    roots_joined(mask, si, uf_roots(uf)),
                    done_before(mask, si, uf_roots(uf), x as int, y as int),
                    forall|x2: int, y2: int|
                        1 <= x2 < s && 1 <= y2 < s && (x2 < x || (x2 == x && y2 < y)) ==> !#[trigger] bad_block(mask, si, x2, y2),
                decreases s - y,
            {
                proof {
                    lemma_sq_id(si, x as int, y as int);
                }
                let i = x * s + y;
                if x > 0 && y > 0 {
                    proof {
                        lemma_sq_id(si, x - 1, y as int);
                    }
                    let a = (mask >> (i - s - 1)) & 1 == 1;
                    let b = (mask >> (i - s)) & 1 == 1;
                    let c = (mask >> (i - 1)) & 1 == 1;
                    let d = (mask >> i) & 1 == 1;
                    if (a && b && c && d) || (a && !b && !c && d) || (!a && b && c && !d) {
                        proof {
                            assert(bad_block(mask, si, x as int, y as int));
                        }
                        return Err(SurroundingsError::ForbiddenBlock);
                    }
                }
                let ghost r0 = uf_roots(uf);
                link(&mut uf, mask, s, x, y, 0);
                let ghost r1 = uf_roots(uf);
                link(&mut uf, mask, s, x, y, 1);
                let ghost r2 = uf_roots(uf);
                link(&mut uf, mask, s, x, y, 2);
                let ghost r3 = uf_roots(uf);
                link(&mut uf, mask, s, x, y, 3);
                proof {
                    let r4 = uf_roots(uf);
                    lemma_done_kept(mask, si, r0, r1, x as int, y as int);
                    lemma_done_kept(mask, si, r1, r2, x as int, y as int);
                    lemma_done_kept(mask, si, r2, r3, x as int, y as int);
                    lemma_done_kept(mask, si, r3, r4, x as int, y as int);
                    lemma_edge_kept(mask, si, r1, r2, x as int, y as int, 0);
                    lemma_edge_kept(mask, si, r2, r3, x as int, y as int, 0);
                    lemma_edge_kept(mask, si, r3, r4, x as int, y as int, 0);
                    lemma_edge_kept(mask, si, r2, r3, x as int, y as int, 1);
                    lemma_edge_kept(mask, si, r3, r4, x as int, y as int, 1);
                    lemma_edge_kept(mask, si, r3, r4, x as int, y as int, 2);
                    assert forall|x2: int, y2: int, d: int|
                        sq(si, x2, y2) && (x2 < x || (x2 == x && y2 < y + 1)) && 0 <= d < 4 implies #[trigger] edge_done(
                        mask,
                        si,
                        r4,
                        x2,
                        y2,
                        d,
                    ) by {
                        if x2 == x && y2 == y {
                            assert(0 <= d < 4);
                        }
                    }
                }
                y += 1;
            }
            proof {
                let r = uf_roots(uf);
                assert forall|x2: int, y2: int, d: int|
                    sq(si, x2, y2) && (x2 < x + 1 || (x2 == x + 1 && y2 < 0)) && 0 <= d < 4 implies #[trigger] edge_done(
                    mask,
                    si,
                    r,
                    x2,
                    y2,
                    d,
                ) by {
                    assert(x2 < x || (x2 == x && y2 < s));
                }
            }
            x += 1;
        }
        proof {
            lemma_roots_exact(mask, si, uf_roots(uf));
            assert(!has_bad_block(mask, si));
        }
        self::finish(mask, s, &uf)
    }
}

/// The side `d` of `(x, y)` stays accounted for when the representatives keep what they
/// had in common.
proof fn lemma_edge_kept(mask: usize, s: int, before: Seq<usize>, after: Seq<usize>, x: int, y: int, d: int)
    requires
        sq(s, x, y),
        0 <= d < 4,
        before.len() == s * s + 1,
        after.len() == before.len(),
        keeps_equal(before, after),
        edge_done(mask, s, before, x, y, d),
    ensures
        edge_done(mask, s, after, x, y, d),
{
    lemma_sq_id(s, x, y);
    let nx = x + dir_x(d);
    let ny = y + dir_y(d);
    if sq(s, nx, ny) {
        lemma_sq_id(s, nx, ny);
        if filled(mask, s, x, y) == filled(mask, s, nx, ny) {
            assert(after[sq_id(s, x, y)] == after[sq_id(s, nx, ny)]);
        }
    } else if !filled(mask, s, x, y) {
        assert(after[sq_id(s, x, y)] == after[s * s]);
    }
}

/// The labels so far: `label_of` gives, for the representative of each first square, its
/// number; `reps` are the first squares, on the rim and set, pairwise in different pieces;
/// every set rim square met so far is in the piece of one of them.
pub open spec fn labels_ok(
    mask: usize,
    s: int,
    roots: Seq<usize>,
    label_of: Seq<Option<usize>>,
    reps: Seq<int>,
    repx: Seq<int>,
    repy: Seq<int>,
) -> bool {
    &&& label_of.len() == roots.len()
    &&& repx.len() == reps.len()
    &&& repy.len() == reps.len()
    &&& rep_positions(mask, s, reps, repx, repy)
    &&& forall|t: int| 0 <= t < reps.len() ==> 0 <= reps[t] < s * s && label_of[roots[#[trigger] reps[t] as int] as int] == Some(t as usize)
    &&& forall|r: int|
        0 <= r < label_of.len() && #[trigger] label_of[r] is Some ==> label_of[r]->0 < reps.len() && roots[reps[label_of[r]->0 as int]]
            == r
    &&& forall|t1: int, t2: int|
        0 <= t1 < reps.len() && 0 <= t2 < reps.len() && t1 != t2 ==> !#[trigger] joined(mask, s, reps[t1], #[trigger] reps[t2])
}

/// The first squares are set squares of the rim, at the positions `repx`, `repy`.
pub open spec fn rep_positions(mask: usize, s: int, reps: Seq<int>, repx: Seq<int>, repy: Seq<int>) -> bool {
    &&& repx.len() == reps.len()
    &&& repy.len() == reps.len()
    &&& forall|t: int|
        #![trigger reps[t]]
        #![trigger repx[t]]
        0 <= t < reps.len() ==> sq(s, repx[t], repy[t]) && on_rim(s, repx[t], repy[t]) && filled(mask, s, repx[t], repy[t])
            && reps[t] == sq_id(s, repx[t], repy[t])
}

proof fn lemma_rep_positions_push(mask: usize, s: int, reps: Seq<int>, repx: Seq<int>, repy: Seq<int>, x: int, y: int)
    requires
        rep_positions(mask, s, reps, repx, repy),
        sq(s, x, y),
        on_rim(s, x, y),
        filled(mask, s, x, y),
    ensures
        rep_positions(mask, s, reps.push(sq_id(s, x, y)), repx.push(x), repy.push(y)),
{
    let reps2 = reps.push(sq_id(s, x, y));
    let repx2 = repx.push(x);
    let repy2 = repy.push(y);
    assert forall|t: int|
        #![trigger reps2[t]]
        #![trigger repx2[t]]
        0 <= t < reps2.len() implies sq(s, repx2[t], repy2[t]) && on_rim(s, repx2[t], repy2[t]) && filled(mask, s, repx2[t], repy2[t])
            && reps2[t] == sq_id(s, repx2[t], repy2[t]) by {
        if t < reps.len() {
            assert(reps2[t] == reps[t]);
            assert(repx2[t] == repx[t]);
            assert(repy2[t] == repy[t]);
        } else {
            assert(repx2[t] == x);
            assert(repy2[t] == y);
        }
    }
    assert(repx2.len() == reps2.len());
    assert(repy2.len() == reps2.len());
    assert(rep_positions(mask, s, reps2, repx2, repy2));
}

/// Every set rim square before `(x, y)`, row by row, is in the piece of one of `reps`.
pub open spec fn rim_covered(mask: usize, s: int, reps: Seq<int>, x: int, y: int) -> bool {
    forall|x2: int, y2: int|
        sq(s, x2, y2) && (x2 < x || (x2 == x && y2 < y)) && on_rim(s, x2, y2) && filled(mask, s, x2, y2) ==> exists|t: int|
            0 <= t < reps.len() && #[trigger] joined(mask, s, reps[t], sq_id(s, x2, y2))
}

/// Reads the surroundings off a union-find structure whose sets are the pieces.
fn finish(mask: usize, s: usize, uf: &UnionFind<usize>) -> (r: Result<Surroundings, SurroundingsError>)
    requires
        2 <= s <= 5,
        uf_roots(*uf).len() == s * s + 1,
        roots_in(uf_roots(*uf)),
        !has_bad_block(mask, s as int),
        forall|a: int, b: int|
            0 <= a < uf_roots(*uf).len() && 0 <= b < uf_roots(*uf).len() ==> (uf_roots(*uf)[a] == uf_roots(*uf)[b]
                <==> #[trigger] joined(mask, s as int, a, b)),
    ensures
        match r {
            Err(SurroundingsError::ForbiddenBlock) => false,
            Err(SurroundingsError::Hole) => has_hole(mask, s as int),
            Err(SurroundingsError::Isolated) => !has_hole(mask, s as int) && has_isolated(mask, s as int),
            Ok(sur) => {
                &&& !has_hole(mask, s as int)
                &&& !has_isolated(mask, s as int)
                &&& sur.components@ == rim_labels(mask, s as int, rim_rows(s as int, s as int)).0
            },
        },
{
    let ghost si = s as int;
    let ghost roots = uf_roots(*uf);
    proof {
        assert(s * s <= 25) by (nonlinear_arith)
            requires
                s <= 5,
        ;
    }
    let n = s * s;
    let mut label_of: Vec<Option<usize>> = Vec::new();
    while label_of.len() < n + 1
        invariant
            n <= 25,
            label_of@.len() <= n + 1,
            forall|r: int| 0 <= r < label_of@.len() ==> #[trigger] label_of@[r] is None,
        decreases n + 1 - label_of@.len(),
    {
        label_of.push(None);
    }
    let mut count: usize = 0;
    let mut components: Vec<Option<u8>> = Vec::new();
    let ghost mut reps: Seq<int> = Seq::empty();
    let ghost mut repx: Seq<int> = Seq::empty();
    let ghost mut repy: Seq<int> = Seq::empty();
    let mut x: usize = 0;
    while x < s
        invariant
            si == s as int,
            2 <= s <= 5,
            n == s * s,
            n <= 25,
            x <= s,
            roots == uf_roots(*uf),
            roots.len() == n + 1,
            roots_in(roots),
            forall|a: int, b: int|
                0 <= a < roots.len() && 0 <= b < roots.len() ==> (roots[a] == roots[b] <==> #[trigger] joined(mask, si, a, b)),
            labels_ok(mask, si, roots, label_of@, reps, repx, repy),
            count == reps.len(),
            count <= x * s,
            components@ == rim_labels(mask, si, rim_rows(si, x as int)).0,
            reps == rim_labels(mask, si, rim_rows(si, x as int)).1,
            rim_covered(mask, si, reps, x as int, 0),
            forall|x2: int, y2: int| x2 < x ==> !#[trigger] hole_at(mask, si, x2, y2),
        decreases s - x,
    {
        let mut y: usize = 0;
        while y < s
            invariant
                si == s as int,
                2 <= s <= 5,
                n == s * s,
                n <= 25,
                x < s,
                y <= s,
                roots == uf_roots(*uf),
                roots.len() == n + 1,
                roots_in(roots),
                forall|a: int, b: int|
                    0 <= a < roots.len() && 0 <= b < roots.len() ==> (roots[a] == roots[b] <==> #[trigger] joined(mask, si, a, b)),
                labels_ok(mask, si, roots, label_of@, reps, repx, repy),
                count == reps.len(),
                count <= x * s + y,
                components@ == rim_labels(mask, si, rim_rows(si, x as int) + rim_row(si, x as int, y as int)).0,
                reps == rim_labels(mask, si, rim_rows(si, x as int) + rim_row(si, x as int, y as int)).1,
                rim_covered(mask, si, reps, x as int, y as int),
                forall|x2: int, y2: int| (x2 < x || (x2 == x && y2 < y)) ==> !#[trigger] hole_at(mask, si, x2, y2),
            decreases s - y,
        {
            proof {
                lemma_sq_id(si, x as int, y as int);
                assert(x * s + y + 1 <= s * s) by (nonlinear_arith)
                    requires
                        x < s,
                        y < s,
                ;
            }
            let i = x * s + y;
            let bi = (mask >> i) & 1 == 1;
            let ghost reps0 = reps;
            let ghost cells = rim_rows(si, x as int) + rim_row(si, x as int, y as int);
            let ghost cells2 = rim_rows(si, x as int) + rim_row(si, x as int, y + 1);
            proof {
                if on_rim(si, x as int, y as int) {
                    assert(cells2 =~= cells.push(i as int));
                    assert(cells.push(i as int).drop_last() =~= cells);
                } else {
                    assert(cells2 =~= cells);
                }
            }
            if !(bi || uf_equiv(uf, i, n)) {
                proof {
                    assert(hole_at(mask, si, x as int, y as int));
                }
                return Err(SurroundingsError::Hole);
            }
            let interior = 1 <= x && x + 1 < s && 1 <= y && y + 1 < s;
            let ghost mut w: int = 0;
            if interior {
            } else if !bi {
                components.push(None);
            } else {
                let r = uf_find(uf, i);
                match label_of[r] {
                    Some(l) => {
                        proof {
                            self::lemma_label_found(mask, si, roots, label_of@, reps, repx, repy, i as int, l as int);
                            w = l as int;
                        }
                        components.push(Some(l as u8));
                    },
                    None => {
                        proof {
                            self::lemma_label_new(mask, si, roots, label_of@, reps, repx, repy, i as int);
                        }
                        let ghost before = label_of@;
                        label_of.set(r, Some(count));
                        proof {
                            self::lemma_labels_grow(mask, si, roots, before, label_of@, reps, repx, repy, x as int, y as int);
                        }
                        components.push(Some(count as u8));
                        proof {
                            let old_reps = reps;
                            reps = reps.push(i as int);
                            repx = repx.push(x as int);
                            repy = repy.push(y as int);
                            w = old_reps.len() as int;
                            lemma_joined_refl(mask, si, i as int);
                        }
                        count += 1;
                    },
                }
            }
            proof {
                assert forall|x2: int, y2: int|
                    sq(si, x2, y2) && (x2 < x || (x2 == x && y2 < y + 1)) && on_rim(si, x2, y2) && filled(mask, si, x2, y2) implies exists|
                    t: int,
                | 0 <= t < reps.len() && #[trigger] joined(mask, si, reps[t], sq_id(si, x2, y2)) by {
                    if x2 == x && y2 == y {
                        assert(joined(mask, si, reps[w], sq_id(si, x2, y2)));
                    } else {
                        let t = choose|t: int| 0 <= t < reps0.len() && #[trigger] joined(mask, si, reps0[t], sq_id(si, x2, y2));
                        assert(reps[t] == reps0[t]);
                        assert(joined(mask, si, reps[t], sq_id(si, x2, y2)));
                    }
                }
            }
            y += 1;
        }
        proof {
            assert(y == s);
            assert(components@ == rim_labels(mask, si, rim_rows(si, x as int) + rim_row(si, x as int, si)).0);
            assert(rim_rows(si, x + 1) == rim_rows(si, x as int) + rim_row(si, x as int, si));
            assert(rim_row(si, x + 1, 0) =~= Seq::<int>::empty());
            assert(rim_rows(si, x + 1) + rim_row(si, x + 1, 0) =~= rim_rows(si, x + 1));
            assert(x * s + s == (x + 1) * s) by (nonlinear_arith);
        }
        x += 1;
    }
    proof {
        assert(!has_hole(mask, si)) by {
            if has_hole(mask, si) {
                let (x2, y2) = choose|x2: int, y2: int| #[trigger] hole_at(mask, si, x2, y2);
                assert(x2 < s);
            }
        }
    }
    let mut x: usize = 1;
    while x + 1 < s
        invariant
            si == s as int,
            2 <= s <= 5,
            n == s * s,
            n <= 25,
            1 <= x <= s,
            roots == uf_roots(*uf),
            roots.len() == n + 1,
            roots_in(roots),
            forall|a: int, b: int|
                0 <= a < roots.len() && 0 <= b < roots.len() ==> (roots[a] == roots[b] <==> #[trigger] joined(mask, si, a, b)),
            labels_ok(mask, si, roots, label_of@, reps, repx, repy),
            rim_covered(mask, si, reps, si, 0),
            !has_hole(mask, si),
            forall|x2: int, y2: int| x2 < x ==> !#[trigger] isolated_at(mask, si, x2, y2),
        decreases s - x,
    {
        let mut y: usize = 1;
        while y + 1 < s
            invariant
                si == s as int,
                2 <= s <= 5,
                n == s * s,
                n <= 25,
                1 <= x < s - 1,
                1 <= y <= s,
                roots == uf_roots(*uf),
                roots.len() == n + 1,
                roots_in(roots),
                forall|a: int, b: int|
                    0 <= a < roots.len() && 0 <= b < roots.len() ==> (roots[a] == roots[b] <==> #[trigger] joined(mask, si, a, b)),
                labels_ok(mask, si, roots, label_of@, reps, repx, repy),
                rim_covered(mask, si, reps, si, 0),
                !has_hole(mask, si),
                forall|x2: int, y2: int| (x2 < x || (x2 == x && y2 < y)) ==> !#[trigger] isolated_at(mask, si, x2, y2),
            decreases s - y,
        {
            proof {
                lemma_sq_id(si, x as int, y as int);
            }
            let i = x * s + y;
            if (mask >> i) & 1 == 1 {
                let r = uf_find(uf, i);
                if label_of[r].is_none() {
                    proof {
                        self::lemma_isolated(mask, si, roots, label_of@, reps, repx, repy, x as int, y as int);
                    }
                    return Err(SurroundingsError::Isolated);
                } else {
                    proof {
                        let t = label_of@[r as int]->0 as int;
                        assert(label_of@[r as int] is Some);
                        assert(0 <= t < reps.len());
                        assert(0 <= reps[t] < si * si);
                        assert(roots[reps[t]] == roots[i as int]);
                        assert(joined(mask, si, i as int, reps[t]));
                        assert(joined(mask, si, sq_id(si, x as int, y as int), sq_id(si, repx[t], repy[t])));
                    }
                }
            }
            y += 1;
        }
        x += 1;
    }
    proof {
        assert(!has_isolated(mask, si)) by {
            if has_isolated(mask, si) {
                let (x2, y2) = choose|x2: int, y2: int| #[trigger] isolated_at(mask, si, x2, y2);
                assert(x2 < s - 1);
            }
        }
        assert(rim_row(si, si, 0) =~= Seq::<int>::empty());
    }
    Ok(Surroundings { components })
}

/// A set square whose representative has a number is in the piece of that first square,
/// and that number is what the labels give it.
proof fn lemma_label_found(
    mask: usize,
    s: int,
    roots: Seq<usize>,
    label_of: Seq<Option<usize>>,
    reps: Seq<int>,
    repx: Seq<int>,
    repy: Seq<int>,
    i: int,
    l: int,
)
    requires
        labels_ok(mask, s, roots, label_of, reps, repx, repy),
        forall|a: int, b: int| 0 <= a < roots.len() && 0 <= b < roots.len() ==> (roots[a] == roots[b] <==> #[trigger] joined(mask, s, a, b)),
        roots_in(roots),
        roots.len() == s * s + 1,
        0 <= i < s * s,
        label_of[roots[i] as int] == Some(l as usize),
        0 <= l <= usize::MAX,
        reps.len() <= 25,
    ensures
        0 <= l < reps.len(),
        l < 25,
        joined(mask, s, reps[l], i),
        exists|t: int| 0 <= t < reps.len() && #[trigger] joined(mask, s, reps[t], i),
        (choose|t: int| 0 <= t < reps.len() && #[trigger] joined(mask, s, reps[t], i)) == l,
{
    assert(roots[i] < roots.len());
    assert(label_of[roots[i] as int] is Some);
    assert(roots[reps[l]] == roots[i]);
    assert(joined(mask, s, reps[l], i));
    let t = choose|t: int| 0 <= t < reps.len() && #[trigger] joined(mask, s, reps[t], i);
    if t != l {
        lemma_joined_sym(mask, s, reps[l], i);
        lemma_joined_trans(mask, s, reps[t], i, reps[l]);
    }
}

/// A set square whose representative has no number is in the piece of none of the first
/// squares.
proof fn lemma_label_new(
    mask: usize,
    s: int,
    roots: Seq<usize>,
    label_of: Seq<Option<usize>>,
    reps: Seq<int>,
    repx: Seq<int>,
    repy: Seq<int>,
    i: int,
)
    requires
        labels_ok(mask, s, roots, label_of, reps, repx, repy),
        forall|a: int, b: int| 0 <= a < roots.len() && 0 <= b < roots.len() ==> (roots[a] == roots[b] <==> #[trigger] joined(mask, s, a, b)),
        roots_in(roots),
        roots.len() == s * s + 1,
        0 <= i < s * s,
        label_of[roots[i] as int] is None,
    ensures
        !exists|t: int| 0 <= t < reps.len() && #[trigger] joined(mask, s, reps[t], i),
{
    if exists|t: int| 0 <= t < reps.len() && #[trigger] joined(mask, s, reps[t], i) {
        let t = choose|t: int| 0 <= t < reps.len() && #[trigger] joined(mask, s, reps[t], i);
        assert(roots[reps[t]] == roots[i]);
        assert(label_of[roots[reps[t] as int] as int] == Some(t as usize));
    }
}

/// Numbering a new first square keeps the labels consistent.
proof fn lemma_labels_grow(
    mask: usize,
    s: int,
    roots: Seq<usize>,
    before: Seq<Option<usize>>,
    after: Seq<Option<usize>>,
    reps: Seq<int>,
    repx: Seq<int>,
    repy: Seq<int>,
    x: int,
    y: int,
)
    requires
        labels_ok(mask, s, roots, before, reps, repx, repy),
        forall|a: int, b: int| 0 <= a < roots.len() && 0 <= b < roots.len() ==> (roots[a] == roots[b] <==> #[trigger] joined(mask, s, a, b)),
        roots_in(roots),
        roots.len() == s * s + 1,
        sq(s, x, y),
        on_rim(s, x, y),
        filled(mask, s, x, y),
        0 <= sq_id(s, x, y) < s * s,
        before[roots[sq_id(s, x, y)] as int] is None,
        !exists|t: int| 0 <= t < reps.len() && #[trigger] joined(mask, s, reps[t], sq_id(s, x, y)),
        after == before.update(roots[sq_id(s, x, y)] as int, Some(reps.len() as usize)),
        reps.len() <= 25,
    ensures
        labels_ok(mask, s, roots, after, reps.push(sq_id(s, x, y)), repx.push(x), repy.push(y)),
{
    let i = sq_id(s, x, y);
    let reps2 = reps.push(i);
    let repx2 = repx.push(x);
    let repy2 = repy.push(y);
    assert(roots[i] < roots.len());
    assert forall|t: int| 0 <= t < reps2.len() implies 0 <= reps2[t] < s * s && after[roots[#[trigger] reps2[t] as int] as int]
        == Some(t as usize) by {
        if t < reps.len() {
            assert(reps2[t] == reps[t]);
            if roots[reps[t]] == roots[i] {
                assert(joined(mask, s, reps[t], i));
            }
        }
    }
    assert forall|r: int| 0 <= r < after.len() && #[trigger] after[r] is Some implies after[r]->0 < reps2.len() && roots[reps2[(
        after[r]->0) as int]] == r by {
        if r != roots[i] {
            assert(before[r] is Some);
        }
    }
    assert forall|t1: int, t2: int|
        0 <= t1 < reps2.len() && 0 <= t2 < reps2.len() && t1 != t2 implies !#[trigger] joined(mask, s, reps2[t1], #[trigger] reps2[t2]) by {
        if t1 == reps.len() {
            if joined(mask, s, reps2[t1], reps2[t2]) {
                lemma_joined_sym(mask, s, i, reps[t2]);
            }
        } else if t2 == reps.len() {
            assert(reps2[t1] == reps[t1]);
        } else {
            assert(reps2[t1] == reps[t1]);
            assert(reps2[t2] == reps[t2]);
        }
    }
    lemma_rep_positions_push(mask, s, reps, repx, repy, x, y);
}

/// A set square inside the rim whose representative has no number is isolated.
proof fn lemma_isolated(
    mask: usize,
    s: int,
    roots: Seq<usize>,
    label_of: Seq<Option<usize>>,
    reps: Seq<int>,
    repx: Seq<int>,
    repy: Seq<int>,
    x: int,
    y: int,
)
    requires
        labels_ok(mask, s, roots, label_of, reps, repx, repy),
        forall|a: int, b: int| 0 <= a < roots.len() && 0 <= b < roots.len() ==> (roots[a] == roots[b] <==> #[trigger] joined(mask, s, a, b)),
        roots_in(roots),
        roots.len() == s * s + 1,
        rim_covered(mask, s, reps, s, 0),
        1 <= x < s - 1,
        1 <= y < s - 1,
        filled(mask, s, x, y),
        0 <= sq_id(s, x, y) < s * s,
        label_of[roots[sq_id(s, x, y)] as int] is None,
    ensures
        isolated_at(mask, s, x, y),
        has_isolated(mask, s),
{
    let i = sq_id(s, x, y);
    if exists|x2: int, y2: int| sq(s, x2, y2) && on_rim(s, x2, y2) && filled(mask, s, x2, y2) && #[trigger] joined(mask, s, i, sq_id(s, x2, y2)) {
        let (x2, y2) = choose|x2: int, y2: int|
            sq(s, x2, y2) && on_rim(s, x2, y2) && filled(mask, s, x2, y2) && #[trigger] joined(mask, s, i, sq_id(s, x2, y2));
        assert(x2 < s);
        let t = choose|t: int| 0 <= t < reps.len() && #[trigger] joined(mask, s, reps[t], sq_id(s, x2, y2));
        lemma_joined_sym(mask, s, i, sq_id(s, x2, y2));
        lemma_joined_trans(mask, s, reps[t], sq_id(s, x2, y2), i);
        lemma_sq_id(s, x2, y2);
        assert(roots[reps[t]] == roots[i]);
        assert(label_of[roots[reps[t] as int] as int] == Some(t as usize));
    }
    assert(isolated_at(mask, s, x, y));
}

} // verus!
