use vstd::prelude::*;
use vstd::arithmetic::power2::{pow2, lemma_pow2_pos};
use crate::check::bits::{bits_value, bit32, to_bits, all_bits, lemma_to_bits_value, lemma_u32_shl_pow2, lemma_all_bits_value, lemma_bits_value_injective};
use crate::data::tight_poly::TightPoly;
use crate::data::vector::Vector;

verus! {

/// The order of points: by row, then by column.
pub open spec fn point_lt(a: Vector<i32>, b: Vector<i32>) -> bool {
    a.x < b.x || (a.x == b.x && a.y < b.y)
}

/// The list holds each point once, in increasing order.
pub open spec fn sorted_points(s: Seq<Vector<i32>>) -> bool {
    forall|i: int, j: int| 0 <= i < j < s.len() ==> point_lt(#[trigger] s[i], #[trigger] s[j])
}

/// Inserts a point missing from a sorted list.
fn sorted_insert(v: &mut Vec<Vector<i32>>, p: Vector<i32>)
    requires
        sorted_points(old(v)@),
        !old(v)@.contains(p),
    ensures
        sorted_points(final(v)@),
        forall|q: Vector<i32>| final(v)@.contains(q) <==> (old(v)@.contains(q) || q == p),
{
    let mut j: usize = 0;
    while j < v.len() && (v[j].x < p.x || (v[j].x == p.x && v[j].y < p.y))
        invariant
            j <= v.len(),
            forall|i: int| 0 <= i < j ==> point_lt(#[trigger] v@[i], p),
        decreases v.len() - j,
    {
        j += 1;
    }
    let ghost before = v@;
    v.insert(j, p);
    proof {
        assert forall|a: int, b: int| 0 <= a < b < v@.len() implies point_lt(#[trigger] v@[a], #[trigger] v@[b]) by {
            if b < j {
                assert(v@[a] == before[a] && v@[b] == before[b]);
            } else if b == j {
                assert(v@[a] == before[a]);
            } else if a > j {
                assert(v@[a] == before[a - 1] && v@[b] == before[b - 1]);
            } else if a == j {
                assert(v@[b] == before[b - 1]);
                assert(before[j as int] != p);
                assert(!point_lt(before[j as int], p));
                if b - 1 > j {
                    assert(point_lt(before[j as int], before[b - 1]));
                }
            } else {
                assert(v@[a] == before[a] && v@[b] == before[b - 1]);
                if b - 1 > j {
                    assert(point_lt(before[j as int], before[b - 1]));
                    assert(before[j as int] != p);
                }
            }
        }
        assert forall|q: Vector<i32>| v@.contains(q) <==> (before.contains(q) || q == p) by {
            if v@.contains(q) {
                let k = choose|k: int| 0 <= k < v@.len() && v@[k] == q;
                if k < j {
                    assert(before[k] == q);
                } else if k > j {
                    assert(before[k - 1] == q);
                }
            }
            if before.contains(q) {
                let k = choose|k: int| 0 <= k < before.len() && before[k] == q;
                if k < j {
                    assert(v@[k] == q);
                } else {
                    assert(v@[k + 1] == q);
                }
            }
            if q == p {
                assert(v@[j as int] == p);
            }
        }
    }
}

/// Removes a point from a sorted list that holds it.
fn sorted_remove(v: &mut Vec<Vector<i32>>, p: Vector<i32>)
    requires
        sorted_points(old(v)@),
        old(v)@.contains(p),
    ensures
        sorted_points(final(v)@),
        forall|q: Vector<i32>| final(v)@.contains(q) <==> (old(v)@.contains(q) && q != p),
{
    let mut j: usize = 0;
    while j < v.len() && !(v[j].x == p.x && v[j].y == p.y)
        invariant
            j <= v.len(),
            forall|i: int| 0 <= i < j ==> v@[i] != p,
        decreases v.len() - j,
    {
        j += 1;
    }
    proof {
        if j == v.len() {
            let k = choose|k: int| 0 <= k < v@.len() && v@[k] == p;
            assert(v@[k] != p);
        }
    }
    let ghost before = v@;
    v.remove(j);
    proof {
        assert(before[j as int] == p);
        assert forall|a: int, b: int| 0 <= a < b < v@.len() implies point_lt(#[trigger] v@[a], #[trigger] v@[b]) by {
            let a1 = if a < j { a } else { a + 1 };
            let b1 = if b < j { b } else { b + 1 };
            assert(v@[a] == before[a1] && v@[b] == before[b1]);
        }
        assert forall|q: Vector<i32>| v@.contains(q) <==> (before.contains(q) && q != p) by {
            if v@.contains(q) {
                let k = choose|k: int| 0 <= k < v@.len() && v@[k] == q;
                let k1 = if k < j { k } else { k + 1 };
                assert(before[k1] == q);
                if q == p {
                    assert(k1 != j);
                    if k1 < j {
                        assert(point_lt(before[k1], before[j as int]));
                    } else {
                        assert(point_lt(before[j as int], before[k1]));
                    }
                }
            }
            if before.contains(q) && q != p {
                let k = choose|k: int| 0 <= k < before.len() && before[k] == q;
                assert(k != j);
                if k < j {
                    assert(v@[k] == q);
                } else {
                    assert(v@[k - 1] == q);
                }
            }
        }
    }
}

/// For each placement of the problem on a `side x side` board of cells, which of the
/// problem's cells the board holds, and the placements that the board holds whole.
#[derive(Clone)]
pub struct Cover1Queries {
    problem_cells: Vec<Vector<i32>>,
    full_mask: usize,
    side: usize,
    mask: Vec<usize>,
    cover1: Vec<Vector<i32>>,
    board: Ghost<Set<(int, int)>>,
}

impl Cover1Queries {
    /// The problem's cells.
    pub closed spec fn cells(self) -> Seq<Vector<i32>> {
        self.problem_cells@
    }

    /// The side of the board.
    pub closed spec fn side_spec(self) -> nat {
        self.side as nat
    }

    /// The cells of the board that were flipped an odd number of times.
    pub closed spec fn board_cells(self) -> Set<(int, int)> {
        self.board@
    }

    /// The placement of the problem at `r` lies on cells of the board.
    pub open spec fn fits_board(self, r: (int, int)) -> bool {
        forall|i: int| 0 <= i < self.cells().len() ==> self.board_cells().contains(
            (r.0 + (#[trigger] self.cells()[i]).x, r.1 + self.cells()[i].y),
        )
    }

    /// The offsets of the placements of the problem whose origin lies in the first
    /// `side x side` square and that the board holds whole, negated.
    pub open spec fn is_cover1(self, v: Vector<i32>) -> bool {
        &&& self.cells().len() > 0
        &&& 0 <= -v.x < self.side_spec()
        &&& 0 <= -v.y < self.side_spec()
        &&& self.fits_board((-v.x, -v.y))
    }

    closed spec fn entry(self, r: (int, int)) -> int {
        r.0 * self.side + r.1
    }

    closed spec fn full(self) -> nat {
        (pow2(self.problem_cells@.len()) - 1) as nat
    }

    /// The consistency of the representation.
    pub closed spec fn wf(self) -> bool {
        let n = self.problem_cells@.len();
        &&& n <= 31
        &&& self.full_mask == self.full()
        &&& self.side <= 0x4000
        &&& self.mask@.len() == self.side * self.side
        &&& forall|k: int| 0 <= k < n ==> 0 <= (#[trigger] self.problem_cells@[k]).x < 0x4000 && 0 <= self.problem_cells@[k].y < 0x4000
        &&& forall|a: int, b: int| 0 <= a < b < n ==> self.problem_cells@[a] != self.problem_cells@[b]
        &&& forall|a: int, b: int| 0 <= a < self.side && 0 <= b < self.side ==> {
            let m = #[trigger] self.mask@[self.entry((a, b))];
            &&& m < pow2(n)
            &&& forall|i: int| 0 <= i < n ==> #[trigger] bit32(m as u32, i) == self.board@.contains(
                (a + self.problem_cells@[i].x, b + self.problem_cells@[i].y),
            )
        }
        &&& sorted_points(self.cover1@)
        &&& forall|v: Vector<i32>| self.cover1@.contains(v) <==> (n > 0 && 0 <= -v.x < self.side && 0 <= -v.y < self.side
            && self.mask@[self.entry((-v.x, -v.y))] == self.full())
    }

    proof fn lemma_entry(self, a: int, b: int)
        requires
            0 <= a < self.side,
            0 <= b < self.side,
            self.side <= 0x4000,
        ensures
            0 <= self.entry((a, b)) < self.side * self.side,
            forall|c: int, d: int| 0 <= c < self.side && 0 <= d < self.side && #[trigger] self.entry((c, d)) == self.entry((a, b)) ==> c == a && d == b,
    {
        let s = self.side as int;
        assert(0 <= a * s + b < s * s) by (nonlinear_arith)
            requires
                0 <= a < s,
                0 <= b < s,
        ;
        assert forall|c: int, d: int| 0 <= c < s && 0 <= d < s && #[trigger] self.entry((c, d)) == self.entry((a, b)) implies c == a && d == b by {
            assert(c == a && d == b) by (nonlinear_arith)
                requires
                    c * s + d == a * s + b,
                    0 <= d < s,
                    0 <= b < s,
                    c >= 0,
                    a >= 0,
            ;
        }
    }

    /// A full mask holds every cell.
    proof fn lemma_full_bits(m: usize, n: nat)
        requires
            n <= 31,
            m < pow2(n),
        ensures
            (m == pow2(n) - 1) == (forall|i: int| 0 <= i < n ==> #[trigger] bit32(m as u32, i)),
    {
        lemma_u32_shl_pow2(n as u32);
        lemma_pow2_pos(n);
        let mu = m as u32;
        lemma_to_bits_value(mu, n);
        lemma_all_bits_value(n);
        if forall|i: int| 0 <= i < n ==> #[trigger] bit32(m as u32, i) {
            assert(to_bits(mu, n) =~= all_bits(n));
        }
        if m == pow2(n) - 1 {
            lemma_bits_value_injective(to_bits(mu, n), all_bits(n));
            assert forall|i: int| 0 <= i < n implies #[trigger] bit32(m as u32, i) by {
                assert(to_bits(mu, n)[i]);
            }
        }
    }

    /// An empty board of side `side` for the problem.
    pub fn new(problem: TightPoly, side: usize) -> (r: Self)
        requires
            problem.wf(),
            problem.h() <= 512,
            side <= 0x4000,
            crate::check::check::num_cells(problem) <= 31,
        ensures
            r.wf(),
            problem.is_cell_list(r.cells()),
            r.side_spec() == side,
            r.board_cells() == Set::<(int, int)>::empty(),
    {
        let problem_cells = problem.cells();
        proof {
            crate::check::check::lemma_cell_list_len(problem, problem_cells@);
            lemma_u32_shl_pow2(problem_cells.len() as u32);
            crate::check::check::lemma_shl_pow2(problem_cells.len());
            lemma_pow2_pos(problem_cells.len() as nat);
        }
        let full_mask = (1usize << problem_cells.len()) - 1;
        proof {
            assert(side * side <= 0x1000_0000) by (nonlinear_arith)
                requires
                    side <= 0x4000,
            ;
        }
        let mut mask: Vec<usize> = Vec::new();
        while mask.len() < side * side
            invariant
                mask.len() <= side * side,
                side <= 0x4000,
                side * side <= 0x1000_0000,
                forall|i: int| 0 <= i < mask.len() ==> mask@[i] == 0usize,
            decreases side * side - mask.len(),
        {
            mask.push(0);
        }
        let cover1: Vec<Vector<i32>> = Vec::new();
        let r = Self { problem_cells, full_mask, side, mask, cover1, board: Ghost(Set::empty()) };
        proof {
            let n = problem_cells@.len();
            lemma_pow2_pos(n);
            assert forall|a: int, b: int| 0 <= a < side && 0 <= b < side implies {
                let m = #[trigger] r.mask@[r.entry((a, b))];
                &&& m < pow2(n)
                &&& forall|i: int| 0 <= i < n ==> #[trigger] bit32(m as u32, i) == r.board@.contains(
                    (a + r.problem_cells@[i].x, b + r.problem_cells@[i].y),
                )
            } by {
                r.lemma_entry(a, b);
                assert forall|i: int| 0 <= i < n implies !#[trigger] bit32(0u32, i) by {
                    let iu = i as u32;
                    assert((0u32 >> iu) & 1u32 == 0u32) by (bit_vector);
                }
            }
            assert forall|a: int, b: int| 0 <= a < b < n implies r.problem_cells@[a] != r.problem_cells@[b] by {
                let (p, q) = (problem_cells@[a], problem_cells@[b]);
                assert(p.x < q.x || (p.x == q.x && p.y < q.y));
            }
            assert forall|k: int| 0 <= k < n implies 0 <= (#[trigger] r.problem_cells@[k]).x < 0x4000 && 0 <= r.problem_cells@[k].y < 0x4000 by {
                assert(problem.cell(problem_cells@[k].x as int, problem_cells@[k].y as int));
            }
            assert forall|v: Vector<i32>| r.cover1@.contains(v) <==> (n > 0 && 0 <= -v.x < side && 0 <= -v.y < side
                && r.mask@[r.entry((-v.x, -v.y))] == r.full()) by {
                if n > 0 && 0 <= -v.x < side && 0 <= -v.y < side {
                    r.lemma_entry(-v.x, -v.y);
                    lemma_pow2_pos(n);
                    assert(pow2(n) >= 2) by {
                        vstd::arithmetic::power2::lemma_pow2_strictly_increases(0, n);
                        vstd::arithmetic::power2::lemma2_to64();
                    }
                }
            }
        }
        r
    }

    /// Flips the board cell `p`.
    pub fn flip(&mut self, p: Vector<i32>)
        requires
            old(self).wf(),
            0 <= p.x < 0x4000,
            0 <= p.y < 0x4000,
            forall|i: int| 0 <= i < old(self).cells().len() && (#[trigger] old(self).cells()[i]).x <= p.x && old(self).cells()[i].y <= p.y
                ==> p.x - old(self).cells()[i].x < old(self).side_spec() && p.y - old(self).cells()[i].y < old(self).side_spec(),
        ensures
            final(self).wf(),
            final(self).cells() == old(self).cells(),
            final(self).side_spec() == old(self).side_spec(),
            final(self).board_cells() == if old(self).board_cells().contains((p.x as int, p.y as int)) {
                old(self).board_cells().remove((p.x as int, p.y as int))
            } else {
                old(self).board_cells().insert((p.x as int, p.y as int))
            },
    {
        let ghost o = *old(self);
        let ghost n = o.problem_cells@.len();
        let ghost pp = (p.x as int, p.y as int);
        let ghost nb = if o.board@.contains(pp) { o.board@.remove(pp) } else { o.board@.insert(pp) };
        let mut i: usize = 0;
        while i < self.problem_cells.len()
            invariant
                o.wf(),
                self.problem_cells == o.problem_cells,
                self.full_mask == o.full_mask,
                self.side == o.side,
                self.board == o.board,
                n == o.problem_cells@.len(),
                i <= n,
                0 <= p.x < 0x4000,
                0 <= p.y < 0x4000,
                forall|k: int| 0 <= k < o.cells().len() && (#[trigger] o.cells()[k]).x <= p.x && o.cells()[k].y <= p.y
                    ==> p.x - o.cells()[k].x < o.side_spec() && p.y - o.cells()[k].y < o.side_spec(),
                self.mask@.len() == o.mask@.len(),
                forall|a: int, b: int| 0 <= a < self.side && 0 <= b < self.side ==> {
                    let m = #[trigger] self.mask@[self.entry((a, b))];
                    &&& m < pow2(n)
                    &&& forall|j: int| 0 <= j < n ==> #[trigger] bit32(m as u32, j) == (o.board@.contains(
                        (a + self.problem_cells@[j].x, b + self.problem_cells@[j].y),
                    ) != (j < i && (a + self.problem_cells@[j].x == p.x && b + self.problem_cells@[j].y == p.y)))
                },
                sorted_points(self.cover1@),
                forall|v: Vector<i32>| self.cover1@.contains(v) <==> (n > 0 && 0 <= -v.x < self.side && 0 <= -v.y < self.side
                    && self.mask@[self.entry((-v.x, -v.y))] == self.full()),
            decreases n - i,
        {
            let ghost head = *self;
            let q = self.problem_cells[i];
            if p.x < q.x || p.y < q.y {
                proof {
                    let s = *self;
                    assert forall|a: int, b: int| 0 <= a < s.side && 0 <= b < s.side implies {
                        let mm = #[trigger] s.mask@[s.entry((a, b))];
                        &&& mm < pow2(n)
                        &&& forall|j: int| 0 <= j < n ==> #[trigger] bit32(mm as u32, j) == (o.board@.contains(
                            (a + s.problem_cells@[j].x, b + s.problem_cells@[j].y),
                        ) != (j < i + 1 && (a + s.problem_cells@[j].x == p.x && b + s.problem_cells@[j].y == p.y)))
                    } by {
                        let mm = s.mask@[s.entry((a, b))];
                        assert(mm < pow2(n));
                        assert forall|j: int| 0 <= j < n implies #[trigger] bit32(mm as u32, j) == (o.board@.contains(
                            (a + s.problem_cells@[j].x, b + s.problem_cells@[j].y),
                        ) != (j < i + 1 && (a + s.problem_cells@[j].x == p.x && b + s.problem_cells@[j].y == p.y))) by {
                            assert(bit32(mm as u32, j) == (o.board@.contains(
                                (a + s.problem_cells@[j].x, b + s.problem_cells@[j].y),
                            ) != (j < i && (a + s.problem_cells@[j].x == p.x && b + s.problem_cells@[j].y == p.y))));
                            if j == i {
                                assert(s.problem_cells@[j] == q);

                            }
                        }
                    }
                }
                i += 1;
                continue;
            }
            let r = p.minus(&q);
            let ghost ent = self.entry((r.x as int, r.y as int));
            let ghost prev_mask = self.mask@;
            let ghost prev_cover = self.cover1@;
            proof {
                assert(o.cells()[i as int] == q);
                self.lemma_entry(r.x as int, r.y as int);
                assert(r.x < self.side && r.y < self.side);
                assert((r.x as int) * self.side + r.y < self.side * self.side) by (nonlinear_arith)
                    requires
                        0 <= r.x < self.side,
                        0 <= r.y < self.side,
                ;
                assert(self.side * self.side <= 0x1000_0000) by (nonlinear_arith)
                    requires
                        self.side <= 0x4000,
                ;
            }
            let e = r.x as usize * self.side + r.y as usize;
            proof {
                assert(e == ent);
            }
            let m = self.mask[e];
            let nr = r.negated();
            if m == self.full_mask {
                sorted_remove(&mut self.cover1, nr);
            }
            proof {
                crate::check::check::lemma_shl_pow2(i);
                crate::check::check::lemma_shl_pow2(n as usize);
                lemma_u32_shl_pow2(n as u32);
                assert(self.mask@[self.entry((r.x as int, r.y as int))] < pow2(n));
            }
            let m2 = m ^ (1usize << i);
            proof {
                let (mu, iu) = (m as u32, i as u32);
                let nu = n as u32;
                assert(m2 < (1usize << (nu as usize)) && (m2 as u32) == (mu ^ (1u32 << iu))) by (bit_vector)
                    requires
                        m < (1usize << (nu as usize)),
                        nu <= 31,
                        iu < nu,
                        mu == m as u32,
                        m2 == m ^ (1usize << (iu as usize)),
                ;
                assert forall|j: int| 0 <= j < 32 implies #[trigger] bit32(m2 as u32, j) == (bit32(mu, j) != (j == i)) by {
                    let ju = j as u32;
                    assert((((mu ^ (1u32 << iu)) >> ju) & 1u32 == 1u32) == (((mu >> ju) & 1u32 == 1u32) != (ju == iu))) by (bit_vector)
                        requires
                            iu < 32,
                            ju < 32,
                    ;
                }
            }
            self.mask.set(e, m2);
            if m2 == self.full_mask {
                proof {
                    assert(!self.cover1@.contains(nr));
                }
                sorted_insert(&mut self.cover1, nr);
            }
            proof {
                let s = *self;
                assert forall|a: int, b: int| 0 <= a < s.side && 0 <= b < s.side implies {
                    let mm = #[trigger] s.mask@[s.entry((a, b))];
                    &&& mm < pow2(n)
                    &&& forall|j: int| 0 <= j < n ==> #[trigger] bit32(mm as u32, j) == (o.board@.contains(
                        (a + s.problem_cells@[j].x, b + s.problem_cells@[j].y),
                    ) != (j < i + 1 && (a + s.problem_cells@[j].x == p.x && b + s.problem_cells@[j].y == p.y)))
                } by {
                    s.lemma_entry(a, b);
                    let mm0 = head.mask@[head.entry((a, b))];
                    assert(mm0 < pow2(n));
                    if a == r.x && b == r.y {
                        assert(mm0 == m);
                        assert forall|j: int| 0 <= j < n implies #[trigger] bit32(s.mask@[s.entry((a, b))] as u32, j) == (o.board@.contains(
                            (a + s.problem_cells@[j].x, b + s.problem_cells@[j].y),
                        ) != (j < i + 1 && (a + s.problem_cells@[j].x == p.x && b + s.problem_cells@[j].y == p.y))) by {
                            assert(bit32(mm0 as u32, j) == (o.board@.contains(
                                (a + s.problem_cells@[j].x, b + s.problem_cells@[j].y),
                            ) != (j < i && (a + s.problem_cells@[j].x == p.x && b + s.problem_cells@[j].y == p.y))));
                            if j != i && (a + s.problem_cells@[j].x == p.x && b + s.problem_cells@[j].y == p.y) {
                                assert(s.problem_cells@[j] == s.problem_cells@[i as int]);
                            }
                        }
                    } else {
                        assert(s.entry((r.x as int, r.y as int)) == ent);
                        assert(s.entry((a, b)) != ent);
                        assert(s.mask@[s.entry((a, b))] == prev_mask[s.entry((a, b))]);
                        assert forall|j: int| 0 <= j < n implies #[trigger] bit32(s.mask@[s.entry((a, b))] as u32, j) == (o.board@.contains(
                            (a + s.problem_cells@[j].x, b + s.problem_cells@[j].y),
                        ) != (j < i + 1 && (a + s.problem_cells@[j].x == p.x && b + s.problem_cells@[j].y == p.y))) by {
                            assert(bit32(mm0 as u32, j) == (o.board@.contains(
                                (a + s.problem_cells@[j].x, b + s.problem_cells@[j].y),
                            ) != (j < i && (a + s.problem_cells@[j].x == p.x && b + s.problem_cells@[j].y == p.y))));
                            if j == i && (a + s.problem_cells@[j].x == p.x && b + s.problem_cells@[j].y == p.y) {
                                assert(a == r.x && b == r.y);
                            }
                        }
                    }
                }
                assert forall|v: Vector<i32>| s.cover1@.contains(v) <==> (n > 0 && 0 <= -v.x < s.side && 0 <= -v.y < s.side
                    && s.mask@[s.entry((-v.x, -v.y))] == s.full()) by {
                    if v == nr {
                        assert(-v.x == r.x && -v.y == r.y);
                    } else if 0 <= -v.x < s.side && 0 <= -v.y < s.side {
                        s.lemma_entry(-v.x, -v.y);
                        assert(s.entry((r.x as int, r.y as int)) == ent);
                        if s.entry((-v.x, -v.y)) == ent {
                            assert(-v.x == r.x && -v.y == r.y);
                        }
                        assert(s.mask@[s.entry((-v.x, -v.y))] == prev_mask[s.entry((-v.x, -v.y))]);
                    }
                }
            }
            i += 1;
        }
        let ghost t = *self;
        proof {
            self.board = Ghost(nb);
            let s = *self;
            assert(s.mask == t.mask && s.side == t.side && s.problem_cells == t.problem_cells);
            assert forall|a: int, b: int| 0 <= a < s.side && 0 <= b < s.side implies {
                let m = #[trigger] s.mask@[s.entry((a, b))];
                &&& m < pow2(n)
                &&& forall|j: int| 0 <= j < n ==> #[trigger] bit32(m as u32, j) == s.board@.contains(
                    (a + s.problem_cells@[j].x, b + s.problem_cells@[j].y),
                )
            } by {
                let m = t.mask@[t.entry((a, b))];
                assert(m < pow2(n));
                assert forall|j: int| 0 <= j < n implies #[trigger] bit32(s.mask@[s.entry((a, b))] as u32, j) == s.board@.contains(
                    (a + s.problem_cells@[j].x, b + s.problem_cells@[j].y),
                ) by {
                    let c = (a + s.problem_cells@[j].x, b + s.problem_cells@[j].y);
                    assert(bit32(m as u32, j) == (o.board@.contains(c) != (j < i && c.0 == p.x && c.1 == p.y)));
                    assert(nb.contains(c) == (o.board@.contains(c) != (c.0 == p.x && c.1 == p.y)));
                }
            }
        }
    }

    /// The negated offsets of the placements of the problem that the board holds whole,
    /// in increasing order.
    pub fn coverings1(&self) -> (r: &Vec<Vector<i32>>)
        requires
            self.wf(),
        ensures
            sorted_points(r@),
            forall|v: Vector<i32>| r@.contains(v) <==> self.is_cover1(v),
    {
        proof {
            let n = self.problem_cells@.len();
            assert forall|v: Vector<i32>| self.cover1@.contains(v) <==> self.is_cover1(v) by {
                if 0 <= -v.x < self.side && 0 <= -v.y < self.side {
                    let (a, b) = (-v.x, -v.y);
                    let m = self.mask@[self.entry((a, b))];
                    self.lemma_entry(a, b);
                    assert(m < pow2(n));
                    Self::lemma_full_bits(m, n);
                    if self.fits_board((a, b)) {
                        assert forall|i: int| 0 <= i < n implies #[trigger] bit32(m as u32, i) by {
                            assert(self.board_cells().contains((a + self.cells()[i].x, b + self.cells()[i].y)));
                        }
                    }
                    if m == self.full() {
                        assert forall|i: int| 0 <= i < n implies self.board_cells().contains(
                            (a + (#[trigger] self.cells()[i]).x, b + self.cells()[i].y),
                        ) by {
                            assert(bit32(m as u32, i));
                        }
                    }
                }
            }
        }
        &self.cover1
    }
}

/// The number of times `p` occurs in `ps`.
pub open spec fn occurrences<T>(ps: Seq<T>, p: T) -> nat
    decreases ps.len(),
{
    if ps.len() == 0 {
        0
    } else {
        occurrences(ps.drop_last(), p) + if ps.last() == p { 1nat } else { 0nat }
    }
}

/// The points as pairs of integers.
pub open spec fn point_pairs(ps: Seq<Vector<i32>>) -> Seq<(int, int)> {
    ps.map_values(|v: Vector<i32>| (v.x as int, v.y as int))
}

/// `b` is `a` after the flip of the point `p`, as `flip` states it.
pub open spec fn flip_step(a: Cover1Queries, b: Cover1Queries, p: Vector<i32>) -> bool {
    &&& b.wf()
    &&& b.cells() == a.cells()
    &&& b.side_spec() == a.side_spec()
    &&& b.board_cells() == if a.board_cells().contains((p.x as int, p.y as int)) {
        a.board_cells().remove((p.x as int, p.y as int))
    } else {
        a.board_cells().insert((p.x as int, p.y as int))
    }
}

/// From an empty board, after the points `ps` are flipped one by one, the board holds
/// exactly the points flipped an odd number of times, and the covers by one copy are the
/// placements of the problem on those points.
pub proof fn lemma_flip_run(qs: Seq<Cover1Queries>, ps: Seq<Vector<i32>>)
    requires
        qs.len() == ps.len() + 1,
        qs[0].board_cells() == Set::<(int, int)>::empty(),
        forall|i: int| 0 <= i < ps.len() ==> #[trigger] flip_step(qs[i], qs[i + 1], ps[i]),
    ensures
        forall|x: int, y: int| #[trigger] qs.last().board_cells().contains((x, y)) <==> occurrences(point_pairs(ps), (x, y)) % 2 == 1,
        qs.last().cells() == qs[0].cells(),
        forall|v: Vector<i32>| #[trigger] qs.last().is_cover1(v) <==> {
            &&& qs[0].cells().len() > 0
            &&& 0 <= -v.x < qs[0].side_spec()
            &&& 0 <= -v.y < qs[0].side_spec()
            &&& forall|i: int| 0 <= i < qs[0].cells().len() ==> occurrences(
                point_pairs(ps),
                (-v.x + (#[trigger] qs[0].cells()[i]).x, -v.y + qs[0].cells()[i].y),
            ) % 2 == 1
        },
    decreases ps.len(),
{
    if ps.len() > 0 {
        let n = ps.len() - 1;
        let qs1 = qs.drop_last();
        let ps1 = ps.drop_last();
        assert forall|i: int| 0 <= i < ps1.len() implies #[trigger] flip_step(qs1[i], qs1[i + 1], ps1[i]) by {
            assert(flip_step(qs[i], qs[i + 1], ps[i]));
        }
        lemma_flip_run(qs1, ps1);
        assert(flip_step(qs[n], qs[n + 1], ps[n]));
        assert(point_pairs(ps).drop_last() =~= point_pairs(ps1));
        assert(qs1.last() == qs[n]);
    }
    let last = qs.last();
    assert forall|v: Vector<i32>| #[trigger] last.is_cover1(v) <==> {
        &&& qs[0].cells().len() > 0
        &&& 0 <= -v.x < qs[0].side_spec()
        &&& 0 <= -v.y < qs[0].side_spec()
        &&& forall|i: int| 0 <= i < qs[0].cells().len() ==> occurrences(
            point_pairs(ps),
            (-v.x + (#[trigger] qs[0].cells()[i]).x, -v.y + qs[0].cells()[i].y),
        ) % 2 == 1
    } by {
        lemma_flip_run_shape(qs, ps);
        assert forall|i: int| 0 <= i < last.cells().len() implies last.board_cells().contains(
            (-v.x + (#[trigger] last.cells()[i]).x, -v.y + last.cells()[i].y),
        ) == (occurrences(point_pairs(ps), (-v.x + last.cells()[i].x, -v.y + last.cells()[i].y)) % 2 == 1) by {
        }
    }
}

/// Flips keep the problem and the side.
proof fn lemma_flip_run_shape(qs: Seq<Cover1Queries>, ps: Seq<Vector<i32>>)
    requires
        qs.len() == ps.len() + 1,
        forall|i: int| 0 <= i < ps.len() ==> #[trigger] flip_step(qs[i], qs[i + 1], ps[i]),
    ensures
        qs.last().cells() == qs[0].cells(),
        qs.last().side_spec() == qs[0].side_spec(),
    decreases ps.len(),
{
    if ps.len() > 0 {
        let qs1 = qs.drop_last();
        let ps1 = ps.drop_last();
        assert forall|i: int| 0 <= i < ps1.len() implies #[trigger] flip_step(qs1[i], qs1[i + 1], ps1[i]) by {
            assert(flip_step(qs[i], qs[i + 1], ps[i]));
        }
        lemma_flip_run_shape(qs1, ps1);
        assert(flip_step(qs[ps.len() - 1], qs[ps.len() as int], ps[ps.len() - 1]));
    }
}

/// Flipping a point twice gives back the same covers by one copy.
pub proof fn lemma_flip_twice(a: Cover1Queries, b: Cover1Queries, c: Cover1Queries, p: Vector<i32>)
    requires
        flip_step(a, b, p),
        flip_step(b, c, p),
    ensures
        c.board_cells() == a.board_cells(),
        forall|v: Vector<i32>| #[trigger] c.is_cover1(v) == a.is_cover1(v),
{
    assert(c.board_cells() =~= a.board_cells());
}

} // verus!
