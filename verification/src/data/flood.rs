use vstd::prelude::*;
use crate::data::u256::{count_true, lemma_count_update, lemma_count_bound};

verus! {

/// Whether two cells share an edge.
pub open spec fn adjacent(a: (int, int), b: (int, int)) -> bool {
    (a.0 == b.0 && (a.1 - b.1 == 1 || b.1 - a.1 == 1)) || (a.1 == b.1 && (a.0 - b.0 == 1 || b.0 - a.0 == 1))
}

/// Whether `(x, y)` lies in the `h x w` box and is marked passable in the row-major list.
pub open spec fn open_cell(pass: Seq<bool>, h: int, w: int, x: int, y: int) -> bool {
    0 <= x < h && 0 <= y < w && pass[at(w, x, y)]
}

/// Whether `(x, y)` lies in the box and is marked as a seed in the row-major list.
pub open spec fn is_seed(seeds: Seq<bool>, h: int, w: int, x: int, y: int) -> bool {
    0 <= x < h && 0 <= y < w && seeds[at(w, x, y)]
}

/// The row and column of a row-major index.
pub proof fn lemma_at_div_mod(h: int, w: int, x: int, y: int)
    requires
        0 <= x < h,
        0 <= y < w,
    ensures
        (x * w + y) / w == x,
        (x * w + y) % w == y,
        0 <= x * w + y < h * w,
{
    vstd::arithmetic::div_mod::lemma_fundamental_div_mod_converse(x * w + y, w, x, y);
    lemma_at(h, w, x, y);
}

/// A row-major index in range splits into a row and a column in range.
pub proof fn lemma_index_split(h: int, w: int, i: int)
    requires
        0 <= i < h * w,
        w > 0,
    ensures
        0 <= i / w < h,
        0 <= i % w < w,
        at(w, i / w, i % w) == i,
{
    vstd::arithmetic::div_mod::lemma_fundamental_div_mod(i, w);
    vstd::arithmetic::div_mod::lemma_mod_pos_bound(i, w);
    vstd::arithmetic::div_mod::lemma_div_pos_is_pos(i, w);
    let q = i / w;
    assert(q * w == w * q) by (nonlinear_arith);
    if i / w >= h {
        assert(w * (i / w) >= w * h) by (nonlinear_arith)
            requires i / w >= h, w > 0;
        assert(w * h == h * w) by (nonlinear_arith);
    }
}

/// A walk through open cells, each step to an edge-adjacent cell.
pub open spec fn is_walk(pass: Seq<bool>, h: int, w: int, p: Seq<(int, int)>) -> bool {
    &&& p.len() > 0
    &&& forall|i: int| 0 <= i < p.len() ==> open_cell(pass, h, w, (#[trigger] p[i]).0, p[i].1)
    &&& forall|i: int| 0 <= i < p.len() - 1 ==> adjacent(#[trigger] p[i], p[i + 1])
}

/// Whether `c` can be reached by a walk through open cells starting at a seed.
pub open spec fn reachable(pass: Seq<bool>, h: int, w: int, seeds: Seq<bool>, c: (int, int)) -> bool {
    exists|p: Seq<(int, int)>| #[trigger] is_walk(pass, h, w, p) && is_seed(seeds, h, w, p[0].0, p[0].1) && p.last() == c
}

/// Whether `(x, y)` is in the box and marked.
pub open spec fn marked(marks: Seq<bool>, h: int, w: int, x: int, y: int) -> bool {
    0 <= x < h && 0 <= y < w && marks[at(w, x, y)]
}

/// Marks that hold the seeds and are closed under steps to open cells hold every cell
/// of a walk from a seed.
pub proof fn lemma_closed_holds_walk(
    pass: Seq<bool>,
    h: int,
    w: int,
    seeds: Seq<bool>,
    marks: Seq<bool>,
    p: Seq<(int, int)>,
    n: int,
)
    requires
        is_walk(pass, h, w, p),
        is_seed(seeds, h, w, p[0].0, p[0].1),
        forall|a: int, b: int| #[trigger] is_seed(seeds, h, w, a, b) && open_cell(pass, h, w, a, b) ==> marked(marks, h, w, a, b),
        forall|a: (int, int), b: (int, int)| #[trigger] marked(marks, h, w, a.0, a.1) && adjacent(a, b) && open_cell(pass, h, w, b.0, b.1) ==> #[trigger] marked(marks, h, w, b.0, b.1),
        0 <= n < p.len(),
    ensures
        marked(marks, h, w, p[n].0, p[n].1),
    decreases n,
{
    if n > 0 {
        lemma_closed_holds_walk(pass, h, w, seeds, marks, p, n - 1);
        assert(adjacent(p[n - 1], p[n]));
        assert(open_cell(pass, h, w, p[n].0, p[n].1));
    } else {
        assert(is_seed(seeds, h, w, p[0].0, p[0].1));
        assert(open_cell(pass, h, w, p[0].0, p[0].1));
    }
}

/// If `c` has been processed: each open neighbour `b` of `c` is marked.
pub open spec fn nbr_ok(marks: Seq<bool>, pass: Seq<bool>, h: int, w: int, c: (usize, usize), b: (int, int)) -> bool {
    adjacent((c.0 as int, c.1 as int), b) && open_cell(pass, h, w, b.0, b.1) ==> marked(marks, h, w, b.0, b.1)
}

/// Index of the cell `(x, y)` in a row-major `h x w` grid.
pub open spec fn at(w: int, x: int, y: int) -> int {
    x * w + y
}

proof fn lemma_at(h: int, w: int, x: int, y: int)
    by (nonlinear_arith)
    requires
        0 <= x < h,
        0 <= y < w,
    ensures
        0 <= x * w + y < h * w,
{
}

proof fn lemma_at_inj(w: int, x1: int, y1: int, x2: int, y2: int)
    by (nonlinear_arith)
    requires
        0 <= y1 < w,
        0 <= y2 < w,
        0 <= x1,
        0 <= x2,
        x1 * w + y1 == x2 * w + y2,
    ensures
        x1 == x2,
        y1 == y2,
{
    if x1 < x2 {
        assert(x1 * w + w <= x2 * w);
    } else if x2 < x1 {
        assert(x2 * w + w <= x1 * w);
    }
}

pub struct FloodState {
    pub marks: Vec<bool>,
    pub queue: Vec<(usize, usize)>,
}

impl FloodState {
    #[verifier::opaque]
    pub open spec fn inv(self, pass: Seq<bool>, seeds: Seq<bool>, h: int, w: int) -> bool {
        &&& self.marks@.len() == h * w
        &&& self.queue@.len() == count_true(self.marks@, 0, h * w)
        &&& forall|k: int| 0 <= k < self.queue@.len() ==> {
            let c = #[trigger] self.queue@[k];
            &&& c.0 < h && c.1 < w
            &&& self.marks@[at(w, c.0 as int, c.1 as int)]
            &&& reachable(pass, h, w, seeds, (c.0 as int, c.1 as int))
        }
        &&& forall|x: int, y: int| 0 <= x < h && 0 <= y < w && #[trigger] self.marks@[at(w, x, y)] ==>
            exists|k: int| 0 <= k < self.queue@.len() && (#[trigger] self.queue@[k]) == (x as usize, y as usize)
    }

    proof fn lemma_inv_facts(self, pass: Seq<bool>, seeds: Seq<bool>, h: int, w: int)
        requires
            self.inv(pass, seeds, h, w),
        ensures
            self.marks@.len() == h * w,
            self.queue@.len() == count_true(self.marks@, 0, h * w),
            forall|k: int| 0 <= k < self.queue@.len() ==> {
                let c = #[trigger] self.queue@[k];
                &&& c.0 < h && c.1 < w
                &&& self.marks@[at(w, c.0 as int, c.1 as int)]
                &&& reachable(pass, h, w, seeds, (c.0 as int, c.1 as int))
            },
            forall|x: int, y: int| 0 <= x < h && 0 <= y < w && #[trigger] self.marks@[at(w, x, y)] ==>
                exists|k: int| 0 <= k < self.queue@.len() && (#[trigger] self.queue@[k]) == (x as usize, y as usize),
    {
        reveal(FloodState::inv);
    }

    proof fn lemma_inv_at(self, pass: Seq<bool>, seeds: Seq<bool>, h: int, w: int, k: int)
        requires
            self.inv(pass, seeds, h, w),
            0 <= k < self.queue@.len(),
        ensures
            self.queue@[k].0 < h,
            self.queue@[k].1 < w,
            reachable(pass, h, w, seeds, (self.queue@[k].0 as int, self.queue@[k].1 as int)),
    {
        reveal(FloodState::inv);
        let c = self.queue@[k];
    }

    /// The invariant, plus: seeds that are open are marked, and the open neighbours of
    /// the first `head` queued cells are marked.
    pub open spec fn progress(self, pass: Seq<bool>, seeds: Seq<bool>, h: int, w: int, head: int) -> bool {
        &&& self.inv(pass, seeds, h, w)
        &&& 0 <= head <= self.queue@.len()
        &&& forall|a: int, b: int| #[trigger] is_seed(seeds, h, w, a, b) && open_cell(pass, h, w, a, b) ==> marked(self.marks@, h, w, a, b)
        &&& forall|j: int, b: (int, int)| 0 <= j < head ==> #[trigger] nbr_ok(self.marks@, pass, h, w, self.queue@[j], b)
    }

    /// Processes the queued cell at `head`: visits its four neighbours.
    fn expand(&mut self, pass: &Vec<bool>, h: usize, w: usize, head: usize, Ghost(seeds): Ghost<Seq<bool>>)
        requires
            old(self).progress(pass@, seeds, h as int, w as int, head as int),
            pass@.len() == h * w,
            seeds.len() == h * w,
            h * w < usize::MAX,
            head < old(self).queue@.len(),
        ensures
            final(self).progress(pass@, seeds, h as int, w as int, head + 1),
            final(self).queue@.len() >= old(self).queue@.len(),
    {
        let (x, y) = self.queue[head];
        let ghost c = (x as int, y as int);
        let ghost q0 = self.queue@;
        let ghost m0 = self.marks@;
        proof {
            self.lemma_inv_at(pass@, seeds, h as int, w as int, head as int);
            assert(self.queue@[head as int] == (x, y));
            assert(reachable(pass@, h as int, w as int, seeds, c));
        }
        if y + 1 < w {
            proof { lemma_step(pass@, h as int, w as int, seeds, c, (x as int, y + 1)); }
            self.visit(pass, h, w, x, y + 1, Ghost(seeds));
        }
        let ghost m1 = self.marks@;
        if x + 1 < h {
            proof { lemma_step(pass@, h as int, w as int, seeds, c, (x + 1, y as int)); }
            self.visit(pass, h, w, x + 1, y, Ghost(seeds));
        }
        let ghost m2 = self.marks@;
        if y > 0 {
            proof { lemma_step(pass@, h as int, w as int, seeds, c, (x as int, y - 1)); }
            self.visit(pass, h, w, x, y - 1, Ghost(seeds));
        }
        let ghost m3 = self.marks@;
        if x > 0 {
            proof { lemma_step(pass@, h as int, w as int, seeds, c, (x - 1, y as int)); }
            self.visit(pass, h, w, x - 1, y, Ghost(seeds));
        }
        proof {
            lemma_expand_done(pass@, h as int, w as int, seeds, m0, m1, m2, m3, self.marks@, q0, self.queue@, head as int, x as int, y as int);
        }
    }

    /// Marks `(x, y)` and queues it unless it is already marked or blocked.
    fn visit(&mut self, pass: &Vec<bool>, h: usize, w: usize, x: usize, y: usize, Ghost(seeds): Ghost<Seq<bool>>)
        requires
            old(self).inv(pass@, seeds, h as int, w as int),
            pass@.len() == h * w,
            x < h,
            y < w,
            h * w < usize::MAX,
            open_cell(pass@, h as int, w as int, x as int, y as int) ==> reachable(pass@, h as int, w as int, seeds, (x as int, y as int)),
        ensures
            final(self).inv(pass@, seeds, h as int, w as int),
            final(self).queue@.len() >= old(self).queue@.len(),
            forall|k: int| 0 <= k < old(self).queue@.len() ==> final(self).queue@[k] == old(self).queue@[k],
            pass@[at(w as int, x as int, y as int)] ==> final(self).marks@[at(w as int, x as int, y as int)],
            forall|i: int| 0 <= i < h * w && #[trigger] old(self).marks@[i] ==> final(self).marks@[i],
            forall|a: int, b: int| #[trigger] marked(old(self).marks@, h as int, w as int, a, b) ==> marked(final(self).marks@, h as int, w as int, a, b),
    {
        proof {
            reveal(FloodState::inv);
            lemma_at(h as int, w as int, x as int, y as int);
        }
        let i = x * w + y;
        if pass[i] && !self.marks[i] {
            let ghost old_marks = self.marks@;
            let ghost old_q = self.queue@;
            self.marks.set(i, true);
            self.queue.push((x, y));
            proof {
                lemma_count_update(old_marks, i as int, true, 0, h * w);
                assert forall|a: int, b: int| 0 <= a < h && 0 <= b < w && #[trigger] self.marks@[at(w as int, a, b)] implies
                    exists|k: int| 0 <= k < self.queue@.len() && (#[trigger] self.queue@[k]) == (a as usize, b as usize) by {
                    lemma_at(h as int, w as int, a, b);
                    if at(w as int, a, b) == i {
                        lemma_at_inj(w as int, a, b, x as int, y as int);
                        assert(self.queue@[old_q.len() as int] == (a as usize, b as usize));
                    } else {
                        assert(old_marks[at(w as int, a, b)]);
                        let k = choose|k: int| 0 <= k < old_q.len() && (#[trigger] old_q[k]) == (a as usize, b as usize);
                        assert(self.queue@[k] == old_q[k]);
                    }
                }
                assert forall|k: int| 0 <= k < self.queue@.len() implies {
                    let c = #[trigger] self.queue@[k];
                    &&& c.0 < h && c.1 < w
                    &&& self.marks@[at(w as int, c.0 as int, c.1 as int)]
                    &&& reachable(pass@, h as int, w as int, seeds, (c.0 as int, c.1 as int))
                } by {
                    if k < old_q.len() {
                        assert(self.queue@[k] == old_q[k]);
                        let c = old_q[k];
                        lemma_at(h as int, w as int, c.0 as int, c.1 as int);
                    }
                }
                assert forall|a: int, b: int| #[trigger] marked(old_marks, h as int, w as int, a, b) implies marked(self.marks@, h as int, w as int, a, b) by {
                    lemma_at(h as int, w as int, a, b);
                }
            }
        }
    }
}

/// Marks every cell of the `h x w` grid that a walk through passable cells reaches
/// from a seed.
#[verifier::rlimit(60)]
pub fn flood(pass: &Vec<bool>, h: usize, w: usize, seeds: &Vec<bool>) -> (marks: Vec<bool>)
    requires
        pass@.len() == h * w,
        seeds@.len() == h * w,
        h * w < usize::MAX,
    ensures
        marks@.len() == h * w,
        forall|x: int, y: int| 0 <= x < h && 0 <= y < w ==> #[trigger] marks@[at(w as int, x, y)] == reachable(pass@, h as int, w as int, seeds@, (x, y)),
{
    let n = h * w;
    let mut marks: Vec<bool> = Vec::new();
    let mut i: usize = 0;
    while i < n
        invariant
            i <= n,
            marks@.len() == i,
            forall|j: int| 0 <= j < i ==> !marks@[j],
        decreases n - i,
    {
        marks.push(false);
        i += 1;
    }
    proof {
        crate::data::u256::lemma_count_none(marks@, 0, n as int);
    }
    let mut st = FloodState { marks, queue: Vec::new() };
    proof {
        assert forall|x: int, y: int| 0 <= x < h && 0 <= y < w implies !(#[trigger] st.marks@[at(w as int, x, y)]) by {
            lemma_at(h as int, w as int, x, y);
        }
        reveal(FloodState::inv);
        assert(st.inv(pass@, seeds@, h as int, w as int));
    }
    let mut k: usize = 0;
    while k < n
        invariant
            st.inv(pass@, seeds@, h as int, w as int),
            pass@.len() == h * w,
            seeds@.len() == h * w,
            h * w < usize::MAX,
            n == h * w,
            k <= n,
            forall|a: int, b: int| #[trigger] is_seed(seeds@, h as int, w as int, a, b) && open_cell(pass@, h as int, w as int, a, b) && at(w as int, a, b) < k ==> marked(st.marks@, h as int, w as int, a, b),
        decreases n - k,
    {
        if seeds[k] {
            proof {
                lemma_index_split(h as int, w as int, k as int);
            }
            let x = k / w;
            let y = k % w;
            proof {
                if open_cell(pass@, h as int, w as int, x as int, y as int) {
                    let walk = seq![(x as int, y as int)];
                    assert(is_walk(pass@, h as int, w as int, walk));
                    assert(is_seed(seeds@, h as int, w as int, walk[0].0, walk[0].1));
                }
            }
            let ghost before = st.marks@;
            st.visit(pass, h, w, x, y, Ghost(seeds@));
            proof {
                assert forall|a: int, b: int| #[trigger] is_seed(seeds@, h as int, w as int, a, b) && open_cell(pass@, h as int, w as int, a, b) && at(w as int, a, b) < k + 1 implies marked(st.marks@, h as int, w as int, a, b) by {
                    lemma_at(h as int, w as int, a, b);
                    if at(w as int, a, b) < k {
                        assert(before[at(w as int, a, b)]);
                    }
                }
            }
        }
        k += 1;
    }
    proof {
        assert forall|a: int, b: int| #[trigger] is_seed(seeds@, h as int, w as int, a, b) && open_cell(pass@, h as int, w as int, a, b) implies marked(st.marks@, h as int, w as int, a, b) by {
            lemma_at(h as int, w as int, a, b);
        }
    }
    let mut head: usize = 0;
    proof {
        assert(st.progress(pass@, seeds@, h as int, w as int, 0));
    }
    while head < st.queue.len()
        invariant
            st.progress(pass@, seeds@, h as int, w as int, head as int),
            pass@.len() == h * w,
            h * w < usize::MAX,
            n == h * w,
            seeds@.len() == h * w,
        decreases n - head,
    {
        proof {
            st.lemma_inv_facts(pass@, seeds@, h as int, w as int);
            lemma_count_bound(st.marks@, 0, n as int);
        }
        st.expand(pass, h, w, head, Ghost(seeds@));
        head += 1;
    }
    proof {
        st.lemma_inv_facts(pass@, seeds@, h as int, w as int);
        let m = st.marks@;
        assert forall|a: (int, int), b: (int, int)| #[trigger] marked(m, h as int, w as int, a.0, a.1) && adjacent(a, b) && open_cell(pass@, h as int, w as int, b.0, b.1) implies #[trigger] marked(m, h as int, w as int, b.0, b.1) by {
            lemma_at(h as int, w as int, a.0, a.1);
            let j = choose|j: int| 0 <= j < st.queue@.len() && (#[trigger] st.queue@[j]) == (a.0 as usize, a.1 as usize);
            assert(nbr_ok(m, pass@, h as int, w as int, st.queue@[j], b));
        }
        assert forall|x: int, y: int| 0 <= x < h && 0 <= y < w implies #[trigger] st.marks@[at(w as int, x, y)] == reachable(pass@, h as int, w as int, seeds@, (x, y)) by {
            lemma_at(h as int, w as int, x, y);
            if st.marks@[at(w as int, x, y)] {
                let j = choose|j: int| 0 <= j < st.queue@.len() && (#[trigger] st.queue@[j]) == (x as usize, y as usize);
            }
            if reachable(pass@, h as int, w as int, seeds@, (x, y)) {
                let walk = choose|walk: Seq<(int, int)>| #[trigger] is_walk(pass@, h as int, w as int, walk) && is_seed(seeds@, h as int, w as int, walk[0].0, walk[0].1) && walk.last() == (x, y);
                lemma_closed_holds_walk(pass@, h as int, w as int, seeds@, m, walk, walk.len() - 1);
            }
        }
    }
    st.marks
}

/// After visiting the four neighbours of the queued cell `(x, y)` at `head`, the open
/// neighbours of the first `head + 1` queued cells are marked.
proof fn lemma_expand_done(
    pass: Seq<bool>,
    h: int,
    w: int,
    seeds: Seq<bool>,
    m0: Seq<bool>,
    m1: Seq<bool>,
    m2: Seq<bool>,
    m3: Seq<bool>,
    m4: Seq<bool>,
    q0: Seq<(usize, usize)>,
    q4: Seq<(usize, usize)>,
    head: int,
    x: int,
    y: int,
)
    requires
        0 <= head < q0.len(),
        q0[head].0 as int == x,
        q0[head].1 as int == y,
        0 <= x < h,
        0 <= y < w,
        q4.len() >= q0.len(),
        forall|k: int| 0 <= k < q0.len() ==> q4[k] == q0[k],
        forall|a: int, b: int| #[trigger] marked(m0, h, w, a, b) ==> marked(m1, h, w, a, b),
        forall|a: int, b: int| #[trigger] marked(m1, h, w, a, b) ==> marked(m2, h, w, a, b),
        forall|a: int, b: int| #[trigger] marked(m2, h, w, a, b) ==> marked(m3, h, w, a, b),
        forall|a: int, b: int| #[trigger] marked(m3, h, w, a, b) ==> marked(m4, h, w, a, b),
        y + 1 < w && open_cell(pass, h, w, x, y + 1) ==> marked(m1, h, w, x, y + 1),
        x + 1 < h && open_cell(pass, h, w, x + 1, y) ==> marked(m2, h, w, x + 1, y),
        y > 0 && open_cell(pass, h, w, x, y - 1) ==> marked(m3, h, w, x, y - 1),
        x > 0 && open_cell(pass, h, w, x - 1, y) ==> marked(m4, h, w, x - 1, y),
        forall|a: int, b: int| #[trigger] is_seed(seeds, h, w, a, b) && open_cell(pass, h, w, a, b) ==> marked(m0, h, w, a, b),
        forall|j: int, b: (int, int)| 0 <= j < head ==> #[trigger] nbr_ok(m0, pass, h, w, q0[j], b),
    ensures
        forall|a: int, b: int| #[trigger] is_seed(seeds, h, w, a, b) && open_cell(pass, h, w, a, b) ==> marked(m4, h, w, a, b),
        forall|j: int, b: (int, int)| 0 <= j < head + 1 ==> #[trigger] nbr_ok(m4, pass, h, w, q4[j], b),
{
    assert forall|a: int, b: int| marked(m0, h, w, a, b) implies #[trigger] marked(m4, h, w, a, b) by {
        assert(marked(m1, h, w, a, b));
        assert(marked(m2, h, w, a, b));
        assert(marked(m3, h, w, a, b));
    }
    assert forall|a: int, b: int| #[trigger] is_seed(seeds, h, w, a, b) && open_cell(pass, h, w, a, b) implies marked(m4, h, w, a, b) by {
        assert(marked(m0, h, w, a, b));
    }
    assert forall|j: int, b: (int, int)| 0 <= j < head + 1 implies #[trigger] nbr_ok(m4, pass, h, w, q4[j], b) by {
        assert(q4[j] == q0[j]);
        if adjacent((q0[j].0 as int, q0[j].1 as int), b) && open_cell(pass, h, w, b.0, b.1) {
            if j < head {
                assert(nbr_ok(m0, pass, h, w, q0[j], b));
                assert(marked(m0, h, w, b.0, b.1));
            } else if b.0 == x && b.1 == y + 1 {
                assert(marked(m2, h, w, b.0, b.1));
                assert(marked(m3, h, w, b.0, b.1));
            } else if b.0 == x + 1 && b.1 == y {
                assert(marked(m3, h, w, b.0, b.1));
            } else if b.0 == x && b.1 == y - 1 {
            } else {
            }
        }
    }
}

/// One step from a reachable cell to an adjacent open cell stays reachable.
proof fn lemma_step(pass: Seq<bool>, h: int, w: int, seeds: Seq<bool>, c: (int, int), d: (int, int))
    requires
        reachable(pass, h, w, seeds, c),
        adjacent(c, d),
    ensures
        open_cell(pass, h, w, d.0, d.1) ==> reachable(pass, h, w, seeds, d),
{
    if open_cell(pass, h, w, d.0, d.1) {
        let walk = choose|walk: Seq<(int, int)>| #[trigger] is_walk(pass, h, w, walk) && is_seed(seeds, h, w, walk[0].0, walk[0].1) && walk.last() == c;
        let w2 = walk.push(d);
        assert(w2[w2.len() - 2] == c);
        assert(is_walk(pass, h, w, w2));
        assert(w2[0] == walk[0]);
    }
}

} // verus!
