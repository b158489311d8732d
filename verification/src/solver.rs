use vstd::prelude::*;
use crate::data::board::Board;
use crate::data::vector::Vector;

verus! {

/// The distance `|dx| + |dy|` of `v` from `c`.
pub open spec fn taxi_dist(v: Vector<i32>, c: Vector<i32>) -> int {
    let dx = v.x - c.x;
    let dy = v.y - c.y;
    (if dx >= 0 { dx } else { -dx }) + (if dy >= 0 { dy } else { -dy })
}

/// Whether the search may not touch `v`: the centre while the candidate has fewer than
/// eight symmetric images, and, where a range of distances from the centre is allowed,
/// every cell outside it.
pub open spec fn forbidden_spec(v: Vector<i32>, center: Vector<i32>, sim_len: int, allowed: Option<(i32, i32)>) -> bool {
    (v == center && sim_len < 8) || match allowed {
        Some(range) => !(range.0 <= taxi_dist(v, center) < range.1),
        None => false,
    }
}

/// With a range `lo..hi` of allowed distances, a cell other than the guarded centre is
/// forbidden exactly when the sum of its row and column distances to the centre lies outside
/// the range; with no range, only the centre can be forbidden.
pub proof fn lemma_forbidden_by_distance(v: Vector<i32>, c: Vector<i32>, sim_len: int, allowed: Option<(i32, i32)>)
    ensures
        !(v == c && sim_len < 8) ==> (forbidden_spec(v, c, sim_len, allowed) <==> match allowed {
            Some((lo, hi)) => {
                let rows = if v.x >= c.x { v.x - c.x } else { c.x - v.x };
                let cols = if v.y >= c.y { v.y - c.y } else { c.y - v.y };
                rows + cols < lo || rows + cols >= hi
            },
            None => false,
        }),
        v == c && sim_len < 8 ==> forbidden_spec(v, c, sim_len, allowed),
{
}

/// The distance adds up along a row and a column: going from `c` to `v` costs the row move
/// to `(v.x, c.y)` plus the column move from there, and one step away from the centre costs
/// exactly one more.
pub proof fn lemma_distance_adds(v: Vector<i32>, c: Vector<i32>)
    ensures
        taxi_dist(v, c) == taxi_dist(Vector { x: v.x, y: c.y }, c) + taxi_dist(Vector { x: c.x, y: v.y }, c),
        taxi_dist(Vector { x: v.x, y: c.y }, c) == if v.x >= c.x { v.x - c.x } else { c.x - v.x },
        taxi_dist(Vector { x: c.x, y: v.y }, c) == if v.y >= c.y { v.y - c.y } else { c.y - v.y },
        taxi_dist(c, c) == 0,
{
}

/// Whether the tree of the board allows the flip of `v`.
pub open spec fn flippable(board: Board, v: Vector<i32>) -> bool {
    if board.cell(v.x as int, v.y as int) {
        board.tree_spec().can_clear_spec(v.x as int, v.y as int)
    } else {
        board.tree_spec().can_set_spec(v.x as int, v.y as int)
    }
}

/// Whether the search may not touch `v`.
pub fn is_forbidden(v: Vector<i32>, center: Vector<i32>, sim_len: usize, allowed: Option<(i32, i32)>) -> (r: bool)
    ensures
        r == forbidden_spec(v, center, sim_len as int, allowed),
{
    if v.x == center.x && v.y == center.y && sim_len < 8 {
        return true;
    }
    match allowed {
        Some((lo, hi)) => {
            let dx: i64 = v.x as i64 - center.x as i64;
            let dy: i64 = v.y as i64 - center.y as i64;
            let ax: i64 = if dx >= 0 { dx } else { -dx };
            let ay: i64 = if dy >= 0 { dy } else { -dy };
            let dist: i64 = ax + ay;
            !(lo as i64 <= dist && dist < hi as i64)
        },
        None => false,
    }
}

/// The centre cell of the board.
pub fn board_center(board: &Board) -> (r: Vector<i32>)
    requires
        board.wf(),
    ensures
        r.x == board.h() / 2,
        r.y == board.w() / 2,
{
    proof {
        board.lemma_dims();
    }
    Vector::new((board.height() / 2) as i32, (board.width() / 2) as i32)
}

/// The flip step of the random search: the first of the drawn cells that the search may
/// touch and whose flip the tree allows, if any.
pub fn pick_flip(board: &Board, draws: &Vec<Vector<i32>>, allowed: Option<(i32, i32)>, sim_len: usize) -> (r: Option<Vector<i32>>)
    requires
        board.wf(),
    ensures
        match r {
            Some(v) => exists|k: int| {
                &&& 0 <= k < draws@.len()
                &&& draws@[k] == v
                &&& !forbidden_spec(v, Vector { x: (board.h() / 2) as i32, y: (board.w() / 2) as i32 }, sim_len as int, allowed)
                &&& flippable(*board, v)
                &&& forall|j: int| 0 <= j < k ==> forbidden_spec(
                    #[trigger] draws@[j],
                    Vector { x: (board.h() / 2) as i32, y: (board.w() / 2) as i32 },
                    sim_len as int,
                    allowed,
                ) || !flippable(*board, draws@[j])
            },
            None => forall|j: int| 0 <= j < draws@.len() ==> forbidden_spec(
                #[trigger] draws@[j],
                Vector { x: (board.h() / 2) as i32, y: (board.w() / 2) as i32 },
                sim_len as int,
                allowed,
            ) || !flippable(*board, draws@[j]),
        },
{
    let center = board_center(board);
    proof {
        board.lemma_dims();
    }
    let mut k: usize = 0;
    while k < draws.len()
        invariant
            board.wf(),
            k <= draws.len(),
            center == (Vector { x: (board.h() / 2) as i32, y: (board.w() / 2) as i32 }),
            1 <= board.h() < 512,
            1 <= board.w() < 512,
            forall|j: int| 0 <= j < k ==> forbidden_spec(#[trigger] draws@[j], center, sim_len as int, allowed) || !flippable(*board, draws@[j]),
        decreases draws.len() - k,
    {
        let v = draws[k];
        if !is_forbidden(v, center, sim_len, allowed) {
            let inside = 0 <= v.x && v.x < board.height() as i32 && 0 <= v.y && v.y < board.width() as i32;
            if inside && board.can_flip(v) {
                return Some(v);
            }
            proof {
                if !inside {
                    board.lemma_outside(v.x as int, v.y as int);
                }
            }
        }
        k += 1;
    }
    None
}

/// The zip step of the random search: the first of the drawn cells that the search may
/// touch and where a zip is possible, if any. Each check makes the zip and undoes it, so
/// the board keeps its cells.
pub fn pick_zip(board: &mut Board, draws: &Vec<Vector<i32>>, allowed: Option<(i32, i32)>, sim_len: usize) -> (r: Option<Vector<i32>>)
    requires
        old(board).wf(),
    ensures
        final(board).wf(),
        forall|p: int, q: int| #[trigger] final(board).cell(p, q) == old(board).cell(p, q),
        final(board).problem_spec() == old(board).problem_spec(),
        final(board).check_cover1_spec() == old(board).check_cover1_spec(),
        final(board).h() == old(board).h(),
        final(board).w() == old(board).w(),
        match r {
            Some(v) => exists|k: int| {
                &&& 0 <= k < draws@.len()
                &&& draws@[k] == v
                &&& !forbidden_spec(v, Vector { x: (old(board).h() / 2) as i32, y: (old(board).w() / 2) as i32 }, sim_len as int, allowed)
                &&& old(board).tree_spec().can_zip_spec(v.x as int, v.y as int)
                &&& forall|j: int| 0 <= j < k ==> forbidden_spec(
                    #[trigger] draws@[j],
                    Vector { x: (old(board).h() / 2) as i32, y: (old(board).w() / 2) as i32 },
                    sim_len as int,
                    allowed,
                ) || !old(board).tree_spec().can_zip_spec(draws@[j].x as int, draws@[j].y as int)
            },
            None => forall|j: int| 0 <= j < draws@.len() ==> forbidden_spec(
                #[trigger] draws@[j],
                Vector { x: (old(board).h() / 2) as i32, y: (old(board).w() / 2) as i32 },
                sim_len as int,
                allowed,
            ) || !old(board).tree_spec().can_zip_spec(draws@[j].x as int, draws@[j].y as int),
        },
{
    let ghost b0 = *board;
    let center = board_center(board);
    proof {
        board.lemma_dims();
    }
    let h = board.height() as i32;
    let w = board.width() as i32;
    let mut k: usize = 0;
    while k < draws.len()
        invariant
            b0 == *old(board),
            b0.wf(),
            board.wf(),
            forall|p: int, q: int| #[trigger] board.cell(p, q) == b0.cell(p, q),
            board.problem_spec() == b0.problem_spec(),
            board.check_cover1_spec() == b0.check_cover1_spec(),
            board.h() == b0.h(),
            board.w() == b0.w(),
            h == b0.h(),
            w == b0.w(),
            1 <= b0.h() < 512,
            1 <= b0.w() < 512,
            k <= draws.len(),
            center == (Vector { x: (b0.h() / 2) as i32, y: (b0.w() / 2) as i32 }),
            forall|j: int| 0 <= j < k ==> forbidden_spec(#[trigger] draws@[j], center, sim_len as int, allowed) || !b0.tree_spec().can_zip_spec(
                draws@[j].x as int,
                draws@[j].y as int,
            ),
        decreases draws.len() - k,
    {
        let v = draws[k];
        proof {
            b0.lemma_board_is_tree();
            assert forall|p: int, q: int| #[trigger] board.tree_spec().cell(p, q) == b0.tree_spec().cell(p, q) by {
                assert(board.cell(p, q) == b0.cell(p, q));
            }
            b0.tree_spec().lemma_zip_same_cells(board.tree_spec(), v.x as int, v.y as int);
        }
        if !is_forbidden(v, center, sim_len, allowed) {
            let near = -1 <= v.x && v.x <= h && -1 <= v.y && v.y <= w;
            if near && board.can_zip(v) {
                return Some(v);
            }
        }
        k += 1;
    }
    None
}

} // verus!
