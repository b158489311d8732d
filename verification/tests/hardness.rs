use polycover2::hardness::{connected_set, has_multi, single_covers, verify_multi, Context, Tri};

fn dominoes() -> Vec<Vec<(i32, i32)>> {
    vec![vec![(0, 0), (1, 0)], vec![(0, 0), (0, 1)]]
}

#[test]
fn square_is_covered_by_two_dominoes() {
    let region = vec![(0, 0), (1, 0), (0, 1), (1, 1)];
    assert!(has_multi(&dominoes(), &region, 1000, 3) == Tri::Yes);
    assert!(has_multi(&dominoes(), &region, 1000, 2) == Tri::Yes);
    // a single copy never counts
    assert!(has_multi(&dominoes(), &region, 1000, 1) == Tri::No);
}

#[test]
fn copies_may_stick_out_of_the_region() {
    // two upright dominoes each hold one cell of a lying domino
    let region = vec![(3, 4), (4, 4)];
    assert!(has_multi(&dominoes(), &region, 1000, 5) == Tri::Yes);
    assert!(has_multi(&dominoes(), &region, 1000, 1) == Tri::No);
    let corner = vec![(0, 0), (1, 0), (0, 1)];
    assert!(has_multi(&dominoes(), &corner, 1000, 2) == Tri::Yes);
}

#[test]
fn the_budget_ends_the_search() {
    let region = vec![(0, 0), (1, 0), (0, 1), (1, 1)];
    assert!(has_multi(&dominoes(), &region, 0, 3) == Tri::Unknown);
}

#[test]
fn a_long_strip_needs_enough_copies() {
    let region: Vec<(i32, i32)> = (0..6).map(|x| (x, 0)).collect();
    // three horizontal dominoes
    assert!(has_multi(&dominoes(), &region, 10000, 3) == Tri::Yes);
    assert!(has_multi(&dominoes(), &region, 10000, 2) == Tri::No);
}

#[test]
fn monominoes_cover_two_cells_but_not_one() {
    let orients = vec![vec![(0, 0)]];
    let two = vec![(0, 0), (1, 0)];
    let one = vec![(0, 0)];
    assert!(has_multi(&orients, &two, 1000, 12) == Tri::Yes);
    assert!(has_multi(&orients, &one, 1000, 12) == Tri::No);
}

#[test]
fn a_budget_past_the_bound_always_answers() {
    // Two copies meet the two cells and the search goes two levels down: at most
    // 1 + 2 * (1 + 2 * 1) = 7 nodes.
    let orients = vec![vec![(0, 0)]];
    let two = vec![(0, 0), (1, 0)];
    assert!(has_multi(&orients, &two, 7, 12) == Tri::Yes);
}

#[test]
fn single_covers_lists_the_moves_that_hold_the_region() {
    let one = vec![(0, 0)];
    assert_eq!(single_covers(&dominoes(), &one), vec![(0, -1, 0), (0, 0, 0), (1, 0, -1), (1, 0, 0)]);
    let pair = vec![(0, 0), (0, 1)];
    assert_eq!(single_covers(&dominoes(), &pair), vec![(1, 0, 0)]);
    let far = vec![(0, 0), (0, 2)];
    assert_eq!(single_covers(&dominoes(), &far), vec![]);
}

#[test]
fn verify_multi_gives_the_first_answer_that_is_not_no() {
    let ctx = Context {
        all_or: vec![vec![(0, 0)]],
        regions: vec![vec![(0, 0)], vec![(0, 0), (1, 0)]],
        size: 1,
        holes: 0,
        rows: vec![],
    };
    assert!(verify_multi(&ctx, false) == Tri::Yes);
    assert!(verify_multi(&ctx, true) == Tri::Yes);
    let single = Context { all_or: vec![vec![(0, 0)]], regions: vec![vec![(0, 0)]], size: 1, holes: 0, rows: vec![] };
    assert!(verify_multi(&single, false) == Tri::No);
}

#[test]
fn connected_set_follows_the_sides() {
    assert!(!connected_set(&vec![]));
    assert!(connected_set(&vec![(0, 0)]));
    assert!(connected_set(&vec![(0, 0), (1, 0)]));
    assert!(!connected_set(&vec![(0, 0), (1, 1)]));
    assert!(connected_set(&vec![(2, 0), (0, 0), (1, 0), (1, 1)]));
    assert!(!connected_set(&vec![(0, 0), (1, 0), (3, 0)]));
}
