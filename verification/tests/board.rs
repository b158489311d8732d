use polycover2::data::board::{Board, BoardError};
use polycover2::data::tight_poly::TightPoly;
use polycover2::data::vector::Vector;

fn poly(s: &str) -> TightPoly {
    TightPoly::from_str(s).unwrap()
}

#[test]
fn test_coverings1_detected() {
    // ###
    // #..
    let problem = poly("2 3\n###\n#..");
    let mut board = Board::new(problem, 5, 5).unwrap();

    board.try_flip(2, 1).unwrap();
    board.try_flip(2, 2).unwrap();
    board.try_flip(2, 3).unwrap();
    assert!(board.try_flip(3, 1).is_err());
}

#[test]
fn the_refused_flip_says_why_and_keeps_the_board() {
    let problem = poly("2 3\n###\n#..");
    let mut board = Board::new(problem, 5, 5).unwrap();

    board.try_flip(2, 1).unwrap();
    // The only cell cannot go.
    assert!(board.try_flip(2, 1) == Err(BoardError::WouldEmpty));
    board.try_flip(2, 2).unwrap();
    board.try_flip(2, 3).unwrap();
    assert!(board.try_flip(3, 1) == Err(BoardError::CoveredByOne));
    assert!(!board.get(3, 1));
    // Not next to the tree.
    assert!(board.try_flip(4, 4) == Err(BoardError::Tree));
    assert!(!board.get(4, 4));
    // A leaf goes.
    board.try_flip(2, 3).unwrap();
    assert!(!board.get(2, 3));
    assert!(board.get(2, 1) && board.get(2, 2));
}

#[test]
fn without_the_check_the_copy_is_placed() {
    let problem = poly("1 3\n###");
    let mut board = Board::new(problem, 5, 5).unwrap();
    board.try_flip(2, 1).unwrap();
    board.try_flip(2, 2).unwrap();
    assert!(board.try_flip(2, 3) == Err(BoardError::CoveredByOne));
    assert!(board.coverings1_for_testing().is_empty());

    board.set_check_cover1_for_testing(false);
    board.try_flip(2, 3).unwrap();
    // The copy sits at offset (2, 1).
    assert!(board.coverings1_for_testing().clone() == vec![Vector::new(-2, -1)]);
}

#[test]
fn can_flip_follows_the_tree() {
    let problem = poly("1 2\n##");
    let mut board = Board::new(problem, 4, 4).unwrap();
    assert!(board.can_flip(Vector::new(1, 1)));
    board.try_flip(1, 1).unwrap();
    assert!(board.can_flip(Vector::new(1, 2)));
    assert!(!board.can_flip(Vector::new(2, 2)));
    assert!(board.height() == 4 && board.width() == 4);
}

#[test]
fn test_coverings2() {
    let problem = poly(
        r#"5 3
    .#.
    .#.
    .##
    ###
    #..
    "#,
    );
    let mut board = Board::new(problem, 5, 5).unwrap();

    assert_eq!(board.coverings2(), vec![]);

    board.try_flip(2, 1).unwrap();
    board.try_flip(2, 2).unwrap();
    board.try_flip(2, 3).unwrap();
    board.try_flip(2, 4).unwrap();

    assert_eq!(board.coverings2(), vec![]);

    board.try_flip(2, 4).unwrap();
    board.try_flip(3, 1).unwrap();

    // ###
    // #..
    assert_eq!(board.coverings2().len(), 1);

    board.try_flip(2, 3).unwrap();

    // ##
    // #.
    assert_eq!(board.coverings2(), vec![]);

    board.try_flip(2, 3).unwrap();
    board.try_flip(4, 1).unwrap();

    // ###
    // #..
    // #..
    assert_eq!(board.coverings2().len(), 4);

    board.try_flip(2, 3).unwrap();
    assert_eq!(board.coverings2().len(), 1);

    board.try_flip(2, 2).unwrap();
    board.try_flip(2, 1).unwrap();
    board.try_flip(3, 1).unwrap();

    assert_eq!(board.coverings2().len(), 0);
}

#[test]
fn a_cover_by_two_images_places_both() {
    // Two dominoes in a row cover the 1x4 bar.
    let problem = poly("1 4\n####");
    let mut board = Board::new(problem, 3, 3).unwrap();
    board.try_flip(1, 0).unwrap();
    board.try_flip(1, 1).unwrap();
    let c2 = board.coverings2();
    // The two halves of the bar, each image taking the candidate onto one of them.
    assert!(c2.iter().any(|(m1, m2)| {
        let a = (m1.apply(&Vector::new(1, 0)), m1.apply(&Vector::new(1, 1)));
        let b = (m2.apply(&Vector::new(1, 0)), m2.apply(&Vector::new(1, 1)));
        a.0.x == 0 && a.1.x == 0 && b.0.x == 0 && b.1.x == 0
    }));
}

#[test]
fn a_candidate_is_loaded_cell_by_cell() {
    let problem = poly("1 3\n###");
    // (1, 0) only touches (0, 1) at a corner, so it waits for a second pass, after (1, 1).
    let cand = poly("2 2\n.#\n##");
    let board = Board::new_with_initial_cand(problem, &cand).unwrap();
    assert!(!board.get(0, 0));
    assert!(board.get(0, 1) && board.get(1, 0) && board.get(1, 1));
}

#[test]
fn a_candidate_holding_the_problem_is_refused() {
    let problem = poly("1 2\n##");
    let cand = poly("1 3\n###");
    assert!(matches!(Board::new_with_initial_cand(problem, &cand), Err(BoardError::CandidateRefused)));
}

#[test]
fn a_leaf_added_can_be_taken_back() {
    let problem = poly("2 3\n###\n#..");
    let mut board = Board::new(problem, 5, 5).unwrap();
    board.try_flip(2, 1).unwrap();
    board.try_flip(2, 2).unwrap();
    board.try_flip(1, 2).unwrap();
    board.try_flip(1, 2).unwrap();
    assert!(!board.get(1, 2));
    assert!(board.get(2, 1) && board.get(2, 2));
}

#[test]
fn board_geometry_and_leaf_queries() {
    let problem = poly("1 2\n##");
    let mut board = Board::new(problem, 3, 5).unwrap();
    assert!(board.rot180(&Vector::new(0, 0)) == Vector::new(2, 4));
    assert!(board.rot180(&Vector::new(1, 1)) == Vector::new(1, 3));
    assert!(board.applied(polycover2::data::d4::D4::I, &Vector::new(1, 2)) == Vector::new(1, 2));
    assert!(board.can_set(1, 1) && board.can_set_v(Vector::new(1, 1)));
    assert!(!board.can_set_v(Vector::new(-1, 1)));
    board.try_flip(1, 1).unwrap();
    assert!(board.can_clear(1, 1) && board.can_clear_v(Vector::new(1, 1)));
    assert!(!board.can_clear_v(Vector::new(-1, 0)));
    assert!(board.can_set(1, 2) && !board.can_set(2, 2));
}

fn zip_board(problem: &str) -> Board {
    // .....
    // .#.#.
    // .###.
    let mut board = Board::new(poly(problem), 5, 5).unwrap();
    for (x, y) in [(2, 2), (2, 1), (2, 3), (1, 1), (1, 3)] {
        board.try_flip(x, y).unwrap();
    }
    board
}

fn cells_of(board: &Board) -> Vec<(usize, usize)> {
    let mut r = vec![];
    for x in 0..5 {
        for y in 0..5 {
            if board.get(x, y) {
                r.push((x, y));
            }
        }
    }
    r
}

#[test]
fn a_zip_moves_two_corners_and_back() {
    let mut board = zip_board("2 2\n##\n##");
    board.try_zip(Vector::new(1, 2)).unwrap();
    assert_eq!(cells_of(&board), vec![(1, 1), (1, 2), (1, 3), (2, 2)]);
    board.try_zip(Vector::new(1, 2)).unwrap();
    assert_eq!(cells_of(&board), vec![(1, 1), (1, 3), (2, 1), (2, 2), (2, 3)]);
    // Two free sides: no zip.
    assert!(board.try_zip(Vector::new(0, 0)) == Err(BoardError::Tree));
}

#[test]
fn a_zip_that_would_hold_the_problem_is_undone() {
    // The zip would make the T of the problem.
    let mut board = zip_board("2 3\n###\n.#.");
    assert!(board.try_zip(Vector::new(1, 2)) == Err(BoardError::CoveredByOne));
    assert_eq!(cells_of(&board), vec![(1, 1), (1, 3), (2, 1), (2, 2), (2, 3)]);
}

#[test]
fn the_bounding_box_follows_the_cells() {
    let board = zip_board("2 2\n##\n##");
    let bb = board.bounding_box();
    assert!(bb.min_corner() == Vector::new(1, 1));
    assert!(bb.max_corner() == Vector::new(2, 3));
}

#[test]
fn can_zip_checks_and_keeps_the_cells() {
    let mut board = zip_board("2 2\n##\n##");
    assert!(board.can_zip(Vector::new(1, 2)));
    assert_eq!(cells_of(&board), vec![(1, 1), (1, 3), (2, 1), (2, 2), (2, 3)]);
    assert!(!board.can_zip(Vector::new(0, 0)));
    assert!(!board.can_zip(Vector::new(2, 2)));
    // The board still works after the checks.
    board.try_zip(Vector::new(1, 2)).unwrap();
    assert_eq!(cells_of(&board), vec![(1, 1), (1, 2), (1, 3), (2, 2)]);
}
