use polycover2::data::board::Board;
use polycover2::data::tight_poly::TightPoly;
use polycover2::data::vector::Vector;
use polycover2::solver::{is_forbidden, pick_flip, pick_zip};

#[test]
fn the_centre_is_forbidden_while_few_images() {
    let c = Vector::new(2, 2);
    assert!(is_forbidden(Vector::new(2, 2), c, 4, None));
    assert!(!is_forbidden(Vector::new(2, 2), c, 8, None));
    assert!(!is_forbidden(Vector::new(0, 1), c, 4, None));
    // Distance 3 from the centre: allowed in 1..4, not in 4..6.
    assert!(!is_forbidden(Vector::new(0, 1), c, 8, Some((1, 4))));
    assert!(is_forbidden(Vector::new(0, 1), c, 8, Some((4, 6))));
}

#[test]
fn the_first_flippable_draw_is_picked() {
    let problem = TightPoly::from_str("1 2\n##").unwrap();
    let mut board = Board::new(problem, 5, 5).unwrap();
    board.try_flip(1, 1).unwrap();
    // (4, 4) is not next to the tree, (-1, 0) is outside the box, (2, 2) is the centre,
    // (1, 2) can be added.
    let draws = vec![Vector::new(4, 4), Vector::new(-1, 0), Vector::new(2, 2), Vector::new(1, 2), Vector::new(0, 1)];
    assert!(pick_flip(&board, &draws, None, 0) == Some(Vector::new(1, 2)));
    assert!(pick_flip(&board, &draws[..3].to_vec(), None, 0) == None);
    // Only cells at distance 4 or more from the centre.
    assert!(pick_flip(&board, &draws, Some((4, 10)), 0) == None);
}

#[test]
fn the_first_zippable_draw_is_picked() {
    let problem = TightPoly::from_str("2 2\n##\n##").unwrap();
    let mut board = Board::new(problem, 5, 5).unwrap();
    for (x, y) in [(2, 2), (2, 1), (2, 3), (1, 1), (1, 3)] {
        board.try_flip(x, y).unwrap();
    }
    let draws = vec![Vector::new(0, 0), Vector::new(100, 100), Vector::new(1, 2), Vector::new(3, 3)];
    assert!(pick_zip(&mut board, &draws, None, 8) == Some(Vector::new(1, 2)));
    // (1, 2) is at distance 1 from the centre (2, 2): outside 2..5 it is forbidden.
    assert!(pick_zip(&mut board, &draws, Some((2, 5)), 8) == None);
    assert!(board.get(2, 1) && !board.get(1, 2));
}
