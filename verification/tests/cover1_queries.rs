use polycover2::data::cover1_queries::Cover1Queries;
use polycover2::data::tight_poly::TightPoly;
use polycover2::data::vector::Vector;

#[test]
fn test_coverings1() {
    // ###
    // #..
    let problem = TightPoly::from_str("2 3\n###\n#..").unwrap();
    let mut board = Cover1Queries::new(problem, 5);

    assert_eq!(board.coverings1().len(), 0);

    board.flip(Vector::new(2, 1));
    board.flip(Vector::new(2, 2));
    board.flip(Vector::new(2, 3));
    board.flip(Vector::new(3, 1));

    // ###
    // #..
    assert_eq!(
        board.coverings1().iter().copied().collect::<Vec<_>>(),
        vec![Vector::new(2, 1).negated()]
    );

    board.flip(Vector::new(2, 3));

    // ##
    // #.
    assert_eq!(
        board.coverings1().iter().copied().collect::<Vec<_>>(),
        vec![]
    );

    board.flip(Vector::new(2, 3));
    board.flip(Vector::new(4, 1));

    // ###
    // #..
    // #..
    assert_eq!(
        board.coverings1().iter().copied().collect::<Vec<_>>(),
        vec![Vector::new(2, 1).negated()]
    );

    board.flip(Vector::new(3, 2));
    board.flip(Vector::new(3, 3));

    // ###
    // ###
    // #..
    assert_eq!(
        board.coverings1().iter().copied().collect::<Vec<_>>(),
        vec![Vector::new(3, 1).negated(), Vector::new(2, 1).negated()]
    );
}

#[test]
fn test_coverings1_zero_origin() {
    // ..#
    // ###
    let problem = TightPoly::from_str("2 3\n..#\n###").unwrap();
    let mut board = Cover1Queries::new(problem, 5);

    assert_eq!(board.coverings1().len(), 0);

    board.flip(Vector::new(2, 3));
    board.flip(Vector::new(3, 1));
    board.flip(Vector::new(3, 2));
    board.flip(Vector::new(3, 3));

    // ..#
    // ###
    assert_eq!(
        board.coverings1().iter().copied().collect::<Vec<_>>(),
        vec![Vector::new(2, 1).negated()]
    );
}

#[test]
fn flipping_twice_gives_back_the_covers() {
    let problem = TightPoly::from_str("1 2\n##").unwrap();
    let mut board = Cover1Queries::new(problem, 4);
    board.flip(Vector::new(1, 1));
    board.flip(Vector::new(1, 2));
    let before: Vec<Vector<i32>> = board.coverings1().iter().copied().collect();
    assert_eq!(before, vec![Vector::new(1, 1).negated()]);
    board.flip(Vector::new(1, 3));
    board.flip(Vector::new(1, 3));
    let after: Vec<Vector<i32>> = board.coverings1().iter().copied().collect();
    assert_eq!(before, after);
    // a point flipped three times is on the board
    board.flip(Vector::new(2, 2));
    board.flip(Vector::new(2, 2));
    board.flip(Vector::new(2, 2));
    let covers: Vec<Vector<i32>> = board.coverings1().iter().copied().collect();
    assert_eq!(covers, vec![Vector::new(1, 1).negated()]);
}
