use polycover2::data::board_analyzer_symmetric::{BoardAnalyzerSymmetric, Shallowness};
use polycover2::data::vector::Vector;

#[test]
fn test_shallowness() {
    let mut analyzer = BoardAnalyzerSymmetric::new(19);

    // #..###
    //  .#.#.
    //   ##..

    analyzer.flip(Vector::new(0, 0));
    analyzer.flip(Vector::new(0, 3));
    analyzer.flip(Vector::new(0, 4));
    analyzer.flip(Vector::new(0, 5));
    analyzer.flip(Vector::new(1, 2));
    analyzer.flip(Vector::new(1, 4));
    analyzer.flip(Vector::new(2, 2));
    analyzer.flip(Vector::new(2, 3));

    assert_eq!(
        analyzer.shallowness(Vector::new(0, 0)),
        [Shallowness { depth: 0, nth: 0 }, Shallowness { depth: 0, nth: 0 }]
    );
    assert_eq!(
        analyzer.shallowness(Vector::new(0, 3)),
        [Shallowness { depth: 0, nth: 1 }, Shallowness { depth: 3, nth: 0 }]
    );
    assert_eq!(
        analyzer.shallowness(Vector::new(1, 2)),
        [Shallowness { depth: 1, nth: 0 }, Shallowness { depth: 3, nth: 1 }]
    );
    assert_eq!(
        analyzer.shallowness(Vector::new(2, 3)),
        [Shallowness { depth: 2, nth: 1 }, Shallowness { depth: 5, nth: 2 }]
    );
}

#[test]
fn test_frontness() {
    let mut analyzer = BoardAnalyzerSymmetric::new(19);

    // #..##
    //  .#..
    //   #..

    analyzer.flip(Vector::new(0, 0));
    analyzer.flip(Vector::new(0, 3));
    analyzer.flip(Vector::new(0, 4));
    analyzer.flip(Vector::new(1, 2));
    analyzer.flip(Vector::new(2, 2));

    assert_eq!(analyzer.frontness(Vector::new(0, 0)), 0);
    assert_eq!(analyzer.frontness(Vector::new(0, 2)), 0);
    assert_eq!(analyzer.frontness(Vector::new(2, 2)), 1);
    assert_eq!(analyzer.frontness(Vector::new(2, 3)), 1);
}

#[test]
fn analyzer_mirror_cells_share_the_domain_cell() {
    // The four corners of the board all map to the domain cell (0, 0).
    let mut analyzer = BoardAnalyzerSymmetric::new(7);
    analyzer.flip(Vector::new(0, 0));
    analyzer.flip(Vector::new(0, 3));
    assert_eq!(
        analyzer.shallowness(Vector::new(6, 6)),
        [Shallowness { depth: 0, nth: 0 }, Shallowness { depth: 0, nth: 0 }]
    );
    assert_eq!(
        analyzer.shallowness(Vector::new(3, 6)),
        [Shallowness { depth: 0, nth: 1 }, Shallowness { depth: 3, nth: 0 }]
    );
    // A cell outside the domain leaves the analysis alone.
    analyzer.flip(Vector::new(6, 0));
    assert_eq!(
        analyzer.shallowness(Vector::new(0, 3)),
        [Shallowness { depth: 0, nth: 1 }, Shallowness { depth: 3, nth: 0 }]
    );
    // Clearing the only cell of the first row and diagonal moves both fronts.
    analyzer.flip(Vector::new(0, 0));
    assert_eq!(
        analyzer.shallowness(Vector::new(0, 3)),
        [Shallowness { depth: 0, nth: 0 }, Shallowness { depth: 0, nth: 0 }]
    );
    assert_eq!(analyzer.frontness(Vector::new(3, 3)), 1);
}
