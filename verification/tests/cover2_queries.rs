use polycover2::data::cover2_queries::Cover2Queries;
use polycover2::data::tight_poly::TightPoly;
use polycover2::data::vector::Vector;

#[test]
fn test_flip_small() {
    let problem = TightPoly::from_str(
        r#"2 2
##
#.
"#,
    )
    .unwrap();

    let mut c2q = Cover2Queries::new(problem, 3, 3, 2);

    c2q.flip(0, Vector::new(0, 0));
    c2q.flip(1, Vector::new(0, 0));

    assert_eq!(c2q.coverings2(1, 0).len(), 0);

    // a: ##
    // b: #
    c2q.flip(0, Vector::new(0, 1));

    assert_eq!(c2q.coverings2(1, 0), vec![(Vector::new(1, 0), Vector::new(0, 0))]);

    c2q.flip(0, Vector::new(0, 0));
    assert_eq!(c2q.coverings2(1, 0).len(), 0);

    c2q.flip(0, Vector::new(0, 2));
    // a: .##
    // b: #
    assert_eq!(c2q.coverings2(1, 0), vec![(Vector::new(1, 0), Vector::new(0, -1))]);

    c2q.flip(1, Vector::new(1, 0));
    let mut c2 = c2q.coverings2(1, 0).to_vec();
    c2.sort();
    assert_eq!(
        c2,
        vec![
            (Vector::new(0, 0), Vector::new(0, 0)),
            (Vector::new(1, 0), Vector::new(0, -1)),
        ]
    );

    c2q.flip(0, Vector::new(0, 1));
    // a: ..#
    // b: #
    //    #
    assert_eq!(c2q.coverings2(1, 0), vec![(Vector::new(0, 0), Vector::new(0, -1))]);

    c2q.flip(1, Vector::new(0, 0));
    c2q.flip(1, Vector::new(1, 0));
    c2q.flip(1, Vector::new(1, 1));
    c2q.flip(1, Vector::new(2, 1));
    // a: ..#
    // b: ..
    //    .#
    //    .#
    assert_eq!(
        c2q.coverings2(1, 0),
        vec![(Vector::new(-1, -1), Vector::new(0, -1))]
    );
}

#[test]
fn test_flip() {
    for (problem_str, a, b, want) in [
        (
            r#"3 2
#.
##
#.
            "#,
            r#"3 2
#.
##
.#
            "#,
            r#"1 2
##
            "#,
            vec![(Vector::new(0, 0), Vector::new(2, -1))],
        ),
        (
            r#"3 3
.#.
###
.#.
            "#,
            r#"3 4
.#.#
####
#.#.
            "#,
            r#"2 3
###
.#.
            "#,
            //
            // .A.A | ..A.A | .oBB | ...... | .BBB
            // AAAA | .AAAA | .ABA | BoBA.A | .oBA
            // AoA. | oA.A. | AAAA | .BAAAA | AAAA
            // .BBB | BBB   | A.A. | ..A.A. | A.A.
            // ..B. | .B.   | .... | ...... | ....
            vec![
                (Vector::new(-2, -1), Vector::new(1, 0)),
                (Vector::new(-2, 1), Vector::new(1, 0)),
                (Vector::new(0, -1), Vector::new(-1, 0)),
                (Vector::new(0, 1), Vector::new(0, -1)),
                (Vector::new(1, -1), Vector::new(0, 0)),
            ],
        ),
        (
            r#"3 3
.#.
###
.#.
            "#,
            r#"11 11
.####.#....
.#..###..##
.....#....#
#...##....#
##...###.##
.###.#.###.
##.###...##
#....##...#
#....#.....
##..###..#.
...##.####.     
            "#,
            r#"11 11
.####.##...
.#..###..##
.....#....#
#...##....#
##...###.##
.###.#.###.
##.###...##
#....##...#
#....#.....
##..###..#.
....#.####.                
            "#,
            //   ..oB..
            //   .obBB.
            //   AaBABB
            //   .AAA..
            //   ..A...
            vec![
                (Vector::new(0, -4), Vector::new(-10, -3)),
                (Vector::new(1, -5), Vector::new(-9, -4)),
                (Vector::new(1, -4), Vector::new(-9, -3)),
                (Vector::new(2, -5), Vector::new(-8, -4)),
            ],
        ),
    ] {
        let problem = TightPoly::from_str(problem_str).unwrap();
        let a = TightPoly::from_str(a).unwrap();
        let b = TightPoly::from_str(b).unwrap();

        let mut c2q = Cover2Queries::new(problem, 11, 11, 2);

        for p in a.cells() {
            c2q.flip(0, p);
        }
        for p in b.cells() {
            c2q.flip(1, p);
        }

        let mut c2 = c2q.coverings2(1, 0).to_vec();
        c2.sort();
        let mut want = want.into_iter().map(|(a, b)| (b, a)).collect::<Vec<_>>();
        want.sort();
        assert_eq!(c2, want, "{:?}", problem_str);
    }
}

#[test]
fn test_fast_update() {
    let problem = TightPoly::from_str(
        r#"3 6
###.##
######
##.###
"#,
    )
    .unwrap();

    let mut c2q = Cover2Queries::new(problem, 3, 3, 2);
    c2q.flip(0, Vector::new(0, 0));
    c2q.flip(0, Vector::new(0, 1));
    c2q.flip(0, Vector::new(0, 2));
    c2q.flip(0, Vector::new(1, 0));
    c2q.flip(0, Vector::new(1, 2));
    c2q.flip(0, Vector::new(2, 0));
    c2q.flip(0, Vector::new(2, 1));
    c2q.flip(0, Vector::new(2, 2));

    c2q.flip(1, Vector::new(0, 0));
    c2q.flip(1, Vector::new(0, 1));
    c2q.flip(1, Vector::new(0, 2));
    c2q.flip(1, Vector::new(1, 0));
    c2q.flip(1, Vector::new(1, 1));
    c2q.flip(1, Vector::new(1, 2));
    c2q.flip(1, Vector::new(2, 0));
    c2q.flip(1, Vector::new(2, 1));

    assert!(c2q.coverings2(1, 0).is_empty());

    c2q.flip(0, Vector::new(1, 1));
    assert_eq!(c2q.coverings2(1, 0), vec![(Vector::new(0, 0), Vector::new(0, 3))]);

    c2q.flip(0, Vector::new(1, 1));
    assert_eq!(c2q.coverings2(1, 0), vec![]);

    c2q.flip(0, Vector::new(1, 1));
    assert_eq!(c2q.coverings2(1, 0), vec![(Vector::new(0, 0), Vector::new(0, 3))]);

    c2q.flip(1, Vector::new(1, 1));
    assert_eq!(c2q.coverings2(1, 0), vec![]);

    c2q.flip(1, Vector::new(1, 1));
    assert_eq!(c2q.coverings2(1, 0), vec![(Vector::new(0, 0), Vector::new(0, 3))]);

    c2q.flip(1, Vector::new(2, 2));
    assert_eq!(
        c2q.coverings2(1, 0),
        vec![
            (Vector::new(0, 0), Vector::new(0, 3)),
            (Vector::new(0, 3), Vector::new(0, 0)),
        ]
    );
    c2q.flip(0, Vector::new(2, 2));
    assert_eq!(c2q.coverings2(1, 0), vec![(Vector::new(0, 3), Vector::new(0, 0))]);

    c2q.flip(1, Vector::new(0, 0));
    assert_eq!(c2q.coverings2(1, 0), vec![(Vector::new(0, 3), Vector::new(0, 0))]);
}
