use polycover2::check::check::{check, full_check, CheckResult};
use polycover2::data::tight_poly::TightPoly;

fn poly(s: &str) -> TightPoly {
    TightPoly::from_str(s).unwrap()
}

#[test]
fn test_check() {
    let problem = poly(
        r#"
2 2
##
#.
"#,
    );
    let answer = poly(
        r#"
1 2
##
"#,
    );

    let res = check(&problem, &answer);

    assert_eq!(
        res,
        CheckResult {
            cover_with_1_count: 0,
            cover_with_2_count: 6,
        }
    );
}

#[test]
fn test_full_check() {
    for (problem, answer, want_err) in [
        (
            r#"
2 2
##
#.
"#,
            r#"
1 1
#
"#,
            "The problem can be covered with more than two copies of the answer",
        ),
        (
            r#"
2 2
##
#.
"#,
            r#"
3 3
###
#.#
##.
"#,
            "The answer has a hole",
        ),
        (
            r#"
2 2
##
#.
"#,
            r#"
3 3
###
..#
.#.
"#,
            "The answer is not connected",
        ),
        (
            r#"
2 2
##
#.
"#,
            r#"
2 3
###
..#
"#,
            "The problem is contained in the answer",
        ),
        (
            r#"
2 2
##
#.
"#,
            r#"
1 2
##
"#,
            "The problem can be covered with two copies of the answer",
        ),
        (
            r#"
3 3
###
###
##.
"#,
            r#"
4 5
.#.#
##.##
#...#
#####
"#,
            "The problem can be covered with more than two copies of the answer",
        ),
        (
            r#"
3 3
###
###
#.#
"#,
            r#"
4 5
.#.#
##.##
#...#
#####
"#,
            "The problem can be covered with two copies of the answer",
        ),
    ] {
        let problem = poly(problem);
        let answer = poly(answer);

        let res = full_check(&problem, &answer).unwrap_err().message();

        assert!(res.contains(want_err));
    }
}

#[test]
fn test_full_check_pass() {
    let problem = poly(
        r#"
3 3
###
###
###
"#,
    );
    let answer = poly(
        r#"
4 5
.#.#.
##.##
#...#
#####
"#,
    );

    full_check(&problem, &answer).unwrap();
}

#[test]
fn test_mask_to_placements() {
    let problem = TightPoly::from_str(
        r#"
2 2
##
#.
"#,
    )
    .unwrap();
    let answer = TightPoly::from_str(
        r#"
1 2
##
"#,
    )
    .unwrap();

    let res = polycover2::check::check::mask_to_placements(&problem, &answer);

    assert_eq!(res[0b000].len(), 0);
    assert_eq!(res[0b001].len(), 2);
    assert_eq!(res[0b010].len(), 3);
    assert_eq!(res[0b100].len(), 3);
    assert_eq!(res[0b011].len(), 1);
    assert_eq!(res[0b101].len(), 1);
    assert_eq!(res[0b110].len(), 0);
    assert_eq!(res[0b111].len(), 0);
}
