use std::rc::Rc;

use polycover2::check::placement::Placement;
use polycover2::data::tight_poly::TightPoly;

#[test]
fn placement_test_intersects() {
    let f_pentomino: Rc<TightPoly> = TightPoly::from_str(
        r#"
3 3
.##
##.
.#.
"#,
    )
    .unwrap()
    .into();
    let u_pentomino: Rc<TightPoly> = TightPoly::from_str(
        r#"
3 2
##
#.
##
"#,
    )
    .unwrap()
    .into();

    for (dx1, dy1, dx2, dy2, want) in [
        (0, 0, 0, 0, true),
        (0, -1, 0, 0, true),
        (0, 0, 0, -1, false),
        (0, 0, -1, 2, true),
        (-1, 2, 0, 0, false),
    ] {
        assert_eq!(
            Placement::new(dx1, dy1, f_pentomino.clone())
                .intersects(&Placement::new(dx2, dy2, u_pentomino.clone())),
            want,
            "{dx1} {dy1} {dx2} {dy2} {want}"
        );
    }
}

#[test]
fn test_get() {
    let f_pentomino: Rc<TightPoly> = TightPoly::from_str(
        r#"
3 3
##.
.##
.#.
"#,
    )
    .unwrap()
    .into();

    let placement = Placement::new(1, 1, f_pentomino.clone());

    assert!(!placement.get(0, 0));
    assert!(placement.get(1, 1));
    assert!(placement.get(2, 2));
    assert!(placement.get(2, 3));
    assert!(!placement.get(3, 3));
}
