use polycover2::data::d4::D4;
use polycover2::data::tight_poly::TightPoly;
use polycover2::data::u256::U512;
use polycover2::data::vector::Vector;

fn poly(s: &str) -> TightPoly {
    TightPoly::from_str(s).unwrap()
}

#[test]
fn test_new() {
    let empty = TightPoly::new(vec![]).unwrap();
    assert_eq!(empty.width(), 0);
}

#[test]
fn test_from_str() {
    let p = poly(
        r#"3 4
####
#...
##..
"#,
    );
    assert_eq!(
        p,
        TightPoly::new(vec![U512::from_u128(0b1111), U512::from_u128(0b0001), U512::from_u128(0b0011)]).unwrap()
    );
}

#[test]
fn test_display() {
    let p = poly(
        r#"3 4
####
#...
##..
"#,
    );

    assert_eq!(
        p.to_string(),
        r#"3 4
####
#...
##..
"#,
    );
}

#[test]
fn test_rot90() {
    let p = poly(
        r#"2 3
###
..#
"#,
    );
    assert_eq!(
        p.roted90(),
        poly(
            r#"3 2
##
#.
#.
"#
        )
    );
}

#[test]
fn test_unique_rot_revs() {
    assert_eq!(
        poly(
            r#"2 3
###
..#
"#,
        )
        .unique_rot_revs()
        .len(),
        8
    );

    assert_eq!(
        poly(
            r#"2 3
##.
.##
"#,
        )
        .unique_rot_revs()
        .len(),
        4
    );

    assert_eq!(
        poly(
            r#"1 2
##
"#,
        )
        .unique_rot_revs()
        .len(),
        2
    );

    assert_eq!(
        poly(
            r#"2 2
##
##
"#,
        )
        .unique_rot_revs()
        .len(),
        1
    );
}

#[test]
fn tight_poly_test_intersects() {
    let p1 = poly(
        r#"3 4
####
#..#
####
"#,
    );

    let p2 = poly(
        r#"1 2
##
"#,
    );

    assert!(p1.intersects(&p2, 0, 0));
    assert!(!p1.intersects(&p2, 1, 1));
    assert!(!p1.intersects(&p2, -1, -1));
    assert!(!p1.intersects(&p2, -1, 0));
    assert!(p1.intersects(&p2, 0, -1));
    assert!(p1.intersects(&p2, 0, 3));
    assert!(!p1.intersects(&p2, 0, 4));
    assert!(p1.intersects(&p2, 2, 3));
    assert!(!p1.intersects(&p2, 3, 3));
}

#[test]
fn test_cells() {
    let p = poly(
        r#"3 4
####
##.#
#..#
"#,
    );

    assert_eq!(
        p.cells(),
        vec![
            Vector::new(0, 0),
            Vector::new(0, 1),
            Vector::new(0, 2),
            Vector::new(0, 3),
            Vector::new(1, 0),
            Vector::new(1, 1),
            Vector::new(1, 3),
            Vector::new(2, 0),
            Vector::new(2, 3)
        ]
    );
}

#[test]
fn test_has_hole() {
    for (s, want) in [
        (
            r#"3 3
##.
#..
###
"#,
            false,
        ),
        (
            r#"3 3
##.
#.#
###
"#,
            true,
        ),
        (
            r#"3 4
####
#..#
.###
"#,
            true,
        ),
        (
            r#"3 3
###
###
###
"#,
            false,
        ),
        (
            r#"4 5
.#.#.
##.##
#...#
#####
"#,
            false,
        ),
    ] {
        let p = poly(s);
        assert_eq!(p.has_hole(), want);
    }
}

#[test]
fn test_is_connected() {
    for (s, want) in [
        (
            r#"3 3
##.
#.#
###
"#,
            true,
        ),
        (
            r#"3 3
##.
#.#
.##
"#,
            false,
        ),
        (
            r#"3 4
####
#...
.###
"#,
            false,
        ),
        (
            r#"3 3
###
###
###
"#,
            true,
        ),
        (
            r#"4 5
.#.#.
##.##
#...#
#####
"#,
            true,
        ),
    ] {
        let p = poly(s);
        assert_eq!(p.is_connected(), want, "{s}");
    }
}

fn units(text: &str) -> u64 {
    TightPoly::from_str(text).unwrap().asymmetricity_units()
}

#[test]
fn asymmetricity_units_of_small_polyominoes() {
    // A single cell is completely symmetric.
    assert_eq!(units("1 1\n#\n"), 0);
    assert_eq!(units("2 2\n##\n#.\n"), 24);
    assert_eq!(units("3 3\n###\n#..\n#..\n"), 36);
    assert_eq!(units("2 3\n#.#\n###\n"), 15);
    assert_eq!(units("2 3\n##.\n.##\n"), 21);
    assert_eq!(units("1 3\n###\n"), 12);
    assert_eq!(units("2 4\n####\n#...\n"), 40);
}

#[test]
fn asymmetricity_units_do_not_depend_on_the_symmetry_applied() {
    let p = TightPoly::from_str("2 4\n####\n#...\n").unwrap();
    let q = p.roted90();
    let r = p.flipped();
    assert_eq!(p.asymmetricity_units(), q.asymmetricity_units());
    assert_eq!(p.asymmetricity_units(), r.asymmetricity_units());
}

#[test]
fn apply_then_inverse_gives_back_the_polyomino() {
    let p = poly("3 4\n####\n#...\n##..\n");
    for i in 0..8 {
        let d = D4::from_index(i);
        let q = p.apply(d);
        assert_eq!(q.cells().len(), p.cells().len());
        let r = q.apply(d.inverse());
        assert_eq!(r.to_string(), p.to_string());
        assert!(r == p);
    }
    assert_eq!(p.apply(D4::I).to_string(), p.to_string());
}

#[test]
fn symmetric_square_has_one_image_and_domino_two() {
    assert_eq!(poly("3 3\n.#.\n###\n.#.\n").unique_rot_revs().len(), 1);
    assert_eq!(poly("1 3\n###\n").unique_rot_revs().len(), 2);
    assert_eq!(poly("2 2\n##\n#.\n").unique_rot_revs().len(), 4);
}

#[test]
fn square_polyominoes_stay_below_full_asymmetry() {
    for text in ["2 2\n##\n#.\n", "3 3\n##.\n.##\n..#\n", "3 3\n#..\n###\n.#.\n"] {
        let p = poly(text);
        assert!(p.asymmetricity_units() < 8 * 3 * 3);
        assert!(p.asymmetricity_units() < 8 * (p.height() * p.width()) as u64);
    }
}
