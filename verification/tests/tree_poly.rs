use polycover2::data::tight_poly::TightPoly;
use polycover2::data::tree_poly::TreePoly;
use polycover2::data::vector::Vector;

#[test]
fn test_into() {
    let mut tree = TreePoly::new(5, 5);
    tree.set_leaf(2, 1).unwrap();
    tree.set_leaf(2, 2).unwrap();
    tree.set_leaf(3, 1).unwrap();
    tree.set_leaf(4, 1).unwrap();
    tree.set_leaf(4, 2).unwrap();

    let tight = TightPoly::from_str(
        r#"
3 2
##
#.
##
"#,
    )
    .unwrap();

    assert_eq!(TightPoly::from_tree(&tree), tight);
}

#[test]
fn test_set() {
    let mut tree = TreePoly::new(5, 5);

    for (x, y, ok) in [
        (2, 2, true),
        (3, 3, false),
        (2, 3, true),
        (3, 2, true),
        (3, 3, false),
        (2, 4, true),
        (4, 2, true),
        (4, 2, false),
        (4, 3, true),
        (3, 4, false),
    ] {
        assert_eq!(tree.set_leaf(x, y).is_ok(), ok, "{x} {y}");
    }
}

#[test]
fn test_clear() {
    let mut tree = TreePoly::new(5, 5);

    assert!(!tree.can_clear(0, 0));
    tree.set_leaf(0, 0).unwrap();
    assert_eq!(
        tree.leaves_slow().iter().copied().collect::<Vec<_>>(),
        [Vector::new(0, 0)]
    );
    tree.clear_leaf(0, 0).unwrap();
    assert_eq!(tree.leaves_slow().len(), 0);

    // #####
    // ..#..
    // #.###
    // #.#..
    // #####
    tree.set_leaf(0, 0).unwrap();
    tree.set_leaf(0, 1).unwrap();
    tree.set_leaf(0, 2).unwrap();
    tree.set_leaf(0, 3).unwrap();
    tree.set_leaf(0, 4).unwrap();
    tree.set_leaf(1, 2).unwrap();
    tree.set_leaf(2, 2).unwrap();
    tree.set_leaf(2, 3).unwrap();
    tree.set_leaf(2, 4).unwrap();
    tree.set_leaf(3, 2).unwrap();
    tree.set_leaf(4, 2).unwrap();
    tree.set_leaf(4, 3).unwrap();
    tree.set_leaf(4, 4).unwrap();
    tree.set_leaf(4, 1).unwrap();
    tree.set_leaf(4, 0).unwrap();
    tree.set_leaf(3, 0).unwrap();
    tree.set_leaf(2, 0).unwrap();

    let mut leaves: Vec<_> = tree.leaves_slow().iter().copied().collect();
    leaves.sort();
    assert_eq!(
        leaves,
        vec![
            Vector::new(0, 0),
            Vector::new(0, 4),
            Vector::new(2, 0),
            Vector::new(2, 4),
            Vector::new(4, 4),
        ]
    );

    for (x, y, ok) in [
        (0, 1, false),
        (0, 0, true),
        (0, 1, true),
        (0, 4, true),
        (2, 0, true),
        (2, 2, false),
    ] {
        assert_eq!(tree.clear_leaf(x, y).is_ok(), ok);
    }

    leaves = tree.leaves_slow().iter().copied().collect();
    leaves.sort();
    assert_eq!(
        leaves,
        vec![
            Vector::new(0, 3),
            Vector::new(2, 4),
            Vector::new(3, 0),
            Vector::new(4, 4),
        ]
    );

    let mut cells = tree.poly().cells();
    cells.sort();
    assert_eq!(
        cells,
        vec![
            Vector::new(0, 2),
            Vector::new(0, 3),
            Vector::new(1, 2),
            Vector::new(2, 2),
            Vector::new(2, 3),
            Vector::new(2, 4),
            Vector::new(3, 0),
            Vector::new(3, 2),
            Vector::new(4, 0),
            Vector::new(4, 1),
            Vector::new(4, 2),
            Vector::new(4, 3),
            Vector::new(4, 4),
        ]
    )
}

#[test]
fn test_clear_set() {
    let mut tree = TreePoly::new(5, 5);

    tree.set_leaf(2, 2).unwrap();
    tree.set_leaf(2, 3).unwrap();
    tree.set_leaf(2, 1).unwrap();

    assert_eq!(
        tree.leaves_slow().iter().copied().collect::<Vec<_>>(),
        [Vector::new(2, 1), Vector::new(2, 3)]
    );

    tree.clear_leaf(2, 3).unwrap();

    assert_eq!(
        tree.leaves_slow().iter().copied().collect::<Vec<_>>(),
        [Vector::new(2, 1), Vector::new(2, 2)]
    );

    tree.clear_leaf(2, 1).unwrap();

    assert_eq!(
        tree.leaves_slow().iter().copied().collect::<Vec<_>>(),
        [Vector::new(2, 2)]
    );

    tree.clear_leaf(2, 2).unwrap();
    tree.set_leaf(2, 2).unwrap();
}

fn u_shape() -> TreePoly {
    // .....
    // .#.#.
    // .###.
    let mut tree = TreePoly::new(4, 5);
    tree.set_leaf(2, 2).unwrap();
    tree.set_leaf(2, 1).unwrap();
    tree.set_leaf(2, 3).unwrap();
    tree.set_leaf(1, 1).unwrap();
    tree.set_leaf(1, 3).unwrap();
    tree
}

#[test]
fn tree_zip_and_back() {
    let mut tree = u_shape();
    let before = tree.to_string();
    assert_eq!(before, "4 5\n.....\n.#.#.\n.###.\n.....\n");

    let (a, b) = tree.try_zip(Vector::new(1, 2)).unwrap();
    assert_eq!((a, b), (Vector::new(2, 3), Vector::new(2, 1)));
    assert_eq!(tree.to_string(), "4 5\n.....\n.###.\n..#..\n.....\n");

    // The same zip puts the cells back.
    let (a2, b2) = tree.try_zip(Vector::new(1, 2)).unwrap();
    assert_eq!((a2, b2), (a, b));
    assert_eq!(tree.to_string(), before);
}

#[test]
fn tree_zip_refused() {
    let mut tree = u_shape();
    // (2, 2) has three free sides.
    assert!(tree.try_zip(Vector::new(2, 2)).is_err());
    // (0, 2) has no cell next to it but one.
    assert!(tree.try_zip(Vector::new(0, 2)).is_err());
    // Far outside the box nothing is next to anything.
    assert!(tree.try_zip(Vector::new(-100, 1000)).is_err());
    assert_eq!(tree.to_string(), u_shape().to_string());
}

#[test]
fn tree_text_and_poly_text_agree() {
    let tree = u_shape();
    assert_eq!(tree.to_string(), tree.poly().to_string());
}
