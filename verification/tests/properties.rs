use polycover2::check::check::{check, full_check, CheckError};
use polycover2::data::cover2_queries::Cover2Queries;
use polycover2::data::parse::ParseError;
use polycover2::data::tight_poly::{TightPoly, TightPolyError};
use polycover2::data::tree_poly::TreePoly;
use polycover2::data::u256::U512;
use polycover2::data::vector::Vector;

fn poly(s: &str) -> TightPoly {
    TightPoly::from_str(s).unwrap()
}

#[test]
fn parse_errors_by_kind() {
    assert_eq!(TightPoly::from_str("   ").unwrap_err(), ParseError::MissingHeight);
    assert_eq!(TightPoly::from_str("x 2\n##").unwrap_err(), ParseError::BadHeight);
    assert_eq!(TightPoly::from_str("1").unwrap_err(), ParseError::MissingWidth);
    assert_eq!(TightPoly::from_str("1 y\n##").unwrap_err(), ParseError::BadWidth);
    assert_eq!(TightPoly::from_str("1 2\n#o").unwrap_err(), ParseError::InvalidCharacter);
    assert_eq!(TightPoly::from_str("2 2\n##").unwrap_err(), ParseError::RowCountMismatch);
    assert_eq!(
        TightPoly::from_str("2 2\n##\n..").unwrap_err(),
        ParseError::NotTight(TightPolyError::EmptyRow)
    );
    assert_eq!(
        TightPoly::from_str("2 2\n.#\n.#").unwrap_err(),
        ParseError::NotTight(TightPolyError::EmptyFirstColumn)
    );
    assert_eq!(TightPoly::from_str("1 3\n##").unwrap_err(), ParseError::WidthMismatch);
}

#[test]
fn to_string_reads_back() {
    for text in ["3 4\n####\n#...\n##..\n", "1 1\n#\n", "2 3\n#.#\n###\n"] {
        let p = poly(text);
        assert_eq!(p.to_string(), text);
        assert_eq!(poly(&p.to_string()), p);
    }
}

#[test]
fn unique_rot_revs_are_images() {
    let square = poly("2 2\n##\n##\n");
    assert_eq!(square.unique_rot_revs().len(), 1);
    let l = poly("2 3\n###\n..#\n");
    let images = l.unique_rot_revs();
    assert_eq!(images.len(), 8);
    for image in images.iter() {
        assert_eq!(image.cells().len(), 4);
    }
}

#[test]
fn full_check_errors_by_kind() {
    let problem = poly("1 2\n##\n");
    let empty = TightPoly::new(vec![]).unwrap();
    assert_eq!(full_check(&problem, &empty), Err(CheckError::EmptyAnswer));
    assert_eq!(full_check(&problem, &poly("3 3\n###\n#.#\n###\n")), Err(CheckError::AnswerHasHole));
    assert_eq!(full_check(&problem, &poly("1 3\n#.#\n")), Err(CheckError::AnswerNotConnected));
    assert_eq!(full_check(&problem, &poly("1 3\n###\n")), Err(CheckError::ContainedInAnswer));
    assert_eq!(full_check(&poly("1 3\n###\n"), &poly("1 1\n#\n")), Err(CheckError::CoveredWithMore));
    assert_eq!(
        CheckError::CoveredWithTwo(12).message(),
        "The problem can be covered with two copies of the answer: count 12"
    );
}

#[test]
fn check_counts_single_covers() {
    let res = check(&poly("1 2\n##\n"), &poly("1 3\n###\n"));
    assert_eq!(res.cover_with_1_count, 2);
    assert_eq!(res.cover_with_2_count, 0);
}

#[test]
fn u512_scans() {
    let mut x = U512::zero();
    assert_eq!(x.trailing_zeros(), 512);
    assert_eq!(x.leading_zeros(), 512);
    x.set(3);
    x.set(200);
    x.set(400);
    assert_eq!(x.trailing_zeros(), 3);
    assert_eq!(x.leading_zeros(), 111);
    assert_eq!(x.count_ones(), 3);
    assert_eq!(x.count_ones_lt(200), 1);
    assert_eq!(x.count_ones_gt(200), 1);
}

#[test]
fn tree_stays_connected() {
    let mut tree = TreePoly::new(4, 4);
    tree.set_leaf(1, 1).unwrap();
    assert!(tree.set_leaf(3, 3).is_err());
    tree.set_leaf(1, 2).unwrap();
    tree.set_leaf(2, 2).unwrap();
    // (1, 2) joins the two others: it is no leaf.
    assert!(!tree.can_clear(1, 2));
    assert!(tree.can_clear(2, 2));
    let tight = TightPoly::from_tree(&tree);
    assert_eq!(tight, poly("2 2\n##\n.#\n"));
    tree.clear_leaf(2, 2).unwrap();
    tree.clear_leaf(1, 2).unwrap();
    tree.clear_leaf(1, 1).unwrap();
    assert_eq!(TightPoly::from_tree(&tree).height(), 0);
}

#[test]
fn tree_mask_2d() {
    let mut tree = TreePoly::new(5, 5);
    tree.set_leaf(1, 1).unwrap();
    tree.set_leaf(1, 2).unwrap();
    tree.set_leaf(2, 2).unwrap();
    // The 3x3 square from (0, 0): bits x * 3 + y.
    assert_eq!(tree.mask_2d(Vector::new(0, 0), 3), (1 << 4) | (1 << 5) | (1 << 8));
    assert_eq!(tree.mask_2d(Vector::new(1, 1), 2), 0b1011);
}

#[test]
fn cover2_queries_coverings1_and_overlap() {
    let problem = poly("1 2\n##\n");
    let mut c2q = Cover2Queries::new(problem, 3, 3, 1);
    c2q.flip(0, Vector::new(1, 0));
    c2q.flip(0, Vector::new(1, 1));
    c2q.flip(0, Vector::new(1, 2));
    // B_0 = row 1, columns 0..3: moved by (-1, 0) or (-1, -1) it holds the problem.
    let mut covers = c2q.coverings1(0);
    covers.sort();
    assert_eq!(covers, vec![Vector::new(-1, -1), Vector::new(-1, 0)]);
    let zero = Vector::new(0isize, 0isize);
    assert_eq!(c2q.overlap_count(0, 0, &zero, &zero), 3);
    assert_eq!(c2q.overlap_count(0, 0, &zero, &Vector::new(0isize, 1isize)), 2);
    assert!(!c2q.overlap(0, 0, &zero, &Vector::new(1isize, 0isize)));
}

#[test]
fn cover2_queries_pairs_cover_exactly() {
    // Two copies of a domino cover the 1x4 bar end to end.
    let problem = poly("1 4\n####\n");
    let mut c2q = Cover2Queries::new(problem, 2, 2, 1);
    c2q.flip(0, Vector::new(0, 0));
    c2q.flip(0, Vector::new(0, 1));
    let pairs = c2q.coverings2(0, 0).to_vec();
    assert_eq!(pairs, vec![(Vector::new(0, 0), Vector::new(0, 2))]);
}
