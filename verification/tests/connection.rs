use polycover2::data::connection::{Surroundings, SurroundingsError};
use polycover2::data::connections::{acceptable_masks, Connections};
use polycover2::data::tight_poly::TightPoly;

fn sorted(mut v: Vec<usize>) -> Vec<usize> {
    v.sort();
    v
}

#[test]
fn surroundings_refusals() {
    assert_eq!(Surroundings::try_from_mask(0b1111, 2), Err(SurroundingsError::ForbiddenBlock));
    assert_eq!(Surroundings::try_from_mask(0b1001, 2), Err(SurroundingsError::ForbiddenBlock));
    assert_eq!(Surroundings::try_from_mask(0b111101111, 3), Err(SurroundingsError::Hole));
    assert_eq!(Surroundings::try_from_mask(0b000010000, 3), Err(SurroundingsError::Isolated));
}

#[test]
fn surroundings_labels_follow_the_rim() {
    let s = Surroundings::try_from_mask(0b010111010, 3).unwrap();
    assert_eq!(
        s.components,
        vec![None, Some(0), None, Some(0), Some(0), None, Some(0), None]
    );
    // two pieces on the rim, numbered in the order in which they first appear
    let t = Surroundings::try_from_mask(0b100000001, 3).unwrap();
    assert_eq!(
        t.components,
        vec![Some(0), None, None, None, None, None, None, Some(1)]
    );
}

#[test]
fn connections_one_inside_square() {
    let c = Connections::new(1);
    assert_eq!(sorted(c.candidates(0)), vec![0]);
    assert_eq!(sorted(c.candidates(0b010111010)), vec![1]);
    assert_eq!(sorted(c.candidates(0b10)), vec![0, 1]);
    assert_eq!(sorted(c.candidates(0b110100000)), vec![0]);
    assert!(c.candidates(0b111101111).is_empty());
    assert!(c.candidates(0b111111111).is_empty());
    assert!(c.candidates(0b000010000).is_empty());
    assert_eq!(acceptable_masks(3, None).len(), 243);
}

#[test]
fn connections_two_inside_squares() {
    let c = Connections::new(2);
    assert_eq!(sorted(c.candidates(0b1111010001000000)), vec![0, 4, 5, 7, 8, 10, 11]);
    assert_eq!(sorted(c.candidates(0b1111100010001111)), vec![0, 1, 4]);
    assert!(c.candidates(0b0000011001100000).is_empty());
    assert!(c.candidates(0b0110011001100110).is_empty());
}

#[test]
fn connections_leave_out_the_problem() {
    let domino = TightPoly::from_str("1 2\n##\n").unwrap();
    let c = Connections::new_with_problem(1, &domino);
    assert_eq!(sorted(c.candidates(0)), vec![0]);
    assert_eq!(sorted(c.candidates(0b101000101)), vec![0]);
    assert!(c.candidates(0b010101010).is_empty());
    // a grid that holds a domino has no list
    assert!(c.candidates(0b11).is_empty());
    let count = (0..512usize).filter(|&m| !c.candidates(m).is_empty()).count();
    assert_eq!(count, 34);
}
