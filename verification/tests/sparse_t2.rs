use polycover2::data::sparse_t2_query::SparseT2Query;
use polycover2::data::sparse_t2_rect::SparseT2Rect;
use polycover2::data::vector::Vector;

#[test]
fn test_query() {
    let mut stq = SparseT2Query::new(Vector::new(-7, -15), Vector::new(10, 20), 8, 16);

    stq.flip(&Vector::new(0, 0));
    stq.flip(&Vector::new(0, -10));
    stq.flip(&Vector::new(10, 20));

    let mut mask = SparseT2Rect::new(8, 16);
    mask.flip(Vector::new(0, 0));
    mask.flip(Vector::new(0, 1));
    mask.flip(Vector::new(0, 2));
    mask.flip(Vector::new(0, 10));
    mask.flip(Vector::new(1, 0));
    mask.flip(Vector::new(7, 15));

    assert_eq!(stq.query(Vector::new(0, 0), &mask), vec![Vector::new(0, 0)]);
    assert_eq!(
        stq.query(Vector::new(0, -10), &mask),
        vec![Vector::new(0, -10), Vector::new(0, 0)]
    );
    assert_eq!(stq.query(Vector::new(-7, -15), &mask), vec![Vector::new(0, 0)]);
    assert_eq!(stq.query(Vector::new(3, 5), &mask), vec![Vector::new(10, 20)]);
}

#[test]
fn test_and_iter() {
    let mut a = SparseT2Rect::new(16, 16);
    let mut b = SparseT2Rect::new(16, 16);

    a.flip(Vector::new(0, 0));
    a.flip(Vector::new(0, 1));
    a.flip(Vector::new(1, 0));
    a.flip(Vector::new(1, 1));
    a.flip(Vector::new(8, 9));
    a.flip(Vector::new(9, 9));
    a.flip(Vector::new(1, 15));

    b.flip(Vector::new(0, 0));
    b.flip(Vector::new(0, 1));
    b.flip(Vector::new(1, 1));
    b.flip(Vector::new(2, 0));
    b.flip(Vector::new(8, 9));
    b.flip(Vector::new(9, 10));
    b.flip(Vector::new(1, 15));

    let got = a.and_iter(Vector::new(0, 0), &b);
    assert_eq!(
        got,
        vec![
            Vector::new(0, 0),
            Vector::new(0, 1),
            Vector::new(1, 1),
            Vector::new(1, 15),
            Vector::new(8, 9)
        ]
    );
}
