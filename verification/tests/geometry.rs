use polycover2::data::e2::E2;
use polycover2::data::d4::D4;
use polycover2::data::outline::Outline;
use polycover2::data::rect::Rect;
use polycover2::data::vector::Vector;

#[test]
fn test_rect() {
    let rect = Rect::new(Vector::new(0, 0), Vector::new(3, 4));
    assert_eq!(rect.x_range(), 0..3);
    assert_eq!(rect.y_range(), 0..4);

    let rect = Rect::new(Vector::new(0, 0), Vector::new(-3, -4));
    assert_eq!(rect.x_range(), -2..1);
    assert_eq!(rect.y_range(), -3..1);
}

#[test]
fn test_intersection() {
    let rect1 = Rect::new(Vector::new(1, 1), Vector::new(2, 3));

    let mut rect2 = rect1.roted90(1);
    assert_eq!(rect2.origin(), Vector::new(-1, 1));

    rect2 = rect2.moved(&Vector::new(2, 0));

    let rect3 = rect1.intersection(&rect2);

    assert_eq!(rect3.x_range(), 1..2);
    assert_eq!(rect3.y_range(), 1..3);
}

#[test]
fn test_transform() {
    let outline = Outline::new(10, 20);
    let zero = outline.cell(0, 0);

    assert_eq!(zero.transform(D4::I), (0, 0));
    assert_eq!(zero.transform(D4::R1), (19, 0));
    assert_eq!(zero.transform(D4::R2), (9, 19));
    assert_eq!(zero.transform(D4::R3), (0, 9));
    assert_eq!(zero.transform(D4::S0), (9, 0));
    assert_eq!(zero.transform(D4::S1), (19, 9));
    assert_eq!(zero.transform(D4::S2), (0, 19));
    assert_eq!(zero.transform(D4::S3), (0, 0));

    let cell = outline.cell(3, 5);

    assert_eq!(cell.transform(D4::I), (3, 5));
    assert_eq!(cell.transform(D4::R1), (14, 3));
    assert_eq!(cell.transform(D4::R2), (6, 14));
    assert_eq!(cell.transform(D4::R3), (5, 6));
    assert_eq!(cell.transform(D4::S0), (6, 5));
    assert_eq!(cell.transform(D4::S1), (14, 6));
    assert_eq!(cell.transform(D4::S2), (3, 14));
    assert_eq!(cell.transform(D4::S3), (5, 3));

    for g1 in D4::all() {
        for g2 in D4::all() {
            let g = g1.compose(g2);

            let got = cell.transform(g);

            let c = cell.transform(g2);

            let want = outline.transform(g2).cell(c.0, c.1).transform(g1);

            assert_eq!(got, want, "{g1:?} {g2:?} {g:?}");
        }
    }
}

#[test]
fn eight_neighbors_go_around() {
    let v = Vector::new(3, -2);
    let n = v.neighbors8();
    let want = [(3, -1), (4, -1), (4, -2), (4, -3), (3, -3), (2, -3), (2, -2), (2, -1)];
    for k in 0..8 {
        assert_eq!((n[k].x, n[k].y), want[k]);
    }
    let d = Vector::<i32>::directions8();
    assert_eq!((d[0].x, d[0].y), (0, 1));
    assert_eq!((d[5].x, d[5].y), (-1, -1));
}

#[test]
fn motion_and_its_inverse_cancel() {
    let identity = E2::new(D4::I, Vector::new(0, 0));
    for i in 0..8 {
        let e = E2::new(D4::from_index(i), Vector::new(1 << 30, -7));
        let inv = e.inverse();
        assert_eq!(e.compose(&inv), identity);
        assert_eq!(inv.compose(&e), identity);
        let v = Vector::new(3, -5);
        assert_eq!(inv.apply(&e.apply(&v)), v);
    }
}
