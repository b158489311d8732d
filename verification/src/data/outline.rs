use vstd::prelude::*;
use crate::data::d4::{D4, compose_spec};

verus! {

/// The size of a `height x width` box.
#[derive(Clone, Copy, Debug, PartialEq, Eq, Structural, Hash, PartialOrd, Ord)]
pub struct Outline {
    pub height: usize,
    pub width: usize,
}

/// A cell `(x, y)` of a box.
pub struct OutlinedCell<'a> {
    outline: &'a Outline,
    x: usize,
    y: usize,
}

/// Whether `g` keeps the row index (otherwise it is mirrored).
pub open spec fn keeps_x(g: D4) -> bool {
    g == D4::I || g == D4::R1 || g == D4::S2 || g == D4::S3
}

/// Whether `g` keeps the column index (otherwise it is mirrored).
pub open spec fn keeps_y(g: D4) -> bool {
    g == D4::I || g == D4::R3 || g == D4::S0 || g == D4::S3
}

/// Whether `g` exchanges rows and columns.
pub open spec fn swaps(g: D4) -> bool {
    g.idx() % 2 == 1
}

/// The image of the cell `(x, y)` of an `h x w` box under `g`, as a cell of the
/// transformed box.
pub open spec fn cell_image(g: D4, h: int, w: int, x: int, y: int) -> (int, int) {
    let x1 = if keeps_x(g) { x } else { h - 1 - x };
    let y1 = if keeps_y(g) { y } else { w - 1 - y };
    if swaps(g) { (y1, x1) } else { (x1, y1) }
}

/// The dimensions of the box after `g`: exchanged when `g` is an odd rotation.
pub open spec fn outline_image(g: D4, h: int, w: int) -> (int, int) {
    if swaps(g) { (w, h) } else { (h, w) }
}

impl Outline {
    pub fn new(height: usize, width: usize) -> (r: Self)
        ensures
            r.height == height,
            r.width == width,
    {
        Self { height, width }
    }

    pub fn cell(&self, x: usize, y: usize) -> (r: OutlinedCell<'_>)
        ensures
            r.outline() == *self,
            r.x() == x,
            r.y() == y,
    {
        OutlinedCell { outline: self, x, y }
    }

    pub fn transform(&self, g: D4) -> (r: Self)
        ensures
            (r.height as int, r.width as int) == outline_image(g, self.height as int, self.width as int),
    {
        if g.get_rot() % 2 == 1 {
            Self::new(self.width, self.height)
        } else {
            *self
        }
    }
}

impl<'a> OutlinedCell<'a> {
    pub closed spec fn outline(&self) -> Outline {
        *self.outline
    }

    pub closed spec fn x(&self) -> usize {
        self.x
    }

    pub closed spec fn y(&self) -> usize {
        self.y
    }

    /// The position of this cell after transforming the whole box by `g`.
    pub fn transform(&self, g: D4) -> (r: (usize, usize))
        requires
            self.x() < self.outline().height,
            self.y() < self.outline().width,
        ensures
            (r.0 as int, r.1 as int) == cell_image(
                g,
                self.outline().height as int,
                self.outline().width as int,
                self.x() as int,
                self.y() as int,
            ),
    {
        let i = g.index();
        let mut x = self.x;
        let mut y = self.y;
        if !(i == 0 || i == 1 || i == 6 || i == 7) {
            x = self.outline.height - 1 - x;
        }
        if !(i == 0 || i == 3 || i == 4 || i == 7) {
            y = self.outline.width - 1 - y;
        }
        if i % 2 != 0 {
            (y, x)
        } else {
            (x, y)
        }
    }
}

/// Transforming a cell by `g1 * g2` is transforming it by `g2`, then the resulting
/// cell of the transformed box by `g1`.
pub proof fn lemma_cell_image_compose(g1: D4, g2: D4, h: int, w: int, x: int, y: int)
    ensures
        cell_image(compose_spec(g1, g2), h, w, x, y) == ({
            let (h2, w2) = outline_image(g2, h, w);
            let (x2, y2) = cell_image(g2, h, w, x, y);
            cell_image(g1, h2, w2, x2, y2)
        }),
{
}

} // verus!
