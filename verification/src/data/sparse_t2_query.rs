use vstd::prelude::*;
use crate::data::sparse_t2_rect::{SparseT2Rect, and_iter_before};
use crate::data::vector::Vector;

verus! {

/// The order in which `query` lists points: by the blocks of the mask, then by the place
/// in the block, both taken relative to the query's origin.
pub open spec fn query_before(origin: Vector<i32>, a: Vector<i32>, b: Vector<i32>) -> bool {
    and_iter_before(
        Vector { x: 0usize, y: 0usize },
        Vector { x: (a.x - origin.x) as i32, y: (a.y - origin.y) as i32 },
        Vector { x: (b.x - origin.x) as i32, y: (b.y - origin.y) as i32 },
    )
}

/// The size, a multiple of 4, of the copy of the grid shifted by `d`.
pub open spec fn shifted_len(span: int, d: int) -> int {
    ((span - d + 4) / 4) * 4
}

/// Flags over the points of `[min, max]`, kept in sixteen shifted copies so that a
/// rectangle of flags can be intersected at any origin block by block.
#[derive(Debug, Clone, PartialEq, Eq)]
pub struct SparseT2Query {
    min: Vector<i32>,
    max: Vector<i32>,
    /// A query's origin lies in `min.x..query_x_end` and `min.y..query_y_end`.
    query_x_end: i32,
    query_y_end: i32,
    rects: Vec<SparseT2Rect>,
}

/// Shifting by whole blocks keeps the place in the block.
proof fn lemma_place_shift(x: int, y: int, rx: int, ry: int)
    requires
        rx % 4 == 0,
        ry % 4 == 0,
    ensures
        SparseT2Rect::place(x - rx, y - ry) == SparseT2Rect::place(x, y),
{
    assert((x - rx) % 4 == x % 4) by (nonlinear_arith)
        requires
            rx % 4 == 0,
    ;
    assert((y - ry) % 4 == y % 4) by (nonlinear_arith)
        requires
            ry % 4 == 0,
    ;
}

/// The order of `query` follows from that of `and_iter`.
proof fn lemma_query_order(origin: Vector<i32>, off: Vector<i32>, rel: Vector<usize>, vs: Seq<Vector<i32>>, res: Seq<Vector<i32>>)
    requires
        off.x + rel.x == origin.x,
        off.y + rel.y == origin.y,
        rel.x % 4 == 0,
        rel.y % 4 == 0,
        rel.x < 0x400_0000,
        rel.y < 0x400_0000,
        forall|i: int, j: int| 0 <= i < j < vs.len() ==> and_iter_before(rel, vs[i], vs[j]),
        res.len() == vs.len(),
        forall|k: int| 0 <= k < vs.len() ==> res[k] == (Vector { x: (vs[k].x + off.x) as i32, y: (vs[k].y + off.y) as i32 }),
        forall|k: int| 0 <= k < vs.len() ==> 0 <= (#[trigger] vs[k]).x < 0x400_0000 && 0 <= vs[k].y < 0x400_0000,
        -0x1000_0000 < off.x < 0x1000_0000,
        -0x1000_0000 < off.y < 0x1000_0000,
    ensures
        forall|i: int, j: int| 0 <= i < j < res.len() ==> query_before(origin, res[i], res[j]),
{
    assert forall|a: int, b: int| 0 <= a < b < res.len() implies query_before(origin, res[a], res[b]) by {
        assert(and_iter_before(rel, vs[a], vs[b]));
        let (pa, pb) = (vs[a], vs[b]);
        assert(0 <= pa.x < 0x400_0000 && 0 <= pb.x < 0x400_0000);
        lemma_place_shift(pa.x as int, pa.y as int, rel.x as int, rel.y as int);
        lemma_place_shift(pb.x as int, pb.y as int, rel.x as int, rel.y as int);
        assert(res[a].x - origin.x == pa.x - rel.x && res[a].y - origin.y == pa.y - rel.y);
        assert(res[b].x - origin.x == pb.x - rel.x && res[b].y - origin.y == pb.y - rel.y);
    }
}

/// What `query` returns, from what `and_iter` returned on the matching copy.
proof fn lemma_query_result(
    q: SparseT2Query,
    rect: SparseT2Rect,
    mask: SparseT2Rect,
    origin: Vector<i32>,
    off: Vector<i32>,
    rel: Vector<usize>,
    vs: Seq<Vector<i32>>,
    res: Seq<Vector<i32>>,
)
    requires
        rect.wf(),
        forall|cx: int, cy: int| 0 <= cx && 0 <= cy ==> #[trigger] rect.cell(cx, cy) == q.flagged(off.x + cx, off.y + cy),
        off.x + rel.x == origin.x,
        off.y + rel.y == origin.y,
        forall|j: int| 0 <= j < vs.len() ==> rect.cell(#[trigger] vs[j].x as int, vs[j].y as int) && mask.cell(vs[j].x - rel.x, vs[j].y - rel.y),
        forall|x: int, y: int| #[trigger] rect.cell(x, y) && mask.cell(x - rel.x, y - rel.y) ==> vs.contains(Vector { x: x as i32, y: y as i32 }),
        res.len() == vs.len(),
        forall|k: int| 0 <= k < vs.len() ==> res[k] == (Vector { x: (vs[k].x + off.x) as i32, y: (vs[k].y + off.y) as i32 }),
        forall|k: int| 0 <= k < vs.len() ==> 0 <= (#[trigger] vs[k]).x < 0x400_0000 && 0 <= vs[k].y < 0x400_0000,
        -0x1000_0000 < off.x < 0x1000_0000,
        -0x1000_0000 < off.y < 0x1000_0000,
    ensures
        forall|j: int| 0 <= j < res.len() ==> q.flagged(#[trigger] res[j].x as int, res[j].y as int) && mask.cell(
            res[j].x - origin.x,
            res[j].y - origin.y,
        ),
        forall|x: int, y: int| #[trigger] q.flagged(x, y) && mask.cell(x - origin.x, y - origin.y) ==> res.contains(
            Vector { x: x as i32, y: y as i32 },
        ),
{
    assert forall|j: int| 0 <= j < res.len() implies q.flagged(#[trigger] res[j].x as int, res[j].y as int) && mask.cell(
        res[j].x - origin.x,
        res[j].y - origin.y,
    ) by {
        assert(0 <= vs[j].x && 0 <= vs[j].y);
        assert(rect.cell(vs[j].x as int, vs[j].y as int));
    }
    assert forall|x: int, y: int| #[trigger] q.flagged(x, y) && mask.cell(x - origin.x, y - origin.y) implies res.contains(
        Vector { x: x as i32, y: y as i32 },
    ) by {
        let (cx, cy) = (x - off.x, y - off.y);
        assert(mask.cell(cx - rel.x, cy - rel.y));
        if cx >= 0 && cy >= 0 {
            assert(rect.cell(cx, cy));
            assert(cx < 0x4000_0000 && cy < 0x4000_0000);
            assert(vs.contains(Vector { x: cx as i32, y: cy as i32 }));
            let k = choose|k: int| 0 <= k < vs.len() && vs[k] == Vector { x: cx as i32, y: cy as i32 };
            assert(res[k] == Vector { x: x as i32, y: y as i32 });
        }
    }
}

impl SparseT2Query {
    pub closed spec fn min_spec(self) -> Vector<i32> {
        self.min
    }

    pub closed spec fn max_spec(self) -> Vector<i32> {
        self.max
    }

    pub closed spec fn copies(self) -> Seq<SparseT2Rect> {
        self.rects@
    }

    /// Whether the point `(x, y)` is flagged.
    pub open spec fn flagged(self, x: int, y: int) -> bool {
        let (mn, mx) = (self.min_spec(), self.max_spec());
        mn.x <= x <= mx.x && mn.y <= y <= mx.y && self.copies()[0].cell(x - mn.x, y - mn.y)
    }

    /// The consistency of the representation: copy `(a, b)` holds the flag of
    /// `min + (a, b) + c` at `c`.
    pub open spec fn wf(self) -> bool {
        let (mn, mx) = (self.min_spec(), self.max_spec());
        &&& mn.x <= mx.x
        &&& mn.y <= mx.y
        &&& mx.x - mn.x < 0x100_0000
        &&& mx.y - mn.y < 0x100_0000
        &&& -0x1000_0000 < mn.x
        &&& -0x1000_0000 < mn.y
        &&& mx.x < 0x1000_0000
        &&& mx.y < 0x1000_0000
        &&& self.copies().len() == 16
        &&& forall|a: int, b: int|
            0 <= a < 4 && 0 <= b < 4 ==> {
                let r = #[trigger] self.copies()[4 * a + b];
                &&& r.wf()
                &&& 4 * r.hb() == shifted_len(mx.x - mn.x, a)
                &&& 4 * r.wb() == shifted_len(mx.y - mn.y, b)
            }
        &&& forall|a: int, b: int, cx: int, cy: int|
            0 <= a < 4 && 0 <= b < 4 && 0 <= cx && 0 <= cy ==> #[trigger] self.copies()[4 * a + b].cell(cx, cy) == self.flagged(
                mn.x + a + cx,
                mn.y + b + cy,
            )
    }

    /// No point flagged over the box `[min, max]`; queries take rectangles of
    /// `query_height x query_width` flags.
    pub fn new(min: Vector<i32>, max: Vector<i32>, query_height: usize, query_width: usize) -> (r: Self)
        requires
            min.x <= max.x,
            min.y <= max.y,
            query_height % 4 == 0,
            query_width % 4 == 0,
            max.x - min.x < 0x100_0000,
            max.y - min.y < 0x100_0000,
            -0x1000_0000 < min.x,
            -0x1000_0000 < min.y,
            max.x < 0x1000_0000,
            max.y < 0x1000_0000,
            query_height < 0x1000_0000,
            query_width < 0x1000_0000,
            (max.x - min.x + 4) * (max.y - min.y + 4) <= 0x40_0000,
        ensures
            r.wf(),
            r.min_spec() == min,
            r.max_spec() == max,
            forall|x: int, y: int| !#[trigger] r.flagged(x, y),
    {
        let query_x_end = max.x - query_height as i32 + 2;
        let query_y_end = max.y - query_width as i32 + 2;
        let mut rects: Vec<SparseT2Rect> = Vec::new();
        let mut a: i32 = 0;
        while a < 4
            invariant
                0 <= a <= 4,
                min.x <= max.x,
                min.y <= max.y,
                max.x - min.x < 0x100_0000,
                max.y - min.y < 0x100_0000,
                -0x1000_0000 < min.x,
                -0x1000_0000 < min.y,
                max.x < 0x1000_0000,
                max.y < 0x1000_0000,
                (max.x - min.x + 4) * (max.y - min.y + 4) <= 0x40_0000,
                rects.len() == 4 * a,
                forall|i: int|
                    0 <= i < rects.len() ==> {
                        let r = #[trigger] rects@[i];
                        &&& r.wf()
                        &&& 4 * r.hb() == shifted_len(max.x - min.x, i / 4)
                        &&& 4 * r.wb() == shifted_len(max.y - min.y, i % 4)
                        &&& forall|cx: int, cy: int| !#[trigger] r.cell(cx, cy)
                    },
            decreases 4 - a,
        {
            let mut b: i32 = 0;
            while b < 4
                invariant
                    0 <= a < 4,
                    0 <= b <= 4,
                    min.x <= max.x,
                    min.y <= max.y,
                    max.x - min.x < 0x100_0000,
                    max.y - min.y < 0x100_0000,
                    -0x1000_0000 < min.x,
                    -0x1000_0000 < min.y,
                    max.x < 0x1000_0000,
                    max.y < 0x1000_0000,
                    (max.x - min.x + 4) * (max.y - min.y + 4) <= 0x40_0000,
                    rects.len() == 4 * a + b,
                    forall|i: int|
                        0 <= i < rects.len() ==> {
                            let r = #[trigger] rects@[i];
                            &&& r.wf()
                            &&& 4 * r.hb() == shifted_len(max.x - min.x, i / 4)
                            &&& 4 * r.wb() == shifted_len(max.y - min.y, i % 4)
                            &&& forall|cx: int, cy: int| !#[trigger] r.cell(cx, cy)
                        },
                decreases 4 - b,
            {
                let x1 = min.x + a;
                let y1 = min.y + b;
                let px: i32 = max.x - x1 + 4;
                let py: i32 = max.y - y1 + 4;
                let x = px >> 2 << 2;
                let y = py >> 2 << 2;
                proof {
                    assert(((px >> 2i32) << 2i32) == (px / 4) * 4) by (bit_vector)
                        requires
                            0 < px < 0x200_0000,
                    ;
                    assert(((py >> 2i32) << 2i32) == (py / 4) * 4) by (bit_vector)
                        requires
                            0 < py < 0x200_0000,
                    ;
                    assert((x / 4) * (y / 4) <= 0x40_0000) by (nonlinear_arith)
                        requires
                            0 <= x <= max.x - min.x + 4,
                            0 <= y <= max.y - min.y + 4,
                            (max.x - min.x + 4) * (max.y - min.y + 4) <= 0x40_0000,
                    ;
                    assert((4 * a + b) / 4 == a && (4 * a + b) % 4 == b);
                }
                let rect = SparseT2Rect::new(x as usize, y as usize);
                let ghost prev = rects@;
                rects.push(rect);
                proof {
                    assert forall|i: int| 0 <= i < rects.len() implies {
                        let r = #[trigger] rects@[i];
                        &&& r.wf()
                        &&& 4 * r.hb() == shifted_len(max.x - min.x, i / 4)
                        &&& 4 * r.wb() == shifted_len(max.y - min.y, i % 4)
                        &&& forall|cx: int, cy: int| !#[trigger] r.cell(cx, cy)
                    } by {
                        if i < prev.len() {
                            assert(rects@[i] == prev[i]);
                        }
                    }
                }
                b += 1;
            }
            a += 1;
        }
        let r = Self { min, max, rects, query_x_end, query_y_end };
        proof {
            assert forall|a: int, b: int| 0 <= a < 4 && 0 <= b < 4 implies {
                let rr = #[trigger] r.copies()[4 * a + b];
                &&& rr.wf()
                &&& 4 * rr.hb() == shifted_len(max.x - min.x, a)
                &&& 4 * rr.wb() == shifted_len(max.y - min.y, b)
            } by {
                assert((4 * a + b) / 4 == a && (4 * a + b) % 4 == b);
            }
            assert(!r.copies()[0].cell(0, 0));
            assert forall|x: int, y: int| !#[trigger] r.flagged(x, y) by {
                assert(!r.copies()[0].cell(x - min.x, y - min.y));
            }
            assert forall|a: int, b: int, cx: int, cy: int| 0 <= a < 4 && 0 <= b < 4 && 0 <= cx && 0 <= cy
                implies #[trigger] r.copies()[4 * a + b].cell(cx, cy) == r.flagged(min.x + a + cx, min.y + b + cy) by {
                assert(!r.copies()[4 * a + b].cell(cx, cy));
                assert(!r.copies()[0].cell(a + cx, b + cy));
            }
        }
        r
    }

    /// Flips the flag of the point `v` of the box.
    pub fn flip(&mut self, v: &Vector<i32>)
        requires
            old(self).wf(),
            old(self).min_spec().x <= v.x <= old(self).max_spec().x,
            old(self).min_spec().y <= v.y <= old(self).max_spec().y,
        ensures
            final(self).wf(),
            final(self).min_spec() == old(self).min_spec(),
            final(self).max_spec() == old(self).max_spec(),
            forall|x: int, y: int| #[trigger] final(self).flagged(x, y) == (old(self).flagged(x, y) != (x == v.x && y == v.y)),
    {
        let vx = (v.x as isize - self.min.x as isize) as usize;
        let vy = (v.y as isize - self.min.y as isize) as usize;
        let ghost o = *old(self);
        let ghost (mn, mx) = (o.min_spec(), o.max_spec());
        proof {
            assert forall|i: int| 0 <= i < 16 implies (#[trigger] o.copies()[i]).wf() by {
                let (a, b) = (i / 4, i % 4);
                assert(4 * a + b == i);
            }
        }
        let mut dx: usize = 0;
        while dx < 4
            invariant
                o.wf(),
                0 <= dx <= 4,
                vx == v.x - mn.x,
                vy == v.y - mn.y,
                mn.x <= v.x <= mx.x,
                mn.y <= v.y <= mx.y,
                self.min_spec() == mn,
                self.max_spec() == mx,
                self.copies().len() == 16,
                mn == o.min_spec(),
                mx == o.max_spec(),
                forall|i: int| 0 <= i < 16 ==> {
                    let (r, r0) = (#[trigger] self.copies()[i], o.copies()[i]);
                    &&& r.wf()
                    &&& r.hb() == r0.hb()
                    &&& r.wb() == r0.wb()
                    &&& forall|cx: int, cy: int| #[trigger] r.cell(cx, cy) == (r0.cell(cx, cy) != (i / 4 < dx && i / 4 <= vx
                        && i % 4 <= vy && cx == vx - i / 4 && cy == vy - i % 4))
                },
            decreases 4 - dx,
        {
            let mut dy: usize = 0;
            while dy < 4
                invariant
                    o.wf(),
                    0 <= dx < 4,
                    0 <= dy <= 4,
                    vx == v.x - mn.x,
                    vy == v.y - mn.y,
                    mn.x <= v.x <= mx.x,
                    mn.y <= v.y <= mx.y,
                    self.min_spec() == mn,
                    self.max_spec() == mx,
                    self.copies().len() == 16,
                    mn == o.min_spec(),
                    mx == o.max_spec(),
                    forall|i: int| 0 <= i < 16 ==> {
                        let (r, r0) = (#[trigger] self.copies()[i], o.copies()[i]);
                        &&& r.wf()
                        &&& r.hb() == r0.hb()
                        &&& r.wb() == r0.wb()
                        &&& forall|cx: int, cy: int| #[trigger] r.cell(cx, cy) == (r0.cell(cx, cy) != ((i / 4 < dx || (i / 4 == dx
                            && i % 4 < dy)) && i / 4 <= vx && i % 4 <= vy && cx == vx - i / 4 && cy == vy - i % 4))
                    },
                decreases 4 - dy,
            {
                if vx >= dx && vy >= dy {
                    let i = dx << 2 | dy;
                    proof {
                        assert(i == 4 * dx + dy) by (bit_vector)
                            requires
                                dx < 4,
                                dy < 4,
                                i == (dx << 2usize) | dy,
                        ;
                        assert(i / 4 == dx && i % 4 == dy);
                        let r0 = o.copies()[4 * dx + dy];
                        assert(4 * r0.hb() == shifted_len(mx.x - mn.x, dx as int));
                        assert(4 * r0.wb() == shifted_len(mx.y - mn.y, dy as int));
                    }
                    let ghost before = self.copies();
                    self.rects[i].flip(Vector::new(vx - dx, vy - dy));
                }
                dy += 1;
            }
            dx += 1;
        }
        proof {
            let s = *self;
            assert forall|x: int, y: int| #[trigger] s.flagged(x, y) == (o.flagged(x, y) != (x == v.x && y == v.y)) by {
                assert(s.copies()[4 * 0int + 0int] == s.copies()[0int]);
            }
            assert forall|a: int, b: int, cx: int, cy: int| 0 <= a < 4 && 0 <= b < 4 && 0 <= cx && 0 <= cy
                implies #[trigger] s.copies()[4 * a + b].cell(cx, cy) == s.flagged(mn.x + a + cx, mn.y + b + cy) by {
                let i = 4 * a + b;
                assert(i / 4 == a && i % 4 == b);
                assert(o.copies()[4 * a + b].cell(cx, cy) == o.flagged(mn.x + a + cx, mn.y + b + cy));
            }
            assert forall|a: int, b: int| 0 <= a < 4 && 0 <= b < 4 implies {
                let r = #[trigger] s.copies()[4 * a + b];
                &&& r.wf()
                &&& 4 * r.hb() == shifted_len(mx.x - mn.x, a)
                &&& 4 * r.wb() == shifted_len(mx.y - mn.y, b)
            } by {
                assert(o.copies()[4 * a + b].wf());
            }
        }
    }

    /// The flagged points `p` whose flag at `p - origin` is set in `mask`, block by block of
    /// the mask and by place within a block.
    #[verifier::rlimit(40)]
    pub fn query(&self, origin: Vector<i32>, mask: &SparseT2Rect) -> (r: Vec<Vector<i32>>)
        requires
            self.wf(),
            mask.wf(),
            mask.hb() >= 1,
            mask.wb() >= 1,
            self.min_spec().x <= origin.x,
            self.min_spec().y <= origin.y,
            origin.x + 4 * mask.hb() <= self.max_spec().x + 1,
            origin.y + 4 * mask.wb() <= self.max_spec().y + 1,
        ensures
            forall|j: int| 0 <= j < r.len() ==> self.flagged(#[trigger] r@[j].x as int, r@[j].y as int) && mask.cell(
                r@[j].x - origin.x,
                r@[j].y - origin.y,
            ),
            forall|x: int, y: int| #[trigger] self.flagged(x, y) && mask.cell(x - origin.x, y - origin.y) ==> r@.contains(
                Vector { x: x as i32, y: y as i32 },
            ),
            forall|i: int, j: int| 0 <= i < j < r.len() ==> query_before(origin, r@[i], r@[j]),
    {
        let ghost (mn, mx) = (self.min_spec(), self.max_spec());
        let d = origin.minus(&self.min);
        let delta = Vector::new(d.x & 3, d.y & 3);
        let ux = d.x as usize;
        let uy = d.y as usize;
        proof {
            let (dxx, dyy) = (d.x, d.y);
            assert((dxx & 3i32) == dxx % 4 && (dyy & 3i32) == dyy % 4) by (bit_vector)
                requires
                    0 <= dxx < 0x200_0000,
                    0 <= dyy < 0x200_0000,
            ;
            assert(((ux >> 2usize) << 2usize) == ux - ux % 4 && ((uy >> 2usize) << 2usize) == uy - uy % 4) by (bit_vector)
                requires
                    ux < 0x200_0000,
                    uy < 0x200_0000,
            ;
        }
        let off = self.min.plus(&delta);
        let rel_origin = Vector::new(ux >> 2 << 2, uy >> 2 << 2);
        let idx = (delta.x << 2 | delta.y) as usize;
        proof {
            let (ax, ay) = (delta.x, delta.y);
            assert(((ax << 2i32) | ay) == 4 * ax + ay) by (bit_vector)
                requires
                    0 <= ax < 4,
                    0 <= ay < 4,
            ;
            let rect = self.copies()[4 * delta.x + delta.y];
            assert(4 * rect.hb() == shifted_len(mx.x - mn.x, delta.x as int));
            assert(4 * rect.wb() == shifted_len(mx.y - mn.y, delta.y as int));
        }
        let vs = self.rects[idx].and_iter(rel_origin, mask);
        let mut res: Vec<Vector<i32>> = Vec::new();
        let mut j: usize = 0;
        while j < vs.len()
            invariant
                self.wf(),
                j <= vs.len(),
                res.len() == j,
                forall|k: int| 0 <= k < j ==> res@[k] == (Vector { x: (vs@[k].x + off.x) as i32, y: (vs@[k].y + off.y) as i32 }),
                forall|k: int| 0 <= k < vs.len() ==> 0 <= (#[trigger] vs@[k]).x < 0x400_0000 && 0 <= vs@[k].y < 0x400_0000,
                -0x1000_0000 < off.x < 0x1000_0000,
                -0x1000_0000 < off.y < 0x1000_0000,
            decreases vs.len() - j,
        {
            let p = vs[j].plus(&off);
            res.push(p);
            j += 1;
        }
        proof {
            let rect = self.copies()[4 * delta.x + delta.y];
            assert forall|cx: int, cy: int| 0 <= cx && 0 <= cy implies #[trigger] rect.cell(cx, cy) == self.flagged(off.x + cx, off.y + cy) by {
                assert(self.copies()[4 * delta.x + delta.y].cell(cx, cy) == self.flagged(mn.x + delta.x + cx, mn.y + delta.y + cy));
            }
            lemma_query_result(*self, rect, *mask, origin, off, rel_origin, vs@, res@);
            lemma_query_order(origin, off, rel_origin, vs@, res@);
        }
        res
    }
}

} // verus!
