use vstd::prelude::*;
use vstd::string::StringExecFns;
use crate::data::bit_poly::BitPoly;
use crate::data::tight_poly::TightPoly;
use crate::data::tree_poly::TreePoly;
use crate::data::u256::U512;

verus! {

/// The character of a decimal digit.
pub open spec fn digit_char(d: nat) -> char {
    (48 + d) as char
}

/// The decimal digits of `n`, most significant first.
pub open spec fn decimal(n: nat) -> Seq<char>
    decreases n,
{
    if n < 10 {
        seq![digit_char(n)]
    } else {
        decimal(n / 10).push(digit_char(n % 10))
    }
}

/// Row `x` of a picture `w` squares wide: `#` for a cell, `.` for a free square, then a
/// line break.
pub open spec fn grid_row(w: nat, cells: spec_fn(int, int) -> bool, x: int) -> Seq<char> {
    Seq::new(w, |y: int| if cells(x, y) { '#' } else { '.' }).push('\n')
}

/// The first `n` rows of a picture `w` squares wide.
pub open spec fn grid_rows(w: nat, cells: spec_fn(int, int) -> bool, n: nat) -> Seq<char>
    decreases n,
{
    if n == 0 {
        Seq::empty()
    } else {
        grid_rows(w, cells, (n - 1) as nat) + grid_row(w, cells, n - 1)
    }
}

/// The text of an `h x w` box of cells: the height and the width on a line, then the picture.
pub open spec fn grid_text(h: nat, w: nat, cells: spec_fn(int, int) -> bool) -> Seq<char> {
    decimal(h) + seq![' '] + decimal(w) + seq!['\n'] + grid_rows(w, cells, h)
}

/// The text of a polyomino.
pub open spec fn poly_text(p: TightPoly) -> Seq<char> {
    grid_text(p.h(), p.w(), |x: int, y: int| p.cell(x, y))
}

fn digit_str(d: usize) -> (r: &'static str)
    requires
        d < 10,
    ensures
        r@ == seq![digit_char(d as nat)],
{
    proof {
        reveal_strlit("0");
        reveal_strlit("1");
        reveal_strlit("2");
        reveal_strlit("3");
        reveal_strlit("4");
        reveal_strlit("5");
        reveal_strlit("6");
        reveal_strlit("7");
        reveal_strlit("8");
        reveal_strlit("9");
    }
    match d {
        0 => "0",
        1 => "1",
        2 => "2",
        3 => "3",
        4 => "4",
        5 => "5",
        6 => "6",
        7 => "7",
        8 => "8",
        _ => "9",
    }
}

pub(crate) fn push_decimal(s: &mut String, n: usize)
    ensures
        final(s)@ == old(s)@ + decimal(n as nat),
    decreases n,
{
    if n >= 10 {
        push_decimal(s, n / 10);
    }
    s.append(digit_str(n % 10));
}

/// The text of the box of `rows`, `w` squares wide.
pub(crate) fn grid_to_string(rows: &Vec<U512>, w: usize) -> (r: String)
    requires
        w <= 512,
    ensures
        r@ == grid_text(rows@.len(), w as nat, |x: int, y: int| 0 <= x < rows@.len() && 0 <= y < w && rows@[x]@[y]),
{
    let ghost cells = |x: int, y: int| 0 <= x < rows@.len() && 0 <= y < w && rows@[x]@[y];
    proof {
        reveal_strlit(" ");
        reveal_strlit("\n");
    }
    let mut s = String::new();
    push_decimal(&mut s, rows.len());
    s.append(" ");
    push_decimal(&mut s, w);
    s.append("\n");
    let ghost head = s@;
    let mut x: usize = 0;
    while x < rows.len()
        invariant
            x <= rows@.len(),
            w <= 512,
            cells == (|x: int, y: int| 0 <= x < rows@.len() && 0 <= y < w && rows@[x]@[y]),
            s@ == head + grid_rows(w as nat, cells, x as nat),
        decreases rows@.len() - x,
    {
        let ghost before = s@;
        let mut y: usize = 0;
        while y < w
            invariant
                x < rows@.len(),
                y <= w,
                w <= 512,
                cells == (|x: int, y: int| 0 <= x < rows@.len() && 0 <= y < w && rows@[x]@[y]),
                s@ == before + Seq::new(y as nat, |j: int| if cells(x as int, j) { '#' } else { '.' }),
            decreases w - y,
        {
            proof {
                reveal_strlit("#");
                reveal_strlit(".");
            }
            if rows[x].get(y) {
                s.append("#");
            } else {
                s.append(".");
            }
            proof {
                assert(Seq::new((y + 1) as nat, |j: int| if cells(x as int, j) { '#' } else { '.' }) =~= Seq::new(
                    y as nat,
                    |j: int| if cells(x as int, j) { '#' } else { '.' },
                ).push(if cells(x as int, y as int) { '#' } else { '.' }));
            }
            y += 1;
        }
        proof {
            reveal_strlit("\n");
        }
        s.append("\n");
        proof {
            assert(grid_rows(w as nat, cells, (x + 1) as nat) == grid_rows(w as nat, cells, x as nat) + grid_row(w as nat, cells, x as int));
            assert(s@ =~= head + grid_rows(w as nat, cells, (x + 1) as nat));
        }
        x += 1;
    }
    s
}

impl TightPoly {
    /// The text of the polyomino, as `from_str` reads it: `height width` on the first line,
    /// then one line of `#` and `.` per row.
    pub fn to_string(&self) -> (r: String)
        requires
            self.wf(),
        ensures
            r@ == poly_text(*self),
    {
        let rows = self.rows();
        let r = grid_to_string(rows, self.width());
        proof {
            assert((|x: int, y: int| 0 <= x < rows@.len() && 0 <= y < self.w() && rows@[x]@[y]) =~= (|x: int, y: int| self.cell(x, y)));
        }
        r
    }
}

impl BitPoly {
    /// The text of the box: `height width` on the first line, then one line of `#` and `.`
    /// per row.
    pub fn to_string(&self) -> (r: String)
        requires
            self.wf(),
        ensures
            r@ == grid_text(self.h(), self.w(), |x: int, y: int| self.cell(x, y)),
    {
        proof {
            self.lemma_row_masks();
        }
        let rows = self.rows();
        let r = grid_to_string(rows, self.width());
        proof {
            assert((|x: int, y: int| 0 <= x < rows@.len() && 0 <= y < self.w() && rows@[x]@[y]) =~= (|x: int, y: int| self.cell(x, y)));
        }
        r
    }
}

impl TreePoly {
    /// The text of the box: `height width` on the first line, then one line of `#` and `.`
    /// per row.
    pub fn to_string(&self) -> (r: String)
        requires
            self.wf(),
        ensures
            r@ == grid_text(self.h(), self.w(), |x: int, y: int| self.cell(x, y)),
    {
        proof {
            self.lemma_wf();
        }
        let r = self.poly().to_string();
        proof {
            assert((|x: int, y: int| self.poly_spec().cell(x, y)) =~= (|x: int, y: int| self.cell(x, y)));
        }
        r
    }
}

} // verus!
