use vstd::prelude::*;
use vstd::arithmetic::div_mod::lemma_fundamental_div_mod;
use crate::data::parse::{
    is_ws, skip_ws_spec, tok_end_spec, tokens_from, tokens, is_digit, digits_value, unsigned_digits, parse_unsigned,
    valid_row, row_fits, row_tokens, cell_of, rows_readable, height_token, width_token, readable, row_has_cell,
    token_rows_nonempty, token_first_column, token_width_is, parse_error,
};
use crate::data::text::{digit_char, decimal, grid_row, grid_rows, poly_text};
use crate::data::tight_poly::TightPoly;

verus! {

/// A white-space byte before `i` changes nothing in the tokens from `i`.
proof fn lemma_tokens_ws(s: Seq<u8>, i: int)
    requires
        0 <= i < s.len(),
        is_ws(s[i]),
    ensures
        tokens_from(s, i) == tokens_from(s, i + 1),
{
    assert(skip_ws_spec(s, i) == skip_ws_spec(s, i + 1));
    lemma_skip_ge(s, i + 1);
    let a = skip_ws_spec(s, i);
    if a < s.len() {
        lemma_tok_end_ge(s, a);
    }
}

proof fn lemma_skip_ge(s: Seq<u8>, i: int)
    ensures
        skip_ws_spec(s, i) >= i,
        0 <= i <= s.len() ==> skip_ws_spec(s, i) <= s.len(),
        0 <= i && skip_ws_spec(s, i) < s.len() ==> !is_ws(s[skip_ws_spec(s, i)]),
    decreases s.len() - i,
{
    if 0 <= i < s.len() && is_ws(s[i]) {
        lemma_skip_ge(s, i + 1);
    }
}

proof fn lemma_tok_end_ge(s: Seq<u8>, i: int)
    requires
        0 <= i < s.len(),
        !is_ws(s[i]),
    ensures
        i < tok_end_spec(s, i) <= s.len(),
    decreases s.len() - i,
{
    assert(tok_end_spec(s, i) == tok_end_spec(s, i + 1));
    if i + 1 < s.len() && !is_ws(s[i + 1]) {
        lemma_tok_end_ge(s, i + 1);
    } else {
        assert(tok_end_spec(s, i + 1) == i + 1);
    }
}

/// Reading past a prefix: the positions in `b` after `a` read as in `b` alone.
proof fn lemma_shift(a: Seq<u8>, b: Seq<u8>, j: int)
    requires
        0 <= j,
    ensures
        skip_ws_spec(a + b, a.len() + j) == a.len() + skip_ws_spec(b, j),
        tok_end_spec(a + b, a.len() + j) == a.len() + tok_end_spec(b, j),
        tokens_from(a + b, a.len() + j) == tokens_from(b, j),
    decreases b.len() - j, 1int,
{
    let s = a + b;
    let k = a.len() + j;
    if j < b.len() {
        assert(s[k] == b[j]);
    }
    if j < b.len() && is_ws(b[j]) {
        lemma_shift_skip(a, b, j + 1);
    }
    lemma_shift_skip(a, b, j);
    lemma_shift_tok(a, b, j);
    let sa = skip_ws_spec(b, j);
    lemma_skip_ge(b, j);
    if sa < b.len() {
        lemma_shift_tok(a, b, sa);
        let e = tok_end_spec(b, sa);
        lemma_tok_end_ge(b, sa);
        assert(s.subrange(a.len() + sa, a.len() + e) =~= b.subrange(sa, e));
        lemma_shift(a, b, e);
    }
}

proof fn lemma_shift_skip(a: Seq<u8>, b: Seq<u8>, j: int)
    requires
        0 <= j,
    ensures
        skip_ws_spec(a + b, a.len() + j) == a.len() + skip_ws_spec(b, j),
    decreases b.len() - j,
{
    let s = a + b;
    if j < b.len() {
        assert(s[a.len() + j] == b[j]);
        if is_ws(b[j]) {
            lemma_shift_skip(a, b, j + 1);
        }
    }
}

proof fn lemma_shift_tok(a: Seq<u8>, b: Seq<u8>, j: int)
    requires
        0 <= j,
    ensures
        tok_end_spec(a + b, a.len() + j) == a.len() + tok_end_spec(b, j),
    decreases b.len() - j,
{
    let s = a + b;
    if j < b.len() {
        assert(s[a.len() + j] == b[j]);
        if !is_ws(b[j]) {
            lemma_shift_tok(a, b, j + 1);
        }
    }
}

/// Below the end of `a`, which ends in white space, a token of `a + b` ends where it ends in `a`.
proof fn lemma_tok_end_prefix(a: Seq<u8>, b: Seq<u8>, i: int)
    requires
        a.len() > 0,
        is_ws(a.last()),
        0 <= i < a.len(),
    ensures
        tok_end_spec(a + b, i) == tok_end_spec(a, i),
        tok_end_spec(a, i) < a.len(),
    decreases a.len() - i,
{
    assert((a + b)[i] == a[i]);
    if !is_ws(a[i]) {
        lemma_tok_end_prefix(a, b, i + 1);
    }
}

proof fn lemma_skip_prefix(a: Seq<u8>, b: Seq<u8>, i: int)
    requires
        0 <= i <= a.len(),
    ensures
        skip_ws_spec(a, i) < a.len() ==> skip_ws_spec(a + b, i) == skip_ws_spec(a, i),
        skip_ws_spec(a, i) >= a.len() ==> skip_ws_spec(a + b, i) == a.len() + skip_ws_spec(b, 0),
    decreases a.len() - i,
{
    if i < a.len() {
        assert((a + b)[i] == a[i]);
        if is_ws(a[i]) {
            lemma_skip_prefix(a, b, i + 1);
        }
    } else {
        lemma_shift_skip(a, b, 0);
    }
}

/// The tokens of `a + b`, when `a` ends in white space, are those of `a` then those of `b`.
proof fn lemma_tokens_concat_from(a: Seq<u8>, b: Seq<u8>, i: int)
    requires
        a.len() > 0,
        is_ws(a.last()),
        0 <= i <= a.len(),
    ensures
        tokens_from(a + b, i) == tokens_from(a, i) + tokens(b),
    decreases a.len() - i,
{
    let s = a + b;
    if i == a.len() {
        lemma_shift(a, b, 0);
        lemma_skip_ge(a, i);
        assert(tokens_from(a, i) == Seq::<Seq<u8>>::empty());
        assert(tokens_from(a, i) + tokens(b) =~= tokens(b));
    } else if is_ws(a[i]) {
        assert(s[i] == a[i]);
        lemma_tokens_ws(s, i);
        lemma_tokens_ws(a, i);
        lemma_tokens_concat_from(a, b, i + 1);
    } else {
        assert(s[i] == a[i]);
        assert(skip_ws_spec(s, i) == i);
        assert(skip_ws_spec(a, i) == i);
        lemma_tok_end_prefix(a, b, i);
        let e = tok_end_spec(a, i);
        lemma_tok_end_ge(a, i);
        assert(s.subrange(i, e) =~= a.subrange(i, e));
        lemma_tokens_concat_from(a, b, e);
        assert(tokens_from(s, i) == seq![a.subrange(i, e)] + tokens_from(s, e));
        assert(tokens_from(a, i) == seq![a.subrange(i, e)] + tokens_from(a, e));
        assert(seq![a.subrange(i, e)] + (tokens_from(a, e) + tokens(b)) =~= (seq![a.subrange(i, e)] + tokens_from(a, e)) + tokens(b));
    }
}

pub proof fn lemma_tokens_concat(a: Seq<u8>, b: Seq<u8>)
    requires
        a.len() > 0,
        is_ws(a.last()),
    ensures
        tokens(a + b) == tokens(a) + tokens(b),
{
    lemma_tokens_concat_from(a, b, 0);
}

/// A token followed by one white-space byte reads as that token.
pub proof fn lemma_tokens_single(t: Seq<u8>, c: u8)
    requires
        t.len() > 0,
        forall|i: int| 0 <= i < t.len() ==> !is_ws(#[trigger] t[i]),
        is_ws(c),
    ensures
        tokens(t.push(c)) == seq![t],
{
    let s = t.push(c);
    assert(s[0] == t[0]);
    assert(skip_ws_spec(s, 0) == 0);
    lemma_tok_end_single(t, c, 0);
    assert(s.subrange(0, t.len() as int) =~= t);
    assert(skip_ws_spec(s, t.len() as int + 1) == s.len());
    assert(skip_ws_spec(s, t.len() as int) == s.len());
    assert(tokens_from(s, t.len() as int) == Seq::<Seq<u8>>::empty());
    assert(seq![t] + Seq::<Seq<u8>>::empty() =~= seq![t]);
}

proof fn lemma_tok_end_single(t: Seq<u8>, c: u8, i: int)
    requires
        0 <= i <= t.len(),
        forall|k: int| 0 <= k < t.len() ==> !is_ws(#[trigger] t[k]),
        is_ws(c),
    ensures
        tok_end_spec(t.push(c), i) == t.len(),
    decreases t.len() - i,
{
    if i < t.len() {
        assert(t.push(c)[i] == t[i]);
        lemma_tok_end_single(t, c, i + 1);
    } else {
        assert(t.push(c)[i] == c);
    }
}

/// The bytes of an ASCII text.
pub open spec fn text_bytes(cs: Seq<char>) -> Seq<u8> {
    cs.map_values(|c: char| c as u8)
}

proof fn lemma_bytes_concat(a: Seq<char>, b: Seq<char>)
    ensures
        text_bytes(a + b) == text_bytes(a) + text_bytes(b),
{
    assert(text_bytes(a + b) =~= text_bytes(a) + text_bytes(b));
}

/// The decimal digits of `n` read back as `n`.
proof fn lemma_decimal_bytes(n: nat)
    ensures
        text_bytes(decimal(n)).len() > 0,
        forall|i: int| 0 <= i < text_bytes(decimal(n)).len() ==> is_digit(#[trigger] text_bytes(decimal(n))[i]),
        digits_value(text_bytes(decimal(n))) == n,
    decreases n,
{
    if n < 10 {
        let t = text_bytes(decimal(n));
        assert(t =~= seq![(48 + n) as u8]);
        assert(t.drop_last() =~= Seq::<u8>::empty());
        assert(digits_value(t.drop_last()) == 0);
        assert(t.last() == (48 + n) as u8);
        assert(digits_value(t) == digits_value(t.drop_last()) * 10 + (t.last() - 48) as nat);
    } else {
        lemma_decimal_bytes(n / 10);
        let t = text_bytes(decimal(n));
        let t0 = text_bytes(decimal(n / 10));
        assert(t =~= t0.push((48 + n % 10) as u8));
        assert(t.drop_last() =~= t0);
        lemma_fundamental_div_mod(n as int, 10);
        assert forall|i: int| 0 <= i < t.len() implies is_digit(#[trigger] t[i]) by {
            if i < t0.len() {
                assert(t[i] == t0[i]);
            }
        }
    }
}

proof fn lemma_decimal_parses(n: nat, max: nat)
    requires
        n <= max,
    ensures
        parse_unsigned(text_bytes(decimal(n)), max) == Some(n),
        forall|i: int| 0 <= i < text_bytes(decimal(n)).len() ==> !is_ws(#[trigger] text_bytes(decimal(n))[i]),
{
    lemma_decimal_bytes(n);
    let t = text_bytes(decimal(n));
    assert(is_digit(t[0]));
    assert(unsigned_digits(t) == t);
    assert forall|i: int| 0 <= i < t.len() implies !is_ws(#[trigger] t[i]) by {
        assert(is_digit(t[i]));
    }
}

/// The token of row `x`.
pub open spec fn row_token(w: nat, cells: spec_fn(int, int) -> bool, x: int) -> Seq<u8> {
    text_bytes(Seq::new(w, |y: int| if cells(x, y) { '#' } else { '.' }))
}

proof fn lemma_row_bytes(w: nat, cells: spec_fn(int, int) -> bool, x: int)
    ensures
        text_bytes(grid_row(w, cells, x)) == row_token(w, cells, x).push(10u8),
        row_token(w, cells, x).len() == w,
        forall|y: int| 0 <= y < w ==> (#[trigger] row_token(w, cells, x)[y] == 35u8) == cells(x, y),
        forall|y: int| 0 <= y < w ==> #[trigger] row_token(w, cells, x)[y] == 35u8 || row_token(w, cells, x)[y] == 46u8,
{
    assert(text_bytes(grid_row(w, cells, x)) =~= row_token(w, cells, x).push(10u8));
}

/// The rows of a picture read as one token per row.
proof fn lemma_rows_tokens(w: nat, cells: spec_fn(int, int) -> bool, n: nat)
    requires
        w > 0,
    ensures
        tokens(text_bytes(grid_rows(w, cells, n))) == Seq::new(n, |x: int| row_token(w, cells, x)),
        n > 0 ==> text_bytes(grid_rows(w, cells, n)).len() > 0 && text_bytes(grid_rows(w, cells, n)).last() == 10u8,
    decreases n,
{
    if n == 0 {
        assert(text_bytes(grid_rows(w, cells, 0)) =~= Seq::<u8>::empty());
        assert(tokens(Seq::<u8>::empty()) =~= Seq::<Seq<u8>>::empty());
        assert(Seq::new(0, |x: int| row_token(w, cells, x)) =~= Seq::<Seq<u8>>::empty());
    } else {
        let m = (n - 1) as nat;
        lemma_rows_tokens(w, cells, m);
        lemma_row_bytes(w, cells, m as int);
        lemma_bytes_concat(grid_rows(w, cells, m), grid_row(w, cells, m as int));
        let a = text_bytes(grid_rows(w, cells, m));
        let t = row_token(w, cells, m as int);
        assert forall|i: int| 0 <= i < t.len() implies !is_ws(#[trigger] t[i]) by {}
        lemma_tokens_single(t, 10u8);
        if m == 0 {
            assert(a =~= Seq::<u8>::empty());
            assert(a + t.push(10u8) =~= t.push(10u8));
        } else {
            lemma_tokens_concat(a, t.push(10u8));
        }
        assert(tokens(text_bytes(grid_rows(w, cells, n))) =~= Seq::new(n, |x: int| row_token(w, cells, x)));
    }
}

/// Printing a polyomino and reading the text back gives the same polyomino: the reader
/// accepts the text, finds one row per row of the polyomino and its width, and a cell
/// exactly where the polyomino has one.
pub proof fn lemma_text_reads_back(p: TightPoly)
    requires
        p.wf(),
        p.h() <= 0xffff_ffff,
    ensures
        readable(text_bytes(poly_text(p))),
        parse_error(text_bytes(poly_text(p))) is None,
        row_tokens(text_bytes(poly_text(p))).len() == p.h(),
        width_token(text_bytes(poly_text(p))) == Some(p.w() as nat),
        forall|x: int, y: int| 0 <= x < p.h() && 0 <= y ==> #[trigger] cell_of(row_tokens(text_bytes(poly_text(p)))[x], y) == p.cell(x, y),
{
    let h = p.h();
    let w = p.w();
    let f = |x: int, y: int| p.cell(x, y);
    let s = text_bytes(poly_text(p));
    let dh = text_bytes(decimal(h));
    let dw = text_bytes(decimal(w));
    let rows = text_bytes(grid_rows(w, f, h));
    p.lemma_tight_cells();
    lemma_decimal_parses(h, 0xffff_ffff);
    lemma_decimal_parses(w, usize::MAX as nat);
    let a = dh.push(32u8);
    let b = dw.push(10u8);
    assert(s =~= a + (b + rows)) by {
        lemma_bytes_concat(decimal(h) + seq![' '] + decimal(w) + seq!['\n'], grid_rows(w, f, h));
        lemma_bytes_concat(decimal(h) + seq![' '] + decimal(w), seq!['\n']);
        lemma_bytes_concat(decimal(h) + seq![' '], decimal(w));
        lemma_bytes_concat(decimal(h), seq![' ']);
        assert(text_bytes(seq![' ']) =~= seq![32u8]);
        assert(text_bytes(seq!['\n']) =~= seq![10u8]);
    }
    lemma_tokens_single(dh, 32u8);
    lemma_tokens_single(dw, 10u8);
    lemma_tokens_concat(a, b + rows);
    lemma_tokens_concat(b, rows);
    let rt = Seq::new(h, |x: int| row_token(w, f, x));
    if h > 0 {
        lemma_rows_tokens(w, f, h);
    } else {
        assert(rows =~= Seq::<u8>::empty());
        assert(tokens(rows) =~= Seq::<Seq<u8>>::empty());
    }
    assert(tokens(rows) == rt);
    assert(tokens(s) == seq![dh] + (seq![dw] + rt));
    assert(row_tokens(s) =~= rt);
    assert(tokens(s)[0] == dh);
    assert(tokens(s)[1] == dw);
    assert forall|x: int| 0 <= x < h implies valid_row(#[trigger] rt[x]) && row_fits(rt[x]) by {
        lemma_row_bytes(w, f, x);
    }
    assert forall|x: int, y: int| 0 <= x < h && 0 <= y implies #[trigger] cell_of(rt[x], y) == p.cell(x, y) by {
        lemma_row_bytes(w, f, x);
    }
    p.lemma_tight_cells();
    assert(token_rows_nonempty(rt)) by {
        assert forall|x: int| 0 <= x < h implies row_has_cell(#[trigger] rt[x]) by {
            assert(p.row_has_a_cell(x));
            let y = choose|y: int| 0 <= y < w && #[trigger] p.cell(x, y);
            assert(cell_of(rt[x], y));
        }
    }
    if h > 0 {
        assert(token_first_column(rt)) by {
            let x = choose|x: int| 0 <= x < h && #[trigger] p.cell(x, 0);
            assert(cell_of(rt[x], 0));
        }
    }
    assert(token_width_is(rt, w as int)) by {
        if w > 0 {
            let x = choose|x: int| 0 <= x < h && #[trigger] p.cell(x, w - 1);
            assert(cell_of(rt[x], w - 1));
        }
    }
    assert(rows_readable(rt));
}

/// The polyomino read back from the printed text has the rows of the printed one: `q` is
/// any consistent polyomino with the height, width and cells that the reader finds in the
/// text of `p`, which is what reading the text gives.
pub proof fn lemma_read_back_rows(p: TightPoly, q: TightPoly)
    requires
        p.wf(),
        p.h() <= 0xffff_ffff,
        q.wf(),
        q.h() == row_tokens(text_bytes(poly_text(p))).len(),
        q.w() == width_token(text_bytes(poly_text(p)))->0,
        forall|x: int, y: int| 0 <= x < q.h() && 0 <= y ==> #[trigger] q.cell(x, y) == cell_of(
            row_tokens(text_bytes(poly_text(p)))[x],
            y,
        ),
    ensures
        q.h() == p.h(),
        q.w() == p.w(),
        q.row_masks() == p.row_masks(),
{
    lemma_text_reads_back(p);
    assert forall|x: int, y: int| #[trigger] q.cell(x, y) == p.cell(x, y) by {
        if 0 <= x < q.h() && 0 <= y {
            assert(cell_of(row_tokens(text_bytes(poly_text(p)))[x], y) == p.cell(x, y));
        }
    }
    crate::data::tight_poly::lemma_same_rows(q, p);
}

} // verus!
