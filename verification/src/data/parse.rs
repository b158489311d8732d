use vstd::prelude::*;
use crate::data::u256::U512;
use crate::data::tight_poly::{TightPoly, TightPolyError, rows_nonempty, column_used, is_width_of};
use vstd::string::StringSliceAdditionalSpecFns;

verus! {

/// ASCII white space, as `char::is_ascii_whitespace` counts it.
pub open spec fn is_ws(b: u8) -> bool {
    b == 32 || b == 9 || b == 10 || b == 12 || b == 13
}

/// The first position at or after `i` that is not white space.
pub open spec fn skip_ws_spec(s: Seq<u8>, i: int) -> int
    decreases s.len() - i,
{
    if 0 <= i < s.len() && is_ws(s[i]) {
        skip_ws_spec(s, i + 1)
    } else {
        i
    }
}

/// The first position at or after `i` that is white space (or the end).
pub open spec fn tok_end_spec(s: Seq<u8>, i: int) -> int
    decreases s.len() - i,
{
    if 0 <= i < s.len() && !is_ws(s[i]) {
        tok_end_spec(s, i + 1)
    } else {
        i
    }
}

/// The white-space separated tokens of `s` from position `i` on.
pub open spec fn tokens_from(s: Seq<u8>, i: int) -> Seq<Seq<u8>>
    decreases s.len() - i,
{
    let a = skip_ws_spec(s, i);
    if 0 <= i && a < s.len() {
        let b = tok_end_spec(s, a);
        if b > i && b <= s.len() {
            seq![s.subrange(a, b)] + tokens_from(s, b)
        } else {
            Seq::empty()
        }
    } else {
        Seq::empty()
    }
}

/// The white-space separated tokens of `s`.
pub open spec fn tokens(s: Seq<u8>) -> Seq<Seq<u8>> {
    tokens_from(s, 0)
}

pub open spec fn is_digit(b: u8) -> bool {
    48 <= b <= 57
}

/// The value of a string of decimal digits.
pub open spec fn digits_value(t: Seq<u8>) -> nat
    decreases t.len(),
{
    if t.len() == 0 {
        0
    } else {
        digits_value(t.drop_last()) * 10 + (t.last() - 48) as nat
    }
}

/// The digits of an unsigned number: the token without an optional leading `+`.
pub open spec fn unsigned_digits(t: Seq<u8>) -> Seq<u8> {
    if t.len() > 0 && t[0] == 43 { t.skip(1) } else { t }
}

/// The value of an unsigned decimal number not above `max`, as `str::parse` reads it
/// (an optional `+`, then at least one digit), or `None`.
pub open spec fn parse_unsigned(t: Seq<u8>, max: nat) -> Option<nat> {
    let d = unsigned_digits(t);
    if d.len() > 0 && (forall|i: int| 0 <= i < d.len() ==> is_digit(#[trigger] d[i])) && digits_value(d) <= max {
        Some(digits_value(d))
    } else {
        None
    }
}

/// A row token holds only `.` and `#`.
pub open spec fn valid_row(t: Seq<u8>) -> bool {
    forall|i: int| 0 <= i < t.len() ==> (#[trigger] t[i] == 46 || t[i] == 35)
}

/// A row token can be read without setting a column past the 512th: each `#` there
/// comes after a character that is neither `.` nor `#`.
pub open spec fn row_fits(t: Seq<u8>) -> bool {
    forall|j: int| 512 <= j < t.len() && #[trigger] t[j] == 35 ==> !valid_row(t.take(j))
}

proof fn lemma_skip_ws_bounds(s: Seq<u8>, i: int)
    requires
        0 <= i <= s.len(),
    ensures
        i <= skip_ws_spec(s, i) <= s.len(),
        forall|j: int| i <= j < skip_ws_spec(s, i) ==> is_ws(#[trigger] s[j]),
        skip_ws_spec(s, i) < s.len() ==> !is_ws(s[skip_ws_spec(s, i)]),
    decreases s.len() - i,
{
    if i < s.len() && is_ws(s[i]) {
        lemma_skip_ws_bounds(s, i + 1);
    }
}

proof fn lemma_tok_end_bounds(s: Seq<u8>, i: int)
    requires
        0 <= i <= s.len(),
    ensures
        i <= tok_end_spec(s, i) <= s.len(),
        forall|j: int| i <= j < tok_end_spec(s, i) ==> !is_ws(#[trigger] s[j]),
    decreases s.len() - i,
{
    if i < s.len() && !is_ws(s[i]) {
        lemma_tok_end_bounds(s, i + 1);
    }
}

/// The first position at or after `i` that is not white space.
pub fn skip_ws(s: &[u8], i: usize) -> (r: usize)
    requires
        i <= s@.len(),
    ensures
        r == skip_ws_spec(s@, i as int),
        i <= r <= s@.len(),
    decreases s@.len() - i,
{
    let mut j = i;
    while j < s.len() && (s[j] == 32 || s[j] == 9 || s[j] == 10 || s[j] == 12 || s[j] == 13)
        invariant
            i <= j <= s@.len(),
            skip_ws_spec(s@, j as int) == skip_ws_spec(s@, i as int),
        decreases s@.len() - j,
    {
        j += 1;
    }
    j
}

/// The first position at or after `i` that is white space (or the end).
pub fn tok_end(s: &[u8], i: usize) -> (r: usize)
    requires
        i <= s@.len(),
    ensures
        r == tok_end_spec(s@, i as int),
        i <= r <= s@.len(),
{
    let mut j = i;
    while j < s.len() && !(s[j] == 32 || s[j] == 9 || s[j] == 10 || s[j] == 12 || s[j] == 13)
        invariant
            i <= j <= s@.len(),
            tok_end_spec(s@, j as int) == tok_end_spec(s@, i as int),
        decreases s@.len() - j,
    {
        j += 1;
    }
    j
}

proof fn lemma_digits_value_push(t: Seq<u8>, d: u8)
    ensures
        digits_value(t.push(d)) == digits_value(t) * 10 + (d - 48) as nat,
{
    assert(t.push(d).drop_last() =~= t);
}

proof fn lemma_digits_value_grows(t: Seq<u8>, n: int)
    requires
        0 <= n <= t.len(),
        forall|i: int| 0 <= i < t.len() ==> is_digit(#[trigger] t[i]),
    ensures
        digits_value(t.take(n)) <= digits_value(t),
    decreases t.len() - n,
{
    if n < t.len() {
        lemma_digits_value_grows(t, n + 1);
        assert(t.take(n + 1) =~= t.take(n).push(t[n]));
        lemma_digits_value_push(t.take(n), t[n]);
    } else {
        assert(t.take(n) =~= t);
    }
}

/// Reads the unsigned number in `s[a..b]` if it is one and is at most `max`.
pub fn parse_unsigned_at(s: &[u8], a: usize, b: usize, max: u64) -> (r: Option<u64>)
    requires
        a <= b <= s@.len(),
    ensures
        r == (match parse_unsigned(s@.subrange(a as int, b as int), max as nat) {
            Some(v) => Some(v as u64),
            None => None,
        }),
{
    let ghost t = s@.subrange(a as int, b as int);
    let mut i = a;
    if i < b && s[i] == 43 {
        i += 1;
    }
    let ghost d = unsigned_digits(t);
    proof {
        assert(d =~= s@.subrange(i as int, b as int));
    }
    if i >= b {
        proof {
            assert(d.len() == 0);
        }
        return None;
    }
    let start = i;
    let mut acc: u64 = 0;
    let mut over = false;
    while i < b
        invariant
            start <= i <= b,
            a <= b,
            b <= s@.len(),
            t == s@.subrange(a as int, b as int),
            d == unsigned_digits(t),
            d == s@.subrange(start as int, b as int),
            forall|k: int| 0 <= k < i - start ==> is_digit(#[trigger] d[k]),
            !over ==> acc == digits_value(d.take(i - start)) && acc <= max,
            over ==> digits_value(d.take(i - start)) > max,
        decreases b - i,
    {
        let c = s[i];
        if !(48 <= c && c <= 57) {
            proof {
                assert(d[i - start] == c);
                assert(!is_digit(d[i - start]));
                assert(!(forall|k: int| 0 <= k < d.len() ==> is_digit(#[trigger] d[k])));
                assert(unsigned_digits(t) == d);
            }
            return None;
        }
        proof {
            assert(d.take(i + 1 - start) =~= d.take(i - start).push(c));
            lemma_digits_value_push(d.take(i - start), c);
        }
        if !over {
            let v = acc.checked_mul(10);
            match v {
                Some(v) => {
                    let v2 = v.checked_add((c - 48) as u64);
                    match v2 {
                        Some(v2) => {
                            if v2 <= max {
                                acc = v2;
                            } else {
                                over = true;
                            }
                        },
                        None => {
                            over = true;
                        },
                    }
                },
                None => {
                    over = true;
                },
            }
        } else {
            proof {
                assert(digits_value(d.take(i - start)) * 10 >= digits_value(d.take(i - start)));
            }
        }
        i += 1;
    }
    proof {
        assert(d.take(i - start) =~= d);
    }
    if over {
        None
    } else {
        Some(acc)
    }
}

/// Unfolding the token list once.
pub proof fn lemma_tokens_step(s: Seq<u8>, i: int)
    requires
        0 <= i <= s.len(),
    ensures
        skip_ws_spec(s, i) >= s.len() ==> tokens_from(s, i) == Seq::<Seq<u8>>::empty(),
        skip_ws_spec(s, i) < s.len() ==> {
            let a = skip_ws_spec(s, i);
            let b = tok_end_spec(s, a);
            &&& a < b <= s.len()
            &&& tokens_from(s, i) == seq![s.subrange(a, b)] + tokens_from(s, b)
        },
{
    lemma_skip_ws_bounds(s, i);
    let a = skip_ws_spec(s, i);
    if a < s.len() {
        lemma_tok_end_bounds(s, a);
        assert(!is_ws(s[a]));
        lemma_tok_end_bounds(s, a + 1);
        assert(tok_end_spec(s, a) == tok_end_spec(s, a + 1));
    }
}

/// The row mask of a token of `.` and `#`: bit `j` is set when `t[j]` is `#`.
pub fn parse_row(s: &[u8], a: usize, b: usize) -> (r: Option<U512>)
    requires
        a <= b <= s@.len(),
        row_fits(s@.subrange(a as int, b as int)),
    ensures
        r is Some <==> valid_row(s@.subrange(a as int, b as int)),
        r matches Some(m) ==> forall|j: int| 0 <= j < 512 ==> #[trigger] m@[j] == (j < b - a && s@[a + j] == 35),
{
    let ghost t = s@.subrange(a as int, b as int);
    let mut row = U512::zero();
    let mut i = a;
    while i < b
        invariant
            a <= i <= b,
            b <= s@.len(),
            t == s@.subrange(a as int, b as int),
            row_fits(t),
            forall|k: int| 0 <= k < i - a ==> (#[trigger] t[k] == 46 || t[k] == 35),
            forall|j: int| 0 <= j < 512 ==> #[trigger] row@[j] == (j < i - a && s@[a + j] == 35),
        decreases b - i,
    {
        let c = s[i];
        if c == 46 {
        } else if c == 35 {
            proof {
                assert(t[i - a] == 35);
                if i - a >= 512 {
                    assert(valid_row(t.take(i - a)));
                }
            }
            row.set(i - a);
        } else {
            proof {
                assert(t[i - a] == c);
            }
            return None;
        }
        i += 1;
    }
    Some(row)
}

/// Why a text is not a polyomino.
#[derive(Clone, Copy, Debug, PartialEq, Eq, Structural)]
pub enum ParseError {
    /// The text has no token.
    MissingHeight,
    /// The first token is not a number that fits in 32 bits.
    BadHeight,
    /// The text has a single token.
    MissingWidth,
    /// The second token is not a number that fits in a `usize`.
    BadWidth,
    /// A row holds a character other than `.` and `#`.
    InvalidCharacter,
    /// The number of rows is not the height.
    RowCountMismatch,
    /// The rows do not form a tight polyomino.
    NotTight(TightPolyError),
    /// The width of the cells is not the declared width.
    WidthMismatch,
}

/// The tokens after the height and the width: one per row.
pub open spec fn row_tokens(s: Seq<u8>) -> Seq<Seq<u8>> {
    tokens(s).skip(2)
}

/// Whether the row token `t` has a `#` in column `y`.
pub open spec fn cell_of(t: Seq<u8>, y: int) -> bool {
    0 <= y < t.len() && t[y] == 35
}

/// No row before the first bad one asks for a column past the 512th.
pub open spec fn rows_readable(rows: Seq<Seq<u8>>) -> bool {
    forall|i: int|
        0 <= i < rows.len() && (forall|k: int| 0 <= k < i ==> valid_row(#[trigger] rows[k])) ==> row_fits(
            #[trigger] rows[i],
        )
}

/// The declared height, when the first token reads as one.
pub open spec fn height_token(s: Seq<u8>) -> Option<nat> {
    if tokens(s).len() > 0 { parse_unsigned(tokens(s)[0], 0xffff_ffff) } else { None }
}

/// The declared width, when the second token reads as one.
pub open spec fn width_token(s: Seq<u8>) -> Option<nat> {
    if tokens(s).len() > 1 { parse_unsigned(tokens(s)[1], usize::MAX as nat) } else { None }
}

/// What the reader needs of a text: once the height and the width are read, the rows
/// can be read.
pub open spec fn readable(s: Seq<u8>) -> bool {
    height_token(s) is Some && width_token(s) is Some ==> rows_readable(row_tokens(s))
}

/// Whether the row token has a `#`.
pub open spec fn row_has_cell(t: Seq<u8>) -> bool {
    exists|y: int| cell_of(t, y)
}

pub open spec fn token_rows_nonempty(rows: Seq<Seq<u8>>) -> bool {
    forall|x: int| 0 <= x < rows.len() ==> row_has_cell(#[trigger] rows[x])
}

pub open spec fn token_first_column(rows: Seq<Seq<u8>>) -> bool {
    exists|x: int| 0 <= x < rows.len() && cell_of(#[trigger] rows[x], 0)
}

/// `w` is one past the last column with a `#` (0 when there is none).
pub open spec fn token_width_is(rows: Seq<Seq<u8>>, w: int) -> bool {
    &&& forall|x: int, y: int| 0 <= x < rows.len() && y >= w ==> !#[trigger] cell_of(rows[x], y)
    &&& w > 0 ==> exists|x: int| 0 <= x < rows.len() && cell_of(#[trigger] rows[x], w - 1)
}

/// The error that reading `s` gives, or `None` when it is a polyomino.
pub open spec fn parse_error(s: Seq<u8>) -> Option<ParseError> {
    let tk = tokens(s);
    let rows = row_tokens(s);
    if tk.len() == 0 {
        Some(ParseError::MissingHeight)
    } else if height_token(s) is None {
        Some(ParseError::BadHeight)
    } else if tk.len() == 1 {
        Some(ParseError::MissingWidth)
    } else if width_token(s) is None {
        Some(ParseError::BadWidth)
    } else if exists|i: int| 0 <= i < rows.len() && !valid_row(#[trigger] rows[i]) {
        Some(ParseError::InvalidCharacter)
    } else if rows.len() != height_token(s)->0 {
        Some(ParseError::RowCountMismatch)
    } else if !token_rows_nonempty(rows) {
        Some(ParseError::NotTight(TightPolyError::EmptyRow))
    } else if rows.len() > 0 && !token_first_column(rows) {
        Some(ParseError::NotTight(TightPolyError::EmptyFirstColumn))
    } else if !token_width_is(rows, width_token(s)->0 as int) {
        Some(ParseError::WidthMismatch)
    } else {
        None
    }
}

/// Two widths of the same rows are equal.
proof fn lemma_token_width_unique(rows: Seq<Seq<u8>>, w1: int, w2: int)
    requires
        token_width_is(rows, w1),
        token_width_is(rows, w2),
        w1 >= 0,
        w2 >= 0,
    ensures
        w1 == w2,
{
    if w1 < w2 {
        let x = choose|x: int| 0 <= x < rows.len() && cell_of(#[trigger] rows[x], w2 - 1);
        assert(!cell_of(rows[x], w2 - 1));
    } else if w2 < w1 {
        let x = choose|x: int| 0 <= x < rows.len() && cell_of(#[trigger] rows[x], w1 - 1);
        assert(!cell_of(rows[x], w1 - 1));
    }
}

/// How the masks read from the row tokens relate to the tokens.
proof fn lemma_rows_match(rows: Seq<U512>, seen: Seq<Seq<u8>>)
    requires
        rows.len() == seen.len(),
        forall|k: int| 0 <= k < seen.len() ==> valid_row(#[trigger] seen[k]),
        forall|k: int| 0 <= k < seen.len() ==> row_fits(#[trigger] seen[k]),
        forall|k: int, y: int| 0 <= k < seen.len() && 0 <= y < 512 ==> #[trigger] rows[k]@[y] == cell_of(seen[k], y),
    ensures
        forall|k: int, y: int| 0 <= k < seen.len() && y >= 512 ==> !#[trigger] cell_of(seen[k], y),
        rows_nonempty(rows) == token_rows_nonempty(seen),
        column_used(rows, 0) == token_first_column(seen),
        forall|w: int| #[trigger] is_width_of(rows, w) ==> token_width_is(seen, w),
{
    assert forall|k: int, y: int| 0 <= k < seen.len() && y >= 512 implies !#[trigger] cell_of(seen[k], y) by {
        if cell_of(seen[k], y) {
            assert(valid_row(seen[k].take(y)));
        }
    }
    if rows_nonempty(rows) {
        assert forall|x: int| 0 <= x < seen.len() implies row_has_cell(#[trigger] seen[x]) by {
            assert(!rows[x].is_zero_spec());
            let y = choose|y: int| 0 <= y < 512 && #[trigger] rows[x]@[y];
            assert(cell_of(seen[x], y));
        }
    }
    if token_rows_nonempty(seen) {
        assert forall|x: int| 0 <= x < rows.len() implies !(#[trigger] rows[x]).is_zero_spec() by {
            assert(row_has_cell(seen[x]));
            let y = choose|y: int| cell_of(seen[x], y);
            assert(cell_of(seen[x], y));
            assert(rows[x]@[y]);
        }
    }
    if column_used(rows, 0) {
        let x = choose|x: int| 0 <= x < rows.len() && (#[trigger] rows[x])@[0];
        assert(cell_of(seen[x], 0));
    }
    if token_first_column(seen) {
        let x = choose|x: int| 0 <= x < seen.len() && cell_of(#[trigger] seen[x], 0);
        assert(rows[x]@[0]);
    }
    assert forall|w: int| #[trigger] is_width_of(rows, w) implies token_width_is(seen, w) by {
        assert forall|x: int, y: int| 0 <= x < seen.len() && y >= w implies !#[trigger] cell_of(seen[x], y) by {
            if y < 512 {
                assert(!rows[x]@[y]);
            }
        }
        if w > 0 {
            let x = choose|x: int| 0 <= x < rows.len() && (#[trigger] rows[x])@[w - 1];
            assert(cell_of(seen[x], w - 1));
        }
    }
}

/// The cells of a polyomino whose masks were read from the row tokens.
proof fn lemma_cells_match(p: TightPoly, seen: Seq<Seq<u8>>)
    requires
        p.wf(),
        p.h() == seen.len(),
        token_width_is(seen, p.w() as int),
        forall|k: int, y: int| 0 <= k < seen.len() && 0 <= y < 512 ==> #[trigger] p.row_masks()[k]@[y] == cell_of(seen[k], y),
    ensures
        forall|x: int, y: int| 0 <= x < p.h() && 0 <= y ==> #[trigger] p.cell(x, y) == cell_of(seen[x], y),
{
    assert forall|x: int, y: int| 0 <= x < p.h() && 0 <= y implies #[trigger] p.cell(x, y) == cell_of(seen[x], y) by {
        if y >= p.w() {
            assert(!cell_of(seen[x], y));
        } else {
            assert(p.row_masks()[x]@[y] == cell_of(seen[x], y));
        }
    }
}

impl TightPoly {
    /// Reads a polyomino from its text: the height, the width, then one token of `.` and
    /// `#` per row, all separated by white space.
    pub fn parse_bytes(s: &[u8]) -> (r: Result<TightPoly, ParseError>)
        requires
            readable(s@),
        ensures
            match r {
                Ok(p) => {
                    &&& parse_error(s@) is None
                    &&& p.wf()
                    &&& p.h() == row_tokens(s@).len()
                    &&& p.w() == width_token(s@)->0
                    &&& forall|x: int, y: int|
                        0 <= x < p.h() && 0 <= y ==> #[trigger] p.cell(x, y) == cell_of(row_tokens(s@)[x], y)
                },
                Err(e) => parse_error(s@) == Some(e),
            },
    {
        let ghost tk = tokens(s@);
        let a = skip_ws(s, 0);
        proof {
            lemma_tokens_step(s@, 0);
        }
        if a >= s.len() {
            return Err(ParseError::MissingHeight);
        }
        let b = tok_end(s, a);
        let height = match parse_unsigned_at(s, a, b, 0xffff_ffff) {
            None => {
                return Err(ParseError::BadHeight);
            },
            Some(h) => h,
        };
        let c = skip_ws(s, b);
        proof {
            lemma_tokens_step(s@, b as int);
        }
        if c >= s.len() {
            return Err(ParseError::MissingWidth);
        }
        let d = tok_end(s, c);
        let width = match parse_unsigned_at(s, c, d, usize::MAX as u64) {
            None => {
                return Err(ParseError::BadWidth);
            },
            Some(w) => w,
        };
        let ghost rest = tokens_from(s@, d as int);
        proof {
            assert(row_tokens(s@) =~= rest);
        }
        let mut rows: Vec<U512> = Vec::new();
        let ghost mut seen: Seq<Seq<u8>> = Seq::empty();
        let mut i = d;
        loop
            invariant
                d <= i <= s@.len(),
                rest == tokens_from(s@, d as int),
                rest == row_tokens(s@),
                readable(s@),
                height_token(s@) == Some(height as nat),
                width_token(s@) == Some(width as nat),
                rest == seen + tokens_from(s@, i as int),
                rows@.len() == seen.len(),
                forall|k: int| 0 <= k < seen.len() ==> valid_row(#[trigger] seen[k]),
                forall|k: int| 0 <= k < seen.len() ==> row_fits(#[trigger] seen[k]),
                forall|k: int, y: int|
                    0 <= k < seen.len() && 0 <= y < 512 ==> #[trigger] rows@[k]@[y] == cell_of(seen[k], y),
            ensures
                rest == seen,
                rows@.len() == seen.len(),
                forall|k: int| 0 <= k < seen.len() ==> valid_row(#[trigger] seen[k]),
                forall|k: int| 0 <= k < seen.len() ==> row_fits(#[trigger] seen[k]),
                forall|k: int, y: int|
                    0 <= k < seen.len() && 0 <= y < 512 ==> #[trigger] rows@[k]@[y] == cell_of(seen[k], y),
            decreases s@.len() - i,
        {
            proof {
                lemma_tokens_step(s@, i as int);
            }
            let e0 = skip_ws(s, i);
            if e0 >= s.len() {
                proof {
                    assert(rest =~= seen);
                }
                break;
            }
            let e1 = tok_end(s, e0);
            let ghost t = s@.subrange(e0 as int, e1 as int);
            proof {
                assert(rest[seen.len() as int] == t);
                assert forall|k: int| 0 <= k < seen.len() implies valid_row(#[trigger] rest[k]) by {
                    assert(rest[k] == seen[k]);
                }
                assert(row_fits(rest[seen.len() as int]));
            }
            match parse_row(s, e0, e1) {
                None => {
                    proof {
                        assert(!valid_row(rest[seen.len() as int]));
                    }
                    return Err(ParseError::InvalidCharacter);
                },
                Some(m) => {
                    rows.push(m);
                    proof {
                        assert forall|y: int| 0 <= y < 512 implies #[trigger] m@[y] == cell_of(t, y) by {}
                        seen = seen.push(t);
                        assert(rest =~= seen + tokens_from(s@, e1 as int));
                    }
                    i = e1;
                },
            }
        }
        proof {
            lemma_rows_match(rows@, seen);
            assert(!(exists|j: int| 0 <= j < rest.len() && !valid_row(#[trigger] rest[j])));
        }
        if rows.len() != height as usize {
            return Err(ParseError::RowCountMismatch);
        }
        let ghost masks = rows@;
        let p = match TightPoly::new(rows) {
            Err(e) => {
                return Err(ParseError::NotTight(e));
            },
            Ok(p) => p,
        };
        proof {
            lemma_rows_match(masks, seen);
            if token_width_is(seen, width as int) {
                lemma_token_width_unique(seen, p.w() as int, width as int);
            }
        }
        if p.width() as u64 != width {
            return Err(ParseError::WidthMismatch);
        }
        proof {
            lemma_rows_match(masks, seen);
            lemma_cells_match(p, seen);
            assert(parse_error(s@) is None);
        }
        Ok(p)
    }

    /// Reads a polyomino from its text (see `parse_bytes`).
    pub fn from_str(s: &str) -> (r: Result<TightPoly, ParseError>)
        requires
            readable(s.spec_bytes()),
        ensures
            match r {
                Ok(p) => {
                    &&& parse_error(s.spec_bytes()) is None
                    &&& p.wf()
                    &&& p.h() == row_tokens(s.spec_bytes()).len()
                    &&& p.w() == width_token(s.spec_bytes())->0
                    &&& forall|x: int, y: int|
                        0 <= x < p.h() && 0 <= y ==> #[trigger] p.cell(x, y) == cell_of(
                            row_tokens(s.spec_bytes())[x],
                            y,
                        )
                },
                Err(e) => parse_error(s.spec_bytes()) == Some(e),
            },
    {
        TightPoly::parse_bytes(s.as_bytes())
    }
}

} // verus!
