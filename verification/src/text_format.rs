//! The row-major text form of a matrix: one non-negative decimal
//! integer per cell, cells separated by a single space, rows ended by
//! a newline. A renderer writes the form and a parser reads it back.

use vstd::prelude::*;

verus! {

/// The decimal digits of `n`, most significant first.
pub open spec fn decimal_bytes(n: nat) -> Seq<u8>
    decreases n,
{
    if n <= 9 {
        seq![(48 + n) as u8]
    } else {
        decimal_bytes(n / 10) + seq![(48 + n % 10) as u8]
    }
}

/// Every cell of every row of `m` is non-negative, as the text form
/// requires.
pub open spec fn cells_non_negative(m: Seq<Seq<i32>>) -> bool {
    forall|i: int, j: int| 0 <= i < m.len() && 0 <= j < m[i].len() ==> #[trigger] m[i][j] >= 0
}

/// The text form of one row: its cells in decimal, separated by single
/// spaces.
pub open spec fn render_row_spec(row: Seq<i32>) -> Seq<u8>
    decreases row.len(),
{
    if row.len() == 0 {
        Seq::empty()
    } else if row.len() == 1 {
        decimal_bytes(row[0] as nat)
    } else {
        decimal_bytes(row[0] as nat) + seq![32u8] + render_row_spec(row.skip(1))
    }
}

/// The text form of a whole matrix: each row's text followed by a
/// newline.
pub open spec fn render_matrix_spec(m: Seq<Seq<i32>>) -> Seq<u8>
    decreases m.len(),
{
    if m.len() == 0 {
        Seq::empty()
    } else {
        render_row_spec(m[0]) + seq![10u8] + render_matrix_spec(m.skip(1))
    }
}

/// Appends the decimal digits of one cell to `out`.
fn render_cell(value: i32, out: &mut Vec<u8>)
    requires
        0 <= value,
    ensures
        final(out)@ == old(out)@ + decimal_bytes(value as nat),
{
    if value == 0 {
        out.push(48);
        proof {
            assert(out@ =~= old(out)@ + decimal_bytes(0));
        }
        return;
    }
    let mut n = value;
    let mut rev: Vec<u8> = Vec::new();
    proof {
        assert(decimal_bytes(value as nat) =~= decimal_bytes(n as nat) + rev@.reverse());
    }
    while n > 0
        invariant
            0 <= n,
            n > 0 ==> decimal_bytes(value as nat) == decimal_bytes(n as nat) + rev@.reverse(),
            n == 0 ==> decimal_bytes(value as nat) == rev@.reverse(),
        decreases n,
    {
        let ghost rev0 = rev@;
        let d = (n % 10) as u8 + 48;
        rev.push(d);
        proof {
            assert(rev@.reverse() =~= seq![d] + rev0.reverse());
            if n <= 9 {
                assert(decimal_bytes(n as nat) == seq![d]);
                assert(decimal_bytes(value as nat) =~= rev@.reverse());
            } else {
                assert(decimal_bytes(n as nat) == decimal_bytes((n / 10) as nat) + seq![d]);
                assert(decimal_bytes(value as nat) =~= decimal_bytes((n / 10) as nat)
                    + rev@.reverse());
            }
        }
        n = n / 10;
    }
    while rev.len() > 0
        invariant
            out@ + rev@.reverse() == old(out)@ + decimal_bytes(value as nat),
        decreases rev@.len(),
    {
        let ghost rev0 = rev@;
        let ghost out0 = out@;
        let d = rev.pop().unwrap();
        out.push(d);
        proof {
            assert(rev0.reverse() =~= seq![d] + rev@.reverse());
            assert(out@ + rev@.reverse() =~= out0 + rev0.reverse());
        }
    }
    proof {
        assert(out@ =~= out@ + rev@.reverse());
    }
}

/// Renders one row, cells separated by single spaces, appending to
/// `out`.
fn render_row(row: &Vec<i32>, out: &mut Vec<u8>)
    requires
        forall|j: int| 0 <= j < row@.len() ==> #[trigger] row@[j] >= 0,
    ensures
        final(out)@ == old(out)@ + render_row_spec(row@),
{
    let mut j: usize = 0;
    proof {
        assert(row@.skip(0) =~= row@);
    }
    while j < row.len()
        invariant
            j <= row@.len(),
            forall|c: int| 0 <= c < row@.len() ==> #[trigger] row@[c] >= 0,
            j == 0 ==> out@ == old(out)@,
            0 < j < row@.len() ==> out@ + seq![32u8] + render_row_spec(row@.skip(j as int)) == old(
                out,
            )@ + render_row_spec(row@),
            j == row@.len() && j > 0 ==> out@ == old(out)@ + render_row_spec(row@),
        decreases row@.len() - j,
    {
        let ghost out0 = out@;
        let ghost rest = row@.skip(j as int);
        if j > 0 {
            out.push(32);
        }
        render_cell(row[j], out);
        proof {
            assert(rest[0] == row@[j as int]);
            assert(rest.skip(1) =~= row@.skip(j as int + 1));
            if rest.len() == 1 {
                assert(render_row_spec(rest) == decimal_bytes(rest[0] as nat));
            } else {
                assert(render_row_spec(rest) == decimal_bytes(rest[0] as nat) + seq![32u8]
                    + render_row_spec(rest.skip(1)));
            }
            if j == 0 {
                if rest.len() == 1 {
                    assert(out@ =~= old(out)@ + render_row_spec(row@));
                } else {
                    assert(out@ + seq![32u8] + render_row_spec(row@.skip(j as int + 1)) =~= old(
                        out,
                    )@ + render_row_spec(row@));
                }
            } else {
                if rest.len() == 1 {
                    assert(out@ =~= old(out)@ + render_row_spec(row@));
                } else {
                    assert(out@ + seq![32u8] + render_row_spec(row@.skip(j as int + 1)) =~= old(
                        out,
                    )@ + render_row_spec(row@));
                }
            }
        }
        j = j + 1;
    }
    proof {
        if row@.len() == 0 {
            assert(out@ =~= old(out)@ + render_row_spec(row@));
        }
    }
}

/// Renders a whole matrix in its text form: each row's cells in
/// decimal, single spaces between cells, a newline after every row.
pub fn render_matrix(m: &Vec<Vec<i32>>) -> (text: Vec<u8>)
    requires
        cells_non_negative(m.deep_view()),
    ensures
        text@ == render_matrix_spec(m.deep_view()),
{
    let ghost mv = m.deep_view();
    let mut text: Vec<u8> = Vec::new();
    let mut i: usize = 0;
    proof {
        assert(mv.skip(0) =~= mv);
        assert(Seq::<u8>::empty() + render_matrix_spec(mv) =~= render_matrix_spec(mv));
    }
    while i < m.len()
        invariant
            i <= m@.len(),
            mv == m.deep_view(),
            cells_non_negative(mv),
            mv.len() == m@.len(),
            text@ + render_matrix_spec(mv.skip(i as int)) == render_matrix_spec(mv),
        decreases m@.len() - i,
    {
        let ghost text0 = text@;
        let ghost rest = mv.skip(i as int);
        proof {
            assert(rest[0] =~= m@[i as int]@);
            assert(forall|c: int|
                0 <= c < m@[i as int]@.len() ==> #[trigger] m@[i as int]@[c] == mv[i as int][c]);
        }
        render_row(&m[i], &mut text);
        text.push(10);
        proof {
            assert(rest.skip(1) =~= mv.skip(i as int + 1));
            assert(render_matrix_spec(rest) == render_row_spec(rest[0]) + seq![10u8]
                + render_matrix_spec(rest.skip(1)));
            assert(text@ + render_matrix_spec(mv.skip(i as int + 1)) =~= text0
                + render_matrix_spec(rest));
        }
        i = i + 1;
    }
    proof {
        assert(mv.skip(mv.len() as int) =~= Seq::<Seq<i32>>::empty());
        assert(text@ =~= text@ + render_matrix_spec(mv.skip(mv.len() as int)));
    }
    text
}

/// A decimal digit byte.
pub open spec fn is_digit(b: u8) -> bool {
    48 <= b <= 57
}

/// A byte that separates cells within a line: space, tab, or the
/// carriage return left before a newline.
pub open spec fn is_blank(b: u8) -> bool {
    b == 32 || b == 9 || b == 13
}

/// The index of the first newline in `text`, or `text.len()` when
/// there is none.
pub open spec fn first_newline(text: Seq<u8>) -> int
    decreases text.len(),
{
    if text.len() == 0 {
        0
    } else if text[0] == 10 {
        0
    } else {
        1 + first_newline(text.skip(1))
    }
}

/// `first_newline` points at the first newline: everything before it
/// is some other byte, and it is a newline unless the text has none.
proof fn lemma_first_newline(text: Seq<u8>)
    ensures
        0 <= first_newline(text) <= text.len(),
        first_newline(text) < text.len() ==> text[first_newline(text)] == 10,
        forall|q: int| 0 <= q < first_newline(text) ==> text[q] != 10,
    decreases text.len(),
{
    if text.len() > 0 && text[0] != 10 {
        lemma_first_newline(text.skip(1));
        assert forall|q: int| 0 <= q < first_newline(text) implies text[q] != 10 by {
            if q > 0 {
                assert(text.skip(1)[q - 1] != 10);
            }
        }
    }
}

/// The length of the run of digits at the head of `s`.
pub open spec fn digit_run(s: Seq<u8>) -> int
    decreases s.len(),
{
    if s.len() == 0 {
        0
    } else if !is_digit(s[0]) {
        0
    } else {
        1 + digit_run(s.skip(1))
    }
}

/// `digit_run` measures the head run of digits: everything before it
/// is a digit, and the byte at it is not, unless the run fills `s`.
proof fn lemma_digit_run(s: Seq<u8>)
    ensures
        0 <= digit_run(s) <= s.len(),
        digit_run(s) < s.len() ==> !is_digit(s[digit_run(s)]),
        forall|q: int| 0 <= q < digit_run(s) ==> is_digit(s[q]),
    decreases s.len(),
{
    if s.len() > 0 && is_digit(s[0]) {
        lemma_digit_run(s.skip(1));
        assert forall|q: int| 0 <= q < digit_run(s) implies is_digit(s[q]) by {
            if q > 0 {
                assert(is_digit(s.skip(1)[q - 1]));
            }
        }
    }
}

/// The number the digit bytes `t` spell, most significant first.
pub open spec fn token_value(t: Seq<u8>) -> int
    decreases t.len(),
{
    if t.len() == 0 {
        0
    } else {
        10 * token_value(t.take(t.len() - 1)) + (t.last() - 48)
    }
}

/// One line as one row: leading blanks before each cell are skipped,
/// every digit run is a cell, and anything else rejects the line, as
/// does a cell beyond the `i32` range.
pub open spec fn parse_row_spec(line: Seq<u8>) -> Option<Seq<i32>>
    decreases line.len(),
    via parse_row_spec_decreases
{
    if line.len() == 0 {
        Some(seq![])
    } else if is_blank(line[0]) {
        parse_row_spec(line.skip(1))
    } else if is_digit(line[0]) {
        let t = digit_run(line);
        if t < line.len() && !is_blank(line[t]) {
            None
        } else if token_value(line.take(t)) > i32::MAX as int {
            None
        } else {
            match parse_row_spec(line.skip(t)) {
                Some(rest) => Some(seq![token_value(line.take(t)) as i32] + rest),
                None => None,
            }
        }
    } else {
        None
    }
}

#[via_fn]
proof fn parse_row_spec_decreases(line: Seq<u8>) {
    lemma_digit_run(line);
}

/// The whole text as a matrix: each newline ends a row, and a final
/// row may stand without one. Any line that is not a row of cells
/// rejects the whole text.
pub open spec fn parse_matrix_spec(text: Seq<u8>) -> Option<Seq<Seq<i32>>>
    decreases text.len(),
    via parse_matrix_spec_decreases
{
    if text.len() == 0 {
        Some(seq![])
    } else {
        let p = first_newline(text);
        let row = parse_row_spec(text.take(p));
        if p == text.len() {
            match row {
                Some(r) => Some(seq![r]),
                None => None,
            }
        } else {
            match (row, parse_matrix_spec(text.skip(p + 1))) {
                (Some(r), Some(rest)) => Some(seq![r] + rest),
                _ => None,
            }
        }
    }
}

#[via_fn]
proof fn parse_matrix_spec_decreases(text: Seq<u8>) {
    lemma_first_newline(text);
}

/// Scans to the end of the digit run that starts at `from`.
fn scan_digits(text: &Vec<u8>, from: usize, to: usize) -> (p: usize)
    requires
        from <= to <= text@.len(),
    ensures
        from <= p <= to,
        p - from == digit_run(text@.subrange(from as int, to as int)),
{
    let mut p = from;
    while p < to && 48 <= text[p] && text[p] <= 57
        invariant
            from <= p <= to <= text@.len(),
            forall|q: int| from <= q < p ==> is_digit(text@[q]),
        decreases to - p,
    {
        p = p + 1;
    }
    proof {
        let s = text@.subrange(from as int, to as int);
        lemma_digit_run(s);
        let dr = digit_run(s);
        if p - from < dr {
            assert(is_digit(s[p - from]));
            assert(s[p - from] == text@[p as int]);
        } else if p - from > dr {
            assert(!is_digit(s[dr]));
            assert(is_digit(text@[from + dr]));
            assert(s[dr] == text@[from + dr]);
        }
    }
    p
}

/// Scans to the first newline at or after `from`.
fn scan_newline(text: &Vec<u8>, from: usize, to: usize) -> (p: usize)
    requires
        from <= to <= text@.len(),
    ensures
        from <= p <= to,
        p - from == first_newline(text@.subrange(from as int, to as int)),
{
    let mut p = from;
    while p < to && text[p] != 10
        invariant
            from <= p <= to <= text@.len(),
            forall|q: int| from <= q < p ==> text@[q] != 10,
        decreases to - p,
    {
        p = p + 1;
    }
    proof {
        let s = text@.subrange(from as int, to as int);
        lemma_first_newline(s);
        let fnl = first_newline(s);
        if p - from < fnl {
            assert(s[p - from] != 10);
            assert(s[p - from] == text@[p as int]);
        } else if p - from > fnl {
            assert(s[fnl] == 10);
            assert(s[fnl] == text@[from + fnl]);
            assert(text@[from + fnl] != 10);
        }
    }
    p
}

/// Parses the bytes `text[from..to)` as one row.
#[verifier::loop_isolation(false)]
fn parse_row(text: &Vec<u8>, from: usize, to: usize) -> (r: Option<Vec<i32>>)
    requires
        from <= to <= text@.len(),
    ensures
        (match r {
            Some(row) => parse_row_spec(text@.subrange(from as int, to as int)) == Some(row@),
            None => parse_row_spec(text@.subrange(from as int, to as int)) is None,
        }),
{
    let ghost full = text@.subrange(from as int, to as int);
    let mut row: Vec<i32> = Vec::new();
    let mut cur = from;
    proof {
        assert(text@.subrange(cur as int, to as int) =~= full);
        assert(row@ + parse_row_spec(full)->Some_0 =~= parse_row_spec(full)->Some_0);
    }
    while cur < to
        invariant
            from <= cur <= to,
            (match parse_row_spec(text@.subrange(cur as int, to as int)) {
                Some(rest) => parse_row_spec(full) == Some(row@ + rest),
                None => parse_row_spec(full) is None,
            }),
        decreases to - cur,
    {
        let ghost rem = text@.subrange(cur as int, to as int);
        let b = text[cur];
        proof {
            assert(rem[0] == b);
        }
        if b == 32 || b == 9 || b == 13 {
            proof {
                assert(rem.skip(1) =~= text@.subrange(cur as int + 1, to as int));
            }
            cur = cur + 1;
        } else if 48 <= b && b <= 57 {
            let p = scan_digits(text, cur, to);
            proof {
                assert(rem.take(p - cur) =~= text@.subrange(cur as int, p as int));
                assert(rem.skip(p - cur) =~= text@.subrange(p as int, to as int));
                lemma_digit_run(rem);
                assert forall|qq: int| cur <= qq < p implies is_digit(text@[qq]) by {
                    assert(is_digit(rem[qq - cur]));
                }
            }
            if p < to {
                let after = text[p];
                if !(after == 32 || after == 9 || after == 13) {
                    proof {
                        assert(rem[p - cur] == after);
                        assert(parse_row_spec(rem) is None);
                    }
                    return None;
                }
            }
            let mut acc: u64 = 0;
            let mut q = cur;
            proof {
                assert(text@.subrange(cur as int, cur as int) =~= Seq::<u8>::empty());
            }
            while q < p
                invariant
                    cur <= q <= p,
                    acc <= i32::MAX as u64 ==> acc as int == token_value(
                        text@.subrange(cur as int, q as int),
                    ),
                    acc > i32::MAX as u64 ==> token_value(text@.subrange(cur as int, q as int))
                        > i32::MAX as int,
                    acc <= 21474836479u64,
                decreases p - q,
            {
                let ghost pre = text@.subrange(cur as int, q as int);
                let d = text[q];
                proof {
                    assert(is_digit(text@[q as int]));
                    let ext = text@.subrange(cur as int, q as int + 1);
                    assert(ext.take(ext.len() - 1) =~= pre);
                    assert(ext.last() == d);
                }
                if acc <= i32::MAX as u64 {
                    acc = acc * 10 + ((d - 48) as u64);
                }
                q = q + 1;
            }
            if acc > i32::MAX as u64 {
                proof {
                    assert(token_value(rem.take(digit_run(rem))) > i32::MAX as int);
                    assert(parse_row_spec(rem) is None);
                }
                return None;
            }
            let value = acc as i32;
            let ghost row0 = row@;
            row.push(value);
            proof {
                let rest_spec = parse_row_spec(text@.subrange(p as int, to as int));
                assert(parse_row_spec(rem) == (match rest_spec {
                    Some(rest) => Some(seq![value] + rest),
                    None => None,
                }));
                if rest_spec is Some {
                    assert(row0 + (seq![value] + rest_spec->Some_0) =~= row@ + rest_spec->Some_0);
                }
            }
            cur = p;
        } else {
            proof {
                assert(parse_row_spec(rem) is None);
            }
            return None;
        }
    }
    proof {
        assert(text@.subrange(to as int, to as int) =~= Seq::<u8>::empty());
        assert(row@ + Seq::<i32>::empty() =~= row@);
    }
    Some(row)
}

/// Parses a whole text as a matrix, row by row. Returns the parsed
/// matrix exactly when the text is well formed, and nothing otherwise.
#[verifier::loop_isolation(false)]
pub fn parse_matrix(text: &Vec<u8>) -> (r: Option<Vec<Vec<i32>>>)
    ensures
        (match r {
            Some(m) => parse_matrix_spec(text@) == Some(m.deep_view()),
            None => parse_matrix_spec(text@) is None,
        }),
{
    let n = text.len();
    let mut rows: Vec<Vec<i32>> = Vec::new();
    let mut cur: usize = 0;
    proof {
        assert(text@.subrange(0, n as int) =~= text@);
        if parse_matrix_spec(text@) is Some {
            assert(rows.deep_view() + parse_matrix_spec(text@)->Some_0 =~= parse_matrix_spec(
                text@,
            )->Some_0);
        }
    }
    while cur < n
        invariant
            cur <= n,
            (match parse_matrix_spec(text@.subrange(cur as int, n as int)) {
                Some(rest) => parse_matrix_spec(text@) == Some(rows.deep_view() + rest),
                None => parse_matrix_spec(text@) is None,
            }),
        decreases n - cur,
    {
        let ghost rem = text@.subrange(cur as int, n as int);
        let p = scan_newline(text, cur, n);
        proof {
            assert(rem.take(p - cur) =~= text@.subrange(cur as int, p as int));
        }
        let parsed = parse_row(text, cur, p);
        match parsed {
            None => {
                proof {
                    assert(parse_matrix_spec(rem) is None);
                }
                return None;
            },
            Some(line_row) => {
                let ghost rows0 = rows.deep_view();
                rows.push(line_row);
                proof {
                    assert(rows.deep_view() =~~= rows0 + seq![line_row@]);
                }
                if p == n {
                    proof {
                        assert(parse_matrix_spec(rem) == Some(seq![line_row@]));
                        assert(rows0 + seq![line_row@] =~= rows.deep_view());
                    }
                    cur = n;
                } else {
                    proof {
                        assert(rem.skip((p - cur) + 1) =~= text@.subrange(p as int + 1, n as int));
                        let rest_spec = parse_matrix_spec(
                            text@.subrange(p as int + 1, n as int),
                        );
                        if rest_spec is Some {
                            assert(rows0 + (seq![line_row@] + rest_spec->Some_0) =~= rows.deep_view()
                                + rest_spec->Some_0);
                        }
                    }
                    cur = p + 1;
                }
            },
        }
    }
    proof {
        assert(text@.subrange(n as int, n as int) =~= Seq::<u8>::empty());
        assert(rows.deep_view() + Seq::<Seq<i32>>::empty() =~= rows.deep_view());
    }
    Some(rows)
}

/// The bytes of a rendered number are decimal digits.
proof fn lemma_decimal_bytes_are_digits(n: nat)
    ensures
        decimal_bytes(n).len() >= 1,
        forall|q: int| 0 <= q < decimal_bytes(n).len() ==> is_digit(#[trigger] decimal_bytes(n)[q]),
    decreases n,
{
    if n > 9 {
        lemma_decimal_bytes_are_digits(n / 10);
    }
}

/// Parsing the rendered digits of a number gives the number back.
proof fn lemma_decimal_bytes_value(n: nat)
    ensures
        token_value(decimal_bytes(n)) == n,
    decreases n,
{
    if n <= 9 {
        let db = decimal_bytes(n);
        assert(db.len() == 1);
        assert(db.take(0) =~= Seq::<u8>::empty());
        assert(db.last() == (48 + n) as u8);
        assert(token_value(db) == 10 * token_value(db.take(0)) + (db.last() - 48));
    } else {
        lemma_decimal_bytes_value(n / 10);
        let db = decimal_bytes(n);
        vstd::arithmetic::div_mod::lemma_fundamental_div_mod(n as int, 10);
        vstd::arithmetic::div_mod::lemma_mod_bound(n as int, 10);
        lemma_decimal_bytes_are_digits(n / 10);
        assert(db.len() == decimal_bytes(n / 10).len() + 1);
        assert(db.take(db.len() - 1) =~= decimal_bytes(n / 10));
        assert(db.last() == (48 + n % 10) as u8);
        assert(token_value(db) == 10 * token_value(db.take(db.len() - 1)) + (db.last() - 48));
    }
}

/// A head run of digits followed by a non-digit (or by nothing) is
/// exactly what `digit_run` measures.
proof fn lemma_digit_run_is(s: Seq<u8>, k: int)
    requires
        0 <= k <= s.len(),
        forall|q: int| 0 <= q < k ==> is_digit(s[q]),
        k < s.len() ==> !is_digit(s[k]),
    ensures
        digit_run(s) == k,
{
    lemma_digit_run(s);
}

/// Where the first newline of a text stands, from the bytes around it.
proof fn lemma_first_newline_is(s: Seq<u8>, k: int)
    requires
        0 <= k <= s.len(),
        forall|q: int| 0 <= q < k ==> s[q] != 10,
        k < s.len() ==> s[k] == 10,
    ensures
        first_newline(s) == k,
{
    lemma_first_newline(s);
}

/// A rendered row holds only digits and spaces, never a newline.
proof fn lemma_render_row_no_newline(row: Seq<i32>)
    requires
        forall|j: int| 0 <= j < row.len() ==> #[trigger] row[j] >= 0,
    ensures
        forall|q: int|
            0 <= q < render_row_spec(row).len() ==> #[trigger] render_row_spec(row)[q] != 10,
    decreases row.len(),
{
    if row.len() >= 1 {
        let db = decimal_bytes(row[0] as nat);
        lemma_decimal_bytes_are_digits(row[0] as nat);
        if row.len() == 1 {
            assert forall|q: int| 0 <= q < render_row_spec(row).len() implies #[trigger] render_row_spec(
                row,
            )[q] != 10 by {
                assert(is_digit(db[q]));
            }
        } else {
            assert(forall|j: int| 0 <= j < row.skip(1).len() ==> #[trigger] row.skip(1)[j] >= 0);
            lemma_render_row_no_newline(row.skip(1));
            let rest = render_row_spec(row.skip(1));
            assert forall|q: int| 0 <= q < render_row_spec(row).len() implies #[trigger] render_row_spec(
                row,
            )[q] != 10 by {
                if q < db.len() {
                    assert(render_row_spec(row)[q] == db[q]);
                    assert(is_digit(db[q]));
                } else if q == db.len() {
                    assert(render_row_spec(row)[q] == 32u8);
                } else {
                    assert(render_row_spec(row)[q] == rest[q - db.len() - 1]);
                }
            }
        }
    }
}

/// Parsing a rendered row gives the row back.
proof fn lemma_row_round_trip(row: Seq<i32>)
    requires
        forall|j: int| 0 <= j < row.len() ==> #[trigger] row[j] >= 0,
    ensures
        parse_row_spec(render_row_spec(row)) == Some(row),
    decreases row.len(),
{
    if row.len() == 0 {
        assert(render_row_spec(row) =~= Seq::<u8>::empty());
        assert(parse_row_spec(render_row_spec(row)) == Some(Seq::<i32>::empty()));
        assert(Seq::<i32>::empty() =~= row);
    } else {
        let v = row[0] as nat;
        let db = decimal_bytes(v);
        let line = render_row_spec(row);
        lemma_decimal_bytes_are_digits(v);
        lemma_decimal_bytes_value(v);
        if row.len() == 1 {
            assert(line == db);
            assert(line == db);
            assert(is_digit(line[0]));
            assert(!is_blank(line[0]));
            lemma_digit_run_is(line, db.len() as int);
            assert(digit_run(line) == line.len());
            assert(line.take(db.len() as int) =~= db);
            assert(token_value(line.take(digit_run(line))) == v);
            assert(v <= i32::MAX as int);
            assert(line.skip(db.len() as int) =~= Seq::<u8>::empty());
            assert(line.skip(digit_run(line)).len() == 0);
            assert(parse_row_spec(line.skip(digit_run(line))) is Some);
            assert(parse_row_spec(line.skip(digit_run(line)))->Some_0 == Seq::<i32>::empty());
            assert(parse_row_spec(line) is Some);
            assert(parse_row_spec(line)->Some_0 =~= row);
        } else {
            let tail_rows = row.skip(1);
            assert(forall|j: int| 0 <= j < tail_rows.len() ==> #[trigger] tail_rows[j] >= 0);
            lemma_row_round_trip(tail_rows);
            assert(line == db + seq![32u8] + render_row_spec(tail_rows));
            assert(line[db.len() as int] == 32u8);
            lemma_digit_run_is(line, db.len() as int);
            assert(line.take(db.len() as int) =~= db);
            let after = line.skip(db.len() as int);
            assert(after[0] == 32u8);
            assert(after.skip(1) =~= render_row_spec(tail_rows));
            assert(parse_row_spec(after) == Some(tail_rows));
            assert(parse_row_spec(line) is Some);
            assert(parse_row_spec(line)->Some_0 =~= row);
        }
    }
}

/// Rendering a matrix and parsing the text back returns the matrix
/// unchanged: the parser inverts the renderer on every matrix the
/// renderer accepts.
pub proof fn lemma_text_round_trip(m: Seq<Seq<i32>>)
    requires
        cells_non_negative(m),
    ensures
        parse_matrix_spec(render_matrix_spec(m)) == Some(m),
    decreases m.len(),
{
    if m.len() == 0 {
        assert(render_matrix_spec(m) =~= Seq::<u8>::empty());
        assert(Seq::<Seq<i32>>::empty() =~= m);
    } else {
        let head = m[0];
        let line = render_row_spec(head);
        let tail = m.skip(1);
        let text = render_matrix_spec(m);
        assert(forall|j: int| 0 <= j < head.len() ==> #[trigger] head[j] >= 0);
        assert(cells_non_negative(tail)) by {
            assert(forall|i: int, j: int|
                0 <= i < tail.len() && 0 <= j < tail[i].len() ==> #[trigger] tail[i][j] == m[i
                    + 1][j]);
        }
        lemma_render_row_no_newline(head);
        lemma_text_round_trip(tail);
        lemma_row_round_trip(head);
        assert(text == line + seq![10u8] + render_matrix_spec(tail));
        assert(text[line.len() as int] == 10u8);
        lemma_first_newline_is(text, line.len() as int);
        assert(text.take(line.len() as int) =~= line);
        assert(text.skip(line.len() as int + 1) =~= render_matrix_spec(tail));
        assert(parse_matrix_spec(text) is Some);
        assert(parse_matrix_spec(text)->Some_0 =~= m);
    }
}

} // verus!
