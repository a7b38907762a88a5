//! Parsing sample text into a grid of tile-type ids.
//!
//! The format: each line is one grid row, cells are decimal integers
//! separated by single spaces. A token that is not a plain decimal
//! integer fitting the machine word is a parse error.

use vstd::prelude::*;

use crate::WfcError;

verus! {

/// Whether `b` is an ASCII decimal digit.
pub open spec fn is_digit(b: u8) -> bool {
    48 <= b <= 57
}

/// Length of the longest digit-only prefix of `s`.
pub open spec fn digit_prefix_len(s: Seq<u8>) -> nat
    decreases s.len(),
{
    if s.len() == 0 || !is_digit(s[0]) {
        0
    } else {
        1 + digit_prefix_len(s.skip(1))
    }
}

/// Value of a digit sequence read as a decimal number.
pub open spec fn digits_value(t: Seq<u8>) -> int
    decreases t.len(),
{
    if t.len() == 0 {
        0
    } else {
        digits_value(t.drop_last()) * 10 + (t.last() - 48)
    }
}

/// Index of the first newline in `s`, or its length.
pub open spec fn line_end(s: Seq<u8>) -> nat
    decreases s.len(),
{
    if s.len() == 0 || s[0] == 10 {
        0
    } else {
        1 + line_end(s.skip(1))
    }
}

/// A line with a trailing carriage return sheds it.
pub open spec fn strip_cr(t: Seq<u8>) -> Seq<u8> {
    if t.len() > 0 && t.last() == 13 {
        t.drop_last()
    } else {
        t
    }
}

/// One row: decimal tokens separated by single spaces. `None` on an
/// empty token, a stray character, or a value over the machine word.
pub open spec fn parse_line(s: Seq<u8>) -> Option<Seq<usize>>
    decreases s.len(),
{
    let k = digit_prefix_len(s) as int;
    if k == 0 {
        None
    } else if digits_value(s.take(k)) > usize::MAX {
        None
    } else if k >= s.len() {
        Some(seq![digits_value(s.take(k)) as usize])
    } else if s[k] == 32 {
        match parse_line(s.skip(k + 1)) {
            None => None,
            Some(rest) => Some(seq![digits_value(s.take(k)) as usize] + rest),
        }
    } else {
        None
    }
}

/// The whole sample: newline-separated rows, a final newline
/// tolerated, carriage returns before newlines shed.
pub open spec fn parse_grid(s: Seq<u8>) -> Option<Seq<Seq<usize>>>
    decreases s.len(),
{
    if s.len() == 0 {
        Some(Seq::empty())
    } else {
        let k = line_end(s) as int;
        match parse_line(strip_cr(s.take(k))) {
            None => None,
            Some(row) => {
                if k >= s.len() {
                    Some(seq![row])
                } else {
                    match parse_grid(s.skip(k + 1)) {
                        None => None,
                        Some(rows) => Some(seq![row] + rows),
                    }
                }
            },
        }
    }
}

/// Total number of cells of a grid.
pub open spec fn total_cells(g: Seq<Seq<usize>>) -> int
    decreases g.len(),
{
    if g.len() == 0 {
        0
    } else {
        g[0].len() + total_cells(g.skip(1))
    }
}

pub proof fn lemma_digit_prefix_le_len(s: Seq<u8>)
    ensures
        digit_prefix_len(s) <= s.len(),
    decreases s.len(),
{
    if s.len() > 0 && is_digit(s[0]) {
        lemma_digit_prefix_le_len(s.skip(1));
    }
}

pub proof fn lemma_line_end_le_len(s: Seq<u8>)
    ensures
        line_end(s) <= s.len(),
    decreases s.len(),
{
    if s.len() > 0 && s[0] != 10 {
        lemma_line_end_le_len(s.skip(1));
    }
}

pub proof fn lemma_digits_value_nonneg(t: Seq<u8>)
    requires
        forall|j: int| 0 <= j < t.len() ==> is_digit(#[trigger] t[j]),
    ensures
        digits_value(t) >= 0,
    decreases t.len(),
{
    if t.len() > 0 {
        assert(forall|j: int| 0 <= j < t.drop_last().len() ==> t.drop_last()[j] == t[j]);
        lemma_digits_value_nonneg(t.drop_last());
    }
}

/// A digit string is worth at least any of its prefixes.
pub proof fn lemma_digits_value_mono(t: Seq<u8>, m: int)
    requires
        forall|j: int| 0 <= j < t.len() ==> is_digit(#[trigger] t[j]),
        0 <= m <= t.len(),
    ensures
        digits_value(t.take(m)) <= digits_value(t),
    decreases t.len(),
{
    if m == t.len() {
        assert(t.take(m) =~= t);
    } else if t.len() > 0 {
        assert(forall|j: int| 0 <= j < t.drop_last().len() ==> t.drop_last()[j] == t[j]);
        assert(t.drop_last().take(m) =~= t.take(m));
        lemma_digits_value_mono(t.drop_last(), m);
        lemma_digits_value_nonneg(t.drop_last());
    }
}

/// A parsed row never has more cells than its line has bytes.
pub proof fn lemma_parse_line_len(s: Seq<u8>)
    requires
        parse_line(s) is Some,
    ensures
        1 <= parse_line(s)->Some_0.len() <= s.len(),
    decreases s.len(),
{
    lemma_digit_prefix_le_len(s);
    let k = digit_prefix_len(s) as int;
    if k < s.len() && s[k] == 32 {
        lemma_parse_line_len(s.skip(k + 1));
    }
}

/// A parsed grid never has more cells than the text has bytes.
pub proof fn lemma_parse_grid_cells(s: Seq<u8>)
    requires
        parse_grid(s) is Some,
    ensures
        0 <= total_cells(parse_grid(s)->Some_0) <= s.len(),
    decreases s.len(),
{
    if s.len() > 0 {
        lemma_line_end_le_len(s);
        let k = line_end(s) as int;
        lemma_parse_line_len(strip_cr(s.take(k)));
        let row = parse_line(strip_cr(s.take(k)))->Some_0;
        if k >= s.len() {
            assert(parse_grid(s)->Some_0 == seq![row]);
            assert(total_cells(seq![row]) == row.len() + total_cells(seq![row].skip(1)));
            assert(seq![row].skip(1) =~= Seq::<Seq<usize>>::empty());
        } else {
            lemma_parse_grid_cells(s.skip(k + 1));
            let rows = parse_grid(s.skip(k + 1))->Some_0;
            assert(parse_grid(s)->Some_0 == seq![row] + rows);
            assert((seq![row] + rows).skip(1) =~= rows);
            assert(total_cells(seq![row] + rows) == row.len() + total_cells(rows));
        }
    }
}

/// Exactly when `val * 10 + d` leaves the machine word.
proof fn lemma_overflow_check(val: int, d: int)
    requires
        0 <= val,
        0 <= d <= 9,
    ensures
        (val > usize::MAX as int / 10 || (val == usize::MAX as int / 10 && d > usize::MAX as int
            % 10)) <==> val * 10 + d > usize::MAX,
{
    let m = usize::MAX as int;
    vstd::arithmetic::div_mod::lemma_fundamental_div_mod(m, 10);
    vstd::arithmetic::div_mod::lemma_mod_division_less_than_divisor(m, 10);
    assert((val > m / 10 || (val == m / 10 && d > m % 10)) <==> val * 10 + d
        > m) by (nonlinear_arith)
        requires
            m == 10 * (m / 10) + m % 10,
            0 <= m % 10 < 10,
            0 <= val,
            0 <= d <= 9,
    ;
}

/// One row of the text, from `start` up to `end` (exclusive).
fn parse_row(text: &Vec<u8>, start: usize, end: usize) -> (r: Result<Vec<usize>, WfcError>)
    requires
        start <= end <= text@.len(),
    ensures
        match r {
            Ok(row) => parse_line(text@.subrange(start as int, end as int)) == Some(row@),
            Err(e) => e == WfcError::Parse && parse_line(
                text@.subrange(start as int, end as int),
            ) is None,
        },
    decreases end - start,
{
    let ghost s = text@.subrange(start as int, end as int);
    let mut i: usize = start;
    let mut val: usize = 0;
    proof {
        assert(s.skip(0) =~= s);
        assert(s.take(0) =~= Seq::<u8>::empty());
    }
    while i < end && 48 <= text[i] && text[i] <= 57
        invariant
            start <= i <= end,
            end <= text@.len(),
            s == text@.subrange(start as int, end as int),
            digit_prefix_len(s) == i - start + digit_prefix_len(
                text@.subrange(i as int, end as int),
            ),
            forall|j: int| start <= j < i ==> is_digit(#[trigger] text@[j]),
            val as int == digits_value(text@.subrange(start as int, i as int)),
        decreases end - i,
    {
        let d = text[i] - 48;
        proof {
            lemma_overflow_check(val as int, d as int);
            assert(text@.subrange(i as int, end as int)[0] == text@[i as int]);
            assert(text@.subrange(i as int, end as int).skip(1) =~= text@.subrange(
                i as int + 1,
                end as int,
            ));
            assert(text@.subrange(start as int, i as int + 1).drop_last() =~= text@.subrange(
                start as int,
                i as int,
            ));
            assert(text@.subrange(start as int, i as int + 1).last() == text@[i as int]);
        }
        if val > usize::MAX / 10 || (val == usize::MAX / 10 && d as usize > usize::MAX % 10) {
            // the token's value has already left the machine word
            proof {
                let k = digit_prefix_len(s) as int;
                lemma_digit_prefix_le_len(s);
                assert(digit_prefix_len(text@.subrange(i as int, end as int)) >= 1);
                let m = i + 1 - start;
                assert(m <= k);
                assert(forall|j: int| 0 <= j < k ==> is_digit(#[trigger] s[j])) by {
                    lemma_digit_prefix_digits(s);
                }
                assert(s.take(k).take(m as int) =~= text@.subrange(start as int, i as int + 1));
                assert(forall|j: int| 0 <= j < s.take(k).len() ==> is_digit(#[trigger] s.take(k)[j]));
                lemma_digits_value_mono(s.take(k), m as int);
                assert(digits_value(s.take(k)) > usize::MAX);
            }
            return Err(WfcError::Parse);
        }
        val = val * 10 + (d as usize);
        i += 1;
    }
    proof {
        assert(digit_prefix_len(text@.subrange(i as int, end as int)) == 0);
        assert(digit_prefix_len(s) == i - start);
    }
    if i == start {
        // empty token: nothing to parse here
        return Err(WfcError::Parse);
    }
    proof {
        assert(s.take(i - start) =~= text@.subrange(start as int, i as int));
        lemma_digits_value_nonneg(text@.subrange(start as int, i as int));
    }
    if i == end {
        let mut row: Vec<usize> = Vec::new();
        row.push(val);
        proof {
            assert(row@ =~= seq![digits_value(s.take(i - start)) as usize]);
        }
        return Ok(row);
    }
    if text[i] != 32 {
        // neither a digit nor a cell separator
        return Err(WfcError::Parse);
    }
    proof {
        assert(s[i - start] == text@[i as int]);
        assert(s.skip(i - start + 1) =~= text@.subrange(i as int + 1, end as int));
    }
    match parse_row(text, i + 1, end) {
        Ok(mut rest) => {
            rest.insert(0, val);
            proof {
                assert(rest@ =~= seq![digits_value(s.take(i - start)) as usize] + parse_line(
                    s.skip(i - start + 1),
                )->Some_0);
            }
            Ok(rest)
        },
        Err(e) => Err(e),
    }
}

/// Every byte under the digit prefix is a digit.
pub proof fn lemma_digit_prefix_digits(s: Seq<u8>)
    ensures
        forall|j: int| 0 <= j < digit_prefix_len(s) ==> is_digit(#[trigger] s[j]),
    decreases s.len(),
{
    if s.len() > 0 && is_digit(s[0]) {
        lemma_digit_prefix_digits(s.skip(1));
        lemma_digit_prefix_le_len(s.skip(1));
        assert forall|j: int| 0 <= j < digit_prefix_len(s) implies is_digit(#[trigger] s[j]) by {
            if j > 0 {
                assert(0 <= j - 1 < digit_prefix_len(s.skip(1)));
                assert(is_digit(s.skip(1)[j - 1]));
                assert(s.skip(1)[j - 1] == s[j]);
            }
        }
    }
}

/// The grid encoded by the text from `base` on.
fn parse_grid_from(text: &Vec<u8>, base: usize) -> (r: Result<Vec<Vec<usize>>, WfcError>)
    requires
        base <= text@.len(),
    ensures
        match r {
            Ok(g) => parse_grid(text@.subrange(base as int, text@.len() as int)) == Some(
                g.deep_view(),
            ),
            Err(e) => e == WfcError::Parse && parse_grid(
                text@.subrange(base as int, text@.len() as int),
            ) is None,
        },
    decreases text@.len() - base,
{
    let n = text.len();
    let ghost s = text@.subrange(base as int, n as int);
    if base == n {
        let g: Vec<Vec<usize>> = Vec::new();
        proof {
            assert(g.deep_view() =~~= Seq::<Seq<usize>>::empty());
        }
        return Ok(g);
    }
    let mut e: usize = base;
    proof {
        assert(s.skip(0) =~= s);
    }
    while e < n && text[e] != 10
        invariant
            base <= e <= n,
            n == text@.len(),
            s == text@.subrange(base as int, n as int),
            line_end(s) == e - base + line_end(text@.subrange(e as int, n as int)),
        decreases n - e,
    {
        proof {
            assert(text@.subrange(e as int, n as int)[0] == text@[e as int]);
            assert(text@.subrange(e as int, n as int).skip(1) =~= text@.subrange(
                e as int + 1,
                n as int,
            ));
        }
        e += 1;
    }
    proof {
        assert(line_end(text@.subrange(e as int, n as int)) == 0);
        assert(line_end(s) == e - base);
        assert(s.take(e - base) =~= text@.subrange(base as int, e as int));
    }
    let mut ll = e;
    if ll > base && text[ll - 1] == 13 {
        ll -= 1;
    }
    proof {
        assert(text@.subrange(base as int, e as int).len() == e - base);
        if e > base && text@[e as int - 1] == 13 {
            assert(text@.subrange(base as int, e as int).last() == text@[e as int - 1]);
            assert(text@.subrange(base as int, e as int).drop_last() =~= text@.subrange(
                base as int,
                e as int - 1,
            ));
        }
        assert(strip_cr(s.take(e - base)) =~= text@.subrange(base as int, ll as int));
    }
    match parse_row(text, base, ll) {
        Err(err) => Err(err),
        Ok(row) => {
            if e == n {
                let mut g: Vec<Vec<usize>> = Vec::new();
                g.push(row);
                proof {
                    assert(g.deep_view() =~~= seq![row@]);
                }
                Ok(g)
            } else {
                proof {
                    assert(s.skip(e - base + 1) =~= text@.subrange(e as int + 1, n as int));
                }
                match parse_grid_from(text, e + 1) {
                    Err(err) => Err(err),
                    Ok(mut rest) => {
                        let ghost old_dv = rest.deep_view();
                        rest.insert(0, row);
                        proof {
                            assert(rest.deep_view() =~~= seq![row@] + old_dv);
                        }
                        Ok(rest)
                    },
                }
            }
        },
    }
}

/// Parse the sample text into a grid of tile-type ids.
pub fn parse_sample(text: &Vec<u8>) -> (r: Result<Vec<Vec<usize>>, WfcError>)
    ensures
        match r {
            Ok(g) => parse_grid(text@) == Some(g.deep_view()),
            Err(e) => e == WfcError::Parse && parse_grid(text@) is None,
        },
{
    proof {
        assert(text@.subrange(0, text@.len() as int) =~= text@);
    }
    parse_grid_from(text, 0)
}

} // verus!
