//! Formulas of the incremental engine: references, values, ranges, the
//! cells a formula reads, and the check of a formula before it is stored.

use vstd::prelude::*;
use crate::columns::{all_upper, get_col_index, spec_col_index};
use crate::formula::{
    cell_tokens, cell_tokens_exec, is_cell_text, is_cell_text_exec, parse_binary, range_call,
    range_call_exec, sleep_call, sleep_call_exec, spec_binary, upper_run, upper_run_exec, lemma_upper_run,
    lit_sleep_open, is_operator, lemma_binary_of_numbers, lemma_binary_cell_left, lemma_cell_token,
};
use crate::sheet::{Abort, CellRef, Grid, cell, grid, lemma_grid_cell, sheet_wf};
use crate::sheet::eval::{
    EvalCtx, EvalState, Scan, aggregate, aggregate_values, apply_op, apply_op_exec, memo_step,
    range_cell_count, scan_range, scan_rows, with_inval, with_sleep, lemma_cell_text_reads,
};
use crate::text::{
    chars_of, find_char, is_digit, is_digit_char, parse_i32, parse_trimmed_i32_range, slice_chars,
    spec_find_char, spec_parse_i32, split_at_char, split_char, starts_with, starts_with_lit, trimmed,
    lemma_find_from_props, all_digits, digits_value, is_upper, lemma_parse_digits,
};

verus! {

// ---------------------------------------------------------------------------
// References
// ---------------------------------------------------------------------------

/// The ASCII digits of `s`, in order.
pub open spec fn ascii_digits(s: Seq<char>) -> Seq<char>
    decreases s.len(),
{
    if s.len() == 0 {
        Seq::empty()
    } else if is_digit(s.last()) {
        ascii_digits(s.drop_last()).push(s.last())
    } else {
        ascii_digits(s.drop_last())
    }
}

/// `(row, column)`, 0-based, of a text that is one `cell` token: its letters
/// give the column, its ASCII digits the 1-based row.
pub open spec fn spec_parse_cell_ref(s: Seq<char>) -> Option<(i32, i32)> {
    if !is_cell_text(s) {
        None
    } else {
        match spec_parse_i32(ascii_digits(s)) {
            None => None,
            Some(row) => {
                let ci = spec_col_index(s.subrange(0, upper_run(s, 0)));
                if ci >= 0 {
                    Some(((row - 1) as i32, ci))
                } else {
                    None
                }
            },
        }
    }
}

fn ascii_digits_exec(s: &Vec<char>) -> (d: Vec<char>)
    ensures
        d@ == ascii_digits(s@),
{
    let mut d: Vec<char> = Vec::new();
    let mut i: usize = 0;
    while i < s.len()
        invariant
            i <= s.len(),
            d@ == ascii_digits(s@.take(i as int)),
        decreases s.len() - i,
    {
        assert(s@.take(i + 1).drop_last() == s@.take(i as int));
        if is_digit_char(s[i]) {
            d.push(s[i]);
        }
        i += 1;
    }
    assert(s@.take(s.len() as int) == s@);
    d
}

/// Parses a reference such as `B3` into `(row, column)`, 0-based (see
/// `spec_parse_cell_ref`).
pub fn parse_cell_ref(s: &Vec<char>) -> (r: Option<(i32, i32)>)
    ensures
        r == spec_parse_cell_ref(s@),
{
    if !is_cell_text_exec(s) {
        return None;
    }
    let digits = ascii_digits_exec(s);
    match parse_i32(&digits) {
        None => None,
        Some(row) => {
            proof {
                lemma_upper_run(s@, 0);
            }
            let u = upper_run_exec(s, 0);
            let col = slice_chars(s, 0, u);
            let ci = get_col_index(&col);
            if ci >= 0 {
                proof {
                    assert(row >= 0) by {
                        lemma_ascii_digits_all(s@);
                        lemma_digits_nonneg(digits@);
                    }
                }
                Some((row - 1, ci))
            } else {
                None
            }
        },
    }
}

proof fn lemma_ascii_digits_all(s: Seq<char>)
    ensures
        forall|k: int| 0 <= k < ascii_digits(s).len() ==> is_digit(#[trigger] ascii_digits(s)[k]),
    decreases s.len(),
{
    if s.len() > 0 {
        lemma_ascii_digits_all(s.drop_last());
        let p = ascii_digits(s.drop_last());
        if is_digit(s.last()) {
            assert forall|k: int| 0 <= k < p.push(s.last()).len() implies is_digit(#[trigger] p.push(s.last())[k]) by {
                if k < p.len() {
                    assert(p.push(s.last())[k] == p[k]);
                }
            }
        }
    }
}

/// A text of ASCII digits never reads as a negative number.
proof fn lemma_digits_nonneg(d: Seq<char>)
    requires
        forall|k: int| 0 <= k < d.len() ==> is_digit(#[trigger] d[k]),
    ensures
        spec_parse_i32(d) matches Some(v) ==> v >= 0,
{
    if d.len() > 0 {
        assert(is_digit(d[0]));
    }
}

/// The value of a reference or a number: `(value, error)`.
pub open spec fn spec_value_from_formula(f: Seq<char>, r: int, c: int, g: Grid) -> (i32, bool) {
    match spec_parse_cell_ref(f) {
        Some((row, col)) => if col < 0 || col >= c || row < 0 || row >= r {
            (0, true)
        } else if g[row as int][col as int].err != 0 {
            (0, true)
        } else {
            (g[row as int][col as int].val, false)
        },
        None => match spec_parse_i32(trimmed(f)) {
            Some(v) => (v, false),
            None => (0, true),
        },
    }
}

/// The value of a reference (the cell's value; an error for a cell outside
/// the sheet or in error) or of a number; sets `error_flag` on an error.
pub fn get_value_from_formula(
    formula: &Vec<char>,
    r: i32,
    c: i32,
    sheet: &Vec<Vec<cell>>,
    error_flag: &mut i32,
) -> (v: i32)
    requires
        sheet_wf(sheet@, r as int, c as int),
    ensures
        v == spec_value_from_formula(formula@, r as int, c as int, grid(sheet@)).0,
        *final(error_flag) == if spec_value_from_formula(formula@, r as int, c as int, grid(sheet@)).1 {
            1
        } else {
            *old(error_flag)
        },
{
    match parse_cell_ref(formula) {
        Some((row, col)) => {
            if col < 0 || col >= c || row < 0 || row >= r {
                *error_flag = 1;
                return 0;
            }
            proof {
                lemma_grid_cell(sheet@, r as int, c as int, row as int, col as int);
            }
            let x = &sheet[row as usize][col as usize];
            if x.err != 0 {
                *error_flag = 1;
                return 0;
            }
            x.val
        },
        None => {
            assert(formula@.subrange(0, formula@.len() as int) == formula@);
            match parse_trimmed_i32_range(formula, 0, formula.len()) {
                Some(v) => v,
                None => {
                    *error_flag = 1;
                    0
                },
            }
        },
    }
}

// ---------------------------------------------------------------------------
// Ranges
// ---------------------------------------------------------------------------

/// `(start row, end row, start column, end column)` of `<cell>:<cell>`;
/// `None` when it is not two references or runs backwards.
pub open spec fn spec_parse_range(range: Seq<char>) -> Option<(i32, i32, i32, i32)> {
    let parts = split_char(range, ':');
    if parts.len() == 2 {
        match (spec_parse_cell_ref(parts[0]), spec_parse_cell_ref(parts[1])) {
            (Some((sr, sc)), Some((er, ec))) => if sr > er || sc > ec {
                None
            } else {
                Some((sr, er, sc, ec))
            },
            _ => None,
        }
    } else {
        None
    }
}

/// Parses a range `<cell>:<cell>` (see `spec_parse_range`).
pub fn parse_range(range: &Vec<char>) -> (r: Option<(i32, i32, i32, i32)>)
    ensures
        r == spec_parse_range(range@),
        r matches Some((sr, er, sc, ec)) ==> sr <= er && sc <= ec,
{
    let parts = split_at_char(range, ':');
    let ghost pv = parts@.map_values(|x: Vec<char>| x@);
    if parts.len() != 2 {
        return None;
    }
    assert(pv[0] == parts[0]@ && pv[1] == parts[1]@);
    match (parse_cell_ref(&parts[0]), parse_cell_ref(&parts[1])) {
        (Some((sr, sc)), Some((er, ec))) => {
            if sr > er || sc > ec {
                None
            } else {
                Some((sr, er, sc, ec))
            }
        },
        _ => None,
    }
}

/// A range function over a range: `(value, error)` and the state after it.
/// A range that cannot be read raises the invalid-range flag.
pub open spec fn spec_eval_range(range: Seq<char>, r: int, c: int, g: Grid, func: Seq<char>, st: EvalState) -> (
    Result<(i32, bool), Abort>,
    EvalState,
) {
    match spec_parse_range(range) {
        None => (Ok((0, false)), with_inval(st)),
        Some((sr, er, sc, ec)) => if range_cell_count(sr, er, sc, ec) < 0 {
            (Err(Abort::CapacityOverflow), st)
        } else {
            match scan_rows(g, r, c, sr as int, er as int, sc as int, ec as int, Seq::empty()) {
                Scan::Crash => (Err(Abort::IndexBounds), st),
                Scan::ErrCell => (Ok((0, true)), st),
                Scan::Done(vs) => (Ok((aggregate(func, vs), false)), st),
            }
        },
    }
}

/// Evaluates `func` over a range; a cell in error makes the result an
/// error (`error_flag`), a range that cannot be read raises `inval_r`.
pub fn evaluate_range(
    range: &Vec<char>,
    r: i32,
    c: i32,
    sheet: &Vec<Vec<cell>>,
    func: &Vec<char>,
    error_flag: &mut i32,
    ctx: &mut EvalCtx,
) -> (res: Result<i32, Abort>)
    requires
        sheet_wf(sheet@, r as int, c as int),
    ensures
        final(ctx)@ == spec_eval_range(range@, r as int, c as int, grid(sheet@), func@, old(ctx)@).1,
        match spec_eval_range(range@, r as int, c as int, grid(sheet@), func@, old(ctx)@).0 {
            Ok((v, e)) => res == Ok::<i32, Abort>(v) && *final(error_flag) == if e {
                1
            } else {
                *old(error_flag)
            },
            Err(a) => res == Err::<i32, Abort>(a),
        },
{
    let (sr, er, sc, ec) = match parse_range(range) {
        None => {
            ctx.inval_r = true;
            return Ok(0);
        },
        Some(t) => t,
    };
    let total = er.wrapping_sub(sr).wrapping_add(1).wrapping_mul(ec.wrapping_sub(sc).wrapping_add(1));
    if total < 0 {
        return Err(Abort::CapacityOverflow);
    }
    match scan_range(r, c, sheet, sr, er, sc, ec)? {
        None => {
            *error_flag = 1;
            Ok(0)
        },
        Some(values) => Ok(aggregate_values(func, &values)),
    }
}

// ---------------------------------------------------------------------------
// Formulas
// ---------------------------------------------------------------------------

/// The value of a formula `(value, error)` and the state after it: a range
/// function, then `SLEEP`, then arithmetic on two operands, then a number,
/// then a single reference; anything else is an error.
pub open spec fn spec_eval(f: Seq<char>, r: int, c: int, g: Grid, st: EvalState) -> (Result<(i32, bool), Abort>, EvalState) {
    match range_call(f) {
        Some((func, range)) => spec_eval_range(range, r, c, g, func, st),
        None => match sleep_call(f) {
            Some(inner) => match spec_parse_i32(trimmed(inner)) {
                Some(v) => (Ok((v, false)), with_sleep(st, v)),
                None => match spec_parse_cell_ref(inner) {
                    Some((row, col)) => if 0 <= row < r && 0 <= col < c {
                        if g[row as int][col as int].err != 0 {
                            (Ok((0, true)), st)
                        } else {
                            let v = g[row as int][col as int].val;
                            (Ok((v, false)), memo_step(st, f, v))
                        }
                    } else {
                        (Ok((0, true)), st)
                    },
                    None => (Ok((0, true)), st),
                },
            },
            None => (spec_eval_plain(f, r, c, g), st),
        },
    }
}

/// The value of an operand: a number, or else a reference or number read by
/// `spec_value_from_formula`.
pub open spec fn operand_value(tok: Seq<char>, r: int, c: int, g: Grid) -> (i32, bool) {
    match spec_parse_i32(tok) {
        Some(v) => (v, false),
        None => spec_value_from_formula(tok, r, c, g),
    }
}

/// Arithmetic, numbers and single references.
pub open spec fn spec_eval_plain(f: Seq<char>, r: int, c: int, g: Grid) -> Result<(i32, bool), Abort> {
    match spec_binary(f) {
        Some((a, e1, op, b, e2)) => {
            let (lv, le) = operand_value(f.subrange(a, e1), r, c, g);
            let (rv, re) = operand_value(f.subrange(b, e2), r, c, g);
            if le || re {
                Ok((0, true))
            } else {
                apply_op(op, lv, rv)
            }
        },
        None => match spec_parse_i32(trimmed(f)) {
            Some(v) => Ok((v, false)),
            None => match spec_parse_cell_ref(f) {
                Some((row, col)) => if 0 <= row < r && 0 <= col < c {
                    if g[row as int][col as int].err != 0 {
                        Ok((0, true))
                    } else {
                        Ok((g[row as int][col as int].val, false))
                    }
                } else {
                    Ok((0, true))
                },
                None => Ok((0, true)),
            },
        },
    }
}

fn operand_value_exec(f: &Vec<char>, lo: usize, hi: usize, r: i32, c: i32, sheet: &Vec<Vec<cell>>) -> (res: (i32, bool))
    requires
        lo <= hi <= f.len(),
        sheet_wf(sheet@, r as int, c as int),
    ensures
        res == operand_value(f@.subrange(lo as int, hi as int), r as int, c as int, grid(sheet@)),
{
    let tok = slice_chars(f, lo, hi);
    match parse_i32(&tok) {
        Some(v) => (v, false),
        None => {
            let mut e: i32 = 0;
            let v = get_value_from_formula(&tok, r, c, sheet, &mut e);
            (v, e != 0)
        },
    }
}

fn cell_value_or_error(r: i32, c: i32, sheet: &Vec<Vec<cell>>, row: i32, col: i32) -> (res: (i32, bool))
    requires
        sheet_wf(sheet@, r as int, c as int),
    ensures
        res == if 0 <= row < r && 0 <= col < c {
            if grid(sheet@)[row as int][col as int].err != 0 {
                (0i32, true)
            } else {
                (grid(sheet@)[row as int][col as int].val, false)
            }
        } else {
            (0i32, true)
        },
{
    if 0 <= row && row < r && 0 <= col && col < c {
        proof {
            lemma_grid_cell(sheet@, r as int, c as int, row as int, col as int);
        }
        let x = &sheet[row as usize][col as usize];
        if x.err != 0 {
            (0, true)
        } else {
            (x.val, false)
        }
    } else {
        (0, true)
    }
}

fn eval_plain(f: &Vec<char>, r: i32, c: i32, sheet: &Vec<Vec<cell>>) -> (res: Result<(i32, bool), Abort>)
    requires
        sheet_wf(sheet@, r as int, c as int),
    ensures
        res == spec_eval_plain(f@, r as int, c as int, grid(sheet@)),
{
    match parse_binary(f) {
        Some(p) => {
            let (lv, le) = operand_value_exec(f, p.left_start, p.left_end, r, c, sheet);
            let (rv, re) = operand_value_exec(f, p.right_start, p.right_end, r, c, sheet);
            if le || re {
                return Ok((0, true));
            }
            apply_op_exec(p.op, lv, rv)
        },
        None => {
            assert(f@.subrange(0, f@.len() as int) == f@);
            match parse_trimmed_i32_range(f, 0, f.len()) {
                Some(v) => Ok((v, false)),
                None => match parse_cell_ref(f) {
                    Some((row, col)) => Ok(cell_value_or_error(r, c, sheet, row, col)),
                    None => Ok((0, true)),
                },
            }
        },
    }
}

/// Evaluates a formula (see `spec_eval`); `error_flag` becomes 1 when the
/// value is an error. Sleeps are recorded in `ctx` rather than taken.
pub fn evaluate_formula(
    formula: &Vec<char>,
    r: i32,
    c: i32,
    sheet: &Vec<Vec<cell>>,
    error_flag: &mut i32,
    ctx: &mut EvalCtx,
) -> (res: Result<i32, Abort>)
    requires
        sheet_wf(sheet@, r as int, c as int),
    ensures
        final(ctx)@ == spec_eval(formula@, r as int, c as int, grid(sheet@), old(ctx)@).1,
        match spec_eval(formula@, r as int, c as int, grid(sheet@), old(ctx)@).0 {
            Ok((v, e)) => res == Ok::<i32, Abort>(v) && *final(error_flag) == if e {
                1
            } else {
                *old(error_flag)
            },
            Err(a) => res == Err::<i32, Abort>(a),
        },
{
    match range_call_exec(formula) {
        Some((func, range)) => {
            return evaluate_range(&range, r, c, sheet, &func, error_flag, ctx);
        },
        None => {},
    }
    let out: Result<(i32, bool), Abort> = match sleep_call_exec(formula) {
        Some(inner) => {
            assert(inner@.subrange(0, inner@.len() as int) == inner@);
            match parse_trimmed_i32_range(&inner, 0, inner.len()) {
                Some(v) => {
                    ctx.sleeps.push(v);
                    Ok((v, false))
                },
                None => match parse_cell_ref(&inner) {
                    Some((row, col)) => {
                        let (v, e) = cell_value_or_error(r, c, sheet, row, col);
                        if !e {
                            crate::sheet::eval::memo_sleep(ctx, formula, v);
                        }
                        Ok((v, e))
                    },
                    None => Ok((0, true)),
                },
            }
        },
        None => eval_plain(formula, r, c, sheet),
    };
    match out {
        Ok((v, e)) => {
            if e {
                *error_flag = 1;
            }
            Ok(v)
        },
        Err(a) => Err(a),
    }
}

// ---------------------------------------------------------------------------
// The cells a formula reads
// ---------------------------------------------------------------------------

pub open spec fn in_sheet(row: int, col: int, r: int, c: int) -> bool {
    0 <= row < r && 0 <= col < c
}

/// The cells of row `i`, columns `j..=ec`, that lie in the sheet.
pub open spec fn range_row_cells(i: int, j: int, ec: int, r: int, c: int) -> Seq<CellRef>
    decreases ec + 1 - j,
{
    if j > ec {
        Seq::empty()
    } else {
        (if in_sheet(i, j, r, c) {
            seq![CellRef { row: i as i32, col: j as i32 }]
        } else {
            Seq::empty()
        }) + range_row_cells(i, j + 1, ec, r, c)
    }
}

/// The cells of rows `i..=er`, columns `sc..=ec`, that lie in the sheet, row
/// by row.
pub open spec fn range_cells(i: int, er: int, sc: int, ec: int, r: int, c: int) -> Seq<CellRef>
    decreases er + 1 - i,
{
    if i > er {
        Seq::empty()
    } else {
        range_row_cells(i, sc, ec, r, c) + range_cells(i + 1, er, sc, ec, r, c)
    }
}

/// The cells named by the tokens that lie in the sheet, in order.
pub open spec fn token_cells(toks: Seq<Seq<char>>, r: int, c: int) -> Seq<CellRef>
    decreases toks.len(),
{
    if toks.len() == 0 {
        Seq::empty()
    } else {
        token_cells(toks.drop_last(), r, c) + match spec_parse_cell_ref(toks.last()) {
            Some((row, col)) => if in_sheet(row as int, col as int, r, c) {
                seq![CellRef { row, col }]
            } else {
                Seq::empty()
            },
            None => Seq::empty(),
        }
    }
}

/// The reference inside `SLEEP(...)`, read from the text between `SLEEP(`
/// and the closing bracket.
pub open spec fn sleep_ref(f: Seq<char>) -> Option<(i32, i32)> {
    if starts_with(f, lit_sleep_open()) && f.len() >= 7 && f.last() == ')' {
        spec_parse_cell_ref(f.subrange(6, f.len() - 1))
    } else {
        None
    }
}

/// The first `(` and the first `)` of a text holding `(`, `:` and `)`.
pub open spec fn paren_span(f: Seq<char>) -> Option<(int, int)> {
    if spec_find_char(f, '(') is Some && spec_find_char(f, ':') is Some && spec_find_char(f, ')') is Some {
        Some((spec_find_char(f, '(')->Some_0, spec_find_char(f, ')')->Some_0))
    } else {
        None
    }
}

/// The range `(start, end)` of the `<cell>:<cell>` between the brackets, when
/// both sides are references.
pub open spec fn bracket_range(f: Seq<char>, open: int, close: int) -> Option<((i32, i32), (i32, i32))> {
    let parts = split_char(f.subrange(open + 1, close), ':');
    if parts.len() == 2 {
        match (spec_parse_cell_ref(parts[0]), spec_parse_cell_ref(parts[1])) {
            (Some(a), Some(b)) => Some((a, b)),
            _ => None,
        }
    } else {
        None
    }
}

/// The cells a formula reads that lie in the sheet: those of its range, of
/// its `SLEEP` reference, or of every reference in it.
pub open spec fn spec_get_dependencies(f: Seq<char>, r: int, c: int) -> Result<Seq<CellRef>, Abort> {
    match paren_span(f) {
        Some((open, close)) => if close < open + 1 {
            Err(Abort::SliceBounds)
        } else {
            match bracket_range(f, open, close) {
                Some(((sr, sc), (er, ec))) => Ok(range_cells(sr as int, er as int, sc as int, ec as int, r, c)),
                None => Ok(Seq::empty()),
            }
        },
        None => match sleep_ref(f) {
            Some((row, col)) => Ok(
                if in_sheet(row as int, col as int, r, c) {
                    seq![CellRef { row, col }]
                } else {
                    Seq::empty()
                },
            ),
            None => Ok(token_cells(cell_tokens(f, 0), r, c)),
        },
    }
}

fn paren_span_exec(f: &Vec<char>) -> (res: Option<(usize, usize)>)
    ensures
        match res {
            Some((o, cl)) => paren_span(f@) == Some((o as int, cl as int)) && o < f.len() && cl < f.len(),
            None => paren_span(f@) is None,
        },
{
    let o = find_char(f, '(');
    let colon = find_char(f, ':');
    let cl = find_char(f, ')');
    match (o, colon, cl) {
        (Some(a), Some(_), Some(b)) => {
            proof {
                lemma_find_from_props(f@, seq!['('], 0);
                lemma_find_from_props(f@, seq![')'], 0);
            }
            Some((a, b))
        },
        _ => None,
    }
}

fn bracket_range_exec(f: &Vec<char>, open: usize, close: usize) -> (res: Option<((i32, i32), (i32, i32))>)
    requires
        open + 1 <= close <= f.len(),
    ensures
        res == bracket_range(f@, open as int, close as int),
{
    let inner = slice_chars(f, open + 1, close);
    let parts = split_at_char(&inner, ':');
    let ghost pv = parts@.map_values(|x: Vec<char>| x@);
    if parts.len() != 2 {
        return None;
    }
    assert(pv[0] == parts[0]@ && pv[1] == parts[1]@);
    match (parse_cell_ref(&parts[0]), parse_cell_ref(&parts[1])) {
        (Some(a), Some(b)) => Some((a, b)),
        _ => None,
    }
}

fn push_range_cells(out: &mut Vec<CellRef>, sr: i32, er: i32, sc: i32, ec: i32, r: i32, c: i32)
    ensures
        final(out)@ == old(out)@ + range_cells(sr as int, er as int, sc as int, ec as int, r as int, c as int),
{
    let mut i: i64 = sr as i64;
    if (er as i64) < i {
        return;
    }
    while i <= er as i64
        invariant
            sr <= i <= er as int + 1,
            out@ + range_cells(i as int, er as int, sc as int, ec as int, r as int, c as int) == old(out)@
                + range_cells(sr as int, er as int, sc as int, ec as int, r as int, c as int),
        decreases er as int + 1 - i,
    {
        let ghost row_start = out@;
        let mut j: i64 = sc as i64;
        if (ec as i64) >= j {
            while j <= ec as i64
                invariant
                    sr <= i <= er,
                    sc <= j <= ec as int + 1,
                    out@ + range_row_cells(i as int, j as int, ec as int, r as int, c as int) == row_start
                        + range_row_cells(i as int, sc as int, ec as int, r as int, c as int),
                decreases ec as int + 1 - j,
            {
                let ghost before = out@;
                if 0 <= i && i < r as i64 && 0 <= j && j < c as i64 {
                    out.push(CellRef { row: i as i32, col: j as i32 });
                }
                assert(out@ + range_row_cells(i as int, j + 1, ec as int, r as int, c as int) =~= before
                    + range_row_cells(i as int, j as int, ec as int, r as int, c as int));
                j += 1;
            }
        }
        assert(range_row_cells(i as int, j as int, ec as int, r as int, c as int) =~= Seq::<CellRef>::empty());
        assert(out@ + range_cells(i + 1, er as int, sc as int, ec as int, r as int, c as int) =~= row_start
            + range_cells(i as int, er as int, sc as int, ec as int, r as int, c as int));
        i += 1;
    }
    assert(range_cells(i as int, er as int, sc as int, ec as int, r as int, c as int) =~= Seq::<CellRef>::empty());
    assert(out@ =~= out@ + Seq::<CellRef>::empty());
}

fn sleep_ref_exec(f: &Vec<char>) -> (res: Option<(i32, i32)>)
    ensures
        res == sleep_ref(f@),
{
    let open = ['S', 'L', 'E', 'E', 'P', '('];
    assert(open@ =~= lit_sleep_open());
    if starts_with_lit(f, &open) && f.len() >= 7 && f[f.len() - 1] == ')' {
        let inner = slice_chars(f, 6, f.len() - 1);
        parse_cell_ref(&inner)
    } else {
        None
    }
}

/// The cells a formula reads (see `spec_get_dependencies`).
pub fn get_dependencies(formula: &Vec<char>, r: i32, c: i32) -> (res: Result<Vec<CellRef>, Abort>)
    ensures
        match spec_get_dependencies(formula@, r as int, c as int) {
            Ok(v) => res is Ok && res->Ok_0@ == v,
            Err(a) => res == Err::<Vec<CellRef>, Abort>(a),
        },
{
    let mut deps: Vec<CellRef> = Vec::new();
    match paren_span_exec(formula) {
        Some((open, close)) => {
            if close < open + 1 {
                return Err(Abort::SliceBounds);
            }
            match bracket_range_exec(formula, open, close) {
                Some(((sr, sc), (er, ec))) => {
                    push_range_cells(&mut deps, sr, er, sc, ec, r, c);
                    assert(deps@ =~= range_cells(sr as int, er as int, sc as int, ec as int, r as int, c as int));
                },
                None => {},
            }
            return Ok(deps);
        },
        None => {},
    }
    match sleep_ref_exec(formula) {
        Some((row, col)) => {
            if 0 <= row && row < r && 0 <= col && col < c {
                deps.push(CellRef { row, col });
            }
            return Ok(deps);
        },
        None => {},
    }
    let toks = cell_tokens_exec(formula);
    let ghost tv = toks@.map_values(|x: Vec<char>| x@);
    let mut k: usize = 0;
    while k < toks.len()
        invariant
            k <= toks.len(),
            tv == toks@.map_values(|x: Vec<char>| x@),
            deps@ == token_cells(tv.take(k as int), r as int, c as int),
        decreases toks.len() - k,
    {
        assert(tv.take(k + 1).drop_last() == tv.take(k as int));
        assert(tv.take(k + 1).last() == toks[k as int]@);
        match parse_cell_ref(&toks[k]) {
            Some((row, col)) => {
                if 0 <= row && row < r && 0 <= col && col < c {
                    deps.push(CellRef { row, col });
                }
            },
            None => {},
        }
        k += 1;
    }
    assert(tv.take(toks.len() as int) == tv);
    Ok(deps)
}

// ---------------------------------------------------------------------------
// Checks before a formula is stored
// ---------------------------------------------------------------------------

/// 1 when the formula's range runs backwards or holds the cell `(row, col)`
/// the formula is for, else 0.
pub open spec fn spec_check_invalid_range(f: Seq<char>, row: i32, col: i32) -> Result<i32, Abort> {
    match paren_span(f) {
        None => Ok(0),
        Some((open, close)) => if close < open + 1 {
            Err(Abort::SliceBounds)
        } else {
            match bracket_range(f, open, close) {
                Some(((sr, sc), (er, ec))) => if sc > ec || sr > er {
                    Ok(1)
                } else if sr <= row <= er && sc <= col <= ec {
                    Ok(1)
                } else {
                    Ok(0)
                },
                None => Ok(0),
            }
        },
    }
}

/// Checks the range of a formula for cell `(current_row, current_col)`
/// (see `spec_check_invalid_range`).
pub fn check_invalid_range(formula: &Vec<char>, current_row: i32, current_col: i32) -> (res: Result<i32, Abort>)
    ensures
        res == spec_check_invalid_range(formula@, current_row, current_col),
{
    match paren_span_exec(formula) {
        None => Ok(0),
        Some((open, close)) => {
            if close < open + 1 {
                return Err(Abort::SliceBounds);
            }
            match bracket_range_exec(formula, open, close) {
                Some(((sr, sc), (er, ec))) => {
                    if sc > ec || sr > er {
                        Ok(1)
                    } else if current_row >= sr && current_row <= er && current_col >= sc && current_col <= ec {
                        Ok(1)
                    } else {
                        Ok(0)
                    }
                },
                None => Ok(0),
            }
        },
    }
}

/// The shapes of formula the engine stores: arithmetic on two operands, a
/// range function, `SLEEP`, a single reference, or a number.
pub open spec fn spec_is_valid_formula(f: Seq<char>) -> bool {
    ||| spec_binary(f) is Some
    ||| range_call(f) is Some
    ||| sleep_call(f) is Some
    ||| is_cell_text(f)
    ||| spec_parse_i32(trimmed(f)) is Some
}

/// Whether a formula has one of the accepted shapes (see
/// `spec_is_valid_formula`).
pub fn is_valid_formula(formula: &Vec<char>) -> (b: bool)
    ensures
        b == spec_is_valid_formula(formula@),
{
    if parse_binary(formula).is_some() {
        return true;
    }
    if range_call_exec(formula).is_some() {
        return true;
    }
    if sleep_call_exec(formula).is_some() {
        return true;
    }
    if is_cell_text_exec(formula) {
        return true;
    }
    assert(formula@.subrange(0, formula@.len() as int) == formula@);
    parse_trimmed_i32_range(formula, 0, formula.len()).is_some()
}

proof fn lemma_range_row_cells_in(i: int, j: int, ec: int, r: int, c: int)
    requires
        r <= i32::MAX,
        c <= i32::MAX,
    ensures
        forall|k: int| 0 <= k < range_row_cells(i, j, ec, r, c).len() ==> in_sheet(
            (#[trigger] range_row_cells(i, j, ec, r, c)[k]).row as int,
            range_row_cells(i, j, ec, r, c)[k].col as int,
            r,
            c,
        ),
    decreases ec + 1 - j,
{
    if j <= ec {
        lemma_range_row_cells_in(i, j + 1, ec, r, c);
        let head: Seq<CellRef> = if in_sheet(i, j, r, c) {
            seq![CellRef { row: i as i32, col: j as i32 }]
        } else {
            Seq::empty()
        };
        let rest = range_row_cells(i, j + 1, ec, r, c);
        assert forall|k: int| 0 <= k < (head + rest).len() implies in_sheet(
            (#[trigger] (head + rest)[k]).row as int,
            (head + rest)[k].col as int,
            r,
            c,
        ) by {
            if k >= head.len() {
                assert((head + rest)[k] == rest[k - head.len()]);
            } else {
                assert((head + rest)[k] == head[k]);
            }
        }
    }
}

proof fn lemma_range_cells_in(i: int, er: int, sc: int, ec: int, r: int, c: int)
    requires
        r <= i32::MAX,
        c <= i32::MAX,
    ensures
        forall|k: int| 0 <= k < range_cells(i, er, sc, ec, r, c).len() ==> in_sheet(
            (#[trigger] range_cells(i, er, sc, ec, r, c)[k]).row as int,
            range_cells(i, er, sc, ec, r, c)[k].col as int,
            r,
            c,
        ),
    decreases er + 1 - i,
{
    if i <= er {
        lemma_range_cells_in(i + 1, er, sc, ec, r, c);
        lemma_range_row_cells_in(i, sc, ec, r, c);
        let a = range_row_cells(i, sc, ec, r, c);
        let b = range_cells(i + 1, er, sc, ec, r, c);
        assert forall|k: int| 0 <= k < (a + b).len() implies in_sheet(
            (#[trigger] (a + b)[k]).row as int,
            (a + b)[k].col as int,
            r,
            c,
        ) by {
            if k >= a.len() {
                assert((a + b)[k] == b[k - a.len()]);
            } else {
                assert((a + b)[k] == a[k]);
            }
        }
    }
}

proof fn lemma_token_cells_in(toks: Seq<Seq<char>>, r: int, c: int)
    ensures
        forall|k: int| 0 <= k < token_cells(toks, r, c).len() ==> in_sheet(
            (#[trigger] token_cells(toks, r, c)[k]).row as int,
            token_cells(toks, r, c)[k].col as int,
            r,
            c,
        ),
    decreases toks.len(),
{
    if toks.len() > 0 {
        lemma_token_cells_in(toks.drop_last(), r, c);
        let a = token_cells(toks.drop_last(), r, c);
        let b: Seq<CellRef> = match spec_parse_cell_ref(toks.last()) {
            Some((row, col)) => if in_sheet(row as int, col as int, r, c) {
                seq![CellRef { row, col }]
            } else {
                Seq::empty()
            },
            None => Seq::empty(),
        };
        assert forall|k: int| 0 <= k < (a + b).len() implies in_sheet(
            (#[trigger] (a + b)[k]).row as int,
            (a + b)[k].col as int,
            r,
            c,
        ) by {
            if k >= a.len() {
                assert((a + b)[k] == b[k - a.len()]);
            } else {
                assert((a + b)[k] == a[k]);
            }
        }
    }
}

/// Every cell a formula reads, as `spec_get_dependencies` lists them, lies
/// in the sheet.
pub proof fn lemma_dependencies_in_sheet(f: Seq<char>, r: int, c: int)
    requires
        r <= i32::MAX,
        c <= i32::MAX,
        spec_get_dependencies(f, r, c) is Ok,
    ensures
        forall|k: int| 0 <= k < spec_get_dependencies(f, r, c)->Ok_0.len() ==> in_sheet(
            (#[trigger] spec_get_dependencies(f, r, c)->Ok_0[k]).row as int,
            spec_get_dependencies(f, r, c)->Ok_0[k].col as int,
            r,
            c,
        ),
{
    match paren_span(f) {
        Some((open, close)) => {
            match bracket_range(f, open, close) {
                Some(((sr, sc), (er, ec))) => {
                    lemma_range_cells_in(sr as int, er as int, sc as int, ec as int, r, c);
                },
                None => {},
            }
        },
        None => match sleep_ref(f) {
            Some(_) => {},
            None => {
                lemma_token_cells_in(cell_tokens(f, 0), r, c);
            },
        },
    }
}


/// Law: in this engine too, `a op b`, two numbers written in decimal around
/// an operator, evaluates without error to `a + b`, `a - b` or `a * b` (when the result
/// fits in `i32`), or for `b > 0` to `a / b` rounded toward zero, the left
/// number first; `a / 0` is an error.
pub proof fn law_arithmetic_on_numbers(d1: Seq<char>, op: char, d2: Seq<char>, r: int, c: int, g: Grid)
    requires
        d1.len() > 0,
        d2.len() > 0,
        all_digits(d1),
        all_digits(d2),
        digits_value(d1) <= i32::MAX,
        digits_value(d2) <= i32::MAX,
        is_operator(op),
    ensures
        ({
            let f = d1 + seq![op] + d2;
            let a = digits_value(d1) as int;
            let b = digits_value(d2) as int;
            &&& op == '+' && a + b <= i32::MAX ==> spec_eval_plain(f, r, c, g) == Ok::<(i32, bool), Abort>(
                ((a + b) as i32, false),
            )
            &&& op == '-' ==> spec_eval_plain(f, r, c, g) == Ok::<(i32, bool), Abort>(((a - b) as i32, false))
            &&& op == '*' && a * b <= i32::MAX ==> spec_eval_plain(f, r, c, g) == Ok::<(i32, bool), Abort>(
                ((a * b) as i32, false),
            )
            &&& op == '/' && b > 0 ==> spec_eval_plain(f, r, c, g) == Ok::<(i32, bool), Abort>(
                ((a / b) as i32, false),
            )
            &&& op == '/' && b == 0 ==> spec_eval_plain(f, r, c, g) == Ok::<(i32, bool), Abort>((0i32, true))
        }),
{
    let f = d1 + seq![op] + d2;
    let a = digits_value(d1) as int;
    let b = digits_value(d2) as int;
    lemma_binary_of_numbers(d1, op, d2);
    lemma_parse_digits(d1);
    lemma_parse_digits(d2);
    assert(operand_value(d1, r, c, g) == (a as i32, false));
    assert(operand_value(d2, r, c, g) == (b as i32, false));
    if op == '*' && a * b <= i32::MAX {
        assert(0 <= a * b) by (nonlinear_arith)
            requires
                0 <= a,
                0 <= b,
        ;
        assert((a * b) % 4294967296 == a * b);
    }
    if op == '/' && b > 0 {
        assert(0 <= a / b <= a) by (nonlinear_arith)
            requires
                0 <= a,
                0 < b,
        ;
    }
}


proof fn lemma_ascii_digits_cell(col: Seq<char>, d: Seq<char>, k: int)
    requires
        0 <= k <= d.len(),
        all_upper(col),
        all_digits(d),
    ensures
        ascii_digits(col + d.take(k)) == d.take(k),
    decreases col.len() + k,
{
    if k == 0 {
        assert(col + d.take(0) =~= col);
        if col.len() > 0 {
            assert(!is_digit(col.last()) && is_upper(col[col.len() - 1]));
            lemma_ascii_digits_cell(col.drop_last(), d, 0);
            assert(col.drop_last() + d.take(0) =~= col.drop_last());
        }
    } else {
        lemma_ascii_digits_cell(col, d, k - 1);
        assert((col + d.take(k)).drop_last() =~= col + d.take(k - 1));
        assert(d.take(k - 1).push(d[k - 1]) =~= d.take(k));
        assert(is_digit(d[k - 1]));
    }
}

/// Upper-case letters then ASCII digits read, in this engine, as the cell
/// with that column and that row, and not as a number.
proof fn lemma_cell_ref_reads(col: Seq<char>, d: Seq<char>)
    requires
        col.len() > 0,
        all_upper(col),
        d.len() > 0,
        all_digits(d),
        digits_value(d) <= i32::MAX,
        spec_col_index(col) >= 0,
    ensures
        trimmed(col + d) == col + d,
        spec_parse_i32(col + d) is None,
        spec_parse_cell_ref(col + d) == Some((((digits_value(d) - 1) as i32), spec_col_index(col))),
{
    let t = col + d;
    lemma_cell_text_reads(col, d);
    lemma_cell_token(col, d);
    lemma_ascii_digits_cell(col, d, d.len() as int);
    assert(d.take(d.len() as int) =~= d);
    lemma_parse_digits(d);
    assert(t.subrange(0, col.len() as int) =~= col);
}

/// Law: in this engine too, a formula that is a reference to a cell of the
/// sheet (column letters, then a row number `1..=r` in ASCII digits)
/// evaluates to that cell's value without error when the cell holds none,
/// and to an error when it does.
pub proof fn law_reference_reads_its_cell(col: Seq<char>, d: Seq<char>, r: int, c: int, g: Grid)
    requires
        col.len() > 0,
        all_upper(col),
        d.len() > 0,
        all_digits(d),
        1 <= digits_value(d) <= r,
        digits_value(d) <= i32::MAX,
        0 <= spec_col_index(col) < c,
    ensures
        ({
            let i = digits_value(d) - 1;
            let j = spec_col_index(col) as int;
            &&& g[i][j].err == 0 ==> spec_eval_plain(col + d, r, c, g) == Ok::<(i32, bool), Abort>(
                (g[i][j].val, false),
            )
            &&& g[i][j].err != 0 ==> spec_eval_plain(col + d, r, c, g) == Ok::<(i32, bool), Abort>(
                (0i32, true),
            )
        }),
{
    lemma_cell_ref_reads(col, d);
    lemma_cell_token(col, d);
}

/// Law: in this engine too, `cell op n`, a reference to a cell of the sheet
/// that holds no error, an operator and a number in decimal, evaluates with
/// the cell's value `v` on the left: to `v + n`, `v - n` or `v * n` where the
/// result fits in `i32`, to `v / n` for `v >= 0` and `n > 0`, and to an error
/// for `n = 0`.
#[verifier::rlimit(40)]
pub proof fn law_arithmetic_with_reference(
    col: Seq<char>,
    d: Seq<char>,
    op: char,
    d2: Seq<char>,
    r: int,
    c: int,
    g: Grid,
)
    requires
        col.len() > 0,
        all_upper(col),
        d.len() > 0,
        all_digits(d),
        1 <= digits_value(d) <= r,
        digits_value(d) <= i32::MAX,
        0 <= spec_col_index(col) < c,
        g[digits_value(d) - 1][spec_col_index(col) as int].err == 0,
        d2.len() > 0,
        all_digits(d2),
        digits_value(d2) <= i32::MAX,
        is_operator(op),
    ensures
        ({
            let f = col + d + seq![op] + d2;
            let v = g[digits_value(d) - 1][spec_col_index(col) as int].val as int;
            let b = digits_value(d2) as int;
            &&& op == '+' && v + b <= i32::MAX ==> spec_eval_plain(f, r, c, g) == Ok::<(i32, bool), Abort>(
                ((v + b) as i32, false),
            )
            &&& op == '-' && i32::MIN <= v - b ==> spec_eval_plain(f, r, c, g) == Ok::<(i32, bool), Abort>(
                ((v - b) as i32, false),
            )
            &&& op == '*' && i32::MIN <= v * b <= i32::MAX ==> spec_eval_plain(f, r, c, g) == Ok::<
                (i32, bool),
                Abort,
            >(((v * b) as i32, false))
            &&& op == '/' && b > 0 && v >= 0 ==> spec_eval_plain(f, r, c, g) == Ok::<(i32, bool), Abort>(
                ((v / b) as i32, false),
            )
            &&& op == '/' && b == 0 ==> spec_eval_plain(f, r, c, g) == Ok::<(i32, bool), Abort>((0i32, true))
        }),
{
    let v = g[digits_value(d) - 1][spec_col_index(col) as int].val as int;
    let b = digits_value(d2) as int;
    lemma_binary_cell_left(col, d, op, d2);
    lemma_cell_ref_reads(col, d);
    lemma_parse_digits(d2);
    assert(operand_value(col + d, r, c, g) == (v as i32, false));
    assert(operand_value(d2, r, c, g) == (b as i32, false));
    if op == '*' && i32::MIN <= v * b <= i32::MAX {
        let p = v * b;
        if p < 0 {
            assert(p % 4294967296 == p + 4294967296);
        } else {
            assert(p % 4294967296 == p);
        }
    }
    if op == '/' && b > 0 && v >= 0 {
        assert(0 <= v / b <= v) by (nonlinear_arith)
            requires
                0 <= v,
                0 < b,
        ;
    }
}

} // verus!
