//! Evaluation of one formula against the sheet.

use vstd::prelude::*;
use crate::columns::{all_upper, get_col_index_table, spec_col_index_table};
use crate::formula::{is_operator, lemma_binary_cell_left, lemma_binary_of_numbers, lemma_cell_token, parse_binary, spec_binary};
use crate::sheet::{Abort, CellV, Grid, cell, grid, grid_wf, lemma_grid_cell, sheet_wf};
use crate::assoc::{assoc_get, assoc_map, lemma_assoc_get_prefix, lemma_assoc_get_push, lemma_assoc_get_update};
use crate::stats::{
    is_stdev, lemma_seq_extremes, lemma_stdev_unique, lemma_sum_between, lemma_wsum_exact, max_value, min_value, seq_max, seq_min, stdev,
    sum_int, sum_values, sums_fit, wsum,
};
use crate::text::{
    all_digits, append_chars, digits_value, lemma_parse_digits, is_upper, trim_end_at, trim_start_at, chars_eq, eq_lit, find_char, find_from, is_ascii_alpha, is_ascii_alpha_char,
    is_digit, is_digit_char, parse_i32, parse_i32_range, parse_trimmed_i32_range, slice_chars,
    spec_contains, spec_find_char, spec_find_from, spec_parse_i32, starts_with, trim, trimmed,
};

verus! {

// ---------------------------------------------------------------------------
// Cell references: letters, then digits; other characters are skipped
// ---------------------------------------------------------------------------

/// Letters and digits of a reference: every ASCII letter in order, and every
/// ASCII digit that comes after the first letter.
pub open spec fn ref_scan(t: Seq<char>) -> (Seq<char>, Seq<char>)
    decreases t.len(),
{
    if t.len() == 0 {
        (Seq::empty(), Seq::empty())
    } else {
        let (col, row) = ref_scan(t.drop_last());
        let ch = t.last();
        if is_ascii_alpha(ch) {
            (col.push(ch), row)
        } else if is_digit(ch) && col.len() > 0 {
            (col, row.push(ch))
        } else {
            (col, row)
        }
    }
}

/// A reference such as ` B12 `: the column letters and the row number.
pub open spec fn spec_parse_cell_reference(s: Seq<char>) -> Option<(Seq<char>, i32)> {
    let (col, row) = ref_scan(trimmed(s));
    if col.len() > 0 && row.len() > 0 {
        match spec_parse_i32(row) {
            Some(v) => Some((col, v)),
            None => None,
        }
    } else {
        None
    }
}

/// Parses a cell reference (e.g. "A1") into its column letters and row number.
pub fn parse_cell_reference(reference: &Vec<char>) -> (r: Option<(Vec<char>, i32)>)
    ensures
        match r {
            Some((col, row)) => spec_parse_cell_reference(reference@) == Some((col@, row)),
            None => spec_parse_cell_reference(reference@) is None,
        },
{
    let t = trim(reference);
    let mut col: Vec<char> = Vec::new();
    let mut row_str: Vec<char> = Vec::new();
    let mut i: usize = 0;
    while i < t.len()
        invariant
            i <= t.len(),
            ref_scan(t@.take(i as int)) == (col@, row_str@),
        decreases t.len() - i,
    {
        let ch = t[i];
        proof {
            assert(t@.take(i + 1).drop_last() == t@.take(i as int));
        }
        if is_ascii_alpha_char(ch) {
            col.push(ch);
        } else if is_digit_char(ch) && col.len() > 0 {
            row_str.push(ch);
        }
        i += 1;
    }
    assert(t@.take(t.len() as int) == t@);
    if col.len() > 0 && row_str.len() > 0 {
        match parse_i32(&row_str) {
            Some(v) => Some((col, v)),
            None => None,
        }
    } else {
        None
    }
}

/// Value of a reference or a number: `(value, error)`.
pub open spec fn spec_value_of_ref(s: Seq<char>, r: int, c: int, g: Grid) -> (i32, bool) {
    match spec_parse_cell_reference(s) {
        Some((col, row)) => {
            let ci = spec_col_index_table(col);
            if ci < 0 || ci >= c || row < 1 || row > r {
                (0, true)
            } else if g[row - 1][ci as int].err != 0 {
                (0, true)
            } else {
                (g[row - 1][ci as int].val, false)
            }
        },
        None => match spec_parse_i32(trimmed(s)) {
            Some(v) => (v, false),
            None => (0, true),
        },
    }
}

/// Value from a cell reference with error checking; a plain number is
/// accepted too.  Sets `error_flag` to 1 on an error.
pub fn get_value_from_cell_ref(
    reference: &Vec<char>,
    r: i32,
    c: i32,
    sheet: &Vec<Vec<cell>>,
    error_flag: &mut i32,
) -> (v: i32)
    requires
        sheet_wf(sheet@, r as int, c as int),
    ensures
        v == spec_value_of_ref(reference@, r as int, c as int, grid(sheet@)).0,
        *final(error_flag) == if spec_value_of_ref(reference@, r as int, c as int, grid(sheet@)).1 {
            1
        } else {
            *old(error_flag)
        },
{
    match parse_cell_reference(reference) {
        Some((col, row)) => {
            let ci = get_col_index_table(&col);
            if ci < 0 || ci >= c || row < 1 || row > r {
                *error_flag = 1;
                return 0;
            }
            proof {
                lemma_grid_cell(sheet@, r as int, c as int, row - 1, ci as int);
            }
            if sheet[(row - 1) as usize][ci as usize].err != 0 {
                *error_flag = 1;
                return 0;
            }
            sheet[(row - 1) as usize][ci as usize].val
        },
        None => {
            match parse_trimmed_i32_range(reference, 0, reference.len()) {
                Some(v) => {
                    assert(reference@.subrange(0, reference@.len() as int) == reference@);
                    v
                },
                None => {
                    assert(reference@.subrange(0, reference@.len() as int) == reference@);
                    *error_flag = 1;
                    0
                },
            }
        },
    }
}

// ---------------------------------------------------------------------------
// Ranges such as `A1:B3`
// ---------------------------------------------------------------------------

/// `(start_row, end_row, start_col, end_col)` of a range, 0-based; a single
/// reference is a range of one cell.  `None` when a side is not a reference
/// or the start comes after the end.
pub open spec fn spec_parse_range(s: Seq<char>) -> Option<(i32, i32, i32, i32)> {
    match spec_find_char(s, ':') {
        Some(p) => match (
            spec_parse_cell_reference(s.subrange(0, p)),
            spec_parse_cell_reference(s.subrange(p + 1, s.len() as int)),
        ) {
            (Some((c1, r1)), Some((c2, r2))) => {
                let sr = r1.wrapping_sub(1);
                let sc = spec_col_index_table(c1);
                let er = r2.wrapping_sub(1);
                let ec = spec_col_index_table(c2);
                if sr > er || sc > ec {
                    None
                } else {
                    Some((sr, er, sc, ec))
                }
            },
            _ => None,
        },
        None => match spec_parse_cell_reference(s) {
            Some((col, row)) => {
                let ci = spec_col_index_table(col);
                Some((row.wrapping_sub(1), row.wrapping_sub(1), ci, ci))
            },
            None => None,
        },
    }
}

/// Parses a range (`A1:B2`) or a single reference (`A1`).
pub fn parse_range(range: &Vec<char>) -> (r: Option<(i32, i32, i32, i32)>)
    ensures
        r == spec_parse_range(range@),
{
    match find_char(range, ':') {
        Some(p) => {
            let first = slice_chars(range, 0, p);
            let second = slice_chars(range, p + 1, range.len());
            match parse_cell_reference(&first) {
                None => None,
                Some((c1, r1)) => match parse_cell_reference(&second) {
                    None => None,
                    Some((c2, r2)) => {
                        let sr = r1.wrapping_sub(1);
                        let sc = get_col_index_table(&c1);
                        let er = r2.wrapping_sub(1);
                        let ec = get_col_index_table(&c2);
                        if sr > er || sc > ec {
                            None
                        } else {
                            Some((sr, er, sc, ec))
                        }
                    },
                },
            }
        },
        None => match parse_cell_reference(range) {
            Some((col, row)) => {
                let ci = get_col_index_table(&col);
                Some((row.wrapping_sub(1), row.wrapping_sub(1), ci, ci))
            },
            None => None,
        },
    }
}

pub open spec fn has_char(s: Seq<char>, ch: char) -> bool {
    spec_contains(s, seq![ch])
}

/// `(open, close)`: the first `(` and the first `)` of a text that holds `(`,
/// `:` and `)`.
pub open spec fn paren_span(f: Seq<char>) -> Option<(int, int)> {
    if has_char(f, '(') && has_char(f, ':') && has_char(f, ')') {
        Some((spec_find_char(f, '(').unwrap(), spec_find_char(f, ')').unwrap()))
    } else {
        None
    }
}

/// The parts of a text split at `:` are exactly two: the position of its only `:`.
pub open spec fn single_colon(s: Seq<char>) -> Option<int> {
    match spec_find_char(s, ':') {
        Some(k) => if spec_find_from(s, seq![':'], k + 1) is None {
            Some(k)
        } else {
            None
        },
        None => None,
    }
}

/// Column and row of a side of a range, `("", 0)` when it is not a reference.
pub open spec fn ref_or_blank(s: Seq<char>) -> (Seq<char>, i32) {
    match spec_parse_cell_reference(s) {
        Some(p) => p,
        None => (Seq::empty(), 0),
    }
}

/// 1 when the formula holds a range whose start lies after its end, else 0.
/// Text with `)` before its first `(` cannot be cut into a range.
pub open spec fn spec_check_invalid_range(f: Seq<char>) -> Result<i32, Abort> {
    match paren_span(f) {
        None => Ok(0),
        Some((open, close)) => if close < open + 1 {
            Err(Abort::SliceBounds)
        } else {
            let inner = f.subrange(open + 1, close);
            match single_colon(inner) {
                None => Ok(0),
                Some(k) => {
                    let (col1, row1) = ref_or_blank(inner.subrange(0, k));
                    let (col2, row2) = ref_or_blank(inner.subrange(k + 1, inner.len() as int));
                    if spec_col_index_table(col1) > spec_col_index_table(col2) || row1 > row2 {
                        Ok(1)
                    } else {
                        Ok(0)
                    }
                },
            }
        },
    }
}

fn has_char_exec(s: &Vec<char>, ch: char) -> (b: bool)
    ensures
        b == has_char(s@, ch),
{
    find_char(s, ch).is_some()
}

/// Positions of the first `(` and `)` when the text holds `(`, `:` and `)`.
pub fn paren_span_exec(f: &Vec<char>) -> (r: Option<(usize, usize)>)
    ensures
        match r {
            Some((o, cl)) => paren_span(f@) == Some((o as int, cl as int)) && o < f.len() && cl
                < f.len(),
            None => paren_span(f@) is None,
        },
{
    if has_char_exec(f, '(') && has_char_exec(f, ':') && has_char_exec(f, ')') {
        let o = find_char(f, '(').unwrap();
        let cl = find_char(f, ')').unwrap();
        Some((o, cl))
    } else {
        None
    }
}

fn single_colon_exec(s: &Vec<char>) -> (r: Option<usize>)
    ensures
        match r {
            Some(k) => single_colon(s@) == Some(k as int) && k < s.len(),
            None => single_colon(s@) is None,
        },
{
    match find_char(s, ':') {
        Some(k) => {
            let colon = vec![':'];
            assert(colon@ == seq![':']);
            if find_from(s, &colon, k + 1).is_none() {
                Some(k)
            } else {
                None
            }
        },
        None => None,
    }
}

fn ref_or_blank_exec(s: &Vec<char>) -> (r: (Vec<char>, i32))
    ensures
        (r.0@, r.1) == ref_or_blank(s@),
{
    match parse_cell_reference(s) {
        Some(p) => p,
        None => (Vec::new(), 0),
    }
}

/// Checks a formula for a range whose start comes after its end.
pub fn check_invalid_range(formula: &Vec<char>) -> (r: Result<i32, Abort>)
    ensures
        r == spec_check_invalid_range(formula@),
{
    match paren_span_exec(formula) {
        None => Ok(0),
        Some((open, close)) => {
            if close < open + 1 {
                return Err(Abort::SliceBounds);
            }
            let inner = slice_chars(formula, open + 1, close);
            match single_colon_exec(&inner) {
                None => Ok(0),
                Some(k) => {
                    let (col1, row1) = ref_or_blank_exec(&slice_chars(&inner, 0, k));
                    let (col2, row2) = ref_or_blank_exec(&slice_chars(&inner, k + 1, inner.len()));
                    if get_col_index_table(&col1) > get_col_index_table(&col2) || row1 > row2 {
                        Ok(1)
                    } else {
                        Ok(0)
                    }
                },
            }
        },
    }
}

// ---------------------------------------------------------------------------
// Cache of range results
// ---------------------------------------------------------------------------

/// Cache for range function results, keyed by `range:FUNC`.
pub struct RangeCache {
    cache: Vec<(Vec<char>, i32)>,
}

pub open spec fn entries_view(v: Seq<(Vec<char>, i32)>) -> Seq<(Seq<char>, i32)> {
    v.map_values(|e: (Vec<char>, i32)| (e.0@, e.1))
}

impl View for RangeCache {
    type V = Map<Seq<char>, i32>;

    closed spec fn view(&self) -> Map<Seq<char>, i32> {
        assoc_map(entries_view(self.cache@))
    }
}

impl RangeCache {
    pub fn new() -> (rc: RangeCache)
        ensures
            rc@ == Map::<Seq<char>, i32>::empty(),
    {
        let rc = RangeCache { cache: Vec::new() };
        assert(rc@ =~= Map::<Seq<char>, i32>::empty());
        rc
    }

    /// Position of the first entry for `key`.
    fn position(&self, key: &Vec<char>) -> (r: Option<usize>)
        ensures
            match r {
                Some(i) => i < self.cache.len() && self.cache@[i as int].0@ == key@ && forall|
                    j: int,
                | 0 <= j < i ==> self.cache@[j].0@ != key@,
                None => forall|j: int| 0 <= j < self.cache.len() ==> self.cache@[j].0@ != key@,
            },
    {
        let mut i: usize = 0;
        while i < self.cache.len()
            invariant
                i <= self.cache.len(),
                forall|j: int| 0 <= j < i ==> self.cache@[j].0@ != key@,
            decreases self.cache.len() - i,
        {
            if chars_eq(&self.cache[i].0, key) {
                return Some(i);
            }
            i += 1;
        }
        None
    }

    pub fn get(&self, key: &Vec<char>) -> (r: Option<i32>)
        ensures
            r == if self@.contains_key(key@) {
                Some(self@[key@])
            } else {
                None
            },
    {
        let ghost e = entries_view(self.cache@);
        match self.position(key) {
            Some(i) => {
                proof {
                    lemma_assoc_get_prefix(e, key@, i as int);
                }
                Some(self.cache[i].1)
            },
            None => {
                proof {
                    lemma_assoc_get_prefix(e, key@, e.len() as int);
                }
                None
            },
        }
    }

    pub fn set(&mut self, key: Vec<char>, value: i32)
        ensures
            final(self)@ == old(self)@.insert(key@, value),
    {
        let ghost e = entries_view(self.cache@);
        let ghost k = key@;
        match self.position(&key) {
            Some(i) => {
                proof {
                    assert forall|q: Seq<char>| true implies assoc_get(e.update(i as int, (k, value)), q)
                        == if q == k {
                        Some(value)
                    } else {
                        assoc_get(e, q)
                    } by {
                        lemma_assoc_get_update(e, i as int, k, value, q);
                    }
                }
                self.cache.set(i, (key, value));
                assert(entries_view(self.cache@) == e.update(i as int, (k, value)));
            },
            None => {
                proof {
                    lemma_assoc_get_prefix(e, k, e.len() as int);
                    assert forall|q: Seq<char>| true implies assoc_get(e.push((k, value)), q) == if q
                        == k {
                        Some(value)
                    } else {
                        assoc_get(e, q)
                    } by {
                        lemma_assoc_get_push(e, k, value, q);
                    }
                }
                self.cache.push((key, value));
                assert(entries_view(self.cache@) == e.push((k, value)));
            },
        }
        assert(self@ =~= old(self)@.insert(k, value));
    }

    pub fn clear(&mut self)
        ensures
            final(self)@ == Map::<Seq<char>, i32>::empty(),
    {
        self.cache.clear();
        assert(self@ =~= Map::<Seq<char>, i32>::empty());
    }
}

// ---------------------------------------------------------------------------
// State carried through evaluations
// ---------------------------------------------------------------------------

/// The formula and value of the last `SLEEP` on a cell reference.
pub struct SleepMemo {
    pub formula: Option<Vec<char>>,
    pub value: i32,
}

impl SleepMemo {
    pub fn new() -> (m: SleepMemo)
        ensures
            m.formula is None,
            m.value == -1,
    {
        SleepMemo { formula: None, value: -1 }
    }
}

/// What evaluation reads and changes besides the sheet: the invalid-range
/// flag, the sleeps requested (seconds, in order), the last sleep on a cell
/// reference, and the range cache.
pub struct EvalCtx {
    pub inval_r: bool,
    pub sleeps: Vec<i32>,
    pub memo: SleepMemo,
    pub range_cache: RangeCache,
}

pub struct EvalState {
    pub inval: bool,
    pub sleeps: Seq<i32>,
    pub memo_formula: Option<Seq<char>>,
    pub memo_value: i32,
    pub cache: Map<Seq<char>, i32>,
}

pub open spec fn opt_vec(o: Option<Vec<char>>) -> Option<Seq<char>> {
    match o {
        Some(v) => Some(v@),
        None => None,
    }
}

impl View for EvalCtx {
    type V = EvalState;

    open spec fn view(&self) -> EvalState {
        EvalState {
            inval: self.inval_r,
            sleeps: self.sleeps@,
            memo_formula: opt_vec(self.memo.formula),
            memo_value: self.memo.value,
            cache: self.range_cache@,
        }
    }
}

pub open spec fn with_inval(st: EvalState) -> EvalState {
    EvalState { inval: true, ..st }
}

pub open spec fn with_sleep(st: EvalState, secs: i32) -> EvalState {
    EvalState { sleeps: st.sleeps.push(secs), ..st }
}

/// A `SLEEP` on a cell reference sleeps only when its formula or the value
/// differs from the last one.
pub open spec fn memo_step(st: EvalState, f: Seq<char>, value: i32) -> EvalState {
    if st.memo_formula != Some(f) {
        EvalState {
            memo_formula: Some(f),
            memo_value: value,
            sleeps: st.sleeps.push(value),
            ..st
        }
    } else if value != st.memo_value {
        EvalState { memo_value: value, sleeps: st.sleeps.push(value), ..st }
    } else {
        st
    }
}

// ---------------------------------------------------------------------------
// Range functions
// ---------------------------------------------------------------------------

/// The names of the average: `AVG` and `AVERAGE`.
pub open spec fn is_average_name(f: Seq<char>) -> bool {
    f == seq!['A', 'V', 'G'] || f == seq!['A', 'V', 'E', 'R', 'A', 'G', 'E']
}

/// The names of the standard deviation: `STDEV` and `STDDEV`.
pub open spec fn is_stdev_name(f: Seq<char>) -> bool {
    f == seq!['S', 'T', 'D', 'E', 'V'] || f == seq!['S', 'T', 'D', 'D', 'E', 'V']
}

/// The range functions: `MAX`, `MIN`, `SUM`, the average and the standard
/// deviation.
pub open spec fn is_range_func_name(f: Seq<char>) -> bool {
    ||| f == seq!['M', 'A', 'X']
    ||| f == seq!['M', 'I', 'N']
    ||| is_average_name(f)
    ||| f == seq!['S', 'U', 'M']
    ||| is_stdev_name(f)
}

pub enum Scan {
    /// A position outside the sheet.
    Crash,
    /// A cell holding an error.
    ErrCell,
    /// The values, row by row.
    Done(Seq<i32>),
}

pub open spec fn scan_cols(g: Grid, r: int, c: int, i: int, j: int, ec: int, acc: Seq<i32>) -> Scan
    decreases ec + 1 - j,
{
    if j > ec {
        Scan::Done(acc)
    } else if !(0 <= i < r && 0 <= j < c) {
        Scan::Crash
    } else if g[i][j].err != 0 {
        Scan::ErrCell
    } else {
        scan_cols(g, r, c, i, j + 1, ec, acc.push(g[i][j].val))
    }
}

pub open spec fn scan_rows(
    g: Grid,
    r: int,
    c: int,
    i: int,
    er: int,
    sc: int,
    ec: int,
    acc: Seq<i32>,
) -> Scan
    decreases er + 1 - i,
{
    if i > er {
        Scan::Done(acc)
    } else {
        match scan_cols(g, r, c, i, sc, ec, acc) {
            Scan::Done(a) => scan_rows(g, r, c, i + 1, er, sc, ec, a),
            other => other,
        }
    }
}

pub open spec fn spec_stdev(v: Seq<i32>) -> i32 {
    choose|r: i32| is_stdev(v, r)
}

/// `result` of the range function over the values.
pub open spec fn aggregate(func: Seq<char>, vs: Seq<i32>) -> i32 {
    let n = vs.len();
    if func == seq!['S', 'U', 'M'] {
        wsum(vs)
    } else if is_average_name(func) {
        if n > 0 {
            trunc_div(wsum(vs) as int, n as int) as i32
        } else {
            0
        }
    } else if func == seq!['M', 'I', 'N'] {
        if n > 0 {
            seq_min(vs)
        } else {
            0
        }
    } else if func == seq!['M', 'A', 'X'] {
        if n > 0 {
            seq_max(vs)
        } else {
            0
        }
    } else if is_stdev_name(func) {
        spec_stdev(vs)
    } else {
        0
    }
}

/// Division rounding toward zero.
pub open spec fn trunc_div(x: int, d: int) -> int {
    if x == 0 {
        0
    } else if x > 0 && d > 0 {
        x / d
    } else if x < 0 && d < 0 {
        ((x * -1) / (d * -1))
    } else if x < 0 {
        ((x * -1) / d) * -1
    } else {
        (x / (d * -1)) * -1
    }
}

pub proof fn lemma_trunc_div_range(x: i32, d: i32)
    requires
        d != 0,
        !(x == i32::MIN && d == -1),
    ensures
        i32::MIN <= trunc_div(x as int, d as int) <= i32::MAX,
{
    let xi = x as int;
    let di = d as int;
    if xi > 0 && di > 0 {
        assert(0 <= xi / di <= xi) by (nonlinear_arith)
            requires
                xi > 0,
                di > 0,
        ;
    } else if xi < 0 && di < 0 {
        assert(0 <= (xi * -1) / (di * -1) <= xi * -1) by (nonlinear_arith)
            requires
                xi < 0,
                di < 0,
        ;
        if di == -1 {
            assert((xi * -1) / (di * -1) == xi * -1);
        } else {
            assert((xi * -1) / (di * -1) <= (xi * -1) / 2) by (nonlinear_arith)
                requires
                    xi < 0,
                    di <= -2,
            ;
        }
    } else if xi < 0 {
        assert(0 <= (xi * -1) / di <= xi * -1) by (nonlinear_arith)
            requires
                xi < 0,
                di > 0,
        ;
    } else if xi > 0 {
        assert(0 <= xi / (di * -1) <= xi) by (nonlinear_arith)
            requires
                xi > 0,
                di < 0,
        ;
    }
}

/// Number of cells the range asks room for, with `i32` wrap-around.
pub open spec fn range_cell_count(sr: i32, er: i32, sc: i32, ec: i32) -> i32 {
    er.wrapping_sub(sr).wrapping_add(1).wrapping_mul(ec.wrapping_sub(sc).wrapping_add(1))
}

/// Value of a range function and the state after it.
pub open spec fn spec_eval_range(
    range: Seq<char>,
    r: int,
    c: int,
    g: Grid,
    func: Seq<char>,
    st: EvalState,
) -> (Result<i32, Abort>, EvalState) {
    match spec_parse_range(range) {
        None => (Ok(0), with_inval(st)),
        Some((sr, er, sc, ec)) => if range_cell_count(sr, er, sc, ec) < 0 {
            (Err(Abort::CapacityOverflow), st)
        } else {
            match scan_rows(g, r, c, sr as int, er as int, sc as int, ec as int, Seq::empty()) {
                Scan::Crash => (Err(Abort::IndexBounds), st),
                Scan::ErrCell => (Ok(0), with_inval(st)),
                Scan::Done(vs) => (Ok(aggregate(func, vs)), st),
            }
        },
    }
}

proof fn lemma_scan_cols_done(g: Grid, r: int, c: int, i: int, j: int, ec: int, acc: Seq<i32>)
    requires
        j <= ec + 1,
        scan_cols(g, r, c, i, j, ec, acc) is Done,
    ensures
        scan_cols(g, r, c, i, j, ec, acc)->Done_0.len() == acc.len() + (ec + 1 - j),
        j <= ec ==> (0 <= i < r && 0 <= j && ec < c),
    decreases ec + 1 - j,
{
    if j <= ec {
        lemma_scan_cols_done(g, r, c, i, j + 1, ec, acc.push(g[i][j].val));
    }
}

proof fn lemma_scan_rows_done(
    g: Grid,
    r: int,
    c: int,
    i: int,
    er: int,
    sc: int,
    ec: int,
    acc: Seq<i32>,
)
    requires
        i <= er + 1,
        sc <= ec,
        scan_rows(g, r, c, i, er, sc, ec, acc) is Done,
    ensures
        scan_rows(g, r, c, i, er, sc, ec, acc)->Done_0.len() == acc.len() + (er + 1 - i) * (ec + 1
            - sc),
        i <= er ==> (0 <= i && er < r && 0 <= sc && ec < c),
    decreases er + 1 - i,
{
    if i <= er {
        assert(scan_cols(g, r, c, i, sc, ec, acc) is Done);
        lemma_scan_cols_done(g, r, c, i, sc, ec, acc);
        let a = scan_cols(g, r, c, i, sc, ec, acc)->Done_0;
        lemma_scan_rows_done(g, r, c, i + 1, er, sc, ec, a);
        assert(acc.len() + (ec + 1 - sc) + (er + 1 - (i + 1)) * (ec + 1 - sc) == acc.len() + (er
            + 1 - i) * (ec + 1 - sc)) by (nonlinear_arith);
    } else {
        assert((er + 1 - i) * (ec + 1 - sc) == 0) by (nonlinear_arith)
            requires
                i == er + 1,
        ;
    }
}

/// The values of the range `sr..=er` by `sc..=ec`, row by row: `Ok(None)`
/// at the first cell (in that order) that holds an error, an abort at the
/// first that lies outside the sheet.
pub fn scan_range(r: i32, c: i32, sheet: &Vec<Vec<cell>>, sr: i32, er: i32, sc: i32, ec: i32) -> (res: Result<Option<Vec<i32>>, Abort>)
    requires
        sheet_wf(sheet@, r as int, c as int),
        sr <= er,
        sc <= ec,
    ensures
        match scan_rows(grid(sheet@), r as int, c as int, sr as int, er as int, sc as int, ec as int, Seq::empty()) {
            Scan::Crash => res == Err::<Option<Vec<i32>>, Abort>(Abort::IndexBounds),
            Scan::ErrCell => res matches Ok(None),
            Scan::Done(vs) => res matches Ok(Some(v)) && v@ == vs && v.len() <= r * c,
        },
{
    let ghost g = grid(sheet@);
    let mut values: Vec<i32> = Vec::new();
    let mut i: i64 = sr as i64;
    while i <= er as i64
        invariant
            sheet_wf(sheet@, r as int, c as int),
            g == grid(sheet@),
            sr <= i <= er as int + 1,
            sc <= ec,
            scan_rows(g, r as int, c as int, i as int, er as int, sc as int, ec as int, values@)
                == scan_rows(g, r as int, c as int, sr as int, er as int, sc as int, ec as int, Seq::empty()),
        decreases er as int + 1 - i,
    {
        let mut j: i64 = sc as i64;
        let ghost acc0 = values@;
        while j <= ec as i64
            invariant
                sheet_wf(sheet@, r as int, c as int),
                g == grid(sheet@),
                sr <= i <= er,
                sc <= j <= ec as int + 1,
                scan_cols(g, r as int, c as int, i as int, j as int, ec as int, values@) == scan_cols(
                    g,
                    r as int,
                    c as int,
                    i as int,
                    sc as int,
                    ec as int,
                    acc0,
                ),
                scan_rows(g, r as int, c as int, i as int, er as int, sc as int, ec as int, acc0)
                    == scan_rows(g, r as int, c as int, sr as int, er as int, sc as int, ec as int, Seq::empty()),
            decreases ec as int + 1 - j,
        {
            if i < 0 || i >= r as i64 || j < 0 || j >= c as i64 {
                proof {
                    assert(scan_cols(g, r as int, c as int, i as int, j as int, ec as int, values@)
                        is Crash);
                    assert(scan_rows(g, r as int, c as int, i as int, er as int, sc as int, ec as int, acc0) is Crash);
                }
                return Err(Abort::IndexBounds);
            }
            proof {
                lemma_grid_cell(sheet@, r as int, c as int, i as int, j as int);
            }
            if sheet[i as usize][j as usize].err != 0 {
                proof {
                    assert(scan_cols(g, r as int, c as int, i as int, j as int, ec as int, values@)
                        is ErrCell);
                    assert(scan_rows(g, r as int, c as int, i as int, er as int, sc as int, ec as int, acc0) is ErrCell);
                }
                return Ok(None);
            }
            values.push(sheet[i as usize][j as usize].val);
            j += 1;
        }
        i += 1;
    }
    proof {
        lemma_scan_rows_done(g, r as int, c as int, sr as int, er as int, sc as int, ec as int, Seq::empty());
        assert((er + 1 - sr) * (ec + 1 - sc) <= r * c) by (nonlinear_arith)
            requires
                0 <= sr <= er < r,
                0 <= sc <= ec < c,
        ;
    }
    Ok(Some(values))
}

/// The range function `func` over the values (see `aggregate`).
pub fn aggregate_values(func: &Vec<char>, values: &Vec<i32>) -> (v: i32)
    requires
        values.len() <= i32::MAX,
    ensures
        v == aggregate(func@, values@),
{
    let count = values.len();
    if eq_lit(func, &['S', 'U', 'M']) {
        sum_values(values)
    } else if eq_lit(func, &['A', 'V', 'G']) || eq_lit(func, &['A', 'V', 'E', 'R', 'A', 'G', 'E']) {
        if count > 0 {
            let s = sum_values(values);
            s.checked_div(count as i32).unwrap()
        } else {
            0
        }
    } else if eq_lit(func, &['M', 'I', 'N']) {
        if count > 0 {
            min_value(values)
        } else {
            0
        }
    } else if eq_lit(func, &['M', 'A', 'X']) {
        if count > 0 {
            max_value(values)
        } else {
            0
        }
    } else if eq_lit(func, &['S', 'T', 'D', 'E', 'V']) || eq_lit(func, &['S', 'T', 'D', 'D', 'E', 'V']) {
        let v = stdev(values);
        proof {
            lemma_stdev_unique(values@, v, spec_stdev(values@));
        }
        v
    } else {
        0
    }
}

/// Evaluates a range function over a range of cells.
pub fn evaluate_range(
    range: &Vec<char>,
    r: i32,
    c: i32,
    sheet: &Vec<Vec<cell>>,
    func: &Vec<char>,
    ctx: &mut EvalCtx,
) -> (res: Result<i32, Abort>)
    requires
        sheet_wf(sheet@, r as int, c as int),
    ensures
        (res, final(ctx)@) == spec_eval_range(range@, r as int, c as int, grid(sheet@), func@, old(ctx)@),
{
    let (sr, er, sc, ec) = match parse_range(range) {
        None => {
            ctx.inval_r = true;
            return Ok(0);
        },
        Some(t) => t,
    };
    let total = er.wrapping_sub(sr).wrapping_add(1).wrapping_mul(ec.wrapping_sub(sc).wrapping_add(1));
    if total < 0 {
        return Err(Abort::CapacityOverflow);
    }
    match scan_range(r, c, sheet, sr, er, sc, ec)? {
        None => {
            ctx.inval_r = true;
            Ok(0)
        },
        Some(values) => Ok(aggregate_values(func, &values)),
    }
}

// ---------------------------------------------------------------------------
// Formulas
// ---------------------------------------------------------------------------

/// First index at or after `i` that is not an ASCII letter.
pub open spec fn alpha_run(s: Seq<char>, i: int) -> int
    decreases s.len() - i,
{
    if 0 <= i < s.len() && is_ascii_alpha(s[i]) {
        alpha_run(s, i + 1)
    } else {
        i
    }
}

pub proof fn lemma_alpha_run(s: Seq<char>, i: int)
    requires
        0 <= i <= s.len(),
    ensures
        i <= alpha_run(s, i) <= s.len(),
    decreases s.len() - i,
{
    if i < s.len() && is_ascii_alpha(s[i]) {
        lemma_alpha_run(s, i + 1);
    }
}

pub fn alpha_run_exec(s: &Vec<char>, i: usize) -> (r: usize)
    requires
        i <= s.len(),
    ensures
        r == alpha_run(s@, i as int),
        i <= r <= s.len(),
{
    proof {
        lemma_alpha_run(s@, i as int);
    }
    let mut j = i;
    while j < s.len() && is_ascii_alpha_char(s[j])
        invariant
            i <= j <= s.len(),
            alpha_run(s@, j as int) == alpha_run(s@, i as int),
        decreases s.len() - j,
    {
        j += 1;
    }
    j
}

pub open spec fn sleep_prefix() -> Seq<char> {
    seq!['S', 'L', 'E', 'E', 'P', '(']
}

/// Value of an operand of a binary formula: a number, or else a reference.
pub open spec fn operand_value(tok: Seq<char>, r: int, c: int, g: Grid) -> (i32, bool) {
    match spec_parse_i32(tok) {
        Some(v) => (v, false),
        None => spec_value_of_ref(tok, r, c, g),
    }
}

/// `left op right` for a binary formula; `(value, error)`.
pub open spec fn apply_op(op: char, a: i32, b: i32) -> Result<(i32, bool), Abort> {
    if op == '+' {
        Ok((a.wrapping_add(b), false))
    } else if op == '-' {
        Ok((a.wrapping_sub(b), false))
    } else if op == '*' {
        Ok((a.wrapping_mul(b), false))
    } else if op == '/' {
        if b == 0 {
            Ok((0, true))
        } else if a == i32::MIN && b == -1 {
            Err(Abort::DivideOverflow)
        } else {
            Ok((trunc_div(a as int, b as int) as i32, false))
        }
    } else {
        Ok((0, true))
    }
}

/// Binary formulas, plain numbers and single references.
pub open spec fn spec_eval_plain(f: Seq<char>, r: int, c: int, g: Grid) -> Result<(i32, bool), Abort> {
    match spec_binary(f) {
        Some((a, e1, op, cs, e2)) => {
            let (lv, le) = operand_value(f.subrange(a, e1), r, c, g);
            let (rv, re) = operand_value(f.subrange(cs, e2), r, c, g);
            if le || re {
                Ok((0, true))
            } else {
                apply_op(op, lv, rv)
            }
        },
        None => match spec_parse_i32(trimmed(f)) {
            Some(v) => Ok((v, false)),
            None => match spec_parse_cell_reference(f) {
                Some((col, row)) => {
                    let ci = spec_col_index_table(col);
                    if ci < 0 || ci >= c || row < 1 || row > r {
                        Ok((0, true))
                    } else if g[row - 1][ci as int].err != 0 {
                        Ok((0, true))
                    } else {
                        Ok((g[row - 1][ci as int].val, false))
                    }
                },
                None => Ok((0, true)),
            },
        },
    }
}

/// `SLEEP(n)` and `SLEEP(ref)`, falling back to the plain forms.
pub open spec fn spec_eval_sleep(f: Seq<char>, r: int, c: int, g: Grid, st: EvalState) -> (
    Result<(i32, bool), Abort>,
    EvalState,
) {
    if starts_with(f, sleep_prefix()) {
        if !(f.len() >= 7 && f.last() < '\u{80}') {
            (Err(Abort::SliceBounds), st)
        } else {
            let inner = f.subrange(6, f.len() - 1);
            match spec_parse_i32(trimmed(inner)) {
                Some(v) => (Ok((v, false)), with_sleep(st, v)),
                None => {
                    let k = alpha_run(inner, 0);
                    let col = inner.subrange(0, k);
                    match spec_parse_i32(trimmed(inner.subrange(k, inner.len() as int))) {
                        Some(row) => {
                            let ci = spec_col_index_table(col);
                            let ri = row.wrapping_sub(1);
                            if ci >= 0 && ri >= 0 && ri < r {
                                if ci >= c {
                                    (Err(Abort::IndexBounds), st)
                                } else if g[ri as int][ci as int].err != 0 {
                                    (Ok((0, true)), st)
                                } else {
                                    let v = g[ri as int][ci as int].val;
                                    (Ok((v, false)), memo_step(st, f, v))
                                }
                            } else {
                                (spec_eval_plain(f, r, c, g), st)
                            }
                        },
                        None => (spec_eval_plain(f, r, c, g), st),
                    }
                },
            }
        }
    } else {
        (spec_eval_plain(f, r, c, g), st)
    }
}

/// Value of a formula, `(value, error)`, or the reason the program stops;
/// and the evaluation state after it.
pub open spec fn spec_eval(f: Seq<char>, r: int, c: int, g: Grid, st: EvalState) -> (
    Result<(i32, bool), Abort>,
    EvalState,
) {
    match paren_span(f) {
        Some((open, close)) => if close < open + 1 {
            (Err(Abort::SliceBounds), st)
        } else {
            let func = f.subrange(0, open);
            let range = f.subrange(open + 1, close);
            if is_range_func_name(func) {
                let key = range + seq![':'] + func;
                if st.cache.contains_key(key) {
                    (Ok((st.cache[key], false)), st)
                } else {
                    let (res, st2) = spec_eval_range(range, r, c, g, func, st);
                    match res {
                        Err(a) => (Err(a), st2),
                        Ok(v) => (Ok((v, false)), EvalState { cache: st2.cache.insert(key, v), ..st2 }),
                    }
                }
            } else {
                spec_eval_sleep(f, r, c, g, st)
            }
        },
        None => spec_eval_sleep(f, r, c, g, st),
    }
}

fn operand_value_exec(
    f: &Vec<char>,
    lo: usize,
    hi: usize,
    r: i32,
    c: i32,
    sheet: &Vec<Vec<cell>>,
) -> (res: (i32, bool))
    requires
        lo <= hi <= f.len(),
        sheet_wf(sheet@, r as int, c as int),
    ensures
        res == operand_value(f@.subrange(lo as int, hi as int), r as int, c as int, grid(sheet@)),
{
    match parse_i32_range(f, lo, hi) {
        Some(v) => (v, false),
        None => {
            let tok = slice_chars(f, lo, hi);
            let mut e: i32 = 0;
            let v = get_value_from_cell_ref(&tok, r, c, sheet, &mut e);
            (v, e != 0)
        },
    }
}

/// One arithmetic step (see `apply_op`).
pub fn apply_op_exec(op: char, lv: i32, rv: i32) -> (res: Result<(i32, bool), Abort>)
    ensures
        res == apply_op(op, lv, rv),
{
    if op == '+' {
        Ok((lv.wrapping_add(rv), false))
    } else if op == '-' {
        Ok((lv.wrapping_sub(rv), false))
    } else if op == '*' {
        Ok((lv.wrapping_mul(rv), false))
    } else if op == '/' {
        if rv == 0 {
            Ok((0, true))
        } else if lv == i32::MIN && rv == -1 {
            Err(Abort::DivideOverflow)
        } else {
            proof {
                lemma_trunc_div_range(lv, rv);
            }
            Ok((lv.checked_div(rv).unwrap(), false))
        }
    } else {
        Ok((0, true))
    }
}

fn eval_plain(f: &Vec<char>, r: i32, c: i32, sheet: &Vec<Vec<cell>>) -> (res: Result<(i32, bool), Abort>)
    requires
        sheet_wf(sheet@, r as int, c as int),
    ensures
        res == spec_eval_plain(f@, r as int, c as int, grid(sheet@)),
{
    match parse_binary(f) {
        Some(p) => {
            let (lv, le) = operand_value_exec(f, p.left_start, p.left_end, r, c, sheet);
            let (rv, re) = operand_value_exec(f, p.right_start, p.right_end, r, c, sheet);
            if le || re {
                return Ok((0, true));
            }
            apply_op_exec(p.op, lv, rv)
        },
        None => {
            assert(f@.subrange(0, f@.len() as int) == f@);
            match parse_trimmed_i32_range(f, 0, f.len()) {
                Some(v) => Ok((v, false)),
                None => match parse_cell_reference(f) {
                    Some((col, row)) => {
                        let ci = get_col_index_table(&col);
                        if ci < 0 || ci >= c || row < 1 || row > r {
                            return Ok((0, true));
                        }
                        proof {
                            lemma_grid_cell(sheet@, r as int, c as int, row - 1, ci as int);
                        }
                        if sheet[(row - 1) as usize][ci as usize].err != 0 {
                            Ok((0, true))
                        } else {
                            Ok((sheet[(row - 1) as usize][ci as usize].val, false))
                        }
                    },
                    None => Ok((0, true)),
                },
            }
        },
    }
}

fn clone_chars(s: &Vec<char>) -> (t: Vec<char>)
    ensures
        t@ == s@,
{
    slice_chars(s, 0, s.len())
}

/// A `SLEEP` on a cell reference: sleeps for `v` seconds unless the same
/// formula slept last with the same value (see `memo_step`).
pub fn memo_sleep(ctx: &mut EvalCtx, f: &Vec<char>, v: i32)
    ensures
        final(ctx)@ == memo_step(old(ctx)@, f@, v),
{
    let changed = match &ctx.memo.formula {
        Some(prev) => !chars_eq(prev, f),
        None => true,
    };
    if changed {
        ctx.memo.formula = Some(clone_chars(f));
        ctx.memo.value = v;
        ctx.sleeps.push(v);
    } else if v != ctx.memo.value {
        ctx.memo.value = v;
        ctx.sleeps.push(v);
    }
}

fn eval_sleep(f: &Vec<char>, r: i32, c: i32, sheet: &Vec<Vec<cell>>, ctx: &mut EvalCtx) -> (res: Result<(i32, bool), Abort>)
    requires
        sheet_wf(sheet@, r as int, c as int),
    ensures
        (res, final(ctx)@) == spec_eval_sleep(f@, r as int, c as int, grid(sheet@), old(ctx)@),
{
    let prefix = vec!['S', 'L', 'E', 'E', 'P', '('];
    assert(prefix@ == sleep_prefix());
    if !crate::text::starts_with_exec(f, &prefix) {
        return eval_plain(f, r, c, sheet);
    }
    let n = f.len();
    if !(n >= 7 && f[n - 1] < '\u{80}') {
        return Err(Abort::SliceBounds);
    }
    let inner = slice_chars(f, 6, n - 1);
    assert(inner@.subrange(0, inner@.len() as int) == inner@);
    match parse_trimmed_i32_range(&inner, 0, inner.len()) {
        Some(v) => {
            ctx.sleeps.push(v);
            Ok((v, false))
        },
        None => {
            let k = alpha_run_exec(&inner, 0);
            let col = slice_chars(&inner, 0, k);
            match parse_trimmed_i32_range(&inner, k, inner.len()) {
                Some(row) => {
                    let ci = get_col_index_table(&col);
                    let ri = row.wrapping_sub(1);
                    if ci >= 0 && ri >= 0 && ri < r {
                        if ci >= c {
                            return Err(Abort::IndexBounds);
                        }
                        proof {
                            lemma_grid_cell(sheet@, r as int, c as int, ri as int, ci as int);
                        }
                        if sheet[ri as usize][ci as usize].err != 0 {
                            return Ok((0, true));
                        }
                        let v = sheet[ri as usize][ci as usize].val;
                        memo_sleep(ctx, f, v);
                        Ok((v, false))
                    } else {
                        eval_plain(f, r, c, sheet)
                    }
                },
                None => eval_plain(f, r, c, sheet),
            }
        },
    }
}

/// Evaluates a formula against the sheet.  Returns the value and sets
/// `error_flag` to 1 when the formula yields an error; returns the reason
/// when the evaluation cannot complete.
pub fn evaluate_formula(
    formula: &Vec<char>,
    r: i32,
    c: i32,
    sheet: &Vec<Vec<cell>>,
    error_flag: &mut i32,
    ctx: &mut EvalCtx,
) -> (res: Result<i32, Abort>)
    requires
        sheet_wf(sheet@, r as int, c as int),
    ensures
        final(ctx)@ == spec_eval(formula@, r as int, c as int, grid(sheet@), old(ctx)@).1,
        match spec_eval(formula@, r as int, c as int, grid(sheet@), old(ctx)@).0 {
            Ok((v, e)) => res == Ok::<i32, Abort>(v) && *final(error_flag) == if e {
                1
            } else {
                *old(error_flag)
            },
            Err(a) => res == Err::<i32, Abort>(a),
        },
{
    let out = match paren_span_exec(formula) {
        Some((open, close)) => {
            if close < open + 1 {
                return Err(Abort::SliceBounds);
            }
            let func = slice_chars(formula, 0, open);
            let range = slice_chars(formula, open + 1, close);
            if is_range_func_name_exec(&func) {
                let mut key = clone_chars(&range);
                key.push(':');
                append_chars(&mut key, &func);
                assert(key@ == range@ + seq![':'] + func@);
                match ctx.range_cache.get(&key) {
                    Some(v) => return Ok(v),
                    None => {},
                }
                let v = evaluate_range(&range, r, c, sheet, &func, ctx)?;
                ctx.range_cache.set(key, v);
                return Ok(v);
            } else {
                eval_sleep(formula, r, c, sheet, ctx)
            }
        },
        None => eval_sleep(formula, r, c, sheet, ctx),
    };
    match out {
        Ok((v, e)) => {
            if e {
                *error_flag = 1;
            }
            Ok(v)
        },
        Err(a) => Err(a),
    }
}

pub fn is_range_func_name_exec(f: &Vec<char>) -> (b: bool)
    ensures
        b == is_range_func_name(f@),
{
    eq_lit(f, &['M', 'A', 'X']) || eq_lit(f, &['M', 'I', 'N']) || eq_lit(f, &['A', 'V', 'G'])
        || eq_lit(f, &['A', 'V', 'E', 'R', 'A', 'G', 'E']) || eq_lit(f, &['S', 'U', 'M'])
        || eq_lit(f, &['S', 'T', 'D', 'E', 'V']) || eq_lit(f, &['S', 'T', 'D', 'D', 'E', 'V'])
}


/// Law: over the values of a range whose partial sums fit in `i32`, `SUM` is
/// the exact sum and the average (under either of its names) lies between
/// `MIN` and `MAX`.
pub proof fn law_min_avg_max(vs: Seq<i32>, avg: Seq<char>)
    requires
        vs.len() > 0,
        is_average_name(avg),
        sums_fit(vs),
    ensures
        aggregate(seq!['S', 'U', 'M'], vs) == sum_int(vs),
        aggregate(seq!['M', 'I', 'N'], vs) <= aggregate(avg, vs) <= aggregate(seq!['M', 'A', 'X'], vs),
{
    lemma_wsum_exact(vs);
    lemma_sum_between(vs);
    let n = vs.len() as int;
    let s = sum_int(vs);
    let lo = seq_min(vs) as int;
    let hi = seq_max(vs) as int;
    assert(avg != seq!['S', 'U', 'M']) by {
        if avg == seq!['S', 'U', 'M'] {
            assert(avg[0] == 'S');
        }
    }
    assert(avg != seq!['M', 'I', 'N']) by {
        if avg == seq!['M', 'I', 'N'] {
            assert(avg[0] == 'M');
        }
    }
    if s >= 0 {
        let q = s / n;
        let rm = s % n;
        assert(s == n * q + rm && 0 <= rm < n) by (nonlinear_arith)
            requires
                n > 0,
                q == s / n,
                rm == s % n,
        ;
        assert(lo <= q) by (nonlinear_arith)
            requires
                lo * n <= s,
                s == n * q + rm,
                0 <= rm < n,
                n > 0,
        ;
        assert(q <= hi) by (nonlinear_arith)
            requires
                s <= hi * n,
                s == n * q + rm,
                0 <= rm,
                n > 0,
        ;
        assert(trunc_div(s, n) == q);
    } else {
        let u = -s;
        let q = u / n;
        let rm = u % n;
        assert(u == n * q + rm && 0 <= rm < n) by (nonlinear_arith)
            requires
                n > 0,
                q == u / n,
                rm == u % n,
        ;
        assert(lo <= -q) by (nonlinear_arith)
            requires
                lo * n <= s,
                u == -s,
                u == n * q + rm,
                0 <= rm,
                n > 0,
        ;
        assert(-q <= hi) by (nonlinear_arith)
            requires
                s <= hi * n,
                u == -s,
                u == n * q + rm,
                rm < n,
                n > 0,
        ;
        assert(trunc_div(s, n) == -q) by {
            assert((s * -1) / n == q);
        }
    }
}


/// The values of the cells in rows `i..=er`, columns `sc..=ec`, row by row.
pub open spec fn range_values(g: Grid, i: int, er: int, sc: int, ec: int) -> Seq<i32>
    decreases er + 1 - i,
{
    if i > er {
        Seq::empty()
    } else {
        Seq::new((ec + 1 - sc) as nat, |k: int| g[i][sc + k].val) + range_values(g, i + 1, er, sc, ec)
    }
}

proof fn lemma_scan_cols_values(g: Grid, r: int, c: int, i: int, j: int, ec: int, acc: Seq<i32>)
    requires
        0 <= i < r,
        0 <= j <= ec + 1,
        ec < c,
        forall|k: int| j <= k <= ec ==> (#[trigger] g[i][k]).err == 0,
    ensures
        scan_cols(g, r, c, i, j, ec, acc) == Scan::Done(
            acc + Seq::new((ec + 1 - j) as nat, |k: int| g[i][j + k].val),
        ),
    decreases ec + 1 - j,
{
    let tail = Seq::new((ec + 1 - j) as nat, |k: int| g[i][j + k].val);
    if j <= ec {
        lemma_scan_cols_values(g, r, c, i, j + 1, ec, acc.push(g[i][j].val));
        let rest = Seq::new((ec + 1 - (j + 1)) as nat, |k: int| g[i][(j + 1) + k].val);
        assert(acc.push(g[i][j].val) + rest =~= acc + tail);
    } else {
        assert(acc + tail =~= acc);
    }
}

proof fn lemma_scan_rows_values(
    g: Grid,
    r: int,
    c: int,
    i: int,
    er: int,
    sc: int,
    ec: int,
    acc: Seq<i32>,
)
    requires
        0 <= i <= er + 1,
        er < r,
        0 <= sc <= ec < c,
        forall|a: int, b: int| i <= a <= er && sc <= b <= ec ==> (#[trigger] g[a][b]).err == 0,
    ensures
        scan_rows(g, r, c, i, er, sc, ec, acc) == Scan::Done(acc + range_values(g, i, er, sc, ec)),
    decreases er + 1 - i,
{
    if i <= er {
        lemma_scan_cols_values(g, r, c, i, sc, ec, acc);
        let row = Seq::new((ec + 1 - sc) as nat, |k: int| g[i][sc + k].val);
        lemma_scan_rows_values(g, r, c, i + 1, er, sc, ec, acc + row);
        assert(acc + row + range_values(g, i + 1, er, sc, ec) =~= acc + range_values(g, i, er, sc, ec));
    } else {
        assert(acc + range_values(g, i, er, sc, ec) =~= acc);
    }
}

/// Law: a range function over a range that lies inside the sheet and holds
/// no error cell gives the function of the range's values taken row by row,
/// and leaves the evaluation state as it was; where no partial sum of those
/// values leaves `i32`, `SUM` is their exact sum and
/// `MIN <= AVG <= MAX` (when the number of cells fits in `i32`).
pub proof fn law_range_function_values(
    range: Seq<char>,
    r: int,
    c: int,
    g: Grid,
    func: Seq<char>,
    st: EvalState,
)
    requires
        spec_parse_range(range) is Some,
        ({
            let (sr, er, sc, ec) = spec_parse_range(range)->Some_0;
            &&& 0 <= sr && er < r && 0 <= sc && ec < c
            &&& (er - sr + 1) * (ec - sc + 1) <= i32::MAX
            &&& forall|a: int, b: int| sr <= a <= er && sc <= b <= ec ==> (#[trigger] g[a][b]).err == 0
        }),
    ensures
        ({
            let (sr, er, sc, ec) = spec_parse_range(range)->Some_0;
            let vs = range_values(g, sr as int, er as int, sc as int, ec as int);
            &&& spec_eval_range(range, r, c, g, func, st) == (Ok::<i32, Abort>(aggregate(func, vs)), st)
            &&& sums_fit(vs) ==> aggregate(seq!['S', 'U', 'M'], vs) == sum_int(vs)
            &&& sums_fit(vs) ==> aggregate(seq!['M', 'I', 'N'], vs) <= aggregate(seq!['A', 'V', 'G'], vs)
                <= aggregate(seq!['M', 'A', 'X'], vs)
        }),
{
    let (sr, er, sc, ec) = spec_parse_range(range)->Some_0;
    let w = er - sr + 1;
    let h = ec - sc + 1;
    assert(1 <= w && 1 <= h);
    assert(w <= w * h && h <= w * h) by (nonlinear_arith)
        requires
            1 <= w,
            1 <= h,
    ;
    let p = w * h;
    assert(range_cell_count(sr, er, sc, ec) == p) by {
        assert(er.wrapping_sub(sr) == er - sr);
        assert(er.wrapping_sub(sr).wrapping_add(1) == w);
        assert(ec.wrapping_sub(sc).wrapping_add(1) == h);
        assert(p % 4294967296 == p);
    }
    lemma_scan_rows_values(g, r, c, sr as int, er as int, sc as int, ec as int, Seq::empty());
    let vs = range_values(g, sr as int, er as int, sc as int, ec as int);
    assert(Seq::<i32>::empty() + vs =~= vs);
    if sums_fit(vs) {
        assert(vs.len() > 0) by {
            assert(vs =~= Seq::new(h as nat, |k: int| g[sr as int][sc + k].val) + range_values(
                g,
                sr + 1,
                er as int,
                sc as int,
                ec as int,
            ));
        }
        law_min_avg_max(vs, seq!['A', 'V', 'G']);
    }
}


/// Law: over a non-empty list of values, `MAX` is one of the values and none
/// of them exceeds it, and `MIN` is one of the values and none of them lies
/// below it.
pub proof fn law_min_max_are_extremes(vs: Seq<i32>)
    requires
        vs.len() > 0,
    ensures
        vs.contains(aggregate(seq!['M', 'A', 'X'], vs)),
        vs.contains(aggregate(seq!['M', 'I', 'N'], vs)),
        forall|k: int|
            0 <= k < vs.len() ==> aggregate(seq!['M', 'I', 'N'], vs) <= #[trigger] vs[k] <= aggregate(
                seq!['M', 'A', 'X'],
                vs,
            ),
{
    lemma_seq_extremes(vs);
    let max = seq!['M', 'A', 'X'];
    let min = seq!['M', 'I', 'N'];
    assert(max != seq!['S', 'U', 'M'] && !is_average_name(max) && max != min) by {
        assert(max[1] == 'A' && max[0] == 'M');
        assert(seq!['S', 'U', 'M'][0] == 'S');
        assert(min[1] == 'I');
        assert(seq!['A', 'V', 'G'][0] == 'A');
        assert(seq!['A', 'V', 'E', 'R', 'A', 'G', 'E'].len() == 7);
    }
    assert(min != seq!['S', 'U', 'M'] && !is_average_name(min)) by {
        assert(min[0] == 'M');
        assert(seq!['S', 'U', 'M'][0] == 'S');
        assert(seq!['A', 'V', 'G'][0] == 'A');
        assert(seq!['A', 'V', 'E', 'R', 'A', 'G', 'E'].len() == 7);
    }
}


/// Law: `a op b`, two numbers written in decimal around an operator,
/// evaluates without error to `a + b`, `a - b` or `a * b` (when the result
/// fits in `i32`), or for `b > 0` to `a / b` rounded toward zero, the left
/// number first; `a / 0` is an error.
pub proof fn law_arithmetic_on_numbers(d1: Seq<char>, op: char, d2: Seq<char>, r: int, c: int, g: Grid)
    requires
        d1.len() > 0,
        d2.len() > 0,
        all_digits(d1),
        all_digits(d2),
        digits_value(d1) <= i32::MAX,
        digits_value(d2) <= i32::MAX,
        is_operator(op),
    ensures
        ({
            let f = d1 + seq![op] + d2;
            let a = digits_value(d1) as int;
            let b = digits_value(d2) as int;
            &&& op == '+' && a + b <= i32::MAX ==> spec_eval_plain(f, r, c, g) == Ok::<(i32, bool), Abort>(
                ((a + b) as i32, false),
            )
            &&& op == '-' ==> spec_eval_plain(f, r, c, g) == Ok::<(i32, bool), Abort>(((a - b) as i32, false))
            &&& op == '*' && a * b <= i32::MAX ==> spec_eval_plain(f, r, c, g) == Ok::<(i32, bool), Abort>(
                ((a * b) as i32, false),
            )
            &&& op == '/' && b > 0 ==> spec_eval_plain(f, r, c, g) == Ok::<(i32, bool), Abort>(
                ((a / b) as i32, false),
            )
            &&& op == '/' && b == 0 ==> spec_eval_plain(f, r, c, g) == Ok::<(i32, bool), Abort>((0i32, true))
        }),
{
    let f = d1 + seq![op] + d2;
    let a = digits_value(d1) as int;
    let b = digits_value(d2) as int;
    lemma_binary_of_numbers(d1, op, d2);
    lemma_parse_digits(d1);
    lemma_parse_digits(d2);
    assert(operand_value(d1, r, c, g) == (a as i32, false));
    assert(operand_value(d2, r, c, g) == (b as i32, false));
    if op == '*' && a * b <= i32::MAX {
        assert(0 <= a * b) by (nonlinear_arith)
            requires
                0 <= a,
                0 <= b,
        ;
        assert((a * b) % 4294967296 == a * b);
    }
    if op == '/' && b > 0 {
        assert(0 <= a / b <= a) by (nonlinear_arith)
            requires
                0 <= a,
                0 < b,
        ;
    }
}


proof fn lemma_ref_scan_letters(col: Seq<char>, k: int)
    requires
        0 <= k <= col.len(),
        all_upper(col),
    ensures
        ref_scan(col.take(k)) == (col.take(k), Seq::<char>::empty()),
    decreases k,
{
    if k > 0 {
        lemma_ref_scan_letters(col, k - 1);
        assert(col.take(k).drop_last() =~= col.take(k - 1));
        assert(is_upper(col[k - 1]));
    }
}

proof fn lemma_ref_scan_cell(col: Seq<char>, d: Seq<char>, k: int)
    requires
        0 <= k <= d.len(),
        col.len() > 0,
        all_upper(col),
        all_digits(d),
    ensures
        ref_scan(col + d.take(k)) == (col, d.take(k)),
    decreases k,
{
    if k == 0 {
        lemma_ref_scan_letters(col, col.len() as int);
        assert(col + d.take(0) =~= col.take(col.len() as int));
    } else {
        lemma_ref_scan_cell(col, d, k - 1);
        assert((col + d.take(k)).drop_last() =~= col + d.take(k - 1));
        assert(d.take(k - 1).push(d[k - 1]) =~= d.take(k));
        assert(is_digit(d[k - 1]));
    }
}

/// Upper-case letters then ASCII digits read as the reference with those
/// letters and that row number, and not as a number.
pub proof fn lemma_cell_text_reads(col: Seq<char>, d: Seq<char>)
    requires
        col.len() > 0,
        all_upper(col),
        d.len() > 0,
        all_digits(d),
        digits_value(d) <= i32::MAX,
    ensures
        trimmed(col + d) == col + d,
        spec_parse_i32(col + d) is None,
        spec_parse_cell_reference(col + d) == Some((col, digits_value(d) as i32)),
{
    let t = col + d;
    let n = t.len() as int;
    assert(t[0] == col[0] && is_upper(col[0]));
    assert(t[n - 1] == d[d.len() - 1] && is_digit(d[d.len() - 1]));
    assert(trim_start_at(t, 0, n) == 0);
    assert(trim_end_at(t, 0, n) == n);
    assert(trimmed(t) =~= t);
    assert(spec_parse_i32(t) is None) by {
        assert(!is_digit(t[0]));
    }
    lemma_ref_scan_cell(col, d, d.len() as int);
    assert(d.take(d.len() as int) =~= d);
    lemma_parse_digits(d);
}

/// Law: `cell op n`, a reference to a cell of the sheet that holds no error,
/// an operator and a number in decimal, evaluates with the cell's value `v`
/// on the left: to `v + n`, `v - n` or `v * n` where the result fits in
/// `i32`, to `v / n` for `v >= 0` and `n > 0`, and to an error for `n = 0`.
pub proof fn law_arithmetic_with_reference(
    col: Seq<char>,
    d: Seq<char>,
    op: char,
    d2: Seq<char>,
    r: int,
    c: int,
    g: Grid,
)
    requires
        col.len() > 0,
        all_upper(col),
        d.len() > 0,
        all_digits(d),
        1 <= digits_value(d) <= r,
        digits_value(d) <= i32::MAX,
        0 <= spec_col_index_table(col) < c,
        g[digits_value(d) - 1][spec_col_index_table(col) as int].err == 0,
        d2.len() > 0,
        all_digits(d2),
        digits_value(d2) <= i32::MAX,
        is_operator(op),
    ensures
        ({
            let f = col + d + seq![op] + d2;
            let v = g[digits_value(d) - 1][spec_col_index_table(col) as int].val as int;
            let b = digits_value(d2) as int;
            &&& op == '+' && v + b <= i32::MAX ==> spec_eval_plain(f, r, c, g) == Ok::<(i32, bool), Abort>(
                ((v + b) as i32, false),
            )
            &&& op == '-' && i32::MIN <= v - b ==> spec_eval_plain(f, r, c, g) == Ok::<(i32, bool), Abort>(
                ((v - b) as i32, false),
            )
            &&& op == '*' && i32::MIN <= v * b <= i32::MAX ==> spec_eval_plain(f, r, c, g) == Ok::<
                (i32, bool),
                Abort,
            >(((v * b) as i32, false))
            &&& op == '/' && b > 0 && v >= 0 ==> spec_eval_plain(f, r, c, g) == Ok::<(i32, bool), Abort>(
                ((v / b) as i32, false),
            )
            &&& op == '/' && b == 0 ==> spec_eval_plain(f, r, c, g) == Ok::<(i32, bool), Abort>((0i32, true))
        }),
{
    let v = g[digits_value(d) - 1][spec_col_index_table(col) as int].val as int;
    let b = digits_value(d2) as int;
    lemma_binary_cell_left(col, d, op, d2);
    lemma_cell_text_reads(col, d);
    lemma_parse_digits(d2);
    assert(operand_value(col + d, r, c, g) == (v as i32, false));
    assert(operand_value(d2, r, c, g) == (b as i32, false));
    if op == '*' && i32::MIN <= v * b <= i32::MAX {
        let p = v * b;
        if p < 0 {
            assert(p % 4294967296 == p + 4294967296);
        } else {
            assert(p % 4294967296 == p);
        }
    }
    if op == '/' && b > 0 && v >= 0 {
        assert(0 <= v / b <= v) by (nonlinear_arith)
            requires
                0 <= v,
                0 < b,
        ;
    }
}

/// Law: a formula that is a reference to a cell of the sheet (column letters,
/// then a row number `1..=r` in ASCII digits) evaluates to that cell's value
/// without error when the cell holds none, and to an error when it does.
pub proof fn law_reference_reads_its_cell(col: Seq<char>, d: Seq<char>, r: int, c: int, g: Grid)
    requires
        col.len() > 0,
        all_upper(col),
        d.len() > 0,
        all_digits(d),
        1 <= digits_value(d) <= r,
        digits_value(d) <= i32::MAX,
        0 <= spec_col_index_table(col) < c,
    ensures
        ({
            let i = digits_value(d) - 1;
            let j = spec_col_index_table(col) as int;
            &&& g[i][j].err == 0 ==> spec_eval_plain(col + d, r, c, g) == Ok::<(i32, bool), Abort>(
                (g[i][j].val, false),
            )
            &&& g[i][j].err != 0 ==> spec_eval_plain(col + d, r, c, g) == Ok::<(i32, bool), Abort>(
                (0i32, true),
            )
        }),
{
    lemma_cell_text_reads(col, d);
    lemma_cell_token(col, d);
}


/// Law: over values whose partial sums fit in `i32`, the average (under
/// either of its names) is their exact sum divided by their number, rounded
/// toward zero: `avg * n <= sum < avg * n + n` for a sum `>= 0`, and
/// `avg * n - n < sum <= avg * n` for a negative sum.
pub proof fn law_average_rounds_toward_zero(vs: Seq<i32>, avg: Seq<char>)
    requires
        vs.len() > 0,
        is_average_name(avg),
        sums_fit(vs),
    ensures
        ({
            let n = vs.len() as int;
            let s = sum_int(vs);
            let a = aggregate(avg, vs) as int;
            &&& s >= 0 ==> a * n <= s < a * n + n
            &&& s < 0 ==> a * n - n < s <= a * n
        }),
{
    lemma_wsum_exact(vs);
    let n = vs.len() as int;
    let s = sum_int(vs);
    assert(avg != seq!['S', 'U', 'M']) by {
        if avg == seq!['S', 'U', 'M'] {
            assert(avg[0] == 'S');
        }
    }
    assert(i32::MIN <= s <= i32::MAX) by {
        assert(vs.take(n) =~= vs);
    }
    if s >= 0 {
        let q = s / n;
        assert(q * n <= s < q * n + n && 0 <= q <= s) by (nonlinear_arith)
            requires
                n > 0,
                s >= 0,
                q == s / n,
        ;
        assert(trunc_div(s, n) == q);
    } else {
        let u = -s;
        let q = u / n;
        assert(q * n <= u < q * n + n && 0 <= q <= u) by (nonlinear_arith)
            requires
                n > 0,
                u > 0,
                q == u / n,
        ;
        assert(trunc_div(s, n) == -q);
        assert((-q) * n == -(q * n)) by (nonlinear_arith);
    }
}

} // verus!
