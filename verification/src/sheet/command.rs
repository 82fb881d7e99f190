//! One command line: scrolling, output switches and formula assignments.

use vstd::prelude::*;
use crate::columns::{get_col_index, get_col_index_table, spec_col_index, spec_col_index_table};
use crate::sheet::{Abort, CellUpdate, CellV, Grid, cell, grid, lemma_grid_cell, opt_chars, sheet_wf};
use crate::sheet::eval::{alpha_run, alpha_run_exec, check_invalid_range, spec_check_invalid_range};
use crate::text::{
    chars_of, eq_lit, find_char, find_from, is_alphabetic, is_whitespace, is_ws, parse_i32_range,
    parse_trimmed_i32_range, skip_ws, slice_chars, spec_find_char, spec_find_from, spec_parse_i32,
    starts_with, starts_with_lit, string_of, trim, trimmed, is_alphabetic_char,
};

verus! {

/// What one command line reports besides its effect on the sheet.
#[derive(Copy, Clone)]
pub struct Flags {
    /// A range was invalid, or an assignment named a cell outside the sheet.
    pub inval_r: bool,
    /// The line was not a command.
    pub unrec_cmd: bool,
    /// A reference was refused because it closed a cycle.
    pub cycle_detected: bool,
    /// The cell that the line assigned a formula to.
    pub last_update: CellUpdate,
}

impl Flags {
    /// No flag raised, no cell assigned.
    pub fn new() -> (f: Flags)
        ensures
            !f.inval_r,
            !f.unrec_cmd,
            !f.cycle_detected,
            f.last_update == (CellUpdate { row: -1i32, col: -1i32, is_updated: false }),
    {
        Flags {
            inval_r: false,
            unrec_cmd: false,
            cycle_detected: false,
            last_update: CellUpdate { row: -1, col: -1, is_updated: false },
        }
    }
}

/// The state after one command: whether to quit, the sheet, the view and the
/// flags.
pub struct InputEffect {
    pub quit: bool,
    pub g: Grid,
    pub row_offset: i32,
    pub col_offset: i32,
    pub output_enabled: i32,
    pub flags: Flags,
}

// ---------------------------------------------------------------------------
// `scroll_to <cell>`
// ---------------------------------------------------------------------------

/// First index at or after `i` whose character is not alphabetic.
pub open spec fn alphabetic_run(s: Seq<char>, i: int) -> int
    decreases s.len() - i,
{
    if 0 <= i < s.len() && is_alphabetic_char(s[i]) {
        alphabetic_run(s, i + 1)
    } else {
        i
    }
}

/// First index at or after `i` that holds a blank, or the end.
pub open spec fn word_end(s: Seq<char>, i: int) -> int
    decreases s.len() - i,
{
    if 0 <= i < s.len() && !is_ws(s[i]) {
        word_end(s, i + 1)
    } else {
        i
    }
}

/// The first whitespace-separated word of `s`.
pub open spec fn first_word(s: Seq<char>) -> Option<Seq<char>> {
    let a = skip_ws(s, 0);
    if a >= s.len() {
        None
    } else {
        Some(s.subrange(a, word_end(s, a)))
    }
}

/// The text after `scroll_to` starts at its eleventh byte: the line must hold
/// a tenth character, and that character must take one byte.
pub open spec fn scroll_arg_ok(s: Seq<char>) -> bool {
    s.len() >= 10 && s[9] <= '\u{7f}'
}

/// Column index of letters: looked up in the table of short names first
/// (`table`), or computed directly.
pub open spec fn col_index_of(s: Seq<char>, table: bool) -> i32 {
    if table {
        spec_col_index_table(s)
    } else {
        spec_col_index(s)
    }
}

pub fn col_index_exec(s: &Vec<char>, table: bool) -> (i: i32)
    ensures
        i == col_index_of(s@, table),
{
    if table {
        get_col_index_table(s)
    } else {
        get_col_index(s)
    }
}

/// Where `scroll_to <letters><row>` moves the view, as (row offset, column
/// offset); `None` when the first word after the command names no cell of the
/// sheet.
pub open spec fn spec_scroll_target(s: Seq<char>, r: int, c: int, table: bool) -> Result<Option<(i32, i32)>, Abort> {
    if !scroll_arg_ok(s) {
        Err(Abort::SliceBounds)
    } else {
        match first_word(s.subrange(10, s.len() as int)) {
            None => Ok(None),
            Some(w) => {
                let k = alphabetic_run(w, 0);
                match spec_parse_i32(w.subrange(k, w.len() as int)) {
                    None => Ok(None),
                    Some(row) => {
                        let ci = col_index_of(w.subrange(0, k), table);
                        if 0 <= ci < c && 1 <= row <= r {
                            Ok(Some(((row - 1) as i32, ci)))
                        } else {
                            Ok(None)
                        }
                    },
                }
            },
        }
    }
}

proof fn lemma_alphabetic_run(s: Seq<char>, i: int)
    requires
        0 <= i <= s.len(),
    ensures
        i <= alphabetic_run(s, i) <= s.len(),
    decreases s.len() - i,
{
    if i < s.len() && is_alphabetic_char(s[i]) {
        lemma_alphabetic_run(s, i + 1);
    }
}

proof fn lemma_word_end(s: Seq<char>, i: int)
    requires
        0 <= i <= s.len(),
    ensures
        i <= word_end(s, i) <= s.len(),
    decreases s.len() - i,
{
    if i < s.len() && !is_ws(s[i]) {
        lemma_word_end(s, i + 1);
    }
}

proof fn lemma_skip_ws_bounds(s: Seq<char>, i: int)
    requires
        0 <= i <= s.len(),
    ensures
        i <= skip_ws(s, i) <= s.len(),
    decreases s.len() - i,
{
    if i < s.len() && is_ws(s[i]) {
        lemma_skip_ws_bounds(s, i + 1);
    }
}

fn alphabetic_run_exec(s: &Vec<char>, i: usize) -> (r: usize)
    requires
        i <= s.len(),
    ensures
        r == alphabetic_run(s@, i as int),
        i <= r <= s.len(),
{
    proof {
        lemma_alphabetic_run(s@, i as int);
    }
    let mut j = i;
    while j < s.len() && is_alphabetic(s[j])
        invariant
            i <= j <= s.len(),
            alphabetic_run(s@, j as int) == alphabetic_run(s@, i as int),
        decreases s.len() - j,
    {
        j += 1;
    }
    j
}

fn word_end_exec(s: &Vec<char>, i: usize) -> (r: usize)
    requires
        i <= s.len(),
    ensures
        r == word_end(s@, i as int),
        i <= r <= s.len(),
{
    proof {
        lemma_word_end(s@, i as int);
    }
    let mut j = i;
    while j < s.len() && !is_whitespace(s[j])
        invariant
            i <= j <= s.len(),
            word_end(s@, j as int) == word_end(s@, i as int),
        decreases s.len() - j,
    {
        j += 1;
    }
    j
}

fn skip_ws_exec(s: &Vec<char>, i: usize) -> (r: usize)
    requires
        i <= s.len(),
    ensures
        r == skip_ws(s@, i as int),
        i <= r <= s.len(),
{
    proof {
        lemma_skip_ws_bounds(s@, i as int);
    }
    let mut j = i;
    while j < s.len() && is_whitespace(s[j])
        invariant
            i <= j <= s.len(),
            skip_ws(s@, j as int) == skip_ws(s@, i as int),
        decreases s.len() - j,
    {
        j += 1;
    }
    j
}

/// The first whitespace-separated word of `s`.
pub fn first_word_exec(s: &Vec<char>) -> (w: Option<Vec<char>>)
    ensures
        match w {
            Some(v) => first_word(s@) == Some(v@),
            None => first_word(s@) is None,
        },
{
    let a = skip_ws_exec(s, 0);
    if a >= s.len() {
        None
    } else {
        let b = word_end_exec(s, a);
        Some(slice_chars(s, a, b))
    }
}

/// Where `scroll_to <letters><row>` moves the view (see `spec_scroll_target`).
pub fn scroll_target(input: &Vec<char>, r: i32, c: i32, table: bool) -> (res: Result<Option<(i32, i32)>, Abort>)
    ensures
        res == spec_scroll_target(input@, r as int, c as int, table),
{
    if input.len() < 10 || input[9] > '\u{7f}' {
        return Err(Abort::SliceBounds);
    }
    let rest = slice_chars(input, 10, input.len());
    match first_word_exec(&rest) {
        None => Ok(None),
        Some(w) => {
            let k = alphabetic_run_exec(&w, 0);
            match parse_i32_range(&w, k, w.len()) {
                None => Ok(None),
                Some(row) => {
                    let col = slice_chars(&w, 0, k);
                    let ci = col_index_exec(&col, table);
                    if 0 <= ci && ci < c && 1 <= row && row <= r {
                        Ok(Some((row - 1, ci)))
                    } else {
                        Ok(None)
                    }
                },
            }
        },
    }
}

// ---------------------------------------------------------------------------
// Assignments `<letters><row>=<formula>`
// ---------------------------------------------------------------------------

/// Position of the only `=` of `s`, when it holds exactly one.
pub open spec fn single_eq(s: Seq<char>) -> Option<int> {
    match spec_find_char(s, '=') {
        Some(k) => if spec_find_from(s, seq!['='], k + 1) is None {
            Some(k)
        } else {
            None
        },
        None => None,
    }
}

/// The parts of an assignment: the leading ASCII letters and, when the rest
/// holds exactly one `=` and the text before it is a row number once trimmed,
/// that row and the trimmed text after the `=`.
pub open spec fn spec_assignment(s: Seq<char>) -> (Seq<char>, Option<(i32, Seq<char>)>) {
    let k = alpha_run(s, 0);
    let rest = s.subrange(k, s.len() as int);
    let col = s.subrange(0, k);
    match single_eq(rest) {
        Some(p) => match spec_parse_i32(trimmed(rest.subrange(0, p))) {
            Some(row) => (col, Some((row, trimmed(rest.subrange(p + 1, rest.len() as int))))),
            None => (col, None),
        },
        None => (col, None),
    }
}

fn single_eq_exec(s: &Vec<char>) -> (r: Option<usize>)
    ensures
        match r {
            Some(k) => single_eq(s@) == Some(k as int) && k < s.len(),
            None => single_eq(s@) is None,
        },
{
    match find_char(s, '=') {
        Some(k) => {
            let eq = vec!['='];
            assert(eq@ == seq!['=']);
            if find_from(s, &eq, k + 1).is_none() {
                Some(k)
            } else {
                None
            }
        },
        None => None,
    }
}

/// Splits an assignment into its column letters and, when well formed, its
/// row and formula (see `spec_assignment`).
pub fn parse_assignment(s: &Vec<char>) -> (res: (Vec<char>, Option<(i32, Vec<char>)>))
    ensures
        res.0@ == spec_assignment(s@).0,
        match res.1 {
            Some((row, f)) => spec_assignment(s@).1 == Some((row, f@)),
            None => spec_assignment(s@).1 is None,
        },
{
    let k = alpha_run_exec(s, 0);
    let rest = slice_chars(s, k, s.len());
    let col = slice_chars(s, 0, k);
    match single_eq_exec(&rest) {
        Some(p) => match parse_trimmed_i32_range(&rest, 0, p) {
            Some(row) => {
                let tail = slice_chars(&rest, p + 1, rest.len());
                (col, Some((row, trim(&tail))))
            },
            None => (col, None),
        },
        None => (col, None),
    }
}

// ---------------------------------------------------------------------------
// Processing one command
// ---------------------------------------------------------------------------

/// The grid with the formula of one cell replaced.
pub open spec fn set_formula(g: Grid, i: int, j: int, f: Option<Seq<char>>) -> Grid {
    g.update(i, g[i].update(j, CellV { formula: f, ..g[i][j] }))
}

pub open spec fn lit_q() -> Seq<char> {
    seq!['q']
}

pub open spec fn lit_scroll_to() -> Seq<char> {
    seq!['s', 'c', 'r', 'o', 'l', 'l', '_', 't', 'o']
}

pub open spec fn lit_disable_output() -> Seq<char> {
    seq!['d', 'i', 's', 'a', 'b', 'l', 'e', '_', 'o', 'u', 't', 'p', 'u', 't']
}

pub open spec fn lit_enable_output() -> Seq<char> {
    seq!['e', 'n', 'a', 'b', 'l', 'e', '_', 'o', 'u', 't', 'p', 'u', 't']
}

/// The effect of an assignment `<letters><row>=<formula>` (or of a line that
/// is no command).
pub open spec fn spec_assign(s: Seq<char>, r: int, c: int, same: InputEffect) -> Result<InputEffect, Abort> {
    let fl = same.flags;
    let unrec = InputEffect {
        flags: Flags { unrec_cmd: true, last_update: CellUpdate { is_updated: false, ..fl.last_update }, ..fl },
        ..same
    };
    let inval = InputEffect { flags: Flags { inval_r: true, ..fl }, ..same };
    let (col, parsed) = spec_assignment(s);
    match parsed {
        None => Ok(unrec),
        Some((row, f)) => if col.len() == 0 || row == 0 || f.len() == 0 {
            Ok(unrec)
        } else {
            let ci = spec_col_index_table(col);
            if ci > c || row > r {
                Ok(inval)
            } else if 0 <= ci < c && 1 <= row {
                match spec_check_invalid_range(f) {
                    Err(a) => Err(a),
                    Ok(bad) => if bad != 0 {
                        Ok(inval)
                    } else {
                        Ok(
                            InputEffect {
                                g: set_formula(same.g, row - 1, ci as int, Some(f)),
                                flags: Flags {
                                    unrec_cmd: false,
                                    last_update: CellUpdate { row: (row - 1) as i32, col: ci, is_updated: true },
                                    ..fl
                                },
                                ..same
                            },
                        )
                    },
                }
            } else {
                Ok(unrec)
            }
        },
    }
}

/// The effect of a command that moves the view or switches the display (or
/// quits); `None` for any other line.
pub open spec fn spec_navigate(s: Seq<char>, r: int, c: int, same: InputEffect, table: bool) -> Option<Result<InputEffect, Abort>> {
    let ro = same.row_offset;
    let co = same.col_offset;
    if s == lit_q() {
        Some(Ok(InputEffect { quit: true, ..same }))
    } else if s == seq!['w'] {
        Some(Ok(InputEffect { row_offset: if ro >= 10 { (ro - 10) as i32 } else { 0 }, ..same }))
    } else if s == seq!['s'] {
        Some(Ok(InputEffect { row_offset: if ro.wrapping_add(10) < r { ro.wrapping_add(10) } else { ro }, ..same }))
    } else if s == seq!['a'] {
        Some(Ok(InputEffect { col_offset: if co >= 10 { (co - 10) as i32 } else { 0 }, ..same }))
    } else if s == seq!['d'] {
        Some(Ok(InputEffect { col_offset: if co.wrapping_add(10) < c { co.wrapping_add(10) } else { co }, ..same }))
    } else if starts_with(s, lit_scroll_to()) {
        Some(
            match spec_scroll_target(s, r, c, table) {
                Err(a) => Err(a),
                Ok(None) => Ok(same),
                Ok(Some((nr, nc))) => Ok(InputEffect { row_offset: nr, col_offset: nc, ..same }),
            },
        )
    } else if s == lit_disable_output() {
        Some(Ok(InputEffect { output_enabled: 0, ..same }))
    } else if s == lit_enable_output() {
        Some(Ok(InputEffect { output_enabled: 1, ..same }))
    } else {
        None
    }
}

/// The effect of one command line on a sheet of `r` rows and `c` columns.
pub open spec fn spec_process_input(
    s: Seq<char>,
    r: int,
    c: int,
    g: Grid,
    ro: i32,
    co: i32,
    oe: i32,
    fl: Flags,
) -> Result<InputEffect, Abort> {
    let same = InputEffect { quit: false, g, row_offset: ro, col_offset: co, output_enabled: oe, flags: fl };
    match spec_navigate(s, r, c, same, true) {
        Some(res) => res,
        None => spec_assign(s, r, c, same),
    }
}

/// Carries out a command that moves the view or switches the display (see
/// `spec_navigate`); `None`, changing nothing, for any other line.
pub fn navigate(
    s: &Vec<char>,
    r: i32,
    c: i32,
    row_offset: &mut i32,
    col_offset: &mut i32,
    output_enabled: &mut i32,
    table: bool,
) -> (res: Option<Result<bool, Abort>>)
    ensures
        ({
            let same = InputEffect {
                quit: false,
                g: Seq::empty(),
                row_offset: *old(row_offset),
                col_offset: *old(col_offset),
                output_enabled: *old(output_enabled),
                flags: Flags {
                    inval_r: false,
                    unrec_cmd: false,
                    cycle_detected: false,
                    last_update: CellUpdate { row: 0, col: 0, is_updated: false },
                },
            };
            match spec_navigate(s@, r as int, c as int, same, table) {
                None => res is None && *final(row_offset) == *old(row_offset) && *final(col_offset)
                    == *old(col_offset) && *final(output_enabled) == *old(output_enabled),
                Some(Err(a)) => res == Some(Err::<bool, Abort>(a)),
                Some(Ok(e)) => res == Some(Ok::<bool, Abort>(e.quit)) && *final(row_offset) == e.row_offset
                    && *final(col_offset) == e.col_offset && *final(output_enabled) == e.output_enabled,
            }
        }),
{
    let cmd_q = ['q'];
    assert(cmd_q@ =~= lit_q());
    if eq_lit(s, &cmd_q) {
        assert(s@ == lit_q());
        return Some(Ok(true));
    }
    assert(s@ != lit_q());
    let cmd_w = ['w'];
    assert(cmd_w@ =~= seq!['w']);
    if eq_lit(s, &cmd_w) {
        assert(s@ == seq!['w']);
        *row_offset = if *row_offset >= 10 {
            *row_offset - 10
        } else {
            0
        };
        return Some(Ok(false));
    }
    assert(s@ != seq!['w']);
    let cmd_s = ['s'];
    assert(cmd_s@ =~= seq!['s']);
    if eq_lit(s, &cmd_s) {
        assert(s@ == seq!['s']);
        let next = row_offset.wrapping_add(10);
        *row_offset = if next < r {
            next
        } else {
            *row_offset
        };
        return Some(Ok(false));
    }
    assert(s@ != seq!['s']);
    let cmd_a = ['a'];
    assert(cmd_a@ =~= seq!['a']);
    if eq_lit(s, &cmd_a) {
        assert(s@ == seq!['a']);
        *col_offset = if *col_offset >= 10 {
            *col_offset - 10
        } else {
            0
        };
        return Some(Ok(false));
    }
    assert(s@ != seq!['a']);
    let cmd_d = ['d'];
    assert(cmd_d@ =~= seq!['d']);
    if eq_lit(s, &cmd_d) {
        assert(s@ == seq!['d']);
        let next = col_offset.wrapping_add(10);
        *col_offset = if next < c {
            next
        } else {
            *col_offset
        };
        return Some(Ok(false));
    }
    assert(s@ != seq!['d']);
    let cmd_scroll = ['s', 'c', 'r', 'o', 'l', 'l', '_', 't', 'o'];
    assert(cmd_scroll@ =~= lit_scroll_to());
    if starts_with_lit(s, &cmd_scroll) {
        assert(starts_with(s@, lit_scroll_to()));
        match scroll_target(s, r, c, table) {
            Err(a) => {
                return Some(Err(a));
            },
            Ok(t) => match t {
                Some((nr, nc)) => {
                    *row_offset = nr;
                    *col_offset = nc;
                },
                None => {},
            },
        }
        return Some(Ok(false));
    }
    assert(!starts_with(s@, lit_scroll_to()));
    let cmd_disable = ['d', 'i', 's', 'a', 'b', 'l', 'e', '_', 'o', 'u', 't', 'p', 'u', 't'];
    assert(cmd_disable@ =~= lit_disable_output());
    if eq_lit(s, &cmd_disable) {
        assert(s@ == lit_disable_output());
        *output_enabled = 0;
        return Some(Ok(false));
    }
    assert(s@ != lit_disable_output());
    let cmd_enable = ['e', 'n', 'a', 'b', 'l', 'e', '_', 'o', 'u', 't', 'p', 'u', 't'];
    assert(cmd_enable@ =~= lit_enable_output());
    if eq_lit(s, &cmd_enable) {
        assert(s@ == lit_enable_output());
        *output_enabled = 1;
        return Some(Ok(false));
    }
    assert(s@ != lit_enable_output());
    None
}

/// Replaces the formula of cell `(i, j)`.
pub fn set_cell_formula(sheet: &mut Vec<Vec<cell>>, r: i32, c: i32, i: usize, j: usize, f: Option<String>)
    requires
        sheet_wf(old(sheet)@, r as int, c as int),
        i < r,
        j < c,
    ensures
        sheet_wf(final(sheet)@, r as int, c as int),
        grid(final(sheet)@) == set_formula(
            grid(old(sheet)@),
            i as int,
            j as int,
            opt_chars(f),
        ),
{
    proof {
        lemma_grid_cell(sheet@, r as int, c as int, i as int, j as int);
    }
    let ghost fv = opt_chars(f);
    sheet[i][j].formula = f;
    proof {
        let g0 = grid(old(sheet)@);
        let g1 = grid(sheet@);
        let want = set_formula(g0, i as int, j as int, fv);
        assert forall|a: int| 0 <= a < r implies #[trigger] g1[a] == want[a] by {
            if a == i as int {
                assert(g1[a] =~= want[a]);
            } else {
                assert(sheet@[a] == old(sheet)@[a]);
            }
        }
        assert(g1 =~= want);
    }
}

/// Carries out one command line: `q` asks to quit (the result is `true`);
/// `w`, `s`, `a`, `d` scroll by ten rows or columns; `scroll_to <cell>` moves
/// the view to a cell; `disable_output` and `enable_output` switch the
/// display; `<col><row>=<formula>` stores a formula when the cell lies in the
/// sheet and no range in it runs backwards. Anything else raises
/// `unrec_cmd`.
pub fn process_input(
    input: &str,
    r: i32,
    c: i32,
    sheet: &mut Vec<Vec<cell>>,
    row_offset: &mut i32,
    col_offset: &mut i32,
    output_enabled: &mut i32,
    flags: &mut Flags,
) -> (res: Result<bool, Abort>)
    requires
        sheet_wf(old(sheet)@, r as int, c as int),
    ensures
        sheet_wf(final(sheet)@, r as int, c as int),
        match spec_process_input(
            input@,
            r as int,
            c as int,
            grid(old(sheet)@),
            *old(row_offset),
            *old(col_offset),
            *old(output_enabled),
            *old(flags),
        ) {
            Ok(e) => res == Ok::<bool, Abort>(e.quit) && grid(final(sheet)@) == e.g && *final(row_offset)
                == e.row_offset && *final(col_offset) == e.col_offset && *final(output_enabled)
                == e.output_enabled && *final(flags) == e.flags,
            Err(a) => res == Err::<bool, Abort>(a),
        },
{
    let s = chars_of(input);
    match navigate(&s, r, c, row_offset, col_offset, output_enabled, true) {
        Some(res) => {
            return res;
        },
        None => {},
    }
    let (col, parsed) = parse_assignment(&s);
    match parsed {
        Some((row, f)) => {
            if col.len() > 0 && row != 0 && f.len() > 0 {
                let ci = get_col_index_table(&col);
                if ci > c || row > r {
                    flags.inval_r = true;
                    return Ok(false);
                }
                if 0 <= ci && ci < c && 1 <= row {
                    if check_invalid_range(&f)? != 0 {
                        flags.inval_r = true;
                        return Ok(false);
                    }
                    let text = string_of(f.as_slice());
                    set_cell_formula(sheet, r, c, (row - 1) as usize, ci as usize, Some(text));
                    flags.last_update = CellUpdate { row: row - 1, col: ci, is_updated: true };
                    flags.unrec_cmd = false;
                    return Ok(false);
                }
            }
        },
        None => {},
    }
    flags.last_update.is_updated = false;
    flags.unrec_cmd = true;
    Ok(false)
}


/// The first row and column in view are a row and a column of the sheet.
pub open spec fn view_inside(ro: i32, co: i32, r: int, c: int) -> bool {
    0 <= ro < r && 0 <= co < c
}

/// Whether a view command would push the view past `i32::MAX` (the scroll
/// `s` or `d` ten rows or columns beyond it).
pub open spec fn view_overflows(s: Seq<char>, ro: i32, co: i32) -> bool {
    (s == seq!['s'] && ro > i32::MAX - 10) || (s == seq!['d'] && co > i32::MAX - 10)
}

/// The view commands keep a view that lies inside the sheet inside it.
pub proof fn lemma_navigate_inside(s: Seq<char>, r: int, c: int, same: InputEffect, table: bool)
    requires
        view_inside(same.row_offset, same.col_offset, r, c),
        !view_overflows(s, same.row_offset, same.col_offset),
    ensures
        match spec_navigate(s, r, c, same, table) {
            Some(Ok(e)) => view_inside(e.row_offset, e.col_offset, r, c),
            _ => true,
        },
{
}

} // verus!
