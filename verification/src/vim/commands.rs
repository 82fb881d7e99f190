//! The `:` commands of the modal interface.

use vstd::prelude::*;
use crate::columns::{get_col_index_table, spec_col_index_table};
use crate::sheet::{CellV, Grid, cell, grid, lemma_grid_cell, sheet_wf};
use crate::text::{
    append_chars, chars_of, eq_lit, find_char, find_from, is_decimal_digit, is_upper, is_upper_char,
    nat_decimal, parse_usize_range, replace_all, replace_first, slice_chars, spec_contains,
    spec_find_char, spec_parse_usize, spec_replace_all, spec_replace_first, starts_with,
    starts_with_lit, string_of, is_decimal_char, usize_to_chars, decimal_run, decimal_run_exec,
    is_alphabetic_char, is_numeric_char,
};
use crate::vim::editor::{EditorState, parse_reference_chars, ref_split, spec_parse_cell_reference};
use crate::vim::search::{replace_effect, search_and_replace_vim};
use crate::vim::files::{FileFormat, LoadFormat, load_format, path_extension, save_format, spec_load_format_of, spec_save_format_of};

verus! {

// ---------------------------------------------------------------------------
// Search and replace in formulas
// ---------------------------------------------------------------------------

/// A formula after `:s/search/replace/[g]`: when `search` occurs, its first
/// occurrence (every occurrence when `global`) becomes `replace`.
pub open spec fn substituted(f: Seq<char>, search: Seq<char>, replace: Seq<char>, global: bool) -> Seq<char> {
    if spec_contains(f, search) {
        if global {
            spec_replace_all(f, search, replace)
        } else {
            spec_replace_first(f, search, replace)
        }
    } else {
        f
    }
}

/// Whether the substitution changes the formula of a cell.
pub open spec fn subst_changes(x: CellV, search: Seq<char>, replace: Seq<char>, global: bool) -> bool {
    match x.formula {
        Some(f) => substituted(f, search, replace, global) != f,
        None => false,
    }
}

/// A cell after the substitution.
pub open spec fn subst_cell(x: CellV, search: Seq<char>, replace: Seq<char>, global: bool) -> CellV {
    if subst_changes(x, search, replace, global) {
        CellV { formula: Some(substituted(x.formula->Some_0, search, replace, global)), ..x }
    } else {
        x
    }
}

/// The grid with the cells before `(bi, bj)`, row by row, substituted.
pub open spec fn subst_part(g: Grid, search: Seq<char>, replace: Seq<char>, global: bool, bi: int, bj: int) -> Grid {
    Seq::new(
        g.len(),
        |i: int|
            Seq::new(
                g[i].len(),
                |j: int|
                    if i < bi || (i == bi && j < bj) {
                        subst_cell(g[i][j], search, replace, global)
                    } else {
                        g[i][j]
                    },
            ),
    )
}

/// The grid with the substitution made in cell `(i, j)` only; unchanged
/// when `(i, j)` is no cell of the grid.
pub open spec fn subst_at(g: Grid, i: int, j: int, search: Seq<char>, replace: Seq<char>, global: bool) -> Grid {
    if 0 <= i < g.len() && 0 <= j < g[i].len() {
        g.update(i, g[i].update(j, subst_cell(g[i][j], search, replace, global)))
    } else {
        g
    }
}

/// The number of changed cells among the first `m` of row `i`.
pub open spec fn changed_in_row(g: Grid, search: Seq<char>, replace: Seq<char>, global: bool, i: int, m: int) -> nat
    decreases m,
{
    if m <= 0 {
        0
    } else {
        changed_in_row(g, search, replace, global, i, m - 1) + if subst_changes(g[i][m - 1], search, replace, global) {
            1nat
        } else {
            0nat
        }
    }
}

/// The number of changed cells in the first `k` rows.
pub open spec fn changed_count(g: Grid, search: Seq<char>, replace: Seq<char>, global: bool, k: int, c: int) -> nat
    decreases k,
{
    if k <= 0 {
        0
    } else {
        changed_count(g, search, replace, global, k - 1, c) + changed_in_row(g, search, replace, global, k - 1, c)
    }
}

proof fn lemma_changed_in_row_bound(g: Grid, search: Seq<char>, replace: Seq<char>, global: bool, i: int, m: int)
    requires
        m >= 0,
    ensures
        changed_in_row(g, search, replace, global, i, m) <= m,
    decreases m,
{
    if m > 0 {
        lemma_changed_in_row_bound(g, search, replace, global, i, m - 1);
    }
}

proof fn lemma_changed_count_bound(g: Grid, search: Seq<char>, replace: Seq<char>, global: bool, k: int, c: int)
    requires
        k >= 0,
        c >= 0,
    ensures
        changed_count(g, search, replace, global, k, c) <= k * c,
    decreases k,
{
    if k > 0 {
        lemma_changed_count_bound(g, search, replace, global, k - 1, c);
        lemma_changed_in_row_bound(g, search, replace, global, k - 1, c);
        assert((k - 1) * c + c == k * c) by (nonlinear_arith);
    }
}

proof fn lemma_count_fits(i: int, j: int, r: int, c: int)
    requires
        0 <= i < r,
        0 <= j <= c,
        r * c <= i32::MAX,
    ensures
        i * c + j <= i32::MAX,
{
    assert(i * c + j <= (i + 1) * c) by (nonlinear_arith)
        requires
            0 <= j <= c,
    ;
    assert((i + 1) * c <= r * c) by (nonlinear_arith)
        requires
            i + 1 <= r,
            0 <= c,
    ;
}

fn subst_formula(f: &Vec<char>, search: &Vec<char>, replace: &Vec<char>, global: bool) -> (r: Vec<char>)
    ensures
        r@ == substituted(f@, search@, replace@, global),
{
    if find_from(f, search, 0).is_some() {
        if global {
            replace_all(f, search, replace)
        } else {
            replace_first(f, search, replace)
        }
    } else {
        slice_chars(f, 0, f.len())
    }
}

fn subst_one(sheet: &mut Vec<Vec<cell>>, rows: i32, cols: i32, i: usize, j: usize, search: &Vec<char>, replace: &Vec<char>, global: bool) -> (changed: bool)
    requires
        sheet_wf(old(sheet)@, rows as int, cols as int),
        i < rows,
        j < cols,
    ensures
        sheet_wf(final(sheet)@, rows as int, cols as int),
        changed == subst_changes(grid(old(sheet)@)[i as int][j as int], search@, replace@, global),
        grid(final(sheet)@) == grid(old(sheet)@).update(
            i as int,
            grid(old(sheet)@)[i as int].update(
                j as int,
                subst_cell(grid(old(sheet)@)[i as int][j as int], search@, replace@, global),
            ),
        ),
{
    proof {
        lemma_grid_cell(sheet@, rows as int, cols as int, i as int, j as int);
    }
    let ghost g0 = grid(sheet@);
    let f = match &sheet[i][j].formula {
        Some(t) => chars_of(t.as_str()),
        None => {
            assert(g0[i as int].update(j as int, g0[i as int][j as int]) =~= g0[i as int]);
            assert(g0 =~= g0.update(i as int, g0[i as int]));
            return false;
        },
    };
    let nf = subst_formula(&f, search, replace, global);
    let same = eq_lit(&nf, f.as_slice());
    if same {
        assert(g0[i as int].update(j as int, g0[i as int][j as int]) =~= g0[i as int]);
            assert(g0 =~= g0.update(i as int, g0[i as int]));
        return false;
    }
    sheet[i][j].formula = Some(string_of(nf.as_slice()));
    proof {
        let g1 = grid(sheet@);
        let want = g0.update(
            i as int,
            g0[i as int].update(j as int, subst_cell(g0[i as int][j as int], search@, replace@, global)),
        );
        assert forall|a: int| 0 <= a < rows implies #[trigger] g1[a] == want[a] by {
            if a == i as int {
                assert(g1[a] =~= want[a]);
            } else {
                assert(sheet@[a] == old(sheet)@[a]);
            }
        }
        assert(g1 =~= want);
    }
    true
}

/// Replaces `search` by `replace` in every formula that holds it (every
/// occurrence when `global`, else the first); returns the number of formulas
/// changed.
pub fn search_and_replace(
    sheet: &mut Vec<Vec<cell>>,
    search: &str,
    replace: &str,
    global: bool,
    rows: i32,
    cols: i32,
) -> (count: usize)
    requires
        sheet_wf(old(sheet)@, rows as int, cols as int),
    ensures
        sheet_wf(final(sheet)@, rows as int, cols as int),
        grid(final(sheet)@) == subst_part(grid(old(sheet)@), search@, replace@, global, rows as int, 0),
        count == changed_count(grid(old(sheet)@), search@, replace@, global, rows as int, cols as int),
{
    let s = chars_of(search);
    let t = chars_of(replace);
    let ghost g0 = grid(sheet@);
    let mut count: usize = 0;
    proof {
        let want = subst_part(g0, s@, t@, global, 0, 0);
        assert forall|a: int| 0 <= a < rows implies #[trigger] g0[a] =~= want[a] by {}
        assert(g0 =~= want);
    }
    let mut i: usize = 0;
    while i < rows as usize
        invariant
            sheet_wf(sheet@, rows as int, cols as int),
            g0.len() == rows,
            forall|a: int| 0 <= a < rows ==> (#[trigger] g0[a]).len() == cols,
            s@ == search@,
            t@ == replace@,
            0 <= i <= rows,
            grid(sheet@) == subst_part(g0, s@, t@, global, i as int, 0),
            count == changed_count(g0, s@, t@, global, i as int, cols as int),
        decreases rows - i,
    {
        let mut j: usize = 0;
        let ghost row_start = count;
        while j < cols as usize
            invariant
                sheet_wf(sheet@, rows as int, cols as int),
                g0.len() == rows,
                forall|a: int| 0 <= a < rows ==> (#[trigger] g0[a]).len() == cols,
                s@ == search@,
                t@ == replace@,
                0 <= i < rows,
                0 <= j <= cols,
                grid(sheet@) == subst_part(g0, s@, t@, global, i as int, j as int),
                row_start == changed_count(g0, s@, t@, global, i as int, cols as int),
                count == row_start + changed_in_row(g0, s@, t@, global, i as int, j as int),
            decreases cols - j,
        {
            let ghost before = grid(sheet@);
            assert(before[i as int][j as int] == g0[i as int][j as int]);
            let changed = subst_one(sheet, rows, cols, i, j, &s, &t, global);
            proof {
                let want = subst_part(g0, s@, t@, global, i as int, j + 1);
                assert forall|a: int| 0 <= a < rows implies #[trigger] grid(sheet@)[a] =~= want[a] by {}
                assert(grid(sheet@) =~= want);
                lemma_changed_count_bound(g0, s@, t@, global, i as int, cols as int);
                lemma_changed_in_row_bound(g0, s@, t@, global, i as int, j as int);
                lemma_count_fits(i as int, j as int, rows as int, cols as int);
            }
            if changed {
                count += 1;
            }
            j += 1;
        }
        proof {
            let want = subst_part(g0, s@, t@, global, i + 1, 0);
            assert forall|a: int| 0 <= a < rows implies #[trigger] grid(sheet@)[a] =~= want[a] by {}
            assert(grid(sheet@) =~= want);
        }
        i += 1;
    }
    count
}

// ---------------------------------------------------------------------------
// Batch assignment `i in <start>..<end>: <L>i = <template>`
// (and the two-index form further down)
// ---------------------------------------------------------------------------

/// End of the run of characters other than a newline from `i`.
pub open spec fn line_run(s: Seq<char>, i: int) -> int
    decreases s.len() - i,
{
    if 0 <= i < s.len() && s[i] != '\n' {
        line_run(s, i + 1)
    } else {
        i
    }
}

/// The parts of a batch assignment: the range bounds as typed, the column
/// letter and the formula template.
pub struct BatchCaps {
    pub start: Seq<char>,
    pub end: Seq<char>,
    pub letter: char,
    pub template: Seq<char>,
}

pub open spec fn lit_i_in() -> Seq<char> {
    seq!['i', ' ', 'i', 'n', ' ']
}

pub open spec fn lit_i_eq() -> Seq<char> {
    seq!['i', ' ', '=', ' ']
}

/// A match of `i in (\d+)\.\.(\d+): ([A-Z])i = (.+)` starting at `p`: the
/// digit runs and the template are as long as they can be.
pub open spec fn batch_at(s: Seq<char>, p: int) -> Option<BatchCaps> {
    let a = p + 5;
    if !(0 <= p && a <= s.len() && s.subrange(p, a) == lit_i_in()) {
        None
    } else {
        let b = decimal_run(s, a);
        if b == a || !(b + 2 <= s.len() && s[b] == '.' && s[b + 1] == '.') {
            None
        } else {
            let d = decimal_run(s, b + 2);
            if d == b + 2 || !(d + 2 <= s.len() && s[d] == ':' && s[d + 1] == ' ') {
                None
            } else {
                let l = d + 2;
                if !(l + 5 <= s.len() && is_upper(s[l]) && s.subrange(l + 1, l + 5) == lit_i_eq()) {
                    None
                } else {
                    let t = l + 5;
                    let e = line_run(s, t);
                    if e == t {
                        None
                    } else {
                        Some(
                            BatchCaps {
                                start: s.subrange(a, b),
                                end: s.subrange(b + 2, d),
                                letter: s[l],
                                template: s.subrange(t, e),
                            },
                        )
                    }
                }
            }
        }
    }
}

/// The leftmost match at or after `p`.
pub open spec fn batch_find(s: Seq<char>, p: int) -> Option<BatchCaps>
    decreases s.len() + 1 - p,
{
    if p < 0 || p > s.len() {
        None
    } else {
        match batch_at(s, p) {
            Some(c) => Some(c),
            None => batch_find(s, p + 1),
        }
    }
}

/// The formula of row `k` (1-based): the template with every `i` replaced by
/// `k`.
pub open spec fn batch_formula(template: Seq<char>, k: nat) -> Seq<char> {
    spec_replace_all(template, seq!['i'], nat_decimal(k))
}

/// The grid with column `col` of rows `lo..=hi` (1-based) given the formulas
/// of the template.
pub open spec fn batch_grid(g: Grid, col: int, lo: int, hi: int, template: Seq<char>) -> Grid {
    Seq::new(
        g.len(),
        |k: int|
            if lo <= k + 1 <= hi {
                g[k].update(col, CellV { formula: Some(batch_formula(template, (k + 1) as nat)), ..g[k][col] })
            } else {
                g[k]
            },
    )
}

/// The formula of cell `(i, j)` of a two-index batch: the template with
/// every `i` replaced by the number `i`, then every `j` by the number `j`.
pub open spec fn batch2_formula(template: Seq<char>, i: nat, j: nat) -> Seq<char> {
    spec_replace_all(spec_replace_all(template, seq!['i'], nat_decimal(i)), seq!['j'], nat_decimal(j))
}

/// Whether a two-index batch writes cell `(k, m)` (0-based): row `k + 1`
/// lies in `rlo..=rhi`, and column `m` lies `m - col` columns right of the
/// first column `col`, with `j = clo + (m - col)` at most `chi`.
pub open spec fn batch2_hits(k: int, m: int, col: int, rlo: int, rhi: int, clo: int, chi: int) -> bool {
    rlo <= k + 1 <= rhi && col <= m && clo + (m - col) <= chi
}

/// The grid with the cells that the batch writes given their formulas, for
/// the rows before row `bi` (1-based) and the columns before `bm` of row `bi`.
pub open spec fn batch2_upto(
    g: Grid,
    col: int,
    rlo: int,
    rhi: int,
    clo: int,
    chi: int,
    t: Seq<char>,
    bi: int,
    bm: int,
) -> Grid {
    Seq::new(
        g.len(),
        |k: int|
            Seq::new(
                g[k].len(),
                |m: int|
                    if batch2_hits(k, m, col, rlo, rhi, clo, chi) && (k + 1 < bi || (k + 1 == bi && m < bm)) {
                        CellV { formula: Some(batch2_formula(t, (k + 1) as nat, (clo + (m - col)) as nat)), ..g[k][m] }
                    } else {
                        g[k][m]
                    },
            ),
    )
}

/// The grid after a two-index batch: every cell of rows `rlo..=rhi` (1-based)
/// and of the columns from `col` on that `j = clo..=chi` reach gets the
/// template with `i` and `j` replaced.
pub open spec fn batch2_grid(g: Grid, col: int, rlo: int, rhi: int, clo: int, chi: int, t: Seq<char>) -> Grid {
    batch2_upto(g, col, rlo, rhi, clo, chi, t, rhi + 1, 0)
}

pub open spec fn batch_syntax_error() -> Seq<char> {
    "Invalid batch formula syntax. Use format: i in 1..10: Ai = Bi + 1"@
}

/// The outcome of a two-index batch: the bounds are read in order; a batch
/// that writes no cell of the sheet is a syntax error.
pub open spec fn spec_batch2(caps: Batch2Caps, g: Grid, rows: int, cols: int) -> Result<Grid, Seq<char>> {
    match spec_parse_usize(caps.row_start) {
        None => Err("Invalid row range start"@),
        Some(rs) => match spec_parse_usize(caps.row_end) {
            None => Err("Invalid row range end"@),
            Some(re) => match spec_parse_usize(caps.col_start) {
                None => Err("Invalid column range start"@),
                Some(cs) => match spec_parse_usize(caps.col_end) {
                    None => Err("Invalid column range end"@),
                    Some(ce) => {
                        let col = spec_col_index_table(seq![caps.letter]);
                        let hi: int = if re < rows {
                            re as int
                        } else {
                            rows
                        };
                        if rs <= hi && cs <= ce && col < cols {
                            Ok(batch2_grid(g, col as int, rs as int, hi, cs as int, ce as int, caps.template))
                        } else {
                            Err(batch_syntax_error())
                        }
                    },
                },
            },
        },
    }
}

/// A two-index batch whose rows start at 0 names the row before the first
/// and cannot be carried out, once a column is in range.
pub open spec fn batch2_aborts(caps: Batch2Caps) -> bool {
    match (
        spec_parse_usize(caps.row_start),
        spec_parse_usize(caps.row_end),
        spec_parse_usize(caps.col_start),
        spec_parse_usize(caps.col_end),
    ) {
        (Some(rs), Some(_), Some(cs), Some(ce)) => rs == 0 && cs <= ce,
        _ => false,
    }
}

/// The outcome of a batch assignment on a sheet of `rows` rows and `cols`
/// columns: the new grid, or the message of the error.
pub open spec fn spec_batch(cmd: Seq<char>, g: Grid, rows: int, cols: int) -> Result<Grid, Seq<char>> {
    match batch_find(cmd, 0) {
        None => match batch2_find(cmd, 0) {
            None => Err(batch_syntax_error()),
            Some(caps2) => spec_batch2(caps2, g, rows, cols),
        },
        Some(caps) => match spec_parse_usize(caps.start) {
            None => Err("Invalid range start"@),
            Some(st) => match spec_parse_usize(caps.end) {
                None => Err("Invalid range end"@),
                Some(en) => {
                    let col = spec_col_index_table(seq![caps.letter]);
                    if col >= cols {
                        Err("Column "@ + seq![caps.letter] + " is out of bounds"@)
                    } else {
                        Ok(batch_grid(g, col as int, st as int, if en < rows { en as int } else { rows }, caps.template))
                    }
                },
            },
        },
    }
}

/// A batch assignment that starts at row 0 names the row before the first,
/// and cannot be carried out.
pub open spec fn batch_aborts(cmd: Seq<char>, cols: int) -> bool {
    match batch_find(cmd, 0) {
        None => match batch2_find(cmd, 0) {
            None => false,
            Some(caps2) => batch2_aborts(caps2),
        },
        Some(caps) => match (spec_parse_usize(caps.start), spec_parse_usize(caps.end)) {
            (Some(st), Some(_)) => spec_col_index_table(seq![caps.letter]) < cols && st == 0,
            _ => false,
        },
    }
}

proof fn lemma_line_run(s: Seq<char>, i: int)
    requires
        0 <= i <= s.len(),
    ensures
        i <= line_run(s, i) <= s.len(),
    decreases s.len() - i,
{
    if i < s.len() && s[i] != '\n' {
        lemma_line_run(s, i + 1);
    }
}

fn line_run_exec(s: &Vec<char>, i: usize) -> (r: usize)
    requires
        i <= s.len(),
    ensures
        r == line_run(s@, i as int),
        i <= r <= s.len(),
{
    proof {
        lemma_line_run(s@, i as int);
    }
    let mut j = i;
    while j < s.len() && s[j] != '\n'
        invariant
            i <= j <= s.len(),
            line_run(s@, j as int) == line_run(s@, i as int),
        decreases s.len() - j,
    {
        j += 1;
    }
    j
}

fn occurs_lit(s: &Vec<char>, p: usize, lit: &[char]) -> (b: bool)
    requires
        p <= s.len(),
    ensures
        b == (p + lit@.len() <= s.len() && s@.subrange(p as int, p + lit@.len()) == lit@),
{
    if lit.len() > s.len() - p {
        return false;
    }
    let mut k: usize = 0;
    while k < lit.len()
        invariant
            p + lit@.len() <= s.len(),
            k <= lit.len(),
            forall|m: int| 0 <= m < k ==> s@[p + m] == lit@[m],
        decreases lit.len() - k,
    {
        if s[p + k] != lit[k] {
            assert(s@.subrange(p as int, p + lit@.len())[k as int] != lit@[k as int]);
            return false;
        }
        k += 1;
    }
    assert(s@.subrange(p as int, p + lit@.len()) =~= lit@);
    true
}

/// The spans of a match at `p`: start digits `a..b`, end digits `b+2..d`,
/// the letter at `d+2`, the template `d+7..e`.
fn batch_at_exec(s: &Vec<char>, p: usize) -> (r: Option<(usize, usize, usize, usize)>)
    requires
        p <= s.len(),
    ensures
        match r {
            None => batch_at(s@, p as int) is None,
            Some((b, d, l, e)) => l + 5 <= e <= s.len() && p + 5 <= b && b + 2 <= d && d + 2 == l
                && is_upper(s@[l as int]) && batch_at(s@, p as int) == Some(
                BatchCaps {
                    start: s@.subrange(p + 5, b as int),
                    end: s@.subrange(b + 2, d as int),
                    letter: s@[l as int],
                    template: s@.subrange(l + 5, e as int),
                },
            ),
        },
{
    let i_in = ['i', ' ', 'i', 'n', ' '];
    assert(i_in@ =~= lit_i_in());
    if !occurs_lit(s, p, &i_in) {
        return None;
    }
    let a = p + 5;
    let b = decimal_run_exec(s, a);
    if b == a || !(s.len() - b >= 2 && s[b] == '.' && s[b + 1] == '.') {
        return None;
    }
    let d = decimal_run_exec(s, b + 2);
    if d == b + 2 || !(s.len() - d >= 2 && s[d] == ':' && s[d + 1] == ' ') {
        return None;
    }
    let l = d + 2;
    if !(s.len() - l >= 5 && is_upper_char(s[l])) {
        return None;
    }
    let i_eq = ['i', ' ', '=', ' '];
    assert(i_eq@ =~= lit_i_eq());
    if !occurs_lit(s, l + 1, &i_eq) {
        return None;
    }
    let t = l + 5;
    let e = line_run_exec(s, t);
    if e == t {
        return None;
    }
    Some((b, d, l, e))
}

fn batch_find_exec(s: &Vec<char>) -> (r: Option<(usize, usize, usize, usize, usize)>)
    ensures
        match r {
            None => batch_find(s@, 0) is None,
            Some((p, b, d, l, e)) => p + 5 <= b && b + 2 <= d && d + 2 == l && l + 5 <= e <= s.len()
                && is_upper(s@[l as int]) && batch_find(s@, 0) == Some(
                BatchCaps {
                    start: s@.subrange(p + 5, b as int),
                    end: s@.subrange(b + 2, d as int),
                    letter: s@[l as int],
                    template: s@.subrange(l + 5, e as int),
                },
            ),
        },
{
    let mut p: usize = 0;
    while p < s.len()
        invariant
            p <= s.len(),
            batch_find(s@, p as int) == batch_find(s@, 0),
        decreases s.len() - p,
    {
        match batch_at_exec(s, p) {
            Some((b, d, l, e)) => {
                return Some((p, b, d, l, e));
            },
            None => {},
        }
        p += 1;
    }
    match batch_at_exec(s, p) {
        Some((b, d, l, e)) => Some((p, b, d, l, e)),
        None => {
            assert(batch_find(s@, p + 1) is None);
            None
        },
    }
}

// ---------------------------------------------------------------------------
// Batch assignment over two indices
// `i,j in <a>..<b>,<c>..<d>: <L>i,j = <template>`
// ---------------------------------------------------------------------------

/// The parts of a two-index batch assignment: the bounds of `i` and of `j` as
/// typed, the first column letter and the formula template.
pub struct Batch2Caps {
    pub row_start: Seq<char>,
    pub row_end: Seq<char>,
    pub col_start: Seq<char>,
    pub col_end: Seq<char>,
    pub letter: char,
    pub template: Seq<char>,
}

pub open spec fn lit_ij_in() -> Seq<char> {
    seq!['i', ',', 'j', ' ', 'i', 'n', ' ']
}

pub open spec fn lit_ij_eq() -> Seq<char> {
    seq!['i', ',', 'j', ' ', '=', ' ']
}

/// A match of `i,j in (\d+)\.\.(\d+),(\d+)\.\.(\d+): ([A-Z])i,j = (.+)`
/// starting at `p`: the digit runs and the template are as long as they can
/// be.
pub open spec fn batch2_at(s: Seq<char>, p: int) -> Option<Batch2Caps> {
    let a = p + 7;
    if !(0 <= p && a <= s.len() && s.subrange(p, a) == lit_ij_in()) {
        None
    } else {
        let b = decimal_run(s, a);
        if b == a || !(b + 2 <= s.len() && s[b] == '.' && s[b + 1] == '.') {
            None
        } else {
            let d = decimal_run(s, b + 2);
            if d == b + 2 || !(d + 1 <= s.len() && s[d] == ',') {
                None
            } else {
                let e1 = decimal_run(s, d + 1);
                if e1 == d + 1 || !(e1 + 2 <= s.len() && s[e1] == '.' && s[e1 + 1] == '.') {
                    None
                } else {
                    let f = decimal_run(s, e1 + 2);
                    if f == e1 + 2 || !(f + 2 <= s.len() && s[f] == ':' && s[f + 1] == ' ') {
                        None
                    } else {
                        let l = f + 2;
                        if !(l + 7 <= s.len() && is_upper(s[l]) && s.subrange(l + 1, l + 7) == lit_ij_eq()) {
                            None
                        } else {
                            let t = l + 7;
                            let e = line_run(s, t);
                            if e == t {
                                None
                            } else {
                                Some(
                                    Batch2Caps {
                                        row_start: s.subrange(a, b),
                                        row_end: s.subrange(b + 2, d),
                                        col_start: s.subrange(d + 1, e1),
                                        col_end: s.subrange(e1 + 2, f),
                                        letter: s[l],
                                        template: s.subrange(t, e),
                                    },
                                )
                            }
                        }
                    }
                }
            }
        }
    }
}

/// The leftmost two-index match at or after `p`.
pub open spec fn batch2_find(s: Seq<char>, p: int) -> Option<Batch2Caps>
    decreases s.len() + 1 - p,
{
    if p < 0 || p > s.len() {
        None
    } else {
        match batch2_at(s, p) {
            Some(c) => Some(c),
            None => batch2_find(s, p + 1),
        }
    }
}

/// Spans of a two-index match at `p`.
pub struct Batch2Spans {
    pub b: usize,
    pub d: usize,
    pub e1: usize,
    pub f: usize,
    pub l: usize,
    pub e: usize,
}

pub open spec fn spans_ok(s: Seq<char>, p: int, sp: Batch2Spans) -> bool {
    &&& p + 7 <= sp.b
    &&& sp.b + 2 <= sp.d
    &&& sp.d + 1 <= sp.e1
    &&& sp.e1 + 2 <= sp.f
    &&& sp.f + 2 == sp.l
    &&& sp.l + 7 <= sp.e <= s.len()
    &&& is_upper(s[sp.l as int])
}

pub open spec fn caps_of(s: Seq<char>, p: int, sp: Batch2Spans) -> Batch2Caps {
    Batch2Caps {
        row_start: s.subrange(p + 7, sp.b as int),
        row_end: s.subrange(sp.b + 2, sp.d as int),
        col_start: s.subrange(sp.d + 1, sp.e1 as int),
        col_end: s.subrange(sp.e1 + 2, sp.f as int),
        letter: s[sp.l as int],
        template: s.subrange(sp.l + 7, sp.e as int),
    }
}

fn batch2_at_exec(s: &Vec<char>, p: usize) -> (r: Option<Batch2Spans>)
    requires
        p <= s.len(),
    ensures
        match r {
            None => batch2_at(s@, p as int) is None,
            Some(sp) => spans_ok(s@, p as int, sp) && batch2_at(s@, p as int) == Some(caps_of(s@, p as int, sp)),
        },
{
    let ij_in = ['i', ',', 'j', ' ', 'i', 'n', ' '];
    assert(ij_in@ =~= lit_ij_in());
    if !occurs_lit(s, p, &ij_in) {
        return None;
    }
    let a = p + 7;
    let b = decimal_run_exec(s, a);
    if b == a || !(s.len() - b >= 2 && s[b] == '.' && s[b + 1] == '.') {
        return None;
    }
    let d = decimal_run_exec(s, b + 2);
    if d == b + 2 || !(s.len() - d >= 1 && s[d] == ',') {
        return None;
    }
    let e1 = decimal_run_exec(s, d + 1);
    if e1 == d + 1 || !(s.len() - e1 >= 2 && s[e1] == '.' && s[e1 + 1] == '.') {
        return None;
    }
    let f = decimal_run_exec(s, e1 + 2);
    if f == e1 + 2 || !(s.len() - f >= 2 && s[f] == ':' && s[f + 1] == ' ') {
        return None;
    }
    let l = f + 2;
    if !(s.len() - l >= 7 && is_upper_char(s[l])) {
        return None;
    }
    let ij_eq = ['i', ',', 'j', ' ', '=', ' '];
    assert(ij_eq@ =~= lit_ij_eq());
    if !occurs_lit(s, l + 1, &ij_eq) {
        return None;
    }
    let t = l + 7;
    let e = line_run_exec(s, t);
    if e == t {
        return None;
    }
    Some(Batch2Spans { b, d, e1, f, l, e })
}

fn batch2_find_exec(s: &Vec<char>) -> (r: Option<(usize, Batch2Spans)>)
    ensures
        match r {
            None => batch2_find(s@, 0) is None,
            Some((p, sp)) => spans_ok(s@, p as int, sp) && batch2_find(s@, 0) == Some(caps_of(s@, p as int, sp)),
        },
{
    let mut p: usize = 0;
    while p < s.len()
        invariant
            p <= s.len(),
            batch2_find(s@, p as int) == batch2_find(s@, 0),
        decreases s.len() - p,
    {
        match batch2_at_exec(s, p) {
            Some(sp) => {
                return Some((p, sp));
            },
            None => {},
        }
        p += 1;
    }
    match batch2_at_exec(s, p) {
        Some(sp) => Some((p, sp)),
        None => {
            assert(batch2_find(s@, p + 1) is None);
            None
        },
    }
}

fn message(prefix: &str, tail: &Vec<char>) -> (m: String)
    ensures
        m@ == prefix@ + tail@,
{
    let mut v = chars_of(prefix);
    append_chars(&mut v, tail);
    string_of(v.as_slice())
}

fn set_formula_at(sheet: &mut Vec<Vec<cell>>, rows: i32, cols: i32, i: usize, j: usize, f: &Vec<char>)
    requires
        sheet_wf(old(sheet)@, rows as int, cols as int),
        i < rows,
        j < cols,
    ensures
        sheet_wf(final(sheet)@, rows as int, cols as int),
        grid(final(sheet)@) == grid(old(sheet)@).update(
            i as int,
            grid(old(sheet)@)[i as int].update(j as int, CellV { formula: Some(f@), ..grid(old(sheet)@)[i as int][j as int] }),
        ),
{
    proof {
        lemma_grid_cell(sheet@, rows as int, cols as int, i as int, j as int);
    }
    let ghost g0 = grid(sheet@);
    sheet[i][j].formula = Some(string_of(f.as_slice()));
    proof {
        let g1 = grid(sheet@);
        let want = g0.update(
            i as int,
            g0[i as int].update(j as int, CellV { formula: Some(f@), ..g0[i as int][j as int] }),
        );
        assert forall|a: int| 0 <= a < rows implies #[trigger] g1[a] == want[a] by {
            if a == i as int {
                assert(g1[a] =~= want[a]);
            } else {
                assert(sheet@[a] == old(sheet)@[a]);
            }
        }
        assert(g1 =~= want);
    }
}

fn syntax_error() -> (m: String)
    ensures
        m@ == batch_syntax_error(),
{
    "Invalid batch formula syntax. Use format: i in 1..10: Ai = Bi + 1".to_owned()
}

/// Carries out a two-index batch (see `spec_batch2`) once no one-index batch
/// matched.
fn execute_batch2(s: &Vec<char>, sheet: &mut Vec<Vec<cell>>, rows: i32, cols: i32) -> (res: Result<(), String>)
    requires
        sheet_wf(old(sheet)@, rows as int, cols as int),
        batch_find(s@, 0) is None,
        !batch_aborts(s@, cols as int),
    ensures
        sheet_wf(final(sheet)@, rows as int, cols as int),
        match spec_batch(s@, grid(old(sheet)@), rows as int, cols as int) {
            Ok(g) => res is Ok && grid(final(sheet)@) == g,
            Err(m) => res is Err && res->Err_0@ == m && final(sheet)@ == old(sheet)@,
        },
{
    let (p, sp) = match batch2_find_exec(s) {
        Some(found) => found,
        None => {
            return Err(syntax_error());
        },
    };
    let ghost caps = caps_of(s@, p as int, sp);
    let rs = match parse_usize_range(s, p + 7, sp.b) {
        Some(v) => v,
        None => {
            return Err("Invalid row range start".to_owned());
        },
    };
    let re = match parse_usize_range(s, sp.b + 2, sp.d) {
        Some(v) => v,
        None => {
            return Err("Invalid row range end".to_owned());
        },
    };
    let cs = match parse_usize_range(s, sp.d + 1, sp.e1) {
        Some(v) => v,
        None => {
            return Err("Invalid column range start".to_owned());
        },
    };
    let ce = match parse_usize_range(s, sp.e1 + 2, sp.f) {
        Some(v) => v,
        None => {
            return Err("Invalid column range end".to_owned());
        },
    };
    let letter = vec![s[sp.l]];
    assert(letter@ == seq![s@[sp.l as int]]);
    let col = get_col_index_table(&letter);
    assert(is_upper(s@[sp.l as int]));
    assert(0 <= col < 26);
    let hi: usize = if re < rows as usize {
        re
    } else {
        rows as usize
    };
    if !(rs <= hi && cs <= ce && col < cols) {
        return Err(syntax_error());
    }
    assert(rs >= 1);
    let template = slice_chars(s, sp.l + 7, sp.e);
    let ghost t = template@;
    let ghost g0 = grid(sheet@);
    let colu = col as usize;
    let width = ce - cs;
    let mend: usize = if width >= cols as usize - colu {
        cols as usize
    } else {
        colu + width + 1
    };
    let i_pat = vec!['i'];
    let j_pat = vec!['j'];
    assert(i_pat@ == seq!['i']);
    assert(j_pat@ == seq!['j']);
    proof {
        let start = batch2_upto(g0, col as int, rs as int, hi as int, cs as int, ce as int, t, rs as int, 0);
        assert forall|k: int| 0 <= k < rows implies #[trigger] g0[k] =~= start[k] by {}
        assert(g0 =~= start);
    }
    let mut i: usize = rs;
    while i <= hi
        invariant
            sheet_wf(sheet@, rows as int, cols as int),
            g0.len() == rows,
            forall|k: int| 0 <= k < rows ==> (#[trigger] g0[k]).len() == cols,
            1 <= rs <= i <= hi + 1,
            hi <= rows,
            0 <= col < cols,
            colu == col,
            cs <= ce,
            width == ce - cs,
            colu < mend <= cols,
            mend == cols || mend == colu + width + 1,
            mend < cols ==> colu + width + 1 == mend,
            mend <= colu + width + 1,
            template@ == t,
            i_pat@ == seq!['i'],
            j_pat@ == seq!['j'],
            grid(sheet@) == batch2_upto(g0, col as int, rs as int, hi as int, cs as int, ce as int, t, i as int, 0),
        decreases hi + 1 - i,
    {
        let mut m: usize = colu;
        proof {
            let a = batch2_upto(g0, col as int, rs as int, hi as int, cs as int, ce as int, t, i as int, 0);
            let b = batch2_upto(g0, col as int, rs as int, hi as int, cs as int, ce as int, t, i as int, colu as int);
            assert forall|k: int| 0 <= k < rows implies #[trigger] a[k] =~= b[k] by {}
            assert(a =~= b);
        }
        while m < mend
            invariant
                sheet_wf(sheet@, rows as int, cols as int),
                g0.len() == rows,
                forall|k: int| 0 <= k < rows ==> (#[trigger] g0[k]).len() == cols,
                1 <= rs <= i <= hi,
                hi <= rows,
                0 <= col < cols,
                colu == col,
                cs <= ce,
                width == ce - cs,
                colu <= m <= mend,
                mend <= cols,
                mend < cols ==> colu + width + 1 == mend,
                mend <= colu + width + 1,
                template@ == t,
                i_pat@ == seq!['i'],
                j_pat@ == seq!['j'],
                grid(sheet@) == batch2_upto(g0, col as int, rs as int, hi as int, cs as int, ce as int, t, i as int, m as int),
            decreases mend - m,
        {
            let j = cs + (m - colu);
            let with_i = replace_all(&template, &i_pat, &usize_to_chars(i));
            let f = replace_all(&with_i, &j_pat, &usize_to_chars(j));
            assert(f@ == batch2_formula(t, i as nat, j as nat));
            let ghost before = grid(sheet@);
            assert(before[i - 1][m as int] == g0[i - 1][m as int]);
            set_formula_at(sheet, rows, cols, i - 1, m, &f);
            proof {
                let want = batch2_upto(g0, col as int, rs as int, hi as int, cs as int, ce as int, t, i as int, m + 1);
                assert(batch2_hits(i - 1, m as int, col as int, rs as int, hi as int, cs as int, ce as int));
                assert forall|k: int| 0 <= k < rows implies #[trigger] grid(sheet@)[k] =~= want[k] by {}
                assert(grid(sheet@) =~= want);
            }
            m += 1;
        }
        proof {
            let a = batch2_upto(g0, col as int, rs as int, hi as int, cs as int, ce as int, t, i as int, mend as int);
            let b = batch2_upto(g0, col as int, rs as int, hi as int, cs as int, ce as int, t, i + 1, 0);
            assert forall|k: int| 0 <= k < rows implies #[trigger] a[k] =~= b[k] by {
                if k == i - 1 {
                    assert forall|mm: int| 0 <= mm < cols implies #[trigger] a[k][mm] == b[k][mm] by {
                        if mm >= mend {
                            assert(!batch2_hits(k, mm, col as int, rs as int, hi as int, cs as int, ce as int));
                        }
                    }
                }
            }
            assert(a =~= b);
        }
        i += 1;
    }
    Ok(())
}

/// Carries out `i in <start>..<end>: <L>i = <template>`: rows `start` to
/// `end` (1-based, at most the last row) of column `L` get the template with
/// every `i` replaced by the row number. When no such command is found, the
/// two-index form `i,j in <a>..<b>,<c>..<d>: <L>i,j = <template>` is tried:
/// every cell of rows `a..=b` and of the columns `L`, `L+1`, ... that
/// `j = c..=d` reach gets the template with every `i` replaced by the row
/// number and every `j` by `j` (see `spec_batch`).
pub fn execute_batch_formula(cmd: &str, sheet: &mut Vec<Vec<cell>>, rows: i32, cols: i32) -> (res: Result<(), String>)
    requires
        sheet_wf(old(sheet)@, rows as int, cols as int),
        !batch_aborts(cmd@, cols as int),
    ensures
        sheet_wf(final(sheet)@, rows as int, cols as int),
        match spec_batch(cmd@, grid(old(sheet)@), rows as int, cols as int) {
            Ok(g) => res is Ok && grid(final(sheet)@) == g,
            Err(m) => res is Err && res->Err_0@ == m && final(sheet)@ == old(sheet)@,
        },
{
    let s = chars_of(cmd);
    let (p, b, d, l, e) = match batch_find_exec(&s) {
        Some(found) => found,
        None => {
            return execute_batch2(&s, sheet, rows, cols);
        },
    };
    let st = match parse_usize_range(&s, p + 5, b) {
        Some(v) => v,
        None => {
            return Err("Invalid range start".to_owned());
        },
    };
    let en = match parse_usize_range(&s, b + 2, d) {
        Some(v) => v,
        None => {
            return Err("Invalid range end".to_owned());
        },
    };
    let letter = vec![s[l]];
    assert(letter@ == seq![s@[l as int]]);
    let col = get_col_index_table(&letter);
    assert(is_upper(s@[l as int]));
    assert(0 <= col < 26);
    if col >= cols {
        return Err(message("Column ", &{
            let mut t = letter;
            append_chars(&mut t, &chars_of(" is out of bounds"));
            t
        }));
    }
    let template = slice_chars(&s, l + 5, e);
    let ghost g0 = grid(sheet@);
    let hi: usize = if en < rows as usize {
        en
    } else {
        rows as usize
    };
    let ghost want = batch_grid(g0, col as int, st as int, hi as int, template@);
    let i_pat = vec!['i'];
    assert(i_pat@ == seq!['i']);
    let mut i: usize = st;
    proof {
        assert forall|k: int| 0 <= k < rows implies #[trigger] g0[k] == batch_grid(g0, col as int, st as int, st - 1, template@)[k] by {}
        assert(g0 =~= batch_grid(g0, col as int, st as int, st - 1, template@));
    }
    while i <= hi
        invariant
            sheet_wf(sheet@, rows as int, cols as int),
            g0.len() == rows,
            forall|a: int| 0 <= a < rows ==> (#[trigger] g0[a]).len() == cols,
            1 <= st <= i,
            i <= hi + 1 || i == st,
            hi <= rows,
            0 <= col < cols,
            i_pat@ == seq!['i'],
            grid(sheet@) == batch_grid(g0, col as int, st as int, i - 1, template@),
        decreases hi + 1 - i,
    {
        let number = usize_to_chars(i);
        let formula = replace_all(&template, &i_pat, &number);
        set_formula_at(sheet, rows, cols, i - 1, col as usize, &formula);
        proof {
            let next = batch_grid(g0, col as int, st as int, i as int, template@);
            assert forall|k: int| 0 <= k < rows implies #[trigger] grid(sheet@)[k] == next[k] by {}
            assert(grid(sheet@) =~= next);
        }
        i += 1;
    }
    proof {
        let cur = batch_grid(g0, col as int, st as int, i - 1, template@);
        assert forall|k: int| 0 <= k < rows implies #[trigger] cur[k] == want[k] by {}
        assert(cur =~= want);
    }
    Ok(())
}

// ---------------------------------------------------------------------------
// Dispatching a command
// ---------------------------------------------------------------------------

/// What a command leaves to be done with files.
pub enum CommandEffect {
    /// Nothing: the command is complete.
    Done,
    /// Save the sheet to `filename` in `format`.
    Save { filename: String, format: FileFormat },
    /// Save the sheet to `spreadsheet.ss` in the formula-keeping format, then
    /// quit.
    SaveDefaultThenQuit,
    /// Clear the sheet and read `filename` into it as `format`.
    Load { filename: String, format: LoadFormat },
}

/// The kinds of commands, with what each carries.
pub enum CommandKind {
    Quit,
    SaveQuit,
    Write(Seq<char>),
    Edit(Seq<char>),
    NoFilename,
    Substitute(Seq<char>, Seq<char>, bool),
    ReplaceAll,
    Jump(usize, usize),
    Batch,
    Help,
    Unknown,
}

/// End of the run of `:` at the start of `s`, from `i`.
pub open spec fn colon_run(s: Seq<char>, i: int) -> int
    decreases s.len() - i,
{
    if 0 <= i < s.len() && s[i] == ':' {
        colon_run(s, i + 1)
    } else {
        i
    }
}

/// The command without its leading colons (`trim_start_matches(':')`).
pub open spec fn strip_colons(s: Seq<char>) -> Seq<char> {
    s.subrange(colon_run(s, 0), s.len() as int)
}

/// Search text, replacement and the global flag of `s/<search>/<replace>[/g]`
/// (the text after `s/`); `None` without a second `/`.
pub open spec fn subst_parts(t: Seq<char>) -> Option<(Seq<char>, Seq<char>, bool)> {
    match spec_find_char(t, '/') {
        None => None,
        Some(p1) => {
            let u = t.subrange(p1 + 1, t.len() as int);
            match spec_find_char(u, '/') {
                None => Some((t.subrange(0, p1), u, false)),
                Some(p2) => Some((t.subrange(0, p1), u.subrange(0, p2), u.subrange(p2 + 1, u.len() as int) == seq!['g'])),
            }
        },
    }
}

pub open spec fn default_file() -> Seq<char> {
    "spreadsheet.ss"@
}

pub open spec fn help_text() -> Seq<char> {
    "Available commands:\n:q, :quit - Quit\n:w [filename] - Save\n:wq - Save and quit\n:e, :edit [filename] - Open file\n:s/search/replace[/g] - Search and replace\n:A1 - Jump to cell\n:i in range: formula - Batch formula assignment"@
}

/// What a command (without its leading colons) asks for.
pub open spec fn command_kind(cmd: Seq<char>) -> CommandKind {
    if cmd == seq!['q'] || cmd == seq!['q', 'u', 'i', 't'] {
        CommandKind::Quit
    } else if cmd == seq!['w', 'q'] {
        CommandKind::SaveQuit
    } else if starts_with(cmd, seq!['w', ' ']) {
        CommandKind::Write(cmd.subrange(2, cmd.len() as int))
    } else if cmd == seq!['w'] {
        CommandKind::Write(default_file())
    } else if starts_with(cmd, seq!['e', ' ']) {
        CommandKind::Edit(cmd.subrange(2, cmd.len() as int))
    } else if starts_with(cmd, seq!['e', 'd', 'i', 't', ' ']) {
        CommandKind::Edit(cmd.subrange(5, cmd.len() as int))
    } else if cmd == seq!['e'] {
        CommandKind::NoFilename
    } else if starts_with(cmd, seq!['s', '/']) {
        match subst_parts(cmd.subrange(2, cmd.len() as int)) {
            Some((search, replace, global)) => CommandKind::Substitute(search, replace, global),
            None => CommandKind::Unknown,
        }
    } else {
        match spec_parse_cell_reference(cmd) {
            Some((row, col)) => CommandKind::Jump(row, col),
            None => if starts_with(cmd, lit_i_in()) || starts_with(cmd, lit_ij_in()) {
                CommandKind::Batch
            } else if cmd == seq!['h', 'e', 'l', 'p'] {
                CommandKind::Help
            } else if starts_with(cmd, seq!['%', 's', '/']) {
                CommandKind::ReplaceAll
            } else {
                CommandKind::Unknown
            },
        }
    }
}

/// Whether the command reads or changes the cells of the sheet.
pub open spec fn command_uses_sheet(command: Seq<char>) -> bool {
    match command_kind(strip_colons(command)) {
        CommandKind::Substitute(..) => true,
        CommandKind::ReplaceAll => true,
        CommandKind::Batch => true,
        _ => false,
    }
}

/// Whether the command is a batch assignment that cannot be carried out.
pub open spec fn command_aborts(command: Seq<char>, cols: int) -> bool {
    command_kind(strip_colons(command)) is Batch && batch_aborts(strip_colons(command), cols)
}

/// The first row (or column) in view after jumping to `x`: kept when `x` is
/// within twenty of it, else five before `x`.
pub open spec fn jump_offset(offset: usize, x: usize) -> usize {
    if x < offset || x >= offset.wrapping_add(20) {
        if x >= 5 {
            (x - 5) as usize
        } else {
            0
        }
    } else {
        offset
    }
}

/// Whether the command completed with nothing left to do.
pub open spec fn command_done(res: Result<CommandEffect, String>) -> bool {
    match res {
        Ok(CommandEffect::Done) => true,
        _ => false,
    }
}

pub(crate) fn colon_run_exec(s: &Vec<char>) -> (r: usize)
    ensures
        r == colon_run(s@, 0),
        r <= s.len(),
{
    let mut i: usize = 0;
    while i < s.len() && s[i] == ':'
        invariant
            i <= s.len(),
            colon_run(s@, i as int) == colon_run(s@, 0),
        decreases s.len() - i,
    {
        i += 1;
    }
    i
}

fn subst_parts_exec(t: &Vec<char>) -> (r: Option<(Vec<char>, Vec<char>, bool)>)
    ensures
        match r {
            None => subst_parts(t@) is None,
            Some((a, b, g)) => subst_parts(t@) == Some((a@, b@, g)),
        },
{
    match find_char(t, '/') {
        None => None,
        Some(p1) => {
            proof {
                crate::text::lemma_find_from_props(t@, seq!['/'], 0);
            }
            let search = slice_chars(t, 0, p1);
            let u = slice_chars(t, p1 + 1, t.len());
            match find_char(&u, '/') {
                None => Some((search, u, false)),
                Some(p2) => {
                    proof {
                        crate::text::lemma_find_from_props(u@, seq!['/'], 0);
                    }
                    let replace = slice_chars(&u, 0, p2);
                    let rest = slice_chars(&u, p2 + 1, u.len());
                    let g = ['g'];
                    assert(g@ =~= seq!['g']);
                    let global = eq_lit(&rest, &g);
                    Some((search, replace, global))
                },
            }
        },
    }
}

/// Carries out a `:` command (leading colons are ignored); see
/// `command_kind` for the commands. Quitting, help and failures come back as
/// `Err` with the message to show; saving and loading come back as the
/// `CommandEffect` to carry out.
pub fn execute_command(
    command: &str,
    state: &mut EditorState,
    sheet: &mut Vec<Vec<cell>>,
    rows: i32,
    cols: i32,
) -> (res: Result<CommandEffect, String>)
    requires
        command_uses_sheet(command@) ==> sheet_wf(old(sheet)@, rows as int, cols as int),
        !command_aborts(command@, cols as int),
    ensures
        ({
            let cmd = strip_colons(command@);
            let unchanged = *final(state) == *old(state) && final(sheet)@ == old(sheet)@;
            match command_kind(cmd) {
                CommandKind::Quit => res is Err && res->Err_0@ == "quit"@ && unchanged,
                CommandKind::SaveQuit => (res matches Ok(CommandEffect::SaveDefaultThenQuit)) && unchanged,
                CommandKind::Write(f) => (match res {
                    Ok(CommandEffect::Save { filename, format }) => filename@ == f && format
                        == spec_save_format_of(path_extension(f)),
                    _ => false,
                }) && unchanged,
                CommandKind::Edit(f) => (match res {
                    Ok(CommandEffect::Load { filename, format }) => filename@ == f && format
                        == spec_load_format_of(path_extension(f)),
                    _ => false,
                }) && unchanged,
                CommandKind::NoFilename => res is Err && res->Err_0@ == "No filename specified"@ && unchanged,
                CommandKind::Substitute(search, replace, global) => command_done(res) && *final(state)
                    == *old(state) && sheet_wf(final(sheet)@, rows as int, cols as int) && grid(final(sheet)@)
                    == subst_at(
                    grid(old(sheet)@),
                    old(state).cursor_row as int,
                    old(state).cursor_col as int,
                    search,
                    replace,
                    global,
                ),
                CommandKind::ReplaceAll => sheet_wf(final(sheet)@, rows as int, cols as int) && (res is Ok
                    ==> command_done(res)) && replace_effect(
                    *old(state),
                    *final(state),
                    grid(old(sheet)@),
                    grid(final(sheet)@),
                    cmd,
                    rows as int,
                    cols as int,
                    match res {
                        Ok(_) => Ok(()),
                        Err(e) => Err(e),
                    },
                ),
                CommandKind::Jump(row, col) => final(sheet)@ == old(sheet)@ && if row < rows as usize && col
                    < cols as usize {
                    command_done(res) && final(state).cursor_row == row && final(state).cursor_col == col
                        && final(state).row_offset == jump_offset(old(state).row_offset, row)
                        && final(state).col_offset == jump_offset(old(state).col_offset, col)
                        && final(state).mode == old(state).mode && final(state).command_buffer
                        == old(state).command_buffer && final(state).status_message
                        == old(state).status_message && final(state).edit_buffer == old(state).edit_buffer
                        && final(state).search_matches == old(state).search_matches
                        && final(state).current_match == old(state).current_match
                        && final(state).clipboard == old(state).clipboard && final(state).search_pattern
                        == old(state).search_pattern && final(state).search_forward
                        == old(state).search_forward
                } else {
                    res is Err && res->Err_0@ == "Cell reference out of bounds: "@ + cmd && *final(state)
                        == *old(state)
                },
                CommandKind::Batch => *final(state) == *old(state) && sheet_wf(final(sheet)@, rows as int, cols as int)
                    && match spec_batch(cmd, grid(old(sheet)@), rows as int, cols as int) {
                    Ok(g) => command_done(res) && grid(final(sheet)@) == g,
                    Err(m) => res is Err && res->Err_0@ == m && final(sheet)@ == old(sheet)@,
                },
                CommandKind::Help => res is Err && res->Err_0@ == help_text() && unchanged,
                CommandKind::Unknown => res is Err && res->Err_0@ == "Unknown command: "@ + cmd && unchanged,
            }
        }),
{
    let full = chars_of(command);
    let k = colon_run_exec(&full);
    let cmd = slice_chars(&full, k, full.len());
    assert(cmd@ == strip_colons(command@));
    let q = ['q'];
    let quit = ['q', 'u', 'i', 't'];
    let wq = ['w', 'q'];
    let w_sp = ['w', ' '];
    let w = ['w'];
    let e_sp = ['e', ' '];
    let edit_sp = ['e', 'd', 'i', 't', ' '];
    let s_sl = ['s', '/'];
    let i_in = ['i', ' ', 'i', 'n', ' '];
    let help = ['h', 'e', 'l', 'p'];
    assert(q@ =~= seq!['q']);
    assert(quit@ =~= seq!['q', 'u', 'i', 't']);
    assert(wq@ =~= seq!['w', 'q']);
    assert(w_sp@ =~= seq!['w', ' ']);
    assert(w@ =~= seq!['w']);
    assert(e_sp@ =~= seq!['e', ' ']);
    assert(edit_sp@ =~= seq!['e', 'd', 'i', 't', ' ']);
    assert(s_sl@ =~= seq!['s', '/']);
    assert(i_in@ =~= lit_i_in());
    assert(help@ =~= seq!['h', 'e', 'l', 'p']);
    if eq_lit(&cmd, &q) || eq_lit(&cmd, &quit) {
        return Err("quit".to_owned());
    }
    if eq_lit(&cmd, &wq) {
        return Ok(CommandEffect::SaveDefaultThenQuit);
    }
    if starts_with_lit(&cmd, &w_sp) || eq_lit(&cmd, &w) {
        let filename = if eq_lit(&cmd, &w) {
            "spreadsheet.ss".to_owned()
        } else {
            string_of(slice_chars(&cmd, 2, cmd.len()).as_slice())
        };
        let format = save_format(filename.as_str());
        return Ok(CommandEffect::Save { filename, format });
    }
    if starts_with_lit(&cmd, &e_sp) || starts_with_lit(&cmd, &edit_sp) {
        let start: usize = if starts_with_lit(&cmd, &e_sp) {
            2
        } else {
            5
        };
        let filename = string_of(slice_chars(&cmd, start, cmd.len()).as_slice());
        let format = load_format(filename.as_str());
        return Ok(CommandEffect::Load { filename, format });
    }
    let e = ['e'];
    assert(e@ =~= seq!['e']);
    if eq_lit(&cmd, &e) {
        return Err("No filename specified".to_owned());
    }
    if starts_with_lit(&cmd, &s_sl) {
        let t = slice_chars(&cmd, 2, cmd.len());
        match subst_parts_exec(&t) {
            Some((search, replace, global)) => {
                let row = state.cursor_row;
                let col = state.cursor_col;
                let ghost g0 = grid(sheet@);
                if row < rows as usize && col < cols as usize {
                    let _changed = subst_one(sheet, rows, cols, row, col, &search, &replace, global);
                } else {
                    assert(subst_at(g0, row as int, col as int, search@, replace@, global) == g0);
                }
                return Ok(CommandEffect::Done);
            },
            None => {
                return Err(message("Unknown command: ", &cmd));
            },
        }
    }
    match parse_reference_chars(&cmd) {
        Some((row, col)) => {
            if row < rows as usize && col < cols as usize {
                state.cursor_row = row;
                state.cursor_col = col;
                if row < state.row_offset || row >= state.row_offset.wrapping_add(20) {
                    state.row_offset = if row >= 5 {
                        row - 5
                    } else {
                        0
                    };
                }
                if col < state.col_offset || col >= state.col_offset.wrapping_add(20) {
                    state.col_offset = if col >= 5 {
                        col - 5
                    } else {
                        0
                    };
                }
                return Ok(CommandEffect::Done);
            } else {
                return Err(message("Cell reference out of bounds: ", &cmd));
            }
        },
        None => {},
    }
    let ij_in = ['i', ',', 'j', ' ', 'i', 'n', ' '];
    assert(ij_in@ =~= lit_ij_in());
    if starts_with_lit(&cmd, &i_in) || starts_with_lit(&cmd, &ij_in) {
        let text = string_of(cmd.as_slice());
        return match execute_batch_formula(text.as_str(), sheet, rows, cols) {
            Ok(()) => Ok(CommandEffect::Done),
            Err(m) => Err(m),
        };
    }
    if eq_lit(&cmd, &help) {
        return Err("Available commands:\n:q, :quit - Quit\n:w [filename] - Save\n:wq - Save and quit\n:e, :edit [filename] - Open file\n:s/search/replace[/g] - Search and replace\n:A1 - Jump to cell\n:i in range: formula - Batch formula assignment".to_owned());
    }
    let pct = ['%', 's', '/'];
    assert(pct@ =~= seq!['%', 's', '/']);
    if starts_with_lit(&cmd, &pct) {
        let text = string_of(cmd.as_slice());
        return match search_and_replace_vim(state, sheet, text.as_str(), rows, cols) {
            Ok(()) => Ok(CommandEffect::Done),
            Err(m) => Err(m),
        };
    }
    Err(message("Unknown command: ", &cmd))
}

fn batch_aborts_exec(s: &Vec<char>, cols: i32) -> (b: bool)
    ensures
        b == batch_aborts(s@, cols as int),
{
    match batch_find_exec(s) {
        None => match batch2_find_exec(s) {
            None => false,
            Some((p, sp)) => {
                let rs = parse_usize_range(s, p + 7, sp.b);
                let re = parse_usize_range(s, sp.b + 2, sp.d);
                let cs = parse_usize_range(s, sp.d + 1, sp.e1);
                let ce = parse_usize_range(s, sp.e1 + 2, sp.f);
                match (rs, re, cs, ce) {
                    (Some(a), Some(_), Some(c0), Some(c1)) => a == 0 && c0 <= c1,
                    _ => false,
                }
            },
        },
        Some((p, b, d, l, _e)) => {
            let st = parse_usize_range(s, p + 5, b);
            let en = parse_usize_range(s, b + 2, d);
            match (st, en) {
                (Some(start), Some(_)) => {
                    let letter = vec![s[l]];
                    assert(letter@ == seq![s@[l as int]]);
                    let col = get_col_index_table(&letter);
                    col < cols && start == 0
                },
                _ => false,
            }
        },
    }
}

/// Whether `execute_command` cannot carry `command` out (see
/// `command_aborts`): a batch assignment whose first row is 0. Callers test
/// it before `execute_command`.
pub fn command_would_abort(command: &str, cols: i32) -> (b: bool)
    ensures
        b == command_aborts(command@, cols as int),
{
    let full = chars_of(command);
    let k = colon_run_exec(&full);
    let cmd = slice_chars(&full, k, full.len());
    assert(cmd@ == strip_colons(command@));
    let q = ['q'];
    let quit = ['q', 'u', 'i', 't'];
    let wq = ['w', 'q'];
    let w_sp = ['w', ' '];
    let w = ['w'];
    let e_sp = ['e', ' '];
    let edit_sp = ['e', 'd', 'i', 't', ' '];
    let s_sl = ['s', '/'];
    let i_in = ['i', ' ', 'i', 'n', ' '];
    assert(q@ =~= seq!['q']);
    assert(quit@ =~= seq!['q', 'u', 'i', 't']);
    assert(wq@ =~= seq!['w', 'q']);
    assert(w_sp@ =~= seq!['w', ' ']);
    assert(w@ =~= seq!['w']);
    assert(e_sp@ =~= seq!['e', ' ']);
    assert(edit_sp@ =~= seq!['e', 'd', 'i', 't', ' ']);
    assert(s_sl@ =~= seq!['s', '/']);
    assert(i_in@ =~= lit_i_in());
    if eq_lit(&cmd, &q) || eq_lit(&cmd, &quit) || eq_lit(&cmd, &wq) || starts_with_lit(&cmd, &w_sp) || eq_lit(
        &cmd,
        &w,
    ) || starts_with_lit(&cmd, &e_sp) || starts_with_lit(&cmd, &edit_sp) || starts_with_lit(&cmd, &s_sl) {
        return false;
    }
    if parse_reference_chars(&cmd).is_some() {
        return false;
    }
    let ij_in = ['i', ',', 'j', ' ', 'i', 'n', ' '];
    assert(ij_in@ =~= lit_ij_in());
    if !(starts_with_lit(&cmd, &i_in) || starts_with_lit(&cmd, &ij_in)) {
        return false;
    }
    batch_aborts_exec(&cmd, cols)
}


/// Law: a `:<cell>` jump shows its target: after the jump the target row (or
/// column) lies in the twenty rows (or columns) in view, and a target that
/// was already in view leaves the view where it was (when the view's end
/// does not pass `usize::MAX`).
pub proof fn law_jump_shows_target(offset: usize, x: usize)
    requires
        offset + 20 <= usize::MAX,
    ensures
        jump_offset(offset, x) <= x < jump_offset(offset, x) + 20,
        offset <= x < offset + 20 ==> jump_offset(offset, x) == offset,
{
}


/// Every character of a text that splits into reference letters and digits
/// is a letter or a digit, and a digit part is never empty unless the text
/// had a numeric character.
proof fn lemma_ref_split_chars(s: Seq<char>)
    requires
        ref_split(s) is Some,
    ensures
        forall|i: int| 0 <= i < s.len() ==> is_alphabetic_char(#[trigger] s[i]) || is_numeric_char(s[i]),
        ref_split(s)->Some_0.1.len() > 0 ==> exists|i: int| 0 <= i < s.len() && is_numeric_char(#[trigger] s[i]),
    decreases s.len(),
{
    if s.len() > 0 {
        lemma_ref_split_chars(s.drop_last());
        assert forall|i: int| 0 <= i < s.len() implies is_alphabetic_char(#[trigger] s[i]) || is_numeric_char(s[i]) by {
            if i < s.len() - 1 {
                assert(s[i] == s.drop_last()[i]);
            }
        }
        if ref_split(s)->Some_0.1.len() > 0 && !is_numeric_char(s.last()) {
            let i = choose|i: int| 0 <= i < s.drop_last().len() && is_numeric_char(#[trigger] s.drop_last()[i]);
            assert(s[i] == s.drop_last()[i]);
        }
    }
}

/// Law: a command that reads as a cell reference is a jump to that cell,
/// whatever its letters: no other command of the editor reads as one. With
/// `law_jump_shows_target`, a jump inside the sheet puts the cursor on the
/// cell and keeps it in view.
pub proof fn law_cell_reference_jumps(cmd: Seq<char>)
    requires
        spec_parse_cell_reference(cmd) is Some,
    ensures
        command_kind(cmd) == CommandKind::Jump(
            spec_parse_cell_reference(cmd)->Some_0.0,
            spec_parse_cell_reference(cmd)->Some_0.1,
        ),
{
    lemma_ref_split_chars(cmd);
    let rs = ref_split(cmd)->Some_0.1;
    assert(rs.len() > 0);
    let k = choose|i: int| 0 <= i < cmd.len() && is_numeric_char(#[trigger] cmd[i]);
    if cmd == seq!['q'] || cmd == seq!['q', 'u', 'i', 't'] || cmd == seq!['w', 'q'] || cmd == seq!['w']
        || cmd == seq!['e'] {
        assert(!is_numeric_char(cmd[k]));
    }
    if starts_with(cmd, seq!['w', ' ']) || starts_with(cmd, seq!['e', ' ']) {
        assert(cmd[1] == cmd.subrange(0, 2)[1]);
        assert(!is_alphabetic_char(cmd[1]) && !is_numeric_char(cmd[1]));
    }
    if starts_with(cmd, seq!['s', '/']) {
        assert(cmd[1] == cmd.subrange(0, 2)[1]);
        assert(!is_alphabetic_char(cmd[1]) && !is_numeric_char(cmd[1]));
    }
    if starts_with(cmd, seq!['e', 'd', 'i', 't', ' ']) {
        assert(cmd[4] == cmd.subrange(0, 5)[4]);
        assert(!is_alphabetic_char(cmd[4]) && !is_numeric_char(cmd[4]));
    }
}

} // verus!
