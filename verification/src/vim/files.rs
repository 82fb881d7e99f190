//! The sheet as text and back: comma- and tab-separated values, and a format
//! of `<cell>=<formula or value>` lines that keeps formulas.

use vstd::prelude::*;
use crate::columns::{col_name, column_name_chars, lemma_col_name_upper, spec_column_name};
use crate::sheet::{CellV, Grid, cell, grid, lemma_grid_cell, sheet_wf};
use crate::sheet::display::cell_text;
use crate::text::{
    is_digit, is_upper, law_parse_i32_of_decimal, lemma_nat_decimal, nat_decimal,
    append_chars, chars_of, eq_lit, find_char, i32_decimal, i32_to_chars, parse_i32, slice_chars,
    occurs_at, spec_find_char, spec_parse_i32, split_at_char, split_char, lemma_split_char_len, starts_with,
    starts_with_lit, string_of,
};
use crate::vim::editor::{parse_reference_chars, spec_parse_cell_reference};

verus! {

/// The formats a sheet can be saved in.
#[derive(Copy, Clone, PartialEq, Eq, Structural, Debug)]
pub enum FileFormat {
    Csv,
    Tsv,
    /// `ROWS:<r> COLS:<c>`, then one `<cell>=<formula or value>` line per
    /// cell that has a formula or a non-zero value.
    Custom,
}

/// How a file is read: in a known format, or in one guessed from its first
/// line.
#[derive(Copy, Clone, PartialEq, Eq, Structural, Debug)]
pub enum LoadFormat {
    Known(FileFormat),
    Guess,
}

// ---------------------------------------------------------------------------
// Choosing a format
// ---------------------------------------------------------------------------

/// The extension of a path, as `Path::extension` gives it; empty when there is
/// none. Which characters separate the parts of a path is fixed by the
/// system the program is built for, so the name is one function within one
/// build.
pub uninterp spec fn path_extension(p: Seq<char>) -> Seq<char>;

/// `Path::extension`, as text. Trusted: the result is the extension of the
/// path `filename` (the empty text when it has none).
#[verifier::external_body]
fn file_extension(filename: &str) -> (e: String)
    ensures
        e@ == path_extension(filename@),
{
    std::path::Path::new(filename).extension().and_then(|s| s.to_str()).unwrap_or("").to_owned()
}

/// The format a file is saved in: CSV for `csv`, TSV for `tsv`, otherwise
/// the formula-keeping format.
pub open spec fn spec_save_format_of(ext: Seq<char>) -> FileFormat {
    if ext == seq!['c', 's', 'v'] {
        FileFormat::Csv
    } else if ext == seq!['t', 's', 'v'] {
        FileFormat::Tsv
    } else {
        FileFormat::Custom
    }
}

/// The format a file is loaded in: by extension `csv`, `tsv` or `ss`,
/// otherwise guessed.
pub open spec fn spec_load_format_of(ext: Seq<char>) -> LoadFormat {
    if ext == seq!['c', 's', 'v'] {
        LoadFormat::Known(FileFormat::Csv)
    } else if ext == seq!['t', 's', 'v'] {
        LoadFormat::Known(FileFormat::Tsv)
    } else if ext == seq!['s', 's'] {
        LoadFormat::Known(FileFormat::Custom)
    } else {
        LoadFormat::Guess
    }
}

/// The format a file with extension `ext` is saved in.
pub fn save_format_of(ext: &str) -> (f: FileFormat)
    ensures
        f == spec_save_format_of(ext@),
{
    let e = chars_of(ext);
    let csv = ['c', 's', 'v'];
    let tsv = ['t', 's', 'v'];
    assert(csv@ =~= seq!['c', 's', 'v']);
    assert(tsv@ =~= seq!['t', 's', 'v']);
    if eq_lit(&e, &csv) {
        FileFormat::Csv
    } else if eq_lit(&e, &tsv) {
        FileFormat::Tsv
    } else {
        FileFormat::Custom
    }
}

/// The format a file with extension `ext` is loaded in.
pub fn load_format_of(ext: &str) -> (f: LoadFormat)
    ensures
        f == spec_load_format_of(ext@),
{
    let e = chars_of(ext);
    let csv = ['c', 's', 'v'];
    let tsv = ['t', 's', 'v'];
    let ss = ['s', 's'];
    assert(csv@ =~= seq!['c', 's', 'v']);
    assert(tsv@ =~= seq!['t', 's', 'v']);
    assert(ss@ =~= seq!['s', 's']);
    if eq_lit(&e, &csv) {
        LoadFormat::Known(FileFormat::Csv)
    } else if eq_lit(&e, &tsv) {
        LoadFormat::Known(FileFormat::Tsv)
    } else if eq_lit(&e, &ss) {
        LoadFormat::Known(FileFormat::Custom)
    } else {
        LoadFormat::Guess
    }
}

/// The format `filename` is saved in, by its extension.
pub fn save_format(filename: &str) -> (f: FileFormat)
    ensures
        f == spec_save_format_of(path_extension(filename@)),
{
    let e = file_extension(filename);
    save_format_of(e.as_str())
}

/// The format `filename` is loaded in, by its extension.
pub fn load_format(filename: &str) -> (f: LoadFormat)
    ensures
        f == spec_load_format_of(path_extension(filename@)),
{
    let e = file_extension(filename);
    load_format_of(e.as_str())
}

pub open spec fn has_char(s: Seq<char>, c: char) -> bool {
    spec_find_char(s, c) is Some
}

/// The format of a file guessed from its first line: tabs mean TSV, commas
/// CSV, a `ROWS:` header the formula-keeping format.
pub open spec fn spec_guess_format(first: Seq<char>) -> Option<FileFormat> {
    if has_char(first, '\t') {
        Some(FileFormat::Tsv)
    } else if has_char(first, ',') {
        Some(FileFormat::Csv)
    } else if starts_with(first, seq!['R', 'O', 'W', 'S', ':']) {
        Some(FileFormat::Custom)
    } else {
        None
    }
}

/// Guesses the format of a file from its first line (see `spec_guess_format`).
pub fn guess_format(first_line: &str) -> (f: Option<FileFormat>)
    ensures
        f == spec_guess_format(first_line@),
{
    let s = chars_of(first_line);
    let header = ['R', 'O', 'W', 'S', ':'];
    assert(header@ =~= seq!['R', 'O', 'W', 'S', ':']);
    if find_char(&s, '\t').is_some() {
        Some(FileFormat::Tsv)
    } else if find_char(&s, ',').is_some() {
        Some(FileFormat::Csv)
    } else if starts_with_lit(&s, &header) {
        Some(FileFormat::Custom)
    } else {
        None
    }
}

// ---------------------------------------------------------------------------
// Writing
// ---------------------------------------------------------------------------

/// The first `m` cells of row `i`, as `ERR` or the value, separated by `sep`.
pub open spec fn fields_text(g: Grid, i: int, m: int, sep: char) -> Seq<char>
    decreases m,
{
    if m <= 0 {
        Seq::empty()
    } else if m == 1 {
        cell_text(g[i][0])
    } else {
        fields_text(g, i, m - 1, sep) + seq![sep] + cell_text(g[i][m - 1])
    }
}

/// The first `k` rows of the sheet, one line each.
pub open spec fn delimited_text(g: Grid, k: int, c: int, sep: char) -> Seq<char>
    decreases k,
{
    if k <= 0 {
        Seq::empty()
    } else {
        delimited_text(g, k - 1, c, sep) + fields_text(g, k - 1, c, sep) + seq!['\n']
    }
}

/// The line of one cell in the formula-keeping format: its name, `=`, then
/// its formula, or its value when it has no formula and the value is not 0.
pub open spec fn custom_entry(g: Grid, i: int, j: int) -> Seq<char> {
    let name = col_name((j + 1) as nat) + i32_decimal((i + 1) as i32);
    match g[i][j].formula {
        Some(f) => name + seq!['='] + f + seq!['\n'],
        None => if g[i][j].val != 0 {
            name + seq!['='] + i32_decimal(g[i][j].val) + seq!['\n']
        } else {
            Seq::empty()
        },
    }
}

/// The lines of the first `m` cells of row `i`.
pub open spec fn custom_row(g: Grid, i: int, m: int) -> Seq<char>
    decreases m,
{
    if m <= 0 {
        Seq::empty()
    } else {
        custom_row(g, i, m - 1) + custom_entry(g, i, m - 1)
    }
}

/// The lines of the first `k` rows.
pub open spec fn custom_rows(g: Grid, k: int, c: int) -> Seq<char>
    decreases k,
{
    if k <= 0 {
        Seq::empty()
    } else {
        custom_rows(g, k - 1, c) + custom_row(g, k - 1, c)
    }
}

/// The whole file in the formula-keeping format.
pub open spec fn custom_text(g: Grid, r: i32, c: i32) -> Seq<char> {
    seq!['R', 'O', 'W', 'S', ':'] + i32_decimal(r) + seq![' ', 'C', 'O', 'L', 'S', ':'] + i32_decimal(c)
        + seq!['\n'] + custom_rows(g, r as int, c as int)
}

/// The text of a sheet in a format.
pub open spec fn spec_sheet_text(g: Grid, r: i32, c: i32, format: FileFormat) -> Seq<char> {
    match format {
        FileFormat::Csv => delimited_text(g, r as int, c as int, ','),
        FileFormat::Tsv => delimited_text(g, r as int, c as int, '\t'),
        FileFormat::Custom => custom_text(g, r, c),
    }
}

fn push_cell_text(out: &mut Vec<char>, x: &cell)
    ensures
        final(out)@ == old(out)@ + cell_text(x@),
{
    if x.err != 0 {
        out.push('E');
        out.push('R');
        out.push('R');
        assert(final(out)@ =~= old(out)@ + seq!['E', 'R', 'R']);
    } else {
        append_chars(out, &i32_to_chars(x.val));
    }
}

/// The sheet as lines of values separated by `sep` (`ERR` for a cell in
/// error), one line per row.
pub fn delimited_sheet_text(sheet: &Vec<Vec<cell>>, rows: i32, cols: i32, sep: char) -> (out: Vec<char>)
    requires
        sheet_wf(sheet@, rows as int, cols as int),
    ensures
        out@ == delimited_text(grid(sheet@), rows as int, cols as int, sep),
{
    let ghost g = grid(sheet@);
    let mut out: Vec<char> = Vec::new();
    let mut row: i32 = 0;
    while row < rows
        invariant
            sheet_wf(sheet@, rows as int, cols as int),
            g == grid(sheet@),
            0 <= row <= rows,
            out@ == delimited_text(g, row as int, cols as int, sep),
        decreases rows - row,
    {
        let ghost start = out@;
        let mut col: i32 = 0;
        while col < cols
            invariant
                sheet_wf(sheet@, rows as int, cols as int),
                g == grid(sheet@),
                0 <= row < rows,
                0 <= col <= cols,
                out@ == start + fields_text(g, row as int, col as int, sep),
            decreases cols - col,
        {
            proof {
                lemma_grid_cell(sheet@, rows as int, cols as int, row as int, col as int);
            }
            if col > 0 {
                out.push(sep);
            }
            push_cell_text(&mut out, &sheet[row as usize][col as usize]);
            proof {
                if col > 0 {
                    assert(out@ == start + (fields_text(g, row as int, col as int, sep) + seq![sep]
                        + cell_text(g[row as int][col as int])));
                } else {
                    assert(out@ == start + cell_text(g[row as int][0]));
                }
            }
            col += 1;
        }
        out.push('\n');
        assert(out@ == start + fields_text(g, row as int, cols as int, sep) + seq!['\n']);
        row += 1;
    }
    out
}

fn push_entry(out: &mut Vec<char>, rows: i32, cols: i32, sheet: &Vec<Vec<cell>>, row: i32, col: i32)
    requires
        sheet_wf(sheet@, rows as int, cols as int),
        0 <= row < rows,
        0 <= col < cols,
    ensures
        final(out)@ == old(out)@ + custom_entry(grid(sheet@), row as int, col as int),
{
    proof {
        lemma_grid_cell(sheet@, rows as int, cols as int, row as int, col as int);
    }
    let x = &sheet[row as usize][col as usize];
    let name = column_name_chars(col as usize);
    assert((col as usize).wrapping_add(1) == col + 1);
    let number = i32_to_chars(row + 1);
    match &x.formula {
        Some(f) => {
            append_chars(out, &name);
            append_chars(out, &number);
            out.push('=');
            append_chars(out, &chars_of(f.as_str()));
            out.push('\n');
        },
        None => {
            if x.val != 0 {
                append_chars(out, &name);
                append_chars(out, &number);
                out.push('=');
                append_chars(out, &i32_to_chars(x.val));
                out.push('\n');
            }
        },
    }
}

/// The sheet in the formula-keeping format (see `custom_text`).
pub fn custom_sheet_text(sheet: &Vec<Vec<cell>>, rows: i32, cols: i32) -> (out: Vec<char>)
    requires
        sheet_wf(sheet@, rows as int, cols as int),
    ensures
        out@ == custom_text(grid(sheet@), rows, cols),
{
    let ghost g = grid(sheet@);
    let mut out: Vec<char> = Vec::new();
    out.push('R');
    out.push('O');
    out.push('W');
    out.push('S');
    out.push(':');
    append_chars(&mut out, &i32_to_chars(rows));
    out.push(' ');
    out.push('C');
    out.push('O');
    out.push('L');
    out.push('S');
    out.push(':');
    append_chars(&mut out, &i32_to_chars(cols));
    out.push('\n');
    let ghost head = out@;
    assert(head == seq!['R', 'O', 'W', 'S', ':'] + i32_decimal(rows) + seq![' ', 'C', 'O', 'L', 'S', ':']
        + i32_decimal(cols) + seq!['\n']);
    let mut row: i32 = 0;
    while row < rows
        invariant
            sheet_wf(sheet@, rows as int, cols as int),
            g == grid(sheet@),
            0 <= row <= rows,
            out@ == head + custom_rows(g, row as int, cols as int),
        decreases rows - row,
    {
        let ghost start = out@;
        let mut col: i32 = 0;
        while col < cols
            invariant
                sheet_wf(sheet@, rows as int, cols as int),
                g == grid(sheet@),
                0 <= row < rows,
                0 <= col <= cols,
                out@ == start + custom_row(g, row as int, col as int),
            decreases cols - col,
        {
            push_entry(&mut out, rows, cols, sheet, row, col);
            col += 1;
        }
        row += 1;
    }
    out
}

/// The text of the sheet in `format` (see `spec_sheet_text`).
pub fn sheet_text(sheet: &Vec<Vec<cell>>, rows: i32, cols: i32, format: FileFormat) -> (out: Vec<char>)
    requires
        sheet_wf(sheet@, rows as int, cols as int),
    ensures
        out@ == spec_sheet_text(grid(sheet@), rows, cols, format),
{
    match format {
        FileFormat::Csv => delimited_sheet_text(sheet, rows, cols, ','),
        FileFormat::Tsv => delimited_sheet_text(sheet, rows, cols, '\t'),
        FileFormat::Custom => custom_sheet_text(sheet, rows, cols),
    }
}

// ---------------------------------------------------------------------------
// Reading
// ---------------------------------------------------------------------------

/// Why a file cannot be read as a sheet.
#[derive(Copy, Clone, PartialEq, Eq, Structural, Debug)]
pub enum LoadError {
    /// The formula-keeping format without its `ROWS:` header.
    MissingHeader,
}

/// The lines of a file as character sequences.
pub open spec fn lines_view(v: Seq<String>) -> Seq<Seq<char>> {
    v.map_values(|l: String| l@)
}

/// A cell after a field of a separated-values file: a number becomes its
/// value (and drops its formula), `ERR` marks it in error, anything else
/// leaves it as it was.
pub open spec fn loaded_cell(x: CellV, f: Seq<char>) -> CellV {
    match spec_parse_i32(f) {
        Some(v) => CellV { val: v, formula: None, ..x },
        None => if f == seq!['E', 'R', 'R'] {
            CellV { err: 1, ..x }
        } else {
            x
        },
    }
}

/// Whether cell `(i, j)` gets a field: its line and field exist and it lies
/// within `r` rows and `c` columns.
pub open spec fn load_here(lines: Seq<Seq<char>>, r: int, c: int, sep: char, i: int, j: int) -> bool {
    &&& 0 <= i < lines.len()
    &&& i < r
    &&& 0 <= j < c
    &&& j < split_char(lines[i], sep).len()
}

/// The grid after the fields of the cells before `(bi, bj)`, row by row, are
/// read.
pub open spec fn delimited_load_part(
    g: Grid,
    lines: Seq<Seq<char>>,
    r: int,
    c: int,
    sep: char,
    bi: int,
    bj: int,
) -> Grid {
    Seq::new(
        g.len(),
        |i: int|
            Seq::new(
                g[i].len(),
                |j: int|
                    if load_here(lines, r, c, sep, i, j) && (i < bi || (i == bi && j < bj)) {
                        loaded_cell(g[i][j], split_char(lines[i], sep)[j])
                    } else {
                        g[i][j]
                    },
            ),
    )
}

/// The grid after a separated-values file is read: field `j` of line `i`
/// goes to cell `(i, j)`, for the lines and fields that fall in the sheet.
pub open spec fn delimited_load(g: Grid, lines: Seq<Seq<char>>, r: int, c: int, sep: char) -> Grid {
    delimited_load_part(g, lines, r, c, sep, r, 0)
}

fn load_field(sheet: &mut Vec<Vec<cell>>, rows: i32, cols: i32, i: usize, j: usize, field: &Vec<char>)
    requires
        sheet_wf(old(sheet)@, rows as int, cols as int),
        i < rows,
        j < cols,
    ensures
        sheet_wf(final(sheet)@, rows as int, cols as int),
        grid(final(sheet)@) == grid(old(sheet)@).update(
            i as int,
            grid(old(sheet)@)[i as int].update(j as int, loaded_cell(grid(old(sheet)@)[i as int][j as int], field@)),
        ),
{
    proof {
        lemma_grid_cell(sheet@, rows as int, cols as int, i as int, j as int);
    }
    let ghost g0 = grid(sheet@);
    let err = ['E', 'R', 'R'];
    assert(err@ =~= seq!['E', 'R', 'R']);
    match parse_i32(field) {
        Some(v) => {
            sheet[i][j].val = v;
            sheet[i][j].formula = None;
        },
        None => {
            if eq_lit(field, &err) {
                sheet[i][j].err = 1;
            }
        },
    }
    proof {
        let g1 = grid(sheet@);
        let want = g0.update(i as int, g0[i as int].update(j as int, loaded_cell(g0[i as int][j as int], field@)));
        assert forall|a: int| 0 <= a < rows implies #[trigger] g1[a] == want[a] by {
            if a == i as int {
                assert(g1[a] =~= want[a]);
            } else {
                assert(sheet@[a] == old(sheet)@[a]);
            }
        }
        assert(g1 =~= want);
    }
}

/// Reads the lines of a separated-values file into the sheet (see
/// `delimited_load`); lines past the last row and fields past the last
/// column are ignored.
pub fn load_delimited(sheet: &mut Vec<Vec<cell>>, lines: &Vec<String>, rows: i32, cols: i32, sep: char)
    requires
        sheet_wf(old(sheet)@, rows as int, cols as int),
    ensures
        sheet_wf(final(sheet)@, rows as int, cols as int),
        grid(final(sheet)@) == delimited_load(grid(old(sheet)@), lines_view(lines@), rows as int, cols as int, sep),
{
    let ghost g0 = grid(sheet@);
    let ghost lv = lines_view(lines@);
    let n: usize = if lines.len() < rows as usize {
        lines.len()
    } else {
        rows as usize
    };
    let mut i: usize = 0;
    proof {
        let want = delimited_load_part(g0, lv, rows as int, cols as int, sep, 0, 0);
        assert forall|a: int| 0 <= a < rows implies #[trigger] g0[a] =~= want[a] by {}
        assert(g0 =~= want);
    }
    while i < n
        invariant
            sheet_wf(sheet@, rows as int, cols as int),
            g0.len() == rows,
            forall|a: int| 0 <= a < rows ==> (#[trigger] g0[a]).len() == cols,
            lv == lines_view(lines@),
            n <= lines.len(),
            n <= rows,
            n == lines.len() || n == rows,
            0 <= i <= n,
            grid(sheet@) == delimited_load_part(g0, lv, rows as int, cols as int, sep, i as int, 0),
        decreases n - i,
    {
        let line = chars_of(lines[i].as_str());
        let fields = split_at_char(&line, sep);
        let ghost fv = fields@.map_values(|x: Vec<char>| x@);
        assert(fv == split_char(lv[i as int], sep));
        let m: usize = if fields.len() < cols as usize {
            fields.len()
        } else {
            cols as usize
        };
        let mut j: usize = 0;
        while j < m
            invariant
                sheet_wf(sheet@, rows as int, cols as int),
                g0.len() == rows,
                forall|a: int| 0 <= a < rows ==> (#[trigger] g0[a]).len() == cols,
                lv == lines_view(lines@),
                i < n,
                n <= lines.len(),
                n <= rows,
                fv == fields@.map_values(|x: Vec<char>| x@),
                fv == split_char(lv[i as int], sep),
                m <= fields.len(),
                m <= cols,
                m == fields.len() || m == cols,
                0 <= j <= m,
                grid(sheet@) == delimited_load_part(g0, lv, rows as int, cols as int, sep, i as int, j as int),
            decreases m - j,
        {
            let ghost before = grid(sheet@);
            assert(fv[j as int] == fields[j as int]@);
            load_field(sheet, rows, cols, i, j, &fields[j]);
            proof {
                let want = delimited_load_part(g0, lv, rows as int, cols as int, sep, i as int, j + 1);
                assert forall|a: int| 0 <= a < rows implies #[trigger] grid(sheet@)[a] =~= want[a] by {
                    assert forall|b: int| 0 <= b < cols implies #[trigger] grid(sheet@)[a][b] == want[a][b] by {
                        if a == i as int && b == j as int {
                            assert(load_here(lv, rows as int, cols as int, sep, a, b));
                        }
                    }
                }
                assert(grid(sheet@) =~= want);
            }
            j += 1;
        }
        proof {
            let want = delimited_load_part(g0, lv, rows as int, cols as int, sep, i + 1, 0);
            assert forall|a: int| 0 <= a < rows implies #[trigger] grid(sheet@)[a] =~= want[a] by {
                assert forall|b: int| 0 <= b < cols implies #[trigger] grid(sheet@)[a][b] == want[a][b] by {
                    if a == i as int && b >= m {
                        assert(!load_here(lv, rows as int, cols as int, sep, a, b));
                    }
                }
            }
            assert(grid(sheet@) =~= want);
        }
        i += 1;
    }
    proof {
        let want = delimited_load(g0, lv, rows as int, cols as int, sep);
        assert forall|a: int| 0 <= a < rows implies #[trigger] grid(sheet@)[a] =~= want[a] by {
            assert forall|b: int| 0 <= b < cols implies #[trigger] grid(sheet@)[a][b] == want[a][b] by {
                if a >= n {
                    assert(!load_here(lv, rows as int, cols as int, sep, a, b));
                }
            }
        }
        assert(grid(sheet@) =~= want);
    }
}

/// A cell after a line `<ref>=<text>` of the formula-keeping format: a
/// number becomes its value (and drops its formula), other text its formula.
pub open spec fn custom_cell(x: CellV, text: Seq<char>) -> CellV {
    match spec_parse_i32(text) {
        Some(v) => CellV { val: v, formula: None, ..x },
        None => CellV { formula: Some(text), ..x },
    }
}

/// The grid after one line `<ref>=<text>` of the formula-keeping format;
/// lines without `=`, with an unreadable reference, or naming a cell outside
/// the sheet change nothing.
pub open spec fn custom_line_effect(g: Grid, line: Seq<char>, r: int, c: int) -> Grid {
    match spec_find_char(line, '=') {
        None => g,
        Some(p) => {
            let text = line.subrange(p + 1, line.len() as int);
            match spec_parse_cell_reference(line.subrange(0, p)) {
                None => g,
                Some((row, col)) => if row >= r || col >= c {
                    g
                } else {
                    g.update(row as int, g[row as int].update(col as int, custom_cell(g[row as int][col as int], text)))
                },
            }
        },
    }
}

/// The grid after lines `1..k` (the header is line 0), in order.
pub open spec fn custom_load(g: Grid, lines: Seq<Seq<char>>, r: int, c: int, k: int) -> Grid
    decreases k,
{
    if k <= 1 {
        g
    } else {
        custom_line_effect(custom_load(g, lines, r, c, k - 1), lines[k - 1], r, c)
    }
}

/// Reading a file in the formula-keeping format: a first line must start with
/// `ROWS:`; every further line is applied in order.
pub open spec fn spec_load_custom(g: Grid, lines: Seq<Seq<char>>, r: int, c: int) -> Result<Grid, LoadError> {
    if lines.len() > 0 && !starts_with(lines[0], seq!['R', 'O', 'W', 'S', ':']) {
        Err(LoadError::MissingHeader)
    } else {
        Ok(custom_load(g, lines, r, c, lines.len() as int))
    }
}

fn apply_custom_line(sheet: &mut Vec<Vec<cell>>, line: &Vec<char>, rows: i32, cols: i32)
    requires
        sheet_wf(old(sheet)@, rows as int, cols as int),
    ensures
        sheet_wf(final(sheet)@, rows as int, cols as int),
        grid(final(sheet)@) == custom_line_effect(grid(old(sheet)@), line@, rows as int, cols as int),
{
    let p = match find_char(line, '=') {
        Some(p) => p,
        None => {
            return;
        },
    };
    proof {
        crate::text::lemma_find_from_props(line@, seq!['='], 0);
    }
    let cref = slice_chars(line, 0, p);
    let text = slice_chars(line, p + 1, line.len());
    match parse_reference_chars(&cref) {
        None => {},
        Some((row, col)) => {
            if row >= rows as usize || col >= cols as usize {
                return;
            }
            proof {
                lemma_grid_cell(sheet@, rows as int, cols as int, row as int, col as int);
            }
            let ghost g0 = grid(sheet@);
            match parse_i32(&text) {
                Some(v) => {
                    sheet[row][col].val = v;
                    sheet[row][col].formula = None;
                },
                None => {
                    sheet[row][col].formula = Some(string_of(text.as_slice()));
                },
            }
            proof {
                let g1 = grid(sheet@);
                let want = g0.update(
                    row as int,
                    g0[row as int].update(col as int, custom_cell(g0[row as int][col as int], text@)),
                );
                assert forall|a: int| 0 <= a < rows implies #[trigger] g1[a] == want[a] by {
                    if a == row as int {
                        assert(g1[a] =~= want[a]);
                    } else {
                        assert(sheet@[a] == old(sheet)@[a]);
                    }
                }
                assert(g1 =~= want);
            }
        },
    }
}

/// Reads the lines of a file in the formula-keeping format into the sheet
/// (see `spec_load_custom`); the sheet is left as it is when the header is
/// missing.
pub fn load_custom(sheet: &mut Vec<Vec<cell>>, lines: &Vec<String>, rows: i32, cols: i32) -> (res: Result<(), LoadError>)
    requires
        sheet_wf(old(sheet)@, rows as int, cols as int),
    ensures
        sheet_wf(final(sheet)@, rows as int, cols as int),
        match spec_load_custom(grid(old(sheet)@), lines_view(lines@), rows as int, cols as int) {
            Ok(g) => res is Ok && grid(final(sheet)@) == g,
            Err(e) => res == Err::<(), LoadError>(e) && final(sheet)@ == old(sheet)@,
        },
{
    let ghost g0 = grid(sheet@);
    let ghost lv = lines_view(lines@);
    if lines.len() > 0 {
        let header = chars_of(lines[0].as_str());
        let tag = ['R', 'O', 'W', 'S', ':'];
        assert(tag@ =~= seq!['R', 'O', 'W', 'S', ':']);
        assert(header@ == lv[0]);
        if !starts_with_lit(&header, &tag) {
            return Err(LoadError::MissingHeader);
        }
    }
    let mut k: usize = 1;
    while k < lines.len()
        invariant
            sheet_wf(sheet@, rows as int, cols as int),
            lv == lines_view(lines@),
            1 <= k,
            k <= lines.len() || (lines.len() == 0 && k == 1),
            lines.len() > 0 ==> starts_with(lv[0], seq!['R', 'O', 'W', 'S', ':']),
            g0 == grid(old(sheet)@),
            grid(sheet@) == custom_load(g0, lv, rows as int, cols as int, k as int),
        decreases lines.len() - k,
    {
        let line = chars_of(lines[k].as_str());
        assert(line@ == lv[k as int]);
        apply_custom_line(sheet, &line, rows, cols);
        k += 1;
    }
    proof {
        if lines.len() == 0 {
            assert(custom_load(g0, lv, rows as int, cols as int, 1) == g0);
            assert(custom_load(g0, lv, rows as int, cols as int, 0) == g0);
        }
    }
    Ok(())
}

fn empty_cell(sheet: &mut Vec<Vec<cell>>, rows: i32, cols: i32, i: usize, j: usize)
    requires
        sheet_wf(old(sheet)@, rows as int, cols as int),
        i < rows,
        j < cols,
    ensures
        sheet_wf(final(sheet)@, rows as int, cols as int),
        grid(final(sheet)@) == grid(old(sheet)@).update(
            i as int,
            grid(old(sheet)@)[i as int].update(j as int, CellV { val: 0, formula: None, err: 0 }),
        ),
{
    proof {
        lemma_grid_cell(sheet@, rows as int, cols as int, i as int, j as int);
    }
    let ghost g0 = grid(sheet@);
    sheet[i][j].val = 0;
    sheet[i][j].formula = None;
    sheet[i][j].err = 0;
    proof {
        let g1 = grid(sheet@);
        let want = g0.update(i as int, g0[i as int].update(j as int, CellV { val: 0, formula: None, err: 0 }));
        assert forall|a: int| 0 <= a < rows implies #[trigger] g1[a] == want[a] by {
            if a == i as int {
                assert(g1[a] =~= want[a]);
            } else {
                assert(sheet@[a] == old(sheet)@[a]);
            }
        }
        assert(g1 =~= want);
    }
}

/// Empties every cell: value 0, no formula, no error.
pub fn clear_sheet(sheet: &mut Vec<Vec<cell>>, rows: i32, cols: i32)
    requires
        sheet_wf(old(sheet)@, rows as int, cols as int),
    ensures
        sheet_wf(final(sheet)@, rows as int, cols as int),
        forall|i: int, j: int|
            0 <= i < rows && 0 <= j < cols ==> #[trigger] grid(final(sheet)@)[i][j] == (CellV {
                val: 0,
                formula: None,
                err: 0,
            }),
{
    let mut i: usize = 0;
    while i < rows as usize
        invariant
            sheet_wf(sheet@, rows as int, cols as int),
            0 <= i <= rows,
            forall|a: int, b: int|
                0 <= a < i && 0 <= b < cols ==> #[trigger] grid(sheet@)[a][b] == (CellV {
                    val: 0,
                    formula: None,
                    err: 0,
                }),
        decreases rows - i,
    {
        let mut j: usize = 0;
        while j < cols as usize
            invariant
                sheet_wf(sheet@, rows as int, cols as int),
                0 <= i < rows,
                0 <= j <= cols,
                forall|a: int, b: int|
                    (0 <= a < i && 0 <= b < cols) || (a == i && 0 <= b < j) ==> #[trigger] grid(sheet@)[a][b]
                        == (CellV { val: 0, formula: None, err: 0 }),
            decreases cols - j,
        {
            empty_cell(sheet, rows, cols, i, j);
            j += 1;
        }
        i += 1;
    }
}

// ---------------------------------------------------------------------------
// Reading back what was written
// ---------------------------------------------------------------------------

pub open spec fn free_of(s: Seq<char>, sep: char) -> bool {
    forall|k: int| 0 <= k < s.len() ==> s[k] != sep
}

proof fn lemma_split_append_free(x: Seq<char>, y: Seq<char>, sep: char)
    requires
        free_of(y, sep),
    ensures
        split_char(x + y, sep) == split_char(x, sep).update(
            split_char(x, sep).len() - 1,
            split_char(x, sep).last() + y,
        ),
    decreases y.len(),
{
    lemma_split_char_len(x, sep);
    if y.len() == 0 {
        assert(x + y == x);
        assert(split_char(x, sep).last() + y == split_char(x, sep).last());
        assert(split_char(x, sep).update(split_char(x, sep).len() - 1, split_char(x, sep).last())
            =~= split_char(x, sep));
    } else {
        let y0 = y.drop_last();
        lemma_split_append_free(x, y0, sep);
        assert((x + y).drop_last() == x + y0);
        assert((x + y).last() == y.last());
        assert(y0.push(y.last()) == y);
        let p = split_char(x + y0, sep);
        lemma_split_char_len(x + y0, sep);
        assert(split_char(x + y, sep) == p.update(p.len() - 1, p.last().push(y.last())));
        assert((split_char(x, sep).last() + y0).push(y.last()) == split_char(x, sep).last() + y);
        assert(split_char(x + y, sep) =~= split_char(x, sep).update(
            split_char(x, sep).len() - 1,
            split_char(x, sep).last() + y,
        ));
    }
}

proof fn lemma_cell_text_free(x: CellV, sep: char)
    requires
        sep == ',' || sep == '\t',
    ensures
        free_of(cell_text(x), sep),
{
    if x.err == 0 {
        if x.val < 0 {
            let m = (-(x.val as int)) as nat;
            lemma_nat_decimal(m);
            let t = i32_decimal(x.val);
            assert forall|k: int| 0 <= k < t.len() implies t[k] != sep by {
                if k > 0 {
                    assert(t[k] == nat_decimal(m)[k - 1]);
                    assert(is_digit(nat_decimal(m)[k - 1]));
                }
            }
        } else {
            lemma_nat_decimal(x.val as nat);
            let t = i32_decimal(x.val);
            assert forall|k: int| 0 <= k < t.len() implies t[k] != sep by {
                assert(is_digit(t[k]));
            }
        }
    }
}

proof fn lemma_split_fields(g: Grid, i: int, m: int, sep: char)
    requires
        sep == ',' || sep == '\t',
        m >= 1,
    ensures
        split_char(fields_text(g, i, m, sep), sep) == Seq::new(m as nat, |j: int| cell_text(g[i][j])),
    decreases m,
{
    lemma_cell_text_free(g[i][m - 1], sep);
    if m == 1 {
        let t = cell_text(g[i][0]);
        lemma_split_append_free(Seq::empty(), t, sep);
        assert(Seq::<char>::empty() + t == t);
        assert(split_char(Seq::<char>::empty(), sep) == seq![Seq::<char>::empty()]);
        assert(split_char(t, sep) =~= Seq::new(1, |j: int| cell_text(g[i][j])));
    } else {
        lemma_split_fields(g, i, m - 1, sep);
        let a = fields_text(g, i, m - 1, sep);
        let t = cell_text(g[i][m - 1]);
        let a2 = a + seq![sep];
        assert(a2.drop_last() == a);
        assert(split_char(a2, sep) == split_char(a, sep).push(Seq::<char>::empty()));
        lemma_split_append_free(a2, t, sep);
        assert(fields_text(g, i, m, sep) == a2 + t);
        assert(split_char(a2 + t, sep) =~= Seq::new(m as nat, |j: int| cell_text(g[i][j])));
    }
}

/// Law: reading back the lines of a sheet saved as comma- or tab-separated
/// values (one line per row) into a sheet of the same size restores every
/// value: cell `(i, j)` gets the saved value and loses its formula when the
/// saved cell was not in error, and is marked in error when it was.
pub proof fn law_delimited_round_trip(g: Grid, h: Grid, r: int, c: int, sep: char, i: int, j: int)
    requires
        crate::sheet::grid_wf(g, r, c),
        crate::sheet::grid_wf(h, r, c),
        sep == ',' || sep == '\t',
        0 <= i < r,
        0 <= j < c,
    ensures
        ({
            let lines = Seq::new(r as nat, |k: int| fields_text(g, k, c, sep));
            let back = delimited_load(h, lines, r, c, sep)[i][j];
            if g[i][j].err != 0 {
                back == CellV { err: 1, ..h[i][j] }
            } else {
                back == CellV { val: g[i][j].val, formula: None, ..h[i][j] }
            }
        }),
{
    let lines = Seq::new(r as nat, |k: int| fields_text(g, k, c, sep));
    lemma_split_fields(g, i, c, sep);
    assert(split_char(lines[i], sep)[j] == cell_text(g[i][j]));
    assert(load_here(lines, r, c, sep, i, j));
    if g[i][j].err != 0 {
        assert(spec_parse_i32(seq!['E', 'R', 'R']) is None) by {
            assert(!is_digit('E'));
        }
    } else {
        law_parse_i32_of_decimal(g[i][j].val);
    }
}


// ---------------------------------------------------------------------------
// Reading back the formula-keeping format
// ---------------------------------------------------------------------------

/// Whether a cell has a line in the formula-keeping format.
pub open spec fn has_entry(x: CellV) -> bool {
    x.formula is Some || x.val != 0
}

/// What follows `=` on the line of a cell: its formula, or else its value.
pub open spec fn entry_content(x: CellV) -> Seq<char> {
    match x.formula {
        Some(f) => f,
        None => i32_decimal(x.val),
    }
}

/// The name of cell `(i, j)`: its column letters, then its 1-based row.
pub open spec fn cell_name(i: int, j: int) -> Seq<char> {
    col_name((j + 1) as nat) + i32_decimal((i + 1) as i32)
}

/// The line of cell `(i, j)` without its newline.
pub open spec fn entry_line(g: Grid, i: int, j: int) -> Seq<char> {
    cell_name(i, j) + seq!['='] + entry_content(g[i][j])
}

/// The header line of the formula-keeping format.
pub open spec fn custom_header(r: i32, c: i32) -> Seq<char> {
    seq!['R', 'O', 'W', 'S', ':'] + i32_decimal(r) + seq![' ', 'C', 'O', 'L', 'S', ':'] + i32_decimal(c)
}

/// The lines of the first `m` cells of row `i` that have one.
pub open spec fn row_lines(g: Grid, i: int, m: int) -> Seq<Seq<char>>
    decreases m,
{
    if m <= 0 {
        Seq::empty()
    } else {
        row_lines(g, i, m - 1) + if has_entry(g[i][m - 1]) {
            seq![entry_line(g, i, m - 1)]
        } else {
            Seq::empty()
        }
    }
}

/// The lines of the cells of the first `k` rows, row by row.
pub open spec fn rows_lines(g: Grid, k: int, c: int) -> Seq<Seq<char>>
    decreases k,
{
    if k <= 0 {
        Seq::empty()
    } else {
        rows_lines(g, k - 1, c) + row_lines(g, k - 1, c)
    }
}

/// No formula of the sheet spans two lines.
pub open spec fn formulas_one_line(g: Grid, r: int, c: int) -> bool {
    forall|i: int, j: int|
        0 <= i < r && 0 <= j < c && (#[trigger] g[i][j]).formula is Some ==> free_of(g[i][j].formula->Some_0, '\n')
}

proof fn lemma_decimal_free(v: i32, sep: char)
    requires
        sep == '\n' || sep == '=' || sep == ' ',
    ensures
        free_of(i32_decimal(v), sep),
{
    if v < 0 {
        let m = (-(v as int)) as nat;
        lemma_nat_decimal(m);
        let t = i32_decimal(v);
        assert forall|k: int| 0 <= k < t.len() implies t[k] != sep by {
            if k > 0 {
                assert(t[k] == nat_decimal(m)[k - 1]);
                assert(is_digit(nat_decimal(m)[k - 1]));
            }
        }
    } else {
        lemma_nat_decimal(v as nat);
        let t = i32_decimal(v);
        assert forall|k: int| 0 <= k < t.len() implies t[k] != sep by {
            assert(is_digit(t[k]));
        }
    }
}

proof fn lemma_name_free(i: int, j: int, sep: char)
    requires
        0 <= j,
        sep == '\n' || sep == '=',
    ensures
        free_of(cell_name(i, j), sep),
{
    lemma_col_name_upper((j + 1) as nat);
    lemma_decimal_free((i + 1) as i32, sep);
    let a = col_name((j + 1) as nat);
    let t = cell_name(i, j);
    assert forall|k: int| 0 <= k < t.len() implies t[k] != sep by {
        if k < a.len() {
            assert(t[k] == a[k]);
            assert(is_upper(a[k]));
        } else {
            assert(t[k] == i32_decimal((i + 1) as i32)[k - a.len()]);
        }
    }
}

proof fn lemma_entry_line_free(g: Grid, i: int, j: int)
    requires
        0 <= j,
        g[i][j].formula is Some ==> free_of(g[i][j].formula->Some_0, '\n'),
    ensures
        free_of(entry_line(g, i, j), '\n'),
{
    lemma_name_free(i, j, '\n');
    lemma_decimal_free(g[i][j].val, '\n');
    let a = cell_name(i, j);
    let t = entry_line(g, i, j);
    let b = entry_content(g[i][j]);
    assert forall|k: int| 0 <= k < t.len() implies t[k] != '\n' by {
        if k < a.len() {
            assert(t[k] == a[k]);
        } else if k == a.len() {
            assert(t[k] == '=');
        } else {
            assert(t[k] == b[k - a.len() - 1]);
        }
    }
}

/// Splitting after one more line `y` (without a newline) and its newline.
proof fn lemma_split_line(x: Seq<char>, y: Seq<char>)
    requires
        split_char(x, '\n').last() == Seq::<char>::empty(),
        free_of(y, '\n'),
    ensures
        split_char(x + y + seq!['\n'], '\n') == split_char(x, '\n').drop_last().push(y).push(Seq::<char>::empty()),
{
    let s = split_char(x, '\n');
    lemma_split_char_len(x, '\n');
    lemma_split_append_free(x, y, '\n');
    assert(Seq::<char>::empty() + y == y);
    assert(s.update(s.len() - 1, s.last() + y) =~= s.drop_last().push(y));
    let t = x + y + seq!['\n'];
    assert(t.drop_last() =~= x + y);
    assert(t.last() == '\n');
}

proof fn lemma_custom_entry_shape(g: Grid, i: int, j: int)
    ensures
        custom_entry(g, i, j) == if has_entry(g[i][j]) {
            entry_line(g, i, j) + seq!['\n']
        } else {
            Seq::<char>::empty()
        },
{
    match g[i][j].formula {
        Some(f) => {
            assert(custom_entry(g, i, j) =~= entry_line(g, i, j) + seq!['\n']);
        },
        None => {
            if g[i][j].val != 0 {
                assert(custom_entry(g, i, j) =~= entry_line(g, i, j) + seq!['\n']);
            }
        },
    }
}

proof fn lemma_split_row(x: Seq<char>, g: Grid, i: int, m: int)
    requires
        split_char(x, '\n').last() == Seq::<char>::empty(),
        forall|j: int| 0 <= j < m ==> (#[trigger] g[i][j]).formula is Some ==> free_of(g[i][j].formula->Some_0, '\n'),
    ensures
        split_char(x + custom_row(g, i, m), '\n') == split_char(x, '\n').drop_last() + row_lines(g, i, m) + seq![
            Seq::<char>::empty(),
        ],
    decreases m,
{
    lemma_split_char_len(x, '\n');
    let s = split_char(x, '\n');
    if m <= 0 {
        assert(x + custom_row(g, i, m) =~= x);
        assert(s =~= s.drop_last() + row_lines(g, i, m) + seq![Seq::<char>::empty()]);
    } else {
        lemma_split_row(x, g, i, m - 1);
        let y = x + custom_row(g, i, m - 1);
        let before = s.drop_last() + row_lines(g, i, m - 1);
        assert(split_char(y, '\n') == before.push(Seq::<char>::empty()));
        lemma_custom_entry_shape(g, i, m - 1);
        assert(x + custom_row(g, i, m) =~= y + custom_entry(g, i, m - 1));
        if has_entry(g[i][m - 1]) {
            let l = entry_line(g, i, m - 1);
            lemma_entry_line_free(g, i, m - 1);
            lemma_split_line(y, l);
            assert(y + custom_entry(g, i, m - 1) =~= y + l + seq!['\n']);
            assert(before.push(Seq::<char>::empty()).drop_last() =~= before);
            assert(before.push(l).push(Seq::<char>::empty()) =~= s.drop_last() + row_lines(g, i, m) + seq![
                Seq::<char>::empty(),
            ]);
        } else {
            assert(y + custom_entry(g, i, m - 1) =~= y);
            assert(row_lines(g, i, m) =~= row_lines(g, i, m - 1));
            assert(before.push(Seq::<char>::empty()) =~= s.drop_last() + row_lines(g, i, m) + seq![
                Seq::<char>::empty(),
            ]);
        }
    }
}

proof fn lemma_split_rows(x: Seq<char>, g: Grid, k: int, c: int)
    requires
        split_char(x, '\n').last() == Seq::<char>::empty(),
        formulas_one_line(g, k, c),
    ensures
        split_char(x + custom_rows(g, k, c), '\n') == split_char(x, '\n').drop_last() + rows_lines(g, k, c) + seq![
            Seq::<char>::empty(),
        ],
    decreases k,
{
    lemma_split_char_len(x, '\n');
    let s = split_char(x, '\n');
    if k <= 0 {
        assert(x + custom_rows(g, k, c) =~= x);
        assert(s =~= s.drop_last() + rows_lines(g, k, c) + seq![Seq::<char>::empty()]);
    } else {
        assert(formulas_one_line(g, k - 1, c));
        lemma_split_rows(x, g, k - 1, c);
        let y = x + custom_rows(g, k - 1, c);
        let before = s.drop_last() + rows_lines(g, k - 1, c);
        assert(split_char(y, '\n') == before.push(Seq::<char>::empty()));
        assert(split_char(y, '\n').last() == Seq::<char>::empty());
        assert forall|j: int| 0 <= j < c implies (#[trigger] g[k - 1][j]).formula is Some ==> free_of(
            g[k - 1][j].formula->Some_0,
            '\n',
        ) by {
            assert(0 <= k - 1 < k);
        }
        lemma_split_row(y, g, k - 1, c);
        assert(x + custom_rows(g, k, c) =~= y + custom_row(g, k - 1, c));
        assert(before.push(Seq::<char>::empty()).drop_last() =~= before);
        assert(before + row_lines(g, k - 1, c) =~= s.drop_last() + rows_lines(g, k, c));
    }
}

/// The lines of a sheet saved in the formula-keeping format: the header, one
/// line per cell that has a formula or a non-zero value, and the empty piece
/// after the last newline.
proof fn lemma_split_custom(g: Grid, r: i32, c: i32)
    requires
        formulas_one_line(g, r as int, c as int),
    ensures
        split_char(custom_text(g, r, c), '\n') == seq![custom_header(r, c)] + rows_lines(g, r as int, c as int)
            + seq![Seq::<char>::empty()],
{
    let h = custom_header(r, c);
    lemma_decimal_free(r, '\n');
    lemma_decimal_free(c, '\n');
    assert(free_of(h, '\n')) by {
        let a = seq!['R', 'O', 'W', 'S', ':'] + i32_decimal(r);
        let b = a + seq![' ', 'C', 'O', 'L', 'S', ':'];
        assert forall|k: int| 0 <= k < h.len() implies h[k] != '\n' by {
            if k < 5 {
                assert(h[k] == seq!['R', 'O', 'W', 'S', ':'][k]);
            } else if k < a.len() {
                assert(h[k] == i32_decimal(r)[k - 5]);
            } else if k < b.len() {
                assert(h[k] == seq![' ', 'C', 'O', 'L', 'S', ':'][k - a.len()]);
            } else {
                assert(h[k] == i32_decimal(c)[k - b.len()]);
            }
        }
    }
    let e = Seq::<char>::empty();
    assert(split_char(e, '\n') == seq![Seq::<char>::empty()]);
    lemma_split_line(e, h);
    let x = e + h + seq!['\n'];
    assert(split_char(x, '\n') =~= seq![h, Seq::<char>::empty()]);
    lemma_split_rows(x, g, r as int, c as int);
    assert(custom_text(g, r, c) =~= x + custom_rows(g, r as int, c as int));
    assert(seq![h, Seq::<char>::empty()].drop_last() =~= seq![h]);
}

/// The grid after the lines, in order.
pub open spec fn apply_lines(g: Grid, lines: Seq<Seq<char>>, r: int, c: int) -> Grid
    decreases lines.len(),
{
    if lines.len() == 0 {
        g
    } else {
        custom_line_effect(apply_lines(g, lines.drop_last(), r, c), lines.last(), r, c)
    }
}

proof fn lemma_custom_load_lines(h: Grid, head: Seq<char>, e: Seq<Seq<char>>, r: int, c: int, n: int)
    requires
        0 <= n <= e.len(),
    ensures
        custom_load(h, seq![head] + e + seq![Seq::<char>::empty()], r, c, 1 + n) == apply_lines(h, e.take(n), r, c),
    decreases n,
{
    let lines = seq![head] + e + seq![Seq::<char>::empty()];
    if n == 0 {
        assert(e.take(0) =~= Seq::<Seq<char>>::empty());
    } else {
        lemma_custom_load_lines(h, head, e, r, c, n - 1);
        assert(lines[n] == e[n - 1]);
        assert(e.take(n).drop_last() =~= e.take(n - 1));
        assert(e.take(n).last() == e[n - 1]);
    }
}

proof fn lemma_custom_load_prefix(h: Grid, a: Seq<Seq<char>>, b: Seq<Seq<char>>, r: int, c: int, k: int)
    requires
        k <= a.len() <= b.len(),
        forall|m: int| 0 <= m < a.len() ==> a[m] == b[m],
    ensures
        custom_load(h, a, r, c, k) == custom_load(h, b, r, c, k),
    decreases k,
{
    if k > 1 {
        lemma_custom_load_prefix(h, a, b, r, c, k - 1);
    }
}

/// Loading the lines of a saved sheet applies the cell lines in order.
proof fn lemma_custom_load_all(h: Grid, head: Seq<char>, e: Seq<Seq<char>>, r: int, c: int)
    ensures
        custom_load(h, seq![head] + e + seq![Seq::<char>::empty()], r, c, e.len() + 2int) == apply_lines(h, e, r, c),
{
    let lines = seq![head] + e + seq![Seq::<char>::empty()];
    lemma_custom_load_lines(h, head, e, r, c, e.len() as int);
    assert(e.take(e.len() as int) =~= e);
    assert(lines[e.len() + 1int] == Seq::<char>::empty());
    assert(spec_find_char(Seq::<char>::empty(), '=') is None);
}

/// The line of cell `(i, j)` sets that cell from its content, and nothing else.
proof fn lemma_entry_effect(gg: Grid, g: Grid, i: int, j: int, r: int, c: int)
    requires
        0 <= i < r <= i32::MAX,
        0 <= j < c,
        c < usize::MAX,
    ensures
        custom_line_effect(gg, entry_line(g, i, j), r, c) == gg.update(
            i,
            gg[i].update(j, custom_cell(gg[i][j], entry_content(g[i][j]))),
        ),
{
    let name = cell_name(i, j);
    let line = entry_line(g, i, j);
    let content = entry_content(g[i][j]);
    lemma_name_free(i, j, '=');
    crate::text::lemma_find_from_props(line, seq!['='], 0);
    assert(occurs_at(line, seq!['='], name.len() as int)) by {
        assert(line.subrange(name.len() as int, name.len() + 1int) =~= seq!['=']);
    }
    assert forall|k: int| 0 <= k < name.len() implies !occurs_at(line, seq!['='], k) by {
        assert(line.subrange(k, k + 1)[0] == name[k]);
    }
    let p = spec_find_char(line, '=')->Some_0;
    assert(p == name.len());
    assert(line.subrange(0, p) =~= name);
    assert(line.subrange(p + 1, line.len() as int) =~= content);
    let ri = i as usize;
    let cj = j as usize;
    crate::vim::editor::law_parse_reference_of_name(ri, cj);
    crate::text::lemma_nat_decimal((ri + 1) as nat);
    assert(spec_column_name(cj) == col_name((j + 1) as nat));
    assert(i32_decimal((i + 1) as i32) == nat_decimal((ri + 1) as nat));
    assert(spec_parse_cell_reference(name) == Some((ri, cj)));
}

/// Cell `(a, b)` of `h` once the line of cell `(a, b)` of `g`, if it has one,
/// is read into it.
pub open spec fn restored(h: Grid, g: Grid, a: int, b: int) -> CellV {
    if has_entry(g[a][b]) {
        custom_cell(h[a][b], entry_content(g[a][b]))
    } else {
        h[a][b]
    }
}

/// `h` with the cells before `(i, j)`, row by row, read back from `g`.
pub open spec fn restored_upto(h: Grid, g: Grid, i: int, j: int) -> Grid {
    Seq::new(
        h.len(),
        |a: int|
            Seq::new(
                h[a].len(),
                |b: int|
                    if a < i || (a == i && b < j) {
                        restored(h, g, a, b)
                    } else {
                        h[a][b]
                    },
            ),
    )
}

proof fn lemma_fold_row(h: Grid, g: Grid, r: int, c: int, i: int, m: int)
    requires
        crate::sheet::grid_wf(h, r, c),
        r <= i32::MAX,
        0 <= i < r,
        0 <= m <= c,
        apply_lines(h, rows_lines(g, i, c), r, c) == restored_upto(h, g, i, 0),
    ensures
        apply_lines(h, rows_lines(g, i, c) + row_lines(g, i, m), r, c) == restored_upto(h, g, i, m),
    decreases m,
{
    let x = rows_lines(g, i, c);
    assert(c <= i32::MAX) by (nonlinear_arith)
        requires
            1 <= r,
            0 <= c,
            r * c <= i32::MAX,
    ;
    if m == 0 {
        assert(x + row_lines(g, i, m) =~= x);
    } else {
        lemma_fold_row(h, g, r, c, i, m - 1);
        let before = restored_upto(h, g, i, m - 1);
        let want = restored_upto(h, g, i, m);
        assert(before[i][m - 1] == h[i][m - 1]);
        if has_entry(g[i][m - 1]) {
            let l = entry_line(g, i, m - 1);
            assert(x + row_lines(g, i, m) =~= (x + row_lines(g, i, m - 1)).push(l));
            assert((x + row_lines(g, i, m - 1)).push(l).drop_last() =~= x + row_lines(g, i, m - 1));
            lemma_entry_effect(before, g, i, m - 1, r, c);
            let after = before.update(i, before[i].update(m - 1, custom_cell(before[i][m - 1], entry_content(g[i][m - 1]))));
            assert forall|a: int| 0 <= a < r implies #[trigger] after[a] =~= want[a] by {}
            assert(after =~= want);
        } else {
            assert(row_lines(g, i, m) =~= row_lines(g, i, m - 1));
            assert forall|a: int| 0 <= a < r implies #[trigger] before[a] =~= want[a] by {}
            assert(before =~= want);
        }
    }
}

proof fn lemma_fold_rows(h: Grid, g: Grid, r: int, c: int, k: int)
    requires
        crate::sheet::grid_wf(h, r, c),
        r <= i32::MAX,
        0 <= k <= r,
    ensures
        apply_lines(h, rows_lines(g, k, c), r, c) == restored_upto(h, g, k, 0),
    decreases k,
{
    if k == 0 {
        let want = restored_upto(h, g, 0, 0);
        assert forall|a: int| 0 <= a < r implies #[trigger] h[a] =~= want[a] by {}
        assert(h =~= want);
    } else {
        lemma_fold_rows(h, g, r, c, k - 1);
        lemma_fold_row(h, g, r, c, k - 1, c);
        let x = restored_upto(h, g, k - 1, c);
        let want = restored_upto(h, g, k, 0);
        assert forall|a: int| 0 <= a < r implies #[trigger] x[a] =~= want[a] by {}
        assert(x =~= want);
    }
}

/// Law: a sheet saved in the formula-keeping format and read back, line by
/// line, into a sheet of the same size gives every cell back: a cell with a
/// formula gets it back as its formula (or, when the formula is a plain
/// number, as its value), a cell with a non-zero value and no formula gets
/// the value, and any other cell is left as it was. Formulas must fit on one
/// line. The lines may be read with or without the empty piece after the
/// last newline (a reader of lines leaves it out).
pub proof fn law_custom_round_trip(g: Grid, h: Grid, r: i32, c: i32, i: int, j: int)
    requires
        crate::sheet::grid_wf(g, r as int, c as int),
        crate::sheet::grid_wf(h, r as int, c as int),
        formulas_one_line(g, r as int, c as int),
        0 <= i < r,
        0 <= j < c,
    ensures
        ({
            let lines = split_char(custom_text(g, r, c), '\n');
            let back = spec_load_custom(h, lines, r as int, c as int);
            let read = spec_load_custom(h, lines.drop_last(), r as int, c as int);
            &&& back is Ok
            &&& read == back
            &&& back->Ok_0[i][j] == match g[i][j].formula {
                Some(f) => custom_cell(h[i][j], f),
                None => if g[i][j].val != 0 {
                    CellV { val: g[i][j].val, formula: None, ..h[i][j] }
                } else {
                    h[i][j]
                },
            }
        }),
{
    let lines = split_char(custom_text(g, r, c), '\n');
    let e = rows_lines(g, r as int, c as int);
    lemma_split_custom(g, r, c);
    assert(lines[0] == custom_header(r, c));
    assert(starts_with(custom_header(r, c), seq!['R', 'O', 'W', 'S', ':'])) by {
        assert(custom_header(r, c).subrange(0, 5) =~= seq!['R', 'O', 'W', 'S', ':']);
    }
    lemma_custom_load_all(h, custom_header(r, c), e, r as int, c as int);
    assert(lines.len() == e.len() + 2);
    lemma_custom_load_lines(h, custom_header(r, c), e, r as int, c as int, e.len() as int);
    assert(e.take(e.len() as int) =~= e);
    let shorter = lines.drop_last();
    assert(shorter.len() == e.len() + 1);
    assert(shorter[0] == custom_header(r, c));
    assert forall|k: int| 1 <= k <= shorter.len() implies custom_load(h, shorter, r as int, c as int, k) == custom_load(
        h,
        lines,
        r as int,
        c as int,
        k,
    ) by {
        lemma_custom_load_prefix(h, shorter, lines, r as int, c as int, k);
    }
    lemma_fold_rows(h, g, r as int, c as int, r as int);
    let back = restored_upto(h, g, r as int, 0);
    assert(back[i][j] == restored(h, g, i, j));
    if g[i][j].formula is None && g[i][j].val != 0 {
        law_parse_i32_of_decimal(g[i][j].val);
    }
}

} // verus!
