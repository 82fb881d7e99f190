//! The text of the ten-by-ten view of the sheet.

use vstd::prelude::*;
use crate::columns::{col_name, column_name_chars};
use crate::sheet::{Grid, cell, grid, lemma_grid_cell, sheet_wf};
use crate::text::{append_chars, i32_decimal, i32_to_chars};

verus! {

/// Rows and columns shown at once.
pub const VIEWPORT_SIZE: i32 = 10;

/// End of the rows (or columns) of a view that starts at `o`: ten further,
/// or none when `o + 10` overflows.
pub open spec fn view_end(o: i32) -> int {
    if o <= i32::MAX - VIEWPORT_SIZE {
        o + VIEWPORT_SIZE
    } else {
        o as int
    }
}

/// The label of column `i`, followed by a NUL when `nul` (as the engine that
/// builds labels in a fixed buffer prints them).
pub open spec fn column_label(i: int, nul: bool) -> Seq<char> {
    (if i < 0 {
        Seq::empty()
    } else {
        col_name((i + 1) as nat)
    }) + if nul {
        seq!['\0']
    } else {
        Seq::empty()
    }
}

/// The labels of columns `i..end` below `c`, each followed by a tab.
pub open spec fn header_from(c: int, i: int, end: int, nul: bool) -> Seq<char>
    decreases end - i,
{
    if i >= end || i >= c {
        Seq::empty()
    } else {
        column_label(i, nul) + seq!['\t'] + header_from(c, i + 1, end, nul)
    }
}

/// The header line: a tab, then the labels of the columns in view.
pub open spec fn columns_text(c: int, co: i32, nul: bool) -> Seq<char> {
    seq!['\t'] + header_from(c, co as int, view_end(co), nul) + seq!['\n']
}

/// What a cell shows: `ERR` for a cell in error, else its value.
pub open spec fn cell_text(x: crate::sheet::CellV) -> Seq<char> {
    if x.err != 0 {
        seq!['E', 'R', 'R']
    } else {
        i32_decimal(x.val)
    }
}

/// The cells `j..end` below `c` of row `i`, each followed by a tab.
pub open spec fn row_cells(g: Grid, c: int, i: int, j: int, end: int) -> Seq<char>
    decreases end - j,
{
    if j >= end || j >= c {
        Seq::empty()
    } else {
        cell_text(g[i][j]) + seq!['\t'] + row_cells(g, c, i, j + 1, end)
    }
}

/// The rows `i..` of the view, each as its 1-based number, a tab, its cells
/// and a newline.
pub open spec fn rows_from(g: Grid, r: int, c: int, i: int, end: int, co: i32) -> Seq<char>
    decreases end - i,
{
    if i >= end || i >= r {
        Seq::empty()
    } else {
        i32_decimal((i + 1) as i32) + seq!['\t'] + row_cells(g, c, i, co as int, view_end(co))
            + seq!['\n'] + rows_from(g, r, c, i + 1, end, co)
    }
}

/// The whole view: two spaces, the header line, a blank line, then the rows.
pub open spec fn sheet_text(g: Grid, r: int, c: int, ro: i32, co: i32, nul: bool) -> Seq<char> {
    seq![' ', ' '] + columns_text(c, co, nul) + seq!['\n', '\n'] + rows_from(g, r, c, ro as int, view_end(ro), co)
}

/// End of the part of a view starting at `o` that lies below `n`.
pub open spec fn shown_end(o: i32, n: int) -> int {
    if view_end(o) < n {
        view_end(o)
    } else {
        n
    }
}

/// The columns in view have labels of at most three letters, where labels
/// are built in a fixed buffer (`nul`).
pub open spec fn labels_fit(c: int, co: i32, nul: bool) -> bool {
    !nul || co >= shown_end(co, c) || shown_end(co, c) <= 18278
}

/// Every cell in view lies at non-negative indices.
pub open spec fn view_in_sheet(r: int, c: int, ro: i32, co: i32) -> bool {
    ro >= shown_end(ro, r) || co >= shown_end(co, c) || (0 <= ro && 0 <= co)
}

fn push_label(out: &mut Vec<char>, i: i32, nul: bool)
    ensures
        final(out)@ == old(out)@ + column_label(i as int, nul),
{
    let ghost start = old(out)@;
    if i >= 0 {
        let name = column_name_chars(i as usize);
        assert((i as usize).wrapping_add(1) == i + 1);
        append_chars(out, &name);
    }
    if nul {
        out.push('\0');
    }
    assert(out@ =~= start + column_label(i as int, nul));
}

/// The header line of the view (see `columns_text`).
pub fn render_columns(c: i32, col_offset: i32, nul: bool) -> (out: Vec<char>)
    requires
        labels_fit(c as int, col_offset, nul),
    ensures
        out@ == columns_text(c as int, col_offset, nul),
{
    let mut out: Vec<char> = Vec::new();
    out.push('\t');
    let end = col_offset.wrapping_add(VIEWPORT_SIZE);
    assert(end < col_offset <==> view_end(col_offset) == col_offset);
    let ghost e = view_end(col_offset);
    let mut i = col_offset;
    while i < end && i < c
        invariant
            col_offset <= i,
            e == view_end(col_offset),
            end >= col_offset ==> i <= end && e == end,
            end < col_offset ==> i == col_offset && e == col_offset,
            labels_fit(c as int, col_offset, nul),
            out@ + header_from(c as int, i as int, e, nul) == seq!['\t'] + header_from(
                c as int,
                col_offset as int,
                e,
                nul,
            ),
        decreases end - i,
    {
        let ghost before = out@;
        assert(col_offset <= i < shown_end(col_offset, c as int));
        push_label(&mut out, i, nul);
        out.push('\t');
        assert(out@ == before + (column_label(i as int, nul) + seq!['\t']));
        i += 1;
    }
    assert(header_from(c as int, i as int, e, nul) == Seq::<char>::empty());
    out.push('\n');
    out
}

fn push_cell(out: &mut Vec<char>, x: &cell)
    ensures
        final(out)@ == old(out)@ + cell_text(x@),
{
    if x.err != 0 {
        out.push('E');
        out.push('R');
        out.push('R');
        assert(final(out)@ =~= old(out)@ + seq!['E', 'R', 'R']);
    } else {
        append_chars(out, &i32_to_chars(x.val));
    }
}

fn render_row(out: &mut Vec<char>, r: i32, c: i32, sheet: &Vec<Vec<cell>>, i: i32, col_offset: i32)
    requires
        sheet_wf(sheet@, r as int, c as int),
        i < r,
        col_offset < shown_end(col_offset, c as int) ==> 0 <= i && 0 <= col_offset,
    ensures
        final(out)@ == old(out)@ + row_cells(grid(sheet@), c as int, i as int, col_offset as int, view_end(col_offset)),
{
    let ghost g = grid(sheet@);
    let end = col_offset.wrapping_add(VIEWPORT_SIZE);
    assert(end < col_offset <==> view_end(col_offset) == col_offset);
    let ghost e = view_end(col_offset);
    let ghost start = old(out)@;
    let mut j = col_offset;
    while j < end && j < c
        invariant
            sheet_wf(sheet@, r as int, c as int),
            g == grid(sheet@),
            i < r,
            col_offset <= j,
            e == view_end(col_offset),
            end >= col_offset ==> j <= end && e == end,
            end < col_offset ==> j == col_offset && e == col_offset,
            col_offset < shown_end(col_offset, c as int) ==> 0 <= i && 0 <= col_offset,
            out@ + row_cells(g, c as int, i as int, j as int, e) == start + row_cells(
                g,
                c as int,
                i as int,
                col_offset as int,
                e,
            ),
        decreases end - j,
    {
        assert(col_offset <= j < shown_end(col_offset, c as int));
        proof {
            lemma_grid_cell(sheet@, r as int, c as int, i as int, j as int);
        }
        let ghost before = out@;
        push_cell(out, &sheet[i as usize][j as usize]);
        out.push('\t');
        assert(out@ == before + (cell_text(g[i as int][j as int]) + seq!['\t']));
        j += 1;
    }
    assert(row_cells(g, c as int, i as int, j as int, e) == Seq::<char>::empty());
}

/// The text of the view whose top-left cell is at `(row_offset,
/// col_offset)` (see `sheet_text`).
pub fn render_sheet(r: i32, c: i32, sheet: &Vec<Vec<cell>>, row_offset: i32, col_offset: i32, nul: bool) -> (out: Vec<char>)
    requires
        sheet_wf(sheet@, r as int, c as int),
        labels_fit(c as int, col_offset, nul),
        view_in_sheet(r as int, c as int, row_offset, col_offset),
    ensures
        out@ == sheet_text(grid(sheet@), r as int, c as int, row_offset, col_offset, nul),
{
    let ghost g = grid(sheet@);
    let mut out: Vec<char> = Vec::new();
    out.push(' ');
    out.push(' ');
    let head = render_columns(c, col_offset, nul);
    append_chars(&mut out, &head);
    out.push('\n');
    out.push('\n');
    let ghost prefix = out@;
    assert(prefix == seq![' ', ' '] + columns_text(c as int, col_offset, nul) + seq!['\n', '\n']);
    let end = row_offset.wrapping_add(VIEWPORT_SIZE);
    assert(end < row_offset <==> view_end(row_offset) == row_offset);
    let ghost e = view_end(row_offset);
    let mut i = row_offset;
    while i < end && i < r
        invariant
            sheet_wf(sheet@, r as int, c as int),
            g == grid(sheet@),
            row_offset <= i,
            e == view_end(row_offset),
            end >= row_offset ==> i <= end && e == end,
            end < row_offset ==> i == row_offset && e == row_offset,
            view_in_sheet(r as int, c as int, row_offset, col_offset),
            out@ + rows_from(g, r as int, c as int, i as int, e, col_offset) == prefix + rows_from(
                g,
                r as int,
                c as int,
                row_offset as int,
                e,
                col_offset,
            ),
        decreases end - i,
    {
        let ghost before = out@;
        assert(row_offset <= i < shown_end(row_offset, r as int));
        let label = i32_to_chars(i + 1);
        append_chars(&mut out, &label);
        out.push('\t');
        let ghost mid = out@;
        render_row(&mut out, r, c, sheet, i, col_offset);
        out.push('\n');
        assert(out@ == before + (i32_decimal((i + 1) as i32) + seq!['\t'] + row_cells(
            g,
            c as int,
            i as int,
            col_offset as int,
            view_end(col_offset),
        ) + seq!['\n']));
        i += 1;
    }
    assert(rows_from(g, r as int, c as int, i as int, e, col_offset) == Seq::<char>::empty());
    out
}

} // verus!
