//! The spreadsheet engine: cells, formula evaluation, the dependency graph and
//! the processing of one command line.

use vstd::prelude::*;

pub mod eval;
pub mod graph;
pub mod engine;
pub mod command;
pub mod display;
pub mod session;

verus! {

/// One cell of the sheet.
#[allow(non_camel_case_types)]
pub struct cell {
    pub val: i32,
    pub formula: Option<String>,
    /// 1 if the cell contains an error, 0 otherwise.
    pub err: i32,
}

/// The cell that the last command line assigned a formula to.
#[derive(Copy, Clone)]
pub struct CellUpdate {
    pub row: i32,
    pub col: i32,
    pub is_updated: bool,
}

/// A (row, column) position, both 0-based.
#[derive(Copy, Clone, PartialEq, Eq, Structural, Hash, Debug)]
pub struct CellRef {
    pub row: i32,
    pub col: i32,
}

/// What a cell holds, as values.
pub struct CellV {
    pub val: i32,
    pub formula: Option<Seq<char>>,
    pub err: i32,
}

pub open spec fn opt_chars(o: Option<String>) -> Option<Seq<char>> {
    match o {
        Some(s) => Some(s@),
        None => None,
    }
}

impl View for cell {
    type V = CellV;

    open spec fn view(&self) -> CellV {
        CellV { val: self.val, formula: opt_chars(self.formula), err: self.err }
    }
}

pub type Grid = Seq<Seq<CellV>>;

/// The sheet as a grid of cell values.
pub open spec fn grid(sheet: Seq<Vec<cell>>) -> Grid {
    sheet.map_values(|row: Vec<cell>| row@.map_values(|x: cell| x@))
}

/// `r` rows of `c` cells each; the sheet never holds more than `i32::MAX` cells.
pub open spec fn grid_wf(g: Grid, r: int, c: int) -> bool {
    &&& 0 <= r
    &&& 0 <= c
    &&& r * c <= i32::MAX
    &&& g.len() == r
    &&& forall|i: int| 0 <= i < r ==> (#[trigger] g[i]).len() == c
}

pub open spec fn sheet_wf(sheet: Seq<Vec<cell>>, r: int, c: int) -> bool {
    grid_wf(grid(sheet), r, c)
}

/// Why the engine stops the program: the operation that cannot complete.
#[derive(Copy, Clone, PartialEq, Eq, Structural, Debug)]
pub enum Abort {
    /// A text slice with its end before its start, or cutting a character.
    SliceBounds,
    /// A cell position outside the sheet.
    IndexBounds,
    /// `i32::MIN / -1`.
    DivideOverflow,
    /// A buffer whose requested size does not fit in memory.
    CapacityOverflow,
}

pub proof fn lemma_grid_cell(sheet: Seq<Vec<cell>>, r: int, c: int, i: int, j: int)
    requires
        sheet_wf(sheet, r, c),
        0 <= i < r,
        0 <= j < c,
    ensures
        sheet[i]@.len() == c,
        grid(sheet)[i][j] == sheet[i]@[j]@,
{
    assert(grid(sheet)[i] == sheet[i]@.map_values(|x: cell| x@));
}

} // verus!
