//! A session of command lines: what one line does to the sheet, from the
//! command itself to the evaluation and the status the prompt reports.

use vstd::prelude::*;
use crate::columns::{get_col_index_table, spec_col_index_table};
use crate::sheet::{Abort, CellUpdate, Grid, cell, grid, lemma_grid_cell, sheet_wf};
use crate::sheet::command::{
    Flags, InputEffect, lemma_navigate_inside, parse_assignment, process_input, set_cell_formula, set_formula,
    spec_assignment, spec_process_input, view_inside, view_overflows,
};
use crate::sheet::engine::{BState, FormulaCache, build_dependency_graph, build_rows, cache_valid, spec_topological, topological_evaluation};
use crate::sheet::eval::{EvalCtx, EvalState, RangeCache, SleepMemo, opt_vec};
use crate::sheet::graph::{DependencyGraph, empty_model};
use crate::sheet::CellRef;
use crate::text::{append_chars, chars_of, find_char, slice_chars, spec_find_char, string_of};

verus! {

/// How a line ended, as the prompt reports it.
#[derive(Copy, Clone, PartialEq, Eq, Structural, Debug)]
pub enum Status {
    Fine,
    UnrecognizedCmd,
    InvalidRange,
    CycleDetected,
}

/// What carries over from one line to the next: the view, the display
/// switch, the parsed formulas, the last sleep on a cell reference and the
/// last assigned cell.
pub struct Session {
    pub row_offset: i32,
    pub col_offset: i32,
    pub output_enabled: i32,
    pub formula_cache: FormulaCache,
    pub memo: SleepMemo,
    pub last_update: CellUpdate,
}

pub struct SessionV {
    pub row_offset: i32,
    pub col_offset: i32,
    pub output_enabled: i32,
    pub cache: Map<Seq<char>, Seq<CellRef>>,
    pub memo_formula: Option<Seq<char>>,
    pub memo_value: i32,
    pub last_update: CellUpdate,
}

impl View for Session {
    type V = SessionV;

    open spec fn view(&self) -> SessionV {
        SessionV {
            row_offset: self.row_offset,
            col_offset: self.col_offset,
            output_enabled: self.output_enabled,
            cache: self.formula_cache@,
            memo_formula: opt_vec(self.memo.formula),
            memo_value: self.memo.value,
            last_update: self.last_update,
        }
    }
}

impl Session {
    /// The view at the top-left cell, output on, nothing cached.
    pub fn new() -> (s: Session)
        ensures
            s@.row_offset == 0,
            s@.col_offset == 0,
            s@.output_enabled == 1,
            s@.cache == Map::<Seq<char>, Seq<CellRef>>::empty(),
            s@.memo_formula is None,
            s@.memo_value == -1,
            s@.last_update == (CellUpdate { row: -1i32, col: -1i32, is_updated: false }),
    {
        Session {
            row_offset: 0,
            col_offset: 0,
            output_enabled: 1,
            formula_cache: FormulaCache::new(),
            memo: SleepMemo::new(),
            last_update: CellUpdate { row: -1, col: -1, is_updated: false },
        }
    }
}

/// What one line reports: whether to quit, the status for the prompt, and
/// the sleeps (in seconds, in order) that its evaluation asked for.
pub struct LineReport {
    pub quit: bool,
    pub status: Status,
    pub sleeps: Vec<i32>,
}

/// The outcome of a line, as values.
pub struct LineOutcome {
    pub quit: bool,
    pub status: Status,
    pub sleeps: Seq<i32>,
    pub g: Grid,
    pub ses: SessionV,
}

/// The line without its first newline.
pub open spec fn strip_newline(s: Seq<char>) -> Seq<char> {
    match spec_find_char(s, '\n') {
        Some(p) => s.subrange(0, p) + s.subrange(p + 1, s.len() as int),
        None => s,
    }
}

/// The status the prompt shows, the first raised flag in this order.
pub open spec fn status_of(unrec: bool, inval: bool, cycle: bool) -> Status {
    if unrec {
        Status::UnrecognizedCmd
    } else if inval {
        Status::InvalidRange
    } else if cycle {
        Status::CycleDetected
    } else {
        Status::Fine
    }
}

/// The formula of a cell before the line, or the empty text.
pub open spec fn backup_of(g: Grid, r: int, c: int, row: i32, ucol: i32) -> Seq<char> {
    if 0 <= ucol < c && 1 <= row <= r {
        match g[row - 1][ucol as int].formula {
            Some(f) => f,
            None => Seq::empty(),
        }
    } else {
        Seq::empty()
    }
}

/// One line of a session, on a sheet of `r` rows and `c` columns:
/// 1. The line (without its first newline) is taken as a command
///    (`spec_process_input`); `q` ends the session there.
/// 2. The dependency graph of the whole sheet is built afresh, with the
///    formula cache of the session.
/// 3. When a reference was refused for closing a cycle, the cell the line
///    names gets back the formula it had before the line (none if it had
///    none); otherwise every cell is evaluated in dependency order.
/// 4. When a range was invalid, the cell the line names loses its formula.
/// 5. The status is the first of: unrecognized command, invalid range, cycle.
pub open spec fn spec_process_line(s: Seq<char>, r: int, c: int, g: Grid, sv: SessionV) -> Result<LineOutcome, Abort> {
    let line = strip_newline(s);
    let fl0 = Flags {
        inval_r: false,
        unrec_cmd: false,
        cycle_detected: false,
        last_update: CellUpdate { is_updated: false, ..sv.last_update },
    };
    let (col_str, parsed) = spec_assignment(line);
    let row: i32 = match parsed {
        Some((rw, _)) => rw,
        None => 0i32,
    };
    let ucol = spec_col_index_table(col_str);
    let urow = row.wrapping_sub(1);
    let backup = backup_of(g, r, c, row, ucol);
    match spec_process_input(line, r, c, g, sv.row_offset, sv.col_offset, sv.output_enabled, fl0) {
        Err(a) => Err(a),
        Ok(e) => {
            let ses1 = SessionV {
                row_offset: e.row_offset,
                col_offset: e.col_offset,
                output_enabled: e.output_enabled,
                last_update: e.flags.last_update,
                ..sv
            };
            if e.quit {
                Ok(LineOutcome { quit: true, status: Status::Fine, sleeps: Seq::empty(), g: e.g, ses: ses1 })
            } else {
                match build_rows(
                    e.g,
                    r,
                    c,
                    0,
                    BState { m: empty_model(), cycle: false, inval: e.flags.inval_r, cached: sv.cache },
                ) {
                    Err(a) => Err(a),
                    Ok(st) => {
                        let ses2 = SessionV { cache: st.cached, ..ses1 };
                        let after: Result<(Grid, bool, Seq<i32>, SessionV), Abort> = if st.cycle && urow != -1
                            && ucol != -1 {
                            if !(0 <= urow < r && 0 <= ucol < c) {
                                Err(Abort::IndexBounds)
                            } else {
                                let restored = if backup.len() > 0 {
                                    Some(backup)
                                } else {
                                    None
                                };
                                Ok((set_formula(e.g, urow as int, ucol as int, restored), st.inval, Seq::empty(), ses2))
                            }
                        } else if !st.cycle {
                            match spec_topological(
                                st.m,
                                r,
                                c,
                                e.g,
                                EvalState {
                                    inval: st.inval,
                                    sleeps: Seq::empty(),
                                    memo_formula: sv.memo_formula,
                                    memo_value: sv.memo_value,
                                    cache: Map::empty(),
                                },
                            ) {
                                Err(a) => Err(a),
                                Ok(k) => Ok(
                                    (
                                        k.g,
                                        k.est.inval,
                                        k.est.sleeps,
                                        SessionV {
                                            memo_formula: k.est.memo_formula,
                                            memo_value: k.est.memo_value,
                                            ..ses2
                                        },
                                    ),
                                ),
                            }
                        } else {
                            Ok((e.g, st.inval, Seq::empty(), ses2))
                        };
                        match after {
                            Err(a) => Err(a),
                            Ok((g2, inval, sleeps, ses3)) => {
                                let g3 = if inval && col_str.len() > 0 && row != 0 && 0 <= ucol < c && 1 <= row
                                    <= r {
                                    set_formula(g2, row - 1, ucol as int, None)
                                } else {
                                    g2
                                };
                                Ok(
                                    LineOutcome {
                                        quit: false,
                                        status: status_of(e.flags.unrec_cmd, inval, st.cycle),
                                        sleeps,
                                        g: g3,
                                        ses: ses3,
                                    },
                                )
                            },
                        }
                    },
                }
            }
        },
    }
}

fn strip_newline_exec(s: &Vec<char>) -> (t: Vec<char>)
    ensures
        t@ == strip_newline(s@),
{
    match find_char(s, '\n') {
        Some(p) => {
            let mut t = slice_chars(s, 0, p);
            let tail = slice_chars(s, p + 1, s.len());
            append_chars(&mut t, &tail);
            t
        },
        None => slice_chars(s, 0, s.len()),
    }
}

/// Carries out one line of a session (see `spec_process_line`). The sheet
/// shown after the line is `render_sheet` of the new sheet when output is on.
pub fn process_line(line: &str, r: i32, c: i32, sheet: &mut Vec<Vec<cell>>, session: &mut Session) -> (res: Result<LineReport, Abort>)
    requires
        sheet_wf(old(sheet)@, r as int, c as int),
        cache_valid(old(session)@.cache, r as int),
    ensures
        sheet_wf(final(sheet)@, r as int, c as int),
        cache_valid(final(session)@.cache, r as int),
        match spec_process_line(line@, r as int, c as int, grid(old(sheet)@), old(session)@) {
            Ok(o) => res is Ok && res->Ok_0.quit == o.quit && res->Ok_0.status == o.status
                && res->Ok_0.sleeps@ == o.sleeps && grid(final(sheet)@) == o.g && final(session)@ == o.ses,
            Err(a) => res is Err && res->Err_0 == a,
        },
{
    let ghost g0 = grid(sheet@);
    let ghost sv = session@;
    let raw = chars_of(line);
    let s = strip_newline_exec(&raw);
    let mut flags = Flags {
        inval_r: false,
        unrec_cmd: false,
        cycle_detected: false,
        last_update: CellUpdate { is_updated: false, ..session.last_update },
    };
    let (col_str, parsed) = parse_assignment(&s);
    let row: i32 = match parsed {
        Some((rw, _)) => rw,
        None => 0,
    };
    let ucol = get_col_index_table(&col_str);
    let urow = row.wrapping_sub(1);
    let mut backup: Vec<char> = Vec::new();
    if 0 <= ucol && ucol < c && 1 <= row && row <= r {
        proof {
            lemma_grid_cell(sheet@, r as int, c as int, row - 1, ucol as int);
        }
        match &sheet[(row - 1) as usize][ucol as usize].formula {
            Some(f) => {
                backup = chars_of(f.as_str());
            },
            None => {},
        }
    }
    assert(backup@ == backup_of(g0, r as int, c as int, row, ucol));
    let text = string_of(s.as_slice());
    let mut ro = session.row_offset;
    let mut co = session.col_offset;
    let mut oe = session.output_enabled;
    let quit = process_input(text.as_str(), r, c, sheet, &mut ro, &mut co, &mut oe, &mut flags)?;
    session.row_offset = ro;
    session.col_offset = co;
    session.output_enabled = oe;
    session.last_update = flags.last_update;
    if quit {
        return Ok(LineReport { quit: true, status: Status::Fine, sleeps: Vec::new() });
    }
    let ghost g1 = grid(sheet@);
    let mut graph = DependencyGraph::new();
    let mut cycle = false;
    let mut inval = flags.inval_r;
    build_dependency_graph(r, c, sheet, &mut graph, &mut session.formula_cache, &mut cycle, &mut inval)?;
    let mut sleeps: Vec<i32> = Vec::new();
    if cycle && urow != -1 && ucol != -1 {
        if !(0 <= urow && urow < r && 0 <= ucol && ucol < c) {
            return Err(Abort::IndexBounds);
        }
        let restored = if backup.len() > 0 {
            Some(string_of(backup.as_slice()))
        } else {
            None
        };
        set_cell_formula(sheet, r, c, urow as usize, ucol as usize, restored);
    } else if !cycle {
        let mut memo = SleepMemo::new();
        std::mem::swap(&mut memo, &mut session.memo);
        let mut ctx = EvalCtx { inval_r: inval, sleeps: Vec::new(), memo, range_cache: RangeCache::new() };
        topological_evaluation(r, c, sheet, &graph, &mut ctx)?;
        inval = ctx.inval_r;
        sleeps = ctx.sleeps;
        session.memo = ctx.memo;
    }
    if inval && col_str.len() > 0 && row != 0 && 0 <= ucol && ucol < c && 1 <= row && row <= r {
        set_cell_formula(sheet, r, c, (row - 1) as usize, ucol as usize, None);
    }
    let status = if flags.unrec_cmd {
        Status::UnrecognizedCmd
    } else if inval {
        Status::InvalidRange
    } else if cycle {
        Status::CycleDetected
    } else {
        Status::Fine
    };
    Ok(LineReport { quit: false, status, sleeps })
}

/// The cell a line assigns to, when its assignment part names a cell of the
/// sheet: `(row, column)`, 0-based.
pub open spec fn named_cell(s: Seq<char>, r: int, c: int) -> Option<(int, int)> {
    let (col, parsed) = spec_assignment(strip_newline(s));
    match parsed {
        Some((row, _)) => {
            let ucol = spec_col_index_table(col);
            if 0 <= ucol < c && 1 <= row <= r {
                Some(((row - 1) as int, ucol as int))
            } else {
                None
            }
        },
        None => None,
    }
}

/// Law: when a line is refused for closing a cycle, the cell it names keeps
/// the formula it had before the line (a cell whose formula was the empty
/// text is left without one).
pub proof fn law_cycle_keeps_formula(s: Seq<char>, r: int, c: int, g: Grid, sv: SessionV)
    requires
        crate::sheet::grid_wf(g, r, c),
        spec_process_line(s, r, c, g, sv) is Ok,
        spec_process_line(s, r, c, g, sv)->Ok_0.status == Status::CycleDetected,
        named_cell(s, r, c) is Some,
        g[named_cell(s, r, c)->Some_0.0][named_cell(s, r, c)->Some_0.1].formula != Some(Seq::<char>::empty()),
    ensures
        ({
            let (i, j) = named_cell(s, r, c)->Some_0;
            spec_process_line(s, r, c, g, sv)->Ok_0.g[i][j].formula == g[i][j].formula
        }),
{
    let line = strip_newline(s);
    let (col_str, parsed) = spec_assignment(line);
    let row = parsed->Some_0.0;
    let ucol = spec_col_index_table(col_str);
    let fl0 = Flags {
        inval_r: false,
        unrec_cmd: false,
        cycle_detected: false,
        last_update: CellUpdate { is_updated: false, ..sv.last_update },
    };
    let e = spec_process_input(line, r, c, g, sv.row_offset, sv.col_offset, sv.output_enabled, fl0)->Ok_0;
    assert(e.g.len() == r && e.g[row - 1].len() == c) by {
        lemma_process_input_shape(line, r, c, g, sv.row_offset, sv.col_offset, sv.output_enabled, fl0);
    }
    let st = build_rows(
        e.g,
        r,
        c,
        0,
        BState { m: empty_model(), cycle: false, inval: e.flags.inval_r, cached: sv.cache },
    )->Ok_0;
    let urow = row.wrapping_sub(1);
    assert(urow == row - 1);
    let backup = backup_of(g, r, c, row, ucol);
    let restored = if backup.len() > 0 {
        Some(backup)
    } else {
        None
    };
    let o = spec_process_line(s, r, c, g, sv)->Ok_0;
    assert(!e.quit);
    assert(st.cycle);
    assert(!st.inval);
    let g2 = set_formula(e.g, urow as int, ucol as int, restored);
    assert(o.g == g2);
    assert(g2[row - 1][ucol as int].formula == restored);
    assert(named_cell(s, r, c) == Some(((row - 1) as int, ucol as int)));
    match g[row - 1][ucol as int].formula {
        Some(f) => {
            assert(backup == f);
            if f.len() == 0 {
                assert(f =~= Seq::<char>::empty());
            }
        },
        None => {
            assert(backup.len() == 0);
        },
    }
    assert(restored == g[row - 1][ucol as int].formula);
}

/// A command keeps the shape of the grid.
proof fn lemma_process_input_shape(s: Seq<char>, r: int, c: int, g: Grid, ro: i32, co: i32, oe: i32, fl: Flags)
    requires
        crate::sheet::grid_wf(g, r, c),
        spec_process_input(s, r, c, g, ro, co, oe, fl) is Ok,
    ensures
        crate::sheet::grid_wf(spec_process_input(s, r, c, g, ro, co, oe, fl)->Ok_0.g, r, c),
{
    let e = spec_process_input(s, r, c, g, ro, co, oe, fl)->Ok_0;
    assert forall|i: int| 0 <= i < r implies (#[trigger] e.g[i]).len() == c by {}
}


/// Law: every line keeps the view inside the sheet: when the first row and
/// column in view were a row and a column of the sheet, they still are
/// after the line (but for a scroll past `i32::MAX`).
pub proof fn law_view_stays_inside(s: Seq<char>, r: int, c: int, g: Grid, sv: SessionV)
    requires
        crate::sheet::grid_wf(g, r, c),
        view_inside(sv.row_offset, sv.col_offset, r, c),
        !view_overflows(strip_newline(s), sv.row_offset, sv.col_offset),
        spec_process_line(s, r, c, g, sv) is Ok,
    ensures
        view_inside(
            spec_process_line(s, r, c, g, sv)->Ok_0.ses.row_offset,
            spec_process_line(s, r, c, g, sv)->Ok_0.ses.col_offset,
            r,
            c,
        ),
{
    let line = strip_newline(s);
    let fl0 = Flags {
        inval_r: false,
        unrec_cmd: false,
        cycle_detected: false,
        last_update: CellUpdate { is_updated: false, ..sv.last_update },
    };
    let same = InputEffect {
        quit: false,
        g,
        row_offset: sv.row_offset,
        col_offset: sv.col_offset,
        output_enabled: sv.output_enabled,
        flags: fl0,
    };
    lemma_navigate_inside(line, r, c, same, true);
    let e = spec_process_input(line, r, c, g, sv.row_offset, sv.col_offset, sv.output_enabled, fl0)->Ok_0;
    assert(view_inside(e.row_offset, e.col_offset, r, c));
}

} // verus!
