//! One command line of the incremental engine: the command, the update of
//! the graph for the assigned cell, and the re-evaluation from that cell.

use vstd::prelude::*;
use crate::columns::{get_col_index, spec_col_index};
use crate::sheet::{Abort, CellUpdate, Grid, cell, grid, lemma_grid_cell, sheet_wf};
use crate::sheet::command::{
    Flags, InputEffect, lemma_navigate_inside, navigate, parse_assignment, set_cell_formula, set_formula,
    spec_assignment, spec_navigate, view_inside, view_overflows,
};
use crate::sheet::engine::{set_cell_value, set_value};
use crate::sheet::eval::{EvalCtx, EvalState, RangeCache, SleepMemo, opt_vec};
use crate::sheet::session::{LineReport, Status, status_of};
use crate::sheet::CellRef;
use crate::incremental::dag::{
    DAGNode, DNode, add_dependency, add_one, cell_index, clear_dependencies, cleared_graph, dag_add, dag_path,
    dag_reaches, dag_view, dag_wf, is_reachable, lemma_add_keeps_unreached, lemma_cleared_graph_len, new_graph,
    pair_in_sheet, view_wf,
};
use crate::incremental::eval::{
    check_invalid_range, evaluate_formula, get_dependencies, is_valid_formula, spec_check_invalid_range,
    spec_eval, spec_get_dependencies, spec_is_valid_formula,
};
use crate::text::{chars_of, find_char, slice_chars, spec_find_char, string_of};

verus! {

// ---------------------------------------------------------------------------
// The command
// ---------------------------------------------------------------------------

/// The effect of an assignment `<letters><row>=<formula>` (or of a line that
/// is no command): like the other engine's, but the formula must also have
/// an accepted shape, and may not hold a range that covers its own cell.
pub open spec fn spec_assign(s: Seq<char>, r: int, c: int, same: InputEffect) -> Result<InputEffect, Abort> {
    let fl = same.flags;
    let unrec = InputEffect {
        flags: Flags { unrec_cmd: true, last_update: CellUpdate { is_updated: false, ..fl.last_update }, ..fl },
        ..same
    };
    let inval = InputEffect { flags: Flags { inval_r: true, ..fl }, ..same };
    let (col, parsed) = spec_assignment(s);
    match parsed {
        None => Ok(unrec),
        Some((row, f)) => if col.len() == 0 || row == 0 || f.len() == 0 {
            Ok(unrec)
        } else {
            let ci = spec_col_index(col);
            if ci > c || row > r {
                Ok(inval)
            } else if 0 <= ci < c && 1 <= row {
                match spec_check_invalid_range(f, (row - 1) as i32, ci) {
                    Err(a) => Err(a),
                    Ok(bad) => if bad != 0 {
                        Ok(inval)
                    } else if !spec_is_valid_formula(f) {
                        Ok(InputEffect { flags: Flags { unrec_cmd: true, ..fl }, ..same })
                    } else {
                        Ok(
                            InputEffect {
                                g: set_formula(same.g, row - 1, ci as int, Some(f)),
                                flags: Flags {
                                    unrec_cmd: false,
                                    last_update: CellUpdate { row: (row - 1) as i32, col: ci, is_updated: true },
                                    ..fl
                                },
                                ..same
                            },
                        )
                    },
                }
            } else {
                Ok(unrec)
            }
        },
    }
}

/// The effect of one command line on a sheet of `r` rows and `c` columns.
pub open spec fn spec_process_input(
    s: Seq<char>,
    r: int,
    c: int,
    g: Grid,
    ro: i32,
    co: i32,
    oe: i32,
    fl: Flags,
) -> Result<InputEffect, Abort> {
    let same = InputEffect { quit: false, g, row_offset: ro, col_offset: co, output_enabled: oe, flags: fl };
    match spec_navigate(s, r, c, same, false) {
        Some(res) => res,
        None => spec_assign(s, r, c, same),
    }
}

/// Carries out one command line (see `spec_process_input`): `q` asks to
/// quit (the result is `true`); the other commands move the view, switch the
/// display or store a formula.
pub fn process_input(
    input: &str,
    r: i32,
    c: i32,
    sheet: &mut Vec<Vec<cell>>,
    row_offset: &mut i32,
    col_offset: &mut i32,
    output_enabled: &mut i32,
    flags: &mut Flags,
) -> (res: Result<bool, Abort>)
    requires
        sheet_wf(old(sheet)@, r as int, c as int),
    ensures
        sheet_wf(final(sheet)@, r as int, c as int),
        match spec_process_input(
            input@,
            r as int,
            c as int,
            grid(old(sheet)@),
            *old(row_offset),
            *old(col_offset),
            *old(output_enabled),
            *old(flags),
        ) {
            Ok(e) => res == Ok::<bool, Abort>(e.quit) && grid(final(sheet)@) == e.g && *final(row_offset)
                == e.row_offset && *final(col_offset) == e.col_offset && *final(output_enabled)
                == e.output_enabled && *final(flags) == e.flags,
            Err(a) => res == Err::<bool, Abort>(a),
        },
{
    let s = chars_of(input);
    match navigate(&s, r, c, row_offset, col_offset, output_enabled, false) {
        Some(res) => {
            return res;
        },
        None => {},
    }
    let (col, parsed) = parse_assignment(&s);
    match parsed {
        Some((row, f)) => {
            if col.len() > 0 && row != 0 && f.len() > 0 {
                let ci = get_col_index(&col);
                if ci > c || row > r {
                    flags.inval_r = true;
                    return Ok(false);
                }
                if 0 <= ci && ci < c && 1 <= row {
                    if check_invalid_range(&f, row - 1, ci)? != 0 {
                        flags.inval_r = true;
                        return Ok(false);
                    }
                    if !is_valid_formula(&f) {
                        flags.unrec_cmd = true;
                        return Ok(false);
                    }
                    let text = string_of(f.as_slice());
                    set_cell_formula(sheet, r, c, (row - 1) as usize, ci as usize, Some(text));
                    flags.last_update = CellUpdate { row: row - 1, col: ci, is_updated: true };
                    flags.unrec_cmd = false;
                    return Ok(false);
                }
            }
        },
        None => {},
    }
    flags.last_update.is_updated = false;
    flags.unrec_cmd = true;
    Ok(false)
}

// ---------------------------------------------------------------------------
// Re-evaluation from a cell
// ---------------------------------------------------------------------------

/// The sheet, the cells evaluated so far, the stack of cells to visit and the
/// evaluation state.
pub struct EState {
    pub g: Grid,
    pub evaluated: Seq<bool>,
    pub stack: Seq<(i32, i32)>,
    pub est: EvalState,
}

/// The first dependency from index `k` on whose cell is not evaluated yet.
pub open spec fn first_pending(deps: Seq<(i32, i32)>, ev: Seq<bool>, c: int, k: int) -> Option<int>
    decreases deps.len() - k,
{
    if k < 0 || k >= deps.len() {
        None
    } else if !ev[cell_index(deps[k], c)] {
        Some(k)
    } else {
        first_pending(deps, ev, c, k + 1)
    }
}

/// One step: the cell on top of the stack is skipped when evaluated already;
/// when one of its dependencies is not evaluated, that dependency is visited
/// first (the cell goes back on the stack under it); otherwise the cell is
/// evaluated, marked, and its dependents are stacked.
#[verifier::opaque]
pub open spec fn ec_step(v: Seq<DNode>, r: int, c: int, st: EState) -> Result<EState, Abort> {
    let x = st.stack.last();
    let rest = st.stack.drop_last();
    let idx = cell_index(x, c);
    if !(0 <= idx < st.evaluated.len() && idx < v.len()) {
        Err(Abort::IndexBounds)
    } else if st.evaluated[idx] {
        Ok(EState { stack: rest, ..st })
    } else {
        let node = v[idx];
        match first_pending(node.dependencies, st.evaluated, c, 0) {
            Some(k) => Ok(EState { stack: rest.push(x).push(node.dependencies[k]), ..st }),
            None => if !(0 <= x.0 < r && 0 <= x.1 < c) {
                Err(Abort::IndexBounds)
            } else {
                let after: Result<(Grid, EvalState), Abort> = match st.g[x.0 as int][x.1 as int].formula {
                    None => Ok((st.g, st.est)),
                    Some(f) => {
                        let (res, est2) = spec_eval(f, r, c, st.g, st.est);
                        match res {
                            Ok((val, e)) => Ok(
                                (set_value(st.g, x.0 as int, x.1 as int, val, if e { 1i32 } else { 0i32 }), est2),
                            ),
                            Err(a) => Err(a),
                        }
                    },
                };
                match after {
                    Err(a) => Err(a),
                    Ok((g2, est2)) => Ok(
                        EState {
                            g: g2,
                            evaluated: st.evaluated.update(idx, true),
                            stack: rest + node.dependents,
                            est: est2,
                        },
                    ),
                }
            },
        }
    }
}

/// Steps until the stack is empty, for at most `fuel` steps.
pub open spec fn ec_run(v: Seq<DNode>, r: int, c: int, st: EState, fuel: nat) -> Result<EState, Abort>
    decreases fuel,
{
    if fuel == 0 || st.stack.len() == 0 {
        Ok(st)
    } else {
        match ec_step(v, r, c, st) {
            Ok(st2) => ec_run(v, r, c, st2, (fuel - 1) as nat),
            Err(a) => Err(a),
        }
    }
}

/// The most steps `evaluate_cell` takes.
pub open spec fn ec_step_limit() -> nat {
    0xffff_ffff_ffff_ffff
}

fn first_pending_exec(deps: &Vec<(i32, i32)>, evaluated: &Vec<bool>, r: i32, c: i32) -> (res: Option<usize>)
    requires
        forall|i: int| 0 <= i < deps.len() ==> pair_in_sheet(#[trigger] deps@[i], r as int, c as int),
        evaluated.len() == r * c,
        r * c <= i32::MAX,
    ensures
        match res {
            Some(k) => first_pending(deps@, evaluated@, c as int, 0) == Some(k as int) && k < deps.len(),
            None => first_pending(deps@, evaluated@, c as int, 0) is None,
        },
{
    let mut k: usize = 0;
    while k < deps.len()
        invariant
            k <= deps.len(),
            forall|i: int| 0 <= i < deps.len() ==> pair_in_sheet(#[trigger] deps@[i], r as int, c as int),
            evaluated.len() == r * c,
            r * c <= i32::MAX,
            first_pending(deps@, evaluated@, c as int, k as int) == first_pending(deps@, evaluated@, c as int, 0),
        decreases deps.len() - k,
    {
        let (dr, dc) = deps[k];
        proof {
            assert(pair_in_sheet(deps@[k as int], r as int, c as int));
            assert(0 <= dr * c + dc < r * c) by (nonlinear_arith)
                requires
                    0 <= dr < r,
                    0 <= dc < c,
            ;
        }
        let idx = (dr * c + dc) as usize;
        if !evaluated[idx] {
            return Some(k);
        }
        k += 1;
    }
    None
}

fn cell_slot(x: (i32, i32), c: i32, n: usize) -> (res: Option<usize>)
    ensures
        match res {
            Some(k) => k == cell_index(x, c as int) && k < n,
            None => !(0 <= cell_index(x, c as int) < n),
        },
{
    let (xr, xc) = x;
    proof {
        assert(-0x4000_0000_0000_0000 <= (xr as int) * (c as int) <= 0x4000_0000_0000_0000) by (nonlinear_arith)
            requires
                -0x8000_0000 <= xr <= 0x7fff_ffff,
                -0x8000_0000 <= c <= 0x7fff_ffff,
        ;
    }
    let wide: i64 = (xr as i64) * (c as i64) + (xc as i64);
    if wide < 0 || (wide as u64) >= (n as u64) {
        None
    } else {
        Some(wide as usize)
    }
}

fn push_all(stack: &mut Vec<(i32, i32)>, items: &Vec<(i32, i32)>)
    ensures
        final(stack)@ == old(stack)@ + items@,
{
    let mut i: usize = 0;
    while i < items.len()
        invariant
            i <= items.len(),
            stack@ == old(stack)@ + items@.take(i as int),
        decreases items.len() - i,
    {
        stack.push(items[i]);
        assert(items@.take(i + 1) == items@.take(i as int).push(items@[i as int]));
        i += 1;
    }
    assert(items@.take(items.len() as int) == items@);
}

/// Evaluates the formula of cell `(xr, xc)`, if it has one, into its value
/// and error flag.
fn eval_one(r: i32, c: i32, sheet: &mut Vec<Vec<cell>>, xr: i32, xc: i32, ctx: &mut EvalCtx) -> (res: Result<(), Abort>)
    requires
        sheet_wf(old(sheet)@, r as int, c as int),
        0 <= xr < r,
        0 <= xc < c,
    ensures
        sheet_wf(final(sheet)@, r as int, c as int),
        match grid(old(sheet)@)[xr as int][xc as int].formula {
            None => res is Ok && grid(final(sheet)@) == grid(old(sheet)@) && final(ctx)@ == old(ctx)@,
            Some(f) => {
                let (out, est2) = spec_eval(f, r as int, c as int, grid(old(sheet)@), old(ctx)@);
                match out {
                    Ok((val, e)) => res is Ok && grid(final(sheet)@) == set_value(
                        grid(old(sheet)@),
                        xr as int,
                        xc as int,
                        val,
                        if e { 1i32 } else { 0i32 },
                    ) && final(ctx)@ == est2,
                    Err(a) => res == Err::<(), Abort>(a),
                }
            },
        },
{
    proof {
        lemma_grid_cell(sheet@, r as int, c as int, xr as int, xc as int);
    }
    let formula = match &sheet[xr as usize][xc as usize].formula {
        Some(f) => Some(chars_of(f.as_str())),
        None => None,
    };
    match formula {
        Some(f) => {
            let mut error_flag: i32 = 0;
            let val = evaluate_formula(&f, r, c, sheet, &mut error_flag, ctx)?;
            set_cell_value(sheet, r, c, xr as usize, xc as usize, val, error_flag);
            Ok(())
        },
        None => Ok(()),
    }
}

fn ec_step_exec(
    r: i32,
    c: i32,
    sheet: &mut Vec<Vec<cell>>,
    graph: &Vec<Option<Box<DAGNode>>>,
    evaluated: &mut Vec<bool>,
    stack: &mut Vec<(i32, i32)>,
    ctx: &mut EvalCtx,
) -> (res: Result<(), Abort>)
    requires
        sheet_wf(old(sheet)@, r as int, c as int),
        dag_wf(graph@, r as int, c as int),
        old(evaluated).len() == r * c,
        old(stack).len() > 0,
    ensures
        sheet_wf(final(sheet)@, r as int, c as int),
        final(evaluated).len() == r * c,
        match ec_step(
            dag_view(graph@),
            r as int,
            c as int,
            EState { g: grid(old(sheet)@), evaluated: old(evaluated)@, stack: old(stack)@, est: old(ctx)@ },
        ) {
            Ok(next) => res is Ok && next == (EState {
                g: grid(final(sheet)@),
                evaluated: final(evaluated)@,
                stack: final(stack)@,
                est: final(ctx)@,
            }),
            Err(a) => res == Err::<(), Abort>(a),
        },
{
    let ghost v = dag_view(graph@);
    let ghost st0 = EState { g: grid(sheet@), evaluated: evaluated@, stack: stack@, est: ctx@ };
    proof {
        reveal(ec_step);
    }
    let x = stack.pop().unwrap();
    assert(stack@ == st0.stack.drop_last() && x == st0.stack.last());
    let idx = match cell_slot(x, c, evaluated.len()) {
        Some(k) => k,
        None => {
            return Err(Abort::IndexBounds);
        },
    };
    if evaluated[idx] {
        return Ok(());
    }
    let node = match &graph[idx] {
        Some(n) => n,
        None => {
            return Err(Abort::IndexBounds);
        },
    };
    assert(node.dependencies@ == v[idx as int].dependencies);
    assert(node.dependents@ == v[idx as int].dependents);
    match first_pending_exec(&node.dependencies, evaluated, r, c) {
        Some(k) => {
            stack.push(x);
            stack.push(node.dependencies[k]);
            return Ok(());
        },
        None => {},
    }
    let (xr, xc) = x;
    if !(0 <= xr && xr < r && 0 <= xc && xc < c) {
        return Err(Abort::IndexBounds);
    }
    eval_one(r, c, sheet, xr, xc, ctx)?;
    evaluated.set(idx, true);
    push_all(stack, &node.dependents);
    Ok(())
}

/// Re-evaluates the cells connected to `(row, col)`: each cell not evaluated
/// yet is evaluated once all the cells it reads are, then the cells that
/// read it follow (see `ec_step`).
pub fn evaluate_cell(
    row: i32,
    col: i32,
    sheet: &mut Vec<Vec<cell>>,
    graph: &Vec<Option<Box<DAGNode>>>,
    evaluated: &mut Vec<bool>,
    r: i32,
    c: i32,
    ctx: &mut EvalCtx,
) -> (res: Result<(), Abort>)
    requires
        sheet_wf(old(sheet)@, r as int, c as int),
        dag_wf(graph@, r as int, c as int),
        old(evaluated).len() == r * c,
    ensures
        sheet_wf(final(sheet)@, r as int, c as int),
        final(evaluated).len() == r * c,
        match ec_run(
            dag_view(graph@),
            r as int,
            c as int,
            EState { g: grid(old(sheet)@), evaluated: old(evaluated)@, stack: seq![(row, col)], est: old(ctx)@ },
            ec_step_limit(),
        ) {
            Ok(st) => res is Ok && grid(final(sheet)@) == st.g && final(evaluated)@ == st.evaluated
                && final(ctx)@ == st.est,
            Err(a) => res == Err::<(), Abort>(a),
        },
{
    let ghost v = dag_view(graph@);
    let mut stack: Vec<(i32, i32)> = Vec::new();
    stack.push((row, col));
    assert(stack@ == seq![(row, col)]);
    let ghost target = ec_run(
        v,
        r as int,
        c as int,
        EState { g: grid(sheet@), evaluated: evaluated@, stack: stack@, est: ctx@ },
        ec_step_limit(),
    );
    let mut fuel: u64 = 0xffff_ffff_ffff_ffff;
    while fuel > 0 && stack.len() > 0
        invariant
            sheet_wf(sheet@, r as int, c as int),
            dag_wf(graph@, r as int, c as int),
            v == dag_view(graph@),
            evaluated.len() == r * c,
            ec_run(v, r as int, c as int, EState { g: grid(sheet@), evaluated: evaluated@, stack: stack@, est: ctx@ }, fuel as nat)
                == target,
            target == ec_run(
                v,
                r as int,
                c as int,
                EState { g: grid(old(sheet)@), evaluated: old(evaluated)@, stack: seq![(row, col)], est: old(ctx)@ },
                ec_step_limit(),
            ),
        decreases fuel,
    {
        let ghost cur = EState { g: grid(sheet@), evaluated: evaluated@, stack: stack@, est: ctx@ };
        match ec_step_exec(r, c, sheet, graph, evaluated, &mut stack, ctx) {
            Ok(()) => {},
            Err(a) => {
                proof {
                    assert(ec_run(v, r as int, c as int, cur, fuel as nat) == Err::<EState, Abort>(a));
                }
                return Err(a);
            },
        }
        fuel -= 1;
    }
    Ok(())
}

// ---------------------------------------------------------------------------
// One line of a session
// ---------------------------------------------------------------------------

/// What carries over from one line to the next: the view, the display
/// switch, the dependency graph, the last sleep on a cell reference and the
/// last assigned cell.
pub struct Session {
    pub row_offset: i32,
    pub col_offset: i32,
    pub output_enabled: i32,
    pub graph: Vec<Option<Box<DAGNode>>>,
    pub memo: SleepMemo,
    pub last_update: CellUpdate,
}

pub struct SessionV {
    pub row_offset: i32,
    pub col_offset: i32,
    pub output_enabled: i32,
    pub graph: Seq<DNode>,
    pub memo_formula: Option<Seq<char>>,
    pub memo_value: i32,
    pub last_update: CellUpdate,
}

impl View for Session {
    type V = SessionV;

    open spec fn view(&self) -> SessionV {
        SessionV {
            row_offset: self.row_offset,
            col_offset: self.col_offset,
            output_enabled: self.output_enabled,
            graph: dag_view(self.graph@),
            memo_formula: opt_vec(self.memo.formula),
            memo_value: self.memo.value,
            last_update: self.last_update,
        }
    }
}

impl Session {
    /// The view at the top-left cell, output on, an empty graph for a sheet
    /// of `r` rows and `c` columns.
    pub fn new(r: i32, c: i32) -> (s: Session)
        requires
            0 <= r,
            0 <= c,
            r * c <= i32::MAX,
        ensures
            s@.row_offset == 0,
            s@.col_offset == 0,
            s@.output_enabled == 1,
            dag_wf(s.graph@, r as int, c as int),
            forall|k: int| 0 <= k < s@.graph.len() ==> (#[trigger] s@.graph[k]) == (DNode {
                in_degree: 0,
                dependents: Seq::empty(),
                dependencies: Seq::empty(),
            }),
            s@.memo_formula is None,
            s@.memo_value == -1,
            s@.last_update == (CellUpdate { row: -1i32, col: -1i32, is_updated: false }),
    {
        Session {
            row_offset: 0,
            col_offset: 0,
            output_enabled: 1,
            graph: new_graph(r, c),
            memo: SleepMemo::new(),
            last_update: CellUpdate { row: -1, col: -1, is_updated: false },
        }
    }
}

/// The line up to its first newline.
pub open spec fn truncate_line(s: Seq<char>) -> Seq<char> {
    match spec_find_char(s, '\n') {
        Some(p) => s.subrange(0, p),
        None => s,
    }
}

/// The graph and cycle flag after `dep` is recorded as reading each cell of
/// `list`, in order.
pub open spec fn add_all(v: Seq<DNode>, r: int, c: int, dep: (i32, i32), list: Seq<CellRef>, cyc: bool) -> (Seq<DNode>, bool)
    decreases list.len(),
{
    if list.len() == 0 {
        (v, cyc)
    } else {
        let (v2, c2) = add_one(v, r, c, dep, (list[0].row, list[0].col), cyc);
        add_all(v2, r, c, dep, list.drop_first(), c2)
    }
}

/// Whether some cell of `list` reads node `from`, directly or not.
pub open spec fn any_reaches(v: Seq<DNode>, c: int, from: int, list: Seq<CellRef>) -> bool {
    exists|k: int| 0 <= k < list.len() && dag_reaches(v, c, from, cell_index((list[k].row, list[k].col), c))
}

/// The outcome of a line, as values.
pub struct LineOutcome {
    pub quit: bool,
    pub status: Status,
    pub sleeps: Seq<i32>,
    pub g: Grid,
    pub ses: SessionV,
}

/// One line of a session of the incremental engine, on a sheet of `r` rows
/// and `c` columns:
/// 1. The line (up to its first newline) is taken as a command
///    (`spec_process_input`); `q` ends the session there.
/// 2. When it stored a formula, the cell's old references are dropped from
///    the graph, and the cells the new formula reads are found.
/// 3. When one of them reads the cell, directly or not, the cell gets back
///    the formula it had before the line, and the line reports a cycle.
/// 4. Otherwise the new references are recorded and the cells connected to
///    the cell are re-evaluated from it (`ec_run`).
/// 5. The status is the first of: unrecognized command, invalid range, cycle.
pub open spec fn spec_process_line(s: Seq<char>, r: int, c: int, g: Grid, sv: SessionV) -> Result<LineOutcome, Abort> {
    let line = truncate_line(s);
    let fl0 = Flags {
        inval_r: false,
        unrec_cmd: false,
        cycle_detected: false,
        last_update: CellUpdate { is_updated: false, ..sv.last_update },
    };
    let (col_str, parsed) = spec_assignment(line);
    let backup: Option<Seq<char>> = match parsed {
        Some((row, _)) => {
            let urow = row.wrapping_sub(1);
            let ucol = spec_col_index(col_str);
            if 0 <= ucol < c && 0 <= urow < r {
                g[urow as int][ucol as int].formula
            } else {
                None
            }
        },
        None => None,
    };
    match spec_process_input(line, r, c, g, sv.row_offset, sv.col_offset, sv.output_enabled, fl0) {
        Err(a) => Err(a),
        Ok(e) => {
            let ses1 = SessionV {
                row_offset: e.row_offset,
                col_offset: e.col_offset,
                output_enabled: e.output_enabled,
                last_update: e.flags.last_update,
                ..sv
            };
            if e.quit {
                Ok(LineOutcome { quit: true, status: Status::Fine, sleeps: Seq::empty(), g: e.g, ses: ses1 })
            } else if !e.flags.last_update.is_updated {
                Ok(
                    LineOutcome {
                        quit: false,
                        status: status_of(e.flags.unrec_cmd, e.flags.inval_r, false),
                        sleeps: Seq::empty(),
                        g: e.g,
                        ses: ses1,
                    },
                )
            } else {
                let cell = (e.flags.last_update.row, e.flags.last_update.col);
                let idx = cell_index(cell, c);
                let v3 = cleared_graph(sv.graph, c, cell);
                let f = e.g[cell.0 as int][cell.1 as int].formula->Some_0;
                match spec_get_dependencies(f, r, c) {
                    Err(a) => Err(a),
                    Ok(new_deps) => if any_reaches(v3, c, idx, new_deps) {
                        Ok(
                            LineOutcome {
                                quit: false,
                                status: status_of(e.flags.unrec_cmd, e.flags.inval_r, true),
                                sleeps: Seq::empty(),
                                g: set_formula(e.g, cell.0 as int, cell.1 as int, backup),
                                ses: SessionV { graph: v3, ..ses1 },
                            },
                        )
                    } else {
                        let (v4, cyc) = add_all(v3, r, c, cell, new_deps, false);
                        let start = EState {
                            g: e.g,
                            evaluated: Seq::new((r * c) as nat, |k: int| false),
                            stack: seq![cell],
                            est: EvalState {
                                inval: e.flags.inval_r,
                                sleeps: Seq::empty(),
                                memo_formula: sv.memo_formula,
                                memo_value: sv.memo_value,
                                cache: Map::empty(),
                            },
                        };
                        match ec_run(v4, r, c, start, ec_step_limit()) {
                            Err(a) => Err(a),
                            Ok(st) => Ok(
                                LineOutcome {
                                    quit: false,
                                    status: status_of(e.flags.unrec_cmd, st.est.inval, cyc),
                                    sleeps: st.est.sleeps,
                                    g: st.g,
                                    ses: SessionV {
                                        graph: v4,
                                        memo_formula: st.est.memo_formula,
                                        memo_value: st.est.memo_value,
                                        ..ses1
                                    },
                                },
                            ),
                        }
                    },
                }
            }
        },
    }
}

fn truncate_exec(s: &Vec<char>) -> (t: Vec<char>)
    ensures
        t@ == truncate_line(s@),
{
    match find_char(s, '\n') {
        Some(p) => slice_chars(s, 0, p),
        None => slice_chars(s, 0, s.len()),
    }
}

fn any_reaches_exec(graph: &Vec<Option<Box<DAGNode>>>, r: i32, c: i32, from: usize, deps: &Vec<CellRef>) -> (b: bool)
    requires
        dag_wf(graph@, r as int, c as int),
        from < graph.len(),
        forall|k: int| 0 <= k < deps.len() ==> pair_in_sheet(((#[trigger] deps@[k]).row, deps@[k].col), r as int, c as int),
    ensures
        b == any_reaches(dag_view(graph@), c as int, from as int, deps@),
{
    let mut k: usize = 0;
    while k < deps.len()
        invariant
            dag_wf(graph@, r as int, c as int),
            from < graph.len(),
            forall|m: int| 0 <= m < deps.len() ==> pair_in_sheet(((#[trigger] deps@[m]).row, deps@[m].col), r as int, c as int),
            k <= deps.len(),
            forall|m: int| 0 <= m < k ==> !dag_reaches(dag_view(graph@), c as int, from as int, cell_index(((#[trigger] deps@[m]).row, deps@[m].col), c as int)),
        decreases deps.len() - k,
    {
        let d = deps[k];
        proof {
            assert(pair_in_sheet((deps@[k as int].row, deps@[k as int].col), r as int, c as int));
            assert(0 <= d.row * c + d.col < r * c) by (nonlinear_arith)
                requires
                    0 <= d.row < r,
                    0 <= d.col < c,
            ;
        }
        let target = (d.row * c + d.col) as usize;
        if is_reachable(graph, r, c, from, target) {
            return true;
        }
        k += 1;
    }
    false
}

fn add_all_exec(
    graph: &mut Vec<Option<Box<DAGNode>>>,
    r: i32,
    c: i32,
    row: i32,
    col: i32,
    deps: &Vec<CellRef>,
    cycle: &mut bool,
)
    requires
        dag_wf(old(graph)@, r as int, c as int),
    ensures
        dag_wf(final(graph)@, r as int, c as int),
        (dag_view(final(graph)@), *final(cycle)) == add_all(dag_view(old(graph)@), r as int, c as int, (row, col), deps@, *old(cycle)),
{
    let mut k: usize = 0;
    let ghost target = add_all(dag_view(graph@), r as int, c as int, (row, col), deps@, *cycle);
    assert(deps@.skip(0) =~= deps@);
    while k < deps.len()
        invariant
            dag_wf(graph@, r as int, c as int),
            k <= deps.len(),
            add_all(dag_view(graph@), r as int, c as int, (row, col), deps@.skip(k as int), *cycle) == target,
        decreases deps.len() - k,
    {
        let d = deps[k];
        assert(deps@.skip(k as int)[0] == d);
        assert(deps@.skip(k as int).drop_first() == deps@.skip(k + 1));
        add_dependency(graph, row, col, d.row, d.col, r, c, cycle);
        k += 1;
    }
    assert(deps@.skip(k as int) =~= Seq::<CellRef>::empty());
}

fn all_unevaluated(n: usize) -> (v: Vec<bool>)
    ensures
        v@ == Seq::new(n as nat, |k: int| false),
{
    let mut v: Vec<bool> = Vec::new();
    let mut k: usize = 0;
    while k < n
        invariant
            k <= n,
            v@ == Seq::new(k as nat, |m: int| false),
        decreases n - k,
    {
        v.push(false);
        k += 1;
        assert(v@ =~= Seq::new(k as nat, |m: int| false));
    }
    v
}

proof fn lemma_deps_in_sheet(f: Seq<char>, r: int, c: int)
    requires
        r <= i32::MAX,
        c <= i32::MAX,
        spec_get_dependencies(f, r, c) is Ok,
    ensures
        forall|k: int| 0 <= k < spec_get_dependencies(f, r, c)->Ok_0.len() ==> pair_in_sheet(
            ((#[trigger] spec_get_dependencies(f, r, c)->Ok_0[k]).row, spec_get_dependencies(f, r, c)->Ok_0[k].col),
            r,
            c,
        ),
{
    crate::incremental::eval::lemma_dependencies_in_sheet(f, r, c);
}

/// Carries out one line of a session of the incremental engine (see
/// `spec_process_line`). The sheet shown after the line is `render_sheet`
/// of the new sheet (labels without NUL) when output is on.
pub fn process_line(line: &str, r: i32, c: i32, sheet: &mut Vec<Vec<cell>>, session: &mut Session) -> (res: Result<LineReport, Abort>)
    requires
        sheet_wf(old(sheet)@, r as int, c as int),
        dag_wf(old(session).graph@, r as int, c as int),
    ensures
        sheet_wf(final(sheet)@, r as int, c as int),
        dag_wf(final(session).graph@, r as int, c as int),
        match spec_process_line(line@, r as int, c as int, grid(old(sheet)@), old(session)@) {
            Ok(o) => res is Ok && res->Ok_0.quit == o.quit && res->Ok_0.status == o.status
                && res->Ok_0.sleeps@ == o.sleeps && grid(final(sheet)@) == o.g && final(session)@ == o.ses,
            Err(a) => res is Err && res->Err_0 == a,
        },
{
    let raw = chars_of(line);
    let s = truncate_exec(&raw);
    let mut flags = Flags {
        inval_r: false,
        unrec_cmd: false,
        cycle_detected: false,
        last_update: CellUpdate { is_updated: false, ..session.last_update },
    };
    let (col_str, parsed) = parse_assignment(&s);
    let backup: Option<String> = match parsed {
        Some((row, _)) => {
            let urow = row.wrapping_sub(1);
            let ucol = get_col_index(&col_str);
            if 0 <= ucol && ucol < c && 0 <= urow && urow < r {
                proof {
                    lemma_grid_cell(sheet@, r as int, c as int, urow as int, ucol as int);
                }
                match &sheet[urow as usize][ucol as usize].formula {
                    Some(f) => Some(f.clone()),
                    None => None,
                }
            } else {
                None
            }
        },
        None => None,
    };
    let text = string_of(s.as_slice());
    let mut ro = session.row_offset;
    let mut co = session.col_offset;
    let mut oe = session.output_enabled;
    let quit = process_input(text.as_str(), r, c, sheet, &mut ro, &mut co, &mut oe, &mut flags)?;
    session.row_offset = ro;
    session.col_offset = co;
    session.output_enabled = oe;
    session.last_update = flags.last_update;
    if quit {
        return Ok(LineReport { quit: true, status: Status::Fine, sleeps: Vec::new() });
    }
    if !flags.last_update.is_updated {
        let status = if flags.unrec_cmd {
            Status::UnrecognizedCmd
        } else if flags.inval_r {
            Status::InvalidRange
        } else {
            Status::Fine
        };
        return Ok(LineReport { quit: false, status, sleeps: Vec::new() });
    }
    let row = flags.last_update.row;
    let col = flags.last_update.col;
    assert(0 <= row < r && 0 <= col < c);
    clear_dependencies(&mut session.graph, row, col, r, c);
    proof {
        lemma_grid_cell(sheet@, r as int, c as int, row as int, col as int);
        assert(0 <= row * c + col < r * c) by (nonlinear_arith)
            requires
                0 <= row < r,
                0 <= col < c,
        ;
    }
    let idx = (row * c + col) as usize;
    let f = match &sheet[row as usize][col as usize].formula {
        Some(t) => chars_of(t.as_str()),
        None => Vec::new(),
    };
    let new_deps = get_dependencies(&f, r, c)?;
    proof {
        lemma_deps_in_sheet(f@, r as int, c as int);
    }
    if any_reaches_exec(&session.graph, r, c, idx, &new_deps) {
        set_cell_formula(sheet, r, c, row as usize, col as usize, backup);
        let status = if flags.unrec_cmd {
            Status::UnrecognizedCmd
        } else if flags.inval_r {
            Status::InvalidRange
        } else {
            Status::CycleDetected
        };
        return Ok(LineReport { quit: false, status, sleeps: Vec::new() });
    }
    let mut cycle = false;
    add_all_exec(&mut session.graph, r, c, row, col, &new_deps, &mut cycle);
    let mut evaluated = all_unevaluated((r * c) as usize);
    let mut memo = SleepMemo::new();
    std::mem::swap(&mut memo, &mut session.memo);
    let mut ctx = EvalCtx { inval_r: flags.inval_r, sleeps: Vec::new(), memo, range_cache: RangeCache::new() };
    evaluate_cell(row, col, sheet, &session.graph, &mut evaluated, r, c, &mut ctx)?;
    session.memo = ctx.memo;
    let status = if flags.unrec_cmd {
        Status::UnrecognizedCmd
    } else if ctx.inval_r {
        Status::InvalidRange
    } else if cycle {
        Status::CycleDetected
    } else {
        Status::Fine
    };
    Ok(LineReport { quit: false, status, sleeps: ctx.sleeps })
}


/// Recording references of `cell` to cells it does not reach raises no cycle.
proof fn lemma_add_all_keeps_flag(v: Seq<DNode>, r: int, c: int, cell: (i32, i32), list: Seq<CellRef>, cyc: bool)
    requires
        v.len() == r * c,
        pair_in_sheet(cell, r, c),
        forall|k: int| 0 <= k < list.len() ==> pair_in_sheet(((#[trigger] list[k]).row, list[k].col), r, c),
        !any_reaches(v, c, cell_index(cell, c), list),
    ensures
        add_all(v, r, c, cell, list, cyc).1 == cyc,
    decreases list.len(),
{
    if list.len() > 0 {
        let di = cell_index(cell, c);
        let rf = (list[0].row, list[0].col);
        if dag_reaches(v, c, di, cell_index(rf, c)) {
            assert(any_reaches(v, c, di, list));
        }
        if cell == rf {
            let p = seq![di];
            assert(dag_path(v, c, p) && p[0] == di && p.last() == di);
        }
        let v2 = dag_add(v, c, cell, rf);
        assert(add_one(v, r, c, cell, rf, cyc) == (v2, cyc));
        crate::incremental::dag::lemma_index_in_range(cell.0 as int, cell.1 as int, r, c);
        crate::incremental::dag::lemma_index_in_range(rf.0 as int, rf.1 as int, r, c);
        let rest = list.drop_first();
        assert forall|k: int| 0 <= k < rest.len() implies pair_in_sheet(((#[trigger] rest[k]).row, rest[k].col), r, c) by {
            assert(rest[k] == list[k + 1]);
        }
        assert forall|k: int| 0 <= k < rest.len() implies !dag_reaches(
            v2,
            c,
            di,
            cell_index(((#[trigger] rest[k]).row, rest[k].col), c),
        ) by {
            assert(rest[k] == list[k + 1]);
            let t = cell_index((rest[k].row, rest[k].col), c);
            if dag_reaches(v, c, di, t) {
                assert(any_reaches(v, c, di, list));
            }
            lemma_add_keeps_unreached(v, r, c, cell, rf, t);
        }
        lemma_add_all_keeps_flag(v2, r, c, cell, rest, cyc);
    }
}

/// The cell a line of the incremental engine assigns to, when its assignment
/// part names a cell of the sheet: `(row, column)`, 0-based.
pub open spec fn assigned_cell(s: Seq<char>, r: int, c: int) -> Option<(int, int)> {
    let (col, parsed) = spec_assignment(truncate_line(s));
    match parsed {
        Some((row, _)) => {
            let ucol = spec_col_index(col);
            if 0 <= ucol < c && 1 <= row <= r {
                Some(((row - 1) as int, ucol as int))
            } else {
                None
            }
        },
        None => None,
    }
}

/// A command of the incremental engine that assigned a cell stored its
/// formula in the cell its assignment part names.
proof fn lemma_assigning_input(line: Seq<char>, r: int, c: int, g: Grid, ro: i32, co: i32, oe: i32, fl: Flags)
    requires
        !fl.last_update.is_updated,
        spec_process_input(line, r, c, g, ro, co, oe, fl) is Ok,
        spec_process_input(line, r, c, g, ro, co, oe, fl)->Ok_0.flags.last_update.is_updated,
    ensures
        ({
            let e = spec_process_input(line, r, c, g, ro, co, oe, fl)->Ok_0;
            let (col, parsed) = spec_assignment(line);
            &&& parsed is Some
            &&& 0 <= spec_col_index(col) < c
            &&& 1 <= parsed->Some_0.0 <= r
            &&& !e.quit
            &&& e.g == set_formula(g, parsed->Some_0.0 - 1, spec_col_index(col) as int, Some(parsed->Some_0.1))
            &&& e.flags.last_update == (CellUpdate {
                row: (parsed->Some_0.0 - 1) as i32,
                col: spec_col_index(col),
                is_updated: true,
            })
            &&& e.flags.unrec_cmd == false
        }),
{
    let same = InputEffect { quit: false, g, row_offset: ro, col_offset: co, output_enabled: oe, flags: fl };
    assert(spec_navigate(line, r, c, same, false) is None);
}

/// Law: when the incremental engine refuses a line for closing a cycle, the
/// line named a cell of the sheet, and that cell keeps the formula it had
/// before the line.
pub proof fn law_cycle_keeps_formula(s: Seq<char>, r: int, c: int, g: Grid, sv: SessionV)
    requires
        crate::sheet::grid_wf(g, r, c),
        sv.graph.len() == r * c,
        view_wf(sv.graph, r, c),
        spec_process_line(s, r, c, g, sv) is Ok,
        spec_process_line(s, r, c, g, sv)->Ok_0.status == Status::CycleDetected,
    ensures
        assigned_cell(s, r, c) is Some,
        ({
            let (i, j) = assigned_cell(s, r, c)->Some_0;
            spec_process_line(s, r, c, g, sv)->Ok_0.g[i][j].formula == g[i][j].formula
        }),
{
    let line = truncate_line(s);
    let fl0 = Flags {
        inval_r: false,
        unrec_cmd: false,
        cycle_detected: false,
        last_update: CellUpdate { is_updated: false, ..sv.last_update },
    };
    let ein = spec_process_input(line, r, c, g, sv.row_offset, sv.col_offset, sv.output_enabled, fl0);
    let o = spec_process_line(s, r, c, g, sv)->Ok_0;
    assert(ein is Ok);
    let e = ein->Ok_0;
    assert(!e.quit && e.flags.last_update.is_updated);
    lemma_assigning_input(line, r, c, g, sv.row_offset, sv.col_offset, sv.output_enabled, fl0);
    let (col_str, parsed) = spec_assignment(line);
    let row = parsed->Some_0.0;
    let f = parsed->Some_0.1;
    let ci = spec_col_index(col_str);
    let cell = ((row - 1) as i32, ci);
    assert(pair_in_sheet(cell, r, c));
    assert(r <= i32::MAX && c <= i32::MAX) by (nonlinear_arith)
        requires
            1 <= r,
            1 <= c,
            r * c <= i32::MAX,
    ;
    let idx = cell_index(cell, c);
    let v3 = cleared_graph(sv.graph, c, cell);
    lemma_cleared_graph_len(sv.graph, r, c, cell);
    assert(e.g[cell.0 as int][cell.1 as int].formula == Some(f));
    assert(spec_get_dependencies(f, r, c) is Ok);
    let deps = spec_get_dependencies(f, r, c)->Ok_0;
    lemma_deps_in_sheet(f, r, c);
    if !any_reaches(v3, c, idx, deps) {
        lemma_add_all_keeps_flag(v3, r, c, cell, deps, false);
        assert(false);
    }
    assert(row.wrapping_sub(1) == row - 1);
}


/// Law: every line of the incremental engine keeps the view inside the
/// sheet: when the first row and column in view were a row and a column of
/// the sheet, they still are after the line (but for a scroll past
/// `i32::MAX`).
pub proof fn law_view_stays_inside(s: Seq<char>, r: int, c: int, g: Grid, sv: SessionV)
    requires
        crate::sheet::grid_wf(g, r, c),
        view_inside(sv.row_offset, sv.col_offset, r, c),
        !view_overflows(truncate_line(s), sv.row_offset, sv.col_offset),
        spec_process_line(s, r, c, g, sv) is Ok,
    ensures
        view_inside(
            spec_process_line(s, r, c, g, sv)->Ok_0.ses.row_offset,
            spec_process_line(s, r, c, g, sv)->Ok_0.ses.col_offset,
            r,
            c,
        ),
{
    let line = truncate_line(s);
    let fl0 = Flags {
        inval_r: false,
        unrec_cmd: false,
        cycle_detected: false,
        last_update: CellUpdate { is_updated: false, ..sv.last_update },
    };
    let same = InputEffect {
        quit: false,
        g,
        row_offset: sv.row_offset,
        col_offset: sv.col_offset,
        output_enabled: sv.output_enabled,
        flags: fl0,
    };
    lemma_navigate_inside(line, r, c, same, false);
    let e = spec_process_input(line, r, c, g, sv.row_offset, sv.col_offset, sv.output_enabled, fl0)->Ok_0;
    assert(view_inside(e.row_offset, e.col_offset, r, c));
}

} // verus!
