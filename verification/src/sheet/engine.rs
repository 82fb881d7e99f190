//! Building the dependency graph of the sheet and evaluating the sheet in
//! dependency order.

use vstd::prelude::*;
use crate::assoc::{assoc_get, assoc_map, lemma_assoc_get_prefix, lemma_assoc_get_push, lemma_assoc_get_update};
use crate::columns::{get_col_index_table, spec_col_index_table};
use crate::formula::{parse_binary, spec_binary};
use crate::sheet::{Abort, CellRef, CellV, Grid, cell, grid, lemma_grid_cell, sheet_wf};
use crate::sheet::eval::{
    is_range_func_name, paren_span, paren_span_exec, parse_cell_reference, parse_range,
    sleep_prefix, spec_parse_cell_reference, spec_parse_range,
};
use crate::sheet::graph::{DependencyGraph, GModel, cell_key, empty_model, key_of, lemma_key_of_injective, model_add, reaches};
use crate::sheet::eval::{
    EvalCtx, EvalState, RangeCache, Scan, evaluate_formula, scan_cols, scan_rows, spec_eval, spec_eval_plain,
    spec_value_of_ref,
};
use crate::text::spec_parse_i32;
use std::collections::{HashMap, VecDeque};
use crate::text::{chars_eq, slice_chars, starts_with, starts_with_exec};

verus! {

// ---------------------------------------------------------------------------
// The cells a formula reads
// ---------------------------------------------------------------------------

/// The cells of a range, row by row.
pub open spec fn range_refs_cols(i: int, j: int, ec: int) -> Seq<CellRef>
    decreases ec + 1 - j,
{
    if j > ec {
        Seq::empty()
    } else {
        seq![CellRef { row: i as i32, col: j as i32 }] + range_refs_cols(i, j + 1, ec)
    }
}

pub open spec fn range_refs(i: int, er: int, sc: int, ec: int) -> Seq<CellRef>
    decreases er + 1 - i,
{
    if i > er {
        Seq::empty()
    } else {
        range_refs_cols(i, sc, ec) + range_refs(i + 1, er, sc, ec)
    }
}

/// A reference to a row `1..=r` and a column `>= 0`, as a position.
pub open spec fn ref_in_rows(o: Option<(Seq<char>, i32)>, r: int) -> Seq<CellRef> {
    match o {
        Some((col, row)) => {
            let ci = spec_col_index_table(col);
            if ci >= 0 && row > 0 && row <= r {
                seq![CellRef { row: (row - 1) as i32, col: ci }]
            } else {
                Seq::empty()
            }
        },
        None => Seq::empty(),
    }
}

/// The cells a formula reads, in the order they are recorded, and whether a
/// range in it failed to parse; or the reason the program stops.
#[verifier::opaque]
pub open spec fn formula_refs(f: Seq<char>, r: int) -> Result<(Seq<CellRef>, bool), Abort> {
    match paren_span(f) {
        Some((open, close)) => if close < open + 1 {
            Err(Abort::SliceBounds)
        } else {
            let func = f.subrange(0, open);
            let range = f.subrange(open + 1, close);
            if is_range_func_name(func) {
                match spec_parse_range(range) {
                    Some((sr, er, sc, ec)) => Ok((range_refs(sr as int, er as int, sc as int, ec as int), false)),
                    None => Ok((Seq::empty(), true)),
                }
            } else {
                Ok((Seq::empty(), false))
            }
        },
        None => if starts_with(f, sleep_prefix()) {
            if !(f.len() >= 7 && f.last() < '\u{80}') {
                Err(Abort::SliceBounds)
            } else {
                let inner = f.subrange(6, f.len() - 1);
                Ok((ref_in_rows(spec_parse_cell_reference(inner), r), false))
            }
        } else {
            match spec_binary(f) {
                Some((a, e1, op, cs, e2)) => Ok(
                    (
                        ref_in_rows(spec_parse_cell_reference(f.subrange(a, e1)), r) + ref_in_rows(
                            spec_parse_cell_reference(f.subrange(cs, e2)),
                            r,
                        ),
                        false,
                    ),
                ),
                None => Ok((ref_in_rows(spec_parse_cell_reference(f), r), false)),
            }
        },
    }
}

fn ref_in_rows_exec(o: Option<(Vec<char>, i32)>, r: i32, out: &mut Vec<CellRef>)
    ensures
        final(out)@ == old(out)@ + ref_in_rows(
            match o {
                Some((c, w)) => Some((c@, w)),
                None => None,
            },
            r as int,
        ),
{
    match o {
        Some((col, row)) => {
            let ci = get_col_index_table(&col);
            if ci >= 0 && row > 0 && row <= r {
                out.push(CellRef { row: row - 1, col: ci });
            }
        },
        None => {},
    }
    assert(old(out)@ + Seq::<CellRef>::empty() == old(out)@);
}

fn push_range_refs(out: &mut Vec<CellRef>, sr: i32, er: i32, sc: i32, ec: i32)
    requires
        sr <= er,
        sc <= ec,
    ensures
        final(out)@ == old(out)@ + range_refs(sr as int, er as int, sc as int, ec as int),
{
    let mut i: i64 = sr as i64;
    while i <= er as i64
        invariant
            sr <= i <= er as int + 1,
            sc <= ec,
            out@ + range_refs(i as int, er as int, sc as int, ec as int) == old(out)@ + range_refs(
                sr as int,
                er as int,
                sc as int,
                ec as int,
            ),
        decreases er as int + 1 - i,
    {
        let ghost before = out@;
        let mut j: i64 = sc as i64;
        while j <= ec as i64
            invariant
                sr <= i <= er,
                sc <= j <= ec as int + 1,
                out@ + range_refs_cols(i as int, j as int, ec as int) == before + range_refs_cols(
                    i as int,
                    sc as int,
                    ec as int,
                ),
            decreases ec as int + 1 - j,
        {
            let ghost o = out@;
            out.push(CellRef { row: i as i32, col: j as i32 });
            assert(o + range_refs_cols(i as int, j as int, ec as int) == out@ + range_refs_cols(
                i as int,
                j + 1,
                ec as int,
            ));
            j += 1;
        }
        assert(range_refs_cols(i as int, j as int, ec as int) == Seq::<CellRef>::empty());
        assert(before + range_refs(i as int, er as int, sc as int, ec as int) == out@ + range_refs(
            i + 1,
            er as int,
            sc as int,
            ec as int,
        ));
        i += 1;
    }
    assert(range_refs(i as int, er as int, sc as int, ec as int) == Seq::<CellRef>::empty());
}

/// The cells a formula reads, in order, and whether a range in it failed to
/// parse.
pub fn formula_dependencies(formula: &Vec<char>, r: i32) -> (res: Result<(Vec<CellRef>, bool), Abort>)
    ensures
        match res {
            Ok((v, b)) => formula_refs(formula@, r as int) == Ok::<(Seq<CellRef>, bool), Abort>((v@, b)),
            Err(a) => formula_refs(formula@, r as int) == Err::<(Seq<CellRef>, bool), Abort>(a),
        },
{
    reveal(formula_refs);
    let mut deps: Vec<CellRef> = Vec::new();
    match paren_span_exec(formula) {
        Some((open, close)) => {
            if close < open + 1 {
                return Err(Abort::SliceBounds);
            }
            let func = slice_chars(formula, 0, open);
            let range = slice_chars(formula, open + 1, close);
            if crate::sheet::eval::is_range_func_name_exec(&func) {
                match parse_range(&range) {
                    Some((sr, er, sc, ec)) => {
                        push_range_refs(&mut deps, sr, er, sc, ec);
                        assert(deps@ == range_refs(sr as int, er as int, sc as int, ec as int));
                        Ok((deps, false))
                    },
                    None => Ok((deps, true)),
                }
            } else {
                Ok((deps, false))
            }
        },
        None => {
            let prefix = vec!['S', 'L', 'E', 'E', 'P', '('];
            assert(prefix@ == sleep_prefix());
            if starts_with_exec(formula, &prefix) {
                let n = formula.len();
                if !(n >= 7 && formula[n - 1] < '\u{80}') {
                    return Err(Abort::SliceBounds);
                }
                let inner = slice_chars(formula, 6, n - 1);
                ref_in_rows_exec(parse_cell_reference(&inner), r, &mut deps);
                Ok((deps, false))
            } else {
                match parse_binary(formula) {
                    Some(p) => {
                        let left = slice_chars(formula, p.left_start, p.left_end);
                        let right = slice_chars(formula, p.right_start, p.right_end);
                        ref_in_rows_exec(parse_cell_reference(&left), r, &mut deps);
                        ref_in_rows_exec(parse_cell_reference(&right), r, &mut deps);
                        Ok((deps, false))
                    },
                    None => {
                        ref_in_rows_exec(parse_cell_reference(formula), r, &mut deps);
                        Ok((deps, false))
                    },
                }
            }
        },
    }
}

// ---------------------------------------------------------------------------
// Cache of the cells each formula text reads
// ---------------------------------------------------------------------------

/// A formula with the cells it reads.
pub struct ParsedFormula {
    pub dependencies: Vec<CellRef>,
    pub operation: Vec<char>,
    pub is_range_function: bool,
}

/// Cache of parsed formulas, keyed by the formula text.
pub struct FormulaCache {
    cache: Vec<(Vec<char>, ParsedFormula)>,
}

pub open spec fn formula_entries(v: Seq<(Vec<char>, ParsedFormula)>) -> Seq<(Seq<char>, Seq<CellRef>)> {
    v.map_values(|e: (Vec<char>, ParsedFormula)| (e.0@, e.1.dependencies@))
}

impl View for FormulaCache {
    type V = Map<Seq<char>, Seq<CellRef>>;

    closed spec fn view(&self) -> Map<Seq<char>, Seq<CellRef>> {
        assoc_map(formula_entries(self.cache@))
    }
}

/// Every cached formula maps to the cells it reads in a sheet of `r` rows.
pub open spec fn cache_valid(m: Map<Seq<char>, Seq<CellRef>>, r: int) -> bool {
    forall|f: Seq<char>| #[trigger] m.contains_key(f) ==> formula_refs(f, r) is Ok && formula_refs(f, r)->Ok_0.0 == m[f]
}

impl FormulaCache {
    pub fn new() -> (fc: FormulaCache)
        ensures
            fc@ == Map::<Seq<char>, Seq<CellRef>>::empty(),
    {
        let fc = FormulaCache { cache: Vec::new() };
        assert(fc@ =~= Map::<Seq<char>, Seq<CellRef>>::empty());
        fc
    }

    fn position(&self, key: &Vec<char>) -> (r: Option<usize>)
        ensures
            match r {
                Some(i) => i < self.cache.len() && self.cache@[i as int].0@ == key@ && forall|
                    j: int,
                | 0 <= j < i ==> self.cache@[j].0@ != key@,
                None => forall|j: int| 0 <= j < self.cache.len() ==> self.cache@[j].0@ != key@,
            },
    {
        let mut i: usize = 0;
        while i < self.cache.len()
            invariant
                i <= self.cache.len(),
                forall|j: int| 0 <= j < i ==> self.cache@[j].0@ != key@,
            decreases self.cache.len() - i,
        {
            if chars_eq(&self.cache[i].0, key) {
                return Some(i);
            }
            i += 1;
        }
        None
    }

    pub fn get(&self, formula: &Vec<char>) -> (r: Option<&ParsedFormula>)
        ensures
            match r {
                Some(p) => self@.contains_key(formula@) && p.dependencies@ == self@[formula@],
                None => !self@.contains_key(formula@),
            },
    {
        let ghost e = formula_entries(self.cache@);
        match self.position(formula) {
            Some(i) => {
                proof {
                    lemma_assoc_get_prefix(e, formula@, i as int);
                }
                Some(&self.cache[i].1)
            },
            None => {
                proof {
                    lemma_assoc_get_prefix(e, formula@, e.len() as int);
                }
                None
            },
        }
    }

    pub fn set(&mut self, formula: Vec<char>, parsed: ParsedFormula)
        ensures
            final(self)@ == old(self)@.insert(formula@, parsed.dependencies@),
    {
        let ghost e = formula_entries(self.cache@);
        let ghost k = formula@;
        let ghost v = parsed.dependencies@;
        match self.position(&formula) {
            Some(i) => {
                proof {
                    assert forall|q: Seq<char>| true implies assoc_get(e.update(i as int, (k, v)), q)
                        == if q == k {
                        Some(v)
                    } else {
                        assoc_get(e, q)
                    } by {
                        lemma_assoc_get_update(e, i as int, k, v, q);
                    }
                }
                self.cache.set(i, (formula, parsed));
                assert(formula_entries(self.cache@) == e.update(i as int, (k, v)));
            },
            None => {
                proof {
                    lemma_assoc_get_prefix(e, k, e.len() as int);
                    assert forall|q: Seq<char>| true implies assoc_get(e.push((k, v)), q) == if q
                        == k {
                        Some(v)
                    } else {
                        assoc_get(e, q)
                    } by {
                        lemma_assoc_get_push(e, k, v, q);
                    }
                }
                self.cache.push((formula, parsed));
                assert(formula_entries(self.cache@) == e.push((k, v)));
            },
        }
        assert(self@ =~= old(self)@.insert(k, v));
    }

    pub fn clear(&mut self)
        ensures
            final(self)@ == Map::<Seq<char>, Seq<CellRef>>::empty(),
    {
        self.cache.clear();
        assert(self@ =~= Map::<Seq<char>, Seq<CellRef>>::empty());
    }
}

// ---------------------------------------------------------------------------
// Building the graph
// ---------------------------------------------------------------------------

/// The graph, the cycle flag, the invalid-range flag and the formula cache
/// while the graph is built.
pub struct BState {
    pub m: GModel,
    pub cycle: bool,
    pub inval: bool,
    pub cached: Map<Seq<char>, Seq<CellRef>>,
}

/// Records references of `dep` to each of `refs`, in order, skipping (and
/// flagging) each one that would close a cycle.
pub open spec fn add_refs(m: GModel, refs: Seq<CellRef>, dep: CellRef, cyc: bool) -> (GModel, bool)
    decreases refs.len(),
{
    if refs.len() == 0 {
        (m, cyc)
    } else if reaches(m, dep, refs[0]) {
        add_refs(m, refs.drop_first(), dep, true)
    } else {
        add_refs(model_add(m, refs[0], dep), refs.drop_first(), dep, cyc)
    }
}

#[verifier::opaque]
pub open spec fn cell_step(g: Grid, r: int, i: int, j: int, st: BState) -> Result<BState, Abort> {
    let dep = CellRef { row: i as i32, col: j as i32 };
    match g[i][j].formula {
        None => Ok(st),
        Some(f) => if st.cached.contains_key(f) {
            let (m2, c2) = add_refs(st.m, st.cached[f], dep, st.cycle);
            Ok(BState { m: m2, cycle: c2, ..st })
        } else {
            match formula_refs(f, r) {
                Err(a) => Err(a),
                Ok((refs, bad)) => {
                    let (m2, c2) = add_refs(st.m, refs, dep, st.cycle);
                    Ok(BState { m: m2, cycle: c2, inval: st.inval || bad, cached: st.cached.insert(f, refs) })
                },
            }
        },
    }
}

pub open spec fn build_cols(g: Grid, r: int, c: int, i: int, j: int, st: BState) -> Result<BState, Abort>
    decreases c - j,
{
    if j >= c {
        Ok(st)
    } else {
        match cell_step(g, r, i, j, st) {
            Ok(st2) => build_cols(g, r, c, i, j + 1, st2),
            Err(a) => Err(a),
        }
    }
}

/// The graph of the whole sheet, row by row.
pub open spec fn build_rows(g: Grid, r: int, c: int, i: int, st: BState) -> Result<BState, Abort>
    decreases r - i,
{
    if i >= r {
        Ok(st)
    } else {
        match build_cols(g, r, c, i, 0, st) {
            Ok(st2) => build_rows(g, r, c, i + 1, st2),
            Err(a) => Err(a),
        }
    }
}

fn add_all(
    graph: &mut DependencyGraph,
    refs: &Vec<CellRef>,
    dependent: CellRef,
    cycle_detected: &mut bool,
)
    requires
        old(graph).wf(),
    ensures
        final(graph).wf(),
        (final(graph).model(), *final(cycle_detected)) == add_refs(old(graph).model(), refs@, dependent, *old(cycle_detected)),
{
    let mut k: usize = 0;
    assert(refs@.subrange(0, refs.len() as int) == refs@);
    while k < refs.len()
        invariant
            graph.wf(),
            k <= refs.len(),
            add_refs(graph.model(), refs@.subrange(k as int, refs.len() as int), dependent, *cycle_detected)
                == add_refs(old(graph).model(), refs@, dependent, *old(cycle_detected)),
        decreases refs.len() - k,
    {
        let ghost rest = refs@.subrange(k as int, refs.len() as int);
        assert(rest[0] == refs@[k as int]);
        assert(rest.drop_first() == refs@.subrange(k + 1, refs.len() as int));
        graph.add_dependency(refs[k], dependent, cycle_detected);
        k += 1;
    }
    assert(refs@.subrange(0, refs.len() as int) == refs@);
}

fn clone_chars(s: &Vec<char>) -> (t: Vec<char>)
    ensures
        t@ == s@,
{
    slice_chars(s, 0, s.len())
}

fn clone_refs(v: &Vec<CellRef>) -> (t: Vec<CellRef>)
    ensures
        t@ == v@,
{
    let mut t: Vec<CellRef> = Vec::new();
    let mut i: usize = 0;
    while i < v.len()
        invariant
            i <= v.len(),
            t@ == v@.take(i as int),
        decreases v.len() - i,
    {
        t.push(v[i]);
        i += 1;
    }
    assert(v@.take(v.len() as int) == v@);
    t
}

fn build_cell(
    r: i32,
    c: i32,
    i: i32,
    j: i32,
    sheet: &Vec<Vec<cell>>,
    graph: &mut DependencyGraph,
    formula_cache: &mut FormulaCache,
    cycle_detected: &mut bool,
    inval_r: &mut bool,
) -> (res: Result<(), Abort>)
    requires
        sheet_wf(sheet@, r as int, c as int),
        0 <= i < r,
        0 <= j < c,
        old(graph).wf(),
        cache_valid(old(formula_cache)@, r as int),
    ensures
        final(graph).wf(),
        cache_valid(final(formula_cache)@, r as int),
        match cell_step(
            grid(sheet@),
            r as int,
            i as int,
            j as int,
            BState {
                m: old(graph).model(),
                cycle: *old(cycle_detected),
                inval: *old(inval_r),
                cached: old(formula_cache)@,
            },
        ) {
            Ok(st) => res is Ok && final(graph).model() == st.m && *final(cycle_detected) == st.cycle
                && *final(inval_r) == st.inval && final(formula_cache)@ == st.cached,
            Err(a) => res == Err::<(), Abort>(a),
        },
{
    proof {
        lemma_grid_cell(sheet@, r as int, c as int, i as int, j as int);
        reveal(cell_step);
    }
    let dependent = CellRef { row: i, col: j };
    match &sheet[i as usize][j as usize].formula {
        None => Ok(()),
        Some(fs) => {
            let f = crate::text::chars_of(fs.as_str());
            match formula_cache.get(&f) {
                Some(parsed) => {
                    let deps = clone_refs(&parsed.dependencies);
                    add_all(graph, &deps, dependent, cycle_detected);
                    Ok(())
                },
                None => {
                    let (deps, bad) = match formula_dependencies(&f, r) {
                        Ok(t) => t,
                        Err(a) => {
                            return Err(a);
                        },
                    };
                    add_all(graph, &deps, dependent, cycle_detected);
                    if bad {
                        *inval_r = true;
                    }
                    let is_range = paren_span_exec(&f).is_some();
                    let parsed = ParsedFormula {
                        dependencies: clone_refs(&deps),
                        operation: clone_chars(&f),
                        is_range_function: is_range,
                    };
                    formula_cache.set(f, parsed);
                    Ok(())
                },
            }
        },
    }
}

/// Parses the formula of every cell and records, row by row, the references
/// of each cell to the cells it reads.
pub fn build_dependency_graph(
    r: i32,
    c: i32,
    sheet: &Vec<Vec<cell>>,
    graph: &mut DependencyGraph,
    formula_cache: &mut FormulaCache,
    cycle_detected: &mut bool,
    inval_r: &mut bool,
) -> (res: Result<(), Abort>)
    requires
        sheet_wf(sheet@, r as int, c as int),
        old(graph).wf(),
        cache_valid(old(formula_cache)@, r as int),
    ensures
        final(graph).wf(),
        cache_valid(final(formula_cache)@, r as int),
        match build_rows(
            grid(sheet@),
            r as int,
            c as int,
            0,
            BState {
                m: old(graph).model(),
                cycle: *old(cycle_detected),
                inval: *old(inval_r),
                cached: old(formula_cache)@,
            },
        ) {
            Ok(st) => res is Ok && final(graph).model() == st.m && *final(cycle_detected) == st.cycle
                && *final(inval_r) == st.inval && final(formula_cache)@ == st.cached,
            Err(a) => res == Err::<(), Abort>(a),
        },
{
    let ghost g = grid(sheet@);
    let ghost st0 = BState {
        m: old(graph).model(),
        cycle: *old(cycle_detected),
        inval: *old(inval_r),
        cached: old(formula_cache)@,
    };
    let mut i: i32 = 0;
    while i < r
        invariant
            sheet_wf(sheet@, r as int, c as int),
            g == grid(sheet@),
            0 <= i <= r,
            st0 == (BState {
                m: old(graph).model(),
                cycle: *old(cycle_detected),
                inval: *old(inval_r),
                cached: old(formula_cache)@,
            }),
            graph.wf(),
            cache_valid(formula_cache@, r as int),
            build_rows(
                g,
                r as int,
                c as int,
                i as int,
                BState { m: graph.model(), cycle: *cycle_detected, inval: *inval_r, cached: formula_cache@ },
            ) == build_rows(g, r as int, c as int, 0, st0),
        decreases r - i,
    {
        let ghost row_start = BState { m: graph.model(), cycle: *cycle_detected, inval: *inval_r, cached: formula_cache@ };
        let mut j: i32 = 0;
        while j < c
            invariant
                sheet_wf(sheet@, r as int, c as int),
                g == grid(sheet@),
                0 <= i < r,
                0 <= j <= c,
            st0 == (BState {
                m: old(graph).model(),
                cycle: *old(cycle_detected),
                inval: *old(inval_r),
                cached: old(formula_cache)@,
            }),
                graph.wf(),
                cache_valid(formula_cache@, r as int),
                build_cols(
                    g,
                    r as int,
                    c as int,
                    i as int,
                    j as int,
                    BState { m: graph.model(), cycle: *cycle_detected, inval: *inval_r, cached: formula_cache@ },
                ) == build_cols(g, r as int, c as int, i as int, 0, row_start),
                build_rows(g, r as int, c as int, i as int, row_start) == build_rows(g, r as int, c as int, 0, st0),
            decreases c - j,
        {
            let ghost before = BState { m: graph.model(), cycle: *cycle_detected, inval: *inval_r, cached: formula_cache@ };
            match build_cell(r, c, i, j, sheet, graph, formula_cache, cycle_detected, inval_r) {
                Ok(()) => {},
                Err(a) => {
                    proof {
                        assert(build_cols(g, r as int, c as int, i as int, j as int, before) == Err::<BState, Abort>(a));
                        assert(build_cols(g, r as int, c as int, i as int, 0, row_start) == Err::<BState, Abort>(a));
                        assert(build_rows(g, r as int, c as int, i as int, row_start) == Err::<BState, Abort>(a));
                        assert(build_rows(grid(sheet@), r as int, c as int, 0, st0) == Err::<BState, Abort>(a));
                    }
                    return Err(a);
                },
            }
            j += 1;
        }
        i += 1;
    }
    Ok(())
}

// ---------------------------------------------------------------------------
// Evaluating in dependency order
// ---------------------------------------------------------------------------

/// The most steps `topological_evaluation` takes; each step evaluates one cell.
pub open spec fn step_limit() -> nat {
    0xffff_ffff_ffff_ffff
}

/// The sheet, the remaining reference counts, the cells ready to evaluate and
/// the evaluation state.
#[verifier::ext_equal]
pub struct KState {
    pub g: Grid,
    pub deg: spec_fn(CellRef) -> i32,
    pub queue: Seq<CellRef>,
    pub est: EvalState,
}

/// The cells of row `i` from column `j` on that no reference counts.
pub open spec fn ready_cols(m: GModel, i: int, j: int, c: int) -> Seq<CellRef>
    decreases c - j,
{
    if j >= c {
        Seq::empty()
    } else {
        let x = CellRef { row: i as i32, col: j as i32 };
        (if !(m.has_deg)(x) || (m.deg)(x) == 0 {
            seq![x]
        } else {
            Seq::empty()
        }) + ready_cols(m, i, j + 1, c)
    }
}

/// The cells that start ready, row by row.
pub open spec fn ready_rows(m: GModel, i: int, r: int, c: int) -> Seq<CellRef>
    decreases r - i,
{
    if i >= r {
        Seq::empty()
    } else {
        ready_cols(m, i, 0, c) + ready_rows(m, i + 1, r, c)
    }
}

/// Count down the references of each dependent in `list`; those that reach
/// zero become ready.
pub open spec fn count_down(
    m: GModel,
    deg: spec_fn(CellRef) -> i32,
    queue: Seq<CellRef>,
    list: Seq<CellRef>,
) -> (spec_fn(CellRef) -> i32, Seq<CellRef>)
    decreases list.len(),
{
    if list.len() == 0 {
        (deg, queue)
    } else {
        let d = list[0];
        if (m.has_deg)(d) {
            let nd = deg(d).wrapping_sub(1);
            let deg2 = |y: CellRef| if y == d {
                nd
            } else {
                deg(y)
            };
            let q2 = if nd == 0 {
                queue.push(d)
            } else {
                queue
            };
            count_down(m, deg2, q2, list.drop_first())
        } else {
            count_down(m, deg, queue, list.drop_first())
        }
    }
}

/// The grid with one cell's value and error flag replaced.
pub open spec fn set_value(g: Grid, i: int, j: int, v: i32, e: i32) -> Grid {
    g.update(i, g[i].update(j, CellV { val: v, err: e, formula: g[i][j].formula }))
}

/// Evaluates the first ready cell and counts down its dependents.
#[verifier::opaque]
pub open spec fn kahn_step(m: GModel, r: int, c: int, st: KState) -> Result<KState, Abort> {
    let x = st.queue[0];
    let i = x.row as int;
    let j = x.col as int;
    let rest = st.queue.drop_first();
    if !(0 <= i < r && 0 <= j < c) {
        Err(Abort::IndexBounds)
    } else {
        let after = match st.g[i][j].formula {
            None => Ok((st.g, st.est)),
            Some(f) => {
                let (res, est2) = spec_eval(f, r, c, st.g, st.est);
                match res {
                    Ok((v, e)) => Ok((set_value(st.g, i, j, v, if e { 1i32 } else { 0i32 }), est2)),
                    Err(a) => Err(a),
                }
            },
        };
        match after {
            Err(a) => Err(a),
            Ok((g2, est2)) => {
                let (deg2, q2) = count_down(m, st.deg, rest, (m.succs)(x));
                Ok(KState { g: g2, deg: deg2, queue: q2, est: est2 })
            },
        }
    }
}

pub open spec fn kahn(m: GModel, r: int, c: int, st: KState, fuel: nat) -> Result<KState, Abort>
    decreases fuel,
{
    if fuel == 0 || st.queue.len() == 0 {
        Ok(st)
    } else {
        match kahn_step(m, r, c, st) {
            Ok(st2) => kahn(m, r, c, st2, (fuel - 1) as nat),
            Err(a) => Err(a),
        }
    }
}

/// The evaluation of the sheet in dependency order: the cells that nothing
/// counts as referenced start ready, row by row; each ready cell is evaluated
/// in turn, and its dependents become ready when their count reaches zero.
pub open spec fn spec_topological(m: GModel, r: int, c: int, g: Grid, est: EvalState) -> Result<KState, Abort> {
    kahn(m, r, c, KState { g, deg: m.deg, queue: ready_rows(m, 0, r, c), est }, step_limit())
}

/// Replaces the value and error flag of cell `(i, j)`.
pub fn set_cell_value(sheet: &mut Vec<Vec<cell>>, r: i32, c: i32, i: usize, j: usize, v: i32, e: i32)
    requires
        sheet_wf(old(sheet)@, r as int, c as int),
        i < r,
        j < c,
    ensures
        sheet_wf(final(sheet)@, r as int, c as int),
        grid(final(sheet)@) == set_value(grid(old(sheet)@), i as int, j as int, v, e),
{
    proof {
        lemma_grid_cell(sheet@, r as int, c as int, i as int, j as int);
    }
    sheet[i][j].val = v;
    sheet[i][j].err = e;
    proof {
        let g0 = grid(old(sheet)@);
        let g1 = grid(sheet@);
        let want = set_value(g0, i as int, j as int, v, e);
        assert forall|a: int| 0 <= a < r implies #[trigger] g1[a] == want[a] by {
            if a == i as int {
                assert(g1[a] =~= want[a]);
            } else {
                assert(sheet@[a] == old(sheet)@[a]);
            }
        }
        assert(g1 =~= want);
    }
}

fn fill_ready(graph: &DependencyGraph, deg: &HashMap<u64, i32>, r: i32, c: i32) -> (q: VecDeque<CellRef>)
    requires
        r >= 0,
        c >= 0,
        forall|x: CellRef| #[trigger] deg@.contains_key(key_of(x)) == (graph.model().has_deg)(x),
        forall|x: CellRef| #[trigger] deg@.contains_key(key_of(x)) ==> deg@[key_of(x)] == (graph.model().deg)(x),
    ensures
        q@ == ready_rows(graph.model(), 0, r as int, c as int),
{
    let ghost m = graph.model();
    let mut queue: VecDeque<CellRef> = VecDeque::new();
    let mut i: i32 = 0;
    while i < r
        invariant
            0 <= i <= r,
            c >= 0,
            m == graph.model(),
            forall|x: CellRef| #[trigger] deg@.contains_key(key_of(x)) == (m.has_deg)(x),
            forall|x: CellRef| #[trigger] deg@.contains_key(key_of(x)) ==> deg@[key_of(x)] == (m.deg)(x),
            queue@ + ready_rows(m, i as int, r as int, c as int) == ready_rows(m, 0, r as int, c as int),
        decreases r - i,
    {
        let ghost before = queue@;
        let mut j: i32 = 0;
        while j < c
            invariant
                0 <= i < r,
                0 <= j <= c,
                forall|x: CellRef| #[trigger] deg@.contains_key(key_of(x)) == (m.has_deg)(x),
                forall|x: CellRef| #[trigger] deg@.contains_key(key_of(x)) ==> deg@[key_of(x)] == (m.deg)(x),
                queue@ + ready_cols(m, i as int, j as int, c as int) == before + ready_cols(m, i as int, 0, c as int),
            decreases c - j,
        {
            let x = CellRef { row: i, col: j };
            let k = cell_key(x);
            let d = match deg.get(&k) {
                Some(v) => *v,
                None => 0,
            };
            let ghost q0 = queue@;
            if d == 0 {
                queue.push_back(x);
            }
            proof {
                assert(q0 + ready_cols(m, i as int, j as int, c as int) == queue@ + ready_cols(m, i as int, j + 1, c as int));
            }
            j += 1;
        }
        proof {
            assert(ready_cols(m, i as int, j as int, c as int) == Seq::<CellRef>::empty());
            assert(before + ready_rows(m, i as int, r as int, c as int) == queue@ + ready_rows(m, i + 1, r as int, c as int));
        }
        i += 1;
    }
    assert(ready_rows(m, i as int, r as int, c as int) == Seq::<CellRef>::empty());
    queue
}

fn count_down_exec(
    graph: &DependencyGraph,
    deg: &mut HashMap<u64, i32>,
    queue: &mut VecDeque<CellRef>,
    list: &Vec<CellRef>,
    Ghost(degf): Ghost<spec_fn(CellRef) -> i32>,
) -> (res: Ghost<spec_fn(CellRef) -> i32>)
    requires
        forall|x: CellRef| #[trigger] old(deg)@.contains_key(key_of(x)) == (graph.model().has_deg)(x),
        forall|x: CellRef| #[trigger] old(deg)@.contains_key(key_of(x)) ==> old(deg)@[key_of(x)] == degf(x),
    ensures
        forall|x: CellRef| #[trigger] final(deg)@.contains_key(key_of(x)) == (graph.model().has_deg)(x),
        forall|x: CellRef| #[trigger] final(deg)@.contains_key(key_of(x)) ==> final(deg)@[key_of(x)] == res@(x),
        (res@, final(queue)@) == count_down(graph.model(), degf, old(queue)@, list@),
{
    let ghost m = graph.model();
    let ghost mut cur: spec_fn(CellRef) -> i32 = degf;
    let mut k: usize = 0;
    assert(list@.subrange(0, list.len() as int) == list@);
    while k < list.len()
        invariant
            m == graph.model(),
            k <= list.len(),
            forall|x: CellRef| #[trigger] deg@.contains_key(key_of(x)) == (m.has_deg)(x),
            forall|x: CellRef| #[trigger] deg@.contains_key(key_of(x)) ==> deg@[key_of(x)] == cur(x),
            count_down(m, cur, queue@, list@.subrange(k as int, list.len() as int)) == count_down(m, degf, old(queue)@, list@),
        decreases list.len() - k,
    {
        let ghost rest = list@.subrange(k as int, list.len() as int);
        assert(rest[0] == list@[k as int]);
        assert(rest.drop_first() == list@.subrange(k + 1, list.len() as int));
        let d = list[k];
        let kd = cell_key(d);
        match deg.get(&kd) {
            Some(v) => {
                let nd = (*v).wrapping_sub(1);
                deg.insert(kd, nd);
                proof {
                    let old_cur = cur;
                    cur = |y: CellRef| if y == d { nd } else { old_cur(y) };
                    assert forall|x: CellRef| #[trigger] deg@.contains_key(key_of(x)) == (m.has_deg)(x) by {
                        lemma_key_of_injective(x, d);
                    }
                    assert forall|x: CellRef| #[trigger] deg@.contains_key(key_of(x)) implies deg@[key_of(x)] == cur(x) by {
                        lemma_key_of_injective(x, d);
                    }
                }
                if nd == 0 {
                    queue.push_back(d);
                }
            },
            None => {},
        }
        k += 1;
    }
    Ghost(cur)
}

fn topo_step(
    r: i32,
    c: i32,
    sheet: &mut Vec<Vec<cell>>,
    graph: &DependencyGraph,
    in_degree: &mut HashMap<u64, i32>,
    queue: &mut VecDeque<CellRef>,
    ctx: &mut EvalCtx,
    Ghost(degf): Ghost<spec_fn(CellRef) -> i32>,
) -> (res: Result<Ghost<spec_fn(CellRef) -> i32>, Abort>)
    requires
        sheet_wf(old(sheet)@, r as int, c as int),
        old(queue)@.len() > 0,
        forall|x: CellRef| #[trigger] old(in_degree)@.contains_key(key_of(x)) == (graph.model().has_deg)(x),
        forall|x: CellRef| #[trigger] old(in_degree)@.contains_key(key_of(x)) ==> old(in_degree)@[key_of(x)] == degf(x),
    ensures
        sheet_wf(final(sheet)@, r as int, c as int),
        match kahn_step(
            graph.model(),
            r as int,
            c as int,
            KState { g: grid(old(sheet)@), deg: degf, queue: old(queue)@, est: old(ctx)@ },
        ) {
            Ok(next) => res is Ok && next == (KState {
                g: grid(final(sheet)@),
                deg: res->Ok_0@,
                queue: final(queue)@,
                est: final(ctx)@,
            }) && (forall|x: CellRef| #[trigger] final(in_degree)@.contains_key(key_of(x)) == (graph.model().has_deg)(x))
                && (forall|x: CellRef| #[trigger] final(in_degree)@.contains_key(key_of(x)) ==> final(in_degree)@[key_of(x)] == (res->Ok_0@)(x)),
            Err(a) => res == Err::<Ghost<spec_fn(CellRef) -> i32>, Abort>(a),
        },
{
    let ghost m = graph.model();
    let ghost cur = KState { g: grid(sheet@), deg: degf, queue: queue@, est: ctx@ };
    proof {
        reveal(kahn_step);
    }
    let x = queue.pop_front().unwrap();
    let ghost popped = queue@;
    assert(popped == cur.queue.drop_first() && cur.queue[0] == x);
    let i = x.row;
    let j = x.col;
    if !(0 <= i && i < r && 0 <= j && j < c) {
        return Err(Abort::IndexBounds);
    }
    proof {
        lemma_grid_cell(sheet@, r as int, c as int, i as int, j as int);
    }
    let formula = match &sheet[i as usize][j as usize].formula {
        Some(f) => Some(crate::text::chars_of(f.as_str())),
        None => None,
    };
    match formula {
        Some(f) => {
            let mut error_flag: i32 = 0;
            let v = match evaluate_formula(&f, r, c, sheet, &mut error_flag, ctx) {
                Ok(v) => v,
                Err(a) => {
                    return Err(a);
                },
            };
            set_cell_value(sheet, r, c, i as usize, j as usize, v, error_flag);
        },
        None => {},
    }
    let deps = graph.dependents_of(x);
    let res = count_down_exec(graph, in_degree, queue, &deps, Ghost(degf));
    proof {
        let next = KState { g: grid(sheet@), deg: res@, queue: queue@, est: ctx@ };
        assert(kahn_step(m, r as int, c as int, cur) =~= Ok::<KState, Abort>(next));
    }
    Ok(res)
}

/// Evaluates the cells in dependency order (see `spec_topological`).
pub fn topological_evaluation(
    r: i32,
    c: i32,
    sheet: &mut Vec<Vec<cell>>,
    graph: &DependencyGraph,
    ctx: &mut EvalCtx,
) -> (res: Result<(), Abort>)
    requires
        sheet_wf(old(sheet)@, r as int, c as int),
    ensures
        sheet_wf(final(sheet)@, r as int, c as int),
        match spec_topological(
            graph.model(),
            r as int,
            c as int,
            grid(old(sheet)@),
            EvalState { cache: Map::empty(), ..old(ctx)@ },
        ) {
            Ok(st) => res is Ok && grid(final(sheet)@) == st.g && final(ctx)@ == st.est,
            Err(a) => res == Err::<(), Abort>(a),
        },
{
    ctx.range_cache = RangeCache::new();
    let ghost m = graph.model();
    let mut in_degree = graph.in_degree_copy();
    let mut queue = fill_ready(graph, &in_degree, r, c);
    let ghost st0 = KState { g: grid(sheet@), deg: m.deg, queue: queue@, est: ctx@ };
    let ghost target = spec_topological(m, r as int, c as int, grid(old(sheet)@), EvalState { cache: Map::empty(), ..old(ctx)@ });
    assert(target == kahn(m, r as int, c as int, st0, step_limit()));
    let ghost mut degf: spec_fn(CellRef) -> i32 = m.deg;
    let mut fuel: u64 = 0xffff_ffff_ffff_ffff;
    proof {
        assert(forall|x: CellRef| #[trigger] in_degree@.contains_key(key_of(x)) ==> in_degree@[key_of(x)] == degf(x));
    }
    while fuel > 0 && queue.len() > 0
        invariant
            sheet_wf(sheet@, r as int, c as int),
            m == graph.model(),
            forall|x: CellRef| #[trigger] in_degree@.contains_key(key_of(x)) == (m.has_deg)(x),
            forall|x: CellRef| #[trigger] in_degree@.contains_key(key_of(x)) ==> in_degree@[key_of(x)] == degf(x),
            kahn(m, r as int, c as int, KState { g: grid(sheet@), deg: degf, queue: queue@, est: ctx@ }, fuel as nat)
                == target,
            target == spec_topological(m, r as int, c as int, grid(old(sheet)@), EvalState { cache: Map::empty(), ..old(ctx)@ }),
        decreases fuel,
    {
        let ghost cur = KState { g: grid(sheet@), deg: degf, queue: queue@, est: ctx@ };
        match topo_step(r, c, sheet, graph, &mut in_degree, &mut queue, ctx, Ghost(degf)) {
            Ok(g) => {
                proof {
                    degf = g@;
                }
            },
            Err(a) => {
                proof {
                    assert(kahn(m, r as int, c as int, cur, fuel as nat) == Err::<KState, Abort>(a));
                }
                return Err(a);
            },
        }
        fuel -= 1;
    }
    Ok(())
}

/// The evaluation of a sheet from scratch: the graph of the whole sheet, built
/// into an empty graph with an empty formula cache, then every cell evaluated
/// in dependency order.
pub open spec fn spec_evaluate_sheet(r: int, c: int, g: Grid, est: EvalState) -> Result<(bool, KState), Abort> {
    match build_rows(g, r, c, 0, BState { m: empty_model(), cycle: false, inval: est.inval, cached: Map::empty() }) {
        Err(a) => Err(a),
        Ok(st) => match spec_topological(st.m, r, c, g, EvalState { inval: st.inval, cache: Map::empty(), ..est }) {
            Err(a) => Err(a),
            Ok(k) => Ok((st.cycle, k)),
        },
    }
}

/// Rebuilds the dependency graph of the sheet and evaluates every cell in
/// dependency order. Returns whether a reference was refused for closing a
/// cycle.
pub fn evaluate_sheet(r: i32, c: i32, sheet: &mut Vec<Vec<cell>>, ctx: &mut EvalCtx) -> (res: Result<bool, Abort>)
    requires
        sheet_wf(old(sheet)@, r as int, c as int),
    ensures
        sheet_wf(final(sheet)@, r as int, c as int),
        match spec_evaluate_sheet(r as int, c as int, grid(old(sheet)@), old(ctx)@) {
            Ok((cyc, k)) => res == Ok::<bool, Abort>(cyc) && grid(final(sheet)@) == k.g && final(ctx)@ == k.est,
            Err(a) => res == Err::<bool, Abort>(a),
        },
{
    let mut graph = DependencyGraph::new();
    let mut formula_cache = FormulaCache::new();
    let mut cycle_detected = false;
    let mut inval = ctx.inval_r;
    build_dependency_graph(r, c, sheet, &mut graph, &mut formula_cache, &mut cycle_detected, &mut inval)?;
    ctx.inval_r = inval;
    topological_evaluation(r, c, sheet, &graph, ctx)?;
    Ok(cycle_detected)
}


// ---------------------------------------------------------------------------
// What a formula reads
// ---------------------------------------------------------------------------

/// Whether two grids hold the same value and error flag at `x`.
pub open spec fn same_at(g1: Grid, g2: Grid, x: CellRef) -> bool {
    &&& g1[x.row as int][x.col as int].val == g2[x.row as int][x.col as int].val
    &&& g1[x.row as int][x.col as int].err == g2[x.row as int][x.col as int].err
}

/// Whether two grids agree at every cell of `refs`.
pub open spec fn same_on(g1: Grid, g2: Grid, refs: Seq<CellRef>) -> bool {
    forall|k: int| 0 <= k < refs.len() ==> same_at(g1, g2, #[trigger] refs[k])
}

proof fn lemma_same_on_parts(g1: Grid, g2: Grid, a: Seq<CellRef>, b: Seq<CellRef>)
    requires
        same_on(g1, g2, a + b),
    ensures
        same_on(g1, g2, a),
        same_on(g1, g2, b),
{
    assert forall|k: int| 0 <= k < a.len() implies same_at(g1, g2, #[trigger] a[k]) by {
        assert((a + b)[k] == a[k]);
    }
    assert forall|k: int| 0 <= k < b.len() implies same_at(g1, g2, #[trigger] b[k]) by {
        assert((a + b)[a.len() + k] == b[k]);
    }
}

proof fn lemma_ref_local(o: Option<(Seq<char>, i32)>, r: int, c: int, g1: Grid, g2: Grid)
    requires
        same_on(g1, g2, ref_in_rows(o, r)),
    ensures
        o matches Some((col, row)) ==> {
            let ci = spec_col_index_table(col);
            !(ci < 0 || ci >= c || row < 1 || row > r) ==> {
                &&& g1[row - 1][ci as int].val == g2[row - 1][ci as int].val
                &&& g1[row - 1][ci as int].err == g2[row - 1][ci as int].err
            }
        },
{
    if let Some((col, row)) = o {
        let ci = spec_col_index_table(col);
        if !(ci < 0 || ci >= c || row < 1 || row > r) {
            assert(same_at(g1, g2, ref_in_rows(o, r)[0]));
        }
    }
}

proof fn lemma_value_of_ref_local(tok: Seq<char>, r: int, c: int, g1: Grid, g2: Grid)
    requires
        same_on(g1, g2, ref_in_rows(spec_parse_cell_reference(tok), r)),
    ensures
        spec_value_of_ref(tok, r, c, g1) == spec_value_of_ref(tok, r, c, g2),
{
    lemma_ref_local(spec_parse_cell_reference(tok), r, c, g1, g2);
}

proof fn lemma_plain_local(f: Seq<char>, r: int, c: int, g1: Grid, g2: Grid)
    requires
        match spec_binary(f) {
            Some((a, e1, op, cs, e2)) => same_on(
                g1,
                g2,
                ref_in_rows(spec_parse_cell_reference(f.subrange(a, e1)), r) + ref_in_rows(
                    spec_parse_cell_reference(f.subrange(cs, e2)),
                    r,
                ),
            ),
            None => same_on(g1, g2, ref_in_rows(spec_parse_cell_reference(f), r)),
        },
    ensures
        spec_eval_plain(f, r, c, g1) == spec_eval_plain(f, r, c, g2),
{
    match spec_binary(f) {
        Some((a, e1, op, cs, e2)) => {
            lemma_same_on_parts(
                g1,
                g2,
                ref_in_rows(spec_parse_cell_reference(f.subrange(a, e1)), r),
                ref_in_rows(spec_parse_cell_reference(f.subrange(cs, e2)), r),
            );
            lemma_value_of_ref_local(f.subrange(a, e1), r, c, g1, g2);
            lemma_value_of_ref_local(f.subrange(cs, e2), r, c, g1, g2);
        },
        None => {
            lemma_ref_local(spec_parse_cell_reference(f), r, c, g1, g2);
        },
    }
}

proof fn lemma_range_refs_cols_has(i: int, j: int, ec: int, b: int)
    requires
        j <= b <= ec,
    ensures
        exists|k: int|
            0 <= k < range_refs_cols(i, j, ec).len() && range_refs_cols(i, j, ec)[k] == (CellRef {
                row: i as i32,
                col: b as i32,
            }),
    decreases ec + 1 - j,
{
    let x = CellRef { row: i as i32, col: b as i32 };
    let s = range_refs_cols(i, j, ec);
    if b == j {
        assert(s[0] == x);
    } else {
        lemma_range_refs_cols_has(i, j + 1, ec, b);
        let t = range_refs_cols(i, j + 1, ec);
        let k = choose|k: int| 0 <= k < t.len() && t[k] == x;
        assert(s[k + 1] == x);
    }
}

proof fn lemma_range_refs_has(i: int, er: int, sc: int, ec: int, a: int, b: int)
    requires
        i <= a <= er,
        sc <= b <= ec,
    ensures
        exists|k: int|
            0 <= k < range_refs(i, er, sc, ec).len() && range_refs(i, er, sc, ec)[k] == (CellRef {
                row: a as i32,
                col: b as i32,
            }),
    decreases er + 1 - i,
{
    let x = CellRef { row: a as i32, col: b as i32 };
    let head = range_refs_cols(i, sc, ec);
    let s = range_refs(i, er, sc, ec);
    assert(s == head + range_refs(i + 1, er, sc, ec));
    if a == i {
        lemma_range_refs_cols_has(i, sc, ec, b);
        let k = choose|k: int| 0 <= k < head.len() && head[k] == x;
        assert(s[k] == x);
    } else {
        lemma_range_refs_has(i + 1, er, sc, ec, a, b);
        let t = range_refs(i + 1, er, sc, ec);
        let k = choose|k: int| 0 <= k < t.len() && t[k] == x;
        assert(s[head.len() + k] == x);
    }
}

proof fn lemma_scan_cols_local(g1: Grid, g2: Grid, r: int, c: int, i: int, j: int, ec: int, acc: Seq<i32>)
    requires
        forall|b: int|
            j <= b <= ec && 0 <= i < r && 0 <= b < c ==> ((#[trigger] g1[i][b]).val == g2[i][b].val
                && g1[i][b].err == g2[i][b].err),
    ensures
        scan_cols(g1, r, c, i, j, ec, acc) == scan_cols(g2, r, c, i, j, ec, acc),
    decreases ec + 1 - j,
{
    if j <= ec && 0 <= i < r && 0 <= j < c {
        assert(g1[i][j].val == g2[i][j].val);
        lemma_scan_cols_local(g1, g2, r, c, i, j + 1, ec, acc.push(g1[i][j].val));
    }
}

proof fn lemma_scan_rows_local(
    g1: Grid,
    g2: Grid,
    r: int,
    c: int,
    i: int,
    er: int,
    sc: int,
    ec: int,
    acc: Seq<i32>,
)
    requires
        forall|a: int, b: int|
            i <= a <= er && sc <= b <= ec && 0 <= a < r && 0 <= b < c ==> ((#[trigger] g1[a][b]).val
                == g2[a][b].val && g1[a][b].err == g2[a][b].err),
    ensures
        scan_rows(g1, r, c, i, er, sc, ec, acc) == scan_rows(g2, r, c, i, er, sc, ec, acc),
    decreases er + 1 - i,
{
    if i <= er {
        lemma_scan_cols_local(g1, g2, r, c, i, sc, ec, acc);
        match scan_cols(g1, r, c, i, sc, ec, acc) {
            Scan::Done(a) => lemma_scan_rows_local(g1, g2, r, c, i + 1, er, sc, ec, a),
            _ => {},
        }
    }
}

/// Law: a formula reads only the cells that the dependency graph records for
/// it: on two sheets that agree, in value and error flag, at those cells, it
/// evaluates alike from the same state. This holds of every formula but
/// those that start with `SLEEP(` and those holding `(`, `:` and `)` whose
/// text before the first `(` names no range function: the graph records
/// none of the cells these read.
pub proof fn law_formula_reads_its_references(f: Seq<char>, r: int, c: int, g1: Grid, g2: Grid, st: EvalState)
    requires
        !starts_with(f, sleep_prefix()),
        paren_span(f) matches Some((o, cl)) ==> cl < o + 1 || is_range_func_name(f.subrange(0, o)),
        formula_refs(f, r) matches Ok((refs, _)) ==> same_on(g1, g2, refs),
    ensures
        spec_eval(f, r, c, g1, st) == spec_eval(f, r, c, g2, st),
{
    reveal(formula_refs);
    match paren_span(f) {
        Some((o, cl)) => {
            if cl >= o + 1 {
                let func = f.subrange(0, o);
                let range = f.subrange(o + 1, cl);
                if let Some((sr, er, sc, ec)) = spec_parse_range(range) {
                    let refs = range_refs(sr as int, er as int, sc as int, ec as int);
                    assert forall|a: int, b: int|
                        sr <= a <= er && sc <= b <= ec && 0 <= a < r && 0 <= b < c implies {
                            &&& (#[trigger] g1[a][b]).val == g2[a][b].val
                            &&& g1[a][b].err == g2[a][b].err
                        } by {
                        lemma_range_refs_has(sr as int, er as int, sc as int, ec as int, a, b);
                        let k = choose|k: int| 0 <= k < refs.len() && refs[k] == CellRef {
                            row: a as i32,
                            col: b as i32,
                        };
                        assert(same_at(g1, g2, refs[k]));
                    }
                    lemma_scan_rows_local(g1, g2, r, c, sr as int, er as int, sc as int, ec as int, Seq::empty());
                }
            }
        },
        None => {
            lemma_plain_local(f, r, c, g1, g2);
        },
    }
}

} // verus!
