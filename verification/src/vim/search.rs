//! Searching the sheet (`/`, `?`, `n`, `N`) and replacing in every formula
//! (`:%s/<pattern>/<replacement>/[g]`).

use vstd::prelude::*;
use crate::sheet::{Grid, cell, grid, lemma_grid_cell, sheet_wf};
use crate::text::{
    append_chars, chars_of, eq_lit, find_char, find_from, i32_to_chars, nat_decimal, slice_chars, spec_contains,
    spec_find_char, split_at_char, split_char, starts_with, starts_with_lit, string_of, usize_to_chars,
};
use crate::vim::commands::{changed_count, colon_run_exec, search_and_replace, strip_colons, subst_part};
use crate::vim::editor::{EditorState, edit_text};

verus! {

// ---------------------------------------------------------------------------
// Finding the cells that match
// ---------------------------------------------------------------------------

/// The cells among the first `m` of row `i` whose text (formula, or else
/// value) holds `pattern`.
pub open spec fn row_matches(g: Grid, pattern: Seq<char>, i: int, m: int) -> Seq<(usize, usize)>
    decreases m,
{
    if m <= 0 {
        Seq::empty()
    } else {
        let before = row_matches(g, pattern, i, m - 1);
        if spec_contains(edit_text(g[i][m - 1]), pattern) {
            before.push((i as usize, (m - 1) as usize))
        } else {
            before
        }
    }
}

/// The matching cells of the first `k` rows, row by row.
pub open spec fn sheet_matches(g: Grid, pattern: Seq<char>, k: int, c: int) -> Seq<(usize, usize)>
    decreases k,
{
    if k <= 0 {
        Seq::empty()
    } else {
        sheet_matches(g, pattern, k - 1, c) + row_matches(g, pattern, k - 1, c)
    }
}

/// Whether `(row, col)` comes after the cursor, row by row.
pub open spec fn after_cursor(m: (usize, usize), cr: usize, cc: usize) -> bool {
    m.0 > cr || (m.0 == cr && m.1 > cc)
}

/// Whether `(row, col)` comes before the cursor, row by row.
pub open spec fn before_cursor(m: (usize, usize), cr: usize, cc: usize) -> bool {
    m.0 < cr || (m.0 == cr && m.1 < cc)
}

/// The first match from index `i` on that comes after the cursor.
pub open spec fn first_after(m: Seq<(usize, usize)>, cr: usize, cc: usize, i: int) -> Option<int>
    decreases m.len() - i,
{
    if i < 0 || i >= m.len() {
        None
    } else if after_cursor(m[i], cr, cc) {
        Some(i)
    } else {
        first_after(m, cr, cc, i + 1)
    }
}

/// The last match among the first `n` that comes before the cursor.
pub open spec fn last_before(m: Seq<(usize, usize)>, cr: usize, cc: usize, n: int) -> Option<int>
    decreases n,
{
    if n <= 0 {
        None
    } else if before_cursor(m[n - 1], cr, cc) {
        Some(n - 1)
    } else {
        last_before(m, cr, cc, n - 1)
    }
}

/// The match `find_next_match` moves to: the next one after the cursor (or
/// the first, wrapping), or, backwards, the last one before it (or the last).
pub open spec fn next_match_index(m: Seq<(usize, usize)>, cr: usize, cc: usize, forward: bool) -> int {
    if forward {
        match first_after(m, cr, cc, 0) {
            Some(i) => i,
            None => 0,
        }
    } else {
        match last_before(m, cr, cc, m.len() as int) {
            Some(i) => i,
            None => m.len() - 1,
        }
    }
}

/// The first row (or column) in view once the cursor is at `x`: moved just
/// enough to show it in a window of `size`.
pub open spec fn follow_offset(offset: usize, x: usize, size: usize) -> usize {
    if x < offset {
        x
    } else if x >= offset.wrapping_add(size) {
        if x >= (size - 1) as usize {
            (x - (size - 1)) as usize
        } else {
            0
        }
    } else {
        offset
    }
}

proof fn lemma_first_after(m: Seq<(usize, usize)>, cr: usize, cc: usize, i: int)
    requires
        0 <= i,
    ensures
        match first_after(m, cr, cc, i) {
            Some(k) => i <= k < m.len(),
            None => true,
        },
    decreases m.len() - i,
{
    if i < m.len() && !after_cursor(m[i], cr, cc) {
        lemma_first_after(m, cr, cc, i + 1);
    }
}

proof fn lemma_last_before(m: Seq<(usize, usize)>, cr: usize, cc: usize, n: int)
    requires
        n <= m.len(),
    ensures
        match last_before(m, cr, cc, n) {
            Some(k) => 0 <= k < n,
            None => true,
        },
    decreases n,
{
    if n > 0 && !before_cursor(m[n - 1], cr, cc) {
        lemma_last_before(m, cr, cc, n - 1);
    }
}

fn is_after(m: (usize, usize), cr: usize, cc: usize) -> (b: bool)
    ensures
        b == after_cursor(m, cr, cc),
{
    m.0 > cr || (m.0 == cr && m.1 > cc)
}

fn is_before(m: (usize, usize), cr: usize, cc: usize) -> (b: bool)
    ensures
        b == before_cursor(m, cr, cc),
{
    m.0 < cr || (m.0 == cr && m.1 < cc)
}

/// What `find_next_match` does to the editor state `s0`, giving `s1`.
pub open spec fn next_match_effect(s0: EditorState, s1: EditorState, forward: bool) -> bool {
    let m = s0.search_matches@;
    if m.len() == 0 {
        s1 == s0
    } else {
        let idx = next_match_index(m, s0.cursor_row, s0.cursor_col, forward);
        &&& s1.current_match == Some(idx as usize)
        &&& s1.cursor_row == m[idx].0
        &&& s1.cursor_col == m[idx].1
        &&& s1.row_offset == follow_offset(s0.row_offset, m[idx].0, 20)
        &&& s1.col_offset == follow_offset(s0.col_offset, m[idx].1, 10)
        &&& s1.search_matches == s0.search_matches
        &&& s1.search_pattern == s0.search_pattern
        &&& s1.search_forward == s0.search_forward
        &&& s1.mode == s0.mode
        &&& s1.status_message == s0.status_message
        &&& s1.command_buffer == s0.command_buffer
        &&& s1.edit_buffer == s0.edit_buffer
    }
}

/// Moves the cursor to the next match (forward) or the previous one
/// (backward) of the last search, wrapping around, and scrolls so that it is
/// in view (twenty rows, ten columns). Returns `false`, changing nothing,
/// when there are no matches.
pub fn find_next_match(state: &mut EditorState, forward: bool) -> (found: bool)
    ensures
        found == (old(state).search_matches@.len() > 0),
        next_match_effect(*old(state), *final(state), forward),
{
    let n = state.search_matches.len();
    if n == 0 {
        return false;
    }
    let ghost m = state.search_matches@;
    let cr = state.cursor_row;
    let cc = state.cursor_col;
    proof {
        lemma_first_after(m, cr, cc, 0);
        lemma_last_before(m, cr, cc, n as int);
    }
    let idx: usize = if forward {
        let mut i: usize = 0;
        while i < n && !is_after(state.search_matches[i], cr, cc)
            invariant
                n == m.len(),
                m == state.search_matches@,
                i <= n,
                first_after(m, cr, cc, i as int) == first_after(m, cr, cc, 0),
            decreases n - i,
        {
            i += 1;
        }
        if i < n {
            i
        } else {
            0
        }
    } else {
        let mut j: usize = n;
        while j > 0 && !is_before(state.search_matches[j - 1], cr, cc)
            invariant
                n == m.len(),
                m == state.search_matches@,
                j <= n,
                last_before(m, cr, cc, j as int) == last_before(m, cr, cc, n as int),
            decreases j,
        {
            j -= 1;
        }
        if j > 0 {
            j - 1
        } else {
            n - 1
        }
    };
    state.current_match = Some(idx);
    let (row, col) = state.search_matches[idx];
    state.cursor_row = row;
    state.cursor_col = col;
    if state.cursor_row < state.row_offset {
        state.row_offset = state.cursor_row;
    } else if state.cursor_row >= state.row_offset.wrapping_add(20) {
        state.row_offset = if state.cursor_row >= 19 {
            state.cursor_row - 19
        } else {
            0
        };
    }
    if state.cursor_col < state.col_offset {
        state.col_offset = state.cursor_col;
    } else if state.cursor_col >= state.col_offset.wrapping_add(10) {
        state.col_offset = if state.cursor_col >= 9 {
            state.cursor_col - 9
        } else {
            0
        };
    }
    true
}

fn cell_search_text(x: &cell) -> (t: Vec<char>)
    ensures
        t@ == edit_text(x@),
{
    match &x.formula {
        Some(f) => chars_of(f.as_str()),
        None => i32_to_chars(x.val),
    }
}

/// What `search_sheet` for `pattern` does to the editor state `s0` on the
/// grid `g`, giving `s1` and the result `res`.
pub open spec fn search_effect(
    s0: EditorState,
    s1: EditorState,
    g: Grid,
    pattern: Seq<char>,
    forward: bool,
    rows: int,
    cols: int,
    res: Result<(), String>,
) -> bool {
    let m = sheet_matches(g, pattern, rows, cols);
    if pattern.len() == 0 {
        res is Err && res->Err_0@ == "Empty search pattern"@ && s1 == s0
    } else {
        &&& (s1.search_pattern matches Some(p) && p@ == pattern)
        &&& s1.search_forward == forward
        &&& s1.search_matches@ == m
        &&& s1.mode == s0.mode
        &&& s1.status_message == s0.status_message
        &&& s1.edit_buffer == s0.edit_buffer
        &&& if m.len() == 0 {
            &&& res is Err
            &&& res->Err_0@ == "Pattern not found: "@ + pattern
            &&& s1.current_match is None
            &&& s1.cursor_row == s0.cursor_row
            &&& s1.cursor_col == s0.cursor_col
            &&& s1.row_offset == s0.row_offset
            &&& s1.col_offset == s0.col_offset
        } else {
            let idx = next_match_index(m, s0.cursor_row, s0.cursor_col, forward);
            &&& res is Ok
            &&& s1.current_match == Some(idx as usize)
            &&& s1.cursor_row == m[idx].0
            &&& s1.cursor_col == m[idx].1
            &&& s1.row_offset == follow_offset(s0.row_offset, m[idx].0, 20)
            &&& s1.col_offset == follow_offset(s0.col_offset, m[idx].1, 10)
        }
    }
}

/// Starts a search for `pattern` (forward or backward): every cell whose
/// formula, or else value, holds it is a match, row by row; the cursor moves
/// to the next match as `find_next_match` does. An empty pattern, or one that
/// no cell holds, is an error.
pub fn search_sheet(
    state: &mut EditorState,
    sheet: &Vec<Vec<cell>>,
    pattern: &str,
    forward: bool,
    rows: i32,
    cols: i32,
) -> (res: Result<(), String>)
    requires
        sheet_wf(sheet@, rows as int, cols as int),
    ensures
        search_effect(*old(state), *final(state), grid(sheet@), pattern@, forward, rows as int, cols as int, res),
{
    let pat = chars_of(pattern);
    if pat.len() == 0 {
        return Err("Empty search pattern".to_owned());
    }
    let ghost g = grid(sheet@);
    let mut matches: Vec<(usize, usize)> = Vec::new();
    let mut i: usize = 0;
    while i < rows as usize
        invariant
            sheet_wf(sheet@, rows as int, cols as int),
            g == grid(sheet@),
            pat@ == pattern@,
            0 <= i <= rows,
            matches@ == sheet_matches(g, pattern@, i as int, cols as int),
        decreases rows - i,
    {
        let ghost start = matches@;
        let mut j: usize = 0;
        while j < cols as usize
            invariant
                sheet_wf(sheet@, rows as int, cols as int),
                g == grid(sheet@),
                pat@ == pattern@,
                0 <= i < rows,
                0 <= j <= cols,
                matches@ == start + row_matches(g, pattern@, i as int, j as int),
            decreases cols - j,
        {
            proof {
                lemma_grid_cell(sheet@, rows as int, cols as int, i as int, j as int);
            }
            let text = cell_search_text(&sheet[i][j]);
            if find_from(&text, &pat, 0).is_some() {
                matches.push((i, j));
            }
            j += 1;
        }
        i += 1;
    }
    state.search_pattern = Some(pattern.to_owned());
    state.search_forward = forward;
    state.current_match = None;
    let none_found = matches.len() == 0;
    state.search_matches = matches;
    if none_found {
        let mut msg = chars_of("Pattern not found: ");
        append_chars(&mut msg, &pat);
        return Err(string_of(msg.as_slice()));
    }
    find_next_match(state, forward);
    Ok(())
}

/// Pattern, replacement and global flag of `:%s/<pattern>/<replacement>/[g]`:
/// the second and third `/`-separated parts, and whether a fourth holds `g`.
pub open spec fn spec_replace_parts(command: Seq<char>) -> Option<(Seq<char>, Seq<char>, bool)> {
    let parts = split_char(command, '/');
    if parts.len() < 3 {
        None
    } else {
        Some((parts[1], parts[2], parts.len() > 3 && spec_find_char(parts[3], 'g') is Some))
    }
}

/// What `search_and_replace_vim` for `command` does to the editor state
/// `s0` and the grid `g0`, giving `s1`, `g1` and the result `res`.
pub open spec fn replace_effect(
    s0: EditorState,
    s1: EditorState,
    g0: Grid,
    g1: Grid,
    command: Seq<char>,
    rows: int,
    cols: int,
    res: Result<(), String>,
) -> bool {
    match spec_replace_parts(command) {
        None => res is Err && res->Err_0@ == "Invalid search and replace format. Use :%s/pattern/replacement/[g]"@
            && s1 == s0 && g1 == g0,
        Some((pattern, replacement, global)) => if pattern.len() == 0 {
            res is Err && res->Err_0@ == "Empty search pattern"@ && s1 == s0 && g1 == g0
        } else {
            let count = changed_count(g0, pattern, replacement, global, rows, cols);
            &&& g1 == subst_part(g0, pattern, replacement, global, rows, 0)
            &&& if count == 0 {
                res is Err && res->Err_0@ == "Pattern not found: "@ + pattern && s1 == s0
            } else {
                &&& res is Ok
                &&& s1.status_message@ == "Replaced "@ + nat_decimal(count) + " occurrences"@
                &&& s1.cursor_row == s0.cursor_row
                &&& s1.cursor_col == s0.cursor_col
                &&& s1.search_matches == s0.search_matches
                &&& s1.mode == s0.mode
            }
        },
    }
}

/// `:%s/<pattern>/<replacement>/[g]`: replaces the pattern in every formula
/// that holds it (every occurrence when the part after the third `/` holds a
/// `g`, else the first) and reports the number of formulas changed in the
/// status line. A command with fewer than two `/`, an empty pattern, or no
/// formula changed is an error.
pub fn search_and_replace_vim(
    state: &mut EditorState,
    sheet: &mut Vec<Vec<cell>>,
    command: &str,
    rows: i32,
    cols: i32,
) -> (res: Result<(), String>)
    requires
        sheet_wf(old(sheet)@, rows as int, cols as int),
    ensures
        sheet_wf(final(sheet)@, rows as int, cols as int),
        replace_effect(
            *old(state),
            *final(state),
            grid(old(sheet)@),
            grid(final(sheet)@),
            command@,
            rows as int,
            cols as int,
            res,
        ),
{
    let text = chars_of(command);
    let parts = split_at_char(&text, '/');
    let ghost pv = parts@.map_values(|x: Vec<char>| x@);
    if parts.len() < 3 {
        return Err("Invalid search and replace format. Use :%s/pattern/replacement/[g]".to_owned());
    }
    assert(pv[1] == parts[1]@ && pv[2] == parts[2]@);
    let global = parts.len() > 3 && find_char(&parts[3], 'g').is_some();
    assert(parts.len() > 3 ==> pv[3] == parts[3]@);
    if parts[1].len() == 0 {
        return Err("Empty search pattern".to_owned());
    }
    let pattern = string_of(parts[1].as_slice());
    let replacement = string_of(parts[2].as_slice());
    let count = search_and_replace(sheet, pattern.as_str(), replacement.as_str(), global, rows, cols);
    if count == 0 {
        let mut msg = chars_of("Pattern not found: ");
        append_chars(&mut msg, &parts[1]);
        return Err(string_of(msg.as_slice()));
    }
    let mut msg = chars_of("Replaced ");
    append_chars(&mut msg, &usize_to_chars(count));
    append_chars(&mut msg, &chars_of(" occurrences"));
    state.status_message = string_of(msg.as_slice());
    Ok(())
}


/// The search commands of the editor: `%s/<pattern>/<replacement>/[g]`
/// (after any leading colons) replaces in every formula (see
/// `search_and_replace_vim`); a command starting with `/` or `?` searches
/// for the rest of it forward or backward (see `search_sheet`); `n` and `N`
/// (after any leading colons) move to the next match in the direction of the
/// last search, or against it (see `find_next_match`), and are errors when no
/// search was made or it found nothing. `None`, changing nothing, for any
/// other command.
pub fn execute_search_command(
    command: &str,
    state: &mut EditorState,
    sheet: &mut Vec<Vec<cell>>,
    rows: i32,
    cols: i32,
) -> (res: Option<Result<(), String>>)
    requires
        sheet_wf(old(sheet)@, rows as int, cols as int),
    ensures
        sheet_wf(final(sheet)@, rows as int, cols as int),
        ({
            let cmd = strip_colons(command@);
            if starts_with(cmd, seq!['%', 's', '/']) {
                res matches Some(r) && replace_effect(
                    *old(state),
                    *final(state),
                    grid(old(sheet)@),
                    grid(final(sheet)@),
                    cmd,
                    rows as int,
                    cols as int,
                    r,
                )
            } else if starts_with(command@, seq!['/']) || starts_with(command@, seq!['?']) {
                &&& final(sheet)@ == old(sheet)@
                &&& res matches Some(r) && search_effect(
                    *old(state),
                    *final(state),
                    grid(old(sheet)@),
                    command@.drop_first(),
                    command@[0] == '/',
                    rows as int,
                    cols as int,
                    r,
                )
            } else if cmd == seq!['n'] || cmd == seq!['N'] {
                let forward = if cmd == seq!['n'] {
                    old(state).search_forward
                } else {
                    !old(state).search_forward
                };
                &&& final(sheet)@ == old(sheet)@
                &&& res matches Some(r) && if old(state).search_pattern is None {
                    r is Err && r->Err_0@ == "No previous search"@ && *final(state) == *old(state)
                } else if old(state).search_matches@.len() == 0 {
                    r is Err && r->Err_0@ == "Pattern not found"@ && *final(state) == *old(state)
                } else {
                    r is Ok && next_match_effect(*old(state), *final(state), forward)
                }
            } else {
                res is None && *final(state) == *old(state) && final(sheet)@ == old(sheet)@
            }
        }),
{
    let full = chars_of(command);
    let k = colon_run_exec(&full);
    let cmd = slice_chars(&full, k, full.len());
    assert(cmd@ == strip_colons(command@));
    let pct = ['%', 's', '/'];
    let n = ['n'];
    let big_n = ['N'];
    assert(pct@ =~= seq!['%', 's', '/']);
    assert(n@ =~= seq!['n']);
    assert(big_n@ =~= seq!['N']);
    if starts_with_lit(&cmd, &pct) {
        let text = string_of(cmd.as_slice());
        return Some(search_and_replace_vim(state, sheet, text.as_str(), rows, cols));
    }
    let slash = ['/'];
    let question = ['?'];
    assert(slash@ =~= seq!['/']);
    assert(question@ =~= seq!['?']);
    let fwd = starts_with_lit(&full, &slash);
    if fwd || starts_with_lit(&full, &question) {
        assert(full@.len() >= 1);
        assert(command@[0] == '/' <==> fwd) by {
            if fwd {
                assert(full@.subrange(0, 1)[0] == full@[0]);
            } else if command@[0] == '/' {
                assert(full@.subrange(0, 1) =~= seq!['/']);
            }
        }
        let rest = slice_chars(&full, 1, full.len());
        assert(rest@ =~= command@.drop_first());
        let pattern = string_of(rest.as_slice());
        return Some(search_sheet(state, sheet, pattern.as_str(), fwd, rows, cols));
    }
    let is_n = eq_lit(&cmd, &n);
    if is_n || eq_lit(&cmd, &big_n) {
        if state.search_pattern.is_none() {
            return Some(Err("No previous search".to_owned()));
        }
        let forward = if is_n {
            state.search_forward
        } else {
            !state.search_forward
        };
        if !find_next_match(state, forward) {
            return Some(Err("Pattern not found".to_owned()));
        }
        return Some(Ok(()));
    }
    None
}


/// The matches come in strictly increasing order, row by row (as
/// `search_sheet` finds them).
pub open spec fn matches_sorted(m: Seq<(usize, usize)>) -> bool {
    forall|a: int, b: int| 0 <= a < b < m.len() ==> before_cursor(#[trigger] m[a], (#[trigger] m[b]).0, m[b].1)
}

proof fn lemma_first_after_at(m: Seq<(usize, usize)>, cr: usize, cc: usize, i: int, t: int)
    requires
        0 <= i <= t <= m.len(),
        forall|j: int| i <= j < t ==> !after_cursor(#[trigger] m[j], cr, cc),
        t < m.len() ==> after_cursor(m[t], cr, cc),
    ensures
        first_after(m, cr, cc, i) == if t < m.len() {
            Some(t)
        } else {
            None
        },
    decreases t - i,
{
    if i < t {
        lemma_first_after_at(m, cr, cc, i + 1, t);
    }
}

proof fn lemma_last_before_at(m: Seq<(usize, usize)>, cr: usize, cc: usize, n: int, t: int)
    requires
        -1 <= t < n <= m.len(),
        forall|j: int| t < j < n ==> !before_cursor(#[trigger] m[j], cr, cc),
        t >= 0 ==> before_cursor(m[t], cr, cc),
    ensures
        last_before(m, cr, cc, n) == if t >= 0 {
            Some(t)
        } else {
            None
        },
    decreases n,
{
    if n - 1 > t {
        lemma_last_before_at(m, cr, cc, n - 1, t);
    }
}

/// Law: on matches in increasing order, moving to the next match and then
/// back to the previous one returns to the match the cursor was on, wrapping
/// around at either end.
pub proof fn law_backward_undoes_forward(s0: EditorState, s1: EditorState, s2: EditorState, k: int)
    requires
        matches_sorted(s0.search_matches@),
        0 <= k < s0.search_matches@.len(),
        (s0.cursor_row, s0.cursor_col) == s0.search_matches@[k],
        next_match_effect(s0, s1, true),
        next_match_effect(s1, s2, false),
    ensures
        (s2.cursor_row, s2.cursor_col) == s0.search_matches@[k],
        s2.current_match == Some(k as usize),
{
    let m = s0.search_matches@;
    let n = m.len() as int;
    let (cr, cc) = m[k];
    let t: int = if k + 1 < n {
        k + 1
    } else {
        0
    };
    assert forall|j: int| 0 <= j < k + 1 implies !after_cursor(#[trigger] m[j], cr, cc) by {
        if j < k {
            assert(before_cursor(m[j], m[k].0, m[k].1));
        }
    }
    if k + 1 < n {
        assert(before_cursor(m[k], m[k + 1].0, m[k + 1].1));
        lemma_first_after_at(m, cr, cc, 0, k + 1);
    } else {
        lemma_first_after_at(m, cr, cc, 0, n);
    }
    assert(next_match_index(m, cr, cc, true) == t);
    assert(s1.search_matches@ == m);
    assert((s1.cursor_row, s1.cursor_col) == m[t]);
    let (r1, c1) = m[t];
    if t > 0 {
        assert forall|j: int| k < j < n implies !before_cursor(#[trigger] m[j], r1, c1) by {
            if j > t {
                assert(before_cursor(m[t], m[j].0, m[j].1));
            }
        }
        lemma_last_before_at(m, r1, c1, n, k);
    } else {
        assert forall|j: int| -1 < j < n implies !before_cursor(#[trigger] m[j], r1, c1) by {
            if j > 0 {
                assert(before_cursor(m[0], m[j].0, m[j].1));
            }
        }
        lemma_last_before_at(m, r1, c1, n, -1);
    }
}

} // verus!
