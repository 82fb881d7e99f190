//! Editor state and mode handling for the modal interface.

use vstd::prelude::*;
use crate::columns::{all_upper, col_name, col_value, lemma_col_name_upper, lemma_col_value_of_name, lemma_name_of_col_value, spec_column_name};
use crate::sheet::{cell, opt_chars};
use crate::text::{
    all_digits, is_digit, is_upper, law_parse_i32_of_decimal, lemma_nat_decimal, law_parse_usize_of_decimal, nat_decimal,
    chars_of, i32_decimal, i32_to_chars, is_alphabetic, is_numeric, parse_i32, parse_usize_range,
    spec_parse_i32, spec_parse_usize, string_of, is_alphabetic_char, is_numeric_char,
};

verus! {

/// The current editing mode.
#[derive(PartialEq, Eq, Structural, Clone, Copy, Debug)]
pub enum Mode {
    /// Navigation and commands.
    Normal,
    /// Editing the content of a cell.
    Insert,
    /// Typing a `:` command.
    Command,
    /// Selecting a range, anchored at the given cell.
    Visual { start_row: usize, start_col: usize },
}

/// Content held for copy and paste.
#[derive(Clone)]
#[allow(inconsistent_fields)]
pub enum ClipboardContent {
    /// A single cell.
    Cell { row: usize, col: usize, value: String },
    /// A rectangle of cells.
    Range { start_row: usize, start_col: usize, end_row: usize, end_col: usize, data: Vec<Vec<String>> },
    /// A whole row.
    Row { row: usize, data: Vec<String> },
    /// A whole column.
    Column { col: usize, data: Vec<String> },
}

/// The state of the editor.
pub struct EditorState {
    pub mode: Mode,
    /// Cursor row, 0-based.
    pub cursor_row: usize,
    /// Cursor column, 0-based.
    pub cursor_col: usize,
    /// The command being typed.
    pub command_buffer: String,
    /// The message shown in the status line.
    pub status_message: String,
    pub clipboard: Option<ClipboardContent>,
    /// First row in view.
    pub row_offset: usize,
    /// First column in view.
    pub col_offset: usize,
    /// The cell content being edited in insert mode.
    pub edit_buffer: String,
    /// The last search pattern.
    pub search_pattern: Option<String>,
    /// Whether the last search went forward.
    pub search_forward: bool,
    /// The cells that matched the last search, row by row.
    pub search_matches: Vec<(usize, usize)>,
    /// The index in `search_matches` of the current match.
    pub current_match: Option<usize>,
}

/// What a cell offers for editing: its formula, or else its value.
pub open spec fn edit_text(x: crate::sheet::CellV) -> Seq<char> {
    match x.formula {
        Some(f) => f,
        None => i32_decimal(x.val),
    }
}

/// A cell after an edit with the text `buf`: cleared to 0 for an empty
/// text, set to the number for a plain number, else given the text as its
/// formula.
pub open spec fn edited_cell(x: crate::sheet::CellV, buf: Seq<char>) -> crate::sheet::CellV {
    if buf.len() == 0 {
        crate::sheet::CellV { formula: None, val: 0, ..x }
    } else if spec_parse_i32(buf) is Some {
        crate::sheet::CellV { formula: None, val: spec_parse_i32(buf)->Some_0, ..x }
    } else {
        crate::sheet::CellV { formula: Some(buf), ..x }
    }
}

impl EditorState {
    /// Normal mode, cursor and view at the top-left cell, nothing typed,
    /// copied or searched.
    pub fn new() -> (s: EditorState)
        ensures
            s.mode == Mode::Normal,
            s.cursor_row == 0,
            s.cursor_col == 0,
            s.command_buffer@ == Seq::<char>::empty(),
            s.status_message@ == "Normal mode"@,
            s.clipboard is None,
            s.row_offset == 0,
            s.col_offset == 0,
            s.edit_buffer@ == Seq::<char>::empty(),
            s.search_pattern is None,
            s.search_forward,
            s.search_matches@ == Seq::<(usize, usize)>::empty(),
            s.current_match is None,
    {
        EditorState {
            mode: Mode::Normal,
            cursor_row: 0,
            cursor_col: 0,
            command_buffer: String::new(),
            status_message: "Normal mode".to_owned(),
            clipboard: None,
            row_offset: 0,
            col_offset: 0,
            edit_buffer: String::new(),
            search_pattern: None,
            search_forward: true,
            search_matches: Vec::new(),
            current_match: None,
        }
    }

    /// Moves the view and the cursor back to the top-left cell.
    pub fn reset_view(&mut self)
        ensures
            final(self).row_offset == 0,
            final(self).col_offset == 0,
            final(self).cursor_row == 0,
            final(self).cursor_col == 0,
            final(self).mode == old(self).mode,
            final(self).command_buffer == old(self).command_buffer,
            final(self).status_message == old(self).status_message,
            final(self).edit_buffer == old(self).edit_buffer,
            final(self).search_matches == old(self).search_matches,
            final(self).current_match == old(self).current_match,
            final(self).clipboard == old(self).clipboard,
            final(self).search_pattern == old(self).search_pattern,
            final(self).search_forward == old(self).search_forward,
    {
        self.row_offset = 0;
        self.col_offset = 0;
        self.cursor_row = 0;
        self.cursor_col = 0;
    }

    /// Switches to insert mode, with the cell under the cursor (its formula,
    /// or else its value) in the edit buffer.
    pub fn enter_insert_mode(&mut self, sheet: &Vec<Vec<cell>>)
        requires
            old(self).cursor_row < sheet.len(),
            old(self).cursor_col < sheet[old(self).cursor_row as int].len(),
        ensures
            final(self).mode == Mode::Insert,
            final(self).status_message@ == "-- INSERT --"@,
            final(self).edit_buffer@ == edit_text(sheet[old(self).cursor_row as int][old(self).cursor_col as int]@),
            final(self).cursor_row == old(self).cursor_row,
            final(self).cursor_col == old(self).cursor_col,
            final(self).row_offset == old(self).row_offset,
            final(self).col_offset == old(self).col_offset,
            final(self).command_buffer == old(self).command_buffer,
            final(self).search_matches == old(self).search_matches,
            final(self).current_match == old(self).current_match,
            final(self).clipboard == old(self).clipboard,
            final(self).search_pattern == old(self).search_pattern,
            final(self).search_forward == old(self).search_forward,
    {
        self.mode = Mode::Insert;
        self.status_message = "-- INSERT --".to_owned();
        let x = &sheet[self.cursor_row][self.cursor_col];
        match &x.formula {
            Some(f) => {
                self.edit_buffer = f.clone();
            },
            None => {
                let digits = i32_to_chars(x.val);
                self.edit_buffer = string_of(digits.as_slice());
            },
        }
    }

    /// Switches to normal mode and empties the edit buffer.
    pub fn enter_normal_mode(&mut self)
        ensures
            final(self).mode == Mode::Normal,
            final(self).status_message@ == "Normal mode"@,
            final(self).edit_buffer@ == Seq::<char>::empty(),
            final(self).cursor_row == old(self).cursor_row,
            final(self).cursor_col == old(self).cursor_col,
            final(self).row_offset == old(self).row_offset,
            final(self).col_offset == old(self).col_offset,
            final(self).command_buffer == old(self).command_buffer,
            final(self).clipboard == old(self).clipboard,
            final(self).search_pattern == old(self).search_pattern,
            final(self).search_forward == old(self).search_forward,
            final(self).search_matches == old(self).search_matches,
            final(self).current_match == old(self).current_match,
    {
        self.mode = Mode::Normal;
        self.status_message = "Normal mode".to_owned();
        self.edit_buffer = String::new();
    }

    /// Switches to command mode with `:` typed.
    pub fn enter_command_mode(&mut self)
        ensures
            final(self).mode == Mode::Command,
            final(self).command_buffer@ == seq![':'],
            final(self).status_message == old(self).status_message,
            final(self).edit_buffer == old(self).edit_buffer,
            final(self).cursor_row == old(self).cursor_row,
            final(self).cursor_col == old(self).cursor_col,
            final(self).row_offset == old(self).row_offset,
            final(self).col_offset == old(self).col_offset,
            final(self).clipboard == old(self).clipboard,
            final(self).search_pattern == old(self).search_pattern,
            final(self).search_forward == old(self).search_forward,
            final(self).search_matches == old(self).search_matches,
            final(self).current_match == old(self).current_match,
    {
        self.mode = Mode::Command;
        let colon = [':'];
        self.command_buffer = string_of(&colon);
    }

    /// Switches to visual mode, anchored at the cursor.
    pub fn enter_visual_mode(&mut self)
        ensures
            final(self).mode == (Mode::Visual { start_row: old(self).cursor_row, start_col: old(self).cursor_col }),
            final(self).status_message@ == "-- VISUAL --"@,
            final(self).edit_buffer == old(self).edit_buffer,
            final(self).command_buffer == old(self).command_buffer,
            final(self).cursor_row == old(self).cursor_row,
            final(self).cursor_col == old(self).cursor_col,
            final(self).row_offset == old(self).row_offset,
            final(self).col_offset == old(self).col_offset,
            final(self).clipboard == old(self).clipboard,
            final(self).search_pattern == old(self).search_pattern,
            final(self).search_forward == old(self).search_forward,
            final(self).search_matches == old(self).search_matches,
            final(self).current_match == old(self).current_match,
    {
        self.mode = Mode::Visual { start_row: self.cursor_row, start_col: self.cursor_col };
        self.status_message = "-- VISUAL --".to_owned();
    }

    /// In visual mode, the selected rectangle as `(min_row, min_col, max_row,
    /// max_col)`, spanned by the anchor and the cursor.
    pub fn get_visual_selection(&self) -> (sel: Option<(usize, usize, usize, usize)>)
        ensures
            match self.mode {
                Mode::Visual { start_row, start_col } => sel == Some(
                    (
                        if start_row <= self.cursor_row { start_row } else { self.cursor_row },
                        if start_col <= self.cursor_col { start_col } else { self.cursor_col },
                        if start_row >= self.cursor_row { start_row } else { self.cursor_row },
                        if start_col >= self.cursor_col { start_col } else { self.cursor_col },
                    ),
                ),
                _ => sel is None,
            },
    {
        match self.mode {
            Mode::Visual { start_row, start_col } => {
                let min_row = if start_row <= self.cursor_row { start_row } else { self.cursor_row };
                let max_row = if start_row >= self.cursor_row { start_row } else { self.cursor_row };
                let min_col = if start_col <= self.cursor_col { start_col } else { self.cursor_col };
                let max_col = if start_col >= self.cursor_col { start_col } else { self.cursor_col };
                Some((min_row, min_col, max_row, max_col))
            },
            _ => None,
        }
    }

    /// Stores the edit buffer in the cell under the cursor: an empty buffer
    /// clears the cell to 0, a number becomes the value, anything else
    /// becomes the formula.
    pub fn apply_edit(&self, sheet: &mut Vec<Vec<cell>>)
        requires
            self.cursor_row < old(sheet).len(),
            self.cursor_col < old(sheet)[self.cursor_row as int].len(),
        ensures
            final(sheet).len() == old(sheet).len(),
            forall|i: int| 0 <= i < old(sheet).len() && i != self.cursor_row ==> #[trigger] final(sheet)[i] == old(sheet)[i],
            final(sheet)[self.cursor_row as int]@ == old(sheet)[self.cursor_row as int]@.update(
                self.cursor_col as int,
                final(sheet)[self.cursor_row as int]@[self.cursor_col as int],
            ),
            final(sheet)[self.cursor_row as int]@[self.cursor_col as int]@ == edited_cell(
                old(sheet)[self.cursor_row as int]@[self.cursor_col as int]@,
                self.edit_buffer@,
            ),
    {
        let buf = chars_of(self.edit_buffer.as_str());
        let r = self.cursor_row;
        let c = self.cursor_col;
        if buf.len() == 0 {
            sheet[r][c].formula = None;
            sheet[r][c].val = 0;
        } else {
            match parse_i32(&buf) {
                Some(v) => {
                    sheet[r][c].formula = None;
                    sheet[r][c].val = v;
                },
                None => {
                    sheet[r][c].formula = Some(self.edit_buffer.clone());
                },
            }
        }
    }
}

// ---------------------------------------------------------------------------
// Cell references typed by the user
// ---------------------------------------------------------------------------

/// `char::to_ascii_uppercase`.
pub open spec fn ascii_upper(c: char) -> char {
    if 'a' <= c && c <= 'z' {
        ((c as u32) - 32) as char
    } else {
        c
    }
}

fn ascii_upper_exec(c: char) -> (u: char)
    ensures
        u == ascii_upper(c),
{
    if 'a' <= c && c <= 'z' {
        (((c as u32) - 32) as u8) as char
    } else {
        c
    }
}

/// The alphabetic characters of a reference (upper-cased) and its numeric
/// characters, each in order; `None` when a character is neither.
pub open spec fn ref_split(s: Seq<char>) -> Option<(Seq<char>, Seq<char>)>
    decreases s.len(),
{
    if s.len() == 0 {
        Some((Seq::empty(), Seq::empty()))
    } else {
        match ref_split(s.drop_last()) {
            None => None,
            Some((cs, rs)) => {
                let ch = s.last();
                if is_alphabetic_char(ch) {
                    Some((cs.push(ascii_upper(ch)), rs))
                } else if is_numeric_char(ch) {
                    Some((cs, rs.push(ch)))
                } else {
                    None
                }
            },
        }
    }
}

/// Base-26 value of column letters (`A` = 1), wrapping like `usize`.
pub open spec fn letters_value(cs: Seq<char>) -> usize
    decreases cs.len(),
{
    if cs.len() == 0 {
        0
    } else {
        letters_value(cs.drop_last()).wrapping_mul(26).wrapping_add(((cs.last() as int) - 64) as usize)
    }
}

/// `(row, column)`, both 0-based, of a reference such as `A1`: letters and
/// digits may come in any order; there must be at least one of each, and
/// both numbers must be at least 1.
pub open spec fn spec_parse_cell_reference(s: Seq<char>) -> Option<(usize, usize)> {
    match ref_split(s) {
        None => None,
        Some((cs, rs)) => if cs.len() == 0 || rs.len() == 0 {
            None
        } else {
            match spec_parse_usize(rs) {
                None => None,
                Some(row) => if row == 0 {
                    None
                } else {
                    let col = letters_value(cs);
                    if col == 0 {
                        None
                    } else {
                        Some(((row - 1) as usize, (col - 1) as usize))
                    }
                },
            }
        },
    }
}

/// A prefix that fails to split makes the whole text fail.
proof fn lemma_ref_split_prefix_none(s: Seq<char>, k: int)
    requires
        0 <= k <= s.len(),
        ref_split(s.take(k)) is None,
    ensures
        ref_split(s) is None,
    decreases s.len() - k,
{
    if k < s.len() {
        assert(s.take(k + 1).drop_last() == s.take(k));
        lemma_ref_split_prefix_none(s, k + 1);
    } else {
        assert(s.take(k) == s);
    }
}

/// Parses a reference such as `A1` into `(row, column)`, both 0-based (see
/// `spec_parse_cell_reference`).
pub fn parse_cell_reference(s: &str) -> (res: Option<(usize, usize)>)
    ensures
        res == spec_parse_cell_reference(s@),
{
    parse_reference_chars(&chars_of(s))
}

/// `parse_cell_reference` on a character vector.
pub fn parse_reference_chars(v: &Vec<char>) -> (res: Option<(usize, usize)>)
    ensures
        res == spec_parse_cell_reference(v@),
{
    let ghost s = v@;
    let mut col_str: Vec<char> = Vec::new();
    let mut row_str: Vec<char> = Vec::new();
    let mut result: usize = 0;
    let mut i: usize = 0;
    while i < v.len()
        invariant
            i <= v.len(),
            v@ == s,
            ref_split(v@.take(i as int)) == Some((col_str@, row_str@)),
            result == letters_value(col_str@),
            forall|k: int| 0 <= k < col_str@.len() ==> #[trigger] col_str@[k] >= 'A',
        decreases v.len() - i,
    {
        let ch = v[i];
        assert(v@.take(i + 1).drop_last() == v@.take(i as int));
        if is_alphabetic(ch) {
            let u = ascii_upper_exec(ch);
            assert(u >= 'A');
            let ghost before = col_str@;
            col_str.push(u);
            assert(col_str@.drop_last() == before);
            result = result.wrapping_mul(26).wrapping_add((u as u32 - 64) as usize);
        } else if is_numeric(ch) {
            row_str.push(ch);
        } else {
            proof {
                assert(ref_split(v@.take(i + 1)) is None);
                lemma_ref_split_prefix_none(v@, i + 1);
            }
            return None;
        }
        i += 1;
    }
    assert(v@.take(v.len() as int) == v@);
    if col_str.len() == 0 || row_str.len() == 0 {
        return None;
    }
    assert(row_str@.subrange(0, row_str.len() as int) == row_str@);
    let row = match parse_usize_range(&row_str, 0, row_str.len()) {
        Some(r) => r,
        None => {
            return None;
        },
    };
    if row == 0 || result == 0 {
        return None;
    }
    Some((row - 1, result - 1))
}

// ---------------------------------------------------------------------------
// Names of cells read back
// ---------------------------------------------------------------------------

proof fn lemma_ref_split_letters(s: Seq<char>)
    requires
        all_upper(s),
    ensures
        ref_split(s) == Some((s, Seq::<char>::empty())),
    decreases s.len(),
{
    if s.len() > 0 {
        lemma_ref_split_letters(s.drop_last());
        assert(is_upper(s.last()));
        assert(s.drop_last().push(s.last()) == s);
    }
}

proof fn lemma_ref_split_letters_digits(a: Seq<char>, d: Seq<char>)
    requires
        all_upper(a),
        all_digits(d),
    ensures
        ref_split(a + d) == Some((a, d)),
    decreases d.len(),
{
    if d.len() == 0 {
        assert(a + d == a);
        lemma_ref_split_letters(a);
    } else {
        lemma_ref_split_letters_digits(a, d.drop_last());
        assert((a + d).drop_last() == a + d.drop_last());
        assert((a + d).last() == d.last());
        assert(is_digit(d.last()));
        assert(d.drop_last().push(d.last()) == d);
    }
}

proof fn lemma_letters_value_exact(s: Seq<char>)
    requires
        all_upper(s),
        col_value(s) <= usize::MAX,
    ensures
        letters_value(s) == col_value(s),
    decreases s.len(),
{
    if s.len() > 0 {
        let p = s.drop_last();
        assert(all_upper(p));
        assert(is_upper(s.last()));
        lemma_name_of_col_value(p);
        assert(col_value(p) <= col_value(s));
        lemma_letters_value_exact(p);
        let v = letters_value(p);
        assert(v * 26 <= col_value(s));
        vstd::arithmetic::div_mod::lemma_small_mod((v as nat * 26nat) as nat, (usize::MAX as nat + 1) as nat);
        assert(v.wrapping_mul(26) == v * 26);
    }
}

/// Law: the name of column `c` followed by the 1-based number of row `r`
/// (as the formula-keeping file format and the `:` jump write a cell) reads
/// back as `(r, c)`.
pub proof fn law_parse_reference_of_name(r: usize, c: usize)
    requires
        r < usize::MAX,
        c < usize::MAX,
    ensures
        spec_parse_cell_reference(spec_column_name(c) + nat_decimal((r + 1) as nat)) == Some((r, c)),
{
    let name = spec_column_name(c);
    assert(c.wrapping_add(1) == c + 1);
    assert(name == col_name((c + 1) as nat));
    let digits = nat_decimal((r + 1) as nat);
    lemma_col_name_upper((c + 1) as nat);
    lemma_col_value_of_name((c + 1) as nat);
    lemma_nat_decimal((r + 1) as nat);
    law_parse_usize_of_decimal((r + 1) as usize);
    lemma_ref_split_letters_digits(name, digits);
    lemma_letters_value_exact(name);
}


/// Law: entering insert mode on a cell and applying the edit unchanged
/// leaves the cell as it was, unless its formula is empty or a plain number
/// (which the edit turns into a value).
pub proof fn law_unchanged_edit_keeps_cell(x: crate::sheet::CellV)
    requires
        x.formula matches Some(f) ==> f.len() > 0 && spec_parse_i32(f) is None,
    ensures
        edited_cell(x, edit_text(x)) == x,
{
    if x.formula is None {
        law_parse_i32_of_decimal(x.val);
        if x.val < 0 {
            lemma_nat_decimal((-(x.val as int)) as nat);
        } else {
            lemma_nat_decimal(x.val as nat);
        }
    }
}

} // verus!
