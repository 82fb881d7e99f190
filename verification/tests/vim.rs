use spreadsheet::columns::column_name;
use spreadsheet::sheet::cell;
use spreadsheet::vim::commands::{
    command_would_abort, execute_batch_formula, execute_command, search_and_replace, CommandEffect,
};
use spreadsheet::vim::editor::{parse_cell_reference, EditorState, Mode};
use spreadsheet::vim::files::{FileFormat, LoadFormat};
use spreadsheet::vim::search::{execute_search_command, find_next_match, search_and_replace_vim, search_sheet};

fn new_sheet(r: usize, c: usize) -> Vec<Vec<cell>> {
    (0..r).map(|_| (0..c).map(|_| cell { val: 0, formula: None, err: 0 }).collect()).collect()
}

fn with_formula(sheet: &mut Vec<Vec<cell>>, i: usize, j: usize, f: &str) {
    sheet[i][j].formula = Some(f.to_string());
}

#[test]
fn column_names() {
    assert_eq!(column_name(0), "A");
    assert_eq!(column_name(25), "Z");
    assert_eq!(column_name(26), "AA");
    assert_eq!(column_name(27), "AB");
    assert_eq!(column_name(701), "ZZ");
    assert_eq!(column_name(702), "AAA");
}

#[test]
fn cell_references() {
    assert_eq!(parse_cell_reference("A1"), Some((0, 0)));
    assert_eq!(parse_cell_reference("b2"), Some((1, 1)));
    assert_eq!(parse_cell_reference("AA10"), Some((9, 26)));
    // Letters and digits are gathered wherever they stand.
    assert_eq!(parse_cell_reference("1A"), Some((0, 0)));
    assert_eq!(parse_cell_reference("A0"), None);
    assert_eq!(parse_cell_reference("A"), None);
    assert_eq!(parse_cell_reference("12"), None);
    assert_eq!(parse_cell_reference("A-1"), None);
    assert_eq!(parse_cell_reference(""), None);
    // Any alphabetic character counts as a letter, by its code point.
    assert_eq!(parse_cell_reference("\u{e9}1"), Some((0, 168)));
    // A numeric character that is no ASCII digit does not parse as a row.
    assert_eq!(parse_cell_reference("A\u{b2}"), None);
}

#[test]
fn reference_of_column_name_round_trip() {
    for c in [0usize, 5, 25, 26, 51, 700, 701, 702, 18277] {
        let name = format!("{}{}", column_name(c), 7);
        assert_eq!(parse_cell_reference(&name), Some((6, c)));
    }
}

#[test]
fn editor_modes() {
    let mut sheet = new_sheet(3, 3);
    sheet[0][0].val = 42;
    with_formula(&mut sheet, 1, 0, "A1+1");
    let mut st = EditorState::new();
    assert_eq!(st.mode, Mode::Normal);
    assert_eq!(st.status_message, "Normal mode");
    st.enter_insert_mode(&sheet);
    assert_eq!(st.mode, Mode::Insert);
    assert_eq!(st.status_message, "-- INSERT --");
    assert_eq!(st.edit_buffer, "42");
    st.enter_normal_mode();
    assert_eq!(st.edit_buffer, "");
    st.cursor_row = 1;
    st.enter_insert_mode(&sheet);
    assert_eq!(st.edit_buffer, "A1+1");
    st.enter_command_mode();
    assert_eq!(st.mode, Mode::Command);
    assert_eq!(st.command_buffer, ":");
    st.reset_view();
    assert_eq!((st.cursor_row, st.cursor_col, st.row_offset, st.col_offset), (0, 0, 0, 0));
}

#[test]
fn visual_selection() {
    let mut st = EditorState::new();
    assert_eq!(st.get_visual_selection(), None);
    st.cursor_row = 2;
    st.cursor_col = 3;
    st.enter_visual_mode();
    assert_eq!(st.mode, Mode::Visual { start_row: 2, start_col: 3 });
    assert_eq!(st.status_message, "-- VISUAL --");
    st.cursor_row = 1;
    st.cursor_col = 5;
    assert_eq!(st.get_visual_selection(), Some((1, 3, 2, 5)));
}

#[test]
fn applying_an_edit() {
    let mut sheet = new_sheet(2, 2);
    let mut st = EditorState::new();
    st.edit_buffer = "7".to_string();
    st.apply_edit(&mut sheet);
    assert_eq!(sheet[0][0].val, 7);
    assert_eq!(sheet[0][0].formula, None);
    st.edit_buffer = "B1*2".to_string();
    st.apply_edit(&mut sheet);
    assert_eq!(sheet[0][0].formula.as_deref(), Some("B1*2"));
    assert_eq!(sheet[0][0].val, 7);
    st.edit_buffer = String::new();
    st.apply_edit(&mut sheet);
    assert_eq!(sheet[0][0].formula, None);
    assert_eq!(sheet[0][0].val, 0);
}

#[test]
fn quit_and_help_commands() {
    let mut sheet = new_sheet(3, 3);
    let mut st = EditorState::new();
    assert_eq!(execute_command(":q", &mut st, &mut sheet, 3, 3).err(), Some("quit".to_string()));
    assert_eq!(execute_command("::quit", &mut st, &mut sheet, 3, 3).err(), Some("quit".to_string()));
    assert!(matches!(execute_command(":wq", &mut st, &mut sheet, 3, 3), Ok(CommandEffect::SaveDefaultThenQuit)));
    let help = execute_command(":help", &mut st, &mut sheet, 3, 3).err().unwrap();
    assert!(help.starts_with("Available commands:\n:q, :quit - Quit\n"));
    assert_eq!(execute_command(":foo", &mut st, &mut sheet, 3, 3).err(), Some("Unknown command: foo".to_string()));
    assert_eq!(execute_command(":s/x", &mut st, &mut sheet, 3, 3).err(), Some("Unknown command: s/x".to_string()));
}

#[test]
fn file_commands_choose_format_by_extension() {
    let mut sheet = new_sheet(3, 3);
    let mut st = EditorState::new();
    match execute_command(":w", &mut st, &mut sheet, 3, 3) {
        Ok(CommandEffect::Save { filename, format }) => {
            assert_eq!(filename, "spreadsheet.ss");
            assert_eq!(format, FileFormat::Custom);
        },
        _ => panic!("a save"),
    }
    match execute_command(":w out.csv", &mut st, &mut sheet, 3, 3) {
        Ok(CommandEffect::Save { filename, format }) => {
            assert_eq!(filename, "out.csv");
            assert_eq!(format, FileFormat::Csv);
        },
        _ => panic!("a save"),
    }
    match execute_command(":w dir.v2/table.tsv", &mut st, &mut sheet, 3, 3) {
        Ok(CommandEffect::Save { format, .. }) => assert_eq!(format, FileFormat::Tsv),
        _ => panic!("a save"),
    }
    match execute_command(":e data.csv", &mut st, &mut sheet, 3, 3) {
        Ok(CommandEffect::Load { filename, format }) => {
            assert_eq!(filename, "data.csv");
            assert_eq!(format, LoadFormat::Known(FileFormat::Csv));
        },
        _ => panic!("a load"),
    }
    match execute_command(":edit book.ss", &mut st, &mut sheet, 3, 3) {
        Ok(CommandEffect::Load { format, .. }) => assert_eq!(format, LoadFormat::Known(FileFormat::Custom)),
        _ => panic!("a load"),
    }
    match execute_command(":e notes", &mut st, &mut sheet, 3, 3) {
        Ok(CommandEffect::Load { format, .. }) => assert_eq!(format, LoadFormat::Guess),
        _ => panic!("a load"),
    }
}

#[test]
fn jump_command() {
    let mut sheet = new_sheet(40, 40);
    let mut st = EditorState::new();
    assert!(matches!(execute_command(":C2", &mut st, &mut sheet, 40, 40), Ok(CommandEffect::Done)));
    assert_eq!((st.cursor_row, st.cursor_col), (1, 2));
    assert_eq!((st.row_offset, st.col_offset), (0, 0));
    assert!(matches!(execute_command(":AD30", &mut st, &mut sheet, 40, 40), Ok(CommandEffect::Done)));
    assert_eq!((st.cursor_row, st.cursor_col), (29, 29));
    assert_eq!((st.row_offset, st.col_offset), (24, 24));
    assert_eq!(
        execute_command(":Z99", &mut st, &mut sheet, 40, 40).err(),
        Some("Cell reference out of bounds: Z99".to_string())
    );
    assert_eq!((st.cursor_row, st.cursor_col), (29, 29));
}

#[test]
fn substitute_in_formulas() {
    let mut sheet = new_sheet(2, 2);
    with_formula(&mut sheet, 0, 0, "A2+A2");
    with_formula(&mut sheet, 1, 1, "B1");
    let mut st = EditorState::new();
    assert!(matches!(execute_command(":s/A2/B2/", &mut st, &mut sheet, 2, 2), Ok(CommandEffect::Done)));
    assert_eq!(sheet[0][0].formula.as_deref(), Some("B2+A2"));
    assert!(matches!(execute_command(":s/A2/C2/g", &mut st, &mut sheet, 2, 2), Ok(CommandEffect::Done)));
    assert_eq!(sheet[0][0].formula.as_deref(), Some("B2+C2"));
    assert_eq!(sheet[1][1].formula.as_deref(), Some("B1"));
    let n = search_and_replace(&mut sheet, "B", "D", true, 2, 2);
    assert_eq!(n, 2);
    assert_eq!(sheet[0][0].formula.as_deref(), Some("D2+C2"));
    assert_eq!(sheet[1][1].formula.as_deref(), Some("D1"));
    assert_eq!(search_and_replace(&mut sheet, "Q", "D", true, 2, 2), 0);
}

#[test]
fn batch_assignment() {
    let mut sheet = new_sheet(4, 3);
    let mut st = EditorState::new();
    assert!(matches!(
        execute_command(":i in 1..3: Ai = Bi + 1", &mut st, &mut sheet, 4, 3),
        Ok(CommandEffect::Done)
    ));
    assert_eq!(sheet[0][0].formula.as_deref(), Some("B1 + 1"));
    assert_eq!(sheet[2][0].formula.as_deref(), Some("B3 + 1"));
    assert_eq!(sheet[3][0].formula, None);
    // Rows past the sheet are left out.
    execute_batch_formula("i in 2..9: Ci = MIN(Ai:Bi)", &mut sheet, 4, 3).unwrap();
    assert_eq!(sheet[1][2].formula.as_deref(), Some("MIN(A2:B2)"));
    assert_eq!(sheet[3][2].formula.as_deref(), Some("MIN(A4:B4)"));
    assert_eq!(sheet[0][2].formula, None);
}

#[test]
fn batch_errors() {
    let mut sheet = new_sheet(4, 3);
    assert_eq!(
        execute_batch_formula("i in 1..2: Zi = 1", &mut sheet, 4, 3),
        Err("Column Z is out of bounds".to_string())
    );
    assert_eq!(
        execute_batch_formula("j in 1..2: Ai = 1", &mut sheet, 4, 3),
        Err("Invalid batch formula syntax. Use format: i in 1..10: Ai = Bi + 1".to_string())
    );
    // The grammar's digits take any decimal digit; the number then fails to parse.
    assert_eq!(
        execute_batch_formula("i in \u{0663}..5: Ai = 1", &mut sheet, 4, 3),
        Err("Invalid range start".to_string())
    );
    assert_eq!(
        execute_batch_formula("i in 1..\u{0663}: Ai = 1", &mut sheet, 4, 3),
        Err("Invalid range end".to_string())
    );
    assert_eq!(sheet[0][0].formula, None);
}

#[test]
fn searching_the_sheet() {
    let mut sheet = new_sheet(3, 3);
    sheet[0][1].val = 15;
    with_formula(&mut sheet, 2, 0, "A1+15");
    sheet[1][2].val = 7;
    let mut st = EditorState::new();
    search_sheet(&mut st, &sheet, "15", true, 3, 3).unwrap();
    assert_eq!(st.search_matches, vec![(0, 1), (2, 0)]);
    assert_eq!(st.current_match, Some(0));
    assert_eq!((st.cursor_row, st.cursor_col), (0, 1));
    assert!(find_next_match(&mut st, true));
    assert_eq!((st.cursor_row, st.cursor_col), (2, 0));
    // Past the last match the search wraps to the first.
    assert!(find_next_match(&mut st, true));
    assert_eq!((st.cursor_row, st.cursor_col), (0, 1));
    // Backward from the first match wraps to the last.
    assert!(find_next_match(&mut st, false));
    assert_eq!(st.current_match, Some(1));
    assert_eq!(search_sheet(&mut st, &sheet, "", true, 3, 3), Err("Empty search pattern".to_string()));
    assert_eq!(search_sheet(&mut st, &sheet, "99", true, 3, 3), Err("Pattern not found: 99".to_string()));
    assert!(st.search_matches.is_empty());
    assert!(!find_next_match(&mut st, true));
}

#[test]
fn replacing_in_the_sheet() {
    let mut sheet = new_sheet(2, 2);
    with_formula(&mut sheet, 0, 0, "A2+A2");
    with_formula(&mut sheet, 1, 0, "A2*2");
    let mut st = EditorState::new();
    search_and_replace_vim(&mut st, &mut sheet, "%s/A2/B2/g", 2, 2).unwrap();
    assert_eq!(sheet[0][0].formula.as_deref(), Some("B2+B2"));
    assert_eq!(sheet[1][0].formula.as_deref(), Some("B2*2"));
    assert_eq!(st.status_message, "Replaced 2 occurrences");
    search_and_replace_vim(&mut st, &mut sheet, "%s/B2/C2", 2, 2).unwrap();
    assert_eq!(sheet[0][0].formula.as_deref(), Some("C2+B2"));
    assert_eq!(
        search_and_replace_vim(&mut st, &mut sheet, "%s/Q/R/g", 2, 2),
        Err("Pattern not found: Q".to_string())
    );
    assert_eq!(
        search_and_replace_vim(&mut st, &mut sheet, "%s//R/g", 2, 2),
        Err("Empty search pattern".to_string())
    );
    assert_eq!(
        search_and_replace_vim(&mut st, &mut sheet, "%s", 2, 2),
        Err("Invalid search and replace format. Use :%s/pattern/replacement/[g]".to_string())
    );
}

#[test]
fn search_commands() {
    let mut sheet = new_sheet(3, 3);
    with_formula(&mut sheet, 1, 1, "A1+7");
    sheet[2][2].val = 7;
    let mut st = EditorState::new();
    assert_eq!(execute_search_command("n", &mut st, &mut sheet, 3, 3), Some(Err("No previous search".to_string())));
    assert_eq!(execute_search_command("/7", &mut st, &mut sheet, 3, 3), Some(Ok(())));
    assert_eq!((st.cursor_row, st.cursor_col), (1, 1));
    assert_eq!(execute_search_command(":n", &mut st, &mut sheet, 3, 3), Some(Ok(())));
    assert_eq!((st.cursor_row, st.cursor_col), (2, 2));
    // `N` goes against the direction of the search.
    assert_eq!(execute_search_command("N", &mut st, &mut sheet, 3, 3), Some(Ok(())));
    assert_eq!((st.cursor_row, st.cursor_col), (1, 1));
    assert_eq!(execute_search_command("?A1", &mut st, &mut sheet, 3, 3), Some(Ok(())));
    assert!(!st.search_forward);
    assert_eq!(execute_search_command(":%s/A1/B1/g", &mut st, &mut sheet, 3, 3), Some(Ok(())));
    assert_eq!(sheet[1][1].formula.as_deref(), Some("B1+7"));
    assert_eq!(execute_search_command("/zz", &mut st, &mut sheet, 3, 3), Some(Err("Pattern not found: zz".to_string())));
    assert_eq!(execute_search_command("n", &mut st, &mut sheet, 3, 3), Some(Err("Pattern not found".to_string())));
    assert_eq!(execute_search_command(":w", &mut st, &mut sheet, 3, 3), None);
    assert_eq!(execute_search_command(":/x", &mut st, &mut sheet, 3, 3), None);
}

#[test]
fn batch_from_row_zero_is_flagged() {
    assert!(command_would_abort(":i in 0..3: Ai = 1", 3));
    assert!(!command_would_abort(":i in 1..3: Ai = 1", 3));
    // A column outside the sheet is an error before any row is touched.
    assert!(!command_would_abort(":i in 0..3: Zi = 1", 3));
    assert!(!command_would_abort(":w", 3));
    assert!(!command_would_abort("i in x..3: Ai = 1", 3));
}

#[test]
fn unchanged_edit_keeps_cell() {
    let mut sheet = new_sheet(1, 3);
    with_formula(&mut sheet, 0, 0, "B1*2");
    sheet[0][0].val = 4;
    sheet[0][1].val = -5;
    with_formula(&mut sheet, 0, 2, "5");
    let mut st = EditorState::new();
    for j in 0..3 {
        st.cursor_col = j;
        st.enter_insert_mode(&sheet);
        st.apply_edit(&mut sheet);
        st.enter_normal_mode();
    }
    assert_eq!(sheet[0][0].formula.as_deref(), Some("B1*2"));
    assert_eq!(sheet[0][0].val, 4);
    assert_eq!(sheet[0][1].val, -5);
    assert_eq!(sheet[0][1].formula, None);
    // A formula that is a plain number becomes the value.
    assert_eq!(sheet[0][2].formula, None);
    assert_eq!(sheet[0][2].val, 5);
}

#[test]
fn substitute_changes_only_the_cursor_cell() {
    let mut sheet = new_sheet(1, 2);
    with_formula(&mut sheet, 0, 0, "C1+C1");
    with_formula(&mut sheet, 0, 1, "C1*2");
    let mut st = EditorState::new();
    assert!(matches!(execute_command(":s/C1/D1/", &mut st, &mut sheet, 1, 2), Ok(CommandEffect::Done)));
    assert_eq!(sheet[0][0].formula.as_deref(), Some("D1+C1"));
    assert_eq!(sheet[0][1].formula.as_deref(), Some("C1*2"));
    st.cursor_col = 1;
    assert!(matches!(execute_command(":s/C1/E1/g", &mut st, &mut sheet, 1, 2), Ok(CommandEffect::Done)));
    assert_eq!(sheet[0][0].formula.as_deref(), Some("D1+C1"));
    assert_eq!(sheet[0][1].formula.as_deref(), Some("E1*2"));
}

#[test]
fn replace_in_every_cell_command() {
    let mut sheet = new_sheet(1, 2);
    with_formula(&mut sheet, 0, 0, "C1+C1");
    with_formula(&mut sheet, 0, 1, "C1*2");
    let mut st = EditorState::new();
    assert!(matches!(execute_command(":%s/C1/D1/g", &mut st, &mut sheet, 1, 2), Ok(CommandEffect::Done)));
    assert_eq!(sheet[0][0].formula.as_deref(), Some("D1+D1"));
    assert_eq!(sheet[0][1].formula.as_deref(), Some("D1*2"));
    assert_eq!(st.status_message, "Replaced 2 occurrences");
    assert_eq!(
        execute_command(":%s/Q/R/g", &mut st, &mut sheet, 1, 2).err(),
        Some("Pattern not found: Q".to_string())
    );
}

#[test]
fn two_index_batch() {
    let mut sheet = new_sheet(5, 5);
    let mut st = EditorState::new();
    assert!(matches!(
        execute_command(":i,j in 1..2,1..2: Ci,j = Ai,j + Bi,j", &mut st, &mut sheet, 5, 5),
        Ok(CommandEffect::Done)
    ));
    assert_eq!(sheet[0][2].formula.as_deref(), Some("A1,1 + B1,1"));
    assert_eq!(sheet[0][3].formula.as_deref(), Some("A1,2 + B1,2"));
    assert_eq!(sheet[1][2].formula.as_deref(), Some("A2,1 + B2,1"));
    assert_eq!(sheet[1][3].formula.as_deref(), Some("A2,2 + B2,2"));
    assert_eq!(sheet[2][2].formula, None);
    assert_eq!(sheet[0][4].formula, None);
    // Rows and columns past the sheet are left out.
    execute_batch_formula("i,j in 4..9,3..9: Ei,j = j*i", &mut sheet, 5, 5).unwrap();
    assert_eq!(sheet[3][4].formula.as_deref(), Some("3*4"));
    assert_eq!(sheet[4][4].formula.as_deref(), Some("3*5"));
    assert_eq!(
        execute_batch_formula("i,j in 1..2,x..2: Ai,j = 1", &mut sheet, 5, 5),
        Err("Invalid batch formula syntax. Use format: i in 1..10: Ai = Bi + 1".to_string())
    );
    assert_eq!(
        execute_batch_formula("i,j in 1..2,\u{0663}..2: Ai,j = 1", &mut sheet, 5, 5),
        Err("Invalid column range start".to_string())
    );
    // A batch that writes no cell is refused.
    assert_eq!(
        execute_batch_formula("i,j in 1..2,3..1: Ai,j = 1", &mut sheet, 5, 5),
        Err("Invalid batch formula syntax. Use format: i in 1..10: Ai = Bi + 1".to_string())
    );
    assert!(command_would_abort(":i,j in 0..2,1..2: Ai,j = 1", 5));
    assert!(!command_would_abort(":i,j in 0..2,3..1: Ai,j = 1", 5));
}

#[test]
fn backward_after_forward_returns() {
    let mut sheet = new_sheet(3, 3);
    sheet[0][1].val = 5;
    sheet[1][0].val = 5;
    sheet[2][2].val = 5;
    let mut st = EditorState::new();
    search_sheet(&mut st, &sheet, "5", true, 3, 3).unwrap();
    for _ in 0..4 {
        let here = (st.cursor_row, st.cursor_col, st.current_match);
        assert!(find_next_match(&mut st, true));
        assert!(find_next_match(&mut st, false));
        assert_eq!((st.cursor_row, st.cursor_col, st.current_match), here);
        assert!(find_next_match(&mut st, true));
    }
}

#[test]
fn cell_reference_in_view_keeps_offsets() {
    let mut sheet = new_sheet(40, 40);
    let mut st = EditorState::new();
    assert!(matches!(execute_command(":AD30", &mut st, &mut sheet, 40, 40), Ok(CommandEffect::Done)));
    assert_eq!((st.row_offset, st.col_offset), (24, 24));
    assert!(matches!(execute_command(":ab35", &mut st, &mut sheet, 40, 40), Ok(CommandEffect::Done)));
    assert_eq!((st.cursor_row, st.cursor_col), (34, 27));
    assert_eq!((st.row_offset, st.col_offset), (24, 24));
}

#[test]
fn edit_without_filename() {
    let mut sheet = new_sheet(3, 3);
    let mut st = EditorState::new();
    assert_eq!(
        execute_command(":e", &mut st, &mut sheet, 3, 3).err(),
        Some("No filename specified".to_string())
    );
    assert_eq!((st.cursor_row, st.cursor_col), (0, 0));
}
