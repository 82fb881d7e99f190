use spreadsheet::sheet::cell;
use spreadsheet::sheet::display::{render_columns, render_sheet};
use spreadsheet::sheet::session::{process_line, LineReport, Session, Status};

fn new_sheet(r: usize, c: usize) -> Vec<Vec<cell>> {
    (0..r).map(|_| (0..c).map(|_| cell { val: 0, formula: None, err: 0 }).collect()).collect()
}

fn run(line: &str, r: i32, c: i32, sheet: &mut Vec<Vec<cell>>, session: &mut Session) -> LineReport {
    match process_line(line, r, c, sheet, session) {
        Ok(report) => report,
        Err(a) => panic!("line {:?} stopped the engine: {:?}", line, a),
    }
}

fn text(v: Vec<char>) -> String {
    v.into_iter().collect()
}

#[test]
fn assignment_and_reference() {
    let mut sheet = new_sheet(3, 3);
    let mut ses = Session::new();
    let rep = run("A1=5", 3, 3, &mut sheet, &mut ses);
    assert_eq!(rep.status, Status::Fine);
    assert!(!rep.quit);
    assert_eq!(sheet[0][0].val, 5);
    assert_eq!(sheet[0][0].formula.as_deref(), Some("5"));
    run("B1=A1+3", 3, 3, &mut sheet, &mut ses);
    assert_eq!(sheet[0][1].val, 8);
    run("A1=10", 3, 3, &mut sheet, &mut ses);
    assert_eq!(sheet[0][0].val, 10);
    assert_eq!(sheet[0][1].val, 13);
}

#[test]
fn arithmetic_operators() {
    let mut sheet = new_sheet(2, 4);
    let mut ses = Session::new();
    run("A1=7", 2, 4, &mut sheet, &mut ses);
    run("B1=A1-10", 2, 4, &mut sheet, &mut ses);
    run("C1=A1*6", 2, 4, &mut sheet, &mut ses);
    run("D1=A1/2", 2, 4, &mut sheet, &mut ses);
    run("A2=B1/2", 2, 4, &mut sheet, &mut ses);
    assert_eq!(sheet[0][1].val, -3);
    assert_eq!(sheet[0][2].val, 42);
    assert_eq!(sheet[0][3].val, 3);
    // Division truncates toward zero.
    assert_eq!(sheet[1][0].val, -1);
}

#[test]
fn cycle_keeps_old_formula() {
    let mut sheet = new_sheet(3, 3);
    let mut ses = Session::new();
    run("A1=10", 3, 3, &mut sheet, &mut ses);
    run("B1=A1+3", 3, 3, &mut sheet, &mut ses);
    let rep = run("A1=B1+1", 3, 3, &mut sheet, &mut ses);
    assert_eq!(rep.status, Status::CycleDetected);
    assert_eq!(sheet[0][0].formula.as_deref(), Some("10"));
    assert_eq!(sheet[0][0].val, 10);
    assert_eq!(sheet[0][1].val, 13);
}

#[test]
fn self_reference_is_a_cycle_and_clears_new_cell() {
    let mut sheet = new_sheet(2, 2);
    let mut ses = Session::new();
    let rep = run("A1=A1+1", 2, 2, &mut sheet, &mut ses);
    assert_eq!(rep.status, Status::CycleDetected);
    assert_eq!(sheet[0][0].formula, None);
}

#[test]
fn range_functions() {
    let mut sheet = new_sheet(3, 3);
    let mut ses = Session::new();
    run("A1=10", 3, 3, &mut sheet, &mut ses);
    run("B1=13", 3, 3, &mut sheet, &mut ses);
    run("C1=SUM(A1:B1)", 3, 3, &mut sheet, &mut ses);
    run("C2=MAX(A1:B1)", 3, 3, &mut sheet, &mut ses);
    run("C3=MIN(A1:B1)", 3, 3, &mut sheet, &mut ses);
    run("A2=AVG(A1:B1)", 3, 3, &mut sheet, &mut ses);
    let rep = run("A3=STDEV(A1:B1)", 3, 3, &mut sheet, &mut ses);
    assert_eq!(rep.status, Status::Fine);
    assert_eq!(sheet[0][2].val, 23);
    assert_eq!(sheet[1][2].val, 13);
    assert_eq!(sheet[2][2].val, 10);
    assert_eq!(sheet[1][0].val, 11);
    assert_eq!(sheet[2][0].val, 2);
}

#[test]
fn division_by_zero_marks_error() {
    let mut sheet = new_sheet(3, 3);
    let mut ses = Session::new();
    run("B2=1/0", 3, 3, &mut sheet, &mut ses);
    assert_eq!(sheet[1][1].err, 1);
    run("B3=B2+1", 3, 3, &mut sheet, &mut ses);
    assert_eq!(sheet[2][1].err, 1);
    let shown = text(render_sheet(3, 3, &sheet, 0, 0, true));
    assert!(shown.contains("2\t0\tERR\t0\t\n"));
}

#[test]
fn unrecognized_commands() {
    let mut sheet = new_sheet(2, 2);
    let mut ses = Session::new();
    assert_eq!(run("hello", 2, 2, &mut sheet, &mut ses).status, Status::UnrecognizedCmd);
    assert_eq!(run("A1=", 2, 2, &mut sheet, &mut ses).status, Status::UnrecognizedCmd);
    assert_eq!(run("1=2", 2, 2, &mut sheet, &mut ses).status, Status::UnrecognizedCmd);
}

#[test]
fn inverted_range_is_refused_and_clears_cell() {
    let mut sheet = new_sheet(2, 2);
    let mut ses = Session::new();
    run("A1=5", 2, 2, &mut sheet, &mut ses);
    let rep = run("A1=SUM(B1:A1)", 2, 2, &mut sheet, &mut ses);
    assert_eq!(rep.status, Status::InvalidRange);
    assert_eq!(sheet[0][0].formula, None);
    assert_eq!(sheet[0][0].val, 5);
}

#[test]
fn cell_outside_sheet_is_invalid_range() {
    let mut sheet = new_sheet(2, 2);
    let mut ses = Session::new();
    assert_eq!(run("A9=1", 2, 2, &mut sheet, &mut ses).status, Status::InvalidRange);
}

#[test]
fn quit_line() {
    let mut sheet = new_sheet(2, 2);
    let mut ses = Session::new();
    let rep = run("q", 2, 2, &mut sheet, &mut ses);
    assert!(rep.quit);
    assert_eq!(rep.status, Status::Fine);
}

#[test]
fn scrolling_and_scroll_to() {
    let mut sheet = new_sheet(30, 30);
    let mut ses = Session::new();
    run("s", 30, 30, &mut sheet, &mut ses);
    assert_eq!(ses.row_offset, 10);
    run("d", 30, 30, &mut sheet, &mut ses);
    assert_eq!(ses.col_offset, 10);
    run("s", 30, 30, &mut sheet, &mut ses);
    run("s", 30, 30, &mut sheet, &mut ses);
    assert_eq!(ses.row_offset, 20);
    run("w", 30, 30, &mut sheet, &mut ses);
    run("a", 30, 30, &mut sheet, &mut ses);
    assert_eq!(ses.row_offset, 10);
    assert_eq!(ses.col_offset, 0);
    run("scroll_to B5", 30, 30, &mut sheet, &mut ses);
    assert_eq!(ses.row_offset, 4);
    assert_eq!(ses.col_offset, 1);
    // Out of the sheet: nothing moves.
    run("scroll_to B99", 30, 30, &mut sheet, &mut ses);
    assert_eq!(ses.row_offset, 4);
}

#[test]
fn output_switch() {
    let mut sheet = new_sheet(2, 2);
    let mut ses = Session::new();
    run("disable_output", 2, 2, &mut sheet, &mut ses);
    assert_eq!(ses.output_enabled, 0);
    run("enable_output", 2, 2, &mut sheet, &mut ses);
    assert_eq!(ses.output_enabled, 1);
}

#[test]
fn sleeps_are_reported_and_remembered() {
    let mut sheet = new_sheet(2, 3);
    let mut ses = Session::new();
    let rep = run("A1=SLEEP(2)", 2, 3, &mut sheet, &mut ses);
    assert_eq!(rep.sleeps, vec![2]);
    assert_eq!(sheet[0][0].val, 2);
    let rep = run("B1=SLEEP(A1)", 2, 3, &mut sheet, &mut ses);
    assert_eq!(rep.sleeps, vec![2, 2]);
    assert_eq!(sheet[0][1].val, 2);
    // The same reference sleep with the same value does not sleep again.
    let rep = run("C1=1", 2, 3, &mut sheet, &mut ses);
    assert_eq!(rep.sleeps, vec![2]);
}

#[test]
fn view_text_with_nul_labels() {
    let sheet = new_sheet(2, 2);
    let shown = text(render_sheet(2, 2, &sheet, 0, 0, true));
    assert_eq!(shown, "  \tA\0\tB\0\t\n\n\n1\t0\t0\t\n2\t0\t0\t\n");
}

#[test]
fn view_text_plain_labels_and_offsets() {
    let mut sheet = new_sheet(12, 30);
    sheet[11][27].val = 9;
    let shown = text(render_sheet(12, 30, &sheet, 11, 27, false));
    assert_eq!(shown, "  \tAB\tAC\tAD\t\n\n\n12\t9\t0\t0\t\n");
    assert_eq!(text(render_columns(3, 0, false)), "\tA\tB\tC\t\n");
}

#[test]
fn average_and_stddev_names() {
    let mut sheet = new_sheet(2, 3);
    let mut ses = Session::new();
    run("A1=3", 2, 3, &mut sheet, &mut ses);
    run("A2=5", 2, 3, &mut sheet, &mut ses);
    run("B1=AVERAGE(A1:A2)", 2, 3, &mut sheet, &mut ses);
    let rep = run("B2=STDDEV(A1:A2)", 2, 3, &mut sheet, &mut ses);
    assert_eq!(rep.status, Status::Fine);
    assert_eq!((sheet[0][1].val, sheet[0][1].err), (4, 0));
    assert_eq!((sheet[1][1].val, sheet[1][1].err), (1, 0));
}

#[test]
fn range_functions_over_range_values() {
    let mut sheet = new_sheet(3, 4);
    let mut ses = Session::new();
    run("A1=1", 3, 4, &mut sheet, &mut ses);
    run("B1=2", 3, 4, &mut sheet, &mut ses);
    run("A2=3", 3, 4, &mut sheet, &mut ses);
    run("B2=-4", 3, 4, &mut sheet, &mut ses);
    run("C1=SUM(A1:B2)", 3, 4, &mut sheet, &mut ses);
    run("C2=MIN(A1:B2)", 3, 4, &mut sheet, &mut ses);
    run("C3=MAX(A1:B2)", 3, 4, &mut sheet, &mut ses);
    run("D1=AVG(A1:B2)", 3, 4, &mut sheet, &mut ses);
    assert_eq!((sheet[0][2].val, sheet[1][2].val, sheet[2][2].val, sheet[0][3].val), (2, -4, 3, 0));
    assert!(sheet[1][2].val <= sheet[0][3].val && sheet[0][3].val <= sheet[2][2].val);
}

#[test]
fn formula_reads_only_its_references() {
    let mut sheet = new_sheet(2, 4);
    let mut ses = Session::new();
    run("A1=4", 2, 4, &mut sheet, &mut ses);
    run("B1=5", 2, 4, &mut sheet, &mut ses);
    run("C1=A1*B1", 2, 4, &mut sheet, &mut ses);
    assert_eq!(sheet[0][2].val, 20);
    run("D2=99", 2, 4, &mut sheet, &mut ses);
    run("A2=7", 2, 4, &mut sheet, &mut ses);
    assert_eq!(sheet[0][2].val, 20);
    assert_eq!(sheet[0][2].err, 0);
}
