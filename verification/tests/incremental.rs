use spreadsheet::incremental::dag::{
    add_dependency, clear_dependencies, is_reachable, new_graph, remove_dependency, remove_from_list, DAGNode, Node,
};
use spreadsheet::incremental::eval::{
    check_invalid_range, get_dependencies, is_valid_formula, parse_cell_ref, parse_range,
};
use spreadsheet::incremental::session::{process_line, Session};
use spreadsheet::sheet::session::{LineReport, Status};
use spreadsheet::sheet::{cell, CellRef};

fn new_sheet(r: usize, c: usize) -> Vec<Vec<cell>> {
    (0..r).map(|_| (0..c).map(|_| cell { val: 0, formula: None, err: 0 }).collect()).collect()
}

fn run(line: &str, r: i32, c: i32, sheet: &mut Vec<Vec<cell>>, session: &mut Session) -> LineReport {
    match process_line(line, r, c, sheet, session) {
        Ok(report) => report,
        Err(a) => panic!("line {:?} stopped the engine: {:?}", line, a),
    }
}

fn chars(s: &str) -> Vec<char> {
    s.chars().collect()
}

fn node<'a>(g: &'a Vec<Option<Box<DAGNode>>>, k: usize) -> &'a DAGNode {
    g[k].as_ref().expect("every cell has a node")
}

#[test]
fn incremental_assignment_and_propagation() {
    let mut sheet = new_sheet(3, 3);
    let mut ses = Session::new(3, 3);
    assert_eq!(run("A1=5", 3, 3, &mut sheet, &mut ses).status, Status::Fine);
    assert_eq!(sheet[0][0].val, 5);
    run("B1=A1+3", 3, 3, &mut sheet, &mut ses);
    assert_eq!(sheet[0][1].val, 8);
    run("A1=10", 3, 3, &mut sheet, &mut ses);
    assert_eq!(sheet[0][1].val, 13);
    // The graph records the reference of B1 to A1.
    assert_eq!(node(&ses.graph, 0).dependents, vec![(0, 1)]);
    assert_eq!(node(&ses.graph, 1).dependencies, vec![(0, 0)]);
    assert_eq!(node(&ses.graph, 1).in_degree, 1);
}

#[test]
fn incremental_cycle_restores_formula() {
    let mut sheet = new_sheet(3, 3);
    let mut ses = Session::new(3, 3);
    run("A1=10", 3, 3, &mut sheet, &mut ses);
    run("B1=A1+3", 3, 3, &mut sheet, &mut ses);
    let rep = run("A1=B1+1", 3, 3, &mut sheet, &mut ses);
    assert_eq!(rep.status, Status::CycleDetected);
    assert_eq!(sheet[0][0].formula.as_deref(), Some("10"));
    assert_eq!(sheet[0][0].val, 10);
    assert_eq!(sheet[0][1].val, 13);
}

#[test]
fn incremental_range_functions() {
    let mut sheet = new_sheet(3, 3);
    let mut ses = Session::new(3, 3);
    run("A1=10", 3, 3, &mut sheet, &mut ses);
    run("B1=13", 3, 3, &mut sheet, &mut ses);
    run("A2=SUM(A1:B1)", 3, 3, &mut sheet, &mut ses);
    run("B2=AVG(A1:B1)", 3, 3, &mut sheet, &mut ses);
    run("C2=MIN(A1:B2)", 3, 3, &mut sheet, &mut ses);
    run("A3=MAX(A1:B2)", 3, 3, &mut sheet, &mut ses);
    run("B3=STDEV(A1:B1)", 3, 3, &mut sheet, &mut ses);
    assert_eq!(sheet[1][0].val, 23);
    assert_eq!(sheet[1][1].val, 11);
    assert_eq!(sheet[1][2].val, 10);
    assert_eq!(sheet[2][0].val, 23);
    assert_eq!(sheet[2][1].val, 2);
    // A change of A1 reaches every cell that reads it.
    run("A1=1", 3, 3, &mut sheet, &mut ses);
    assert_eq!(sheet[1][0].val, 14);
    assert_eq!(sheet[1][1].val, 7);
    assert_eq!(sheet[1][2].val, 1);
    assert_eq!(sheet[2][0].val, 14);
}

#[test]
fn incremental_range_holding_the_cell_is_invalid() {
    let mut sheet = new_sheet(3, 3);
    let mut ses = Session::new(3, 3);
    let rep = run("C1=SUM(A1:C1)", 3, 3, &mut sheet, &mut ses);
    assert_eq!(rep.status, Status::InvalidRange);
    assert_eq!(sheet[0][2].formula, None);
    assert_eq!(run("C1=SUM(B1:A1)", 3, 3, &mut sheet, &mut ses).status, Status::InvalidRange);
}

#[test]
fn incremental_malformed_formula_is_unrecognized() {
    let mut sheet = new_sheet(2, 2);
    let mut ses = Session::new(2, 2);
    assert_eq!(run("A1=foo", 2, 2, &mut sheet, &mut ses).status, Status::UnrecognizedCmd);
    assert_eq!(sheet[0][0].formula, None);
    assert_eq!(run("A1=A1+", 2, 2, &mut sheet, &mut ses).status, Status::UnrecognizedCmd);
}

#[test]
fn incremental_unicode_digit_matches_grammar() {
    // The grammar's digit class takes any decimal digit; evaluation then
    // fails to read it as a number.
    let mut sheet = new_sheet(2, 2);
    let mut ses = Session::new(2, 2);
    let rep = run("A1=2+\u{0663}", 2, 2, &mut sheet, &mut ses);
    assert_eq!(rep.status, Status::Fine);
    assert_eq!(sheet[0][0].formula.as_deref(), Some("2+\u{0663}"));
    assert_eq!(sheet[0][0].err, 1);
    assert!(is_valid_formula(&chars("7*\u{0663}")));
    assert!(!is_valid_formula(&chars("7*x")));
}

#[test]
fn incremental_sleep_is_reported() {
    let mut sheet = new_sheet(2, 2);
    let mut ses = Session::new(2, 2);
    let rep = run("A1=SLEEP(1)", 2, 2, &mut sheet, &mut ses);
    assert_eq!(rep.sleeps, vec![1]);
    assert_eq!(sheet[0][0].val, 1);
}

#[test]
fn incremental_quit() {
    let mut sheet = new_sheet(2, 2);
    let mut ses = Session::new(2, 2);
    assert!(run("q", 2, 2, &mut sheet, &mut ses).quit);
}

#[test]
fn graph_add_remove_and_reach() {
    let mut g = new_graph(2, 2);
    assert_eq!(g.len(), 4);
    let mut cycle = false;
    // B1 reads A1.
    add_dependency(&mut g, 0, 1, 0, 0, 2, 2, &mut cycle);
    assert!(!cycle);
    assert_eq!(node(&g, 0).dependents, vec![(0, 1)]);
    assert_eq!(node(&g, 1).dependencies, vec![(0, 0)]);
    assert_eq!(node(&g, 1).in_degree, 1);
    // A2 reads B1.
    add_dependency(&mut g, 1, 0, 0, 1, 2, 2, &mut cycle);
    assert!(is_reachable(&g, 2, 2, 0, 2));
    assert!(!is_reachable(&g, 2, 2, 2, 0));
    // A1 reading A2 would close a cycle: refused.
    add_dependency(&mut g, 0, 0, 1, 0, 2, 2, &mut cycle);
    assert!(cycle);
    assert!(node(&g, 0).dependencies.is_empty());
    // A cell reading itself is a cycle too.
    let mut cycle2 = false;
    add_dependency(&mut g, 1, 1, 1, 1, 2, 2, &mut cycle2);
    assert!(cycle2);
    // Outside the sheet: ignored.
    let mut cycle3 = false;
    add_dependency(&mut g, 5, 0, 0, 0, 2, 2, &mut cycle3);
    assert!(!cycle3);
    assert_eq!(node(&g, 0).dependents, vec![(0, 1)]);
    remove_dependency(&mut g, 0, 1, 0, 0, 2, 2);
    assert!(node(&g, 0).dependents.is_empty());
    assert!(node(&g, 1).dependencies.is_empty());
    assert_eq!(node(&g, 1).in_degree, 0);
    assert!(!is_reachable(&g, 2, 2, 0, 2));
}

#[test]
fn graph_clear_dependencies() {
    let mut g = new_graph(2, 2);
    let mut cycle = false;
    // B2 reads A1 and B1.
    add_dependency(&mut g, 1, 1, 0, 0, 2, 2, &mut cycle);
    add_dependency(&mut g, 1, 1, 0, 1, 2, 2, &mut cycle);
    assert_eq!(node(&g, 3).in_degree, 2);
    clear_dependencies(&mut g, 1, 1, 2, 2);
    assert!(node(&g, 3).dependencies.is_empty());
    assert_eq!(node(&g, 3).in_degree, 0);
    assert!(node(&g, 0).dependents.is_empty());
    assert!(node(&g, 1).dependents.is_empty());
}

#[test]
fn list_removal_unlinks_first_match() {
    let a1 = CellRef { row: 0, col: 0 };
    let b1 = CellRef { row: 0, col: 1 };
    let list = Some(Box::new(Node {
        cell: a1,
        next: Some(Box::new(Node { cell: b1, next: Some(Box::new(Node { cell: a1, next: None })) })),
    }));
    let rest = remove_from_list(list, a1);
    let first = rest.expect("two nodes remain");
    assert_eq!(first.cell, b1);
    let second = first.next.expect("one more node");
    assert_eq!(second.cell, a1);
    assert!(second.next.is_none());
    assert!(remove_from_list(None, a1).is_none());
}

#[test]
fn incremental_parsers() {
    assert_eq!(parse_cell_ref(&chars("B3")), Some((2, 1)));
    assert_eq!(parse_cell_ref(&chars("AA10")), Some((9, 26)));
    assert_eq!(parse_cell_ref(&chars("b3")), None);
    assert_eq!(parse_cell_ref(&chars("B")), None);
    assert_eq!(parse_range(&chars("A1:B2")), Some((0, 1, 0, 1)));
    assert_eq!(parse_range(&chars("B2:A1")), None);
    assert_eq!(check_invalid_range(&chars("SUM(A1:B2)"), 0, 0), Ok(1));
    assert_eq!(check_invalid_range(&chars("SUM(A1:B2)"), 2, 0), Ok(0));
    assert_eq!(check_invalid_range(&chars("A1+B2"), 0, 0), Ok(0));
    let deps = get_dependencies(&chars("A1+B2"), 3, 3).expect("no abort");
    assert_eq!(deps, vec![CellRef { row: 0, col: 0 }, CellRef { row: 1, col: 1 }]);
    let deps = get_dependencies(&chars("SUM(A1:B2)"), 3, 3).expect("no abort");
    assert_eq!(deps.len(), 4);
    let deps = get_dependencies(&chars("SLEEP(C9)"), 3, 3).expect("no abort");
    assert!(deps.is_empty());
}

#[test]
fn incremental_scrolling_stays_in_sheet() {
    let mut sheet = new_sheet(25, 12);
    let mut ses = Session::new(25, 12);
    run("s", 25, 12, &mut sheet, &mut ses);
    run("s", 25, 12, &mut sheet, &mut ses);
    assert_eq!(ses.row_offset, 20);
    run("s", 25, 12, &mut sheet, &mut ses);
    assert_eq!(ses.row_offset, 20);
    run("d", 25, 12, &mut sheet, &mut ses);
    assert_eq!(ses.col_offset, 10);
    run("d", 25, 12, &mut sheet, &mut ses);
    assert_eq!(ses.col_offset, 10);
    run("scroll_to L25", 25, 12, &mut sheet, &mut ses);
    assert_eq!((ses.row_offset, ses.col_offset), (24, 11));
    run("scroll_to M1", 25, 12, &mut sheet, &mut ses);
    assert_eq!((ses.row_offset, ses.col_offset), (24, 11));
}

#[test]
fn removing_a_reference_undoes_adding_it() {
    let mut g = new_graph(2, 3);
    let mut cycle = false;
    add_dependency(&mut g, 0, 2, 1, 1, 2, 3, &mut cycle);
    let before: Vec<(i32, Vec<(i32, i32)>, Vec<(i32, i32)>)> =
        g.iter().map(|n| { let n = n.as_ref().unwrap(); (n.in_degree, n.dependents.clone(), n.dependencies.clone()) }).collect();
    add_dependency(&mut g, 1, 0, 0, 2, 2, 3, &mut cycle);
    remove_dependency(&mut g, 1, 0, 0, 2, 2, 3);
    let after: Vec<(i32, Vec<(i32, i32)>, Vec<(i32, i32)>)> =
        g.iter().map(|n| { let n = n.as_ref().unwrap(); (n.in_degree, n.dependents.clone(), n.dependencies.clone()) }).collect();
    assert!(!cycle);
    assert_eq!(before, after);
}

#[test]
fn incremental_average_and_stddev_names() {
    let mut sheet = new_sheet(2, 3);
    let mut ses = Session::new(2, 3);
    run("A1=3", 2, 3, &mut sheet, &mut ses);
    run("A2=5", 2, 3, &mut sheet, &mut ses);
    assert_eq!(run("B1=AVERAGE(A1:A2)", 2, 3, &mut sheet, &mut ses).status, Status::Fine);
    assert_eq!(run("B2=STDDEV(A1:A2)", 2, 3, &mut sheet, &mut ses).status, Status::Fine);
    assert_eq!((sheet[0][1].val, sheet[0][1].err), (4, 0));
    assert_eq!((sheet[1][1].val, sheet[1][1].err), (1, 0));
    run("A1=7", 2, 3, &mut sheet, &mut ses);
    assert_eq!(sheet[0][1].val, 6);
}
