use spreadsheet::columns::{column_name_chars, get_col_index, get_col_index_table};
use spreadsheet::sheet::cell;
use spreadsheet::sheet::eval::aggregate_values;
use spreadsheet::stats::{max_value, min_value, stdev, sum_values};
use spreadsheet::text::{i32_to_chars, parse_i32, replace_all, replace_first, split_at_char, trim};
use spreadsheet::vim::files::{
    clear_sheet, custom_sheet_text, delimited_sheet_text, guess_format, load_custom, load_delimited, sheet_text,
    FileFormat, LoadError,
};

fn chars(s: &str) -> Vec<char> {
    s.chars().collect()
}

fn text(v: Vec<char>) -> String {
    v.into_iter().collect()
}

fn new_sheet(r: usize, c: usize) -> Vec<Vec<cell>> {
    (0..r).map(|_| (0..c).map(|_| cell { val: 0, formula: None, err: 0 }).collect()).collect()
}

fn lines_of(s: &str) -> Vec<String> {
    s.lines().map(|l| l.to_string()).collect()
}

#[test]
fn standard_deviation_rounds_to_nearest() {
    assert_eq!(stdev(&vec![]), 0);
    assert_eq!(stdev(&vec![5]), 0);
    assert_eq!(stdev(&vec![10, 13]), 2);
    assert_eq!(stdev(&vec![2, 4, 4, 4, 5, 5, 7, 9]), 2);
    assert_eq!(stdev(&vec![1, 13]), 6);
    // sqrt(2.25) = 1.5 rounds up; sqrt(2) = 1.41 rounds down.
    assert_eq!(stdev(&vec![0, 3]), 2);
    assert_eq!(stdev(&vec![0, 2, 0, 2]), 1);
    // Rounded, the deviation would not fit: it saturates.
    assert_eq!(stdev(&vec![i32::MIN, i32::MAX]), i32::MAX);
}

#[test]
fn aggregates() {
    assert_eq!(sum_values(&vec![1, 2, 3]), 6);
    assert_eq!(sum_values(&vec![]), 0);
    assert_eq!(min_value(&vec![4, -2, 9]), -2);
    assert_eq!(max_value(&vec![4, -2, 9]), 9);
    assert_eq!(min_value(&vec![]), i32::MAX);
    assert_eq!(max_value(&vec![]), i32::MIN);
}

#[test]
fn column_indices() {
    assert_eq!(get_col_index(&chars("A")), 0);
    assert_eq!(get_col_index(&chars("Z")), 25);
    assert_eq!(get_col_index(&chars("AA")), 26);
    assert_eq!(get_col_index(&chars("AAA")), 702);
    assert_eq!(get_col_index(&chars("a")), -1);
    assert_eq!(get_col_index(&chars("")), -1);
    // The lookup table agrees with the calculation.
    assert_eq!(get_col_index_table(&chars("AAA")), 702);
    assert_eq!(get_col_index_table(&chars("ZZZ")), 18277);
    assert_eq!(get_col_index_table(&chars("ZZ")), 701);
    assert_eq!(get_col_index_table(&chars("AAAA")), 18278);
    assert_eq!(text(column_name_chars(28)), "AC");
}

#[test]
fn number_text() {
    assert_eq!(parse_i32(&chars("42")), Some(42));
    assert_eq!(parse_i32(&chars("-7")), Some(-7));
    assert_eq!(parse_i32(&chars("+7")), Some(7));
    assert_eq!(parse_i32(&chars("2147483647")), Some(i32::MAX));
    assert_eq!(parse_i32(&chars("2147483648")), None);
    assert_eq!(parse_i32(&chars("-2147483648")), Some(i32::MIN));
    assert_eq!(parse_i32(&chars("")), None);
    assert_eq!(parse_i32(&chars("-")), None);
    assert_eq!(parse_i32(&chars(" 1")), None);
    assert_eq!(parse_i32(&chars("\u{0663}")), None);
    assert_eq!(text(i32_to_chars(-305)), "-305");
    assert_eq!(text(i32_to_chars(i32::MIN)), "-2147483648");
    assert_eq!(text(trim(&chars(" \t x y \n"))), "x y");
}

#[test]
fn text_replacement_and_splitting() {
    assert_eq!(text(replace_all(&chars("a-b-c"), &chars("-"), &chars("+"))), "a+b+c");
    assert_eq!(text(replace_all(&chars("ab"), &chars(""), &chars("x"))), "xaxbx");
    assert_eq!(text(replace_all(&chars("aaa"), &chars("aa"), &chars("b"))), "ba");
    assert_eq!(text(replace_first(&chars("a-b-c"), &chars("-"), &chars("+"))), "a+b-c");
    let parts: Vec<String> = split_at_char(&chars("a,,b,"), ',').into_iter().map(text).collect();
    assert_eq!(parts, vec!["a", "", "b", ""]);
}

#[test]
fn sheet_as_separated_values() {
    let mut sheet = new_sheet(2, 2);
    sheet[0][0].val = 1;
    sheet[0][1].val = -2;
    sheet[1][0].val = 3;
    sheet[1][1].err = 1;
    assert_eq!(text(delimited_sheet_text(&sheet, 2, 2, ',')), "1,-2\n3,ERR\n");
    assert_eq!(text(sheet_text(&sheet, 2, 2, FileFormat::Tsv)), "1\t-2\n3\tERR\n");
}

#[test]
fn sheet_in_formula_format() {
    let mut sheet = new_sheet(2, 2);
    sheet[0][0].val = 4;
    sheet[1][1].formula = Some("A1*2".to_string());
    sheet[1][1].val = 8;
    assert_eq!(text(custom_sheet_text(&sheet, 2, 2)), "ROWS:2 COLS:2\nA1=4\nB2=A1*2\n");
}

#[test]
fn separated_values_round_trip() {
    let mut sheet = new_sheet(2, 3);
    sheet[0][0].val = 5;
    sheet[0][2].val = -1;
    sheet[1][1].err = 1;
    sheet[1][2].formula = Some("A1+1".to_string());
    sheet[1][2].val = 6;
    let saved = text(delimited_sheet_text(&sheet, 2, 3, ','));
    let mut back = new_sheet(2, 3);
    load_delimited(&mut back, &lines_of(&saved), 2, 3, ',');
    for i in 0..2 {
        for j in 0..3 {
            assert_eq!(back[i][j].err, sheet[i][j].err);
            if sheet[i][j].err == 0 {
                assert_eq!(back[i][j].val, sheet[i][j].val);
                assert_eq!(back[i][j].formula, None);
            }
        }
    }
}

#[test]
fn loading_separated_values_ignores_extra() {
    let mut sheet = new_sheet(2, 2);
    let lines = lines_of("1\t2\t3\nx\tERR\n9\t9");
    load_delimited(&mut sheet, &lines, 2, 2, '\t');
    assert_eq!((sheet[0][0].val, sheet[0][1].val), (1, 2));
    assert_eq!((sheet[1][0].val, sheet[1][0].err), (0, 0));
    assert_eq!(sheet[1][1].err, 1);
}

#[test]
fn loading_formula_format() {
    let mut sheet = new_sheet(3, 3);
    let lines = lines_of("ROWS:3 COLS:3\nA1=4\nB2=A1*2\nZ9=1\nnonsense\nc3=x=y");
    assert_eq!(load_custom(&mut sheet, &lines, 3, 3), Ok(()));
    assert_eq!(sheet[0][0].val, 4);
    assert_eq!(sheet[0][0].formula, None);
    assert_eq!(sheet[1][1].formula.as_deref(), Some("A1*2"));
    assert_eq!(sheet[2][2].formula.as_deref(), Some("x=y"));
    let mut other = new_sheet(1, 1);
    other[0][0].val = 3;
    assert_eq!(load_custom(&mut other, &lines_of("A1=4"), 1, 1), Err(LoadError::MissingHeader));
    assert_eq!(other[0][0].val, 3);
}

#[test]
fn formula_format_round_trip() {
    let mut sheet = new_sheet(2, 2);
    sheet[0][1].val = -9;
    sheet[1][0].formula = Some("SUM(A1:B1)".to_string());
    // A formula that is a plain number comes back as a value.
    sheet[1][1].formula = Some("12".to_string());
    let saved = text(custom_sheet_text(&sheet, 2, 2));
    let mut back = new_sheet(2, 2);
    back[1][1].val = 77;
    clear_sheet(&mut back, 2, 2);
    assert_eq!(back[1][1].val, 0);
    load_custom(&mut back, &lines_of(&saved), 2, 2).unwrap();
    assert_eq!(back[0][1].val, -9);
    assert_eq!(back[1][0].formula.as_deref(), Some("SUM(A1:B1)"));
    assert_eq!(back[0][0].val, 0);
    assert_eq!(back[1][1].val, 12);
    assert_eq!(back[1][1].formula, None);
}

#[test]
fn guessing_a_format() {
    assert_eq!(guess_format("1\t2"), Some(FileFormat::Tsv));
    assert_eq!(guess_format("1,2"), Some(FileFormat::Csv));
    assert_eq!(guess_format("ROWS:3 COLS:3"), Some(FileFormat::Custom));
    assert_eq!(guess_format("hello"), None);
}

#[test]
fn decimal_text_round_trip() {
    for v in [0, 1, -1, 9, 10, -10, 12345, i32::MAX, i32::MIN, -2147483647] {
        assert_eq!(parse_i32(&i32_to_chars(v)), Some(v));
    }
}

#[test]
fn column_name_index_round_trip() {
    for c in [0usize, 1, 25, 26, 27, 51, 52, 701, 702, 703, 18277] {
        assert_eq!(get_col_index(&column_name_chars(c)), c as i32);
    }
    for name in ["A", "Q", "AZ", "BA", "ZZ", "AAA", "XFD"] {
        let i = get_col_index(&chars(name));
        assert_eq!(text(column_name_chars(i as usize)), name);
    }
}

#[test]
fn average_lies_between_min_and_max() {
    let vs = vec![4, -2, 9];
    let min = aggregate_values(&chars("MIN"), &vs);
    let avg = aggregate_values(&chars("AVG"), &vs);
    let average = aggregate_values(&chars("AVERAGE"), &vs);
    let max = aggregate_values(&chars("MAX"), &vs);
    assert_eq!((min, avg, average, max), (-2, 3, 3, 9));
    assert!(min <= avg && avg <= max);
    assert_eq!(aggregate_values(&chars("SUM"), &vs), 11);
    assert_eq!(aggregate_values(&chars("STDDEV"), &vec![2, 4, 4, 4, 5, 5, 7, 9]), 2);
    assert_eq!(aggregate_values(&chars("AVG"), &vec![-7, -2]), -4);
}

#[test]
fn column_names_in_order() {
    let mut prev = text(column_name_chars(0));
    for c in 1..1000usize {
        let name = text(column_name_chars(c));
        assert!(prev.len() < name.len() || (prev.len() == name.len() && prev < name));
        prev = name;
    }
}
