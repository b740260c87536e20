use tabular::table::TableError;
use tabular::table_parser::{deduct_table_type, first_line_is_header, parse_table, TableType};

fn s(x: &str) -> String {
    x.to_string()
}

#[test]
fn test_detect_and_parse_csv() {
    let input = "a,b,c\n1,2,3\n4,5,6";
    let kind = deduct_table_type(input);
    assert!(matches!(kind, TableType::CsvTable));
    let table = parse_table(kind, input, true).unwrap();
    assert_eq!(table.row_count(), 2);
    assert_eq!(table.column_count(), 3);
    assert_eq!(table.get_value(0, "a"), Some(&s("1")));
    assert_eq!(table.get_value(0, "b"), Some(&s("2")));
    assert_eq!(table.get_value(0, "c"), Some(&s("3")));
    assert_eq!(table.get_value(1, "a"), Some(&s("4")));
}

#[test]
fn test_detect_and_parse_ascii() {
    let input = "+---+---+\n| a | b |\n+---+---+\n| 1 | 2 |\n+---+---+";
    let kind = deduct_table_type(input);
    assert!(matches!(kind, TableType::AsciiTable));
    let table = parse_table(kind, input, true).unwrap();
    assert_eq!(table.row_count(), 1);
    assert_eq!(table.column_count(), 2);
    assert_eq!(table.get(0), Some(&vec![s("1"), s("2")]));
    assert_eq!(table.get_value(0, "a"), Some(&s("1")));
    assert_eq!(table.get_value(0, "b"), Some(&s("2")));
}

#[test]
fn test_detect_empty_and_unknown_parse() {
    let kind = deduct_table_type("");
    assert!(matches!(kind, TableType::Unknown));
    let r = parse_table(TableType::Unknown, "", false);
    assert!(matches!(r, Err(TableError::InvalidTableSize)));
}

#[test]
fn test_detect_whitespace_only() {
    assert!(matches!(deduct_table_type("  \n \t "), TableType::Unknown));
}

#[test]
fn test_detect_two_line_csv() {
    assert!(matches!(deduct_table_type("a,b\nc,d"), TableType::CsvTable));
}

#[test]
fn test_detect_short_input_checks_first_line_only() {
    assert!(matches!(deduct_table_type("a,b\nc"), TableType::CsvTable));
    assert!(matches!(deduct_table_type("ab\nc,d"), TableType::Unknown));
}

#[test]
fn test_detect_inconsistent_csv_is_unknown() {
    assert!(matches!(deduct_table_type("a,b\nc\nd,e"), TableType::Unknown));
}

#[test]
fn test_detect_single_column_is_unknown() {
    assert!(matches!(deduct_table_type("a\nb\nc"), TableType::Unknown));
}

#[test]
fn test_detect_broken_border_is_not_ascii() {
    let input = "+---+\n| a |\n+--x+";
    assert!(matches!(deduct_table_type(input), TableType::Unknown));
}

#[test]
fn test_detect_repeats_deterministically() {
    let inputs = ["a,b,c\n1,2,3", "+-+\n|x|\n+-+", "", "plain text"];
    for input in inputs {
        let first = format!("{:?}", deduct_table_type(input));
        let second = format!("{:?}", deduct_table_type(input));
        assert_eq!(first, second);
    }
}

#[test]
fn test_detect_even_line_box_is_not_ascii() {
    let input = "+---+\n| a |\n+---+\n| b |";
    assert!(matches!(deduct_table_type(input), TableType::Unknown));
}

#[test]
fn test_parse_csv_trims_fields() {
    let input = " a , b \n 1 , 2 ";
    let table = parse_table(TableType::CsvTable, input, false).unwrap();
    assert_eq!(table.row_count(), 2);
    assert_eq!(table.get(0), Some(&vec![s("a"), s("b")]));
    assert_eq!(table.get(1), Some(&vec![s("1"), s("2")]));
}

#[test]
fn test_parse_csv_headerless() {
    let input = "a,b,c\n1,2,3\n4,5,6";
    let table = parse_table(TableType::CsvTable, input, false).unwrap();
    assert_eq!(table.row_count(), 3);
    assert_eq!(table.column_count(), 3);
    assert_eq!(table.get_value(0, "a"), None);
}

#[test]
fn test_parse_csv_duplicate_header() {
    let input = "a,a\n1,2";
    let r = parse_table(TableType::CsvTable, input, true);
    match r {
        Err(TableError::DuplicateColumn(name)) => assert_eq!(name, "a"),
        _ => panic!("expected a duplicate-column error"),
    }
}

#[test]
fn test_parse_ascii_headerless() {
    let input = "+---+---+\n| a | b |\n+---+---+\n| 1 | 2 |\n+---+---+";
    let table = parse_table(TableType::AsciiTable, input, false).unwrap();
    assert_eq!(table.row_count(), 2);
    assert_eq!(table.get(0), Some(&vec![s("a"), s("b")]));
    assert_eq!(table.get(1), Some(&vec![s("1"), s("2")]));
}

#[test]
fn test_csv_round_trip() {
    let rows = vec![vec![s("x"), s("y")], vec![s("1"), s("2")]];
    let joined = rows
        .iter()
        .map(|r| r.join(","))
        .collect::<Vec<String>>()
        .join("\n");
    assert_eq!(joined, "x,y\n1,2");
    let table = parse_table(TableType::CsvTable, &joined, false).unwrap();
    assert_eq!(table.row_count(), 2);
    assert_eq!(table.get(0), Some(&rows[0]));
    assert_eq!(table.get(1), Some(&rows[1]));
}

#[test]
fn test_crlf_lines() {
    let input = "a,b\r\n1,2\r\n3,4";
    let kind = deduct_table_type(input);
    assert!(matches!(kind, TableType::CsvTable));
    let table = parse_table(kind, input, true).unwrap();
    assert_eq!(table.row_count(), 2);
    assert_eq!(table.get_value(1, "b"), Some(&s("4")));
}

#[test]
fn test_header_heuristic_numeric_contrast() {
    let rows = vec![vec![s("Name"), s("Age")], vec![s("Bob"), s("30")]];
    assert!(first_line_is_header(&rows));
}

#[test]
fn test_header_heuristic_single_row() {
    let rows = vec![vec![s("Name"), s("Age")]];
    assert!(!first_line_is_header(&rows));
}

#[test]
fn test_header_heuristic_width_mismatch() {
    let rows = vec![vec![s("a")], vec![s("b"), s("c")]];
    assert!(!first_line_is_header(&rows));
}

#[test]
fn test_header_heuristic_alphabetic_fallback() {
    let rows = vec![vec![s("Name"), s("City")], vec![s("Bob"), s("Oslo")]];
    assert!(first_line_is_header(&rows));
}

#[test]
fn test_header_heuristic_all_numbers() {
    let rows = vec![vec![s("1.5"), s("2.5")], vec![s("3.5"), s("4.5")]];
    assert!(!first_line_is_header(&rows));
}

#[test]
fn test_header_heuristic_special_floats() {
    let rows = vec![vec![s("NaN")], vec![s("abc")]];
    assert!(first_line_is_header(&rows));
    let rows2 = vec![vec![s("Infinity")], vec![s("abc")]];
    assert!(first_line_is_header(&rows2));
}

#[test]
fn test_header_heuristic_exponent() {
    let rows = vec![vec![s("1e5")], vec![s("abc")]];
    assert!(first_line_is_header(&rows));
    let rows2 = vec![vec![s("1e")], vec![s("abc")]];
    assert!(!first_line_is_header(&rows2));
}

#[test]
fn test_header_heuristic_underscore_names() {
    let rows = vec![vec![s("first_name"), s("last name")], vec![s("ann"), s("lee")]];
    assert!(first_line_is_header(&rows));
}
