use tabular::table::{Table, TableError};

fn s(x: &str) -> String {
    x.to_string()
}

#[test]
fn test_new_table() {
    let table = Table::new();
    assert_eq!(table.row_count(), 0);
    assert_eq!(table.column_count(), 0);
}

#[test]
fn test_add_row() {
    let mut table = Table::new();
    let row = vec!["1".to_string(), "2".to_string()];
    assert!(table.add_row(row).is_ok());
}

#[test]
fn test_default_table() {
    let table = Table::default();
    assert_eq!(table.row_count(), 0);
    assert_eq!(table.column_count(), 0);
}

#[test]
fn test_with_header_and_data_success() {
    let header = vec![s("a"), s("b")];
    let data = vec![vec![s("1"), s("2")], vec![s("3"), s("4")]];
    let table = Table::with_header_and_data(header, data).unwrap();
    assert_eq!(table.row_count(), 2);
    assert_eq!(table.column_count(), 2);
    assert_eq!(table.get(0), Some(&vec![s("1"), s("2")]));
    assert_eq!(table.get(1), Some(&vec![s("3"), s("4")]));
    assert_eq!(table.get(2), None);
    assert_eq!(table.get_value(0, "a"), Some(&s("1")));
    assert_eq!(table.get_value(1, "b"), Some(&s("4")));
    assert_eq!(table.get_value(0, "c"), None);
    assert_eq!(table.get_value(9, "a"), None);
}

#[test]
fn test_with_header_empty() {
    let r = Table::with_header_and_data(vec![], vec![vec![s("1")]]);
    assert!(matches!(r, Err(TableError::EmptyHeader)));
}

#[test]
fn test_with_header_duplicate() {
    let r = Table::with_header_and_data(vec![s("a"), s("a")], vec![]);
    match r {
        Err(TableError::DuplicateColumn(name)) => assert_eq!(name, "a"),
        _ => panic!("expected a duplicate-column error"),
    }
}

#[test]
fn test_with_header_first_duplicate_wins() {
    let r = Table::with_header_and_data(vec![s("a"), s("b"), s("b"), s("a")], vec![]);
    match r {
        Err(TableError::DuplicateColumn(name)) => assert_eq!(name, "b"),
        _ => panic!("expected a duplicate-column error"),
    }
}

#[test]
fn test_with_header_row_mismatch() {
    let r = Table::with_header_and_data(
        vec![s("a"), s("b")],
        vec![vec![s("1"), s("2"), s("3")]],
    );
    match r {
        Err(TableError::RowLengthMismatch { row_index, row_len, header_len }) => {
            assert_eq!(row_index, 0);
            assert_eq!(row_len, 3);
            assert_eq!(header_len, 2);
        },
        _ => panic!("expected a row-length error"),
    }
}

#[test]
fn test_with_header_first_bad_row_wins() {
    let r = Table::with_header_and_data(
        vec![s("a"), s("b")],
        vec![vec![s("1"), s("2")], vec![s("3")], vec![s("4"), s("5"), s("6")]],
    );
    match r {
        Err(TableError::RowLengthMismatch { row_index, row_len, header_len }) => {
            assert_eq!(row_index, 1);
            assert_eq!(row_len, 1);
            assert_eq!(header_len, 2);
        },
        _ => panic!("expected a row-length error"),
    }
}

#[test]
fn test_with_data_ragged() {
    let data = vec![vec![s("1"), s("2"), s("3")], vec![s("4")], vec![]];
    let table = Table::with_data(data).unwrap();
    assert_eq!(table.row_count(), 3);
    assert_eq!(table.column_count(), 3);
    assert_eq!(table.get(1), Some(&vec![s("4")]));
    assert_eq!(table.get_value(0, "1"), None);
}

#[test]
fn test_add_row_headered() {
    let table = Table::with_header_and_data(vec![s("a"), s("b")], vec![]);
    let mut table = table.unwrap();
    let r = table.add_row(vec![s("only one")]);
    match r {
        Err(TableError::RowLengthMismatch { row_index, row_len, header_len }) => {
            assert_eq!(row_index, 0);
            assert_eq!(row_len, 1);
            assert_eq!(header_len, 2);
        },
        _ => panic!("expected a row-length error"),
    }
    assert_eq!(table.row_count(), 0);
    assert!(table.add_row(vec![s("1"), s("2")]).is_ok());
    assert_eq!(table.row_count(), 1);
    assert_eq!(table.get_value(0, "b"), Some(&s("2")));
}

#[test]
fn test_add_row_headerless_any_length() {
    let mut table = Table::new();
    assert!(table.add_row(vec![s("1"), s("2")]).is_ok());
    assert!(table.add_row(vec![s("3")]).is_ok());
    assert!(table.add_row(vec![]).is_ok());
    assert_eq!(table.row_count(), 3);
}

#[test]
fn test_column_count_header_wins() {
    let table = Table::with_header_and_data(vec![s("a"), s("b"), s("c")], vec![]).unwrap();
    assert_eq!(table.column_count(), 3);
}
