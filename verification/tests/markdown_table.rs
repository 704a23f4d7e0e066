use archgraph::markdown_table::{cells, parse, parse_table, TableError};

#[test]
fn escaped_pipes_and_header_lookup() {
    let table = parse("| reason | target | source |\n| :--- | ---: | :---: |\n| import a\\|b | src/b.rs | src/a.rs |\n").unwrap();
    assert_eq!(table.column("source").ok(), Some(2));
    assert_eq!(table.rows[0][0], "import a|b");
}

#[test]
fn preserves_windows_separators() {
    let table = parse("source | target\n--- | ---\nsrc\\a.rs | src\\b.rs").unwrap();
    assert_eq!(table.rows[0][0], r"src\a.rs");
}

#[test]
fn supports_empty_table_but_not_missing_table() {
    assert!(parse("| source | target |\n| --- | --- |\n").unwrap().rows.is_empty());
    assert!(parse("").is_err());
    assert!(parse("no results").is_err());
}

#[test]
fn rejects_malformed_rows_headers_and_separator() {
    for table in [
        "| source | target |\n| --- | --- |\n| only-one |",
        "| source | target |\n| --- | --- |\n| a | b | c |",
        "| source | source |\n| --- | --- |",
        "| source | target |\n| not | separator |",
        "| source | target |\n| --- | --- |\n\n| a | b |",
    ] {
        assert!(parse(table).is_err(), "accepted {table:?}");
    }
}

#[test]
fn escaped_trailing_pipe_is_not_a_border() {
    assert_eq!(parse("source | target\n--- | ---\na | b\\|").unwrap().rows[0][1], "b|");
}

#[test]
fn each_defect_has_its_own_error() {
    assert_eq!(parse_table("x"), Err(TableError::Missing));
    assert_eq!(parse_table("| a | |\n| --- | --- |"), Err(TableError::EmptyHeader));
    assert_eq!(parse_table("| a | a |\n| --- | --- |"), Err(TableError::DuplicateHeader));
    assert_eq!(parse_table("| a | b |\n| -- | --- |"), Err(TableError::Separator));
    assert_eq!(
        parse_table("| a | b |\n| --- | --- |\n| 1 |"),
        Err(TableError::Row { line: 3, cells: 1, expected: 2 })
    );
    let error = parse("| a | b |\n| --- | --- |\n| 1 |").err().unwrap();
    assert!(error.message().contains("table row 3 has 1 cells; expected 2"));
}

#[test]
fn cells_keep_unknown_escapes_and_crlf_lines_parse() {
    assert_eq!(cells("| a\\nb | c\\\\ |"), vec!["a\\nb".to_owned(), "c\\".to_owned()]);
    let table = parse("a | b\r\n--- | ---\r\n1 | 2\r\n").unwrap();
    assert_eq!(table.rows, vec![vec!["1".to_owned(), "2".to_owned()]]);
}

#[test]
fn missing_columns_are_compatibility_errors() {
    let table = parse("a | b\n--- | ---").unwrap();
    assert_eq!(table.optional_column("b"), Some(1));
    assert_eq!(table.optional_column("c"), None);
    let error = table.column("c").err().unwrap();
    assert!(error.message().contains("required column `c` is missing"));
}

#[test]
fn a_table_has_one_trimmed_row_per_line_after_the_separator() {
    let text = "\n  | name | path |\n|---|:---:|\n|  a  |b   |\n| c | \\| d |\n\n";
    let table = parse(text).ok().unwrap();
    assert_eq!(table.headers, vec!["name".to_string(), "path".to_string()]);
    assert_eq!(table.rows.len(), text.trim().lines().count() - 2);
    assert_eq!(table.rows[0], vec!["a".to_string(), "b".to_string()]);
    assert_eq!(table.rows[1], vec!["c".to_string(), "| d".to_string()]);
    assert!(table.rows.iter().flatten().all(|c| c.trim() == c));
}
