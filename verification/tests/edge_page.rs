use archgraph::compiler::CodeEdge;
use archgraph::error::ProviderError;
use archgraph::provider::{edge_page, edges_of_page, ConfidenceReading};

/// One page of the edge query: the table read by the library, each present
/// confidence cell read as an `f64` here.
fn parse_edge_page(stdout: &str) -> Result<Vec<CodeEdge>, ProviderError> {
    let (page, columns) = edge_page(stdout)?;
    let readings = page
        .table
        .rows
        .iter()
        .map(|row| {
            columns.confidence.map(|c| row[c].as_str()).filter(|v| !v.is_empty() && !v.eq_ignore_ascii_case("null")).map(|v| {
                match v.parse::<f64>() {
                    Ok(x) => ConfidenceReading::Number(x.to_bits()),
                    Err(_) => ConfidenceReading::Invalid,
                }
            })
        })
        .collect();
    edges_of_page(&page.table, &columns, &readings)
}

fn wrapper(markdown: &str, rows: usize) -> String {
    format!("{{\"markdown\":{},\"row_count\":{}}}", serde_json::to_string(markdown).unwrap(), rows)
}

fn detail(r: Result<Vec<CodeEdge>, ProviderError>) -> String {
    match r {
        Err(ProviderError::Compatibility(d)) => d,
        _ => panic!("expected a compatibility error"),
    }
}

#[test]
fn parses_wrapper_and_optional_values() {
    let table = "| source | target | kind | confidence | reason |\n| --- | --- | --- | --- | --- |\n| src\\a.py | src/b.py | IMPORTS | 0.9 | static\\|import |\n| src/b.py | src/c.py | IMPORTS | null | |";
    let edges = parse_edge_page(&wrapper(table, 2)).unwrap();
    assert_eq!(edges.len(), 2);
    assert_eq!(edges[0].confidence, Some(0.9f64.to_bits()));
    assert_eq!(edges[0].reason.as_deref(), Some("static|import"));
    assert_eq!(edges[0].from_file, "src/a.py");
    assert_eq!(edges[1].confidence, None);
    assert_eq!(edges[1].reason, None);
}

#[test]
fn malformed_provider_output_never_becomes_empty_success() {
    for output in [
        "not json",
        "{}",
        "[]",
        "{\"markdown\":\"\",\"row_count\":0}",
        "{\"markdown\":\"| source | target |\\n| --- | --- |\",\"row_count\":1}",
        "{\"markdown\":\"| source | target |\\n| --- | --- |\",\"row_count\":\"0\"}",
    ] {
        assert!(parse_edge_page(output).is_err(), "accepted {output:?}");
    }
}

#[test]
fn columns_can_be_reordered_and_optional_columns_omitted() {
    let edges = parse_edge_page(&wrapper("| target | source |\n| --- | --- |\n| b | a |", 1)).unwrap();
    assert_eq!(edges[0].from_file, "a");
    assert_eq!(edges[0].kind, "IMPORTS");
    assert_eq!(edges[0].confidence, None);
}

#[test]
fn rejects_missing_headers_and_nonfinite_confidence() {
    for table in [
        "| path |\n| --- |",
        "| source | target | confidence |\n| --- | --- | --- |\n| a | b | NaN |",
        "| source | target |\n| --- | --- |\n| a | null |",
    ] {
        let count = table.lines().count() - 2;
        assert!(parse_edge_page(&wrapper(table, count)).is_err());
    }
}

#[test]
fn each_row_problem_names_its_row() {
    assert_eq!(detail(parse_edge_page(&wrapper("| path |\n| --- |", 0))), "required column `source` is missing");
    assert_eq!(detail(parse_edge_page(&wrapper("| source |\n| --- |", 0))), "required column `target` is missing");
    let two = |second: &str| format!("| source | target | kind | confidence |\n| --- | --- | --- | --- |\n| a | b | IMPORTS | 1 |\n{second}");
    assert_eq!(detail(parse_edge_page(&wrapper(&two("| a | NULL | IMPORTS | 1 |"), 2))), "row 2 has empty/null source or target");
    assert_eq!(detail(parse_edge_page(&wrapper(&two("| a | b | IMPORTS | high |"), 2))), "row 2 has invalid confidence `high`");
    assert_eq!(detail(parse_edge_page(&wrapper(&two("| a | b | IMPORTS | inf |"), 2))), "row 2 has non-finite confidence");
    assert_eq!(detail(parse_edge_page(&wrapper(&two("| a | b | null | 1 |"), 2))), "row 2 has an empty/null relation kind");
}
