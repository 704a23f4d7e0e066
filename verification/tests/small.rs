use archgraph::mapping::MappingError;
use archgraph::paths::PathError;
use archgraph::provider::{failure_detail, page_of_wrapper, parse_wrapper, WrapperJson};
use archgraph::error::ProviderError;
use archgraph::cli::baseline_file;
use archgraph::cache::key;
use archgraph::cli::check_exit_code;
use archgraph::mermaid::label;
use archgraph::packages::{npm_name, provider_resolved};
use archgraph::baseline::default_path;

#[test]
fn unidentified_results_have_no_key() {
    assert_eq!(key(None, Some("queries")), None);
    assert_eq!(key(Some("index"), None), None);
}

#[test]
fn keys_join_fingerprint_and_queries() {
    assert_eq!(key(Some("index-1"), Some("queries")).unwrap(), "index-1\nqueries");
}

#[test]
fn check_exit_semantics() {
    assert_eq!(check_exit_code(0), 0);
    assert_eq!(check_exit_code(1), 2);
}

#[test]
fn hostile_labels_cannot_break_mermaid_grammar() {
    let escaped = label("\"] --> injected[\"<script>\n");
    assert!(!escaped.contains('"'));
    assert!(!escaped.contains('['));
    assert!(!escaped.contains('\n'));
    assert!(!escaped.contains('<'));
}

#[test]
fn labels_escape_with_decimal_code_points() {
    assert_eq!(label("a\"b"), "a#34;b");
    assert_eq!(label("app.x-y/z_1 ok"), "app.x-y/z_1 ok");
    assert_eq!(label("é"), "#233;");
}

#[test]
fn npm_names_of_bare_specifiers() {
    for (specifier, name) in [
        ("react", Some("react")),
        ("react-dom/client", Some("react-dom")),
        ("@tanstack/react-query", Some("@tanstack/react-query")),
        ("@tanstack/react-query/devtools", Some("@tanstack/react-query")),
        ("lodash.debounce", Some("lodash.debounce")),
        ("@/components/Map", None),
        ("~/utils", None),
        ("$lib/api", None),
        ("@scope", None),
    ] {
        assert_eq!(npm_name(specifier).as_deref(), name, "{specifier}");
    }
}

#[test]
fn baseline_lives_next_to_the_config() {
    assert_eq!(default_path("dir/architecture.yaml"), "dir/architecture.baseline.json");
    assert_eq!(default_path("arch.yml"), "arch.baseline.json");
}

#[test]
fn aliases_the_provider_resolved_are_local() {
    let targets = ["web/src/app/utils/date.ts".to_owned(), "web/src/ui/index.tsx".to_owned()];
    assert!(provider_resolved(&targets, "@app/utils/date"));
    assert!(provider_resolved(&targets, "src/ui"));
    assert!(!provider_resolved(&targets, "@app/utils/time"));
    assert!(!provider_resolved(&targets, "config"));
}

#[test]
fn failure_detail_prefers_error_output_and_trims() {
    assert_eq!(failure_detail(b"out", b"  boom \n"), "boom");
    assert_eq!(failure_detail(b" out\n", b""), "out");
    let long = vec![b'x'; 2500];
    assert_eq!(failure_detail(&long, b"").len(), 2000);
}

#[test]
fn baseline_file_is_explicit_or_next_to_the_configuration() {
    assert_eq!(baseline_file("/repo", "/repo/architecture.yaml", Some("/tmp/b.json".into())), "/tmp/b.json");
    assert_eq!(baseline_file("/repo", "/repo/architecture.yaml", Some("ci/b.json".into())), "/repo/ci/b.json");
    assert_eq!(baseline_file("/repo", "/repo/architecture.yaml", None), "/repo/architecture.baseline.json");
}

#[test]
fn mapping_errors_say_what_is_wrong() {
    assert_eq!(archgraph::source::path_error_text(PathError::Escapes), "path escapes the repository root");
    assert_eq!(
        MappingError::Path { path: "/etc/x".into(), error: PathError::Absolute }.message(),
        "path `/etc/x` must be repository-relative, not absolute"
    );
    assert_eq!(
        MappingError::Unassigned("src/x.py".into()).message(),
        "file `src/x.py` is unassigned; add a node maps glob or change policies.unassigned_files"
    );
}

fn compatibility_detail(r: Result<archgraph::provider::CypherPage, ProviderError>) -> String {
    match r {
        Err(ProviderError::Compatibility(d)) => d,
        _ => panic!("expected a compatibility error"),
    }
}

#[test]
fn a_wrapper_page_is_its_table_checked_against_its_row_count() {
    let table = "| path |\n| --- |\n| src/a.py |\n";
    let page = page_of_wrapper(WrapperJson::Object { markdown: Some(table.into()), row_count: Some(1) }).ok().unwrap();
    assert_eq!((page.row_count, page.table.rows[0][0].as_str()), (1, "src/a.py"));
    assert_eq!(
        compatibility_detail(page_of_wrapper(WrapperJson::Object { markdown: Some(table.into()), row_count: Some(2) })),
        "row_count is 2, but table contains 1 data rows (truncation is unsupported)"
    );
    assert_eq!(compatibility_detail(page_of_wrapper(WrapperJson::NotObject)), "stdout is not a JSON object");
    assert_eq!(
        compatibility_detail(page_of_wrapper(WrapperJson::Object { markdown: None, row_count: Some(1) })),
        "missing or non-string `markdown`"
    );
    let read = parse_wrapper("{\"markdown\": \"| path |\\n| --- |\\n| src/a.py |\\n\", \"row_count\": 1}").ok().unwrap();
    assert_eq!(read.table.rows.len(), 1);
    assert!(compatibility_detail(parse_wrapper("[1]")).starts_with("stdout is not a JSON object"));
}
