use archgraph::source::{checked_path, decode, fnv1a, hex16, line_count, mapped_node, source_file};
use archgraph::model::CompiledFile;

#[test]
fn counts_lines_like_an_editor() {
    assert_eq!(line_count(""), 0);
    assert_eq!(line_count("a"), 1);
    assert_eq!(line_count("a\n"), 1);
    assert_eq!(line_count("a\nb"), 2);
    assert_eq!(line_count("a\r\nb\r\n"), 2);
    assert_eq!(line_count("\n\n"), 2);
}

#[test]
fn the_hash_is_fnv1a_64() {
    assert_eq!(fnv1a(b""), 0xcbf2_9ce4_8422_2325);
    assert_eq!(fnv1a(b"a"), 0xaf63_dc4c_8601_ec8c);
}

#[test]
fn hashes_are_sixteen_hex_digits() {
    assert_eq!(hex16(0xaf63_dc4c_8601_ec8c), "af63dc4c8601ec8c");
    assert_eq!(hex16(1), "0000000000000001");
}

#[test]
fn requested_paths_must_be_in_normal_form() {
    assert_eq!(checked_path("src/a.rs").unwrap(), "src/a.rs");
    assert_eq!(checked_path("").unwrap_err().reason, "empty");
    assert_eq!(checked_path("/etc/passwd").unwrap_err().reason, "absolute");
    assert_eq!(checked_path("\\x").unwrap_err().reason, "absolute");
    assert_eq!(checked_path("C:x").unwrap_err().reason, "absolute");
    assert_eq!(checked_path("src/../x").unwrap_err().reason, "parent");
    assert_eq!(checked_path("src\\..\\x").unwrap_err().reason, "parent");
    assert_eq!(checked_path("src//a.rs").unwrap_err().reason, "not_normalized");
    assert_eq!(checked_path("a\0b").unwrap_err().reason, "invalid");
    assert_eq!(checked_path("src//a.rs").unwrap_err().status, 400);
}

#[test]
fn only_mapped_files_are_served() {
    let files = vec![
        CompiledFile { path: "a.rs".into(), node: Some("app".into()), ambiguous_matches: vec![] },
        CompiledFile { path: "b.rs".into(), node: None, ambiguous_matches: vec![] },
    ];
    assert_eq!(mapped_node(&files, "a.rs").unwrap(), "app");
    assert_eq!(mapped_node(&files, "b.rs").unwrap_err().status, 403);
    assert_eq!(mapped_node(&files, "c.rs").unwrap_err().reason, "unmapped");
}

#[test]
fn binary_and_invalid_text_is_refused() {
    assert_eq!(decode(b"ok".to_vec(), "x").unwrap(), "ok");
    assert_eq!(decode(vec![b'a', 0], "x").unwrap_err().reason, "binary");
    let refusal = decode(vec![b'a', 0xff], "x").unwrap_err();
    assert_eq!(refusal.reason, "not_utf8");
    assert!(refusal.message.contains("at byte 1"));
}

#[test]
fn answers_leave_out_text_the_caller_has() {
    let full = source_file("a.rs".into(), "app".into(), "a\nb".into(), None);
    assert_eq!(full.line_count, 2);
    assert_eq!(full.bytes, 3);
    assert_eq!(full.text.as_deref(), Some("a\nb"));
    let again = source_file("a.rs".into(), "app".into(), "a\nb".into(), Some(&full.hash));
    assert!(again.unchanged);
    assert_eq!(again.text, None);
}
