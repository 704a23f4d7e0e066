use archgraph::vcs::{check_commit_id, parse_renames};

#[test]
fn renames_map_old_paths_to_new_ones() {
    let renames = parse_renames("R100\0src/old.py\0src/new.py\0R087\0a.py\0b/a.py\0").unwrap();
    assert_eq!(renames.len(), 2);
    assert_eq!(renames.get("src/old.py").map(|s| s.as_str()), Some("src/new.py"));
    assert_eq!(renames.get("a.py").map(|s| s.as_str()), Some("b/a.py"));
    assert!(renames.get("src/new.py").is_none());
    assert_eq!(parse_renames("").unwrap().len(), 0);
}

#[test]
fn malformed_rename_output_is_refused() {
    assert_eq!(
        parse_renames("R100\0a.py\0").err().unwrap(),
        "unexpected `git diff --name-status` output after `R100`"
    );
    assert_eq!(parse_renames("M\0a.py\0b.py\0").err().unwrap(), "unexpected `git diff` status `M`");
}

#[test]
fn only_hex_commit_ids_reach_git() {
    assert!(check_commit_id("0123abcDEF").is_ok());
    assert_eq!(
        check_commit_id("HEAD~1").unwrap_err(),
        "baseline commit `HEAD~1` is not a commit id"
    );
}
