use archgraph::paths::{normalize_relative, portable_absolute, provider_path, relative_file, repository_among, PathError};

#[test]
fn normalizes_separators_and_dot_segments() {
    assert_eq!(normalize_relative(r".\src\a\..\b.rs").unwrap(), "src/b.rs");
    assert!(normalize_relative("../outside").is_err());
    assert!(normalize_relative("C:\\src\\a.rs").is_err());
    assert!(normalize_relative("/tmp/a").is_err());
}

#[test]
fn absolute_provider_path_requires_repository_boundary() {
    assert_eq!(provider_path("/work/repo", "/work/repo/src/a").unwrap(), "src/a");
    assert!(provider_path("/work/repo", "/work/repository/a").is_err());
}

#[test]
fn windows_verbatim_roots_and_drive_case_are_compatible() {
    let root = r"\\?\C:\Work\repo";
    assert_eq!(provider_path(root, r"c:\Work\repo\src\a.rs").unwrap(), "src/a.rs");
    let unc = r"\\?\UNC\server\share\repo";
    assert_eq!(provider_path(unc, r"\\server\share\repo\src\a.rs").unwrap(), "src/a.rs");
}

#[test]
fn normalization_errors_name_their_cause() {
    assert_eq!(normalize_relative("a\0b"), Err(PathError::Unsupported));
    assert_eq!(normalize_relative("a\nb"), Err(PathError::Unsupported));
    assert_eq!(normalize_relative("\\lead"), Err(PathError::Absolute));
    assert_eq!(normalize_relative("a/../../b"), Err(PathError::Escapes));
    assert_eq!(normalize_relative("./a//b/./c/"), Ok("a/b/c".to_owned()));
    assert_eq!(normalize_relative(""), Ok(String::new()));
    assert_eq!(normalize_relative("é:x"), Ok("é:x".to_owned()));
}

#[test]
fn normalizing_twice_changes_nothing() {
    for raw in [r".\src\a\..\b.rs", "a//b/./c", "x/y/../z", "plain"] {
        let once = normalize_relative(raw).unwrap();
        assert_eq!(normalize_relative(&once).unwrap(), once);
    }
}

#[test]
fn provider_paths_outside_or_empty_are_refused() {
    assert_eq!(provider_path("/work/repo", "/work/repo/"), Err(PathError::Empty));
    assert_eq!(provider_path("/work/repo", "/elsewhere/a"), Err(PathError::Absolute));
    assert_eq!(provider_path("/work/repo/", "src\\x.rs").unwrap(), "src/x.rs");
}

#[test]
fn portable_absolute_strips_verbatim_prefixes() {
    assert_eq!(portable_absolute(r"\\?\C:\x"), "C:/x");
    assert_eq!(portable_absolute(r"\\?\UNC\server\x"), "//server/x");
    assert_eq!(portable_absolute("/a/b"), "/a/b");
}

#[test]
fn relative_file_strips_the_root_by_components() {
    assert_eq!(relative_file("/repo", "/repo/src/a.rs").unwrap(), "src/a.rs");
    assert_eq!(relative_file("/repo", "/repository/a.rs"), Err(PathError::Outside));
    assert_eq!(relative_file("/repo", "/repo"), Err(PathError::Empty));
}

#[test]
fn the_repository_is_the_first_ancestor_with_git() {
    let ancestors: Vec<String> = ["/a/b/c", "/a/b", "/a", "/"].map(String::from).to_vec();
    assert_eq!(repository_among("/a/b/c", &ancestors, &vec![false, true, true, false]).ok().unwrap(), "/a/b");
    assert_eq!(repository_among("/a/b/c", &ancestors, &vec![true, false, false, false]).ok().unwrap(), "/a/b/c");
    assert_eq!(
        repository_among("/a/b/c", &ancestors, &vec![false; 4]).err().unwrap(),
        "no Git repository found above /a/b/c; run from a repository or pass --root <directory>"
    );
}
