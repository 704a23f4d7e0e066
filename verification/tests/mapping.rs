use archgraph::config::{
    validate, AmbiguityPolicy, ArchitectureConfig, FilePolicy, NodeConfig, NodeKind, Policies, ProjectConfig,
    ProviderConfig, ValidatedConfig,
};
use archgraph::mapping::{resolve, MappingError};
use archgraph::strmap::StrMap;

fn node(maps: &[&str]) -> NodeConfig {
    NodeConfig {
        title: None,
        kind: NodeKind::Internal,
        description: None,
        maps: maps.iter().map(|m| m.to_string()).collect(),
        interfaces: vec![],
    }
}

fn config(extra: &[(&str, &[&str])], policies: Policies) -> ValidatedConfig {
    let mut nodes = StrMap::new();
    nodes.insert("app".to_owned(), node(&["src/**"]));
    for (id, maps) in extra {
        nodes.insert(id.to_string(), node(maps));
    }
    let config = ArchitectureConfig {
        version: 1,
        project: ProjectConfig { name: "t".into(), root: "app".into(), source_roots: vec![".".into()], exclude: vec![] },
        provider: ProviderConfig { kind: "gitnexus".into(), command: "gitnexus".into(), repo: None, page_size: 5000 },
        policies,
        nodes,
        edges: vec![],
        rules: vec![],
    };
    match validate(config) {
        Ok(v) => v,
        Err(e) => panic!("{}", e.message()),
    }
}

fn defaults() -> Policies {
    Policies { unassigned_files: FilePolicy::Warn, ambiguous_mapping: AmbiguityPolicy::Error }
}

fn files(paths: &[&str]) -> Vec<String> {
    paths.iter().map(|p| p.to_string()).collect()
}

#[test]
fn deepest_match_and_cross_platform_paths() {
    let c = config(&[("app.foo", &["src/foo/**"]), ("app.foo.api", &["src/foo/api/**"])], defaults());
    let m = match resolve(&files(&[r"src\foo\api\a.rs", "src/b.rs"]), &c) {
        Ok(m) => m,
        Err(e) => panic!("{}", e.message()),
    };
    assert_eq!(m.files[0].node.as_deref(), Some("app"));
    assert_eq!(m.files[1].node.as_deref(), Some("app.foo.api"));
}

#[test]
fn unrelated_branches_error_by_default() {
    let c = config(&[("app.foo", &["src/**"]), ("app.foobar", &["src/**"])], defaults());
    match resolve(&files(&["src/a.rs"]), &c) {
        Ok(_) => panic!("accepted"),
        Err(e) => {
            assert!(e.message().contains("unrelated architecture nodes"));
            assert!(matches!(e, MappingError::Unrelated { .. }));
        },
    }
}

#[test]
fn warning_keeps_ambiguity_explicit() {
    let c = config(
        &[("app.a", &["src/**"]), ("app.b", &["src/**"])],
        Policies { unassigned_files: FilePolicy::Warn, ambiguous_mapping: AmbiguityPolicy::Warn },
    );
    let m = match resolve(&files(&["src/a"]), &c) {
        Ok(m) => m,
        Err(e) => panic!("{}", e.message()),
    };
    assert!(m.files[0].node.is_none());
    assert_eq!(m.diagnostics.ambiguous_files.len(), 1);
    assert!(m.diagnostics.unassigned_files.is_empty());
    assert_eq!(m.files[0].ambiguous_matches, ["app", "app.a", "app.b"]);
    assert_eq!(
        m.diagnostics.warnings,
        ["file `src/a` matches unrelated architecture nodes `app.a` and `app.b`; make maps unambiguous or change policies.ambiguous_mapping"]
    );
}

#[test]
fn unassigned_policies() {
    for policy in [FilePolicy::Ignore, FilePolicy::Warn, FilePolicy::Error] {
        let c = config(&[], Policies { unassigned_files: policy, ambiguous_mapping: AmbiguityPolicy::Error });
        let result = resolve(&files(&["other/a"]), &c);
        if policy == FilePolicy::Error {
            assert!(result.is_err());
        } else {
            let result = match result {
                Ok(m) => m,
                Err(e) => panic!("{}", e.message()),
            };
            assert_eq!(result.diagnostics.unassigned_files, ["other/a"]);
            assert_eq!(result.diagnostics.warnings.is_empty(), policy == FilePolicy::Ignore);
        }
    }
}

#[test]
fn paths_are_normalized_deduplicated_and_sorted() {
    let c = config(&[], defaults());
    let m = match resolve(&files(&["src/b.rs", "./src/a.rs", "src/x/../b.rs"]), &c) {
        Ok(m) => m,
        Err(e) => panic!("{}", e.message()),
    };
    let paths: Vec<&str> = m.files.iter().map(|f| f.path.as_str()).collect();
    assert_eq!(paths, ["src/a.rs", "src/b.rs"]);
    assert!(matches!(resolve(&files(&["../escape"]), &c), Err(MappingError::Path { .. })));
}

#[test]
fn the_unassigned_count_is_a_warning() {
    let c = config(&[], defaults());
    let m = match resolve(&files(&["docs/a.md", "docs/b.md", "src/c.rs"]), &c) {
        Ok(m) => m,
        Err(e) => panic!("{}", e.message()),
    };
    assert_eq!(m.diagnostics.unassigned_files, ["docs/a.md", "docs/b.md"]);
    assert_eq!(m.diagnostics.warnings, ["2 unassigned file(s); add maps globs or adjust policies.unassigned_files"]);
}
