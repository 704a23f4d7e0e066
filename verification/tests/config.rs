use archgraph::config::{
    immediate_child, is_within, overlaps, parent_id, validate, valid_node_id, AmbiguityPolicy,
    ArchitectureConfig, ConfigError, FilePolicy, ManualEdgeConfig, NodeConfig, NodeKind, Policies,
    ProjectConfig, ProviderConfig, RuleConfig,
};
use archgraph::strmap::StrMap;

fn node() -> NodeConfig {
    NodeConfig { title: None, kind: NodeKind::Internal, description: None, maps: vec![], interfaces: vec![] }
}

fn base() -> ArchitectureConfig {
    let mut nodes = StrMap::new();
    nodes.insert("app".to_owned(), node());
    ArchitectureConfig {
        version: 1,
        project: ProjectConfig {
            name: "test".into(),
            root: "app".into(),
            source_roots: vec![".".into()],
            exclude: vec![],
        },
        provider: ProviderConfig { kind: "gitnexus".into(), command: "gitnexus".into(), repo: None, page_size: 1000 },
        policies: Policies { unassigned_files: FilePolicy::Warn, ambiguous_mapping: AmbiguityPolicy::Error },
        nodes,
        edges: vec![],
        rules: vec![],
    }
}

fn message(config: ArchitectureConfig) -> String {
    match validate(config) {
        Ok(_) => panic!("accepted"),
        Err(error) => error.message(),
    }
}

#[test]
fn ids_and_segment_boundaries() {
    for id in ["app", "app.foo_1.bar-baz", "A.2"] {
        assert!(valid_node_id(id));
    }
    for id in ["", ".app", "app.", "app..x", "app x", "app/one", "äpp"] {
        assert!(!valid_node_id(id));
    }
    assert!(is_within("app.foo.bar", "app.foo"));
    assert!(!is_within("app.foobar", "app.foo"));
    assert_eq!(immediate_child("app.foo.bar", "app").as_deref(), Some("app.foo"));
}

#[test]
fn missing_parent_is_actionable() {
    let mut config = base();
    config.nodes.insert("app.billing.domain".to_owned(), node());
    assert!(message(config).contains("missing parent `app.billing`"));
}

#[test]
fn external_cannot_map() {
    let mut config = base();
    let mut external = node();
    external.kind = NodeKind::External;
    external.maps = vec!["src/**".into()];
    config.nodes.insert("external".to_owned(), external);
    assert!(validate(config).is_err());
}

#[test]
fn references_version_page_size_and_globs_are_validated() {
    let mut config = base();
    config.version = 2;
    assert!(validate(config).is_err());
    let mut config = base();
    config.provider.page_size = 0;
    assert!(validate(config).is_err());
    let mut config = base();
    config.rules = vec![RuleConfig::NoCycles { id: "x".into(), within: "missing".into(), edge_types: vec!["IMPORTS".into()] }];
    assert!(validate(config).is_err());
    let mut config = base();
    config.edges = vec![ManualEdgeConfig {
        id: "x".into(),
        from: "app".into(),
        to: "missing".into(),
        kind: "http".into(),
        label: None,
        description: None,
    }];
    assert!(validate(config).is_err());
    let mut config = base();
    let mut bad = node();
    bad.maps = vec!["[".into()];
    config.nodes.insert("app.bad".to_owned(), bad);
    assert!(validate(config).is_err());
}

#[test]
fn a_valid_config_is_normalized_and_sorted() {
    let mut config = base();
    config.project.source_roots = vec!["src/".into(), "./lib".into(), "src".into()];
    let mut child = node();
    child.maps = vec!["src\\**".into()];
    config.nodes.insert("app.core".to_owned(), child);
    config.rules = vec![
        RuleConfig::NoCycles { id: "z".into(), within: "app".into(), edge_types: vec!["IMPORTS".into()] },
        RuleConfig::DenyDependency {
            id: "a".into(),
            from: "app".into(),
            to: "app.core".into(),
            edge_types: vec!["IMPORTS".into()],
            include_descendants: true,
        },
    ];
    let validated = validate(config).ok().unwrap();
    assert_eq!(validated.config.project.source_roots, vec!["lib".to_owned(), "src".to_owned()]);
    assert_eq!(validated.config.rules[0].id(), "a");
    assert_eq!(validated.mapping_owners, vec!["app.core".to_owned()]);
    assert!(validated.mapping_globs.is_match("src/x/y.rs"));
}

#[test]
fn each_refusal_names_its_defect() {
    let mut config = base();
    config.version = 3;
    assert_eq!(message(config), "unsupported architecture version 3; expected 1");
    let mut config = base();
    config.project.root = "nope".into();
    assert_eq!(message(config), "project.root references missing node `nope`");
    let mut config = base();
    config.project.exclude = vec!["../x".into()];
    assert_eq!(
        message(config),
        "project.exclude: glob `../x` must be repository-relative and must not contain `..`"
    );
    let mut config = base();
    config.nodes.insert("bad id".to_owned(), node());
    assert!(matches!(validate(config), Err(ConfigError::InvalidNodeId(_))));
    let mut config = base();
    config.rules = vec![
        RuleConfig::NoCycles { id: "r".into(), within: "app".into(), edge_types: vec!["IMPORTS".into()] },
        RuleConfig::NoCycles { id: "r".into(), within: "app".into(), edge_types: vec!["IMPORTS".into()] },
    ];
    assert_eq!(message(config), "rule IDs must be nonempty and unique: `r`");
}

#[test]
fn ids_parents_and_overlap() {
    assert_eq!(parent_id("app.a.b").as_deref(), Some("app.a"));
    assert_eq!(parent_id("app"), None);
    assert!(overlaps("app", "app.a"));
    assert!(overlaps("app.a", "app"));
    assert!(!overlaps("app.a", "app.b"));
    assert_eq!(immediate_child("app", "app"), None);
    assert_eq!(immediate_child("other.x", "app"), None);
    assert_eq!(immediate_child("app.b", "app").as_deref(), Some("app.b"));
}
