use archgraph::compiler::{architecture_edges, assemble, compile_nodes, manual_groups, resolve_observed, CodeEdge};
use archgraph::config::{
    validate, AmbiguityPolicy, ArchitectureConfig, FilePolicy, ManualEdgeConfig, NodeConfig, NodeKind, Policies,
    ProjectConfig, ProviderConfig, ValidatedConfig,
};
use archgraph::mapping::{resolve, Memberships};
use archgraph::model::{EdgeOrigin, ProviderInfo};
use archgraph::evidence::{EdgeEvidence, ResolvedEdge};
use archgraph::strmap::StrMap;
use archgraph::model::CompiledFile;

fn file(path: &str, node: Option<&str>) -> CompiledFile {
    CompiledFile { path: path.into(), node: node.map(|n| n.to_string()), ambiguous_matches: vec![] }
}

fn code(from: &str, to: &str) -> CodeEdge {
    CodeEdge { from_file: from.into(), to_file: to.into(), kind: "IMPORTS".into(), confidence: Some(1.0f64.to_bits()), reason: None }
}

fn files() -> Vec<CompiledFile> {
    vec![file("src/a.py", Some("app.a")), file("src/b.py", Some("app.b")), file("src/c.py", None)]
}

#[test]
fn observations_resolve_to_nodes_in_a_fixed_order() {
    let edges = vec![code("/work/repo/src/b.py", "src/a.py"), code("src/a.py", "src/b.py")];
    let (resolved, anomalies) = resolve_observed("/work/repo", &files(), &edges).ok().unwrap();
    assert!(anomalies.is_empty());
    assert_eq!(resolved.len(), 2);
    assert_eq!((resolved[0].from.as_str(), resolved[0].to.as_str()), ("app.a", "app.b"));
    assert_eq!((resolved[1].from.as_str(), resolved[1].to.as_str()), ("app.b", "app.a"));
    assert_eq!(resolved[1].evidence.from_file, "src/b.py");
    let reversed = vec![code("src/a.py", "src/b.py"), code("/work/repo/src/b.py", "src/a.py")];
    let (again, _) = resolve_observed("/work/repo", &files(), &reversed).ok().unwrap();
    assert_eq!(again, resolved);
}

#[test]
fn unmapped_and_bad_paths_are_counted_anomalies() {
    let edges = vec![
        code("src/a.py", "src/c.py"),
        code("src/a.py", "src/x.py"),
        code("src/a.py", "src/x.py"),
        code("../up.py", "src/a.py"),
    ];
    let (resolved, anomalies) = resolve_observed("/work/repo", &files(), &edges).ok().unwrap();
    assert!(resolved.is_empty());
    let listed: Vec<(&str, &str, &str, usize)> = anomalies
        .iter()
        .map(|a| (a.from_file.as_str(), a.to_file.as_str(), a.message.as_str(), a.count))
        .collect();
    assert_eq!(
        listed,
        vec![
            ("../up.py", "src/a.py", "path `../up.py` escapes the repository root", 1),
            ("src/a.py", "src/c.py", "endpoint is unassigned or ambiguously mapped; add unambiguous node maps", 1),
            ("src/a.py", "src/x.py", "endpoint is outside the discovered project file set; check source_roots, excludes and index freshness", 2),
        ]
    );
}

#[test]
fn a_blank_kind_or_non_finite_confidence_refuses_the_observations() {
    let mut blank = code("src/a.py", "src/b.py");
    blank.kind = "  ".into();
    let err = resolve_observed("/work/repo", &files(), &vec![code("src/a.py", "src/b.py"), blank]).err().unwrap();
    assert_eq!(err, "provider returned an empty edge kind or non-finite confidence for `src/a.py` -> `src/b.py`; fix provider compatibility");
    let mut nan = code("src/b.py", "src/a.py");
    nan.confidence = Some(f64::NAN.to_bits());
    assert!(resolve_observed("/work/repo", &files(), &vec![nan]).is_err());
    let mut infinite = code("src/b.py", "src/a.py");
    infinite.confidence = Some(f64::INFINITY.to_bits());
    assert!(resolve_observed("/work/repo", &files(), &vec![infinite]).is_err());
}

#[test]
fn nodes_compile_with_their_hierarchy_files_and_counts() {
    let node = |title: Option<&str>| NodeConfig {
        title: title.map(|t| t.to_string()),
        kind: NodeKind::Internal,
        description: None,
        maps: vec![],
        interfaces: vec![],
    };
    let mut nodes = StrMap::new();
    nodes.insert("app".to_string(), node(Some("Application")));
    nodes.insert("app.api".to_string(), node(None));
    nodes.insert("app.domain".to_string(), node(None));
    let files = vec![
        file("src/api/r.py", Some("app.api")),
        file("src/domain/m.py", Some("app.domain")),
        file("src/main.py", Some("app")),
        file("src/x.py", None),
    ];
    let resolved = vec![ResolvedEdge {
        from: "app.api".into(),
        to: "app.domain".into(),
        kind: "IMPORTS".into(),
        evidence: EdgeEvidence { from_file: "src/api/r.py".into(), to_file: "src/domain/m.py".into(), kind: "IMPORTS".into(), confidence: None, reason: None },
    }];
    let compiled = compile_nodes(&nodes, &files, &resolved, &vec!["src/main.py".to_string()]);
    assert_eq!(compiled.len(), 3);
    let app = compiled.get("app").unwrap();
    assert_eq!(app.title, "Application");
    assert_eq!(app.parent, None);
    assert_eq!(app.children, vec!["app.api".to_string(), "app.domain".to_string()]);
    assert_eq!(app.direct_files, vec!["src/main.py".to_string()]);
    assert_eq!((app.descendant_file_count, app.observed_file_count, app.unindexed_file_count), (3, 2, 1));
    let api = compiled.get("app.api").unwrap();
    assert_eq!(api.title, "api");
    assert_eq!(api.parent.as_deref(), Some("app"));
    assert!(api.children.is_empty());
    assert_eq!(api.direct_files, vec!["src/api/r.py".to_string()]);
    assert_eq!((api.descendant_file_count, api.observed_file_count, api.unindexed_file_count), (1, 1, 0));
}

fn manual(id: &str, from: &str, to: &str) -> ManualEdgeConfig {
    ManualEdgeConfig { id: id.into(), from: from.into(), to: to.into(), kind: "calls".into(), label: None, description: None }
}

#[test]
fn manual_edges_group_by_endpoints_and_kind() {
    let groups = manual_groups(&vec![manual("m2", "app.b", "app.a"), manual("m1", "app.a", "app.b"), manual("m3", "app.a", "app.b")]);
    assert_eq!(groups.len(), 2);
    assert_eq!((groups[0].from.as_str(), groups[0].to.as_str(), groups[0].count), ("app.a", "app.b", 2));
    let ids: Vec<&str> = groups[0].manual_edges.iter().map(|m| m.id.as_str()).collect();
    assert_eq!(ids, vec!["m1", "m3"]);
    assert_eq!((groups[1].from.as_str(), groups[1].count), ("app.b", 1));
    assert!(groups.iter().all(|g| g.origin == EdgeOrigin::Manual && g.evidence.is_empty()));
    let merged = architecture_edges(vec![], groups);
    assert_eq!(merged.len(), 2);
    assert_eq!(merged[0].from, "app.a");
}

fn setup() -> (ValidatedConfig, Memberships) {
    let node = |maps: &[&str]| NodeConfig {
        title: None,
        kind: NodeKind::Internal,
        description: None,
        maps: maps.iter().map(|m| m.to_string()).collect(),
        interfaces: vec![],
    };
    let mut nodes = StrMap::new();
    nodes.insert("app".to_string(), node(&[]));
    nodes.insert("app.a".to_string(), node(&["src/a.py"]));
    nodes.insert("app.b".to_string(), node(&["src/b.py"]));
    let config = ArchitectureConfig {
        version: 1,
        project: ProjectConfig { name: "t".into(), root: "app".into(), source_roots: vec![".".into()], exclude: vec![] },
        provider: ProviderConfig { kind: "gitnexus".into(), command: "gitnexus".into(), repo: None, page_size: 5000 },
        policies: Policies { unassigned_files: FilePolicy::Warn, ambiguous_mapping: AmbiguityPolicy::Error },
        nodes,
        edges: vec![manual("m1", "app.b", "app.a")],
        rules: vec![],
    };
    let validated = match validate(config) {
        Ok(v) => v,
        Err(e) => panic!("{}", e.message()),
    };
    let listed = vec!["src/a.py".to_string(), "src/b.py".to_string(), "src/c.py".to_string()];
    let memberships = match resolve(&listed, &validated) {
        Ok(m) => m,
        Err(e) => panic!("{}", e.message()),
    };
    (validated, memberships)
}

#[test]
fn assemble_refuses_an_unacceptable_observation() {
    let (validated, memberships) = setup();
    let info = ProviderInfo { provider: "gitnexus".into(), version: None, repository: None };
    let mut bad = code("src/a.py", "src/b.py");
    bad.kind = "".into();
    let err = assemble("/work/repo", validated, memberships, info, &vec![code("src/b.py", "src/a.py"), bad], 2, 0, vec![]).err().unwrap();
    assert_eq!(err, "provider returned an empty edge kind or non-finite confidence for `src/a.py` -> `src/b.py`; fix provider compatibility");
}

#[test]
fn assemble_compiles_the_architecture_of_the_observations() {
    let (validated, memberships) = setup();
    let info = ProviderInfo { provider: "gitnexus".into(), version: None, repository: None };
    let observed = vec![code("src/a.py", "src/b.py"), code("src/b.py", "src/a.py"), code("src/a.py", "src/c.py")];
    let ir = assemble("/work/repo", validated, memberships, info, &observed, 5, 2, vec![]).ok().unwrap();
    assert_eq!(ir.resolved_edges.len(), 2);
    let edges: Vec<(&str, &str, EdgeOrigin, usize)> =
        ir.edges.iter().map(|e| (e.from.as_str(), e.to.as_str(), e.origin, e.count)).collect();
    assert_eq!(
        edges,
        vec![
            ("app.a", "app.b", EdgeOrigin::Observed, 1),
            ("app.b", "app.a", EdgeOrigin::Observed, 1),
            ("app.b", "app.a", EdgeOrigin::Manual, 1),
        ]
    );
    assert_eq!(ir.diagnostics.provider_anomalies.len(), 1);
    assert!(ir
        .diagnostics
        .warnings
        .contains(&"1 provider edge(s) could not be mapped; inspect diagnostics.provider_anomalies in the IR".to_string()));
    assert_eq!((ir.stats.provider_row_count, ir.stats.filtered_edge_count, ir.stats.observed_edge_count), (5, 2, 3));
    assert_eq!((ir.stats.resolved_edge_count, ir.stats.aggregated_architecture_edge_count, ir.stats.mapped_file_count), (2, 3, 2));
    assert_eq!(ir.stats.unassigned_file_count, 1);
}
