use archgraph::config::{ManualEdgeConfig, NodeKind, ProjectConfig};
use archgraph::evidence::{CompiledEdge, EdgeEvidence, ResolvedEdge};
use archgraph::mermaid;
use archgraph::model::{ArchitectureIr, CompileStats, CompiledFile, CompiledNode, Diagnostics, EdgeOrigin, ProviderInfo};
use archgraph::projection::{project, project_with};
use archgraph::projection::EntryKind;
use archgraph::render::text;
use archgraph::strmap::StrMap;

fn node(id: &str, parent: Option<&str>, children: &[&str], files: &[&str], kind: NodeKind) -> CompiledNode {
    CompiledNode {
        id: id.into(),
        title: id.into(),
        kind,
        description: None,
        parent: parent.map(|p| p.to_string()),
        children: children.iter().map(|c| c.to_string()).collect(),
        direct_files: files.iter().map(|f| f.to_string()).collect(),
        descendant_file_count: files.len(),
        observed_file_count: files.len(),
        unindexed_file_count: 0,
        interfaces: vec![],
    }
}

fn owner(path: &str) -> &'static str {
    if path.starts_with("src/api/handlers/") {
        "app.api.handlers"
    } else if path.starts_with("src/api/") {
        "app.api"
    } else if path.starts_with("src/domain/") {
        "app.domain"
    } else if path.starts_with("src/persistence/") {
        "app.persistence"
    } else {
        "app"
    }
}

fn edge(from: &str, to: &str) -> ResolvedEdge {
    ResolvedEdge {
        from: owner(from).into(),
        to: owner(to).into(),
        kind: "IMPORTS".into(),
        evidence: EdgeEvidence {
            from_file: from.into(),
            to_file: to.into(),
            kind: "IMPORTS".into(),
            confidence: Some(0.8f64.to_bits()),
            reason: Some("fixture".into()),
        },
    }
}

fn imports() -> Vec<ResolvedEdge> {
    vec![
        edge("src/api/routes.py", "src/domain/model.py"),
        edge("src/api/handlers/route.py", "src/domain/model.py"),
        edge("src/domain/model.py", "src/persistence/db.py"),
        edge("src/persistence/db.py", "src/domain/model.py"),
    ]
}

fn ir(resolved: Vec<ResolvedEdge>, domain_files: &[&str]) -> ArchitectureIr {
    let mut nodes = StrMap::new();
    for n in [
        node("app", None, &["app.api", "app.domain", "app.persistence"], &["src/main.py"], NodeKind::Internal),
        node("app.api", Some("app"), &["app.api.handlers"], &["src/api/routes.py"], NodeKind::Internal),
        node("app.api.handlers", Some("app.api"), &[], &["src/api/handlers/route.py"], NodeKind::Internal),
        node("app.domain", Some("app"), &[], domain_files, NodeKind::Internal),
        node("app.persistence", Some("app"), &[], &["src/persistence/db.py"], NodeKind::Internal),
        node("external.service", None, &[], &[], NodeKind::External),
    ] {
        nodes.insert(n.id.clone(), n);
    }
    let manual = ManualEdgeConfig {
        id: "calls-service".into(),
        from: "app".into(),
        to: "external.service".into(),
        kind: "http".into(),
        label: None,
        description: None,
    };
    ArchitectureIr {
        schema_version: 1,
        project: ProjectConfig { name: "fixture".into(), root: ".".into(), source_roots: vec![], exclude: vec![] },
        provider: ProviderInfo { provider: "memory".into(), version: None, repository: None },
        nodes,
        files: vec![CompiledFile { path: "src/main.py".into(), node: Some("app".into()), ambiguous_matches: vec![] }],
        resolved_edges: resolved,
        edges: vec![CompiledEdge {
            from: "app".into(),
            to: "external.service".into(),
            kind: "http".into(),
            origin: EdgeOrigin::Manual,
            count: 1,
            evidence: vec![],
            confidence_min: None,
            confidence_max: None,
            manual_edges: vec![manual],
        }],
        rules: vec![],
        violations: vec![],
        diagnostics: Diagnostics::new(),
        stats: CompileStats::default(),
        evidence_notice: "Only observed dependencies are checked.".into(),
    }
}

#[test]
fn focus_projects_deep_edges_and_retains_direct_ownership() {
    let ir = ir(imports(), &["src/domain/model.py"]);
    let view = project(&ir, "app", 20).unwrap();
    assert!(view.nodes.iter().any(|n| n.id == "node:app.api"));
    assert!(!view.nodes.iter().any(|n| n.id == "node:app.api.handlers"));
    assert!(view.nodes.iter().any(|n| n.entry_kind == EntryKind::DirectFiles));
    let aggregated = view
        .edges
        .iter()
        .find(|e| e.edge.from == "node:app.api" && e.edge.to == "node:app.domain")
        .unwrap();
    assert_eq!(aggregated.edge.count, 2);
    assert_eq!(aggregated.edge.evidence.len(), 2);
    assert!(view.edges.iter().all(|e| e.edge.from != e.edge.to));
    let crumbs: Vec<&str> = view.breadcrumbs.iter().map(|b| b.id.as_str()).collect();
    assert_eq!(crumbs, vec!["app"]);
}

#[test]
fn cross_boundary_incoming_outgoing_and_manual_edges_survive() {
    let ir = ir(imports(), &["src/domain/model.py"]);
    let view = project(&ir, "app.domain", 20).unwrap();
    assert!(view.nodes.iter().any(|n| n.entry_kind == EntryKind::File
        && n.file_path.as_deref() == Some("src/domain/model.py")));
    assert!(view
        .nodes
        .iter()
        .any(|n| n.outside_focus && n.architecture_id.as_deref() == Some("app.persistence")));
    assert!(view
        .edges
        .iter()
        .any(|e| e.edge.from == "file:src/domain/model.py" && e.edge.to == "node:app.persistence"));
    assert!(view
        .edges
        .iter()
        .any(|e| e.edge.from == "node:app.persistence" && e.edge.to == "file:src/domain/model.py"));
    let crumbs: Vec<&str> = view.breadcrumbs.iter().map(|b| b.id.as_str()).collect();
    assert_eq!(crumbs, vec!["app", "app.domain"]);
    let root = project(&ir, "app", 20).unwrap();
    let manual = root.edges.iter().find(|e| e.edge.from == "boundary:app").unwrap();
    assert_eq!(manual.edge.origin, EdgeOrigin::Manual);
    assert!(manual.edge.evidence.is_empty());
    assert_eq!(manual.edge.count, 1);
    assert_eq!(manual.edge.manual_edges[0].id, "calls-service");
    assert!(root
        .nodes
        .iter()
        .any(|n| n.outside_focus && n.architecture_id.as_deref() == Some("external.service")));
}

#[test]
fn leaf_projection_is_lossless_beyond_aggregated_evidence_cap() {
    let mut files: Vec<String> = (0..65).map(|i| format!("src/domain/file{i:03}.py")).collect();
    files.push("src/domain/model.py".into());
    let edges: Vec<ResolvedEdge> = files[..65].iter().map(|f| edge(f, "src/domain/model.py")).collect();
    let refs: Vec<&str> = files.iter().map(|f| f.as_str()).collect();
    let ir = ir(edges, &refs);
    let leaf = project(&ir, "app.domain", 20).unwrap();
    assert_eq!(leaf.edges.len(), 65);
    assert_eq!(leaf.nodes.len(), 66);
}

#[test]
fn entries_inside_come_first_and_in_order() {
    let ir = ir(imports(), &["src/domain/model.py"]);
    let view = project(&ir, "app.domain", 20).unwrap();
    let ids: Vec<&str> = view.nodes.iter().map(|n| n.id.as_str()).collect();
    assert_eq!(ids, vec!["file:src/domain/model.py", "node:app.api", "node:app.api.handlers", "node:app.persistence"]);
    let edges: Vec<(&str, &str)> = view.edges.iter().map(|e| (e.edge.from.as_str(), e.edge.to.as_str())).collect();
    assert_eq!(
        edges,
        vec![
            ("file:src/domain/model.py", "node:app.persistence"),
            ("node:app.api", "file:src/domain/model.py"),
            ("node:app.api.handlers", "file:src/domain/model.py"),
            ("node:app.persistence", "file:src/domain/model.py"),
        ]
    );
}

#[test]
fn an_unknown_focus_is_named() {
    let ir = ir(imports(), &["src/domain/model.py"]);
    let error = project(&ir, "app.missing", 20).err().unwrap();
    assert_eq!(error, "unknown architecture node `app.missing`; use `archgraph show` or UI search to find a valid ID");
}

#[test]
fn a_missing_child_is_an_error_not_an_empty_view() {
    let mut ir = ir(imports(), &["src/domain/model.py"]);
    let mut nodes = StrMap::new();
    for i in 0..ir.nodes.len() {
        if ir.nodes.key(i) != "app.persistence" {
            nodes.insert(ir.nodes.key(i).clone(), ir.nodes.value(i).clone());
        }
    }
    ir.nodes = nodes;
    assert_eq!(project(&ir, "app", 20).err().unwrap(), "IR focus child is missing");
    assert!(project(&ir, "app.api", 20).is_ok());
}

#[test]
fn text_and_mermaid_views_of_a_projection() {
    let ir = ir(imports(), &["src/domain/model.py"]);
    let view = project_with(&ir, "app.domain", &vec![], 20).unwrap();
    let text = text::render(&view);
    assert!(text.starts_with("app.domain — app.domain\n\nChildren / files\n"));
    assert!(text.contains("  app.persistence — 1 file(s) [outside focus]\n    app.persistence\n"));
    assert!(text.contains("  file:src/domain/model.py -> node:app.persistence  IMPORTS × 1 [observed]\n"));
    assert!(text.ends_with("\nViolations touching this view: 0\n\nOnly observed dependencies are checked.\n"));
    let chart = mermaid::render(&view);
    assert_eq!(
        chart,
        "flowchart LR\n  n0[\"src/domain/model.py\"]\n  n1[\"app.api #40;outside#41;\"]\n  n2[\"app.api.handlers #40;outside#41;\"]\n  n3[\"app.persistence #40;outside#41;\"]\n  n0 -->|\"IMPORTS #215; 1\"| n3\n  n1 -->|\"IMPORTS #215; 1\"| n0\n  n2 -->|\"IMPORTS #215; 1\"| n0\n  n3 -->|\"IMPORTS #215; 1\"| n0\n"
    );
    assert_eq!(view.endpoint_name("node:app.api"), "app.api");
    assert_eq!(view.endpoint_name("file:src/domain/model.py"), "src/domain/model.py");
    assert_eq!(view.endpoint_name("node:elsewhere"), "node:elsewhere");
}
