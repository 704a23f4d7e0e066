use archgraph::cli::{check_outcome, matching_violations};
use archgraph::baseline::{compare, Baseline};
use archgraph::config::FilePolicy;
use archgraph::model::CoverageIssue;
use archgraph::context::build;
use archgraph::observations::{current_entries, diff_irs, level_diff_irs};
use archgraph::context_text::markdown;
use archgraph::snapshot::{check_schema, directory, listed_name, missing_text, path, validate_name, SCHEMA_VERSION};
use archgraph::baseline::BaselineEntry;
use archgraph::config::{NodeKind, ProjectConfig, RuleConfig};
use archgraph::evidence::{CompiledEdge, EdgeEvidence, ResolvedEdge};
use archgraph::model::{ArchitectureIr, CompileStats, CompiledFile, CompiledNode, Diagnostics, ProviderInfo};
use archgraph::rules::evaluate;
use archgraph::snapshot::changes::diff;
use archgraph::snapshot::level::level_diff;
use archgraph::snapshot::{LevelDiff, Snapshot};
use archgraph::strmap::StrMap;

fn node(id: &str, parent: Option<&str>, children: &[&str], files: &[&str]) -> CompiledNode {
    CompiledNode {
        id: id.into(),
        title: id.into(),
        kind: NodeKind::Internal,
        description: None,
        parent: parent.map(|p| p.to_string()),
        children: children.iter().map(|c| c.to_string()).collect(),
        direct_files: files.iter().map(|f| f.to_string()).collect(),
        descendant_file_count: files.len(),
        observed_file_count: files.len(),
        unindexed_file_count: 0,
        interfaces: vec![],
    }
}

fn owner(path: &str) -> &'static str {
    if path.starts_with("src/api/") {
        "app.api"
    } else if path.starts_with("src/domain/") {
        "app.domain"
    } else if path.starts_with("src/persistence/") {
        "app.persistence"
    } else {
        "app.shared"
    }
}

fn edge(from: &str, to: &str) -> ResolvedEdge {
    ResolvedEdge {
        from: owner(from).into(),
        to: owner(to).into(),
        kind: "IMPORTS".into(),
        evidence: EdgeEvidence {
            from_file: from.into(),
            to_file: to.into(),
            kind: "IMPORTS".into(),
            confidence: Some(1.0f64.to_bits()),
            reason: Some("fixture".into()),
        },
    }
}

fn deny_storage() -> RuleConfig {
    RuleConfig::DenyDependency {
        id: "deny-storage".into(),
        from: "app.domain".into(),
        to: "app.persistence".into(),
        edge_types: vec!["IMPORTS".into()],
        include_descendants: true,
    }
}

/// The fixture: an API, a domain, persistence and shared types, one file
/// each, with the given domain file and dependencies.
fn ir(domain_file: &str, resolved: Vec<ResolvedEdge>, with_shared: bool) -> ArchitectureIr {
    let mut nodes = StrMap::new();
    let children: &[&str] = if with_shared {
        &["app.api", "app.domain", "app.persistence", "app.shared"]
    } else {
        &["app.api", "app.domain", "app.persistence"]
    };
    nodes.insert("app".into(), node("app", None, children, &[]));
    nodes.insert("app.api".into(), node("app.api", Some("app"), &[], &["src/api/routes.py"]));
    nodes.insert("app.domain".into(), node("app.domain", Some("app"), &[], &[domain_file]));
    nodes.insert("app.persistence".into(), node("app.persistence", Some("app"), &[], &["src/persistence/db.py"]));
    let mut paths = vec!["src/api/routes.py", domain_file, "src/persistence/db.py"];
    if with_shared {
        nodes.insert("app.shared".into(), node("app.shared", Some("app"), &[], &["src/shared/types.py"]));
        paths.push("src/shared/types.py");
    }
    let files = paths
        .iter()
        .map(|p| CompiledFile { path: p.to_string(), node: Some(owner(p).into()), ambiguous_matches: vec![] })
        .collect();
    let rules = vec![deny_storage()];
    let violations = evaluate(&rules, &resolved, 20);
    ArchitectureIr {
        schema_version: 1,
        project: ProjectConfig { name: "fixture".into(), root: ".".into(), source_roots: vec![], exclude: vec![] },
        provider: ProviderInfo { provider: "memory".into(), version: None, repository: None },
        nodes,
        files,
        resolved_edges: resolved,
        edges: Vec::<CompiledEdge>::new(),
        rules,
        violations,
        diagnostics: Diagnostics::new(),
        stats: CompileStats::default(),
        evidence_notice: "Only observed dependencies are checked.".into(),
    }
}

fn snapshot(ir: ArchitectureIr) -> Snapshot {
    Snapshot { schema_version: 1, name: "before".into(), commit: Some("abc123".into()), ir }
}

fn keys(d: &[archgraph::snapshot::EdgeKey]) -> Vec<String> {
    d.iter().map(|k| format!("{} -> {}", k.from, k.to)).collect()
}

fn observations(ir: &ArchitectureIr) -> Vec<BaselineEntry> {
    ir.resolved_edges
        .iter()
        .filter(|e| e.from == "app.domain" && e.to == "app.persistence")
        .map(|e| BaselineEntry {
            rule_id: "deny-storage".into(),
            from_file: e.evidence.from_file.clone(),
            to_file: e.evidence.to_file.clone(),
            kind: e.kind.clone(),
        })
        .collect()
}

fn changed() -> (Snapshot, ArchitectureIr) {
    let before = ir("src/domain/model.py", vec![edge("src/api/routes.py", "src/domain/model.py")], true);
    let after = ir("src/domain/model.py", vec![edge("src/domain/model.py", "src/persistence/db.py")], true);
    (snapshot(before), after)
}

fn level(snapshot: &Snapshot, after: &ArchitectureIr, focus: &str, renames: &StrMap<String>) -> Result<LevelDiff, String> {
    let olds = observations(&snapshot.ir);
    let news = observations(after);
    level_diff(snapshot, after, focus, renames, &olds, &news)
}

#[test]
fn a_level_diff_names_added_and_removed_edges_and_violations() {
    let (snapshot, after) = changed();
    let body = level(&snapshot, &after, "app", &StrMap::new()).unwrap();
    assert!(body.focus_existed);
    assert_eq!(keys(&body.edges_added), ["node:app.domain -> node:app.persistence"]);
    let removed: Vec<String> = body.edges_removed.iter().map(|c| format!("{} -> {}", c.key.from, c.key.to)).collect();
    assert_eq!(removed, ["node:app.api -> node:app.domain"]);
    assert_eq!(body.edges_removed[0].count_before, 1);
    assert_eq!(body.edges_removed[0].count_after, 0);
    let appeared: Vec<&str> = body.violations_appeared.iter().map(|v| v.rule_id.as_str()).collect();
    assert!(appeared.contains(&"deny-storage"));
    assert!(body.violations_resolved.is_empty());
    assert_eq!(body.summary.dependencies_added.len(), 1);
    assert_eq!(body.summary.dependencies_removed.len(), 1);
    assert!(body.entries_added.is_empty());
    assert!(body.edges_changed.is_empty());
    assert_eq!(body.snapshot, "before");
    assert_eq!(body.commit.as_deref(), Some("abc123"));
}

#[test]
fn a_level_the_snapshot_did_not_have_is_all_new() {
    let before = ir("src/domain/model.py", vec![], false);
    let after = ir("src/domain/model.py", vec![], true);
    let body = level(&snapshot(before), &after, "app.shared", &StrMap::new()).unwrap();
    assert!(!body.focus_existed);
    assert_eq!(body.entries_added, vec!["file:src/shared/types.py".to_string()]);
    assert!(body.entries_removed.is_empty());
}

#[test]
fn unknown_nodes_are_refused() {
    let (snapshot, after) = changed();
    let err = level(&snapshot, &after, "app.nothing", &StrMap::new()).unwrap_err();
    assert!(err.contains("unknown architecture node `app.nothing`"), "{err}");
}

#[test]
fn a_level_compared_with_itself_shows_no_change() {
    let snapshot = snapshot(ir("src/domain/model.py", vec![edge("src/domain/model.py", "src/persistence/db.py")], true));
    let same = ir("src/domain/model.py", vec![edge("src/domain/model.py", "src/persistence/db.py")], true);
    let body = level(&snapshot, &same, "app", &StrMap::new()).unwrap();
    assert!(body.entries_added.is_empty());
    assert!(body.entries_removed.is_empty());
    assert!(body.entries_moved.is_empty());
    assert!(body.entries_resized.is_empty());
    assert!(body.edges_added.is_empty());
    assert!(body.edges_removed.is_empty());
    assert!(body.edges_changed.is_empty());
    assert!(body.violations_appeared.is_empty());
    assert!(body.violations_resolved.is_empty());
    assert!(body.summary.is_empty());
}

#[test]
fn a_renamed_file_entry_follows_its_file() {
    let before = ir("src/domain/model.py", vec![edge("src/domain/model.py", "src/persistence/db.py")], true);
    let after = ir("src/domain/models.py", vec![
        edge("src/domain/models.py", "src/persistence/db.py"),
        edge("src/domain/models.py", "src/persistence/db.py"),
    ], true);
    let mut renames = StrMap::new();
    renames.insert("src/domain/model.py".to_string(), "src/domain/models.py".to_string());
    let body = level(&snapshot(before), &after, "app.domain", &renames).unwrap();
    assert_eq!(body.entries_moved.len(), 1);
    assert_eq!(body.entries_moved[0].from, "file:src/domain/model.py");
    assert_eq!(body.entries_moved[0].to, "file:src/domain/models.py");
    assert!(body.entries_added.is_empty());
    assert!(body.entries_removed.is_empty());
    assert!(body.edges_added.is_empty());
    assert_eq!(body.edges_changed.len(), 1);
    assert_eq!(body.edges_changed[0].key.from, "file:src/domain/models.py");
    assert_eq!(body.edges_changed[0].count_before, 1);
    assert_eq!(body.edges_changed[0].count_after, 2);
    assert_eq!(body.summary.files_moved.len(), 1);
    assert_eq!(body.summary.files_moved[0].from, "src/domain/model.py");
    assert_eq!(body.summary.files_moved[0].to, "src/domain/models.py");
}

#[test]
fn without_the_rename_a_moved_file_is_removed_and_added() {
    let before = ir("src/domain/model.py", vec![], true);
    let after = ir("src/domain/models.py", vec![], true);
    let body = level(&snapshot(before), &after, "app.domain", &StrMap::new()).unwrap();
    assert!(body.entries_moved.is_empty());
    assert_eq!(body.entries_added, vec!["file:src/domain/models.py".to_string()]);
    assert_eq!(body.entries_removed.len(), 1);
    assert_eq!(body.entries_removed[0].id, "file:src/domain/model.py");
    assert_eq!(body.entries_removed[0].file_path.as_deref(), Some("src/domain/model.py"));
    let d = diff(&snapshot(ir("src/domain/model.py", vec![], true)), &after, None, &StrMap::new(), &vec![], &vec![]);
    assert_eq!(d.files_added.len(), 1);
    assert_eq!(d.files_added[0].path, "src/domain/models.py");
    assert_eq!(d.files_removed.len(), 1);
    assert_eq!(d.files_removed[0].path, "src/domain/model.py");
    assert!(d.files_moved.is_empty());
}

#[test]
fn a_diff_reports_reassigned_files_and_resolved_violations() {
    let before = ir("src/domain/model.py", vec![edge("src/domain/model.py", "src/persistence/db.py")], true);
    let mut after = ir("src/domain/model.py", vec![], true);
    after.files[0].node = Some("app.shared".into());
    let olds = observations(&before);
    let d = diff(&snapshot(before), &after, None, &StrMap::new(), &olds, &vec![]);
    assert_eq!(d.files_reassigned.len(), 1);
    assert_eq!(d.files_reassigned[0].path, "src/api/routes.py");
    assert_eq!(d.files_reassigned[0].node_before.as_deref(), Some("app.api"));
    assert_eq!(d.files_reassigned[0].node_after.as_deref(), Some("app.shared"));
    assert_eq!(d.violations_resolved.len(), 1);
    assert_eq!(d.violations_resolved[0].rule_id, "deny-storage");
    assert_eq!(d.dependencies_removed.len(), 1);
    assert_eq!(d.dependencies_removed[0].from_file, "src/domain/model.py");
    assert!(d.violations_appeared.is_empty());
}

#[test]
fn missing_snapshots_name_those_that_are_saved() {
    assert_eq!(
        missing_text("x", &vec![]),
        "no snapshot named `x` (there are none; take one with `archgraph snapshot`)"
    );
    assert_eq!(
        missing_text("x", &vec!["a".to_string(), "before".to_string()]),
        "no snapshot named `x` (saved: a, before)"
    );
}

#[test]
fn another_schema_and_bad_names_are_refused() {
    assert!(check_schema("s.json", "before", SCHEMA_VERSION).is_ok());
    assert_eq!(
        check_schema("s.json", "before", 7).unwrap_err(),
        "s.json: unsupported snapshot schema 7; take it again with `archgraph snapshot --name before`"
    );
    assert!(validate_name("../secret").is_err());
    assert!(validate_name(".hidden").is_err());
    assert!(validate_name("").is_err());
    assert!(validate_name(&"a".repeat(65)).is_err());
    assert!(validate_name("release-1.2_b").is_ok());
    assert_eq!(listed_name("before.json").as_deref(), Some("before"));
    assert_eq!(listed_name(".hidden.json"), None);
    assert_eq!(listed_name("notes.txt"), None);
    assert_eq!(listed_name(".json"), None);
}

#[test]
fn check_reports_the_violations_of_a_subtree_and_refuses_unknown_nodes() {
    let ir = ir("src/domain/model.py", vec![edge("src/domain/model.py", "src/persistence/db.py")], true);
    assert_eq!(matching_violations(&ir, None).unwrap().len(), 1);
    assert_eq!(matching_violations(&ir, Some("app.domain")).unwrap().len(), 1);
    assert_eq!(matching_violations(&ir, Some("app")).unwrap().len(), 1);
    assert!(matching_violations(&ir, Some("app.api")).unwrap().is_empty());
    match matching_violations(&ir, Some("app.nothing")) {
        Ok(_) => panic!("an unknown node was accepted"),
        Err(e) => assert_eq!(e, "unknown architecture node `app.nothing`; inspect `archgraph show` or use UI search"),
    }
}

#[test]
fn a_diff_against_the_same_architecture_is_empty() {
    let make = || ir("src/domain/model.py", vec![edge("src/domain/model.py", "src/persistence/db.py")], true);
    let live = make();
    let saved = snapshot(make());
    let mut renames = StrMap::new();
    renames.insert("src/api/routes.py".to_string(), "src/api/new.py".to_string());
    let entries = observations(&live);
    let d = diff(&saved, &live, Some("app.domain"), &renames, &entries, &entries);
    assert!(d.is_empty());
    assert_eq!((d.snapshot.as_str(), d.commit.as_deref(), d.scope.as_deref()), ("before", Some("abc123"), Some("app.domain")));
}

#[test]
fn the_context_of_a_node_splits_its_observed_dependencies() {
    let live = ir(
        "src/domain/model.py",
        vec![edge("src/domain/model.py", "src/persistence/db.py"), edge("src/api/routes.py", "src/domain/model.py")],
        true,
    );
    let whole = build(&live, "app", 20).ok().unwrap();
    assert_eq!(whole.observed_internal.len(), 2);
    assert!(whole.observed_incoming.is_empty() && whole.observed_outgoing.is_empty());
    assert!(whole.observed_internal.iter().any(|e| e.edge.from == "node:app.domain"));
    assert_eq!(whole.rules.len(), 1);
    let domain = build(&live, "app.domain", 20).ok().unwrap();
    assert_eq!(domain.observed_incoming.len(), 1);
    assert_eq!(domain.observed_outgoing.len(), 1);
    assert!(domain.observed_internal.is_empty());
    assert_eq!(domain.rules.len(), 1);
    assert_eq!(domain.agent_contract.len(), 8);
    assert_eq!(
        domain.agent_contract[4],
        "Then run `archgraph check app.domain` (or `archgraph check app.domain --reindex` to do both)."
    );
    let api = build(&live, "app.api", 20).ok().unwrap();
    // The API names no rule; it sees the storage rule only through a violation it shows.
    assert_eq!(api.rules.len(), if api.projection.violations.is_empty() { 0 } else { 1 });
    assert!(build(&live, "app.missing", 20).is_err());
}

#[test]
fn snapshot_files_are_joined_below_the_root() {
    assert_eq!(path("", "a").ok().unwrap(), ".archgraph/snapshots/a.json");
    assert_eq!(path("/repo/", "before").ok().unwrap(), "/repo/.archgraph/snapshots/before.json");
    assert_eq!(path("repo", "v1.2").ok().unwrap(), "repo/.archgraph/snapshots/v1.2.json");
    assert_eq!(directory("repo"), "repo/.archgraph/snapshots");
    assert!(path("repo", "../x").is_err());
}

#[test]
fn check_fails_on_new_violations_and_on_coverage_under_an_error_policy() {
    let live = ir("src/domain/model.py", vec![edge("src/domain/model.py", "src/persistence/db.py")], true);
    let matching = matching_violations(&live, Some("app.domain")).ok().unwrap();
    assert_eq!(matching.len(), 1);
    let issue = |node: &str| CoverageIssue { rule_id: "deny-storage".into(), node: node.into(), observed_files: 0, unindexed_files: 0, total_files: 3 };
    let coverage = vec![issue("app.domain"), issue("app.api")];
    let plain = check_outcome(&matching, None, &coverage, FilePolicy::Warn, Some("app.domain"));
    assert_eq!((plain.failing.len(), plain.coverage_failures.len(), plain.exit), (1, 0, 2));
    let strict = check_outcome(&matching, None, &coverage, FilePolicy::Error, Some("app.domain"));
    assert_eq!((strict.coverage_failures.len(), strict.exit), (1, 1));
    assert_eq!(strict.coverage_failures[0].node, "app.domain");
    let everywhere = check_outcome(&matching, None, &coverage, FilePolicy::Error, None);
    assert_eq!(everywhere.coverage_failures.len(), 2);
    // A baseline that accepts every observation leaves nothing failing.
    let entries = vec![observations(&live)];
    let current = observations(&live);
    let baseline = Baseline { schema_version: 1, note: String::new(), entries: current.clone() };
    let comparison = compare(&matching, &entries, &current, &baseline);
    let no_issues: Vec<CoverageIssue> = vec![];
    let accepted = check_outcome(&matching, Some(&comparison), &no_issues, FilePolicy::Error, Some("app.domain"));
    assert_eq!((accepted.failing.len(), accepted.exit), (0, 0));
    let empty = Baseline { schema_version: 1, note: String::new(), entries: vec![] };
    let comparison = compare(&matching, &entries, &current, &empty);
    let fresh = check_outcome(&matching, Some(&comparison), &no_issues, FilePolicy::Warn, None);
    assert_eq!((fresh.failing.len(), fresh.exit), (1, 2));
}

#[test]
fn the_context_markdown_shows_focus_dependencies_rules_and_contract() {
    let live = ir(
        "src/domain/model.py",
        vec![edge("src/domain/model.py", "src/persistence/db.py"), edge("src/api/routes.py", "src/domain/model.py")],
        true,
    );
    let context = build(&live, "app.domain", 20).ok().unwrap();
    let table = vec![(1.0f64.to_bits(), "1".to_string())];
    let json: Vec<String> = context.rules.iter().map(|_| "{\n  \"id\": \"deny-storage\"\n}".to_string()).collect();
    let text = markdown(&context, &table, &json);
    assert!(text.starts_with("# Architecture context: app.domain\n\n**app.domain** — 1 files in this subtree, 1 with observed dependencies.\n\nPurpose: No description authored.\n\n## Children and files\n\n"), "{text}");
    assert!(text.contains("\n## Interfaces\n\nNo interfaces authored for this node.\n"), "{text}");
    assert!(text.contains("  - `src/domain/model.py` → `src/persistence/db.py` [IMPORTS] confidence=1 — fixture\n"), "{text}");
    assert!(text.contains("\n## Observed internal dependencies\n\nNo observed dependencies at this projection level.\n"), "{text}");
    assert!(text.contains("### `deny-storage`\n\n```json\n{\n  \"id\": \"deny-storage\"\n}\n```\n\n"), "{text}");
    assert!(text.contains("\n## Violations\n\n### `deny-storage`\n\n"), "{text}");
    assert!(text.contains("Agent contract"));
    assert!(text.contains("gitnexus analyze --index-only"));
    assert!(text.ends_with("- Only observed dependencies are checked. No observed edge is not proof that no runtime dependency exists.\n"));
}

#[test]
fn the_current_entries_are_the_observations_behind_the_violations() {
    let live = ir(
        "src/domain/model.py",
        vec![edge("src/domain/model.py", "src/persistence/db.py"), edge("src/api/routes.py", "src/domain/model.py")],
        true,
    );
    assert_eq!(current_entries(&live), observations(&live));
    let (saved, after) = changed();
    let d = diff_irs(&saved, &after, None, &StrMap::new());
    assert_eq!(d.violations_appeared, observations(&after));
    assert!(d.violations_resolved.is_empty());
    let level = level_diff_irs(&saved, &after, "app", &StrMap::new()).ok().unwrap();
    assert_eq!(level.summary.violations_appeared.len(), 1);
}
