use archgraph::baseline::BaselineEntry;
use archgraph::config::NodeKind;
use archgraph::model::{CompiledFile, CompiledNode};
use archgraph::projection::{architecture_entry, boundary_entry, direct_entry, display_name, file_entry, EntryKind};
use archgraph::render::diff::render;
use archgraph::render::Owners;
use archgraph::snapshot::{DependencyChange, Diff, FileChange, FileMove, Reassignment};

fn empty_diff() -> Diff {
    Diff {
        snapshot: "before".into(),
        commit: Some("0123456789abcdef".into()),
        scope: Some("app.a".into()),
        files_added: vec![],
        files_removed: vec![],
        files_moved: vec![],
        files_reassigned: vec![],
        dependencies_added: vec![],
        dependencies_removed: vec![],
        violations_appeared: vec![],
        violations_resolved: vec![],
    }
}

#[test]
fn an_unchanged_architecture_says_so() {
    assert_eq!(
        render(&empty_diff()),
        "Changes since snapshot `before` (taken at 0123456789ab) in app.a\n\nNo changes: the same files, dependencies and violations.\n"
    );
}

#[test]
fn changes_are_counted_and_listed_by_section() {
    let mut diff = empty_diff();
    diff.commit = None;
    diff.scope = None;
    diff.violations_appeared.push(BaselineEntry {
        rule_id: "deny".into(),
        from_file: "a.rs".into(),
        to_file: "b.rs".into(),
        kind: "IMPORTS".into(),
    });
    diff.dependencies_removed.push(DependencyChange {
        from_file: "a.rs".into(),
        to_file: "c.rs".into(),
        kind: "CALLS".into(),
        from_node: "app.a".into(),
        to_node: "app.c".into(),
    });
    diff.files_moved.push(FileMove { from: "x.rs".into(), to: "y.rs".into(), node_before: Some("app.a".into()), node_after: Some("app.a".into()) });
    diff.files_moved.push(FileMove { from: "p.rs".into(), to: "q.rs".into(), node_before: None, node_after: Some("app.b".into()) });
    diff.files_reassigned.push(Reassignment { path: "r.rs".into(), node_before: Some("app.a".into()), node_after: None });
    diff.files_added.push(FileChange { path: "n.rs".into(), node: None });
    let text = render(&diff);
    assert_eq!(
        text,
        "Changes since snapshot `before`\n  violations: +1 / -0 observation(s)\n  dependencies: +0 / -1\n  files: +1 / -0, 2 moved, 1 reassigned\n\
\nNew violation observations (1):\n  [deny] a.rs -> b.rs [IMPORTS]\n\
\nDependencies removed (1):\n  a.rs -> c.rs [CALLS]  (app.a -> app.c)\n\
\nFiles moved (2):\n  x.rs -> y.rs  (app.a)\n  p.rs -> q.rs  ((unassigned) -> app.b)\n\
\nFiles reassigned by the architecture (1):\n  r.rs  (app.a -> (unassigned))\n\
\nFiles added (1):\n  n.rs  ((unassigned))\n"
    );
}

#[test]
fn long_sections_are_cut_with_a_count() {
    let mut diff = empty_diff();
    for i in 0..53 {
        diff.files_added.push(FileChange { path: format!("f{i}.rs"), node: Some("app".into()) });
    }
    let text = render(&diff);
    assert!(text.contains("\nFiles added (53):\n"));
    assert!(text.contains("  f49.rs  (app)\n"));
    assert!(!text.contains("f50.rs"));
    assert!(text.ends_with("  … and 3 more (--json lists all)\n"));
}

fn node(id: &str) -> CompiledNode {
    CompiledNode {
        id: id.into(),
        title: "Billing".into(),
        kind: NodeKind::Internal,
        description: Some("bills".into()),
        parent: None,
        children: vec![],
        direct_files: vec!["a.rs".into(), "b.rs".into()],
        descendant_file_count: 7,
        observed_file_count: 3,
        unindexed_file_count: 0,
        interfaces: vec![],
    }
}

#[test]
fn entries_are_namespaced_and_displayed_by_their_identity() {
    let n = node("app.billing");
    let a = architecture_entry(&n, true);
    assert_eq!(a.id, "node:app.billing");
    assert_eq!(a.file_count, 7);
    assert_eq!(a.observed_file_count, Some(3));
    assert!(a.outside_focus);
    assert_eq!(display_name(&a), "app.billing");
    let f = file_entry("src/a.rs", &n);
    assert_eq!(f.id, "file:src/a.rs");
    assert_eq!(f.entry_kind, EntryKind::File);
    assert_eq!(display_name(&f), "src/a.rs");
    let d = direct_entry(&n);
    assert_eq!(d.id, "direct:app.billing");
    assert_eq!(d.file_count, 2);
    assert_eq!(display_name(&d), "app.billing (direct files)");
    let b = boundary_entry(&n);
    assert_eq!(b.id, "boundary:app.billing");
    assert_eq!(b.title, "Billing (boundary)");
    assert_eq!(display_name(&b), "app.billing (boundary)");
}

#[test]
fn owners_follow_the_files_that_have_one() {
    let files = vec![
        CompiledFile { path: "a.rs".into(), node: Some("app.a".into()), ambiguous_matches: vec![] },
        CompiledFile { path: "b.rs".into(), node: None, ambiguous_matches: vec![] },
    ];
    let owners = Owners::new(&files);
    assert_eq!(owners.of("a.rs"), Some("app.a"));
    assert_eq!(owners.of("b.rs"), None);
    assert!(owners.within("a.rs", Some("app")));
    assert!(!owners.within("a.rs", Some("app.b")));
    assert!(owners.within("b.rs", None));
    assert!(!owners.within("b.rs", Some("app")));
}
