use archgraph::rules::strongly_connected_components;
use archgraph::strmap::StrMap;

fn graph(edges: &[(&str, &[&str])]) -> StrMap<Vec<String>> {
    let mut g = StrMap::new();
    for (from, targets) in edges {
        g.insert(from.to_string(), targets.iter().map(|t| t.to_string()).collect());
    }
    g
}

#[test]
fn scc_handles_disjoint_cycles_and_dag() {
    let g = graph(&[
        ("a", &["b"]),
        ("b", &["a", "c"]),
        ("c", &["d"]),
        ("d", &["c"]),
        ("e", &["f"]),
        ("f", &[]),
    ]);
    assert_eq!(strongly_connected_components(&g), vec![vec!["a", "b"], vec!["c", "d"], vec!["e"], vec!["f"]]);
}

#[test]
fn targets_without_their_own_entry_are_vertices() {
    let g = graph(&[("z", &["y"]), ("y", &["x", "z"])]);
    assert_eq!(strongly_connected_components(&g), vec![vec!["x"], vec!["y", "z"]]);
}

#[test]
fn a_long_cycle_is_one_component() {
    let g = graph(&[("a", &["b"]), ("b", &["c"]), ("c", &["d"]), ("d", &["a"]), ("e", &["a"])]);
    assert_eq!(strongly_connected_components(&g), vec![vec!["a", "b", "c", "d"], vec!["e"]]);
}

#[test]
fn an_empty_graph_has_no_components() {
    let g = graph(&[]);
    assert!(strongly_connected_components(&g).is_empty());
}

use archgraph::config::RuleConfig;
use archgraph::evidence::{EdgeEvidence, ResolvedEdge};
use archgraph::rules::{evaluate, violation_touches};

fn edge(from: &str, to: &str) -> ResolvedEdge {
    ResolvedEdge {
        from: from.into(),
        to: to.into(),
        kind: "IMPORTS".into(),
        evidence: EdgeEvidence {
            from_file: format!("{from}.rs"),
            to_file: format!("{to}.rs"),
            kind: "IMPORTS".into(),
            confidence: None,
            reason: None,
        },
    }
}

#[test]
fn deny_dependency_subtrees_and_exact_mode() {
    let edges = vec![edge("app.a.child", "app.b"), edge("app.aa", "app.b")];
    let rule = RuleConfig::DenyDependency {
        id: "deny".into(),
        from: "app.a".into(),
        to: "app.b".into(),
        edge_types: vec!["IMPORTS".into()],
        include_descendants: true,
    };
    let found = evaluate(&[rule], &edges, 20);
    assert_eq!(found.len(), 1);
    assert_eq!(found[0].count, 1);
    let exact = RuleConfig::DenyDependency {
        id: "deny".into(),
        from: "app.a".into(),
        to: "app.b".into(),
        edge_types: vec!["IMPORTS".into()],
        include_descendants: false,
    };
    assert!(evaluate(&[exact], &edges, 20).is_empty());
}

#[test]
fn allow_only_permits_internal_and_allowlisted_dependencies() {
    let rule = RuleConfig::AllowOnly {
        id: "allow".into(),
        from: "app.a".into(),
        to: vec!["app.shared".into()],
        edge_types: vec!["IMPORTS".into()],
        include_descendants: true,
    };
    let edges = vec![
        edge("app.a.x", "app.a.y"),
        edge("app.a.x", "app.shared.x"),
        edge("app.a.x", "app.sharedish"),
        edge("app.b", "app.c"),
    ];
    let found = evaluate(&[rule], &edges, 20);
    assert_eq!(found.len(), 1);
    assert_eq!(found[0].to.as_deref(), Some("app.sharedish"));
}

#[test]
fn cycles_are_sccs_at_immediate_child_level_with_all_edge_evidence() {
    let rule = RuleConfig::NoCycles {
        id: "cycles".into(),
        within: "app".into(),
        edge_types: vec!["IMPORTS".into()],
    };
    let edges = vec![
        edge("app.a.x", "app.b.y"),
        edge("app.b.z", "app.a.y"),
        edge("app.a.x", "app.a.y"),
        edge("app.b.z", "app.c"),
        edge("elsewhere", "app.a"),
    ];
    let found = evaluate(&[rule], &edges, 20);
    assert_eq!(found.len(), 1);
    assert_eq!(found[0].nodes, ["app.a", "app.b"]);
    assert_eq!(found[0].count, 2);
    assert_eq!(found[0].architecture_edges.len(), 2);
    assert!(found[0].architecture_edges.iter().all(|e| !e.evidence.is_empty()));
}

#[test]
fn self_edges_and_other_edge_kinds_are_ignored() {
    let rule = RuleConfig::NoCycles {
        id: "cycles".into(),
        within: "app".into(),
        edge_types: vec!["CALLS".into()],
    };
    assert!(evaluate(&[rule], &[edge("app.a", "app.b"), edge("app.b", "app.a")], 20).is_empty());
}

#[test]
fn cycle_violation_names_its_members_and_affected_owners() {
    let rule = RuleConfig::NoCycles {
        id: "cycles".into(),
        within: "app".into(),
        edge_types: vec!["IMPORTS".into()],
    };
    let found = evaluate(&[rule], &[edge("app.a.x", "app.b"), edge("app.b", "app.a")], 20);
    assert_eq!(found.len(), 1);
    let v = &found[0];
    assert_eq!(v.from.as_deref(), Some("app"));
    assert_eq!(v.to, None);
    assert_eq!(v.edge_kind.as_deref(), Some("IMPORTS"));
    assert_eq!(v.affected_nodes, ["app.a", "app.a.x", "app.b"]);
    assert_eq!(
        v.message,
        "cycle among immediate children of `app`: app.a, app.b; 2 observed dependencies participate (SCC, not an ordered cycle path)"
    );
    assert!(violation_touches(v, "app.a"));
    assert!(!violation_touches(v, "app.c"));
}

#[test]
fn dependency_violation_message_and_report_order() {
    let deny = RuleConfig::DenyDependency {
        id: "z-deny".into(),
        from: "app.a".into(),
        to: "app.b".into(),
        edge_types: vec!["IMPORTS".into()],
        include_descendants: true,
    };
    let allow = RuleConfig::AllowOnly {
        id: "a-allow".into(),
        from: "app.a".into(),
        to: vec![],
        edge_types: vec!["IMPORTS".into()],
        include_descendants: true,
    };
    let edges = vec![edge("app.a", "app.b"), edge("app.a", "app.b"), edge("app.a", "app.c")];
    let found = evaluate(&[deny, allow], &edges, 1);
    let ids: Vec<(&str, &str)> = found.iter().map(|v| (v.rule_id.as_str(), v.to.as_deref().unwrap())).collect();
    assert_eq!(ids, [("a-allow", "app.b"), ("a-allow", "app.c"), ("z-deny", "app.b")]);
    assert_eq!(found[2].message, "app.a -> app.b [IMPORTS] × 2 violates deny_dependency `z-deny`");
    assert_eq!(found[2].count, 2);
    assert_eq!(found[2].evidence.len(), 1);
    assert_eq!(found[2].nodes, ["app.a", "app.b"]);
}

fn observed(from: &str, to: &str, n: usize) -> Vec<ResolvedEdge> {
    (0..n)
        .map(|i| ResolvedEdge {
            from: from.into(),
            to: to.into(),
            kind: "IMPORTS".into(),
            evidence: EdgeEvidence {
                from_file: format!("{from}/{i}.rs"),
                to_file: format!("{to}/{i}.rs"),
                kind: "IMPORTS".into(),
                confidence: None,
                reason: None,
            },
        })
        .collect()
}

fn no_cycles() -> RuleConfig {
    RuleConfig::NoCycles { id: "acyclic".into(), within: "app".into(), edge_types: vec!["IMPORTS".into()] }
}

#[test]
fn a_cycle_is_layered_with_the_fewest_upward_observations() {
    let mut edges = observed("app.a", "app.b", 5);
    edges.extend(observed("app.b", "app.c", 5));
    edges.extend(observed("app.c", "app.a", 1));
    let found = evaluate(&[no_cycles()], &edges, 20);
    assert_eq!(found.len(), 1);
    assert_eq!(found[0].layer_order, vec!["app.a".to_string(), "app.b".to_string(), "app.c".to_string()]);
    assert_eq!(found[0].suggested_cuts.len(), 1);
    assert_eq!(found[0].suggested_cuts[0].from, "app.c");
    assert_eq!(found[0].suggested_cuts[0].to, "app.a");
    assert_eq!(found[0].suggested_cuts[0].count, 1);
}

#[test]
fn cuts_list_the_most_observed_upward_dependency_first() {
    let mut edges = observed("app.a", "app.b", 10);
    edges.extend(observed("app.b", "app.a", 2));
    edges.extend(observed("app.b", "app.c", 10));
    edges.extend(observed("app.c", "app.b", 3));
    let found = evaluate(&[no_cycles()], &edges, 20);
    assert_eq!(found.len(), 1);
    assert_eq!(found[0].layer_order, vec!["app.a".to_string(), "app.b".to_string(), "app.c".to_string()]);
    let cuts: Vec<(String, String, usize)> =
        found[0].suggested_cuts.iter().map(|c| (c.from.clone(), c.to.clone(), c.count)).collect();
    assert_eq!(cuts, vec![("app.c".to_string(), "app.b".to_string(), 3), ("app.b".to_string(), "app.a".to_string(), 2)]);
}

#[test]
fn a_large_cycle_still_gets_an_order_of_all_members() {
    let names: Vec<String> = (0..18).map(|i| format!("app.n{i:02}")).collect();
    let mut edges = Vec::new();
    for i in 0..18 {
        edges.extend(observed(&names[i], &names[(i + 1) % 18], 2));
    }
    let found = evaluate(&[no_cycles()], &edges, 20);
    assert_eq!(found.len(), 1);
    let mut order = found[0].layer_order.clone();
    order.sort();
    assert_eq!(order, names);
    let total: usize = found[0].suggested_cuts.iter().map(|c| c.count).sum();
    assert!(total >= 2);
    assert!(found[0].suggested_cuts.iter().all(|c| c.count == 2));
}

#[test]
fn a_smaller_evidence_limit_changes_only_the_samples() {
    let mut edges = observed("app.a", "app.b", 5);
    edges.extend(observed("app.a.x", "app.c", 3));
    let rule = RuleConfig::DenyDependency {
        id: "deny".into(),
        from: "app.a".into(),
        to: "app".into(),
        edge_types: vec!["IMPORTS".into()],
        include_descendants: true,
    };
    let wide = evaluate(&[rule.clone()], &edges, 20);
    let narrow = evaluate(&[rule], &edges, 2);
    assert_eq!(wide.len(), 2);
    assert_eq!(wide.len(), narrow.len());
    for (w, n) in wide.iter().zip(narrow.iter()) {
        assert_eq!((&w.rule_id, &w.from, &w.to, &w.edge_kind, &w.nodes, w.count, &w.message), (&n.rule_id, &n.from, &n.to, &n.edge_kind, &n.nodes, n.count, &n.message));
        assert!(n.evidence.len() <= 2 && w.evidence.len() == w.count);
    }
}
