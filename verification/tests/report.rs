use archgraph::baseline::BaselineEntry;
use archgraph::config::RuleConfig;
use archgraph::evidence::{CompiledEdge, EdgeEvidence, ResolvedEdge};
use archgraph::model::{CycleCut, EdgeOrigin};
use archgraph::report::{evidence_line, new_observations_text, violation_header, violation_text};
use archgraph::rules::{evaluate, Violation};

fn evidence(from: &str, to: &str, confidence: Option<f64>) -> EdgeEvidence {
    EdgeEvidence {
        from_file: from.into(),
        to_file: to.into(),
        kind: "IMPORTS".into(),
        confidence: confidence.map(f64::to_bits),
        reason: Some("fixture".into()),
    }
}

fn confidences(v: &Violation) -> Vec<Vec<Option<String>>> {
    v.architecture_edges
        .iter()
        .map(|e| e.evidence.iter().map(|x| x.confidence.map(|b| f64::from_bits(b).to_string())).collect())
        .collect()
}

#[test]
fn an_observation_line_names_its_files_reason_and_confidence() {
    let e = evidence("a.py", "b.py", Some(0.8));
    assert_eq!(evidence_line(&e, Some("0.8")), "a.py -> b.py  (fixture, confidence 0.8)");
    let mut bare = evidence("a.py", "b.py", None);
    assert_eq!(evidence_line(&bare, None), "a.py -> b.py  (fixture)");
    bare.reason = None;
    assert_eq!(evidence_line(&bare, None), "a.py -> b.py");
}

#[test]
fn a_denied_dependency_lists_its_observations() {
    let edges = vec![ResolvedEdge {
        from: "app.domain".into(),
        to: "app.persistence".into(),
        kind: "IMPORTS".into(),
        evidence: evidence("src/domain/model.py", "src/persistence/db.py", Some(1.0)),
    }];
    let rule = RuleConfig::DenyDependency {
        id: "deny-storage".into(),
        from: "app.domain".into(),
        to: "app.persistence".into(),
        edge_types: vec!["IMPORTS".into()],
        include_descendants: true,
    };
    let found = evaluate(&[rule], &edges, 20);
    assert_eq!(found.len(), 1);
    let text = violation_text(&found[0], &confidences(&found[0]));
    let expected_head = format!("\n[deny-storage] {}\n", found[0].message);
    assert!(text.starts_with(&expected_head), "{text}");
    assert!(text.contains("  app.domain -> app.persistence [IMPORTS] × 1\n"), "{text}");
    assert!(text.ends_with("    src/domain/model.py -> src/persistence/db.py  (fixture, confidence 1)\n"), "{text}");
}

fn cycle() -> Violation {
    let edge = |from: &str, to: &str, count: usize, samples: usize| CompiledEdge {
        from: from.into(),
        to: to.into(),
        kind: "IMPORTS".into(),
        origin: EdgeOrigin::Observed,
        count,
        evidence: (0..samples).map(|i| evidence(&format!("{from}/{i}.py"), &format!("{to}/{i}.py"), None)).collect(),
        confidence_min: None,
        confidence_max: None,
        manual_edges: vec![],
    };
    Violation {
        rule_id: "layers".into(),
        kind: "no_cycles".into(),
        from: Some("app".into()),
        to: None,
        edge_kind: Some("IMPORTS".into()),
        nodes: vec!["app.a".into(), "app.b".into()],
        affected_nodes: vec!["app.a".into(), "app.b".into()],
        count: 5,
        message: "cycle".into(),
        evidence: vec![],
        architecture_edges: vec![edge("app.a", "app.b", 3, 1), edge("app.b", "app.a", 2, 2)],
        layer_order: vec!["app.b".into(), "app.a".into()],
        suggested_cuts: vec![CycleCut { from: "app.b".into(), to: "app.a".into(), count: 2 }],
    }
}

#[test]
fn a_cycle_shows_members_cut_and_layers() {
    let v = cycle();
    assert_eq!(
        violation_header(&v),
        "\n[layers] cycle among immediate children of `app`\n  Members: app.a, app.b\n  Cheapest cut: 2 of 5 participating dependencies, most significant first:\n    app.b -> app.a × 2\n  Layers after the cut, upper to lower:\n    app.b > app.a\n"
    );
    let text = violation_text(&v, &confidences(&v));
    let body = &text[violation_header(&v).len()..];
    assert_eq!(
        body,
        "  Evidence for the cut; other cycle edges are summarized:\n  app.a -> app.b [IMPORTS] × 3\n  app.b -> app.a [IMPORTS] × 2 [CUT]\n    app.b/0.py -> app.a/0.py  (fixture)\n    app.b/1.py -> app.a/1.py  (fixture)\n"
    );
}

#[test]
fn new_observations_are_capped_with_a_count_of_the_rest() {
    let v = cycle();
    let entries: Vec<BaselineEntry> = (0..52)
        .map(|i| BaselineEntry { rule_id: "layers".into(), from_file: format!("a{i}.py"), to_file: "b.py".into(), kind: "IMPORTS".into() })
        .collect();
    let text = new_observations_text(&v, &entries);
    assert!(text.contains("  New since baseline (52):\n    a0.py -> b.py [IMPORTS]\n"), "{text}");
    assert!(text.contains("    a49.py -> b.py [IMPORTS]\n"));
    assert!(!text.contains("a50.py"));
    assert!(text.ends_with("    ... and 2 more (use --json)\n"));
    let few = new_observations_text(&v, &entries[..1].to_vec());
    assert!(few.ends_with("  New since baseline (1):\n    a0.py -> b.py [IMPORTS]\n"));
}
