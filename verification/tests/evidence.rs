use archgraph::evidence::{aggregate_observed, EdgeEvidence, EvidenceAccumulator, ResolvedEdge};

fn evidence(i: usize) -> EdgeEvidence {
    EdgeEvidence {
        from_file: format!("src/{i:03}.rs"),
        to_file: "src/end.rs".into(),
        kind: "IMPORTS".into(),
        confidence: Some((i as f64 / 100.0).to_bits()),
        reason: None,
    }
}

#[test]
fn evidence_is_sorted_capped_and_counts_all() {
    let mut a = EvidenceAccumulator::new();
    let mut b = EvidenceAccumulator::new();
    for i in (0..70).rev() {
        a.add(&evidence(i), 20);
    }
    for i in 0..70 {
        b.add(&evidence(i), 20);
    }
    assert_eq!(a.count, 70);
    assert_eq!(a.evidence, b.evidence);
    assert_eq!(a.evidence.len(), 20);
    assert_eq!(a.evidence[19].from_file, "src/019.rs");
    assert_eq!(a.confidence_max, Some(0.69f64.to_bits()));
    assert_eq!(a.confidence_min, Some(0.0f64.to_bits()));
}

#[test]
fn aggregates_by_architecture_pair_and_kind() {
    let edges: Vec<ResolvedEdge> = (0..3)
        .map(|i| ResolvedEdge {
            from: "app.a".into(),
            to: "app.b".into(),
            kind: "IMPORTS".into(),
            evidence: evidence(i),
        })
        .collect();
    let refs: Vec<&ResolvedEdge> = edges.iter().collect();
    let result = aggregate_observed(&refs, 20);
    assert_eq!(result.len(), 1);
    assert_eq!(result[0].count, 3);
    assert_eq!(result[0].evidence.len(), 3);
}

#[test]
fn aggregation_separates_pairs_and_kinds_in_key_order() {
    let mut edges: Vec<ResolvedEdge> = Vec::new();
    for (from, to, kind) in [("app.b", "app.a", "IMPORTS"), ("app.a", "app.b", "CALLS"), ("app.a", "app.b", "IMPORTS")] {
        edges.push(ResolvedEdge { from: from.into(), to: to.into(), kind: kind.into(), evidence: evidence(1) });
    }
    let refs: Vec<&ResolvedEdge> = edges.iter().collect();
    let result = aggregate_observed(&refs, 20);
    let keys: Vec<(&str, &str, &str)> = result.iter().map(|e| (e.from.as_str(), e.to.as_str(), e.kind.as_str())).collect();
    assert_eq!(keys, [("app.a", "app.b", "CALLS"), ("app.a", "app.b", "IMPORTS"), ("app.b", "app.a", "IMPORTS")]);
}

#[test]
fn a_sample_does_not_depend_on_the_order_of_observations() {
    let mut a = EvidenceAccumulator::new();
    let mut b = EvidenceAccumulator::new();
    for i in [5, 1, 9, 3, 7] {
        a.add(&evidence(i), 3);
    }
    for i in [9, 7, 5, 3, 1] {
        b.add(&evidence(i), 3);
    }
    assert_eq!(a.evidence, b.evidence);
    let files: Vec<&str> = a.evidence.iter().map(|e| e.from_file.as_str()).collect();
    assert_eq!(files, ["src/001.rs", "src/003.rs", "src/005.rs"]);
}
