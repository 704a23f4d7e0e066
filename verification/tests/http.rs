use archgraph::http::{call_routes, declared, display, score, wanted, CallProblem, Declared, Piece, Wanted};

fn literals(w: &[Wanted]) -> Vec<Option<&str>> {
    w.iter()
        .map(|s| match s {
            Wanted::Literal(t) => Some(t.as_str()),
            Wanted::Runtime => None,
        })
        .collect()
}

#[test]
fn route_segments_are_literals_parameters_or_rest() {
    let d = declared("/api/plans/{plan_id}/:id/{path:path}/*rest//x");
    let kinds: Vec<String> = d
        .iter()
        .map(|s| match s {
            Declared::Literal(t) => t.clone(),
            Declared::Parameter => "P".into(),
            Declared::Rest => "R".into(),
        })
        .collect();
    assert_eq!(kinds, ["api", "plans", "P", "P", "R", "R", "x"]);
}

#[test]
fn urls_lose_host_query_and_dot_segments() {
    let (w, absolute) = wanted("https://tiles.example.org/x/./y?z=1#f");
    assert!(absolute);
    assert_eq!(literals(&w), [Some("x"), Some("y")]);
    let (w, absolute) = wanted("//cdn.example.org");
    assert!(absolute);
    assert!(w.is_empty());
    let (w, absolute) = wanted("/api/plans/\0/export");
    assert!(!absolute);
    assert_eq!(literals(&w), [Some("api"), Some("plans"), None, Some("export")]);
    let (_, absolute) = wanted("a//b");
    assert!(!absolute);
}

#[test]
fn the_most_specific_route_scores_highest() {
    let (call, _) = wanted("/api/plans/\0");
    assert_eq!(score(&call, &declared("/api/plans/{plan_id}")), Some(2));
    assert_eq!(score(&call, &declared("/api/plans/jobs")), None);
    assert_eq!(score(&call, &declared("/{path:path}")), None);
    assert_eq!(score(&call, &declared("/api/{rest:path}")), Some(1));
    assert_eq!(score(&call, &declared("/api/plans")), None);
}

#[test]
fn a_displayed_url_marks_runtime_parts() {
    let url = vec![Piece::Text("/api/".into()), Piece::Param, Piece::Text("/x".into())];
    assert_eq!(display(&url), "/api/\0/x");
}

#[test]
fn a_call_reaches_the_most_specific_routes_with_its_method() {
    let methods = vec![Some("POST".to_string()), Some("GET".to_string()), Some("GET".to_string())];
    let routes = vec![declared("/api/plans/jobs"), declared("/api/plans/{plan_id}"), declared("/{path:path}")];
    let reach = |url: &str, method: Option<&str>| {
        let (w, absolute) = wanted(url);
        call_routes(&w, absolute, &method.map(String::from), &methods, &routes)
    };
    assert_eq!(reach("/api/plans/jobs", Some("POST")), Ok(vec![0]));
    assert_eq!(reach("/api/plans/\u{0}", None), Ok(vec![1]));
    assert_eq!(reach("/api/plans/\u{0}", Some("DELETE")), Err(CallProblem::WrongMethod));
    assert_eq!(reach("/api/nothing", None), Err(CallProblem::NoRoute));
    assert_eq!(reach("https://tiles.example.org/x", None), Err(CallProblem::External));
}
