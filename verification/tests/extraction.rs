use archgraph::compiler::CodeEdge;
use archgraph::imports::package_extraction_of_sources;
use archgraph::extraction::{package_extraction, select_packages, AmbiguousImport, PackageImport, PackageReport, PackageUse};
use archgraph::packages::{Ecosystem, Facts, Import};
use archgraph::repository::{read_manifest, Repository};

fn facts(imports: &[(usize, &str, bool)], unresolved: &[(usize, &str)]) -> Facts {
    Facts {
        imports: imports.iter().map(|(line, s, t)| Import { line: *line, specifier: s.to_string(), type_only: *t }).collect(),
        unresolved: unresolved.iter().map(|(l, e)| (*l, e.to_string())).collect(),
    }
}

#[test]
fn separates_packages_from_local_standard_and_ambiguous_imports() {
    let mut repository = Repository::new();
    for path in [
        "backend/planner/__init__.py",
        "backend/planner/core/models.py",
        "backend/planner/core/solver.py",
        "backend/tests/test_solver.py",
        "backend/tests/conftest.py",
        "tools/redis.py",
    ] {
        repository.add_python(path);
    }
    repository.add_manifest(
        "web/package.json",
        read_manifest(br#"{"name": "web", "dependencies": {"react": "19", "leaflet": "1", "events": "3"}, "devDependencies": {"@types/geojson": "7", "vite": "6"}, "workspaces": ["packages/*"]}"#),
    );
    repository.add_manifest("web/packages/ui/package.json", read_manifest(br#"{"name": "@acme/ui"}"#));
    let parsed = vec![
        (
            "backend/planner/core/solver.py".to_string(),
            facts(
                &[
                    (1, "__future__", false),
                    (2, "numpy", false),
                    (3, "ortools.constraint_solver", false),
                    (4, "ortools.constraint_solver", false),
                    (5, "planner.core.models", false),
                    (6, ".models", false),
                    (7, "dataclasses", false),
                    (7, "os.path", false),
                    (8, "redis", false),
                    (9, "typing", false),
                    (11, "pandas", true),
                ],
                &[],
            ),
        ),
        ("backend/tests/test_solver.py".to_string(), facts(&[(1, "ortools.sat.python", false), (2, "tests.conftest", false)], &[])),
        (
            "web/src/map.tsx".to_string(),
            facts(
                &[
                    (1, "react", false),
                    (2, "leaflet", false),
                    (3, "leaflet/dist/leaflet.css", false),
                    (4, "geojson", true),
                    (5, "@acme/ui", false),
                    (6, "@app/utils/date", false),
                    (7, "config", false),
                    (8, "node:fs", false),
                    (9, "path", false),
                    (10, "events", false),
                    (11, "virtual:icons", false),
                    (12, "./local", false),
                ],
                &[(13, "import(route)")],
            ),
        ),
        ("web/vite.config.ts".to_string(), facts(&[(1, "vite", false)], &[])),
        ("README.md".to_string(), facts(&[(1, "ignored", false)], &[(1, "ignored")])),
    ];
    let provider = vec![CodeEdge {
        from_file: "web/src/map.tsx".into(),
        to_file: "web/src/app/utils/date.ts".into(),
        kind: "IMPORTS".into(),
        confidence: Some(1.0f64.to_bits()),
        reason: None,
    }];
    let stdlib: Vec<String> = ["__future__", "dataclasses", "os", "typing"].map(String::from).to_vec();
    let builtins: Vec<String> = ["fs", "path", "events"].map(String::from).to_vec();
    let extraction = package_extraction(&repository, "/work/repo", &provider, &parsed, &stdlib, &builtins);
    type Imported<'a> = (&'a str, Vec<(&'a str, usize, bool)>);
    let packages: Vec<Imported> = extraction
        .report
        .packages
        .iter()
        .map(|package| {
            (package.id.as_str(), package.imports.iter().map(|import| (import.file.as_str(), import.line, import.type_only)).collect())
        })
        .collect();
    assert_eq!(
        packages,
        [
            ("package:npm/events", vec![("web/src/map.tsx", 10, false)]),
            ("package:npm/geojson", vec![("web/src/map.tsx", 4, true)]),
            ("package:npm/leaflet", vec![("web/src/map.tsx", 2, false), ("web/src/map.tsx", 3, false)]),
            ("package:npm/react", vec![("web/src/map.tsx", 1, false)]),
            ("package:npm/vite", vec![("web/vite.config.ts", 1, false)]),
            ("package:python/numpy", vec![("backend/planner/core/solver.py", 2, false)]),
            (
                "package:python/ortools",
                vec![
                    ("backend/planner/core/solver.py", 3, false),
                    ("backend/planner/core/solver.py", 4, false),
                    ("backend/tests/test_solver.py", 1, false),
                ]
            ),
            ("package:python/pandas", vec![("backend/planner/core/solver.py", 11, true)]),
        ]
    );
    let ambiguous: Vec<(&str, &str)> =
        extraction.report.ambiguous.iter().map(|import| (import.specifier.as_str(), import.reason.as_str())).collect();
    assert_eq!(ambiguous.len(), 3, "{ambiguous:?}");
    assert_eq!(ambiguous[0].0, "redis");
    assert!(ambiguous[0].1.contains("`tools/`"), "{}", ambiguous[0].1);
    assert_eq!(ambiguous[1].0, "config");
    assert_eq!(ambiguous[2].0, "virtual:icons");
    assert_eq!(extraction.report.unresolved.len(), 1);
    assert_eq!(extraction.report.unresolved[0].expression, "import(route)");
    let edges: Vec<(&str, &str, &str)> = extraction
        .edges
        .iter()
        .map(|edge| (edge.from_file.as_str(), edge.to_file.as_str(), edge.reason.as_deref().unwrap()))
        .collect();
    assert!(edges.contains(&("backend/planner/core/solver.py", "package:python/ortools", "package-import")));
    assert!(edges.contains(&("web/src/map.tsx", "package:npm/geojson", "package-type-import")));
    assert_eq!(edges.len(), 9, "one edge per file, package and reason: {edges:?}");
    assert!(extraction.edges.iter().all(|e| e.kind == "IMPORTS" && e.confidence == Some(1.0f64.to_bits())));
}

fn package(name: &str, ecosystem: Ecosystem, prefix: &str) -> PackageUse {
    PackageUse {
        id: format!("package:{prefix}/{name}"),
        name: name.into(),
        ecosystem,
        node: None,
        imports: vec![PackageImport { file: "a.py".into(), line: 1, specifier: name.into(), type_only: false, node: None }],
    }
}

fn ambiguous(specifier: &str) -> AmbiguousImport {
    AmbiguousImport { file: "b.ts".into(), line: 2, specifier: specifier.into(), reason: "maybe".into() }
}

#[test]
fn a_selection_names_packages_plainly_or_by_id_with_their_possible_imports() {
    let report = PackageReport {
        packages: vec![package("events", Ecosystem::Npm, "npm"), package("events", Ecosystem::Python, "python"), package("react", Ecosystem::Npm, "npm")],
        ambiguous: vec![ambiguous("events.sub"), ambiguous("events/x"), ambiguous("eventsource"), ambiguous("react")],
        unresolved: vec![],
    };
    let both = select_packages(&report, Some("events")).ok().unwrap();
    assert_eq!(both.packages.len(), 2);
    let specifiers: Vec<&str> = both.ambiguous.iter().map(|a| a.specifier.as_str()).collect();
    assert_eq!(specifiers, vec!["events.sub", "events/x"]);
    let npm = select_packages(&report, Some("package:npm/events")).ok().unwrap();
    assert_eq!(npm.packages.len(), 1);
    assert_eq!(npm.packages[0].ecosystem, Ecosystem::Npm);
    assert_eq!(select_packages(&report, None).ok().unwrap().packages.len(), 3);
    assert_eq!(
        select_packages(&report, Some("package:package:lodash")).err().unwrap(),
        "no imported package is named `lodash`; `archgraph packages` lists them all"
    );
}

#[test]
fn packages_are_read_from_the_text_of_python_files_and_scripts() {
    let mut repository = Repository::new();
    for path in ["backend/planner/__init__.py", "backend/planner/core/models.py", "backend/planner/core/solver.py", "tools/redis.py"] {
        repository.add_python(path);
    }
    repository.add_manifest("web/package.json", read_manifest(br#"{"name": "web", "dependencies": {"react": "19"}, "devDependencies": {"@types/geojson": "7"}}"#));
    let sources = vec![
        (
            "backend/planner/core/solver.py".to_string(),
            "import numpy as np\nfrom .models import Plan\nimport redis\nfrom typing import TYPE_CHECKING\nif TYPE_CHECKING:\n    import pandas\n".to_string(),
        ),
        ("web/src/map.tsx".to_string(), "import { useState } from 'react'\nimport type { Feature } from 'geojson'\nconst page = import(route)\n".to_string()),
        ("README.md".to_string(), "import nothing".to_string()),
    ];
    let stdlib: Vec<String> = ["typing"].map(String::from).to_vec();
    let extraction = package_extraction_of_sources(&repository, "/work/repo", &vec![], &sources, &stdlib, &vec![]).unwrap();
    let ids: Vec<&str> = extraction.report.packages.iter().map(|p| p.id.as_str()).collect();
    assert_eq!(ids, ["package:npm/geojson", "package:npm/react", "package:python/numpy", "package:python/pandas"]);
    let edges: Vec<(&str, &str, &str)> = extraction
        .edges
        .iter()
        .map(|e| (e.from_file.as_str(), e.to_file.as_str(), e.reason.as_deref().unwrap()))
        .collect();
    assert!(edges.contains(&("backend/planner/core/solver.py", "package:python/pandas", "package-type-import")));
    assert!(edges.contains(&("web/src/map.tsx", "package:npm/geojson", "package-type-import")));
    assert_eq!(edges.len(), 4);
    assert_eq!(extraction.report.ambiguous.len(), 1);
    assert_eq!(extraction.report.ambiguous[0].specifier, "redis");
    assert_eq!(extraction.report.unresolved.len(), 1);
    assert_eq!((extraction.report.unresolved[0].line, extraction.report.unresolved[0].expression.as_str()), (3, "import(route)"));
}
