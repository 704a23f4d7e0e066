use archgraph::packages::{classify_python, classify_script, Class, Ecosystem};
use archgraph::repository::{read_manifest, Repository};
use archgraph::vcs::head_commit;
use archgraph::discovery::under;

fn repository() -> Repository {
    let mut repository = Repository::new();
    for path in [
        "backend/planner/__init__.py",
        "backend/planner/core/solver.py",
        "backend/tests/test_solver.py",
        "lib/src/mylib/__init__.py",
        "lib/tests/test_lib.py",
        "tools/redis.py",
    ] {
        repository.add_python(path);
    }
    repository.add_manifest(
        "web/package.json",
        read_manifest(br#"{"name": "web", "dependencies": {"react": "19"}, "devDependencies": {"@types/geojson": "7"}}"#),
    );
    repository.add_manifest("web/packages/ui/package.json", read_manifest(br#"{"name": "@acme/ui"}"#));
    repository.add_manifest("broken/package.json", read_manifest(b"{"));
    repository
}

#[test]
fn indexes_python_modules_packages_and_manifests() {
    let repository = repository();
    assert!(repository.python_reachable("backend/tests/test_solver.py", "planner"));
    assert!(repository.python_reachable("backend/tests/test_solver.py", "tests"));
    assert!(repository.python_reachable("backend/planner/core/solver.py", "solver"));
    assert!(repository.python_reachable("lib/tests/test_lib.py", "mylib"));
    assert!(!repository.python_reachable("backend/tests/test_solver.py", "redis"));
    assert_eq!(repository.python_elsewhere("redis"), Some("tools"));
    assert_eq!(repository.python_elsewhere("react"), None);
    assert!(repository.declared("web/src/app.tsx", "react"));
    assert!(repository.declared("web/src/app.tsx", "geojson"));
    assert!(!repository.declared("backend/app.ts", "react"));
    assert!(repository.workspace_package("@acme/ui"));
    assert!(repository.warnings()[0].contains("cannot read broken/package.json"));
}

#[test]
fn python_imports_are_local_packages_or_ambiguous() {
    let repository = repository();
    let stdlib = vec!["os".to_string(), "json".to_string()];
    let file = "backend/tests/test_solver.py";
    assert_eq!(classify_python(&repository, file, ".models", &stdlib), Class::Local);
    assert_eq!(classify_python(&repository, file, "planner.core", &stdlib), Class::Local);
    assert_eq!(classify_python(&repository, file, "os.path", &stdlib), Class::Local);
    assert_eq!(classify_python(&repository, file, "ortools.sat", &stdlib), Class::Package(Ecosystem::Python, "ortools".into()));
    match classify_python(&repository, file, "redis", &stdlib) {
        Class::Ambiguous(m) => assert!(m.contains("in `tools/`")),
        other => panic!("{other:?}"),
    }
}

#[test]
fn script_imports_are_local_packages_or_ambiguous() {
    let repository = repository();
    let builtins = vec!["fs".to_string()];
    let file = "web/src/app.tsx";
    assert_eq!(classify_script(&repository, &[], file, "./x", &builtins), Class::Local);
    assert_eq!(classify_script(&repository, &[], file, "node:fs", &builtins), Class::Local);
    assert_eq!(classify_script(&repository, &[], file, "react/jsx-runtime", &builtins), Class::Package(Ecosystem::Npm, "react".into()));
    assert_eq!(classify_script(&repository, &[], file, "@acme/ui", &builtins), Class::Local);
    assert_eq!(classify_script(&repository, &[], file, "fs", &builtins), Class::Local);
    assert_eq!(classify_script(&repository, &[], file, "@/x", &builtins), Class::Local);
    match classify_script(&repository, &[], file, "virtual:icons", &builtins) {
        Class::Ambiguous(m) => assert_eq!(m, "`virtual:` specifiers name no npm package (a bundler plugin or a URL)"),
        other => panic!("{other:?}"),
    }
    match classify_script(&repository, &[], file, "lodash", &builtins) {
        Class::Ambiguous(m) => assert!(m.contains("declares `lodash`")),
        other => panic!("{other:?}"),
    }
    let targets = vec!["web/src/app/utils/date.ts".to_string()];
    assert_eq!(classify_script(&repository, &targets, file, "@app/utils/date", &builtins), Class::Local);
}

#[test]
fn head_commit_is_the_trimmed_output() {
    assert_eq!(head_commit(b"0123abc\n".to_vec()).as_deref(), Some("0123abc"));
    assert_eq!(head_commit(b"  \n".to_vec()), None);
    assert_eq!(head_commit(vec![0xff, 0xfe]), None);
}

#[test]
fn files_lie_under_source_roots_at_a_slash() {
    assert!(under("src/a.rs", ""));
    assert!(under("src/a.rs", "src"));
    assert!(under("src", "src"));
    assert!(!under("srcx/a.rs", "src"));
}
