use archgraph::suggest::{draft, extension, parent_dir, segment};

fn many(directory: &str, extension: &str, count: usize) -> Vec<String> {
    (0..count).map(|index| format!("{directory}/f{index}.{extension}")).collect()
}

#[test]
fn segments_are_valid_id_parts() {
    assert_eq!(segment("my.jobs"), "my-jobs");
    assert_eq!(segment("--weird name.v2--"), "weird-name-v2");
    assert_eq!(segment("..."), "dir");
    assert_eq!(parent_dir("a/b/c.ts"), "a/b");
    assert_eq!(parent_dir("c.ts"), "");
    assert_eq!(extension("src/App.TSX").as_deref(), Some("tsx"));
    assert_eq!(extension("README"), None);
    assert_eq!(extension(".gitignore"), None);
}

#[test]
fn nodes_follow_code_directories_through_wrappers() {
    let mut files: Vec<String> = Vec::new();
    files.extend(many("src/api", "ts", 8));
    files.extend(many("src/domain/orders", "ts", 6));
    files.extend(many("src/domain/billing", "ts", 6));
    files.extend(many("src/tiny", "ts", 2));
    files.extend(many("docs", "md", 30));
    files.push("spec/fixtures/token.created_at".into());
    files.push("package.json".into());
    files.push("src/styles.css".into());
    files.push("src/weird name.v2/x.ts".into());
    let draft = draft("shop", &files);
    let root = draft.project.clone();
    assert_eq!(root, "shop");
    let ids: Vec<&str> = draft.nodes.iter().map(|node| node.id.as_str()).collect();
    assert_eq!(ids, ["shop", "shop.api", "shop.domain", "shop.domain.billing", "shop.domain.orders"]);
    assert_eq!(draft.cycle_scopes, ["shop", "shop.domain"]);
    assert_eq!(draft.non_code_extensions, ["json", "md"]);
    assert!(!draft.ruby);
    assert!(draft.css);
    assert_eq!(draft.min_files, 5);
    assert_eq!(draft.nodes[2].path, "src/domain");
    assert_eq!(draft.nodes[2].code_files, 12);
    assert_eq!(draft.edge_types(), "[IMPORTS, USES_CLASS]");
}

#[test]
fn ruby_code_observes_calls_and_odd_names_become_valid_ids() {
    let mut files: Vec<String> = Vec::new();
    files.extend(many("app/models", "rb", 10));
    files.extend(many("app/my.jobs", "rb", 10));
    let draft = draft("repo", &files);
    assert!(draft.ruby);
    assert!(draft.nodes.iter().any(|node| node.id.ends_with(".my-jobs")));
    assert_eq!(draft.edge_types(), "[IMPORTS, CALLS, EXTENDS, IMPLEMENTS]");
}

#[test]
fn an_empty_repository_still_yields_a_valid_draft() {
    let draft = draft("empty", &vec!["README".to_string()]);
    assert_eq!(draft.nodes.len(), 1);
    assert_eq!(draft.nodes[0].code_files, 0);
    assert!(draft.cycle_scopes.is_empty());
}

#[test]
fn sibling_names_that_clean_to_one_segment_get_suffixes() {
    let mut files: Vec<String> = Vec::new();
    files.extend(many("a b", "py", 6));
    files.extend(many("a-b", "py", 6));
    files.extend(many("a.b", "py", 6));
    let draft = draft("x", &files);
    let ids: Vec<&str> = draft.nodes.iter().map(|node| node.id.as_str()).collect();
    assert_eq!(ids, ["x", "x.a-b", "x.a-b-2", "x.a-b-3"]);
}

#[test]
fn the_rendered_draft_maps_each_node_and_rules_its_scopes() {
    let mut files: Vec<String> = Vec::new();
    files.extend(many("src/api", "ts", 8));
    files.extend(many("src/domain/orders", "ts", 6));
    files.extend(many("src/domain/billing", "ts", 6));
    files.extend(many("docs", "md", 3));
    files.push("package.json".into());
    files.push("src/styles.css".into());
    let draft = draft("shop", &files);
    let yaml = draft.render(None, Some("no index"));
    assert!(yaml.starts_with("# Draft generated by `archgraph init --suggest` from the directory layout.\n"));
    assert!(yaml.contains("maps: [\"src/domain/orders/**\"]"), "{yaml}");
    assert!(yaml.contains("\"**/*.{json,md}\""), "{yaml}");
    assert!(yaml.contains("# No coverage comments: no index"), "{yaml}");
    assert!(yaml.contains("  edge_types: [IMPORTS, USES_CLASS]\n"), "{yaml}");
    assert!(yaml.contains("  css: true\n"), "{yaml}");
    assert!(yaml.contains("    description: \"Draft: 6 code files under src/domain/billing/. Describe its responsibility.\"\n"), "{yaml}");
    assert!(yaml.contains("  - {id: \"no-cycles-in-shop-domain\", kind: no_cycles, within: shop.domain, edge_types: [IMPORTS, USES_CLASS]}\n"), "{yaml}");
    assert!(yaml.contains("  shop:\n    title: \"shop\"\n    maps: [\"**\"]\n"), "{yaml}");
    let empty = archgraph::suggest::draft("e", &vec!["README".to_string()]).render(None, None);
    assert!(empty.ends_with("edges: []\nrules: []\n"), "{empty}");
}
