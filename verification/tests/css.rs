use archgraph::css::{resolve_import, stylesheet_places};

#[test]
fn package_stylesheets_are_looked_for_from_the_nearest_node_modules_up() {
    assert_eq!(
        stylesheet_places("web/src/map.tsx", "leaflet/dist/leaflet.css"),
        vec![
            "web/src/node_modules/leaflet/dist/leaflet.css".to_string(),
            "web/node_modules/leaflet/dist/leaflet.css".to_string(),
            "node_modules/leaflet/dist/leaflet.css".to_string(),
        ]
    );
    assert_eq!(stylesheet_places("main.ts", "x.css"), vec!["node_modules/x.css".to_string()]);
}

#[test]
fn relative_stylesheet_imports_resolve_against_the_importer() {
    assert_eq!(resolve_import("web/src/map.tsx", "./map.css"), Ok(Some("web/src/map.css".to_string())));
    assert_eq!(resolve_import("web/src/map.tsx", "../styles/app.css"), Ok(Some("web/styles/app.css".to_string())));
    assert_eq!(resolve_import("web/src/map.tsx", "leaflet/dist/leaflet.css"), Ok(None));
    assert_eq!(resolve_import("a.ts", "../../x.css"), Err("a.ts: cannot resolve `../../x.css`".to_string()));
}
