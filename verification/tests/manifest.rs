use cargo_propagate_features::manifest::{Manifest, ManifestError};
use cargo_propagate_features::workspace::CrateInfo;
use toml_edit::DocumentMut;

fn names(v: &[&str]) -> Vec<String> {
    v.iter().map(|s| s.to_string()).collect()
}

fn pairs(v: &[(&str, &str)]) -> Vec<(String, String)> {
    v.iter().map(|(a, b)| (a.to_string(), b.to_string())).collect()
}

fn krate(name: &str, features: &[&str], deps: &[&str]) -> CrateInfo {
    CrateInfo::new(name.to_string(), names(features), names(deps))
}

fn reparse(m: &Manifest) -> DocumentMut {
    m.render().parse::<DocumentMut>().expect("rendered manifest parses")
}

fn strings(item: &toml_edit::Item) -> Vec<String> {
    item.as_array()
        .expect("an array")
        .iter()
        .map(|v| v.as_str().map(|s| s.to_string()).unwrap_or_else(|| "<other>".to_string()))
        .collect()
}

const STRIP_MANIFEST: &str = r#"[package]
name = "crate-a"

[dependencies]
crate-b = { workspace = true, features = ["web", "serde"] }
crate-c = { workspace = true, features = ["web"] }
other = { version = "1", workspace = true, features = ["web"] }
crate-d = { path = "../d", features = ["web"] }
crate-e = { workspace = true, features = ["serde", 3] }

[dev-dependencies]
crate-b = { workspace = true, features = ["cli", "web"] }

[target.'cfg(unix)'.dependencies]
crate-c = { workspace = true, features = ["web", "x"] }

[target.'cfg(windows)'.dependencies]
crate-b = { workspace = true, features = ["gpu"] }
"#;

fn members() -> Vec<String> {
    names(&["crate-a", "crate-b", "crate-c", "crate-d", "crate-e"])
}

#[test]
fn parse_error_is_reported() {
    match Manifest::parse("[package\nname = ") {
        Err(ManifestError::Parse(msg)) => assert!(!msg.is_empty()),
        Ok(_) => panic!("a broken manifest parsed"),
    }
}

#[test]
fn untouched_manifest_renders_as_read() {
    let m = Manifest::parse(STRIP_MANIFEST).expect("parses");
    assert_eq!(m.render(), STRIP_MANIFEST);
}

#[test]
fn strip_pass_removes_hardcoded_features() {
    let mut m = Manifest::parse(STRIP_MANIFEST).expect("parses");
    let report = m.strip_hardcoded_features(&names(&["web", "cli"]), &members());
    assert_eq!(report.dependencies, names(&["crate-b", "crate-c"]));
    assert_eq!(report.dev_dependencies, names(&["crate-b"]));
    assert_eq!(report.targets, pairs(&[("'cfg(unix)'", "crate-c")]));
    assert_eq!(report.counted_changes(), 1);
    assert!(report.changed());

    let doc = reparse(&m);
    let deps = &doc["dependencies"];
    assert_eq!(strings(&deps["crate-b"]["features"]), names(&["serde"]));
    assert!(deps["crate-c"].get("features").is_none());
    assert_eq!(deps["crate-c"]["workspace"].as_bool(), Some(true));
    // not a workspace member
    assert_eq!(strings(&deps["other"]["features"]), names(&["web"]));
    // no `workspace` key
    assert_eq!(strings(&deps["crate-d"]["features"]), names(&["web"]));
    // nothing to take out; other values stay
    assert_eq!(strings(&deps["crate-e"]["features"]), names(&["serde", "<other>"]));
    assert!(doc["dev-dependencies"]["crate-b"].get("features").is_none());
    let unix = &doc["target"]["cfg(unix)"]["dependencies"];
    assert_eq!(strings(&unix["crate-c"]["features"]), names(&["x"]));
    let windows = &doc["target"]["cfg(windows)"]["dependencies"];
    assert_eq!(strings(&windows["crate-b"]["features"]), names(&["gpu"]));
}

#[test]
fn strip_pass_twice_changes_nothing_more() {
    let mut m = Manifest::parse(STRIP_MANIFEST).expect("parses");
    let targets = names(&["web", "cli"]);
    m.strip_hardcoded_features(&targets, &members());
    let once = m.render();
    let again = m.strip_hardcoded_features(&targets, &members());
    assert!(again.dependencies.is_empty());
    assert!(again.dev_dependencies.is_empty());
    assert!(again.targets.is_empty());
    assert_eq!(m.render(), once);
}

#[test]
fn single_section_only() {
    let mut m = Manifest::parse(STRIP_MANIFEST).expect("parses");
    let changed = m.remove_hardcoded_features("dev-dependencies", &names(&["cli"]), &members());
    assert_eq!(changed, names(&["crate-b"]));
    let doc = reparse(&m);
    assert_eq!(strings(&doc["dev-dependencies"]["crate-b"]["features"]), names(&["web"]));
    assert_eq!(strings(&doc["dependencies"]["crate-c"]["features"]), names(&["web"]));
}

#[test]
fn missing_section_changes_nothing() {
    let mut m = Manifest::parse("[package]\nname = \"x\"\n").expect("parses");
    assert!(m.remove_hardcoded_features("dependencies", &names(&["web"]), &members()).is_empty());
    assert!(m.remove_hardcoded_target_features(&names(&["web"]), &members()).is_empty());
    assert_eq!(m.render(), "[package]\nname = \"x\"\n");
}

#[test]
fn inline_section_is_not_read() {
    let text = "dependencies = { crate-b = { workspace = true, features = [\"web\"] } }\n";
    let mut m = Manifest::parse(text).expect("parses");
    assert!(m.remove_hardcoded_features("dependencies", &names(&["web"]), &members()).is_empty());
    assert_eq!(m.render(), text);
}

const FEATURE_MANIFEST: &str = r#"[package]
name = "crate-a"

[dependencies]
crate-b = { path = "../crate-b" }
crate-c = { path = "../crate-c" }

[features]
default = []
web = ["existing"]
cli = "not an array"
"#;

fn workspace() -> Vec<CrateInfo> {
    vec![
        krate("crate-a", &["default", "web", "cli"], &["crate-b", "crate-c"]),
        krate("crate-b", &["default", "web"], &[]),
        krate("crate-c", &["cli", "web"], &[]),
    ]
}

#[test]
fn propagation_adds_dependency_features() {
    let crates = workspace();
    let mut m = Manifest::parse(FEATURE_MANIFEST).expect("parses");
    let added = m.propagate_crate_features(&crates[0], &crates, &names(&["web", "cli", "gpu"]));
    assert_eq!(added, pairs(&[("web", "crate-b/web"), ("web", "crate-c/web")]));
    let doc = reparse(&m);
    assert_eq!(
        strings(&doc["features"]["web"]),
        names(&["existing", "crate-b/web", "crate-c/web"])
    );
    assert_eq!(doc["features"]["cli"].as_str(), Some("not an array"));
    assert_eq!(strings(&doc["features"]["default"]), names(&[]));
}

#[test]
fn propagation_twice_adds_nothing_more() {
    let crates = workspace();
    let targets = names(&["web"]);
    let mut m = Manifest::parse(FEATURE_MANIFEST).expect("parses");
    m.propagate_crate_features(&crates[0], &crates, &targets);
    let once = m.render();
    let again = m.propagate_crate_features(&crates[0], &crates, &targets);
    assert!(again.is_empty());
    assert_eq!(m.render(), once);
}

#[test]
fn present_entries_are_not_repeated() {
    let text = "[features]\nweb = [\"crate-b/web\"]\n";
    let crates = workspace();
    let mut m = Manifest::parse(text).expect("parses");
    let added = m.propagate_crate_features(&crates[0], &crates, &names(&["web"]));
    assert_eq!(added, pairs(&[("web", "crate-c/web")]));
    let doc = reparse(&m);
    assert_eq!(strings(&doc["features"]["web"]), names(&["crate-b/web", "crate-c/web"]));
}

#[test]
fn inline_feature_table_is_read() {
    let text = "features = { web = [] }\n";
    let crates = workspace();
    let mut m = Manifest::parse(text).expect("parses");
    let added = m.propagate_crate_features(&crates[0], &crates, &names(&["web"]));
    assert_eq!(added.len(), 2);
    let doc = reparse(&m);
    assert_eq!(strings(&doc["features"]["web"]), names(&["crate-b/web", "crate-c/web"]));
}

#[test]
fn feature_missing_from_table_is_left_alone() {
    let text = "[features]\ndefault = []\n";
    let crates = workspace();
    let mut m = Manifest::parse(text).expect("parses");
    assert!(m.propagate_crate_features(&crates[0], &crates, &names(&["web"])).is_empty());
    assert_eq!(m.render(), text);
}

#[test]
fn propagation_leaves_dependencies_clean() {
    let text = r#"[dependencies]
crate-b = { workspace = true, features = ["web", "serde"] }

[features]
web = []
"#;
    let crates = workspace();
    let targets = names(&["web"]);
    let ws = names(&["crate-a", "crate-b", "crate-c"]);
    let mut m = Manifest::parse(text).expect("parses");
    let first = m.strip_hardcoded_features(&targets, &ws);
    assert_eq!(first.dependencies, names(&["crate-b"]));
    let added = m.propagate_crate_features(&crates[0], &crates, &targets);
    assert_eq!(added, pairs(&[("web", "crate-b/web"), ("web", "crate-c/web")]));
    let again = m.strip_hardcoded_features(&targets, &ws);
    assert!(again.dependencies.is_empty());
    let doc = reparse(&m);
    assert_eq!(strings(&doc["dependencies"]["crate-b"]["features"]), names(&["serde"]));
}

#[test]
fn quoted_dependency_keys_are_not_members() {
    let text = "[dependencies]\n\"crate-b\" = { workspace = true, features = [\"web\"] }\n'crate-c' = { workspace = true, features = [\"web\"] }\ncrate-d = { workspace = true, features = [\"web\"] }\n";
    let mut m = Manifest::parse(text).expect("parses");
    let report = m.strip_hardcoded_features(&names(&["web"]), &members());
    assert_eq!(report.dependencies, names(&["crate-d"]));
    let doc = reparse(&m);
    assert_eq!(strings(&doc["dependencies"]["crate-b"]["features"]), names(&["web"]));
    assert_eq!(strings(&doc["dependencies"]["crate-c"]["features"]), names(&["web"]));
    assert!(doc["dependencies"]["crate-d"].get("features").is_none());
}

#[test]
fn quoted_target_key_is_reported_as_written() {
    let text = "[target.\"cfg(unix)\".dependencies]\ncrate-b = { workspace = true, features = [\"web\"] }\n";
    let mut m = Manifest::parse(text).expect("parses");
    let changed = m.remove_hardcoded_target_features(&names(&["web"]), &members());
    assert_eq!(changed, pairs(&[("\"cfg(unix)\"", "crate-b")]));
}

#[test]
fn report_follows_table_order() {
    let text = "[dependencies]\ncrate-e = { workspace = true, features = [\"web\"] }\ncrate-b = { workspace = true, features = [\"cli\"] }\ncrate-a = { workspace = true, features = [\"web\", \"x\"] }\n";
    let mut m = Manifest::parse(text).expect("parses");
    let changed = m.remove_hardcoded_features("dependencies", &names(&["web", "cli"]), &members());
    assert_eq!(changed, names(&["crate-e", "crate-b", "crate-a"]));
}

#[test]
fn nothing_to_strip_leaves_text_as_read() {
    let text = "[dependencies]\ncrate-b = { path = '../crate-b', features = ['web'] }\nserde = { workspace = true, features = ['web'] }\n[dependencies.crate-c]\nworkspace = true\nfeatures = ['web']\n";
    let mut m = Manifest::parse(text).expect("parses");
    let changed = m.remove_hardcoded_features("dependencies", &names(&["web"]), &names(&["crate-b", "crate-c"]));
    assert!(changed.is_empty());
    assert_eq!(m.render(), text);
    let report = m.strip_hardcoded_features(&names(&["web"]), &names(&["crate-b", "crate-c"]));
    assert!(!report.changed());
    assert_eq!(m.render(), text);
}

#[test]
fn second_run_changes_nothing() {
    let text = "[dependencies]\ncrate-b = { workspace = true, features = [\"web\", \"serde\"] }\ncrate-c = { workspace = true }\n\n[features]\nweb = []\n";
    let crates = workspace();
    let mut m = Manifest::parse(text).expect("parses");
    m.strip_hardcoded_features(&names(&["web"]), &names(&["crate-a", "crate-b", "crate-c"]));
    m.propagate_crate_features(&crates[0], &crates, &names(&["web"]));
    let once = m.render();
    let mut again = Manifest::parse(&once).expect("parses");
    let report = again.strip_hardcoded_features(&names(&["web"]), &names(&["crate-a", "crate-b", "crate-c"]));
    assert!(!report.changed());
    assert!(again.propagate_crate_features(&crates[0], &crates, &names(&["web"])).is_empty());
    assert_eq!(again.render(), once);
}

#[test]
fn strip_keeps_other_values() {
    let mut m = Manifest::parse(STRIP_MANIFEST).expect("parses");
    m.strip_hardcoded_features(&names(&["web", "cli"]), &members());
    let doc = reparse(&m);
    let deps = &doc["dependencies"];
    assert_eq!(deps["crate-b"]["workspace"].as_bool(), Some(true));
    assert_eq!(deps["other"]["version"].as_str(), Some("1"));
    assert_eq!(deps["crate-d"]["path"].as_str(), Some("../d"));
    assert_eq!(doc["package"]["name"].as_str(), Some("crate-a"));
    assert_eq!(doc["dev-dependencies"]["crate-b"]["workspace"].as_bool(), Some(true));
}

#[test]
fn section_strip_twice_changes_nothing_more() {
    let mut m = Manifest::parse(STRIP_MANIFEST).expect("parses");
    let first = m.remove_hardcoded_features("dependencies", &names(&["web"]), &members());
    assert_eq!(first, names(&["crate-b", "crate-c"]));
    let once = m.render();
    let again = m.remove_hardcoded_features("dependencies", &names(&["web"]), &members());
    assert!(again.is_empty());
    assert_eq!(m.render(), once);
}

#[test]
fn propagation_only_where_dependency_has_feature() {
    let text = "[dependencies]\ncrate-b = { path = \"../crate-b\" }\ncrate-c = { path = \"../crate-c\" }\n\n[features]\ndefault = []\nweb = []\n";
    let crates = vec![
        krate("crate-a", &["default", "web"], &["crate-b", "crate-c"]),
        krate("crate-b", &["default", "web"], &[]),
        krate("crate-c", &[], &[]),
    ];
    let mut m = Manifest::parse(text).expect("parses");
    let added = m.propagate_crate_features(&crates[0], &crates, &names(&["web"]));
    assert_eq!(added, pairs(&[("web", "crate-b/web")]));
    let doc = reparse(&m);
    assert_eq!(strings(&doc["features"]["web"]), names(&["crate-b/web"]));
    assert_eq!(strings(&doc["features"]["default"]), names(&[]));
    assert_eq!(doc["dependencies"]["crate-b"]["path"].as_str(), Some("../crate-b"));
}
