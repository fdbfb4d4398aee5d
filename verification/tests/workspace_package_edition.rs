//! The workspaces of the command-line runs, with `edition.workspace = true`
//! and with `edition = "2024"`: their manifests read and go through both
//! passes.

use cargo_propagate_features::manifest::Manifest;
use cargo_propagate_features::strings::parse_feature_list;
use cargo_propagate_features::workspace::{
    retain_workspace_dependencies, workspace_package_names, CrateInfo,
};

fn names(v: &[&str]) -> Vec<String> {
    v.iter().map(|s| s.to_string()).collect()
}

const CRATE_A_INHERITED: &str = r#"[package]
name = "crate-a"
edition.workspace = true
version.workspace = true

[dependencies]
crate-b = { path = "../crate-b" }

[features]
default = []
web = []
"#;

const CRATE_B_INHERITED: &str = r#"[package]
name = "crate-b"
edition.workspace = true
version.workspace = true

[features]
default = []
web = []
"#;

#[test]
fn test_workspace_inherited_edition() {
    let targets = parse_feature_list("web");
    let crates = vec![
        CrateInfo::new("crate-a".to_string(), names(&["default", "web"]), names(&["crate-b"])),
        CrateInfo::new("crate-b".to_string(), names(&["default", "web"]), names(&[])),
    ];
    let members = workspace_package_names(&crates);
    let crates = retain_workspace_dependencies(&crates, &members);

    let mut a = Manifest::parse(CRATE_A_INHERITED).expect("crate-a reads");
    let report = a.strip_hardcoded_features(&targets, &members);
    assert_eq!(report.counted_changes(), 0);
    let added = a.propagate_crate_features(&crates[0], &crates, &targets);
    assert_eq!(added, vec![("web".to_string(), "crate-b/web".to_string())]);
    assert!(a.render().contains("web = [\"crate-b/web\"]"));

    let mut b = Manifest::parse(CRATE_B_INHERITED).expect("crate-b reads");
    assert!(b.propagate_crate_features(&crates[1], &crates, &targets).is_empty());
    assert_eq!(b.render(), CRATE_B_INHERITED);
}

const CRATE_A_2024: &str = r#"[package]
name = "crate-a"
edition = "2024"
version = "0.1.0"

[features]
default = []
web = []
"#;

#[test]
fn test_workspace_direct_edition_2024() {
    let targets = parse_feature_list("web");
    let crates = vec![CrateInfo::new(
        "crate-a".to_string(),
        names(&["default", "web"]),
        names(&[]),
    )];
    let members = workspace_package_names(&crates);
    let mut a = Manifest::parse(CRATE_A_2024).expect("crate-a reads");
    let report = a.strip_hardcoded_features(&targets, &members);
    assert!(report.dependencies.is_empty());
    assert!(a.propagate_crate_features(&crates[0], &crates, &targets).is_empty());
    assert_eq!(a.render(), CRATE_A_2024);
}
