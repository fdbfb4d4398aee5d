use cargo_propagate_features::summary::{crate_needs_propagation, summarize, Summary};
use cargo_propagate_features::workspace::{
    deps_with_feature, feature_list_of, features_to_propagate, retain_workspace_dependencies,
    workspace_package_names, CrateInfo,
};

fn names(v: &[&str]) -> Vec<String> {
    v.iter().map(|s| s.to_string()).collect()
}

fn krate(name: &str, features: &[&str], deps: &[&str]) -> CrateInfo {
    CrateInfo::new(name.to_string(), names(features), names(deps))
}

#[test]
fn crate_lists_are_kept_once() {
    let c = krate("a", &["web", "cli", "web"], &["b", "serde", "b"]);
    assert_eq!(c.name, "a");
    assert_eq!(c.features, names(&["web", "cli"]));
    assert_eq!(c.dependencies, names(&["b", "serde"]));
}

#[test]
fn package_names_once() {
    let crates = vec![krate("a", &[], &[]), krate("b", &[], &[]), krate("a", &[], &[])];
    assert_eq!(workspace_package_names(&crates), names(&["a", "b"]));
}

#[test]
fn dependencies_narrowed_to_members() {
    let crates = vec![krate("a", &["web"], &["serde", "b", "tokio", "c"]), krate("b", &[], &["a", "anyhow"])];
    let members = names(&["a", "b", "c"]);
    let narrowed = retain_workspace_dependencies(&crates, &members);
    assert_eq!(narrowed.len(), 2);
    assert_eq!(narrowed[0].name, "a");
    assert_eq!(narrowed[0].features, names(&["web"]));
    assert_eq!(narrowed[0].dependencies, names(&["b", "c"]));
    assert_eq!(narrowed[1].dependencies, names(&["a"]));
}

#[test]
fn later_crate_of_a_name_wins() {
    let crates = vec![krate("a", &["x"], &[]), krate("a", &["y"], &[])];
    assert_eq!(feature_list_of(&crates, &"a".to_string()), Some(&names(&["y"])));
    assert_eq!(feature_list_of(&crates, &"b".to_string()), None);
}

#[test]
fn dependencies_with_the_feature() {
    let a = krate("a", &["web"], &["b", "c", "d"]);
    let crates = vec![
        a,
        krate("b", &["web"], &[]),
        krate("c", &["cli"], &[]),
        krate("d", &["web", "cli"], &[]),
    ];
    assert_eq!(deps_with_feature(&crates[0], &crates, &"web".to_string()), names(&["b", "d"]));
    assert_eq!(deps_with_feature(&crates[0], &crates, &"cli".to_string()), names(&["c", "d"]));
    assert_eq!(deps_with_feature(&crates[0], &crates, &"gpu".to_string()), names(&[]));
}

#[test]
fn features_to_propagate_in_target_order() {
    let c = krate("a", &["web", "default", "backend"], &[]);
    let targets = names(&["backend", "cli", "web"]);
    assert_eq!(features_to_propagate(&c, &targets), names(&["backend", "web"]));
    assert!(crate_needs_propagation(&c, &targets));
    let plain = krate("p", &["default"], &[]);
    assert!(!crate_needs_propagation(&plain, &targets));
    assert_eq!(features_to_propagate(&plain, &targets), names(&[]));
}

#[test]
fn summary_decisions() {
    assert_eq!(summarize(true, false, 3), Summary::Changes { count: 3, dry_run: false });
    assert_eq!(summarize(true, true, 2), Summary::Changes { count: 2, dry_run: true });
    assert_eq!(summarize(true, false, 0), Summary::Quiet);
    assert_eq!(summarize(true, true, 0), Summary::Quiet);
    assert_eq!(summarize(false, false, 0), Summary::NoChanges);
    assert_eq!(summarize(false, true, 2), Summary::Changes { count: 2, dry_run: true });
    assert_eq!(summarize(false, false, 1), Summary::Changes { count: 1, dry_run: false });
}
