# cargo-propagate-features

A Cargo subcommand that propagates workspace features: when crate A has
feature X and depends on workspace crate B that has feature X too, A's
feature X must list `B/X`. Before that, features that are to be propagated
are taken out of the `features = [..]` lists of workspace dependencies
(`dep = { workspace = true, features = [..] }`), since they now arrive
through the feature tables.

Layout:

- `src/` is the verified library.
  - `toml_model.rs`: a parsed manifest seen as a map from key paths to item
    kinds, and the calls into `toml_edit` that read and edit it.
  - `manifest.rs`: `Manifest`, its dependency tables, and the two passes as
    methods.
  - `strip.rs`: the first pass (hardcoded features leave workspace
    dependencies).
  - `propagate.rs`: the second pass (`dep/feature` entries join the feature
    table).
  - `workspace.rs`: the crates of the workspace, their features and
    workspace dependencies.
  - `strings.rs`: the comma-separated feature list of the command line.
  - `summary.rs`: which crates the second pass reads, what is counted, and
    the closing report.
  - `laws.rs`: what holds of the passes on every manifest.
- `app/main.rs` is the command: arguments, `cargo metadata`, reading and
  writing the manifests, progress output.
- `tests/` runs the library on concrete manifests.
