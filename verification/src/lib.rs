//! Propagation of workspace features between the manifests of a Cargo
//! workspace: what a crate's feature table must list, and which hardcoded
//! features must leave its workspace dependencies.

pub mod toml_model;
pub mod strings;
pub mod manifest;
pub mod strip;
pub mod workspace;
pub mod propagate;
pub mod summary;
pub mod laws;
