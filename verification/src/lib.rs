//! Reconciliation of a declared label set against the observed labels of a
//! remote repository.
//!
//! The crate plans a minimal, ordered list of create / update / rename /
//! delete operations from a desired label list and a snapshot of the labels
//! a repository currently has, and keeps the books while a caller applies
//! that plan against a label store.  Matching between desired and observed
//! labels is resolved by exact name, then by declared aliases, then by a
//! name-similarity score with a strict threshold.

pub mod config;
pub mod error;
pub mod github;
pub mod properties;
pub mod similarity;
pub mod sync;

pub use config::{LabelConfig, SyncConfig};
pub use error::Error;
pub use github::GitHubLabel;
pub use sync::{SyncOperation, SyncResult};
