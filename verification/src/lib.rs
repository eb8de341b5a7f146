//! Audits a workspace for outdated third-party dependencies.
//!
//! The library parses the free-form multi-project report emitted by the
//! external package-management tool into a deduplicated map from each
//! outdated dependency to the projects that own it, optionally filters that
//! map by name prefixes, and drives the decision/update state machine that
//! turns operator decisions into a batch of upgrade commands followed by a
//! single consistency-restore command.

pub mod aggregate;
pub mod dep;
pub mod engine;
pub mod filter;
pub mod parser;
pub mod run;
pub mod text;
