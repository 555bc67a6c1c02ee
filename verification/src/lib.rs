//! Build orchestrator for a source-bundling toolchain: collects named modules,
//! builds a dependency graph from in-source `#use` directives, computes a
//! build order in which every dependency precedes its dependents, and
//! concatenates module bodies (minus comment lines) into one artifact.

pub mod bytes;
pub mod walker;
pub mod sort;
pub mod bundle;
pub mod config;
