//! Impact analysis for a multi-package Cargo workspace.
//!
//! The crate builds a per-package file dependency tree from statically
//! discovered module declarations, include directives and file references,
//! keeps a workspace-local package dependency graph with transitive queries,
//! and classifies packages into Modified / Affected / Required sets from a
//! version-control diff over two workspace snapshots.

pub mod analyzer;
pub mod builder;
pub mod cargo;
pub mod config;
pub mod crates;
pub mod encoding;
pub mod error;
pub mod files;
pub mod fsmodel;
pub mod git;
pub mod globs;
pub mod impact;
pub mod strutil;
pub mod utils;
