//! Git worktree helper: porcelain parsing, path normalization and
//! worktree target resolution.
pub mod text;
pub mod porcelain;
pub mod paths;
pub mod resolve;
pub mod color;
pub mod config;
pub mod integrations;
pub mod service;
pub mod templates;
pub mod listing;
pub mod completion;
