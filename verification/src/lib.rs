//! Changelog generation from Conventional Commits: the configuration model,
//! commit linting and Markdown rendering, with their contracts.

pub mod cfg;
pub mod git;
pub mod lint;
pub mod log;
pub mod text;
