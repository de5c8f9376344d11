//! The configuration model: commit types, ignore patterns and changelog
//! settings. Reading and deserialising `Chlog.toml` happens outside the
//! library; these are the values the rest of the library works on.

pub mod commits;
pub mod log;
pub mod pat;

pub use commits::{CommitPattern, Commits};
pub use log::LogConfig;
pub use pat::{Find, Pat};

use vstd::prelude::*;

verus! {

/// Root configuration of the tool.
#[derive(Debug)]
pub struct Config {
    /// Configuration related to commit linting and filtering.
    pub commits: Commits,
    /// Configuration related to changelog generation.
    pub log: LogConfig,
}

impl Config {
    /// A configuration is well formed when each commit type occurs once in
    /// its table of types, as in the table of the configuration file.
    pub open spec fn well_formed(&self) -> bool {
        self.commits.well_formed()
    }
}

} // verus!
