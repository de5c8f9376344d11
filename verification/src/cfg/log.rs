//! Configuration of changelog generation.

use vstd::prelude::*;

verus! {

/// Settings for changelog generation.
#[derive(Debug, PartialEq, Clone)]
pub struct LogConfig {
    /// Whether to include commit URLs.
    pub include_commit_url: bool,
    /// Whether to include shortened commit hashes.
    pub include_commit_hash: bool,
    /// Whether to group the changes of a type by scope under subheadings.
    pub separate_scope_lists: bool,
    /// Whether to list the contributors.
    pub collect_thanks: bool,
    /// Heading of the contributors section (default "Thanks to").
    pub thanks_subtitle: Option<String>,
}

} // verus!
