//! Configuration of commit types and of the commits to ignore.

use crate::cfg::Pat;
use vstd::prelude::*;

verus! {

/// A pattern over the parts of a commit message. Every sub-pattern that is
/// present must match (logical and).
#[derive(Debug, Clone)]
pub struct CommitPattern {
    /// Pattern for the brief description.
    pub brief: Option<Pat>,
    /// Pattern for the scope.
    pub scope: Option<Pat>,
    /// Pattern for the body.
    pub body: Option<Pat>,
    /// Pattern for the footers: at least one footer must match.
    pub footer: Option<Pat>,
}

/// Configuration for commits.
#[derive(Debug, Clone)]
pub struct Commits {
    /// Commit types and their display labels, as `(type, label)` pairs.
    /// Linting fails for a commit whose type is not among them.
    pub types: Vec<(String, String)>,

    /// Patterns selecting commits to leave out of linting and the changelog.
    pub ignore: Option<Vec<CommitPattern>>,
}

/// The label of the first entry whose type is `key`.
pub open spec fn lookup_label(types: Seq<(String, String)>, key: Seq<char>) -> Option<Seq<char>>
    decreases types.len(),
{
    if types.len() == 0 {
        None
    } else if types[0].0@ == key {
        Some(types[0].1@)
    } else {
        lookup_label(types.drop_first(), key)
    }
}

impl Commits {
    /// Each type occurs once, as in the table of the configuration file.
    pub open spec fn well_formed(&self) -> bool {
        forall|i: int, j: int|
            0 <= i < j < self.types@.len() ==> #[trigger] self.types@[i].0@ != #[trigger] self.types@[j].0@
    }

    /// The label configured for `ty`.
    pub open spec fn label(&self, ty: Seq<char>) -> Option<Seq<char>> {
        lookup_label(self.types@, ty)
    }
}

proof fn lemma_label_of_entry(types: Seq<(String, String)>, i: int)
    requires
        0 <= i < types.len(),
        forall|a: int, b: int| 0 <= a < b < types.len() ==> #[trigger] types[a].0@ != #[trigger] types[b].0@,
    ensures
        lookup_label(types, types[i].0@) == Some(types[i].1@),
    decreases i,
{
    if i > 0 {
        assert(types[0].0@ != types[i].0@);
        let rest = types.drop_first();
        assert forall|a: int, b: int| 0 <= a < b < rest.len() implies #[trigger] rest[a].0@ != #[trigger] rest[b].0@ by {
            assert(rest[a] == types[a + 1]);
            assert(rest[b] == types[b + 1]);
        }
        assert(rest[i - 1] == types[i]);
        lemma_label_of_entry(rest, i - 1);
    }
}

/// In a well-formed configuration, the label of a type is the label that
/// its entry gives, wherever the entry stands (the table is a map).
pub proof fn law_label_of_entry(commits: Commits, i: int)
    requires
        commits.well_formed(),
        0 <= i < commits.types@.len(),
    ensures
        commits.label(commits.types@[i].0@) == Some(commits.types@[i].1@),
{
    lemma_label_of_entry(commits.types@, i);
}

} // verus!
