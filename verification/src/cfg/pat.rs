//! Patterns that select commits by their text.

use vstd::prelude::*;

verus! {

/// How to find a string within a text.
#[derive(Debug, PartialEq, Clone)]
pub enum Find {
    /// Regular expression to search for.
    Regex(String),
    /// Exact string to search for.
    Exact(String),
}

/// A pattern matched against a string value.
#[derive(Debug, PartialEq)]
pub enum Pat {
    /// The text starts with this string.
    Prefix(String),
    /// The text ends with this string.
    Suffix(String),
    /// The inner pattern does not match.
    Not(Box<Pat>),
    /// Search within the text instead of matching it.
    Find(Find),
    /// A regular expression that matches somewhere in the text.
    Regex(String),
    /// The text equals this string.
    Exact(String),
}


impl Clone for Pat {
    /// A copy of the pattern.
    fn clone(&self) -> (r: Self)
        ensures
            r == *self,
        decreases self,
    {
        match self {
            Pat::Prefix(s) => Pat::Prefix(s.clone()),
            Pat::Suffix(s) => Pat::Suffix(s.clone()),
            Pat::Not(inner) => {
                let p: &Pat = inner;
                Pat::Not(Box::new(p.clone()))
            },
            Pat::Find(f) => Pat::Find(match f {
                Find::Regex(r) => Find::Regex(r.clone()),
                Find::Exact(e) => Find::Exact(e.clone()),
            }),
            Pat::Regex(r) => Pat::Regex(r.clone()),
            Pat::Exact(e) => Pat::Exact(e.clone()),
        }
    }
}

} // verus!
