//! "Find relevant context": given a repo and a question, the scout returns
//! compact citations (path, inclusive line range, reason) instead of whole
//! files.

use vstd::prelude::*;
use crate::proto::{Citation, RepoRef};
use crate::text::{append_str, blank, is_blank};

verus! {

#[derive(Debug, PartialEq, Eq)]
pub enum ExploreError {
    RepoNotFound(String),
}

impl ExploreError {
    /// The error as a line of text.
    pub fn message(&self) -> (r: String)
        ensures
            match self {
                ExploreError::RepoNotFound(p) => r@ == "repo not found: "@ + p@,
            },
    {
        match self {
            ExploreError::RepoNotFound(p) => {
                let mut r = "repo not found: ".to_string();
                append_str(&mut r, p.as_str());
                r
            },
        }
    }
}

/// Deterministic offline scout for tests: a single citation of the
/// conventional entrypoint, with the query echoed as the reason.
pub struct FakeExplorer;

impl FakeExplorer {
    pub fn explore(&self, repo: &RepoRef, query: &str) -> (r: Result<Vec<Citation>, ExploreError>)
        ensures
            is_blank(repo.path@) ==> (r matches Err(ExploreError::RepoNotFound(p)) && p@ == repo.path@),
            !is_blank(repo.path@) ==> (r matches Ok(v) && v.len() == 1 && v@[0].path@ == "src/lib.rs"@
                && v@[0].lines == (1u32, 1u32) && v@[0].reason@ == "entrypoint relevant to: "@ + query@),
    {
        if blank(repo.path.as_str()) {
            return Err(ExploreError::RepoNotFound(repo.path.clone()));
        }
        let mut reason = "entrypoint relevant to: ".to_string();
        append_str(&mut reason, query);
        let mut v: Vec<Citation> = Vec::new();
        v.push(Citation { path: "src/lib.rs".to_string(), lines: (1, 1), reason });
        Ok(v)
    }
}

} // verus!
