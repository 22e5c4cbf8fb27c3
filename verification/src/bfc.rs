//! A bug-fixing commit to analyse, as listed in the input.
use vstd::prelude::*;
use crate::text::split_pieces;
use crate::text::last_piece;

verus! {

/// A bug-fixing commit: the repository it belongs to, its hash, the
/// commits known to have introduced the bug, and facts about the issue.
#[derive(Debug, Clone)]
pub struct Bfc {
    pub id: u64,
    pub repo_name: String,
    pub fix_commit_hash: String,
    pub bug_commit_hash: Vec<String>,
    pub best_scenario_issue_date: String,
    pub language: Vec<String>,
}

impl Bfc {
    /// The project's name: what follows the last `/` of the repository
    /// name (all of it when there is no `/`).
    pub fn get_name_project(self) -> (r: Result<String, ()>)
        ensures
            r matches Ok(name) && name@ == split_pieces(self.repo_name@, '/').last(),
    {
        Ok(last_piece(self.repo_name.as_str(), '/'))
    }
}


/// A project's name holds no `/`.
pub proof fn lemma_project_name_has_no_slash(repo_name: Seq<char>)
    ensures
        !split_pieces(repo_name, '/').last().contains('/'),
{
    crate::text::lemma_split_nonempty(repo_name, '/');
    crate::text::lemma_split_pieces_free_of_sep(repo_name, '/');
    let pieces = split_pieces(repo_name, '/');
    let last = pieces.last();
    if last.contains('/') {
        let j = choose|j: int| 0 <= j < last.len() && last[j] == '/';
        assert(pieces[pieces.len() - 1][j] != '/');
    }
}

} // verus!
