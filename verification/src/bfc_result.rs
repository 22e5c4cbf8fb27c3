//! What the analysis found for one bug-fixing commit.
use vstd::prelude::*;

verus! {

/// The commit found to have introduced the bug fixed by
/// `fix_commit_hash`, beside the one known to have done so.
#[derive(Debug, Clone)]
pub struct Result {
    pub id: u64,
    pub repo_name: String,
    pub fix_commit_hash: String,
    pub bug_commit_hash: String,
    pub founded_bug_commit_hash: String,
    pub best_scenario_issue_date: String,
    pub language: Vec<String>,
    pub correct: bool,
}

impl Result {
    /// The result with the given fields; it is correct exactly when the
    /// commit found is the one known.
    pub fn new(
        id: u64,
        repo_name: String,
        fix_commit_hash: String,
        bug_commit_hash: String,
        founded_bug_commit_hash: String,
        best_scenario_issue_date: String,
        language: Vec<String>,
    ) -> (r: Self)
        ensures
            r.id == id,
            r.repo_name@ == repo_name@,
            r.fix_commit_hash@ == fix_commit_hash@,
            r.bug_commit_hash@ == bug_commit_hash@,
            r.founded_bug_commit_hash@ == founded_bug_commit_hash@,
            r.best_scenario_issue_date@ == best_scenario_issue_date@,
            r.language@ == language@,
            r.correct == (bug_commit_hash@ == founded_bug_commit_hash@),
    {
        let correct = bug_commit_hash == founded_bug_commit_hash;
        Result {
            id,
            repo_name,
            fix_commit_hash,
            bug_commit_hash,
            founded_bug_commit_hash,
            best_scenario_issue_date,
            language,
            correct,
        }
    }
}

} // verus!
