//! The goals journal entries that accompany generated commit messages: one
//! goal set per commit, with its date and commit tag. Reading and writing
//! the journal file is the caller's business; the core only holds the data.

use vstd::prelude::*;

verus! {

/// One entry of the goals journal.
#[derive(Debug)]
pub struct Goalset {
    pub goals: String,
    pub date: String,
    pub commit: String,
}

impl Goalset {
    pub fn new(goals: String, date: String, commit: String) -> (g: Goalset)
        ensures
            g.goals@ == goals@,
            g.date@ == date@,
            g.commit@ == commit@,
    {
        Goalset { goals, date, commit }
    }
}

} // verus!
