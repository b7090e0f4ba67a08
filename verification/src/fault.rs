//! The named moments of the journaled write path at which a crash is simulated.

use vstd::prelude::*;

verus! {

/// A moment of the journaled write path.
#[derive(Debug, Clone, Copy, PartialEq, Eq, Structural)]
pub enum FaultPoint {
    PreJournal,
    PostJournalEntry,
    MidFiles,
    PreCommitMarker,
    PostCommitMarker,
}

impl FaultPoint {
    /// The name of the moment.
    pub open spec fn name_text(self) -> Seq<char> {
        match self {
            FaultPoint::PreJournal => "pre_journal"@,
            FaultPoint::PostJournalEntry => "post_journal_entry"@,
            FaultPoint::MidFiles => "mid_files"@,
            FaultPoint::PreCommitMarker => "pre_commit_marker"@,
            FaultPoint::PostCommitMarker => "post_commit_marker"@,
        }
    }

    /// The name of the moment.
    pub fn name(self) -> (name: &'static str)
        ensures
            name@ == self.name_text(),
    {
        match self {
            FaultPoint::PreJournal => "pre_journal",
            FaultPoint::PostJournalEntry => "post_journal_entry",
            FaultPoint::MidFiles => "mid_files",
            FaultPoint::PreCommitMarker => "pre_commit_marker",
            FaultPoint::PostCommitMarker => "post_commit_marker",
        }
    }
}

} // verus!
