//! Database statistics.

use vstd::prelude::*;

verus! {

/// Row counts of the main tables.
#[derive(Debug, Clone)]
pub struct DatabaseStats {
    pub workspaces: usize,
    pub documents: usize,
    pub chunks: usize,
    pub sessions: usize,
    pub messages: usize,
}

/// Statistics from the counted rows.
pub fn database_stats(workspaces: i64, documents: i64, chunks: i64, sessions: i64, messages: i64) -> (s: DatabaseStats)
    ensures
        s.workspaces == workspaces as usize,
        s.documents == documents as usize,
        s.chunks == chunks as usize,
        s.sessions == sessions as usize,
        s.messages == messages as usize,
{
    DatabaseStats {
        workspaces: workspaces as usize,
        documents: documents as usize,
        chunks: chunks as usize,
        sessions: sessions as usize,
        messages: messages as usize,
    }
}

} // verus!
