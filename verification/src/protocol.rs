//! The request and status messages exchanged between the shell integration and the daemon.
use vstd::prelude::*;

verus! {

/// Counts reported after pruning stale history.
#[derive(Debug, Clone, PartialEq, Eq)]
pub struct HistoryPruneSummary {
    pub candidate_count: i64,
    pub deleted_count: i64,
}

/// A request sent from a shell integration to the daemon.
#[derive(Debug, Clone, PartialEq, Eq)]
pub enum HintShellRequest {
    /// Suggestions for a partial command line, optionally with the shell's directory.
    Suggest { input: String, limit: usize, cwd: Option<String>, shell: Option<String> },
    /// Record a command that was just executed.
    AddCommand { command: String, directory: Option<String>, shell: Option<String> },
    /// Remove stale, low-frequency user commands from history.
    PruneHistory { days: u64, dry_run: bool },
    /// Daemon status.
    Status,
    /// Stop the daemon.
    Shutdown,
}

/// The number of suggestions asked for when a request names none.
pub fn default_limit() -> (r: usize)
    ensures
        r == 5,
{
    5
}

/// Status reported by a running daemon.
#[derive(Debug, Clone, PartialEq, Eq)]
pub struct DaemonStatus {
    pub version: String,
    pub total_commands: i64,
    pub uptime_seconds: u64,
}

} // verus!
