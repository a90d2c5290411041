//! Decisions of the command-history store that do not touch the database.
use vstd::prelude::*;
use crate::text::{chars_of, string_of, trim, trim_chars};

verus! {

/// How many stale history rows a prune found and how many it deleted.
#[derive(Debug, Clone, Copy, PartialEq, Eq, Structural)]
pub struct HistoryPruneResult {
    pub candidates: i64,
    pub deleted: i64,
}

/// One command of the default catalog, with its description.
pub struct DefaultCmd {
    pub command: String,
    pub description: Option<String>,
}

impl DefaultCmd {
    /// The command as the catalog stores it: without surrounding white space, and none
    /// when nothing is left.
    pub fn seed_command(&self) -> (r: Option<String>)
        ensures
            match r {
                Some(c) => c@ == trim(self.command@) && c@.len() > 0,
                None => trim(self.command@).len() == 0,
            },
    {
        let cs = chars_of(self.command.as_str());
        let t = trim_chars(&cs);
        if t.len() == 0 {
            None
        } else {
            Some(string_of(t.as_slice()))
        }
    }
}

/// The instant that chrono's `DateTime<Utc>` parser reads from a timestamp (RFC 3339 text,
/// which the parser also accepts with a space in place of the `T`), as seconds from the Unix
/// epoch and nanoseconds past that second; none when the parser refuses the text.
pub uninterp spec fn timestamp_instant(text: Seq<char>) -> Option<(i64, u32)>;

/// Parses a timestamp with chrono (`str::parse::<DateTime<Utc>>`, then `timestamp` and
/// `timestamp_subsec_nanos`). The contract only names the result.
#[verifier::external_body]
fn parse_instant(text: &str) -> (r: Option<(i64, u32)>)
    ensures
        r == timestamp_instant(text@),
{
    match text.parse::<chrono::DateTime<chrono::Utc>>() {
        Ok(t) => Some((t.timestamp(), t.timestamp_subsec_nanos())),
        Err(_) => None,
    }
}

/// Nanoseconds from `then` to `now`.
pub open spec fn elapsed_nanos(now: (i64, u32), then: (i64, u32)) -> int {
    (now.0 - then.0) * 1_000_000_000 + (now.1 - then.1)
}

/// The history is pruned at most once a day: when no earlier prune is recorded, when the
/// record cannot be read, or when at least 24 hours have passed since it.
pub open spec fn spec_prune_due(last: Option<Seq<char>>, now: (i64, u32)) -> bool {
    match last {
        None => true,
        Some(text) => match timestamp_instant(text) {
            None => true,
            Some(then) => elapsed_nanos(now, then) >= 86_400_000_000_000,
        },
    }
}

/// Whether the daily prune is due, given the recorded time of the last one.
pub fn prune_due(last: Option<&str>, now_secs: i64, now_nanos: u32) -> (r: bool)
    ensures
        r == spec_prune_due(
            match last {
                Some(t) => Some(t@),
                None => None,
            },
            (now_secs, now_nanos),
        ),
{
    match last {
        None => true,
        Some(text) => match parse_instant(text) {
            None => true,
            Some((secs, nanos)) => {
                let elapsed: i128 = (now_secs as i128 - secs as i128) * 1_000_000_000 + (now_nanos as i128
                    - nanos as i128);
                elapsed >= 86_400_000_000_000
            },
        },
    }
}

/// What a daily prune does: whether it prunes now, and whether it records now as the time
/// of the last prune (only a prune that is not a dry run uses up the day).
#[derive(Debug, Clone, Copy, PartialEq, Eq, Structural)]
pub struct DailyPrune {
    pub prune: bool,
    pub record: bool,
}

/// The daily prune at `now`, given the recorded time of the last one.
pub fn daily_prune(last: Option<&str>, now_secs: i64, now_nanos: u32, dry_run: bool) -> (r: DailyPrune)
    ensures
        r.prune == spec_prune_due(
            match last {
                Some(t) => Some(t@),
                None => None,
            },
            (now_secs, now_nanos),
        ),
        r.record == (r.prune && !dry_run),
{
    let prune = prune_due(last, now_secs, now_nanos);
    DailyPrune { prune, record: prune && !dry_run }
}

/// The daily cadence: once a prune at `now` is recorded as a text that reads back as `now`,
/// no prune is due at `now` or before 24 hours have passed, and one is due again from 24
/// hours later on; a dry run records nothing, so it leaves the next prune due.
pub proof fn lemma_daily_cadence(record: Seq<char>, now: (i64, u32), later: (i64, u32))
    requires
        timestamp_instant(record) == Some(now),
        now.1 < 1_000_000_000,
        later.1 < 1_000_000_000,
    ensures
        !spec_prune_due(Some(record), now),
        elapsed_nanos(later, now) < 86_400_000_000_000 ==> !spec_prune_due(Some(record), later),
        elapsed_nanos(later, now) >= 86_400_000_000_000 ==> spec_prune_due(Some(record), later),
        spec_prune_due(None, later),
{
}

} // verus!
