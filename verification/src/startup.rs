//! Starting the daemon: the decisions between probing it over IPC, waiting for processes that
//! do not answer, killing them, and spawning a fresh one.
//!
//! The caller performs each action and reports what came of it; a sleep is reported as
//! `Slept`.
use vstd::prelude::*;
use crate::candidates::{nonempty_lines, spec_lines};
use crate::text::{ascii_lowercase, contains_seq, contains_str, to_ascii_lowercase};

verus! {

/// How long to wait between two probes, in milliseconds.
pub const PROBE_INTERVAL_MS: u64 = 200;
/// How many probes a process that does not answer yet is given before it is killed.
pub const ORPHAN_PROBES: u8 = 8;
/// How long to wait after killing processes, in milliseconds.
pub const AFTER_KILL_MS: u64 = 400;
/// How many probes a freshly spawned daemon is given to answer.
pub const SPAWN_PROBES: u8 = 20;

/// How starting the daemon ended.
#[derive(Debug, Clone, Copy, PartialEq, Eq, Structural)]
pub enum StartOutcome {
    /// A daemon answered the first probe.
    AlreadyRunning,
    /// A daemon that did not answer at first answered the given probe while it was waited for.
    BecameHealthy(u8),
    /// The daemon binary does not exist.
    Missing,
    /// The daemon could not be spawned.
    SpawnFailed,
    /// The spawned daemon answered the given probe.
    Started(u8),
    /// The spawned daemon never answered; so many daemon processes were left.
    NotReady(u64),
    /// An event came that the phase does not expect.
    Unexpected,
}

/// What the caller is waiting for.
#[derive(Debug, Clone, Copy, PartialEq, Eq, Structural)]
pub enum StartPhase {
    /// The first probe.
    Probe,
    /// The count of daemon processes after a failed first probe.
    CountOrphans,
    /// The sleep before probe number `probes` of a daemon that did not answer.
    WaitOrphans { probes: u8 },
    /// Probe number `probes` of a daemon that did not answer.
    ProbeOrphans { probes: u8 },
    /// Killing the processes that did not answer.
    Kill,
    /// The sleep after the kill.
    AfterKill,
    /// Whether the daemon binary exists.
    CheckCore,
    /// The spawn.
    Spawn,
    /// The sleep before probe number `probes` of the spawned daemon.
    Spawned { probes: u8 },
    /// Probe number `probes` of the spawned daemon.
    ProbeSpawned { probes: u8 },
    /// The count of processes left after the spawned daemon never answered.
    CountLeft,
    /// Nothing: starting has ended.
    Done,
}

/// What the caller reports.
#[derive(Debug, Clone, Copy, PartialEq, Eq, Structural)]
pub enum StartEvent {
    Alive(bool),
    Orphans(u64),
    Killed(u64),
    CoreExists(bool),
    SpawnOk(bool),
    Slept,
}

/// What the caller does next.
#[derive(Debug, Clone, Copy, PartialEq, Eq, Structural)]
pub enum StartAction {
    Probe,
    CountOrphans,
    Sleep(u64),
    KillOrphans,
    CheckCore,
    Spawn,
    Finish(StartOutcome),
}

/// The first phase and action: probe the daemon.
pub open spec fn spec_start_begin() -> (StartPhase, StartAction) {
    (StartPhase::Probe, StartAction::Probe)
}

/// The next phase and action after `event` in `phase`.
pub open spec fn spec_start_step(phase: StartPhase, event: StartEvent) -> (StartPhase, StartAction) {
    let unexpected = (StartPhase::Done, StartAction::Finish(StartOutcome::Unexpected));
    match (phase, event) {
        (StartPhase::Probe, StartEvent::Alive(alive)) => if alive {
            (StartPhase::Done, StartAction::Finish(StartOutcome::AlreadyRunning))
        } else {
            (StartPhase::CountOrphans, StartAction::CountOrphans)
        },
        (StartPhase::CountOrphans, StartEvent::Orphans(n)) => if n > 0 {
            (StartPhase::WaitOrphans { probes: 1 }, StartAction::Sleep(PROBE_INTERVAL_MS))
        } else {
            (StartPhase::CheckCore, StartAction::CheckCore)
        },
        (StartPhase::WaitOrphans { probes }, StartEvent::Slept) => (
            StartPhase::ProbeOrphans { probes },
            StartAction::Probe,
        ),
        (StartPhase::ProbeOrphans { probes }, StartEvent::Alive(alive)) => if alive {
            (StartPhase::Done, StartAction::Finish(StartOutcome::BecameHealthy(probes)))
        } else if probes < ORPHAN_PROBES {
            (StartPhase::WaitOrphans { probes: (probes + 1) as u8 }, StartAction::Sleep(PROBE_INTERVAL_MS))
        } else {
            (StartPhase::Kill, StartAction::KillOrphans)
        },
        (StartPhase::Kill, StartEvent::Killed(_)) => (StartPhase::AfterKill, StartAction::Sleep(AFTER_KILL_MS)),
        (StartPhase::AfterKill, StartEvent::Slept) => (StartPhase::CheckCore, StartAction::CheckCore),
        (StartPhase::CheckCore, StartEvent::CoreExists(exists)) => if exists {
            (StartPhase::Spawn, StartAction::Spawn)
        } else {
            (StartPhase::Done, StartAction::Finish(StartOutcome::Missing))
        },
        (StartPhase::Spawn, StartEvent::SpawnOk(ok)) => if ok {
            (StartPhase::Spawned { probes: 1 }, StartAction::Sleep(PROBE_INTERVAL_MS))
        } else {
            (StartPhase::Done, StartAction::Finish(StartOutcome::SpawnFailed))
        },
        (StartPhase::Spawned { probes }, StartEvent::Slept) => (
            StartPhase::ProbeSpawned { probes },
            StartAction::Probe,
        ),
        (StartPhase::ProbeSpawned { probes }, StartEvent::Alive(alive)) => if alive {
            (StartPhase::Done, StartAction::Finish(StartOutcome::Started(probes)))
        } else if probes < SPAWN_PROBES {
            (StartPhase::Spawned { probes: (probes + 1) as u8 }, StartAction::Sleep(PROBE_INTERVAL_MS))
        } else {
            (StartPhase::CountLeft, StartAction::CountOrphans)
        },
        (StartPhase::CountLeft, StartEvent::Orphans(n)) => (
            StartPhase::Done,
            StartAction::Finish(StartOutcome::NotReady(n)),
        ),
        _ => unexpected,
    }
}

/// The first phase and action of starting the daemon.
pub fn start_begin() -> (r: (StartPhase, StartAction))
    ensures
        r == spec_start_begin(),
{
    (StartPhase::Probe, StartAction::Probe)
}

/// One decision of starting the daemon: the next phase and action after `event` in `phase`.
pub fn start_step(phase: StartPhase, event: StartEvent) -> (r: (StartPhase, StartAction))
    ensures
        r == spec_start_step(phase, event),
{
    match (phase, event) {
        (StartPhase::Probe, StartEvent::Alive(alive)) => if alive {
            (StartPhase::Done, StartAction::Finish(StartOutcome::AlreadyRunning))
        } else {
            (StartPhase::CountOrphans, StartAction::CountOrphans)
        },
        (StartPhase::CountOrphans, StartEvent::Orphans(n)) => if n > 0 {
            (StartPhase::WaitOrphans { probes: 1 }, StartAction::Sleep(PROBE_INTERVAL_MS))
        } else {
            (StartPhase::CheckCore, StartAction::CheckCore)
        },
        (StartPhase::WaitOrphans { probes }, StartEvent::Slept) => (
            StartPhase::ProbeOrphans { probes },
            StartAction::Probe,
        ),
        (StartPhase::ProbeOrphans { probes }, StartEvent::Alive(alive)) => if alive {
            (StartPhase::Done, StartAction::Finish(StartOutcome::BecameHealthy(probes)))
        } else if probes < ORPHAN_PROBES {
            (StartPhase::WaitOrphans { probes: probes + 1 }, StartAction::Sleep(PROBE_INTERVAL_MS))
        } else {
            (StartPhase::Kill, StartAction::KillOrphans)
        },
        (StartPhase::Kill, StartEvent::Killed(_)) => (StartPhase::AfterKill, StartAction::Sleep(AFTER_KILL_MS)),
        (StartPhase::AfterKill, StartEvent::Slept) => (StartPhase::CheckCore, StartAction::CheckCore),
        (StartPhase::CheckCore, StartEvent::CoreExists(exists)) => if exists {
            (StartPhase::Spawn, StartAction::Spawn)
        } else {
            (StartPhase::Done, StartAction::Finish(StartOutcome::Missing))
        },
        (StartPhase::Spawn, StartEvent::SpawnOk(ok)) => if ok {
            (StartPhase::Spawned { probes: 1 }, StartAction::Sleep(PROBE_INTERVAL_MS))
        } else {
            (StartPhase::Done, StartAction::Finish(StartOutcome::SpawnFailed))
        },
        (StartPhase::Spawned { probes }, StartEvent::Slept) => (
            StartPhase::ProbeSpawned { probes },
            StartAction::Probe,
        ),
        (StartPhase::ProbeSpawned { probes }, StartEvent::Alive(alive)) => if alive {
            (StartPhase::Done, StartAction::Finish(StartOutcome::Started(probes)))
        } else if probes < SPAWN_PROBES {
            (StartPhase::Spawned { probes: probes + 1 }, StartAction::Sleep(PROBE_INTERVAL_MS))
        } else {
            (StartPhase::CountLeft, StartAction::CountOrphans)
        },
        (StartPhase::CountLeft, StartEvent::Orphans(n)) => (
            StartPhase::Done,
            StartAction::Finish(StartOutcome::NotReady(n)),
        ),
        _ => (StartPhase::Done, StartAction::Finish(StartOutcome::Unexpected)),
    }
}

/// The phases that starting the daemon can be in: the probe counters stay within their
/// limits (one to eight while waiting for a silent daemon, one to twenty after a spawn).
pub open spec fn reachable(phase: StartPhase) -> bool {
    match phase {
        StartPhase::WaitOrphans { probes } => 1 <= probes <= ORPHAN_PROBES,
        StartPhase::ProbeOrphans { probes } => 1 <= probes <= ORPHAN_PROBES,
        StartPhase::Spawned { probes } => 1 <= probes <= SPAWN_PROBES,
        StartPhase::ProbeSpawned { probes } => 1 <= probes <= SPAWN_PROBES,
        _ => true,
    }
}

/// How many steps starting the daemon can still take at most.
pub open spec fn steps_left(phase: StartPhase) -> int {
    let spawn_part = 2 + 2 * SPAWN_PROBES + 1;
    match phase {
        StartPhase::Probe => 2 + 2 * ORPHAN_PROBES + 3 + spawn_part + 2,
        StartPhase::CountOrphans => 1 + 2 * ORPHAN_PROBES + 3 + spawn_part + 2,
        StartPhase::WaitOrphans { probes } => 2 * (ORPHAN_PROBES - probes) + 2 + 3 + spawn_part + 2,
        StartPhase::ProbeOrphans { probes } => 2 * (ORPHAN_PROBES - probes) + 1 + 3 + spawn_part + 2,
        StartPhase::Kill => 3 + spawn_part + 1,
        StartPhase::AfterKill => 2 + spawn_part + 1,
        StartPhase::CheckCore => 1 + spawn_part + 1,
        StartPhase::Spawn => spawn_part + 1,
        StartPhase::Spawned { probes } => 2 * (SPAWN_PROBES - probes) + 2 + 2,
        StartPhase::ProbeSpawned { probes } => 2 * (SPAWN_PROBES - probes) + 1 + 2,
        StartPhase::CountLeft => 1,
        StartPhase::Done => 0,
    }
}

/// Starting the daemon keeps its probe counters within their limits and always comes to an
/// end: every step from a reachable phase leads to a reachable phase with fewer steps left,
/// a finishing action leads to `Done`, and every other action leaves a phase that is not
/// `Done`.  A daemon that does not answer is therefore probed at most eight times, each
/// after a sleep of 200 ms, before it is killed (followed by a sleep of 400 ms), and a
/// spawned one at most twenty times, each after a sleep of 200 ms.
pub proof fn lemma_start_ends(phase: StartPhase, event: StartEvent)
    requires
        reachable(phase),
        phase != StartPhase::Done,
    ensures
        reachable(spec_start_step(phase, event).0),
        0 <= steps_left(spec_start_step(phase, event).0) < steps_left(phase),
        (spec_start_step(phase, event).1 is Finish) == (spec_start_step(phase, event).0 == StartPhase::Done),
        spec_start_step(phase, event).1 is Sleep ==> (
            spec_start_step(phase, event).1 == StartAction::Sleep(PROBE_INTERVAL_MS)
                || (phase == StartPhase::Kill && spec_start_step(phase, event).1 == StartAction::Sleep(AFTER_KILL_MS))),
{
}

/// After a sleep in the probing loops the next action is a probe, and a daemon that answers a
/// probe ends the start-up: as already running at the first probe, as healthy while silent
/// processes were waited for, and as started after a spawn.
pub proof fn lemma_probe_outcomes(probes: u8)
    ensures
        spec_start_step(StartPhase::Probe, StartEvent::Alive(true)).1 == StartAction::Finish(StartOutcome::AlreadyRunning),
        spec_start_step(StartPhase::WaitOrphans { probes }, StartEvent::Slept).1 == StartAction::Probe,
        spec_start_step(StartPhase::Spawned { probes }, StartEvent::Slept).1 == StartAction::Probe,
        spec_start_step(StartPhase::ProbeOrphans { probes }, StartEvent::Alive(true)).1
            == StartAction::Finish(StartOutcome::BecameHealthy(probes)),
        spec_start_step(StartPhase::ProbeSpawned { probes }, StartEvent::Alive(true)).1
            == StartAction::Finish(StartOutcome::Started(probes)),
        spec_start_step(StartPhase::CheckCore, StartEvent::CoreExists(false)).1 == StartAction::Finish(StartOutcome::Missing),
{
}

/// How many of the lines name the daemon's Windows executable, ignoring ASCII case.
pub open spec fn lines_naming_core(lines: Seq<Seq<char>>) -> nat
    decreases lines.len(),
{
    if lines.len() == 0 {
        0
    } else {
        lines_naming_core(lines.drop_last()) + (if contains_seq(ascii_lowercase(lines.last()), "hintshell-core.exe"@) {
            1nat
        } else {
            0nat
        })
    }
}

/// How many daemon processes a process listing shows: on Windows (`tasklist` output) the
/// lines that name `hintshell-core.exe`, elsewhere (`pgrep` output, one process id per line)
/// the lines that are not blank.
pub fn daemon_process_count(listing: &str, windows: bool) -> (r: usize)
    ensures
        r == (if windows {
            lines_naming_core(spec_lines(listing@))
        } else {
            spec_lines(listing@).len()
        }),
{
    let lines = nonempty_lines(listing);
    proof {
        assert(crate::text::views(lines@).len() == lines@.len());
    }
    if !windows {
        return lines.len();
    }
    let ghost ls = spec_lines(listing@);
    let mut n: usize = 0;
    let mut i: usize = 0;
    while i < lines.len()
        invariant
            i <= lines@.len(),
            crate::text::views(lines@) == ls,
            n == lines_naming_core(ls.take(i as int)),
            n <= i,
        decreases lines@.len() - i,
    {
        assert(ls.take(i + 1).drop_last() =~= ls.take(i as int));
        assert(ls[i as int] == lines@[i as int]@);
        let lower = to_ascii_lowercase(lines[i].as_str());
        if contains_str(lower.as_str(), "hintshell-core.exe") {
            n = n + 1;
        }
        i = i + 1;
    }
    assert(ls.take(lines@.len() as int) =~= ls);
    n
}

} // verus!
