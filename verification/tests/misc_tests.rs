use hintshell::version::{update_notice, UpdateNotice};
use hintshell::startup::daemon_process_count;
use hintshell::startup::{start_begin, start_step, StartAction, StartEvent, StartOutcome};
use hintshell::config::HintShellConfig;
use hintshell::history::{daily_prune, prune_due, DefaultCmd};
use hintshell::shell::Host;
use hintshell::version::{is_newer, version_score};
use hintshell::workspace::{inspect_level, marker_names, WorkspaceDetector, WorkspaceFacts};

#[test]
fn newer_versions() {
    assert!(is_newer("0.3.5", "0.3.4"));
    assert!(!is_newer("0.3.4", "0.3.4"));
    assert!(!is_newer("0.3.3", "0.3.4"));
    assert!(is_newer("1.0.0", "0.99.99"));
    assert!(is_newer("0.3.4", "0.3.4-beta.2"));
    assert!(is_newer("0.3.4-beta.3", "0.3.4-beta.2"));
    assert!(!is_newer("0.3.4-beta.2", "0.3.4"));
    assert_eq!(version_score("1.2.3"), 1_002_003);
    assert_eq!(version_score("x.+7"), 7_000);
    assert_eq!(version_score("2"), 2_000_000);
}

#[test]
fn prune_runs_once_a_day() {
    assert!(prune_due(None, 0, 0));
    assert!(prune_due(Some("garbage"), 0, 0));
    let then = "2024-01-01T00:00:00Z";
    let t = 1_704_067_200i64;
    assert!(!prune_due(Some(then), t + 86_399, 999_999_999));
    assert!(prune_due(Some(then), t + 86_400, 0));
    assert!(!prune_due(Some("2024-01-02T00:00:00+00:00"), t + 86_400 + 3_600, 0));
}

#[test]
fn config_defaults_and_colours() {
    let config = HintShellConfig::default();
    assert_eq!(config.border_color, "purple");
    assert_eq!(config.max_visible, 6);
    assert!(config.ghost_text);
    assert_eq!(config.border_ansi_code(), "\u{1b}[38;5;141m");
    let blue = HintShellConfig { border_color: "BLUE".to_string(), ..HintShellConfig::default() };
    assert_eq!(blue.border_ansi_code(), "\u{1b}[38;5;75m");
    let rainbow = HintShellConfig { border_color: "Aurora".to_string(), ..HintShellConfig::default() };
    assert!(rainbow.is_rainbow());
    assert!(!rainbow.is_apple());
    let style = rainbow.overlay_style();
    assert!(style.rainbow);
    assert_eq!(style.max_visible, 6);
    let neon = HintShellConfig { border_color: "neon".to_string(), ..HintShellConfig::default() };
    assert!(neon.is_apple());
    assert_eq!(neon.border_ansi_code(), "\u{1b}[38;2;0;245;212m");
    let host = Host { home_dir: Some("/home/u".to_string()), windows: false };
    assert_eq!(HintShellConfig::config_path(&host), "/home/u/.hintshell/config.toml");
}

#[test]
fn workspace_levels_report_present_markers_in_order() {
    assert_eq!(marker_names().len(), 8);
    let mut present = vec![false; 8];
    assert!(inspect_level("/p", &present).is_none());
    present[2] = true;
    present[0] = true;
    let facts = inspect_level("/p", &present).unwrap();
    assert_eq!(facts.root.as_deref(), Some("/p"));
    assert_eq!(facts.markers, vec![".git", "Cargo.toml"]);
    assert!(facts.has("Cargo.toml"));
}

#[test]
fn invalidates_cached_facts_when_marker_appears() {
    let mut detector = WorkspaceDetector::with_ttl(60_000);
    let facts = WorkspaceFacts { root: None, markers: Vec::new() };
    detector.remember("/isolated".to_string(), facts, vec![None; 8], 0);
    assert!(detector.cached("/isolated", &vec![None; 8], 10).is_some());
    let mut changed = vec![None; 8];
    changed[1] = Some(42);
    assert!(detector.cached("/isolated", &changed, 10).is_none());
    assert!(detector.cached("/isolated", &vec![None; 8], 60_000).is_none());
    assert_eq!(WorkspaceDetector::new().ttl_ms(), 2000);
}

#[test]
fn detect_reinspects_when_a_marker_appears() {
    let mut detector = WorkspaceDetector::with_ttl(60_000);
    let mut inspections = 0;
    let before = detector.detect("/tmp/isolated".to_string(), vec![None; 8], 0, |dir| {
        inspections += 1;
        assert_eq!(dir, "/tmp/isolated");
        (WorkspaceFacts { root: None, markers: Vec::new() }, 1)
    });
    assert_eq!(before.root, None);
    // Unchanged markers within the time to live: the cached facts, no inspection.
    let again = detector.detect("/tmp/isolated".to_string(), vec![None; 8], 10, |_| {
        panic!("inspected although the cached facts are fresh")
    });
    assert_eq!(again.root, None);
    assert_eq!(inspections, 1);
    // package.json appears: the fingerprint changes and the directory is inspected again.
    let mut changed = vec![None; 8];
    changed[1] = Some(42);
    let facts = detector.detect("/tmp/isolated".to_string(), changed, 20, |dir| {
        (WorkspaceFacts { root: Some(dir), markers: vec!["package.json".to_string()] }, 21)
    });
    assert_eq!(facts.root.as_deref(), Some("/tmp/isolated"));
    assert!(facts.has("package.json"));
}

#[test]
fn default_catalog_commands_are_trimmed_and_blank_ones_skipped() {
    let cmd = DefaultCmd { command: "  git pull \t".to_string(), description: Some("pull changes".to_string()) };
    assert_eq!(cmd.seed_command().as_deref(), Some("git pull"));
    let blank = DefaultCmd { command: " \n ".to_string(), description: None };
    assert_eq!(blank.seed_command(), None);
}

fn run_start(alive_at: Option<usize>, orphans: u64, core_exists: bool, spawn_ok: bool, alive_after_spawn: Option<u8>) -> (Vec<StartAction>, StartOutcome) {
    let (mut phase, mut action) = start_begin();
    let mut actions = vec![action];
    let mut probes = 0;
    let mut spawned = false;
    let mut spawn_probes = 0u8;
    loop {
        let event = match action {
            StartAction::Probe => {
                if spawned {
                    spawn_probes += 1;
                    StartEvent::Alive(alive_after_spawn == Some(spawn_probes))
                } else {
                    probes += 1;
                    StartEvent::Alive(alive_at == Some(probes))
                }
            }
            StartAction::CountOrphans => StartEvent::Orphans(orphans),
            StartAction::Sleep(_) => StartEvent::Slept,
            StartAction::KillOrphans => StartEvent::Killed(orphans),
            StartAction::CheckCore => StartEvent::CoreExists(core_exists),
            StartAction::Spawn => {
                spawned = spawn_ok;
                StartEvent::SpawnOk(spawn_ok)
            }
            StartAction::Finish(outcome) => return (actions, outcome),
        };
        let next = start_step(phase, event);
        phase = next.0;
        action = next.1;
        actions.push(action);
    }
}

#[test]
fn healthy_daemon_is_left_running() {
    let (actions, outcome) = run_start(Some(1), 0, true, true, None);
    assert_eq!(outcome, StartOutcome::AlreadyRunning);
    assert_eq!(actions.len(), 2);
}

#[test]
fn silent_processes_get_eight_probes_before_they_are_killed() {
    let (actions, outcome) = run_start(None, 2, true, true, Some(3));
    assert_eq!(outcome, StartOutcome::Started(3));
    let before_kill: Vec<StartAction> = actions.iter().copied().take_while(|a| *a != StartAction::KillOrphans).collect();
    assert_eq!(before_kill.iter().filter(|a| **a == StartAction::Sleep(200)).count(), 8);
    assert_eq!(before_kill.iter().filter(|a| **a == StartAction::Probe).count(), 9);
    let kill = actions.iter().position(|a| *a == StartAction::KillOrphans).unwrap();
    assert_eq!(actions[kill + 1], StartAction::Sleep(400));
    assert_eq!(actions[kill + 2], StartAction::CheckCore);
}

#[test]
fn silent_daemon_that_wakes_up_is_kept() {
    let (_, outcome) = run_start(Some(4), 1, true, true, None);
    assert_eq!(outcome, StartOutcome::BecameHealthy(3));
}

#[test]
fn missing_core_and_unready_daemon_are_reported() {
    assert_eq!(run_start(None, 0, false, true, None).1, StartOutcome::Missing);
    assert_eq!(run_start(None, 0, true, false, None).1, StartOutcome::SpawnFailed);
    let (actions, outcome) = run_start(None, 0, true, true, None);
    assert_eq!(outcome, StartOutcome::NotReady(0));
    let after_spawn = actions.iter().position(|a| *a == StartAction::Spawn).unwrap();
    assert_eq!(actions[after_spawn..].iter().filter(|a| **a == StartAction::Probe).count(), 20);
}

#[test]
fn detects_nearest_workspace_marker() {
    let dirs = vec!["/tmp/t/project/src/nested".to_string(), "/tmp/t/project/src".to_string(), "/tmp/t/project".to_string(), "/tmp/t".to_string()];
    let mut present = vec![vec![false; 8]; 4];
    present[2][2] = true; // Cargo.toml
    present[3][0] = true; // a farther .git is not reached
    let facts = hintshell::workspace::inspect_workspace(&dirs, &present);
    assert_eq!(facts.root.as_deref(), Some("/tmp/t/project"));
    assert!(facts.has("Cargo.toml"));
    assert!(!facts.has(".git"));
}

#[test]
fn workspace_search_stops_after_eight_parents() {
    let dirs: Vec<String> = (0..10).map(|i| format!("/d{i}")).collect();
    let mut present = vec![vec![false; 8]; 10];
    present[9][1] = true;
    let facts = hintshell::workspace::inspect_workspace(&dirs, &present);
    assert_eq!(facts.root, None);
    assert!(facts.markers.is_empty());
    present[8][1] = true;
    let facts = hintshell::workspace::inspect_workspace(&dirs, &present);
    assert_eq!(facts.root.as_deref(), Some("/d8"));
}

#[test]
fn daily_prune_runs_once_a_day_and_dry_runs_record_nothing() {
    // 2024-01-02T00:00:00Z
    let now = 1_704_153_600;
    let first = daily_prune(None, now, 0, false);
    assert!(first.prune && first.record);
    let dry = daily_prune(None, now, 0, true);
    assert!(dry.prune && !dry.record);
    let recorded = "2024-01-02T00:00:00+00:00";
    assert!(!daily_prune(Some(recorded), now, 0, false).prune);
    assert!(!daily_prune(Some(recorded), now + 24 * 3600 - 1, 0, false).prune);
    assert!(daily_prune(Some(recorded), now + 24 * 3600, 0, false).prune);
}

#[test]
fn update_notice_reads_the_latest_tag() {
    let body = r#"{"name":"hintshell","dist-tags":{"latest":"0.3.5","beta":"0.4.0-beta.1"}}"#;
    assert_eq!(update_notice(body, "0.3.4"), UpdateNotice::Available("0.3.5".to_string()));
    assert_eq!(update_notice(body, "0.3.5"), UpdateNotice::Latest);
    assert_eq!(update_notice(body, "0.4.0"), UpdateNotice::Nothing);
    assert_eq!(update_notice("not json", "0.3.4"), UpdateNotice::Nothing);
    assert_eq!(update_notice(r#"{"dist-tags":{}}"#, "0.3.4"), UpdateNotice::Nothing);
    assert_eq!(update_notice(r#"{"dist-tags":{"latest":"5000.0.0"}}"#, "0.3.4"), UpdateNotice::Incomparable);
}

#[test]
fn counts_daemon_processes_in_listings() {
    assert_eq!(daemon_process_count("1234\n5678\n\n", false), 2);
    assert_eq!(daemon_process_count("", false), 0);
    let tasklist = "\r\nHintShell-Core.exe   1234 Console  1  10,000 K\r\nhintshell-core.exe   99 Console 1 9 K\r\nINFO: nothing\r\n";
    assert_eq!(daemon_process_count(tasklist, true), 2);
}
