use hintshell::matcher::{
    fuzzy_filter, history_limit, match_tier, merge_suggestions, multipass_rank, normalize_command,
    Ranked, ScoredEntry,
};

fn key(score: f64) -> i64 {
    let bits = score.to_bits() as i64;
    if bits < 0 {
        bits ^ i64::MAX
    } else {
        bits
    }
}

fn ranked(command: &str, score: f64, source: &str, description: Option<&str>) -> Ranked {
    Ranked {
        command: command.to_string(),
        description: description.map(|d| d.to_string()),
        score_key: key(score),
        frequency: 0,
        source: source.to_string(),
    }
}

fn entry(command: &str, score: i64, frequency: i64, is_default: bool, is_local: bool) -> ScoredEntry {
    ScoredEntry { command: command.to_string(), description: None, score_key: score, frequency, is_default, is_local }
}

#[test]
fn context_candidates_merge_once_and_do_not_displace_stronger_history() {
    let mut history = ranked("npm run dev", 70.0, "history-local", None);
    history.frequency = 4;
    let contextual = vec![
        ranked("npm   run dev", 20.0, "npm", Some("package script")),
        ranked("npm run test", 20.0, "npm", Some("package script")),
    ];
    let suggestions = merge_suggestions("npm run ", vec![history], contextual, 5);
    assert_eq!(suggestions.len(), 2);
    assert_eq!(suggestions[0].command, "npm run dev");
    assert_eq!(suggestions[0].source, "history-local");
    assert_eq!(suggestions[1].command, "npm run test");
}

#[test]
fn prefix_history_ranks_before_contextual_candidate() {
    let history = vec![ranked("cd source", 50.0, "history-global", None)];
    let contextual = vec![ranked("cd src/", 12.0, "path", Some("directory"))];
    let suggestions = merge_suggestions("cd s", history, contextual, 5);
    assert_eq!(suggestions[0].command, "cd source");
    assert_eq!(suggestions[1].command, "cd src/");
}

#[test]
fn contextual_candidate_ranks_before_unrelated_fuzzy_history() {
    let history = vec![ranked("git add src/main.rs", 85.0, "history-global", None)];
    let contextual = vec![ranked("cd core/src/engine/", 12.0, "path", Some("directory"))];
    let suggestions = merge_suggestions("cd core/src/eng", history, contextual, 5);
    assert_eq!(suggestions[0].command, "cd core/src/engine/");
}

#[test]
fn merge_keeps_the_limit_and_breaks_ties_by_command() {
    let history = vec![ranked("git b", 5.0, "history-global", None), ranked("git a", 5.0, "history-global", None), ranked("git c", 9.0, "history-global", None)];
    let out = merge_suggestions("git", history, Vec::new(), 2);
    let commands: Vec<&str> = out.iter().map(|s| s.command.as_str()).collect();
    assert_eq!(commands, vec!["git c", "git a"]);
}

#[test]
fn stronger_candidate_replaces_weaker_history() {
    let history = vec![ranked("ls  -la", 1.0, "history-global", None)];
    let contextual = vec![ranked("ls -la", 3.0, "path", None)];
    let out = merge_suggestions("ls", history, contextual, 5);
    assert_eq!(out.len(), 1);
    assert_eq!(out[0].command, "ls -la");
    assert_eq!(out[0].source, "path");
}

#[test]
fn normalizes_white_space() {
    assert_eq!(normalize_command("  git   commit\t-m  "), "git commit -m");
    assert_eq!(normalize_command(""), "");
}

#[test]
fn tiers_put_extensions_first() {
    assert_eq!(match_tier(&ranked("git status", 1.0, "history-global", None), "git s"), 0);
    assert_eq!(match_tier(&ranked("cd src/", 1.0, "path", None), "x"), 1);
    assert_eq!(match_tier(&ranked("ls", 1.0, "frequent", None), "x"), 2);
}

#[test]
fn fuzzy_matching_finds_abbreviations() {
    let commands = vec!["git status".to_string(), "cargo build".to_string(), "git stash".to_string()];
    let hits = fuzzy_filter(&commands, "gt st");
    let positions: Vec<usize> = hits.iter().map(|h| h.0).collect();
    assert!(positions.contains(&0));
    assert!(!positions.contains(&1));
    let all = fuzzy_filter(&commands, "");
    assert_eq!(all, vec![(0, 0), (1, 0), (2, 0)]);
}

#[test]
fn history_limit_leaves_room_for_context() {
    assert_eq!(history_limit(5, 2), 3);
    assert_eq!(history_limit(5, 9), 1);
    assert_eq!(history_limit(0, 0), 1);
}

#[test]
fn multipass_orders_recent_default_popular_others() {
    let recent = entry("git recent", 1, 1, false, false);
    let entries = vec![
        entry("git others", 50, 1, false, false),
        entry("git default", 10, 0, true, false),
        entry("git most_used", 20, 5, false, false),
        entry("git recent", 99, 1, false, false),
        entry("git popular2", 30, 4, false, false),
    ];
    let out = multipass_rank(Some(recent), &entries, 10);
    let commands: Vec<&str> = out.iter().map(|s| s.command.as_str()).collect();
    assert_eq!(commands, vec!["git recent", "git default", "git popular2", "git most_used", "git others"]);
    let sources: Vec<&str> = out.iter().map(|s| s.source.as_str()).collect();
    assert_eq!(sources, vec!["history-global", "default", "frequent", "history-global", "history-global"]);
}

#[test]
fn multipass_dedup() {
    let entries = vec![entry("git duplicate", 5, 0, true, false), entry("git duplicate", 7, 1, false, true)];
    let out = multipass_rank(None, &entries, 10);
    assert_eq!(out.len(), 1);
    assert_eq!(out[0].command, "git duplicate");
}

#[test]
fn multipass_stops_at_the_limit_but_returns_one() {
    let entries = vec![entry("a", 1, 1, false, true), entry("b", 2, 1, false, false)];
    let out = multipass_rank(None, &entries, 0);
    assert_eq!(out.len(), 1);
    assert_eq!(out[0].command, "b");
    let out = multipass_rank(None, &entries, 1);
    assert_eq!(out.len(), 1);
    assert_eq!(out[0].source, "history-global");
    let out = multipass_rank(None, &entries, 5);
    assert_eq!(out[1].source, "history-local");
}

#[test]
fn normalizing_twice_changes_nothing() {
    for c in ["  git   commit\t-m  ", "", "   ", "ls", "a \n b\u{3000}c"] {
        let once = normalize_command(c);
        assert_eq!(normalize_command(&once), once);
    }
    assert_eq!(normalize_command("a \n b\u{3000}c"), "a b c");
}

// The engine's scores for the history below (a command used just now scores far above
// ones last used years ago), as keys.
#[test]
fn test_multipass_ranking_order() {
    let recent = ScoredEntry {
        command: "git recent".to_string(),
        description: None,
        score_key: key(420.0),
        frequency: 1,
        is_default: false,
        is_local: false,
    };
    let entries = vec![
        entry("git others", key(25.2), 1, false, false),
        entry("git default", key(25.0), 0, true, false),
        entry("git most_used", key(30.8), 5, false, false),
        entry("git recent", key(420.2), 1, false, false),
    ];
    let suggestions = multipass_rank(Some(recent), &entries, 10);
    assert!(suggestions.len() >= 4);
    let commands: Vec<&str> = suggestions.iter().map(|s| s.command.as_str()).collect();
    assert_eq!(suggestions[0].command, "git recent");
    assert!(commands.contains(&"git default"));
    assert!(commands.contains(&"git most_used"));
    assert!(commands.contains(&"git others"));
}

#[test]
fn test_multipass_dedup() {
    // The command is both in the default catalog and the most recent one.
    let recent = ScoredEntry {
        command: "git duplicate".to_string(),
        description: Some(String::new()),
        score_key: key(400.0),
        frequency: 1,
        is_default: true,
        is_local: false,
    };
    let entries = vec![entry("git duplicate", key(300.0), 1, true, false)];
    let suggestions = multipass_rank(Some(recent), &entries, 10);
    assert_eq!(suggestions.len(), 1);
    assert_eq!(suggestions[0].command, "git duplicate");
}
