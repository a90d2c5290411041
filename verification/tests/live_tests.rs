use hintshell::live::{
    fit_width, highlight_match, is_suggestable, is_wsl_environment, overlay_command_width,
    overlay_inner_width, query_request, quote_windows_argument, tab_action,
    trace_startup_enabled, viewport_start, visible_suggestion_rows, LiveShell, TabAction,
};
use hintshell::markers::{filter_cwd_markers, filter_prompt_markers, filter_startup_phase_markers};
use hintshell::protocol::HintShellRequest;

#[test]
fn startup_trace_requires_explicit_one() {
    assert!(trace_startup_enabled(Some("1")));
    assert!(!trace_startup_enabled(Some("0")));
    assert!(!trace_startup_enabled(Some("true")));
    assert!(!trace_startup_enabled(Some("")));
    assert!(!trace_startup_enabled(None));
}

#[test]
fn overlay_caps_rows_to_remaining_space_without_scrolling() {
    assert_eq!(visible_suggestion_rows(3, 30, 12, 6), 6);
    assert_eq!(visible_suggestion_rows(25, 30, 12, 6), 1);
    assert_eq!(visible_suggestion_rows(26, 30, 12, 6), 0);
}

#[test]
fn viewport_scrolls_to_keep_selected_item_visible() {
    assert_eq!(viewport_start(0, 12, 6), 0);
    assert_eq!(viewport_start(5, 12, 6), 0);
    assert_eq!(viewport_start(6, 12, 6), 1);
    assert_eq!(viewport_start(11, 12, 6), 6);
}

#[test]
fn live_query_includes_wrapper_cwd_and_shell() {
    let request = query_request(
        "cd ".to_string(),
        Some(r"D:\Admin\Documents\PROJECTS\HintShell".to_string()),
        "bash",
    );
    assert!(matches!(
        request,
        HintShellRequest::Suggest {
            cwd: Some(cwd),
            shell: Some(shell),
            ..
        } if cwd == r"D:\Admin\Documents\PROJECTS\HintShell" && shell == "bash"
    ));
}

#[test]
fn live_query_identifies_zsh() {
    let request = query_request("git ".to_string(), None, "zsh");
    assert!(matches!(
        request,
        HintShellRequest::Suggest { shell: Some(shell), .. } if shell == "zsh"
    ));
}

#[test]
fn cwd_marker_updates_query_directory_without_rendering() {
    let mut pending = Vec::new();
    let (bytes, cwd) = filter_cwd_markers(
        b"prompt\x1eHINTSHELL_CWD:/tmp/workspace\x1fnext",
        &mut pending,
    );
    assert_eq!(bytes, b"promptnext");
    assert_eq!(cwd, Some("/tmp/workspace".to_string()));
}

#[test]
fn cwd_marker_can_span_output_reads() {
    let mut pending = Vec::new();
    let (first, cwd1) = filter_cwd_markers(b"\x1eHINTSHELL_CWD:/tmp/", &mut pending);
    let (second, cwd2) = filter_cwd_markers(b"project\x1f", &mut pending);
    assert!(first.is_empty());
    assert!(second.is_empty());
    assert_eq!(cwd1, None);
    assert_eq!(cwd2, Some("/tmp/project".to_string()));
}

#[test]
fn prompt_marker_resumes_overlay_without_rendering() {
    let mut pending = Vec::new();
    let (first, n1) = filter_prompt_markers(b"before\x1eHINTSHELL_", &mut pending);
    let (second, n2) = filter_prompt_markers(b"PROMPT\x1fafter", &mut pending);

    assert_eq!(first, b"before");
    assert_eq!(second, b"after");
    assert_eq!(n1 + n2, 1);
}

#[test]
fn prompt_marker_can_span_output_reads() {
    let mut pending = Vec::new();
    let (first, n1) = filter_prompt_markers(b"\x1eHINTSHELL_PROM", &mut pending);
    let (second, n2) = filter_prompt_markers(b"PT\x1f", &mut pending);

    assert!(first.is_empty());
    assert!(second.is_empty());
    assert_eq!(n1, 0);
    assert_eq!(n2, 1);
}

#[test]
fn startup_phases_are_reported_in_order() {
    let mut pending = Vec::new();
    let (out, phases) = filter_startup_phase_markers(
        b"a\x1eHINTSHELL_STARTUP_PHASE:rc\x1fb\x1eHINTSHELL_STARTUP_PHASE:done\x1f",
        &mut pending,
    );
    assert_eq!(out, b"ab");
    assert_eq!(phases, vec!["rc".to_string(), "done".to_string()]);
    assert!(pending.is_empty());
}

#[test]
fn invalid_utf8_cwd_is_ignored_and_partial_start_is_held() {
    let mut pending = Vec::new();
    let (out, cwd) = filter_cwd_markers(b"x\x1eHINTSHELL_CWD:\xff\x1fy\x1eHINT", &mut pending);
    assert_eq!(out, b"xy");
    assert_eq!(cwd, None);
    assert_eq!(pending, b"\x1eHINT");
}

#[test]
fn detects_wsl_from_either_runtime_environment_variable() {
    assert!(is_wsl_environment(true, false));
    assert!(is_wsl_environment(false, true));
    assert!(!is_wsl_environment(false, false));
}

#[test]
fn quotes_windows_arguments_with_spaces_or_quotes() {
    assert_eq!(quote_windows_argument("git status"), "\"git status\"");
    assert_eq!(
        quote_windows_argument("printf 'ok\\n'"),
        "\"printf 'ok\\n'\""
    );
    assert_eq!(quote_windows_argument("a\"b"), "\"a\\\"b\"");
    assert_eq!(quote_windows_argument("plain"), "plain");
}

#[test]
fn accepts_matching_command_suggestion() {
    assert_eq!(
        tab_action("git che", Some("git checkout main")),
        TabAction::AcceptHintShell
    );
}

#[test]
fn defers_path_completion_to_bash() {
    assert_eq!(
        tab_action("cd src/comp", Some("cd src/components")),
        TabAction::ForwardToBash
    );
}

#[test]
fn defers_flag_completion_to_bash() {
    assert_eq!(
        tab_action("git --ver", Some("git --version")),
        TabAction::ForwardToBash
    );
}

#[test]
fn tab_without_suggestion_goes_to_the_shell() {
    assert_eq!(tab_action("git", None), TabAction::ForwardToBash);
    assert!(!is_suggestable("   "));
    assert!(!is_suggestable("echo a\nb"));
    assert!(is_suggestable("git st"));
}

#[test]
fn overlay_frame_does_not_contain_dec_save_restore() {
    let width = 44;
    let inner_width = overlay_inner_width(width);
    let command_width = overlay_command_width(width);
    let row = format!(" ▶ {:<command_width$}  {:<20} ", "git status", "history");
    let description = format!(
        "  {:<desc_width$}",
        "history suggestion",
        desc_width = inner_width - 2
    );

    assert_eq!(inner_width, 42);
    assert_eq!(row.chars().count(), inner_width);
    assert_eq!(description.chars().count(), inner_width);
}

#[test]
fn truncation_keeps_a_visible_ellipsis() {
    assert_eq!(fit_width("abcdefgh", 5), "abcd…");
    assert_eq!(fit_width("abcd", 5), "abcd");
    assert_eq!(fit_width("a\tb", 5), "a b");
}

#[test]
fn highlight_marks_the_typed_text() {
    assert_eq!(
        highlight_match("Git Status", "git ", false, 12),
        "\x1b[1;38;5;220mGit\x1b[0m Status  "
    );
    assert_eq!(highlight_match("ls", "", true, 4), "ls  ");
}

#[test]
fn live_shell_names() {
    assert_eq!(LiveShell::Bash.request_shell(), "bash");
    assert_eq!(LiveShell::Zsh.marker(), "HINTSHELL_LIVE_ZSH");
    assert_eq!(LiveShell::Zsh.display_name(), "Zsh");
}

#[test]
fn startup_phases_are_the_same_wherever_the_stream_is_cut() {
    let stream: &[u8] = b"a\x1eHINTSHELL_STARTUP_PHASE:rc\x1fb\x1eHINTSHELL_STARTUP_PHASE:done\x1fc\x1eHINT";
    let mut whole_pending = Vec::new();
    let (whole_out, whole_phases) = filter_startup_phase_markers(stream, &mut whole_pending);
    for cut in 0..=stream.len() {
        let mut pending = Vec::new();
        let (mut out, mut phases) = filter_startup_phase_markers(&stream[..cut], &mut pending);
        let (out2, phases2) = filter_startup_phase_markers(&stream[cut..], &mut pending);
        out.extend_from_slice(&out2);
        phases.extend(phases2);
        assert_eq!(out, whole_out, "cut at {}", cut);
        assert_eq!(phases, whole_phases, "cut at {}", cut);
        assert_eq!(pending, whole_pending, "cut at {}", cut);
    }
    assert_eq!(whole_out, b"abc");
    assert_eq!(whole_phases, vec!["rc".to_string(), "done".to_string()]);
    assert_eq!(whole_pending, b"\x1eHINT");
}

#[test]
fn cwd_is_the_same_wherever_the_stream_is_cut() {
    let stream: &[u8] = b"x\x1eHINTSHELL_CWD:/a\x1fy\x1eHINTSHELL_CWD:/b/c\x1fz";
    let mut whole_pending = Vec::new();
    let (whole_out, whole_cwd) = filter_cwd_markers(stream, &mut whole_pending);
    for cut in 0..=stream.len() {
        let mut pending = Vec::new();
        let (mut out, cwd1) = filter_cwd_markers(&stream[..cut], &mut pending);
        let (out2, cwd2) = filter_cwd_markers(&stream[cut..], &mut pending);
        out.extend_from_slice(&out2);
        assert_eq!(out, whole_out, "cut at {}", cut);
        assert_eq!(cwd2.or(cwd1), whole_cwd, "cut at {}", cut);
        assert_eq!(pending, whole_pending, "cut at {}", cut);
    }
    assert_eq!(whole_out, b"xyz");
    assert_eq!(whole_cwd, Some("/b/c".to_string()));
}

#[test]
fn live_overlay_is_refused_where_the_platform_has_no_terminal() {
    assert_eq!(
        hintshell::live::run(LiveShell::Bash, vec![]),
        Err("live shell overlay is unsupported on this platform".to_string())
    );
}

#[test]
fn prompt_markers_are_the_same_over_any_number_of_reads() {
    let stream: &[u8] = b"a\x1eHINTSHELL_PROMPT\x1fb\x1eHINTSHELL_PROMPT\x1fc\x1eHINTS";
    let mut pending = Vec::new();
    let (whole, whole_count) = filter_prompt_markers(stream, &mut pending);
    let whole_pending = pending.clone();
    for size in 1..=stream.len() {
        let mut pending = Vec::new();
        let mut out = Vec::new();
        let mut count = 0;
        for chunk in stream.chunks(size) {
            let (o, n) = filter_prompt_markers(chunk, &mut pending);
            out.extend_from_slice(&o);
            count += n;
            assert!(pending.len() < b"\x1eHINTSHELL_PROMPT\x1f".len());
        }
        assert_eq!(out, whole);
        assert_eq!(count, whole_count);
        assert_eq!(pending, whole_pending);
    }
    assert_eq!(whole, b"abc");
    assert_eq!(whole_count, 2);
}
