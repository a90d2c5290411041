use hintshell::overlay::{
    clean_command, decimal_string, filter_live_suggestions, next_chunk, render_overlay, Key,
    KeyCode, KeyMods, OverlayEffect, OverlayItem, OverlayState, OverlayStyle,
    TAB_ACCEPT_CLEAR_DELAY_MS,
};

fn item(command: &str) -> OverlayItem {
    OverlayItem { command: command.to_string(), source: "history".to_string(), description: None }
}

fn plain(code: KeyCode) -> Key {
    Key { code, mods: KeyMods { control: false, alt: false, other: false } }
}

fn ctrl(code: KeyCode) -> Key {
    Key { code, mods: KeyMods { control: true, alt: false, other: false } }
}

fn writes(fx: &[OverlayEffect]) -> Vec<String> {
    fx.iter()
        .filter_map(|e| match e {
            OverlayEffect::Write(s) => Some(s.clone()),
            _ => None,
        })
        .collect()
}

fn state_with(buffer: &str, commands: &[&str], rendered: usize) -> OverlayState {
    let mut state = OverlayState::new();
    state.buffer = buffer.to_string();
    state.generation = 3;
    state.suggestions = commands.iter().map(|c| item(c)).collect();
    state.rendered_lines = rendered;
    state
}

#[test]
fn accepting_a_suggestion_discards_before_inserting() {
    assert!(TAB_ACCEPT_CLEAR_DELAY_MS > 0);
}

#[test]
fn stale_result_can_be_rejected_by_generation_and_buffer() {
    let mut state = OverlayState::new();
    state.buffer = "git c".to_string();
    state.generation = 3;
    let fx = state.accept_result(2, "git", vec![item("git commit")]);
    assert!(fx.is_empty());
    assert!(state.suggestions.is_empty());
    let fx = state.accept_result(3, "git", vec![item("git commit")]);
    assert!(fx.is_empty());
    let fx = state.accept_result(3, "git c", vec![item("git commit")]);
    assert!(matches!(fx.as_slice(), [OverlayEffect::Render]));
    assert_eq!(state.suggestions.len(), 1);
    assert_eq!(state.selected, 0);
}

#[test]
fn typing_writes_the_key_and_asks_for_suggestions() {
    let mut state = state_with("git", &["git status"], 5);
    let fx = state.handle_key(plain(KeyCode::Char(' ')));
    assert!(matches!(fx[0], OverlayEffect::Clear(5)));
    assert_eq!(writes(&fx), vec![" ".to_string()]);
    match fx.last() {
        Some(OverlayEffect::Query(g, b)) => {
            assert_eq!(*g, 4);
            assert_eq!(b, "git ");
        }
        other => panic!("unexpected {other:?}"),
    }
    assert_eq!(state.buffer, "git ");
    assert_eq!(state.generation, 4);
    assert!(state.suggestions.is_empty());
    assert_eq!(state.rendered_lines, 0);
}

#[test]
fn blank_lines_are_not_queried() {
    let mut state = OverlayState::new();
    let fx = state.handle_key(plain(KeyCode::Char(' ')));
    assert!(!fx.iter().any(|e| matches!(e, OverlayEffect::Query(..))));
}

#[test]
fn tab_accepts_the_selected_command() {
    let mut state = state_with("git che", &["git checkout main\n"], 4);
    let fx = state.handle_key(plain(KeyCode::Tab));
    assert!(matches!(fx[0], OverlayEffect::Clear(4)));
    assert_eq!(writes(&fx), vec!["\u{15}".to_string(), "git checkout main".to_string()]);
    assert!(fx.iter().any(|e| matches!(e, OverlayEffect::Pause(8))));
    assert_eq!(state.buffer, "git checkout main");
    assert!(state.suggestions.is_empty());
}

#[test]
fn tab_on_a_path_goes_to_the_shell() {
    let mut state = state_with("cd src/comp", &["cd src/components"], 0);
    let fx = state.handle_key(plain(KeyCode::Tab));
    assert_eq!(writes(&fx), vec!["\t".to_string()]);
    assert_eq!(state.buffer, "cd src/comp");
}

#[test]
fn arrows_move_within_the_list() {
    let mut state = state_with("g", &["git a", "git b"], 5);
    let fx = state.handle_key(plain(KeyCode::Down));
    assert!(matches!(fx.as_slice(), [OverlayEffect::Clear(5), OverlayEffect::Render]));
    assert_eq!(state.selected, 1);
    state.handle_key(plain(KeyCode::Down));
    assert_eq!(state.selected, 1);
    state.handle_key(plain(KeyCode::Up));
    state.handle_key(plain(KeyCode::Up));
    assert_eq!(state.selected, 0);
}

#[test]
fn arrows_without_suggestions_go_to_the_shell() {
    let mut state = OverlayState::new();
    let fx = state.handle_key(plain(KeyCode::Up));
    assert_eq!(writes(&fx), vec!["\u{1b}[A".to_string()]);
    assert!(!state.tracking_valid);
}

#[test]
fn escape_closes_the_list() {
    let mut state = state_with("g", &["git a"], 5);
    let fx = state.handle_key(plain(KeyCode::Esc));
    assert!(matches!(fx.as_slice(), [OverlayEffect::Clear(5)]));
    assert!(state.suggestions.is_empty());
    assert!(state.tracking_valid);
}

#[test]
fn enter_runs_the_line_and_starts_over() {
    let mut state = state_with("ls", &["ls -la"], 5);
    state.tracking_valid = false;
    let fx = state.handle_key(plain(KeyCode::Enter));
    assert_eq!(writes(&fx), vec!["\r".to_string()]);
    assert_eq!(state.buffer, "");
    assert!(state.tracking_valid);
    assert!(state.suggestions.is_empty());
    assert_eq!(state.generation, 4);
}

#[test]
fn backspace_shortens_the_line() {
    let mut state = state_with("gits", &[], 0);
    let fx = state.handle_key(plain(KeyCode::Backspace));
    assert_eq!(writes(&fx), vec!["\u{7f}".to_string()]);
    assert_eq!(state.buffer, "git");
}

#[test]
fn control_keys_drop_or_abandon_the_line() {
    let mut state = state_with("git", &["git a"], 0);
    let fx = state.handle_key(ctrl(KeyCode::Char('c')));
    assert_eq!(writes(&fx), vec!["\u{3}".to_string()]);
    assert_eq!(state.buffer, "");
    assert_eq!(state.suggestions.len(), 1);
    let fx = state.handle_key(ctrl(KeyCode::Char('z')));
    assert_eq!(writes(&fx), vec!["\u{1a}".to_string()]);
    assert!(!state.tracking_valid);
    let fx = state.handle_key(ctrl(KeyCode::Char('x')));
    assert!(fx.is_empty());
}

#[test]
fn right_arrow_types_the_rest_of_the_suggestion() {
    let mut state = state_with("GIT st", &["git status"], 5);
    let fx = state.handle_key(plain(KeyCode::Right));
    assert_eq!(writes(&fx), vec!["atus".to_string()]);
    assert_eq!(state.buffer, "git status");
    assert!(state.suggestions.is_empty());
}

#[test]
fn alt_right_types_the_next_word() {
    let mut state = state_with("git", &["git commit -m"], 5);
    let key = Key { code: KeyCode::Right, mods: KeyMods { control: false, alt: true, other: false } };
    let fx = state.handle_key(key);
    assert_eq!(writes(&fx), vec![" commit".to_string()]);
    assert_eq!(state.buffer, "git commit");
    assert!(matches!(fx.last(), Some(OverlayEffect::Query(_, b)) if b == "git commit"));
}

#[test]
fn right_arrow_without_an_extension_moves_the_cursor() {
    let mut state = state_with("cargo", &["git status"], 0);
    let fx = state.handle_key(plain(KeyCode::Right));
    assert_eq!(writes(&fx), vec!["\u{1b}[C".to_string()]);
    assert!(!state.tracking_valid);
}

#[test]
fn paste_stops_following_the_line() {
    let mut state = state_with("g", &["git a"], 5);
    let fx = state.handle_paste("echo hi".to_string());
    assert!(matches!(fx[0], OverlayEffect::Clear(5)));
    assert_eq!(writes(&fx), vec!["echo hi".to_string()]);
    assert!(!state.tracking_valid);
    state.prompt_ready();
    assert!(state.tracking_valid);
    assert_eq!(state.buffer, "");
}

#[test]
fn live_filter_prefers_prefix_matches() {
    let raw = vec![item("cargo build"), item("Git status"), item("echo git")];
    let kept = filter_live_suggestions(raw, "git");
    assert_eq!(kept.len(), 1);
    assert_eq!(kept[0].command, "Git status");
    let raw = vec![item("cargo build"), item("echo git"), item("ls")];
    let kept = filter_live_suggestions(raw, "git");
    assert_eq!(kept.len(), 1);
    assert_eq!(kept[0].command, "echo git");
}

#[test]
fn line_breaks_are_cleaned_from_commands() {
    assert_eq!(clean_command("a\nb\r\n"), "a b");
    assert_eq!(next_chunk("  commit -m x"), "  commit");
    assert_eq!(decimal_string(0), "0");
    assert_eq!(decimal_string(1203), "1203");
}

#[test]
fn frame_draws_border_rows_and_description() {
    let mut state = state_with("git", &["git status", "git stash"], 0);
    state.suggestions[1].description = Some("stash changes".to_string());
    state.selected = 1;
    let style = OverlayStyle { rainbow: false, border: "\u{1b}[38;5;141m".to_string(), max_visible: 6 };
    let frame = render_overlay(&state, &style, 44, 30, 3);
    assert_eq!(frame.lines, 5);
    assert!(frame.text.contains(" 2/2 "));
    assert!(frame.text.contains("stash changes"));
    assert!(frame.text.contains("\u{25b6}"));
    assert_eq!(frame.text.matches("\u{1b}[1B\r\u{1b}[2K").count(), 5);
    assert!(!frame.text.contains("\u{1b}7"));
    let none = render_overlay(&state, &style, 44, 30, 27);
    assert_eq!(none.lines, 0);
    assert!(none.text.is_empty());
}

#[test]
fn rainbow_frame_uses_the_palette() {
    let state = state_with("x", &["xyz"], 0);
    let style = OverlayStyle { rainbow: true, border: String::new(), max_visible: 6 };
    let frame = render_overlay(&state, &style, 100, 40, 0);
    assert_eq!(frame.lines, 4);
    assert!(frame.text.contains("\u{1b}[38;5;212m"));
    assert!(frame.text.contains("history suggestion"));
}

#[test]
fn prompt_hands_input_to_the_overlay_and_enter_hands_it_back() {
    use_mode();
}

fn use_mode() {
    let m = hintshell::overlay::next_input_mode(hintshell::overlay::InputMode::ChildPassthrough, hintshell::overlay::ModeEvent::PromptReady);
    assert_eq!(m, hintshell::overlay::InputMode::PromptOverlay);
    let m2 = hintshell::overlay::next_input_mode(m, hintshell::overlay::ModeEvent::KeyRead { enter: false });
    assert_eq!(m2, hintshell::overlay::InputMode::PromptOverlay);
    let m3 = hintshell::overlay::next_input_mode(m2, hintshell::overlay::ModeEvent::KeyRead { enter: true });
    assert_eq!(m3, hintshell::overlay::InputMode::ChildPassthrough);
}
