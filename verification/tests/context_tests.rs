use hintshell::context::{tokenize_command_line, CommandContext};

#[test]
fn parses_quotes_escapes_and_trailing_space() {
    let context = CommandContext::parse("git commit -m \"hello world\" file\\ name ");

    assert_eq!(
        context.tokens,
        ["git", "commit", "-m", "hello world", "file name"]
    );
    assert!(context.has_trailing_space);
    assert_eq!(context.current_token, "");
}

#[test]
fn preserves_unfinished_quote_as_current_token() {
    let context = CommandContext::parse("cat \"src/main");

    assert_eq!(context.command.as_deref(), Some("cat"));
    assert_eq!(context.current_token, "src/main");
    assert!(!context.has_trailing_space);
}

#[test]
fn arguments_follow_the_command_word() {
    let context = CommandContext::parse("git add src/m");
    assert_eq!(context.command.as_deref(), Some("git"));
    assert_eq!(context.arguments, ["add", "src/m"]);
    assert_eq!(context.current_token, "src/m");
}

#[test]
fn empty_line_has_no_command() {
    let context = CommandContext::parse("   ");
    assert!(context.tokens.is_empty());
    assert_eq!(context.command, None);
    assert!(context.arguments.is_empty());
    assert!(context.has_trailing_space);
}

#[test]
fn dangling_backslash_is_kept_and_quoted_space_is_not_trailing() {
    assert_eq!(tokenize_command_line("echo a\\"), ["echo", "a\\"]);
    let context = CommandContext::parse("echo \"a ");
    assert!(!context.has_trailing_space);
    assert_eq!(context.current_token, "a ");
    assert_eq!(tokenize_command_line("it's 'x y'"), ["its x", "y"]);
}

#[test]
fn plain_lines_tokenize_as_white_space_splitting() {
    for line in ["git commit -m msg", "  cd   src/  ", "", "ls\t-la\n"] {
        let expected: Vec<String> = line.split_whitespace().map(String::from).collect();
        assert_eq!(hintshell::context::tokenize_command_line(line), expected);
    }
}
