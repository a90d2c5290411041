use hintshell::shell::bash::{hook_script, install_line};
use hintshell::shell::{add_init_block, bin_dir_posix, cli_bin_posix, core_bin_posix, detect_shells, remove_init_block, to_posix_path, Host, Shell};

fn host() -> Host {
    Host { home_dir: Some("/home/user".to_string()), windows: false }
}

#[test]
fn live_bash_hook_skips_prompt_markers_in_git_bash() {
    let hook = hook_script(&host());
    assert!(hook.contains("HINTSHELL_LIVE_BASH:-}\" && -z \"${MSYSTEM:-}"));
}

#[test]
fn live_bash_hook_defers_daemon_startup_until_history_recording_is_needed() {
    let hook = hook_script(&host());
    assert!(hook.contains("[[ -z \"${HINTSHELL_LIVE_BASH:-}\" ]] && _hintshell_ensure_daemon"));
}

#[test]
fn hook_defers_daemon_startup_until_a_non_live_action() {
    let hook = hook_script(&host());
    assert!(hook.contains("Daemon startup is deferred"));
    assert!(!hook.contains("\n_hintshell_ensure_daemon\n"));
    assert!(hook.contains("_hintshell_tab() {\n    _hintshell_ensure_daemon"));
    assert!(hook.contains(
        "_hintshell_preexec() {\n    [[ -z \"${HINTSHELL_LIVE_BASH:-}\" ]] && _hintshell_ensure_daemon"
    ));
}

#[test]
fn install_line_enables_macos_live_overlay_by_default() {
    let line = install_line(&host());
    assert!(line.contains("HINTSHELL_ENABLE_MACOS_LIVE_OVERLAY=1"));
    assert!(line.contains("HINTSHELL_DISABLE_AUTO_BASH"));
    assert!(line.contains("HINTSHELL_ENABLE_MACOS_LIVE_OVERLAY"));
    assert!(line.contains("Darwin"));
    assert!(line.contains("BASH_EXECUTION_STRING"));
    assert!(line.contains("HINTSHELL_LIVE_BASH"));
    assert!(line.contains("MSYSTEM"));
    assert!(line.contains("WSL_INTEROP"));
    assert!(line.contains("WSL_DISTRO_NAME"));
    assert!(line.contains("exec \""));
    assert!(line.contains("\" bash"));
}

#[test]
fn install_line_uses_the_home_bin_directory() {
    let line = install_line(&host());
    assert!(line.contains("export PATH=\"/home/user/.hintshell/bin:$PATH\""));
    assert!(line.starts_with("\n# HintShell Initialization\n"));
    assert!(line.ends_with("# End HintShell\n"));
}

#[test]
fn uninstall_after_install_restores_the_rc_file() {
    for shell in [Shell::Bash, Shell::Zsh, Shell::PowerShell] {
        let original = "alias ll='ls -l'\nexport EDITOR=vim\n";
        let line = shell.install_line(&host());
        let installed = add_init_block(original, &line, false).unwrap();
        assert_eq!(installed, format!("{original}{line}"));
        let removed = remove_init_block(&installed).unwrap();
        assert_eq!(removed, format!("{original}\n"));
    }
}

#[test]
fn installing_again_replaces_the_block() {
    for shell in [Shell::Bash, Shell::Zsh, Shell::PowerShell] {
        let line = shell.install_line(&host());
        let once = add_init_block("export A=1\n", &line, true).unwrap();
        let with_later = format!("{once}alias gs='git status'\n");
        let twice = add_init_block(&with_later, &line, true).unwrap();
        assert_eq!(twice, with_later);
        assert_eq!(twice.matches("# HintShell Initialization").count(), 1);
    }
}

#[test]
fn installing_replaces_an_older_powershell_block_and_keeps_later_lines() {
    let old = "$env:EDITOR = 'code'\n\n# HintShell Initialization\nImport-Module \"C:/Users/u/.hintshell/module/HintShellModule.psd1\" -DisableNameChecking -ErrorAction SilentlyContinue\nStart-HintShell\nSet-Alias ll Get-ChildItem\nfunction prompt { 'PS> ' }\n";
    let line = Shell::PowerShell.install_line(&host());
    let refreshed = add_init_block(old, &line, Shell::PowerShell.refreshes_block()).unwrap();
    assert_eq!(
        refreshed,
        format!("$env:EDITOR = 'code'\n{line}Set-Alias ll Get-ChildItem\nfunction prompt {{ 'PS> ' }}\n")
    );
    assert_eq!(refreshed.matches("# HintShell Initialization").count(), 1);
}

#[test]
fn uninstall_removes_only_the_lines_of_an_older_powershell_block() {
    let old = "$env:EDITOR = 'code'\n\n# HintShell Initialization\nImport-Module \"C:/m/HintShellModule.psd1\" -DisableNameChecking -ErrorAction SilentlyContinue\nStart-HintShell\nSet-Alias ll Get-ChildItem\nfunction prompt { 'PS> ' }\n";
    assert_eq!(
        remove_init_block(old),
        Some("$env:EDITOR = 'code'\n\nSet-Alias ll Get-ChildItem\nfunction prompt { 'PS> ' }\n".to_string())
    );
}

#[test]
fn uninstall_keeps_lines_after_the_block() {
    for shell in [Shell::Bash, Shell::Zsh, Shell::PowerShell] {
        let line = shell.install_line(&host());
        let text = format!("export A=1\n{line}one\ntwo\nthree\nfour\nfive\nsix\nseven\neight\nnine\nten\n");
        assert_eq!(
            remove_init_block(&text),
            Some("export A=1\n\none\ntwo\nthree\nfour\nfive\nsix\nseven\neight\nnine\nten\n".to_string())
        );
    }
}

#[test]
fn zsh_block_starts_the_live_overlay_on_macos() {
    let line = Shell::Zsh.install_line(&host());
    assert!(line.contains("Darwin"));
    assert!(line.contains("HINTSHELL_ENABLE_MACOS_LIVE_OVERLAY=1"));
    assert!(line.contains("HINTSHELL_DISABLE_AUTO_ZSH"));
    assert!(line.contains("HINTSHELL_LIVE_ZSH"));
    assert!(line.contains("exec \"/home/user/.hintshell/bin/hintshell\" zsh"));
    assert!(line.ends_with("# End HintShell\n"));
}

#[test]
fn removing_without_a_block_finds_nothing() {
    assert_eq!(remove_init_block("export A=1\n"), None);
}

#[test]
fn shell_names_parse_case_insensitively() {
    assert_eq!(Shell::from_str("PWSH"), Some(Shell::PowerShell));
    assert_eq!(Shell::from_str("Bash"), Some(Shell::Bash));
    assert_eq!(Shell::from_str("zsh"), Some(Shell::Zsh));
    assert_eq!(Shell::from_str("fish"), None);
    assert_eq!(Shell::Bash.name(), "Bash");
}

#[test]
fn detected_shells_keep_their_order() {
    assert_eq!(detect_shells(false, true, true, true), vec![Shell::PowerShell, Shell::Bash, Shell::Zsh]);
    assert_eq!(detect_shells(false, false, false, true), vec![Shell::Zsh]);
    assert!(detect_shells(false, false, false, false).is_empty());
}

#[test]
fn display_names_parse_back() {
    for shell in [Shell::PowerShell, Shell::Bash, Shell::Zsh] {
        assert_eq!(Shell::from_str(shell.name()), Some(shell));
    }
    assert_eq!(Shell::from_str("BASH"), Some(Shell::Bash));
    assert_eq!(Shell::from_str("Pwsh"), Some(Shell::PowerShell));
}

#[test]
fn installing_twice_is_refused() {
    for shell in [Shell::Bash, Shell::Zsh] {
        let line = shell.install_line(&host());
        let once = add_init_block("", &line, shell.refreshes_block()).unwrap();
        assert_eq!(add_init_block(&once, &line, shell.refreshes_block()), Err("Already installed".to_string()));
    }
    assert!(Shell::PowerShell.refreshes_block());
}

#[test]
fn binaries_sit_in_the_posix_bin_directory() {
    for host in [host(), Host { home_dir: Some("C:\\Users\\u".to_string()), windows: true }] {
        let bin = bin_dir_posix(&host);
        let exe = if host.windows { ".exe" } else { "" };
        assert_eq!(cli_bin_posix(&host), format!("{bin}/hintshell{exe}"));
        assert_eq!(core_bin_posix(&host), format!("{bin}/hintshell-core{exe}"));
        assert!(!bin.contains('\\'));
    }
    let win = Host { home_dir: Some("C:\\Users\\u".to_string()), windows: true };
    assert_eq!(bin_dir_posix(&win), "/c/Users/u/.hintshell/bin");
}

#[test]
fn posix_paths_convert_only_ascii_drives() {
    assert_eq!(to_posix_path("D:\\x\\y"), "/d/x/y");
    assert_eq!(to_posix_path("é:\\x"), "é:/x");
}
