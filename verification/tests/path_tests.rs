use hintshell::path::{normalize_path, resolve_path, shell_cwd_to_path};

#[test]
fn converts_git_bash_cwd_to_native_path() {
    assert_eq!(
        shell_cwd_to_path("/c/workspace/hintshell", true),
        "C:\\workspace\\hintshell"
    );
}

#[test]
fn keeps_cwd_outside_windows() {
    assert_eq!(shell_cwd_to_path("/c/workspace/hintshell", false), "/c/workspace/hintshell");
    assert_eq!(shell_cwd_to_path("/cx/workspace", true), "/cx/workspace");
}

#[test]
fn resolves_relative_segments_without_filesystem_access() {
    let root = "C:/workspace/project/src";
    assert_eq!(
        resolve_path(root, "../tests", None, false),
        Some("C:/workspace/project/tests".to_string())
    );
}

#[test]
fn expands_home_and_refuses_other_users() {
    assert_eq!(resolve_path("/tmp", "~", Some("/home/u"), false), Some("/home/u".to_string()));
    assert_eq!(resolve_path("/tmp", "~/a/./b/", Some("/home/u"), false), Some("/home/u/a/b".to_string()));
    assert_eq!(resolve_path("/tmp", "~", None, false), None);
    assert_eq!(resolve_path("/tmp", "~bob/x", Some("/home/u"), false), None);
    assert_eq!(resolve_path("/tmp", "/etc//x/..", None, false), Some("/etc".to_string()));
}

#[test]
fn normalization_drops_dots_and_never_climbs_above_the_start() {
    assert_eq!(normalize_path("/a/b/../../..", false), "/");
    assert_eq!(normalize_path("../x/./y//", false), "x/y");
    assert_eq!(normalize_path("", false), "");
    assert_eq!(normalize_path(normalize_path("a//b/./../c", false).as_str(), false), normalize_path("a//b/./../c", false));
}

#[test]
fn windows_paths_use_both_separators_and_keep_the_drive() {
    assert_eq!(
        resolve_path("C:\\workspace\\project\\src", "..\\tests", None, true),
        Some("C:\\workspace\\project\\tests".to_string())
    );
    assert_eq!(
        resolve_path("C:/workspace/project/src", "../tests", None, true),
        Some("C:\\workspace\\project\\tests".to_string())
    );
    assert_eq!(resolve_path("C:\\dir", "..\\..\\..", None, true), Some("C:\\".to_string()));
    assert_eq!(resolve_path("C:\\dir", "D:\\x", None, true), Some("D:\\x".to_string()));
    assert_eq!(resolve_path("C:\\dir\\sub", "\\top", None, true), Some("C:\\top".to_string()));
    assert_eq!(normalize_path("a\\b", false), "a\\b");
}
