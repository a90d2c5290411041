use hintshell::path::{list_path_candidates, list_path_candidates_with_limit, search_location, DirEntryInfo};

fn entry(name: &str, dir: bool, modified: i128) -> DirEntryInfo {
    DirEntryInfo { name: name.to_string(), is_directory: dir, modified }
}

#[test]
fn lists_current_directory_when_input_is_empty() {
    let (dir, prefix) = search_location("/work", "", None, false).unwrap();
    assert_eq!(dir, "/work");
    assert_eq!(prefix, "");
    let out = list_path_candidates(vec![entry("cli", true, 1)], "", &prefix, false, &Vec::new());
    assert_eq!(out[0].value, "cli/");
}

#[test]
fn lists_sorted_visible_directories_before_matching_files() {
    let entries = vec![
        entry("sample.txt", false, 9),
        entry("src", true, 1),
        entry(".cache", true, 7),
        entry("sample.rs", false, 3),
    ];
    let suffixes = vec![".rs".to_string()];
    let out = list_path_candidates(entries, "", "", false, &suffixes);
    assert_eq!(out.len(), 2);
    assert_eq!(out[0].value, "src/");
    assert!(out[0].is_directory);
    assert_eq!(out[1].value, "sample.rs");
}

#[test]
fn newer_entries_come_first_then_names() {
    let entries = vec![entry("b", false, 5), entry("a", false, 5), entry("c", false, 9), entry("d", true, -3)];
    let out = list_path_candidates_with_limit(entries, "x/", "", false, &Vec::new(), 3);
    let values: Vec<&str> = out.iter().map(|c| c.value.as_str()).collect();
    assert_eq!(values, vec!["x/d/", "x/c", "x/a"]);
}

#[test]
fn search_location_splits_the_typed_name() {
    assert_eq!(search_location("/w", "src/ma", None, false), Some(("/w/src".to_string(), "ma".to_string())));
    assert_eq!(search_location("/w", "~/d", Some("/home/u"), false), Some(("/home/u".to_string(), "d".to_string())));
    assert_eq!(search_location("/w", "~bob/x", Some("/home/u"), false), None);
    assert_eq!(search_location("/w", "../", None, false), Some(("/".to_string(), "".to_string())));
}

#[test]
fn display_keeps_windows_separators() {
    let out = list_path_candidates(vec![entry("file.txt", false, 0)], "dir\\f", "f", false, &Vec::new());
    assert_eq!(out[0].value, "dir\\file.txt");
}

#[test]
fn search_location_on_windows() {
    assert_eq!(
        search_location("C:\\w", "src\\ma", None, true),
        Some(("C:\\w\\src".to_string(), "ma".to_string()))
    );
    assert_eq!(search_location("C:\\", "..\\", None, true), Some(("C:\\".to_string(), "".to_string())));
}
