use hintshell::candidates::{
    docker_candidates, docker_query, dynamic_source, filesystem_specification, format_command,
    generate_filesystem_candidates, git_candidates, git_query, git_state_candidates,
    listing_request, nonempty_lines, package_script_candidates, project_stack_candidates,
    script_candidates, script_priority, ssh_candidates, ssh_hosts, zoxide_candidates,
    zoxide_query, DynamicSource, WorkspaceFacts,
};
use hintshell::context::CommandContext;
use hintshell::path::{list_path_candidates, DirEntryInfo, PathCandidate};

fn workspace(markers: &[&str]) -> WorkspaceFacts {
    WorkspaceFacts { root: Some("/p".to_string()), markers: markers.iter().map(|m| m.to_string()).collect() }
}

fn commands(c: &[hintshell::candidates::ContextCandidate]) -> Vec<String> {
    c.iter().map(|x| x.command.clone()).collect()
}

#[test]
fn ignores_ssh_wildcard_hosts() {
    let content = "Host build *.internal\nHost deploy";
    let hosts = ssh_hosts(content);
    assert_eq!(hosts, vec!["build", "deploy"]);
}

#[test]
fn ssh_hosts_complete_the_token() {
    let c = CommandContext::parse("ssh de");
    let out = ssh_candidates(&c, "Host build\n  Host deploy dev? db\n");
    assert_eq!(commands(&out), vec!["ssh deploy".to_string()]);
    assert_eq!(out[0].source, "ssh");
    assert_eq!(out[0].score_tenths, 160);
}

#[test]
fn parses_and_prioritizes_package_scripts() {
    let content = r#"{"scripts":{"custom":"x","test":"x","dev":"x"}}"#;
    let candidates = package_script_candidates(&CommandContext::parse("npm run "), content);
    assert_eq!(candidates[0].command, "npm run dev");
    assert_eq!(candidates[1].command, "npm run test");
    assert_eq!(candidates[2].command, "npm run custom");
    assert_eq!(candidates[0].description.as_deref(), Some("package script"));
}

#[test]
fn package_scripts_need_run_and_json() {
    assert!(package_script_candidates(&CommandContext::parse("npm install "), r#"{"scripts":{"dev":"x"}}"#).is_empty());
    assert!(package_script_candidates(&CommandContext::parse("npm run "), "not json").is_empty());
    assert!(package_script_candidates(&CommandContext::parse("npm run "), r#"{"name":"x"}"#).is_empty());
}

#[test]
fn script_ranks_are_stable() {
    assert_eq!(script_priority("dev"), 0);
    assert_eq!(script_priority("lint"), 4);
    assert_eq!(script_priority("zzz"), usize::MAX);
    let names = vec!["b".to_string(), "build".to_string(), "a".to_string(), "start".to_string()];
    let out = script_candidates(&CommandContext::parse("yarn run "), names);
    assert_eq!(commands(&out), vec!["yarn run start", "yarn run build", "yarn run b", "yarn run a"]);
}

#[test]
fn project_commands_follow_the_markers() {
    let c = CommandContext::parse("  test ");
    let out = project_stack_candidates(&c, &workspace(&["pnpm-lock.yaml", "yarn.lock", "Cargo.toml"]));
    assert_eq!(commands(&out), vec!["pnpm test", "cargo test"]);
    let all = project_stack_candidates(&CommandContext::parse(""), &workspace(&["compose.yaml"]));
    assert_eq!(all.len(), 4);
    assert_eq!(all[0].score_tenths, 230);
    assert!(project_stack_candidates(&CommandContext::parse("x"), &workspace(&[])).is_empty());
}

#[test]
fn git_state_pushes_the_current_branch() {
    let c = CommandContext::parse("git pu");
    let out = git_state_candidates(&c, Some("ref: refs/heads/feature/x\n"), true);
    assert_eq!(commands(&out), vec!["git push origin feature/x", "git pull"]);
    let detached = git_state_candidates(&c, Some("0123abcd\n"), true);
    assert_eq!(commands(&detached), vec!["git push", "git pull"]);
    assert!(git_state_candidates(&c, None, false).is_empty());
    assert_eq!(git_state_candidates(&CommandContext::parse(""), None, true).len(), 8);
}

#[test]
fn git_queries_depend_on_the_subcommand() {
    let q = git_query(&CommandContext::parse("git checkout ma"), "/repo").unwrap();
    assert_eq!(q.program, "git");
    assert_eq!(q.arguments, vec!["branch", "--format=%(refname:short)"]);
    assert_eq!(q.cache_key, "git:checkout:/repo");
    assert_eq!(git_query(&CommandContext::parse("git push "), "/r").unwrap().arguments, vec!["remote"]);
    assert!(git_query(&CommandContext::parse("git status"), "/r").is_none());
    assert!(git_query(&CommandContext::parse("git"), "/r").is_none());
}

#[test]
fn git_output_completes_the_token() {
    let c = CommandContext::parse("git checkout ma");
    let out = git_candidates(&c, "  main\nfeature\r\n\nmaster\n");
    assert_eq!(commands(&out), vec!["git checkout main", "git checkout master"]);
    assert_eq!(out[0].description.as_deref(), Some("git git"));
}

#[test]
fn docker_and_zoxide_queries() {
    let q = docker_query(&CommandContext::parse("docker logs ")).unwrap();
    assert_eq!(q.arguments, vec!["ps", "-a", "--format", "{{.Names}}"]);
    assert_eq!(q.cache_key, "docker:logs");
    assert!(docker_query(&CommandContext::parse("docker build ")).is_none());
    let out = docker_candidates(&CommandContext::parse("docker logs "), "web\ndb\n");
    assert_eq!(commands(&out), vec!["docker logs web", "docker logs db"]);
    let z = zoxide_query();
    assert_eq!(z.cache_key, "zoxide:query:list");
    let out = zoxide_candidates(&CommandContext::parse("z /ho"), "/home/a\n/tmp\n");
    assert_eq!(commands(&out), vec!["z /home/a"]);
}

#[test]
fn lines_are_trimmed_and_blank_ones_dropped() {
    assert_eq!(nonempty_lines(" a \n\n b\r\n"), vec!["a", "b"]);
    assert!(nonempty_lines("").is_empty());
}

#[test]
fn format_replaces_the_unfinished_token() {
    assert_eq!(format_command(&CommandContext::parse("cd sr"), "src/"), "cd src/");
    assert_eq!(format_command(&CommandContext::parse("cd "), "src/"), "cd src/");
    assert_eq!(format_command(&CommandContext::parse(""), "x"), "x");
}

#[test]
fn dynamic_sources_need_their_markers() {
    let git = workspace(&[".git"]);
    assert_eq!(dynamic_source(&CommandContext::parse("git ch"), &git), DynamicSource::Git);
    assert_eq!(dynamic_source(&CommandContext::parse("git ch"), &workspace(&[])), DynamicSource::Project);
    assert_eq!(dynamic_source(&CommandContext::parse("pnpm run "), &workspace(&["package.json"])), DynamicSource::PackageScripts);
    assert_eq!(dynamic_source(&CommandContext::parse("docker"), &git), DynamicSource::Project);
    assert_eq!(dynamic_source(&CommandContext::parse("docker run "), &git), DynamicSource::Docker);
    assert_eq!(dynamic_source(&CommandContext::parse("scp "), &git), DynamicSource::Ssh);
    assert_eq!(dynamic_source(&CommandContext::parse("z "), &git), DynamicSource::Zoxide);
    assert!(workspace(&["go.mod"]).has("go.mod"));
    assert!(!workspace(&["go.mod"]).has("go"));
}

#[test]
fn filesystem_specifications_by_command() {
    let none: Vec<String> = Vec::new();
    let cd = filesystem_specification("cd", &none).unwrap();
    assert!(cd.directories_only);
    assert!(!filesystem_specification("less", &none).unwrap().directories_only);
    let add = filesystem_specification("git", &vec!["add".to_string()]).unwrap();
    assert_eq!(add.suffixes.len(), 11);
    assert!(filesystem_specification("git", &vec!["status".to_string()]).is_none());
    assert!(listing_request(&CommandContext::parse("cat --ver")).is_none());
    assert!(listing_request(&CommandContext::parse("cd -")).is_some());
}

#[test]
fn creates_special_cd_candidates_for_parent_and_previous() {
    let candidates = generate_filesystem_candidates(&CommandContext::parse("cd "), &Vec::new());
    assert!(candidates.iter().any(|c| c.command == "cd .." && c.description.as_deref() == Some("parent directory")));
    assert!(candidates.iter().any(|c| c.command == "cd -" && c.description.as_deref() == Some("previous directory")));
}

#[test]
fn skips_non_file_contexts_and_flag_completion() {
    let listed = vec![PathCandidate { value: "src/".to_string(), is_directory: true }];
    assert!(generate_filesystem_candidates(&CommandContext::parse("git status"), &listed).is_empty());
    assert!(generate_filesystem_candidates(&CommandContext::parse("cat --ver"), &listed).is_empty());
}

fn entry(name: &str, dir: bool, modified: i128) -> DirEntryInfo {
    DirEntryInfo { name: name.to_string(), is_directory: dir, modified }
}

#[test]
fn creates_directory_candidates_for_cd_without_hidden_entries() {
    let listed = list_path_candidates(vec![entry("src", true, 5), entry(".git", true, 9)], "s", "s", true, &Vec::new());
    let candidates = generate_filesystem_candidates(&CommandContext::parse("cd s"), &listed);
    assert_eq!(candidates[0].command, "cd src/");
    assert_eq!(candidates[0].description.as_deref(), Some("directory"));
    assert_eq!(candidates[0].source, "path");
    assert_eq!(candidates[0].score_tenths, 120);
}

#[test]
fn creates_file_candidates_for_git_add() {
    let suffixes = filesystem_specification("git", &vec!["add".to_string()]).unwrap().suffixes;
    let listed = list_path_candidates(vec![entry("main.rs", false, 1), entry("main.o", false, 2)], "src/m", "m", false, &suffixes);
    let candidates = generate_filesystem_candidates(&CommandContext::parse("git add src/m"), &listed);
    assert_eq!(candidates[0].command, "git add src/main.rs");
    assert_eq!(candidates[0].source, "path");
    assert_eq!(candidates.len(), 1);
}

#[test]
fn path_candidates_are_capped() {
    let listed: Vec<PathCandidate> = (0..30).map(|i| PathCandidate { value: format!("d{i}/"), is_directory: true }).collect();
    let out = generate_filesystem_candidates(&CommandContext::parse("mkdir "), &listed);
    assert_eq!(out.len(), 24);
    let cd = generate_filesystem_candidates(&CommandContext::parse("cd "), &listed);
    assert_eq!(cd.len(), 26);
}
