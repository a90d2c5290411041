use hintshell::cache::ExpiringCache;
use hintshell::process::{capped_utf8, ProcessOutput, ProcessRunner};

#[test]
fn caps_process_output() {
    assert_eq!(capped_utf8(b"abcdef", 3), "abc");
}

#[test]
fn capped_output_replaces_invalid_utf8() {
    assert_eq!(capped_utf8(&[0x61, 0xff, 0x62], 10), "a\u{fffd}b");
    assert_eq!(capped_utf8(b"abc", 10), "abc");
}

#[test]
fn runner_reads_back_output_until_it_expires() {
    let mut runner = ProcessRunner::new();
    assert!(runner.cached("git:branch", 0).is_none());
    let output = ProcessOutput { stdout: "main\n".to_string(), status: Some(0) };
    runner.remember("git:branch".to_string(), output.clone(), 1000);
    assert_eq!(runner.cached("git:branch", 1000), Some(&output));
    assert_eq!(runner.cached("git:branch", 2999), Some(&output));
    assert_eq!(runner.cached("git:branch", 3000), None);
    assert_eq!(runner.cached("git:tag", 1500), None);
}

#[test]
fn a_new_value_replaces_the_old_one() {
    let mut cache: ExpiringCache<u32> = ExpiringCache::new(10);
    cache.insert("k".to_string(), 1, 0, vec![Some(5)]);
    cache.insert("k".to_string(), 2, 5, vec![Some(6)]);
    assert_eq!(cache.get("k", 6, &vec![Some(6)]), Some(&2));
    assert_eq!(cache.get("k", 6, &vec![Some(5)]), None);
    assert_eq!(cache.get("k", 15, &vec![Some(6)]), None);
}

#[test]
fn default_output_is_empty() {
    let output = ProcessOutput::default();
    assert_eq!(output.stdout, "");
    assert_eq!(output.status, None);
}

#[test]
fn run_cached_runs_once_while_the_output_is_fresh() {
    let mut runner = ProcessRunner::new();
    let mut runs = 0;
    let first = runner.run_cached_in_dir(
        "git:branches".to_string(),
        Some("/repo".to_string()),
        "git".to_string(),
        vec!["branch".to_string()],
        100,
        |cwd, program, arguments| {
            runs += 1;
            assert_eq!(cwd.as_deref(), Some("/repo"));
            assert_eq!(program, "git");
            assert_eq!(arguments, vec!["branch".to_string()]);
            (ProcessOutput { stdout: "main\n".to_string(), status: Some(0) }, 180)
        },
    );
    assert_eq!(first.stdout, "main\n");
    assert_eq!(runs, 1);
    // Fresh until 180 + 2000: served from the cache.
    let cached = runner.run_cached("git:branches".to_string(), "git".to_string(), vec![], 2179, |_, _, _| {
        panic!("ran although the output is cached")
    });
    assert_eq!(cached, first);
    // Expired: the tool runs again, without a directory.
    let again = runner.run_cached("git:branches".to_string(), "git".to_string(), vec![], 2180, |cwd, _, _| {
        assert_eq!(cwd, None);
        (ProcessOutput::default(), 2200)
    });
    assert_eq!(again, ProcessOutput::default());
}

#[test]
fn valid_output_is_decoded_as_it_stands() {
    assert_eq!(capped_utf8("héllo".as_bytes(), 100), "héllo");
}
