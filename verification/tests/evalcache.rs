use rig::evalcache::capture;
use rig::evalcache::contains_path_component;
use rig::evalcache::contains_tmp_dir;
use rig::evalcache::content_hits;
use rig::evalcache::is_path_char;
use rig::evalcache::path_component_hits;
use rig::evalcache::probe;
use rig::evalcache::probe_runs;
use rig::evalcache::run_outcome;
use rig::evalcache::Outputs;

fn same(output: &str) -> Outputs {
    Outputs {
        baseline: output.to_string(),
        cwd_root: output.to_string(),
        cwd_tmp: output.to_string(),
        term_variant: output.to_string(),
        path_variant: output.to_string(),
        shlvl_variant: output.to_string(),
        rerun: output.to_string(),
    }
}

const PATH: &str = "/usr/local/bin:/usr/bin:/bin";

#[test]
fn static_output_is_cacheable() {
    let result = probe(same("static-output\n"), PATH, "", 4242);
    assert!(result.cacheable, "reasons: {:?}", result.reasons);
    assert!(result.reasons.is_empty());
    assert_eq!(result.baseline_output, "static-output\n");
}

#[test]
fn cwd_dependent_output_is_not_cacheable() {
    let outputs = Outputs {
        cwd_root: "/\n".to_string(),
        cwd_tmp: "/tmp\n".to_string(),
        ..same("/home/kaige\n")
    };
    let result = probe(outputs, PATH, "", 4242);
    assert!(!result.cacheable);
    assert!(result.reasons.contains(&"cwd".to_string()));
}

#[test]
fn path_dependent_output_is_not_cacheable() {
    let outputs = Outputs {
        path_variant: format!("{PATH}:/nonexistent/rig-probe-path\n"),
        ..same(&format!("{PATH}\n"))
    };
    let result = probe(outputs, PATH, "", 4242);
    assert!(!result.cacheable);
    assert!(result.reasons.contains(&"PATH".to_string()));
}

#[test]
fn nondeterministic_output_is_not_cacheable() {
    let outputs = Outputs {
        rerun: "1754222400000000002\n".to_string(),
        ..same("1754222400000000001\n")
    };
    let result = probe(outputs, PATH, "", 4242);
    assert!(!result.cacheable);
    assert!(result.reasons.contains(&"nondeterministic".to_string()));
}

#[test]
fn duplicate_path_entries_count_as_one_directory() {
    let path = "/home/k/.local/bin:/home/k/.local/bin:/home/k/.local/bin";
    assert_eq!(
        path_component_hits("run /home/k/.local/bin/starship", path),
        1
    );
}

#[test]
fn short_component_does_not_match_inside_a_longer_path() {
    // `/bin` is a suffix of `/home/k/.local/bin`, not an occurrence of it.
    assert_eq!(
        path_component_hits("/home/k/.local/bin/starship", "/bin"),
        0
    );
    // `/usr/bin` must not be credited to the unrelated `/usr/bin2`.
    assert_eq!(path_component_hits("look in /usr/bin2/foo", "/usr/bin"), 0);
}

#[test]
fn component_counts_at_a_path_boundary() {
    assert_eq!(path_component_hits("added /bin to it", "/bin"), 1);
    assert_eq!(path_component_hits("/bin/sh -c", "/bin"), 1);
    assert_eq!(path_component_hits("\"/bin\"", "/bin"), 1);
}

#[test]
fn distinct_baked_in_directories_still_trip_the_judge() {
    let path = "/opt/a/bin:/opt/b/bin:/opt/c/bin:/opt/d/bin";
    let output = "PATH=/opt/a/bin:/opt/b/bin:/opt/c/bin";
    assert_eq!(path_component_hits(output, path), 3);
}

#[test]
fn trailing_slashes_do_not_break_the_match() {
    assert_eq!(path_component_hits("/usr/bin/ls", "/usr/bin/"), 1);
    // Same directory written two ways is still one directory.
    assert_eq!(path_component_hits("/usr/bin/ls", "/usr/bin:/usr/bin/"), 1);
}

#[test]
fn bare_root_component_is_not_evidence() {
    assert_eq!(path_component_hits("/usr/bin/ls", "/"), 0);
}

#[test]
fn empty_path_components_are_skipped() {
    assert_eq!(path_component_hits("anything", ""), 0);
    assert_eq!(path_component_hits("/bin/sh", "::/bin::"), 1);
}

#[test]
fn tmpdir_matches_a_clean_component() {
    assert!(contains_tmp_dir(
        "export TMPDIR=/tmp/rig-probe",
        "/tmp/rig-probe"
    ));
    assert!(contains_tmp_dir(
        "cd /tmp/rig-probe && echo ok",
        "/tmp/rig-probe"
    ));
}

#[test]
fn tmpdir_with_trailing_slash_matches() {
    assert!(contains_tmp_dir(
        "export TMPDIR=/tmp/rig-probe",
        "/tmp/rig-probe/"
    ));
}

#[test]
fn tmpdir_does_not_match_inside_a_longer_path() {
    // `/tmp/rig` is a prefix of `/tmp/rig-probe`, not an occurrence of it.
    assert!(!contains_tmp_dir(
        "export TMPDIR=/tmp/rig-probe",
        "/tmp/rig"
    ));
}

#[test]
fn empty_tmpdir_falls_back_to_mktemp_convention() {
    assert!(!contains_tmp_dir("export TMPDIR=", ""));
    assert!(contains_tmp_dir("created /tmp/tmp.abc123", ""));
}

#[test]
fn each_judge_alone_is_enough() {
    let changed = "other\n".to_string();
    let cases = [
        (Outputs { cwd_root: changed.clone(), ..same("x\n") }, "cwd"),
        (Outputs { cwd_tmp: changed.clone(), ..same("x\n") }, "cwd"),
        (Outputs { term_variant: changed.clone(), ..same("x\n") }, "TERM"),
        (Outputs { path_variant: changed.clone(), ..same("x\n") }, "PATH"),
        (Outputs { shlvl_variant: changed.clone(), ..same("x\n") }, "SHLVL"),
        (Outputs { rerun: changed.clone(), ..same("x\n") }, "nondeterministic"),
    ];
    for (outputs, reason) in cases {
        let result = probe(outputs, PATH, "", 4242);
        assert!(!result.cacheable);
        assert_eq!(result.reasons, vec![reason.to_string()]);
        assert_eq!(result.baseline_output, "x\n");
    }
}

#[test]
fn all_reasons_are_listed_in_order() {
    let outputs = Outputs {
        baseline: "a".to_string(),
        cwd_root: "b".to_string(),
        cwd_tmp: "c".to_string(),
        term_variant: "b".to_string(),
        path_variant: "b".to_string(),
        shlvl_variant: "b".to_string(),
        rerun: "b".to_string(),
    };
    let result = probe(outputs, PATH, "", 4242);
    assert_eq!(result.reasons, vec!["cwd", "TERM", "PATH", "SHLVL", "nondeterministic"]);
}

#[test]
fn what_an_output_says_of_its_process_counts_too() {
    assert_eq!(content_hits("pid 4242 here", "", "", 4242).len(), 1);
    assert!(content_hits("plain", PATH, "", 4242).is_empty());
    assert!(!content_hits("/usr/local/bin /usr/bin /bin", PATH, "", 1).is_empty());
    assert!(!content_hits("in /tmp/rig-probe now", "", "/tmp/rig-probe", 1).is_empty());
}

#[test]
fn a_component_is_found_only_between_boundaries() {
    assert!(contains_path_component("x /bin y", "/bin"));
    assert!(contains_path_component("/bin2 /bin", "/bin"));
    assert!(!contains_path_component("/bin2", "/bin"));
    assert!(contains_path_component("/bin/sh", "/bin"));
    assert!(!contains_path_component("/usr/bin", "/bin"));
    assert!(!contains_path_component("", "/bin"));
}

#[test]
fn letters_of_any_script_belong_to_a_path() {
    assert!(is_path_char('\u{e9}'));
    assert!(is_path_char('\u{4e2d}'));
    assert!(is_path_char('7'));
    assert!(is_path_char('.'));
    assert!(is_path_char('/'));
    assert!(!is_path_char(' '));
    assert!(!is_path_char(':'));
    assert!(!contains_path_component("/bin\u{e9}", "/bin"));
}

#[test]
fn each_run_changes_one_thing() {
    let runs = probe_runs(PATH);
    assert_eq!(runs.len(), 7);
    assert!(runs[0].cwd.is_none() && runs[0].env.is_empty());
    assert_eq!(runs[1].cwd.as_deref(), Some("/"));
    assert_eq!(runs[2].cwd.as_deref(), Some("/tmp"));
    assert_eq!(runs[3].env[0].0, "TERM");
    assert_eq!(runs[4].env[0].0, "PATH");
    assert!(runs[4].env[0].1.contains(PATH));
    assert_ne!(runs[4].env[0].1, PATH);
    assert_eq!(runs[5].env[0].0, "SHLVL");
    assert!(runs[6].cwd.is_none() && runs[6].env.is_empty());
    assert!(capture().cwd.is_none() && capture().env.is_empty());
}

#[test]
fn a_failed_run_has_no_output() {
    assert_eq!(run_outcome("x", true, "0", "out").expect("ran"), "out");
    let err = run_outcome("x init", false, "exit status: 1", "out").expect_err("failed");
    assert!(err.full().contains("x init"));
}
