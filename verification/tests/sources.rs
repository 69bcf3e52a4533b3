use rig::config::test_common;
use rig::config::BinSpec;
use rig::config::BpickSpec;
use rig::config::Common;
use rig::config::CompletionsSpec;
use rig::config::EvalSpec;
use rig::config::SetupSpec;
use rig::evalcache::Probe;
use rig::failure::Failure;
use rig::lock::test_tool_lock;
use rig::lock::Lock;
use rig::lock::ToolLock;
use rig::sources::apply_env;
use rig::sources::assets::host_arch;
use rig::sources::assets::host_os;
use rig::sources::assets::select_asset;
use rig::sources::assets::AssetPick;
use rig::sources::collect::answer_is_yes;
use rig::sources::collect::check_conflict;
use rig::sources::collect::collect_bins;
use rig::sources::collect::collect_completions;
use rig::sources::collect::confirm_overwrite;
use rig::sources::collect::find_by_glob;
use rig::sources::collect::find_by_name;
use rig::sources::collect::format_candidates;
use rig::sources::collect::generate_cwd;
use rig::sources::collect::link_completions;
use rig::sources::collect::link_targets;
use rig::sources::collect::overwrite_prompt;
use rig::sources::collect::rebase;
use rig::sources::collect::settle_overwrite;
use rig::sources::collect::symlink_replacing;
use rig::sources::collect::underscore_files;
use rig::sources::collect::Conflict;
use rig::sources::collect::Link;
use rig::sources::collect::LinkStep;
use rig::sources::collect::TargetState;
use rig::sources::command_outcome;
use rig::sources::digest::check_download;
use rig::sources::digest::judge_download;
use rig::sources::digest::to_hex;
use rig::sources::digest::verify_digest;
use rig::sources::eval_plan;
use rig::sources::eval_warning;
use rig::sources::executable_mode;
use rig::sources::extract_kind;
use rig::sources::git_head_commit;
use rig::sources::glob::glob_match;
use rig::sources::hook_warning;
use rig::sources::mentions_sudo;
use rig::sources::path_query;
use rig::sources::plan::advance;
use rig::sources::plan::finalize_partial;
use rig::sources::plan::push_collected_end;
use rig::sources::plan::push_placed_end;
use rig::sources::plan::push_step;
use rig::sources::plan::Planned;
use rig::sources::plan::Progress;
use rig::sources::plan::Step;
use rig::sources::plan::SwapStep;
use rig::sources::raw_binary_dest;
use rig::sources::resolve_bin_name;
use rig::sources::resolve_declared_bins;
use rig::sources::resolve_eval_cache;
use rig::sources::resolve_on_path;
use rig::sources::run_setup;
use rig::sources::run_shell;
use rig::sources::run_version_smoke;
use rig::sources::smoke_test_version;
use rig::sources::EvalPlan;
use rig::sources::EvalReply;
use rig::sources::Phase;
use rig::sources::Unpack;
use rig::table::NameSet;
use rig::table::Table;
use rig::version::github::Asset;
use sha2::Digest;
use sha2::Sha256;

fn files(names: &[&str]) -> Vec<String> {
    names.iter().map(|n| n.to_string()).collect()
}

fn set(names: &[&str]) -> NameSet {
    let mut s = NameSet::new();
    for name in names {
        s.insert(name.to_string());
    }
    s
}

#[test]
fn apply_env_sets_and_expands_tilde_values() {
    let mut map = Table::new();
    map.insert("RIG_TEST_PLAIN".to_string(), "hello".to_string());
    map.insert("RIG_TEST_TILDE".to_string(), "~/.local".to_string());

    let env = apply_env("/home/kaige", &map);

    assert_eq!(
        env,
        vec![
            ("RIG_TEST_PLAIN".to_string(), "hello".to_string()),
            (
                "RIG_TEST_TILDE".to_string(),
                "/home/kaige/.local".to_string()
            ),
        ]
    );
}

#[test]
fn smoke_test_version_passes_a_working_build() {
    let bin = smoke_test_version("/t", &files(&["/t/rig"]), None, "rig")
        .expect("the bin should be found");
    assert_eq!(bin.file, "/t/rig");
    run_version_smoke("rig", true, "exit status: 0").expect("`--version` exiting 0 should pass");
}

#[test]
fn smoke_test_version_rejects_a_broken_build() {
    let bin = smoke_test_version("/t", &files(&["/t/rig"]), None, "rig")
        .expect("the bin should be found");
    let err = run_version_smoke(&bin.command, false, "exit status: 1")
        .expect_err("`--version` exiting non-zero must fail the smoke test");
    assert!(err.message().contains("--version"));
    assert!(smoke_test_version("/t", &files(&[]), None, "rig").is_err());
}

#[test]
fn resolve_bin_name_prefers_the_preferred_dir() {
    let mut warnings = Vec::new();
    let mut on_path = Table::new();
    on_path.insert("witr".to_string(), "/usr/bin/witr".to_string());
    let resolved = resolve_bin_name(
        "witr",
        Some("/t/bin"),
        "test",
        &set(&["/t/bin/witr"]),
        &on_path,
        &mut warnings,
    )
    .expect("preferred-dir bin should resolve without touching PATH");

    assert_eq!(resolved, "/t/bin/witr");
    assert!(warnings.is_empty());
}

#[test]
fn resolve_bin_name_falls_back_to_ambient_path() {
    let mut warnings = Vec::new();
    let mut on_path = Table::new();
    on_path.insert("sh".to_string(), "/usr/bin/sh".to_string());
    let resolved = resolve_bin_name(
        "sh",
        Some("/t/bin"),
        "test",
        &set(&[]),
        &on_path,
        &mut warnings,
    )
    .expect("`sh` should resolve via ambient PATH");

    assert!(resolved.ends_with("/sh"));
    assert_eq!(warnings.len(), 1);
    assert!(resolve_bin_name("x", None, "test", &set(&[]), &on_path, &mut warnings).is_err());
}

#[test]
fn extract_false_marks_the_copied_binary_executable() {
    let archive = "/t/witr-linux-amd64";
    assert!(matches!(
        extract_kind(archive, Some(false)),
        Ok(Unpack::Raw)
    ));
    assert_eq!(
        raw_binary_dest(archive, "/t/dest").expect("has a name"),
        "/t/dest/witr-linux-amd64"
    );
    let mode = executable_mode(0o644);
    assert_ne!(mode & 0o111, 0, "copied raw binary must be executable");
    assert_eq!(mode, 0o755);
    assert_eq!(executable_mode(0o100600), 0o100711);
}

#[test]
fn glob_matches_prefix_suffix_and_middle() {
    assert!(glob_match("delta", "delta"));
    assert!(!glob_match("delta", "delta2"));
    assert!(glob_match("nvim-*.appimage", "nvim-0.10.0.appimage"));
    assert!(!glob_match("nvim-*.appimage", "nvim-0.10.0.tar.gz"));
    assert!(glob_match("*-musl", "pueue-x86_64-musl"));
    assert!(glob_match("*.tar.gz", "delta-0.18.2.tar.gz"));
}

#[test]
fn a_star_stands_for_any_text() {
    assert!(glob_match("*", ""));
    assert!(glob_match("**", "x"));
    assert!(glob_match("a*b*c", "axxbxxc"));
    assert!(!glob_match("a*b*c", "axxcxxb"));
    assert!(!glob_match("ab*ba", "aba"));
    assert!(glob_match("", ""));
    assert!(!glob_match("", "x"));
    assert!(glob_match("a*a", "aa"));
    assert!(!glob_match("a*a", "a"));
}

fn asset(name: &str) -> Asset {
    Asset {
        name: name.to_string(),
        url: format!("https://example.invalid/{name}"),
        size: 0,
        digest: None,
    }
}

#[test]
fn select_asset_prefers_explicit_bpick() {
    let assets = vec![
        asset("delta-x86_64-unknown-linux-gnu.tar.gz"),
        asset("delta-x86_64-unknown-linux-musl.tar.gz"),
    ];
    let bpick = BpickSpec::Single("*-musl.tar.gz".to_string());
    let AssetPick::Found(picked) = select_asset(&assets, Some(&bpick), "x86_64", "linux") else {
        panic!("bpick should match exactly one asset");
    };
    assert!(picked.name.contains("musl"));
}

#[test]
fn select_asset_reports_ambiguous_host_match() {
    let assets = vec![
        asset("delta-x86_64-unknown-linux-gnu.tar.gz"),
        asset("delta-x86_64-unknown-linux-musl.tar.gz"),
    ];
    let AssetPick::Ambiguous(matches) =
        select_asset(&assets, None, host_arch("x86_64"), host_os("linux"))
    else {
        panic!("gnu and musl should both match x86_64-linux");
    };
    assert_eq!(matches.len(), 2);
}

#[test]
fn select_asset_reports_no_match_with_relevant_empty() {
    let assets = vec![asset("delta-aarch64-apple-darwin.tar.gz")];
    let AssetPick::NoMatch {
        bpick_configured,
        relevant,
        all,
    } = select_asset(&assets, None, host_arch("x86_64"), host_os("linux"))
    else {
        panic!("darwin build shouldn't match linux host");
    };
    assert!(!bpick_configured);
    assert!(relevant.is_empty());
    assert_eq!(all.len(), 1);
}

#[test]
fn patterns_that_fit_nothing_list_what_fits_the_host() {
    let assets = vec![
        asset("t-x86_64-linux.zip"),
        asset("t-aarch64-linux.zip"),
        asset("t-x86_64-darwin.zip"),
    ];
    let bpick = BpickSpec::Multiple(files(&["*.deb", "*.rpm"]));
    let AssetPick::NoMatch {
        bpick_configured,
        relevant,
        all,
    } = select_asset(&assets, Some(&bpick), "x86_64", "linux")
    else {
        panic!("no pattern fits");
    };
    assert!(bpick_configured);
    assert_eq!(relevant.len(), 1);
    assert_eq!(relevant[0].name, "t-x86_64-linux.zip");
    assert_eq!(all.len(), 3);
}

#[test]
fn collect_bins_resolves_a_nested_mapped_path() {
    let unpacked = "/t/unpacked";
    let found = files(&[
        "/t/unpacked/target/release/wallust",
        "/t/unpacked/wallust",
    ]);
    let mut map = Table::new();
    map.insert("target/release/wallust".to_string(), "wallust".to_string());
    let bin_spec = BinSpec::Mapped(map);

    let installed = collect_bins(
        unpacked,
        unpacked,
        &found,
        Some(&bin_spec),
        "wallust",
        "/t/bin",
    )
    .expect("nested path should resolve");

    assert_eq!(installed.len(), 1);
    assert_eq!(installed[0].source, "/t/unpacked/target/release/wallust");
    assert_eq!(installed[0].target, "/t/bin/wallust");
}

#[test]
fn answer_is_yes_matches_y_and_yes_case_insensitively() {
    for yes in ["y", "Y", "yes", "YES", "Yes", " y \n"] {
        assert!(answer_is_yes(yes), "{yes:?} should confirm");
    }
    for no in ["n", "no", "N", "", "maybe", "yep"] {
        assert!(!answer_is_yes(no), "{no:?} should not confirm");
    }
}

#[test]
fn untracked_bin_conflict_still_refuses_when_stdin_is_not_a_tty() {
    let lock = Lock::default();
    let links = collect_bins(
        "/t",
        "/t",
        &files(&["/t/bin/zoxide"]),
        Some(&BinSpec::Single("zoxide".to_string())),
        "zoxide",
        "/t/bin",
    )
    .expect("the file is found");
    let target = &links[0].target;
    let conflict = check_conflict(target, "zoxide", &lock, TargetState::File);
    assert!(matches!(conflict, Conflict::Ask));
    let confirmed = confirm_overwrite(false, "y\n");
    assert!(!confirmed);
    let err = settle_overwrite(target, confirmed).expect_err("such a conflict must fail");
    assert!(
        err.message().contains("refusing to overwrite"),
        "unexpected error: {}",
        err.message()
    );
    assert!(confirm_overwrite(true, "y\n"));
    assert!(!confirm_overwrite(true, "\n"));
    assert!(settle_overwrite(target, true).is_ok());
    assert!(overwrite_prompt(target).contains(target.as_str()));
}

#[test]
fn refuses_overwriting_a_bin_tracked_by_another_tool() {
    let target = "/t/bin/foo";
    let mut lock = Lock::default();
    let mut other = test_tool_lock();
    other.bins = vec![target.to_string()];
    lock.tool.insert("other".to_string(), other);

    let Conflict::Refused(err) = check_conflict(target, "me", &lock, TargetState::File) else {
        panic!("another tool's bin must be refused");
    };
    assert!(
        err.message().contains("another tool's bin"),
        "unexpected error: {}",
        err.message()
    );
}

#[test]
fn own_tracked_bin_passes_without_deleting() {
    let target = "/t/bin/foo";
    let mut lock = Lock::default();
    let mut mine = test_tool_lock();
    mine.bins = vec![target.to_string()];
    lock.tool.insert("me".to_string(), mine);

    assert!(matches!(
        check_conflict(target, "me", &lock, TargetState::File),
        Conflict::Clear
    ));
}

#[test]
fn conflicts_depend_on_what_is_there() {
    let lock = Lock::default();
    assert!(matches!(
        check_conflict("/t/x", "me", &lock, TargetState::Absent),
        Conflict::Clear
    ));
    assert!(matches!(
        check_conflict("/t/x", "me", &lock, TargetState::Directory),
        Conflict::Refused(_)
    ));
}

#[test]
fn generate_completions_run_from_where_the_bin_actually_landed() {
    let search_dir = "/t/partial";
    let wrapped = "/t/partial/uv-x86_64-unknown-linux-gnu";
    let common = Common {
        bin: Some(BinSpec::Single("uv".to_string())),
        completions: CompletionsSpec::Generate {
            generate: "./uv --dummy".to_string(),
        },
        ..test_common()
    };
    let before = files(&["/t/partial/uv-x86_64-unknown-linux-gnu/uv"]);
    assert_eq!(
        generate_cwd(search_dir, &before, common.bin.as_ref(), "uv"),
        wrapped
    );

    let after = files(&[
        "/t/partial/uv-x86_64-unknown-linux-gnu/uv",
        "/t/partial/uv-x86_64-unknown-linux-gnu/_uv",
    ]);
    let links = collect_completions(
        search_dir,
        search_dir,
        &common.completions,
        &after,
        "/t/completions",
    )
    .expect("the generated file should be found");
    assert_eq!(links.len(), 1);
    assert_eq!(links[0].source, "/t/partial/uv-x86_64-unknown-linux-gnu/_uv");
    assert_eq!(links[0].target, "/t/completions/_uv");
    assert_eq!(generate_cwd(search_dir, &files(&[]), None, "uv"), search_dir);
}

#[test]
fn a_failed_collect_never_destroys_the_old_version() {
    let old_final = "/t/pkg/delta/0.18.2";
    let partial = "/t/pkg/delta/0.19.0.partial";
    let new_final = "/t/pkg/delta/0.19.0";
    let mut lock = Lock::default();
    lock.tool.insert(
        "delta".to_string(),
        ToolLock {
            bins: vec!["/t/bin/delta".to_string()],
            ..test_tool_lock()
        },
    );
    assert!(
        matches!(
            check_conflict("/t/bin/delta", "delta", &lock, TargetState::File),
            Conflict::Clear
        ),
        "the tool's own link is not what collecting fails on"
    );
    let result = collect_bins(partial, new_final, &files(&[]), None, "delta", "/t/bin");
    assert!(result.is_err(), "collect should fail: no `delta` in partial");

    let mut plan: Vec<Planned> = Vec::new();
    push_collected_end(&mut plan, partial, new_final, "delta");
    let at = plan
        .iter()
        .position(|p| matches!(p.step, Step::CollectBins { .. }))
        .expect("bins are collected");
    let swap = plan
        .iter()
        .position(|p| matches!(p.step, Step::Finalize { .. }))
        .expect("the new version is put in place");
    assert!(at < swap, "nothing is replaced before the bins are there");
    for planned in &plan {
        match &planned.step {
            Step::RemoveTree(p) => assert_ne!(p, old_final, "old version dir must survive"),
            Step::Finalize { final_dir, .. } => assert_eq!(final_dir, new_final),
            _ => {}
        }
    }
    let failed = Err(result.unwrap_err());
    let Progress::Stopped(err) = advance(&plan, at, failed) else {
        panic!("a failed step must stop the plan");
    };
    assert!(err.full().contains("failed to collect binaries for delta"));
}

#[test]
fn a_plan_goes_on_step_by_step() {
    let mut plan: Vec<Planned> = Vec::new();
    push_step(&mut plan, Step::CreateDir("/a".to_string()), None);
    push_step(
        &mut plan,
        Step::RemoveTree("/b".to_string()),
        Some("in b".to_string()),
    );
    assert!(matches!(advance(&plan, 0, Ok(())), Progress::Next(1)));
    assert!(matches!(advance(&plan, 1, Ok(())), Progress::Finished));
    let Progress::Stopped(err) = advance(&plan, 1, Err(Failure::new("why".to_string()))) else {
        panic!("a failed step must stop the plan");
    };
    assert_eq!(err.full(), "in b: why");
    let Progress::Stopped(err) = advance(&plan, 0, Err(Failure::new("why".to_string()))) else {
        panic!("a failed step must stop the plan");
    };
    assert_eq!(err.full(), "why");
}

#[test]
fn a_version_is_swapped_in_last() {
    let steps = finalize_partial("/p", "/f", true);
    assert_eq!(steps.len(), 2);
    assert!(matches!(&steps[0], SwapStep::RemoveTree(p) if p == "/f"));
    assert!(matches!(&steps[1], SwapStep::Rename(p, q) if p == "/p" && q == "/f"));
    let steps = finalize_partial("/p", "/f", false);
    assert_eq!(steps.len(), 1);
    assert!(matches!(&steps[0], SwapStep::Rename(..)));
}

fn sha256_hex(bytes: &[u8]) -> String {
    to_hex(&Sha256::digest(bytes).to_vec())
}

#[test]
fn verify_digest_matches_and_degrades() {
    let actual = Sha256::digest(b"payload").to_vec();
    let hex = to_hex(&actual);
    verify_digest(Some(&format!("sha256:{hex}")), &actual).expect("matching hex passes");

    let err = verify_digest(Some(&format!("sha256:{}", "0".repeat(64))), &actual)
        .expect_err("mismatching hex must fail");
    assert!(
        err.message().contains("expected"),
        "unexpected: {}",
        err.message()
    );

    verify_digest(None, &actual).expect("missing digest passes");
    let warning = verify_digest(Some("md5:beef"), &actual).expect("unknown algorithm degrades");
    assert!(warning.is_some());
}

#[test]
fn download_accepts_a_matching_digest() {
    let body = b"rig digest test payload".to_vec();
    let digest = format!("sha256:{}", sha256_hex(&body));
    let warning = check_download(
        "http://h/asset",
        "/t/asset",
        &body,
        body.len() as u64,
        Some(&digest),
    )
    .expect("matching digest must pass");
    assert!(warning.is_none());
}

#[test]
fn download_rejects_a_mismatched_digest() {
    let body = b"rig digest test payload".to_vec();
    let digest = format!("sha256:{}", "0".repeat(64));
    let err = check_download(
        "http://h/asset",
        "/t/asset",
        &body,
        body.len() as u64,
        Some(&digest),
    )
    .expect_err("wrong digest must fail");
    assert!(
        err.message().contains("digest"),
        "unexpected: {}",
        err.message()
    );
}

#[test]
fn download_without_digest_only_checks_size() {
    let body = b"rig digest test payload".to_vec();
    check_download("http://h/asset", "/t/asset", &body, body.len() as u64, None)
        .expect("no digest must pass");
}

#[test]
fn download_degrades_on_unknown_digest_algorithm() {
    let body = b"rig digest test payload".to_vec();
    check_download(
        "http://h/asset",
        "/t/asset",
        &body,
        body.len() as u64,
        Some("md5:beef"),
    )
    .expect("unknown algorithm degrades to size-only");
}

#[test]
fn download_still_fails_on_size_mismatch() {
    let body = b"rig digest test payload".to_vec();
    let err = check_download(
        "http://h/asset",
        "/t/asset",
        &body,
        body.len() as u64 + 1,
        None,
    )
    .expect_err("size mismatch must fail");
    assert!(
        err.message().contains("expected"),
        "unexpected: {}",
        err.message()
    );
}

#[test]
fn downloads_are_hashed_with_sha256() {
    let empty: Vec<u8> = Vec::new();
    let known = "sha256:e3b0c44298fc1c149afbf4c8996fb92427ae41e4649b934ca495991b7852b855";
    assert!(check_download("u", "d", &empty, 0, Some(known)).is_ok());
    assert!(check_download("u", "d", &vec![0], 1, Some(known)).is_err());
    let hash = vec![0xab, 0x01];
    assert_eq!(to_hex(&hash), "ab01");
    assert!(judge_download("u", "d", 5, &hash, 5, Some("sha256:AB01")).is_ok());
    assert!(judge_download("u", "d", 5, &hash, 5, Some("sha256:ab02")).is_err());
    assert!(judge_download("u", "d", 5, &hash, 6, Some("sha256:ab01")).is_err());
}

#[test]
fn mentions_sudo_catches_paths_command_and_subshells() {
    assert!(mentions_sudo("sudo apt install x"));
    assert!(mentions_sudo("command sudo apt install x"));
    assert!(mentions_sudo("/usr/bin/sudo apt install x"));
    assert!(mentions_sudo("(sudo apt install x)"));
    assert!(mentions_sudo("$(sudo apt install x)"));
    assert!(mentions_sudo("echo hi && sudo make install"));
    assert!(mentions_sudo("sudo; make install"));
    assert!(mentions_sudo("make install && /usr/bin/sudo make install"));
    assert!(!mentions_sudo("make install"));
    assert!(!mentions_sudo("ls -la"));
}

#[test]
fn hooks_with_sudo_are_announced() {
    assert!(hook_warning("sudo make").is_some());
    assert!(hook_warning("make").is_none());
}

#[test]
fn formats_are_told_by_their_endings() {
    assert!(matches!(extract_kind("/t/a.tar.gz", None), Ok(Unpack::TarGz)));
    assert!(matches!(extract_kind("/t/a.tgz", None), Ok(Unpack::TarGz)));
    assert!(matches!(extract_kind("/t/a.zip", Some(true)), Ok(Unpack::Zip)));
    assert!(matches!(extract_kind("/t/a.deb", None), Ok(Unpack::Deb)));
    assert!(matches!(extract_kind("/t/a.zip", Some(false)), Ok(Unpack::Raw)));
}

#[test]
fn hooks_follow_the_phase() {
    let split = SetupSpec::Split {
        install: "i".to_string(),
        update: "u".to_string(),
    };
    assert_eq!(run_setup(&split, Phase::Install), files(&["i"]));
    assert_eq!(run_setup(&split, Phase::Update), files(&["u"]));
    let several = SetupSpec::Multiple(files(&["a", "b"]));
    assert_eq!(run_setup(&several, Phase::Update), files(&["a", "b"]));
    let one = SetupSpec::Single("x".to_string());
    assert_eq!(run_setup(&one, Phase::Install), files(&["x"]));
    assert_ne!(Phase::Install.verb(), Phase::Update.verb());
}

#[test]
fn a_placed_tool_runs_its_hooks_before_its_bins_are_looked_up() {
    let mut plan: Vec<Planned> = Vec::new();
    push_placed_end(
        &mut plan,
        &Some(SetupSpec::Single("make".to_string())),
        "/d",
        Phase::Install,
        "t",
        Step::ExpectBins {
            bin_dir: "/b".to_string(),
        },
    );
    let hook = plan
        .iter()
        .position(|p| matches!(&p.step, Step::Hook { cmd, cwd } if cmd == "make" && cwd == "/d"));
    let bins = plan
        .iter()
        .position(|p| matches!(p.step, Step::ExpectBins { .. }));
    assert!(hook.is_some() && hook < bins);
    assert!(matches!(plan.last().unwrap().step, Step::ResolveEval));
}

#[test]
fn files_are_found_by_name_or_path() {
    let found = files(&["/r/a/x", "/r/b/y", "/r/c/y"]);
    assert_eq!(find_by_name(&found, "x").expect("one"), "/r/a/x");
    assert!(find_by_name(&found, "y").is_err());
    assert!(find_by_name(&found, "z").is_err());
    assert_eq!(find_by_glob("/r", &found, "a/*").expect("one"), "/r/a/x");
    assert_eq!(find_by_glob("/r", &found, "*x").expect("one"), "/r/a/x");
    assert!(find_by_glob("/r", &found, "x").is_err());
    assert!(find_by_glob("/r", &found, "*/y").is_err());
    assert!(find_by_glob("/r", &found, "nothing*").is_err());
    assert_eq!(rebase("/p/x/y", "/p", "/f"), "/f/x/y");
    assert_eq!(rebase("/q/x", "/p", "/f"), "/q/x");
    assert_eq!(format_candidates(&files(&["a", "b"])), "\n    - a\n    - b");
}

#[test]
fn completions_are_linked_by_name() {
    let found = files(&["/r/a/_x", "/r/b/y", "/r/_"]);
    assert_eq!(underscore_files(&found), files(&["/r/a/_x", "/r/_"]));
    let links = link_completions(&files(&["/r/a/_x"]), "/c").expect("named");
    assert_eq!(links[0].target, "/c/_x");
    assert!(link_completions(&files(&["/"]), "/c").is_err());
    let off = collect_completions("/r", "/r", &CompletionsSpec::Enabled(false), &found, "/c");
    assert!(off.expect("nothing to do").is_empty());
    let one = CompletionsSpec::Path {
        path: "b/y".to_string(),
    };
    let links = collect_completions("/r", "/f", &one, &found, "/c").expect("found");
    assert_eq!(links[0].source, "/f/b/y");
    assert_eq!(links[0].target, "/c/y");
    let links = vec![Link {
        source: "/s".to_string(),
        target: "/t".to_string(),
    }];
    assert_eq!(link_targets(&links), files(&["/t"]));
}

#[test]
fn a_link_replaces_what_is_there() {
    let steps = symlink_replacing("/s/x", "/b/x", true);
    assert!(steps
        .iter()
        .any(|s| matches!(s, LinkStep::Remove(p) if p == "/b/x")));
    assert!(
        matches!(steps.last(), Some(LinkStep::Symlink(s, t)) if s == "/s/x" && t == "/b/x")
    );
    let steps = symlink_replacing("/s/x", "/b/x", false);
    assert!(!steps.iter().any(|s| matches!(s, LinkStep::Remove(_))));
}

#[test]
fn commands_are_looked_up_with_the_shell() {
    assert!(path_query("rg").contains("rg"));
    assert_eq!(
        resolve_on_path("rg", true, "/usr/bin/rg\n").expect("found"),
        "/usr/bin/rg"
    );
    assert!(resolve_on_path("rg", false, "").is_err());
    let mut warnings = Vec::new();
    let mut on_path = Table::new();
    on_path.insert("a".to_string(), "/u/a".to_string());
    on_path.insert("b".to_string(), "/u/b".to_string());
    let bins = resolve_declared_bins(
        Some(&BinSpec::Multiple(files(&["b", "a"]))),
        "t",
        None,
        "ctx",
        &set(&[]),
        &on_path,
        &mut warnings,
    )
    .expect("both are there");
    assert_eq!(bins, files(&["/u/b", "/u/a"]));
}

#[test]
fn outcomes_of_commands() {
    assert_eq!(
        git_head_commit("/r", true, "abc\n", "").expect("a commit"),
        "abc"
    );
    assert!(git_head_commit("/r", false, "", "fatal").is_err());
    assert!(run_shell("make", true, "0").is_ok());
    assert!(run_shell("make", false, "exit status: 2")
        .unwrap_err()
        .full()
        .contains("make"));
    assert!(command_outcome("git", true, "0").is_ok());
    assert!(command_outcome("git", false, "exit status: 2")
        .unwrap_err()
        .full()
        .contains("exit status: 2"));
}

#[test]
fn an_eval_command_is_cached_only_when_it_may_be() {
    assert!(matches!(eval_plan(&None), EvalPlan::Nothing));
    let cmd = |cache| {
        Some(EvalSpec::Detailed {
            cmd: "x".to_string(),
            cache,
        })
    };
    assert!(matches!(eval_plan(&cmd(Some(false))), EvalPlan::Live));
    assert!(matches!(eval_plan(&cmd(Some(true))), EvalPlan::Capture));
    assert!(matches!(eval_plan(&cmd(None)), EvalPlan::Probe));
    assert!(matches!(
        eval_plan(&Some(EvalSpec::Cmd("x".to_string()))),
        EvalPlan::Probe
    ));

    let state = resolve_eval_cache(EvalPlan::Nothing, EvalReply::Nothing);
    assert!(state.cacheable.is_none() && state.output.is_none());
    let state = resolve_eval_cache(EvalPlan::Live, EvalReply::Nothing);
    assert_eq!(state.cacheable, Some(false));
    let state = resolve_eval_cache(
        EvalPlan::Capture,
        EvalReply::Captured(Some("out".to_string())),
    );
    assert_eq!(state.cacheable, Some(true));
    assert_eq!(state.output.as_deref(), Some("out"));
    let state = resolve_eval_cache(
        EvalPlan::Probe,
        EvalReply::Probed(Some(Probe {
            cacheable: false,
            reasons: files(&["PATH"]),
            baseline_output: "out".to_string(),
        })),
    );
    assert_eq!(state.cacheable, Some(false));
    assert!(state.output.is_none());
    assert_eq!(state.evidence, files(&["PATH"]));
    assert!(eval_warning(EvalPlan::Probe, "x init", "boom").contains("boom"));
}

#[test]
fn a_failed_capture_is_not_cacheable() {
    let eval = Some(EvalSpec::Detailed {
        cmd: "exit 1".to_string(),
        cache: Some(true),
    });
    for reply in [EvalReply::Captured(None), EvalReply::Nothing] {
        let state = resolve_eval_cache(eval_plan(&eval), reply);
        assert_eq!(state.cacheable, None);
        assert_eq!(state.output, None);
        assert!(state.evidence.is_empty());
    }
    let state = resolve_eval_cache(EvalPlan::Probe, EvalReply::Probed(None));
    assert_eq!(state.cacheable, None);
    assert_eq!(state.output, None);
    assert!(state.evidence.is_empty());
    assert_eq!(
        eval_warning(EvalPlan::Capture, "exit 1", "boom"),
        "warning: eval capture failed for `exit 1`: boom"
    );
}
