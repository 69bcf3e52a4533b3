use rig::config::test_common;
use rig::config::BpickSpec;
use rig::config::Config;
use rig::config::CurlEntry;
use rig::config::EvalSpec;
use rig::config::Host;
use rig::config::PluginEntry;
use rig::config::RepoEntry;
use rig::config::ResolvedEntry;
use rig::failure::Failure;
use rig::lock::test_tool_lock;
use rig::lock::Lock;
use rig::lock::ToolLock;
use rig::pool::worker_count;
use rig::sources::eval_plan;
use rig::sources::resolve_eval_cache;
use rig::sources::EvalReply;
use rig::sources::EvalState;
use rig::update::already_installed;
use rig::update::apply_change;
use rig::update::check_and_update;
use rig::update::merge_result;
use rig::update::refresh_eval_cache;
use rig::update::report;
use rig::update::targets;
use rig::update::update_checked;
use rig::update::update_installed;
use rig::update::update_one;
use rig::update::update_refreshed;
use rig::update::LockChange;
use rig::update::Outcome;
use rig::update::Update;
use rig::update::UpdateAction;

fn delta_entry() -> RepoEntry {
    RepoEntry {
        name: "dandavison/delta".to_string(),
        host: Host::Github,
        bpick: Some(BpickSpec::Single(
            "*-x86_64-unknown-linux-gnu.tar.gz".to_string(),
        )),
        extract: None,
        common: test_common(),
    }
}

fn autosuggestions_entry() -> PluginEntry {
    PluginEntry {
        name: "zsh-users/zsh-autosuggestions".to_string(),
        description: None,
        source: Some("zsh-autosuggestions.zsh".to_string()),
        run: None,
    }
}

#[test]
fn update_all_skips_curl_on_blanket_runs() {
    let mut config = Config::default();
    config.curl.push(CurlEntry {
        name: "oh-my-zsh".to_string(),
        url: "https://invalid.example/install.sh".to_string(),
        common: test_common(),
    });
    assert!(targets(&config, None).is_empty());
    let named = targets(&config, Some(&vec!["oh-my-zsh".to_string()]));
    assert_eq!(named.len(), 1);
    assert_eq!(named[0].key, "oh-my-zsh");
}

#[test]
fn update_plugin_errors_when_never_cloned() {
    let lock = Lock::default();
    let entry = autosuggestions_entry();

    let action = update_one(
        &ResolvedEntry::Plugin(&entry),
        "zsh-autosuggestions",
        &lock,
        false,
        false,
    );
    let UpdateAction::Failed(err) = action else {
        panic!("nothing to update");
    };
    let message = err.message();
    assert!(message.contains("not installed"));
    assert!(message.contains("rig install"));
}

#[test]
fn update_plugin_points_at_sync_for_an_untracked_clone() {
    let lock = Lock::default();
    let entry = autosuggestions_entry();

    let action = update_one(
        &ResolvedEntry::Plugin(&entry),
        "zsh-autosuggestions",
        &lock,
        true,
        false,
    );
    let UpdateAction::Failed(err) = action else {
        panic!("the clone is not recorded");
    };
    assert!(err.message().contains("rig sync"));
}

#[test]
fn errors_when_tool_is_not_yet_installed() {
    let lock = Lock::default();
    let entry = delta_entry();

    let action = update_one(&ResolvedEntry::Repo(&entry), "delta", &lock, false, false);
    let UpdateAction::Failed(err) = action else {
        panic!("nothing to update");
    };
    assert!(err.message().contains("not installed"));
    assert!(already_installed(&lock, "delta").is_err());
}

#[test]
fn refresh_eval_cache_repoints_stale_cached_output() {
    let mut lock = Lock::default();
    lock.tool.insert(
        "delta".to_string(),
        ToolLock {
            eval_cacheable: Some(true),
            eval_cached_output: Some("stale-output".to_string()),
            ..test_tool_lock()
        },
    );
    let mut entry = delta_entry();
    entry.common.eval = Some(EvalSpec::Cmd("echo fresh-output".to_string()));
    let resolved = ResolvedEntry::Repo(&entry);

    assert!(matches!(
        refresh_eval_cache(&resolved, "delta", &lock),
        UpdateAction::Refresh
    ));
    let probe = rig::evalcache::probe(
        rig::evalcache::Outputs {
            baseline: "fresh-output\n".to_string(),
            cwd_root: "fresh-output\n".to_string(),
            cwd_tmp: "fresh-output\n".to_string(),
            term_variant: "fresh-output\n".to_string(),
            path_variant: "fresh-output\n".to_string(),
            shlvl_variant: "fresh-output\n".to_string(),
            rerun: "fresh-output\n".to_string(),
        },
        "/usr/bin:/bin",
        "",
        4242,
    );
    let state = resolve_eval_cache(
        eval_plan(&entry.common.eval),
        EvalReply::Probed(Some(probe)),
    );
    let update = update_refreshed(state);
    assert!(matches!(
        update.outcome,
        Outcome::EvalRefreshed {
            cacheable: Some(true)
        }
    ));
    match update.change {
        Some(LockChange::RefreshEval { output, .. }) => {
            assert_eq!(output.as_deref(), Some("fresh-output\n"));
        }
        other => panic!("expected a RefreshEval change, got {other:?}"),
    }
}

#[test]
fn refresh_eval_cache_is_a_noop_without_eval_configured() {
    let mut lock = Lock::default();
    lock.tool.insert("delta".to_string(), test_tool_lock());
    let entry = delta_entry();
    let resolved = ResolvedEntry::Repo(&entry);

    let action = refresh_eval_cache(&resolved, "delta", &lock);
    assert!(matches!(action, UpdateAction::Finished(Outcome::NoEval)));
}

#[test]
fn refresh_eval_cache_errors_when_not_yet_installed() {
    let lock = Lock::default();
    let entry = delta_entry();
    let resolved = ResolvedEntry::Repo(&entry);

    let UpdateAction::Failed(err) = refresh_eval_cache(&resolved, "delta", &lock) else {
        panic!("nothing to refresh");
    };
    assert!(err.message().contains("not installed"));
}

#[test]
fn a_current_version_is_left_unless_forced() {
    let mut lock = Lock::default();
    lock.tool.insert("delta".to_string(), test_tool_lock());
    assert!(matches!(
        update_checked(&lock, "delta", "1.0.0".to_string(), "1.0.0", false),
        UpdateAction::Finished(Outcome::UpToDate { version }) if version == "1.0.0"
    ));
    assert!(matches!(
        update_checked(&lock, "delta", "1.0.0".to_string(), "1.0.0", true),
        UpdateAction::Install { .. }
    ));
    assert!(matches!(
        update_checked(&lock, "delta", "1.0.0".to_string(), "0.9.0", false),
        UpdateAction::Install { .. }
    ));
    let entry = delta_entry();
    assert!(matches!(
        update_one(&ResolvedEntry::Repo(&entry), "delta", &lock, false, false),
        UpdateAction::Query { current } if current == "1.0.0"
    ));
}

#[test]
fn an_install_replaces_the_record() {
    let entry = delta_entry();
    let mut fresh = test_tool_lock();
    fresh.version = "2.0.0".to_string();
    let update = update_installed(
        &ResolvedEntry::Repo(&entry),
        "1.0.0".to_string(),
        fresh,
        false,
    );
    let mut lock = Lock::default();
    lock.tool.insert("delta".to_string(), test_tool_lock());
    lock.tool.insert("other".to_string(), test_tool_lock());
    let merged = merge_result(&mut lock, "delta", Ok(update));
    assert!(merged.must_save);
    assert!(matches!(merged.outcome, Ok(Outcome::Updated { from, to }) if from == "1.0.0" && to == "2.0.0"));
    assert_eq!(lock.tool.get("delta").unwrap().version, "2.0.0");
    assert_eq!(lock.tool.get("other").unwrap().version, "1.0.0");
}

#[test]
fn a_failure_changes_no_record() {
    let mut lock = Lock::default();
    lock.tool.insert("delta".to_string(), test_tool_lock());
    let merged = merge_result(&mut lock, "delta", Err(Failure::new("no".to_string())));
    assert!(!merged.must_save);
    assert!(merged.outcome.is_err());
    assert_eq!(lock.tool.len(), 1);
    let said = report(
        "delta".to_string(),
        Ok(Outcome::Reran),
        Err(Failure::new("disk full".to_string())),
    );
    assert!(said.outcome.is_err());
}

#[test]
fn a_refresh_keeps_everything_but_the_verdict() {
    let mut lock = Lock::default();
    let mut tool = test_tool_lock();
    tool.bins = vec!["/b/delta".to_string()];
    lock.tool.insert("delta".to_string(), tool);
    let change = LockChange::RefreshEval {
        cacheable: Some(false),
        output: None,
        evidence: vec!["PATH".to_string()],
    };
    apply_change(&mut lock, "delta", change);
    let after = lock.tool.get("delta").unwrap();
    assert_eq!(after.bins, vec!["/b/delta".to_string()]);
    assert_eq!(after.eval_cacheable, Some(false));
    assert_eq!(after.eval_evidence, vec!["PATH".to_string()]);
    let change = LockChange::RefreshEval {
        cacheable: None,
        output: None,
        evidence: vec![],
    };
    apply_change(&mut lock, "absent", change);
    assert!(!lock.tool.contains_key("absent"));
}

#[test]
fn changes_of_different_tools_commute() {
    let refresh = || {
        update_refreshed(EvalState {
            cacheable: Some(true),
            output: Some("x".to_string()),
            evidence: vec![],
        })
        .change
        .expect("a change")
    };
    let start = || {
        let mut lock = Lock::default();
        lock.tool.insert("a".to_string(), test_tool_lock());
        lock
    };
    let (mut one, mut two) = (start(), start());
    apply_change(&mut one, "a", refresh());
    apply_change(&mut one, "b", LockChange::Replace(test_tool_lock()));
    apply_change(&mut two, "b", LockChange::Replace(test_tool_lock()));
    apply_change(&mut two, "a", refresh());
    assert_eq!(format!("{one:?}"), format!("{two:?}"));
}

#[test]
fn only_a_new_record_comes_out_of_a_check() {
    let none = Update {
        outcome: Outcome::NoEval,
        change: None,
    };
    assert!(check_and_update(Ok(none)).expect("no error").is_none());
    let some = Update {
        outcome: Outcome::Reran,
        change: Some(LockChange::Replace(test_tool_lock())),
    };
    assert!(check_and_update(Ok(some)).expect("no error").is_some());
    assert!(check_and_update(Err(Failure::new("no".to_string()))).is_err());
}

#[test]
fn workers_are_capped_at_item_count() {
    assert_eq!(worker_count(64, 1), 1);
}

#[test]
fn there_is_a_worker_for_every_batch() {
    assert_eq!(worker_count(8, 100), 8);
    assert_eq!(worker_count(4, 0), 0);
    assert_eq!(worker_count(0, 5), 1);
}
