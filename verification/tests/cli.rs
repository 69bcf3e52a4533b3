use rig::cli::configured_keys;
use rig::cli::describe_install_outcome;
use rig::cli::describe_outcome;
use rig::cli::editor_command;
use rig::cli::finding_lines;
use rig::cli::forget;
use rig::cli::install_checked;
use rig::cli::install_one;
use rig::cli::list_lines;
use rig::cli::normalize_tools;
use rig::cli::order_reports;
use rig::cli::print_error;
use rig::cli::redundant_entry_warning;
use rig::cli::remove_key;
use rig::cli::render_commands;
use rig::cli::report_action;
use rig::cli::report_tool_set_diff;
use rig::cli::require_tools;
use rig::cli::state_lock_path;
use rig::cli::sync_start;
use rig::cli::sync_step;
use rig::cli::tool_key_for;
use rig::cli::unknown_tool;
use rig::cli::update_filter;
use rig::cli::which;
use rig::cli::BatchAction;
use rig::cli::CommandRow;
use rig::cli::InstallBatch;
use rig::cli::InstallOutcome;
use rig::cli::InstallStart;
use rig::cli::SyncAction;
use rig::cli::SyncBatch;
use rig::cli::SyncStart;
use rig::cli::SyncStep;
use rig::config::test_common;
use rig::config::BinSpec;
use rig::config::Common;
use rig::config::Config;
use rig::config::Host;
use rig::config::PluginEntry;
use rig::config::RepoEntry;
use rig::doctor::Finding;
use rig::doctor::Severity;
use rig::failure::Failure;
use rig::lock::test_tool_lock;
use rig::lock::Lock;
use rig::lock::LockVerdict;
use rig::lock::ToolLock;
use rig::table::NameSet;
use rig::update::Outcome;
use rig::update::Report;
use rig::version::UNVERSIONED;

fn set(names: &[&str]) -> NameSet {
    let mut s = NameSet::new();
    for name in names {
        s.insert(name.to_string());
    }
    s
}

fn texts(names: &[&str]) -> Vec<String> {
    names.iter().map(|n| n.to_string()).collect()
}

fn ripgrep() -> Config {
    let mut config = Config::default();
    config.repo.push(RepoEntry {
        name: "BurntSushi/ripgrep".to_string(),
        host: Host::Github,
        bpick: None,
        extract: None,
        common: Common {
            bin: Some(BinSpec::Single("rg".to_string())),
            description: Some("search".to_string()),
            ..test_common()
        },
    });
    config.plugin.push(PluginEntry {
        name: "z/plug".to_string(),
        description: None,
        source: None,
        run: None,
    });
    config
}

fn failure(chain: &[&str]) -> Failure {
    Failure {
        chain: texts(chain),
    }
}

#[test]
fn tools_are_addressed_by_key_name_or_command() {
    let config = ripgrep();
    assert_eq!(tool_key_for(&config, "rg"), "ripgrep");
    assert_eq!(tool_key_for(&config, "BurntSushi/ripgrep"), "ripgrep");
    assert_eq!(tool_key_for(&config, "other"), "other");
    assert_eq!(
        normalize_tools(&config, &texts(&["rg", "x", "ripgrep", "x", "BurntSushi/ripgrep"])),
        texts(&["ripgrep", "x"])
    );
    assert_eq!(update_filter(&config, &vec![]), None);
    assert_eq!(
        update_filter(&config, &texts(&["rg"])),
        Some(texts(&["ripgrep"]))
    );
}

#[test]
fn a_command_that_needs_a_tool_says_so() {
    assert_eq!(
        require_tools(&vec![], "install").unwrap_err().message(),
        "specify at least one tool to install"
    );
    assert!(require_tools(&texts(&["x"]), "remove").is_ok());
}

#[test]
fn both_commands_word_a_result_alike() {
    let installed = |version: &str| {
        InstallOutcome::Installed(ToolLock {
            version: version.to_string(),
            ..test_tool_lock()
        })
    };
    assert_eq!(describe_install_outcome(&installed("v1.2")), "installed 1.2");
    assert_eq!(describe_install_outcome(&installed(UNVERSIONED)), "installed");
    assert_eq!(
        describe_install_outcome(&InstallOutcome::Updated {
            from: "v1".to_string(),
            lock: ToolLock {
                version: "v2".to_string(),
                ..test_tool_lock()
            },
        }),
        "updated 1 -> 2"
    );
    assert_eq!(
        describe_outcome(&Outcome::Updated {
            from: "v1".to_string(),
            to: "v2".to_string()
        }),
        "updated 1 -> 2"
    );
    assert_eq!(
        describe_install_outcome(&InstallOutcome::AlreadyCurrent {
            version: "v1".to_string()
        }),
        "up to date (1)"
    );
    assert_eq!(
        describe_outcome(&Outcome::UpToDate {
            version: "v1".to_string()
        }),
        "up to date (1)"
    );
    assert_eq!(describe_outcome(&Outcome::Reran), "rerun");
    assert_eq!(
        describe_outcome(&Outcome::EvalRefreshed { cacheable: None }),
        "eval refreshed (probe failed, stays live)"
    );
    assert_eq!(
        describe_outcome(&Outcome::EvalRefreshed {
            cacheable: Some(true)
        }),
        "eval refreshed (cacheable)"
    );
    assert_eq!(
        describe_outcome(&Outcome::NoEval),
        "no eval configured, nothing to refresh"
    );
}

#[test]
fn a_broken_install_is_made_again() {
    let config = ripgrep();
    let mut lock = Lock::default();
    assert!(matches!(
        install_one(&config, &lock, "rg", &set(&[])),
        InstallStart::Install { key } if key == "ripgrep"
    ));
    let mut tool = test_tool_lock();
    tool.bins = texts(&["/b/rg"]);
    lock.tool.insert("ripgrep".to_string(), tool);
    assert!(matches!(
        install_one(&config, &lock, "rg", &set(&[])),
        InstallStart::Install { .. }
    ));
    assert!(matches!(
        install_one(&config, &lock, "rg", &set(&["/b/rg"])),
        InstallStart::CheckUpdate { key, from } if key == "ripgrep" && from == "1.0.0"
    ));
    let InstallStart::Failed(err) = install_one(&config, &lock, "nope", &set(&[])) else {
        panic!("not configured");
    };
    assert_eq!(err.message(), "nope is not in config.toml");
    assert_eq!(unknown_tool("nope").message(), err.message());

    let mut plugin = test_tool_lock();
    plugin.pkg = Some("/p/plug".to_string());
    lock.tool.insert("plug".to_string(), plugin);
    assert!(matches!(
        install_one(&config, &lock, "plug", &set(&["/p/plug"])),
        InstallStart::CheckUpdate { .. }
    ));
    assert!(matches!(
        install_one(&config, &lock, "plug", &set(&[])),
        InstallStart::Install { .. }
    ));
}

#[test]
fn a_tool_without_commands_is_not_healthy() {
    let config = ripgrep();
    let mut lock = Lock::default();
    lock.tool.insert("ripgrep".to_string(), test_tool_lock());
    assert!(matches!(
        install_one(&config, &lock, "rg", &set(&[])),
        InstallStart::Install { .. }
    ));
}

#[test]
fn results_are_recorded_as_they_come() {
    let mut batch = InstallBatch {
        lock: Lock::default(),
        failed: false,
    };
    let action = batch.absorb(
        "rg",
        Ok((
            "ripgrep".to_string(),
            InstallOutcome::Installed(test_tool_lock()),
        )),
    );
    assert!(matches!(&action, BatchAction::SaveThenSay(s) if s == "ripgrep: installed 1.0.0"));
    assert!(batch.lock.tool.contains_key("ripgrep"));
    let BatchAction::SaveThenSay(line) = action else {
        unreachable!();
    };
    assert!(matches!(
        batch.saved("rg", line, Ok(())),
        BatchAction::Say(s) if s == "ripgrep: installed 1.0.0"
    ));
    assert!(!batch.failed);
    let current = InstallOutcome::AlreadyCurrent {
        version: "1".to_string(),
    };
    assert!(matches!(
        batch.absorb("x", Ok(("x".to_string(), current))),
        BatchAction::Say(s) if s == "x: up to date (1)"
    ));
    assert!(!batch.lock.tool.contains_key("x"));
    assert!(matches!(
        batch.absorb("y", Err(failure(&["no"]))),
        BatchAction::Complain(name, e) if name == "y" && e.message() == "no"
    ));
    assert!(batch.failed);
    batch.failed = false;
    assert!(matches!(
        batch.saved("rg", "l".to_string(), Err(failure(&["disk"]))),
        BatchAction::Complain(..)
    ));
    assert!(batch.failed);
    assert!(matches!(
        install_checked("1".to_string(), None),
        InstallOutcome::AlreadyCurrent { version } if version == "1"
    ));
    assert!(matches!(
        install_checked("1".to_string(), Some(test_tool_lock())),
        InstallOutcome::Updated { from, .. } if from == "1"
    ));
}

#[test]
fn installs_give_the_same_records_in_either_order() {
    let run = |order: &[&str]| {
        let mut batch = InstallBatch {
            lock: Lock::default(),
            failed: false,
        };
        for key in order {
            let fresh = ToolLock {
                version: format!("{key}-1"),
                ..test_tool_lock()
            };
            batch.absorb(
                key,
                Ok((key.to_string(), InstallOutcome::Installed(fresh))),
            );
        }
        format!("{:?}", batch.lock)
    };
    assert_eq!(run(&["a", "b"]), run(&["b", "a"]));
}

#[test]
fn reports_are_shown_in_the_order_of_their_tools() {
    let report = |tool: &str, outcome: Outcome| Report {
        tool: tool.to_string(),
        outcome: Ok(outcome),
    };
    let sorted = order_reports(vec![
        report("b", Outcome::Reran),
        report("a", Outcome::NoEval),
        report("b", Outcome::NoEval),
        report("B", Outcome::Reran),
    ]);
    let names: Vec<&str> = sorted.iter().map(|r| r.tool.as_str()).collect();
    assert_eq!(names, vec!["B", "a", "b", "b"]);
    assert!(matches!(sorted[2].outcome, Ok(Outcome::Reran)));
    assert!(matches!(
        report_action(report("a", Outcome::Reran)),
        BatchAction::Say(s) if s == "a: rerun"
    ));
    assert!(matches!(
        report_action(Report { tool: "a".to_string(), outcome: Err(failure(&["x"])) }),
        BatchAction::Complain(..)
    ));
}

#[test]
fn a_sync_clones_or_records_plugins() {
    let mut lock = Lock::default();
    assert!(matches!(sync_step(&lock, "p", false), SyncStep::Clone));
    assert!(matches!(sync_step(&lock, "p", true), SyncStep::Backfill));
    lock.tool.insert("p".to_string(), test_tool_lock());
    assert!(matches!(sync_step(&lock, "p", true), SyncStep::Nothing));
    assert!(matches!(sync_step(&lock, "p", false), SyncStep::Clone));

    let mut batch = SyncBatch {
        lock: Lock::default(),
        missing: vec![],
        failed: false,
    };
    assert!(matches!(batch.look_at("z/plug", false), SyncStep::Clone));
    assert_eq!(batch.missing, texts(&["z/plug"]));
    assert!(matches!(
        batch.backfilled("y/old", Ok(test_tool_lock())),
        SyncAction::Save(None)
    ));
    assert!(batch.lock.tool.contains_key("old"));
    let done = (
        "plug".to_string(),
        InstallOutcome::Installed(test_tool_lock()),
    );
    assert!(matches!(
        batch.installed("z/plug", Ok(done)),
        SyncAction::Save(Some(s)) if s == "plug: installed 1.0.0"
    ));
    assert!(!batch.failed);
    assert!(matches!(
        batch.installed("z/plug", Err(failure(&["no"]))),
        SyncAction::Complain(..)
    ));
    assert!(batch.failed);
    assert!(matches!(batch.saved("z/plug", Ok(())), SyncAction::Nothing));
    assert!(batch.failed);
}

#[test]
fn a_sync_tells_what_came_and_went() {
    let old = set(&["a", "b", "c"]);
    let new = set(&["b", "e", "d"]);
    assert_eq!(
        report_tool_set_diff(&old, &new),
        texts(&["+ added: d, e", "- removed: a, c"])
    );
    assert!(report_tool_set_diff(&old, &old).is_empty());
    let keys = configured_keys(&ripgrep());
    assert_eq!(keys.len(), 2);
    assert!(keys.contains("ripgrep") && keys.contains("plug"));
}

#[test]
fn errors_show_what_lies_behind_them() {
    let err = failure(&["outer", "- a\n+ b\n| c\nd"]);
    assert_eq!(
        print_error(Some("delta"), &err, false),
        texts(&["delta: outer", "  - a", "  + b", "    c", "  d"])
    );
    assert_eq!(print_error(None, &failure(&["x"]), false), texts(&["error: x"]));
    let colored = print_error(None, &err, true);
    assert_eq!(colored[0], "\u{1b}[1;31merror:\u{1b}[0m outer");
    assert_eq!(colored[1], "\u{1b}[1;31m  - a\u{1b}[0m");
    assert_eq!(colored[2], "\u{1b}[1;32m  + b\u{1b}[0m");
    assert_eq!(colored[4], "\u{1b}[2m  d\u{1b}[0m");
}

#[test]
fn the_help_text_lists_commands_in_columns() {
    let row = |name: &str, aliases: &[&str], about: &str| CommandRow {
        name: name.to_string(),
        aliases: texts(aliases),
        about: about.to_string(),
    };
    assert_eq!(
        render_commands(&vec![row("install", &["i", "add"], "Install"), row("list", &[], "List")]),
        "  install, i, add  Install\n  list             List\n  help             Print this message or the help of the given subcommand(s)"
    );
}

#[test]
fn installed_tools_are_marked_in_the_list() {
    let mut lock = Lock::default();
    lock.tool.insert("ripgrep".to_string(), test_tool_lock());
    assert_eq!(
        list_lines(&ripgrep(), &lock),
        texts(&["\u{25cf} ripgrep - search", "\u{25cb} plug"])
    );
}

#[test]
fn the_editor_is_called_with_its_flags() {
    let cmd = editor_command("code --wait", "/c");
    assert_eq!(cmd.program, "code");
    assert_eq!(cmd.args, texts(&["--wait", "/c"]));
    let cmd = editor_command("  ", "/c");
    assert_eq!(cmd.program, "vi");
    assert_eq!(cmd.args, texts(&["/c"]));
}

#[test]
fn findings_are_labelled() {
    assert_eq!(finding_lines(&vec![]), texts(&["no issues found"]));
    let findings = vec![
        Finding {
            severity: Severity::Warning,
            message: "w".to_string(),
        },
        Finding {
            severity: Severity::Info,
            message: "i".to_string(),
        },
    ];
    assert_eq!(finding_lines(&findings), texts(&["[warning] w", "[info] i"]));
}

#[test]
fn a_command_is_traced_to_its_tool() {
    let config = ripgrep();
    assert_eq!(which(&config, "rg").expect("provided"), "ripgrep");
    assert_eq!(
        which(&config, "plug").unwrap_err().message(),
        "no configured tool provides `plug`"
    );
}

#[test]
fn only_what_is_installed_is_removed() {
    let config = ripgrep();
    let mut lock = Lock::default();
    assert_eq!(
        remove_key(&config, &lock, "rg").unwrap_err().message(),
        "ripgrep is not installed"
    );
    lock.tool.insert("ripgrep".to_string(), test_tool_lock());
    lock.tool.insert("x".to_string(), test_tool_lock());
    assert_eq!(remove_key(&config, &lock, "rg").expect("installed"), "ripgrep");
    assert_eq!(forget(&mut lock, "ripgrep"), "ripgrep: removed");
    assert!(!lock.tool.contains_key("ripgrep"));
    assert!(lock.tool.contains_key("x"));
}

#[test]
fn the_state_lock_needs_no_configuration() {
    assert_eq!(state_lock_path("/h"), "/h/.local/share/rig/rig.lock.lock");
    assert!(redundant_entry_warning(&ripgrep()).is_none());
    let mut config = ripgrep();
    config.repo[0].name = "gitduk/rig".to_string();
    assert!(redundant_entry_warning(&config).is_some());
}

#[test]
fn a_sync_bows_out_behind_another_process() {
    for force in [false, true] {
        let SyncStart::BowOut { warning, success } = sync_start(LockVerdict::Busy, force) else {
            panic!("a busy lock must end the sync");
        };
        assert_eq!(
            warning,
            "rig: warning: another rig process is running; skipping sync"
        );
        assert!(success);
        assert!(matches!(
            sync_start(LockVerdict::Acquired, force),
            SyncStart::Begin { refresh } if refresh == force
        ));
        assert!(matches!(sync_start(LockVerdict::Retry, force), SyncStart::Retry));
        assert!(matches!(sync_start(LockVerdict::Error, force), SyncStart::Fail));
    }
}
