use rig::config::test_common;
use rig::config::Common;
use rig::config::CompletionsSpec;
use rig::config::Config;
use rig::config::EvalSpec;
use rig::config::Host;
use rig::config::NodeEntry;
use rig::config::NodeManager;
use rig::config::RepoEntry;
use rig::config::SetupSpec;
use rig::doctor::ask_existing;
use rig::doctor::ask_present;
use rig::doctor::check_config_newer_than_init_zsh;
use rig::doctor::check_dangling_symlinks;
use rig::doctor::check_dual_node_managers;
use rig::doctor::check_eval_cache_drift;
use rig::doctor::check_foreign_prefix_bin;
use rig::doctor::check_lock_vs_disk;
use rig::doctor::check_missing_completions;
use rig::doctor::check_orphan_pkg_dirs;
use rig::doctor::check_prefix_bin_on_path;
use rig::doctor::check_shadowed_completions;
use rig::doctor::check_shadowed_installed_bin;
use rig::doctor::check_sudo_in_setup;
use rig::doctor::check_unguarded_compdef;
use rig::doctor::drift_candidate;
use rig::doctor::npm_global_root;
use rig::doctor::run;
use rig::doctor::setup_uses_sudo;
use rig::doctor::DirIndex;
use rig::doctor::Facts;
use rig::doctor::LinkFact;
use rig::doctor::Severity;
use rig::lock::test_tool_lock;
use rig::lock::Lock;
use rig::paths::Layout;
use rig::table::NameSet;
use rig::table::Table;

fn set(names: &[&str]) -> NameSet {
    let mut s = NameSet::new();
    for name in names {
        s.insert(name.to_string());
    }
    s
}

fn layout() -> Layout {
    Layout::new("/home/kaige", "~/.local")
}

fn delta(common: Common) -> RepoEntry {
    RepoEntry {
        name: "dandavison/delta".to_string(),
        host: Host::Github,
        bpick: None,
        extract: None,
        common,
    }
}

#[test]
fn flags_prefix_bin_dir_missing_from_path() {
    let layout = Layout::new("/home/kaige", "~/.local");
    let findings = check_prefix_bin_on_path(&layout, "/usr/bin:/bin");
    assert_eq!(findings.len(), 1);

    let path_with_it = format!("/usr/bin:{}", layout.prefix_bin_dir);
    assert!(check_prefix_bin_on_path(&layout, &path_with_it).is_empty());
}

#[test]
fn flags_an_earlier_path_entry_shadowing_a_rigs_own_installed_bin() {
    let layout = Layout::new("/tmp/t/home", "~/.local");
    let own = format!("{}/uv", layout.prefix_bin_dir);
    let system_dir = "/tmp/t/usr-bin";
    let existing = set(&[own.as_str(), "/tmp/t/usr-bin/uv"]);

    let mut lock = Lock::default();
    let mut tool = test_tool_lock();
    tool.bins = vec![own.clone()];
    lock.tool.insert("uv".to_string(), tool);

    let path_env = format!("{}:{}", system_dir, layout.prefix_bin_dir);
    let findings = check_shadowed_installed_bin(&lock, &layout, &path_env, &existing);
    assert_eq!(findings.len(), 1);
    assert!(findings[0].message.contains("uv"));

    let path_env_in_order = format!("{}:{}", layout.prefix_bin_dir, system_dir);
    assert!(check_shadowed_installed_bin(&lock, &layout, &path_env_in_order, &existing).is_empty());
}

#[test]
fn flags_lock_entry_whose_pkg_dir_vanished() {
    let mut lock = Lock::default();
    let mut tool = test_tool_lock();
    tool.pkg = Some("/nonexistent/pkg/dir".to_string());
    lock.tool.insert("ghost".to_string(), tool);

    let findings = check_lock_vs_disk(&lock, &set(&[]));
    assert_eq!(findings.len(), 1);
    assert!(findings[0].message.contains("ghost"));
    assert!(check_lock_vs_disk(&lock, &set(&["/nonexistent/pkg/dir"])).is_empty());
}

#[test]
fn flags_orphan_pkg_dirs_not_in_lock() {
    let layout = Layout::new("/tmp/t/home", "~/.local");
    let known = layout.pkg_dir("delta", "0.18.2");
    let orphan = layout.pkg_dir("wallust", "0.1.0");

    let mut lock = Lock::default();
    let mut tool = test_tool_lock();
    tool.pkg = Some(known.clone());
    lock.tool.insert("delta".to_string(), tool);

    let findings = check_orphan_pkg_dirs(&lock, &vec![known, orphan]);
    assert_eq!(findings.len(), 1);
    assert!(findings[0].message.contains("wallust"));
    assert_eq!(findings[0].severity, Severity::Info);
}

#[test]
fn flags_dangling_symlink_into_state_dir() {
    let layout = Layout::new("/tmp/t/home", "~/.local");
    let gone = format!("{}/delta", layout.pkg_dir("delta", "0.18.2"));
    let link = LinkFact {
        path: format!("{}/delta", layout.prefix_bin_dir),
        target: gone,
        resolves: false,
    };
    let findings = check_dangling_symlinks(&layout.state_dir, &vec![link]);
    assert_eq!(findings.len(), 1);
}

#[test]
fn flags_foreign_file_blocking_a_not_yet_installed_tool() {
    let layout = Layout::new("/tmp/t/home", "~/.local");
    let foreign = format!("{}/delta", layout.prefix_bin_dir);

    let mut config = Config::default();
    config.repo.push(delta(test_common()));

    let findings =
        check_foreign_prefix_bin(&config, &Lock::default(), &layout, &set(&[foreign.as_str()]));
    assert_eq!(findings.len(), 1);
    assert_eq!(
        findings[0].message,
        format!("delta isn't installed via rig, but {foreign} already exists \u{2014} installing would conflict")
    );
    let mut lock = Lock::default();
    lock.tool.insert("delta".to_string(), test_tool_lock());
    assert!(check_foreign_prefix_bin(&config, &lock, &layout, &set(&[foreign.as_str()])).is_empty());
}

#[test]
fn flags_sudo_in_any_setup_shape() {
    assert!(setup_uses_sudo(&SetupSpec::Single(
        "sudo cp x y".to_string()
    )));
    assert!(setup_uses_sudo(&SetupSpec::Multiple(vec![
        "echo hi".to_string(),
        "sudo ln -sf a b".to_string(),
    ])));
    assert!(!setup_uses_sudo(&SetupSpec::Single(
        "cargo build --release".to_string()
    )));
}

#[test]
fn flags_compdef_without_a_guard() {
    let mut lock = Lock::default();
    let mut unguarded = test_tool_lock();
    unguarded.eval_cached_output = Some("compdef _foo foo".to_string());
    lock.tool.insert("foo".to_string(), unguarded);

    let mut guarded = test_tool_lock();
    guarded.eval_cached_output =
        Some("[[ ${+functions[compdef]} -ne 0 ]] && compdef _bar bar".to_string());
    lock.tool.insert("bar".to_string(), guarded);

    let findings = check_unguarded_compdef(&lock);
    assert_eq!(findings.len(), 1);
    assert!(findings[0].message.contains("foo"));
}

#[test]
fn flags_sudo_in_either_half_of_a_split_setup() {
    let split = |install: &str, update: &str| SetupSpec::Split {
        install: install.to_string(),
        update: update.to_string(),
    };
    assert!(setup_uses_sudo(&split("make", "sudo make")));
    assert!(setup_uses_sudo(&split("sudo make", "make")));
    assert!(!setup_uses_sudo(&split("make", "pseudo sudo2")));
    let mut config = Config::default();
    config.repo.push(delta(Common {
        setup: Some(split("sudo make", "make")),
        ..test_common()
    }));
    let findings = check_sudo_in_setup(&config);
    assert_eq!(findings.len(), 1);
    assert_eq!(findings[0].severity, Severity::Info);
}

#[test]
fn a_link_elsewhere_is_not_reported() {
    let link = |path: &str, target: &str, resolves: bool| LinkFact {
        path: path.to_string(),
        target: target.to_string(),
        resolves,
    };
    assert!(check_dangling_symlinks("/s", &vec![link("/b/x", "/s/x", true)]).is_empty());
    assert!(check_dangling_symlinks("/s", &vec![link("/b/x", "/other/x", false)]).is_empty());
    assert_eq!(check_dangling_symlinks("/b/s", &vec![link("/b/x", "s/x", false)]).len(), 1);
    assert!(check_dangling_symlinks("/b/s", &vec![link("/b/x", "s2/x", false)]).is_empty());
}

#[test]
fn reports_a_configuration_newer_than_the_script() {
    assert_eq!(check_config_newer_than_init_zsh(Some(2), Some(1)).len(), 1);
    assert!(check_config_newer_than_init_zsh(Some(1), Some(1)).is_empty());
    assert!(check_config_newer_than_init_zsh(None, Some(1)).is_empty());
    assert!(check_config_newer_than_init_zsh(Some(1), None).is_empty());
}

#[test]
fn reports_completions_that_are_missing_or_shadowed() {
    let mut config = Config::default();
    config.repo.push(delta(test_common()));
    let mut lock = Lock::default();
    assert!(check_missing_completions(&config, &lock).is_empty());
    lock.tool.insert("delta".to_string(), test_tool_lock());
    assert_eq!(check_missing_completions(&config, &lock).len(), 1);
    config.repo[0].common.completions = CompletionsSpec::Enabled(false);
    assert!(check_missing_completions(&config, &lock).is_empty());

    let mut tool = test_tool_lock();
    tool.completions = vec!["/c/_delta".to_string()];
    lock.tool.insert("delta".to_string(), tool);
    let indexes = vec![
        DirIndex { dir: "/sys/a".to_string(), names: set(&["_delta", "_x"]) },
        DirIndex { dir: "/sys/b".to_string(), names: set(&["_y"]) },
    ];
    let findings = check_shadowed_completions(&lock, &indexes);
    assert_eq!(findings.len(), 1);
    assert_eq!(
        findings[0].message,
        "delta's completion `_delta` is shadowed by a system completion under /sys/a \u{2014} check fpath order"
    );
}

#[test]
fn reports_a_package_in_both_trees() {
    let mut config = Config::default();
    config.node.push(NodeEntry {
        name: "cowsay".to_string(),
        manager: NodeManager::Auto,
        common: test_common(),
    });
    let bun = "/home/kaige/.local/install/global/node_modules/cowsay";
    let npm = "/npm/cowsay";
    assert_eq!(
        check_dual_node_managers(&config, &layout(), Some("/npm"), &set(&[bun, npm])).len(),
        1
    );
    assert!(check_dual_node_managers(&config, &layout(), Some("/npm"), &set(&[bun])).is_empty());
    assert!(check_dual_node_managers(&config, &layout(), None, &set(&[bun, npm])).is_empty());
}

#[test]
fn reports_a_verdict_that_changed() {
    let mut config = Config::default();
    config.repo.push(delta(Common {
        eval: Some(EvalSpec::Cmd("delta init".to_string())),
        ..test_common()
    }));
    let mut lock = Lock::default();
    let mut tool = test_tool_lock();
    tool.eval_cacheable = Some(true);
    lock.tool.insert("delta".to_string(), tool);
    let mut probes = Table::new();
    assert!(check_eval_cache_drift(&config, &lock, &probes).is_empty());
    probes.insert("delta init".to_string(), true);
    assert!(check_eval_cache_drift(&config, &lock, &probes).is_empty());
    probes.insert("delta init".to_string(), false);
    let findings = check_eval_cache_drift(&config, &lock, &probes);
    assert_eq!(findings.len(), 1);
    assert_eq!(
        findings[0].message,
        "delta's eval cacheability changed (true -> false) \u{2014} run `rig sync --force` to re-probe"
    );
    let entries = rig::config::all_entries(&config);
    assert_eq!(drift_candidate(&entries[0], &lock), Some(("delta init".to_string(), true)));
    assert_eq!(drift_candidate(&entries[0], &Lock::default()), None);
}

#[test]
fn all_checks_report_in_order() {
    let mut config = Config::default();
    config.repo.push(delta(Common {
        setup: Some(SetupSpec::Single("sudo make".to_string())),
        ..test_common()
    }));
    let mut lock = Lock::default();
    let mut tool = test_tool_lock();
    tool.pkg = Some("/gone".to_string());
    lock.tool.insert("delta".to_string(), tool);
    let facts = Facts {
        path_env: "/bin".to_string(),
        config_mtime: Some(2),
        init_mtime: Some(1),
        existing: set(&[]),
        present: set(&[]),
        version_dirs: vec!["/orphan".to_string()],
        bin_links: vec![],
        completions: vec![],
        npm_root: None,
        probes: Table::new(),
    };
    let findings = run(&config, &lock, &layout(), &facts);
    let words = ["config.toml changed", "not on $PATH", "/gone", "/orphan", "no registered", "sudo"];
    assert_eq!(findings.len(), words.len());
    for (finding, word) in findings.iter().zip(words) {
        assert!(finding.message.contains(word), "{} / {word}", finding.message);
    }
}

#[test]
fn the_facts_to_look_up_cover_what_is_checked() {
    let mut config = Config::default();
    config.repo.push(delta(test_common()));
    let mut lock = Lock::default();
    let mut tool = test_tool_lock();
    tool.pkg = Some("/pkg".to_string());
    tool.bins = vec!["/home/kaige/.local/bin/delta".to_string()];
    lock.tool.insert("delta".to_string(), tool);
    let asked = ask_existing(&config, &lock, &layout(), "/a:/b", None);
    for path in ["/pkg", "/home/kaige/.local/bin/delta", "/a/delta", "/b/delta"] {
        assert!(asked.iter().any(|p| p == path), "{path} in {asked:?}");
    }
    assert_eq!(ask_present(&config, &layout()), vec!["/home/kaige/.local/bin/delta".to_string()]);
}

#[test]
fn the_global_root_is_what_npm_says_without_its_line_end() {
    assert_eq!(
        npm_global_root(true, "/usr/lib/node_modules\n").as_deref(),
        Some("/usr/lib/node_modules")
    );
    assert_eq!(npm_global_root(false, "/usr/lib/node_modules\n"), None);
}
