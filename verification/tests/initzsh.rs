use rig::config::test_common;
use rig::config::Common;
use rig::config::Config;
use rig::config::EvalSpec;
use rig::config::Host;
use rig::config::PluginEntry;
use rig::config::RepoEntry;
use rig::config::RunSpec;
use rig::initzsh::declared_tool_keys;
use rig::initzsh::escape_dquoted;
use rig::initzsh::expand_tilde_export;
use rig::initzsh::render;
use rig::initzsh::zsh_ident;
use rig::lock::Lock;
use rig::lock::ToolLock;
use rig::paths::Layout;
use rig::sources::resolve_eval_cache;
use rig::sources::EvalPlan;
use rig::sources::EvalReply;
use rig::stamp::Timestamp;
use rig::table::Table;

fn layout() -> Layout {
    Layout::new("/home/kaige", "~/.local")
}

fn repo_entry(name: &str, eval: Option<EvalSpec>) -> RepoEntry {
    RepoEntry {
        name: name.to_string(),
        host: Host::Github,
        bpick: None,
        extract: None,
        common: Common {
            eval,
            ..test_common()
        },
    }
}

fn lazy_repo_entry(
    name: &str,
    env: Table<String>,
    eval: Option<EvalSpec>,
    bind: Option<&str>,
) -> RepoEntry {
    RepoEntry {
        name: name.to_string(),
        host: Host::Github,
        bpick: None,
        extract: None,
        common: Common {
            env,
            eval,
            lazy: true,
            bind: bind.map(str::to_string),
            ..test_common()
        },
    }
}

#[test]
fn lazy_tool_defers_env_and_eval_into_a_stub_function() {
    let mut env = Table::new();
    env.insert("ATUIN_TMUX_POPUP".to_string(), "false".to_string());
    let mut config = Config::default();
    config.repo.push(lazy_repo_entry(
        "atuinsh/atuin",
        env,
        Some(EvalSpec::Cmd("atuin init zsh".to_string())),
        None,
    ));

    let mut lock = Lock::default();
    lock.tool
        .insert("atuin".to_string(), tool_lock_with_eval(None, None));

    let out = render(&config, &lock, &layout());
    let lines: Vec<&str> = out.lines().collect();

    assert!(!lines.contains(&"export ATUIN_TMUX_POPUP=\"false\""));
    assert!(!lines.contains(&"eval \"$(atuin init zsh)\""));
    assert!(lines.contains(&"_rig_lazy_init_atuin() {"));
    assert!(lines.contains(&"  unfunction atuin 2>/dev/null"));
    assert!(lines.contains(&"  export ATUIN_TMUX_POPUP=\"false\""));
    assert!(lines.contains(&"  eval \"$(atuin init zsh)\""));
    assert!(lines.contains(&"atuin() {"));
    assert!(lines.contains(&"  _rig_lazy_init_atuin"));
    assert!(lines.contains(&"  atuin \"$@\""));
}

#[test]
fn lazy_tool_not_yet_installed_is_skipped() {
    let mut config = Config::default();
    config.repo.push(lazy_repo_entry(
        "atuinsh/atuin",
        Table::new(),
        Some(EvalSpec::Cmd("atuin init zsh".to_string())),
        None,
    ));

    let out = render(&config, &Lock::default(), &layout());

    assert!(!out.contains("atuin() {"));
}

#[test]
fn lazy_bind_wires_a_placeholder_widget_that_rebinds_on_first_use() {
    let mut config = Config::default();
    config.repo.push(lazy_repo_entry(
        "denisidoro/navi",
        Table::new(),
        Some(EvalSpec::Cmd("navi widget zsh".to_string())),
        Some("^g:_navi_widget"),
    ));

    let mut lock = Lock::default();
    lock.tool
        .insert("navi".to_string(), tool_lock_with_eval(None, None));

    let out = render(&config, &lock, &layout());
    let lines: Vec<&str> = out.lines().collect();

    assert!(lines.contains(&"_rig_lazy_bind_navi() {"));
    assert!(lines.contains(&"  _rig_lazy_init_navi"));
    assert!(lines.contains(&"  bindkey '^g' _navi_widget"));
    assert!(lines.contains(&"  zle _navi_widget"));
    assert!(lines.contains(&"zle -N _rig_lazy_bind_navi"));
    assert!(lines.contains(&"bindkey '^g' _rig_lazy_bind_navi"));
    // The command-name path rebinds too, so whichever trigger fires
    // first leaves the key pointed at the real widget, not the stub.
    assert!(lines.contains(&"navi() {"));
    assert!(lines.contains(&"  _rig_lazy_init_navi"));
}

#[test]
fn expand_tilde_export_escapes_dquote_metacharacters() {
    assert_eq!(
        expand_tilde_export(r#"say "hi" `whoami` $USER \done"#),
        r#"say \"hi\" \`whoami\` \$USER \\done"#
    );
    assert_eq!(
        expand_tilde_export("~/configs/$secret"),
        r"$HOME/configs/\$secret"
    );
    assert_eq!(expand_tilde_export("~"), "$HOME");
}

#[test]
fn eager_run_is_rendered_verbatim_at_top_level() {
    let mut config = Config::default();
    config.repo.push(RepoEntry {
        name: "casey/just".to_string(),
        host: Host::Github,
        bpick: None,
        extract: None,
        common: Common {
            run: Some(RunSpec::Single(r#"alias js="just""#.to_string())),
            ..test_common()
        },
    });

    let out = render(&config, &Lock::default(), &layout());
    let lines: Vec<&str> = out.lines().collect();

    assert!(lines.contains(&r#"alias js="just""#));
}

#[test]
fn lazy_run_is_deferred_into_the_shared_init_function() {
    let mut config = Config::default();
    config.repo.push(RepoEntry {
        name: "dandavison/delta".to_string(),
        host: Host::Github,
        bpick: None,
        extract: None,
        common: Common {
            run: Some(RunSpec::Multiple(vec![
                "alias d=delta".to_string(),
                "alias dd=\"delta --diff-so-fancy\"".to_string(),
            ])),
            lazy: true,
            ..test_common()
        },
    });

    let mut lock = Lock::default();
    lock.tool
        .insert("delta".to_string(), tool_lock_with_eval(None, None));

    let out = render(&config, &lock, &layout());
    let lines: Vec<&str> = out.lines().collect();

    // Not rendered before the tool's own init function ran.
    assert!(!lines.contains(&"alias d=delta"));
    assert!(lines.contains(&"_rig_lazy_init_delta() {"));
    assert!(lines.contains(&"  alias d=delta"));
    assert!(lines.contains(&"  alias dd=\"delta --diff-so-fancy\""));
}

#[test]
fn rig_cmd_covers_uninstalled_tools() {
    let mut config = Config::default();
    config.repo.push(repo_entry("dandavison/delta", None));

    let lock = Lock::default();
    let out = render(&config, &lock, &layout());

    assert!(out.contains("RIG_CMD"));
    assert!(out.contains("delta delta"));
    assert!(out.contains("command_not_found_handler"));
}

#[test]
fn declared_tool_keys_round_trips_through_a_rendered_rig_cmd_block() {
    let mut config = Config::default();
    config.repo.push(repo_entry("dandavison/delta", None));
    config.repo.push(repo_entry("sharkdp/fd", None));

    let out = render(&config, &Lock::default(), &layout());
    let keys = declared_tool_keys(&out);

    assert_eq!(keys.len(), 2);
    assert!(keys.contains("delta"));
    assert!(keys.contains("fd"));
}

/// A plugin never enters `RIG_CMD` — without this, `sync`'s diff report
/// would call every plugin newly "added" on every single run.
#[test]
fn declared_tool_keys_also_round_trips_plugin_markers() {
    let mut config = Config::default();
    config.repo.push(repo_entry("dandavison/delta", None));
    config.plugin.push(PluginEntry {
        name: "zsh-users/zsh-autosuggestions".to_string(),
        description: None,
        source: Some("zsh-autosuggestions.zsh".to_string()),
        run: None,
    });

    let out = render(&config, &Lock::default(), &layout());
    let keys = declared_tool_keys(&out);

    assert_eq!(keys.len(), 2);
    assert!(keys.contains("delta"));
    assert!(keys.contains("zsh-autosuggestions"));
}

#[test]
fn cached_eval_is_inlined_and_live_eval_is_not() {
    let mut config = Config::default();
    config.repo.push(repo_entry(
        "ajeetdsouza/zoxide",
        Some(EvalSpec::Cmd("zoxide init zsh".to_string())),
    ));
    config.repo.push(repo_entry(
        "jdx/mise",
        Some(EvalSpec::Cmd("mise activate zsh".to_string())),
    ));

    let mut lock = Lock::default();
    lock.tool.insert(
        "zoxide".to_string(),
        tool_lock_with_eval(Some(true), Some("_zoxide_hook() { :; }".to_string())),
    );
    lock.tool
        .insert("mise".to_string(), tool_lock_with_eval(Some(false), None));

    let out = render(&config, &lock, &layout());

    assert!(out.contains("# cached: zoxide init zsh"));
    assert!(out.contains("_zoxide_hook"));
    assert!(out.contains("eval \"$(mise activate zsh)\""));
}

fn tool_lock_with_eval(cacheable: Option<bool>, cached_output: Option<String>) -> ToolLock {
    ToolLock {
        version: "0.0.0".to_string(),
        source: "github:test/test".to_string(),
        installed_at: Timestamp::epoch(),
        bins: vec![],
        completions: vec![],
        asset: None,
        size: None,
        pkg: None,
        manager: None,
        root: None,
        eval_cacheable: cacheable,
        eval_cached_output: cached_output,
        eval_evidence: vec![],
    }
}

#[test]
fn plugin_source_and_run_are_emitted() {
    let mut config = Config::default();
    config.plugin.push(PluginEntry {
        name: "zsh-users/zsh-autosuggestions".to_string(),
        description: None,
        source: Some("zsh-autosuggestions.zsh".to_string()),
        run: Some(RunSpec::Single("_zsh_autosuggest_start".to_string())),
    });

    let out = render(&config, &Lock::default(), &layout());

    assert!(out.contains(
        "/home/kaige/.local/share/rig/plugins/zsh-autosuggestions/zsh-autosuggestions.zsh"
    ));
    assert!(out.contains("_zsh_autosuggest_start"));
}

#[test]
fn escaped_text_has_no_bare_metacharacter() {
    assert_eq!(escape_dquoted(""), "");
    assert_eq!(escape_dquoted("a$`\"\\"), "a\\$\\`\\\"\\\\");
    assert_eq!(expand_tilde_export("~x"), "~x");
    assert_eq!(expand_tilde_export("a~/b"), "a~/b");
}

#[test]
fn identifiers_hold_only_what_zsh_takes() {
    assert_eq!(zsh_ident("delta"), "delta");
    assert_eq!(zsh_ident("@openai/codex"), "_openai_codex");
    assert_eq!(zsh_ident("a-b.c"), "a_b_c");
}

#[test]
fn commands_of_one_tool_count_once() {
    let mut config = Config::default();
    let mut entry = repo_entry("a/multi", None);
    entry.common.bin = Some(rig::config::BinSpec::Multiple(vec![
        "one".to_string(),
        "two".to_string(),
    ]));
    config.repo.push(entry);
    let out = render(&config, &Lock::default(), &layout());
    assert!(out.contains("one multi"));
    assert!(out.contains("two multi"));
    let keys = declared_tool_keys(&out);
    assert_eq!(keys.len(), 1);
    assert!(keys.contains("multi"));
}

#[test]
fn text_without_a_table_declares_nothing() {
    assert!(declared_tool_keys("").is_empty());
    assert!(declared_tool_keys("delta delta\n").is_empty());
    assert!(declared_tool_keys("# rig-plugin: p\n").contains("p"));
}

#[test]
fn an_installed_tool_without_a_verdict_is_evaluated_live() {
    let mut config = Config::default();
    config
        .repo
        .push(repo_entry("a/t", Some(EvalSpec::Cmd("t init".to_string()))));
    let out = render(&config, &Lock::default(), &layout());
    assert!(!out.contains("t init"));
    let mut lock = Lock::default();
    lock.tool
        .insert("t".to_string(), tool_lock_with_eval(None, None));
    let out = render(&config, &lock, &layout());
    assert!(out.contains("eval \"$(t init)\""));
}

#[test]
fn a_kept_run_is_inlined_and_a_failed_or_unwanted_one_stays_live() {
    let line = |plan: EvalPlan, reply: EvalReply| {
        let state = resolve_eval_cache(plan, reply);
        let mut config = Config::default();
        config
            .repo
            .push(repo_entry("a/t", Some(EvalSpec::Cmd("t init".to_string()))));
        let mut lock = Lock::default();
        lock.tool.insert(
            "t".to_string(),
            tool_lock_with_eval(state.cacheable, state.output),
        );
        render(&config, &lock, &layout())
    };
    let live = "eval \"$(t init)\"\n";
    let kept = line(
        EvalPlan::Capture,
        EvalReply::Captured(Some("alias t=1".to_string())),
    );
    assert!(kept.contains("# cached: t init (evidence: none — probed clean)\nalias t=1\n"));
    assert!(!kept.contains(live));
    for (plan, reply) in [
        (EvalPlan::Capture, EvalReply::Captured(None)),
        (EvalPlan::Live, EvalReply::Nothing),
        (EvalPlan::Probe, EvalReply::Probed(None)),
    ] {
        let out = line(plan, reply);
        assert!(out.contains(live));
        assert!(!out.contains("# cached: t init"));
    }
}
