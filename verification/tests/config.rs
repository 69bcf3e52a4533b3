use rig::config::default_host;
use rig::config::render_entry_diff;
use rig::config::resolve_tool;
use rig::config::tool_key;
use rig::config::AptEntry;
use rig::config::BinSpec;
use rig::config::BpickSpec;
use rig::config::CompletionsSpec;
use rig::config::Config;
use rig::config::EvalSpec;
use rig::config::Host;
use rig::config::NodeManager;
use rig::config::ResolvedEntry;
use rig::config::RunSpec;
use rig::config::SetupSpec;
use rig::config_file;
use rig::failure::Failure;
use rig::table::Table;
use rig::tree::Tree;

fn tree_of(value: toml::Value) -> Tree {
    match value {
        toml::Value::String(s) => Tree::Text(s),
        toml::Value::Integer(n) => Tree::Integer(n as i128),
        toml::Value::Boolean(b) => Tree::Bool(b),
        toml::Value::Array(items) => Tree::List(items.into_iter().map(tree_of).collect()),
        toml::Value::Table(fields) => {
            let mut table = Table::new();
            for (key, value) in fields {
                table.insert(key, tree_of(value));
            }
            Tree::Branch(table)
        }
        _ => Tree::Other,
    }
}

fn parse(input: &str) -> Result<Config, Failure> {
    let table: toml::Table = toml::from_str(input).expect("valid TOML");
    config_file::parse(&tree_of(toml::Value::Table(table)))
}

fn error_of(input: &str) -> String {
    parse(input).expect_err("must be refused").full()
}

const SAMPLE: &str = r#"
[settings]
prefix = "~/.local"
parallel = 4

[[repo]]
name = "dandavison/delta"
bpick = ["*.tar.gz"]
bin = { "delta" = "delta" }
completions = true

[[git]]
name = "explosion-mental/wallust"
host = "codeberg"
setup = "cargo +nightly build --release"
bin = { "target/release/wallust" = "wallust" }

[[node]]
name = "@openai/codex"
manager = "bun"

[[plugin]]
name = "zsh-users/zsh-autosuggestions"
source = "zsh-autosuggestions.zsh"
run = "_zsh_autosuggest_start"
"#;

#[test]
fn parses_full_example() {
    let cfg = parse(SAMPLE).expect("sample config should parse");

    assert_eq!(cfg.settings.parallel, 4);

    assert_eq!(cfg.repo.len(), 1);
    assert_eq!(cfg.repo[0].host, Host::Github); // defaulted, not in TOML
    assert!(matches!(
        cfg.repo[0].common.completions,
        CompletionsSpec::Enabled(true)
    ));
    assert!(
        matches!(&cfg.repo[0].common.bin, Some(BinSpec::Mapped(m)) if m.get("delta") == Some(&"delta".to_string()))
    );

    assert_eq!(cfg.git[0].host, Host::Codeberg);
    assert!(
        matches!(&cfg.git[0].common.setup, Some(SetupSpec::Single(s)) if s.starts_with("cargo"))
    );

    assert_eq!(cfg.node[0].manager, NodeManager::Bun);

    assert!(
        matches!(&cfg.plugin[0].run, Some(RunSpec::Single(s)) if s == "_zsh_autosuggest_start")
    );
    assert_eq!(
        cfg.plugin[0].source.as_deref(),
        Some("zsh-autosuggestions.zsh")
    );
}

#[test]
fn resolve_tool_matches_key_name_or_declared_bin() {
    let cfg = parse(
        r#"
[[repo]]
name = "BurntSushi/ripgrep"
bin = "rg"
"#,
    )
    .expect("sample config should parse");

    assert_eq!(resolve_tool(&cfg, "ripgrep").unwrap().key(), "ripgrep");
    assert_eq!(
        resolve_tool(&cfg, "BurntSushi/ripgrep").unwrap().key(),
        "ripgrep"
    );
    assert_eq!(resolve_tool(&cfg, "rg").unwrap().key(), "ripgrep");
    assert!(resolve_tool(&cfg, "not-configured").is_none());
}

#[test]
fn settings_default_when_omitted() {
    let cfg = parse("").expect("empty config should parse with defaults");
    assert_eq!(cfg.settings.prefix, "~/.local");
    assert_eq!(cfg.settings.parallel, 8);
}

#[test]
fn run_field_parses_single_and_multiple_forms() {
    let cfg = parse(
        r#"
[[curl]]
name = "casey/just"
url = "https://just.systems/install.sh"
run = 'alias js="just"'

[[curl]]
name = "foo/bar"
url = "https://example.com/install.sh"
run = ["alias a=\"b\"", "alias c=\"d\""]
"#,
    )
    .expect("should parse both run shapes");

    assert_eq!(
        cfg.curl[0].common.run.as_ref().unwrap().lines(),
        vec![r#"alias js="just""#]
    );
    assert_eq!(
        cfg.curl[1].common.run.as_ref().unwrap().lines(),
        vec![r#"alias a="b""#, r#"alias c="d""#]
    );
}

#[test]
fn run_field_parses_a_triple_quoted_block_into_separate_lines() {
    let cfg = parse(
        "
[[curl]]
name = \"casey/just\"
url = \"https://just.systems/install.sh\"
run = '''
alias a=\"b\"

alias c=\"d\"
'''
",
    )
    .expect("should parse a triple-quoted run block");

    assert_eq!(
        cfg.curl[0].common.run.as_ref().unwrap().lines(),
        vec![r#"alias a="b""#, r#"alias c="d""#]
    );
}

#[test]
fn run_field_accepts_all_three_empty_shapes() {
    let cfg = parse(
        r#"
[[curl]]
name = "a/a"
url = "https://example.com"
run = ""

[[curl]]
name = "b/b"
url = "https://example.com"
run = []

[[curl]]
name = "c/c"
url = "https://example.com"
run = ''''''
"#,
    )
    .expect("all three empty run shapes should parse");

    for entry in &cfg.curl {
        assert_eq!(
            entry.common.run.as_ref().unwrap().lines(),
            Vec::<&str>::new()
        );
    }
}

#[test]
fn run_field_parses_a_basic_multiline_block_with_escapes() {
    let cfg = parse(
        "
[[curl]]
name = \"casey/just\"
url = \"https://just.systems/install.sh\"
run = \"\"\"
alias js=\\\"just\\\"
alias jl=\\\"just --list\\\"
\"\"\"
",
    )
    .expect("should parse a basic (double-quoted) multiline run block");

    assert_eq!(
        cfg.curl[0].common.run.as_ref().unwrap().lines(),
        vec![r#"alias js="just""#, r#"alias jl="just --list""#]
    );
}

#[test]
fn every_shape_of_every_field_is_read() {
    let cfg = parse(
        r#"
unknown = 1

[settings]
parallel = 4294967295
unknown = true

[[repo]]
name = "a/b"
host = "github"
bpick = "*.zip"
extract = false
description = "a thing"
bin = ["x", "y"]
env = { B = "2", A = "~/1" }
eval = { cmd = "x init", cache = false }
completions = { generate = "x gen" }
setup = { install = "i", update = "u" }
lazy = true
bind = "^r:w"
unknown = [1.5]

[[cargo]]
name = "c"
completions = { path = "p/_c" }
setup = ["one", "two"]
eval = { cmd = "c init" }

[[apt]]
name = "d"
completions = false

[[node]]
name = "e"

[[git]]
name = "f"
completions = { generate = 1, path = "q" }
eval = "f init"
"#,
    )
    .expect("should parse");

    assert_eq!(cfg.settings.prefix, "~/.local");
    assert_eq!(cfg.settings.parallel, 4294967295);
    let repo = &cfg.repo[0];
    assert!(matches!(&repo.bpick, Some(BpickSpec::Single(s)) if s == "*.zip"));
    assert_eq!(repo.extract, Some(false));
    assert_eq!(repo.common.description.as_deref(), Some("a thing"));
    assert!(matches!(&repo.common.bin, Some(BinSpec::Multiple(v)) if v[..] == ["x", "y"]));
    assert_eq!(repo.common.env.len(), 2);
    assert_eq!(repo.common.env.key(0), "A");
    assert_eq!(repo.common.env.get("A").map(String::as_str), Some("~/1"));
    assert_eq!(repo.common.env.get("B").map(String::as_str), Some("2"));
    let eval = repo.common.eval.as_ref().unwrap();
    assert_eq!(eval.command(), "x init");
    assert_eq!(eval.cache_override(), Some(false));
    assert!(
        matches!(&repo.common.completions, CompletionsSpec::Generate { generate } if generate == "x gen")
    );
    assert!(
        matches!(&repo.common.setup, Some(SetupSpec::Split { install, update }) if install == "i" && update == "u")
    );
    assert!(repo.common.lazy);
    assert_eq!(repo.common.bind.as_deref(), Some("^r:w"));

    let cargo = &cfg.cargo[0];
    assert!(
        matches!(&cargo.common.completions, CompletionsSpec::Path { path } if path == "p/_c")
    );
    assert!(matches!(&cargo.common.setup, Some(SetupSpec::Multiple(v)) if v.len() == 2));
    assert!(
        matches!(&cargo.common.eval, Some(EvalSpec::Detailed { cmd, cache: None }) if cmd == "c init")
    );
    assert!(!cargo.common.lazy);

    assert!(matches!(
        cfg.apt[0].common.completions,
        CompletionsSpec::Enabled(false)
    ));
    assert_eq!(cfg.node[0].manager, NodeManager::Auto);
    assert!(
        matches!(&cfg.git[0].common.completions, CompletionsSpec::Path { path } if path == "q")
    );
    assert!(matches!(&cfg.git[0].common.eval, Some(EvalSpec::Cmd(s)) if s == "f init"));
}

#[test]
fn what_is_missing_or_wrong_is_named() {
    assert_eq!(
        error_of("[[repo]]\nname = \"a\"\n[[repo]]\nbin = \"x\"\n"),
        "failed to parse config.toml: in `repo` entry 2: missing field `name`"
    );
    assert_eq!(
        error_of("[[curl]]\nname = \"a\"\n"),
        "failed to parse config.toml: in `curl` entry 1: missing field `url`"
    );
    assert_eq!(
        error_of("[[git]]\nname = \"a\"\nhost = \"gitlab\"\n"),
        "failed to parse config.toml: in `git` entry 1: invalid `host`"
    );
    assert_eq!(
        error_of("[[node]]\nname = \"a\"\nmanager = \"yarn\"\n"),
        "failed to parse config.toml: in `node` entry 1: invalid `manager`"
    );
    assert_eq!(
        error_of("[settings]\nparallel = -1\n"),
        "failed to parse config.toml: invalid `parallel`"
    );
    assert_eq!(
        error_of("[settings]\nparallel = 4294967296\n"),
        "failed to parse config.toml: invalid `parallel`"
    );
    assert_eq!(
        error_of("settings = 1\n"),
        "failed to parse config.toml: invalid `settings`"
    );
    assert_eq!(
        error_of("repo = \"x\"\n"),
        "failed to parse config.toml: invalid `repo`"
    );
    assert_eq!(
        error_of("plugin = [1]\n"),
        "failed to parse config.toml: in `plugin` entry 1: invalid `plugin`"
    );
    let fields = [
        ("description", "1"),
        ("bin", "{ a = 1 }"),
        ("bin", "[1]"),
        ("env", "\"x\""),
        ("env", "{ a = true }"),
        ("eval", "{ cache = true }"),
        ("eval", "{ cmd = \"x\", cache = \"no\" }"),
        ("eval", "1"),
        ("run", "1"),
        ("run", "[1]"),
        ("completions", "\"yes\""),
        ("completions", "{}"),
        ("setup", "{ install = \"x\" }"),
        ("setup", "[1]"),
        ("lazy", "\"yes\""),
        ("bind", "1"),
    ];
    for (field, value) in fields {
        assert_eq!(
            error_of(&format!("[[apt]]\nname = \"a\"\n{field} = {value}\n")),
            format!("failed to parse config.toml: in `apt` entry 1: invalid `{field}`")
        );
    }
    assert_eq!(
        error_of("[[repo]]\nname = \"a\"\nbpick = 1\n"),
        "failed to parse config.toml: in `repo` entry 1: invalid `bpick`"
    );
    assert_eq!(
        error_of("[[repo]]\nname = \"a\"\nextract = 1\n"),
        "failed to parse config.toml: in `repo` entry 1: invalid `extract`"
    );
    assert_eq!(
        error_of("[[plugin]]\nname = \"a\"\nsource = 1\n"),
        "failed to parse config.toml: in `plugin` entry 1: invalid `source`"
    );
    assert_eq!(
        config_file::parse(&Tree::Other).expect_err("not a table").full(),
        "failed to parse config.toml: invalid `config.toml`"
    );
}

#[test]
fn the_first_entry_that_answers_is_taken() {
    let cfg = parse(
        "[[repo]]\nname = \"x/one\"\nbin = \"two\"\n[[cargo]]\nname = \"two\"\nbin = \"three\"\n",
    )
    .expect("should parse");
    assert_eq!(resolve_tool(&cfg, "two").unwrap().name(), "x/one");
    assert_eq!(resolve_tool(&cfg, "one").unwrap().name(), "x/one");
    assert_eq!(resolve_tool(&cfg, "three").unwrap().name(), "two");
    assert!(resolve_tool(&cfg, "").is_none());
    assert!(resolve_tool(&Config::default(), "one").is_none());
}

#[test]
fn entries_answer_whatever_type_they_are_of() {
    let entry = AptEntry {
        name: "bat".to_string(),
        common: rig::config::test_common(),
    };
    let resolved = ResolvedEntry::Apt(&entry);
    assert_eq!(resolved.name(), "bat");
    assert_eq!(resolved.key(), "bat");
    assert!(resolved.common().is_some());
    assert_eq!(resolved.command_names(), vec!["bat".to_string()]);
    assert!(resolved.description().is_none());
    let plugin = rig::config::PluginEntry {
        name: "zsh-users/zsh-autosuggestions".to_string(),
        description: Some("suggests".to_string()),
        source: None,
        run: None,
    };
    let resolved = ResolvedEntry::Plugin(&plugin);
    assert_eq!(resolved.key(), "zsh-autosuggestions");
    assert!(resolved.common().is_none());
    assert_eq!(resolved.description(), Some("suggests"));
    assert!(resolved.command_names().is_empty());
}

#[test]
fn declared_names_follow_the_shape_of_bin() {
    let mut map = Table::new();
    map.insert("z/*".to_string(), "one".to_string());
    map.insert("a/*".to_string(), "two".to_string());
    assert_eq!(
        BinSpec::declared_names(Some(&BinSpec::Mapped(map)), "d"),
        vec!["two".to_string(), "one".to_string()]
    );
    assert_eq!(BinSpec::declared_names(None, "d"), vec!["d".to_string()]);
    assert!(BinSpec::declared_names(Some(&BinSpec::Multiple(vec![])), "d").is_empty());
}

#[test]
fn tool_keys_of_unusual_names() {
    assert_eq!(tool_key(""), "");
    assert_eq!(tool_key("a/"), "");
    assert_eq!(tool_key("/a"), "a");
    assert_eq!(tool_key("@openai/codex"), "codex");
    assert_eq!(default_host(), Host::Github);
    assert_eq!(Host::Codeberg.prefix(), "codeberg");
}

const FILE: &str = "# top\n[[repo]]\n  name = \"a/b\"\nbpick = \"old\"\n\n[[repo]]\nname = \"c/d\"\nbin = \"d\"\n";

#[test]
fn an_entry_diff_replaces_a_field_that_is_there() {
    assert_eq!(
        render_entry_diff(FILE, "a/b", "bpick", Some("new")).as_deref(),
        Some("| [[repo]]\n| name = \"a/b\"\n- bpick = \"old\"\n+ bpick = \"new\"")
    );
    assert_eq!(
        render_entry_diff(FILE, "a/b", "bpick", None).as_deref(),
        Some("| [[repo]]\n| name = \"a/b\"\n- bpick = \"old\"")
    );
}

#[test]
fn an_entry_diff_adds_a_field_under_the_name() {
    assert_eq!(
        render_entry_diff(FILE, "c/d", "bpick", Some("*.gz")).as_deref(),
        Some("| [[repo]]\n| name = \"c/d\"\n+ bpick = \"*.gz\"\n| bin = \"d\"")
    );
}

#[test]
fn there_is_no_diff_for_an_entry_that_is_not_found() {
    assert!(render_entry_diff(FILE, "x/y", "bpick", None).is_none());
    assert!(render_entry_diff("name = \"a\"\n", "a", "bpick", None).is_none());
}

#[test]
fn settings_and_plugins_may_be_lists_of_their_fields() {
    let settings = |value: &str| {
        parse(&format!("settings = {value}\n"))
            .expect("should parse")
            .settings
    };
    let both = settings("[\"/opt\", 3]");
    assert_eq!((both.prefix.as_str(), both.parallel), ("/opt", 3));
    let one = settings("[\"/opt\"]");
    assert_eq!((one.prefix.as_str(), one.parallel), ("/opt", 8));
    let none = settings("[]");
    assert_eq!((none.prefix.as_str(), none.parallel), ("~/.local", 8));
    let more = settings("[\"/opt\", 3, true]");
    assert_eq!(more.parallel, 3);
    assert_eq!(
        error_of("settings = [3]\n"),
        "failed to parse config.toml: invalid `prefix`"
    );
    assert_eq!(
        error_of("settings = [\"/opt\", -1]\n"),
        "failed to parse config.toml: invalid `parallel`"
    );
    assert_eq!(
        error_of("settings = 1\n"),
        "failed to parse config.toml: invalid `settings`"
    );

    let cfg = parse("plugin = [[\"a/b\", \"text\", \"b.zsh\", [\"x\", \"y\"]]]\n")
        .expect("should parse");
    assert_eq!(cfg.plugin[0].name, "a/b");
    assert_eq!(cfg.plugin[0].description.as_deref(), Some("text"));
    assert_eq!(cfg.plugin[0].source.as_deref(), Some("b.zsh"));
    assert_eq!(
        cfg.plugin[0].run.as_ref().map(|run| run.lines().len()),
        Some(2)
    );
    assert_eq!(
        error_of("plugin = [[\"a/b\", \"text\", \"b.zsh\"]]\n"),
        "failed to parse config.toml: in `plugin` entry 1: invalid length 3"
    );
    assert_eq!(
        error_of("repo = [[\"a/b\"]]\n"),
        "failed to parse config.toml: in `repo` entry 1: invalid `repo`"
    );
}

#[test]
fn a_choice_may_be_the_only_key_of_a_table() {
    let host = |value: &str| {
        parse(&format!("[[git]]\nname = \"a/b\"\nhost = {value}\n")).map(|cfg| cfg.git[0].host)
    };
    assert!(matches!(host("{ codeberg = {} }"), Ok(Host::Codeberg)));
    assert!(matches!(host("{ codeberg = [] }"), Ok(Host::Codeberg)));
    assert!(matches!(host("{ github = {} }"), Ok(Host::Github)));
    for refused in [
        "{}",
        "{ codeberg = {}, github = {} }",
        "{ codeberg = { x = 1 } }",
        "{ codeberg = [1] }",
        "{ codeberg = true }",
        "{ gitlab = {} }",
        "[\"codeberg\"]",
    ] {
        assert_eq!(
            host(refused).expect_err("must be refused").full(),
            "failed to parse config.toml: in `git` entry 1: invalid `host`"
        );
    }
    let manager = |value: &str| {
        parse(&format!("[[node]]\nname = \"a\"\nmanager = {value}\n"))
            .map(|cfg| cfg.node[0].manager)
    };
    assert!(matches!(manager("{ bun = {} }"), Ok(NodeManager::Bun)));
    assert!(matches!(manager("{ npm = [] }"), Ok(NodeManager::Npm)));
    assert!(matches!(manager("{ auto = {} }"), Ok(NodeManager::Auto)));
    assert!(manager("{ yarn = {} }").is_err());
}
