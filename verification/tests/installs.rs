use rig::config::test_common;
use rig::config::tool_key;
use rig::config::AptEntry;
use rig::config::BinSpec;
use rig::config::BpickSpec;
use rig::config::CargoEntry;
use rig::config::Common;
use rig::config::CurlEntry;
use rig::config::GitEntry;
use rig::config::Host;
use rig::config::NodeEntry;
use rig::config::NodeManager;
use rig::config::PluginEntry;
use rig::config::RepoEntry;
use rig::config::SetupSpec;
use rig::failure::Failure;
use rig::lock::Lock;
use rig::paths::Layout;
use rig::sources::apt;
use rig::sources::cargo;
use rig::sources::collect::check_conflict;
use rig::sources::collect::settle_overwrite;
use rig::sources::collect::CollectedArtifacts;
use rig::sources::collect::Conflict;
use rig::sources::collect::Link;
use rig::sources::collect::TargetState;
use rig::sources::curl;
use rig::sources::curl::pinned_path;
use rig::sources::git;
use rig::sources::git::clone_url;
use rig::sources::glob::glob_match;
use rig::sources::node;
use rig::sources::node::ResolvedManager;
use rig::sources::plan::advance;
use rig::sources::plan::Planned;
use rig::sources::plan::Progress;
use rig::sources::plan::Step;
use rig::sources::plugin;
use rig::sources::repo;
use rig::sources::EvalState;
use rig::sources::Phase;
use rig::stamp::Timestamp;
use rig::table::NameSet;
use rig::table::Table;
use rig::version::github::Asset;
use rig::version::github::Release;
use rig::version::npm::NpmInfo;

fn layout() -> Layout {
    Layout::new("/h", "~/.local")
}

fn no_eval() -> EvalState {
    EvalState {
        cacheable: None,
        output: None,
        evidence: vec![],
    }
}

fn position(plan: &[Planned], wanted: fn(&Step) -> bool) -> usize {
    plan.iter()
        .position(|p| wanted(&p.step))
        .expect("the step is planned")
}

#[test]
fn tool_key_takes_the_last_path_segment() {
    assert_eq!(tool_key("dandavison/delta"), "delta");
    assert_eq!(tool_key("delta"), "delta");
}

#[test]
fn clone_url_dispatches_by_host() {
    assert_eq!(
        clone_url(Host::Github, "dandavison/delta"),
        "https://github.com/dandavison/delta.git"
    );
    assert_eq!(
        clone_url(Host::Codeberg, "explosion-mental/wallust"),
        "https://codeberg.org/explosion-mental/wallust.git"
    );
}

#[test]
fn manager_round_trips_through_its_recorded_name() {
    assert!(matches!(
        ResolvedManager::parse(ResolvedManager::Bun.binary_name()),
        Ok(ResolvedManager::Bun)
    ));
    assert!(matches!(
        ResolvedManager::parse(ResolvedManager::Npm.binary_name()),
        Ok(ResolvedManager::Npm)
    ));
    assert!(ResolvedManager::parse("yarn").is_err());
}

#[test]
fn pinned_path_prepends_prefix_bin_dir() {
    assert_eq!(
        pinned_path("/opt/tools/bin", Some("/usr/bin:/bin")),
        "/opt/tools/bin:/usr/bin:/bin"
    );
    assert_eq!(pinned_path("/opt/tools/bin", None), "/opt/tools/bin");
}

fn cowsay_entry() -> NodeEntry {
    NodeEntry {
        name: "cowsay".to_string(),
        manager: NodeManager::Bun,
        common: test_common(),
    }
}

#[test]
fn install_via_bun_refuses_an_untracked_conflicting_bin() {
    let layout = Layout::new("/t/home", "~/.local");
    let place = node::bun_place(&cowsay_entry(), &layout).expect("the prefix has a parent");
    let targets = node::bin_targets(&place.bin_dir, &vec!["cowsay".to_string()]);
    assert_eq!(targets, vec!["/t/home/.local/bin/cowsay".to_string()]);
    let conflict = check_conflict(&targets[0], "cowsay", &Lock::default(), TargetState::File);
    assert!(matches!(conflict, Conflict::Ask));
    let err = settle_overwrite(&targets[0], false)
        .expect_err("a foreign file already at the target path must block the install");
    assert!(err.message().contains("cowsay"));
}

#[test]
fn a_manager_is_chosen_as_configured() {
    let pick = |m, bun, npm| node::detect_manager(m, bun, npm).ok();
    assert_eq!(
        pick(NodeManager::Auto, true, true),
        Some(ResolvedManager::Bun)
    );
    assert_eq!(
        pick(NodeManager::Auto, false, true),
        Some(ResolvedManager::Npm)
    );
    assert_eq!(pick(NodeManager::Auto, false, false), None);
    assert_eq!(pick(NodeManager::Bun, false, true), None);
    assert_eq!(
        pick(NodeManager::Npm, true, true),
        Some(ResolvedManager::Npm)
    );
    assert_eq!(pick(NodeManager::Npm, true, false), None);
}

#[test]
fn the_commands_of_a_package() {
    let mut bin = Table::new();
    bin.insert("codex".to_string(), "x.js".to_string());
    let listed = NpmInfo {
        version: "1".to_string(),
        bin,
    };
    let bare = NpmInfo {
        version: "1".to_string(),
        bin: Table::new(),
    };
    let mut entry = cowsay_entry();
    entry.name = "@a/say".to_string();
    assert_eq!(node::declared_bin_names(&entry, &listed), vec!["codex".to_string()]);
    assert_eq!(node::declared_bin_names(&entry, &bare), vec!["say".to_string()]);
    entry.common.bin = Some(BinSpec::Single("moo".to_string()));
    assert_eq!(node::declared_bin_names(&entry, &listed), vec!["moo".to_string()]);
}

#[test]
fn a_package_goes_where_its_manager_puts_it() {
    let entry = cowsay_entry();
    let npm = node::npm_place(&entry, true, "/usr/local\n").expect("a prefix");
    assert_eq!(npm.bin_dir, "/usr/local/bin");
    assert_eq!(npm.root, "/usr/local/lib/node_modules/cowsay");
    assert!(node::npm_place(&entry, false, "").is_err());
    let bun = node::bun_place(&entry, &layout()).expect("a prefix");
    assert_eq!(bun.root, "/h/.local/install/global/node_modules/cowsay");
    let plan = node::install_with_manager(
        &entry,
        &layout(),
        "/h",
        "1.0",
        ResolvedManager::Bun,
        &bun,
        Phase::Install,
    );
    let Step::Run { program, args, env, .. } = &plan[0].step else {
        panic!("the manager runs first");
    };
    assert_eq!(program, "bun");
    assert_eq!(args[2], "cowsay@1.0");
    assert_eq!(env[0], ("BUN_INSTALL".to_string(), "/h/.local".to_string()));

    let names = vec!["cowsay".to_string(), "cowthink".to_string()];
    let mut existing = NameSet::new();
    existing.insert("/b/cowsay".to_string());
    let err = node::expect_bins(&entry, ResolvedManager::Npm, "/b", &names, &existing)
        .expect_err("one is missing");
    assert_eq!(
        err.message(),
        "expected /b/cowthink to exist after installing cowsay via npm, but it doesn't"
    );
    existing.insert("/b/cowthink".to_string());
    assert_eq!(
        node::expect_bins(&entry, ResolvedManager::Npm, "/b", &names, &existing).expect("all there"),
        vec!["/b/cowsay".to_string(), "/b/cowthink".to_string()]
    );
    let record = node::lock_entry(
        &entry,
        &layout(),
        "1.0".to_string(),
        ResolvedManager::Npm,
        "/r".to_string(),
        vec!["/b/cowsay".to_string()],
        &vec![],
        Timestamp::epoch(),
        no_eval(),
    );
    assert_eq!(record.source, "node:cowsay");
    assert_eq!(record.manager.as_deref(), Some("npm"));
    assert_eq!(record.root.as_deref(), Some("/r"));
}

fn delta_entry(bpick: Option<BpickSpec>) -> RepoEntry {
    RepoEntry {
        name: "dandavison/delta".to_string(),
        host: Host::Github,
        bpick,
        extract: None,
        common: Common {
            setup: Some(SetupSpec::Single("make".to_string())),
            ..test_common()
        },
    }
}

fn asset(name: &str) -> Asset {
    Asset {
        name: name.to_string(),
        url: format!("http://h/{name}"),
        size: 9,
        digest: Some("sha256:0".to_string()),
    }
}

#[test]
fn a_release_is_staged_before_it_is_put_in_place() {
    let plan = repo::install(
        &delta_entry(None),
        &layout(),
        "0.18.2",
        &asset("delta.tar.gz"),
        Phase::Install,
    );
    assert!(
        matches!(&plan[0].step, Step::Download { url, dest, size: 9, .. }
            if url == "http://h/delta.tar.gz" && dest.ends_with("/delta.tar.gz"))
    );
    let extract = position(&plan, |s| matches!(s, Step::Extract { .. }));
    let hook = position(&plan, |s| matches!(s, Step::Hook { .. }));
    let bins = position(&plan, |s| matches!(s, Step::CollectBins { .. }));
    let swap = position(&plan, |s| matches!(s, Step::Finalize { .. }));
    assert!(extract < hook && hook < bins && bins < swap);
    let Step::Finalize { partial, final_dir } = &plan[swap].step else {
        unreachable!();
    };
    assert_eq!(partial, "/h/.local/share/rig/pkg/delta/0.18.2.partial");
    assert_eq!(final_dir, "/h/.local/share/rig/pkg/delta/0.18.2");
    for planned in &plan[..swap] {
        if let Step::RemoveTree(p) = &planned.step {
            assert_eq!(p, partial);
        }
    }
}

#[test]
fn a_build_of_the_program_itself_is_checked_before_it_is_linked() {
    let own = RepoEntry {
        name: "gitduk/rig".to_string(),
        ..delta_entry(None)
    };
    let plan = repo::install(&own, &layout(), "v0.11.0", &asset("rig.tar.gz"), Phase::Update);
    let hook = position(&plan, |s| matches!(s, Step::Hook { .. }));
    let smoke = position(&plan, |s| matches!(s, Step::SmokeTest { .. }));
    let bins = position(&plan, |s| matches!(s, Step::CollectBins { .. }));
    assert!(hook < smoke && smoke < bins);
    assert!(matches!(&plan[smoke].step, Step::SmokeTest { search_dir }
        if search_dir == "/h/.local/share/rig/pkg/rig/v0.11.0.partial"));
    let broken = Err(Failure::new("broken".to_string()));
    assert!(matches!(advance(&plan, smoke, broken), Progress::Stopped(_)));

    let other = repo::install(
        &delta_entry(None),
        &layout(),
        "0.18.2",
        &asset("delta.tar.gz"),
        Phase::Update,
    );
    assert!(!other.iter().any(|p| matches!(p.step, Step::SmokeTest { .. })));
}

#[test]
fn a_file_of_a_release_is_chosen_or_the_reason_is_told() {
    let release = Release {
        tag: "1.2.3".to_string(),
        assets: vec![
            asset("delta-1.2.3-x86_64-linux.tar.gz"),
            asset("delta-1.2.3-aarch64-linux.tar.gz"),
        ],
    };
    let entry = delta_entry(None);
    let picked = repo::choose_asset(&entry, "/h/.rig.toml", None, &release, "x86_64", "linux")
        .expect("one fits");
    assert_eq!(picked.name, "delta-1.2.3-x86_64-linux.tar.gz");

    let wrong = delta_entry(Some(BpickSpec::Single("*.deb".to_string())));
    let file = "[[repo]]\nname = \"dandavison/delta\"\nbpick = \"*.deb\"\n";
    let err = repo::choose_asset(
        &wrong,
        "/h/.rig.toml",
        Some(file),
        &release,
        "x86_64",
        "linux",
    )
    .expect_err("nothing fits");
    let text = err.full();
    assert!(text.contains("- bpick = \"*.deb\""), "{text}");
    assert!(
        text.contains("+ bpick = \"delta-*-x86_64-linux.tar.gz\""),
        "{text}"
    );

    let both = delta_entry(Some(BpickSpec::Single("*".to_string())));
    let err = repo::choose_asset(&both, "/h/.rig.toml", None, &release, "x86_64", "linux")
        .expect_err("two fit");
    assert!(err.full().contains("aarch64"), "{}", err.full());
}

#[test]
fn a_suggested_pattern_leaves_the_version_open() {
    let tar = asset("foo-15.2.0-linux.tar.gz");
    let text = asset("notes-15.2.0.txt");
    assert_eq!(
        repo::suggest_bpick(&vec![&text, &tar], "15.2.0").as_deref(),
        Some("foo-*-linux.tar.gz")
    );
    assert!(glob_match("foo-*-linux.tar.gz", "foo-15.2.0-linux.tar.gz"));
    assert!(glob_match("foo-*-linux.tar.gz", "foo-16.0.0-linux.tar.gz"));
    assert_eq!(repo::suggest_bpick(&vec![&text], "15.2.0"), None);
    assert_eq!(repo::suggest_bpick(&vec![&tar], "16"), None);
}

#[test]
fn records_of_each_source_type() {
    let at = Timestamp::epoch();
    let link = |s: &str, t: &str| Link {
        source: s.to_string(),
        target: t.to_string(),
    };
    let artifacts = || CollectedArtifacts {
        bins: vec![link("/p/delta", "/b/delta")],
        completions: vec![link("/p/_delta", "/c/_delta")],
    };
    let record = repo::lock_entry(
        &delta_entry(None),
        &layout(),
        "v1".to_string(),
        &asset("a.zip"),
        artifacts(),
        at,
        no_eval(),
    );
    assert_eq!(record.version, "v1");
    assert_eq!(record.source, "github:dandavison/delta");
    assert_eq!(record.bins, vec!["/b/delta".to_string()]);
    assert_eq!(record.completions, vec!["/c/_delta".to_string()]);
    assert_eq!(record.asset.as_deref(), Some("a.zip"));
    assert_eq!(record.size, Some(9));
    assert_eq!(record.pkg.as_deref(), Some("/h/.local/share/rig/pkg/delta/v1"));

    let git_entry = GitEntry {
        name: "a/b".to_string(),
        host: Host::Codeberg,
        common: test_common(),
    };
    let record = git::lock_entry(
        &git_entry,
        &layout(),
        "c0ffee".to_string(),
        artifacts(),
        at,
        no_eval(),
    );
    assert_eq!(record.version, "c0ffee");
    assert!(record.source.contains("a/b"));

    let cargo_entry = CargoEntry {
        name: "bat".to_string(),
        common: test_common(),
    };
    let record = cargo::lock_entry(
        &cargo_entry,
        &layout(),
        "1".to_string(),
        artifacts(),
        at,
        no_eval(),
    );
    assert_eq!(record.source, "cargo:bat");

    let apt_entry = AptEntry {
        name: "bat".to_string(),
        common: test_common(),
    };
    let record = apt::lock_entry(
        &apt_entry,
        &layout(),
        "1".to_string(),
        vec!["/usr/bin/bat".to_string()],
        &vec![],
        at,
        no_eval(),
    );
    assert_eq!(record.source, "apt:bat");

    let curl_entry = CurlEntry {
        name: "x/omz".to_string(),
        url: "http://h/i.sh".to_string(),
        common: test_common(),
    };
    let record = curl::lock_entry(
        &curl_entry,
        &layout(),
        vec![],
        &vec![],
        at,
        no_eval(),
    );
    assert_eq!(record.version, rig::version::UNVERSIONED);
}

#[test]
fn a_clone_is_built_before_it_is_placed() {
    let entry = GitEntry {
        name: "a/b".to_string(),
        host: Host::Codeberg,
        common: Common {
            setup: Some(SetupSpec::Multiple(vec!["one".to_string(), "two".to_string()])),
            ..test_common()
        },
    };
    let build = git::build(&entry, &layout(), "/h", Phase::Update);
    assert!(matches!(&build[0].step, Step::RemoveTree(p) if p.ends_with("/b/clone.partial")));
    assert!(matches!(&build[1].step, Step::Run { args, .. }
        if args[2] == "https://codeberg.org/a/b.git"));
    assert_eq!(build.len(), 4);
    let place = git::install(&entry, &layout(), "c0ffee");
    assert!(position(&place, |s| matches!(s, Step::CollectBins { .. }))
        < position(&place, |s| matches!(s, Step::Finalize { .. })));
    assert_eq!(
        git::remote_head_commit(Host::Github, "a/b", true, "c0ffee\tHEAD\n", "").expect("a commit"),
        "c0ffee"
    );
    assert!(git::remote_head_commit(Host::Github, "a/b", true, "", "").is_err());
    assert!(git::remote_head_commit(Host::Github, "a/b", false, "x", "fatal").is_err());
}

#[test]
fn a_crate_is_built_under_its_own_root() {
    let entry = CargoEntry {
        name: "ripgrep".to_string(),
        common: test_common(),
    };
    let plan = cargo::install(&entry, &layout(), "/h", "14.0.0", Phase::Install);
    let Step::Run { program, args, .. } = &plan[1].step else {
        panic!("cargo runs");
    };
    assert_eq!(program, "cargo");
    assert_eq!(args[2], "/h/.local/share/rig/pkg/ripgrep/14.0.0.partial");
    assert_eq!(args[4], "14.0.0");
    assert_eq!(args[5], "ripgrep");

    let entry = CargoEntry {
        name: "eza-community/eza".to_string(),
        common: test_common(),
    };
    let plan = cargo::install(&entry, &layout(), "/h", "1", Phase::Install);
    assert!(matches!(&plan[1].step, Step::Run { args, .. }
        if args.last().map(String::as_str) == Some("eza")));
}

#[test]
fn a_system_package_is_read_back_from_dpkg() {
    let entry = AptEntry {
        name: "bat".to_string(),
        common: test_common(),
    };
    let plan = apt::fetch(&entry, "/h");
    assert!(matches!(&plan[0].step, Step::Run { program, args, .. }
        if program == "sudo" && args.last().map(String::as_str) == Some("bat")));
    assert_eq!(
        apt::dpkg_version("bat", true, "0.24.0-1build1\n", "").expect("a version"),
        "0.24.0-1build1"
    );
    assert!(apt::dpkg_version("bat", false, "", "none").is_err());
    let plan = apt::install(&entry, &layout(), "1", Phase::Install);
    assert!(plan
        .iter()
        .any(|p| matches!(&p.step, Step::ResolveBins { preferred_dir: None, .. })));
}

#[test]
fn a_script_runs_with_the_prefix_first_on_its_path() {
    let mut common = test_common();
    common.env.insert("K".to_string(), "~/v".to_string());
    let entry = CurlEntry {
        name: "x/omz".to_string(),
        url: "http://h/i.sh".to_string(),
        common,
    };
    let plan = curl::install(&entry, &layout(), "/h", Some("/bin"), Phase::Install);
    let at = position(&plan, |s| matches!(s, Step::Run { .. }));
    let Step::Run { program, env, .. } = &plan[at].step else {
        unreachable!();
    };
    assert!(program.ends_with("/omz/install/install.sh"));
    assert_eq!(env[0], ("PATH".to_string(), "/h/.local/bin:/bin".to_string()));
    assert_eq!(env[1], ("K".to_string(), "/h/v".to_string()));
}

#[test]
fn a_plugin_is_cloned_once() {
    let entry = PluginEntry {
        name: "zsh-users/zsh-autosuggestions".to_string(),
        description: None,
        source: None,
        run: None,
    };
    assert_eq!(
        plugin::clone_dest(&entry, &layout()),
        "/h/.local/share/rig/plugins/zsh-autosuggestions"
    );
    assert!(plugin::install(&entry, &layout(), true).is_err());
    let plan = plugin::install(&entry, &layout(), false).expect("planned");
    assert!(matches!(&plan[0].step, Step::Run { args, .. }
        if args[2] == "https://github.com/zsh-users/zsh-autosuggestions.git"));
    let plan = plugin::update(&entry, &layout());
    assert!(matches!(&plan[0].step, Step::Run { args, dir: Some(_), .. } if args[0] == "pull"));
    let record = plugin::read_installed(&entry, &layout(), "c0ffee".to_string(), Timestamp::epoch());
    assert_eq!(record.source, "plugin:zsh-users/zsh-autosuggestions");
    assert_eq!(record.version, "c0ffee");
}

#[test]
fn what_is_said_when_an_install_begins() {
    assert_eq!(
        repo::announcement(&delta_entry(None)),
        "installing dandavison/delta via github release"
    );
}
