use rig::lock::test_tool_lock;
use rig::lock::Lock;
use rig::paths::Layout;
use rig::self_update::check_platform;
use rig::self_update::finish;
use rig::self_update::installed_version;
use rig::self_update::is_current;
use rig::self_update::local_version;
use rig::self_update::parse_version;
use rig::self_update::pick_asset;
use rig::self_update::update_self;
use rig::self_update::version_tuple;
use rig::self_update::SelfPlan;
use rig::self_update::SelfStep;
use rig::self_update::BOOTSTRAP_ASSET;
use rig::self_update::SELF_ASSET;
use rig::self_update::VERSION;
use rig::update::Outcome;
use rig::version::github::Asset;
use rig::version::github::Release;

fn release_with(assets: &[&str]) -> Release {
    Release {
        tag: "v9.9.9".to_string(),
        assets: assets
            .iter()
            .map(|n| Asset {
                name: n.to_string(),
                url: format!("https://example.com/{n}"),
                size: 1,
                digest: None,
            })
            .collect(),
    }
}

#[test]
fn local_version_is_v_prefixed() {
    assert_eq!(local_version(), format!("v{}", VERSION));
}

#[test]
fn installed_version_parses_rig_output() {
    assert_eq!(parse_version("rig 0.10.0\n"), Some("v0.10.0".to_string()));
    assert_eq!(parse_version("rig v0.9.0\n"), Some("v0.9.0".to_string()));
    assert_eq!(parse_version(""), None);
}

#[test]
fn version_tuple_compares_numerically() {
    assert!(version_tuple("v0.10.0") > version_tuple("v0.9.0"));
    assert!(version_tuple("v0.9.0") == version_tuple("0.9.0"));
    assert_eq!(version_tuple("v0.9.0"), version_tuple("v0.9.0"));
    // A malformed tag can't masquerade as a newer version.
    assert!(version_tuple("garbage") < version_tuple("v0.1.0"));
}

#[test]
fn pick_asset_finds_the_named_asset() {
    let release = release_with(&["rig.zsh", SELF_ASSET]);
    assert_eq!(
        pick_asset(&release, SELF_ASSET)
            .expect("asset should be found")
            .name,
        SELF_ASSET
    );
}

#[test]
fn pick_asset_lists_available_assets_on_miss() {
    let release = release_with(&["rig.zsh"]);
    let err = pick_asset(&release, SELF_ASSET).unwrap_err().message();
    assert!(err.contains(SELF_ASSET));
    assert!(err.contains("rig.zsh"));
}

#[test]
fn malformed_tags_are_never_newer() {
    for tag in ["", "v", "v1", "v1.2", "v1.2.3.4", "v9.x.9.9", "v9.9.9-rc1", "9.9.99999999999999999999"] {
        assert_eq!(version_tuple(tag), (0, 0, 0), "{tag}");
        assert!(is_current("v0.0.0", tag, false));
    }
    assert_eq!(version_tuple("v1.2.3"), (1, 2, 3));
}

#[test]
fn a_newer_build_is_kept_unless_forced() {
    assert!(is_current("v1.0.0", "v1.0.0", false));
    assert!(is_current("v1.0.1", "v1.0.0", false));
    assert!(!is_current("v0.9.9", "v1.0.0", false));
    assert!(!is_current("v1.0.1", "v1.0.0", true));
    assert_eq!(installed_version(Some("rig 0.3.0\n")), "v0.3.0");
    assert_eq!(installed_version(None), local_version());
    assert_eq!(installed_version(Some("")), local_version());
}

#[test]
fn nothing_goes_live_before_both_downloads() {
    let layout = Layout::new("/h", "~/.local");
    let release = release_with(&[BOOTSTRAP_ASSET, SELF_ASSET]);
    let plan = update_self(false, "v0.1.0".to_string(), &release, &layout).expect("planned");
    let SelfPlan::Replace { from, steps } = plan else {
        panic!("an old build is replaced");
    };
    assert_eq!(from, "v0.1.0");
    let last_download = steps
        .iter()
        .rposition(|s| matches!(s, SelfStep::Download { .. }))
        .unwrap();
    let live = steps
        .iter()
        .position(|s| matches!(s, SelfStep::Rename(_, q) if q == "/h/.local/bin/rig"))
        .unwrap();
    assert!(last_download < live);
    assert!(matches!(
        update_self(false, "v9.9.9".to_string(), &release, &layout),
        Ok(SelfPlan::UpToDate { .. })
    ));
    let lacking = release_with(&[SELF_ASSET]);
    assert!(update_self(false, "v0.1.0".to_string(), &lacking, &layout).is_err());
    assert!(update_self(false, "v9.9.9".to_string(), &lacking, &layout).is_ok());
}

#[test]
fn only_the_published_platform_is_updated() {
    assert!(check_platform("linux", "x86_64").is_ok());
    assert!(check_platform("linux", "aarch64").is_err());
    assert!(check_platform("macos", "x86_64").is_err());
}

#[test]
fn an_old_record_of_the_tool_itself_is_retired() {
    let mut lock = Lock::default();
    lock.tool.insert("rig".to_string(), test_tool_lock());
    lock.tool.insert("delta".to_string(), test_tool_lock());
    let outcome = finish(&mut lock, "v1".to_string(), "v2".to_string());
    assert!(matches!(outcome, Outcome::Updated { from, to } if from == "v1" && to == "v2"));
    assert!(!lock.tool.contains_key("rig"));
    assert!(lock.tool.contains_key("delta"));
}
