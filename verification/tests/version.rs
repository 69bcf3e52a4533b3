use rig::config::Host;
use rig::table::Table;
use rig::tree::Tree;
use rig::version::crates_io;
use rig::version::display_version;
use rig::version::github;
use rig::version::npm;
use rig::version::npm::registry_path;
use rig::version::UNVERSIONED;

#[test]
fn display_version_unifies_tag_prefixes() {
    // The whole point: two repos, two tagging habits, one output shape.
    assert_eq!(display_version("v0.44.1"), "0.44.1");
    assert_eq!(display_version("0.18.2"), "0.18.2");
    assert_eq!(display_version("v2"), "2");
}

#[test]
fn display_version_leaves_non_semver_alone() {
    assert_eq!(display_version("0.24.0-1build1"), "0.24.0-1build1");
    assert_eq!(display_version(UNVERSIONED), UNVERSIONED);
    // `v` not followed by a digit is part of the name, not a prefix.
    assert_eq!(display_version("version-2"), "version-2");
    assert_eq!(display_version("valhalla"), "valhalla");
}

#[test]
fn display_version_shortens_only_a_full_sha() {
    let sha = "a1b2c3d4e5f60718293a4b5c6d7e8f9012345678";
    assert_eq!(sha.len(), 40);
    assert_eq!(display_version(sha), "a1b2c3d");
    // 39 hex chars is not a sha, and `deadbeef` words aren't either.
    assert_eq!(display_version(&sha[..39]), &sha[..39]);
    assert_eq!(display_version("deadbeef"), "deadbeef");
}

#[test]
fn display_version_survives_degenerate_input() {
    assert_eq!(display_version(""), "");
    assert_eq!(display_version("v"), "v");
}

#[test]
fn encodes_scoped_package_names() {
    assert_eq!(registry_path("@openai/codex"), "@openai%2fcodex");
}

#[test]
fn leaves_unscoped_package_names_alone() {
    assert_eq!(registry_path("navi"), "navi");
}

#[test]
fn unusual_package_names() {
    assert_eq!(registry_path("@scope"), "@scope");
    assert_eq!(registry_path("a/b"), "a/b");
    assert_eq!(registry_path("@a/b/c"), "@a%2fb/c");
    assert_eq!(registry_path(""), "");
}

#[test]
fn addresses_of_the_three_services() {
    assert_eq!(
        github::release_url("a/b", Host::Github),
        "https://api.github.com/repos/a/b/releases/latest"
    );
    assert_eq!(
        github::release_url("a/b", Host::Codeberg),
        "https://codeberg.org/api/v1/repos/a/b/releases/latest"
    );
    assert_eq!(
        crates_io::crate_url("serde"),
        "https://crates.io/api/v1/crates/serde"
    );
    assert_eq!(
        npm::package_url("@openai/codex"),
        "https://registry.npmjs.org/@openai%2fcodex/latest"
    );
}

fn tree_of(value: serde_json::Value) -> Tree {
    match value {
        serde_json::Value::String(s) => Tree::Text(s),
        serde_json::Value::Number(n) => match (n.as_u64(), n.as_i64()) {
            (Some(n), _) => Tree::Integer(n as i128),
            (_, Some(n)) => Tree::Integer(n as i128),
            _ => Tree::Other,
        },
        serde_json::Value::Bool(b) => Tree::Bool(b),
        serde_json::Value::Null => Tree::Null,
        serde_json::Value::Array(items) => Tree::List(items.into_iter().map(tree_of).collect()),
        serde_json::Value::Object(fields) => {
            let mut table = Table::new();
            for (key, value) in fields {
                table.insert(key, tree_of(value));
            }
            Tree::Branch(table)
        }
    }
}

fn json(text: &str) -> Tree {
    tree_of(serde_json::from_str(text).expect("valid JSON"))
}

#[test]
fn a_release_is_read_from_its_answer() {
    let reply = json(
        r#"{"tag_name": "v1", "draft": false, "assets": [
            {"name": "a", "browser_download_url": "http://a", "size": 18446744073709551615, "digest": "sha256:0"},
            {"name": "b", "browser_download_url": "http://b", "size": 0, "digest": null},
            {"name": "c", "browser_download_url": "http://c", "size": 1}
        ]}"#,
    );
    let release = github::latest_release(&reply, "http://x").expect("complete");
    assert_eq!(release.tag, "v1");
    assert_eq!(release.assets.len(), 3);
    assert_eq!(release.assets[0].url, "http://a");
    assert_eq!(release.assets[0].size, u64::MAX);
    assert_eq!(release.assets[0].digest.as_deref(), Some("sha256:0"));
    assert!(release.assets[1].digest.is_none());
    assert!(release.assets[2].digest.is_none());
}

#[test]
fn an_incomplete_answer_about_a_release_is_refused() {
    let error = |text: &str| {
        github::latest_release(&json(text), "http://x")
            .expect_err("incomplete")
            .full()
    };
    let front = "failed to parse release response from http://x: ";
    assert_eq!(error("{}"), format!("{front}missing field `tag_name`"));
    assert_eq!(
        error(r#"{"tag_name": "v1"}"#),
        format!("{front}missing field `assets`")
    );
    assert_eq!(
        error(r#"{"tag_name": "v1", "assets": 1}"#),
        format!("{front}invalid `assets`")
    );
    assert_eq!(
        error(r#"{"tag_name": "v1", "assets": [{"name": "a", "browser_download_url": "u"}]}"#),
        format!("{front}in `assets` entry 1: missing field `size`")
    );
    assert_eq!(
        error(
            r#"{"tag_name": "v1", "assets": [{"name": "a", "browser_download_url": "u", "size": -1}]}"#
        ),
        format!("{front}in `assets` entry 1: invalid `size`")
    );
    assert_eq!(
        error(
            r#"{"tag_name": "v1", "assets": [{"name": "a", "browser_download_url": "u", "size": 1, "digest": 1}]}"#
        ),
        format!("{front}in `assets` entry 1: invalid `digest`")
    );
}

#[test]
fn a_crate_answers_with_its_newest_stable_version() {
    let reply = json(r#"{"crate": {"max_stable_version": "1.0.200", "max_version": "2.0.0-rc"}}"#);
    assert_eq!(
        crates_io::latest_version(&reply, "u").expect("complete"),
        "1.0.200"
    );
    assert_eq!(
        crates_io::latest_version(&json("{}"), "u")
            .expect_err("incomplete")
            .full(),
        "failed to parse crates.io response from u: missing field `crate`"
    );
    assert_eq!(
        crates_io::latest_version(&json(r#"{"crate": {"max_stable_version": null}}"#), "u")
            .expect_err("incomplete")
            .full(),
        "failed to parse crates.io response from u: invalid `max_stable_version`"
    );
}

#[test]
fn a_package_answers_with_its_commands() {
    let reply = json(r#"{"version": "0.1.0", "bin": {"codex": "bin/codex.js"}}"#);
    let info = npm::latest(&reply, "u").expect("complete");
    assert_eq!(info.version, "0.1.0");
    assert!(info.bin.contains_key("codex"));
    let info = npm::latest(&json(r#"{"version": "1"}"#), "u").expect("complete");
    assert!(info.bin.is_empty());
    assert_eq!(
        npm::latest(&json(r#"{"version": "1", "bin": "x"}"#), "u")
            .expect_err("wrong type")
            .full(),
        "failed to parse npm registry response from u: invalid `bin`"
    );
}

#[test]
fn answers_may_be_lists_of_their_fields() {
    let reply = json(
        r#"["v1", [["a", "http://a", 9], ["b", "http://b", 1, null], ["c", "http://c", 2, "sha256:0"]]]"#,
    );
    let release = github::latest_release(&reply, "u").expect("complete");
    assert_eq!(release.tag, "v1");
    assert_eq!(release.assets[0].size, 9);
    assert!(release.assets[0].digest.is_none());
    assert!(release.assets[1].digest.is_none());
    assert_eq!(release.assets[2].digest.as_deref(), Some("sha256:0"));
    for refused in [
        r#"["v1"]"#,
        r#"["v1", [], 1]"#,
        r#"["v1", [["a", "http://a"]]]"#,
        r#"["v1", [["a", "http://a", 9, null, 1]]]"#,
    ] {
        let err = github::latest_release(&json(refused), "u").expect_err("wrong length");
        assert!(err.full().contains("invalid length"), "{refused}");
    }

    assert_eq!(
        crates_io::latest_version(&json(r#"[["1.0"]]"#), "u").expect("complete"),
        "1.0"
    );
    assert_eq!(
        crates_io::latest_version(&json(r#"{"crate": ["1.0"]}"#), "u").expect("complete"),
        "1.0"
    );
    assert!(crates_io::latest_version(&json(r#"[["1.0", "2.0"]]"#), "u").is_err());
    assert!(crates_io::latest_version(&json(r#"[["1.0"], 1]"#), "u").is_err());

    let info = npm::latest(&json(r#"["1", {"x": "x.js"}]"#), "u").expect("complete");
    assert_eq!(info.version, "1");
    assert!(info.bin.contains_key("x"));
    assert!(npm::latest(&json(r#"["1"]"#), "u").expect("complete").bin.is_empty());
    assert!(npm::latest(&json("[]"), "u").is_err());
    assert!(npm::latest(&json(r#"["1", {}, 1]"#), "u").is_err());
}
