use std::path::Path;
use std::path::PathBuf;

use rig::path::is_absolute_path;
use rig::path::join_path;
use rig::path::path_components;
use rig::path::path_extension;
use rig::path::path_file_name;
use rig::path::path_parent;
use rig::path::path_starts_with;
use rig::path::path_strip_prefix;
use rig::path::path_with_extension;
use rig::path::path_with_file_name;
use rig::path::paths_equal;
use rig::paths::config_file;
use rig::paths::expand_tilde_in;
use rig::paths::Layout;
use rig::sources::collect::CONFIG_PATH_HINT;

#[test]
fn expands_tilde_prefixed_paths() {
    let home = "/home/kaige";
    assert_eq!(expand_tilde_in(home, "~/.local"), "/home/kaige/.local");
    assert_eq!(expand_tilde_in(home, "~"), "/home/kaige");
    assert_eq!(expand_tilde_in(home, "/opt/tools"), "/opt/tools");
}

#[test]
fn resolves_layout_under_default_prefix() {
    let home = "/home/kaige";
    let layout = Layout::new(home, "~/.local");

    assert_eq!(layout.config_path, "/home/kaige/.config/rig/config.toml");
    assert_eq!(layout.lock_path, "/home/kaige/.local/share/rig/rig.lock");
    assert_eq!(layout.plugins_dir, "/home/kaige/.local/share/rig/plugins");
    assert_eq!(layout.prefix_bin_dir, "/home/kaige/.local/bin");
    assert_eq!(
        layout.pkg_dir("delta", "0.18.2"),
        "/home/kaige/.local/share/rig/pkg/delta/0.18.2"
    );
}

#[test]
fn resolves_layout_under_custom_prefix() {
    let home = "/home/kaige";
    let layout = Layout::new(home, "/opt/tools");
    assert_eq!(layout.prefix_bin_dir, "/opt/tools/bin");
}

#[test]
fn a_prefix_moves_nothing_but_the_commands() {
    let a = Layout::new("/h", "~/.local");
    let b = Layout::new("/h", "/opt");
    assert_ne!(a.prefix_bin_dir, b.prefix_bin_dir);
    assert_eq!(a.state_dir, b.state_dir);
    assert_eq!(a.lock_path, b.lock_path);
    assert_eq!(a.lock_file, "/h/.local/share/rig/rig.lock.lock");
    assert_eq!(a.init_zsh_path, b.init_zsh_path);
    assert_eq!(a.completions_dir, b.completions_dir);
    assert_eq!(a.cache_dir, b.cache_dir);
    assert_eq!(a.plugins_dir, b.plugins_dir);
}

#[test]
fn the_configuration_is_a_file_of_the_home() {
    assert_eq!(config_file("/home/kaige"), "/home/kaige/.rig.toml");
    assert_eq!(
        expand_tilde_in("/home/kaige", CONFIG_PATH_HINT),
        config_file("/home/kaige")
    );
}

#[test]
fn tildes_elsewhere_stay() {
    assert_eq!(expand_tilde_in("/h", "~user/x"), "~user/x");
    assert_eq!(expand_tilde_in("/h", "a/~"), "a/~");
    assert_eq!(expand_tilde_in("/h", ""), "");
    assert_eq!(expand_tilde_in("/h", "~/"), PathBuf::from("/h").join("").to_str().unwrap());
    assert_eq!(expand_tilde_in("/h", "~//x"), "/x");
}

const SAMPLES: &[&str] = &[
    "", "/", "//", ".", "..", "./", "../", "a", "a/", "/a", "/a/", "a/b", "/a/b", "a//b", "a/./b",
    "./a", "a/.", "a/..", "../a", "/..", "/.", "/./a", "a/b/c", "a/../b", ".a", "a.", "a.b",
    "a.b.c", ".a.b", "x/.a", "x/a.b", "x/a.b/", "x/..a", "...", "a b/c d", "\u{e9}/\u{4e2d}.z",
];

#[test]
fn paths_are_taken_apart_as_the_standard_library_does() {
    for p in SAMPLES {
        let std = Path::new(p);
        assert_eq!(is_absolute_path(p), std.is_absolute(), "{p:?}");
        assert_eq!(
            path_file_name(p).as_deref(),
            std.file_name().and_then(|n| n.to_str()),
            "{p:?}"
        );
        assert_eq!(
            path_parent(p).as_deref().map(Path::new),
            std.parent(),
            "{p:?}"
        );
        assert_eq!(
            path_extension(p).as_deref(),
            std.extension().and_then(|n| n.to_str()),
            "{p:?}"
        );
        let parts: Vec<String> = std
            .components()
            .map(|c| c.as_os_str().to_str().unwrap().to_string())
            .collect();
        assert_eq!(path_components(p), parts, "{p:?}");
        assert_eq!(
            PathBuf::from(path_with_file_name(p, "new")),
            std.with_file_name("new"),
            "{p:?}"
        );
        let mut renamed = std.to_path_buf();
        renamed.set_extension("e");
        assert_eq!(PathBuf::from(path_with_extension(p, "e")), renamed, "{p:?}");
    }
}

#[test]
fn paths_relate_as_in_the_standard_library() {
    for p in SAMPLES {
        for q in SAMPLES {
            let (a, b) = (Path::new(p), Path::new(q));
            assert_eq!(join_path(p, q), a.join(b).to_str().unwrap(), "{p:?} {q:?}");
            assert_eq!(path_starts_with(p, q), a.starts_with(b), "{p:?} {q:?}");
            assert_eq!(paths_equal(p, q), a == b, "{p:?} {q:?}");
            assert_eq!(
                path_strip_prefix(p, q).as_deref().map(Path::new),
                a.strip_prefix(b).ok(),
                "{p:?} {q:?}"
            );
        }
    }
}

#[test]
fn a_staged_version_lies_beside_the_others() {
    for dir in ["/s/pkg/delta", "/s/pkg/delta/", "", ".", "pkg/."] {
        for version in ["0.19.0", "release/1.0", "v1/", ".", ""] {
            let live = join_path(dir, version);
            let staged = join_path(dir, &format!("{version}.partial"));
            assert!(!path_starts_with(&live, &staged), "{live:?} {staged:?}");
        }
        let old = join_path(dir, "0.18.2");
        assert!(!path_starts_with(&old, &join_path(dir, "0.19.0")));
        assert!(!path_starts_with(&old, &join_path(dir, "0.19.0.partial")));
        assert_eq!(
            path_components(&old).len(),
            path_components(dir).len() + 1,
            "{old:?}"
        );
    }
}
