use rig::lock::ToolLock;
use rig::paths::Layout;
use rig::remove::owns_symlink;
use rig::remove::remove;
use rig::remove::uninstall_apt_package;
use rig::remove::uninstall_node_package;
use rig::stamp::Timestamp;

fn tool_lock(bins: Vec<String>, pkg: Option<String>) -> ToolLock {
    ToolLock {
        version: "1.0.0".to_string(),
        source: "github:test/test".to_string(),
        installed_at: Timestamp::epoch(),
        bins,
        completions: Vec::new(),
        asset: None,
        size: None,
        pkg,
        manager: None,
        root: None,
        eval_cacheable: None,
        eval_cached_output: None,
        eval_evidence: Vec::new(),
    }
}

#[test]
fn uninstall_apt_package_rejects_a_malformed_source() {
    let mut tool = tool_lock(Vec::new(), None);
    tool.source = "cargo:ripgrep".to_string();
    let err = uninstall_apt_package(&tool).expect_err("source has no apt: prefix");
    assert!(err.message().contains("cargo:ripgrep"));
}

#[test]
fn uninstall_node_package_rejects_a_malformed_source() {
    let mut tool = tool_lock(Vec::new(), None);
    tool.source = "cargo:ripgrep".to_string();
    let err = uninstall_node_package(&tool, "bun").expect_err("source has no node: prefix");
    assert!(err.message().contains("cargo:ripgrep"));
}

#[test]
fn uninstall_node_package_rejects_an_unknown_manager() {
    let mut tool = tool_lock(Vec::new(), None);
    tool.source = "node:cowsay".to_string();
    let err = uninstall_node_package(&tool, "yarn").expect_err("yarn isn't a known manager");
    assert!(err.message().contains("yarn"));
}

#[test]
fn removes_symlink_pointing_into_state_dir() {
    let layout = Layout::new("/tmp/t/home", "~/.local");
    let pkg_dir = layout.pkg_dir("delta", "0.18.2");
    let real_bin = format!("{pkg_dir}/delta");
    let bin_link = format!("{}/delta", layout.prefix_bin_dir);

    let tool = tool_lock(vec![bin_link.clone()], Some(pkg_dir.clone()));
    let plan = remove(&tool, &layout.state_dir).expect("remove should succeed");

    assert_eq!(plan.links, vec![bin_link.clone()]);
    assert!(owns_symlink(&bin_link, Some(&real_bin), &layout.state_dir));
    assert_eq!(plan.tree.as_deref(), Some(pkg_dir.as_str()));
    assert!(plan.uninstall.is_none());
}

#[test]
fn leaves_a_symlink_that_points_outside_state_dir_alone() {
    let layout = Layout::new("/tmp/t/home", "~/.local");
    let outside = "/tmp/t/not-rigs.bin";
    let bin_link = format!("{}/delta", layout.prefix_bin_dir);

    let tool = tool_lock(vec![bin_link.clone()], None);
    let plan = remove(&tool, &layout.state_dir).expect("remove should succeed");

    assert!(plan.tree.is_none());
    assert!(
        !owns_symlink(&bin_link, Some(outside), &layout.state_dir),
        "a link with another target must survive"
    );
}

#[test]
fn a_file_or_a_relative_link_is_judged_by_where_it_leads() {
    assert!(!owns_symlink("/b/x", None, "/s"));
    assert!(owns_symlink("/s/bin/x", Some("../pkg/x"), "/s"));
    assert!(owns_symlink("/b/x", Some("/s"), "/s"));
    assert!(!owns_symlink("/b/x", Some("/s2/x"), "/s"));
}

#[test]
fn a_recorded_tree_outside_the_state_dir_is_not_removed() {
    let tool = tool_lock(vec![], Some("/home/kaige".to_string()));
    let plan = remove(&tool, "/home/kaige/.local/share/rig").expect("planned");
    assert!(plan.tree.is_none());
}

#[test]
fn packages_are_handed_back_to_their_managers() {
    let mut tool = tool_lock(vec!["/usr/bin/bat".to_string()], None);
    tool.source = "apt:bat".to_string();
    let plan = remove(&tool, "/s").expect("planned");
    let uninstall = plan.uninstall.expect("apt removes it");
    assert_eq!(uninstall.program, "sudo");
    assert!(uninstall.args.contains(&"bat".to_string()));

    tool.source = "node:cowsay".to_string();
    tool.manager = Some("bun".to_string());
    let uninstall = uninstall_node_package(&tool, "bun").expect("planned");
    assert_eq!(uninstall.program, "bun");
    assert!(uninstall.args.contains(&"cowsay".to_string()));
    let uninstall = uninstall_node_package(&tool, "npm").expect("planned");
    assert_eq!(uninstall.program, "npm");
}
