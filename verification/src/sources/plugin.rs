//! Shell plugins: a clone that the shell sources, updated in place.

use vstd::prelude::*;

use crate::config;
use crate::config::PluginEntry;
use crate::failure::Failure;
use crate::lock::{ToolLock, ToolLockView};
use crate::path;
use crate::paths::Layout;
use crate::sources;
use crate::sources::plan;
use crate::sources::plan::{Planned, PlannedView, Step, StepView};
use crate::stamp::Timestamp;
use crate::strings;
use crate::text;

verus! {

/// Where a plugin is cloned to.
pub open spec fn plugin_dir(entry: PluginEntry, layout: Layout) -> Seq<char> {
    path::join(layout.plugins_dir@, config::short_name(entry.name@))
}

pub fn clone_dest(entry: &PluginEntry, layout: &Layout) -> (r: String)
    ensures
        r@ == plugin_dir(*entry, *layout),
{
    path::join_path(layout.plugins_dir.as_str(), config::tool_key(entry.name.as_str()))
}

/// The step that clones a plugin.
pub open spec fn clone_step(entry: PluginEntry, layout: Layout) -> PlannedView {
    let url = "https://github.com/"@ + entry.name@ + ".git"@;
    plan::plain(
        StepView::Run {
            program: "git"@,
            args: seq!["clone"@, "--quiet"@, url, plugin_dir(entry, layout)],
            dir: None,
            env: seq![],
            label: "git clone "@ + url,
        },
    )
}

/// The step that clones a plugin; an existing clone is not run over.
pub fn install(entry: &PluginEntry, layout: &Layout, cloned: bool) -> (r: Result<
    Vec<Planned>,
    Failure,
>)
    ensures
        cloned ==> r is Err && r->Err_0@ == seq![
            plugin_dir(*entry, *layout) + " already cloned; use update() to pull"@,
        ],
        !cloned ==> r is Ok && plan::plan_view(r->Ok_0@) == seq![clone_step(*entry, *layout)],
{
    let dest = clone_dest(entry, layout);
    if cloned {
        return Err(
            Failure::new(strings::cat2(dest.as_str(), " already cloned; use update() to pull")),
        );
    }
    let url = strings::cat3("https://github.com/", entry.name.as_str(), ".git");
    let mut args: Vec<String> = Vec::new();
    args.push("clone".to_owned());
    args.push("--quiet".to_owned());
    args.push(url.as_str().to_owned());
    args.push(dest.as_str().to_owned());
    assert(text::texts(args@) =~= seq!["clone"@, "--quiet"@, url@, dest@]);
    let env: Vec<(String, String)> = Vec::new();
    assert(text::pairs(env@) =~= seq![]);
    let mut out: Vec<Planned> = Vec::new();
    plan::push_step(
        &mut out,
        Step::Run {
            program: "git".to_owned(),
            args,
            dir: None,
            env,
            label: strings::cat2("git clone ", url.as_str()),
        },
        None,
    );
    assert(plan::plan_view(out@) =~= seq![clone_step(*entry, *layout)]);
    Ok(out)
}

/// The step that updates a plugin.
pub open spec fn pull_step(entry: PluginEntry, layout: Layout) -> PlannedView {
    plan::plain(
        StepView::Run {
            program: "git"@,
            args: seq!["pull"@, "--quiet"@],
            dir: Some(plugin_dir(entry, layout)),
            env: seq![],
            label: "git pull in "@ + plugin_dir(entry, layout),
        },
    )
}

pub fn update(entry: &PluginEntry, layout: &Layout) -> (r: Vec<Planned>)
    ensures
        plan::plan_view(r@) == seq![pull_step(*entry, *layout)],
{
    let dest = clone_dest(entry, layout);
    let mut args: Vec<String> = Vec::new();
    args.push("pull".to_owned());
    args.push("--quiet".to_owned());
    assert(text::texts(args@) =~= seq!["pull"@, "--quiet"@]);
    let env: Vec<(String, String)> = Vec::new();
    assert(text::pairs(env@) =~= seq![]);
    let label = strings::cat2("git pull in ", dest.as_str());
    let mut out: Vec<Planned> = Vec::new();
    plan::push_step(
        &mut out,
        Step::Run { program: "git".to_owned(), args, dir: Some(dest), env, label },
        None,
    );
    assert(plan::plan_view(out@) =~= seq![pull_step(*entry, *layout)]);
    out
}

/// What is said when a plugin is cloned or updated.
pub fn announcement(entry: &PluginEntry, cloning: bool) -> (r: String)
    ensures
        r@ == config::short_name(entry.name@) + (if cloning {
            ": installing via git clone ("@
        } else {
            ": updating via git pull ("@
        }) + entry.name@ + ")"@,
{
    strings::cat4(
        config::tool_key(entry.name.as_str()),
        if cloning {
            ": installing via git clone ("
        } else {
            ": updating via git pull ("
        },
        entry.name.as_str(),
        ")",
    )
}

/// The record of a clone at a commit.
pub open spec fn record(
    entry: PluginEntry,
    layout: Layout,
    commit: Seq<char>,
    installed_at: Timestamp,
) -> ToolLockView {
    ToolLockView {
        version: commit,
        source: "plugin:"@ + entry.name@,
        installed_at,
        bins: seq![],
        completions: seq![],
        asset: None,
        size: None,
        pkg: Some(plugin_dir(entry, layout)),
        manager: None,
        root: None,
        eval_cacheable: None,
        eval_cached_output: None,
        eval_evidence: seq![],
    }
}

/// The record of a clone at a commit. It is also how a clone that is there
/// but not recorded comes into the records.
pub fn read_installed(
    entry: &PluginEntry,
    layout: &Layout,
    commit: String,
    installed_at: Timestamp,
) -> (r: ToolLock)
    ensures
        r@ == record(*entry, *layout, commit@, installed_at),
{
    let r = ToolLock {
        version: commit,
        source: strings::cat2("plugin:", entry.name.as_str()),
        installed_at,
        bins: Vec::new(),
        completions: Vec::new(),
        asset: None,
        size: None,
        pkg: Some(clone_dest(entry, layout)),
        manager: None,
        root: None,
        eval_cacheable: None,
        eval_cached_output: None,
        eval_evidence: Vec::new(),
    };
    assert(text::texts(r.bins@) =~= seq![]);
    assert(text::texts(r.completions@) =~= seq![]);
    assert(text::texts(r.eval_evidence@) =~= seq![]);
    r
}

/// A plugin is cloned from its repository into the directory that is later
/// pulled and that its record names: its own, under the plugins.
pub proof fn lemma_clone_is_what_is_pulled(
    entry: PluginEntry,
    layout: Layout,
    commit: Seq<char>,
    installed_at: Timestamp,
)
    ensures
        ({
            let dir = path::join(layout.plugins_dir@, config::short_name(entry.name@));
            let cloned = clone_step(entry, layout).step;
            let pulled = pull_step(entry, layout).step;
            let kept = record(entry, layout, commit, installed_at);
            &&& cloned is Run && cloned->program == "git"@
            &&& cloned->args == seq![
                "clone"@,
                "--quiet"@,
                "https://github.com/"@ + entry.name@ + ".git"@,
                dir,
            ]
            &&& pulled is Run && pulled->program == "git"@
            &&& pulled->args == seq!["pull"@, "--quiet"@]
            &&& pulled->dir == Some(dir)
            &&& kept.pkg == Some(dir)
            &&& kept.version == commit
            &&& kept.source == "plugin:"@ + entry.name@
            &&& kept.installed_at == installed_at
            &&& kept.bins.len() == 0
            &&& kept.completions.len() == 0
        }),
{
}

} // verus!
