//! System packages. The package manager places files and knows the version;
//! what is recorded is what it reports.

use vstd::prelude::*;

use crate::config;
use crate::config::AptEntry;
use crate::failure;
use crate::failure::Failure;
use crate::lock::{ToolLock, ToolLockView};
use crate::path;
use crate::paths::Layout;
use crate::paths;
use crate::sources;
use crate::sources::collect;
use crate::sources::collect::Link;
use crate::sources::plan;
use crate::sources::plan::{Planned, PlannedView, Step, StepView};
use crate::sources::{EvalState, Phase};
use crate::stamp::Timestamp;
use crate::strings;
use crate::text;

verus! {

/// What is said when an install begins. The caveat is news only the first
/// time.
pub open spec fn notices(tool: Seq<char>, phase: Phase) -> Seq<Seq<char>> {
    let first = tool + ": "@ + phase.doing() + " via sudo apt-get install"@;
    match phase {
        Phase::Install => seq![
            first,
            tool
                + ": warning: apt packages land outside rig's pkg tree; `rig remove` will run `apt-get remove` to undo"@,
        ],
        Phase::Update => seq![first],
    }
}

pub fn announcement(entry: &AptEntry, phase: Phase) -> (r: Vec<String>)
    ensures
        text::texts(r@) == notices(config::short_name(entry.name@), phase),
{
    let tool = config::tool_key(entry.name.as_str());
    let mut out: Vec<String> = Vec::new();
    out.push(strings::cat4(tool, ": ", phase.verb(), " via sudo apt-get install"));
    if phase == Phase::Install {
        out.push(
            strings::cat2(
                tool,
                ": warning: apt packages land outside rig's pkg tree; `rig remove` will run `apt-get remove` to undo",
            ),
        );
    }
    assert(text::texts(out@) =~= notices(tool@, phase));
    out
}

/// The step that installs the package.
pub open spec fn fetch_steps(entry: AptEntry, home: Seq<char>) -> Seq<PlannedView> {
    seq![
        plan::plain(
            StepView::Run {
                program: "sudo"@,
                args: seq!["apt-get"@, "install"@, "-y"@, entry.name@],
                dir: None,
                env: sources::applied(home, entry.common.env),
                label: "apt-get install -y "@ + entry.name@,
            },
        ),
    ]
}

/// The step that installs the package; its version is known after it.
pub fn fetch(entry: &AptEntry, home: &str) -> (r: Vec<Planned>)
    ensures
        plan::plan_view(r@) == fetch_steps(*entry, home@),
{
    let mut args: Vec<String> = Vec::new();
    args.push("apt-get".to_owned());
    args.push("install".to_owned());
    args.push("-y".to_owned());
    args.push(entry.name.as_str().to_owned());
    assert(text::texts(args@) =~= seq!["apt-get"@, "install"@, "-y"@, entry.name@]);
    let mut out: Vec<Planned> = Vec::new();
    plan::push_step(
        &mut out,
        Step::Run {
            program: "sudo".to_owned(),
            args,
            dir: None,
            env: sources::apply_env(home, &entry.common.env),
            label: strings::cat2("apt-get install -y ", entry.name.as_str()),
        },
        None,
    );
    assert(plan::plan_view(out@) =~= fetch_steps(*entry, home@));
    out
}

/// Reads a package's version out of what `dpkg-query` said.
pub fn dpkg_version(package: &str, success: bool, stdout: &str, stderr: &str) -> (r: Result<
    String,
    Failure,
>)
    ensures
        failure::said(r) == if success {
            Ok::<Seq<char>, Seq<Seq<char>>>(text::trim(stdout@))
        } else {
            Err(
                seq!["dpkg-query couldn't find "@ + package@ + " after install: "@ + stderr@],
            )
        },
{
    if success {
        Ok(strings::trim(stdout).to_owned())
    } else {
        Err(
            Failure::new(
                strings::cat4("dpkg-query couldn't find ", package, " after install: ", stderr),
            ),
        )
    }
}

/// The steps that follow, with a directory of their own for hooks.
pub open spec fn steps(entry: AptEntry, layout: Layout, version: Seq<char>, phase: Phase) -> Seq<
    PlannedView,
> {
    let tool = config::short_name(entry.name@);
    let scratch = paths::version_dir(layout.state_dir@, tool, version);
    seq![plan::plain(StepView::CreateDir(scratch))] + plan::placed_end(
        entry.common.setup,
        scratch,
        phase,
        tool,
        plan::plain(
            StepView::ResolveBins { preferred_dir: None, context: "installing "@ + entry.name@ },
        ),
    )
}

/// The steps that follow once the package is installed.
pub fn install(entry: &AptEntry, layout: &Layout, version: &str, phase: Phase) -> (r: Vec<Planned>)
    ensures
        plan::plan_view(r@) == steps(*entry, *layout, version@, phase),
{
    let tool = config::tool_key(entry.name.as_str());
    let scratch = layout.pkg_dir(tool, version);
    let mut out: Vec<Planned> = Vec::new();
    plan::push_step(&mut out, Step::CreateDir(scratch.as_str().to_owned()), None);
    assert(plan::plan_view(out@) =~= seq![plan::plain(StepView::CreateDir(scratch@))]);
    plan::push_placed_end(
        &mut out,
        &entry.common.setup,
        scratch.as_str(),
        phase,
        tool,
        Step::ResolveBins {
            preferred_dir: None,
            context: strings::cat2("installing ", entry.name.as_str()),
        },
    );
    out
}

/// The record of an installed package.
pub fn lock_entry(
    entry: &AptEntry,
    layout: &Layout,
    version: String,
    bins: Vec<String>,
    completions: &Vec<Link>,
    installed_at: Timestamp,
    eval: EvalState,
) -> (r: ToolLock)
    ensures
        r@ == (ToolLockView {
            version: version@,
            source: "apt:"@ + entry.name@,
            installed_at,
            bins: text::texts(bins@),
            completions: collect::targets(completions@),
            asset: None,
            size: None,
            pkg: Some(
                paths::version_dir(layout.state_dir@, config::short_name(entry.name@), version@),
            ),
            manager: None,
            root: None,
            eval_cacheable: eval@.cacheable,
            eval_cached_output: eval@.output,
            eval_evidence: eval@.evidence,
        }),
{
    let tool = config::tool_key(entry.name.as_str());
    let scratch = layout.pkg_dir(tool, version.as_str());
    ToolLock {
        version,
        source: strings::cat2("apt:", entry.name.as_str()),
        installed_at,
        bins,
        completions: collect::link_targets(completions),
        asset: None,
        size: None,
        pkg: Some(scratch),
        manager: None,
        root: None,
        eval_cacheable: eval.cacheable,
        eval_cached_output: eval.output,
        eval_evidence: eval.evidence,
    }
}

/// A package is installed by its own name, with the entry's variables set;
/// nothing is removed. Then come its hooks, its commands, looked for on the
/// `PATH`, and its completions, in the directory of the version.
pub proof fn lemma_install_of_a_package(
    entry: AptEntry,
    layout: Layout,
    home: Seq<char>,
    version: Seq<char>,
    phase: Phase,
)
    ensures
        ({
            let first = fetch_steps(entry, home);
            let all = steps(entry, layout, version, phase);
            let n = all.len();
            let tool = config::short_name(entry.name@);
            let dir = path::join(path::join(path::join(layout.state_dir@, "pkg"@), tool), version);
            let hooks = plan::hook_steps(entry.common.setup, dir, phase, tool);
            &&& first.len() == 1
            &&& first[0].step is Run
            &&& first[0].step->program == "sudo"@
            &&& first[0].step->args == seq!["apt-get"@, "install"@, "-y"@, entry.name@]
            &&& first[0].step->env == sources::applied(home, entry.common.env)
            &&& n == 4 + hooks.len()
            &&& all[0].step == StepView::CreateDir(dir)
            &&& all.subrange(1, n - 3) == hooks
            &&& all[n - 3].step is ResolveBins
            &&& all[n - 3].step->preferred_dir is None
            &&& all[n - 2].step == (StepView::CollectCompletions {
                search_dir: dir,
                link_root: dir,
                beside_bins: false,
            })
            &&& all[n - 1].step is ResolveEval
        }),
{
    let all = steps(entry, layout, version, phase);
    let n = all.len();
    let tool = config::short_name(entry.name@);
    let dir = paths::version_dir(layout.state_dir@, tool, version);
    let hooks = plan::hook_steps(entry.common.setup, dir, phase, tool);
    assert(all.subrange(1, n - 3) =~= hooks);
}

/// An install warns once of where packages land, and both phases say what they
/// do.
pub proof fn lemma_notices(tool: Seq<char>)
    ensures
        notices(tool, Phase::Update) == seq![
            tool + ": "@ + "updating"@ + " via sudo apt-get install"@,
        ],
        notices(tool, Phase::Install).len() == 2,
        notices(tool, Phase::Install)[0] == tool + ": "@ + "installing"@
            + " via sudo apt-get install"@,
{
}

} // verus!
