//! Tools that an install script places. A script has no version, and where it
//! puts things is its own affair.

use vstd::prelude::*;

use crate::config;
use crate::config::CurlEntry;
use crate::lock::{ToolLock, ToolLockView};
use crate::path;
use crate::paths::Layout;
use crate::paths;
use crate::sources;
use crate::sources::collect;
use crate::sources::collect::Link;
use crate::sources::plan;
use crate::sources::plan::{Planned, PlannedView, Step, StepView};
use crate::sources::{EvalState, Phase};
use crate::stamp::Timestamp;
use crate::strings;
use crate::text;
use crate::version::UNVERSIONED;

verus! {

/// What is said when an install begins. Without a version, an update is just
/// another run of the script.
pub fn announcement(entry: &CurlEntry, phase: Phase) -> (r: String)
    ensures
        r@ == match phase {
            Phase::Install => config::short_name(entry.name@) + ": installing via curl ("@
                + entry.url@ + ")"@,
            Phase::Update => config::short_name(entry.name@) + ": rerunning install script ("@
                + entry.url@ + ")"@,
        },
{
    let tool = config::tool_key(entry.name.as_str());
    match phase {
        Phase::Install => strings::cat4(tool, ": installing via curl (", entry.url.as_str(), ")"),
        Phase::Update => strings::cat4(
            tool,
            ": rerunning install script (",
            entry.url.as_str(),
            ")",
        ),
    }
}

/// A `PATH` with a directory first.
pub open spec fn pinned(dir: Seq<char>, existing: Option<Seq<char>>) -> Seq<char> {
    match existing {
        Some(rest) => dir + ":"@ + rest,
        None => dir,
    }
}

/// Puts a directory first in the `PATH`, where a script that looks for the
/// first directory it can write to will find it.
pub fn pinned_path(prefix_bin_dir: &str, existing: Option<&str>) -> (r: String)
    ensures
        r@ == pinned(prefix_bin_dir@, text::opt_str(existing)),
{
    match existing {
        Some(rest) => strings::cat3(prefix_bin_dir, ":", rest),
        None => prefix_bin_dir.to_owned(),
    }
}

/// Where the script is kept and run.
pub open spec fn work_dir(state: Seq<char>, tool: Seq<char>) -> Seq<char> {
    path::join(paths::tool_dir(state, tool), "install"@)
}

/// The steps up to the point where the script has run.
pub open spec fn script_steps(
    entry: CurlEntry,
    layout: Layout,
    home: Seq<char>,
    existing_path: Option<Seq<char>>,
) -> Seq<PlannedView> {
    let tool = config::short_name(entry.name@);
    let dir = work_dir(layout.state_dir@, tool);
    let script = path::join(dir, "install.sh"@);
    seq![
        plan::plain(StepView::FetchScript { url: entry.url@, dest: script }),
        plan::plain(StepView::CreateDir(layout.prefix_bin_dir@)),
        plan::plain(
            StepView::Run {
                program: script,
                args: seq![],
                dir: Some(dir),
                env: seq![("PATH"@, pinned(layout.prefix_bin_dir@, existing_path))]
                    + sources::applied(home, entry.common.env),
                label: "install script for "@ + tool,
            },
        ),
    ]
}

/// The steps of an install.
pub open spec fn steps(
    entry: CurlEntry,
    layout: Layout,
    home: Seq<char>,
    existing_path: Option<Seq<char>>,
    phase: Phase,
) -> Seq<PlannedView> {
    let tool = config::short_name(entry.name@);
    script_steps(entry, layout, home, existing_path) + plan::placed_end(
        entry.common.setup,
        work_dir(layout.state_dir@, tool),
        phase,
        tool,
        plan::plain(
            StepView::ResolveBins {
                preferred_dir: Some(layout.prefix_bin_dir@),
                context: "running "@ + tool + "'s install script"@,
            },
        ),
    )
}

/// The steps that run an install script and record what it placed. The script
/// is run as a file of its own, so that its first line decides what runs it.
pub fn install(
    entry: &CurlEntry,
    layout: &Layout,
    home: &str,
    existing_path: Option<&str>,
    phase: Phase,
) -> (r: Vec<Planned>)
    ensures
        plan::plan_view(r@) == steps(
            *entry,
            *layout,
            home@,
            text::opt_str(existing_path),
            phase,
        ),
{
    let tool = config::tool_key(entry.name.as_str());
    let tool_dir = layout.tool_pkg_dir(tool);
    let dir = path::join_path(tool_dir.as_str(), "install");
    let script = path::join_path(dir.as_str(), "install.sh");
    let pinned_value = pinned_path(layout.prefix_bin_dir.as_str(), existing_path);
    let ghost pinned_text = pinned_value@;
    let mut env: Vec<(String, String)> = Vec::new();
    env.push(("PATH".to_owned(), pinned_value));
    let mut more = sources::apply_env(home, &entry.common.env);
    let ghost applied = text::pairs(more@);
    env.append(&mut more);
    assert(text::pairs(env@) =~= seq![("PATH"@, pinned_text)] + applied);
    let args: Vec<String> = Vec::new();
    assert(text::texts(args@) =~= seq![]);
    let mut out: Vec<Planned> = Vec::new();
    plan::push_step(
        &mut out,
        Step::FetchScript {
            url: entry.url.as_str().to_owned(),
            dest: script.as_str().to_owned(),
        },
        None,
    );
    plan::push_step(
        &mut out,
        Step::CreateDir(layout.prefix_bin_dir.as_str().to_owned()),
        None,
    );
    plan::push_step(
        &mut out,
        Step::Run {
            program: script,
            args,
            dir: Some(dir.as_str().to_owned()),
            env,
            label: strings::cat2("install script for ", tool),
        },
        None,
    );
    assert(plan::plan_view(out@) =~= script_steps(
        *entry,
        *layout,
        home@,
        text::opt_str(existing_path),
    ));
    plan::push_placed_end(
        &mut out,
        &entry.common.setup,
        dir.as_str(),
        phase,
        tool,
        Step::ResolveBins {
            preferred_dir: Some(layout.prefix_bin_dir.as_str().to_owned()),
            context: strings::cat3("running ", tool, "'s install script"),
        },
    );
    out
}

/// The record of what a script placed.
pub fn lock_entry(
    entry: &CurlEntry,
    layout: &Layout,
    bins: Vec<String>,
    completions: &Vec<Link>,
    installed_at: Timestamp,
    eval: EvalState,
) -> (r: ToolLock)
    ensures
        r@ == (ToolLockView {
            version: UNVERSIONED@,
            source: "curl:"@ + entry.name@,
            installed_at,
            bins: text::texts(bins@),
            completions: collect::targets(completions@),
            asset: None,
            size: None,
            pkg: Some(work_dir(layout.state_dir@, config::short_name(entry.name@))),
            manager: None,
            root: None,
            eval_cacheable: eval@.cacheable,
            eval_cached_output: eval@.output,
            eval_evidence: eval@.evidence,
        }),
{
    let tool = config::tool_key(entry.name.as_str());
    let tool_dir = layout.tool_pkg_dir(tool);
    ToolLock {
        version: UNVERSIONED.to_owned(),
        source: strings::cat2("curl:", entry.name.as_str()),
        installed_at,
        bins,
        completions: collect::link_targets(completions),
        asset: None,
        size: None,
        pkg: Some(path::join_path(tool_dir.as_str(), "install")),
        manager: None,
        root: None,
        eval_cacheable: eval.cacheable,
        eval_cached_output: eval.output,
        eval_evidence: eval.evidence,
    }
}

/// The script that is run is the file that was fetched from the entry's
/// address. It runs in its own directory with the directory of commands first
/// in the `PATH`, and with the entry's variables; its commands are then looked
/// for in that directory first, and hooks run where the script did.
pub proof fn lemma_script_is_run(
    entry: CurlEntry,
    layout: Layout,
    home: Seq<char>,
    existing_path: Option<Seq<char>>,
    phase: Phase,
)
    ensures
        ({
            let all = steps(entry, layout, home, existing_path, phase);
            let n = all.len();
            let tool = config::short_name(entry.name@);
            let dir = path::join(
                path::join(path::join(layout.state_dir@, "pkg"@), tool),
                "install"@,
            );
            let script = path::join(dir, "install.sh"@);
            let bins = layout.prefix_bin_dir@;
            let hooks = plan::hook_steps(entry.common.setup, dir, phase, tool);
            let own = sources::applied(home, entry.common.env);
            &&& n == 6 + hooks.len()
            &&& all[0].step == (StepView::FetchScript { url: entry.url@, dest: script })
            &&& all[1].step == StepView::CreateDir(bins)
            &&& all[2].step is Run
            &&& all[2].step->program == script
            &&& all[2].step->args.len() == 0
            &&& all[2].step->dir == Some(dir)
            &&& existing_path is Some ==> all[2].step->env == seq![
                ("PATH"@, bins + ":"@ + existing_path->0),
            ] + own
            &&& existing_path is None ==> all[2].step->env == seq![("PATH"@, bins)] + own
            &&& all.subrange(3, n - 3) == hooks
            &&& all[n - 3].step is ResolveBins
            &&& all[n - 3].step->preferred_dir == Some(bins)
            &&& all[n - 2].step == (StepView::CollectCompletions {
                search_dir: dir,
                link_root: dir,
                beside_bins: false,
            })
            &&& all[n - 1].step is ResolveEval
        }),
{
    let all = steps(entry, layout, home, existing_path, phase);
    let n = all.len();
    let tool = config::short_name(entry.name@);
    let dir = work_dir(layout.state_dir@, tool);
    let hooks = plan::hook_steps(entry.common.setup, dir, phase, tool);
    assert(all.subrange(3, n - 3) =~= hooks);
}

} // verus!
