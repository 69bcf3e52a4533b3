//! Tools that `cargo install` builds.

use vstd::prelude::*;

use crate::config;
use crate::config::CargoEntry;
use crate::lock::{ToolLock, ToolLockView};
use crate::path;
use crate::paths::Layout;
use crate::paths;
use crate::sources;
use crate::sources::collect;
use crate::sources::collect::CollectedArtifacts;
use crate::sources::plan;
use crate::sources::plan::{Planned, PlannedView, Step, StepView};
use crate::sources::{EvalState, Phase};
use crate::stamp::Timestamp;
use crate::strings;
use crate::text;

verus! {

/// What is said when an install begins.
pub fn announcement(entry: &CargoEntry) -> (r: String)
    ensures
        r@ == "installing "@ + entry.name@ + " via cargo"@,
{
    strings::cat3("installing ", entry.name.as_str(), " via cargo")
}

/// The steps before the hooks. Where the tool lands is told on the command
/// line, so that it does not depend on the environment. The crate has the
/// tool's short name: an entry may be named after its repository.
pub open spec fn build_steps(
    entry: CargoEntry,
    home: Seq<char>,
    partial: Seq<char>,
    version: Seq<char>,
) -> Seq<PlannedView> {
    seq![
        plan::plain(StepView::RemoveTree(partial)),
        plan::plain(
            StepView::Run {
                program: "cargo"@,
                args: seq![
                    "install"@,
                    "--root"@,
                    partial,
                    "--version"@,
                    version,
                    config::short_name(entry.name@),
                ],
                dir: None,
                env: sources::applied(home, entry.common.env),
                label: "cargo install "@ + entry.name@,
            },
        ),
    ]
}

/// The steps of an install.
pub open spec fn steps(
    entry: CargoEntry,
    layout: Layout,
    home: Seq<char>,
    version: Seq<char>,
    phase: Phase,
) -> Seq<PlannedView> {
    let tool = config::short_name(entry.name@);
    let state = layout.state_dir@;
    let partial = path::join(paths::tool_dir(state, tool), version + ".partial"@);
    build_steps(entry, home, partial, version) + plan::hook_steps(
        entry.common.setup,
        partial,
        phase,
        tool,
    ) + plan::collected_end(partial, paths::version_dir(state, tool, version), tool)
}

/// The steps that install a version of a crate.
pub fn install(entry: &CargoEntry, layout: &Layout, home: &str, version: &str, phase: Phase) -> (r:
    Vec<Planned>)
    ensures
        plan::plan_view(r@) == steps(*entry, *layout, home@, version@, phase),
{
    let tool = config::tool_key(entry.name.as_str());
    let tool_dir = layout.tool_pkg_dir(tool);
    let final_dir = layout.pkg_dir(tool, version);
    let partial = path::join_path(tool_dir.as_str(), strings::cat2(version, ".partial").as_str());
    let mut args: Vec<String> = Vec::new();
    args.push("install".to_owned());
    args.push("--root".to_owned());
    args.push(partial.as_str().to_owned());
    args.push("--version".to_owned());
    args.push(version.to_owned());
    args.push(tool.to_owned());
    assert(text::texts(args@) =~= seq![
        "install"@,
        "--root"@,
        partial@,
        "--version"@,
        version@,
        tool@,
    ]);
    let mut out: Vec<Planned> = Vec::new();
    plan::push_step(&mut out, Step::RemoveTree(partial.as_str().to_owned()), None);
    plan::push_step(
        &mut out,
        Step::Run {
            program: "cargo".to_owned(),
            args,
            dir: None,
            env: sources::apply_env(home, &entry.common.env),
            label: strings::cat2("cargo install ", entry.name.as_str()),
        },
        None,
    );
    let ghost start = build_steps(*entry, home@, partial@, version@);
    assert(plan::plan_view(out@) =~= start);
    plan::push_hooks(&mut out, &entry.common.setup, partial.as_str(), phase, tool);
    plan::push_collected_end(&mut out, partial.as_str(), final_dir.as_str(), tool);
    out
}

/// The record of an installed crate.
pub fn lock_entry(
    entry: &CargoEntry,
    layout: &Layout,
    version: String,
    artifacts: CollectedArtifacts,
    installed_at: Timestamp,
    eval: EvalState,
) -> (r: ToolLock)
    ensures
        r@ == (ToolLockView {
            version: version@,
            source: "cargo:"@ + entry.name@,
            installed_at,
            bins: collect::targets(artifacts.bins@),
            completions: collect::targets(artifacts.completions@),
            asset: None,
            size: None,
            pkg: Some(
                paths::version_dir(layout.state_dir@, config::short_name(entry.name@), version@),
            ),
            manager: None,
            root: None,
            eval_cacheable: eval@.cacheable,
            eval_cached_output: eval@.output,
            eval_evidence: eval@.evidence,
        }),
{
    let tool = config::tool_key(entry.name.as_str());
    let final_dir = layout.pkg_dir(tool, version.as_str());
    ToolLock {
        version,
        source: strings::cat2("cargo:", entry.name.as_str()),
        installed_at,
        bins: collect::link_targets(&artifacts.bins),
        completions: collect::link_targets(&artifacts.completions),
        asset: None,
        size: None,
        pkg: Some(final_dir),
        manager: None,
        root: None,
        eval_cacheable: eval.cacheable,
        eval_cached_output: eval.output,
        eval_evidence: eval.evidence,
    }
}

/// An install makes links only once every step before them has succeeded,
/// replaces a version of the same number only after them, and removes no
/// directory outside the staging one and the new version's, those of all other
/// versions among them.
pub proof fn lemma_old_version_survives(
    entry: CargoEntry,
    layout: Layout,
    home: Seq<char>,
    version: Seq<char>,
    phase: Phase,
    outcomes: Seq<Result<(), Seq<Seq<char>>>>,
    step: nat,
)
    requires
        plan::performed(steps(entry, layout, home, version, phase), 0, outcomes).contains(step),
    ensures
        ({
            let all = steps(entry, layout, home, version, phase);
            let now = all[step as int].step;
            let dir = paths::tool_dir(layout.state_dir@, config::short_name(entry.name@));
            let partial = path::join(dir, version + ".partial"@);
            let live = path::join(dir, version);
            &&& step < all.len()
            &&& forall|i: int| 0 <= i < step ==> (#[trigger] outcomes[i]) is Ok
            &&& plan::makes_links(now) ==> step >= all.len() - 4
            &&& plan::destroys(now, live) ==> step == all.len() - 2
            &&& forall|other: Seq<char>|
                !path::starts_with(other, partial) && !path::starts_with(other, live)
                    ==> !#[trigger] plan::destroys(now, other)
            &&& forall|old: Seq<char>|
                path::is_name(version) && path::is_name(old) && old != version && old != version
                    + ".partial"@ ==> !plan::destroys(now, #[trigger] path::join(dir, old))
        }),
{
    let tool = config::short_name(entry.name@);
    let dir = paths::tool_dir(layout.state_dir@, tool);
    let partial = path::join(dir, version + ".partial"@);
    let start = build_steps(entry, home, partial, version) + plan::hook_steps(
        entry.common.setup,
        partial,
        phase,
        tool,
    );
    plan::lemma_staged_elsewhere(dir, version);
    plan::lemma_failure_keeps_the_old_version(
        start,
        partial,
        paths::version_dir(layout.state_dir@, tool, version),
        tool,
        outcomes,
        step,
    );
    assert forall|old: Seq<char>|
        path::is_name(version) && path::is_name(old) && old != version && old != version
            + ".partial"@ implies !plan::destroys(
        steps(entry, layout, home, version, phase)[step as int].step,
        #[trigger] path::join(dir, old),
    ) by {
        plan::lemma_versions_apart(dir, version, old);
    }
}

/// An install works in one place: the crate of the tool's short name is built
/// into the staging directory, at the version that was asked for and with the
/// entry's variables set; the hooks run there, commands and completions are
/// searched there, and it is what takes the place of the live directory, which
/// is another one.
pub proof fn lemma_install_works_in_staging(
    entry: CargoEntry,
    layout: Layout,
    home: Seq<char>,
    version: Seq<char>,
    phase: Phase,
)
    ensures
        ({
            let all = steps(entry, layout, home, version, phase);
            let n = all.len();
            let tool = config::short_name(entry.name@);
            let dir = path::join(path::join(layout.state_dir@, "pkg"@), tool);
            let staging = path::join(dir, version + ".partial"@);
            let live = path::join(dir, version);
            let hooks = plan::hook_steps(entry.common.setup, staging, phase, tool);
            &&& n == 6 + hooks.len()
            &&& staging != live
            &&& !path::starts_with(live, staging)
            &&& all[0].step == StepView::RemoveTree(staging)
            &&& all[1].step is Run
            &&& all[1].step->program == "cargo"@
            &&& all[1].step->args == seq![
                "install"@,
                "--root"@,
                staging,
                "--version"@,
                version,
                tool,
            ]
            &&& all[1].step->env == sources::applied(home, entry.common.env)
            &&& all.subrange(2, n - 4) == hooks
            &&& forall|i: int|
                0 <= i < n ==> plan::keeps_to_staging((#[trigger] all[i]).step, staging, live)
            &&& all[n - 4].step is CollectBins
            &&& all[n - 3].step is CollectCompletions
            &&& all[n - 2].step is Finalize
            &&& all[n - 1].step is ResolveEval
        }),
{
    let tool = config::short_name(entry.name@);
    let dir = paths::tool_dir(layout.state_dir@, tool);
    let staging = path::join(dir, version + ".partial"@);
    let live = path::join(dir, version);
    plan::lemma_staged_elsewhere(dir, version);
    assert(path::components(live).is_prefix_of(path::components(live)));
    let built = build_steps(entry, home, staging, version);
    let hooks = plan::hook_steps(entry.common.setup, staging, phase, tool);
    let end = plan::collected_end(staging, live, tool);
    let all = steps(entry, layout, home, version, phase);
    let n = all.len();
    assert(all.subrange(2, n - 4) =~= hooks);
    assert forall|i: int| 0 <= i < n implies #[trigger] all[i] == if i < 2 {
        built[i]
    } else if i < n - 4 {
        hooks[i - 2]
    } else {
        end[i - (n - 4)]
    } by {}
}

} // verus!
