//! Tools that are built from a clone.

use vstd::prelude::*;

use crate::config;
use crate::config::{GitEntry, Host};
use crate::failure;
use crate::failure::Failure;
use crate::lock::{ToolLock, ToolLockView};
use crate::path;
use crate::paths::Layout;
use crate::paths;
use crate::sources;
use crate::sources::collect;
use crate::sources::collect::CollectedArtifacts;
use crate::sources::plan;
use crate::sources::plan::{Planned, PlannedView, Step, StepView};
use crate::sources::{EvalState, Phase};
use crate::stamp::Timestamp;
use crate::strings;
use crate::text;
use crate::version;

verus! {

/// Where a repository is cloned from.
pub open spec fn clone_address(host: Host, name: Seq<char>) -> Seq<char> {
    match host {
        Host::Github => "https://github.com/"@ + name + ".git"@,
        Host::Codeberg => "https://codeberg.org/"@ + name + ".git"@,
    }
}

pub fn clone_url(host: Host, name: &str) -> (r: String)
    ensures
        r@ == clone_address(host, name@),
{
    match host {
        Host::Github => strings::cat3("https://github.com/", name, ".git"),
        Host::Codeberg => strings::cat3("https://codeberg.org/", name, ".git"),
    }
}

/// What `git ls-remote` said of the newest commit.
pub open spec fn remote_head(url: Seq<char>, success: bool, stdout: Seq<char>, stderr: Seq<char>) -> Result<
    Seq<char>,
    Seq<Seq<char>>,
> {
    if !success {
        Err(seq!["git ls-remote "@ + url + " HEAD failed: "@ + stderr])
    } else if text::words(stdout).len() == 0 {
        Err(seq!["git ls-remote returned no output"@])
    } else {
        Ok(text::words(stdout)[0])
    }
}

/// Reads the newest commit out of what `git ls-remote` said.
pub fn remote_head_commit(host: Host, name: &str, success: bool, stdout: &str, stderr: &str) -> (r:
    Result<String, Failure>)
    ensures
        failure::said(r) == remote_head(clone_address(host, name@), success, stdout@, stderr@),
{
    if !success {
        let url = clone_url(host, name);
        return Err(
            Failure::new(
                strings::cat4("git ls-remote ", url.as_str(), " HEAD failed: ", stderr),
            ),
        );
    }
    let words = strings::words(stdout);
    assert(text::strs(words@).len() == words@.len());
    if words.len() == 0 {
        Err(Failure::new("git ls-remote returned no output".to_owned()))
    } else {
        assert(text::strs(words@)[0] == words@[0]@);
        Ok(words[0].to_owned())
    }
}

/// The directory that a clone is made in.
pub open spec fn clone_dir(state: Seq<char>, tool: Seq<char>) -> Seq<char> {
    path::join(paths::tool_dir(state, tool), "clone.partial"@)
}

/// The steps up to the point where the commit can be read.
pub open spec fn build_steps(entry: GitEntry, layout: Layout, home: Seq<char>, phase: Phase) -> Seq<
    PlannedView,
> {
    let tool = config::short_name(entry.name@);
    let partial = clone_dir(layout.state_dir@, tool);
    let url = clone_address(entry.host, entry.name@);
    seq![
        plan::plain(StepView::RemoveTree(partial)),
        plan::plain(
            StepView::Run {
                program: "git"@,
                args: seq!["clone"@, "--quiet"@, url, partial],
                dir: None,
                env: sources::applied(home, entry.common.env),
                label: "git clone "@ + url,
            },
        ),
    ] + plan::hook_steps(entry.common.setup, partial, phase, tool)
}

/// What is said when an install begins.
pub fn announcement(entry: &GitEntry) -> (r: String)
    ensures
        r@ == "installing "@ + entry.name@ + " via git (git clone "@ + clone_address(
            entry.host,
            entry.name@,
        ) + ")"@,
{
    let url = clone_url(entry.host, entry.name.as_str());
    strings::cat5("installing ", entry.name.as_str(), " via git (git clone ", url.as_str(), ")")
}

/// The steps that clone and build a tool, up to the point where its commit
/// can be read.
pub fn build(entry: &GitEntry, layout: &Layout, home: &str, phase: Phase) -> (r: Vec<Planned>)
    ensures
        plan::plan_view(r@) == build_steps(*entry, *layout, home@, phase),
{
    let tool = config::tool_key(entry.name.as_str());
    let url = clone_url(entry.host, entry.name.as_str());
    let tool_dir = layout.tool_pkg_dir(tool);
    let partial = path::join_path(tool_dir.as_str(), "clone.partial");
    let mut args: Vec<String> = Vec::new();
    args.push("clone".to_owned());
    args.push("--quiet".to_owned());
    args.push(url.as_str().to_owned());
    args.push(partial.as_str().to_owned());
    assert(text::texts(args@) =~= seq!["clone"@, "--quiet"@, url@, partial@]);
    let mut out: Vec<Planned> = Vec::new();
    plan::push_step(&mut out, Step::RemoveTree(partial.as_str().to_owned()), None);
    plan::push_step(
        &mut out,
        Step::Run {
            program: "git".to_owned(),
            args,
            dir: None,
            env: sources::apply_env(home, &entry.common.env),
            label: strings::cat2("git clone ", url.as_str()),
        },
        None,
    );
    let ghost start = seq![
        plan::plain(StepView::RemoveTree(partial@)),
        plan::plain(
            StepView::Run {
                program: "git"@,
                args: seq!["clone"@, "--quiet"@, url@, partial@],
                dir: None,
                env: sources::applied(home@, entry.common.env),
                label: "git clone "@ + url@,
            },
        ),
    ];
    assert(plan::plan_view(out@) =~= start);
    plan::push_hooks(&mut out, &entry.common.setup, partial.as_str(), phase, tool);
    out
}

/// The steps that put a built commit in place.
pub open spec fn place_steps(entry: GitEntry, layout: Layout, commit: Seq<char>) -> Seq<
    PlannedView,
> {
    let tool = config::short_name(entry.name@);
    plan::collected_end(
        clone_dir(layout.state_dir@, tool),
        paths::version_dir(layout.state_dir@, tool, commit),
        tool,
    )
}

/// The steps that put a built commit in place.
pub fn install(entry: &GitEntry, layout: &Layout, commit: &str) -> (r: Vec<Planned>)
    ensures
        plan::plan_view(r@) == place_steps(*entry, *layout, commit@),
{
    let tool = config::tool_key(entry.name.as_str());
    let tool_dir = layout.tool_pkg_dir(tool);
    let partial = path::join_path(tool_dir.as_str(), "clone.partial");
    let final_dir = layout.pkg_dir(tool, commit);
    let mut out: Vec<Planned> = Vec::new();
    plan::push_collected_end(&mut out, partial.as_str(), final_dir.as_str(), tool);
    assert(plan::plan_view(out@) =~= place_steps(*entry, *layout, commit@));
    out
}

/// The record of an installed commit.
pub fn lock_entry(
    entry: &GitEntry,
    layout: &Layout,
    commit: String,
    artifacts: CollectedArtifacts,
    installed_at: Timestamp,
    eval: EvalState,
) -> (r: ToolLock)
    ensures
        r@ == (ToolLockView {
            version: commit@,
            source: entry.host.prefix_text() + ":"@ + entry.name@,
            installed_at,
            bins: collect::targets(artifacts.bins@),
            completions: collect::targets(artifacts.completions@),
            asset: None,
            size: None,
            pkg: Some(
                paths::version_dir(layout.state_dir@, config::short_name(entry.name@), commit@),
            ),
            manager: None,
            root: None,
            eval_cacheable: eval@.cacheable,
            eval_cached_output: eval@.output,
            eval_evidence: eval@.evidence,
        }),
{
    let tool = config::tool_key(entry.name.as_str());
    let final_dir = layout.pkg_dir(tool, commit.as_str());
    ToolLock {
        version: commit,
        source: strings::cat3(entry.host.prefix(), ":", entry.name.as_str()),
        installed_at,
        bins: collect::link_targets(&artifacts.bins),
        completions: collect::link_targets(&artifacts.completions),
        asset: None,
        size: None,
        pkg: Some(final_dir),
        manager: None,
        root: None,
        eval_cacheable: eval.cacheable,
        eval_cached_output: eval.output,
        eval_evidence: eval.evidence,
    }
}

/// An install makes links only once every step before them has succeeded,
/// replaces a directory of the same commit only after them, and removes no
/// directory outside the clone's and the new commit's, those of all other
/// commits among them.
pub proof fn lemma_old_version_survives(
    entry: GitEntry,
    layout: Layout,
    home: Seq<char>,
    commit: Seq<char>,
    phase: Phase,
    outcomes: Seq<Result<(), Seq<Seq<char>>>>,
    step: nat,
)
    requires
        version::is_sha(commit),
        plan::performed(
            build_steps(entry, layout, home, phase) + place_steps(entry, layout, commit),
            0,
            outcomes,
        ).contains(step),
    ensures
        ({
            let all = build_steps(entry, layout, home, phase) + place_steps(entry, layout, commit);
            let now = all[step as int].step;
            let dir = paths::tool_dir(layout.state_dir@, config::short_name(entry.name@));
            let partial = path::join(dir, "clone.partial"@);
            let live = path::join(dir, commit);
            &&& step < all.len()
            &&& forall|i: int| 0 <= i < step ==> (#[trigger] outcomes[i]) is Ok
            &&& plan::makes_links(now) ==> step >= all.len() - 4
            &&& plan::destroys(now, live) ==> step == all.len() - 2
            &&& forall|other: Seq<char>|
                !path::starts_with(other, partial) && !path::starts_with(other, live)
                    ==> !#[trigger] plan::destroys(now, other)
            &&& forall|old: Seq<char>|
                path::is_name(old) && old != commit && old != "clone.partial"@
                    ==> !plan::destroys(now, #[trigger] path::join(dir, old))
        }),
{
    reveal_strlit("clone.partial");
    reveal_strlit(".");
    reveal_strlit("..");
    let tool = config::short_name(entry.name@);
    let dir = paths::tool_dir(layout.state_dir@, tool);
    let partial = clone_dir(layout.state_dir@, tool);
    let all = build_steps(entry, layout, home, phase) + place_steps(entry, layout, commit);
    assert(path::is_name("clone.partial"@));
    assert(path::is_name(commit)) by {
        if commit.contains('/') {
            let i = choose|i: int| 0 <= i < commit.len() && commit[i] == '/';
            assert(text::ascii_hex_digit(commit[i]));
        }
    }
    path::lemma_names_apart(dir, commit, "clone.partial"@);
    plan::lemma_failure_keeps_the_old_version(
        build_steps(entry, layout, home, phase),
        partial,
        paths::version_dir(layout.state_dir@, tool, commit),
        tool,
        outcomes,
        step,
    );
    assert forall|old: Seq<char>|
        path::is_name(old) && old != commit && old != "clone.partial"@ implies !plan::destroys(
        all[step as int].step,
        #[trigger] path::join(dir, old),
    ) by {
        path::lemma_names_apart(dir, old, commit);
        path::lemma_names_apart(dir, old, "clone.partial"@);
    }
}

/// A build and its placing work in one directory: the repository's own address
/// is cloned into it, with the entry's variables set, the hooks run in it,
/// commands and completions are searched in it, and it takes the place of the
/// directory of the commit.
pub proof fn lemma_build_works_in_the_clone(
    entry: GitEntry,
    layout: Layout,
    home: Seq<char>,
    commit: Seq<char>,
    phase: Phase,
)
    ensures
        ({
            let built = build_steps(entry, layout, home, phase);
            let placed = place_steps(entry, layout, commit);
            let tool = config::short_name(entry.name@);
            let dir = path::join(path::join(layout.state_dir@, "pkg"@), tool);
            let staging = path::join(dir, "clone.partial"@);
            let live = path::join(dir, commit);
            let url = match entry.host {
                Host::Github => "https://github.com/"@ + entry.name@ + ".git"@,
                Host::Codeberg => "https://codeberg.org/"@ + entry.name@ + ".git"@,
            };
            &&& built.len() >= 2
            &&& built[0].step == StepView::RemoveTree(staging)
            &&& built[1].step is Run
            &&& built[1].step->program == "git"@
            &&& built[1].step->args == seq!["clone"@, "--quiet"@, url, staging]
            &&& built[1].step->env == sources::applied(home, entry.common.env)
            &&& built.skip(2) == plan::hook_steps(entry.common.setup, staging, phase, tool)
            &&& forall|i: int|
                0 <= i < built.len() ==> plan::keeps_to_staging(
                    (#[trigger] built[i]).step,
                    staging,
                    live,
                )
            &&& placed.len() == 4
            &&& placed[0].step is CollectBins
            &&& placed[1].step is CollectCompletions
            &&& placed[2].step is Finalize
            &&& placed[3].step is ResolveEval
            &&& forall|i: int|
                0 <= i < 4 ==> plan::keeps_to_staging((#[trigger] placed[i]).step, staging, live)
            &&& commit != "clone.partial"@ && path::is_name(commit) ==> staging != live
        }),
{
    let built = build_steps(entry, layout, home, phase);
    let tool = config::short_name(entry.name@);
    let dir = paths::tool_dir(layout.state_dir@, tool);
    let staging = path::join(dir, "clone.partial"@);
    let hooks = plan::hook_steps(entry.common.setup, staging, phase, tool);
    assert(built.skip(2) =~= hooks);
    assert forall|i: int| 2 <= i < built.len() implies #[trigger] built[i] == hooks[i - 2] by {}
    if commit != "clone.partial"@ && path::is_name(commit) {
        reveal_strlit("clone.partial");
        reveal_strlit(".");
        reveal_strlit("..");
        assert(path::is_name("clone.partial"@));
        path::lemma_names_apart(dir, commit, "clone.partial"@);
        assert(path::components(staging).is_prefix_of(path::components(staging)));
    }
}

/// The head of a remote is the first word of an answer, where there was one.
pub proof fn lemma_remote_head(
    url: Seq<char>,
    success: bool,
    stdout: Seq<char>,
    stderr: Seq<char>,
)
    ensures
        remote_head(url, success, stdout, stderr) is Ok <==> success && text::words(stdout).len()
            > 0,
        remote_head(url, success, stdout, stderr) is Ok ==> remote_head(
            url,
            success,
            stdout,
            stderr,
        )->Ok_0 == text::words(stdout)[0],
{
}

/// A head that could not be had is told, with the address where one was asked.
pub proof fn lemma_missing_head_is_told(url: Seq<char>, stdout: Seq<char>, stderr: Seq<char>)
    ensures
        remote_head(url, false, stdout, stderr) == Err::<Seq<char>, Seq<Seq<char>>>(
            seq!["git ls-remote "@ + url + " HEAD failed: "@ + stderr],
        ),
        text::words(stdout).len() == 0 ==> remote_head(url, true, stdout, stderr) == Err::<
            Seq<char>,
            Seq<Seq<char>>,
        >(seq!["git ls-remote returned no output"@]),
{
}

} // verus!
