//! Installs as lists of steps. A step is outside work; what follows from its
//! outcome is decided here.

use vstd::prelude::*;

use crate::config::SetupSpec;
use crate::failure::Failure;
use crate::path;
use crate::sources;
use crate::sources::Phase;
use crate::strings;
use crate::text;

verus! {

/// One piece of outside work.
#[derive(Debug)]
pub enum Step {
    /// Delete a directory, if it is there.
    RemoveTree(String),
    CreateDir(String),
    /// Download a file and check it.
    Download { url: String, dest: String, size: u64, digest: Option<String> },
    /// Unpack a file into a directory.
    Extract { archive: String, dest: String, flag: Option<bool> },
    /// Download a script to a file that can be executed.
    FetchScript { url: String, dest: String },
    /// Run a program. `label` names it in errors.
    Run {
        program: String,
        args: Vec<String>,
        dir: Option<String>,
        env: Vec<(String, String)>,
        label: String,
    },
    /// Run a hook in the shell.
    Hook { cmd: String, cwd: String },
    /// Run the first command found under a path with `--version`.
    SmokeTest { search_dir: String },
    /// Link the commands found under the first path, pointing under the
    /// second.
    CollectBins { search_dir: String, link_root: String },
    /// Link the completions found under the first path, pointing under the
    /// second. A command that generates them runs beside the tool's first
    /// command, or else in the first path.
    CollectCompletions { search_dir: String, link_root: String, beside_bins: bool },
    /// Replace the second directory by the first.
    Finalize { partial: String, final_dir: String },
    /// Record where the declared commands lie.
    ResolveBins { preferred_dir: Option<String>, context: String },
    /// Record the commands that a package manager put into a directory.
    ExpectBins { bin_dir: String },
    /// Find out about the `eval` command.
    ResolveEval,
}

pub enum StepView {
    RemoveTree(Seq<char>),
    CreateDir(Seq<char>),
    Download { url: Seq<char>, dest: Seq<char>, size: u64, digest: Option<Seq<char>> },
    Extract { archive: Seq<char>, dest: Seq<char>, flag: Option<bool> },
    FetchScript { url: Seq<char>, dest: Seq<char> },
    Run {
        program: Seq<char>,
        args: Seq<Seq<char>>,
        dir: Option<Seq<char>>,
        env: Seq<(Seq<char>, Seq<char>)>,
        label: Seq<char>,
    },
    Hook { cmd: Seq<char>, cwd: Seq<char> },
    SmokeTest { search_dir: Seq<char> },
    CollectBins { search_dir: Seq<char>, link_root: Seq<char> },
    CollectCompletions { search_dir: Seq<char>, link_root: Seq<char>, beside_bins: bool },
    Finalize { partial: Seq<char>, final_dir: Seq<char> },
    ResolveBins { preferred_dir: Option<Seq<char>>, context: Seq<char> },
    ExpectBins { bin_dir: Seq<char> },
    ResolveEval,
}

impl View for Step {
    type V = StepView;

    open spec fn view(&self) -> StepView {
        match *self {
            Step::RemoveTree(p) => StepView::RemoveTree(p@),
            Step::CreateDir(p) => StepView::CreateDir(p@),
            Step::Download { url, dest, size, digest } => StepView::Download {
                url: url@,
                dest: dest@,
                size,
                digest: text::opt_text(digest),
            },
            Step::Extract { archive, dest, flag } => StepView::Extract {
                archive: archive@,
                dest: dest@,
                flag,
            },
            Step::FetchScript { url, dest } => StepView::FetchScript { url: url@, dest: dest@ },
            Step::Run { program, args, dir, env, label } => StepView::Run {
                program: program@,
                args: text::texts(args@),
                dir: text::opt_text(dir),
                env: text::pairs(env@),
                label: label@,
            },
            Step::Hook { cmd, cwd } => StepView::Hook { cmd: cmd@, cwd: cwd@ },
            Step::SmokeTest { search_dir } => StepView::SmokeTest { search_dir: search_dir@ },
            Step::CollectBins { search_dir, link_root } => StepView::CollectBins {
                search_dir: search_dir@,
                link_root: link_root@,
            },
            Step::CollectCompletions { search_dir, link_root, beside_bins } =>
                StepView::CollectCompletions {
                    search_dir: search_dir@,
                    link_root: link_root@,
                    beside_bins,
                },
            Step::Finalize { partial, final_dir } => StepView::Finalize {
                partial: partial@,
                final_dir: final_dir@,
            },
            Step::ResolveBins { preferred_dir, context } => StepView::ResolveBins {
                preferred_dir: text::opt_text(preferred_dir),
                context: context@,
            },
            Step::ExpectBins { bin_dir } => StepView::ExpectBins { bin_dir: bin_dir@ },
            Step::ResolveEval => StepView::ResolveEval,
        }
    }
}

/// A step, and what an error in it is put into the context of.
#[derive(Debug)]
pub struct Planned {
    pub step: Step,
    pub context: Option<String>,
}

pub struct PlannedView {
    pub step: StepView,
    pub context: Option<Seq<char>>,
}

impl View for Planned {
    type V = PlannedView;

    open spec fn view(&self) -> PlannedView {
        PlannedView { step: self.step@, context: text::opt_text(self.context) }
    }
}

pub open spec fn plan_view(v: Seq<Planned>) -> Seq<PlannedView> {
    Seq::new(v.len(), |i: int| v[i]@)
}

/// A step without a context.
pub open spec fn plain(step: StepView) -> PlannedView {
    PlannedView { step, context: None }
}

/// A step with a context.
pub open spec fn within(step: StepView, context: Seq<char>) -> PlannedView {
    PlannedView { step, context: Some(context) }
}

/// What follows the outcome of a step.
#[derive(Debug)]
pub enum Progress {
    /// The step with this number is next.
    Next(usize),
    Finished,
    Stopped(Failure),
}

pub enum ProgressView {
    Next(nat),
    Finished,
    Stopped(Seq<Seq<char>>),
}

impl View for Progress {
    type V = ProgressView;

    open spec fn view(&self) -> ProgressView {
        match *self {
            Progress::Next(i) => ProgressView::Next(i as nat),
            Progress::Finished => ProgressView::Finished,
            Progress::Stopped(f) => ProgressView::Stopped(f@),
        }
    }
}

/// What follows the outcome of the step with a number.
pub open spec fn progress(
    plan: Seq<PlannedView>,
    at: nat,
    outcome: Result<(), Seq<Seq<char>>>,
) -> ProgressView {
    match outcome {
        Err(chain) => ProgressView::Stopped(
            match plan[at as int].context {
                Some(c) => seq![c] + chain,
                None => chain,
            },
        ),
        Ok(_) => if at + 1 < plan.len() {
            ProgressView::Next(at + 1)
        } else {
            ProgressView::Finished
        },
    }
}

/// Decides what follows the outcome of the step with a number: the next one,
/// the end, or, after an error, nothing more.
pub fn advance(plan: &Vec<Planned>, at: usize, outcome: Result<(), Failure>) -> (r: Progress)
    requires
        at < plan@.len(),
    ensures
        r@ == progress(plan_view(plan@), at as nat, crate::failure::done(outcome)),
{
    match outcome {
        Err(f) => {
            assert(plan_view(plan@)[at as int] == plan@[at as int]@);
            match &plan[at].context {
                Some(c) => Progress::Stopped(f.context(c.as_str().to_owned())),
                None => Progress::Stopped(f),
            }
        },
        Ok(_) => {
            assert(plan_view(plan@).len() == plan@.len());
            if at < plan.len() - 1 {
                Progress::Next(at + 1)
            } else {
                Progress::Finished
            }
        },
    }
}

/// The numbers of the steps that are performed, given what each would come to.
pub open spec fn performed(
    plan: Seq<PlannedView>,
    at: nat,
    outcomes: Seq<Result<(), Seq<Seq<char>>>>,
) -> Seq<nat>
    decreases plan.len() - at,
{
    if at >= plan.len() {
        seq![]
    } else {
        match progress(plan, at, outcomes[at as int]) {
            ProgressView::Next(next) => if next == at + 1 {
                seq![at] + performed(plan, next, outcomes)
            } else {
                seq![at]
            },
            _ => seq![at],
        }
    }
}

/// A step is performed only if every step before it succeeded.
pub proof fn lemma_performed_after_success(
    plan: Seq<PlannedView>,
    at: nat,
    outcomes: Seq<Result<(), Seq<Seq<char>>>>,
    step: nat,
)
    requires
        performed(plan, at, outcomes).contains(step),
    ensures
        at <= step < plan.len(),
        forall|i: int| at <= i < step ==> (#[trigger] outcomes[i]) is Ok,
    decreases plan.len() - at,
{
    if at < plan.len() {
        let all = performed(plan, at, outcomes);
        let k = choose|k: int| 0 <= k < all.len() && all[k] == step;
        if k > 0 {
            let rest = performed(plan, at + 1, outcomes);
            assert(all == seq![at] + rest);
            assert(rest[k - 1] == step);
            lemma_performed_after_success(plan, at + 1, outcomes, step);
        } else {
            assert(all[0] == at);
        }
    }
}

/// The hooks of a `setup` field as steps.
pub open spec fn hook_steps(
    setup: Option<SetupSpec>,
    cwd: Seq<char>,
    phase: Phase,
    tool: Seq<char>,
) -> Seq<PlannedView> {
    match setup {
        Some(spec) => {
            let cmds = sources::setup_commands(spec, phase);
            Seq::new(
                cmds.len(),
                |i: int|
                    within(
                        StepView::Hook { cmd: cmds[i], cwd },
                        "setup hook failed for "@ + tool,
                    ),
            )
        },
        None => seq![],
    }
}

/// Appends the hooks of a `setup` field to a plan.
pub fn push_hooks(
    plan: &mut Vec<Planned>,
    setup: &Option<SetupSpec>,
    cwd: &str,
    phase: Phase,
    tool: &str,
)
    ensures
        plan_view(final(plan)@) == plan_view(old(plan)@) + hook_steps(*setup, cwd@, phase, tool@),
{
    let ghost before = plan_view(plan@);
    let ghost steps = hook_steps(*setup, cwd@, phase, tool@);
    match setup {
        Some(spec) => {
            let cmds = sources::run_setup(spec, phase);
            let mut i: usize = 0;
            assert(before + steps.take(0) =~= before);
            while i < cmds.len()
                invariant
                    i <= cmds.len(),
                    *setup == Some(*spec),
                    steps == hook_steps(*setup, cwd@, phase, tool@),
                    text::texts(cmds@) == sources::setup_commands(*spec, phase),
                    plan_view(plan@) == before + steps.take(i as int),
                decreases cmds.len() - i,
            {
                let ghost so_far = plan_view(plan@);
                assert(text::texts(cmds@)[i as int] == cmds@[i as int]@);
                let step = Planned {
                    step: Step::Hook { cmd: cmds[i].as_str().to_owned(), cwd: cwd.to_owned() },
                    context: Some(strings::cat2("setup hook failed for ", tool)),
                };
                let ghost view = step@;
                plan.push(step);
                assert(plan_view(plan@) =~= so_far.push(view));
                i += 1;
                assert(steps.take(i as int) =~= steps.take(i - 1).push(steps[i - 1]));
                assert(before + steps.take(i - 1).push(view) =~= (before + steps.take(
                    i - 1,
                )).push(view));
            }
            assert(text::texts(cmds@).len() == cmds@.len());
            assert(steps.take(i as int) =~= steps);
        },
        None => {
            assert(before + steps =~= before);
        },
    }
}

/// Appends a step to a plan.
pub fn push_step(plan: &mut Vec<Planned>, step: Step, context: Option<String>)
    ensures
        plan_view(final(plan)@) == plan_view(old(plan)@).push(
            PlannedView { step: step@, context: text::opt_text(context) },
        ),
{
    let ghost before = plan_view(plan@);
    let planned = Planned { step, context };
    let ghost view = planned@;
    plan.push(planned);
    assert(plan_view(plan@) =~= before.push(view));
}

/// The end of an install that is staged next to the live version: the links,
/// the swap, and only then what needs the new version in place.
pub open spec fn collected_end(partial: Seq<char>, final_dir: Seq<char>, tool: Seq<char>) -> Seq<
    PlannedView,
> {
    seq![
        within(
            StepView::CollectBins { search_dir: partial, link_root: final_dir },
            "failed to collect binaries for "@ + tool,
        ),
        within(
            StepView::CollectCompletions {
                search_dir: partial,
                link_root: final_dir,
                beside_bins: true,
            },
            "failed to collect completions for "@ + tool,
        ),
        plain(StepView::Finalize { partial, final_dir }),
        plain(StepView::ResolveEval),
    ]
}

/// Appends the links, the swap and what follows it to a plan.
pub fn push_collected_end(plan: &mut Vec<Planned>, partial: &str, final_dir: &str, tool: &str)
    ensures
        plan_view(final(plan)@) == plan_view(old(plan)@) + collected_end(
            partial@,
            final_dir@,
            tool@,
        ),
{
    let ghost before = plan_view(plan@);
    push_step(
        plan,
        Step::CollectBins { search_dir: partial.to_owned(), link_root: final_dir.to_owned() },
        Some(strings::cat2("failed to collect binaries for ", tool)),
    );
    push_step(
        plan,
        Step::CollectCompletions {
            search_dir: partial.to_owned(),
            link_root: final_dir.to_owned(),
            beside_bins: true,
        },
        Some(strings::cat2("failed to collect completions for ", tool)),
    );
    push_step(
        plan,
        Step::Finalize { partial: partial.to_owned(), final_dir: final_dir.to_owned() },
        None,
    );
    push_step(plan, Step::ResolveEval, None);
    assert(plan_view(plan@) =~= before + collected_end(partial@, final_dir@, tool@));
}

/// The end of an install that a package manager or a script has placed:
/// hooks in a directory of its own, the commands, the completions.
pub open spec fn placed_end(
    setup: Option<SetupSpec>,
    dir: Seq<char>,
    phase: Phase,
    tool: Seq<char>,
    bins: PlannedView,
) -> Seq<PlannedView> {
    hook_steps(setup, dir, phase, tool) + seq![
        bins,
        plain(
            StepView::CollectCompletions { search_dir: dir, link_root: dir, beside_bins: false },
        ),
        plain(StepView::ResolveEval),
    ]
}

/// Appends the end of an install that something else has placed.
pub fn push_placed_end(
    plan: &mut Vec<Planned>,
    setup: &Option<SetupSpec>,
    dir: &str,
    phase: Phase,
    tool: &str,
    bins: Step,
)
    ensures
        plan_view(final(plan)@) == plan_view(old(plan)@) + placed_end(
            *setup,
            dir@,
            phase,
            tool@,
            plain(bins@),
        ),
{
    let ghost before = plan_view(plan@);
    let ghost hooks = hook_steps(*setup, dir@, phase, tool@);
    push_hooks(plan, setup, dir, phase, tool);
    push_step(plan, bins, None);
    push_step(
        plan,
        Step::CollectCompletions {
            search_dir: dir.to_owned(),
            link_root: dir.to_owned(),
            beside_bins: false,
        },
        None,
    );
    push_step(plan, Step::ResolveEval, None);
    assert(plan_view(plan@) =~= before + placed_end(*setup, dir@, phase, tool@, plain(bins@)));
}

/// One step of putting a directory in place.
#[derive(Debug)]
pub enum SwapStep {
    RemoveTree(String),
    /// Rename the first path to the second.
    Rename(String, String),
}

/// How a staged directory takes the place of another: what is there goes, and
/// the new one is renamed into place.
pub fn finalize_partial(partial: &str, final_dir: &str, final_exists: bool) -> (r: Vec<SwapStep>)
    ensures
        r@.len() == if final_exists {
            2nat
        } else {
            1nat
        },
        final_exists ==> r@[0] is RemoveTree && r@[0]->RemoveTree_0@ == final_dir@,
        r@.last() is Rename,
        r@.last()->Rename_0@ == partial@,
        r@.last()->Rename_1@ == final_dir@,
{
    let mut steps: Vec<SwapStep> = Vec::new();
    if final_exists {
        steps.push(SwapStep::RemoveTree(final_dir.to_owned()));
    }
    steps.push(SwapStep::Rename(partial.to_owned(), final_dir.to_owned()));
    steps
}

/// Whether a step removes or replaces a directory, or one that it lies in.
/// What a hook or a program does on its own is not a matter of the plan.
pub open spec fn destroys(step: StepView, dir: Seq<char>) -> bool {
    match step {
        StepView::RemoveTree(p) => path::starts_with(dir, p),
        StepView::Finalize { partial, final_dir } => path::starts_with(dir, partial)
            || path::starts_with(dir, final_dir),
        _ => false,
    }
}

/// Whether a step makes links.
pub open spec fn makes_links(step: StepView) -> bool {
    step is CollectBins || step is CollectCompletions
}

/// Whether a step works on nothing that is live: it makes no links and removes
/// no directory but the staging one.
pub open spec fn stages(step: StepView, partial: Seq<char>) -> bool {
    match step {
        StepView::RemoveTree(p) => p == partial,
        StepView::Finalize { .. } => false,
        _ => !makes_links(step),
    }
}

/// Whether that holds of every step.
pub open spec fn all_stage(start: Seq<PlannedView>, partial: Seq<char>) -> bool {
    forall|i: int| 0 <= i < start.len() ==> stages((#[trigger] start[i]).step, partial)
}

/// In a plan with the staged end, links are made only at that end, the version
/// of the same name is replaced only once they have been made, and the `eval`
/// command is looked at only after that. No directory outside the staging one
/// and the new version's is ever removed.
pub proof fn lemma_staged_order(
    start: Seq<PlannedView>,
    partial: Seq<char>,
    final_dir: Seq<char>,
    tool: Seq<char>,
)
    requires
        all_stage(start, partial),
        !path::starts_with(final_dir, partial),
    ensures
        ({
            let plan = start + collected_end(partial, final_dir, tool);
            let n = plan.len();
            &&& n >= 4
            &&& plan[n - 1].step is ResolveEval
            &&& destroys(plan[n - 2].step, final_dir)
            &&& plan[n - 3].step is CollectCompletions
            &&& plan[n - 4].step is CollectBins
            &&& forall|i: int|
                0 <= i < n && i != n - 2 ==> !destroys((#[trigger] plan[i]).step, final_dir)
            &&& forall|i: int|
                0 <= i < n ==> (makes_links((#[trigger] plan[i]).step) <==> n - 4 <= i <= n - 3)
            &&& forall|i: int, dir: Seq<char>|
                0 <= i < n && !path::starts_with(dir, partial) && !path::starts_with(
                    dir,
                    final_dir,
                ) ==> !#[trigger] destroys(plan[i].step, dir)
        }),
{
    let end = collected_end(partial, final_dir, tool);
    let plan = start + end;
    let n = plan.len();
    assert forall|i: int| 0 <= i < n implies #[trigger] plan[i] == if i < n - 4 {
        start[i]
    } else {
        end[i - (n - 4)]
    } by {}
    assert(plan[n - 2] == end[2]);
    assert(path::components(final_dir).is_prefix_of(path::components(final_dir)));
}

/// Whatever a step comes to, what is live before a staged install is left
/// alone unless every step up to the links has succeeded: only then are links
/// made, only after them is a version of the same name replaced, and nothing
/// outside the staging directory and the new version's is ever removed.
pub proof fn lemma_failure_keeps_the_old_version(
    start: Seq<PlannedView>,
    partial: Seq<char>,
    final_dir: Seq<char>,
    tool: Seq<char>,
    outcomes: Seq<Result<(), Seq<Seq<char>>>>,
    step: nat,
)
    requires
        all_stage(start, partial),
        !path::starts_with(final_dir, partial),
        performed(start + collected_end(partial, final_dir, tool), 0, outcomes).contains(step),
    ensures
        ({
            let plan = start + collected_end(partial, final_dir, tool);
            &&& step < plan.len()
            &&& forall|i: int| 0 <= i < step ==> (#[trigger] outcomes[i]) is Ok
            &&& makes_links(plan[step as int].step) ==> step >= start.len()
            &&& destroys(plan[step as int].step, final_dir) ==> step == plan.len() - 2
            &&& forall|dir: Seq<char>|
                !path::starts_with(dir, partial) && !path::starts_with(dir, final_dir)
                    ==> !#[trigger] destroys(plan[step as int].step, dir)
        }),
{
    let plan = start + collected_end(partial, final_dir, tool);
    lemma_performed_after_success(plan, 0, outcomes, step);
    lemma_staged_order(start, partial, final_dir, tool);
}

/// The directory that a version is staged in neither is the one that it lives
/// in nor holds it.
pub proof fn lemma_staged_elsewhere(dir: Seq<char>, version: Seq<char>)
    ensures
        !path::starts_with(path::join(dir, version), path::join(dir, version + ".partial"@)),
{
    reveal_strlit(".partial");
    let staged = version + ".partial"@;
    assert(staged[0] == if version.len() > 0 {
        version[0]
    } else {
        '.'
    });
    assert(path::join(dir, staged) =~= path::join(dir, version) + ".partial"@);
    path::lemma_grown_elsewhere(path::join(dir, version), ".partial"@);
}

/// Another version lies neither in the directory of this one nor in the one
/// that this one is staged in.
pub proof fn lemma_versions_apart(dir: Seq<char>, version: Seq<char>, old: Seq<char>)
    requires
        path::is_name(version),
        path::is_name(old),
        old != version,
        old != version + ".partial"@,
    ensures
        !path::starts_with(path::join(dir, old), path::join(dir, version)),
        !path::starts_with(path::join(dir, old), path::join(dir, version + ".partial"@)),
{
    reveal_strlit(".partial");
    reveal_strlit(".");
    reveal_strlit("..");
    let staged = version + ".partial"@;
    if staged.contains('/') {
        let i = choose|i: int| 0 <= i < staged.len() && staged[i] == '/';
        assert(i < version.len() ==> version[i] == '/');
    }
    path::lemma_names_apart(dir, old, version);
    path::lemma_names_apart(dir, old, staged);
}

/// Whether a step of a staged install keeps to its place: everything is
/// unpacked, built, tried and searched in the staging directory, links point
/// at where the version will live, and the staging directory is what takes
/// that place.
pub open spec fn keeps_to_staging(step: StepView, staging: Seq<char>, live: Seq<char>) -> bool {
    match step {
        StepView::RemoveTree(p) => p == staging,
        StepView::Extract { dest, .. } => dest == staging,
        StepView::Hook { cwd, .. } => cwd == staging,
        StepView::SmokeTest { search_dir } => search_dir == staging,
        StepView::CollectBins { search_dir, link_root } => search_dir == staging && link_root
            == live,
        StepView::CollectCompletions { search_dir, link_root, beside_bins } => search_dir == staging
            && link_root == live && beside_bins,
        StepView::Finalize { partial, final_dir } => partial == staging && final_dir == live,
        StepView::Download { .. } => true,
        StepView::Run { .. } => true,
        StepView::ResolveEval => true,
        StepView::CreateDir(_) => false,
        StepView::FetchScript { .. } => false,
        StepView::ResolveBins { .. } => false,
        StepView::ExpectBins { .. } => false,
    }
}

/// The hooks of an install are the commands of its `setup` field: all of them,
/// in their order, those of the phase where there are two, all in one
/// directory.
pub proof fn lemma_hooks_are_the_setup(
    setup: Option<SetupSpec>,
    cwd: Seq<char>,
    phase: Phase,
    tool: Seq<char>,
)
    ensures
        ({
            let hooks = hook_steps(setup, cwd, phase, tool);
            &&& forall|i: int|
                0 <= i < hooks.len() ==> (#[trigger] hooks[i]).context == Some(
                    "setup hook failed for "@ + tool,
                )
            &&& match setup {
                None => hooks.len() == 0,
                Some(SetupSpec::Single(cmd)) => hooks.len() == 1 && hooks[0].step
                    == (StepView::Hook { cmd: cmd@, cwd }),
                Some(SetupSpec::Multiple(cmds)) => hooks.len() == cmds@.len() && forall|i: int|
                    0 <= i < cmds@.len() ==> (#[trigger] hooks[i]).step == (StepView::Hook {
                        cmd: cmds@[i]@,
                        cwd,
                    }),
                Some(SetupSpec::Split { install, update }) => hooks.len() == 1 && hooks[0].step
                    == (StepView::Hook {
                    cmd: if phase == Phase::Install {
                        install@
                    } else {
                        update@
                    },
                    cwd,
                }),
            }
        }),
{
}

/// A staged install ends in the links of the commands, those of the
/// completions, the swap and the look at the `eval` command, each once, and an
/// error in the links is put into context.
pub proof fn lemma_staged_end(partial: Seq<char>, final_dir: Seq<char>, tool: Seq<char>)
    ensures
        ({
            let end = collected_end(partial, final_dir, tool);
            &&& end.len() == 4
            &&& end[0].step == (StepView::CollectBins { search_dir: partial, link_root: final_dir })
            &&& end[0].context == Some("failed to collect binaries for "@ + tool)
            &&& end[1].step == (StepView::CollectCompletions {
                search_dir: partial,
                link_root: final_dir,
                beside_bins: true,
            })
            &&& end[1].context == Some("failed to collect completions for "@ + tool)
            &&& end[2].step == (StepView::Finalize { partial, final_dir })
            &&& end[3].step is ResolveEval
        }),
{
}

/// An install that something else has placed ends in its hooks, its commands,
/// its completions and the look at the `eval` command, all in one directory;
/// nothing is removed or swapped.
pub proof fn lemma_placed_end(
    setup: Option<SetupSpec>,
    dir: Seq<char>,
    phase: Phase,
    tool: Seq<char>,
    bins: PlannedView,
)
    ensures
        ({
            let end = placed_end(setup, dir, phase, tool, bins);
            let hooks = hook_steps(setup, dir, phase, tool);
            let n = end.len();
            &&& n == hooks.len() + 3
            &&& end.take(hooks.len() as int) == hooks
            &&& end[n - 3] == bins
            &&& end[n - 2].step == (StepView::CollectCompletions {
                search_dir: dir,
                link_root: dir,
                beside_bins: false,
            })
            &&& end[n - 1].step is ResolveEval
        }),
{
    let hooks = hook_steps(setup, dir, phase, tool);
    assert(placed_end(setup, dir, phase, tool, bins).take(hooks.len() as int) =~= hooks);
}

/// A plan goes on to the next step exactly after a success, stops exactly
/// after an error, and is finished exactly after the last success; an error
/// keeps its own words behind the context of its step.
pub proof fn lemma_plan_goes_on(
    plan: Seq<PlannedView>,
    at: nat,
    outcome: Result<(), Seq<Seq<char>>>,
)
    requires
        at < plan.len(),
    ensures
        progress(plan, at, outcome) is Stopped <==> outcome is Err,
        progress(plan, at, outcome) is Finished <==> outcome is Ok && at == plan.len() - 1,
        progress(plan, at, outcome) is Next <==> outcome is Ok && at < plan.len() - 1,
        progress(plan, at, outcome) is Next ==> progress(plan, at, outcome)->Next_0 == at + 1,
        outcome is Err && plan[at as int].context is None ==> progress(plan, at, outcome)
            == ProgressView::Stopped(outcome->Err_0),
        outcome is Err && plan[at as int].context is Some ==> progress(plan, at, outcome)
            == ProgressView::Stopped(seq![plan[at as int].context->0] + outcome->Err_0),
{
}

/// Where every step succeeds, every step is performed, in its order.
pub proof fn lemma_all_performed(
    plan: Seq<PlannedView>,
    at: nat,
    outcomes: Seq<Result<(), Seq<Seq<char>>>>,
)
    requires
        at <= plan.len(),
        forall|i: int| at <= i < plan.len() ==> (#[trigger] outcomes[i]) is Ok,
    ensures
        performed(plan, at, outcomes) == Seq::new((plan.len() - at) as nat, |i: int| (at + i) as nat),
    decreases plan.len() - at,
{
    if at < plan.len() {
        assert(outcomes[at as int] is Ok);
        if at + 1 < plan.len() {
            lemma_all_performed(plan, at + 1, outcomes);
        }
        assert(performed(plan, at, outcomes) =~= Seq::new(
            (plan.len() - at) as nat,
            |i: int| (at + i) as nat,
        ));
    }
}

} // verus!
