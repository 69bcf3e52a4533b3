//! Node packages, which `bun` or `npm` installs into a tree of its own.

use vstd::prelude::*;

use crate::config;
use crate::config::{BinSpec, NodeEntry, NodeManager};
use crate::failure::Failure;
use crate::lock::{ToolLock, ToolLockView};
use crate::path;
use crate::paths::Layout;
use crate::paths;
use crate::sources;
use crate::sources::collect;
use crate::sources::collect::Link;
use crate::sources::plan;
use crate::sources::plan::{Planned, PlannedView, Step, StepView};
use crate::sources::{EvalState, Phase};
use crate::stamp::Timestamp;
use crate::strings;
use crate::table::{NameSet, Table};
use crate::text;
use crate::version::npm::NpmInfo;

verus! {

/// The package manager that is used.
#[derive(Debug, Clone, Copy, PartialEq, Eq, Structural)]
pub enum ResolvedManager {
    Bun,
    Npm,
}

impl ResolvedManager {
    pub open spec fn recorded(self) -> Seq<char> {
        match self {
            ResolvedManager::Bun => "bun"@,
            ResolvedManager::Npm => "npm"@,
        }
    }

    pub fn binary_name(self) -> (r: &'static str)
        ensures
            r@ == self.recorded(),
    {
        match self {
            ResolvedManager::Bun => "bun",
            ResolvedManager::Npm => "npm",
        }
    }

    /// Reads a recorded manager back; an update never looks for another one.
    pub fn parse(recorded: &str) -> (r: Result<ResolvedManager, Failure>)
        ensures
            match r {
                Ok(m) => recorded@ == m.recorded(),
                Err(f) => {
                    &&& recorded@ != ResolvedManager::Bun.recorded()
                    &&& recorded@ != ResolvedManager::Npm.recorded()
                    &&& f@ == seq![
                        "unknown node package manager recorded in rig.lock: "@ + recorded@,
                    ]
                },
            },
    {
        if strings::same(recorded, "bun") {
            Ok(ResolvedManager::Bun)
        } else if strings::same(recorded, "npm") {
            Ok(ResolvedManager::Npm)
        } else {
            Err(
                Failure::new(
                    strings::cat2(
                        "unknown node package manager recorded in rig.lock: ",
                        recorded,
                    ),
                ),
            )
        }
    }
}

/// What is recorded of a manager names it and no other.
pub proof fn lemma_recorded_manager(a: ResolvedManager, b: ResolvedManager)
    requires
        a.recorded() == b.recorded(),
    ensures
        a == b,
{
    reveal_strlit("bun");
    reveal_strlit("npm");
    assert("bun"@[0] == 'b');
    assert("npm"@[0] == 'n');
}

/// The manager for a configured choice. Only the automatic one falls back.
pub open spec fn manager_for(configured: NodeManager, bun: bool, npm: bool) -> Result<
    ResolvedManager,
    Seq<Seq<char>>,
> {
    match configured {
        NodeManager::Auto => if bun {
            Ok(ResolvedManager::Bun)
        } else if npm {
            Ok(ResolvedManager::Npm)
        } else {
            Err(seq!["neither bun nor npm found on PATH; run `rig install bun`"@])
        },
        NodeManager::Bun => if bun {
            Ok(ResolvedManager::Bun)
        } else {
            Err(seq!["bun is configured but not found on PATH"@])
        },
        NodeManager::Npm => if npm {
            Ok(ResolvedManager::Npm)
        } else {
            Err(seq!["npm is configured but not found on PATH"@])
        },
    }
}

pub fn detect_manager(configured: NodeManager, bun_on_path: bool, npm_on_path: bool) -> (r: Result<
    ResolvedManager,
    Failure,
>)
    ensures
        match manager_for(configured, bun_on_path, npm_on_path) {
            Ok(m) => r is Ok && r->Ok_0 == m,
            Err(chain) => r is Err && r->Err_0@ == chain,
        },
{
    match configured {
        NodeManager::Auto => {
            if bun_on_path {
                Ok(ResolvedManager::Bun)
            } else if npm_on_path {
                Ok(ResolvedManager::Npm)
            } else {
                Err(
                    Failure::new(
                        "neither bun nor npm found on PATH; run `rig install bun`".to_owned(),
                    ),
                )
            }
        },
        NodeManager::Bun => {
            if bun_on_path {
                Ok(ResolvedManager::Bun)
            } else {
                Err(Failure::new("bun is configured but not found on PATH".to_owned()))
            }
        },
        NodeManager::Npm => {
            if npm_on_path {
                Ok(ResolvedManager::Npm)
            } else {
                Err(Failure::new("npm is configured but not found on PATH".to_owned()))
            }
        },
    }
}

/// The commands that a package provides: those configured, else those that
/// the registry lists, else one with the package's short name.
pub open spec fn bin_names(entry: NodeEntry, info: NpmInfo) -> Seq<Seq<char>> {
    let short = config::short_name(entry.name@);
    match entry.common.bin {
        Some(spec) => config::declared(Some(&spec), short),
        None => if info.bin.keys().len() > 0 {
            info.bin.keys()
        } else {
            seq![short]
        },
    }
}

fn table_keys(t: &Table<String>) -> (r: Vec<String>)
    ensures
        text::texts(r@) == t.keys(),
{
    let mut out: Vec<String> = Vec::new();
    let n = t.len();
    let mut i: usize = 0;
    assert(text::texts(out@) =~= t.keys().take(0));
    while i < n
        invariant
            i <= n,
            n == t.keys().len(),
            text::texts(out@) == t.keys().take(i as int),
        decreases n - i,
    {
        let ghost before = out@;
        out.push(t.key(i).to_owned());
        assert(text::texts(out@) =~= text::texts(before).push(t.keys()[i as int]));
        i += 1;
        assert(t.keys().take(i as int) =~= t.keys().take(i - 1).push(t.keys()[i - 1]));
    }
    assert(t.keys().take(i as int) =~= t.keys());
    out
}

pub fn declared_bin_names(entry: &NodeEntry, info: &NpmInfo) -> (r: Vec<String>)
    ensures
        text::texts(r@) == bin_names(*entry, *info),
{
    let short = config::tool_key(entry.name.as_str());
    match &entry.common.bin {
        Some(spec) => BinSpec::declared_names(Some(spec), short),
        None => {
            if !info.bin.is_empty() {
                table_keys(&info.bin)
            } else {
                let r = vec![short.to_owned()];
                assert(text::texts(r@) =~= seq![short@]);
                r
            }
        },
    }
}

/// Where a manager puts a package and its commands.
#[derive(Debug)]
pub struct NodePlace {
    pub root: String,
    pub bin_dir: String,
    /// The directory that `bun` is told to install under.
    pub prefix_dir: String,
}

/// Where `bun` puts a package, told to stay under the prefix.
pub fn bun_place(entry: &NodeEntry, layout: &Layout) -> (r: Result<NodePlace, Failure>)
    ensures
        match path::parent(layout.prefix_bin_dir@) {
            Some(prefix) => {
                &&& r is Ok
                &&& r->Ok_0.prefix_dir@ == prefix
                &&& r->Ok_0.bin_dir@ == layout.prefix_bin_dir@
                &&& r->Ok_0.root@ == path::join(
                    path::join(prefix, "install/global/node_modules"@),
                    entry.name@,
                )
            },
            None => r is Err && r->Err_0@ == seq!["prefix_bin_dir must have a parent"@],
        },
{
    match path::path_parent(layout.prefix_bin_dir.as_str()) {
        Some(prefix) => {
            let modules = path::join_path(prefix.as_str(), "install/global/node_modules");
            Ok(
                NodePlace {
                    root: path::join_path(modules.as_str(), entry.name.as_str()),
                    bin_dir: layout.prefix_bin_dir.as_str().to_owned(),
                    prefix_dir: prefix,
                },
            )
        },
        None => Err(Failure::new("prefix_bin_dir must have a parent".to_owned())),
    }
}

/// Where `npm` puts a package, from what `npm prefix -g` said.
pub fn npm_place(entry: &NodeEntry, success: bool, stdout: &str) -> (r: Result<NodePlace, Failure>)
    ensures
        success ==> {
            let prefix = text::trim(stdout@);
            &&& r is Ok
            &&& r->Ok_0.prefix_dir@ == prefix
            &&& r->Ok_0.bin_dir@ == path::join(prefix, "bin"@)
            &&& r->Ok_0.root@ == path::join(
                path::join(prefix, "lib/node_modules"@),
                entry.name@,
            )
        },
        !success ==> r is Err && r->Err_0@ == seq!["npm prefix -g failed"@],
{
    if !success {
        return Err(Failure::new("npm prefix -g failed".to_owned()));
    }
    let prefix = strings::trim(stdout);
    let modules = path::join_path(prefix, "lib/node_modules");
    Ok(
        NodePlace {
            root: path::join_path(modules.as_str(), entry.name.as_str()),
            bin_dir: path::join_path(prefix, "bin"),
            prefix_dir: prefix.to_owned(),
        },
    )
}

/// The paths that a package's commands will stand at. Each has to pass the
/// same check as any other link before the manager runs.
pub fn bin_targets(bin_dir: &str, names: &Vec<String>) -> (r: Vec<String>)
    ensures
        text::texts(r@) == placed_bins(bin_dir@, text::texts(names@)),
{
    let ghost wanted = placed_bins(bin_dir@, text::texts(names@));
    let mut out: Vec<String> = Vec::new();
    let mut i: usize = 0;
    assert(text::texts(out@) =~= wanted.take(0));
    while i < names.len()
        invariant
            i <= names.len(),
            wanted == placed_bins(bin_dir@, text::texts(names@)),
            text::texts(out@) == wanted.take(i as int),
        decreases names.len() - i,
    {
        let ghost before = out@;
        out.push(path::join_path(bin_dir, names[i].as_str()));
        assert(text::texts(out@) =~= text::texts(before).push(wanted[i as int]));
        i += 1;
        assert(wanted.take(i as int) =~= wanted.take(i - 1).push(wanted[i - 1]));
    }
    assert(wanted.take(i as int) =~= wanted);
    out
}

pub open spec fn placed_bins(bin_dir: Seq<char>, names: Seq<Seq<char>>) -> Seq<Seq<char>> {
    Seq::new(names.len(), |i: int| path::join(bin_dir, names[i]))
}

/// The step that runs the manager.
pub open spec fn manager_step(
    entry: NodeEntry,
    home: Seq<char>,
    version: Seq<char>,
    manager: ResolvedManager,
    prefix_dir: Seq<char>,
) -> PlannedView {
    let told = match manager {
        ResolvedManager::Bun => seq![("BUN_INSTALL"@, prefix_dir)],
        ResolvedManager::Npm => seq![],
    };
    plan::plain(
        StepView::Run {
            program: manager.recorded(),
            args: seq!["install"@, "-g"@, entry.name@ + "@"@ + version],
            dir: None,
            env: told + sources::applied(home, entry.common.env),
            label: manager.recorded() + " install -g "@ + entry.name@,
        },
    )
}

/// The steps of an install.
pub open spec fn steps(
    entry: NodeEntry,
    layout: Layout,
    home: Seq<char>,
    version: Seq<char>,
    manager: ResolvedManager,
    prefix_dir: Seq<char>,
    bin_dir: Seq<char>,
    phase: Phase,
) -> Seq<PlannedView> {
    let scratch = paths::version_dir(
        layout.state_dir@,
        config::short_name(entry.name@),
        version,
    );
    seq![
        manager_step(entry, home, version, manager, prefix_dir),
        plan::plain(StepView::CreateDir(scratch)),
    ] + plan::placed_end(
        entry.common.setup,
        scratch,
        phase,
        entry.name@,
        plan::plain(StepView::ExpectBins { bin_dir }),
    )
}

/// The steps that install a version with a manager.
pub fn install_with_manager(
    entry: &NodeEntry,
    layout: &Layout,
    home: &str,
    version: &str,
    manager: ResolvedManager,
    place: &NodePlace,
    phase: Phase,
) -> (r: Vec<Planned>)
    ensures
        plan::plan_view(r@) == steps(
            *entry,
            *layout,
            home@,
            version@,
            manager,
            place.prefix_dir@,
            place.bin_dir@,
            phase,
        ),
{
    let scratch = layout.pkg_dir(config::tool_key(entry.name.as_str()), version);
    let mut args: Vec<String> = Vec::new();
    args.push("install".to_owned());
    args.push("-g".to_owned());
    args.push(strings::cat3(entry.name.as_str(), "@", version));
    assert(text::texts(args@) =~= seq!["install"@, "-g"@, entry.name@ + "@"@ + version@]);
    let mut env: Vec<(String, String)> = Vec::new();
    if manager == ResolvedManager::Bun {
        env.push(("BUN_INSTALL".to_owned(), place.prefix_dir.as_str().to_owned()));
    }
    let ghost told = text::pairs(env@);
    assert(told =~= match manager {
        ResolvedManager::Bun => seq![("BUN_INSTALL"@, place.prefix_dir@)],
        ResolvedManager::Npm => seq![],
    });
    let mut more = sources::apply_env(home, &entry.common.env);
    let ghost applied = text::pairs(more@);
    env.append(&mut more);
    assert(text::pairs(env@) =~= told + applied);
    let mut out: Vec<Planned> = Vec::new();
    plan::push_step(
        &mut out,
        Step::Run {
            program: manager.binary_name().to_owned(),
            args,
            dir: None,
            env,
            label: strings::cat3(
                manager.binary_name(),
                " install -g ",
                entry.name.as_str(),
            ),
        },
        None,
    );
    plan::push_step(&mut out, Step::CreateDir(scratch.as_str().to_owned()), None);
    assert(plan::plan_view(out@) =~= seq![
        manager_step(*entry, home@, version@, manager, place.prefix_dir@),
        plan::plain(StepView::CreateDir(scratch@)),
    ]);
    plan::push_placed_end(
        &mut out,
        &entry.common.setup,
        scratch.as_str(),
        phase,
        entry.name.as_str(),
        Step::ExpectBins { bin_dir: place.bin_dir.as_str().to_owned() },
    );
    out
}

/// The first of several paths, not before `from`, that does not exist.
pub open spec fn missing_from(paths: Seq<Seq<char>>, existing: Set<Seq<char>>, from: int) -> Option<
    Seq<char>,
>
    decreases paths.len() - from,
{
    if from < 0 || from >= paths.len() {
        None
    } else if !existing.contains(paths[from]) {
        Some(paths[from])
    } else {
        missing_from(paths, existing, from + 1)
    }
}

/// The commands that a manager placed; it is an error if one is missing.
pub fn expect_bins(
    entry: &NodeEntry,
    manager: ResolvedManager,
    bin_dir: &str,
    names: &Vec<String>,
    existing: &NameSet,
) -> (r: Result<Vec<String>, Failure>)
    ensures
        sources::texts_or(r) == match missing_from(
            placed_bins(bin_dir@, text::texts(names@)),
            existing@,
            0,
        ) {
            Some(missing) => Err::<Seq<Seq<char>>, Seq<Seq<char>>>(
                seq![
                    "expected "@ + missing + " to exist after installing "@ + entry.name@
                        + " via "@ + manager.recorded() + ", but it doesn't"@,
                ],
            ),
            None => Ok(placed_bins(bin_dir@, text::texts(names@))),
        },
{
    let bins = bin_targets(bin_dir, names);
    let ghost all = placed_bins(bin_dir@, text::texts(names@));
    let mut i: usize = 0;
    while i < bins.len()
        invariant
            i <= bins.len(),
            all == placed_bins(bin_dir@, text::texts(names@)),
            all == text::texts(bins@),
            missing_from(all, existing@, 0) == missing_from(all, existing@, i as int),
        decreases bins.len() - i,
    {
        assert(all[i as int] == bins@[i as int]@);
        if !existing.contains(bins[i].as_str()) {
            let mut message = strings::cat5(
                "expected ",
                bins[i].as_str(),
                " to exist after installing ",
                entry.name.as_str(),
                " via ",
            );
            message.append(manager.binary_name());
            message.append(", but it doesn't");
            return Err(Failure::new(message));
        }
        i += 1;
    }
    Ok(bins)
}

/// The record of an installed package.
pub fn lock_entry(
    entry: &NodeEntry,
    layout: &Layout,
    version: String,
    manager: ResolvedManager,
    root: String,
    bins: Vec<String>,
    completions: &Vec<Link>,
    installed_at: Timestamp,
    eval: EvalState,
) -> (r: ToolLock)
    ensures
        r@ == (ToolLockView {
            version: version@,
            source: "node:"@ + entry.name@,
            installed_at,
            bins: text::texts(bins@),
            completions: collect::targets(completions@),
            asset: None,
            size: None,
            pkg: Some(
                paths::version_dir(layout.state_dir@, config::short_name(entry.name@), version@),
            ),
            manager: Some(manager.recorded()),
            root: Some(root@),
            eval_cacheable: eval@.cacheable,
            eval_cached_output: eval@.output,
            eval_evidence: eval@.evidence,
        }),
{
    let scratch = layout.pkg_dir(config::tool_key(entry.name.as_str()), version.as_str());
    ToolLock {
        version,
        source: strings::cat2("node:", entry.name.as_str()),
        installed_at,
        bins,
        completions: collect::link_targets(completions),
        asset: None,
        size: None,
        pkg: Some(scratch),
        manager: Some(manager.binary_name().to_owned()),
        root: Some(root),
        eval_cacheable: eval.cacheable,
        eval_cached_output: eval.output,
        eval_evidence: eval.evidence,
    }
}

/// A configured manager is used or nothing is; the automatic choice prefers
/// `bun`, and fails exactly if neither is there.
pub proof fn lemma_which_manager(bun: bool, npm: bool)
    ensures
        manager_for(NodeManager::Bun, bun, npm) is Ok <==> bun,
        manager_for(NodeManager::Npm, bun, npm) is Ok <==> npm,
        manager_for(NodeManager::Auto, bun, npm) is Ok <==> bun || npm,
        bun ==> manager_for(NodeManager::Bun, bun, npm)->Ok_0 == ResolvedManager::Bun,
        npm ==> manager_for(NodeManager::Npm, bun, npm)->Ok_0 == ResolvedManager::Npm,
        bun ==> manager_for(NodeManager::Auto, bun, npm)->Ok_0 == ResolvedManager::Bun,
        !bun && npm ==> manager_for(NodeManager::Auto, bun, npm)->Ok_0 == ResolvedManager::Npm,
{
}

/// The commands of a package: a `bin` field decides alone, the registry's list
/// decides where there is none, and a package without either has one command
/// of its short name.
pub proof fn lemma_commands_of_a_package(entry: NodeEntry, info: NpmInfo)
    ensures
        entry.common.bin is Some ==> bin_names(entry, info) == config::declared(
            Some(&entry.common.bin->0),
            config::short_name(entry.name@),
        ),
        entry.common.bin is None && info.bin.keys().len() > 0 ==> bin_names(entry, info)
            == info.bin.keys(),
        entry.common.bin is None && info.bin.keys().len() == 0 ==> bin_names(entry, info) == seq![
            config::short_name(entry.name@),
        ],
{
}

/// A package is installed globally by its manager, at the version that was
/// asked for; `bun` is told where to install, `npm` is told nothing, and the
/// entry's own variables come after that. Then come its hooks, its commands and
/// its completions, in the directory of the version.
pub proof fn lemma_install_of_a_package(
    entry: NodeEntry,
    layout: Layout,
    home: Seq<char>,
    version: Seq<char>,
    manager: ResolvedManager,
    prefix_dir: Seq<char>,
    bin_dir: Seq<char>,
    phase: Phase,
)
    ensures
        ({
            let all = steps(
                entry,
                layout,
                home,
                version,
                manager,
                prefix_dir,
                bin_dir,
                phase,
            );
            let n = all.len();
            let dir = path::join(
                path::join(
                    path::join(layout.state_dir@, "pkg"@),
                    config::short_name(entry.name@),
                ),
                version,
            );
            let hooks = plan::hook_steps(entry.common.setup, dir, phase, entry.name@);
            let own = sources::applied(home, entry.common.env);
            &&& n == 5 + hooks.len()
            &&& all[0].step is Run
            &&& all[0].step->args == seq!["install"@, "-g"@, entry.name@ + "@"@ + version]
            &&& manager == ResolvedManager::Bun ==> all[0].step->program == "bun"@
                && all[0].step->env == seq![("BUN_INSTALL"@, prefix_dir)] + own
            &&& manager == ResolvedManager::Npm ==> all[0].step->program == "npm"@
                && all[0].step->env == own
            &&& all[1].step == StepView::CreateDir(dir)
            &&& all.subrange(2, n - 3) == hooks
            &&& all[n - 3].step == StepView::ExpectBins { bin_dir }
            &&& all[n - 2].step == (StepView::CollectCompletions {
                search_dir: dir,
                link_root: dir,
                beside_bins: false,
            })
            &&& all[n - 1].step is ResolveEval
        }),
{
    let all = steps(entry, layout, home, version, manager, prefix_dir, bin_dir, phase);
    let n = all.len();
    let dir = paths::version_dir(layout.state_dir@, config::short_name(entry.name@), version);
    let hooks = plan::hook_steps(entry.common.setup, dir, phase, entry.name@);
    let own = sources::applied(home, entry.common.env);
    assert(all.subrange(2, n - 3) =~= hooks);
    assert(Seq::<(Seq<char>, Seq<char>)>::empty() + own =~= own);
}

proof fn lemma_missing_from(paths: Seq<Seq<char>>, existing: Set<Seq<char>>, from: int)
    requires
        0 <= from,
    ensures
        match missing_from(paths, existing, from) {
            Some(p) => exists|i: int|
                {
                    &&& from <= i < paths.len()
                    &&& #[trigger] paths[i] == p
                    &&& !existing.contains(p)
                },
            None => forall|i: int|
                from <= i < paths.len() ==> existing.contains(#[trigger] paths[i]),
        },
    decreases paths.len() - from,
{
    if from < paths.len() && existing.contains(paths[from]) {
        lemma_missing_from(paths, existing, from + 1);
    }
}

/// Every command of a package has to be there after the manager has run: what
/// is missing is one of the paths in the directory of commands that does not
/// exist, and nothing is missing exactly if all of them exist.
pub proof fn lemma_every_command_is_expected(
    bin_dir: Seq<char>,
    names: Seq<Seq<char>>,
    existing: Set<Seq<char>>,
)
    ensures
        ({
            let missing = missing_from(placed_bins(bin_dir, names), existing, 0);
            &&& missing is None <==> forall|i: int|
                0 <= i < names.len() ==> existing.contains(
                    path::join(bin_dir, #[trigger] names[i]),
                )
            &&& missing is Some ==> !existing.contains(missing->0) && exists|i: int|
                0 <= i < names.len() && missing->0 == path::join(bin_dir, #[trigger] names[i])
        }),
{
    let all = placed_bins(bin_dir, names);
    lemma_missing_from(all, existing, 0);
    if missing_from(all, existing, 0) is Some {
        let i = choose|i: int|
            {
                &&& 0 <= i < all.len()
                &&& #[trigger] all[i] == missing_from(all, existing, 0)->0
                &&& !existing.contains(all[i])
            };
        assert(all[i] == path::join(bin_dir, names[i]));
    } else {
        assert forall|i: int| 0 <= i < names.len() implies existing.contains(
            path::join(bin_dir, #[trigger] names[i]),
        ) by {
            assert(existing.contains(all[i]));
        }
    }
}

} // verus!
