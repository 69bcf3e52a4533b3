//! Tools that come as a file of a release.

use vstd::prelude::*;

use crate::config;
use crate::config::{BpickSpec, RepoEntry};
use crate::failure::Failure;
use crate::lock::{ToolLock, ToolLockView};
use crate::path;
use crate::paths::Layout;
use crate::paths;
use crate::sources;
use crate::sources::assets;
use crate::sources::assets::AssetPick;
use crate::sources::collect;
use crate::sources::collect::CollectedArtifacts;
use crate::sources::glob;
use crate::sources::plan;
use crate::sources::plan::{Planned, PlannedView, Step, StepView};
use crate::sources::{EvalState, Phase};
use crate::stamp::Timestamp;
use crate::strings;
use crate::text;
use crate::version::github::{Asset, Release};

verus! {

/// What is said when an install begins.
pub fn announcement(entry: &RepoEntry) -> (r: String)
    ensures
        r@ == "installing "@ + entry.name@ + " via "@ + entry.host.prefix_text() + " release"@,
{
    strings::cat5("installing ", entry.name.as_str(), " via ", entry.host.prefix(), " release")
}

/// Whether a file can be unpacked.
pub open spec fn extractable(name: Seq<char>) -> bool {
    ||| ".tar.gz"@.is_suffix_of(name)
    ||| ".tgz"@.is_suffix_of(name)
    ||| ".zip"@.is_suffix_of(name)
    ||| ".deb"@.is_suffix_of(name)
}

fn is_extractable(name: &str) -> (r: bool)
    ensures
        r == extractable(name@),
{
    strings::ends_with(name, ".tar.gz") || strings::ends_with(name, ".tgz") || strings::ends_with(
        name,
        ".zip",
    ) || strings::ends_with(name, ".deb")
}

/// The first file, not before `from`, that can be unpacked.
pub open spec fn extractable_from(files: Seq<Asset>, from: int) -> Option<Seq<char>>
    decreases files.len() - from,
{
    if from < 0 || from >= files.len() {
        None
    } else if extractable(files[from].name@) {
        Some(files[from].name@)
    } else {
        extractable_from(files, from + 1)
    }
}

/// A pattern for the first file that can be unpacked, with the version left
/// open.
pub open spec fn suggestion(files: Seq<Asset>, version: Seq<char>) -> Option<Seq<char>> {
    match extractable_from(files, 0) {
        Some(name) => if text::contains(name, version) {
            Some(text::replace_first(name, version, "*"@))
        } else {
            None
        },
        None => None,
    }
}

/// Suggests a pattern: `foo-15.2.0-linux.tar.gz` becomes
/// `foo-*-linux.tar.gz`, which fits the next release too.
pub fn suggest_bpick<'a>(relevant: &Vec<&'a Asset>, version: &str) -> (r: Option<String>)
    ensures
        text::opt_text(r) == suggestion(assets::assets_of(relevant@), version@),
{
    let ghost files = assets::assets_of(relevant@);
    let mut i: usize = 0;
    while i < relevant.len()
        invariant
            i <= relevant.len(),
            files == assets::assets_of(relevant@),
            extractable_from(files, 0) == extractable_from(files, i as int),
        decreases relevant.len() - i,
    {
        let name = relevant[i].name.as_str();
        if is_extractable(name) {
            if strings::contains(name, version) {
                return Some(strings::replace_first(name, version, "*"));
            }
            return None;
        }
        i += 1;
    }
    None
}

/// A suggested pattern fits the file that it was made from, and the same file
/// under any other version.
pub proof fn lemma_suggestion_fits(name: Seq<char>, version: Seq<char>, other: Seq<char>)
    requires
        text::contains(name, version),
    ensures
        glob::fits(
            text::replace_first(name, version, "*"@),
            text::replace_first(name, version, other),
        ),
        text::replace_first(name, version, version) == name,
{
    text::lemma_occurrence(name, version, 0);
    let i = text::occurrence_from(name, version, 0)->0;
    let lead = name.take(i);
    let tail = name.skip(i + version.len());
    reveal_strlit("*");
    assert("*"@ =~= seq!['*']);
    glob::lemma_star_stands_for_any(lead, other, tail);
    assert(lead + version + tail =~= name) by {
        assert(name.subrange(i, i + version.len()) == version);
    }
}

/// The names of files as bullets.
pub open spec fn name_bullets(files: Seq<Asset>) -> Seq<char> {
    collect::bullets(Seq::new(files.len(), |i: int| files[i].name@))
}

fn asset_bullets<'a>(files: &Vec<&'a Asset>) -> (r: String)
    ensures
        r@ == name_bullets(assets::assets_of(files@)),
{
    let ghost wanted = Seq::new(
        assets::assets_of(files@).len(),
        |i: int| assets::assets_of(files@)[i].name@,
    );
    let mut names: Vec<String> = Vec::new();
    let mut i: usize = 0;
    assert(text::texts(names@) =~= wanted.take(0));
    while i < files.len()
        invariant
            i <= files.len(),
            wanted == Seq::new(
                assets::assets_of(files@).len(),
                |i: int| assets::assets_of(files@)[i].name@,
            ),
            text::texts(names@) == wanted.take(i as int),
        decreases files.len() - i,
    {
        let ghost before = names@;
        names.push(files[i].name.as_str().to_owned());
        assert(text::texts(names@) =~= text::texts(before).push(wanted[i as int]));
        i += 1;
        assert(wanted.take(i as int) =~= wanted.take(i - 1).push(wanted[i - 1]));
    }
    assert(wanted.take(i as int) =~= wanted);
    collect::format_candidates(&names)
}

fn borrow_all<'a>(files: &'a Vec<Asset>) -> (r: Vec<&'a Asset>)
    ensures
        assets::assets_of(r@) == files@,
{
    let mut out: Vec<&'a Asset> = Vec::new();
    let mut i: usize = 0;
    while i < files.len()
        invariant
            i <= files.len(),
            assets::assets_of(out@) == files@.take(i as int),
        decreases files.len() - i,
    {
        let ghost before = out@;
        out.push(&files[i]);
        assert(assets::assets_of(out@) =~= assets::assets_of(before).push(files@[i as int]));
        i += 1;
        assert(files@.take(i as int) =~= files@.take(i - 1).push(files@[i - 1]));
    }
    assert(files@.take(i as int) =~= files@);
    out
}

/// The change to the configuration that would choose a file, if one can be
/// suggested.
pub open spec fn suggested_change(
    name: Seq<char>,
    config_text: Option<Seq<char>>,
    version: Seq<char>,
    relevant: Seq<Asset>,
) -> Option<Seq<char>> {
    match (suggestion(relevant, version), config_text) {
        (Some(value), Some(file)) => config::entry_diff(file, name, "bpick"@, Some(value)),
        _ => None,
    }
}

/// What is said where no file was chosen.
pub open spec fn no_match_text(
    name: Seq<char>,
    config_path: Seq<char>,
    config_text: Option<Seq<char>>,
    version: Seq<char>,
    bpick_configured: bool,
    relevant: Seq<Asset>,
    all: Seq<Asset>,
) -> Seq<char> {
    match suggested_change(name, config_text, version, relevant) {
        Some(diff) => config_path + "\n"@ + diff,
        None => {
            let candidates = if relevant.len() == 0 {
                all
            } else {
                relevant
            };
            let suffix = if bpick_configured {
                ""@
            } else {
                " — set `bpick` explicitly"@
            };
            "no asset matches your platform"@ + suffix + "\navailable assets:"@ + name_bullets(
                candidates,
            )
        },
    }
}

/// What is said where no file was chosen: a change to the configuration that
/// would choose one, or the files there are.
pub fn no_match_body<'a>(
    entry: &RepoEntry,
    config_path: &str,
    config_text: Option<&str>,
    version: &str,
    bpick_configured: bool,
    relevant: &Vec<&'a Asset>,
    all: &'a Vec<Asset>,
) -> (r: String)
    ensures
        r@ == no_match_text(
            entry.name@,
            config_path@,
            text::opt_str(config_text),
            version@,
            bpick_configured,
            assets::assets_of(relevant@),
            all@,
        ),
{
    if let Some(value) = suggest_bpick(relevant, version) {
        if let Some(file) = config_text {
            if let Some(diff) = config::render_entry_diff(
                file,
                entry.name.as_str(),
                "bpick",
                Some(value.as_str()),
            ) {
                return strings::cat3(config_path, "\n", diff.as_str());
            }
        }
    }
    assert(assets::assets_of(relevant@).len() == relevant@.len());
    let list = if relevant.len() == 0 {
        asset_bullets(&borrow_all(all))
    } else {
        asset_bullets(relevant)
    };
    let suffix = if bpick_configured {
        ""
    } else {
        " — set `bpick` explicitly"
    };
    strings::cat4(
        "no asset matches your platform",
        suffix,
        "\navailable assets:",
        list.as_str(),
    )
}

/// The file of a release that is installed, or what is said where there is
/// none.
pub open spec fn choice(
    entry: RepoEntry,
    config_path: Seq<char>,
    config_text: Option<Seq<char>>,
    release: Release,
    arch: Seq<char>,
    os: Seq<char>,
) -> Result<Asset, Seq<Seq<char>>> {
    let bpick = match entry.bpick {
        Some(b) => Some(&b),
        None => None,
    };
    let found = assets::taken(release.assets@, assets::choice_of(bpick, arch, os));
    if found.len() == 1 {
        Ok(found[0])
    } else if found.len() == 0 {
        let relevant = assets::taken(release.assets@, assets::Choice::Host(arch, os));
        let headline = if bpick is Some {
            "no release asset matches bpick"@
        } else {
            "no release asset auto-matches your platform — bpick not set"@
        };
        Err(
            seq![
                headline,
                no_match_text(
                    entry.name@,
                    config_path,
                    config_text,
                    release.tag@,
                    bpick is Some,
                    relevant,
                    release.assets@,
                ),
            ],
        )
    } else {
        Err(seq!["bpick matches multiple assets, narrow it:"@ + name_bullets(found)])
    }
}

/// Chooses the file of a release that is installed. `config_text` is what the
/// configuration file holds, where it can be read.
pub fn choose_asset<'a>(
    entry: &RepoEntry,
    config_path: &str,
    config_text: Option<&str>,
    release: &'a Release,
    arch: &str,
    os: &str,
) -> (r: Result<&'a Asset, Failure>)
    ensures
        match choice(
            *entry,
            config_path@,
            text::opt_str(config_text),
            *release,
            arch@,
            os@,
        ) {
            Ok(asset) => r is Ok && *r->Ok_0 == asset,
            Err(chain) => r is Err && r->Err_0@ == chain,
        },
{
    match assets::select_asset(&release.assets, entry.bpick.as_ref(), arch, os) {
        AssetPick::Found(asset) => Ok(asset),
        AssetPick::NoMatch { bpick_configured, relevant, all } => {
            let headline = if bpick_configured {
                "no release asset matches bpick"
            } else {
                "no release asset auto-matches your platform — bpick not set"
            };
            let body = no_match_body(
                entry,
                config_path,
                config_text,
                release.tag.as_str(),
                bpick_configured,
                &relevant,
                all,
            );
            let ghost said = body@;
            let r = Failure::new(body).context(headline.to_owned());
            assert(r@ =~= seq![headline@, said]);
            Err(r)
        },
        AssetPick::Ambiguous(matches) => Err(
            Failure::new(
                strings::cat2(
                    "bpick matches multiple assets, narrow it:",
                    asset_bullets(&matches).as_str(),
                ),
            ),
        ),
    }
}

/// The steps before the hooks.
pub open spec fn fetch_steps(
    state: Seq<char>,
    cache: Seq<char>,
    tool: Seq<char>,
    tag: Seq<char>,
    asset: Asset,
    flag: Option<bool>,
) -> Seq<PlannedView> {
    let archive = path::join(cache, asset.name@);
    let partial = path::join(paths::tool_dir(state, tool), tag + ".partial"@);
    seq![
        plan::within(
            StepView::Download {
                url: asset.url@,
                dest: archive,
                size: asset.size,
                digest: text::opt_text(asset.digest),
            },
            "failed to download "@ + asset.name@,
        ),
        plan::plain(StepView::RemoveTree(partial)),
        plan::within(
            StepView::Extract { archive, dest: partial, flag },
            "failed to extract "@ + asset.name@,
        ),
    ]
}

/// The check of a build of this program itself: one that cannot even print its
/// version never goes live.
pub open spec fn smoke_steps(tool: Seq<char>, partial: Seq<char>) -> Seq<PlannedView> {
    if tool == "rig"@ {
        seq![plan::plain(StepView::SmokeTest { search_dir: partial })]
    } else {
        seq![]
    }
}

/// The steps before the links.
pub open spec fn stage_steps(
    entry: RepoEntry,
    layout: Layout,
    tag: Seq<char>,
    asset: Asset,
    phase: Phase,
) -> Seq<PlannedView> {
    let tool = config::short_name(entry.name@);
    let state = layout.state_dir@;
    let partial = path::join(paths::tool_dir(state, tool), tag + ".partial"@);
    fetch_steps(state, layout.cache_dir@, tool, tag, asset, entry.extract) + plan::hook_steps(
        entry.common.setup,
        partial,
        phase,
        tool,
    ) + smoke_steps(tool, partial)
}

/// The steps of an install.
pub open spec fn steps(entry: RepoEntry, layout: Layout, tag: Seq<char>, asset: Asset, phase: Phase) -> Seq<
    PlannedView,
> {
    let tool = config::short_name(entry.name@);
    let state = layout.state_dir@;
    let partial = path::join(paths::tool_dir(state, tool), tag + ".partial"@);
    stage_steps(entry, layout, tag, asset, phase) + plan::collected_end(
        partial,
        paths::version_dir(state, tool, tag),
        tool,
    )
}

/// The steps that install a release's file.
pub fn install(entry: &RepoEntry, layout: &Layout, tag: &str, asset: &Asset, phase: Phase) -> (r:
    Vec<Planned>)
    ensures
        plan::plan_view(r@) == steps(*entry, *layout, tag@, *asset, phase),
{
    let tool = config::tool_key(entry.name.as_str());
    let archive = path::join_path(layout.cache_dir.as_str(), asset.name.as_str());
    let tool_dir = layout.tool_pkg_dir(tool);
    let final_dir = layout.pkg_dir(tool, tag);
    let partial = path::join_path(tool_dir.as_str(), strings::cat2(tag, ".partial").as_str());
    let mut out: Vec<Planned> = Vec::new();
    plan::push_step(
        &mut out,
        Step::Download {
            url: asset.url.as_str().to_owned(),
            dest: archive.as_str().to_owned(),
            size: asset.size,
            digest: strings::clone_opt(&asset.digest),
        },
        Some(strings::cat2("failed to download ", asset.name.as_str())),
    );
    plan::push_step(&mut out, Step::RemoveTree(partial.as_str().to_owned()), None);
    plan::push_step(
        &mut out,
        Step::Extract { archive, dest: partial.as_str().to_owned(), flag: entry.extract },
        Some(strings::cat2("failed to extract ", asset.name.as_str())),
    );
    let ghost start = fetch_steps(
        layout.state_dir@,
        layout.cache_dir@,
        tool@,
        tag@,
        *asset,
        entry.extract,
    );
    assert(plan::plan_view(out@) =~= start);
    plan::push_hooks(&mut out, &entry.common.setup, partial.as_str(), phase, tool);
    if strings::same(tool, "rig") {
        plan::push_step(
            &mut out,
            Step::SmokeTest { search_dir: partial.as_str().to_owned() },
            None,
        );
    }
    assert(plan::plan_view(out@) =~= stage_steps(*entry, *layout, tag@, *asset, phase));
    plan::push_collected_end(&mut out, partial.as_str(), final_dir.as_str(), tool);
    out
}

/// The record of an installed release.
pub fn lock_entry(
    entry: &RepoEntry,
    layout: &Layout,
    release_tag: String,
    asset: &Asset,
    artifacts: CollectedArtifacts,
    installed_at: Timestamp,
    eval: EvalState,
) -> (r: ToolLock)
    ensures
        r@ == (ToolLockView {
            version: release_tag@,
            source: entry.host.prefix_text() + ":"@ + entry.name@,
            installed_at,
            bins: collect::targets(artifacts.bins@),
            completions: collect::targets(artifacts.completions@),
            asset: Some(asset.name@),
            size: Some(asset.size),
            pkg: Some(
                paths::version_dir(
                    layout.state_dir@,
                    config::short_name(entry.name@),
                    release_tag@,
                ),
            ),
            manager: None,
            root: None,
            eval_cacheable: eval@.cacheable,
            eval_cached_output: eval@.output,
            eval_evidence: eval@.evidence,
        }),
{
    let tool = config::tool_key(entry.name.as_str());
    let final_dir = layout.pkg_dir(tool, release_tag.as_str());
    ToolLock {
        version: release_tag,
        source: strings::cat3(entry.host.prefix(), ":", entry.name.as_str()),
        installed_at,
        bins: collect::link_targets(&artifacts.bins),
        completions: collect::link_targets(&artifacts.completions),
        asset: Some(asset.name.as_str().to_owned()),
        size: Some(asset.size),
        pkg: Some(final_dir),
        manager: None,
        root: None,
        eval_cacheable: eval.cacheable,
        eval_cached_output: eval.output,
        eval_evidence: eval.evidence,
    }
}

/// An install makes links only once every step before them has succeeded,
/// replaces a version of the same tag only after them, and removes no
/// directory outside the staging one and the new version's, those of all other
/// versions among them.
pub proof fn lemma_old_version_survives(
    entry: RepoEntry,
    layout: Layout,
    tag: Seq<char>,
    asset: Asset,
    phase: Phase,
    outcomes: Seq<Result<(), Seq<Seq<char>>>>,
    step: nat,
)
    requires
        plan::performed(steps(entry, layout, tag, asset, phase), 0, outcomes).contains(step),
    ensures
        ({
            let all = steps(entry, layout, tag, asset, phase);
            let now = all[step as int].step;
            let dir = paths::tool_dir(layout.state_dir@, config::short_name(entry.name@));
            let partial = path::join(dir, tag + ".partial"@);
            let live = path::join(dir, tag);
            &&& step < all.len()
            &&& forall|i: int| 0 <= i < step ==> (#[trigger] outcomes[i]) is Ok
            &&& plan::makes_links(now) ==> step >= all.len() - 4
            &&& plan::destroys(now, live) ==> step == all.len() - 2
            &&& forall|other: Seq<char>|
                !path::starts_with(other, partial) && !path::starts_with(other, live)
                    ==> !#[trigger] plan::destroys(now, other)
            &&& forall|old: Seq<char>|
                path::is_name(tag) && path::is_name(old) && old != tag && old != tag + ".partial"@
                    ==> !plan::destroys(now, #[trigger] path::join(dir, old))
        }),
{
    let tool = config::short_name(entry.name@);
    let dir = paths::tool_dir(layout.state_dir@, tool);
    plan::lemma_staged_elsewhere(dir, tag);
    plan::lemma_failure_keeps_the_old_version(
        stage_steps(entry, layout, tag, asset, phase),
        path::join(dir, tag + ".partial"@),
        paths::version_dir(layout.state_dir@, tool, tag),
        tool,
        outcomes,
        step,
    );
    assert forall|old: Seq<char>|
        path::is_name(tag) && path::is_name(old) && old != tag && old != tag
            + ".partial"@ implies !plan::destroys(
        steps(entry, layout, tag, asset, phase)[step as int].step,
        #[trigger] path::join(dir, old),
    ) by {
        plan::lemma_versions_apart(dir, tag, old);
    }
}

/// A build of this program itself that cannot print its version never goes
/// live: no link is made and no version is replaced unless the staged build
/// has passed its check.
pub proof fn lemma_broken_build_stays_out(
    entry: RepoEntry,
    layout: Layout,
    tag: Seq<char>,
    asset: Asset,
    phase: Phase,
    outcomes: Seq<Result<(), Seq<Seq<char>>>>,
    step: nat,
)
    requires
        config::short_name(entry.name@) == "rig"@,
        plan::performed(steps(entry, layout, tag, asset, phase), 0, outcomes).contains(step),
        plan::makes_links(steps(entry, layout, tag, asset, phase)[step as int].step)
            || plan::destroys(
            steps(entry, layout, tag, asset, phase)[step as int].step,
            paths::version_dir(layout.state_dir@, "rig"@, tag),
        ),
    ensures
        ({
            let all = steps(entry, layout, tag, asset, phase);
            let gate = all.len() - 5;
            let partial = path::join(
                paths::tool_dir(layout.state_dir@, "rig"@),
                tag + ".partial"@,
            );
            &&& 0 <= gate < step
            &&& all[gate].step == StepView::SmokeTest { search_dir: partial }
            &&& outcomes[gate] is Ok
        }),
{
    lemma_old_version_survives(entry, layout, tag, asset, phase, outcomes, step);
}

/// A release install works in one place. The archive that is unpacked is the
/// file that was downloaded; it is unpacked where the hooks run, where commands
/// and completions are searched, and that directory, which is not the live one
/// and does not hold it, is what takes the live one's place. What is downloaded
/// is the asset, and nothing but the swap names the live directory as a place
/// to write to.
pub proof fn lemma_install_works_in_staging(
    entry: RepoEntry,
    layout: Layout,
    tag: Seq<char>,
    asset: Asset,
    phase: Phase,
)
    ensures
        ({
            let all = steps(entry, layout, tag, asset, phase);
            let n = all.len();
            let dir = path::join(
                path::join(layout.state_dir@, "pkg"@),
                config::short_name(entry.name@),
            );
            let staging = path::join(dir, tag + ".partial"@);
            let live = path::join(dir, tag);
            let archive = path::join(layout.cache_dir@, asset.name@);
            &&& n >= 7
            &&& staging != live
            &&& !path::starts_with(live, staging)
            &&& all[0].step == (StepView::Download {
                url: asset.url@,
                dest: archive,
                size: asset.size,
                digest: text::opt_text(asset.digest),
            })
            &&& all[1].step == StepView::RemoveTree(staging)
            &&& all[2].step == (StepView::Extract { archive, dest: staging, flag: entry.extract })
            &&& forall|i: int|
                0 <= i < n ==> plan::keeps_to_staging((#[trigger] all[i]).step, staging, live)
            &&& forall|i: int|
                3 <= i < n - 4 ==> (#[trigger] all[i]).step is Hook || all[i].step is SmokeTest
            &&& all[n - 4].step is CollectBins
            &&& all[n - 3].step is CollectCompletions
            &&& all[n - 2].step is Finalize
            &&& all[n - 1].step is ResolveEval
        }),
{
    let tool = config::short_name(entry.name@);
    let dir = paths::tool_dir(layout.state_dir@, tool);
    let staging = path::join(dir, tag + ".partial"@);
    let live = path::join(dir, tag);
    plan::lemma_staged_elsewhere(dir, tag);
    assert(path::components(live).is_prefix_of(path::components(live)));
    let fetched = fetch_steps(layout.state_dir@, layout.cache_dir@, tool, tag, asset, entry.extract);
    let hooks = plan::hook_steps(entry.common.setup, staging, phase, tool);
    let smoke = smoke_steps(tool, staging);
    let end = plan::collected_end(staging, live, tool);
    let all = steps(entry, layout, tag, asset, phase);
    assert(all =~= fetched + hooks + smoke + end);
    assert forall|i: int| 0 <= i < all.len() implies #[trigger] all[i] == if i < 3 {
        fetched[i]
    } else if i < 3 + hooks.len() {
        hooks[i - 3]
    } else if i < 3 + hooks.len() + smoke.len() {
        smoke[i - 3 - hooks.len()]
    } else {
        end[i - 3 - hooks.len() - smoke.len()]
    } by {}
}

/// The hooks of a release install are those of its entry, right after the
/// archive was unpacked, and no others.
pub proof fn lemma_install_runs_its_hooks(
    entry: RepoEntry,
    layout: Layout,
    tag: Seq<char>,
    asset: Asset,
    phase: Phase,
)
    ensures
        ({
            let all = steps(entry, layout, tag, asset, phase);
            let dir = path::join(
                path::join(layout.state_dir@, "pkg"@),
                config::short_name(entry.name@),
            );
            let hooks = plan::hook_steps(
                entry.common.setup,
                path::join(dir, tag + ".partial"@),
                phase,
                config::short_name(entry.name@),
            );
            let own = config::short_name(entry.name@) == "rig"@;
            &&& all.len() == 7 + hooks.len() + (if own {
                1int
            } else {
                0int
            })
            &&& all.subrange(3, (3 + hooks.len()) as int) == hooks
            &&& own ==> all[(3 + hooks.len()) as int].step is SmokeTest
        }),
{
    let tool = config::short_name(entry.name@);
    let dir = paths::tool_dir(layout.state_dir@, tool);
    let staging = path::join(dir, tag + ".partial"@);
    let hooks = plan::hook_steps(entry.common.setup, staging, phase, tool);
    let all = steps(entry, layout, tag, asset, phase);
    assert(all.subrange(3, (3 + hooks.len()) as int) =~= hooks);
}

/// What is suggested as an asset can be unpacked: the two lists of endings are
/// one.
pub proof fn lemma_suggested_files_can_be_unpacked(name: Seq<char>)
    requires
        path::file_name(name) == Some(name),
    ensures
        extractable(name) <==> sources::unpack_by(name, None) is Ok,
{
}

/// A suggestion is made from the first file that can be unpacked, and exactly
/// if that file's name holds the version; the version is all that changes.
pub proof fn lemma_suggestion_is_made(files: Seq<Asset>, version: Seq<char>, i: int)
    requires
        0 <= i < files.len(),
        extractable(files[i].name@),
        forall|j: int| 0 <= j < i ==> !extractable((#[trigger] files[j]).name@),
    ensures
        suggestion(files, version) is Some <==> text::contains(files[i].name@, version),
        suggestion(files, version) is Some ==> suggestion(files, version) == Some(
            text::replace_first(files[i].name@, version, "*"@),
        ),
{
    lemma_first_extractable(files, 0, i);
}

proof fn lemma_first_extractable(files: Seq<Asset>, from: int, i: int)
    requires
        0 <= from <= i < files.len(),
        extractable(files[i].name@),
        forall|j: int| from <= j < i ==> !extractable((#[trigger] files[j]).name@),
    ensures
        extractable_from(files, from) == Some(files[i].name@),
    decreases i - from,
{
    if from < i {
        assert(!extractable(files[from].name@));
        lemma_first_extractable(files, from + 1, i);
    }
}

/// A file is chosen exactly if one and only one asset fits: the patterns of the
/// entry where it has some, the names of this host's architecture and system
/// otherwise.
pub proof fn lemma_chosen_asset(
    entry: RepoEntry,
    config_path: Seq<char>,
    config_text: Option<Seq<char>>,
    release: Release,
    arch: Seq<char>,
    os: Seq<char>,
    i: int,
)
    requires
        0 <= i < release.assets@.len(),
        asset_fits(entry, arch, os, release.assets@[i].name@),
        forall|j: int|
            0 <= j < release.assets@.len() && j != i ==> !asset_fits(
                entry,
                arch,
                os,
                (#[trigger] release.assets@[j]).name@,
            ),
    ensures
        choice(entry, config_path, config_text, release, arch, os) == Ok::<Asset, Seq<Seq<char>>>(
            release.assets@[i],
        ),
{
    let bpick = match entry.bpick {
        Some(b) => Some(&b),
        None => None,
    };
    let picked = assets::choice_of(bpick, arch, os);
    assert forall|name: Seq<char>| #[trigger] picked.takes(name) == asset_fits(
        entry,
        arch,
        os,
        name,
    ) by {
        lemma_asset_fits(entry, arch, os, name);
    }
    assets::lemma_taken_one(release.assets@, picked, i);
}

/// Whether an asset's name is one that an entry asks for.
pub open spec fn asset_fits(
    entry: RepoEntry,
    arch: Seq<char>,
    os: Seq<char>,
    name: Seq<char>,
) -> bool {
    match entry.bpick {
        Some(BpickSpec::Single(p)) => glob::fits(p@, name),
        Some(BpickSpec::Multiple(ps)) => exists|k: int|
            0 <= k < ps@.len() && glob::fits((#[trigger] ps@[k])@, name),
        None => text::contains(name, arch) && text::contains(name, os),
    }
}

proof fn lemma_asset_fits(entry: RepoEntry, arch: Seq<char>, os: Seq<char>, name: Seq<char>)
    ensures
        ({
            let bpick = match entry.bpick {
                Some(b) => Some(&b),
                None => None,
            };
            assets::choice_of(bpick, arch, os).takes(name) == asset_fits(entry, arch, os, name)
        }),
{
    match entry.bpick {
        Some(BpickSpec::Single(p)) => {
            let all = assets::patterns(BpickSpec::Single(p));
            assert(all[0] == p@);
        },
        Some(BpickSpec::Multiple(ps)) => {
            let all = assets::patterns(BpickSpec::Multiple(ps));
            assert(forall|k: int| 0 <= k < ps@.len() ==> all[k] == (#[trigger] ps@[k])@);
            if exists|k: int| 0 <= k < ps@.len() && glob::fits((#[trigger] ps@[k])@, name) {
                let k = choose|k: int| 0 <= k < ps@.len() && glob::fits((#[trigger] ps@[k])@, name);
                assert(glob::fits(all[k], name));
            }
            if assets::fits_any(all, name) {
                let k = choose|k: int| 0 <= k < all.len() && glob::fits(#[trigger] all[k], name);
                assert(glob::fits(ps@[k]@, name));
            }
        },
        None => {},
    }
}

/// Where no asset fits, or more than one, none is chosen.
pub proof fn lemma_no_asset_chosen(
    entry: RepoEntry,
    config_path: Seq<char>,
    config_text: Option<Seq<char>>,
    release: Release,
    arch: Seq<char>,
    os: Seq<char>,
)
    requires
        choice(entry, config_path, config_text, release, arch, os) is Ok,
    ensures
        exists|i: int|
            {
                &&& 0 <= i < release.assets@.len()
                &&& choice(entry, config_path, config_text, release, arch, os)->Ok_0
                    == #[trigger] release.assets@[i]
                &&& asset_fits(entry, arch, os, release.assets@[i].name@)
                &&& forall|j: int|
                    0 <= j < release.assets@.len() && j != i ==> !asset_fits(
                        entry,
                        arch,
                        os,
                        (#[trigger] release.assets@[j]).name@,
                    )
            },
{
    let bpick = match entry.bpick {
        Some(b) => Some(&b),
        None => None,
    };
    let picked = assets::choice_of(bpick, arch, os);
    assert forall|name: Seq<char>| #[trigger] picked.takes(name) == asset_fits(
        entry,
        arch,
        os,
        name,
    ) by {
        lemma_asset_fits(entry, arch, os, name);
    }
    assets::lemma_only_one_taken(release.assets@, picked);
}

/// Where no file fits, that is said first; what follows is a change to the
/// configuration where one can be suggested, and otherwise every file that
/// belongs to this host, or every file where none does.
pub proof fn lemma_no_file_is_told(
    entry: RepoEntry,
    config_path: Seq<char>,
    config_text: Option<Seq<char>>,
    release: Release,
    arch: Seq<char>,
    os: Seq<char>,
    i: int,
)
    requires
        0 <= i < release.assets@.len(),
        forall|j: int|
            0 <= j < release.assets@.len() ==> !asset_fits(
                entry,
                arch,
                os,
                (#[trigger] release.assets@[j]).name@,
            ),
    ensures
        ({
            let said = choice(entry, config_path, config_text, release, arch, os);
            let relevant = assets::taken(release.assets@, assets::Choice::Host(arch, os));
            let change = suggested_change(entry.name@, config_text, release.tag@, relevant);
            &&& said is Err
            &&& said->Err_0.len() == 2
            &&& entry.bpick is Some ==> said->Err_0[0] == "no release asset matches bpick"@
            &&& entry.bpick is None ==> said->Err_0[0]
                == "no release asset auto-matches your platform — bpick not set"@
            &&& change is Some ==> said->Err_0[1] == config_path + "\n"@ + change->0
            &&& change is None && (relevant.len() == 0 || relevant.contains(release.assets@[i]))
                ==> text::contains(said->Err_0[1], "\n    - "@ + release.assets@[i].name@)
        }),
{
    let bpick = match entry.bpick {
        Some(b) => Some(&b),
        None => None,
    };
    let picked = assets::choice_of(bpick, arch, os);
    assert forall|j: int| 0 <= j < release.assets@.len() implies !picked.takes(
        (#[trigger] release.assets@[j]).name@,
    ) by {
        lemma_asset_fits(entry, arch, os, release.assets@[j].name@);
    }
    assets::lemma_none_taken(release.assets@, picked);
    let relevant = assets::taken(release.assets@, assets::Choice::Host(arch, os));
    let change = suggested_change(entry.name@, config_text, release.tag@, relevant);
    if change is None && (relevant.len() == 0 || relevant.contains(release.assets@[i])) {
        let shown = if relevant.len() == 0 {
            release.assets@
        } else {
            relevant
        };
        let k = if relevant.len() == 0 {
            i
        } else {
            choose|k: int| 0 <= k < relevant.len() && relevant[k] == release.assets@[i]
        };
        let names = Seq::new(shown.len(), |n: int| shown[n].name@);
        collect::lemma_bullets_hold_each(names, k);
        let suffix = if entry.bpick is Some {
            ""@
        } else {
            " — set `bpick` explicitly"@
        };
        let none = Seq::<char>::empty();
        let lead = "no asset matches your platform"@ + suffix + "\navailable assets:"@;
        let p = "\n    - "@ + release.assets@[i].name@;
        text::lemma_contains_within(lead, name_bullets(shown), none, p);
        assert(lead + name_bullets(shown) + none =~= lead + name_bullets(shown));
    }
}

/// What is suggested is a new value of `bpick` in the entry of the tool, in the
/// configuration as it is; without a suggestion or without that text there is
/// no change to show.
pub proof fn lemma_what_is_suggested(
    name: Seq<char>,
    config_text: Option<Seq<char>>,
    version: Seq<char>,
    relevant: Seq<Asset>,
)
    ensures
        suggestion(relevant, version) is None || config_text is None ==> suggested_change(
            name,
            config_text,
            version,
            relevant,
        ) is None,
        suggestion(relevant, version) is Some && config_text is Some ==> suggested_change(
            name,
            config_text,
            version,
            relevant,
        ) == config::entry_diff(
            config_text->0,
            name,
            "bpick"@,
            Some(suggestion(relevant, version)->0),
        ),
{
}

} // verus!
