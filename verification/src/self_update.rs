//! How the program replaces itself. Where it comes from is fixed; no
//! configuration decides it.

use vstd::prelude::*;

use crate::failure::Failure;
use crate::lock::{Lock, ToolLockView};
use crate::path;
use crate::paths::Layout;
use crate::sources::collect;
use crate::strings;
use crate::text;
use crate::text::Class;
use crate::update::{Outcome, OutcomeView};
use crate::version::github::{Asset, Release};

verus! {

/// The version of this build.
pub const VERSION: &'static str = "0.10.0";

/// The name of the released program.
pub const SELF_ASSET: &'static str = "rig-x86_64-unknown-linux-gnu";

/// The name of the released startup script.
pub const BOOTSTRAP_ASSET: &'static str = "rig.zsh";

/// The version of this build, written like a release tag.
pub fn local_version() -> (r: String)
    ensures
        r@ == "v"@ + VERSION@,
{
    strings::cat2("v", VERSION)
}

/// The version in a line like `rig 0.10.0`, written like a release tag.
pub open spec fn version_in(output: Seq<char>) -> Option<Seq<char>> {
    let words = text::words(output);
    if words.len() == 0 {
        None
    } else if "v"@.is_prefix_of(words.last()) {
        Some(words.last())
    } else {
        Some("v"@ + words.last())
    }
}

/// Reads the version out of what `rig --version` printed.
pub fn parse_version(output: &str) -> (r: Option<String>)
    ensures
        text::opt_text(r) == version_in(output@),
{
    let words = strings::words(output);
    assert(text::strs(words@).len() == words@.len());
    if words.len() == 0 {
        return None;
    }
    let version = words[words.len() - 1];
    assert(text::strs(words@).last() == version@);
    if strings::starts_with(version, "v") {
        Some(version.to_owned())
    } else {
        Some(strings::cat2("v", version))
    }
}

/// The version that is replaced: what the installed program says, else that
/// of this build.
pub fn installed_version(output: Option<&str>) -> (r: String)
    ensures
        r@ == match output {
            Some(s) => match version_in(s@) {
                Some(v) => v,
                None => "v"@ + VERSION@,
            },
            None => "v"@ + VERSION@,
        },
{
    if let Some(s) = output {
        if let Some(v) = parse_version(s) {
            return v;
        }
    }
    local_version()
}

/// A tag without its `v`.
pub open spec fn bare_tag(tag: Seq<char>) -> Seq<char> {
    if "v"@.is_prefix_of(tag) {
        tag.skip("v"@.len() as int)
    } else {
        tag
    }
}

/// The three numbers of a tag like `v0.9.0`; `None` for any other.
pub open spec fn tag_numbers(tag: Seq<char>) -> Option<(u64, u64, u64)> {
    let parts = text::fields(bare_tag(tag), Class::Only('.'));
    if parts.len() == 3 && text::number(parts[0]) is Some && text::number(parts[1]) is Some
        && text::number(parts[2]) is Some {
        Some((text::number(parts[0])->0, text::number(parts[1])->0, text::number(parts[2])->0))
    } else {
        None
    }
}

/// The numbers of a tag, all zero for a malformed one.
pub open spec fn tag_tuple(tag: Seq<char>) -> (u64, u64, u64) {
    match tag_numbers(tag) {
        Some(t) => t,
        None => (0, 0, 0),
    }
}

/// The numbers of a tag. A malformed one counts as zero, so that it can never
/// look newer than a build.
pub fn version_tuple(tag: &str) -> (r: (u64, u64, u64))
    ensures
        r == tag_tuple(tag@),
{
    let bare = match strings::strip_prefix(tag, "v") {
        Some(rest) => rest,
        None => tag,
    };
    let parts = strings::split(bare, Class::Only('.'));
    let ghost all = text::fields(bare_tag(tag@), Class::Only('.'));
    assert(all == text::strs(parts@));
    if parts.len() != 3 {
        return (0, 0, 0);
    }
    assert(all[0] == parts@[0]@ && all[1] == parts@[1]@ && all[2] == parts@[2]@);
    match (
        strings::parse_number(parts[0]),
        strings::parse_number(parts[1]),
        strings::parse_number(parts[2]),
    ) {
        (Some(a), Some(b), Some(c)) => (a, b, c),
        _ => (0, 0, 0),
    }
}

/// Whether one version is the other or a later one.
pub open spec fn at_least(a: (u64, u64, u64), b: (u64, u64, u64)) -> bool {
    a.0 > b.0 || (a.0 == b.0 && (a.1 > b.1 || (a.1 == b.1 && a.2 >= b.2)))
}

/// Whether the installed version makes an update pointless: it is the
/// released one, or a later one that must not be taken back.
pub fn is_current(from: &str, tag: &str, force: bool) -> (r: bool)
    ensures
        r == (!force && at_least(tag_tuple(from@), tag_tuple(tag@))),
{
    let a = version_tuple(from);
    let b = version_tuple(tag);
    !force && (a.0 > b.0 || (a.0 == b.0 && (a.1 > b.1 || (a.1 == b.1 && a.2 >= b.2))))
}

/// A malformed tag never looks newer than anything.
pub proof fn lemma_malformed_tag_is_never_newer(from: Seq<char>, tag: Seq<char>)
    requires
        tag_numbers(tag) is None,
    ensures
        at_least(tag_tuple(from), tag_tuple(tag)),
{
}

/// Two versions can always be compared, and each counts as at least itself.
pub proof fn lemma_at_least_is_an_order(
    a: (u64, u64, u64),
    b: (u64, u64, u64),
    c: (u64, u64, u64),
)
    ensures
        at_least(a, a),
        at_least(a, b) || at_least(b, a),
        at_least(a, b) && at_least(b, a) ==> a == b,
        at_least(a, b) && at_least(b, c) ==> at_least(a, c),
{
}

/// The first file, not before `from`, with a name.
pub open spec fn named_from(assets: Seq<Asset>, name: Seq<char>, from: int) -> Option<Asset>
    decreases assets.len() - from,
{
    if from < 0 || from >= assets.len() {
        None
    } else if assets[from].name@ == name {
        Some(assets[from])
    } else {
        named_from(assets, name, from + 1)
    }
}

pub open spec fn asset_named(release: Release, name: Seq<char>) -> Result<
    Asset,
    Seq<Seq<char>>,
> {
    match named_from(release.assets@, name, 0) {
        Some(asset) => Ok(asset),
        None => Err(
            seq![
                "release "@ + release.tag@ + " has no `"@ + name + "` asset; available:"@
                    + collect::bullets(asset_names(release.assets@)),
            ],
        ),
    }
}

pub open spec fn asset_names(assets: Seq<Asset>) -> Seq<Seq<char>> {
    Seq::new(assets.len(), |i: int| assets[i].name@)
}

/// Picks the file of a release with a name.
pub fn pick_asset<'a>(release: &'a Release, name: &str) -> (r: Result<&'a Asset, Failure>)
    ensures
        match asset_named(*release, name@) {
            Ok(asset) => r is Ok && *r->Ok_0 == asset,
            Err(chain) => r is Err && r->Err_0@ == chain,
        },
{
    let ghost all = asset_names(release.assets@);
    let mut names: Vec<String> = Vec::new();
    let mut i: usize = 0;
    assert(text::texts(names@) =~= all.take(0));
    while i < release.assets.len()
        invariant
            i <= release.assets.len(),
            all == asset_names(release.assets@),
            text::texts(names@) == all.take(i as int),
            named_from(release.assets@, name@, 0) == named_from(release.assets@, name@, i as int),
        decreases release.assets.len() - i,
    {
        let asset = &release.assets[i];
        if strings::same(asset.name.as_str(), name) {
            return Ok(asset);
        }
        let ghost before = names@;
        names.push(asset.name.as_str().to_owned());
        assert(text::texts(names@) =~= text::texts(before).push(all[i as int]));
        i += 1;
        assert(all.take(i as int) =~= all.take(i - 1).push(all[i - 1]));
    }
    assert(all.take(i as int) =~= all);
    let mut message = strings::cat5(
        "release ",
        release.tag.as_str(),
        " has no `",
        name,
        "` asset; available:",
    );
    message.append(collect::format_candidates(&names).as_str());
    Err(Failure::new(message))
}

/// One step of replacing the program.
#[derive(Debug)]
pub enum SelfStep {
    Download { url: String, dest: String, size: u64, digest: Option<String>, name: String },
    /// Let everyone execute a file.
    MakeExecutable(String),
    /// Run a build with `--version`; delete it if that fails.
    Smoke(String),
    /// Rename the first path to the second.
    Rename(String, String),
    /// Put the contents of the first file into the second, and delete the
    /// first.
    Install(String, String),
}

pub enum SelfStepView {
    Download {
        url: Seq<char>,
        dest: Seq<char>,
        size: u64,
        digest: Option<Seq<char>>,
        name: Seq<char>,
    },
    MakeExecutable(Seq<char>),
    Smoke(Seq<char>),
    Rename(Seq<char>, Seq<char>),
    Install(Seq<char>, Seq<char>),
}

impl View for SelfStep {
    type V = SelfStepView;

    open spec fn view(&self) -> SelfStepView {
        match *self {
            SelfStep::Download { url, dest, size, digest, name } => SelfStepView::Download {
                url: url@,
                dest: dest@,
                size,
                digest: text::opt_text(digest),
                name: name@,
            },
            SelfStep::MakeExecutable(p) => SelfStepView::MakeExecutable(p@),
            SelfStep::Smoke(p) => SelfStepView::Smoke(p@),
            SelfStep::Rename(p, q) => SelfStepView::Rename(p@, q@),
            SelfStep::Install(p, q) => SelfStepView::Install(p@, q@),
        }
    }
}

pub open spec fn step_views(v: Seq<SelfStep>) -> Seq<SelfStepView> {
    Seq::new(v.len(), |i: int| v[i]@)
}

/// The steps that replace the program: both downloads come before anything
/// goes live.
pub open spec fn self_steps(program: Asset, bootstrap: Asset, layout: Layout) -> Seq<SelfStepView> {
    let tmp_bin = path::join(layout.prefix_bin_dir@, ".rig-self-update"@);
    let tmp_boot = path::join(layout.state_dir@, "."@ + BOOTSTRAP_ASSET@ + ".new"@);
    seq![
        SelfStepView::Download {
            url: program.url@,
            dest: tmp_bin,
            size: program.size,
            digest: text::opt_text(program.digest),
            name: SELF_ASSET@,
        },
        SelfStepView::MakeExecutable(tmp_bin),
        SelfStepView::Smoke(tmp_bin),
        SelfStepView::Download {
            url: bootstrap.url@,
            dest: tmp_boot,
            size: bootstrap.size,
            digest: text::opt_text(bootstrap.digest),
            name: BOOTSTRAP_ASSET@,
        },
        SelfStepView::Rename(tmp_bin, path::join(layout.prefix_bin_dir@, "rig"@)),
        SelfStepView::Install(tmp_boot, path::join(layout.state_dir@, BOOTSTRAP_ASSET@)),
    ]
}

/// What replacing the program comes to.
#[derive(Debug)]
pub enum SelfPlan {
    UpToDate { version: String },
    Replace { from: String, steps: Vec<SelfStep> },
}

/// Whether there is a released build for a system.
pub open spec fn is_published(target_os: Seq<char>, target_arch: Seq<char>) -> bool {
    target_os == "linux"@ && target_arch == "x86_64"@
}

/// Refuses a system that there is no released build for.
pub fn check_platform(target_os: &str, target_arch: &str) -> (r: Result<(), Failure>)
    ensures
        crate::failure::done(r) == if is_published(target_os@, target_arch@) {
            Ok::<(), Seq<Seq<char>>>(())
        } else {
            Err(
                seq![
                    "`rig update --self` publishes only a linux-x86_64 build — upgrade rig manually on this platform"@,
                ],
            )
        },
{
    if strings::same(target_os, "linux") && strings::same(target_arch, "x86_64") {
        Ok(())
    } else {
        Err(
            Failure::new(
                "`rig update --self` publishes only a linux-x86_64 build — upgrade rig manually on this platform".to_owned(),
            ),
        )
    }
}

fn replacement(program: &Asset, bootstrap: &Asset, layout: &Layout) -> (r: Vec<SelfStep>)
    ensures
        step_views(r@) == self_steps(*program, *bootstrap, *layout),
{
    let tmp_bin = path::join_path(layout.prefix_bin_dir.as_str(), ".rig-self-update");
    let boot_name = strings::cat3(".", BOOTSTRAP_ASSET, ".new");
    let tmp_boot = path::join_path(layout.state_dir.as_str(), boot_name.as_str());
    let mut steps: Vec<SelfStep> = Vec::new();
    steps.push(
        SelfStep::Download {
            url: program.url.as_str().to_owned(),
            dest: tmp_bin.as_str().to_owned(),
            size: program.size,
            digest: strings::clone_opt(&program.digest),
            name: SELF_ASSET.to_owned(),
        },
    );
    steps.push(SelfStep::MakeExecutable(tmp_bin.as_str().to_owned()));
    steps.push(SelfStep::Smoke(tmp_bin.as_str().to_owned()));
    steps.push(
        SelfStep::Download {
            url: bootstrap.url.as_str().to_owned(),
            dest: tmp_boot.as_str().to_owned(),
            size: bootstrap.size,
            digest: strings::clone_opt(&bootstrap.digest),
            name: BOOTSTRAP_ASSET.to_owned(),
        },
    );
    steps.push(
        SelfStep::Rename(tmp_bin, path::join_path(layout.prefix_bin_dir.as_str(), "rig")),
    );
    steps.push(
        SelfStep::Install(
            tmp_boot,
            path::join_path(layout.state_dir.as_str(), BOOTSTRAP_ASSET),
        ),
    );
    assert(step_views(steps@) =~= self_steps(*program, *bootstrap, *layout));
    steps
}

/// Decides how the program is replaced by a release. An installed build that
/// is newer is never taken back unless that is forced.
pub fn update_self(force: bool, from: String, release: &Release, layout: &Layout) -> (r: Result<
    SelfPlan,
    Failure,
>)
    ensures
        ({
            let program = asset_named(*release, SELF_ASSET@);
            let bootstrap = asset_named(*release, BOOTSTRAP_ASSET@);
            if !force && at_least(tag_tuple(from@), tag_tuple(release.tag@)) {
                r is Ok && r->Ok_0 is UpToDate && r->Ok_0->version@ == from@
            } else if program is Err {
                r is Err && r->Err_0@ == program->Err_0
            } else if bootstrap is Err {
                r is Err && r->Err_0@ == bootstrap->Err_0
            } else {
                &&& r is Ok
                &&& r->Ok_0 is Replace
                &&& r->Ok_0->from@ == from@
                &&& step_views(r->Ok_0->steps@) == self_steps(
                    program->Ok_0,
                    bootstrap->Ok_0,
                    *layout,
                )
            }
        }),
{
    if is_current(from.as_str(), release.tag.as_str(), force) {
        return Ok(SelfPlan::UpToDate { version: from });
    }
    let program = match pick_asset(release, SELF_ASSET) {
        Ok(asset) => asset,
        Err(f) => {
            return Err(f);
        },
    };
    let bootstrap = match pick_asset(release, BOOTSTRAP_ASSET) {
        Ok(asset) => asset,
        Err(f) => {
            return Err(f);
        },
    };
    Ok(SelfPlan::Replace { from, steps: replacement(program, bootstrap, layout) })
}

/// Whether a step changes what is installed.
pub open spec fn goes_live(step: SelfStepView) -> bool {
    step is Rename || step is Install
}

/// Nothing goes live before everything has been downloaded and the new build
/// has been tried.
pub proof fn lemma_live_after_downloads(program: Asset, bootstrap: Asset, layout: Layout, i: int, j: int)
    requires
        0 <= i < self_steps(program, bootstrap, layout).len(),
        0 <= j < self_steps(program, bootstrap, layout).len(),
        goes_live(self_steps(program, bootstrap, layout)[i]),
        self_steps(program, bootstrap, layout)[j] is Download || self_steps(
            program,
            bootstrap,
            layout,
        )[j] is Smoke,
    ensures
        j < i,
{
}

/// Finishes an update: the program has no record of its own.
pub fn finish(lock: &mut Lock, from: String, to: String) -> (r: Outcome)
    ensures
        r@ == (OutcomeView::Updated { from: from@, to: to@ }),
        final(lock)@ == old(lock)@.remove("rig"@),
{
    let ghost before: Map<Seq<char>, ToolLockView> = lock@;
    let _removed = lock.tool.remove("rig");
    assert(lock@ =~= before.remove("rig"@));
    Outcome::Updated { from, to }
}

proof fn lemma_number_has_no_dot(a: Seq<char>)
    requires
        text::number(a) is Some,
    ensures
        !a.contains('.'),
        a.len() > 0,
        a[0] != 'v',
{
    let digits = if a.len() > 1 && a[0] == '+' {
        a.skip(1)
    } else {
        a
    };
    assert(text::ascii_digit(digits[0]));
    if a.contains('.') {
        let i = choose|i: int| 0 <= i < a.len() && a[i] == '.';
        if a.len() > 1 && a[0] == '+' {
            assert(text::ascii_digit(digits[i - 1]));
        } else {
            assert(text::ascii_digit(digits[i]));
        }
    }
}

/// A tag of three numbers, with or without a `v` before them, counts as these
/// numbers, in their order.
pub proof fn lemma_tag_numbers(a: Seq<char>, b: Seq<char>, c: Seq<char>)
    requires
        text::number(a) is Some,
        text::number(b) is Some,
        text::number(c) is Some,
    ensures
        ({
            let bare = a + seq!['.'] + (b + seq!['.'] + c);
            let numbers = (text::number(a)->0, text::number(b)->0, text::number(c)->0);
            tag_tuple(bare) == numbers && tag_tuple(seq!['v'] + bare) == numbers
        }),
{
    reveal_strlit("v");
    lemma_number_has_no_dot(a);
    lemma_number_has_no_dot(b);
    lemma_number_has_no_dot(c);
    let rest = b + seq!['.'] + c;
    let bare = a + seq!['.'] + rest;
    let tag = seq!['v'] + bare;
    text::lemma_fields_cut(c, '.', seq![]);
    text::lemma_fields_cut(b, '.', c);
    text::lemma_fields_cut(a, '.', rest);
    assert(text::fields(bare, Class::Only('.')) =~= seq![a, b, c]);
    assert("v"@ =~= tag.take(1));
    assert(tag.skip(1) =~= bare);
    if "v"@.is_prefix_of(bare) {
        assert(bare[0] == "v"@[0]);
    }
}

/// Versions are compared number by number: a greater major number decides, then
/// a greater minor one, then the patch.
pub proof fn lemma_order_of_versions(a: (u64, u64, u64), b: (u64, u64, u64))
    ensures
        a.0 > b.0 ==> at_least(a, b) && !at_least(b, a),
        a.0 == b.0 && a.1 > b.1 ==> at_least(a, b) && !at_least(b, a),
        a.0 == b.0 && a.1 == b.1 && a.2 > b.2 ==> at_least(a, b) && !at_least(b, a),
{
}

proof fn lemma_named_from(assets: Seq<Asset>, name: Seq<char>, from: int)
    requires
        0 <= from,
    ensures
        match named_from(assets, name, from) {
            Some(asset) => exists|i: int|
                {
                    &&& from <= i < assets.len()
                    &&& #[trigger] assets[i] == asset
                    &&& asset.name@ == name
                    &&& forall|j: int| from <= j < i ==> (#[trigger] assets[j]).name@ != name
                },
            None => forall|j: int| from <= j < assets.len() ==> (#[trigger] assets[j]).name@ != name,
        },
    decreases assets.len() - from,
{
    if from < assets.len() && assets[from].name@ != name {
        lemma_named_from(assets, name, from + 1);
        if let Some(asset) = named_from(assets, name, from + 1) {
            let i = choose|i: int|
                {
                    &&& from + 1 <= i < assets.len()
                    &&& #[trigger] assets[i] == asset
                    &&& asset.name@ == name
                    &&& forall|j: int| from + 1 <= j < i ==> (#[trigger] assets[j]).name@ != name
                };
            assert(assets[i] == asset);
        }
    }
}

/// A file of a release is picked by its exact name, and an error comes exactly
/// if no file has it.
pub proof fn lemma_picked_by_name(release: Release, name: Seq<char>)
    ensures
        asset_named(release, name) is Err <==> forall|j: int|
            0 <= j < release.assets@.len() ==> (#[trigger] release.assets@[j]).name@ != name,
        asset_named(release, name) is Ok ==> asset_named(release, name)->Ok_0.name@ == name
            && release.assets@.contains(asset_named(release, name)->Ok_0),
{
    lemma_named_from(release.assets@, name, 0);
}

/// What goes live is what was downloaded: the build that was fetched, made
/// executable and tried is renamed to the program, and the startup script that
/// was fetched is installed; nothing is fetched into a live file.
pub proof fn lemma_what_was_tried_goes_live(program: Asset, bootstrap: Asset, layout: Layout)
    ensures
        ({
            let all = self_steps(program, bootstrap, layout);
            let build = path::join(layout.prefix_bin_dir@, ".rig-self-update"@);
            let live = path::join(layout.prefix_bin_dir@, "rig"@);
            let script = path::join(layout.state_dir@, "."@ + "rig.zsh"@ + ".new"@);
            &&& all.len() == 6
            &&& all[0] is Download
            &&& all[0]->url == program.url@
            &&& all[0]->dest == build
            &&& all[0]->size == program.size
            &&& all[0]->digest == text::opt_text(program.digest)
            &&& all[1] == SelfStepView::MakeExecutable(build)
            &&& all[2] == SelfStepView::Smoke(build)
            &&& all[3] is Download
            &&& all[3]->url == bootstrap.url@
            &&& all[3]->dest == script
            &&& all[3]->size == bootstrap.size
            &&& all[3]->digest == text::opt_text(bootstrap.digest)
            &&& all[4] == SelfStepView::Rename(build, live)
            &&& all[5] == SelfStepView::Install(
                script,
                path::join(layout.state_dir@, "rig.zsh"@),
            )
            &&& build != live
        }),
{
    reveal_strlit("rig");
    reveal_strlit(".rig-self-update");
    reveal_strlit(".");
    reveal_strlit("..");
    let build = ".rig-self-update"@;
    let live = "rig"@;
    assert(path::is_name(build));
    assert(path::is_name(live));
    assert(build.len() != live.len());
    path::lemma_names_apart(layout.prefix_bin_dir@, build, live);
    let p = path::join(layout.prefix_bin_dir@, live);
    assert(path::components(p).is_prefix_of(path::components(p)));
}

/// The version that a program prints is its last word, written with one `v`.
pub proof fn lemma_printed_version(output: Seq<char>)
    ensures
        version_in(output) is Some <==> text::words(output).len() > 0,
        version_in(output) is Some ==> "v"@.is_prefix_of(version_in(output)->0) && (version_in(
            output,
        )->0 == text::words(output).last() || (version_in(output)->0 == "v"@ + text::words(
            output,
        ).last() && !"v"@.is_prefix_of(text::words(output).last()))),
{
    if version_in(output) is Some && !"v"@.is_prefix_of(text::words(output).last()) {
        let w = "v"@ + text::words(output).last();
        assert(w.take("v"@.len() as int) =~= "v"@);
    }
}

/// There is a released build exactly for Linux on x86_64.
pub proof fn lemma_published_builds(os: Seq<char>, arch: Seq<char>)
    ensures
        is_published(os, arch) <==> os == "linux"@ && arch == "x86_64"@,
{
}

/// A file that a release does not have is told by its name, together with every
/// file that the release has.
pub proof fn lemma_missing_file_is_told(release: Release, name: Seq<char>, i: int)
    requires
        0 <= i < release.assets@.len(),
        forall|j: int|
            0 <= j < release.assets@.len() ==> (#[trigger] release.assets@[j]).name@ != name,
    ensures
        ({
            let lead = "release "@ + release.tag@ + " has no `"@ + name + "` asset; available:"@;
            let said = asset_named(release, name);
            &&& said is Err
            &&& said->Err_0.len() == 1
            &&& lead.is_prefix_of(said->Err_0[0])
            &&& text::contains(said->Err_0[0], "\n    - "@ + release.assets@[i].name@)
        }),
{
    lemma_named_from(release.assets@, name, 0);
    let lead = "release "@ + release.tag@ + " has no `"@ + name + "` asset; available:"@;
    let names = asset_names(release.assets@);
    let list = collect::bullets(names);
    let none = Seq::<char>::empty();
    collect::lemma_bullets_hold_each(names, i);
    text::lemma_contains_within(lead, list, none, "\n    - "@ + release.assets@[i].name@);
    assert(lead + list + none =~= lead + list);
    assert((lead + list).take(lead.len() as int) =~= lead);
}

} // verus!
