//! Which file of a release belongs to this host.

use vstd::prelude::*;

use crate::config::BpickSpec;
use crate::sources::glob;
use crate::strings;
use crate::text;
use crate::version::github::Asset;

verus! {

/// What came of choosing among the files of a release.
#[derive(Debug)]
pub enum AssetPick<'a> {
    Found(&'a Asset),
    NoMatch {
        bpick_configured: bool,
        /// The files whose name holds this host's architecture and system.
        relevant: Vec<&'a Asset>,
        all: &'a Vec<Asset>,
    },
    Ambiguous(Vec<&'a Asset>),
}

/// The name that releases use for an architecture.
pub open spec fn arch_name(target_arch: Seq<char>) -> Seq<char> {
    if target_arch == "x86_64"@ {
        "x86_64"@
    } else if target_arch == "aarch64"@ {
        "aarch64"@
    } else {
        "unknown"@
    }
}

pub fn host_arch(target_arch: &str) -> (r: &'static str)
    ensures
        r@ == arch_name(target_arch@),
{
    if strings::same(target_arch, "x86_64") {
        "x86_64"
    } else if strings::same(target_arch, "aarch64") {
        "aarch64"
    } else {
        "unknown"
    }
}

/// The name that releases use for an operating system.
pub open spec fn os_name(target_os: Seq<char>) -> Seq<char> {
    if target_os == "linux"@ {
        "linux"@
    } else if target_os == "macos"@ {
        "darwin"@
    } else {
        "unknown"@
    }
}

pub fn host_os(target_os: &str) -> (r: &'static str)
    ensures
        r@ == os_name(target_os@),
{
    if strings::same(target_os, "linux") {
        "linux"
    } else if strings::same(target_os, "macos") {
        "darwin"
    } else {
        "unknown"
    }
}

/// The patterns of a `bpick` field.
pub open spec fn patterns(spec: BpickSpec) -> Seq<Seq<char>> {
    match spec {
        BpickSpec::Single(p) => seq![p@],
        BpickSpec::Multiple(ps) => text::texts(ps@),
    }
}

/// Whether a name fits one of several patterns.
pub open spec fn fits_any(patterns: Seq<Seq<char>>, name: Seq<char>) -> bool {
    exists|i: int| 0 <= i < patterns.len() && glob::fits(#[trigger] patterns[i], name)
}

/// What a file is chosen by.
pub enum Choice {
    /// Its name holds an architecture and a system.
    Host(Seq<char>, Seq<char>),
    /// Its name fits one of these patterns.
    Patterns(Seq<Seq<char>>),
}

impl Choice {
    pub open spec fn takes(self, name: Seq<char>) -> bool {
        match self {
            Choice::Host(arch, os) => text::contains(name, arch) && text::contains(name, os),
            Choice::Patterns(patterns) => fits_any(patterns, name),
        }
    }
}

/// The files that a choice takes, in their order.
pub open spec fn taken(assets: Seq<Asset>, choice: Choice) -> Seq<Asset>
    decreases assets.len(),
{
    if assets.len() == 0 {
        seq![]
    } else if choice.takes(assets.last().name@) {
        taken(assets.drop_last(), choice).push(assets.last())
    } else {
        taken(assets.drop_last(), choice)
    }
}

/// What several borrowed files are.
pub open spec fn assets_of(v: Seq<&Asset>) -> Seq<Asset> {
    Seq::new(v.len(), |i: int| *v[i])
}

fn on_host<'a>(assets: &'a Vec<Asset>, arch: &str, os: &str) -> (r: Vec<&'a Asset>)
    ensures
        assets_of(r@) == taken(assets@, Choice::Host(arch@, os@)),
{
    let ghost choice = Choice::Host(arch@, os@);
    let mut out: Vec<&'a Asset> = Vec::new();
    let mut i: usize = 0;
    assert(assets_of(out@) =~= seq![]);
    while i < assets.len()
        invariant
            i <= assets.len(),
            choice == Choice::Host(arch@, os@),
            assets_of(out@) == taken(assets@.take(i as int), choice),
        decreases assets.len() - i,
    {
        let asset = &assets[i];
        let ghost before = out@;
        if strings::contains(asset.name.as_str(), arch) && strings::contains(
            asset.name.as_str(),
            os,
        ) {
            out.push(asset);
            assert(assets_of(out@) =~= assets_of(before).push(*asset));
        }
        i += 1;
        assert(assets@.take(i as int).drop_last() =~= assets@.take(i - 1));
    }
    assert(assets@.take(i as int) =~= assets@);
    out
}

fn fits_one(spec: &BpickSpec, name: &str) -> (r: bool)
    ensures
        r == fits_any(patterns(*spec), name@),
{
    match spec {
        BpickSpec::Single(p) => {
            let r = glob::glob_match(p.as_str(), name);
            proof {
                assert(patterns(*spec)[0] == p@);
            }
            r
        },
        BpickSpec::Multiple(ps) => {
            let mut i: usize = 0;
            while i < ps.len()
                invariant
                    i <= ps.len(),
                    patterns(*spec) == text::texts(ps@),
                    forall|j: int|
                        0 <= j < i ==> !glob::fits(#[trigger] patterns(*spec)[j], name@),
                decreases ps.len() - i,
            {
                assert(patterns(*spec)[i as int] == ps@[i as int]@);
                if glob::glob_match(ps[i].as_str(), name) {
                    return true;
                }
                i += 1;
            }
            false
        },
    }
}

fn by_patterns<'a>(assets: &'a Vec<Asset>, spec: &BpickSpec) -> (r: Vec<&'a Asset>)
    ensures
        assets_of(r@) == taken(assets@, Choice::Patterns(patterns(*spec))),
{
    let ghost choice = Choice::Patterns(patterns(*spec));
    let mut out: Vec<&'a Asset> = Vec::new();
    let mut i: usize = 0;
    assert(assets_of(out@) =~= seq![]);
    while i < assets.len()
        invariant
            i <= assets.len(),
            choice == Choice::Patterns(patterns(*spec)),
            assets_of(out@) == taken(assets@.take(i as int), choice),
        decreases assets.len() - i,
    {
        let asset = &assets[i];
        let ghost before = out@;
        if fits_one(spec, asset.name.as_str()) {
            out.push(asset);
            assert(assets_of(out@) =~= assets_of(before).push(*asset));
        }
        i += 1;
        assert(assets@.take(i as int).drop_last() =~= assets@.take(i - 1));
    }
    assert(assets@.take(i as int) =~= assets@);
    out
}

/// What decides for a `bpick` field, or without one.
pub open spec fn choice_of(bpick: Option<&BpickSpec>, arch: Seq<char>, os: Seq<char>) -> Choice {
    match bpick {
        Some(spec) => Choice::Patterns(patterns(*spec)),
        None => Choice::Host(arch, os),
    }
}

/// Chooses the file to install: by the patterns of a `bpick` field, else by
/// the names of the host's architecture and system.
pub fn select_asset<'a>(
    assets: &'a Vec<Asset>,
    bpick: Option<&BpickSpec>,
    arch: &str,
    os: &str,
) -> (r: AssetPick<'a>)
    ensures
        ({
            let found = taken(assets@, choice_of(bpick, arch@, os@));
            match r {
                AssetPick::Found(asset) => found == seq![*asset],
                AssetPick::NoMatch { bpick_configured, relevant, all } => {
                    &&& found.len() == 0
                    &&& bpick_configured == (bpick is Some)
                    &&& assets_of(relevant@) == taken(assets@, Choice::Host(arch@, os@))
                    &&& *all == *assets
                },
                AssetPick::Ambiguous(matches) => found.len() > 1 && assets_of(matches@) == found,
            }
        }),
{
    let matches = match bpick {
        Some(spec) => by_patterns(assets, spec),
        None => on_host(assets, arch, os),
    };
    assert(assets_of(matches@).len() == matches@.len());
    if matches.len() == 1 {
        assert(assets_of(matches@) =~= seq![*matches@[0]]);
        AssetPick::Found(matches[0])
    } else if matches.len() == 0 {
        AssetPick::NoMatch {
            bpick_configured: bpick.is_some(),
            relevant: on_host(assets, arch, os),
            all: assets,
        }
    } else {
        AssetPick::Ambiguous(matches)
    }
}

/// What is chosen is one of the files, and the choice takes it.
pub proof fn lemma_taken(assets: Seq<Asset>, choice: Choice, asset: Asset)
    ensures
        taken(assets, choice).contains(asset) <==> assets.contains(asset) && choice.takes(
            asset.name@,
        ),
    decreases assets.len(),
{
    if assets.len() > 0 {
        let front = assets.drop_last();
        let last = assets.last();
        lemma_taken(front, choice, asset);
        assert(assets =~= front.push(last));
        text::lemma_push_contains(front, last, asset);
        text::lemma_push_contains(taken(front, choice), last, asset);
    }
}

/// Where a choice takes one file and no other, that file is what is taken.
pub proof fn lemma_taken_one(assets: Seq<Asset>, choice: Choice, i: int)
    requires
        0 <= i < assets.len(),
        choice.takes(assets[i].name@),
        forall|j: int|
            0 <= j < assets.len() && j != i ==> !choice.takes((#[trigger] assets[j]).name@),
    ensures
        taken(assets, choice) == seq![assets[i]],
    decreases assets.len(),
{
    let front = assets.drop_last();
    if i == assets.len() - 1 {
        assert forall|j: int| 0 <= j < front.len() implies !choice.takes(
            (#[trigger] front[j]).name@,
        ) by {
            assert(!choice.takes(assets[j].name@));
        }
        lemma_none_taken(front, choice);
        assert(taken(assets, choice) =~= seq![assets[i]]);
    } else {
        assert(!choice.takes(assets[assets.len() - 1].name@));
        assert forall|j: int| 0 <= j < front.len() && j != i implies !choice.takes(
            (#[trigger] front[j]).name@,
        ) by {
            assert(!choice.takes(assets[j].name@));
        }
        lemma_taken_one(front, choice, i);
    }
}

/// Where a choice takes no file, nothing is taken.
pub proof fn lemma_none_taken(assets: Seq<Asset>, choice: Choice)
    requires
        forall|j: int| 0 <= j < assets.len() ==> !choice.takes((#[trigger] assets[j]).name@),
    ensures
        taken(assets, choice).len() == 0,
    decreases assets.len(),
{
    if assets.len() > 0 {
        let front = assets.drop_last();
        assert(!choice.takes(assets[assets.len() - 1].name@));
        assert forall|j: int| 0 <= j < front.len() implies !choice.takes(
            (#[trigger] front[j]).name@,
        ) by {
            assert(!choice.takes(assets[j].name@));
        }
        lemma_none_taken(front, choice);
    }
}

/// Where one file is taken, the choice takes it and no other.
pub proof fn lemma_only_one_taken(assets: Seq<Asset>, choice: Choice)
    requires
        taken(assets, choice).len() == 1,
    ensures
        exists|i: int|
            {
                &&& 0 <= i < assets.len()
                &&& taken(assets, choice)[0] == #[trigger] assets[i]
                &&& choice.takes(assets[i].name@)
                &&& forall|j: int|
                    0 <= j < assets.len() && j != i ==> !choice.takes((#[trigger] assets[j]).name@)
            },
    decreases assets.len(),
{
    let front = assets.drop_last();
    let n = assets.len() - 1;
    if choice.takes(assets[n].name@) {
        assert(taken(front, choice).len() == 0);
        assert forall|j: int| 0 <= j < assets.len() && j != n implies !choice.takes(
            (#[trigger] assets[j]).name@,
        ) by {
            if choice.takes(assets[j].name@) {
                assert(front[j] == assets[j]);
                assert(front.contains(assets[j]));
                lemma_taken(front, choice, assets[j]);
            }
        }
        assert(taken(assets, choice)[0] == assets[n]);
    } else {
        lemma_only_one_taken(front, choice);
        let i = choose|i: int|
            {
                &&& 0 <= i < front.len()
                &&& taken(front, choice)[0] == #[trigger] front[i]
                &&& choice.takes(front[i].name@)
                &&& forall|j: int|
                    0 <= j < front.len() && j != i ==> !choice.takes((#[trigger] front[j]).name@)
            };
        assert(assets[i] == front[i]);
        assert forall|j: int| 0 <= j < assets.len() && j != i implies !choice.takes(
            (#[trigger] assets[j]).name@,
        ) by {
            if j < front.len() {
                assert(!choice.takes(front[j].name@));
            }
        }
    }
}

/// A file is taken by a host exactly if its name holds both names, and by
/// patterns exactly if it fits one of them; both systems and both
/// architectures go by the names that releases use for them.
pub proof fn lemma_what_is_taken(
    name: Seq<char>,
    arch: Seq<char>,
    os: Seq<char>,
    globs: Seq<Seq<char>>,
)
    ensures
        Choice::Host(arch, os).takes(name) <==> text::contains(name, arch) && text::contains(
            name,
            os,
        ),
        Choice::Patterns(globs).takes(name) <==> exists|i: int|
            0 <= i < globs.len() && glob::fits(#[trigger] globs[i], name),
        os_name("macos"@) == "darwin"@,
        os_name("linux"@) == "linux"@,
        arch_name("x86_64"@) == "x86_64"@,
        arch_name("aarch64"@) == "aarch64"@,
        os != "linux"@ && os != "macos"@ ==> os_name(os) == "unknown"@,
        arch != "x86_64"@ && arch != "aarch64"@ ==> arch_name(arch) == "unknown"@,
{
    reveal_strlit("macos");
    reveal_strlit("linux");
    reveal_strlit("x86_64");
    reveal_strlit("aarch64");
    assert("macos"@[0] != "linux"@[0]);
    assert("x86_64"@[0] != "aarch64"@[0]);
}

} // verus!
