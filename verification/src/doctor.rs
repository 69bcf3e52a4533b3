//! Diagnoses: where the configuration, the records and what is on disk have
//! drifted apart. What is on disk comes in as plain facts.

use vstd::prelude::*;

use crate::config;
use crate::config::{CompletionsSpec, Config, ResolvedEntry, SetupSpec};
use crate::lock::{Lock, ToolLock};
use crate::path;
use crate::paths::Layout;
use crate::remove;
use crate::strings;
use crate::table::{NameSet, Table};
use crate::text;
use crate::text::Class;

verus! {

#[derive(Debug, Clone, Copy, PartialEq, Eq, Structural)]
pub enum Severity {
    Warning,
    Info,
}

#[derive(Debug)]
pub struct Finding {
    pub severity: Severity,
    pub message: String,
}

#[verifier::ext_equal]
pub struct FindingView {
    pub severity: Severity,
    pub message: Seq<char>,
}

impl View for Finding {
    type V = FindingView;

    open spec fn view(&self) -> FindingView {
        FindingView { severity: self.severity, message: self.message@ }
    }
}

pub open spec fn views(v: Seq<Finding>) -> Seq<FindingView> {
    Seq::new(v.len(), |i: int| v[i]@)
}

pub open spec fn warning(message: Seq<char>) -> FindingView {
    FindingView { severity: Severity::Warning, message }
}

pub open spec fn note(message: Seq<char>) -> FindingView {
    FindingView { severity: Severity::Info, message }
}

/// Several lists, one after the other.
pub open spec fn flat(pieces: Seq<Seq<FindingView>>) -> Seq<FindingView>
    decreases pieces.len(),
{
    if pieces.len() == 0 {
        seq![]
    } else {
        flat(pieces.drop_last()) + pieces.last()
    }
}

proof fn lemma_flat_take(pieces: Seq<Seq<FindingView>>, i: int)
    requires
        0 <= i < pieces.len(),
    ensures
        flat(pieces.take(i + 1)) == flat(pieces.take(i)) + pieces[i],
{
    assert(pieces.take(i + 1).drop_last() =~= pieces.take(i));
}

/// No finding, or one.
pub open spec fn only_if(condition: bool, finding: FindingView) -> Seq<FindingView> {
    if condition {
        seq![finding]
    } else {
        seq![]
    }
}

fn nothing() -> (r: Vec<Finding>)
    ensures
        views(r@) == Seq::<FindingView>::empty(),
{
    let r: Vec<Finding> = Vec::new();
    assert(views(r@) =~= seq![]);
    r
}

fn one(severity: Severity, message: String) -> (r: Vec<Finding>)
    ensures
        views(r@) == seq![(FindingView { severity, message: message@ })],
{
    let ghost said = message@;
    let r = vec![Finding { severity, message }];
    assert(views(r@) =~= seq![(FindingView { severity, message: said })]);
    r
}

fn extend(out: &mut Vec<Finding>, more: Vec<Finding>)
    ensures
        views(final(out)@) == views(old(out)@) + views(more@),
{
    let ghost before = out@;
    let ghost added = more@;
    let mut more = more;
    out.append(&mut more);
    assert(views(out@) =~= views(before) + views(added));
}

/// Whether a shell has read the configuration since it was changed.
pub open spec fn stale_config(config_mtime: Option<i128>, init_mtime: Option<i128>) -> bool {
    config_mtime is Some && init_mtime is Some && config_mtime->0 > init_mtime->0
}

/// Warns if the configuration was changed after the startup file was written.
pub fn check_config_newer_than_init_zsh(
    config_mtime: Option<i128>,
    init_mtime: Option<i128>,
) -> (r: Vec<Finding>)
    ensures
        views(r@) == only_if(
            stale_config(config_mtime, init_mtime),
            warning(
                "config.toml changed since the last `rig sync` — run `rig sync` to pick up new tools"@,
            ),
        ),
{
    if let (Some(config), Some(init)) = (config_mtime, init_mtime) {
        if config > init {
            return one(
                Severity::Warning,
                "config.toml changed since the last `rig sync` — run `rig sync` to pick up new tools".to_owned(),
            );
        }
    }
    nothing()
}

/// The directories of a `PATH`.
pub open spec fn search_dirs(path_env: Seq<char>) -> Seq<Seq<char>> {
    text::fields(path_env, Class::Only(':'))
}

/// Whether a directory is one of those of a `PATH`.
pub open spec fn on_search_path(path_env: Seq<char>, dir: Seq<char>) -> bool {
    exists|i: int|
        0 <= i < search_dirs(path_env).len() && path::same_path(
            #[trigger] search_dirs(path_env)[i],
            dir,
        )
}

/// Warns if commands that are installed will not be found.
pub fn check_prefix_bin_on_path(layout: &Layout, path_env: &str) -> (r: Vec<Finding>)
    ensures
        views(r@) == only_if(
            !on_search_path(path_env@, layout.prefix_bin_dir@),
            warning(
                layout.prefix_bin_dir@
                    + " is not on $PATH — commands rig installs won't be found"@,
            ),
        ),
{
    let dirs = strings::split(path_env, Class::Only(':'));
    let ghost all = search_dirs(path_env@);
    let mut i: usize = 0;
    while i < dirs.len()
        invariant
            i <= dirs.len(),
            all == search_dirs(path_env@),
            all == text::strs(dirs@),
            forall|j: int|
                0 <= j < i ==> !path::same_path(#[trigger] all[j], layout.prefix_bin_dir@),
        decreases dirs.len() - i,
    {
        assert(all[i as int] == dirs@[i as int]@);
        if path::paths_equal(dirs[i], layout.prefix_bin_dir.as_str()) {
            return nothing();
        }
        i += 1;
    }
    one(
        Severity::Warning,
        strings::cat2(
            layout.prefix_bin_dir.as_str(),
            " is not on $PATH — commands rig installs won't be found",
        ),
    )
}

/// The first directory, not before `from`, that holds a name.
pub open spec fn found_from(
    dirs: Seq<Seq<char>>,
    name: Seq<char>,
    existing: Set<Seq<char>>,
    from: int,
) -> Option<Seq<char>>
    decreases dirs.len() - from,
{
    if from < 0 || from >= dirs.len() {
        None
    } else if existing.contains(path::join(dirs[from], name)) {
        Some(path::join(dirs[from], name))
    } else {
        found_from(dirs, name, existing, from + 1)
    }
}

fn find_on_path(path_env: &str, name: &str, existing: &NameSet) -> (r: Option<String>)
    ensures
        text::opt_text(r) == found_from(search_dirs(path_env@), name@, existing@, 0),
{
    let dirs = strings::split(path_env, Class::Only(':'));
    let ghost all = search_dirs(path_env@);
    let mut i: usize = 0;
    while i < dirs.len()
        invariant
            i <= dirs.len(),
            all == search_dirs(path_env@),
            all == text::strs(dirs@),
            found_from(all, name@, existing@, 0) == found_from(all, name@, existing@, i as int),
        decreases dirs.len() - i,
    {
        assert(all[i as int] == dirs@[i as int]@);
        let candidate = path::join_path(dirs[i], name);
        if existing.contains(candidate.as_str()) {
            return Some(candidate);
        }
        i += 1;
    }
    None
}

/// What is said of a command that something else on the `PATH` hides.
pub open spec fn shadowed_bin(
    key: Seq<char>,
    bin: Seq<char>,
    bin_dir: Seq<char>,
    path_env: Seq<char>,
    existing: Set<Seq<char>>,
) -> Seq<FindingView> {
    match path::file_name(bin) {
        Some(name) if path::starts_with(bin, bin_dir) => match found_from(
            search_dirs(path_env),
            name,
            existing,
            0,
        ) {
            Some(resolved) => only_if(
                !path::same_path(resolved, bin),
                warning(
                    key + ": `"@ + name + "` resolves to "@ + resolved + " on $PATH, not rig's "@
                        + bin,
                ),
            ),
            None => seq![],
        },
        _ => seq![],
    }
}

fn check_one_shadowed(
    key: &str,
    bin: &str,
    bin_dir: &str,
    path_env: &str,
    existing: &NameSet,
) -> (r: Vec<Finding>)
    ensures
        views(r@) == shadowed_bin(key@, bin@, bin_dir@, path_env@, existing@),
{
    if !path::path_starts_with(bin, bin_dir) {
        return nothing();
    }
    if let Some(name) = path::path_file_name(bin) {
        if let Some(resolved) = find_on_path(path_env, name.as_str(), existing) {
            if !path::paths_equal(resolved.as_str(), bin) {
                let mut message = strings::cat5(
                    key,
                    ": `",
                    name.as_str(),
                    "` resolves to ",
                    resolved.as_str(),
                );
                message.append(" on $PATH, not rig's ");
                message.append(bin);
                return one(Severity::Warning, message);
            }
        }
    }
    nothing()
}

/// What is said of the commands of one tool.
pub open spec fn shadowed_bins(
    key: Seq<char>,
    bins: Seq<Seq<char>>,
    bin_dir: Seq<char>,
    path_env: Seq<char>,
    existing: Set<Seq<char>>,
) -> Seq<FindingView> {
    flat(
        Seq::new(bins.len(), |i: int| shadowed_bin(key, bins[i], bin_dir, path_env, existing)),
    )
}

fn check_tool_shadowed(
    key: &str,
    tool: &ToolLock,
    bin_dir: &str,
    path_env: &str,
    existing: &NameSet,
) -> (r: Vec<Finding>)
    ensures
        views(r@) == shadowed_bins(key@, tool@.bins, bin_dir@, path_env@, existing@),
{
    let ghost pieces = Seq::new(
        tool@.bins.len(),
        |i: int| shadowed_bin(key@, tool@.bins[i], bin_dir@, path_env@, existing@),
    );
    let mut out = nothing();
    let mut i: usize = 0;
    while i < tool.bins.len()
        invariant
            i <= tool.bins.len(),
            pieces == Seq::new(
                tool@.bins.len(),
                |i: int| shadowed_bin(key@, tool@.bins[i], bin_dir@, path_env@, existing@),
            ),
            views(out@) == flat(pieces.take(i as int)),
        decreases tool.bins.len() - i,
    {
        extend(
            &mut out,
            check_one_shadowed(key, tool.bins[i].as_str(), bin_dir, path_env, existing),
        );
        proof {
            lemma_flat_take(pieces, i as int);
        }
        i += 1;
    }
    assert(pieces.take(i as int) =~= pieces);
    out
}

/// Warns of commands that something earlier on the `PATH` hides.
pub fn check_shadowed_installed_bin(
    lock: &Lock,
    layout: &Layout,
    path_env: &str,
    existing: &NameSet,
) -> (r: Vec<Finding>)
    ensures
        views(r@) == flat(
            Seq::new(
                lock.tool.keys().len(),
                |i: int|
                    shadowed_bins(
                        lock.tool.keys()[i],
                        lock.tool.values()[i]@.bins,
                        layout.prefix_bin_dir@,
                        path_env@,
                        existing@,
                    ),
            ),
        ),
{
    let ghost pieces = Seq::new(
        lock.tool.keys().len(),
        |i: int|
            shadowed_bins(
                lock.tool.keys()[i],
                lock.tool.values()[i]@.bins,
                layout.prefix_bin_dir@,
                path_env@,
                existing@,
            ),
    );
    let mut out = nothing();
    let n = lock.tool.len();
    let mut i: usize = 0;
    while i < n
        invariant
            i <= n,
            n == lock.tool.keys().len(),
            n == lock.tool.values().len(),
            pieces == Seq::new(
                lock.tool.keys().len(),
                |i: int|
                    shadowed_bins(
                        lock.tool.keys()[i],
                        lock.tool.values()[i]@.bins,
                        layout.prefix_bin_dir@,
                        path_env@,
                        existing@,
                    ),
            ),
            views(out@) == flat(pieces.take(i as int)),
        decreases n - i,
    {
        extend(
            &mut out,
            check_tool_shadowed(
                lock.tool.key(i),
                lock.tool.value(i),
                layout.prefix_bin_dir.as_str(),
                path_env,
                existing,
            ),
        );
        proof {
            lemma_flat_take(pieces, i as int);
        }
        i += 1;
    }
    assert(pieces.take(i as int) =~= pieces);
    out
}

/// What is said of one tool whose files are gone.
pub open spec fn gone_files(
    key: Seq<char>,
    pkg: Option<Seq<char>>,
    bins: Seq<Seq<char>>,
    existing: Set<Seq<char>>,
) -> Seq<FindingView> {
    (match pkg {
        Some(p) => only_if(
            !existing.contains(p),
            warning(key + ": rig.lock points at "@ + p + ", which no longer exists on disk"@),
        ),
        None => seq![],
    }) + flat(
        Seq::new(
            bins.len(),
            |i: int|
                only_if(
                    !existing.contains(bins[i]),
                    warning(key + ": recorded bin "@ + bins[i] + " is missing"@),
                ),
        ),
    )
}

fn check_tool_vs_disk(key: &str, tool: &ToolLock, existing: &NameSet) -> (r: Vec<Finding>)
    ensures
        views(r@) == gone_files(key@, tool@.pkg, tool@.bins, existing@),
{
    let mut out = nothing();
    if let Some(p) = &tool.pkg {
        if !existing.contains(p.as_str()) {
            out = one(
                Severity::Warning,
                strings::cat4(
                    key,
                    ": rig.lock points at ",
                    p.as_str(),
                    ", which no longer exists on disk",
                ),
            );
        }
    }
    let ghost start = views(out@);
    let ghost pieces = Seq::new(
        tool@.bins.len(),
        |i: int|
            only_if(
                !existing@.contains(tool@.bins[i]),
                warning(key@ + ": recorded bin "@ + tool@.bins[i] + " is missing"@),
            ),
    );
    let mut i: usize = 0;
    assert(start + flat(pieces.take(0)) =~= start);
    while i < tool.bins.len()
        invariant
            i <= tool.bins.len(),
            pieces == Seq::new(
                tool@.bins.len(),
                |i: int|
                    only_if(
                        !existing@.contains(tool@.bins[i]),
                        warning(key@ + ": recorded bin "@ + tool@.bins[i] + " is missing"@),
                    ),
            ),
            views(out@) == start + flat(pieces.take(i as int)),
        decreases tool.bins.len() - i,
    {
        let bin = tool.bins[i].as_str();
        let more = if !existing.contains(bin) {
            one(Severity::Warning, strings::cat4(key, ": recorded bin ", bin, " is missing"))
        } else {
            nothing()
        };
        assert(views(more@) == pieces[i as int]);
        extend(&mut out, more);
        proof {
            lemma_flat_take(pieces, i as int);
            assert(start + flat(pieces.take(i as int)) + pieces[i as int] =~= start + (flat(
                pieces.take(i as int),
            ) + pieces[i as int]));
        }
        i += 1;
    }
    assert(pieces.take(i as int) =~= pieces);
    out
}

/// Warns of records whose files are gone.
pub fn check_lock_vs_disk(lock: &Lock, existing: &NameSet) -> (r: Vec<Finding>)
    ensures
        views(r@) == flat(
            Seq::new(
                lock.tool.keys().len(),
                |i: int|
                    gone_files(
                        lock.tool.keys()[i],
                        lock.tool.values()[i]@.pkg,
                        lock.tool.values()[i]@.bins,
                        existing@,
                    ),
            ),
        ),
{
    let ghost pieces = Seq::new(
        lock.tool.keys().len(),
        |i: int|
            gone_files(
                lock.tool.keys()[i],
                lock.tool.values()[i]@.pkg,
                lock.tool.values()[i]@.bins,
                existing@,
            ),
    );
    let mut out = nothing();
    let n = lock.tool.len();
    let mut i: usize = 0;
    while i < n
        invariant
            i <= n,
            n == lock.tool.keys().len(),
            n == lock.tool.values().len(),
            pieces == Seq::new(
                lock.tool.keys().len(),
                |i: int|
                    gone_files(
                        lock.tool.keys()[i],
                        lock.tool.values()[i]@.pkg,
                        lock.tool.values()[i]@.bins,
                        existing@,
                    ),
            ),
            views(out@) == flat(pieces.take(i as int)),
        decreases n - i,
    {
        extend(&mut out, check_tool_vs_disk(lock.tool.key(i), lock.tool.value(i), existing));
        proof {
            lemma_flat_take(pieces, i as int);
        }
        i += 1;
    }
    assert(pieces.take(i as int) =~= pieces);
    out
}

/// Whether a record names a directory as its own.
pub open spec fn is_known(lock: Lock, dir: Seq<char>) -> bool {
    exists|i: int|
        0 <= i < lock.tool.values().len() && holds_dir(#[trigger] lock.tool.values()[i], dir)
}

pub open spec fn holds_dir(tool: ToolLock, dir: Seq<char>) -> bool {
    match tool.pkg {
        Some(p) => path::same_path(p@, dir),
        None => false,
    }
}

fn known_dir(lock: &Lock, dir: &str) -> (r: bool)
    ensures
        r == is_known(*lock, dir@),
{
    let n = lock.tool.len();
    let mut i: usize = 0;
    while i < n
        invariant
            i <= n,
            n == lock.tool.keys().len(),
            n == lock.tool.values().len(),
            forall|j: int|
                0 <= j < i ==> !holds_dir(#[trigger] lock.tool.values()[j], dir@),
        decreases n - i,
    {
        if let Some(p) = &lock.tool.value(i).pkg {
            if path::paths_equal(p.as_str(), dir) {
                assert(holds_dir(lock.tool.values()[i as int], dir@));
                return true;
            }
        }
        i += 1;
    }
    false
}

/// Notes directories that no record names. `version_dirs` are the directories
/// of versions that are there.
pub fn check_orphan_pkg_dirs(lock: &Lock, version_dirs: &Vec<String>) -> (r: Vec<Finding>)
    ensures
        views(r@) == orphans(*lock, text::texts(version_dirs@)),
{
    let ghost dirs = text::texts(version_dirs@);
    let ghost pieces = orphan_pieces(*lock, dirs);
    let mut out = nothing();
    let mut i: usize = 0;
    while i < version_dirs.len()
        invariant
            i <= version_dirs.len(),
            dirs == text::texts(version_dirs@),
            pieces == orphan_pieces(*lock, dirs),
            views(out@) == flat(pieces.take(i as int)),
        decreases version_dirs.len() - i,
    {
        let dir = version_dirs[i].as_str();
        let more = if known_dir(lock, dir) {
            nothing()
        } else {
            one(
                Severity::Info,
                strings::cat2("orphaned pkg dir not referenced by any lock entry: ", dir),
            )
        };
        assert(views(more@) == pieces[i as int]);
        extend(&mut out, more);
        proof {
            lemma_flat_take(pieces, i as int);
        }
        i += 1;
    }
    assert(pieces.take(i as int) =~= pieces);
    out
}

pub open spec fn orphan_pieces(lock: Lock, dirs: Seq<Seq<char>>) -> Seq<Seq<FindingView>> {
    Seq::new(
        dirs.len(),
        |i: int|
            only_if(
                !is_known(lock, dirs[i]),
                note("orphaned pkg dir not referenced by any lock entry: "@ + dirs[i]),
            ),
    )
}

pub open spec fn orphans(lock: Lock, dirs: Seq<Seq<char>>) -> Seq<FindingView> {
    flat(orphan_pieces(lock, dirs))
}

/// A symbolic link that is there.
#[derive(Debug)]
pub struct LinkFact {
    pub path: String,
    /// What it holds.
    pub target: String,
    /// Whether what it points at is there.
    pub resolves: bool,
}

pub open spec fn dangling(link: LinkFact, state_dir: Seq<char>) -> Seq<FindingView> {
    let place = remove::link_place(link.path@, link.target@);
    only_if(
        !link.resolves && path::starts_with(place, state_dir),
        warning(
            link.path@ + " is a dangling symlink into rig's pkg tree ("@ + place
                + " no longer exists)"@,
        ),
    )
}

fn check_one_link(link: &LinkFact, state_dir: &str) -> (r: Vec<Finding>)
    ensures
        views(r@) == dangling(*link, state_dir@),
{
    if link.resolves {
        return nothing();
    }
    let target = link.target.as_str();
    let place = if path::is_absolute_path(target) {
        target.to_owned()
    } else {
        let dir = match path::path_parent(link.path.as_str()) {
            Some(dir) => dir,
            None => "/".to_owned(),
        };
        path::join_path(dir.as_str(), target)
    };
    if path::path_starts_with(place.as_str(), state_dir) {
        one(
            Severity::Warning,
            strings::cat4(
                link.path.as_str(),
                " is a dangling symlink into rig's pkg tree (",
                place.as_str(),
                " no longer exists)",
            ),
        )
    } else {
        nothing()
    }
}

/// Warns of links into the state directory that lead nowhere. `links` are the
/// links in the directory of commands.
pub fn check_dangling_symlinks(state_dir: &str, links: &Vec<LinkFact>) -> (r: Vec<Finding>)
    ensures
        views(r@) == flat(Seq::new(links@.len(), |i: int| dangling(links@[i], state_dir@))),
{
    let ghost pieces = Seq::new(links@.len(), |i: int| dangling(links@[i], state_dir@));
    let mut out = nothing();
    let mut i: usize = 0;
    while i < links.len()
        invariant
            i <= links.len(),
            pieces == Seq::new(links@.len(), |i: int| dangling(links@[i], state_dir@)),
            views(out@) == flat(pieces.take(i as int)),
        decreases links.len() - i,
    {
        extend(&mut out, check_one_link(&links[i], state_dir));
        proof {
            lemma_flat_take(pieces, i as int);
        }
        i += 1;
    }
    assert(pieces.take(i as int) =~= pieces);
    out
}

/// What is said of an entry that could not be installed.
pub open spec fn blocked(
    e: ResolvedEntry<'static>,
    lock: Lock,
    bin_dir: Seq<char>,
    present: Set<Seq<char>>,
) -> Seq<FindingView> {
    if lock.tool@.contains_key(e.key_text()) {
        seq![]
    } else {
        flat(
            Seq::new(
                e.commands().len(),
                |i: int| blocked_name(e.key_text(), e.commands()[i], bin_dir, present),
            ),
        )
    }
}

pub open spec fn blocked_name(
    key: Seq<char>,
    name: Seq<char>,
    bin_dir: Seq<char>,
    present: Set<Seq<char>>,
) -> Seq<FindingView> {
    let candidate = path::join(bin_dir, name);
    only_if(
        present.contains(candidate),
        warning(
            key + " isn't installed via rig, but "@ + candidate
                + " already exists — installing would conflict"@,
        ),
    )
}

fn check_one_blocked<'a>(
    entry: &ResolvedEntry<'a>,
    lock: &Lock,
    bin_dir: &str,
    present: &NameSet,
) -> (r: Vec<Finding>)
    ensures
        views(r@) == blocked(*entry, *lock, bin_dir@, present@),
{
    let key = entry.key();
    if lock.tool.contains_key(key.as_str()) {
        return nothing();
    }
    let names = entry.command_names();
    let ghost all = entry.commands();
    let ghost pieces = Seq::new(
        all.len(),
        |i: int| blocked_name(key@, all[i], bin_dir@, present@),
    );
    let mut out = nothing();
    let mut i: usize = 0;
    while i < names.len()
        invariant
            i <= names.len(),
            all == text::texts(names@),
            pieces == Seq::new(
                all.len(),
                |i: int| blocked_name(key@, all[i], bin_dir@, present@),
            ),
            views(out@) == flat(pieces.take(i as int)),
        decreases names.len() - i,
    {
        assert(all[i as int] == names@[i as int]@);
        let candidate = path::join_path(bin_dir, names[i].as_str());
        let more = if present.contains(candidate.as_str()) {
            one(
                Severity::Warning,
                strings::cat4(
                    key.as_str(),
                    " isn't installed via rig, but ",
                    candidate.as_str(),
                    " already exists — installing would conflict",
                ),
            )
        } else {
            nothing()
        };
        assert(views(more@) == pieces[i as int]);
        extend(&mut out, more);
        proof {
            lemma_flat_take(pieces, i as int);
        }
        i += 1;
    }
    assert(pieces.take(i as int) =~= pieces);
    out
}

/// Warns of entries that cannot be installed because something stands where
/// their commands would go. `present` holds the paths that are there, links
/// that lead nowhere among them.
pub fn check_foreign_prefix_bin(
    config: &Config,
    lock: &Lock,
    layout: &Layout,
    present: &NameSet,
) -> (r: Vec<Finding>)
    ensures
        views(r@) == flat(
            Seq::new(
                config::entries(*config).len(),
                |i: int|
                    blocked(
                        config::entries(*config)[i],
                        *lock,
                        layout.prefix_bin_dir@,
                        present@,
                    ),
            ),
        ),
{
    let entries = config::all_entries(config);
    let ghost pieces = Seq::new(
        entries@.len(),
        |i: int| blocked(entries@[i], *lock, layout.prefix_bin_dir@, present@),
    );
    let mut out = nothing();
    let mut i: usize = 0;
    while i < entries.len()
        invariant
            i <= entries.len(),
            pieces == Seq::new(
                entries@.len(),
                |i: int| blocked(entries@[i], *lock, layout.prefix_bin_dir@, present@),
            ),
            views(out@) == flat(pieces.take(i as int)),
        decreases entries.len() - i,
    {
        extend(
            &mut out,
            check_one_blocked(&entries[i], lock, layout.prefix_bin_dir.as_str(), present),
        );
        proof {
            lemma_flat_take(pieces, i as int);
        }
        i += 1;
    }
    assert(pieces.take(i as int) =~= pieces);
    out
}

/// What is said of an entry without completions.
pub open spec fn uncompleted(e: ResolvedEntry<'static>, lock: Lock) -> Seq<FindingView> {
    match e.shared() {
        Some(c) => only_if(
            lock.tool@.contains_key(e.key_text()) && c.completions != CompletionsSpec::Enabled(
                false,
            ) && lock.tool@[e.key_text()].completions@.len() == 0,
            warning(e.key_text() + " is installed but has no registered completions"@),
        ),
        None => seq![],
    }
}

fn check_one_completed<'a>(entry: &ResolvedEntry<'a>, lock: &Lock) -> (r: Vec<Finding>)
    ensures
        views(r@) == uncompleted(*entry, *lock),
{
    if let Some(c) = entry.common() {
        let key = entry.key();
        if let Some(tool) = lock.tool.get(key.as_str()) {
            let wanted = match &c.completions {
                CompletionsSpec::Enabled(on) => *on,
                _ => true,
            };
            if wanted && tool.completions.len() == 0 {
                return one(
                    Severity::Warning,
                    strings::cat2(
                        key.as_str(),
                        " is installed but has no registered completions",
                    ),
                );
            }
        }
    }
    nothing()
}

/// Warns of installed tools that should have completions and have none.
pub fn check_missing_completions(config: &Config, lock: &Lock) -> (r: Vec<Finding>)
    ensures
        views(r@) == flat(
            Seq::new(
                config::entries(*config).len(),
                |i: int| uncompleted(config::entries(*config)[i], *lock),
            ),
        ),
{
    let entries = config::all_entries(config);
    let ghost pieces = Seq::new(entries@.len(), |i: int| uncompleted(entries@[i], *lock));
    let mut out = nothing();
    let mut i: usize = 0;
    while i < entries.len()
        invariant
            i <= entries.len(),
            pieces == Seq::new(entries@.len(), |i: int| uncompleted(entries@[i], *lock)),
            views(out@) == flat(pieces.take(i as int)),
        decreases entries.len() - i,
    {
        extend(&mut out, check_one_completed(&entries[i], lock));
        proof {
            lemma_flat_take(pieces, i as int);
        }
        i += 1;
    }
    assert(pieces.take(i as int) =~= pieces);
    out
}

/// The names of the files under a directory.
#[derive(Debug)]
pub struct DirIndex {
    pub dir: String,
    pub names: NameSet,
}

/// What is said of one completion.
pub open spec fn shadowed_completion(
    key: Seq<char>,
    completion: Seq<char>,
    indexes: Seq<DirIndex>,
) -> Seq<FindingView> {
    match path::file_name(completion) {
        Some(name) => flat(
            Seq::new(
                indexes.len(),
                |i: int|
                    only_if(
                        indexes[i].names@.contains(name),
                        warning(
                            key + "'s completion `"@ + name
                                + "` is shadowed by a system completion under "@
                                + indexes[i].dir@ + " — check fpath order"@,
                        ),
                    ),
            ),
        ),
        None => seq![],
    }
}

fn check_one_completion(key: &str, completion: &str, indexes: &Vec<DirIndex>) -> (r: Vec<Finding>)
    ensures
        views(r@) == shadowed_completion(key@, completion@, indexes@),
{
    let name = match path::path_file_name(completion) {
        Some(name) => name,
        None => {
            return nothing();
        },
    };
    let ghost pieces = Seq::new(
        indexes@.len(),
        |i: int|
            only_if(
                indexes@[i].names@.contains(name@),
                warning(
                    key@ + "'s completion `"@ + name@
                        + "` is shadowed by a system completion under "@ + indexes@[i].dir@
                        + " — check fpath order"@,
                ),
            ),
    );
    let mut out = nothing();
    let mut i: usize = 0;
    while i < indexes.len()
        invariant
            i <= indexes.len(),
            pieces == Seq::new(
                indexes@.len(),
                |i: int|
                    only_if(
                        indexes@[i].names@.contains(name@),
                        warning(
                            key@ + "'s completion `"@ + name@
                                + "` is shadowed by a system completion under "@
                                + indexes@[i].dir@ + " — check fpath order"@,
                        ),
                    ),
            ),
            views(out@) == flat(pieces.take(i as int)),
        decreases indexes.len() - i,
    {
        let more = if indexes[i].names.contains(name.as_str()) {
            let mut message = strings::cat5(
                key,
                "'s completion `",
                name.as_str(),
                "` is shadowed by a system completion under ",
                indexes[i].dir.as_str(),
            );
            message.append(" — check fpath order");
            one(Severity::Warning, message)
        } else {
            nothing()
        };
        assert(views(more@) == pieces[i as int]);
        extend(&mut out, more);
        proof {
            lemma_flat_take(pieces, i as int);
        }
        i += 1;
    }
    assert(pieces.take(i as int) =~= pieces);
    out
}

pub open spec fn shadowed_completions(
    key: Seq<char>,
    completions: Seq<Seq<char>>,
    indexes: Seq<DirIndex>,
) -> Seq<FindingView> {
    flat(Seq::new(completions.len(), |i: int| shadowed_completion(key, completions[i], indexes)))
}

fn check_tool_completions(key: &str, tool: &ToolLock, indexes: &Vec<DirIndex>) -> (r: Vec<Finding>)
    ensures
        views(r@) == shadowed_completions(key@, tool@.completions, indexes@),
{
    let ghost pieces = Seq::new(
        tool@.completions.len(),
        |i: int| shadowed_completion(key@, tool@.completions[i], indexes@),
    );
    let mut out = nothing();
    let mut i: usize = 0;
    while i < tool.completions.len()
        invariant
            i <= tool.completions.len(),
            pieces == Seq::new(
                tool@.completions.len(),
                |i: int| shadowed_completion(key@, tool@.completions[i], indexes@),
            ),
            views(out@) == flat(pieces.take(i as int)),
        decreases tool.completions.len() - i,
    {
        extend(&mut out, check_one_completion(key, tool.completions[i].as_str(), indexes));
        proof {
            lemma_flat_take(pieces, i as int);
        }
        i += 1;
    }
    assert(pieces.take(i as int) =~= pieces);
    out
}

/// Warns of completions that the system has under the same name.
pub fn check_shadowed_completions(lock: &Lock, indexes: &Vec<DirIndex>) -> (r: Vec<Finding>)
    ensures
        views(r@) == flat(
            Seq::new(
                lock.tool.keys().len(),
                |i: int|
                    shadowed_completions(
                        lock.tool.keys()[i],
                        lock.tool.values()[i]@.completions,
                        indexes@,
                    ),
            ),
        ),
{
    let ghost pieces = Seq::new(
        lock.tool.keys().len(),
        |i: int|
            shadowed_completions(
                lock.tool.keys()[i],
                lock.tool.values()[i]@.completions,
                indexes@,
            ),
    );
    let mut out = nothing();
    let n = lock.tool.len();
    let mut i: usize = 0;
    while i < n
        invariant
            i <= n,
            n == lock.tool.keys().len(),
            n == lock.tool.values().len(),
            pieces == Seq::new(
                lock.tool.keys().len(),
                |i: int|
                    shadowed_completions(
                        lock.tool.keys()[i],
                        lock.tool.values()[i]@.completions,
                        indexes@,
                    ),
            ),
            views(out@) == flat(pieces.take(i as int)),
        decreases n - i,
    {
        extend(&mut out, check_tool_completions(lock.tool.key(i), lock.tool.value(i), indexes));
        proof {
            lemma_flat_take(pieces, i as int);
        }
        i += 1;
    }
    assert(pieces.take(i as int) =~= pieces);
    out
}

/// Whether `sudo` is a word of a command.
pub open spec fn calls_sudo(cmd: Seq<char>) -> bool {
    text::words(cmd).contains("sudo"@)
}

fn command_calls_sudo(cmd: &str) -> (r: bool)
    ensures
        r == calls_sudo(cmd@),
{
    let words = strings::words(cmd);
    let ghost all = text::words(cmd@);
    let mut i: usize = 0;
    while i < words.len()
        invariant
            i <= words.len(),
            all == text::words(cmd@),
            all == text::strs(words@),
            forall|j: int| 0 <= j < i ==> #[trigger] all[j] != "sudo"@,
        decreases words.len() - i,
    {
        assert(all[i as int] == words@[i as int]@);
        if strings::same(words[i], "sudo") {
            return true;
        }
        i += 1;
    }
    false
}

/// Whether one of several commands calls `sudo`.
pub open spec fn any_calls_sudo(cmds: Seq<Seq<char>>) -> bool {
    exists|i: int| 0 <= i < cmds.len() && calls_sudo(#[trigger] cmds[i])
}

fn one_calls_sudo(cmds: &Vec<String>) -> (r: bool)
    ensures
        r == any_calls_sudo(text::texts(cmds@)),
{
    let ghost all = text::texts(cmds@);
    let mut i: usize = 0;
    while i < cmds.len()
        invariant
            i <= cmds.len(),
            all == text::texts(cmds@),
            forall|j: int| 0 <= j < i ==> !calls_sudo(#[trigger] all[j]),
        decreases cmds.len() - i,
    {
        assert(all[i as int] == cmds@[i as int]@);
        if command_calls_sudo(cmds[i].as_str()) {
            return true;
        }
        i += 1;
    }
    false
}

/// Whether one of the commands of a `setup` field calls `sudo`.
pub open spec fn uses_sudo(setup: SetupSpec) -> bool {
    match setup {
        SetupSpec::Single(c) => calls_sudo(c@),
        SetupSpec::Multiple(cs) => any_calls_sudo(text::texts(cs@)),
        SetupSpec::Split { install, update } => calls_sudo(install@) || calls_sudo(update@),
    }
}

pub fn setup_uses_sudo(setup: &SetupSpec) -> (r: bool)
    ensures
        r == uses_sudo(*setup),
{
    match setup {
        SetupSpec::Single(c) => command_calls_sudo(c.as_str()),
        SetupSpec::Multiple(cs) => one_calls_sudo(cs),
        SetupSpec::Split { install, update } => command_calls_sudo(install.as_str())
            || command_calls_sudo(update.as_str()),
    }
}

/// What is said of an entry whose hook reaches outside.
pub open spec fn reaches_out(e: ResolvedEntry<'static>) -> Seq<FindingView> {
    match e.shared() {
        Some(c) => only_if(
            c.setup is Some && uses_sudo(c.setup->0),
            note(
                e.key_text()
                    + "'s setup hook runs `sudo` — its output is outside rig's control, uninstall will be incomplete"@,
            ),
        ),
        None => seq![],
    }
}

fn check_one_setup<'a>(entry: &ResolvedEntry<'a>) -> (r: Vec<Finding>)
    ensures
        views(r@) == reaches_out(*entry),
{
    if let Some(c) = entry.common() {
        if let Some(setup) = &c.setup {
            if setup_uses_sudo(setup) {
                return one(
                    Severity::Info,
                    strings::cat2(
                        entry.key().as_str(),
                        "'s setup hook runs `sudo` — its output is outside rig's control, uninstall will be incomplete",
                    ),
                );
            }
        }
    }
    nothing()
}

/// Notes hooks that write outside of what can be removed.
pub fn check_sudo_in_setup(config: &Config) -> (r: Vec<Finding>)
    ensures
        views(r@) == flat(
            Seq::new(
                config::entries(*config).len(),
                |i: int| reaches_out(config::entries(*config)[i]),
            ),
        ),
{
    let entries = config::all_entries(config);
    let ghost pieces = Seq::new(entries@.len(), |i: int| reaches_out(entries@[i]));
    let mut out = nothing();
    let mut i: usize = 0;
    while i < entries.len()
        invariant
            i <= entries.len(),
            pieces == Seq::new(entries@.len(), |i: int| reaches_out(entries@[i])),
            views(out@) == flat(pieces.take(i as int)),
        decreases entries.len() - i,
    {
        extend(&mut out, check_one_setup(&entries[i]));
        proof {
            lemma_flat_take(pieces, i as int);
        }
        i += 1;
    }
    assert(pieces.take(i as int) =~= pieces);
    out
}

/// What is said of a tool whose kept output registers completions too early.
pub open spec fn unguarded(key: Seq<char>, output: Option<Seq<char>>) -> Seq<FindingView> {
    match output {
        Some(s) => only_if(
            text::contains(s, "compdef"@) && !text::contains(s, "functions[compdef]"@),
            warning(
                key
                    + "'s cached eval output calls `compdef` without a guard — must stay after compinit"@,
            ),
        ),
        None => seq![],
    }
}

fn check_one_guarded(key: &str, tool: &ToolLock) -> (r: Vec<Finding>)
    ensures
        views(r@) == unguarded(key@, tool@.eval_cached_output),
{
    if let Some(output) = &tool.eval_cached_output {
        if strings::contains(output.as_str(), "compdef") && !strings::contains(
            output.as_str(),
            "functions[compdef]",
        ) {
            return one(
                Severity::Warning,
                strings::cat2(
                    key,
                    "'s cached eval output calls `compdef` without a guard — must stay after compinit",
                ),
            );
        }
    }
    nothing()
}

/// Warns of kept output that calls `compdef` without making sure that it is
/// there.
pub fn check_unguarded_compdef(lock: &Lock) -> (r: Vec<Finding>)
    ensures
        views(r@) == flat(
            Seq::new(
                lock.tool.keys().len(),
                |i: int|
                    unguarded(
                        lock.tool.keys()[i],
                        lock.tool.values()[i]@.eval_cached_output,
                    ),
            ),
        ),
{
    let ghost pieces = Seq::new(
        lock.tool.keys().len(),
        |i: int| unguarded(lock.tool.keys()[i], lock.tool.values()[i]@.eval_cached_output),
    );
    let mut out = nothing();
    let n = lock.tool.len();
    let mut i: usize = 0;
    while i < n
        invariant
            i <= n,
            n == lock.tool.keys().len(),
            n == lock.tool.values().len(),
            pieces == Seq::new(
                lock.tool.keys().len(),
                |i: int|
                    unguarded(lock.tool.keys()[i], lock.tool.values()[i]@.eval_cached_output),
            ),
            views(out@) == flat(pieces.take(i as int)),
        decreases n - i,
    {
        extend(&mut out, check_one_guarded(lock.tool.key(i), lock.tool.value(i)));
        proof {
            lemma_flat_take(pieces, i as int);
        }
        i += 1;
    }
    assert(pieces.take(i as int) =~= pieces);
    out
}

/// Where `npm` keeps its packages, from what `npm root -g` said.
pub fn npm_global_root(success: bool, stdout: &str) -> (r: Option<String>)
    ensures
        text::opt_text(r) == if success {
            Some(text::trim(stdout@))
        } else {
            None
        },
{
    if success {
        Some(strings::trim(stdout).to_owned())
    } else {
        None
    }
}

/// Where `bun` and `npm` keep a package.
pub open spec fn bun_tree(bin_dir: Seq<char>, name: Seq<char>) -> Option<Seq<char>> {
    match path::parent(bin_dir) {
        Some(p) => Some(path::join(path::join(p, "install/global/node_modules"@), name)),
        None => None,
    }
}

pub open spec fn npm_tree(npm_root: Option<Seq<char>>, name: Seq<char>) -> Option<Seq<char>> {
    match npm_root {
        Some(root) => Some(path::join(root, name)),
        None => None,
    }
}

pub open spec fn is_there(p: Option<Seq<char>>, existing: Set<Seq<char>>) -> bool {
    p is Some && existing.contains(p->0)
}

pub open spec fn doubled(
    name: Seq<char>,
    bin_dir: Seq<char>,
    npm_root: Option<Seq<char>>,
    existing: Set<Seq<char>>,
) -> Seq<FindingView> {
    only_if(
        is_there(bun_tree(bin_dir, name), existing) && is_there(
            npm_tree(npm_root, name),
            existing,
        ),
        warning(
            name
                + " is installed under both bun's and npm's global trees — only one will win on PATH"@,
        ),
    )
}

/// Where a package would lie under `bun` and under `npm`.
pub fn node_trees(bin_dir: &str, npm_root: Option<&str>, name: &str) -> (r: (
    Option<String>,
    Option<String>,
))
    ensures
        text::opt_text(r.0) == bun_tree(bin_dir@, name@),
        text::opt_text(r.1) == npm_tree(text::opt_str(npm_root), name@),
{
    let bun = match path::path_parent(bin_dir) {
        Some(p) => {
            let modules = path::join_path(p.as_str(), "install/global/node_modules");
            Some(path::join_path(modules.as_str(), name))
        },
        None => None,
    };
    let npm = match npm_root {
        Some(root) => Some(path::join_path(root, name)),
        None => None,
    };
    (bun, npm)
}

fn exists_there(p: &Option<String>, existing: &NameSet) -> (r: bool)
    ensures
        r == is_there(text::opt_text(*p), existing@),
{
    match p {
        Some(s) => existing.contains(s.as_str()),
        None => false,
    }
}

/// Warns of node packages that both managers have installed. `npm_root` is
/// where `npm` keeps packages, where that is known.
pub fn check_dual_node_managers(
    config: &Config,
    layout: &Layout,
    npm_root: Option<&str>,
    existing: &NameSet,
) -> (r: Vec<Finding>)
    ensures
        views(r@) == flat(
            Seq::new(
                config.node@.len(),
                |i: int|
                    doubled(
                        config.node@[i].name@,
                        layout.prefix_bin_dir@,
                        text::opt_str(npm_root),
                        existing@,
                    ),
            ),
        ),
{
    let ghost pieces = Seq::new(
        config.node@.len(),
        |i: int|
            doubled(
                config.node@[i].name@,
                layout.prefix_bin_dir@,
                text::opt_str(npm_root),
                existing@,
            ),
    );
    let mut out = nothing();
    let mut i: usize = 0;
    while i < config.node.len()
        invariant
            i <= config.node.len(),
            pieces == Seq::new(
                config.node@.len(),
                |i: int|
                    doubled(
                        config.node@[i].name@,
                        layout.prefix_bin_dir@,
                        text::opt_str(npm_root),
                        existing@,
                    ),
            ),
            views(out@) == flat(pieces.take(i as int)),
        decreases config.node.len() - i,
    {
        let name = config.node[i].name.as_str();
        let (bun, npm) = node_trees(layout.prefix_bin_dir.as_str(), npm_root, name);
        let more = if exists_there(&bun, existing) && exists_there(&npm, existing) {
            one(
                Severity::Warning,
                strings::cat2(
                    name,
                    " is installed under both bun's and npm's global trees — only one will win on PATH",
                ),
            )
        } else {
            nothing()
        };
        assert(views(more@) == pieces[i as int]);
        extend(&mut out, more);
        proof {
            lemma_flat_take(pieces, i as int);
        }
        i += 1;
    }
    assert(pieces.take(i as int) =~= pieces);
    out
}

/// The command whose verdict is worth another look: one that was recorded
/// after a probe, not after a choice.
pub open spec fn probed_command(e: ResolvedEntry<'static>, lock: Lock) -> Option<(Seq<char>, bool)> {
    match e.shared() {
        Some(c) => if c.eval is Some && c.eval->0.cache_choice() is None
            && lock.tool@.contains_key(e.key_text())
            && lock.tool@[e.key_text()].eval_cacheable is Some {
            Some((c.eval->0.cmd_text(), lock.tool@[e.key_text()].eval_cacheable->0))
        } else {
            None
        },
        None => None,
    }
}

/// The command of an entry to probe again, and what is recorded of it.
pub fn drift_candidate<'a>(entry: &ResolvedEntry<'a>, lock: &Lock) -> (r: Option<(String, bool)>)
    ensures
        match r {
            Some((cmd, recorded)) => probed_command(*entry, *lock) == Some((cmd@, recorded)),
            None => probed_command(*entry, *lock) is None,
        },
{
    if let Some(c) = entry.common() {
        if let Some(eval) = &c.eval {
            if eval.cache_override().is_none() {
                if let Some(tool) = lock.tool.get(entry.key().as_str()) {
                    if let Some(recorded) = tool.eval_cacheable {
                        return Some((eval.command().to_owned(), recorded));
                    }
                }
            }
        }
    }
    None
}

pub open spec fn bool_text(b: bool) -> Seq<char> {
    if b {
        "true"@
    } else {
        "false"@
    }
}

fn bool_str(b: bool) -> (r: &'static str)
    ensures
        r@ == bool_text(b),
{
    if b {
        "true"
    } else {
        "false"
    }
}

pub open spec fn drifted(e: ResolvedEntry<'static>, lock: Lock, probes: Map<Seq<char>, bool>) -> Seq<
    FindingView,
> {
    match probed_command(e, lock) {
        Some((cmd, recorded)) => only_if(
            probes.contains_key(cmd) && probes[cmd] != recorded,
            warning(
                e.key_text() + "'s eval cacheability changed ("@ + bool_text(recorded) + " -> "@
                    + bool_text(probes[cmd]) + ") — run `rig sync --force` to re-probe"@,
            ),
        ),
        None => seq![],
    }
}

fn check_one_drift<'a>(entry: &ResolvedEntry<'a>, lock: &Lock, probes: &Table<bool>) -> (r: Vec<
    Finding,
>)
    ensures
        views(r@) == drifted(*entry, *lock, probes@),
{
    if let Some((cmd, recorded)) = drift_candidate(entry, lock) {
        if let Some(now) = probes.get(cmd.as_str()) {
            if *now != recorded {
                let mut message = strings::cat5(
                    entry.key().as_str(),
                    "'s eval cacheability changed (",
                    bool_str(recorded),
                    " -> ",
                    bool_str(*now),
                );
                message.append(") — run `rig sync --force` to re-probe");
                return one(Severity::Warning, message);
            }
        }
    }
    nothing()
}

/// Warns of `eval` commands whose verdict has changed. `probes` holds what a
/// new probe of a command says, where one could be made.
pub fn check_eval_cache_drift(config: &Config, lock: &Lock, probes: &Table<bool>) -> (r: Vec<
    Finding,
>)
    ensures
        views(r@) == flat(
            Seq::new(
                config::entries(*config).len(),
                |i: int| drifted(config::entries(*config)[i], *lock, probes@),
            ),
        ),
{
    let entries = config::all_entries(config);
    let ghost pieces = Seq::new(entries@.len(), |i: int| drifted(entries@[i], *lock, probes@));
    let mut out = nothing();
    let mut i: usize = 0;
    while i < entries.len()
        invariant
            i <= entries.len(),
            pieces == Seq::new(entries@.len(), |i: int| drifted(entries@[i], *lock, probes@)),
            views(out@) == flat(pieces.take(i as int)),
        decreases entries.len() - i,
    {
        extend(&mut out, check_one_drift(&entries[i], lock, probes));
        proof {
            lemma_flat_take(pieces, i as int);
        }
        i += 1;
    }
    assert(pieces.take(i as int) =~= pieces);
    out
}

/// What is on disk, as far as the checks ask.
#[derive(Debug)]
pub struct Facts {
    /// The value of `PATH`.
    pub path_env: String,
    /// When the configuration was last changed.
    pub config_mtime: Option<i128>,
    /// When the startup file was last written.
    pub init_mtime: Option<i128>,
    /// The paths asked about that exist.
    pub existing: NameSet,
    /// The same, with links that lead nowhere.
    pub present: NameSet,
    /// The directories of versions.
    pub version_dirs: Vec<String>,
    /// The links in the directory of commands.
    pub bin_links: Vec<LinkFact>,
    /// The files in the system's directories of completions.
    pub completions: Vec<DirIndex>,
    /// Where `npm` keeps packages.
    pub npm_root: Option<String>,
    /// What a new probe of a command says.
    pub probes: Table<bool>,
}

fn as_slice(o: &Option<String>) -> (r: Option<&str>)
    ensures
        text::opt_str(r) == text::opt_text(*o),
{
    match o {
        Some(s) => Some(s.as_str()),
        None => None,
    }
}

/// What the checks of the records say.
pub open spec fn record_findings(config: Config, lock: Lock, layout: Layout, facts: Facts) -> Seq<
    FindingView,
> {
    let keys = lock.tool.keys();
    let tools = lock.tool.values();
    flat(
        Seq::new(
            keys.len(),
            |i: int|
                shadowed_bins(
                    keys[i],
                    tools[i]@.bins,
                    layout.prefix_bin_dir@,
                    facts.path_env@,
                    facts.existing@,
                ),
        ),
    ) + flat(
        Seq::new(
            keys.len(),
            |i: int| gone_files(keys[i], tools[i]@.pkg, tools[i]@.bins, facts.existing@),
        ),
    ) + orphans(lock, text::texts(facts.version_dirs@)) + flat(
        Seq::new(
            facts.bin_links@.len(),
            |i: int| dangling(facts.bin_links@[i], layout.state_dir@),
        ),
    )
}

/// What the checks of the entries and of what they left behind say.
pub open spec fn entry_findings(config: Config, lock: Lock, layout: Layout, facts: Facts) -> Seq<
    FindingView,
> {
    let entries = config::entries(config);
    let keys = lock.tool.keys();
    let tools = lock.tool.values();
    flat(
        Seq::new(
            entries.len(),
            |i: int| blocked(entries[i], lock, layout.prefix_bin_dir@, facts.present@),
        ),
    ) + flat(Seq::new(entries.len(), |i: int| uncompleted(entries[i], lock))) + flat(
        Seq::new(
            keys.len(),
            |i: int| shadowed_completions(keys[i], tools[i]@.completions, facts.completions@),
        ),
    ) + flat(Seq::new(entries.len(), |i: int| reaches_out(entries[i]))) + flat(
        Seq::new(keys.len(), |i: int| unguarded(keys[i], tools[i]@.eval_cached_output)),
    ) + flat(
        Seq::new(
            config.node@.len(),
            |i: int|
                doubled(
                    config.node@[i].name@,
                    layout.prefix_bin_dir@,
                    text::opt_text(facts.npm_root),
                    facts.existing@,
                ),
        ),
    ) + flat(Seq::new(entries.len(), |i: int| drifted(entries[i], lock, facts.probes@)))
}

/// Runs all checks, one after the other.
pub fn run(config: &Config, lock: &Lock, layout: &Layout, facts: &Facts) -> (r: Vec<Finding>)
    ensures
        views(r@) == only_if(
            stale_config(facts.config_mtime, facts.init_mtime),
            warning(
                "config.toml changed since the last `rig sync` — run `rig sync` to pick up new tools"@,
            ),
        ) + only_if(
            !on_search_path(facts.path_env@, layout.prefix_bin_dir@),
            warning(
                layout.prefix_bin_dir@
                    + " is not on $PATH — commands rig installs won't be found"@,
            ),
        ) + record_findings(*config, *lock, *layout, *facts) + entry_findings(
            *config,
            *lock,
            *layout,
            *facts,
        ),
        forall|f: FindingView|
            #[trigger] views(r@).contains(f) <==> told(*config, *lock, *layout, *facts, f),
{
    let path_env = facts.path_env.as_str();
    let mut records = check_shadowed_installed_bin(lock, layout, path_env, &facts.existing);
    extend(&mut records, check_lock_vs_disk(lock, &facts.existing));
    extend(&mut records, check_orphan_pkg_dirs(lock, &facts.version_dirs));
    extend(&mut records, check_dangling_symlinks(layout.state_dir.as_str(), &facts.bin_links));
    assert(views(records@) == record_findings(*config, *lock, *layout, *facts));
    let mut entries = check_foreign_prefix_bin(config, lock, layout, &facts.present);
    extend(&mut entries, check_missing_completions(config, lock));
    extend(&mut entries, check_shadowed_completions(lock, &facts.completions));
    extend(&mut entries, check_sudo_in_setup(config));
    extend(&mut entries, check_unguarded_compdef(lock));
    extend(
        &mut entries,
        check_dual_node_managers(config, layout, as_slice(&facts.npm_root), &facts.existing),
    );
    extend(&mut entries, check_eval_cache_drift(config, lock, &facts.probes));
    assert(views(entries@) == entry_findings(*config, *lock, *layout, *facts));
    let mut out = check_config_newer_than_init_zsh(facts.config_mtime, facts.init_mtime);
    extend(&mut out, check_prefix_bin_on_path(layout, path_env));
    extend(&mut out, records);
    extend(&mut out, entries);
    proof {
        assert(views(out@) == all_findings(*config, *lock, *layout, *facts));
        assert forall|f: FindingView|
            #[trigger] views(out@).contains(f) <==> told(*config, *lock, *layout, *facts, f) by {
            lemma_every_reason_is_told(*config, *lock, *layout, *facts, f);
        }
    }
    out
}

/// Finding nothing wrong with a command means that the `PATH` leads to it.
pub proof fn lemma_unshadowed_is_reached(
    key: Seq<char>,
    bin: Seq<char>,
    bin_dir: Seq<char>,
    path_env: Seq<char>,
    existing: Set<Seq<char>>,
)
    requires
        path::starts_with(bin, bin_dir),
        path::file_name(bin) is Some,
        found_from(search_dirs(path_env), path::file_name(bin)->0, existing, 0) is Some,
        shadowed_bin(key, bin, bin_dir, path_env, existing).len() == 0,
    ensures
        path::same_path(
            found_from(search_dirs(path_env), path::file_name(bin)->0, existing, 0)->0,
            bin,
        ),
{
}

/// Several lists of paths, one after the other.
pub open spec fn flat_paths(pieces: Seq<Seq<Seq<char>>>) -> Seq<Seq<char>>
    decreases pieces.len(),
{
    if pieces.len() == 0 {
        seq![]
    } else {
        flat_paths(pieces.drop_last()) + pieces.last()
    }
}

proof fn lemma_flat_paths_take(pieces: Seq<Seq<Seq<char>>>, i: int)
    requires
        0 <= i < pieces.len(),
    ensures
        flat_paths(pieces.take(i + 1)) == flat_paths(pieces.take(i)) + pieces[i],
{
    assert(pieces.take(i + 1).drop_last() =~= pieces.take(i));
}

fn push_path(out: &mut Vec<String>, p: String)
    ensures
        text::texts(final(out)@) == text::texts(old(out)@).push(p@),
{
    let ghost before = out@;
    let ghost said = p@;
    out.push(p);
    assert(text::texts(out@) =~= text::texts(before).push(said));
}

/// The places where a `PATH` looks for a name.
pub open spec fn places(dirs: Seq<Seq<char>>, name: Seq<char>) -> Seq<Seq<char>> {
    Seq::new(dirs.len(), |i: int| path::join(dirs[i], name))
}

/// What is asked about one command: whether it is there, and what else the
/// `PATH` has under its name.
pub open spec fn bin_questions(bin: Seq<char>, path_env: Seq<char>) -> Seq<Seq<char>> {
    seq![bin] + match path::file_name(bin) {
        Some(name) => places(search_dirs(path_env), name),
        None => seq![],
    }
}

fn ask_bin(out: &mut Vec<String>, bin: &str, path_env: &str)
    ensures
        text::texts(final(out)@) == text::texts(old(out)@) + bin_questions(bin@, path_env@),
{
    let ghost start = text::texts(out@);
    push_path(out, bin.to_owned());
    if let Some(name) = path::path_file_name(bin) {
        let dirs = strings::split(path_env, Class::Only(':'));
        let ghost all = places(search_dirs(path_env@), name@);
        let mut i: usize = 0;
        assert(start.push(bin@) + all.take(0) =~= start.push(bin@));
        while i < dirs.len()
            invariant
                i <= dirs.len(),
                text::strs(dirs@) == search_dirs(path_env@),
                all == places(search_dirs(path_env@), name@),
                text::texts(out@) == start.push(bin@) + all.take(i as int),
            decreases dirs.len() - i,
        {
            assert(text::strs(dirs@)[i as int] == dirs@[i as int]@);
            push_path(out, path::join_path(dirs[i], name.as_str()));
            i += 1;
            assert(all.take(i as int) =~= all.take(i - 1).push(all[i - 1]));
            assert(start.push(bin@) + all.take(i as int) =~= (start.push(bin@) + all.take(
                i - 1,
            )).push(all[i - 1]));
        }
        assert(all.take(i as int) =~= all);
        assert(start.push(bin@) + all =~= start + (seq![bin@] + all));
    } else {
        assert(start.push(bin@) =~= start + (seq![bin@] + seq![]));
    }
}

/// What is asked about one tool.
pub open spec fn tool_questions(
    pkg: Option<Seq<char>>,
    bins: Seq<Seq<char>>,
    path_env: Seq<char>,
) -> Seq<Seq<char>> {
    (match pkg {
        Some(p) => seq![p],
        None => seq![],
    }) + flat_paths(Seq::new(bins.len(), |i: int| bin_questions(bins[i], path_env)))
}

fn ask_tool(out: &mut Vec<String>, tool: &ToolLock, path_env: &str)
    ensures
        text::texts(final(out)@) == text::texts(old(out)@) + tool_questions(
            tool@.pkg,
            tool@.bins,
            path_env@,
        ),
{
    let ghost before = text::texts(out@);
    if let Some(p) = &tool.pkg {
        push_path(out, p.as_str().to_owned());
    }
    let ghost own = match tool@.pkg {
        Some(p) => seq![p],
        None => seq![],
    };
    let ghost start = text::texts(out@);
    assert(start =~= before + own);
    let ghost pieces = Seq::new(
        tool@.bins.len(),
        |i: int| bin_questions(tool@.bins[i], path_env@),
    );
    let mut i: usize = 0;
    assert(start + flat_paths(pieces.take(0)) =~= start);
    while i < tool.bins.len()
        invariant
            i <= tool.bins.len(),
            pieces == Seq::new(
                tool@.bins.len(),
                |i: int| bin_questions(tool@.bins[i], path_env@),
            ),
            text::texts(out@) == start + flat_paths(pieces.take(i as int)),
        decreases tool.bins.len() - i,
    {
        ask_bin(out, tool.bins[i].as_str(), path_env);
        proof {
            lemma_flat_paths_take(pieces, i as int);
            assert(start + flat_paths(pieces.take(i as int)) + pieces[i as int] =~= start + (
            flat_paths(pieces.take(i as int)) + pieces[i as int]));
        }
        i += 1;
    }
    assert(pieces.take(i as int) =~= pieces);
    assert(before + own + flat_paths(pieces) =~= before + (own + flat_paths(pieces)));
}

/// What is asked about one node package.
pub open spec fn node_questions(
    bin_dir: Seq<char>,
    npm_root: Option<Seq<char>>,
    name: Seq<char>,
) -> Seq<Seq<char>> {
    (match bun_tree(bin_dir, name) {
        Some(p) => seq![p],
        None => seq![],
    }) + (match npm_tree(npm_root, name) {
        Some(p) => seq![p],
        None => seq![],
    })
}

/// The paths whose existence the checks of records ask about.
pub open spec fn existing_questions(
    config: Config,
    lock: Lock,
    layout: Layout,
    path_env: Seq<char>,
    npm_root: Option<Seq<char>>,
) -> Seq<Seq<char>> {
    let tools = lock.tool.values();
    flat_paths(
        Seq::new(
            tools.len(),
            |i: int| tool_questions(tools[i]@.pkg, tools[i]@.bins, path_env),
        ),
    ) + flat_paths(
        Seq::new(
            config.node@.len(),
            |i: int| node_questions(layout.prefix_bin_dir@, npm_root, config.node@[i].name@),
        ),
    )
}

/// Lists the paths whose existence the checks of records ask about.
pub fn ask_existing(
    config: &Config,
    lock: &Lock,
    layout: &Layout,
    path_env: &str,
    npm_root: Option<&str>,
) -> (r: Vec<String>)
    ensures
        text::texts(r@) == existing_questions(
            *config,
            *lock,
            *layout,
            path_env@,
            text::opt_str(npm_root),
        ),
{
    let ghost tools = lock.tool.values();
    let ghost pieces = Seq::new(
        tools.len(),
        |i: int| tool_questions(tools[i]@.pkg, tools[i]@.bins, path_env@),
    );
    let mut out: Vec<String> = Vec::new();
    let n = lock.tool.len();
    let mut i: usize = 0;
    assert(text::texts(out@) =~= seq![]);
    while i < n
        invariant
            i <= n,
            n == lock.tool.keys().len(),
            n == lock.tool.values().len(),
            tools == lock.tool.values(),
            pieces == Seq::new(
                tools.len(),
                |i: int| tool_questions(tools[i]@.pkg, tools[i]@.bins, path_env@),
            ),
            text::texts(out@) == flat_paths(pieces.take(i as int)),
        decreases n - i,
    {
        ask_tool(&mut out, lock.tool.value(i), path_env);
        proof {
            lemma_flat_paths_take(pieces, i as int);
        }
        i += 1;
    }
    assert(pieces.take(i as int) =~= pieces);
    let ghost start = text::texts(out@);
    let ghost more = Seq::new(
        config.node@.len(),
        |i: int|
            node_questions(
                layout.prefix_bin_dir@,
                text::opt_str(npm_root),
                config.node@[i].name@,
            ),
    );
    let mut i: usize = 0;
    assert(start + flat_paths(more.take(0)) =~= start);
    while i < config.node.len()
        invariant
            i <= config.node.len(),
            more == Seq::new(
                config.node@.len(),
                |i: int|
                    node_questions(
                        layout.prefix_bin_dir@,
                        text::opt_str(npm_root),
                        config.node@[i].name@,
                    ),
            ),
            text::texts(out@) == start + flat_paths(more.take(i as int)),
        decreases config.node.len() - i,
    {
        let ghost so_far = text::texts(out@);
        let (bun, npm) = node_trees(
            layout.prefix_bin_dir.as_str(),
            npm_root,
            config.node[i].name.as_str(),
        );
        if let Some(p) = bun {
            push_path(&mut out, p);
        }
        if let Some(p) = npm {
            push_path(&mut out, p);
        }
        proof {
            assert(text::texts(out@) =~= so_far + more[i as int]);
            lemma_flat_paths_take(more, i as int);
            assert(start + flat_paths(more.take(i as int)) + more[i as int] =~= start + (
            flat_paths(more.take(i as int)) + more[i as int]));
        }
        i += 1;
    }
    assert(more.take(i as int) =~= more);
    out
}

/// The paths that the commands of the entries would be linked at.
pub open spec fn present_questions(entries: Seq<ResolvedEntry<'static>>, bin_dir: Seq<char>) -> Seq<
    Seq<char>,
> {
    flat_paths(
        Seq::new(
            entries.len(),
            |i: int|
                Seq::new(
                    entries[i].commands().len(),
                    |j: int| path::join(bin_dir, entries[i].commands()[j]),
                ),
        ),
    )
}

/// Lists the paths that the commands of the entries would be linked at.
pub fn ask_present(config: &Config, layout: &Layout) -> (r: Vec<String>)
    ensures
        text::texts(r@) == present_questions(config::entries(*config), layout.prefix_bin_dir@),
{
    let entries = config::all_entries(config);
    let ghost bin_dir = layout.prefix_bin_dir@;
    let ghost pieces = Seq::new(
        entries@.len(),
        |i: int|
            Seq::new(
                entries@[i].commands().len(),
                |j: int| path::join(bin_dir, entries@[i].commands()[j]),
            ),
    );
    let mut out: Vec<String> = Vec::new();
    let mut i: usize = 0;
    assert(text::texts(out@) =~= seq![]);
    while i < entries.len()
        invariant
            i <= entries.len(),
            bin_dir == layout.prefix_bin_dir@,
            pieces == Seq::new(
                entries@.len(),
                |i: int|
                    Seq::new(
                        entries@[i].commands().len(),
                        |j: int| path::join(bin_dir, entries@[i].commands()[j]),
                    ),
            ),
            text::texts(out@) == flat_paths(pieces.take(i as int)),
        decreases entries.len() - i,
    {
        let names = entries[i].command_names();
        let ghost start = text::texts(out@);
        let ghost piece = pieces[i as int];
        let mut j: usize = 0;
        assert(start + piece.take(0) =~= start);
        while j < names.len()
            invariant
                j <= names.len(),
                bin_dir == layout.prefix_bin_dir@,
                piece.len() == names@.len(),
                forall|k: int|
                    0 <= k < names@.len() ==> #[trigger] piece[k] == path::join(
                        bin_dir,
                        names@[k]@,
                    ),
                text::texts(out@) == start + piece.take(j as int),
            decreases names.len() - j,
        {
            push_path(
                &mut out,
                path::join_path(layout.prefix_bin_dir.as_str(), names[j].as_str()),
            );
            j += 1;
            assert(piece.take(j as int) =~= piece.take(j - 1).push(piece[j - 1]));
            assert(start + piece.take(j as int) =~= (start + piece.take(j - 1)).push(
                piece[j - 1],
            ));
        }
        proof {
            assert(piece.take(j as int) =~= piece);
            lemma_flat_paths_take(pieces, i as int);
        }
        i += 1;
    }
    assert(pieces.take(i as int) =~= pieces);
    out
}

proof fn lemma_flat_contains(pieces: Seq<Seq<FindingView>>, f: FindingView)
    ensures
        flat(pieces).contains(f) <==> exists|i: int|
            0 <= i < pieces.len() && (#[trigger] pieces[i]).contains(f),
    decreases pieces.len(),
{
    if pieces.len() > 0 {
        let front = pieces.drop_last();
        lemma_flat_contains(front, f);
        lemma_sum_contains(flat(front), pieces.last(), f);
        if exists|i: int| 0 <= i < pieces.len() && (#[trigger] pieces[i]).contains(f) {
            let i = choose|i: int| 0 <= i < pieces.len() && (#[trigger] pieces[i]).contains(f);
            if i < front.len() {
                assert(front[i].contains(f));
            }
        }
        if exists|i: int| 0 <= i < front.len() && (#[trigger] front[i]).contains(f) {
            let i = choose|i: int| 0 <= i < front.len() && (#[trigger] front[i]).contains(f);
            assert(pieces[i].contains(f));
        }
        if pieces.last().contains(f) {
            assert(pieces[pieces.len() - 1].contains(f));
        }
    }
}

proof fn lemma_sum_contains(a: Seq<FindingView>, b: Seq<FindingView>, f: FindingView)
    ensures
        (a + b).contains(f) <==> a.contains(f) || b.contains(f),
{
    if a.contains(f) {
        let i = choose|i: int| 0 <= i < a.len() && a[i] == f;
        assert((a + b)[i] == f);
    }
    if b.contains(f) {
        let i = choose|i: int| 0 <= i < b.len() && b[i] == f;
        assert((a + b)[a.len() + i] == f);
    }
}

proof fn lemma_only_if_contains(condition: bool, finding: FindingView, f: FindingView)
    ensures
        only_if(condition, finding).contains(f) <==> condition && f == finding,
{
    if condition {
        assert(only_if(condition, finding)[0] == finding);
    }
}

/// A record of a tool whose commands and directory are all there is not
/// complained about; each one that is missing is, in its own words, and there
/// is no other complaint.
pub proof fn lemma_missing_files_are_told(
    key: Seq<char>,
    pkg: Option<Seq<char>>,
    bins: Seq<Seq<char>>,
    existing: Set<Seq<char>>,
    f: FindingView,
)
    ensures
        gone_files(key, pkg, bins, existing).contains(f) <==> f.severity == Severity::Warning && {
            ||| exists|j: int|
                {
                    &&& 0 <= j < bins.len()
                    &&& !existing.contains(#[trigger] bins[j])
                    &&& f.message == key + ": recorded bin "@ + bins[j] + " is missing"@
                }
            ||| pkg is Some && !existing.contains(pkg->0) && f.message == key
                + ": rig.lock points at "@ + pkg->0 + ", which no longer exists on disk"@
        },
{
    let pieces = Seq::new(
        bins.len(),
        |i: int|
            only_if(
                !existing.contains(bins[i]),
                warning(key + ": recorded bin "@ + bins[i] + " is missing"@),
            ),
    );
    let first = match pkg {
        Some(p) => only_if(
            !existing.contains(p),
            warning(key + ": rig.lock points at "@ + p + ", which no longer exists on disk"@),
        ),
        None => seq![],
    };
    lemma_sum_contains(first, flat(pieces), f);
    lemma_flat_contains(pieces, f);
    if let Some(p) = pkg {
        lemma_only_if_contains(
            !existing.contains(p),
            warning(key + ": rig.lock points at "@ + p + ", which no longer exists on disk"@),
            f,
        );
    }
    assert forall|j: int| 0 <= j < bins.len() implies (#[trigger] pieces[j]).contains(f) == (
    !existing.contains(bins[j]) && f == warning(
        key + ": recorded bin "@ + bins[j] + " is missing"@,
    )) by {
        lemma_only_if_contains(
            !existing.contains(bins[j]),
            warning(key + ": recorded bin "@ + bins[j] + " is missing"@),
            f,
        );
    }
    if exists|j: int|
        {
            &&& 0 <= j < bins.len()
            &&& !existing.contains(#[trigger] bins[j])
            &&& f == warning(key + ": recorded bin "@ + bins[j] + " is missing"@)
        } {
        let j = choose|j: int|
            {
                &&& 0 <= j < bins.len()
                &&& !existing.contains(#[trigger] bins[j])
                &&& f == warning(key + ": recorded bin "@ + bins[j] + " is missing"@)
            };
        assert(pieces[j].contains(f));
    }
}

/// What a `PATH` leads to is what stands in the first of its directories that
/// has the name at all.
pub proof fn lemma_first_on_path(
    dirs: Seq<Seq<char>>,
    name: Seq<char>,
    existing: Set<Seq<char>>,
    from: int,
)
    requires
        0 <= from,
    ensures
        match found_from(dirs, name, existing, from) {
            Some(p) => exists|k: int|
                {
                    &&& from <= k < dirs.len()
                    &&& p == path::join(#[trigger] dirs[k], name)
                    &&& existing.contains(p)
                    &&& forall|m: int|
                        from <= m < k ==> !existing.contains(path::join(#[trigger] dirs[m], name))
                },
            None => forall|m: int|
                from <= m < dirs.len() ==> !existing.contains(
                    path::join(#[trigger] dirs[m], name),
                ),
        },
    decreases dirs.len() - from,
{
    if from < dirs.len() && !existing.contains(path::join(dirs[from], name)) {
        lemma_first_on_path(dirs, name, existing, from + 1);
    }
}

/// A command is said to be hidden exactly if it lies in the directory of
/// commands, the `PATH` leads from its name to a file, and that file is not
/// the command.
pub proof fn lemma_hidden_command_is_told(
    key: Seq<char>,
    bin: Seq<char>,
    bin_dir: Seq<char>,
    path_env: Seq<char>,
    existing: Set<Seq<char>>,
    f: FindingView,
)
    ensures
        shadowed_bin(key, bin, bin_dir, path_env, existing).contains(f) <==> {
            let dirs = text::fields(path_env, Class::Only(':'));
            let name = path::file_name(bin)->0;
            &&& path::starts_with(bin, bin_dir)
            &&& path::file_name(bin) is Some
            &&& f.severity == Severity::Warning
            &&& exists|k: int|
                {
                    &&& 0 <= k < dirs.len()
                    &&& existing.contains(path::join(#[trigger] dirs[k], name))
                    &&& forall|m: int|
                        0 <= m < k ==> !existing.contains(path::join(#[trigger] dirs[m], name))
                    &&& path::components(path::join(dirs[k], name)) != path::components(bin)
                    &&& f.message == key + ": `"@ + name + "` resolves to "@ + path::join(
                        dirs[k],
                        name,
                    ) + " on $PATH, not rig's "@ + bin
                }
        },
{
    let dirs = text::fields(path_env, Class::Only(':'));
    if path::starts_with(bin, bin_dir) && path::file_name(bin) is Some {
        let name = path::file_name(bin)->0;
        lemma_first_on_path(dirs, name, existing, 0);
        if let Some(p) = found_from(dirs, name, existing, 0) {
            let k = choose|k: int|
                {
                    &&& 0 <= k < dirs.len()
                    &&& p == path::join(#[trigger] dirs[k], name)
                    &&& existing.contains(p)
                    &&& forall|m: int|
                        0 <= m < k ==> !existing.contains(path::join(#[trigger] dirs[m], name))
                };
            let message = key + ": `"@ + name + "` resolves to "@ + p + " on $PATH, not rig's "@
                + bin;
            lemma_only_if_contains(!path::same_path(p, bin), warning(message), f);
            assert(existing.contains(path::join(dirs[k], name)));
            assert forall|l: int|
                {
                    &&& 0 <= l < dirs.len()
                    &&& existing.contains(path::join(#[trigger] dirs[l], name))
                    &&& forall|m: int|
                        0 <= m < l ==> !existing.contains(path::join(#[trigger] dirs[m], name))
                } implies l == k by {
                if l < k {
                    assert(!existing.contains(path::join(dirs[l], name)));
                } else if k < l {
                    assert(!existing.contains(path::join(dirs[k], name)));
                }
            }
        }
    }
}

/// A directory of a version is noted exactly if no record has it as its own.
pub proof fn lemma_orphans_are_told(lock: Lock, dirs: Seq<Seq<char>>, f: FindingView)
    ensures
        orphans(lock, dirs).contains(f) <==> f.severity == Severity::Info && exists|i: int|
            {
                &&& 0 <= i < dirs.len()
                &&& f.message == "orphaned pkg dir not referenced by any lock entry: "@
                    + #[trigger] dirs[i]
                &&& forall|j: int|
                    0 <= j < lock.tool.values().len() && (#[trigger] lock.tool.values()[j])@.pkg
                        is Some ==> path::components(lock.tool.values()[j]@.pkg->0)
                        != path::components(dirs[i])
            },
{
    let pieces = orphan_pieces(lock, dirs);
    lemma_flat_contains(pieces, f);
    assert forall|i: int| 0 <= i < dirs.len() implies (#[trigger] pieces[i]).contains(f) == (
    !is_known(lock, dirs[i]) && f == note(
        "orphaned pkg dir not referenced by any lock entry: "@ + dirs[i],
    )) by {
        lemma_only_if_contains(
            !is_known(lock, dirs[i]),
            note("orphaned pkg dir not referenced by any lock entry: "@ + dirs[i]),
            f,
        );
    }
    assert forall|i: int| 0 <= i < dirs.len() implies (is_known(lock, #[trigger] dirs[i]) <==> !(
    forall|j: int|
        0 <= j < lock.tool.values().len() && (#[trigger] lock.tool.values()[j])@.pkg is Some
            ==> path::components(lock.tool.values()[j]@.pkg->0) != path::components(dirs[i]))) by {
        if is_known(lock, dirs[i]) {
            let j = choose|j: int|
                0 <= j < lock.tool.values().len() && holds_dir(
                    #[trigger] lock.tool.values()[j],
                    dirs[i],
                );
            assert(lock.tool.values()[j]@.pkg is Some);
        }
        if exists|j: int|
            0 <= j < lock.tool.values().len() && (#[trigger] lock.tool.values()[j])@.pkg is Some
                && path::components(lock.tool.values()[j]@.pkg->0) == path::components(dirs[i]) {
            let j = choose|j: int|
                0 <= j < lock.tool.values().len() && (#[trigger] lock.tool.values()[j])@.pkg is Some
                    && path::components(lock.tool.values()[j]@.pkg->0) == path::components(dirs[i]);
            assert(holds_dir(lock.tool.values()[j], dirs[i]));
        }
    }
    if orphans(lock, dirs).contains(f) {
        let i = choose|i: int| 0 <= i < pieces.len() && (#[trigger] pieces[i]).contains(f);
        assert(f.message == "orphaned pkg dir not referenced by any lock entry: "@ + dirs[i]);
    }
    if f.severity == Severity::Info && exists|i: int|
        {
            &&& 0 <= i < dirs.len()
            &&& f.message == "orphaned pkg dir not referenced by any lock entry: "@
                + #[trigger] dirs[i]
            &&& !is_known(lock, dirs[i])
        } {
        let i = choose|i: int|
            {
                &&& 0 <= i < dirs.len()
                &&& f.message == "orphaned pkg dir not referenced by any lock entry: "@
                    + #[trigger] dirs[i]
                &&& !is_known(lock, dirs[i])
            };
        assert(pieces[i].contains(f));
    }
}

/// A link is said to dangle exactly if it leads nowhere and what it names,
/// taken from where the link stands, lies in the state directory.
pub proof fn lemma_dangling_links_are_told(link: LinkFact, state_dir: Seq<char>, f: FindingView)
    ensures
        dangling(link, state_dir).contains(f) <==> {
            let place = if link.target@.len() > 0 && link.target@[0] == '/' {
                link.target@
            } else if path::parent(link.path@) is Some {
                path::join(path::parent(link.path@)->0, link.target@)
            } else {
                path::join("/"@, link.target@)
            };
            &&& !link.resolves
            &&& path::components(state_dir).is_prefix_of(path::components(place))
            &&& f.severity == Severity::Warning
            &&& f.message == link.path@ + " is a dangling symlink into rig's pkg tree ("@ + place
                + " no longer exists)"@
        },
{
    let place = remove::link_place(link.path@, link.target@);
    lemma_only_if_contains(
        !link.resolves && path::starts_with(place, state_dir),
        warning(
            link.path@ + " is a dangling symlink into rig's pkg tree ("@ + place
                + " no longer exists)"@,
        ),
        f,
    );
}

/// An entry is said to be blocked exactly by each thing that stands where one
/// of its commands would go, and only while it has no record.
pub proof fn lemma_blocked_entries_are_told(
    e: ResolvedEntry<'static>,
    lock: Lock,
    bin_dir: Seq<char>,
    present: Set<Seq<char>>,
    f: FindingView,
)
    ensures
        blocked(e, lock, bin_dir, present).contains(f) <==> {
            &&& !lock.tool@.contains_key(e.key_text())
            &&& f.severity == Severity::Warning
            &&& exists|i: int|
                {
                    &&& 0 <= i < e.commands().len()
                    &&& present.contains(path::join(bin_dir, #[trigger] e.commands()[i]))
                    &&& f.message == e.key_text() + " isn't installed via rig, but "@ + path::join(
                        bin_dir,
                        e.commands()[i],
                    ) + " already exists — installing would conflict"@
                }
        },
{
    let names = e.commands();
    let pieces = Seq::new(
        names.len(),
        |i: int| blocked_name(e.key_text(), names[i], bin_dir, present),
    );
    if !lock.tool@.contains_key(e.key_text()) {
        lemma_flat_contains(pieces, f);
        assert forall|i: int| 0 <= i < names.len() implies (#[trigger] pieces[i]).contains(f) == (
        present.contains(path::join(bin_dir, names[i])) && f == warning(
            e.key_text() + " isn't installed via rig, but "@ + path::join(bin_dir, names[i])
                + " already exists — installing would conflict"@,
        )) by {
            lemma_only_if_contains(
                present.contains(path::join(bin_dir, names[i])),
                warning(
                    e.key_text() + " isn't installed via rig, but "@ + path::join(
                        bin_dir,
                        names[i],
                    ) + " already exists — installing would conflict"@,
                ),
                f,
            );
        }
        if blocked(e, lock, bin_dir, present).contains(f) {
            let i = choose|i: int| 0 <= i < pieces.len() && (#[trigger] pieces[i]).contains(f);
            assert(present.contains(path::join(bin_dir, e.commands()[i])));
        }
        if f.severity == Severity::Warning && exists|i: int|
            {
                &&& 0 <= i < e.commands().len()
                &&& present.contains(path::join(bin_dir, #[trigger] e.commands()[i]))
                &&& f.message == e.key_text() + " isn't installed via rig, but "@ + path::join(
                    bin_dir,
                    e.commands()[i],
                ) + " already exists — installing would conflict"@
            } {
            let i = choose|i: int|
                {
                    &&& 0 <= i < e.commands().len()
                    &&& present.contains(path::join(bin_dir, #[trigger] e.commands()[i]))
                    &&& f.message == e.key_text() + " isn't installed via rig, but "@ + path::join(
                        bin_dir,
                        e.commands()[i],
                    ) + " already exists — installing would conflict"@
                };
            assert(pieces[i].contains(f));
        }
    }
}

/// An installed entry is said to have no completions exactly if it has none
/// and they are not switched off.
pub proof fn lemma_missing_completions_are_told(
    e: ResolvedEntry<'static>,
    lock: Lock,
    f: FindingView,
)
    ensures
        uncompleted(e, lock).contains(f) <==> {
            &&& !(e is Plugin)
            &&& lock.tool@.contains_key(e.key_text())
            &&& lock.tool@[e.key_text()]@.completions.len() == 0
            &&& e.shared()->0.completions != CompletionsSpec::Enabled(false)
            &&& f.severity == Severity::Warning
            &&& f.message == e.key_text() + " is installed but has no registered completions"@
        },
{
    if let Some(c) = e.shared() {
        lemma_only_if_contains(
            lock.tool@.contains_key(e.key_text()) && c.completions != CompletionsSpec::Enabled(
                false,
            ) && lock.tool@[e.key_text()].completions@.len() == 0,
            warning(e.key_text() + " is installed but has no registered completions"@),
            f,
        );
    }
}

/// A completion is said to be hidden exactly by each directory of the system
/// that has a file of its name.
pub proof fn lemma_hidden_completions_are_told(
    key: Seq<char>,
    completion: Seq<char>,
    indexes: Seq<DirIndex>,
    f: FindingView,
)
    ensures
        shadowed_completion(key, completion, indexes).contains(f) <==> {
            &&& path::file_name(completion) is Some
            &&& f.severity == Severity::Warning
            &&& exists|i: int|
                {
                    &&& 0 <= i < indexes.len()
                    &&& (#[trigger] indexes[i]).names@.contains(path::file_name(completion)->0)
                    &&& f.message == key + "'s completion `"@ + path::file_name(completion)->0
                        + "` is shadowed by a system completion under "@ + indexes[i].dir@
                        + " — check fpath order"@
                }
        },
{
    if let Some(name) = path::file_name(completion) {
        let pieces = Seq::new(
            indexes.len(),
            |i: int|
                only_if(
                    indexes[i].names@.contains(name),
                    warning(
                        key + "'s completion `"@ + name
                            + "` is shadowed by a system completion under "@ + indexes[i].dir@
                            + " — check fpath order"@,
                    ),
                ),
        );
        lemma_flat_contains(pieces, f);
        assert forall|i: int| 0 <= i < indexes.len() implies (#[trigger] pieces[i]).contains(f)
            == (indexes[i].names@.contains(name) && f == warning(
            key + "'s completion `"@ + name + "` is shadowed by a system completion under "@
                + indexes[i].dir@ + " — check fpath order"@,
        )) by {
            lemma_only_if_contains(
                indexes[i].names@.contains(name),
                warning(
                    key + "'s completion `"@ + name
                        + "` is shadowed by a system completion under "@ + indexes[i].dir@
                        + " — check fpath order"@,
                ),
                f,
            );
        }
        if shadowed_completion(key, completion, indexes).contains(f) {
            let i = choose|i: int| 0 <= i < pieces.len() && (#[trigger] pieces[i]).contains(f);
            assert(indexes[i].names@.contains(name));
        }
        if f.severity == Severity::Warning && exists|i: int|
            {
                &&& 0 <= i < indexes.len()
                &&& (#[trigger] indexes[i]).names@.contains(name)
                &&& f.message == key + "'s completion `"@ + name
                    + "` is shadowed by a system completion under "@ + indexes[i].dir@
                    + " — check fpath order"@
            } {
            let i = choose|i: int|
                {
                    &&& 0 <= i < indexes.len()
                    &&& (#[trigger] indexes[i]).names@.contains(name)
                    &&& f.message == key + "'s completion `"@ + name
                        + "` is shadowed by a system completion under "@ + indexes[i].dir@
                        + " — check fpath order"@
                };
            assert(pieces[i].contains(f));
        }
    }
}

/// A hook is noted exactly if `sudo` is a word of one of the commands that it
/// may ever run, at the first install or later.
pub proof fn lemma_sudo_hooks_are_told(e: ResolvedEntry<'static>, f: FindingView)
    ensures
        reaches_out(e).contains(f) <==> {
            &&& e.shared() is Some
            &&& e.shared()->0.setup is Some
            &&& f.severity == Severity::Info
            &&& f.message == e.key_text()
                + "'s setup hook runs `sudo` — its output is outside rig's control, uninstall will be incomplete"@
            &&& match e.shared()->0.setup->0 {
                SetupSpec::Single(cmd) => text::words(cmd@).contains("sudo"@),
                SetupSpec::Multiple(cmds) => exists|i: int|
                    0 <= i < cmds@.len() && text::words((#[trigger] cmds@[i])@).contains("sudo"@),
                SetupSpec::Split { install, update } => text::words(install@).contains("sudo"@)
                    || text::words(update@).contains("sudo"@),
            }
        },
{
    if let Some(c) = e.shared() {
        lemma_only_if_contains(
            c.setup is Some && uses_sudo(c.setup->0),
            note(
                e.key_text()
                    + "'s setup hook runs `sudo` — its output is outside rig's control, uninstall will be incomplete"@,
            ),
            f,
        );
        if let Some(SetupSpec::Multiple(cmds)) = c.setup {
            let all = text::texts(cmds@);
            if any_calls_sudo(all) {
                let i = choose|i: int| 0 <= i < all.len() && calls_sudo(#[trigger] all[i]);
                assert(text::words(cmds@[i]@).contains("sudo"@));
            }
            if exists|i: int|
                0 <= i < cmds@.len() && text::words((#[trigger] cmds@[i])@).contains("sudo"@) {
                let i = choose|i: int|
                    0 <= i < cmds@.len() && text::words((#[trigger] cmds@[i])@).contains("sudo"@);
                assert(calls_sudo(all[i]));
            }
        }
    }
}

/// A kept output is warned of exactly if it mentions `compdef` and does not
/// look whether there is one.
pub proof fn lemma_unguarded_compdef_is_told(
    key: Seq<char>,
    output: Option<Seq<char>>,
    f: FindingView,
)
    ensures
        unguarded(key, output).contains(f) <==> {
            &&& output is Some
            &&& text::contains(output->0, "compdef"@)
            &&& !text::contains(output->0, "functions[compdef]"@)
            &&& f.severity == Severity::Warning
            &&& f.message == key
                + "'s cached eval output calls `compdef` without a guard — must stay after compinit"@
        },
{
    if let Some(s) = output {
        lemma_only_if_contains(
            text::contains(s, "compdef"@) && !text::contains(s, "functions[compdef]"@),
            warning(
                key
                    + "'s cached eval output calls `compdef` without a guard — must stay after compinit"@,
            ),
            f,
        );
    }
}

/// A node package is said to be there twice exactly if it is found under the
/// prefix of the commands and under the directory that `npm` names.
pub proof fn lemma_doubled_packages_are_told(
    name: Seq<char>,
    bin_dir: Seq<char>,
    npm_root: Option<Seq<char>>,
    existing: Set<Seq<char>>,
    f: FindingView,
)
    ensures
        doubled(name, bin_dir, npm_root, existing).contains(f) <==> {
            &&& path::parent(bin_dir) is Some
            &&& existing.contains(
                path::join(
                    path::join(path::parent(bin_dir)->0, "install/global/node_modules"@),
                    name,
                ),
            )
            &&& npm_root is Some
            &&& existing.contains(path::join(npm_root->0, name))
            &&& f.severity == Severity::Warning
            &&& f.message == name
                + " is installed under both bun's and npm's global trees — only one will win on PATH"@
        },
{
    lemma_only_if_contains(
        is_there(bun_tree(bin_dir, name), existing) && is_there(
            npm_tree(npm_root, name),
            existing,
        ),
        warning(
            name
                + " is installed under both bun's and npm's global trees — only one will win on PATH"@,
        ),
        f,
    );
}

/// A verdict on an `eval` command is said to have changed exactly if a probe
/// made it, it was recorded, and a new probe of the command says otherwise.
pub proof fn lemma_drift_is_told(
    e: ResolvedEntry<'static>,
    lock: Lock,
    probes: Map<Seq<char>, bool>,
    f: FindingView,
)
    ensures
        drifted(e, lock, probes).contains(f) <==> {
            let eval = e.shared()->0.eval->0;
            let recorded = lock.tool@[e.key_text()]@.eval_cacheable->0;
            &&& e.shared() is Some
            &&& e.shared()->0.eval is Some
            &&& eval.cache_choice() is None
            &&& lock.tool@.contains_key(e.key_text())
            &&& lock.tool@[e.key_text()]@.eval_cacheable is Some
            &&& probes.contains_key(eval.cmd_text())
            &&& probes[eval.cmd_text()] == !recorded
            &&& f.severity == Severity::Warning
            &&& f.message == e.key_text() + "'s eval cacheability changed ("@ + (if recorded {
                "true"@
            } else {
                "false"@
            }) + " -> "@ + (if recorded {
                "false"@
            } else {
                "true"@
            }) + ") — run `rig sync --force` to re-probe"@
        },
{
    if let Some((cmd, recorded)) = probed_command(e, lock) {
        lemma_only_if_contains(
            probes.contains_key(cmd) && probes[cmd] != recorded,
            warning(
                e.key_text() + "'s eval cacheability changed ("@ + bool_text(recorded) + " -> "@
                    + bool_text(probes[cmd]) + ") — run `rig sync --force` to re-probe"@,
            ),
            f,
        );
    }
}

/// The reasons for a finding: the configuration and the search path, each
/// record, each directory and link on disk, each entry.
pub open spec fn told(
    config: Config,
    lock: Lock,
    layout: Layout,
    facts: Facts,
    f: FindingView,
) -> bool {
    let entries = config::entries(config);
    let keys = lock.tool.keys();
    let tools = lock.tool.values();
    let bin_dir = layout.prefix_bin_dir@;
    ||| facts.config_mtime is Some && facts.init_mtime is Some && facts.config_mtime->0
        > facts.init_mtime->0 && f.severity == Severity::Warning && f.message
        == "config.toml changed since the last `rig sync` — run `rig sync` to pick up new tools"@
    ||| {
        &&& forall|i: int|
            0 <= i < text::fields(facts.path_env@, Class::Only(':')).len() ==> path::components(
                #[trigger] text::fields(facts.path_env@, Class::Only(':'))[i],
            ) != path::components(bin_dir)
        &&& f.severity == Severity::Warning
        &&& f.message == bin_dir + " is not on $PATH — commands rig installs won't be found"@
    }
    ||| exists|i: int|
        0 <= i < keys.len() && shadowed_bins(
            #[trigger] keys[i],
            tools[i]@.bins,
            bin_dir,
            facts.path_env@,
            facts.existing@,
        ).contains(f)
    ||| exists|i: int|
        0 <= i < keys.len() && gone_files(
            #[trigger] keys[i],
            tools[i]@.pkg,
            tools[i]@.bins,
            facts.existing@,
        ).contains(f)
    ||| orphans(lock, text::texts(facts.version_dirs@)).contains(f)
    ||| exists|i: int|
        0 <= i < facts.bin_links@.len() && dangling(
            #[trigger] facts.bin_links@[i],
            layout.state_dir@,
        ).contains(f)
    ||| exists|i: int|
        0 <= i < entries.len() && blocked(
            #[trigger] entries[i],
            lock,
            bin_dir,
            facts.present@,
        ).contains(f)
    ||| exists|i: int| 0 <= i < entries.len() && uncompleted(#[trigger] entries[i], lock).contains(f)
    ||| exists|i: int|
        0 <= i < keys.len() && shadowed_completions(
            #[trigger] keys[i],
            tools[i]@.completions,
            facts.completions@,
        ).contains(f)
    ||| exists|i: int| 0 <= i < entries.len() && reaches_out(#[trigger] entries[i]).contains(f)
    ||| exists|i: int|
        0 <= i < keys.len() && unguarded(#[trigger] keys[i], tools[i]@.eval_cached_output).contains(
            f,
        )
    ||| exists|i: int|
        0 <= i < config.node@.len() && doubled(
            (#[trigger] config.node@[i]).name@,
            bin_dir,
            text::opt_text(facts.npm_root),
            facts.existing@,
        ).contains(f)
    ||| exists|i: int|
        0 <= i < entries.len() && drifted(#[trigger] entries[i], lock, facts.probes@).contains(f)
}

/// What all checks say, put together.
pub open spec fn all_findings(config: Config, lock: Lock, layout: Layout, facts: Facts) -> Seq<
    FindingView,
> {
    only_if(
        stale_config(facts.config_mtime, facts.init_mtime),
        warning(
            "config.toml changed since the last `rig sync` — run `rig sync` to pick up new tools"@,
        ),
    ) + only_if(
        !on_search_path(facts.path_env@, layout.prefix_bin_dir@),
        warning(
            layout.prefix_bin_dir@ + " is not on $PATH — commands rig installs won't be found"@,
        ),
    ) + record_findings(config, lock, layout, facts) + entry_findings(config, lock, layout, facts)
}

/// A diagnosis leaves out no reason and makes none up.
pub proof fn lemma_every_reason_is_told(
    config: Config,
    lock: Lock,
    layout: Layout,
    facts: Facts,
    f: FindingView,
)
    ensures
        all_findings(config, lock, layout, facts).contains(f) <==> told(
            config,
            lock,
            layout,
            facts,
            f,
        ),
{
    let entries = config::entries(config);
    let keys = lock.tool.keys();
    let tools = lock.tool.values();
    let bin_dir = layout.prefix_bin_dir@;
    let stale = only_if(
        stale_config(facts.config_mtime, facts.init_mtime),
        warning(
            "config.toml changed since the last `rig sync` — run `rig sync` to pick up new tools"@,
        ),
    );
    let off = only_if(
        !on_search_path(facts.path_env@, bin_dir),
        warning(bin_dir + " is not on $PATH — commands rig installs won't be found"@),
    );
    lemma_only_if_contains(
        stale_config(facts.config_mtime, facts.init_mtime),
        warning(
            "config.toml changed since the last `rig sync` — run `rig sync` to pick up new tools"@,
        ),
        f,
    );
    lemma_only_if_contains(
        !on_search_path(facts.path_env@, bin_dir),
        warning(bin_dir + " is not on $PATH — commands rig installs won't be found"@),
        f,
    );
    let dirs = text::fields(facts.path_env@, Class::Only(':'));
    if on_search_path(facts.path_env@, bin_dir) {
        let i = choose|i: int|
            0 <= i < search_dirs(facts.path_env@).len() && path::same_path(
                #[trigger] search_dirs(facts.path_env@)[i],
                bin_dir,
            );
        assert(path::components(dirs[i]) == path::components(bin_dir));
    }
    if exists|i: int|
        0 <= i < dirs.len() && path::components(#[trigger] dirs[i]) == path::components(bin_dir) {
        let i = choose|i: int|
            0 <= i < dirs.len() && path::components(#[trigger] dirs[i]) == path::components(
                bin_dir,
            );
        assert(path::same_path(search_dirs(facts.path_env@)[i], bin_dir));
    }
    let records = record_findings(config, lock, layout, facts);
    let others = entry_findings(config, lock, layout, facts);
    lemma_sum_contains(stale, off, f);
    lemma_sum_contains(stale + off, records, f);
    lemma_sum_contains(stale + off + records, others, f);
    let r1 = Seq::new(
        keys.len(),
        |i: int|
            shadowed_bins(keys[i], tools[i]@.bins, bin_dir, facts.path_env@, facts.existing@),
    );
    let r2 = Seq::new(
        keys.len(),
        |i: int| gone_files(keys[i], tools[i]@.pkg, tools[i]@.bins, facts.existing@),
    );
    let r3 = orphans(lock, text::texts(facts.version_dirs@));
    let r4 = Seq::new(
        facts.bin_links@.len(),
        |i: int| dangling(facts.bin_links@[i], layout.state_dir@),
    );
    assert(records == flat(r1) + flat(r2) + r3 + flat(r4));
    lemma_sum_contains(flat(r1), flat(r2), f);
    lemma_sum_contains(flat(r1) + flat(r2), r3, f);
    lemma_sum_contains(flat(r1) + flat(r2) + r3, flat(r4), f);
    lemma_flat_contains(r1, f);
    lemma_flat_contains(r2, f);
    lemma_flat_contains(r4, f);
    let e1 = Seq::new(
        entries.len(),
        |i: int| blocked(entries[i], lock, bin_dir, facts.present@),
    );
    let e2 = Seq::new(entries.len(), |i: int| uncompleted(entries[i], lock));
    let e3 = Seq::new(
        keys.len(),
        |i: int| shadowed_completions(keys[i], tools[i]@.completions, facts.completions@),
    );
    let e4 = Seq::new(entries.len(), |i: int| reaches_out(entries[i]));
    let e5 = Seq::new(keys.len(), |i: int| unguarded(keys[i], tools[i]@.eval_cached_output));
    let e6 = Seq::new(
        config.node@.len(),
        |i: int|
            doubled(
                config.node@[i].name@,
                bin_dir,
                text::opt_text(facts.npm_root),
                facts.existing@,
            ),
    );
    let e7 = Seq::new(entries.len(), |i: int| drifted(entries[i], lock, facts.probes@));
    assert(others == flat(e1) + flat(e2) + flat(e3) + flat(e4) + flat(e5) + flat(e6) + flat(e7));
    lemma_sum_contains(flat(e1), flat(e2), f);
    lemma_sum_contains(flat(e1) + flat(e2), flat(e3), f);
    lemma_sum_contains(flat(e1) + flat(e2) + flat(e3), flat(e4), f);
    lemma_sum_contains(flat(e1) + flat(e2) + flat(e3) + flat(e4), flat(e5), f);
    lemma_sum_contains(flat(e1) + flat(e2) + flat(e3) + flat(e4) + flat(e5), flat(e6), f);
    lemma_sum_contains(
        flat(e1) + flat(e2) + flat(e3) + flat(e4) + flat(e5) + flat(e6),
        flat(e7),
        f,
    );
    lemma_flat_contains(e1, f);
    lemma_flat_contains(e2, f);
    lemma_flat_contains(e3, f);
    lemma_flat_contains(e4, f);
    lemma_flat_contains(e5, f);
    lemma_flat_contains(e6, f);
    lemma_flat_contains(e7, f);
    assert forall|i: int| 0 <= i < r1.len() implies r1[i] == shadowed_bins(
        #[trigger] keys[i],
        tools[i]@.bins,
        bin_dir,
        facts.path_env@,
        facts.existing@,
    ) by {}
    assert forall|i: int| 0 <= i < r2.len() implies r2[i] == gone_files(
        #[trigger] keys[i],
        tools[i]@.pkg,
        tools[i]@.bins,
        facts.existing@,
    ) by {}
    assert forall|i: int| 0 <= i < r4.len() implies r4[i] == dangling(
        #[trigger] facts.bin_links@[i],
        layout.state_dir@,
    ) by {}
    assert forall|i: int| 0 <= i < e1.len() implies e1[i] == blocked(
        #[trigger] entries[i],
        lock,
        bin_dir,
        facts.present@,
    ) && e2[i] == uncompleted(entries[i], lock) && e4[i] == reaches_out(entries[i]) && e7[i]
        == drifted(entries[i], lock, facts.probes@) by {}
    assert forall|i: int| 0 <= i < e3.len() implies e3[i] == shadowed_completions(
        #[trigger] keys[i],
        tools[i]@.completions,
        facts.completions@,
    ) && e5[i] == unguarded(keys[i], tools[i]@.eval_cached_output) by {}
    assert forall|i: int| 0 <= i < e6.len() implies e6[i] == doubled(
        (#[trigger] config.node@[i]).name@,
        bin_dir,
        text::opt_text(facts.npm_root),
        facts.existing@,
    ) by {}
}

/// What is said of a tool's commands and completions is what is said of each of
/// them.
pub proof fn lemma_each_file_is_judged(
    key: Seq<char>,
    files: Seq<Seq<char>>,
    bin_dir: Seq<char>,
    path_env: Seq<char>,
    existing: Set<Seq<char>>,
    indexes: Seq<DirIndex>,
    f: FindingView,
)
    ensures
        shadowed_bins(key, files, bin_dir, path_env, existing).contains(f) <==> exists|j: int|
            0 <= j < files.len() && shadowed_bin(
                key,
                #[trigger] files[j],
                bin_dir,
                path_env,
                existing,
            ).contains(f),
        shadowed_completions(key, files, indexes).contains(f) <==> exists|j: int|
            0 <= j < files.len() && shadowed_completion(
                key,
                #[trigger] files[j],
                indexes,
            ).contains(f),
{
    let bins = Seq::new(
        files.len(),
        |i: int| shadowed_bin(key, files[i], bin_dir, path_env, existing),
    );
    let completions = Seq::new(files.len(), |i: int| shadowed_completion(key, files[i], indexes));
    lemma_flat_contains(bins, f);
    lemma_flat_contains(completions, f);
    assert forall|j: int| 0 <= j < files.len() implies bins[j] == shadowed_bin(
        key,
        #[trigger] files[j],
        bin_dir,
        path_env,
        existing,
    ) && completions[j] == shadowed_completion(key, files[j], indexes) by {}
}

/// Records whose directories and commands are all there give no finding; a
/// single one that is not gives one.
pub proof fn lemma_intact_records_are_quiet(lock: Lock, existing: Set<Seq<char>>)
    ensures
        ({
            let keys = lock.tool.keys();
            let tools = lock.tool.values();
            flat(
                Seq::new(
                    keys.len(),
                    |i: int| gone_files(keys[i], tools[i]@.pkg, tools[i]@.bins, existing),
                ),
            ).len() == 0 <==> forall|i: int|
                0 <= i < keys.len() ==> {
                    &&& (#[trigger] tools[i])@.pkg is Some ==> existing.contains(tools[i]@.pkg->0)
                    &&& forall|j: int|
                        0 <= j < tools[i]@.bins.len() ==> existing.contains(
                            #[trigger] tools[i]@.bins[j],
                        )
                }
        }),
{
    let keys = lock.tool.keys();
    let tools = lock.tool.values();
    let pieces = Seq::new(
        keys.len(),
        |i: int| gone_files(keys[i], tools[i]@.pkg, tools[i]@.bins, existing),
    );
    let all = flat(pieces);
    if all.len() > 0 {
        let f = all[0];
        assert(all.contains(f));
        lemma_flat_contains(pieces, f);
        let i = choose|i: int| 0 <= i < pieces.len() && (#[trigger] pieces[i]).contains(f);
        lemma_missing_files_are_told(keys[i], tools[i]@.pkg, tools[i]@.bins, existing, f);
        assert(tools[i]@.pkg is Some ==> tools[i]@.pkg is Some);
    } else {
        assert forall|i: int| 0 <= i < keys.len() implies {
            &&& (#[trigger] tools[i])@.pkg is Some ==> existing.contains(tools[i]@.pkg->0)
            &&& forall|j: int|
                0 <= j < tools[i]@.bins.len() ==> existing.contains(#[trigger] tools[i]@.bins[j])
        } by {
            let key = keys[i];
            if tools[i]@.pkg is Some && !existing.contains(tools[i]@.pkg->0) {
                let f = warning(
                    key + ": rig.lock points at "@ + tools[i]@.pkg->0
                        + ", which no longer exists on disk"@,
                );
                lemma_missing_files_are_told(key, tools[i]@.pkg, tools[i]@.bins, existing, f);
                assert(pieces[i].contains(f));
                lemma_flat_contains(pieces, f);
            }
            assert forall|j: int| 0 <= j < tools[i]@.bins.len() implies existing.contains(
                #[trigger] tools[i]@.bins[j],
            ) by {
                let bin = tools[i]@.bins[j];
                if !existing.contains(bin) {
                    let f = warning(key + ": recorded bin "@ + bin + " is missing"@);
                    lemma_missing_files_are_told(key, tools[i]@.pkg, tools[i]@.bins, existing, f);
                    assert(pieces[i].contains(f));
                    lemma_flat_contains(pieces, f);
                }
            }
        }
    }
}

proof fn lemma_flat_paths_contains(pieces: Seq<Seq<Seq<char>>>, i: int, p: Seq<char>)
    requires
        0 <= i < pieces.len(),
        pieces[i].contains(p),
    ensures
        flat_paths(pieces).contains(p),
    decreases pieces.len(),
{
    let front = flat_paths(pieces.drop_last());
    let all = flat_paths(pieces);
    if i == pieces.len() - 1 {
        let k = choose|k: int| 0 <= k < pieces.last().len() && pieces.last()[k] == p;
        assert(all[front.len() + k] == p);
    } else {
        lemma_flat_paths_contains(pieces.drop_last(), i, p);
        let k = choose|k: int| 0 <= k < front.len() && front[k] == p;
        assert(all[k] == p);
    }
}

/// Whatever a check of the records looks up has been asked about before: the
/// directory and the commands of each record, and each place where the `PATH`
/// looks for such a command.
pub proof fn lemma_records_are_asked_about(
    config: Config,
    lock: Lock,
    layout: Layout,
    path_env: Seq<char>,
    npm_root: Option<Seq<char>>,
    i: int,
)
    requires
        0 <= i < lock.tool.values().len(),
    ensures
        ({
            let asked = existing_questions(config, lock, layout, path_env, npm_root);
            let tool = lock.tool.values()[i]@;
            let dirs = text::fields(path_env, Class::Only(':'));
            &&& tool.pkg is Some ==> asked.contains(tool.pkg->0)
            &&& forall|j: int|
                0 <= j < tool.bins.len() ==> {
                    &&& asked.contains(#[trigger] tool.bins[j])
                    &&& path::file_name(tool.bins[j]) is Some ==> forall|k: int|
                        0 <= k < dirs.len() ==> asked.contains(
                            path::join(#[trigger] dirs[k], path::file_name(tool.bins[j])->0),
                        )
                }
        }),
{
    let asked = existing_questions(config, lock, layout, path_env, npm_root);
    let tools = lock.tool.values();
    let tool = tools[i]@;
    let dirs = text::fields(path_env, Class::Only(':'));
    let pieces = Seq::new(
        tools.len(),
        |i: int| tool_questions(tools[i]@.pkg, tools[i]@.bins, path_env),
    );
    let own = tool_questions(tool.pkg, tool.bins, path_env);
    let parts = Seq::new(tool.bins.len(), |i: int| bin_questions(tool.bins[i], path_env));
    let lead: Seq<Seq<char>> = match tool.pkg {
        Some(p) => seq![p],
        None => seq![],
    };
    assert(own == lead + flat_paths(parts));
    assert forall|p: Seq<char>| own.contains(p) implies #[trigger] asked.contains(p) by {
        assert(pieces[i] == own);
        lemma_flat_paths_contains(pieces, i, p);
        let k = choose|k: int| 0 <= k < flat_paths(pieces).len() && flat_paths(pieces)[k] == p;
        assert(asked[k] == p);
    }
    assert forall|p: Seq<char>| flat_paths(parts).contains(p) implies #[trigger] own.contains(
        p,
    ) by {
        let k = choose|k: int| 0 <= k < flat_paths(parts).len() && flat_paths(parts)[k] == p;
        assert(own[lead.len() + k] == p);
    }
    if tool.pkg is Some {
        assert(own[0] == tool.pkg->0);
        assert(own.contains(tool.pkg->0));
    }
    assert forall|j: int| 0 <= j < tool.bins.len() implies {
        &&& asked.contains(#[trigger] tool.bins[j])
        &&& path::file_name(tool.bins[j]) is Some ==> forall|k: int|
            0 <= k < dirs.len() ==> asked.contains(
                path::join(#[trigger] dirs[k], path::file_name(tool.bins[j])->0),
            )
    } by {
        let bin = tool.bins[j];
        assert(parts[j] == bin_questions(bin, path_env));
        assert(parts[j][0] == bin);
        assert(parts[j].contains(bin));
        lemma_flat_paths_contains(parts, j, bin);
        assert(own.contains(bin));
        if path::file_name(bin) is Some {
            let name = path::file_name(bin)->0;
            assert forall|k: int| 0 <= k < dirs.len() implies asked.contains(
                path::join(#[trigger] dirs[k], name),
            ) by {
                let p = path::join(dirs[k], name);
                assert(parts[j][k + 1] == p);
                assert(parts[j].contains(p));
                lemma_flat_paths_contains(parts, j, p);
                assert(own.contains(p));
            }
        }
    }
}

/// Each place where a command of an entry would be linked is asked about.
pub proof fn lemma_commands_are_asked_about(
    entries: Seq<ResolvedEntry<'static>>,
    bin_dir: Seq<char>,
    i: int,
    j: int,
)
    requires
        0 <= i < entries.len(),
        0 <= j < entries[i].commands().len(),
    ensures
        present_questions(entries, bin_dir).contains(path::join(bin_dir, entries[i].commands()[j])),
{
    let pieces = Seq::new(
        entries.len(),
        |i: int|
            Seq::new(
                entries[i].commands().len(),
                |j: int| path::join(bin_dir, entries[i].commands()[j]),
            ),
    );
    let p = path::join(bin_dir, entries[i].commands()[j]);
    assert(pieces[i][j] == p);
    assert(pieces[i].contains(p));
    lemma_flat_paths_contains(pieces, i, p);
}

/// Where both managers would keep a configured package is asked about.
pub proof fn lemma_packages_are_asked_about(
    config: Config,
    lock: Lock,
    layout: Layout,
    path_env: Seq<char>,
    npm_root: Option<Seq<char>>,
    i: int,
)
    requires
        0 <= i < config.node@.len(),
    ensures
        ({
            let asked = existing_questions(config, lock, layout, path_env, npm_root);
            let name = config.node@[i].name@;
            let prefix = path::parent(layout.prefix_bin_dir@);
            &&& prefix is Some ==> asked.contains(
                path::join(path::join(prefix->0, "install/global/node_modules"@), name),
            )
            &&& npm_root is Some ==> asked.contains(path::join(npm_root->0, name))
        }),
{
    let asked = existing_questions(config, lock, layout, path_env, npm_root);
    let tools = lock.tool.values();
    let first = flat_paths(
        Seq::new(
            tools.len(),
            |i: int| tool_questions(tools[i]@.pkg, tools[i]@.bins, path_env),
        ),
    );
    let pieces = Seq::new(
        config.node@.len(),
        |i: int| node_questions(layout.prefix_bin_dir@, npm_root, config.node@[i].name@),
    );
    let name = config.node@[i].name@;
    let own = node_questions(layout.prefix_bin_dir@, npm_root, name);
    assert(pieces[i] == own);
    assert forall|p: Seq<char>| own.contains(p) implies #[trigger] asked.contains(p) by {
        lemma_flat_paths_contains(pieces, i, p);
        let k = choose|k: int| 0 <= k < flat_paths(pieces).len() && flat_paths(pieces)[k] == p;
        assert(asked[first.len() + k] == p);
    }
    if path::parent(layout.prefix_bin_dir@) is Some {
        assert(own[0] == bun_tree(layout.prefix_bin_dir@, name)->0);
        assert(own.contains(bun_tree(layout.prefix_bin_dir@, name)->0));
    }
    if npm_root is Some {
        assert(own[own.len() - 1] == npm_tree(npm_root, name)->0);
        assert(own.contains(npm_tree(npm_root, name)->0));
    }
}

} // verus!
