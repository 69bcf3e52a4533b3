//! Finding what a tool brought along - commands and completions - and where
//! each is linked, without running over what belongs to something else.

use vstd::prelude::*;

use crate::config::{BinSpec, CompletionsSpec};
use crate::failure;
use crate::failure::Failure;
use crate::lock::Lock;
use crate::path;
use crate::sources::glob;
use crate::strings;
use crate::table::Table;
use crate::text;

verus! {

/// Where messages say that the configuration lies.
pub const CONFIG_PATH_HINT: &'static str = "~/.rig.toml";

/// Several texts as a list of bullets.
pub open spec fn bullets(items: Seq<Seq<char>>) -> Seq<char> {
    text::concat(Seq::new(items.len(), |i: int| "\n    - "@ + items[i]))
}

pub fn format_candidates(items: &Vec<String>) -> (r: String)
    ensures
        r@ == bullets(text::texts(items@)),
{
    let ghost pieces = Seq::new(items@.len(), |i: int| "\n    - "@ + text::texts(items@)[i]);
    let mut out = String::new();
    let mut i: usize = 0;
    while i < items.len()
        invariant
            i <= items.len(),
            pieces == Seq::new(items@.len(), |i: int| "\n    - "@ + text::texts(items@)[i]),
            out@ == text::concat(pieces.take(i as int)),
        decreases items.len() - i,
    {
        let line = strings::cat2("\n    - ", items[i].as_str());
        out.append(line.as_str());
        proof {
            text::lemma_concat_take(pieces, i as int);
        }
        i += 1;
    }
    assert(pieces.take(i as int) =~= pieces);
    out
}

/// The files with a name.
pub open spec fn named(files: Seq<Seq<char>>, name: Seq<char>) -> Seq<Seq<char>>
    decreases files.len(),
{
    if files.len() == 0 {
        seq![]
    } else if path::file_name(files.last()) == Some(name) {
        named(files.drop_last(), name).push(files.last())
    } else {
        named(files.drop_last(), name)
    }
}

/// The names of files.
pub open spec fn names_of(files: Seq<Seq<char>>) -> Seq<Seq<char>>
    decreases files.len(),
{
    if files.len() == 0 {
        seq![]
    } else {
        match path::file_name(files.last()) {
            Some(name) => names_of(files.drop_last()).push(name),
            None => names_of(files.drop_last()),
        }
    }
}

/// The one file with a name.
pub open spec fn by_name(files: Seq<Seq<char>>, name: Seq<char>) -> Result<
    Seq<char>,
    Seq<Seq<char>>,
> {
    let found = named(files, name);
    if found.len() == 0 {
        Err(
            seq![
                "no file named "@ + name + " found in the unpacked archive\nfiles present:"@
                    + bullets(names_of(files)) + "\nfix: set `bin` for this tool in "@
                    + CONFIG_PATH_HINT@,
            ],
        )
    } else if found.len() == 1 {
        Ok(found[0])
    } else {
        Err(
            seq![
                "multiple files named "@ + name + " found in the unpacked archive:"@ + bullets(
                    found,
                ) + "\nfix: narrow `bin` for this tool in "@ + CONFIG_PATH_HINT@,
            ],
        )
    }
}

fn all_named(files: &Vec<String>, name: &str) -> (r: Vec<String>)
    ensures
        text::texts(r@) == named(text::texts(files@), name@),
{
    let ghost all = text::texts(files@);
    let mut out: Vec<String> = Vec::new();
    let mut i: usize = 0;
    assert(text::texts(out@) =~= seq![]);
    while i < files.len()
        invariant
            i <= files.len(),
            all == text::texts(files@),
            text::texts(out@) == named(all.take(i as int), name@),
        decreases files.len() - i,
    {
        let ghost before = out@;
        if let Some(own) = path::path_file_name(files[i].as_str()) {
            if strings::same(own.as_str(), name) {
                out.push(files[i].as_str().to_owned());
                assert(text::texts(out@) =~= text::texts(before).push(all[i as int]));
            }
        }
        i += 1;
        assert(all.take(i as int).drop_last() =~= all.take(i - 1));
    }
    assert(all.take(i as int) =~= all);
    out
}

fn all_names(files: &Vec<String>) -> (r: Vec<String>)
    ensures
        text::texts(r@) == names_of(text::texts(files@)),
{
    let ghost all = text::texts(files@);
    let mut out: Vec<String> = Vec::new();
    let mut i: usize = 0;
    assert(text::texts(out@) =~= seq![]);
    while i < files.len()
        invariant
            i <= files.len(),
            all == text::texts(files@),
            text::texts(out@) == names_of(all.take(i as int)),
        decreases files.len() - i,
    {
        let ghost before = out@;
        if let Some(own) = path::path_file_name(files[i].as_str()) {
            let ghost said = own@;
            out.push(own);
            assert(text::texts(out@) =~= text::texts(before).push(said));
        }
        i += 1;
        assert(all.take(i as int).drop_last() =~= all.take(i - 1));
    }
    assert(all.take(i as int) =~= all);
    out
}

/// Finds the one file with a name.
pub fn find_by_name(files: &Vec<String>, name: &str) -> (r: Result<String, Failure>)
    ensures
        failure::said(r) == by_name(text::texts(files@), name@),
{
    let found = all_named(files, name);
    assert(text::texts(found@).len() == found@.len());
    if found.len() == 0 {
        let mut message = strings::cat4(
            "no file named ",
            name,
            " found in the unpacked archive\nfiles present:",
            format_candidates(&all_names(files)).as_str(),
        );
        message.append("\nfix: set `bin` for this tool in ");
        message.append(CONFIG_PATH_HINT);
        Err(Failure::new(message))
    } else if found.len() == 1 {
        assert(text::texts(found@)[0] == found@[0]@);
        Ok(found[0].as_str().to_owned())
    } else {
        let mut message = strings::cat4(
            "multiple files named ",
            name,
            " found in the unpacked archive:",
            format_candidates(&found).as_str(),
        );
        message.append("\nfix: narrow `bin` for this tool in ");
        message.append(CONFIG_PATH_HINT);
        Err(Failure::new(message))
    }
}

/// Whether a path below a root fits a pattern, taken from the root on.
pub open spec fn fits_below(root: Seq<char>, p: Seq<char>, pattern: Seq<char>) -> bool {
    match path::strip_prefix(p, root) {
        Some(rel) => glob::fits(pattern, rel),
        None => false,
    }
}

/// The paths below a root that fit a pattern.
pub open spec fn fitting(root: Seq<char>, files: Seq<Seq<char>>, pattern: Seq<char>) -> Seq<
    Seq<char>,
>
    decreases files.len(),
{
    if files.len() == 0 {
        seq![]
    } else if fits_below(root, files.last(), pattern) {
        fitting(root, files.drop_last(), pattern).push(files.last())
    } else {
        fitting(root, files.drop_last(), pattern)
    }
}

/// Paths below a root, taken from the root on.
pub open spec fn below(root: Seq<char>, files: Seq<Seq<char>>) -> Seq<Seq<char>>
    decreases files.len(),
{
    if files.len() == 0 {
        seq![]
    } else {
        match path::strip_prefix(files.last(), root) {
            Some(rel) => below(root, files.drop_last()).push(rel),
            None => below(root, files.drop_last()),
        }
    }
}

/// The one path below a root that fits a pattern.
pub open spec fn by_glob(root: Seq<char>, files: Seq<Seq<char>>, pattern: Seq<char>) -> Result<
    Seq<char>,
    Seq<Seq<char>>,
> {
    let found = fitting(root, files, pattern);
    if found.len() == 0 {
        Err(
            seq![
                "no file matches `"@ + pattern + "` in the unpacked archive\nfiles present:"@
                    + bullets(below(root, files)) + "\nfix: edit `bin` for this tool in "@
                    + CONFIG_PATH_HINT@,
            ],
        )
    } else if found.len() == 1 {
        Ok(found[0])
    } else {
        Err(
            seq![
                "`"@ + pattern + "` matches multiple files in the unpacked archive:"@ + bullets(
                    below(root, found),
                ) + "\nfix: narrow `bin` for this tool in "@ + CONFIG_PATH_HINT@,
            ],
        )
    }
}

fn all_fitting(root: &str, files: &Vec<String>, pattern: &str) -> (r: Vec<String>)
    ensures
        text::texts(r@) == fitting(root@, text::texts(files@), pattern@),
{
    let ghost all = text::texts(files@);
    let mut out: Vec<String> = Vec::new();
    let mut i: usize = 0;
    assert(text::texts(out@) =~= seq![]);
    while i < files.len()
        invariant
            i <= files.len(),
            all == text::texts(files@),
            text::texts(out@) == fitting(root@, all.take(i as int), pattern@),
        decreases files.len() - i,
    {
        let ghost before = out@;
        if let Some(rel) = path::path_strip_prefix(files[i].as_str(), root) {
            if glob::glob_match(pattern, rel.as_str()) {
                out.push(files[i].as_str().to_owned());
                assert(text::texts(out@) =~= text::texts(before).push(all[i as int]));
            }
        }
        i += 1;
        assert(all.take(i as int).drop_last() =~= all.take(i - 1));
    }
    assert(all.take(i as int) =~= all);
    out
}

fn all_below(root: &str, files: &Vec<String>) -> (r: Vec<String>)
    ensures
        text::texts(r@) == below(root@, text::texts(files@)),
{
    let ghost all = text::texts(files@);
    let mut out: Vec<String> = Vec::new();
    let mut i: usize = 0;
    assert(text::texts(out@) =~= seq![]);
    while i < files.len()
        invariant
            i <= files.len(),
            all == text::texts(files@),
            text::texts(out@) == below(root@, all.take(i as int)),
        decreases files.len() - i,
    {
        let ghost before = out@;
        if let Some(rel) = path::path_strip_prefix(files[i].as_str(), root) {
            let ghost said = rel@;
            out.push(rel);
            assert(text::texts(out@) =~= text::texts(before).push(said));
        }
        i += 1;
        assert(all.take(i as int).drop_last() =~= all.take(i - 1));
    }
    assert(all.take(i as int) =~= all);
    out
}

/// Finds the one path below a root that fits a pattern. The pattern is held
/// against the whole path from the root on, not against the file's name.
pub fn find_by_glob(root: &str, files: &Vec<String>, pattern: &str) -> (r: Result<String, Failure>)
    ensures
        failure::said(r) == by_glob(root@, text::texts(files@), pattern@),
{
    let found = all_fitting(root, files, pattern);
    assert(text::texts(found@).len() == found@.len());
    if found.len() == 0 {
        let mut message = strings::cat4(
            "no file matches `",
            pattern,
            "` in the unpacked archive\nfiles present:",
            format_candidates(&all_below(root, files)).as_str(),
        );
        message.append("\nfix: edit `bin` for this tool in ");
        message.append(CONFIG_PATH_HINT);
        Err(Failure::new(message))
    } else if found.len() == 1 {
        assert(text::texts(found@)[0] == found@[0]@);
        Ok(found[0].as_str().to_owned())
    } else {
        let mut message = strings::cat4(
            "`",
            pattern,
            "` matches multiple files in the unpacked archive:",
            format_candidates(&all_below(root, &found)).as_str(),
        );
        message.append("\nfix: narrow `bin` for this tool in ");
        message.append(CONFIG_PATH_HINT);
        Err(Failure::new(message))
    }
}

/// Where a path below `from` lies once `from` has become `to`.
pub open spec fn rebased(p: Seq<char>, from: Seq<char>, to: Seq<char>) -> Seq<char> {
    match path::strip_prefix(p, from) {
        Some(rel) => path::join(to, rel),
        None => p,
    }
}

pub fn rebase(p: &str, from: &str, to: &str) -> (r: String)
    ensures
        r@ == rebased(p@, from@, to@),
{
    match path::path_strip_prefix(p, from) {
        Some(rel) => path::join_path(to, rel.as_str()),
        None => p.to_owned(),
    }
}

/// A command and the file that provides it.
#[derive(Debug)]
pub struct BinSource {
    pub command: String,
    pub file: String,
}

/// The commands and their files.
pub open spec fn pairs(v: Seq<BinSource>) -> Seq<(Seq<char>, Seq<char>)> {
    Seq::new(v.len(), |i: int| (v[i].command@, v[i].file@))
}

pub open spec fn paired(r: Result<Vec<BinSource>, Failure>) -> Result<
    Seq<(Seq<char>, Seq<char>)>,
    Seq<Seq<char>>,
> {
    match r {
        Ok(v) => Ok(pairs(v@)),
        Err(f) => Err(f@),
    }
}

/// One file for each name; the first name without one decides the error.
pub open spec fn sources_by_name(files: Seq<Seq<char>>, names: Seq<Seq<char>>) -> Result<
    Seq<(Seq<char>, Seq<char>)>,
    Seq<Seq<char>>,
>
    decreases names.len(),
{
    if names.len() == 0 {
        Ok(seq![])
    } else {
        match sources_by_name(files, names.drop_last()) {
            Err(e) => Err(e),
            Ok(found) => match by_name(files, names.last()) {
                Err(e) => Err(e),
                Ok(p) => Ok(found.push((names.last(), p))),
            },
        }
    }
}

/// One file for each pattern, under the command that the pattern maps to.
pub open spec fn sources_by_glob(
    root: Seq<char>,
    files: Seq<Seq<char>>,
    patterns: Seq<Seq<char>>,
    commands: Seq<Seq<char>>,
) -> Result<Seq<(Seq<char>, Seq<char>)>, Seq<Seq<char>>>
    decreases patterns.len(),
{
    if patterns.len() == 0 {
        Ok(seq![])
    } else {
        match sources_by_glob(root, files, patterns.drop_last(), commands) {
            Err(e) => Err(e),
            Ok(found) => match by_glob(root, files, patterns.last()) {
                Err(e) => Err(e),
                Ok(p) => Ok(found.push((commands[patterns.len() - 1], p))),
            },
        }
    }
}

/// Where the commands of a `bin` field are found among the files of a tree.
pub open spec fn bin_sources(
    root: Seq<char>,
    files: Seq<Seq<char>>,
    bin: Option<&BinSpec>,
    default: Seq<char>,
) -> Result<Seq<(Seq<char>, Seq<char>)>, Seq<Seq<char>>> {
    match bin {
        None => sources_by_name(files, seq![default]),
        Some(BinSpec::Single(name)) => sources_by_name(files, seq![name@]),
        Some(BinSpec::Multiple(names)) => sources_by_name(files, text::texts(names@)),
        Some(BinSpec::Mapped(map)) => sources_by_glob(
            root,
            files,
            map.keys(),
            text::texts(map.values()),
        ),
    }
}

fn find_all(files: &Vec<String>, names: &Vec<String>) -> (r: Result<Vec<BinSource>, Failure>)
    ensures
        paired(r) == sources_by_name(text::texts(files@), text::texts(names@)),
{
    let ghost all = text::texts(files@);
    let ghost wanted = text::texts(names@);
    let mut out: Vec<BinSource> = Vec::new();
    let mut i: usize = 0;
    assert(pairs(out@) =~= seq![]);
    while i < names.len()
        invariant
            i <= names.len(),
            all == text::texts(files@),
            wanted == text::texts(names@),
            sources_by_name(all, wanted.take(i as int)) == Ok::<_, Seq<Seq<char>>>(pairs(out@)),
        decreases names.len() - i,
    {
        let ghost before = pairs(out@);
        assert(wanted.take(i + 1).drop_last() =~= wanted.take(i as int));
        match find_by_name(files, names[i].as_str()) {
            Err(f) => {
                proof {
                    lemma_first_error_stays(all, wanted, i + 1);
                }
                return Err(f);
            },
            Ok(file) => {
                let ghost pair = (wanted[i as int], file@);
                out.push(BinSource { command: names[i].as_str().to_owned(), file });
                assert(pairs(out@) =~= before.push(pair));
            },
        }
        i += 1;
    }
    assert(wanted.take(i as int) =~= wanted);
    Ok(out)
}

proof fn lemma_first_error_stays(files: Seq<Seq<char>>, names: Seq<Seq<char>>, n: int)
    requires
        0 <= n <= names.len(),
        sources_by_name(files, names.take(n)) is Err,
    ensures
        sources_by_name(files, names) == sources_by_name(files, names.take(n)),
    decreases names.len() - n,
{
    if n < names.len() {
        assert(names.take(n + 1).drop_last() =~= names.take(n));
        lemma_first_error_stays(files, names, n + 1);
    } else {
        assert(names.take(n) =~= names);
    }
}

fn find_mapped(root: &str, files: &Vec<String>, map: &Table<String>) -> (r: Result<
    Vec<BinSource>,
    Failure,
>)
    ensures
        paired(r) == sources_by_glob(
            root@,
            text::texts(files@),
            map.keys(),
            text::texts(map.values()),
        ),
{
    let ghost all = text::texts(files@);
    let ghost patterns = map.keys();
    let ghost commands = text::texts(map.values());
    let mut out: Vec<BinSource> = Vec::new();
    let n = map.len();
    let mut i: usize = 0;
    assert(pairs(out@) =~= seq![]);
    while i < n
        invariant
            i <= n,
            n == map.keys().len(),
            n == map.values().len(),
            all == text::texts(files@),
            patterns == map.keys(),
            commands == text::texts(map.values()),
            sources_by_glob(root@, all, patterns.take(i as int), commands) == Ok::<
                _,
                Seq<Seq<char>>,
            >(pairs(out@)),
        decreases n - i,
    {
        let ghost before = pairs(out@);
        assert(patterns.take(i + 1).drop_last() =~= patterns.take(i as int));
        match find_by_glob(root, files, map.key(i)) {
            Err(f) => {
                proof {
                    lemma_first_glob_error_stays(root@, all, patterns, commands, i + 1);
                }
                return Err(f);
            },
            Ok(file) => {
                let ghost pair = (commands[i as int], file@);
                out.push(BinSource { command: map.value(i).as_str().to_owned(), file });
                assert(pairs(out@) =~= before.push(pair));
            },
        }
        i += 1;
    }
    assert(patterns.take(i as int) =~= patterns);
    Ok(out)
}

proof fn lemma_first_glob_error_stays(
    root: Seq<char>,
    files: Seq<Seq<char>>,
    patterns: Seq<Seq<char>>,
    commands: Seq<Seq<char>>,
    n: int,
)
    requires
        0 <= n <= patterns.len(),
        sources_by_glob(root, files, patterns.take(n), commands) is Err,
    ensures
        sources_by_glob(root, files, patterns, commands) == sources_by_glob(
            root,
            files,
            patterns.take(n),
            commands,
        ),
    decreases patterns.len() - n,
{
    if n < patterns.len() {
        assert(patterns.take(n + 1).drop_last() =~= patterns.take(n));
        lemma_first_glob_error_stays(root, files, patterns, commands, n + 1);
    } else {
        assert(patterns.take(n) =~= patterns);
    }
}

/// Finds the commands of a `bin` field among the files of a tree.
pub fn resolve_bin_sources(
    search_dir: &str,
    files: &Vec<String>,
    bin_spec: Option<&BinSpec>,
    default_name: &str,
) -> (r: Result<Vec<BinSource>, Failure>)
    ensures
        paired(r) == bin_sources(search_dir@, text::texts(files@), bin_spec, default_name@),
{
    match bin_spec {
        Some(BinSpec::Mapped(map)) => find_mapped(search_dir, files, map),
        Some(BinSpec::Multiple(names)) => find_all(files, names),
        Some(BinSpec::Single(name)) => {
            let names = vec![name.as_str().to_owned()];
            assert(text::texts(names@) =~= seq![name@]);
            find_all(files, &names)
        },
        None => {
            let names = vec![default_name.to_owned()];
            assert(text::texts(names@) =~= seq![default_name@]);
            find_all(files, &names)
        },
    }
}

/// A symbolic link to make: what it points at, and where it stands.
#[derive(Debug)]
pub struct Link {
    pub source: String,
    pub target: String,
}

pub open spec fn links_view(v: Seq<Link>) -> Seq<(Seq<char>, Seq<char>)> {
    Seq::new(v.len(), |i: int| (v[i].source@, v[i].target@))
}

/// The link that makes a command available.
pub open spec fn bin_link(
    pair: (Seq<char>, Seq<char>),
    search_dir: Seq<char>,
    link_root: Seq<char>,
    bin_dir: Seq<char>,
) -> (Seq<char>, Seq<char>) {
    (rebased(pair.1, search_dir, link_root), path::join(bin_dir, pair.0))
}

pub open spec fn bin_links(
    found: Seq<(Seq<char>, Seq<char>)>,
    search_dir: Seq<char>,
    link_root: Seq<char>,
    bin_dir: Seq<char>,
) -> Seq<(Seq<char>, Seq<char>)> {
    Seq::new(found.len(), |i: int| bin_link(found[i], search_dir, link_root, bin_dir))
}

/// The links for the commands of a `bin` field. Files are looked for under
/// `search_dir`, where a version lies before it goes live; the links point
/// under `link_root`, where it will lie.
pub fn collect_bins(
    search_dir: &str,
    link_root: &str,
    files: &Vec<String>,
    bin_spec: Option<&BinSpec>,
    default_name: &str,
    prefix_bin_dir: &str,
) -> (r: Result<Vec<Link>, Failure>)
    ensures
        match bin_sources(search_dir@, text::texts(files@), bin_spec, default_name@) {
            Ok(found) => r is Ok && links_view(r->Ok_0@) == bin_links(
                found,
                search_dir@,
                link_root@,
                prefix_bin_dir@,
            ),
            Err(chain) => r is Err && r->Err_0@ == chain,
        },
{
    let resolved = match resolve_bin_sources(search_dir, files, bin_spec, default_name) {
        Ok(resolved) => resolved,
        Err(f) => {
            return Err(f);
        },
    };
    let ghost found = pairs(resolved@);
    let ghost wanted = bin_links(found, search_dir@, link_root@, prefix_bin_dir@);
    let mut links: Vec<Link> = Vec::new();
    let mut i: usize = 0;
    assert(links_view(links@) =~= wanted.take(0));
    while i < resolved.len()
        invariant
            i <= resolved.len(),
            found == pairs(resolved@),
            wanted == bin_links(found, search_dir@, link_root@, prefix_bin_dir@),
            links_view(links@) == wanted.take(i as int),
        decreases resolved.len() - i,
    {
        let ghost before = links_view(links@);
        let source = rebase(resolved[i].file.as_str(), search_dir, link_root);
        let target = path::join_path(prefix_bin_dir, resolved[i].command.as_str());
        let ghost pair = (source@, target@);
        links.push(Link { source, target });
        assert(links_view(links@) =~= before.push(pair));
        i += 1;
        assert(wanted.take(i as int) =~= wanted.take(i - 1).push(wanted[i - 1]));
    }
    assert(wanted.take(i as int) =~= wanted);
    Ok(links)
}

/// What stands where a link is to be made.
#[derive(Debug, Clone, Copy, PartialEq, Eq, Structural)]
pub enum TargetState {
    Absent,
    File,
    Directory,
}

/// Whether a link may be made.
#[derive(Debug)]
pub enum Conflict {
    /// It may.
    Clear,
    /// It may if the user agrees to have the file there deleted.
    Ask,
    Refused(Failure),
}

pub enum ConflictView {
    Clear,
    Ask,
    Refused(Seq<Seq<char>>),
}

impl View for Conflict {
    type V = ConflictView;

    open spec fn view(&self) -> ConflictView {
        match *self {
            Conflict::Clear => ConflictView::Clear,
            Conflict::Ask => ConflictView::Ask,
            Conflict::Refused(f) => ConflictView::Refused(f@),
        }
    }
}

/// The first tool but `tool`, not before `from`, that has a path among its
/// commands.
pub open spec fn owner_from(lock: Lock, tool: Seq<char>, target: Seq<char>, from: int) -> Option<
    Seq<char>,
>
    decreases lock.tool.keys().len() - from,
{
    if from < 0 || from >= lock.tool.keys().len() {
        None
    } else if lock.tool.keys()[from] != tool && text::texts(
        lock.tool.values()[from].bins@,
    ).contains(target) {
        Some(lock.tool.keys()[from])
    } else {
        owner_from(lock, tool, target, from + 1)
    }
}

/// Whether a tool has a path among its commands.
pub open spec fn tracks(lock: Lock, tool: Seq<char>, target: Seq<char>) -> bool {
    lock.tool@.contains_key(tool) && text::texts(lock.tool@[tool].bins@).contains(target)
}

pub open spec fn conflict(
    target: Seq<char>,
    tool: Seq<char>,
    lock: Lock,
    state: TargetState,
) -> ConflictView {
    if state == TargetState::Absent {
        ConflictView::Clear
    } else {
        match owner_from(lock, tool, target, 0) {
            Some(owner) => ConflictView::Refused(
                seq![
                    target + " is installed by rig tool `"@ + owner
                        + "` — refusing to overwrite another tool's bin"@,
                ],
            ),
            None => if tracks(lock, tool, target) {
                ConflictView::Clear
            } else if state == TargetState::Directory {
                ConflictView::Refused(
                    seq![
                        target
                            + " is a directory and isn't tracked by rig.lock — remove it yourself, rig won't"@,
                    ],
                )
            } else {
                ConflictView::Ask
            },
        }
    }
}

/// Decides whether a link may be made: nothing that belongs to another tool
/// or lies outside the records is run over without asking.
pub fn check_conflict(target: &str, tool: &str, lock: &Lock, state: TargetState) -> (r: Conflict)
    ensures
        r@ == conflict(target@, tool@, *lock, state),
{
    if state == TargetState::Absent {
        return Conflict::Clear;
    }
    let n = lock.tool.len();
    let mut i: usize = 0;
    while i < n
        invariant
            i <= n,
            n == lock.tool.keys().len(),
            n == lock.tool.values().len(),
            state != TargetState::Absent,
            owner_from(*lock, tool@, target@, 0) == owner_from(*lock, tool@, target@, i as int),
        decreases n - i,
    {
        let owner = lock.tool.key(i);
        if !strings::same(owner, tool) && strings::is_among(&lock.tool.value(i).bins, target) {
            return Conflict::Refused(
                Failure::new(
                    strings::cat4(
                        target,
                        " is installed by rig tool `",
                        owner,
                        "` — refusing to overwrite another tool's bin",
                    ),
                ),
            );
        }
        i += 1;
    }
    if let Some(own) = lock.tool.get(tool) {
        if strings::is_among(&own.bins, target) {
            return Conflict::Clear;
        }
    }
    if state == TargetState::Directory {
        return Conflict::Refused(
            Failure::new(
                strings::cat2(
                    target,
                    " is a directory and isn't tracked by rig.lock — remove it yourself, rig won't",
                ),
            ),
        );
    }
    Conflict::Ask
}

proof fn lemma_owner_from(lock: Lock, tool: Seq<char>, target: Seq<char>, from: int)
    requires
        0 <= from,
    ensures
        owner_from(lock, tool, target, from) is Some <==> exists|i: int|
            {
                &&& from <= i < lock.tool.keys().len()
                &&& #[trigger] lock.tool.keys()[i] != tool
                &&& text::texts(lock.tool.values()[i].bins@).contains(target)
            },
    decreases lock.tool.keys().len() - from,
{
    if from < lock.tool.keys().len() {
        lemma_owner_from(lock, tool, target, from + 1);
    }
}

/// Another tool's command is never taken over, whatever the user says.
pub proof fn lemma_other_tools_bins_stay(
    lock: Lock,
    tool: Seq<char>,
    target: Seq<char>,
    state: TargetState,
    i: int,
)
    requires
        state != TargetState::Absent,
        0 <= i < lock.tool.keys().len(),
        lock.tool.keys()[i] != tool,
        text::texts(lock.tool.values()[i].bins@).contains(target),
    ensures
        conflict(target, tool, lock, state) is Refused,
{
    lemma_owner_from(lock, tool, target, 0);
    assert(lock.tool.keys()[i] != tool);
}

/// A directory is never deleted, and a file that no tool has recorded only
/// after asking.
pub proof fn lemma_untracked_never_clear(
    lock: Lock,
    tool: Seq<char>,
    target: Seq<char>,
    state: TargetState,
)
    requires
        state != TargetState::Absent,
        !tracks(lock, tool, target),
    ensures
        conflict(target, tool, lock, state) !is Clear,
        state == TargetState::Directory ==> conflict(target, tool, lock, state) is Refused,
{
}

/// The question before a file is deleted.
pub fn overwrite_prompt(target: &str) -> (r: String)
    ensures
        r@ == target@
            + " exists and isn't tracked by rig — delete it and let rig take over? [y/N] "@,
{
    strings::cat2(
        target,
        " exists and isn't tracked by rig — delete it and let rig take over? [y/N] ",
    )
}

/// What an answer to that question means for the link.
pub fn settle_overwrite(target: &str, confirmed: bool) -> (r: Result<(), Failure>)
    ensures
        failure::done(r) == if confirmed {
            Ok::<(), Seq<Seq<char>>>(())
        } else {
            Err(
                seq![
                    target@
                        + " already exists and isn't tracked by rig.lock — refusing to overwrite"@,
                ],
            )
        },
{
    if confirmed {
        Ok(())
    } else {
        Err(
            Failure::new(
                strings::cat2(
                    target,
                    " already exists and isn't tracked by rig.lock — refusing to overwrite",
                ),
            ),
        )
    }
}

/// Whether a line agrees.
pub fn answer_is_yes(line: &str) -> (r: bool)
    ensures
        r == (text::eq_ignore_case(text::trim(line@), "y"@) || text::eq_ignore_case(
            text::trim(line@),
            "yes"@,
        )),
{
    let answer = strings::trim(line);
    strings::eq_ignore_case(answer, "y") || strings::eq_ignore_case(answer, "yes")
}

/// Whether a file may be deleted: the user was asked, on a terminal, and
/// agreed. Nothing that runs unattended ever waits for an answer.
pub fn confirm_overwrite(is_terminal: bool, line: &str) -> (r: bool)
    ensures
        r == (is_terminal && (text::eq_ignore_case(text::trim(line@), "y"@)
            || text::eq_ignore_case(text::trim(line@), "yes"@))),
{
    is_terminal && answer_is_yes(line)
}

/// One step of making a link.
#[derive(Debug)]
pub enum LinkStep {
    Remove(String),
    /// A link to the first path, at the second.
    Symlink(String, String),
}

/// How a link is made: what stands in its place is removed only now, right
/// before, so that an earlier failure does not lose it.
pub fn symlink_replacing(source: &str, target: &str, present: bool) -> (r: Vec<LinkStep>)
    ensures
        r@.len() == if present {
            2nat
        } else {
            1nat
        },
        present ==> r@[0] is Remove && r@[0]->Remove_0@ == target@,
        r@.last() is Symlink,
        r@.last()->Symlink_0@ == source@,
        r@.last()->Symlink_1@ == target@,
{
    let mut steps: Vec<LinkStep> = Vec::new();
    if present {
        steps.push(LinkStep::Remove(target.to_owned()));
    }
    steps.push(LinkStep::Symlink(source.to_owned(), target.to_owned()));
    steps
}

/// Whether a path is that of a completion function.
pub open spec fn is_completion(p: Seq<char>) -> bool {
    match path::file_name(p) {
        Some(name) => name.len() > 0 && name[0] == '_',
        None => false,
    }
}

/// The completion functions among files.
pub open spec fn completions_among(files: Seq<Seq<char>>) -> Seq<Seq<char>>
    decreases files.len(),
{
    if files.len() == 0 {
        seq![]
    } else if is_completion(files.last()) {
        completions_among(files.drop_last()).push(files.last())
    } else {
        completions_among(files.drop_last())
    }
}

pub fn underscore_files(files: &Vec<String>) -> (r: Vec<String>)
    ensures
        text::texts(r@) == completions_among(text::texts(files@)),
{
    let ghost all = text::texts(files@);
    let mut out: Vec<String> = Vec::new();
    let mut i: usize = 0;
    assert(text::texts(out@) =~= seq![]);
    while i < files.len()
        invariant
            i <= files.len(),
            all == text::texts(files@),
            text::texts(out@) == completions_among(all.take(i as int)),
        decreases files.len() - i,
    {
        let ghost before = out@;
        if let Some(name) = path::path_file_name(files[i].as_str()) {
            let chars = strings::chars_of(name.as_str());
            if chars.len() > 0 && chars[0] == '_' {
                out.push(files[i].as_str().to_owned());
                assert(text::texts(out@) =~= text::texts(before).push(all[i as int]));
            }
        }
        i += 1;
        assert(all.take(i as int).drop_last() =~= all.take(i - 1));
    }
    assert(all.take(i as int) =~= all);
    out
}

/// The links for completion functions, each under its own name.
pub open spec fn completion_links(sources: Seq<Seq<char>>, dir: Seq<char>) -> Result<
    Seq<(Seq<char>, Seq<char>)>,
    Seq<Seq<char>>,
>
    decreases sources.len(),
{
    if sources.len() == 0 {
        Ok(seq![])
    } else {
        match completion_links(sources.drop_last(), dir) {
            Err(e) => Err(e),
            Ok(links) => match path::file_name(sources.last()) {
                Some(name) => Ok(links.push((sources.last(), path::join(dir, name)))),
                None => Err(seq![sources.last() + " has no file name"@]),
            },
        }
    }
}

pub open spec fn linked(r: Result<Vec<Link>, Failure>) -> Result<
    Seq<(Seq<char>, Seq<char>)>,
    Seq<Seq<char>>,
> {
    match r {
        Ok(v) => Ok(links_view(v@)),
        Err(f) => Err(f@),
    }
}

pub fn link_completions(sources: &Vec<String>, completions_dir: &str) -> (r: Result<
    Vec<Link>,
    Failure,
>)
    ensures
        linked(r) == completion_links(text::texts(sources@), completions_dir@),
{
    let ghost all = text::texts(sources@);
    let mut links: Vec<Link> = Vec::new();
    let mut i: usize = 0;
    assert(links_view(links@) =~= seq![]);
    while i < sources.len()
        invariant
            i <= sources.len(),
            all == text::texts(sources@),
            completion_links(all.take(i as int), completions_dir@) == Ok::<_, Seq<Seq<char>>>(
                links_view(links@),
            ),
        decreases sources.len() - i,
    {
        let ghost before = links_view(links@);
        let source = sources[i].as_str();
        assert(all.take(i + 1).drop_last() =~= all.take(i as int));
        match path::path_file_name(source) {
            Some(name) => {
                let target = path::join_path(completions_dir, name.as_str());
                let ghost pair = (source@, target@);
                links.push(Link { source: source.to_owned(), target });
                assert(links_view(links@) =~= before.push(pair));
            },
            None => {
                proof {
                    lemma_first_link_error_stays(all, completions_dir@, i + 1);
                }
                return Err(Failure::new(strings::cat2(source, " has no file name")));
            },
        }
        i += 1;
    }
    assert(all.take(i as int) =~= all);
    Ok(links)
}

proof fn lemma_first_link_error_stays(sources: Seq<Seq<char>>, dir: Seq<char>, n: int)
    requires
        0 <= n <= sources.len(),
        completion_links(sources.take(n), dir) is Err,
    ensures
        completion_links(sources, dir) == completion_links(sources.take(n), dir),
    decreases sources.len() - n,
{
    if n < sources.len() {
        assert(sources.take(n + 1).drop_last() =~= sources.take(n));
        lemma_first_link_error_stays(sources, dir, n + 1);
    } else {
        assert(sources.take(n) =~= sources);
    }
}

/// Paths below `from`, each where it lies once `from` has become `to`.
pub open spec fn all_rebased(ps: Seq<Seq<char>>, from: Seq<char>, to: Seq<char>) -> Seq<Seq<char>> {
    Seq::new(ps.len(), |i: int| rebased(ps[i], from, to))
}

fn rebase_all(ps: &Vec<String>, from: &str, to: &str) -> (r: Vec<String>)
    ensures
        text::texts(r@) == all_rebased(text::texts(ps@), from@, to@),
{
    let ghost wanted = all_rebased(text::texts(ps@), from@, to@);
    let mut out: Vec<String> = Vec::new();
    let mut i: usize = 0;
    assert(text::texts(out@) =~= wanted.take(0));
    while i < ps.len()
        invariant
            i <= ps.len(),
            wanted == all_rebased(text::texts(ps@), from@, to@),
            text::texts(out@) == wanted.take(i as int),
        decreases ps.len() - i,
    {
        let ghost before = out@;
        let p = rebase(ps[i].as_str(), from, to);
        let ghost said = p@;
        out.push(p);
        assert(text::texts(out@) =~= text::texts(before).push(said));
        i += 1;
        assert(wanted.take(i as int) =~= wanted.take(i - 1).push(wanted[i - 1]));
    }
    assert(wanted.take(i as int) =~= wanted);
    out
}

/// The files that a `completions` field names, where they will lie.
pub open spec fn completion_sources(
    spec: CompletionsSpec,
    search_dir: Seq<char>,
    link_root: Seq<char>,
    files: Seq<Seq<char>>,
) -> Seq<Seq<char>> {
    match spec {
        CompletionsSpec::Enabled(on) => if on {
            all_rebased(completions_among(files), search_dir, link_root)
        } else {
            seq![]
        },
        CompletionsSpec::Path { path } => seq![path::join(link_root, path@)],
        CompletionsSpec::Generate { .. } => all_rebased(
            completions_among(files),
            search_dir,
            link_root,
        ),
    }
}

/// The links that a `completions` field asks for. `files` are those under
/// `search_dir` once a generating command has run.
pub fn collect_completions(
    search_dir: &str,
    link_root: &str,
    spec: &CompletionsSpec,
    files: &Vec<String>,
    completions_dir: &str,
) -> (r: Result<Vec<Link>, Failure>)
    ensures
        linked(r) == completion_links(
            completion_sources(*spec, search_dir@, link_root@, text::texts(files@)),
            completions_dir@,
        ),
{
    let sources = match spec {
        CompletionsSpec::Enabled(on) => {
            if *on {
                rebase_all(&underscore_files(files), search_dir, link_root)
            } else {
                Vec::new()
            }
        },
        CompletionsSpec::Path { path } => {
            let one = vec![path::join_path(link_root, path.as_str())];
            assert(text::texts(one@) =~= seq![path::join(link_root@, path@)]);
            one
        },
        CompletionsSpec::Generate { .. } => rebase_all(
            &underscore_files(files),
            search_dir,
            link_root,
        ),
    };
    assert(text::texts(sources@) =~= completion_sources(
        *spec,
        search_dir@,
        link_root@,
        text::texts(files@),
    ));
    link_completions(&sources, completions_dir)
}

/// The directory that a generating command runs in: where the first command
/// was found, so that it can be called by a relative path.
pub open spec fn generate_dir(
    search_dir: Seq<char>,
    found: Result<Seq<(Seq<char>, Seq<char>)>, Seq<Seq<char>>>,
) -> Seq<char> {
    match found {
        Ok(pairs) => if pairs.len() > 0 {
            match path::parent(pairs[0].1) {
                Some(dir) => dir,
                None => search_dir,
            }
        } else {
            search_dir
        },
        Err(_) => search_dir,
    }
}

pub fn generate_cwd(
    search_dir: &str,
    files: &Vec<String>,
    bin_spec: Option<&BinSpec>,
    tool: &str,
) -> (r: String)
    ensures
        r@ == generate_dir(
            search_dir@,
            bin_sources(search_dir@, text::texts(files@), bin_spec, tool@),
        ),
{
    match resolve_bin_sources(search_dir, files, bin_spec, tool) {
        Ok(found) => {
            assert(pairs(found@).len() == found@.len());
            if found.len() > 0 {
                assert(pairs(found@)[0].1 == found@[0].file@);
                match path::path_parent(found[0].file.as_str()) {
                    Some(dir) => dir,
                    None => search_dir.to_owned(),
                }
            } else {
                search_dir.to_owned()
            }
        },
        Err(_) => search_dir.to_owned(),
    }
}

/// What a tool brought along, once it is linked.
#[derive(Debug)]
pub struct CollectedArtifacts {
    pub bins: Vec<Link>,
    pub completions: Vec<Link>,
}

/// Where links stand.
pub open spec fn targets(links: Seq<Link>) -> Seq<Seq<char>> {
    Seq::new(links.len(), |i: int| links[i].target@)
}

pub fn link_targets(links: &Vec<Link>) -> (r: Vec<String>)
    ensures
        text::texts(r@) == targets(links@),
{
    let ghost wanted = targets(links@);
    let mut out: Vec<String> = Vec::new();
    let mut i: usize = 0;
    assert(text::texts(out@) =~= wanted.take(0));
    while i < links.len()
        invariant
            i <= links.len(),
            wanted == targets(links@),
            text::texts(out@) == wanted.take(i as int),
        decreases links.len() - i,
    {
        let ghost before = out@;
        out.push(links[i].target.as_str().to_owned());
        assert(text::texts(out@) =~= text::texts(before).push(wanted[i as int]));
        i += 1;
        assert(wanted.take(i as int) =~= wanted.take(i - 1).push(wanted[i - 1]));
    }
    assert(wanted.take(i as int) =~= wanted);
    out
}

proof fn lemma_named_filter(files: Seq<Seq<char>>, name: Seq<char>)
    ensures
        named(files, name) == files.filter(|p: Seq<char>| path::file_name(p) == Some(name)),
    decreases files.len(),
{
    reveal(Seq::filter);
    if files.len() > 0 {
        lemma_named_filter(files.drop_last(), name);
    }
}

proof fn lemma_fitting_filter(root: Seq<char>, files: Seq<Seq<char>>, pattern: Seq<char>)
    ensures
        fitting(root, files, pattern) == files.filter(
            |p: Seq<char>|
                path::strip_prefix(p, root) is Some && glob::fits(
                    pattern,
                    path::strip_prefix(p, root)->0,
                ),
        ),
    decreases files.len(),
{
    reveal(Seq::filter);
    if files.len() > 0 {
        lemma_fitting_filter(root, files.drop_last(), pattern);
    }
}

proof fn lemma_completions_filter(files: Seq<Seq<char>>)
    ensures
        completions_among(files) == files.filter(
            |p: Seq<char>|
                path::file_name(p) is Some && path::file_name(p)->0.len() > 0 && path::file_name(
                    p,
                )->0[0] == '_',
        ),
    decreases files.len(),
{
    reveal(Seq::filter);
    if files.len() > 0 {
        lemma_completions_filter(files.drop_last());
    }
}

/// A file is found by its name exactly if it is the only one of that name:
/// none and several are errors.
pub proof fn lemma_found_by_name(files: Seq<Seq<char>>, name: Seq<char>, i: int)
    requires
        0 <= i < files.len(),
    ensures
        path::file_name(files[i]) == Some(name) && (forall|j: int|
            0 <= j < files.len() && j != i ==> path::file_name(#[trigger] files[j]) != Some(name))
            ==> by_name(files, name) == Ok::<Seq<char>, Seq<Seq<char>>>(files[i]),
        by_name(files, name) is Ok ==> exists|k: int|
            {
                &&& 0 <= k < files.len()
                &&& by_name(files, name)->Ok_0 == #[trigger] files[k]
                &&& path::file_name(files[k]) == Some(name)
                &&& forall|j: int|
                    0 <= j < files.len() && j != k ==> path::file_name(#[trigger] files[j])
                        != Some(name)
            },
{
    let pred = |p: Seq<char>| path::file_name(p) == Some(name);
    lemma_named_filter(files, name);
    if path::file_name(files[i]) == Some(name) && (forall|j: int|
        0 <= j < files.len() && j != i ==> path::file_name(#[trigger] files[j]) != Some(name)) {
        text::lemma_filter_one(files, pred, i);
    }
    if by_name(files, name) is Ok {
        text::lemma_filter_only(files, pred);
    }
}

/// A file is found by a pattern exactly if its path from the root on is the
/// only one that fits: none and several are errors.
pub proof fn lemma_found_by_glob(
    root: Seq<char>,
    files: Seq<Seq<char>>,
    pattern: Seq<char>,
    i: int,
)
    requires
        0 <= i < files.len(),
    ensures
        fits_below(root, files[i], pattern) && (forall|j: int|
            0 <= j < files.len() && j != i ==> !fits_below(root, #[trigger] files[j], pattern))
            ==> by_glob(root, files, pattern) == Ok::<Seq<char>, Seq<Seq<char>>>(files[i]),
        by_glob(root, files, pattern) is Ok ==> exists|k: int|
            {
                &&& 0 <= k < files.len()
                &&& by_glob(root, files, pattern)->Ok_0 == #[trigger] files[k]
                &&& path::strip_prefix(files[k], root) is Some
                &&& glob::fits(pattern, path::strip_prefix(files[k], root)->0)
                &&& forall|j: int|
                    0 <= j < files.len() && j != k ==> !(path::strip_prefix(
                        #[trigger] files[j],
                        root,
                    ) is Some && glob::fits(pattern, path::strip_prefix(files[j], root)->0))
            },
{
    let pred = |p: Seq<char>|
        path::strip_prefix(p, root) is Some && glob::fits(
            pattern,
            path::strip_prefix(p, root)->0,
        );
    lemma_fitting_filter(root, files, pattern);
    if fits_below(root, files[i], pattern) && (forall|j: int|
        0 <= j < files.len() && j != i ==> !fits_below(root, #[trigger] files[j], pattern)) {
        text::lemma_filter_one(files, pred, i);
    }
    if by_glob(root, files, pattern) is Ok {
        text::lemma_filter_only(files, pred);
    }
}

/// Every name gets its own file, in the order of the names, and an error comes
/// exactly if one of them has none.
pub proof fn lemma_every_name_is_found(files: Seq<Seq<char>>, names: Seq<Seq<char>>)
    ensures
        ({
            let found = sources_by_name(files, names);
            &&& found is Err <==> exists|i: int|
                0 <= i < names.len() && by_name(files, #[trigger] names[i]) is Err
            &&& found is Ok ==> found->Ok_0.len() == names.len() && forall|i: int|
                0 <= i < names.len() ==> found->Ok_0[i].0 == #[trigger] names[i] && by_name(
                    files,
                    names[i],
                ) == Ok::<Seq<char>, Seq<Seq<char>>>(found->Ok_0[i].1)
        }),
    decreases names.len(),
{
    if names.len() > 0 {
        let front = names.drop_last();
        lemma_every_name_is_found(files, front);
        let before = sources_by_name(files, front);
        if before is Err {
            let i = choose|i: int|
                0 <= i < front.len() && by_name(files, #[trigger] front[i]) is Err;
            assert(names[i] == front[i]);
        } else {
            assert forall|i: int| 0 <= i < front.len() implies before->Ok_0[i].0
                == #[trigger] names[i] && by_name(files, names[i]) == Ok::<
                Seq<char>,
                Seq<Seq<char>>,
            >(before->Ok_0[i].1) by {
                assert(names[i] == front[i]);
            }
            assert(names[names.len() - 1] == names.last());
        }
    }
}

/// Every pattern gets its own file, under the command at its own place, and an
/// error comes exactly if one of them has none.
pub proof fn lemma_every_pattern_is_found(
    root: Seq<char>,
    files: Seq<Seq<char>>,
    patterns: Seq<Seq<char>>,
    commands: Seq<Seq<char>>,
)
    ensures
        ({
            let found = sources_by_glob(root, files, patterns, commands);
            &&& found is Err <==> exists|i: int|
                0 <= i < patterns.len() && by_glob(root, files, #[trigger] patterns[i]) is Err
            &&& found is Ok ==> found->Ok_0.len() == patterns.len() && forall|i: int|
                0 <= i < patterns.len() ==> found->Ok_0[i].0 == commands[i] && by_glob(
                    root,
                    files,
                    #[trigger] patterns[i],
                ) == Ok::<Seq<char>, Seq<Seq<char>>>(found->Ok_0[i].1)
        }),
    decreases patterns.len(),
{
    if patterns.len() > 0 {
        let front = patterns.drop_last();
        lemma_every_pattern_is_found(root, files, front, commands);
        let before = sources_by_glob(root, files, front, commands);
        if before is Err {
            let i = choose|i: int|
                0 <= i < front.len() && by_glob(root, files, #[trigger] front[i]) is Err;
            assert(patterns[i] == front[i]);
        } else {
            assert forall|i: int| 0 <= i < front.len() implies before->Ok_0[i].0 == commands[i]
                && by_glob(root, files, #[trigger] patterns[i]) == Ok::<
                Seq<char>,
                Seq<Seq<char>>,
            >(before->Ok_0[i].1) by {
                assert(patterns[i] == front[i]);
            }
            assert(patterns[patterns.len() - 1] == patterns.last());
        }
    }
}

/// A `bin` field that names commands finds each by its name; one that maps
/// patterns finds each by its pattern; without one, the tool's own name is
/// looked for.
pub proof fn lemma_how_commands_are_found(
    root: Seq<char>,
    files: Seq<Seq<char>>,
    bin: Option<&BinSpec>,
    default: Seq<char>,
)
    ensures
        bin_sources(root, files, bin, default) == match bin {
            Some(BinSpec::Mapped(map)) => sources_by_glob(
                root,
                files,
                map.keys(),
                text::texts(map.values()),
            ),
            _ => sources_by_name(files, crate::config::declared(bin, default)),
        },
{
}

/// Each command that was found is linked once, under its own name in the
/// directory of commands, and the link points at where its file will lie.
pub proof fn lemma_each_command_is_linked(
    found: Seq<(Seq<char>, Seq<char>)>,
    search_dir: Seq<char>,
    link_root: Seq<char>,
    bin_dir: Seq<char>,
    i: int,
)
    requires
        0 <= i < found.len(),
    ensures
        bin_links(found, search_dir, link_root, bin_dir).len() == found.len(),
        bin_links(found, search_dir, link_root, bin_dir)[i].1 == path::join(bin_dir, found[i].0),
        match path::strip_prefix(found[i].1, search_dir) {
            Some(rel) => bin_links(found, search_dir, link_root, bin_dir)[i].0 == path::join(
                link_root,
                rel,
            ),
            None => bin_links(found, search_dir, link_root, bin_dir)[i].0 == found[i].1,
        },
{
}

proof fn lemma_owner_is_another(lock: Lock, tool: Seq<char>, target: Seq<char>, from: int)
    requires
        0 <= from,
        owner_from(lock, tool, target, from) is Some,
    ensures
        exists|i: int|
            {
                &&& from <= i < lock.tool.keys().len()
                &&& #[trigger] lock.tool.keys()[i] == owner_from(lock, tool, target, from)->0
                &&& lock.tool.keys()[i] != tool
                &&& text::texts(lock.tool.values()[i].bins@).contains(target)
            },
    decreases lock.tool.keys().len() - from,
{
    if lock.tool.keys()[from] != tool && text::texts(lock.tool.values()[from].bins@).contains(
        target,
    ) {
        assert(lock.tool.keys()[from] == owner_from(lock, tool, target, from)->0);
    } else {
        lemma_owner_is_another(lock, tool, target, from + 1);
        let i = choose|i: int|
            {
                &&& from + 1 <= i < lock.tool.keys().len()
                &&& #[trigger] lock.tool.keys()[i] == owner_from(lock, tool, target, from + 1)->0
                &&& lock.tool.keys()[i] != tool
                &&& text::texts(lock.tool.values()[i].bins@).contains(target)
            };
        assert(lock.tool.keys()[i] == owner_from(lock, tool, target, from)->0);
    }
}

/// A link may be made without asking exactly if nothing stands in its place, or
/// if what stands there is a command of this tool and of no other; the user is
/// asked exactly about a file that no tool has recorded. Everything else is
/// refused.
pub proof fn lemma_when_a_link_may_be_made(
    target: Seq<char>,
    tool: Seq<char>,
    lock: Lock,
    state: TargetState,
)
    ensures
        ({
            let foreign = exists|i: int|
                {
                    &&& 0 <= i < lock.tool.keys().len()
                    &&& #[trigger] lock.tool.keys()[i] != tool
                    &&& text::texts(lock.tool.values()[i].bins@).contains(target)
                };
            let own = lock.tool@.contains_key(tool) && text::texts(
                lock.tool@[tool].bins@,
            ).contains(target);
            let verdict = conflict(target, tool, lock, state);
            &&& verdict is Clear <==> state == TargetState::Absent || (!foreign && own)
            &&& verdict is Ask <==> state == TargetState::File && !foreign && !own
            &&& verdict is Refused <==> state != TargetState::Absent && (foreign || (state
                == TargetState::Directory && !own))
        }),
{
    lemma_owner_from(lock, tool, target, 0);
}

/// A refusal on behalf of another tool names a tool that has the path among its
/// commands.
pub proof fn lemma_refusal_names_the_owner(
    target: Seq<char>,
    tool: Seq<char>,
    lock: Lock,
    state: TargetState,
)
    requires
        state != TargetState::Absent,
        owner_from(lock, tool, target, 0) is Some,
    ensures
        exists|i: int|
            {
                &&& 0 <= i < lock.tool.keys().len()
                &&& #[trigger] lock.tool.keys()[i] != tool
                &&& text::texts(lock.tool.values()[i].bins@).contains(target)
                &&& conflict(target, tool, lock, state) == ConflictView::Refused(
                    seq![
                        target + " is installed by rig tool `"@ + lock.tool.keys()[i]
                            + "` — refusing to overwrite another tool's bin"@,
                    ],
                )
            },
{
    lemma_owner_is_another(lock, tool, target, 0);
    let i = choose|i: int|
        {
            &&& 0 <= i < lock.tool.keys().len()
            &&& #[trigger] lock.tool.keys()[i] == owner_from(lock, tool, target, 0)->0
            &&& lock.tool.keys()[i] != tool
            &&& text::texts(lock.tool.values()[i].bins@).contains(target)
        };
    assert(lock.tool.keys()[i] != tool);
}

/// The completions among files are exactly those whose name starts with an
/// underscore.
pub proof fn lemma_completions_among(files: Seq<Seq<char>>, p: Seq<char>)
    ensures
        completions_among(files).contains(p) <==> files.contains(p) && path::file_name(p) is Some
            && path::file_name(p)->0.len() > 0 && path::file_name(p)->0[0] == '_',
{
    lemma_completions_filter(files);
    text::lemma_filter_keeps(
        files,
        |q: Seq<char>|
            path::file_name(q) is Some && path::file_name(q)->0.len() > 0 && path::file_name(
                q,
            )->0[0] == '_',
        p,
    );
}

/// Each completion is linked under its own name, in the order of the files; an
/// error comes exactly if one of them has no name.
pub proof fn lemma_each_completion_is_linked(sources: Seq<Seq<char>>, dir: Seq<char>)
    ensures
        ({
            let links = completion_links(sources, dir);
            &&& links is Err <==> exists|i: int|
                0 <= i < sources.len() && path::file_name(#[trigger] sources[i]) is None
            &&& links is Ok ==> links->Ok_0.len() == sources.len() && forall|i: int|
                0 <= i < sources.len() ==> links->Ok_0[i] == (
                    #[trigger] sources[i],
                    path::join(dir, path::file_name(sources[i])->0),
                )
        }),
    decreases sources.len(),
{
    if sources.len() > 0 {
        let front = sources.drop_last();
        lemma_each_completion_is_linked(front, dir);
        let before = completion_links(front, dir);
        if before is Err {
            let i = choose|i: int|
                0 <= i < front.len() && path::file_name(#[trigger] front[i]) is None;
            assert(sources[i] == front[i]);
        } else {
            assert forall|i: int| 0 <= i < front.len() implies before->Ok_0[i] == (
                #[trigger] sources[i],
                path::join(dir, path::file_name(sources[i])->0),
            ) && path::file_name(sources[i]) is Some by {
                assert(sources[i] == front[i]);
            }
            assert(sources[sources.len() - 1] == sources.last());
        }
    }
}

/// A tool that wants no completions gets none; one that names a file gets that
/// file, where it will lie; any other gets every completion that was found,
/// each where it will lie.
pub proof fn lemma_which_completions(
    spec: CompletionsSpec,
    search_dir: Seq<char>,
    link_root: Seq<char>,
    files: Seq<Seq<char>>,
)
    ensures
        ({
            let sources = completion_sources(spec, search_dir, link_root, files);
            match spec {
                CompletionsSpec::Enabled(false) => sources.len() == 0,
                CompletionsSpec::Path { path } => sources == seq![path::join(link_root, path@)],
                _ => sources.len() == completions_among(files).len() && forall|i: int|
                    0 <= i < sources.len() ==> #[trigger] sources[i] == match path::strip_prefix(
                        completions_among(files)[i],
                        search_dir,
                    ) {
                        Some(rel) => path::join(link_root, rel),
                        None => completions_among(files)[i],
                    },
            }
        }),
{
}

/// A generating command runs where the first command was found.
pub proof fn lemma_where_a_generator_runs(
    search_dir: Seq<char>,
    found: Result<Seq<(Seq<char>, Seq<char>)>, Seq<Seq<char>>>,
)
    ensures
        found is Err || found->Ok_0.len() == 0 ==> generate_dir(search_dir, found) == search_dir,
        found is Ok && found->Ok_0.len() > 0 && path::parent(found->Ok_0[0].1) is Some
            ==> Some(generate_dir(search_dir, found)) == path::parent(found->Ok_0[0].1),
{
}

/// A list of bullets holds each of its items on a line of its own.
pub proof fn lemma_bullets_hold_each(items: Seq<Seq<char>>, i: int)
    requires
        0 <= i < items.len(),
    ensures
        text::contains(bullets(items), "\n    - "@ + items[i]),
{
    let pieces = Seq::new(items.len(), |k: int| "\n    - "@ + items[k]);
    let p = "\n    - "@ + items[i];
    assert(text::occurs_at(p, p, 0)) by {
        assert(p.subrange(0, p.len() as int) =~= p);
    }
    text::lemma_concat_contains(pieces, i, p);
}

/// A file of the staged version is linked to where it will lie: the same name
/// in the live directory.
pub proof fn lemma_links_lead_to_the_live_version(
    staging: Seq<char>,
    live: Seq<char>,
    name: Seq<char>,
    command: Seq<char>,
    bin_dir: Seq<char>,
)
    requires
        path::is_name(name),
    ensures
        rebased(path::join(staging, name), staging, live) == path::join(live, name),
        bin_links(seq![(command, path::join(staging, name))], staging, live, bin_dir) == seq![
            (path::join(live, name), path::join(bin_dir, command)),
        ],
{
    path::lemma_strip_prefix_of_join(staging, name);
    assert(bin_links(seq![(command, path::join(staging, name))], staging, live, bin_dir) =~= seq![
        (path::join(live, name), path::join(bin_dir, command)),
    ]);
}

/// What is recorded of links is where they stand, each at its place.
pub proof fn lemma_recorded_targets(links: Seq<Link>, i: int)
    requires
        0 <= i < links.len(),
    ensures
        targets(links).len() == links.len(),
        targets(links)[i] == links[i].target@,
{
}

} // verus!
