//! What is installed: one record per tool, keyed by the tool's name, and how
//! the file that holds the records is replaced.

use vstd::prelude::*;

use crate::config::Config;
use crate::initzsh;
use crate::path;
use crate::paths::Layout;
use crate::stamp::Timestamp;
use crate::strings;
use crate::table;
use crate::table::Table;
use crate::text;

verus! {

/// The records of all installed tools.
#[derive(Debug)]
pub struct Lock {
    pub tool: Table<ToolLock>,
}

/// The record of one installed tool.
#[derive(Debug)]
pub struct ToolLock {
    pub version: String,
    pub source: String,
    pub installed_at: Timestamp,
    pub bins: Vec<String>,
    pub completions: Vec<String>,
    /// Set for what came from a release or a repository.
    pub asset: Option<String>,
    pub size: Option<u64>,
    pub pkg: Option<String>,
    /// Set for what a node package manager installed.
    pub manager: Option<String>,
    pub root: Option<String>,
    /// Whether the output of the tool's `eval` command may be kept.
    pub eval_cacheable: Option<bool>,
    pub eval_cached_output: Option<String>,
    pub eval_evidence: Vec<String>,
}

#[verifier::ext_equal]
pub struct ToolLockView {
    pub version: Seq<char>,
    pub source: Seq<char>,
    pub installed_at: Timestamp,
    pub bins: Seq<Seq<char>>,
    pub completions: Seq<Seq<char>>,
    pub asset: Option<Seq<char>>,
    pub size: Option<u64>,
    pub pkg: Option<Seq<char>>,
    pub manager: Option<Seq<char>>,
    pub root: Option<Seq<char>>,
    pub eval_cacheable: Option<bool>,
    pub eval_cached_output: Option<Seq<char>>,
    pub eval_evidence: Seq<Seq<char>>,
}

impl View for ToolLock {
    type V = ToolLockView;

    open spec fn view(&self) -> ToolLockView {
        ToolLockView {
            version: self.version@,
            source: self.source@,
            installed_at: self.installed_at,
            bins: text::texts(self.bins@),
            completions: text::texts(self.completions@),
            asset: text::opt_text(self.asset),
            size: self.size,
            pkg: text::opt_text(self.pkg),
            manager: text::opt_text(self.manager),
            root: text::opt_text(self.root),
            eval_cacheable: self.eval_cacheable,
            eval_cached_output: text::opt_text(self.eval_cached_output),
            eval_evidence: text::texts(self.eval_evidence@),
        }
    }
}

impl View for Lock {
    type V = Map<Seq<char>, ToolLockView>;

    open spec fn view(&self) -> Map<Seq<char>, ToolLockView> {
        self.tool@.map_values(|t: ToolLock| t@)
    }
}

impl Default for Lock {
    fn default() -> (r: Self)
        ensures
            r@ == Map::<Seq<char>, ToolLockView>::empty(),
    {
        let r = Lock { tool: Table::new() };
        assert(r@ =~= Map::empty());
        r
    }
}

/// A record to build fixtures from.
pub fn test_tool_lock() -> (r: ToolLock)
    ensures
        r@ == (ToolLockView {
            version: "1.0.0"@,
            source: "github:test/test"@,
            installed_at: (Timestamp { nanos: 0, offset: 0 }),
            bins: seq![],
            completions: seq![],
            asset: None,
            size: None,
            pkg: None,
            manager: None,
            root: None,
            eval_cacheable: None,
            eval_cached_output: None,
            eval_evidence: seq![],
        }),
{
    let r = ToolLock {
        version: "1.0.0".to_owned(),
        source: "github:test/test".to_owned(),
        installed_at: Timestamp::epoch(),
        bins: Vec::new(),
        completions: Vec::new(),
        asset: None,
        size: None,
        pkg: None,
        manager: None,
        root: None,
        eval_cacheable: None,
        eval_cached_output: None,
        eval_evidence: Vec::new(),
    };
    assert(text::texts(r.bins@) =~= seq![]);
    assert(text::texts(r.completions@) =~= seq![]);
    assert(text::texts(r.eval_evidence@) =~= seq![]);
    r
}

impl ToolLock {
    /// A record with the same contents.
    pub fn copy(&self) -> (r: ToolLock)
        ensures
            r@ == self@,
    {
        ToolLock {
            version: self.version.as_str().to_owned(),
            source: self.source.as_str().to_owned(),
            installed_at: self.installed_at,
            bins: strings::clone_texts(&self.bins),
            completions: strings::clone_texts(&self.completions),
            asset: strings::clone_opt(&self.asset),
            size: self.size,
            pkg: strings::clone_opt(&self.pkg),
            manager: strings::clone_opt(&self.manager),
            root: strings::clone_opt(&self.root),
            eval_cacheable: self.eval_cacheable,
            eval_cached_output: strings::clone_opt(&self.eval_cached_output),
            eval_evidence: strings::clone_texts(&self.eval_evidence),
        }
    }
}

impl Lock {
    /// Records with the same contents, to read from while others change.
    pub fn snapshot(&self) -> (r: Lock)
        ensures
            r@ == self@,
    {
        let mut tool: Table<ToolLock> = Table::new();
        let n = self.tool.len();
        let mut i: usize = 0;
        let ghost keys = self.tool.keys();
        while i < n
            invariant
                i <= n,
                n == self.tool.keys().len(),
                n == self.tool.values().len(),
                keys == self.tool.keys(),
                table::ascending(keys),
                forall|k: Seq<char>|
                    #![trigger tool@.dom().contains(k)]
                    tool@.dom().contains(k) <==> keys.take(i as int).contains(k),
                forall|k: Seq<char>|
                    #![trigger tool@[k]]
                    tool@.dom().contains(k) ==> self.tool@.dom().contains(k) && tool@[k]@
                        == self.tool@[k]@,
            decreases n - i,
        {
            let t = self.tool.value(i);
            let fresh = t.copy();
            tool.insert(self.tool.key(i).to_owned(), fresh);
            i += 1;
            proof {
                let k = keys[i - 1];
                assert(keys.take(i as int) =~= keys.take(i - 1).push(k));
                assert forall|other: Seq<char>|
                    keys.take(i as int).contains(other) <==> keys.take(i - 1).contains(other)
                        || other == k by {
                    text::lemma_push_contains(keys.take(i - 1), k, other);
                }
            }
        }
        let r = Lock { tool };
        proof {
            assert(keys.take(i as int) =~= keys);
            assert(r@ =~= self@);
        }
        r
    }
}

/// The path that keeps the previous generation of a file.
pub open spec fn backup_of(p: Seq<char>) -> Seq<char> {
    let name = match path::file_name(p) {
        Some(name) => name,
        None => "backup"@,
    };
    path::with_file_name(p, "."@ + name)
}

/// `rig.lock` is kept as `.rig.lock`: one step back from a write that went
/// through but was wrong.
pub fn backup_path(path: &str) -> (r: String)
    ensures
        r@ == backup_of(path@),
{
    let name = match path::path_file_name(path) {
        Some(name) => name,
        None => "backup".to_owned(),
    };
    path::path_with_file_name(path, strings::cat2(".", name.as_str()).as_str())
}

/// The path that new contents are written to before they take a file's place.
pub open spec fn temp_of(p: Seq<char>, pid: u32) -> Seq<char> {
    let ext = match path::extension(p) {
        Some(ext) => ext,
        None => seq![],
    };
    path::with_extension(p, ext + ".tmp."@ + text::decimal(pid as nat))
}

pub fn temp_path(path: &str, pid: u32) -> (r: String)
    ensures
        r@ == temp_of(path@, pid),
{
    let ext = match path::path_extension(path) {
        Some(ext) => ext,
        None => String::new(),
    };
    let id = strings::decimal(pid as u64);
    path::path_with_extension(path, strings::cat3(ext.as_str(), ".tmp.", id.as_str()).as_str())
}

/// One step in replacing a file.
#[derive(Debug)]
pub enum WriteStep {
    /// Create a directory and its parents.
    CreateDir(String),
    /// Copy the old file here.
    Backup(String),
    /// Write the new contents here.
    WriteTemp(String),
    /// Rename the first path to the second.
    Rename(String, String),
}

pub enum WriteStepView {
    CreateDir(Seq<char>),
    Backup(Seq<char>),
    WriteTemp(Seq<char>),
    Rename(Seq<char>, Seq<char>),
}

impl View for WriteStep {
    type V = WriteStepView;

    open spec fn view(&self) -> WriteStepView {
        match *self {
            WriteStep::CreateDir(p) => WriteStepView::CreateDir(p@),
            WriteStep::Backup(p) => WriteStepView::Backup(p@),
            WriteStep::WriteTemp(p) => WriteStepView::WriteTemp(p@),
            WriteStep::Rename(p, q) => WriteStepView::Rename(p@, q@),
        }
    }
}

pub open spec fn step_views(steps: Seq<WriteStep>) -> Seq<WriteStepView> {
    Seq::new(steps.len(), |i: int| steps[i]@)
}

/// The steps that replace a file.
pub open spec fn write_steps(p: Seq<char>, exists_now: bool, pid: u32) -> Seq<WriteStepView> {
    let made = match path::parent(p) {
        Some(dir) => seq![WriteStepView::CreateDir(dir)],
        None => seq![],
    };
    let kept = if exists_now {
        seq![WriteStepView::Backup(backup_of(p))]
    } else {
        seq![]
    };
    made + kept + seq![
        WriteStepView::WriteTemp(temp_of(p, pid)),
        WriteStepView::Rename(temp_of(p, pid), p),
    ]
}

/// How to replace a file so that a failure on the way leaves the old contents
/// in place: the new contents are written next to it and moved over it.
pub fn atomic_write_plan(path: &str, exists_now: bool, pid: u32) -> (r: Vec<WriteStep>)
    ensures
        step_views(r@) == write_steps(path@, exists_now, pid),
{
    let mut steps: Vec<WriteStep> = Vec::new();
    if let Some(dir) = path::path_parent(path) {
        steps.push(WriteStep::CreateDir(dir));
    }
    if exists_now {
        steps.push(WriteStep::Backup(backup_path(path)));
    }
    steps.push(WriteStep::WriteTemp(temp_path(path, pid)));
    steps.push(WriteStep::Rename(temp_path(path, pid), path.to_owned()));
    assert(step_views(steps@) =~= write_steps(path@, exists_now, pid));
    steps
}

/// Nothing but the last step touches the file that is replaced, and an old
/// file is copied before that.
pub proof fn lemma_replaced_last(p: Seq<char>, exists_now: bool, pid: u32)
    ensures
        ({
            let steps = write_steps(p, exists_now, pid);
            &&& steps.len() >= 2
            &&& steps.last() == WriteStepView::Rename(temp_of(p, pid), p)
            &&& steps[steps.len() - 2] == WriteStepView::WriteTemp(temp_of(p, pid))
            &&& forall|i: int| 0 <= i < steps.len() - 1 ==> !(#[trigger] steps[i] is Rename)
            &&& exists_now ==> steps.contains(WriteStepView::Backup(backup_of(p)))
        }),
{
    let steps = write_steps(p, exists_now, pid);
    if exists_now {
        assert(steps[steps.len() - 3] == WriteStepView::Backup(backup_of(p)));
    }
}

/// A file to replace, and its new contents.
#[derive(Debug)]
pub struct FileWrite {
    pub path: String,
    pub contents: String,
}

pub open spec fn write_views(v: Seq<FileWrite>) -> Seq<(Seq<char>, Seq<char>)> {
    Seq::new(v.len(), |i: int| (v[i].path@, v[i].contents@))
}

/// What is written when the records have changed, in order: the records, and
/// only then the startup file that is made from them. `lock_text` is the
/// records as text.
pub fn save_and_sync(config: &Config, lock: &Lock, layout: &Layout, lock_text: String) -> (r: Vec<
    FileWrite,
>)
    ensures
        write_views(r@) == seq![
            (layout.lock_path@, lock_text@),
            (layout.init_zsh_path@, initzsh::rendered(*config, lock@, layout@)),
        ],
{
    let ghost said = lock_text@;
    let mut writes: Vec<FileWrite> = Vec::new();
    writes.push(
        FileWrite { path: layout.lock_path.as_str().to_owned(), contents: lock_text },
    );
    writes.push(
        FileWrite {
            path: layout.init_zsh_path.as_str().to_owned(),
            contents: initzsh::render(config, lock, layout),
        },
    );
    assert(write_views(writes@) =~= seq![
        (layout.lock_path@, said),
        (layout.init_zsh_path@, initzsh::rendered(*config, lock@, layout@)),
    ]);
    writes
}

/// What an attempt to take the advisory lock on the state directory ran into.
#[derive(Debug, Clone, Copy, PartialEq, Eq, Structural)]
pub enum LockAttempt {
    Taken,
    /// A signal interrupted the wait.
    Interrupted,
    /// Another process holds the lock.
    WouldBlock,
    Failed,
}

/// What to do after an attempt.
#[derive(Debug, Clone, Copy, PartialEq, Eq, Structural)]
pub enum LockVerdict {
    Acquired,
    Retry,
    /// Another process holds the lock, and the caller does not wait.
    Busy,
    Error,
}

/// Decides what an attempt to take the lock means: an interrupted wait is
/// taken up again, and a held lock is an answer only for a caller that does
/// not wait.
pub fn lock_verdict(attempt: LockAttempt, nonblocking: bool) -> (r: LockVerdict)
    ensures
        r == LockVerdict::Acquired <==> attempt == LockAttempt::Taken,
        r == LockVerdict::Retry <==> attempt == LockAttempt::Interrupted,
        r == LockVerdict::Busy <==> attempt == LockAttempt::WouldBlock && nonblocking,
        r == LockVerdict::Error <==> attempt == LockAttempt::Failed || (attempt
            == LockAttempt::WouldBlock && !nonblocking),
{
    match attempt {
        LockAttempt::Taken => LockVerdict::Acquired,
        LockAttempt::Interrupted => LockVerdict::Retry,
        LockAttempt::WouldBlock => {
            if nonblocking {
                LockVerdict::Busy
            } else {
                LockVerdict::Error
            }
        },
        LockAttempt::Failed => LockVerdict::Error,
    }
}

/// The previous generation of a file is kept beside it, under the same name
/// with a dot before it.
pub proof fn lemma_backup_is_beside(dir: Seq<char>, name: Seq<char>)
    requires
        path::is_name(name),
    ensures
        path::parent(path::join(dir, name)) is Some ==> backup_of(path::join(dir, name))
            == path::join(path::parent(path::join(dir, name))->0, seq!['.'] + name),
        path::is_name(seq!['.'] + name) ==> path::file_name(backup_of(path::join(dir, name)))
            == Some(seq!['.'] + name),
        path::is_name(seq!['.'] + name) ==> backup_of(path::join(dir, name)) != path::join(
            dir,
            name,
        ),
{
    reveal_strlit(".");
    let p = path::join(dir, name);
    path::lemma_file_name_of_join(dir, name);
    assert("."@ + name =~= seq!['.'] + name);
    if path::is_name(seq!['.'] + name) {
        let hidden = seq!['.'] + name;
        match path::parent(p) {
            Some(up) => {
                path::lemma_file_name_of_join(up, hidden);
            },
            None => {
                path::lemma_file_name_of_join(p, hidden);
            },
        }
        assert(hidden.len() != name.len());
    }
}

/// New contents are written beside the file that they replace, under its name
/// with the process behind it: they can be moved over it, and two processes do
/// not write to one file.
pub proof fn lemma_temp_is_beside(dir: Seq<char>, stem: Seq<char>, ext: Seq<char>, pid: u32, other: u32)
    requires
        path::is_name(stem + seq!['.'] + ext),
        stem.len() > 0,
        !ext.contains('.'),
    ensures
        ({
            let p = path::join(dir, stem + seq!['.'] + ext);
            &&& temp_of(p, pid) == p + ".tmp."@ + text::decimal(pid as nat)
            &&& temp_of(p, pid) != p
            &&& pid != other ==> temp_of(p, pid) != temp_of(p, other)
        }),
{
    reveal_strlit(".tmp.");
    let name = stem + seq!['.'] + ext;
    let p = path::join(dir, name);
    let start = p + ".tmp."@;
    assert(name[0] == stem[0]);
    assert(name.contains(name[0]));
    lemma_temp_of(dir, stem, ext, pid);
    lemma_temp_of(dir, stem, ext, other);
    assert(temp_of(p, pid).len() > p.len());
    if temp_of(p, pid) == temp_of(p, other) {
        let n = start.len() as int;
        assert(temp_of(p, pid).skip(n) =~= text::decimal(pid as nat));
        assert(temp_of(p, other).skip(n) =~= text::decimal(other as nat));
        text::lemma_decimal_reads_back(pid as nat);
        text::lemma_decimal_reads_back(other as nat);
    }
}

proof fn lemma_temp_of(dir: Seq<char>, stem: Seq<char>, ext: Seq<char>, pid: u32)
    requires
        path::is_name(stem + seq!['.'] + ext),
        stem.len() > 0,
        !ext.contains('.'),
    ensures
        temp_of(path::join(dir, stem + seq!['.'] + ext), pid) == path::join(
            dir,
            stem + seq!['.'] + ext,
        ) + ".tmp."@ + text::decimal(pid as nat),
{
    reveal_strlit(".tmp.");
    let name = stem + seq!['.'] + ext;
    let tail = ".tmp."@ + text::decimal(pid as nat);
    let longer = ext + ".tmp."@ + text::decimal(pid as nat);
    assert(longer =~= ext + tail);
    path::lemma_extension_of_join(dir, stem, ext, longer);
    assert(stem + seq!['.'] + longer =~= name + tail);
    assert(name[0] == stem[0]);
    assert(name.contains(name[0]));
    let fresh = name + tail;
    assert(!path::is_absolute(name));
    assert(!path::is_absolute(fresh)) by {
        assert(fresh[0] == name[0]);
    }
    assert(path::join(dir, fresh) =~= path::join(dir, name) + ".tmp."@ + text::decimal(pid as nat));
}

/// The directory of a file is there before anything is written into it, and the
/// copy of the old file is made before the new one is written.
pub proof fn lemma_directory_comes_first(p: Seq<char>, exists_now: bool, pid: u32)
    ensures
        ({
            let steps = write_steps(p, exists_now, pid);
            let n = steps.len();
            &&& path::parent(p) is Some ==> steps[0] == WriteStepView::CreateDir(path::parent(p)->0)
            &&& exists_now ==> steps[n - 3] == WriteStepView::Backup(backup_of(p))
            &&& forall|i: int| 0 <= i < n ==> (#[trigger] steps[i] is Backup ==> exists_now)
            &&& forall|i: int| 0 <= i < n ==> (#[trigger] steps[i] is CreateDir ==> i == 0)
            &&& forall|i: int| 0 <= i < n ==> (#[trigger] steps[i] is WriteTemp ==> i == n - 2)
        }),
{
}

/// A path that names no file gets a copy of a name of its own.
pub proof fn lemma_backup_without_a_name(p: Seq<char>)
    requires
        path::file_name(p) is None,
    ensures
        backup_of(p) == path::join(p, "."@ + "backup"@),
{
}

} // verus!
