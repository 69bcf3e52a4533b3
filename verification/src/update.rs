//! Updates: which tools are looked at, what an answer from upstream means,
//! and how results come into the records.

use vstd::prelude::*;

use crate::config;
use crate::config::{Config, ResolvedEntry};
use crate::failure::Failure;
use crate::lock::{Lock, ToolLock, ToolLockView};
use crate::sources::EvalState;
use crate::sources::node::ResolvedManager;
use crate::strings;
use crate::text;

verus! {

/// What came of an update.
#[derive(Debug)]
pub enum Outcome {
    UpToDate { version: String },
    Updated { from: String, to: String },
    /// An install script was run again; it has no version to compare.
    Reran,
    /// The `eval` command was looked at again, and nothing else.
    EvalRefreshed { cacheable: Option<bool> },
    /// There is no `eval` command to look at.
    NoEval,
}

pub enum OutcomeView {
    UpToDate { version: Seq<char> },
    Updated { from: Seq<char>, to: Seq<char> },
    Reran,
    EvalRefreshed { cacheable: Option<bool> },
    NoEval,
}

impl View for Outcome {
    type V = OutcomeView;

    open spec fn view(&self) -> OutcomeView {
        match *self {
            Outcome::UpToDate { version } => OutcomeView::UpToDate { version: version@ },
            Outcome::Updated { from, to } => OutcomeView::Updated { from: from@, to: to@ },
            Outcome::Reran => OutcomeView::Reran,
            Outcome::EvalRefreshed { cacheable } => OutcomeView::EvalRefreshed { cacheable },
            Outcome::NoEval => OutcomeView::NoEval,
        }
    }
}

/// What is reported of a tool.
#[derive(Debug)]
pub struct Report {
    pub tool: String,
    pub outcome: Result<Outcome, Failure>,
}

/// A change to the records. What is computed side by side only reads them;
/// changes are applied one after the other.
#[derive(Debug)]
pub enum LockChange {
    /// Put a whole record in place.
    Replace(ToolLock),
    /// Change what is known of the `eval` command, and nothing else.
    RefreshEval { cacheable: Option<bool>, output: Option<String>, evidence: Vec<String> },
}

pub enum LockChangeView {
    Replace(ToolLockView),
    RefreshEval { cacheable: Option<bool>, output: Option<Seq<char>>, evidence: Seq<Seq<char>> },
}

impl View for LockChange {
    type V = LockChangeView;

    open spec fn view(&self) -> LockChangeView {
        match *self {
            LockChange::Replace(t) => LockChangeView::Replace(t@),
            LockChange::RefreshEval { cacheable, output, evidence } => LockChangeView::RefreshEval {
                cacheable,
                output: text::opt_text(output),
                evidence: text::texts(evidence@),
            },
        }
    }
}

/// The records after a change.
pub open spec fn changed(
    lock: Map<Seq<char>, ToolLockView>,
    key: Seq<char>,
    change: LockChangeView,
) -> Map<Seq<char>, ToolLockView> {
    match change {
        LockChangeView::Replace(t) => lock.insert(key, t),
        LockChangeView::RefreshEval { cacheable, output, evidence } => if lock.contains_key(key) {
            lock.insert(
                key,
                ToolLockView {
                    eval_cacheable: cacheable,
                    eval_cached_output: output,
                    eval_evidence: evidence,
                    ..lock[key]
                },
            )
        } else {
            lock
        },
    }
}

/// Applies a change to the records.
pub fn apply_change(lock: &mut Lock, key: &str, change: LockChange)
    ensures
        final(lock)@ == changed(old(lock)@, key@, change@),
{
    let ghost before = lock@;
    match change {
        LockChange::Replace(t) => {
            lock.tool.insert(key.to_owned(), t);
            assert(lock@ =~= before.insert(key@, t@));
        },
        LockChange::RefreshEval { cacheable, output, evidence } => {
            match lock.tool.remove(key) {
                Some(t) => {
                    let fresh = ToolLock {
                        eval_cacheable: cacheable,
                        eval_cached_output: output,
                        eval_evidence: evidence,
                        ..t
                    };
                    lock.tool.insert(key.to_owned(), fresh);
                    assert(lock@ =~= before.insert(key@, fresh@));
                },
                None => {
                    assert(lock@ =~= before);
                },
            }
        },
    }
}

/// A change touches the record of its own tool and no other.
pub proof fn lemma_change_is_local(
    lock: Map<Seq<char>, ToolLockView>,
    key: Seq<char>,
    change: LockChangeView,
    other: Seq<char>,
)
    requires
        other != key,
    ensures
        changed(lock, key, change).contains_key(other) <==> lock.contains_key(other),
        lock.contains_key(other) ==> changed(lock, key, change)[other] == lock[other],
{
}

/// Changes to different tools can be applied in either order: the order in
/// which results arrive does not matter.
pub proof fn lemma_changes_commute(
    lock: Map<Seq<char>, ToolLockView>,
    one: Seq<char>,
    first: LockChangeView,
    other: Seq<char>,
    second: LockChangeView,
)
    requires
        one != other,
    ensures
        changed(changed(lock, one, first), other, second) == changed(
            changed(lock, other, second),
            one,
            first,
        ),
{
    assert(changed(changed(lock, one, first), other, second) =~= changed(
        changed(lock, other, second),
        one,
        first,
    ));
}

/// A refresh leaves everything but the `eval` fields as it was, and adds no
/// record.
pub proof fn lemma_refresh_keeps_the_rest(
    lock: Map<Seq<char>, ToolLockView>,
    key: Seq<char>,
    cacheable: Option<bool>,
    output: Option<Seq<char>>,
    evidence: Seq<Seq<char>>,
)
    ensures
        ({
            let after = changed(
                lock,
                key,
                LockChangeView::RefreshEval { cacheable, output, evidence },
            );
            &&& after.dom() == lock.dom()
            &&& lock.contains_key(key) ==> {
                let was = lock[key];
                after[key] == (ToolLockView {
                    eval_cacheable: cacheable,
                    eval_cached_output: output,
                    eval_evidence: evidence,
                    ..was
                })
            }
        }),
{
    let after = changed(lock, key, LockChangeView::RefreshEval { cacheable, output, evidence });
    assert(after.dom() =~= lock.dom());
}

/// A tool to update: the key of its record, and its full name.
#[derive(Debug)]
pub struct Target {
    pub key: String,
    pub name: String,
}

pub open spec fn target_views(v: Seq<Target>) -> Seq<(Seq<char>, Seq<char>)> {
    Seq::new(v.len(), |i: int| (v[i].key@, v[i].name@))
}

/// Whether an entry is updated: one that is named, or, where none is, any but
/// an install script.
pub open spec fn wanted(e: ResolvedEntry<'static>, filter: Option<Seq<Seq<char>>>) -> bool {
    match filter {
        Some(names) => names.contains(e.key_text()),
        None => !(e is Curl),
    }
}

pub open spec fn wanted_targets(
    entries: Seq<ResolvedEntry<'static>>,
    filter: Option<Seq<Seq<char>>>,
) -> Seq<(Seq<char>, Seq<char>)>
    decreases entries.len(),
{
    if entries.len() == 0 {
        seq![]
    } else {
        let front = wanted_targets(entries.drop_last(), filter);
        let e = entries.last();
        if wanted(e, filter) {
            front.push((e.key_text(), e.name_text()))
        } else {
            front
        }
    }
}

pub open spec fn filter_view(filter: Option<&Vec<String>>) -> Option<Seq<Seq<char>>> {
    match filter {
        Some(names) => Some(text::texts(names@)),
        None => None,
    }
}

/// The tools that an update looks at. An entry is handed on by its full name:
/// two of them can share a key.
pub fn targets(config: &Config, filter: Option<&Vec<String>>) -> (r: Vec<Target>)
    ensures
        target_views(r@) == wanted_targets(config::entries(*config), filter_view(filter)),
        forall|j: int|
            #![trigger config::entries(*config)[j]]
            {
                let e = config::entries(*config)[j];
                0 <= j < config::entries(*config).len() && (match filter {
                    Some(names) => text::texts(names@).contains(e.key_text()),
                    None => !(e is Curl),
                }) ==> target_views(r@).contains((e.key_text(), e.name_text()))
            },
{
    let entries = config::all_entries(config);
    let ghost all = entries@;
    let ghost names = filter_view(filter);
    let mut out: Vec<Target> = Vec::new();
    let mut i: usize = 0;
    assert(target_views(out@) =~= seq![]);
    while i < entries.len()
        invariant
            i <= entries.len(),
            all == entries@,
            names == filter_view(filter),
            target_views(out@) == wanted_targets(all.take(i as int), names),
        decreases entries.len() - i,
    {
        let ghost before = target_views(out@);
        let entry = &entries[i];
        let key = entry.key();
        let take = match filter {
            Some(listed) => strings::is_among(listed, key.as_str()),
            None => match entry {
                ResolvedEntry::Curl(_) => false,
                _ => true,
            },
        };
        if take {
            let name = entry.name().to_owned();
            let ghost pair = (key@, name@);
            out.push(Target { key, name });
            assert(target_views(out@) =~= before.push(pair));
        }
        i += 1;
        assert(all.take(i as int).drop_last() =~= all.take(i - 1));
    }
    assert(all.take(i as int) =~= all);
    proof {
        assert forall|j: int|
            #![trigger all[j]]
            0 <= j < all.len() && (match filter {
                Some(names) => text::texts(names@).contains(all[j].key_text()),
                None => !(all[j] is Curl),
            }) implies target_views(out@).contains((all[j].key_text(), all[j].name_text())) by {
            lemma_wanted_targets(all, names, (all[j].key_text(), all[j].name_text()));
        }
    }
    out
}

/// An update of everything never runs an install script: each of its targets
/// is the key and the name of some other entry.
pub proof fn lemma_blanket_update_skips_scripts(entries: Seq<ResolvedEntry<'static>>, i: int)
    requires
        0 <= i < wanted_targets(entries, None).len(),
    ensures
        exists|j: int|
            0 <= j < entries.len() && !(#[trigger] entries[j] is Curl) && wanted_targets(
                entries,
                None,
            )[i] == (entries[j].key_text(), entries[j].name_text()),
    decreases entries.len(),
{
    let front = entries.drop_last();
    let n = wanted_targets(front, None).len();
    if i < n {
        lemma_blanket_update_skips_scripts(front, i);
        let j = choose|j: int|
            0 <= j < front.len() && !(#[trigger] front[j] is Curl) && wanted_targets(front, None)[i]
                == (front[j].key_text(), front[j].name_text());
        assert(entries[j] == front[j]);
    } else {
        assert(entries[entries.len() - 1] == entries.last());
    }
}

/// What an update does next.
#[derive(Debug)]
pub enum UpdateAction {
    /// Ask upstream for the newest version.
    Query { current: String },
    /// Install again, with the recorded manager for a node package.
    Install { current: String, manager: Option<ResolvedManager> },
    /// Find out about the `eval` command.
    Refresh,
    /// Nothing more.
    Finished(Outcome),
    Failed(Failure),
}

pub enum UpdateActionView {
    Query { current: Seq<char> },
    Install { current: Seq<char>, manager: Option<ResolvedManager> },
    Refresh,
    Finished(OutcomeView),
    Failed(Seq<Seq<char>>),
}

impl View for UpdateAction {
    type V = UpdateActionView;

    open spec fn view(&self) -> UpdateActionView {
        match *self {
            UpdateAction::Query { current } => UpdateActionView::Query { current: current@ },
            UpdateAction::Install { current, manager } => UpdateActionView::Install {
                current: current@,
                manager,
            },
            UpdateAction::Refresh => UpdateActionView::Refresh,
            UpdateAction::Finished(o) => UpdateActionView::Finished(o@),
            UpdateAction::Failed(f) => UpdateActionView::Failed(f@),
        }
    }
}

pub open spec fn not_installed(key: Seq<char>) -> Seq<Seq<char>> {
    seq![key + " is not installed; run `rig install "@ + key + "` first"@]
}

fn not_installed_failure(key: &str) -> (r: Failure)
    ensures
        r@ == not_installed(key@),
{
    Failure::new(strings::cat4(key, " is not installed; run `rig install ", key, "` first"))
}

/// The recorded version of a tool.
pub fn already_installed(lock: &Lock, key: &str) -> (r: Result<String, Failure>)
    ensures
        match r {
            Ok(v) => lock@.contains_key(key@) && v@ == lock@[key@].version,
            Err(f) => !lock@.contains_key(key@) && f@ == not_installed(key@),
        },
{
    match lock.tool.get(key) {
        Some(t) => Ok(t.version.as_str().to_owned()),
        None => Err(not_installed_failure(key)),
    }
}

/// Whether an entry has an `eval` command.
pub open spec fn has_eval(e: ResolvedEntry<'static>) -> bool {
    match e.shared() {
        Some(c) => c.eval is Some,
        None => false,
    }
}

/// How looking at the `eval` command again begins.
pub open spec fn refresh_start(
    e: ResolvedEntry<'static>,
    key: Seq<char>,
    lock: Map<Seq<char>, ToolLockView>,
) -> UpdateActionView {
    if !lock.contains_key(key) {
        UpdateActionView::Failed(not_installed(key))
    } else if !has_eval(e) {
        UpdateActionView::Finished(OutcomeView::NoEval)
    } else {
        UpdateActionView::Refresh
    }
}

/// Begins to look at the `eval` command again.
pub fn refresh_eval_cache<'a>(entry: &ResolvedEntry<'a>, key: &str, lock: &Lock) -> (r: UpdateAction)
    ensures
        r@ == refresh_start(*entry, key@, lock@),
{
    if !lock.tool.contains_key(key) {
        return UpdateAction::Failed(not_installed_failure(key));
    }
    match entry.common() {
        Some(c) => {
            if c.eval.is_some() {
                UpdateAction::Refresh
            } else {
                UpdateAction::Finished(Outcome::NoEval)
            }
        },
        None => UpdateAction::Finished(Outcome::NoEval),
    }
}

/// How an update begins. What can be asked for cheaply is asked for first;
/// packages, scripts and plugins are installed or pulled right away.
pub open spec fn update_start(
    e: ResolvedEntry<'static>,
    key: Seq<char>,
    lock: Map<Seq<char>, ToolLockView>,
    cloned: bool,
) -> UpdateActionView {
    if !lock.contains_key(key) {
        if e is Plugin && cloned {
            UpdateActionView::Failed(
                seq![
                    key + " is cloned but not yet tracked in rig.lock; run `rig sync` first"@,
                ],
            )
        } else {
            UpdateActionView::Failed(not_installed(key))
        }
    } else {
        let current = lock[key].version;
        match e {
            ResolvedEntry::Repo(_) => UpdateActionView::Query { current },
            ResolvedEntry::Git(_) => UpdateActionView::Query { current },
            ResolvedEntry::Cargo(_) => UpdateActionView::Query { current },
            ResolvedEntry::Node(_) => match lock[key].manager {
                None => UpdateActionView::Failed(
                    seq![key + "'s rig.lock entry has no recorded manager"@],
                ),
                Some(m) => if m == ResolvedManager::Bun.recorded() || m
                    == ResolvedManager::Npm.recorded() {
                    UpdateActionView::Query { current }
                } else {
                    UpdateActionView::Failed(
                        seq!["unknown node package manager recorded in rig.lock: "@ + m],
                    )
                },
            },
            _ => UpdateActionView::Install { current, manager: None },
        }
    }
}

/// Begins an update. `cloned` tells whether a plugin's clone is there.
pub fn update_one<'a>(
    entry: &ResolvedEntry<'a>,
    key: &str,
    lock: &Lock,
    cloned: bool,
    refresh_eval: bool,
) -> (r: UpdateAction)
    ensures
        r@ == if refresh_eval {
            refresh_start(*entry, key@, lock@)
        } else {
            update_start(*entry, key@, lock@, cloned)
        },
{
    if refresh_eval {
        return refresh_eval_cache(entry, key, lock);
    }
    let tool = match lock.tool.get(key) {
        Some(tool) => tool,
        None => {
            if cloned {
                if let ResolvedEntry::Plugin(_) = entry {
                    return UpdateAction::Failed(
                        Failure::new(
                            strings::cat2(
                                key,
                                " is cloned but not yet tracked in rig.lock; run `rig sync` first",
                            ),
                        ),
                    );
                }
            }
            return UpdateAction::Failed(not_installed_failure(key));
        },
    };
    let current = tool.version.as_str().to_owned();
    match entry {
        ResolvedEntry::Repo(_) => UpdateAction::Query { current },
        ResolvedEntry::Git(_) => UpdateAction::Query { current },
        ResolvedEntry::Cargo(_) => UpdateAction::Query { current },
        ResolvedEntry::Node(_) => match &tool.manager {
            None => UpdateAction::Failed(
                Failure::new(strings::cat2(key, "'s rig.lock entry has no recorded manager")),
            ),
            Some(m) => match ResolvedManager::parse(m.as_str()) {
                Ok(_) => UpdateAction::Query { current },
                Err(f) => UpdateAction::Failed(f),
            },
        },
        _ => UpdateAction::Install { current, manager: None },
    }
}

/// The manager that a record names.
pub open spec fn recorded_manager(
    lock: Map<Seq<char>, ToolLockView>,
    key: Seq<char>,
) -> Option<ResolvedManager> {
    if !lock.contains_key(key) {
        None
    } else if lock[key].manager == Some(ResolvedManager::Bun.recorded()) {
        Some(ResolvedManager::Bun)
    } else if lock[key].manager == Some(ResolvedManager::Npm.recorded()) {
        Some(ResolvedManager::Npm)
    } else {
        None
    }
}

/// What an answer from upstream means: the recorded version is compared with
/// the newest one, letter by letter.
pub open spec fn after_query(
    current: Seq<char>,
    latest: Seq<char>,
    force: bool,
    manager: Option<ResolvedManager>,
) -> UpdateActionView {
    if !force && latest == current {
        UpdateActionView::Finished(OutcomeView::UpToDate { version: current })
    } else {
        UpdateActionView::Install { current, manager }
    }
}

/// Decides what follows an answer from upstream. A node package stays with
/// the manager that its record names.
pub fn update_checked(lock: &Lock, key: &str, current: String, latest: &str, force: bool) -> (r:
    UpdateAction)
    ensures
        r@ == after_query(current@, latest@, force, recorded_manager(lock@, key@)),
{
    if !force && strings::same(latest, current.as_str()) {
        return UpdateAction::Finished(Outcome::UpToDate { version: current });
    }
    let manager = match lock.tool.get(key) {
        Some(tool) => match &tool.manager {
            Some(m) => match ResolvedManager::parse(m.as_str()) {
                Ok(m) => Some(m),
                Err(_) => None,
            },
            None => None,
        },
        None => None,
    };
    proof {
        if lock@.contains_key(key@) && lock@[key@].manager is Some {
            crate::sources::node::lemma_recorded_manager(ResolvedManager::Bun, ResolvedManager::Bun);
            if ResolvedManager::Bun.recorded() == ResolvedManager::Npm.recorded() {
                crate::sources::node::lemma_recorded_manager(
                    ResolvedManager::Bun,
                    ResolvedManager::Npm,
                );
            }
        }
    }
    UpdateAction::Install { current, manager }
}

/// What came of an update, and the change to the records that it asks for.
#[derive(Debug)]
pub struct Update {
    pub outcome: Outcome,
    pub change: Option<LockChange>,
}

pub struct UpdateView {
    pub outcome: OutcomeView,
    pub change: Option<LockChangeView>,
}

impl View for Update {
    type V = UpdateView;

    open spec fn view(&self) -> UpdateView {
        UpdateView {
            outcome: self.outcome@,
            change: match self.change {
                Some(c) => Some(c@),
                None => None,
            },
        }
    }
}

/// What a finished install means. A package or a plugin that turns out to be
/// at the recorded version was up to date, unless a plugin was forced.
pub open spec fn after_install(
    e: ResolvedEntry<'static>,
    current: Seq<char>,
    fresh: ToolLockView,
    force: bool,
) -> UpdateView {
    let up_to_date = UpdateView {
        outcome: OutcomeView::UpToDate { version: current },
        change: None,
    };
    let updated = UpdateView {
        outcome: OutcomeView::Updated { from: current, to: fresh.version },
        change: Some(LockChangeView::Replace(fresh)),
    };
    match e {
        ResolvedEntry::Curl(_) => UpdateView {
            outcome: OutcomeView::Reran,
            change: Some(LockChangeView::Replace(fresh)),
        },
        ResolvedEntry::Apt(_) => if fresh.version == current {
            up_to_date
        } else {
            updated
        },
        ResolvedEntry::Plugin(_) => if !force && fresh.version == current {
            up_to_date
        } else {
            updated
        },
        _ => updated,
    }
}

/// Decides what a finished install means.
pub fn update_installed<'a>(
    entry: &ResolvedEntry<'a>,
    current: String,
    fresh: ToolLock,
    force: bool,
) -> (r: Update)
    ensures
        r@ == after_install(*entry, current@, fresh@, force),
{
    let same = strings::same(fresh.version.as_str(), current.as_str());
    let keep = match entry {
        ResolvedEntry::Curl(_) => {
            return Update {
                outcome: Outcome::Reran,
                change: Some(LockChange::Replace(fresh)),
            };
        },
        ResolvedEntry::Apt(_) => same,
        ResolvedEntry::Plugin(_) => same && !force,
        _ => false,
    };
    if keep {
        return Update { outcome: Outcome::UpToDate { version: current }, change: None };
    }
    let to = fresh.version.as_str().to_owned();
    Update {
        outcome: Outcome::Updated { from: current, to },
        change: Some(LockChange::Replace(fresh)),
    }
}

/// What is known anew of an `eval` command.
pub fn update_refreshed(eval: EvalState) -> (r: Update)
    ensures
        r@ == (UpdateView {
            outcome: OutcomeView::EvalRefreshed { cacheable: eval@.cacheable },
            change: Some(
                LockChangeView::RefreshEval {
                    cacheable: eval@.cacheable,
                    output: eval@.output,
                    evidence: eval@.evidence,
                },
            ),
        }),
{
    Update {
        outcome: Outcome::EvalRefreshed { cacheable: eval.cacheable },
        change: Some(
            LockChange::RefreshEval {
                cacheable: eval.cacheable,
                output: eval.output,
                evidence: eval.evidence,
            },
        ),
    }
}

/// Whether an outcome says that something changed.
pub open spec fn mutates(o: OutcomeView) -> bool {
    o is Updated || o is Reran || o is EvalRefreshed
}

/// An install asks for a change to the records exactly if its outcome says
/// that something changed.
pub proof fn lemma_change_iff_mutating(
    e: ResolvedEntry<'static>,
    current: Seq<char>,
    fresh: ToolLockView,
    force: bool,
)
    ensures
        after_install(e, current, fresh, force).change is Some <==> mutates(
            after_install(e, current, fresh, force).outcome,
        ),
{
}

pub open spec fn update_result(r: Result<Update, Failure>) -> Result<
    UpdateView,
    Seq<Seq<char>>,
> {
    match r {
        Ok(u) => Ok(u@),
        Err(f) => Err(f@),
    }
}

pub open spec fn outcome_result(r: Result<Outcome, Failure>) -> Result<
    OutcomeView,
    Seq<Seq<char>>,
> {
    match r {
        Ok(o) => Ok(o@),
        Err(f) => Err(f@),
    }
}

/// The records after a result has come in.
pub open spec fn merged(
    lock: Map<Seq<char>, ToolLockView>,
    tool: Seq<char>,
    result: Result<UpdateView, Seq<Seq<char>>>,
) -> Map<Seq<char>, ToolLockView> {
    match result {
        Ok(u) => match u.change {
            Some(c) => changed(lock, tool, c),
            None => lock,
        },
        Err(_) => lock,
    }
}

/// A result that has been taken into the records.
#[derive(Debug)]
pub struct Merged {
    pub outcome: Result<Outcome, Failure>,
    /// Whether the records have to be saved before the next result.
    pub must_save: bool,
}

/// Takes a result into the records.
pub fn merge_result(lock: &mut Lock, tool: &str, result: Result<Update, Failure>) -> (r: Merged)
    ensures
        final(lock)@ == merged(old(lock)@, tool@, update_result(result)),
        r.must_save == (result is Ok && result->Ok_0.change is Some),
        outcome_result(r.outcome) == match update_result(result) {
            Ok(u) => Ok::<OutcomeView, Seq<Seq<char>>>(u.outcome),
            Err(f) => Err(f),
        },
{
    match result {
        Ok(u) => match u.change {
            Some(change) => {
                apply_change(lock, tool, change);
                Merged { outcome: Ok(u.outcome), must_save: true }
            },
            None => Merged { outcome: Ok(u.outcome), must_save: false },
        },
        Err(f) => Merged { outcome: Err(f), must_save: false },
    }
}

/// What is reported of a tool: what came of its update, unless the records
/// could not be saved.
pub fn report(tool: String, outcome: Result<Outcome, Failure>, saved: Result<(), Failure>) -> (r:
    Report)
    ensures
        r.tool@ == tool@,
        outcome_result(r.outcome) == match (outcome_result(outcome), saved) {
            (Ok(_), Err(f)) => Err::<OutcomeView, Seq<Seq<char>>>(f@),
            (o, _) => o,
        },
{
    match outcome {
        Ok(o) => match saved {
            Ok(_) => Report { tool, outcome: Ok(o) },
            Err(f) => Report { tool, outcome: Err(f) },
        },
        Err(f) => Report { tool, outcome: Err(f) },
    }
}

/// The record that an update puts in place, if it puts one in place.
pub fn check_and_update(result: Result<Update, Failure>) -> (r: Result<Option<ToolLock>, Failure>)
    ensures
        match update_result(result) {
            Ok(u) => r is Ok && match u.change {
                Some(LockChangeView::Replace(t)) => r->Ok_0 is Some && r->Ok_0->0@ == t,
                _ => r->Ok_0 is None,
            },
            Err(chain) => r is Err && r->Err_0@ == chain,
        },
{
    match result {
        Ok(u) => match u.change {
            Some(LockChange::Replace(t)) => Ok(Some(t)),
            _ => Ok(None),
        },
        Err(f) => Err(f),
    }
}

/// A target is the key and the full name of an entry that is asked for: one
/// that is no install script where nothing is named, one whose key is named
/// otherwise. Each such entry gives a target, whatever its source type is.
pub proof fn lemma_wanted_targets(
    entries: Seq<ResolvedEntry<'static>>,
    filter: Option<Seq<Seq<char>>>,
    target: (Seq<char>, Seq<char>),
)
    ensures
        wanted_targets(entries, filter).contains(target) <==> exists|j: int|
            {
                &&& 0 <= j < entries.len()
                &&& match filter {
                    Some(names) => names.contains(entries[j].key_text()),
                    None => !(entries[j] is Curl),
                }
                &&& target == ((#[trigger] entries[j]).key_text(), entries[j].name_text())
            },
    decreases entries.len(),
{
    if entries.len() > 0 {
        let front = entries.drop_last();
        let e = entries.last();
        let last = entries.len() - 1;
        lemma_wanted_targets(front, filter, target);
        let before = wanted_targets(front, filter);
        let all = wanted_targets(entries, filter);
        text::lemma_push_contains(before, (e.key_text(), e.name_text()), target);
        if all.contains(target) {
            if before.contains(target) {
                let j = choose|j: int|
                    {
                        &&& 0 <= j < front.len()
                        &&& match filter {
                            Some(names) => names.contains(front[j].key_text()),
                            None => !(front[j] is Curl),
                        }
                        &&& target == ((#[trigger] front[j]).key_text(), front[j].name_text())
                    };
                assert(entries[j] == front[j]);
            } else {
                assert(entries[last] == e);
            }
        }
        if exists|j: int|
            {
                &&& 0 <= j < entries.len()
                &&& match filter {
                    Some(names) => names.contains(entries[j].key_text()),
                    None => !(entries[j] is Curl),
                }
                &&& target == ((#[trigger] entries[j]).key_text(), entries[j].name_text())
            } {
            let j = choose|j: int|
                {
                    &&& 0 <= j < entries.len()
                    &&& match filter {
                        Some(names) => names.contains(entries[j].key_text()),
                        None => !(entries[j] is Curl),
                    }
                    &&& target == ((#[trigger] entries[j]).key_text(), entries[j].name_text())
                };
            if j < last {
                assert(front[j] == entries[j]);
            }
        }
    }
}

/// An update of everything leaves no tool out: the targets hold every release
/// binary, source build, crate, node package, system package and plugin of the
/// configuration.
pub proof fn lemma_blanket_update_is_complete(config: Config)
    ensures
        forall|i: int|
            #![trigger config.repo@[i]]
            0 <= i < config.repo@.len() ==> wanted_targets(config::entries(config), None).contains(
                (config::short_name(config.repo@[i].name@), config.repo@[i].name@),
            ),
        forall|i: int|
            #![trigger config.git@[i]]
            0 <= i < config.git@.len() ==> wanted_targets(config::entries(config), None).contains(
                (config::short_name(config.git@[i].name@), config.git@[i].name@),
            ),
        forall|i: int|
            #![trigger config.cargo@[i]]
            0 <= i < config.cargo@.len() ==> wanted_targets(config::entries(config), None).contains(
                (config::short_name(config.cargo@[i].name@), config.cargo@[i].name@),
            ),
        forall|i: int|
            #![trigger config.node@[i]]
            0 <= i < config.node@.len() ==> wanted_targets(config::entries(config), None).contains(
                (config.node@[i].name@, config.node@[i].name@),
            ),
        forall|i: int|
            #![trigger config.apt@[i]]
            0 <= i < config.apt@.len() ==> wanted_targets(config::entries(config), None).contains(
                (config::short_name(config.apt@[i].name@), config.apt@[i].name@),
            ),
        forall|i: int|
            #![trigger config.plugin@[i]]
            0 <= i < config.plugin@.len() ==> wanted_targets(config::entries(config), None).contains(
                (config::short_name(config.plugin@[i].name@), config.plugin@[i].name@),
            ),
{
    let all = config::entries(config);
    config::lemma_every_entry_is_listed(config);
    assert forall|i: int|
        #![trigger config.repo@[i]]
        0 <= i < config.repo@.len() implies wanted_targets(all, None).contains(
        (config::short_name(config.repo@[i].name@), config.repo@[i].name@),
    ) by {
        let e = ResolvedEntry::Repo(&config.repo@[i]);
        assert(all.contains(e));
        let j = choose|j: int| 0 <= j < all.len() && all[j] == e;
        lemma_wanted_targets(all, None, (all[j].key_text(), all[j].name_text()));
    }
    assert forall|i: int|
        #![trigger config.git@[i]]
        0 <= i < config.git@.len() implies wanted_targets(all, None).contains(
        (config::short_name(config.git@[i].name@), config.git@[i].name@),
    ) by {
        let e = ResolvedEntry::Git(&config.git@[i]);
        assert(all.contains(e));
        let j = choose|j: int| 0 <= j < all.len() && all[j] == e;
        lemma_wanted_targets(all, None, (all[j].key_text(), all[j].name_text()));
    }
    assert forall|i: int|
        #![trigger config.cargo@[i]]
        0 <= i < config.cargo@.len() implies wanted_targets(all, None).contains(
        (config::short_name(config.cargo@[i].name@), config.cargo@[i].name@),
    ) by {
        let e = ResolvedEntry::Cargo(&config.cargo@[i]);
        assert(all.contains(e));
        let j = choose|j: int| 0 <= j < all.len() && all[j] == e;
        lemma_wanted_targets(all, None, (all[j].key_text(), all[j].name_text()));
    }
    assert forall|i: int|
        #![trigger config.node@[i]]
        0 <= i < config.node@.len() implies wanted_targets(all, None).contains(
        (config.node@[i].name@, config.node@[i].name@),
    ) by {
        let e = ResolvedEntry::Node(&config.node@[i]);
        assert(all.contains(e));
        let j = choose|j: int| 0 <= j < all.len() && all[j] == e;
        lemma_wanted_targets(all, None, (all[j].key_text(), all[j].name_text()));
    }
    assert forall|i: int|
        #![trigger config.apt@[i]]
        0 <= i < config.apt@.len() implies wanted_targets(all, None).contains(
        (config::short_name(config.apt@[i].name@), config.apt@[i].name@),
    ) by {
        let e = ResolvedEntry::Apt(&config.apt@[i]);
        assert(all.contains(e));
        let j = choose|j: int| 0 <= j < all.len() && all[j] == e;
        lemma_wanted_targets(all, None, (all[j].key_text(), all[j].name_text()));
    }
    assert forall|i: int|
        #![trigger config.plugin@[i]]
        0 <= i < config.plugin@.len() implies wanted_targets(all, None).contains(
        (config::short_name(config.plugin@[i].name@), config.plugin@[i].name@),
    ) by {
        let e = ResolvedEntry::Plugin(&config.plugin@[i]);
        assert(all.contains(e));
        let j = choose|j: int| 0 <= j < all.len() && all[j] == e;
        lemma_wanted_targets(all, None, (all[j].key_text(), all[j].name_text()));
    }
}

/// An update looks at the tools that are named, an install script too, and at
/// no others.
pub proof fn lemma_named_update_is_exact(
    config: Config,
    names: Seq<Seq<char>>,
    e: ResolvedEntry<'static>,
)
    requires
        config::entries(config).contains(e),
    ensures
        names.contains(e.key_text()) ==> wanted_targets(
            config::entries(config),
            Some(names),
        ).contains((e.key_text(), e.name_text())),
        forall|t: (Seq<char>, Seq<char>)| #[trigger]
            wanted_targets(config::entries(config), Some(names)).contains(t) ==> names.contains(t.0),
{
    let all = config::entries(config);
    let j = choose|j: int| 0 <= j < all.len() && all[j] == e;
    lemma_wanted_targets(all, Some(names), (all[j].key_text(), all[j].name_text()));
    assert forall|t: (Seq<char>, Seq<char>)| #[trigger]
        wanted_targets(all, Some(names)).contains(t) implies names.contains(t.0) by {
        lemma_wanted_targets(all, Some(names), t);
    }
}

/// How an update of a recorded tool begins: upstream is asked where a release,
/// a repository, a registry of crates or of node packages can answer; anything
/// else is installed right away. A node package needs a recorded manager that
/// is known.
pub proof fn lemma_update_start(
    e: ResolvedEntry<'static>,
    key: Seq<char>,
    lock: Map<Seq<char>, ToolLockView>,
    cloned: bool,
)
    ensures
        ({
            let start = update_start(e, key, lock, cloned);
            let known = lock[key].manager == Some("bun"@) || lock[key].manager == Some("npm"@);
            &&& !lock.contains_key(key) ==> start is Failed
            &&& lock.contains_key(key) && (e is Repo || e is Git || e is Cargo || (e is Node
                && known)) ==> start == (UpdateActionView::Query { current: lock[key].version })
            &&& lock.contains_key(key) && e is Node && !known ==> start is Failed
            &&& lock.contains_key(key) && (e is Apt || e is Curl || e is Plugin) ==> start == (
            UpdateActionView::Install { current: lock[key].version, manager: None })
        }),
{
}

/// A failed start names the tool, and what to run first.
pub proof fn lemma_unknown_tool_is_told(
    e: ResolvedEntry<'static>,
    key: Seq<char>,
    lock: Map<Seq<char>, ToolLockView>,
    cloned: bool,
)
    requires
        !lock.contains_key(key),
    ensures
        refresh_start(e, key, lock) == UpdateActionView::Failed(
            seq![key + " is not installed; run `rig install "@ + key + "` first"@],
        ),
        !(e is Plugin && cloned) ==> update_start(e, key, lock, cloned) == refresh_start(
            e,
            key,
            lock,
        ),
        e is Plugin && cloned ==> update_start(e, key, lock, cloned) == UpdateActionView::Failed(
            seq![key + " is cloned but not yet tracked in rig.lock; run `rig sync` first"@],
        ),
{
}

/// The `eval` command of a recorded tool is looked at again exactly if its
/// entry has one.
pub proof fn lemma_refresh_start(
    e: ResolvedEntry<'static>,
    key: Seq<char>,
    lock: Map<Seq<char>, ToolLockView>,
)
    requires
        lock.contains_key(key),
    ensures
        refresh_start(e, key, lock) is Refresh <==> e.shared() is Some && e.shared()->0.eval is Some,
        !(refresh_start(e, key, lock) is Refresh) ==> refresh_start(e, key, lock)
            == UpdateActionView::Finished(OutcomeView::NoEval),
{
}

/// An answer from upstream ends an update exactly if it is the recorded version
/// and nothing is forced; otherwise the tool is installed, a node package with
/// the manager that its record names.
pub proof fn lemma_newer_is_installed(
    lock: Map<Seq<char>, ToolLockView>,
    key: Seq<char>,
    current: Seq<char>,
    latest: Seq<char>,
    force: bool,
)
    ensures
        ({
            let next = after_query(current, latest, force, recorded_manager(lock, key));
            &&& next is Finished <==> latest == current && !force
            &&& next is Finished ==> next == UpdateActionView::Finished(
                OutcomeView::UpToDate { version: current },
            )
            &&& next is Install <==> latest != current || force
            &&& next is Install ==> next->Install_current == current
            &&& next is Install && lock.contains_key(key) && lock[key].manager == Some("bun"@)
                ==> next->Install_manager == Some(ResolvedManager::Bun)
            &&& next is Install && lock.contains_key(key) && lock[key].manager == Some("npm"@)
                ==> next->Install_manager == Some(ResolvedManager::Npm)
            &&& next is Install && lock.contains_key(key) && lock[key].manager is None
                ==> next->Install_manager is None
        }),
{
    reveal_strlit("bun");
    reveal_strlit("npm");
    assert("bun"@[0] != "npm"@[0]);
}

/// A finished install puts its record in place, and says from which version to
/// which, unless the tool was up to date: that is said exactly of a system
/// package at the recorded version and of a plugin there that was not forced.
/// An install script has no version, and is said to have run.
pub proof fn lemma_finished_install(
    e: ResolvedEntry<'static>,
    current: Seq<char>,
    fresh: ToolLockView,
    force: bool,
)
    ensures
        ({
            let done = after_install(e, current, fresh, force);
            let idle = fresh.version == current && (e is Apt || (e is Plugin && !force));
            &&& idle ==> done.change is None && done.outcome == (OutcomeView::UpToDate {
                version: current,
            })
            &&& !idle ==> done.change == Some(LockChangeView::Replace(fresh))
            &&& !idle && e is Curl ==> done.outcome is Reran
            &&& !idle && !(e is Curl) ==> done.outcome == (OutcomeView::Updated {
                from: current,
                to: fresh.version,
            })
        }),
{
}

/// A failed update leaves the records as they are; a finished one leaves behind
/// exactly the record that was installed, and every other record untouched.
pub proof fn lemma_result_in_the_records(
    lock: Map<Seq<char>, ToolLockView>,
    tool: Seq<char>,
    e: ResolvedEntry<'static>,
    current: Seq<char>,
    fresh: ToolLockView,
    force: bool,
    failed: Seq<Seq<char>>,
    other: Seq<char>,
)
    ensures
        merged(lock, tool, Err(failed)) == lock,
        ({
            let done = after_install(e, current, fresh, force);
            let after = merged(lock, tool, Ok(done));
            &&& mutates(done.outcome) ==> after.contains_key(tool) && after[tool] == fresh
            &&& !mutates(done.outcome) ==> after == lock
            &&& other != tool ==> (after.contains_key(other) <==> lock.contains_key(other))
            &&& other != tool && lock.contains_key(other) ==> after[other] == lock[other]
        }),
{
}

/// A change that a result asks for comes into the records whole: a record that
/// is put in place is the one that was installed, and what was found out about
/// an `eval` command is what the record says from then on.
pub proof fn lemma_change_comes_in_whole(
    lock: Map<Seq<char>, ToolLockView>,
    tool: Seq<char>,
    outcome: OutcomeView,
    fresh: ToolLockView,
    cacheable: Option<bool>,
    output: Option<Seq<char>>,
    evidence: Seq<Seq<char>>,
)
    ensures
        merged(
            lock,
            tool,
            Ok(UpdateView { outcome, change: Some(LockChangeView::Replace(fresh)) }),
        ).contains_pair(tool, fresh),
        merged(lock, tool, Ok(UpdateView { outcome, change: None })) == lock,
        lock.contains_key(tool) ==> {
            let after = merged(
                lock,
                tool,
                Ok(
                    UpdateView {
                        outcome,
                        change: Some(LockChangeView::RefreshEval { cacheable, output, evidence }),
                    },
                ),
            );
            &&& after.contains_key(tool)
            &&& after[tool].eval_cacheable == cacheable
            &&& after[tool].eval_cached_output == output
            &&& after[tool].eval_evidence == evidence
            &&& after[tool].version == lock[tool].version
            &&& after[tool].bins == lock[tool].bins
            &&& after[tool].pkg == lock[tool].pkg
        },
{
}

} // verus!
