//! The commands: what they decide, and what they say. Reading arguments,
//! printing and everything outside is left to the program.

use vstd::prelude::*;

use vstd::utf8::encode_utf8;

use crate::config;
use crate::config::{Config, ResolvedEntry};
use crate::doctor;
use crate::doctor::{Finding, Severity};
use crate::failure;
use crate::failure::Failure;
use crate::lock::{Lock, LockVerdict, ToolLock, ToolLockView};
use crate::paths;
use crate::paths::Layout;
use crate::strings;
use crate::table::NameSet;
use crate::text;
use crate::update::{Outcome, OutcomeView, Report};
use crate::version;
use crate::version::UNVERSIONED;

verus! {

/// A command as the help text shows it.
#[derive(Debug)]
pub struct CommandRow {
    pub name: String,
    pub aliases: Vec<String>,
    pub about: String,
}

/// The names of a command, the main one first.
pub open spec fn row_name(row: CommandRow) -> Seq<char> {
    row.name@ + text::concat(
        Seq::new(row.aliases@.len(), |i: int| ", "@ + text::texts(row.aliases@)[i]),
    )
}

fn name_cell(row: &CommandRow) -> (r: String)
    ensures
        r@ == row_name(*row),
{
    let ghost pieces = Seq::new(
        row.aliases@.len(),
        |i: int| ", "@ + text::texts(row.aliases@)[i],
    );
    let mut tail = String::new();
    let mut i: usize = 0;
    while i < row.aliases.len()
        invariant
            i <= row.aliases.len(),
            pieces == Seq::new(
                row.aliases@.len(),
                |i: int| ", "@ + text::texts(row.aliases@)[i],
            ),
            tail@ == text::concat(pieces.take(i as int)),
        decreases row.aliases.len() - i,
    {
        tail.append(strings::cat2(", ", row.aliases[i].as_str()).as_str());
        proof {
            text::lemma_concat_take(pieces, i as int);
        }
        i += 1;
    }
    assert(pieces.take(i as int) =~= pieces);
    strings::cat2(row.name.as_str(), tail.as_str())
}

/// A row of the help text: names and description.
pub open spec fn cells(rows: Seq<CommandRow>) -> Seq<(Seq<char>, Seq<char>)> {
    let listed = Seq::new(rows.len(), |i: int| (row_name(rows[i]), rows[i].about@));
    if exists|i: int| 0 <= i < listed.len() && (#[trigger] listed[i]).0 == "help"@ {
        listed
    } else {
        listed.push(("help"@, "Print this message or the help of the given subcommand(s)"@))
    }
}

/// How many bytes a name takes.
pub open spec fn byte_len(s: Seq<char>) -> usize {
    encode_utf8(s).len() as usize
}

/// The widest name.
pub open spec fn width_of(cells: Seq<(Seq<char>, Seq<char>)>) -> usize
    decreases cells.len(),
{
    if cells.len() == 0 {
        0
    } else {
        let w = width_of(cells.drop_last());
        if byte_len(cells.last().0) > w {
            byte_len(cells.last().0)
        } else {
            w
        }
    }
}

/// A text with spaces behind it, up to a number of characters.
pub open spec fn padded(s: Seq<char>, width: usize) -> Seq<char> {
    if s.len() < width {
        s + Seq::new((width - s.len()) as nat, |i: int| ' ')
    } else {
        s
    }
}

fn pad(s: &str, width: usize) -> (r: String)
    ensures
        r@ == padded(s@, width),
{
    let mut out = s.to_owned();
    let mut n: usize = s.unicode_len();
    let ghost start = n;
    assert(s@ + Seq::new(0, |i: int| ' ') =~= s@);
    while n < width
        invariant
            start <= n,
            start == s@.len(),
            n <= width || n == start,
            out@ == s@ + Seq::new((n - start) as nat, |i: int| ' '),
        decreases width - n,
    {
        out.push(' ');
        n += 1;
        assert(Seq::new((n - start) as nat, |i: int| ' ') =~= Seq::new(
            (n - 1 - start) as nat,
            |i: int| ' ',
        ).push(' '));
    }
    out
}

pub open spec fn row_text(cell: (Seq<char>, Seq<char>), width: usize) -> Seq<char> {
    "  "@ + padded(cell.0, width) + "  "@ + cell.1
}

pub open spec fn row_texts(cells: Seq<(Seq<char>, Seq<char>)>) -> Seq<Seq<char>> {
    Seq::new(cells.len(), |i: int| row_text(cells[i], width_of(cells)))
}

fn help_cells(rows: &Vec<CommandRow>) -> (r: Vec<(String, String)>)
    ensures
        text::pairs(r@) == cells(rows@),
{
    let ghost listed = Seq::new(rows@.len(), |i: int| (row_name(rows@[i]), rows@[i].about@));
    let mut out: Vec<(String, String)> = Vec::new();
    let mut helped = false;
    let mut i: usize = 0;
    assert(text::pairs(out@) =~= listed.take(0));
    while i < rows.len()
        invariant
            i <= rows.len(),
            listed == Seq::new(rows@.len(), |i: int| (row_name(rows@[i]), rows@[i].about@)),
            text::pairs(out@) == listed.take(i as int),
            helped == exists|j: int| 0 <= j < i && (#[trigger] listed[j]).0 == "help"@,
        decreases rows.len() - i,
    {
        let ghost before = out@;
        let name = name_cell(&rows[i]);
        if strings::same(name.as_str(), "help") {
            helped = true;
            assert(listed[i as int].0 == "help"@);
        }
        out.push((name, rows[i].about.as_str().to_owned()));
        assert(text::pairs(out@) =~= text::pairs(before).push(listed[i as int]));
        i += 1;
        assert(listed.take(i as int) =~= listed.take(i - 1).push(listed[i - 1]));
    }
    assert(listed.take(i as int) =~= listed);
    if !helped {
        let ghost before = out@;
        out.push(
            (
                "help".to_owned(),
                "Print this message or the help of the given subcommand(s)".to_owned(),
            ),
        );
        assert(text::pairs(out@) =~= text::pairs(before).push(
            ("help"@, "Print this message or the help of the given subcommand(s)"@),
        ));
    }
    out
}

/// The block of commands in the help text: one row for each, the names in a
/// column of their own, and `help` last.
pub fn render_commands(rows: &Vec<CommandRow>) -> (r: String)
    ensures
        r@ == text::join(row_texts(cells(rows@)), "\n"@),
{
    let table = help_cells(rows);
    let ghost all = cells(rows@);
    let mut width: usize = 0;
    let mut i: usize = 0;
    while i < table.len()
        invariant
            i <= table.len(),
            all == text::pairs(table@),
            width == width_of(all.take(i as int)),
        decreases table.len() - i,
    {
        let n = table[i].0.as_str().len();
        assert(all[i as int].0 == table@[i as int].0@);
        if n > width {
            width = n;
        }
        i += 1;
        assert(all.take(i as int).drop_last() =~= all.take(i - 1));
    }
    assert(all.take(i as int) =~= all);
    let ghost wanted = row_texts(all);
    let mut lines: Vec<String> = Vec::new();
    let mut i: usize = 0;
    assert(text::texts(lines@) =~= wanted.take(0));
    while i < table.len()
        invariant
            i <= table.len(),
            all == text::pairs(table@),
            width == width_of(all),
            wanted == row_texts(all),
            text::texts(lines@) == wanted.take(i as int),
        decreases table.len() - i,
    {
        let ghost before = lines@;
        let cell = pad(table[i].0.as_str(), width);
        assert(all[i as int] == (table@[i as int].0@, table@[i as int].1@));
        lines.push(strings::cat4("  ", cell.as_str(), "  ", table[i].1.as_str()));
        assert(text::texts(lines@) =~= text::texts(before).push(wanted[i as int]));
        i += 1;
        assert(wanted.take(i as int) =~= wanted.take(i - 1).push(wanted[i - 1]));
    }
    assert(wanted.take(i as int) =~= wanted);
    strings::join(&lines, "\n")
}

/// The escape sequences for a terminal, or none.
#[derive(Debug)]
pub struct Colors {
    pub bold_red: &'static str,
    pub bold_green: &'static str,
    pub dim: &'static str,
    pub reset: &'static str,
}

pub open spec fn red(color: bool) -> Seq<char> {
    if color {
        "\x1b[1;31m"@
    } else {
        ""@
    }
}

pub open spec fn green(color: bool) -> Seq<char> {
    if color {
        "\x1b[1;32m"@
    } else {
        ""@
    }
}

pub open spec fn dimmed(color: bool) -> Seq<char> {
    if color {
        "\x1b[2m"@
    } else {
        ""@
    }
}

pub open spec fn plain_again(color: bool) -> Seq<char> {
    if color {
        "\x1b[0m"@
    } else {
        ""@
    }
}

fn colors(color: bool) -> (r: Colors)
    ensures
        r.bold_red@ == red(color),
        r.bold_green@ == green(color),
        r.dim@ == dimmed(color),
        r.reset@ == plain_again(color),
{
    if color {
        Colors {
            bold_red: "\x1b[1;31m",
            bold_green: "\x1b[1;32m",
            dim: "\x1b[2m",
            reset: "\x1b[0m",
        }
    } else {
        Colors { bold_red: "", bold_green: "", dim: "", reset: "" }
    }
}

/// A line of what lies behind an error. A suggested change to the
/// configuration stands out.
pub open spec fn cause_line(line: Seq<char>, color: bool) -> Seq<char> {
    if "- "@.is_prefix_of(line) {
        red(color) + "  - "@ + line.skip("- "@.len() as int) + plain_again(color)
    } else if "+ "@.is_prefix_of(line) {
        green(color) + "  + "@ + line.skip("+ "@.len() as int) + plain_again(color)
    } else if "| "@.is_prefix_of(line) {
        "    "@ + line.skip("| "@.len() as int)
    } else {
        dimmed(color) + "  "@ + line + plain_again(color)
    }
}

fn show_cause_line(line: &str, color: bool) -> (r: String)
    ensures
        r@ == cause_line(line@, color),
{
    let c = colors(color);
    if let Some(rest) = strings::strip_prefix(line, "- ") {
        strings::cat4(c.bold_red, "  - ", rest, c.reset)
    } else if let Some(rest) = strings::strip_prefix(line, "+ ") {
        strings::cat4(c.bold_green, "  + ", rest, c.reset)
    } else if let Some(rest) = strings::strip_prefix(line, "| ") {
        strings::cat2("    ", rest)
    } else {
        strings::cat4(c.dim, "  ", line, c.reset)
    }
}

/// The lines behind one cause.
pub open spec fn cause_lines(cause: Seq<char>, color: bool) -> Seq<Seq<char>> {
    Seq::new(text::lines(cause).len(), |i: int| cause_line(text::lines(cause)[i], color))
}

pub open spec fn all_causes(causes: Seq<Seq<char>>, color: bool) -> Seq<Seq<char>>
    decreases causes.len(),
{
    if causes.len() == 0 {
        seq![]
    } else {
        all_causes(causes.drop_last(), color) + cause_lines(causes.last(), color)
    }
}

/// How an error is shown: its message behind what it is about, and the lines
/// of what lies behind it.
pub open spec fn error_lines(prefix: Option<Seq<char>>, chain: Seq<Seq<char>>, color: bool) -> Seq<
    Seq<char>,
> {
    let about = match prefix {
        Some(p) => p,
        None => "error"@,
    };
    seq![red(color) + about + ":"@ + plain_again(color) + " "@ + chain[0]] + all_causes(
        chain.skip(1),
        color,
    )
}

/// The lines that show an error. Color is added here and nowhere else.
pub fn print_error(prefix: Option<&str>, err: &Failure, color: bool) -> (r: Vec<String>)
    requires
        err@.len() > 0,
    ensures
        text::texts(r@) == error_lines(text::opt_str(prefix), err@, color),
{
    let c = colors(color);
    let about = match prefix {
        Some(p) => p,
        None => "error",
    };
    let ghost chain = err@;
    let mut out: Vec<String> = Vec::new();
    let mut head = strings::cat5(c.bold_red, about, ":", c.reset, " ");
    assert(chain[0] == err.chain@[0]@);
    head.append(err.chain[0].as_str());
    let ghost first = head@;
    out.push(head);
    assert(text::texts(out@) =~= seq![first]);
    let ghost causes = chain.skip(1);
    let mut i: usize = 1;
    assert(seq![first] + all_causes(causes.take(0), color) =~= seq![first]);
    while i < err.chain.len()
        invariant
            1 <= i <= err.chain.len(),
            chain == err@,
            causes == chain.skip(1),
            text::texts(out@) == seq![first] + all_causes(causes.take(i - 1), color),
        decreases err.chain.len() - i,
    {
        let cause = err.chain[i].as_str();
        assert(causes[i - 1] == cause@);
        let lines = strings::lines(cause);
        let ghost start = text::texts(out@);
        let ghost wanted = cause_lines(cause@, color);
        let mut j: usize = 0;
        assert(start + wanted.take(0) =~= start);
        while j < lines.len()
            invariant
                j <= lines.len(),
                text::strs(lines@) == text::lines(cause@),
                wanted == cause_lines(cause@, color),
                text::texts(out@) == start + wanted.take(j as int),
            decreases lines.len() - j,
        {
            let ghost before = out@;
            assert(text::strs(lines@)[j as int] == lines@[j as int]@);
            out.push(show_cause_line(lines[j], color));
            assert(text::texts(out@) =~= text::texts(before).push(wanted[j as int]));
            j += 1;
            assert(wanted.take(j as int) =~= wanted.take(j - 1).push(wanted[j - 1]));
            assert(start + wanted.take(j as int) =~= (start + wanted.take(j - 1)).push(
                wanted[j - 1],
            ));
        }
        proof {
            assert(wanted.take(j as int) =~= wanted);
            assert(causes.take(i as int).drop_last() =~= causes.take(i - 1));
            let so_far = all_causes(causes.take(i - 1), color);
            assert(seq![first] + so_far + wanted =~= seq![first] + (so_far + wanted));
        }
        i += 1;
    }
    assert(causes.take(i - 1) =~= causes);
    out
}

/// The key of the tool that a text addresses, else the text itself.
pub open spec fn key_for(config: Config, requested: Seq<char>) -> Seq<char> {
    match config::resolution(config, requested) {
        Some(e) => e.key_text(),
        None => requested,
    }
}

pub fn tool_key_for(config: &Config, requested: &str) -> (r: String)
    ensures
        r@ == key_for(*config, requested@),
{
    match config::resolve_tool(config, requested) {
        Some(e) => e.key(),
        None => requested.to_owned(),
    }
}

/// The keys of the tools that texts address, each once.
pub open spec fn keys_once(config: Config, requested: Seq<Seq<char>>) -> Seq<Seq<char>>
    decreases requested.len(),
{
    if requested.len() == 0 {
        seq![]
    } else {
        let front = keys_once(config, requested.drop_last());
        let key = key_for(config, requested.last());
        if front.contains(key) {
            front
        } else {
            front.push(key)
        }
    }
}

/// The keys of the tools to install, each once: a tool that is named twice,
/// even in two ways, is installed once.
pub fn normalize_tools(config: &Config, tools: &Vec<String>) -> (r: Vec<String>)
    ensures
        text::texts(r@) == keys_once(*config, text::texts(tools@)),
{
    let ghost all = text::texts(tools@);
    let mut out: Vec<String> = Vec::new();
    let mut i: usize = 0;
    assert(text::texts(out@) =~= seq![]);
    while i < tools.len()
        invariant
            i <= tools.len(),
            all == text::texts(tools@),
            text::texts(out@) == keys_once(*config, all.take(i as int)),
        decreases tools.len() - i,
    {
        let ghost before = out@;
        assert(all[i as int] == tools@[i as int]@);
        let key = tool_key_for(config, tools[i].as_str());
        let ghost said = key@;
        if !strings::is_among(&out, key.as_str()) {
            out.push(key);
            assert(text::texts(out@) =~= text::texts(before).push(said));
        }
        i += 1;
        assert(all.take(i as int).drop_last() =~= all.take(i - 1));
    }
    assert(all.take(i as int) =~= all);
    out
}

/// No tool is worked on twice at once, and none that was named is left out.
pub proof fn lemma_keys_once(config: Config, requested: Seq<Seq<char>>)
    ensures
        keys_once(config, requested).no_duplicates(),
        forall|i: int|
            0 <= i < requested.len() ==> keys_once(config, requested).contains(
                key_for(config, #[trigger] requested[i]),
            ),
    decreases requested.len(),
{
    if requested.len() > 0 {
        let front = keys_once(config, requested.drop_last());
        let all = keys_once(config, requested);
        let key = key_for(config, requested.last());
        lemma_keys_once(config, requested.drop_last());
        if !front.contains(key) {
            assert(all[all.len() - 1] == key);
        }
        assert forall|i: int| 0 <= i < requested.len() implies all.contains(
            key_for(config, #[trigger] requested[i]),
        ) by {
            if i < requested.len() - 1 {
                assert(requested.drop_last()[i] == requested[i]);
                let k = key_for(config, requested[i]);
                assert(front.contains(k));
                let j = choose|j: int| 0 <= j < front.len() && front[j] == k;
                assert(all[j] == k);
            }
        }
    }
}

/// The tools that an update is limited to: those that are named, by key, full
/// name or command, or all where none is named.
pub fn update_filter(config: &Config, tools: &Vec<String>) -> (r: Option<Vec<String>>)
    ensures
        match r {
            Some(keys) => tools@.len() > 0 && text::texts(keys@) == keys_once(
                *config,
                text::texts(tools@),
            ),
            None => tools@.len() == 0,
        },
{
    if tools.len() == 0 {
        None
    } else {
        Some(normalize_tools(config, tools))
    }
}

/// Refuses a command that needs a tool and names none.
pub fn require_tools(tools: &Vec<String>, verb: &str) -> (r: Result<(), Failure>)
    ensures
        failure::done(r) == if tools@.len() > 0 {
            Ok::<(), Seq<Seq<char>>>(())
        } else {
            Err(seq!["specify at least one tool to "@ + verb@])
        },
{
    if tools.len() > 0 {
        Ok(())
    } else {
        Err(Failure::new(strings::cat2("specify at least one tool to ", verb)))
    }
}

/// The ways in which installing a tool can end.
#[derive(Debug)]
pub enum InstallOutcome {
    /// It is installed, for the first time or because it was broken.
    Installed(ToolLock),
    /// It was installed, and a newer version is in its place.
    Updated { from: String, lock: ToolLock },
    /// It was installed, and there is no newer version.
    AlreadyCurrent { version: String },
}

pub enum InstallOutcomeView {
    Installed(ToolLockView),
    Updated { from: Seq<char>, lock: ToolLockView },
    AlreadyCurrent { version: Seq<char> },
}

impl View for InstallOutcome {
    type V = InstallOutcomeView;

    open spec fn view(&self) -> InstallOutcomeView {
        match *self {
            InstallOutcome::Installed(t) => InstallOutcomeView::Installed(t@),
            InstallOutcome::Updated { from, lock } => InstallOutcomeView::Updated {
                from: from@,
                lock: lock@,
            },
            InstallOutcome::AlreadyCurrent { version } => InstallOutcomeView::AlreadyCurrent {
                version: version@,
            },
        }
    }
}

pub open spec fn up_to_date_text(v: Seq<char>) -> Seq<char> {
    "up to date ("@ + version::shown(v) + ")"@
}

pub open spec fn updated_text(from: Seq<char>, to: Seq<char>) -> Seq<char> {
    "updated "@ + version::shown(from) + " -> "@ + version::shown(to)
}

/// What is said of an install.
pub open spec fn install_text(o: InstallOutcomeView) -> Seq<char> {
    match o {
        InstallOutcomeView::Installed(t) => if t.version == UNVERSIONED@ {
            "installed"@
        } else {
            "installed "@ + version::shown(t.version)
        },
        InstallOutcomeView::Updated { from, lock } => updated_text(from, lock.version),
        InstallOutcomeView::AlreadyCurrent { version } => up_to_date_text(version),
    }
}

pub fn describe_install_outcome(outcome: &InstallOutcome) -> (r: String)
    ensures
        r@ == install_text(outcome@),
{
    match outcome {
        InstallOutcome::Installed(t) => {
            if strings::same(t.version.as_str(), UNVERSIONED) {
                "installed".to_owned()
            } else {
                strings::cat2("installed ", version::display_version(t.version.as_str()))
            }
        },
        InstallOutcome::Updated { from, lock } => strings::cat4(
            "updated ",
            version::display_version(from.as_str()),
            " -> ",
            version::display_version(lock.version.as_str()),
        ),
        InstallOutcome::AlreadyCurrent { version } => strings::cat3(
            "up to date (",
            version::display_version(version.as_str()),
            ")",
        ),
    }
}

/// What is said of an update.
pub open spec fn outcome_text(o: OutcomeView) -> Seq<char> {
    match o {
        OutcomeView::UpToDate { version } => up_to_date_text(version),
        OutcomeView::Updated { from, to } => updated_text(from, to),
        OutcomeView::Reran => "rerun"@,
        OutcomeView::EvalRefreshed { cacheable } => "eval refreshed ("@ + (match cacheable {
            Some(true) => "cacheable"@,
            Some(false) => "not cacheable, stays live"@,
            None => "probe failed, stays live"@,
        }) + ")"@,
        OutcomeView::NoEval => "no eval configured, nothing to refresh"@,
    }
}

pub fn describe_outcome(outcome: &Outcome) -> (r: String)
    ensures
        r@ == outcome_text(outcome@),
{
    match outcome {
        Outcome::UpToDate { version } => strings::cat3(
            "up to date (",
            version::display_version(version.as_str()),
            ")",
        ),
        Outcome::Updated { from, to } => strings::cat4(
            "updated ",
            version::display_version(from.as_str()),
            " -> ",
            version::display_version(to.as_str()),
        ),
        Outcome::Reran => "rerun".to_owned(),
        Outcome::EvalRefreshed { cacheable } => {
            let label = match cacheable {
                Some(true) => "cacheable",
                Some(false) => "not cacheable, stays live",
                None => "probe failed, stays live",
            };
            strings::cat3("eval refreshed (", label, ")")
        },
        Outcome::NoEval => "no eval configured, nothing to refresh".to_owned(),
    }
}

/// Installing and updating say the same of the same result.
pub proof fn lemma_same_words(from: Seq<char>, lock: ToolLockView)
    ensures
        install_text(InstallOutcomeView::Updated { from, lock }) == outcome_text(
            OutcomeView::Updated { from, to: lock.version },
        ),
        install_text(InstallOutcomeView::AlreadyCurrent { version: from }) == outcome_text(
            OutcomeView::UpToDate { version: from },
        ),
{
}

/// Whether an installed tool works: all its commands are there, or, for a
/// plugin, its clone.
pub open spec fn healthy(
    e: ResolvedEntry<'static>,
    tool: ToolLockView,
    existing: Set<Seq<char>>,
) -> bool {
    if e is Plugin {
        tool.pkg is Some && existing.contains(tool.pkg->0)
    } else {
        tool.bins.len() > 0 && forall|i: int|
            0 <= i < tool.bins.len() ==> existing.contains(#[trigger] tool.bins[i])
    }
}

fn is_healthy<'a>(entry: &ResolvedEntry<'a>, tool: &ToolLock, existing: &NameSet) -> (r: bool)
    ensures
        r == healthy(*entry, tool@, existing@),
{
    if let ResolvedEntry::Plugin(_) = entry {
        return match &tool.pkg {
            Some(p) => existing.contains(p.as_str()),
            None => false,
        };
    }
    let ghost bins = tool@.bins;
    let mut i: usize = 0;
    while i < tool.bins.len()
        invariant
            i <= tool.bins.len(),
            !(*entry is Plugin),
            bins == tool@.bins,
            forall|j: int| 0 <= j < i ==> existing@.contains(#[trigger] bins[j]),
        decreases tool.bins.len() - i,
    {
        assert(bins[i as int] == tool.bins@[i as int]@);
        if !existing.contains(tool.bins[i].as_str()) {
            return false;
        }
        i += 1;
    }
    tool.bins.len() > 0
}

/// How installing a tool begins.
#[derive(Debug)]
pub enum InstallStart {
    /// It is installed and works: see whether there is a newer version.
    CheckUpdate { key: String, from: String },
    Install { key: String },
    Failed(Failure),
}

pub enum InstallStartView {
    CheckUpdate { key: Seq<char>, from: Seq<char> },
    Install { key: Seq<char> },
    Failed(Seq<Seq<char>>),
}

impl View for InstallStart {
    type V = InstallStartView;

    open spec fn view(&self) -> InstallStartView {
        match *self {
            InstallStart::CheckUpdate { key, from } => InstallStartView::CheckUpdate {
                key: key@,
                from: from@,
            },
            InstallStart::Install { key } => InstallStartView::Install { key: key@ },
            InstallStart::Failed(f) => InstallStartView::Failed(f@),
        }
    }
}

pub open spec fn install_start(
    config: Config,
    lock: Map<Seq<char>, ToolLockView>,
    requested: Seq<char>,
    existing: Set<Seq<char>>,
) -> InstallStartView {
    match config::resolution(config, requested) {
        None => InstallStartView::Failed(seq![requested + " is not in config.toml"@]),
        Some(e) => {
            let key = e.key_text();
            if lock.contains_key(key) && healthy(e, lock[key], existing) {
                InstallStartView::CheckUpdate { key, from: lock[key].version }
            } else {
                InstallStartView::Install { key }
            }
        },
    }
}

/// What is said of a tool that is not configured.
pub fn unknown_tool(requested: &str) -> (r: Failure)
    ensures
        r@ == seq![requested@ + " is not in config.toml"@],
{
    Failure::new(strings::cat2(requested, " is not in config.toml"))
}

/// Decides how installing a tool begins. One that is recorded but broken is
/// installed again: that is how a missing command heals itself.
pub fn install_one(config: &Config, lock: &Lock, requested: &str, existing: &NameSet) -> (r:
    InstallStart)
    ensures
        r@ == install_start(*config, lock@, requested@, existing@),
{
    match config::resolve_tool(config, requested) {
        None => InstallStart::Failed(unknown_tool(requested)),
        Some(e) => {
            let key = e.key();
            if let Some(tool) = lock.tool.get(key.as_str()) {
                if is_healthy(&e, tool, existing) {
                    let from = tool.version.as_str().to_owned();
                    return InstallStart::CheckUpdate { key, from };
                }
            }
            InstallStart::Install { key }
        },
    }
}

/// A missing command heals itself: the key that the startup file holds for it
/// is one that can be installed, and a tool that is recorded but lacks one of
/// its commands is installed again.
pub proof fn lemma_missing_command_heals(
    config: Config,
    lock: Map<Seq<char>, ToolLockView>,
    existing: Set<Seq<char>>,
    i: int,
)
    requires
        0 <= i < config::entries(config).len(),
    ensures
        ({
            let key = config::entries(config)[i].key_text();
            let found = config::resolution(config, key);
            let bins = lock[found->0.key_text()].bins;
            let start = install_start(config, lock, key, existing);
            &&& found is Some
            &&& !(start is Failed)
            &&& !(found->0 is Plugin) && !bins.to_set().subset_of(existing) ==> start == (
            InstallStartView::Install { key: found->0.key_text() })
        }),
{
    let key = config::entries(config)[i].key_text();
    config::lemma_every_name_is_answered(config, i, key);
    let found = config::resolution(config, key)->0;
    let bins = lock[found.key_text()].bins;
    if !(found is Plugin) && healthy(found, lock[found.key_text()], existing) {
        assert forall|b: Seq<char>| bins.to_set().contains(b) implies existing.contains(b) by {
            let j = choose|j: int| 0 <= j < bins.len() && bins[j] == b;
            assert(existing.contains(bins[j]));
        }
    }
}

/// How installing a tool ends that was installed already.
pub fn install_checked(from: String, fresh: Option<ToolLock>) -> (r: InstallOutcome)
    ensures
        r@ == match fresh {
            Some(t) => InstallOutcomeView::Updated { from: from@, lock: t@ },
            None => InstallOutcomeView::AlreadyCurrent { version: from@ },
        },
{
    match fresh {
        Some(lock) => InstallOutcome::Updated { from, lock },
        None => InstallOutcome::AlreadyCurrent { version: from },
    }
}

/// The records after an install.
pub open spec fn recorded(
    lock: Map<Seq<char>, ToolLockView>,
    key: Seq<char>,
    o: InstallOutcomeView,
) -> Map<Seq<char>, ToolLockView> {
    match o {
        InstallOutcomeView::Installed(t) => lock.insert(key, t),
        InstallOutcomeView::Updated { lock: t, .. } => lock.insert(key, t),
        InstallOutcomeView::AlreadyCurrent { .. } => lock,
    }
}

/// What is done with a result of an install.
#[derive(Debug)]
pub enum BatchAction {
    /// Print a line.
    Say(String),
    /// Save the records, and print a line if that worked.
    SaveThenSay(String),
    /// Show an error under a name.
    Complain(String, Failure),
}

pub enum BatchActionView {
    Say(Seq<char>),
    SaveThenSay(Seq<char>),
    Complain(Seq<char>, Seq<Seq<char>>),
}

impl View for BatchAction {
    type V = BatchActionView;

    open spec fn view(&self) -> BatchActionView {
        match *self {
            BatchAction::Say(s) => BatchActionView::Say(s@),
            BatchAction::SaveThenSay(s) => BatchActionView::SaveThenSay(s@),
            BatchAction::Complain(s, f) => BatchActionView::Complain(s@, f@),
        }
    }
}

/// Several installs at once: the records as they become, and whether
/// something failed.
#[derive(Debug)]
pub struct InstallBatch {
    pub lock: Lock,
    pub failed: bool,
}

pub open spec fn install_result(r: Result<(String, InstallOutcome), Failure>) -> Result<
    (Seq<char>, InstallOutcomeView),
    Seq<Seq<char>>,
> {
    match r {
        Ok((key, o)) => Ok((key@, o@)),
        Err(f) => Err(f@),
    }
}

impl InstallBatch {
    /// Takes a result in. The records are saved after every tool, so that
    /// what has been done is not lost.
    pub fn absorb(&mut self, name: &str, result: Result<(String, InstallOutcome), Failure>) -> (r:
        BatchAction)
        ensures
            match install_result(result) {
                Err(chain) => {
                    &&& r@ == BatchActionView::Complain(name@, chain)
                    &&& final(self).failed
                    &&& final(self).lock@ == old(self).lock@
                },
                Ok((key, o)) => {
                    let line = key + ": "@ + install_text(o);
                    &&& r@ == if o is AlreadyCurrent {
                        BatchActionView::Say(line)
                    } else {
                        BatchActionView::SaveThenSay(line)
                    }
                    &&& final(self).failed == old(self).failed
                    &&& final(self).lock@ == recorded(old(self).lock@, key, o)
                },
            },
    {
        match result {
            Err(f) => {
                self.failed = true;
                BatchAction::Complain(name.to_owned(), f)
            },
            Ok((key, outcome)) => {
                let line = strings::cat3(
                    key.as_str(),
                    ": ",
                    describe_install_outcome(&outcome).as_str(),
                );
                let ghost before = self.lock@;
                let ghost k = key@;
                match outcome {
                    InstallOutcome::AlreadyCurrent { .. } => BatchAction::Say(line),
                    InstallOutcome::Installed(t) => {
                        self.lock.tool.insert(key, t);
                        assert(self.lock@ =~= before.insert(k, t@));
                        BatchAction::SaveThenSay(line)
                    },
                    InstallOutcome::Updated { lock: t, .. } => {
                        self.lock.tool.insert(key, t);
                        assert(self.lock@ =~= before.insert(k, t@));
                        BatchAction::SaveThenSay(line)
                    },
                }
            },
        }
    }

    /// Takes in whether the records could be saved.
    pub fn saved(&mut self, name: &str, line: String, outcome: Result<(), Failure>) -> (r:
        BatchAction)
        ensures
            final(self).lock@ == old(self).lock@,
            final(self).failed == (old(self).failed || outcome is Err),
            r@ == match outcome {
                Ok(_) => BatchActionView::Say(line@),
                Err(f) => BatchActionView::Complain(name@, f@),
            },
    {
        match outcome {
            Ok(_) => BatchAction::Say(line),
            Err(f) => {
                self.failed = true;
                BatchAction::Complain(name.to_owned(), f)
            },
        }
    }
}

/// Results for different tools can come in in either order.
pub proof fn lemma_installs_commute(
    lock: Map<Seq<char>, ToolLockView>,
    one: Seq<char>,
    first: InstallOutcomeView,
    other: Seq<char>,
    second: InstallOutcomeView,
)
    requires
        one != other,
    ensures
        recorded(recorded(lock, one, first), other, second) == recorded(
            recorded(lock, other, second),
            one,
            first,
        ),
{
    assert(recorded(recorded(lock, one, first), other, second) =~= recorded(
        recorded(lock, other, second),
        one,
        first,
    ));
}

/// The reports of one tool, in their order.
pub open spec fn reports_of(reports: Seq<Report>, tool: Seq<char>) -> Seq<Report>
    decreases reports.len(),
{
    if reports.len() == 0 {
        seq![]
    } else if reports.last().tool@ == tool {
        reports_of(reports.drop_last(), tool).push(reports.last())
    } else {
        reports_of(reports.drop_last(), tool)
    }
}

proof fn lemma_reports_of_append(a: Seq<Report>, b: Seq<Report>, tool: Seq<char>)
    ensures
        reports_of(a + b, tool) == reports_of(a, tool) + reports_of(b, tool),
    decreases b.len(),
{
    if b.len() == 0 {
        assert(a + b =~= a);
        assert(reports_of(a, tool) + reports_of(b, tool) =~= reports_of(a, tool));
    } else {
        assert((a + b).drop_last() =~= a + b.drop_last());
        lemma_reports_of_append(a, b.drop_last(), tool);
        if b.last().tool@ == tool {
            assert(reports_of(a, tool) + reports_of(b.drop_last(), tool).push(b.last())
                =~= (reports_of(a, tool) + reports_of(b.drop_last(), tool)).push(b.last()));
        }
    }
}

proof fn lemma_no_reports_of(a: Seq<Report>, tool: Seq<char>)
    requires
        forall|i: int| 0 <= i < a.len() ==> (#[trigger] a[i]).tool@ != tool,
    ensures
        reports_of(a, tool) == Seq::<Report>::empty(),
    decreases a.len(),
{
    if a.len() > 0 {
        assert(a[a.len() - 1].tool@ != tool);
        assert forall|i: int| 0 <= i < a.drop_last().len() implies (#[trigger] a.drop_last()[i]).tool@
            != tool by {
            assert(a[i].tool@ != tool);
        }
        lemma_no_reports_of(a.drop_last(), tool);
    }
}

/// Whether reports stand in the order of their tools.
pub open spec fn in_order(reports: Seq<Report>) -> bool {
    forall|i: int, j: int|
        0 <= i < j < reports.len() ==> !text::before(
            (#[trigger] reports[j]).tool@,
            (#[trigger] reports[i]).tool@,
        )
}

/// Puts a report where it belongs: behind all that do not come after it.
fn insert_report(sorted: &mut Vec<Report>, report: Report)
    requires
        in_order(old(sorted)@),
    ensures
        in_order(final(sorted)@),
        forall|tool: Seq<char>|
            #[trigger] reports_of(final(sorted)@, tool) == if report.tool@ == tool {
                reports_of(old(sorted)@, tool).push(report)
            } else {
                reports_of(old(sorted)@, tool)
            },
{
    let ghost all = sorted@;
    let n = sorted.len();
    let mut at: usize = n;
    while at > 0 && strings::before(report.tool.as_str(), sorted[at - 1].tool.as_str())
        invariant
            at <= n == sorted.len(),
            all == sorted@,
            forall|j: int| at <= j < n ==> text::before(report.tool@, (#[trigger] all[j]).tool@),
        decreases at,
    {
        at -= 1;
    }
    proof {
        let front = all.take(at as int);
        let back = all.skip(at as int);
        let after = all.insert(at as int, report);
        assert(all =~= front + back);
        assert(after =~= front.push(report) + back);
        assert forall|tool: Seq<char>| #[trigger]
            reports_of(after, tool) == if report.tool@ == tool {
                reports_of(all, tool).push(report)
            } else {
                reports_of(all, tool)
            } by {
            lemma_reports_of_append(front, back, tool);
            lemma_reports_of_append(front.push(report), back, tool);
            assert(front.push(report).drop_last() =~= front);
            if report.tool@ == tool {
                assert forall|i: int| 0 <= i < back.len() implies (#[trigger] back[i]).tool@
                    != tool by {
                    assert(text::before(report.tool@, all[at + i].tool@));
                    text::lemma_before_irreflexive(tool);
                }
                lemma_no_reports_of(back, tool);
                assert(reports_of(front, tool).push(report) + Seq::<Report>::empty()
                    =~= (reports_of(front, tool) + Seq::<Report>::empty()).push(report));
            }
        }
        assert forall|i: int, j: int| 0 <= i < j < after.len() implies !text::before(
            (#[trigger] after[j]).tool@,
            (#[trigger] after[i]).tool@,
        ) by {
            if i < at && j == at {
                // The report stopped behind the last one that does not come after it.
                let last = all[at - 1].tool@;
                if text::before(report.tool@, all[i].tool@) {
                    if i < at - 1 {
                        assert(!text::before(last, all[i].tool@));
                        text::lemma_before_total(last, all[i].tool@);
                        if all[i].tool@ == last {
                            assert(text::before(report.tool@, last));
                        } else {
                            text::lemma_before_transitive(report.tool@, all[i].tool@, last);
                        }
                    }
                }
            } else if i == at && j > at {
                assert(text::before(report.tool@, all[j - 1].tool@));
                if text::before(all[j - 1].tool@, report.tool@) {
                    text::lemma_before_transitive(
                        report.tool@,
                        all[j - 1].tool@,
                        report.tool@,
                    );
                    text::lemma_before_irreflexive(report.tool@);
                }
            } else if j < at {
                assert(after[i] == all[i] && after[j] == all[j]);
            } else if i < at {
                assert(after[i] == all[i] && after[j] == all[j - 1]);
            } else {
                assert(after[i] == all[i - 1] && after[j] == all[j - 1]);
            }
        }
    }
    sorted.insert(at, report);
}

/// Puts reports in the order of their tools, so that two runs of a command
/// can be compared. Reports of one tool keep their order.
pub fn order_reports(reports: Vec<Report>) -> (r: Vec<Report>)
    ensures
        in_order(r@),
        forall|tool: Seq<char>| #[trigger]
            reports_of(r@, tool) == reports_of(reports@, tool),
{
    let ghost all = reports@;
    let mut left = reports;
    let mut out: Vec<Report> = Vec::new();
    let ghost mut taken: int = 0;
    while left.len() > 0
        invariant
            0 <= taken <= all.len(),
            left@ == all.skip(taken),
            in_order(out@),
            forall|tool: Seq<char>| #[trigger]
                reports_of(out@, tool) == reports_of(all.take(taken), tool),
        decreases left.len(),
    {
        let ghost before = out@;
        let report = left.remove(0);
        let ghost moved = report;
        insert_report(&mut out, report);
        proof {
            assert(all.take(taken + 1).drop_last() =~= all.take(taken));
            assert(all.take(taken + 1).last() == moved);
            assert(left@ =~= all.skip(taken + 1));
            assert forall|tool: Seq<char>| #[trigger]
                reports_of(out@, tool) == reports_of(all.take(taken + 1), tool) by {
                assert(reports_of(before, tool) == reports_of(all.take(taken), tool));
            }
            taken = taken + 1;
        }
    }
    assert(all.take(taken) =~= all);
    out
}

/// What is shown of a report.
pub fn report_action(report: Report) -> (r: BatchAction)
    ensures
        r@ == match report.outcome {
            Ok(o) => BatchActionView::Say(report.tool@ + ": "@ + outcome_text(o@)),
            Err(f) => BatchActionView::Complain(report.tool@, f@),
        },
{
    match report.outcome {
        Ok(o) => {
            let said = describe_outcome(&o);
            BatchAction::Say(strings::cat3(report.tool.as_str(), ": ", said.as_str()))
        },
        Err(f) => BatchAction::Complain(report.tool, f),
    }
}

/// A line of the list of tools.
pub open spec fn list_line(
    e: ResolvedEntry<'static>,
    lock: Map<Seq<char>, ToolLockView>,
) -> Seq<char> {
    let marker = if lock.contains_key(e.key_text()) {
        "\u{25cf}"@
    } else {
        "\u{25cb}"@
    };
    match e.described() {
        Some(d) => marker + " "@ + e.key_text() + " - "@ + d,
        None => marker + " "@ + e.key_text(),
    }
}

/// The list of tools: one line for each, with a mark for those installed.
pub fn list_lines(config: &Config, lock: &Lock) -> (r: Vec<String>)
    ensures
        text::texts(r@) == Seq::new(
            config::entries(*config).len(),
            |i: int| list_line(config::entries(*config)[i], lock@),
        ),
{
    let entries = config::all_entries(config);
    let ghost wanted = Seq::new(entries@.len(), |i: int| list_line(entries@[i], lock@));
    let mut out: Vec<String> = Vec::new();
    let mut i: usize = 0;
    assert(text::texts(out@) =~= wanted.take(0));
    while i < entries.len()
        invariant
            i <= entries.len(),
            wanted == Seq::new(entries@.len(), |i: int| list_line(entries@[i], lock@)),
            text::texts(out@) == wanted.take(i as int),
        decreases entries.len() - i,
    {
        let ghost before = out@;
        let key = entries[i].key();
        let marker = if lock.tool.contains_key(key.as_str()) {
            "\u{25cf}"
        } else {
            "\u{25cb}"
        };
        let line = match entries[i].description() {
            Some(d) => strings::cat5(marker, " ", key.as_str(), " - ", d),
            None => strings::cat3(marker, " ", key.as_str()),
        };
        out.push(line);
        assert(text::texts(out@) =~= text::texts(before).push(wanted[i as int]));
        i += 1;
        assert(wanted.take(i as int) =~= wanted.take(i - 1).push(wanted[i - 1]));
    }
    assert(wanted.take(i as int) =~= wanted);
    out
}

/// How a sync goes on after an attempt to take the lock on the state directory.
#[derive(Debug)]
pub enum SyncStart {
    /// It holds the lock: it begins, and looks at every `eval` anew if asked to.
    Begin { refresh: bool },
    /// It tries again.
    Retry,
    /// It says why and ends, in success or not, without reading or writing
    /// anything.
    BowOut { warning: String, success: bool },
    /// The attempt failed.
    Fail,
}

pub enum SyncStartView {
    Begin { refresh: bool },
    Retry,
    BowOut { warning: Seq<char>, success: bool },
    Fail,
}

impl View for SyncStart {
    type V = SyncStartView;

    open spec fn view(&self) -> SyncStartView {
        match *self {
            SyncStart::Begin { refresh } => SyncStartView::Begin { refresh },
            SyncStart::Retry => SyncStartView::Retry,
            SyncStart::BowOut { warning, success } => SyncStartView::BowOut {
                warning: warning@,
                success,
            },
            SyncStart::Fail => SyncStartView::Fail,
        }
    }
}

impl SyncStartView {
    /// Whether anything may be written from here on.
    pub open spec fn may_write(self) -> bool {
        self is Begin
    }
}

pub open spec fn sync_started(verdict: LockVerdict, force: bool) -> SyncStartView {
    match verdict {
        LockVerdict::Acquired => SyncStartView::Begin { refresh: force },
        LockVerdict::Retry => SyncStartView::Retry,
        LockVerdict::Busy => SyncStartView::BowOut {
            warning: "rig: warning: another rig process is running; skipping sync"@,
            success: true,
        },
        LockVerdict::Error => SyncStartView::Fail,
    }
}

/// Decides how a sync goes on after an attempt to take the lock. A shell that
/// starts never waits for another process, and does not fail because of it.
pub fn sync_start(verdict: LockVerdict, force: bool) -> (r: SyncStart)
    ensures
        r@ == sync_started(verdict, force),
{
    match verdict {
        LockVerdict::Acquired => SyncStart::Begin { refresh: force },
        LockVerdict::Retry => SyncStart::Retry,
        LockVerdict::Busy => SyncStart::BowOut {
            warning: "rig: warning: another rig process is running; skipping sync".to_owned(),
            success: true,
        },
        LockVerdict::Error => SyncStart::Fail,
    }
}

/// A sync writes only while it holds the lock; where another process holds it,
/// it ends in success, forced or not.
pub proof fn lemma_sync_bows_out(verdict: LockVerdict, force: bool)
    ensures
        sync_started(verdict, force).may_write() <==> verdict == LockVerdict::Acquired,
        verdict == LockVerdict::Busy ==> sync_started(verdict, force) is BowOut && sync_started(
            verdict,
            force,
        )->success,
{
}

/// What a sync does about a plugin.
#[derive(Debug, Clone, Copy, PartialEq, Eq, Structural)]
pub enum SyncStep {
    /// It is cloned and recorded.
    Nothing,
    /// It is cloned: bring it into the records.
    Backfill,
    /// It is missing: clone it once all plugins have been looked at.
    Clone,
}

/// Decides what a sync does about a plugin.
pub fn sync_step(lock: &Lock, key: &str, cloned: bool) -> (r: SyncStep)
    ensures
        r == if !cloned {
            SyncStep::Clone
        } else if lock@.contains_key(key@) {
            SyncStep::Nothing
        } else {
            SyncStep::Backfill
        },
{
    if !cloned {
        SyncStep::Clone
    } else if lock.tool.contains_key(key) {
        SyncStep::Nothing
    } else {
        SyncStep::Backfill
    }
}

/// What a sync does after a result.
#[derive(Debug)]
pub enum SyncAction {
    /// Print a line if there is one, and save the records.
    Save(Option<String>),
    /// Show an error under a name.
    Complain(String, Failure),
    Nothing,
}

pub enum SyncActionView {
    Save(Option<Seq<char>>),
    Complain(Seq<char>, Seq<Seq<char>>),
    Nothing,
}

impl View for SyncAction {
    type V = SyncActionView;

    open spec fn view(&self) -> SyncActionView {
        match *self {
            SyncAction::Save(line) => SyncActionView::Save(text::opt_text(line)),
            SyncAction::Complain(name, f) => SyncActionView::Complain(name@, f@),
            SyncAction::Nothing => SyncActionView::Nothing,
        }
    }
}

/// A sync: the records as they become, the plugins that have to be cloned, and
/// whether something failed.
#[derive(Debug)]
pub struct SyncBatch {
    pub lock: Lock,
    pub missing: Vec<String>,
    pub failed: bool,
}

impl SyncBatch {
    /// Looks at a plugin. A missing one is cloned only after all of them have
    /// been looked at.
    pub fn look_at(&mut self, name: &str, cloned: bool) -> (r: SyncStep)
        ensures
            final(self).lock == old(self).lock,
            final(self).failed == old(self).failed,
            r == if !cloned {
                SyncStep::Clone
            } else if old(self).lock@.contains_key(config::short_name(name@)) {
                SyncStep::Nothing
            } else {
                SyncStep::Backfill
            },
            text::texts(final(self).missing@) == if cloned {
                text::texts(old(self).missing@)
            } else {
                text::texts(old(self).missing@).push(name@)
            },
    {
        let step = sync_step(&self.lock, config::tool_key(name), cloned);
        if step == SyncStep::Clone {
            let ghost before = self.missing@;
            self.missing.push(name.to_owned());
            assert(text::texts(self.missing@) =~= text::texts(before).push(name@));
        }
        step
    }

    /// Takes in the record of a plugin that was cloned but not recorded.
    pub fn backfilled(&mut self, name: &str, read: Result<ToolLock, Failure>) -> (r: SyncAction)
        ensures
            final(self).missing == old(self).missing,
            match read {
                Ok(t) => {
                    &&& r@ == SyncActionView::Save(None)
                    &&& final(self).lock@ == old(self).lock@.insert(
                        config::short_name(name@),
                        t@,
                    )
                    &&& final(self).failed == old(self).failed
                },
                Err(f) => {
                    &&& r@ == SyncActionView::Complain(name@, f@)
                    &&& final(self).lock == old(self).lock
                    &&& final(self).failed
                },
            },
    {
        match read {
            Ok(t) => {
                let ghost before = self.lock@;
                self.lock.tool.insert(config::tool_key(name).to_owned(), t);
                assert(self.lock@ =~= before.insert(config::short_name(name@), t@));
                SyncAction::Save(None)
            },
            Err(f) => {
                self.failed = true;
                SyncAction::Complain(name.to_owned(), f)
            },
        }
    }

    /// Takes in what came of cloning a missing plugin.
    pub fn installed(&mut self, name: &str, result: Result<(String, InstallOutcome), Failure>) -> (r:
        SyncAction)
        ensures
            final(self).missing == old(self).missing,
            match install_result(result) {
                Ok((key, o)) => {
                    &&& r@ == SyncActionView::Save(Some(key + ": "@ + install_text(o)))
                    &&& final(self).lock@ == recorded(old(self).lock@, key, o)
                    &&& final(self).failed == old(self).failed
                },
                Err(chain) => {
                    &&& r@ == SyncActionView::Complain(name@, chain)
                    &&& final(self).lock == old(self).lock
                    &&& final(self).failed
                },
            },
    {
        match result {
            Err(f) => {
                self.failed = true;
                SyncAction::Complain(name.to_owned(), f)
            },
            Ok((key, outcome)) => {
                let line = strings::cat3(
                    key.as_str(),
                    ": ",
                    describe_install_outcome(&outcome).as_str(),
                );
                let ghost before = self.lock@;
                let ghost k = key@;
                match outcome {
                    InstallOutcome::AlreadyCurrent { .. } => {},
                    InstallOutcome::Installed(t) => {
                        self.lock.tool.insert(key, t);
                        assert(self.lock@ =~= before.insert(k, t@));
                    },
                    InstallOutcome::Updated { lock: t, .. } => {
                        self.lock.tool.insert(key, t);
                        assert(self.lock@ =~= before.insert(k, t@));
                    },
                }
                SyncAction::Save(Some(line))
            },
        }
    }

    /// Takes in whether the records could be saved.
    pub fn saved(&mut self, name: &str, outcome: Result<(), Failure>) -> (r: SyncAction)
        ensures
            final(self).lock == old(self).lock,
            final(self).missing == old(self).missing,
            final(self).failed == (old(self).failed || outcome is Err),
            r@ == match outcome {
                Ok(_) => SyncActionView::Nothing,
                Err(f) => SyncActionView::Complain(name@, f@),
            },
    {
        match outcome {
            Ok(_) => SyncAction::Nothing,
            Err(f) => {
                self.failed = true;
                SyncAction::Complain(name.to_owned(), f)
            },
        }
    }
}

/// The names that are in a list and not in a set.
pub open spec fn without(names: Seq<Seq<char>>, other: Set<Seq<char>>) -> Seq<Seq<char>>
    decreases names.len(),
{
    if names.len() == 0 {
        seq![]
    } else if other.contains(names.last()) {
        without(names.drop_last(), other)
    } else {
        without(names.drop_last(), other).push(names.last())
    }
}

fn names_without(names: &NameSet, other: &NameSet) -> (r: Vec<String>)
    ensures
        text::texts(r@) == without(names.names(), other@),
{
    let ghost all = names.names();
    let mut out: Vec<String> = Vec::new();
    let n = names.len();
    let mut i: usize = 0;
    assert(text::texts(out@) =~= seq![]);
    while i < n
        invariant
            i <= n,
            n == names.names().len(),
            all == names.names(),
            text::texts(out@) == without(all.take(i as int), other@),
        decreases n - i,
    {
        let ghost before = out@;
        let name = names.name(i);
        if !other.contains(name) {
            out.push(name.to_owned());
            assert(text::texts(out@) =~= text::texts(before).push(all[i as int]));
        }
        i += 1;
        assert(all.take(i as int).drop_last() =~= all.take(i - 1));
    }
    assert(all.take(i as int) =~= all);
    out
}

/// What is left out is what the other set has, and nothing else.
pub proof fn lemma_without(names: Seq<Seq<char>>, other: Set<Seq<char>>, name: Seq<char>)
    ensures
        without(names, other).contains(name) <==> names.contains(name) && !other.contains(name),
    decreases names.len(),
{
    if names.len() > 0 {
        let front = names.drop_last();
        let last = names.last();
        let kept = without(front, other);
        lemma_without(front, other, name);
        assert(names =~= front.push(last));
        text::lemma_push_contains(front, last, name);
        text::lemma_push_contains(kept, last, name);
    }
}

/// The keys of all entries.
pub open spec fn entry_keys(entries: Seq<ResolvedEntry<'static>>) -> Set<Seq<char>>
    decreases entries.len(),
{
    if entries.len() == 0 {
        Set::empty()
    } else {
        entry_keys(entries.drop_last()).insert(entries.last().key_text())
    }
}

/// The keys of all entries.
pub fn configured_keys(config: &Config) -> (r: NameSet)
    ensures
        r@ == entry_keys(config::entries(*config)),
{
    let entries = config::all_entries(config);
    let ghost all = entries@;
    let mut keys = NameSet::new();
    let mut i: usize = 0;
    while i < entries.len()
        invariant
            i <= entries.len(),
            all == entries@,
            keys@ == entry_keys(all.take(i as int)),
        decreases entries.len() - i,
    {
        keys.insert(entries[i].key());
        i += 1;
        assert(all.take(i as int).drop_last() =~= all.take(i - 1));
    }
    assert(all.take(i as int) =~= all);
    keys
}

/// What a sync reports: the tools that came into the configuration since the
/// last one, and those that left it.
pub open spec fn diff_lines(old: Seq<Seq<char>>, new: Seq<Seq<char>>) -> Seq<Seq<char>> {
    let added = without(new, old.to_set());
    let removed = without(old, new.to_set());
    (if added.len() > 0 {
        seq!["+ added: "@ + text::join(added, ", "@)]
    } else {
        seq![]
    }) + (if removed.len() > 0 {
        seq!["- removed: "@ + text::join(removed, ", "@)]
    } else {
        seq![]
    })
}

/// The lines that report what changed between two sets of tools, in the order
/// of their names.
pub fn report_tool_set_diff(old_keys: &NameSet, new_keys: &NameSet) -> (r: Vec<String>)
    ensures
        text::texts(r@) == diff_lines(old_keys.names(), new_keys.names()),
{
    let added = names_without(new_keys, old_keys);
    let removed = names_without(old_keys, new_keys);
    let mut out: Vec<String> = Vec::new();
    assert(text::texts(added@).len() == added@.len());
    assert(text::texts(removed@).len() == removed@.len());
    if added.len() > 0 {
        out.push(strings::cat2("+ added: ", strings::join(&added, ", ").as_str()));
    }
    if removed.len() > 0 {
        out.push(strings::cat2("- removed: ", strings::join(&removed, ", ").as_str()));
    }
    assert(text::texts(out@) =~= diff_lines(old_keys.names(), new_keys.names()));
    out
}

/// A command line.
#[derive(Debug)]
pub struct CommandLine {
    pub program: String,
    pub args: Vec<String>,
}

/// The command that opens the configuration: the words of `EDITOR`, `vi` if
/// there are none, and the path.
pub fn editor_command(editor: &str, config_path: &str) -> (r: CommandLine)
    ensures
        ({
            let words = text::words(editor@);
            if words.len() == 0 {
                r.program@ == "vi"@ && text::texts(r.args@) == seq![config_path@]
            } else {
                r.program@ == words[0] && text::texts(r.args@) == words.skip(1).push(config_path@)
            }
        }),
{
    let words = strings::words(editor);
    let ghost all = text::words(editor@);
    assert(all == text::strs(words@));
    let mut args: Vec<String> = Vec::new();
    let mut i: usize = 1;
    assert(all.len() == 0 || text::texts(args@) =~= all.subrange(1, 1));
    while i < words.len()
        invariant
            1 <= i,
            i <= words.len() || i == 1,
            all == text::strs(words@),
            words@.len() == 0 ==> args@.len() == 0,
            words@.len() > 0 ==> text::texts(args@) == all.subrange(1, i as int),
        decreases words.len() - i,
    {
        let ghost before = args@;
        args.push(words[i].to_owned());
        assert(text::texts(args@) =~= text::texts(before).push(all[i as int]));
        i += 1;
        assert(all.subrange(1, i as int) =~= all.subrange(1, i - 1).push(all[i - 1]));
    }
    let ghost before = args@;
    args.push(config_path.to_owned());
    assert(text::texts(args@) =~= text::texts(before).push(config_path@));
    if words.len() == 0 {
        assert(text::texts(args@) =~= seq![config_path@]);
        CommandLine { program: "vi".to_owned(), args }
    } else {
        assert(all.subrange(1, i as int) =~= all.skip(1));
        assert(all[0] == words@[0]@);
        CommandLine { program: words[0].to_owned(), args }
    }
}

/// A line of a diagnosis.
pub open spec fn finding_line(f: doctor::FindingView) -> Seq<char> {
    "["@ + (match f.severity {
        Severity::Warning => "warning"@,
        Severity::Info => "info"@,
    }) + "] "@ + f.message
}

/// The lines of a diagnosis.
pub fn finding_lines(findings: &Vec<Finding>) -> (r: Vec<String>)
    ensures
        text::texts(r@) == if findings@.len() == 0 {
            seq!["no issues found"@]
        } else {
            Seq::new(findings@.len(), |i: int| finding_line(findings@[i]@))
        },
{
    let mut out: Vec<String> = Vec::new();
    if findings.len() == 0 {
        out.push("no issues found".to_owned());
        assert(text::texts(out@) =~= seq!["no issues found"@]);
        return out;
    }
    let ghost wanted = Seq::new(findings@.len(), |i: int| finding_line(findings@[i]@));
    let mut i: usize = 0;
    assert(text::texts(out@) =~= wanted.take(0));
    while i < findings.len()
        invariant
            i <= findings.len(),
            wanted == Seq::new(findings@.len(), |i: int| finding_line(findings@[i]@)),
            text::texts(out@) == wanted.take(i as int),
        decreases findings.len() - i,
    {
        let ghost before = out@;
        let label = match findings[i].severity {
            Severity::Warning => "warning",
            Severity::Info => "info",
        };
        out.push(strings::cat4("[", label, "] ", findings[i].message.as_str()));
        assert(text::texts(out@) =~= text::texts(before).push(wanted[i as int]));
        i += 1;
        assert(wanted.take(i as int) =~= wanted.take(i - 1).push(wanted[i - 1]));
    }
    assert(wanted.take(i as int) =~= wanted);
    out
}

/// The first entry, not before `from`, that provides a command.
pub open spec fn provider_from(
    entries: Seq<ResolvedEntry<'static>>,
    command: Seq<char>,
    from: int,
) -> Option<Seq<char>>
    decreases entries.len() - from,
{
    if from < 0 || from >= entries.len() {
        None
    } else if entries[from].commands().contains(command) {
        Some(entries[from].key_text())
    } else {
        provider_from(entries, command, from + 1)
    }
}

/// The key of the tool that provides a command.
pub fn which(config: &Config, command: &str) -> (r: Result<String, Failure>)
    ensures
        failure::said(r) == match provider_from(config::entries(*config), command@, 0) {
            Some(key) => Ok::<Seq<char>, Seq<Seq<char>>>(key),
            None => Err(seq!["no configured tool provides `"@ + command@ + "`"@]),
        },
{
    let entries = config::all_entries(config);
    let ghost all = config::entries(*config);
    let mut i: usize = 0;
    while i < entries.len()
        invariant
            i <= entries.len(),
            all == entries@,
            all == config::entries(*config),
            provider_from(all, command@, 0) == provider_from(all, command@, i as int),
        decreases entries.len() - i,
    {
        if strings::is_among(&entries[i].command_names(), command) {
            return Ok(entries[i].key());
        }
        i += 1;
    }
    Err(Failure::new(strings::cat3("no configured tool provides `", command, "`")))
}

/// The key of the tool to remove; an error if it is not installed.
pub fn remove_key(config: &Config, lock: &Lock, requested: &str) -> (r: Result<String, Failure>)
    ensures
        failure::said(r) == if lock@.contains_key(key_for(*config, requested@)) {
            Ok::<Seq<char>, Seq<Seq<char>>>(key_for(*config, requested@))
        } else {
            Err(seq![key_for(*config, requested@) + " is not installed"@])
        },
{
    let key = tool_key_for(config, requested);
    if lock.tool.contains_key(key.as_str()) {
        Ok(key)
    } else {
        Err(Failure::new(strings::cat2(key.as_str(), " is not installed")))
    }
}

/// Takes a removed tool out of the records.
pub fn forget(lock: &mut Lock, key: &str) -> (r: String)
    ensures
        final(lock)@ == old(lock)@.remove(key@),
        r@ == key@ + ": removed"@,
{
    let ghost before = lock@;
    let _removed = lock.tool.remove(key);
    assert(lock@ =~= before.remove(key@));
    strings::cat2(key, ": removed")
}

/// The file whose lock serializes the commands that change something. It can
/// be found without the configuration.
pub fn state_lock_path(home: &str) -> (r: String)
    ensures
        forall|prefix: Seq<char>| r@ == #[trigger] paths::layout(home@, prefix).lock_file,
{
    let layout = Layout::new(home, "~");
    assert(layout.lock_file@ == layout@.lock_file);
    layout.lock_file
}

/// What is said where the configuration has an entry for the program itself.
pub fn redundant_entry_warning(config: &Config) -> (r: Option<String>)
    ensures
        text::opt_text(r) == match config::resolution(*config, "rig"@) {
            Some(_) => Some(
                "rig: warning: the `[[repo]] gitduk/rig` config entry is redundant — rig updates itself via `rig update --self`; you can remove it"@,
            ),
            None => None,
        },
{
    match config::resolve_tool(config, "rig") {
        Some(_) => Some(
            "rig: warning: the `[[repo]] gitduk/rig` config entry is redundant — rig updates itself via `rig update --self`; you can remove it".to_owned(),
        ),
        None => None,
    }
}

/// Every command of the help text has a row, in the order that was given, with
/// its names and its description; `help` follows unless it was given.
pub proof fn lemma_every_command_has_a_row(rows: Seq<CommandRow>, i: int)
    requires
        0 <= i < rows.len(),
    ensures
        cells(rows)[i] == (row_name(rows[i]), rows[i].about@),
        cells(rows).len() == rows.len() || cells(rows).len() == rows.len() + 1,
        cells(rows).len() == rows.len() <==> exists|j: int|
            0 <= j < rows.len() && row_name(#[trigger] rows[j]) == "help"@,
        cells(rows).len() == rows.len() + 1 ==> cells(rows).last().0 == "help"@,
{
    let listed = Seq::new(rows.len(), |k: int| (row_name(rows[k]), rows[k].about@));
    if exists|j: int| 0 <= j < rows.len() && row_name(#[trigger] rows[j]) == "help"@ {
        let j = choose|j: int| 0 <= j < rows.len() && row_name(#[trigger] rows[j]) == "help"@;
        assert(listed[j].0 == "help"@);
    }
    if exists|j: int| 0 <= j < listed.len() && (#[trigger] listed[j]).0 == "help"@ {
        let j = choose|j: int| 0 <= j < listed.len() && (#[trigger] listed[j]).0 == "help"@;
        assert(row_name(rows[j]) == "help"@);
    }
}

/// The column of names is as wide as the widest of them, and no wider.
pub proof fn lemma_width_of_the_names(cells: Seq<(Seq<char>, Seq<char>)>)
    ensures
        forall|i: int| 0 <= i < cells.len() ==> byte_len((#[trigger] cells[i]).0) <= width_of(cells),
        cells.len() == 0 ==> width_of(cells) == 0,
        width_of(cells) > 0 ==> exists|i: int|
            0 <= i < cells.len() && byte_len((#[trigger] cells[i]).0) == width_of(cells),
    decreases cells.len(),
{
    if cells.len() > 0 {
        let front = cells.drop_last();
        let last = cells.len() - 1;
        lemma_width_of_the_names(front);
        assert forall|i: int| 0 <= i < cells.len() implies byte_len((#[trigger] cells[i]).0)
            <= width_of(cells) by {
            if i < last {
                assert(front[i] == cells[i]);
            }
        }
        if width_of(cells) > 0 {
            if byte_len(cells.last().0) > width_of(front) {
                assert(byte_len(cells[last].0) == width_of(cells));
            } else {
                let i = choose|i: int|
                    0 <= i < front.len() && byte_len((#[trigger] front[i]).0) == width_of(front);
                assert(cells[i] == front[i]);
            }
        }
    }
}

/// Padding adds spaces at the end and changes nothing else.
pub proof fn lemma_padding(s: Seq<char>, width: usize)
    ensures
        s.is_prefix_of(padded(s, width)),
        padded(s, width).len() == if s.len() < width {
            width as nat
        } else {
            s.len()
        },
        forall|i: int| s.len() <= i < padded(s, width).len() ==> padded(s, width)[i] == ' ',
{
    assert(padded(s, width).take(s.len() as int) =~= s);
}

/// Without color, what lies behind an error is shown as text alone: a line
/// that is taken away or put in keeps its sign, a line of context loses its
/// mark, and any other is indented.
pub proof fn lemma_plain_cause(rest: Seq<char>, other: Seq<char>)
    requires
        !"- "@.is_prefix_of(other),
        !"+ "@.is_prefix_of(other),
        !"| "@.is_prefix_of(other),
    ensures
        cause_line("- "@ + rest, false) == "  - "@ + rest,
        cause_line("+ "@ + rest, false) == "  + "@ + rest,
        cause_line("| "@ + rest, false) == "    "@ + rest,
        cause_line(other, false) == "  "@ + other,
{
    reveal_strlit("");
    reveal_strlit("- ");
    reveal_strlit("+ ");
    reveal_strlit("| ");
    let a = "- "@ + rest;
    let b = "+ "@ + rest;
    let c = "| "@ + rest;
    assert(a.take(2) =~= "- "@);
    assert(a.skip(2) =~= rest);
    assert(b.take(2) =~= "+ "@);
    assert(b.skip(2) =~= rest);
    assert(c.take(2) =~= "| "@);
    assert(c.skip(2) =~= rest);
    assert(b[0] == '+' && c[0] == '|');
    if "- "@.is_prefix_of(b) {
        assert(b[0] == "- "@[0]);
    }
    if "- "@.is_prefix_of(c) {
        assert(c[0] == "- "@[0]);
    }
    if "+ "@.is_prefix_of(c) {
        assert(c[0] == "+ "@[0]);
    }
    assert(cause_line(a, false) =~= "  - "@ + rest);
    assert(cause_line(b, false) =~= "  + "@ + rest);
    assert(cause_line(other, false) =~= "  "@ + other);
}

/// With color, a line that is taken away is red, one that is put in is green,
/// and each ends in the sequence that turns color off.
pub proof fn lemma_colored_cause(rest: Seq<char>)
    ensures
        cause_line("- "@ + rest, true) == "\x1b[1;31m"@ + "  - "@ + rest + "\x1b[0m"@,
        cause_line("+ "@ + rest, true) == "\x1b[1;32m"@ + "  + "@ + rest + "\x1b[0m"@,
{
    reveal_strlit("- ");
    reveal_strlit("+ ");
    let a = "- "@ + rest;
    let b = "+ "@ + rest;
    assert(a.take(2) =~= "- "@);
    assert(a.skip(2) =~= rest);
    assert(b.take(2) =~= "+ "@);
    assert(b.skip(2) =~= rest);
    if "- "@.is_prefix_of(b) {
        assert(b[0] == "- "@[0]);
    }
}

proof fn lemma_all_causes(causes: Seq<Seq<char>>, color: bool, i: int, j: int)
    requires
        0 <= i < causes.len(),
        0 <= j < text::lines(causes[i]).len(),
    ensures
        all_causes(causes, color).contains(cause_line(text::lines(causes[i])[j], color)),
    decreases causes.len(),
{
    let front = all_causes(causes.drop_last(), color);
    let last = cause_lines(causes.last(), color);
    let line = cause_line(text::lines(causes[i])[j], color);
    if i < causes.len() - 1 {
        lemma_all_causes(causes.drop_last(), color, i, j);
        let k = choose|k: int| 0 <= k < front.len() && front[k] == line;
        assert((front + last)[k] == line);
    } else {
        assert(last[j] == line);
        assert((front + last)[front.len() + j] == line);
    }
}

/// An error is shown whole: its message comes first, behind what it is about,
/// and every line of everything that lies behind it is shown.
pub proof fn lemma_error_is_shown_whole(
    prefix: Option<Seq<char>>,
    chain: Seq<Seq<char>>,
    color: bool,
    i: int,
    j: int,
)
    requires
        0 < i < chain.len(),
        0 <= j < text::lines(chain[i]).len(),
    ensures
        error_lines(prefix, chain, color).contains(cause_line(text::lines(chain[i])[j], color)),
        !color && prefix is Some ==> error_lines(prefix, chain, color)[0] == prefix->0 + ":"@ + " "@
            + chain[0],
        !color && prefix is None ==> error_lines(prefix, chain, color)[0] == "error"@ + ":"@ + " "@
            + chain[0],
{
    reveal_strlit("");
    let causes = chain.skip(1);
    assert(causes[i - 1] == chain[i]);
    lemma_all_causes(causes, color, i - 1, j);
    let shown = error_lines(prefix, chain, color);
    let line = cause_line(text::lines(chain[i])[j], color);
    let rest = all_causes(causes, color);
    let k = choose|k: int| 0 <= k < rest.len() && rest[k] == line;
    assert(shown[k + 1] == line);
    if !color {
        let about = match prefix {
            Some(p) => p,
            None => "error"@,
        };
        assert(shown[0] =~= about + ":"@ + " "@ + chain[0]);
    }
}

/// A text stands for the tool that it addresses, by key, full name or command,
/// and for itself where there is none.
pub proof fn lemma_what_a_text_stands_for(config: Config, requested: Seq<char>)
    ensures
        (exists|i: int|
            {
                &&& 0 <= i < config::entries(config).len()
                &&& config::answers_to(#[trigger] config::entries(config)[i], requested)
                &&& key_for(config, requested) == config::entries(config)[i].key_text()
            }) || ((forall|i: int|
            0 <= i < config::entries(config).len() ==> !config::answers_to(
                #[trigger] config::entries(config)[i],
                requested,
            )) && key_for(config, requested) == requested),
{
    let all = config::entries(config);
    config::lemma_first_answer(all, requested, 0);
    if let Some(e) = config::resolution(config, requested) {
        let i = choose|i: int|
            {
                &&& 0 <= i < all.len()
                &&& all[i] == e
                &&& config::answers_to(e, requested)
                &&& forall|j: int| 0 <= j < i ==> !config::answers_to(#[trigger] all[j], requested)
            };
        assert(config::answers_to(all[i], requested));
    }
}

/// Nothing is worked on that was not named.
pub proof fn lemma_only_named_keys(config: Config, requested: Seq<Seq<char>>, key: Seq<char>)
    requires
        keys_once(config, requested).contains(key),
    ensures
        exists|i: int| 0 <= i < requested.len() && key_for(config, #[trigger] requested[i]) == key,
    decreases requested.len(),
{
    if requested.len() > 0 {
        let before = requested.drop_last();
        let front = keys_once(config, before);
        let last = key_for(config, requested.last());
        text::lemma_push_contains(front, last, key);
        if front.contains(key) {
            lemma_only_named_keys(config, before, key);
            let i = choose|i: int|
                0 <= i < before.len() && key_for(config, #[trigger] before[i]) == key;
            assert(requested[i] == before[i]);
        } else {
            assert(key_for(config, requested[requested.len() - 1]) == key);
        }
    }
}

/// How an install begins: it fails exactly for a text that addresses no tool;
/// a recorded tool is only checked exactly if all its commands exist and it has
/// some, or, for a plugin, if its clone exists; in all other cases it is
/// installed.
pub proof fn lemma_install_start(
    config: Config,
    lock: Map<Seq<char>, ToolLockView>,
    requested: Seq<char>,
    existing: Set<Seq<char>>,
)
    ensures
        ({
            let start = install_start(config, lock, requested, existing);
            let found = config::resolution(config, requested);
            let key = found->0.key_text();
            let tool = lock[key];
            let works = if found->0 is Plugin {
                tool.pkg is Some && existing.contains(tool.pkg->0)
            } else {
                tool.bins.len() > 0 && forall|i: int|
                    0 <= i < tool.bins.len() ==> existing.contains(#[trigger] tool.bins[i])
            };
            &&& start is Failed <==> found is None
            &&& found is Some && lock.contains_key(key) && works ==> start == (
            InstallStartView::CheckUpdate { key, from: tool.version })
            &&& found is Some && !(lock.contains_key(key) && works) ==> start == (
            InstallStartView::Install { key })
        }),
{
}

/// An install that did something leaves its own record behind and touches no
/// other; one that found the tool current changes nothing.
pub proof fn lemma_install_is_recorded(
    lock: Map<Seq<char>, ToolLockView>,
    key: Seq<char>,
    fresh: ToolLockView,
    from: Seq<char>,
    other: Seq<char>,
)
    ensures
        recorded(lock, key, InstallOutcomeView::AlreadyCurrent { version: from }) == lock,
        ({
            let first = recorded(lock, key, InstallOutcomeView::Installed(fresh));
            let again = recorded(lock, key, InstallOutcomeView::Updated { from, lock: fresh });
            &&& first == again
            &&& first.contains_key(key) && first[key] == fresh
            &&& other != key ==> (first.contains_key(other) <==> lock.contains_key(other))
            &&& other != key && lock.contains_key(other) ==> first[other] == lock[other]
        }),
{
}

/// What is said names the version, or both, as it is shown.
pub proof fn lemma_what_is_said(from: Seq<char>, to: Seq<char>, fresh: ToolLockView)
    ensures
        updated_text(from, to) == "updated "@ + version::shown(from) + " -> "@ + version::shown(to),
        up_to_date_text(from) == "up to date ("@ + version::shown(from) + ")"@,
        fresh.version == "unversioned"@ ==> install_text(InstallOutcomeView::Installed(fresh))
            == "installed"@,
        fresh.version != "unversioned"@ ==> install_text(InstallOutcomeView::Installed(fresh))
            == "installed "@ + version::shown(fresh.version),
        outcome_text(OutcomeView::EvalRefreshed { cacheable: Some(true) }) == "eval refreshed ("@
            + "cacheable"@ + ")"@,
        outcome_text(OutcomeView::EvalRefreshed { cacheable: Some(false) }) == "eval refreshed ("@
            + "not cacheable, stays live"@ + ")"@,
        outcome_text(OutcomeView::EvalRefreshed { cacheable: None }) == "eval refreshed ("@
            + "probe failed, stays live"@ + ")"@,
{
}

/// A tool of the list is marked as installed exactly if there is a record of
/// it; its key is shown, and its description where it has one.
pub proof fn lemma_list_marks_what_is_installed(
    e: ResolvedEntry<'static>,
    lock: Map<Seq<char>, ToolLockView>,
)
    ensures
        ({
            let line = list_line(e, lock);
            let tail = match e.described() {
                Some(d) => " "@ + e.key_text() + " - "@ + d,
                None => " "@ + e.key_text(),
            };
            &&& lock.contains_key(e.key_text()) ==> line == seq!['\u{25cf}'] + tail
            &&& !lock.contains_key(e.key_text()) ==> line == seq!['\u{25cb}'] + tail
        }),
{
    reveal_strlit("\u{25cf}");
    reveal_strlit("\u{25cb}");
    assert("\u{25cf}"@ =~= seq!['\u{25cf}']);
    assert("\u{25cb}"@ =~= seq!['\u{25cb}']);
    let tail = match e.described() {
        Some(d) => " "@ + e.key_text() + " - "@ + d,
        None => " "@ + e.key_text(),
    };
    if lock.contains_key(e.key_text()) {
        assert(list_line(e, lock) =~= seq!['\u{25cf}'] + tail);
    } else {
        assert(list_line(e, lock) =~= seq!['\u{25cb}'] + tail);
    }
}

/// What came into the configuration is told as added and what left it as
/// removed; what stayed is told as neither, and nothing is told where nothing
/// changed.
pub proof fn lemma_changes_are_told(old: Seq<Seq<char>>, new: Seq<Seq<char>>)
    ensures
        ({
            let lines = diff_lines(old, new);
            let added = without(new, old.to_set());
            let removed = without(old, new.to_set());
            &&& forall|name: Seq<char>| #[trigger]
                added.contains(name) <==> new.contains(name) && !old.contains(name)
            &&& forall|name: Seq<char>| #[trigger]
                removed.contains(name) <==> old.contains(name) && !new.contains(name)
            &&& lines.len() == (if added.len() > 0 {
                1int
            } else {
                0int
            }) + (if removed.len() > 0 {
                1int
            } else {
                0int
            })
            &&& added.len() > 0 ==> lines[0] == "+ added: "@ + text::join(added, ", "@)
            &&& removed.len() > 0 ==> lines.last() == "- removed: "@ + text::join(removed, ", "@)
        }),
{
    assert forall|name: Seq<char>| #[trigger]
        without(new, old.to_set()).contains(name) <==> new.contains(name) && !old.contains(
            name,
        ) by {
        lemma_without(new, old.to_set(), name);
    }
    assert forall|name: Seq<char>| #[trigger]
        without(old, new.to_set()).contains(name) <==> old.contains(name) && !new.contains(
            name,
        ) by {
        lemma_without(old, new.to_set(), name);
    }
}

/// The configured keys are exactly those of the entries.
pub proof fn lemma_configured_keys(entries: Seq<ResolvedEntry<'static>>, key: Seq<char>)
    ensures
        entry_keys(entries).contains(key) <==> exists|i: int|
            0 <= i < entries.len() && (#[trigger] entries[i]).key_text() == key,
    decreases entries.len(),
{
    if entries.len() > 0 {
        let front = entries.drop_last();
        let last = entries.len() - 1;
        lemma_configured_keys(front, key);
        if entry_keys(front).contains(key) {
            let i = choose|i: int| 0 <= i < front.len() && (#[trigger] front[i]).key_text() == key;
            assert(entries[i] == front[i]);
        }
        if exists|i: int| 0 <= i < entries.len() && (#[trigger] entries[i]).key_text() == key {
            let i = choose|i: int|
                0 <= i < entries.len() && (#[trigger] entries[i]).key_text() == key;
            if i < last {
                assert(front[i] == entries[i]);
            }
        }
        assert(entries[last] == entries.last());
    }
}

proof fn lemma_provider_from(entries: Seq<ResolvedEntry<'static>>, command: Seq<char>, from: int)
    requires
        0 <= from,
    ensures
        match provider_from(entries, command, from) {
            Some(key) => exists|i: int|
                {
                    &&& from <= i < entries.len()
                    &&& (#[trigger] entries[i]).commands().contains(command)
                    &&& entries[i].key_text() == key
                    &&& forall|j: int|
                        from <= j < i ==> !(#[trigger] entries[j]).commands().contains(command)
                },
            None => forall|j: int|
                from <= j < entries.len() ==> !(#[trigger] entries[j]).commands().contains(command),
        },
    decreases entries.len() - from,
{
    if from < entries.len() && !entries[from].commands().contains(command) {
        lemma_provider_from(entries, command, from + 1);
        if let Some(key) = provider_from(entries, command, from + 1) {
            let i = choose|i: int|
                {
                    &&& from + 1 <= i < entries.len()
                    &&& (#[trigger] entries[i]).commands().contains(command)
                    &&& entries[i].key_text() == key
                    &&& forall|j: int|
                        from + 1 <= j < i ==> !(#[trigger] entries[j]).commands().contains(command)
                };
            assert(entries[i].commands().contains(command));
        }
    }
}

/// A command is provided by the first tool that has it among its commands, and
/// by none exactly if none has it.
pub proof fn lemma_who_provides_a_command(config: Config, command: Seq<char>)
    ensures
        match provider_from(config::entries(config), command, 0) {
            Some(key) => exists|i: int|
                {
                    &&& 0 <= i < config::entries(config).len()
                    &&& (#[trigger] config::entries(config)[i]).commands().contains(command)
                    &&& config::entries(config)[i].key_text() == key
                    &&& forall|j: int|
                        0 <= j < i ==> !(#[trigger] config::entries(config)[j]).commands().contains(
                            command,
                        )
                },
            None => forall|j: int|
                0 <= j < config::entries(config).len() ==> !(#[trigger] config::entries(
                    config,
                )[j]).commands().contains(command),
        },
{
    lemma_provider_from(config::entries(config), command, 0);
}

/// A line of a diagnosis says how bad it is, and then what it is.
pub proof fn lemma_finding_line(message: Seq<char>)
    ensures
        finding_line(doctor::FindingView { severity: Severity::Warning, message }) == "["@
            + "warning"@ + "] "@ + message,
        finding_line(doctor::FindingView { severity: Severity::Info, message }) == "["@ + "info"@
            + "] "@ + message,
{
}

} // verus!
