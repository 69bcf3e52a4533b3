//! The configuration: the entries of its seven source types, and the ways to
//! look at one of them without caring which type it is of.

use vstd::prelude::*;

use crate::path;
use crate::strings;
use crate::table::Table;
use crate::text;
use crate::text::Class;

verus! {

#[derive(Debug)]
pub struct Config {
    pub settings: Settings,
    pub repo: Vec<RepoEntry>,
    pub git: Vec<GitEntry>,
    pub cargo: Vec<CargoEntry>,
    pub node: Vec<NodeEntry>,
    pub apt: Vec<AptEntry>,
    pub curl: Vec<CurlEntry>,
    pub plugin: Vec<PluginEntry>,
}

impl Default for Config {
    /// No entries, and the default settings.
    fn default() -> (c: Self)
        ensures
            c.settings.prefix@ == "~/.local"@,
            c.settings.parallel == 8,
            c.repo@.len() == 0,
            c.git@.len() == 0,
            c.cargo@.len() == 0,
            c.node@.len() == 0,
            c.apt@.len() == 0,
            c.curl@.len() == 0,
            c.plugin@.len() == 0,
    {
        Config {
            settings: Settings::default(),
            repo: Vec::new(),
            git: Vec::new(),
            cargo: Vec::new(),
            node: Vec::new(),
            apt: Vec::new(),
            curl: Vec::new(),
            plugin: Vec::new(),
        }
    }
}

#[derive(Debug)]
pub struct Settings {
    /// The install root; commands go to its `bin`.
    pub prefix: String,
    /// How many tools are worked on at once; `1` is strictly serial.
    pub parallel: u32,
}

impl Default for Settings {
    fn default() -> (s: Self)
        ensures
            s.prefix@ == "~/.local"@,
            s.parallel == 8,
    {
        Settings { prefix: "~/.local".to_owned(), parallel: 8 }
    }
}

/// What the entries of all source types but plugins share.
#[derive(Debug)]
pub struct Common {
    pub description: Option<String>,
    pub bin: Option<BinSpec>,
    pub env: Table<String>,
    pub eval: Option<EvalSpec>,
    /// Plain shell text, run verbatim and never captured.
    pub run: Option<RunSpec>,
    pub completions: CompletionsSpec,
    pub setup: Option<SetupSpec>,
    /// Defers `env`, `eval` and `run` to the first use of the command.
    pub lazy: bool,
    /// With `lazy`: `key:widget`, a placeholder ZLE widget that runs the
    /// deferred setup and then binds the key to the real one.
    pub bind: Option<String>,
}

/// A `Common` with nothing configured, to build others from.
pub fn test_common() -> (c: Common)
    ensures
        c.description is None,
        c.bin is None,
        c.env@ == Map::<Seq<char>, String>::empty(),
        c.env.keys().len() == 0,
        c.eval is None,
        c.run is None,
        c.completions == CompletionsSpec::Enabled(true),
        c.setup is None,
        !c.lazy,
        c.bind is None,
{
    Common {
        description: None,
        bin: None,
        env: Table::new(),
        eval: None,
        run: None,
        completions: default_completions(),
        setup: None,
        lazy: false,
        bind: None,
    }
}

/// The commands that an entry exposes.
#[derive(Debug)]
pub enum BinSpec {
    Single(String),
    Multiple(Vec<String>),
    /// From a path glob to the name of a command.
    Mapped(Table<String>),
}

/// The command names that a `bin` field declares; `default` if there is none.
pub open spec fn declared(bin: Option<&BinSpec>, default: Seq<char>) -> Seq<Seq<char>> {
    match bin {
        None => seq![default],
        Some(BinSpec::Single(name)) => seq![name@],
        Some(BinSpec::Multiple(names)) => text::texts(names@),
        Some(BinSpec::Mapped(map)) => text::texts(map.values()),
    }
}

impl BinSpec {
    /// The command names as declared, whether or not anything is installed.
    pub fn declared_names(bin: Option<&BinSpec>, default: &str) -> (r: Vec<String>)
        ensures
            text::texts(r@) == declared(bin, default@),
    {
        match bin {
            None => {
                let r = vec![default.to_owned()];
                assert(text::texts(r@) =~= seq![default@]);
                r
            },
            Some(BinSpec::Single(name)) => {
                let r = vec![name.clone()];
                assert(text::texts(r@) =~= seq![name@]);
                r
            },
            Some(BinSpec::Multiple(names)) => strings::clone_texts(names),
            Some(BinSpec::Mapped(map)) => table_values(map),
        }
    }
}

/// The values of a table, in the order of its keys.
pub fn table_values(map: &Table<String>) -> (r: Vec<String>)
    ensures
        r@ == map.values(),
{
    let mut r: Vec<String> = Vec::new();
    let n = map.len();
    let mut i: usize = 0;
    while i < n
        invariant
            i <= n,
            n == map.keys().len(),
            n == map.values().len(),
            r@ == map.values().take(i as int),
        decreases n - i,
    {
        r.push(map.value(i).clone());
        i += 1;
        assert(map.values().take(i as int) =~= map.values().take(i - 1).push(map.values()[i - 1]));
    }
    assert(map.values().take(i as int) =~= map.values());
    r
}

#[derive(Debug)]
pub enum CompletionsSpec {
    /// Whether to link the `_*` files of the install.
    Enabled(bool),
    /// Run a generator in the install directory first.
    Generate { generate: String },
    /// Link one file.
    Path { path: String },
}

pub fn default_completions() -> (c: CompletionsSpec)
    ensures
        c == CompletionsSpec::Enabled(true),
{
    CompletionsSpec::Enabled(true)
}

/// A command whose output the shell evaluates.
#[derive(Debug)]
pub enum EvalSpec {
    Cmd(String),
    Detailed {
        cmd: String,
        /// Whether the output may be cached; `None` leaves it to a probe.
        cache: Option<bool>,
    },
}

impl EvalSpec {
    pub open spec fn cmd_text(self) -> Seq<char> {
        match self {
            EvalSpec::Cmd(cmd) => cmd@,
            EvalSpec::Detailed { cmd, .. } => cmd@,
        }
    }

    pub open spec fn cache_choice(self) -> Option<bool> {
        match self {
            EvalSpec::Cmd(_) => None,
            EvalSpec::Detailed { cache, .. } => cache,
        }
    }

    pub fn command(&self) -> (r: &str)
        ensures
            r@ == self.cmd_text(),
    {
        match self {
            EvalSpec::Cmd(cmd) => cmd.as_str(),
            EvalSpec::Detailed { cmd, .. } => cmd.as_str(),
        }
    }

    pub fn cache_override(&self) -> (r: Option<bool>)
        ensures
            r == self.cache_choice(),
    {
        match self {
            EvalSpec::Cmd(_) => None,
            EvalSpec::Detailed { cache, .. } => *cache,
        }
    }
}

/// Shell text for `run`, taken verbatim.
#[derive(Debug)]
pub enum RunSpec {
    /// One line, or a block of several.
    Single(String),
    Multiple(Vec<String>),
}

/// The texts that hold more than white space.
pub open spec fn nonblank(parts: Seq<Seq<char>>) -> Seq<Seq<char>>
    decreases parts.len(),
{
    if parts.len() == 0 {
        parts
    } else if text::trim(parts[0]).len() == 0 {
        nonblank(parts.skip(1))
    } else {
        seq![parts[0]] + nonblank(parts.skip(1))
    }
}

impl RunSpec {
    pub open spec fn statements(self) -> Seq<Seq<char>> {
        match self {
            RunSpec::Single(block) => nonblank(text::lines(block@)),
            RunSpec::Multiple(lines) => text::texts(lines@),
        }
    }

    /// The statements, one per line; a block loses its blank lines.
    pub fn lines(&self) -> (r: Vec<&str>)
        ensures
            text::strs(r@) == self.statements(),
    {
        match self {
            RunSpec::Single(block) => {
                let all = strings::lines(block.as_str());
                let ghost parts = text::strs(all@);
                let mut out: Vec<&str> = Vec::new();
                let mut i: usize = 0;
                assert(parts.skip(0) =~= parts);
                assert(text::strs(out@) + nonblank(parts) =~= nonblank(parts));
                while i < all.len()
                    invariant
                        i <= all.len(),
                        parts == text::strs(all@),
                        text::strs(out@) + nonblank(parts.skip(i as int)) == nonblank(parts),
                    decreases all.len() - i,
                {
                    let line = all[i];
                    proof {
                        assert(parts.skip(i as int)[0] == line@);
                        assert(parts.skip(i as int).skip(1) =~= parts.skip(i + 1));
                        assert(text::strs(out@.push(line)) =~= text::strs(out@).push(line@));
                        assert(text::strs(out@).push(line@) + nonblank(parts.skip(i + 1))
                            =~= text::strs(out@) + (seq![line@] + nonblank(parts.skip(i + 1))));
                    }
                    if !strings::trim(line).is_empty() {
                        out.push(line);
                    }
                    i += 1;
                }
                assert(text::strs(out@) + nonblank(parts.skip(i as int)) =~= text::strs(out@));
                out
            },
            RunSpec::Multiple(lines) => {
                let mut out: Vec<&str> = Vec::new();
                let mut i: usize = 0;
                while i < lines.len()
                    invariant
                        i <= lines.len(),
                        text::strs(out@) == text::texts(lines@).take(i as int),
                    decreases lines.len() - i,
                {
                    let line = lines[i].as_str();
                    assert(text::strs(out@.push(line)) =~= text::strs(out@).push(line@));
                    out.push(line);
                    i += 1;
                    assert(text::texts(lines@).take(i as int) =~= text::texts(lines@).take(
                        i - 1,
                    ).push(line@));
                }
                assert(text::texts(lines@).take(i as int) =~= text::texts(lines@));
                out
            },
        }
    }
}

/// The hook that is run during an install.
#[derive(Debug)]
pub enum SetupSpec {
    Single(String),
    Multiple(Vec<String>),
    Split { install: String, update: String },
}

#[derive(Debug, Clone, Copy, PartialEq, Eq, Structural)]
pub enum Host {
    Github,
    Codeberg,
}

impl Host {
    pub open spec fn prefix_text(self) -> Seq<char> {
        match self {
            Host::Github => "github"@,
            Host::Codeberg => "codeberg"@,
        }
    }

    /// What the `source` field of a lock entry starts with.
    pub fn prefix(self) -> (r: &'static str)
        ensures
            r@ == self.prefix_text(),
    {
        match self {
            Host::Github => "github",
            Host::Codeberg => "codeberg",
        }
    }
}

pub fn default_host() -> (h: Host)
    ensures
        h == Host::Github,
{
    Host::Github
}

/// The globs that select a release asset.
#[derive(Debug)]
pub enum BpickSpec {
    Single(String),
    Multiple(Vec<String>),
}

/// A release binary of GitHub or Codeberg.
#[derive(Debug)]
pub struct RepoEntry {
    pub name: String,
    pub host: Host,
    pub bpick: Option<BpickSpec>,
    /// `None` detects the format; `Some(false)` is a raw binary.
    pub extract: Option<bool>,
    pub common: Common,
}

/// A source build.
#[derive(Debug)]
pub struct GitEntry {
    pub name: String,
    pub host: Host,
    pub common: Common,
}

/// A crate for `cargo install`.
#[derive(Debug)]
pub struct CargoEntry {
    pub name: String,
    pub common: Common,
}

/// A node package.
#[derive(Debug)]
pub struct NodeEntry {
    pub name: String,
    pub manager: NodeManager,
    pub common: Common,
}

/// `Auto` looks for bun and then for npm; the others never fall back.
#[derive(Debug, Clone, Copy, PartialEq, Eq, Structural)]
pub enum NodeManager {
    Auto,
    Bun,
    Npm,
}

impl Default for NodeManager {
    fn default() -> (m: Self)
        ensures
            m == NodeManager::Auto,
    {
        NodeManager::Auto
    }
}

/// A system package.
#[derive(Debug)]
pub struct AptEntry {
    pub name: String,
    pub common: Common,
}

/// An install script that is fetched and run.
#[derive(Debug)]
pub struct CurlEntry {
    pub name: String,
    pub url: String,
    pub common: Common,
}

/// A zsh plugin: cloned and sourced, never invoked by name.
#[derive(Debug)]
pub struct PluginEntry {
    pub name: String,
    pub description: Option<String>,
    pub source: Option<String>,
    /// Shell text that is run right after the plugin is sourced.
    pub run: Option<RunSpec>,
}

/// The last segment of a name.
pub open spec fn short_name(name: Seq<char>) -> Seq<char> {
    name.skip(path::last_separator(name) as int)
}

/// The default command name of a tool, and its short identity.
pub fn tool_key(name: &str) -> (r: &str)
    ensures
        r@ == short_name(name@),
{
    let v = strings::chars_of(name);
    let start = path::last_separator_in(&v);
    proof {
        path::lemma_last_separator(name@);
    }
    let r = name.substring_char(start, v.len());
    assert(r@ =~= short_name(name@));
    r
}

/// One entry of any source type.
#[derive(Debug)]
pub enum ResolvedEntry<'a> {
    Repo(&'a RepoEntry),
    Git(&'a GitEntry),
    Cargo(&'a CargoEntry),
    Node(&'a NodeEntry),
    Apt(&'a AptEntry),
    Curl(&'a CurlEntry),
    Plugin(&'a PluginEntry),
}

impl<'a> ResolvedEntry<'a> {
    pub open spec fn name_text(self) -> Seq<char> {
        match self {
            Self::Repo(e) => e.name@,
            Self::Git(e) => e.name@,
            Self::Cargo(e) => e.name@,
            Self::Node(e) => e.name@,
            Self::Apt(e) => e.name@,
            Self::Curl(e) => e.name@,
            Self::Plugin(e) => e.name@,
        }
    }

    pub open spec fn shared(self) -> Option<Common> {
        match self {
            Self::Repo(e) => Some(e.common),
            Self::Git(e) => Some(e.common),
            Self::Cargo(e) => Some(e.common),
            Self::Node(e) => Some(e.common),
            Self::Apt(e) => Some(e.common),
            Self::Curl(e) => Some(e.common),
            Self::Plugin(_) => None,
        }
    }

    pub open spec fn key_text(self) -> Seq<char> {
        match self {
            Self::Node(e) => e.name@,
            other => short_name(other.name_text()),
        }
    }

    /// The command names that the entry provides; a plugin provides none.
    pub open spec fn commands(self) -> Seq<Seq<char>> {
        match self.shared() {
            Some(c) => declared(bin_of(c), short_name(self.name_text())),
            None => seq![],
        }
    }

    pub fn name(&self) -> (r: &'a str)
        ensures
            r@ == self.name_text(),
    {
        match self {
            Self::Repo(e) => e.name.as_str(),
            Self::Git(e) => e.name.as_str(),
            Self::Cargo(e) => e.name.as_str(),
            Self::Node(e) => e.name.as_str(),
            Self::Apt(e) => e.name.as_str(),
            Self::Curl(e) => e.name.as_str(),
            Self::Plugin(e) => e.name.as_str(),
        }
    }

    /// What the entry shares with other types; a plugin has no such part.
    pub fn common(&self) -> (r: Option<&'a Common>)
        ensures
            match r {
                Some(c) => self.shared() == Some(*c),
                None => self.shared() is None,
            },
    {
        match self {
            Self::Repo(e) => Some(&e.common),
            Self::Git(e) => Some(&e.common),
            Self::Cargo(e) => Some(&e.common),
            Self::Node(e) => Some(&e.common),
            Self::Apt(e) => Some(&e.common),
            Self::Curl(e) => Some(&e.common),
            Self::Plugin(_) => None,
        }
    }

    pub open spec fn described(self) -> Option<Seq<char>> {
        match self {
            Self::Plugin(e) => text::opt_text(e.description),
            other => match other.shared() {
                Some(c) => text::opt_text(c.description),
                None => None,
            },
        }
    }

    pub fn description(&self) -> (r: Option<&'a str>)
        ensures
            match r {
                Some(d) => self.described() == Some(d@),
                None => self.described() is None,
            },
    {
        match self {
            Self::Plugin(e) => match &e.description {
                Some(d) => Some(d.as_str()),
                None => None,
            },
            other => match other.common() {
                Some(c) => match &c.description {
                    Some(d) => Some(d.as_str()),
                    None => None,
                },
                None => None,
            },
        }
    }

    /// The lock key: the full, possibly scoped name of a node package, the
    /// last segment of any other name.
    pub fn key(&self) -> (r: String)
        ensures
            r@ == self.key_text(),
    {
        match self {
            Self::Node(e) => e.name.clone(),
            other => tool_key(other.name()).to_owned(),
        }
    }

    /// The command names that the entry provides; a plugin provides none.
    pub fn command_names(&self) -> (r: Vec<String>)
        ensures
            text::texts(r@) == self.commands(),
    {
        match self.common() {
            Some(c) => BinSpec::declared_names(c.bin.as_ref(), tool_key(self.name())),
            None => {
                let r: Vec<String> = Vec::new();
                assert(text::texts(r@) =~= seq![]);
                r
            },
        }
    }
}

/// The `bin` field, borrowed.
pub open spec fn bin_of(c: Common) -> Option<&'static BinSpec> {
    match c.bin {
        Some(b) => Some(&b),
        None => None,
    }
}

/// All entries, one source type after the other, each in its order.
pub open spec fn entries(config: Config) -> Seq<ResolvedEntry<'static>> {
    Seq::new(config.repo@.len(), |i: int| ResolvedEntry::Repo(&config.repo@[i]))
        + Seq::new(config.git@.len(), |i: int| ResolvedEntry::Git(&config.git@[i]))
        + Seq::new(config.cargo@.len(), |i: int| ResolvedEntry::Cargo(&config.cargo@[i]))
        + Seq::new(config.node@.len(), |i: int| ResolvedEntry::Node(&config.node@[i]))
        + Seq::new(config.apt@.len(), |i: int| ResolvedEntry::Apt(&config.apt@[i]))
        + Seq::new(config.curl@.len(), |i: int| ResolvedEntry::Curl(&config.curl@[i]))
        + Seq::new(config.plugin@.len(), |i: int| ResolvedEntry::Plugin(&config.plugin@[i]))
}

/// All entries, one source type after the other, each in its order.
pub fn all_entries<'a>(config: &'a Config) -> (r: Vec<ResolvedEntry<'a>>)
    ensures
        r@ == entries(*config),
{
    let mut out: Vec<ResolvedEntry<'a>> = Vec::new();
    let ghost so_far = out@;
    let ghost part = Seq::new(config.repo@.len(), |i: int| ResolvedEntry::Repo(&config.repo@[i]));
    let mut i: usize = 0;
    while i < config.repo.len()
        invariant
            i <= config.repo.len(),
            part == Seq::new(config.repo@.len(), |i: int| ResolvedEntry::Repo(&config.repo@[i])),
            out@ == so_far + part.take(i as int),
        decreases config.repo.len() - i,
    {
        out.push(ResolvedEntry::Repo(&config.repo[i]));
        i += 1;
        assert(part.take(i as int) =~= part.take(i - 1).push(part[i - 1]));
    }
    assert(part.take(i as int) =~= part);
    let ghost so_far = out@;
    let ghost part = Seq::new(config.git@.len(), |i: int| ResolvedEntry::Git(&config.git@[i]));
    let mut i: usize = 0;
    while i < config.git.len()
        invariant
            i <= config.git.len(),
            part == Seq::new(config.git@.len(), |i: int| ResolvedEntry::Git(&config.git@[i])),
            out@ == so_far + part.take(i as int),
        decreases config.git.len() - i,
    {
        out.push(ResolvedEntry::Git(&config.git[i]));
        i += 1;
        assert(part.take(i as int) =~= part.take(i - 1).push(part[i - 1]));
    }
    assert(part.take(i as int) =~= part);
    let ghost so_far = out@;
    let ghost part = Seq::new(config.cargo@.len(), |i: int| ResolvedEntry::Cargo(&config.cargo@[i]));
    let mut i: usize = 0;
    while i < config.cargo.len()
        invariant
            i <= config.cargo.len(),
            part == Seq::new(config.cargo@.len(), |i: int| ResolvedEntry::Cargo(&config.cargo@[i])),
            out@ == so_far + part.take(i as int),
        decreases config.cargo.len() - i,
    {
        out.push(ResolvedEntry::Cargo(&config.cargo[i]));
        i += 1;
        assert(part.take(i as int) =~= part.take(i - 1).push(part[i - 1]));
    }
    assert(part.take(i as int) =~= part);
    let ghost so_far = out@;
    let ghost part = Seq::new(config.node@.len(), |i: int| ResolvedEntry::Node(&config.node@[i]));
    let mut i: usize = 0;
    while i < config.node.len()
        invariant
            i <= config.node.len(),
            part == Seq::new(config.node@.len(), |i: int| ResolvedEntry::Node(&config.node@[i])),
            out@ == so_far + part.take(i as int),
        decreases config.node.len() - i,
    {
        out.push(ResolvedEntry::Node(&config.node[i]));
        i += 1;
        assert(part.take(i as int) =~= part.take(i - 1).push(part[i - 1]));
    }
    assert(part.take(i as int) =~= part);
    let ghost so_far = out@;
    let ghost part = Seq::new(config.apt@.len(), |i: int| ResolvedEntry::Apt(&config.apt@[i]));
    let mut i: usize = 0;
    while i < config.apt.len()
        invariant
            i <= config.apt.len(),
            part == Seq::new(config.apt@.len(), |i: int| ResolvedEntry::Apt(&config.apt@[i])),
            out@ == so_far + part.take(i as int),
        decreases config.apt.len() - i,
    {
        out.push(ResolvedEntry::Apt(&config.apt[i]));
        i += 1;
        assert(part.take(i as int) =~= part.take(i - 1).push(part[i - 1]));
    }
    assert(part.take(i as int) =~= part);
    let ghost so_far = out@;
    let ghost part = Seq::new(config.curl@.len(), |i: int| ResolvedEntry::Curl(&config.curl@[i]));
    let mut i: usize = 0;
    while i < config.curl.len()
        invariant
            i <= config.curl.len(),
            part == Seq::new(config.curl@.len(), |i: int| ResolvedEntry::Curl(&config.curl@[i])),
            out@ == so_far + part.take(i as int),
        decreases config.curl.len() - i,
    {
        out.push(ResolvedEntry::Curl(&config.curl[i]));
        i += 1;
        assert(part.take(i as int) =~= part.take(i - 1).push(part[i - 1]));
    }
    assert(part.take(i as int) =~= part);
    let ghost so_far = out@;
    let ghost part = Seq::new(config.plugin@.len(), |i: int| ResolvedEntry::Plugin(&config.plugin@[i]));
    let mut i: usize = 0;
    while i < config.plugin.len()
        invariant
            i <= config.plugin.len(),
            part == Seq::new(config.plugin@.len(), |i: int| ResolvedEntry::Plugin(&config.plugin@[i])),
            out@ == so_far + part.take(i as int),
        decreases config.plugin.len() - i,
    {
        out.push(ResolvedEntry::Plugin(&config.plugin[i]));
        i += 1;
        assert(part.take(i as int) =~= part.take(i - 1).push(part[i - 1]));
    }
    assert(part.take(i as int) =~= part);
    out
}

/// Whether a tool can be addressed by a text: its key, its full name, or one
/// of the command names that it declares.
pub open spec fn answers_to(e: ResolvedEntry<'_>, requested: Seq<char>) -> bool {
    ||| e.key_text() == requested
    ||| e.name_text() == requested
    ||| e.commands().contains(requested)
}

/// The first of the entries, not before `from`, that answers to a text.
pub open spec fn first_answer(
    all: Seq<ResolvedEntry<'static>>,
    requested: Seq<char>,
    from: int,
) -> Option<ResolvedEntry<'static>>
    decreases all.len() - from,
{
    if from < 0 || from >= all.len() {
        None
    } else if answers_to(all[from], requested) {
        Some(all[from])
    } else {
        first_answer(all, requested, from + 1)
    }
}

/// The entry that a text addresses: the first one that answers to it.
pub open spec fn resolution(config: Config, requested: Seq<char>) -> Option<
    ResolvedEntry<'static>,
> {
    first_answer(entries(config), requested, 0)
}

/// The entry that a text addresses.
pub fn resolve_tool<'a>(config: &'a Config, requested: &str) -> (r: Option<ResolvedEntry<'a>>)
    ensures
        r == resolution(*config, requested@),
{
    let all = all_entries(config);
    let mut i: usize = 0;
    while i < all.len()
        invariant
            i <= all.len(),
            all@ == entries(*config),
            resolution(*config, requested@) == first_answer(entries(*config), requested@, i as int),
        decreases all.len() - i,
    {
        if strings::same(all[i].key().as_str(), requested) || strings::same(
            all[i].name(),
            requested,
        ) || strings::is_among(&all[i].command_names(), requested) {
            return Some(reborrow(&all[i]));
        }
        i += 1;
    }
    None
}

/// What `first_answer` gives is the first entry that answers, if there is one.
pub proof fn lemma_first_answer(all: Seq<ResolvedEntry<'static>>, requested: Seq<char>, from: int)
    requires
        0 <= from,
    ensures
        match first_answer(all, requested, from) {
            Some(e) => exists|i: int|
                {
                    &&& from <= i < all.len()
                    &&& all[i] == e
                    &&& answers_to(e, requested)
                    &&& forall|j: int| from <= j < i ==> !answers_to(#[trigger] all[j], requested)
                },
            None => forall|j: int|
                from <= j < all.len() ==> !answers_to(#[trigger] all[j], requested),
        },
    decreases all.len() - from,
{
    if from < all.len() && !answers_to(all[from], requested) {
        lemma_first_answer(all, requested, from + 1);
        if let Some(e) = first_answer(all, requested, from + 1) {
            let i = choose|i: int|
                {
                    &&& from + 1 <= i < all.len()
                    &&& all[i] == e
                    &&& answers_to(e, requested)
                    &&& forall|j: int|
                        from + 1 <= j < i ==> !answers_to(#[trigger] all[j], requested)
                };
            assert(from <= i < all.len() && all[i] == e);
        }
    }
}

/// A tool can be addressed by its key, its full name or any of its commands:
/// such a text finds an entry, and finds this one if none before it answers
/// to the text too.
pub proof fn lemma_every_name_is_answered(config: Config, i: int, requested: Seq<char>)
    requires
        0 <= i < entries(config).len(),
        answers_to(entries(config)[i], requested),
    ensures
        resolution(config, requested) is Some,
        answers_to(resolution(config, requested)->0, requested),
        (forall|j: int| 0 <= j < i ==> !answers_to(#[trigger] entries(config)[j], requested))
            ==> resolution(config, requested) == Some(entries(config)[i]),
{
    let all = entries(config);
    lemma_first_answer(all, requested, 0);
    assert(answers_to(all[i], requested));
}

fn reborrow<'a>(e: &ResolvedEntry<'a>) -> (r: ResolvedEntry<'a>)
    ensures
        r == *e,
{
    match e {
        ResolvedEntry::Repo(e) => ResolvedEntry::Repo(e),
        ResolvedEntry::Git(e) => ResolvedEntry::Git(e),
        ResolvedEntry::Cargo(e) => ResolvedEntry::Cargo(e),
        ResolvedEntry::Node(e) => ResolvedEntry::Node(e),
        ResolvedEntry::Apt(e) => ResolvedEntry::Apt(e),
        ResolvedEntry::Curl(e) => ResolvedEntry::Curl(e),
        ResolvedEntry::Plugin(e) => ResolvedEntry::Plugin(e),
    }
}

/// The line that names an entry in the configuration file.
pub open spec fn name_line(name: Seq<char>) -> Seq<char> {
    "name = \""@ + name + "\""@
}

/// Whether a line of the configuration file opens an entry.
pub open spec fn opens_entry(line: Seq<char>) -> bool {
    "[["@.is_prefix_of(text::trim_start(line, Class::Space))
}

/// The first line, not before `from`, that is `wanted` but for white space around it.
pub open spec fn line_from(lines: Seq<Seq<char>>, wanted: Seq<char>, from: int) -> Option<int>
    decreases lines.len() - from,
{
    if from < 0 || from >= lines.len() {
        None
    } else if text::trim(lines[from]) == wanted {
        Some(from)
    } else {
        line_from(lines, wanted, from + 1)
    }
}

/// The last line before `before` that opens an entry.
pub open spec fn opening_before(lines: Seq<Seq<char>>, before: int) -> Option<int>
    decreases before,
{
    if before <= 0 || before > lines.len() {
        None
    } else if opens_entry(lines[before - 1]) {
        Some(before - 1)
    } else {
        opening_before(lines, before - 1)
    }
}

/// The first line, not before `from`, that opens an entry, or the end.
pub open spec fn opening_from(lines: Seq<Seq<char>>, from: int) -> int
    decreases lines.len() - from,
{
    if from < 0 || from >= lines.len() {
        lines.len() as int
    } else if opens_entry(lines[from]) {
        from
    } else {
        opening_from(lines, from + 1)
    }
}

pub open spec fn trim_all(lines: Seq<Seq<char>>) -> Seq<Seq<char>> {
    Seq::new(lines.len(), |i: int| text::trim(lines[i]))
}

/// The non-blank lines of the entry with a name, trimmed.
pub open spec fn entry_block(lines: Seq<Seq<char>>, name: Seq<char>) -> Option<Seq<Seq<char>>> {
    match line_from(lines, name_line(name), 0) {
        None => None,
        Some(at) => match opening_before(lines, at) {
            None => None,
            Some(start) => Some(
                text::nonempty(trim_all(lines.subrange(start, opening_from(lines, start + 1)))),
            ),
        },
    }
}

/// Whether one of the lines sets a key.
pub open spec fn sets_key(block: Seq<Seq<char>>, key: Seq<char>) -> bool {
    exists|i: int| 0 <= i < block.len() && (key + " ="@).is_prefix_of(#[trigger] block[i])
}

/// The line that a diff adds for a suggested value.
pub open spec fn added_line(key: Seq<char>, value: Seq<char>) -> Seq<char> {
    "+ "@ + key + " = \""@ + value + "\""@
}

/// How a diff shows one line of an entry: a line that sets the key as
/// removed, any other as context, and the suggestion after the line that it
/// replaces or, where none sets the key, after the name.
pub open spec fn diff_line(
    line: Seq<char>,
    name: Seq<char>,
    key: Seq<char>,
    key_set: bool,
    replacement: Option<Seq<char>>,
) -> Seq<Seq<char>> {
    let removed = (key + " ="@).is_prefix_of(line);
    let shown = if removed { "- "@ + line } else { "| "@ + line };
    match replacement {
        Some(value) if removed || (!key_set && line == name_line(name)) => seq![
            shown,
            added_line(key, value),
        ],
        _ => seq![shown],
    }
}

pub open spec fn diff_lines(
    block: Seq<Seq<char>>,
    name: Seq<char>,
    key: Seq<char>,
    key_set: bool,
    replacement: Option<Seq<char>>,
) -> Seq<Seq<char>>
    decreases block.len(),
{
    if block.len() == 0 {
        seq![]
    } else {
        diff_lines(block.drop_last(), name, key, key_set, replacement) + diff_line(
            block.last(),
            name,
            key,
            key_set,
            replacement,
        )
    }
}

/// The diff of the entry with a name in the text of a configuration file.
pub open spec fn entry_diff(
    file: Seq<char>,
    name: Seq<char>,
    key: Seq<char>,
    replacement: Option<Seq<char>>,
) -> Option<Seq<char>> {
    match entry_block(text::lines(file), name) {
        None => None,
        Some(block) => Some(
            text::join(diff_lines(block, name, key, sets_key(block, key), replacement), "\n"@),
        ),
    }
}

fn line_opens_entry(line: &str) -> (r: bool)
    ensures
        r == opens_entry(line@),
{
    strings::starts_with(strings::trim_start(line, Class::Space), "[[")
}

/// The non-blank lines of the entry with a name, trimmed; `None` if the text
/// holds no such entry.
fn find_block<'a>(lines: &Vec<&'a str>, name: &str) -> (r: Option<Vec<&'a str>>)
    ensures
        match r {
            Some(block) => entry_block(text::strs(lines@), name@) == Some(text::strs(block@)),
            None => entry_block(text::strs(lines@), name@) is None,
        },
{
    let wanted = strings::cat3("name = \"", name, "\"");
    let ghost all = text::strs(lines@);
    let n = lines.len();
    let mut at: usize = 0;
    while at < n && !strings::same(strings::trim(lines[at]), wanted.as_str())
        invariant
            at <= n == lines.len(),
            all == text::strs(lines@),
            wanted@ == name_line(name@),
            line_from(all, wanted@, 0) == line_from(all, wanted@, at as int),
        decreases n - at,
    {
        at += 1;
    }
    if at >= n {
        return None;
    }
    let mut above: usize = at;
    while above > 0 && !line_opens_entry(lines[above - 1])
        invariant
            above <= at < n == lines.len(),
            all == text::strs(lines@),
            opening_before(all, at as int) == opening_before(all, above as int),
        decreases above,
    {
        above -= 1;
    }
    if above == 0 {
        return None;
    }
    let start: usize = above - 1;
    let mut end: usize = start + 1;
    while end < n && !line_opens_entry(lines[end])
        invariant
            start + 1 <= end <= n == lines.len(),
            all == text::strs(lines@),
            opening_from(all, start + 1) == opening_from(all, end as int),
        decreases n - end,
    {
        end += 1;
    }
    let ghost part = trim_all(all.subrange(start as int, end as int));
    let mut block: Vec<&'a str> = Vec::new();
    let mut i: usize = start;
    assert(part.skip(0) =~= part);
    assert(text::strs(block@) + text::nonempty(part) =~= text::nonempty(part));
    while i < end
        invariant
            start <= i <= end <= n == lines.len(),
            all == text::strs(lines@),
            part == trim_all(all.subrange(start as int, end as int)),
            text::strs(block@) + text::nonempty(part.skip(i - start)) == text::nonempty(part),
        decreases end - i,
    {
        let line = strings::trim(lines[i]);
        proof {
            let rest = part.skip(i - start);
            assert(rest[0] == line@);
            assert(rest.skip(1) =~= part.skip(i + 1 - start));
            assert(text::strs(block@.push(line)) =~= text::strs(block@).push(line@));
            assert(text::strs(block@).push(line@) + text::nonempty(part.skip(i + 1 - start))
                =~= text::strs(block@) + (seq![line@] + text::nonempty(
                part.skip(i + 1 - start),
            )));
        }
        if !line.is_empty() {
            block.push(line);
        }
        i += 1;
    }
    assert(text::strs(block@) + text::nonempty(part.skip(i - start)) =~= text::strs(block@));
    Some(block)
}

/// Shows an entry of a configuration file the way a diff does, with the line
/// that sets `key` removed and a line with `replacement` added.
pub fn render_entry_diff(
    file: &str,
    name: &str,
    key: &str,
    replacement: Option<&str>,
) -> (r: Option<String>)
    ensures
        text::opt_text(r) == entry_diff(file@, name@, key@, text::opt_str(replacement)),
{
    let lines = strings::lines(file);
    let block = match find_block(&lines, name) {
        Some(block) => block,
        None => {
            return None;
        },
    };
    let ghost all = text::strs(block@);
    let own_line = strings::cat3("name = \"", name, "\"");
    let key_prefix = strings::cat2(key, " =");
    let mut key_set = false;
    let mut i: usize = 0;
    while i < block.len()
        invariant
            i <= block.len(),
            all == text::strs(block@),
            key_prefix@ == key@ + " ="@,
            key_set == exists|j: int|
                0 <= j < i && (key@ + " ="@).is_prefix_of(#[trigger] all[j]),
        decreases block.len() - i,
    {
        if strings::starts_with(block[i], key_prefix.as_str()) {
            key_set = true;
            assert((key@ + " ="@).is_prefix_of(all[i as int]));
        }
        i += 1;
    }
    let ghost rep = text::opt_str(replacement);
    let mut out: Vec<String> = Vec::new();
    let mut i: usize = 0;
    assert(text::texts(out@) =~= seq![]);
    while i < block.len()
        invariant
            i <= block.len(),
            all == text::strs(block@),
            key_prefix@ == key@ + " ="@,
            own_line@ == name_line(name@),
            rep == text::opt_str(replacement),
            key_set == sets_key(all, key@),
            text::texts(out@) == diff_lines(all.take(i as int), name@, key@, key_set, rep),
        decreases block.len() - i,
    {
        let line = block[i];
        let ghost done = text::texts(out@);
        let removed = strings::starts_with(line, key_prefix.as_str());
        let shown = strings::cat2(if removed { "- " } else { "| " }, line);
        let ghost shown_text = shown@;
        out.push(shown);
        assert(text::texts(out@) =~= done.push(shown_text));
        match replacement {
            Some(value) => {
                if removed || (!key_set && strings::same(line, own_line.as_str())) {
                    let added = strings::cat5("+ ", key, " = \"", value, "\"");
                    let ghost added_text = added@;
                    out.push(added);
                    assert(text::texts(out@) =~= done + seq![shown_text, added_text]);
                }
            },
            None => {},
        }
        i += 1;
        proof {
            assert(all.take(i as int).drop_last() =~= all.take(i - 1));
            assert(all.take(i as int).last() == line@);
            assert(done.push(shown_text) =~= done + seq![shown_text]);
        }
    }
    assert(all.take(i as int) =~= all);
    Some(strings::join(&out, "\n"))
}

proof fn lemma_line_from(lines: Seq<Seq<char>>, wanted: Seq<char>, from: int)
    requires
        0 <= from,
        line_from(lines, wanted, from) is Some,
    ensures
        from <= line_from(lines, wanted, from)->0 < lines.len(),
        text::trim(lines[line_from(lines, wanted, from)->0]) == wanted,
    decreases lines.len() - from,
{
    if from < lines.len() && text::trim(lines[from]) != wanted {
        lemma_line_from(lines, wanted, from + 1);
    }
}

proof fn lemma_opening_before(lines: Seq<Seq<char>>, before: int)
    requires
        opening_before(lines, before) is Some,
    ensures
        0 <= opening_before(lines, before)->0 < before <= lines.len(),
        forall|j: int|
            opening_before(lines, before)->0 < j < before ==> !opens_entry(#[trigger] lines[j]),
    decreases before,
{
    if !opens_entry(lines[before - 1]) {
        lemma_opening_before(lines, before - 1);
    }
}

proof fn lemma_opening_from(lines: Seq<Seq<char>>, from: int)
    requires
        0 <= from <= lines.len(),
    ensures
        from <= opening_from(lines, from) <= lines.len(),
        opening_from(lines, from) < lines.len() ==> opens_entry(lines[opening_from(lines, from)]),
    decreases lines.len() - from,
{
    if from < lines.len() && !opens_entry(lines[from]) {
        lemma_opening_from(lines, from + 1);
    }
}

/// The entry with a name holds the line that names it.
proof fn lemma_block_has_name(lines: Seq<Seq<char>>, name: Seq<char>)
    requires
        entry_block(lines, name) is Some,
    ensures
        entry_block(lines, name)->0.contains(name_line(name)),
{
    reveal_strlit("name = \"");
    reveal_strlit("[[");
    let wanted = name_line(name);
    let at = line_from(lines, wanted, 0)->0;
    lemma_line_from(lines, wanted, 0);
    let start = opening_before(lines, at)->0;
    lemma_opening_before(lines, at);
    lemma_opening_from(lines, start + 1);
    let end = opening_from(lines, start + 1);
    let line = lines[at];
    assert(wanted[0] == 'n');
    let trimmed = text::trim_start(line, Class::Space);
    text::lemma_trim_end_is_prefix(trimmed, Class::Space);
    assert(trimmed[0] == wanted[0]);
    if opens_entry(line) {
        assert("[["@[0] == trimmed[0]);
    }
    assert(at < end);
    let parts = trim_all(lines.subrange(start, end));
    assert(parts[at - start] == wanted);
    text::lemma_nonempty_keeps(parts, at - start);
}

proof fn lemma_diff_line_shown(
    block: Seq<Seq<char>>,
    name: Seq<char>,
    key: Seq<char>,
    key_set: bool,
    replacement: Option<Seq<char>>,
    i: int,
    line: Seq<char>,
)
    requires
        0 <= i < block.len(),
        diff_line(block[i], name, key, key_set, replacement).contains(line),
    ensures
        diff_lines(block, name, key, key_set, replacement).contains(line),
    decreases block.len(),
{
    let all = diff_lines(block, name, key, key_set, replacement);
    let front = diff_lines(block.drop_last(), name, key, key_set, replacement);
    let last = diff_line(block.last(), name, key, key_set, replacement);
    if i == block.len() - 1 {
        let j = choose|j: int| 0 <= j < last.len() && last[j] == line;
        assert(all[front.len() + j] == line);
    } else {
        assert(block.drop_last()[i] == block[i]);
        lemma_diff_line_shown(block.drop_last(), name, key, key_set, replacement, i, line);
        let j = choose|j: int| 0 <= j < front.len() && front[j] == line;
        assert(all[j] == line);
    }
}

/// A suggested value always shows up in the diff of an entry, whether the
/// entry sets the key already or not.
pub proof fn lemma_suggestion_is_shown(
    lines: Seq<Seq<char>>,
    name: Seq<char>,
    key: Seq<char>,
    value: Seq<char>,
)
    requires
        entry_block(lines, name) is Some,
    ensures
        ({
            let block = entry_block(lines, name)->0;
            diff_lines(block, name, key, sets_key(block, key), Some(value)).contains(
                added_line(key, value),
            )
        }),
{
    let block = entry_block(lines, name)->0;
    let key_set = sets_key(block, key);
    lemma_block_has_name(lines, name);
    let i = if key_set {
        choose|i: int| 0 <= i < block.len() && (key + " ="@).is_prefix_of(#[trigger] block[i])
    } else {
        choose|i: int| 0 <= i < block.len() && block[i] == name_line(name)
    };
    let shown = diff_line(block[i], name, key, key_set, Some(value));
    assert(shown[1] == added_line(key, value));
    lemma_diff_line_shown(block, name, key, key_set, Some(value), i, added_line(key, value));
}

/// Every entry of every source type is among all entries, and there are no
/// more entries than those.
pub proof fn lemma_every_entry_is_listed(config: Config)
    ensures
        entries(config).len() == config.repo@.len() + config.git@.len() + config.cargo@.len() + config.node@.len() + config.apt@.len() + config.curl@.len() + config.plugin@.len(),
        forall|i: int|
            0 <= i < config.repo@.len() ==> #[trigger] entries(config).contains(
                ResolvedEntry::Repo(&config.repo@[i]),
            ),
        forall|i: int|
            0 <= i < config.git@.len() ==> #[trigger] entries(config).contains(
                ResolvedEntry::Git(&config.git@[i]),
            ),
        forall|i: int|
            0 <= i < config.cargo@.len() ==> #[trigger] entries(config).contains(
                ResolvedEntry::Cargo(&config.cargo@[i]),
            ),
        forall|i: int|
            0 <= i < config.node@.len() ==> #[trigger] entries(config).contains(
                ResolvedEntry::Node(&config.node@[i]),
            ),
        forall|i: int|
            0 <= i < config.apt@.len() ==> #[trigger] entries(config).contains(
                ResolvedEntry::Apt(&config.apt@[i]),
            ),
        forall|i: int|
            0 <= i < config.curl@.len() ==> #[trigger] entries(config).contains(
                ResolvedEntry::Curl(&config.curl@[i]),
            ),
        forall|i: int|
            0 <= i < config.plugin@.len() ==> #[trigger] entries(config).contains(
                ResolvedEntry::Plugin(&config.plugin@[i]),
            ),
{
    let all = entries(config);
    assert forall|i: int| 0 <= i < config.repo@.len() implies #[trigger] all.contains(
        ResolvedEntry::Repo(&config.repo@[i]),
    ) by {
        assert(all[i] == ResolvedEntry::Repo(&config.repo@[i]));
    }
    assert forall|i: int| 0 <= i < config.git@.len() implies #[trigger] all.contains(
        ResolvedEntry::Git(&config.git@[i]),
    ) by {
        assert(all[config.repo@.len() + i] == ResolvedEntry::Git(&config.git@[i]));
    }
    assert forall|i: int| 0 <= i < config.cargo@.len() implies #[trigger] all.contains(
        ResolvedEntry::Cargo(&config.cargo@[i]),
    ) by {
        assert(all[config.repo@.len() + config.git@.len() + i] == ResolvedEntry::Cargo(&config.cargo@[i]));
    }
    assert forall|i: int| 0 <= i < config.node@.len() implies #[trigger] all.contains(
        ResolvedEntry::Node(&config.node@[i]),
    ) by {
        assert(all[config.repo@.len() + config.git@.len() + config.cargo@.len() + i] == ResolvedEntry::Node(&config.node@[i]));
    }
    assert forall|i: int| 0 <= i < config.apt@.len() implies #[trigger] all.contains(
        ResolvedEntry::Apt(&config.apt@[i]),
    ) by {
        assert(all[config.repo@.len() + config.git@.len() + config.cargo@.len() + config.node@.len() + i] == ResolvedEntry::Apt(&config.apt@[i]));
    }
    assert forall|i: int| 0 <= i < config.curl@.len() implies #[trigger] all.contains(
        ResolvedEntry::Curl(&config.curl@[i]),
    ) by {
        assert(all[config.repo@.len() + config.git@.len() + config.cargo@.len() + config.node@.len() + config.apt@.len() + i] == ResolvedEntry::Curl(&config.curl@[i]));
    }
    assert forall|i: int| 0 <= i < config.plugin@.len() implies #[trigger] all.contains(
        ResolvedEntry::Plugin(&config.plugin@[i]),
    ) by {
        assert(all[config.repo@.len() + config.git@.len() + config.cargo@.len() + config.node@.len() + config.apt@.len() + config.curl@.len() + i] == ResolvedEntry::Plugin(&config.plugin@[i]));
    }
}

/// The lock key of an entry is the last segment of its name: what follows the
/// last slash. A node package keeps its whole name.
pub proof fn lemma_key_of_an_entry(e: ResolvedEntry<'static>, owner: Seq<char>, tool: Seq<char>)
    requires
        !tool.contains('/'),
    ensures
        e is Node ==> e.key_text() == e.name_text(),
        !(e is Node) && e.name_text() == tool ==> e.key_text() == tool,
        !(e is Node) && e.name_text() == owner + seq!['/'] + tool ==> e.key_text() == tool,
{
    lemma_short_name(owner, tool);
}

/// The short name is what follows the last slash.
pub proof fn lemma_short_name(owner: Seq<char>, tool: Seq<char>)
    requires
        !tool.contains('/'),
    ensures
        short_name(tool) == tool,
        short_name(owner + seq!['/'] + tool) == tool,
{
    path::lemma_last_separator(tool);
    let name = owner + seq!['/'] + tool;
    path::lemma_last_separator(name);
    let at = path::last_separator(name) as int;
    let own = path::last_separator(tool) as int;
    if own > 0 {
        assert(tool[own - 1] == '/');
    }
    assert(name[owner.len() as int] == '/');
    assert(tool.skip(0) =~= tool);
    if at > owner.len() + 1 {
        assert(name[at - 1] == '/');
        assert(tool[at - 1 - owner.len() - 1] == '/');
    }
    assert(name.skip((owner.len() + 1) as int) =~= tool);
}

/// What an entry shares with other types is what its configuration says, for
/// every type but plugins, which share nothing.
pub proof fn lemma_shared_part(e: ResolvedEntry<'static>)
    ensures
        match e {
            ResolvedEntry::Repo(r) => e.shared() == Some(r.common) && e.name_text() == r.name@,
            ResolvedEntry::Git(g) => e.shared() == Some(g.common) && e.name_text() == g.name@,
            ResolvedEntry::Cargo(c) => e.shared() == Some(c.common) && e.name_text() == c.name@,
            ResolvedEntry::Node(n) => e.shared() == Some(n.common) && e.name_text() == n.name@,
            ResolvedEntry::Apt(a) => e.shared() == Some(a.common) && e.name_text() == a.name@,
            ResolvedEntry::Curl(c) => e.shared() == Some(c.common) && e.name_text() == c.name@,
            ResolvedEntry::Plugin(p) => e.shared() is None && e.name_text() == p.name@
                && e.commands().len() == 0,
        },
{
}

/// The commands of an entry are those that its `bin` field names, all of them
/// in their order; without one, the last segment of its name is its command.
pub proof fn lemma_commands_of_an_entry(e: ResolvedEntry<'static>)
    requires
        e.shared() is Some,
    ensures
        match e.shared()->0.bin {
            None => e.commands() == seq![short_name(e.name_text())],
            Some(BinSpec::Single(name)) => e.commands() == seq![name@],
            Some(BinSpec::Multiple(names)) => e.commands().len() == names@.len() && forall|i: int|
                0 <= i < names@.len() ==> e.commands()[i] == (#[trigger] names@[i])@,
            Some(BinSpec::Mapped(map)) => e.commands().len() == map.values().len() && forall|i: int|
                0 <= i < map.values().len() ==> e.commands()[i] == (#[trigger] map.values()[i])@,
        },
{
}

proof fn lemma_nonblank(parts: Seq<Seq<char>>, line: Seq<char>)
    ensures
        nonblank(parts).contains(line) <==> parts.contains(line) && text::trim(line).len() > 0,
    decreases parts.len(),
{
    if parts.len() > 0 {
        let rest = parts.skip(1);
        lemma_nonblank(rest, line);
        if parts.contains(line) && parts[0] != line {
            let i = choose|i: int| 0 <= i < parts.len() && parts[i] == line;
            assert(rest[i - 1] == line);
        }
        if rest.contains(line) {
            let i = choose|i: int| 0 <= i < rest.len() && rest[i] == line;
            assert(parts[i + 1] == line);
        }
        if text::trim(parts[0]).len() > 0 {
            let all = seq![parts[0]] + nonblank(rest);
            if all.contains(line) && line != parts[0] {
                let i = choose|i: int| 0 <= i < all.len() && all[i] == line;
                assert(nonblank(rest)[i - 1] == line);
            }
            if nonblank(rest).contains(line) {
                let i = choose|i: int| 0 <= i < nonblank(rest).len() && nonblank(rest)[i] == line;
                assert(all[i + 1] == line);
            }
            if line == parts[0] {
                assert(all[0] == line);
                assert(parts[0] == line);
            }
        }
    }
}

/// A `run` field that is a block runs exactly its lines that are not blank; one
/// that is a list runs exactly its elements, in their order.
pub proof fn lemma_statements_of_a_run(run: RunSpec, line: Seq<char>)
    ensures
        match run {
            RunSpec::Single(block) => run.statements().contains(line) <==> text::lines(
                block@,
            ).contains(line) && text::trim(line).len() > 0,
            RunSpec::Multiple(lines) => run.statements().len() == lines@.len() && forall|i: int|
                0 <= i < lines@.len() ==> run.statements()[i] == (#[trigger] lines@[i])@,
        },
{
    if let RunSpec::Single(block) = run {
        lemma_nonblank(text::lines(block@), line);
    }
}

/// The command of an `eval` field, and what it says of keeping the output.
pub proof fn lemma_eval_field(cmd: String, cache: Option<bool>)
    ensures
        EvalSpec::Cmd(cmd).cmd_text() == cmd@,
        EvalSpec::Cmd(cmd).cache_choice() is None,
        (EvalSpec::Detailed { cmd, cache }).cmd_text() == cmd@,
        (EvalSpec::Detailed { cmd, cache }).cache_choice() == cache,
{
}

proof fn lemma_opens_above(lines: Seq<Seq<char>>, before: int)
    requires
        opening_before(lines, before) is Some,
    ensures
        opens_entry(lines[opening_before(lines, before)->0]),
    decreases before,
{
    if !opens_entry(lines[before - 1]) {
        lemma_opens_above(lines, before - 1);
    }
}

proof fn lemma_opening_from_is_next(lines: Seq<Seq<char>>, from: int)
    requires
        0 <= from <= lines.len(),
    ensures
        forall|k: int|
            from <= k < opening_from(lines, from) ==> !opens_entry(#[trigger] lines[k]),
    decreases lines.len() - from,
{
    if from < lines.len() && !opens_entry(lines[from]) {
        lemma_opening_from_is_next(lines, from + 1);
        assert forall|k: int| from <= k < opening_from(lines, from) implies !opens_entry(
            #[trigger] lines[k],
        ) by {
            if k > from {
                assert(!opens_entry(lines[k]));
            }
        }
    }
}

/// Whether two positions are the ends of an entry: it is opened at the first,
/// nothing is opened between them, and at the second another entry is opened or
/// the text ends.
pub open spec fn spans_entry(lines: Seq<Seq<char>>, start: int, end: int) -> bool {
    &&& 0 <= start < end <= lines.len()
    &&& "[["@.is_prefix_of(text::trim_start(lines[start], Class::Space))
    &&& forall|k: int|
        start < k < end ==> !"[["@.is_prefix_of(
            text::trim_start(#[trigger] lines[k], Class::Space),
        )
    &&& end == lines.len() || "[["@.is_prefix_of(text::trim_start(lines[end], Class::Space))
}

/// What is shown of an entry is exactly the lines of one entry of the file that
/// hold something, and that entry is the one with the name.
pub proof fn lemma_block_is_one_entry(lines: Seq<Seq<char>>, name: Seq<char>)
    requires
        entry_block(lines, name) is Some,
    ensures
        exists|start: int, end: int|
            {
                &&& #[trigger] spans_entry(lines, start, end)
                &&& exists|at: int|
                    start <= at < end && text::trim(#[trigger] lines[at]) == "name = \""@ + name
                        + "\""@
                &&& forall|x: Seq<char>| #[trigger]
                    entry_block(lines, name)->0.contains(x) <==> x.len() > 0 && exists|k: int|
                        start <= k < end && text::trim(#[trigger] lines[k]) == x
            },
{
    let wanted = name_line(name);
    let at = line_from(lines, wanted, 0)->0;
    lemma_line_from(lines, wanted, 0);
    let start = opening_before(lines, at)->0;
    lemma_opening_before(lines, at);
    lemma_opens_above(lines, at);
    lemma_opening_from(lines, start + 1);
    lemma_opening_from_is_next(lines, start + 1);
    let end = opening_from(lines, start + 1);
    lemma_name_opens_nothing(lines[at], name);
    if at >= end {
        assert(opens_entry(lines[end]));
        assert(end == at || !opens_entry(lines[end]));
    }
    assert(spans_entry(lines, start, end)) by {
        assert forall|k: int| start < k < end implies !"[["@.is_prefix_of(
            text::trim_start(#[trigger] lines[k], Class::Space),
        ) by {
            assert(!opens_entry(lines[k]));
        }
    }
    assert(text::trim(lines[at]) == wanted);
    let part = lines.subrange(start, end);
    let trimmed = trim_all(part);
    assert forall|x: Seq<char>| #[trigger]
        entry_block(lines, name)->0.contains(x) <==> x.len() > 0 && exists|k: int|
            start <= k < end && text::trim(#[trigger] lines[k]) == x by {
        text::lemma_nonempty(trimmed, x);
        if trimmed.contains(x) {
            let i = choose|i: int| 0 <= i < trimmed.len() && trimmed[i] == x;
            assert(text::trim(lines[start + i]) == x);
        }
        if exists|k: int| start <= k < end && text::trim(#[trigger] lines[k]) == x {
            let k = choose|k: int| start <= k < end && text::trim(#[trigger] lines[k]) == x;
            assert(trimmed[k - start] == x);
        }
    }
}

proof fn lemma_name_opens_nothing(line: Seq<char>, name: Seq<char>)
    requires
        text::trim(line) == name_line(name),
    ensures
        !opens_entry(line),
{
    reveal_strlit("name = \"");
    reveal_strlit("[[");
    let wanted = name_line(name);
    assert(wanted[0] == 'n');
    let trimmed = text::trim_start(line, Class::Space);
    text::lemma_trim_end_is_prefix(trimmed, Class::Space);
    assert(trimmed[0] == wanted[0]);
    if opens_entry(line) {
        assert("[["@[0] == trimmed[0]);
    }
}

/// A diff shows every line of an entry: one that sets the key as removed, any
/// other as context. It shows nothing else but the suggestion.
pub proof fn lemma_diff_shows_each_line(
    block: Seq<Seq<char>>,
    name: Seq<char>,
    key: Seq<char>,
    key_set: bool,
    replacement: Option<Seq<char>>,
    i: int,
    shown: Seq<char>,
)
    requires
        0 <= i < block.len(),
    ensures
        (key + " ="@).is_prefix_of(block[i]) ==> diff_lines(
            block,
            name,
            key,
            key_set,
            replacement,
        ).contains("- "@ + block[i]),
        !(key + " ="@).is_prefix_of(block[i]) ==> diff_lines(
            block,
            name,
            key,
            key_set,
            replacement,
        ).contains("| "@ + block[i]),
        diff_lines(block, name, key, key_set, replacement).contains(shown) ==> (replacement is Some
            && shown == "+ "@ + key + " = \""@ + replacement->0 + "\""@) || exists|k: int|
            {
                &&& 0 <= k < block.len()
                &&& shown == if (key + " ="@).is_prefix_of(#[trigger] block[k]) {
                    "- "@ + block[k]
                } else {
                    "| "@ + block[k]
                }
            },
{
    let one = diff_line(block[i], name, key, key_set, replacement);
    let first = if (key + " ="@).is_prefix_of(block[i]) {
        "- "@ + block[i]
    } else {
        "| "@ + block[i]
    };
    assert(one[0] == first);
    lemma_diff_line_shown(block, name, key, key_set, replacement, i, first);
    if diff_lines(block, name, key, key_set, replacement).contains(shown) {
        lemma_diff_line_origin(block, name, key, key_set, replacement, shown);
        let k = choose|k: int|
            0 <= k < block.len() && diff_line(
                #[trigger] block[k],
                name,
                key,
                key_set,
                replacement,
            ).contains(shown);
        assert(block[k] == block[k]);
    }
}

proof fn lemma_diff_line_origin(
    block: Seq<Seq<char>>,
    name: Seq<char>,
    key: Seq<char>,
    key_set: bool,
    replacement: Option<Seq<char>>,
    shown: Seq<char>,
)
    requires
        diff_lines(block, name, key, key_set, replacement).contains(shown),
    ensures
        exists|k: int|
            0 <= k < block.len() && diff_line(
                #[trigger] block[k],
                name,
                key,
                key_set,
                replacement,
            ).contains(shown),
    decreases block.len(),
{
    if block.len() > 0 {
        let before = block.drop_last();
        let front = diff_lines(before, name, key, key_set, replacement);
        let last = diff_line(block.last(), name, key, key_set, replacement);
        let all = front + last;
        let j = choose|j: int| 0 <= j < all.len() && all[j] == shown;
        if j < front.len() {
            assert(front[j] == shown);
            lemma_diff_line_origin(before, name, key, key_set, replacement, shown);
            let k = choose|k: int|
                0 <= k < before.len() && diff_line(
                    #[trigger] before[k],
                    name,
                    key,
                    key_set,
                    replacement,
                ).contains(shown);
            assert(block[k] == before[k]);
        } else {
            assert(last[j - front.len()] == shown);
            assert(block[block.len() - 1] == block.last());
        }
    }
}

/// What the source of a record starts with tells the hosts apart.
pub proof fn lemma_host_prefixes()
    ensures
        Host::Github.prefix_text() == "github"@,
        Host::Codeberg.prefix_text() == "codeberg"@,
        Host::Github.prefix_text() != Host::Codeberg.prefix_text(),
{
    reveal_strlit("github");
    reveal_strlit("codeberg");
    assert("github"@.len() != "codeberg"@.len());
}

/// A tool is addressed by exactly these texts: its key, its full name, and each
/// of its commands.
pub proof fn lemma_addressed_by(e: ResolvedEntry<'static>, requested: Seq<char>)
    ensures
        answers_to(e, e.key_text()),
        answers_to(e, e.name_text()),
        forall|i: int| 0 <= i < e.commands().len() ==> answers_to(e, #[trigger] e.commands()[i]),
        answers_to(e, requested) ==> requested == e.key_text() || requested == e.name_text()
            || exists|i: int| 0 <= i < e.commands().len() && #[trigger] e.commands()[i] == requested,
{
}

/// A text finds the tool that has it as its key, its name or a command, the
/// first one where there are several; a text that no tool has finds none.
pub proof fn lemma_how_a_tool_is_found(config: Config, requested: Seq<char>)
    ensures
        ({
            let all = entries(config);
            match resolution(config, requested) {
                Some(e) => exists|i: int|
                    {
                        &&& 0 <= i < all.len()
                        &&& #[trigger] all[i] == e
                        &&& requested == e.key_text() || requested == e.name_text()
                            || e.commands().contains(requested)
                    },
                None => forall|i: int|
                    0 <= i < all.len() ==> requested != (#[trigger] all[i]).key_text() && requested
                        != all[i].name_text() && !all[i].commands().contains(requested),
            }
        }),
{
    let all = entries(config);
    lemma_first_answer(all, requested, 0);
    if let Some(e) = resolution(config, requested) {
        let i = choose|i: int|
            {
                &&& 0 <= i < all.len()
                &&& all[i] == e
                &&& answers_to(e, requested)
                &&& forall|j: int| 0 <= j < i ==> !answers_to(#[trigger] all[j], requested)
            };
        assert(all[i] == e);
    } else {
        assert forall|i: int| 0 <= i < all.len() implies requested != (#[trigger] all[i]).key_text()
            && requested != all[i].name_text() && !all[i].commands().contains(requested) by {
            assert(!answers_to(all[i], requested));
        }
    }
}

/// The description of an entry is the one that its configuration gives.
pub proof fn lemma_description_of_an_entry(e: ResolvedEntry<'static>)
    ensures
        e matches ResolvedEntry::Plugin(p) ==> e.described() == text::opt_text(p.description),
        e.shared() is Some ==> e.described() == text::opt_text(e.shared()->0.description),
{
}

} // verus!
