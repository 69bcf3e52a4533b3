//! How the configuration is read from what its file holds.

use vstd::prelude::*;

use crate::config;
use crate::config::AptEntry;
use crate::config::BinSpec;
use crate::config::BpickSpec;
use crate::config::CargoEntry;
use crate::config::Common;
use crate::config::CompletionsSpec;
use crate::config::Config;
use crate::config::CurlEntry;
use crate::config::EvalSpec;
use crate::config::GitEntry;
use crate::config::Host;
use crate::config::NodeEntry;
use crate::config::NodeManager;
use crate::config::PluginEntry;
use crate::config::RepoEntry;
use crate::config::RunSpec;
use crate::config::Settings;
use crate::config::SetupSpec;
use crate::failure::Failure;
use crate::strings;
use crate::table::Table;
use crate::text;
use crate::tree;
use crate::tree::Readable;
use crate::tree::Tree;

verus! {

/// Whether a value is a list of texts.
pub open spec fn is_text_list(v: Tree) -> bool {
    v is List && tree::all_text(v->List_0@)
}

/// Whether a value is a branch of texts.
pub open spec fn is_text_branch(v: Tree) -> bool {
    v is Branch && tree::branch_text(v->Branch_0@)
}

/// Whether `bin` is a name, several names, or names by path glob.
pub open spec fn bin_ok(v: Option<Tree>) -> bool {
    match v {
        None => true,
        Some(v) => v is Text || is_text_list(v) || is_text_branch(v),
    }
}

pub open spec fn bin_is(v: Option<Tree>, bin: Option<BinSpec>) -> bool {
    match (v, bin) {
        (None, None) => true,
        (Some(Tree::Text(s)), Some(BinSpec::Single(name))) => name@ == s@,
        (Some(Tree::List(items)), Some(BinSpec::Multiple(names))) => text::texts(names@)
            == tree::texts_of(items@),
        (Some(Tree::Branch(m)), Some(BinSpec::Mapped(names))) => tree::same_texts(m@, names@),
        _ => false,
    }
}

fn read_bin(t: &Tree) -> (r: Result<Option<BinSpec>, String>)
    ensures
        match r {
            Ok(bin) => bin_ok(t.field("bin"@)) && bin_is(t.field("bin"@), bin),
            Err(m) => !bin_ok(t.field("bin"@)) && m@ == tree::invalid("bin"@),
        },
{
    match t.get("bin") {
        None => Ok(None),
        Some(Tree::Text(s)) => Ok(Some(BinSpec::Single(s.as_str().to_owned()))),
        Some(Tree::List(items)) => match tree::text_list(items) {
            Some(names) => Ok(Some(BinSpec::Multiple(names))),
            None => Err(tree::invalid_field("bin")),
        },
        Some(Tree::Branch(m)) => match tree::text_table(m) {
            Some(names) => Ok(Some(BinSpec::Mapped(names))),
            None => Err(tree::invalid_field("bin")),
        },
        Some(_) => Err(tree::invalid_field("bin")),
    }
}

/// Whether `env` maps names to texts.
pub open spec fn env_ok(v: Option<Tree>) -> bool {
    match v {
        None => true,
        Some(v) => is_text_branch(v),
    }
}

pub open spec fn env_is(v: Option<Tree>, env: Table<String>) -> bool {
    match v {
        Some(Tree::Branch(m)) => tree::same_texts(m@, env@),
        _ => env@ == Map::<Seq<char>, String>::empty(),
    }
}

fn read_env(t: &Tree) -> (r: Result<Table<String>, String>)
    ensures
        match r {
            Ok(env) => env_ok(t.field("env"@)) && env_is(t.field("env"@), env),
            Err(m) => !env_ok(t.field("env"@)) && m@ == tree::invalid("env"@),
        },
{
    match t.get("env") {
        None => Ok(Table::new()),
        Some(Tree::Branch(m)) => match tree::text_table(m) {
            Some(env) => Ok(env),
            None => Err(tree::invalid_field("env")),
        },
        Some(_) => Err(tree::invalid_field("env")),
    }
}

/// Whether `eval` is a command, or one in `cmd` with a truth value in `cache`
/// if there is one.
pub open spec fn eval_ok(v: Option<Tree>) -> bool {
    match v {
        None => true,
        Some(v) => v is Text || tree::opt_text_of(v.field("cmd"@)) is Some
            && tree::opt_bool_problem(v.field("cache"@), "cache"@) is None,
    }
}

pub open spec fn eval_is(v: Option<Tree>, eval: Option<EvalSpec>) -> bool {
    match (v, eval) {
        (None, None) => true,
        (Some(Tree::Text(s)), Some(EvalSpec::Cmd(cmd))) => cmd@ == s@,
        (Some(Tree::Branch(m)), Some(EvalSpec::Detailed { cmd, cache })) => tree::opt_text_of(
            tree::slot(m@, "cmd"@),
        ) == Some(cmd@) && cache == tree::opt_bool_of(tree::slot(m@, "cache"@)),
        _ => false,
    }
}

fn read_eval(t: &Tree) -> (r: Result<Option<EvalSpec>, String>)
    ensures
        match r {
            Ok(eval) => eval_ok(t.field("eval"@)) && eval_is(t.field("eval"@), eval),
            Err(m) => !eval_ok(t.field("eval"@)) && m@ == tree::invalid("eval"@),
        },
{
    match t.get("eval") {
        None => Ok(None),
        Some(Tree::Text(s)) => Ok(Some(EvalSpec::Cmd(s.as_str().to_owned()))),
        Some(v) => match (tree::need_text(v.get("cmd"), "cmd"), tree::may_bool(v.get("cache"), "cache")) {
            (Ok(cmd), Ok(cache)) => Ok(Some(EvalSpec::Detailed { cmd, cache })),
            _ => Err(tree::invalid_field("eval")),
        },
    }
}

/// Whether a field is a text or several.
pub open spec fn text_or_list(v: Option<Tree>) -> bool {
    match v {
        None => true,
        Some(v) => v is Text || is_text_list(v),
    }
}

pub open spec fn run_is(v: Option<Tree>, run: Option<RunSpec>) -> bool {
    match (v, run) {
        (None, None) => true,
        (Some(Tree::Text(s)), Some(RunSpec::Single(block))) => block@ == s@,
        (Some(Tree::List(items)), Some(RunSpec::Multiple(lines))) => text::texts(lines@)
            == tree::texts_of(items@),
        _ => false,
    }
}

fn read_run(v: Option<&Tree>) -> (r: Result<Option<RunSpec>, String>)
    ensures
        match r {
            Ok(run) => text_or_list(tree::found(v)) && run_is(tree::found(v), run),
            Err(m) => !text_or_list(tree::found(v)) && m@ == tree::invalid("run"@),
        },
{
    match v {
        None => Ok(None),
        Some(Tree::Text(s)) => Ok(Some(RunSpec::Single(s.as_str().to_owned()))),
        Some(Tree::List(items)) => match tree::text_list(items) {
            Some(lines) => Ok(Some(RunSpec::Multiple(lines))),
            None => Err(tree::invalid_field("run")),
        },
        Some(_) => Err(tree::invalid_field("run")),
    }
}

pub open spec fn bpick_is(v: Option<Tree>, bpick: Option<BpickSpec>) -> bool {
    match (v, bpick) {
        (None, None) => true,
        (Some(Tree::Text(s)), Some(BpickSpec::Single(glob))) => glob@ == s@,
        (Some(Tree::List(items)), Some(BpickSpec::Multiple(globs))) => text::texts(globs@)
            == tree::texts_of(items@),
        _ => false,
    }
}

fn read_bpick(t: &Tree) -> (r: Result<Option<BpickSpec>, String>)
    ensures
        match r {
            Ok(bpick) => text_or_list(t.field("bpick"@)) && bpick_is(t.field("bpick"@), bpick),
            Err(m) => !text_or_list(t.field("bpick"@)) && m@ == tree::invalid("bpick"@),
        },
{
    match t.get("bpick") {
        None => Ok(None),
        Some(Tree::Text(s)) => Ok(Some(BpickSpec::Single(s.as_str().to_owned()))),
        Some(Tree::List(items)) => match tree::text_list(items) {
            Some(globs) => Ok(Some(BpickSpec::Multiple(globs))),
            None => Err(tree::invalid_field("bpick")),
        },
        Some(_) => Err(tree::invalid_field("bpick")),
    }
}

/// Whether `completions` is a truth value, or has a text in `generate` or in
/// `path`.
pub open spec fn completions_ok(v: Option<Tree>) -> bool {
    match v {
        None => true,
        Some(v) => v is Bool || tree::opt_text_of(v.field("generate"@)) is Some
            || tree::opt_text_of(v.field("path"@)) is Some,
    }
}

/// `generate` is looked at before `path`.
pub open spec fn completions_is(v: Option<Tree>, spec: CompletionsSpec) -> bool {
    match v {
        None => spec == CompletionsSpec::Enabled(true),
        Some(Tree::Bool(b)) => spec == CompletionsSpec::Enabled(b),
        Some(v) => match tree::opt_text_of(v.field("generate"@)) {
            Some(cmd) => spec is Generate && spec->generate@ == cmd,
            None => spec is Path && Some(spec->path@) == tree::opt_text_of(v.field("path"@)),
        },
    }
}

fn read_completions(t: &Tree) -> (r: Result<CompletionsSpec, String>)
    ensures
        match r {
            Ok(spec) => completions_ok(t.field("completions"@)) && completions_is(
                t.field("completions"@),
                spec,
            ),
            Err(m) => !completions_ok(t.field("completions"@)) && m@ == tree::invalid(
                "completions"@,
            ),
        },
{
    match t.get("completions") {
        None => Ok(config::default_completions()),
        Some(Tree::Bool(b)) => Ok(CompletionsSpec::Enabled(*b)),
        Some(v) => {
            if let Ok(generate) = tree::need_text(v.get("generate"), "generate") {
                return Ok(CompletionsSpec::Generate { generate });
            }
            if let Ok(path) = tree::need_text(v.get("path"), "path") {
                return Ok(CompletionsSpec::Path { path });
            }
            Err(tree::invalid_field("completions"))
        },
    }
}

/// Whether `setup` is a command, several, or one in `install` and one in
/// `update`.
pub open spec fn setup_ok(v: Option<Tree>) -> bool {
    match v {
        None => true,
        Some(v) => v is Text || is_text_list(v) || (tree::opt_text_of(v.field("install"@)) is Some
            && tree::opt_text_of(v.field("update"@)) is Some),
    }
}

pub open spec fn setup_is(v: Option<Tree>, setup: Option<SetupSpec>) -> bool {
    match (v, setup) {
        (None, None) => true,
        (Some(Tree::Text(s)), Some(SetupSpec::Single(cmd))) => cmd@ == s@,
        (Some(Tree::List(items)), Some(SetupSpec::Multiple(steps))) => text::texts(steps@)
            == tree::texts_of(items@),
        (Some(Tree::Branch(m)), Some(SetupSpec::Split { install, update })) => tree::opt_text_of(
            tree::slot(m@, "install"@),
        ) == Some(install@) && tree::opt_text_of(tree::slot(m@, "update"@)) == Some(update@),
        _ => false,
    }
}

fn read_setup(t: &Tree) -> (r: Result<Option<SetupSpec>, String>)
    ensures
        match r {
            Ok(setup) => setup_ok(t.field("setup"@)) && setup_is(t.field("setup"@), setup),
            Err(m) => !setup_ok(t.field("setup"@)) && m@ == tree::invalid("setup"@),
        },
{
    match t.get("setup") {
        None => Ok(None),
        Some(Tree::Text(s)) => Ok(Some(SetupSpec::Single(s.as_str().to_owned()))),
        Some(Tree::List(items)) => match tree::text_list(items) {
            Some(steps) => Ok(Some(SetupSpec::Multiple(steps))),
            None => Err(tree::invalid_field("setup")),
        },
        Some(v) => match (tree::need_text(v.get("install"), "install"), tree::need_text(v.get("update"), "update")) {
            (Ok(install), Ok(update)) => Ok(Some(SetupSpec::Split { install, update })),
            _ => Err(tree::invalid_field("setup")),
        },
    }
}

/// A problem with a field, unless what it holds will do.
pub open spec fn unless(ok: bool, field: Seq<char>) -> Option<Seq<char>> {
    if ok {
        None
    } else {
        Some(tree::invalid(field))
    }
}

/// The first problem with the fields that the entries of all source types but
/// plugins share.
pub open spec fn common_problem(t: Tree) -> Option<Seq<char>> {
    tree::or_else(
        tree::opt_text_problem(t.field("description"@), "description"@),
        tree::or_else(
            unless(bin_ok(t.field("bin"@)), "bin"@),
            tree::or_else(
                unless(env_ok(t.field("env"@)), "env"@),
                tree::or_else(
                    unless(eval_ok(t.field("eval"@)), "eval"@),
                    tree::or_else(
                        unless(text_or_list(t.field("run"@)), "run"@),
                        tree::or_else(
                            unless(completions_ok(t.field("completions"@)), "completions"@),
                            tree::or_else(
                                unless(setup_ok(t.field("setup"@)), "setup"@),
                                tree::or_else(
                                    tree::opt_bool_problem(t.field("lazy"@), "lazy"@),
                                    tree::opt_text_problem(t.field("bind"@), "bind"@),
                                ),
                            ),
                        ),
                    ),
                ),
            ),
        ),
    )
}

pub open spec fn common_is(t: Tree, c: Common) -> bool {
    &&& text::opt_text(c.description) == tree::opt_text_of(t.field("description"@))
    &&& bin_is(t.field("bin"@), c.bin)
    &&& env_is(t.field("env"@), c.env)
    &&& eval_is(t.field("eval"@), c.eval)
    &&& run_is(t.field("run"@), c.run)
    &&& completions_is(t.field("completions"@), c.completions)
    &&& setup_is(t.field("setup"@), c.setup)
    &&& c.lazy == (tree::opt_bool_of(t.field("lazy"@)) == Some(true))
    &&& text::opt_text(c.bind) == tree::opt_text_of(t.field("bind"@))
}

fn read_common(t: &Tree) -> (r: Result<Common, String>)
    ensures
        match r {
            Ok(c) => common_problem(*t) is None && common_is(*t, c),
            Err(m) => common_problem(*t) == Some(m@),
        },
{
    let description = tree::may_text(t.get("description"), "description")?;
    let bin = read_bin(t)?;
    let env = read_env(t)?;
    let eval = read_eval(t)?;
    let run = read_run(t.get("run"))?;
    let completions = read_completions(t)?;
    let setup = read_setup(t)?;
    let lazy = match tree::may_bool(t.get("lazy"), "lazy")? {
        Some(b) => b,
        None => false,
    };
    let bind = tree::may_text(t.get("bind"), "bind")?;
    Ok(Common { description, bin, env, eval, run, completions, setup, lazy, bind })
}

/// The choice that a field makes, if it makes one.
pub open spec fn chosen(v: Option<Tree>) -> Option<Seq<char>> {
    match v {
        Some(t) => t.choice(),
        None => None,
    }
}

/// Whether `host` names a host.
pub open spec fn host_ok(v: Option<Tree>) -> bool {
    v is None || chosen(v) == Some("github"@) || chosen(v) == Some("codeberg"@)
}

/// GitHub unless Codeberg is named.
pub open spec fn host_of(v: Option<Tree>) -> Host {
    if chosen(v) == Some("codeberg"@) {
        Host::Codeberg
    } else {
        Host::Github
    }
}

fn read_host(t: &Tree) -> (r: Result<Host, String>)
    ensures
        match r {
            Ok(host) => host_ok(t.field("host"@)) && host == host_of(t.field("host"@)),
            Err(m) => !host_ok(t.field("host"@)) && m@ == tree::invalid("host"@),
        },
{
    proof {
        reveal_strlit("github");
        reveal_strlit("codeberg");
        assert("github"@.len() != "codeberg"@.len());
    }
    let v = match t.get("host") {
        None => {
            return Ok(config::default_host());
        },
        Some(v) => v,
    };
    match v.get_choice() {
        Some(s) => if strings::same(s, "github") {
            Ok(Host::Github)
        } else if strings::same(s, "codeberg") {
            Ok(Host::Codeberg)
        } else {
            Err(tree::invalid_field("host"))
        },
        None => Err(tree::invalid_field("host")),
    }
}

/// Whether `manager` names a choice of package manager.
pub open spec fn manager_ok(v: Option<Tree>) -> bool {
    v is None || chosen(v) == Some("auto"@) || chosen(v) == Some("bun"@) || chosen(v) == Some(
        "npm"@,
    )
}

/// Automatic unless a manager is named.
pub open spec fn manager_of(v: Option<Tree>) -> NodeManager {
    if chosen(v) == Some("bun"@) {
        NodeManager::Bun
    } else if chosen(v) == Some("npm"@) {
        NodeManager::Npm
    } else {
        NodeManager::Auto
    }
}

fn read_manager(t: &Tree) -> (r: Result<NodeManager, String>)
    ensures
        match r {
            Ok(m) => manager_ok(t.field("manager"@)) && m == manager_of(t.field("manager"@)),
            Err(m) => !manager_ok(t.field("manager"@)) && m@ == tree::invalid("manager"@),
        },
{
    proof {
        reveal_strlit("auto");
        reveal_strlit("bun");
        reveal_strlit("npm");
        assert("bun"@[0] != "npm"@[0]);
    }
    let v = match t.get("manager") {
        None => {
            return Ok(NodeManager::default());
        },
        Some(v) => v,
    };
    match v.get_choice() {
        Some(s) => if strings::same(s, "auto") {
            Ok(NodeManager::Auto)
        } else if strings::same(s, "bun") {
            Ok(NodeManager::Bun)
        } else if strings::same(s, "npm") {
            Ok(NodeManager::Npm)
        } else {
            Err(tree::invalid_field("manager"))
        },
        None => Err(tree::invalid_field("manager")),
    }
}

impl Readable for RepoEntry {
    open spec fn listable() -> bool {
        false
    }

    fn is_listable() -> (r: bool) {
        false
    }

    open spec fn problem(t: Tree) -> Option<Seq<char>> {
        tree::or_else(
            tree::text_problem(t.field("name"@), "name"@),
            tree::or_else(
                unless(host_ok(t.field("host"@)), "host"@),
                tree::or_else(
                    unless(text_or_list(t.field("bpick"@)), "bpick"@),
                    tree::or_else(tree::opt_bool_problem(t.field("extract"@), "extract"@), common_problem(t)),
                ),
            ),
        )
    }

    open spec fn stands_for(self, t: Tree) -> bool {
        &&& Some(self.name@) == tree::opt_text_of(t.field("name"@))
        &&& self.host == host_of(t.field("host"@))
        &&& bpick_is(t.field("bpick"@), self.bpick)
        &&& self.extract == tree::opt_bool_of(t.field("extract"@))
        &&& common_is(t, self.common)
    }

    fn read(t: &Tree) -> (r: Result<Self, String>) {
        let name = tree::need_text(t.get("name"), "name")?;
        let host = read_host(t)?;
        let bpick = read_bpick(t)?;
        let extract = tree::may_bool(t.get("extract"), "extract")?;
        let common = read_common(t)?;
        Ok(RepoEntry { name, host, bpick, extract, common })
    }
}

impl Readable for GitEntry {
    open spec fn listable() -> bool {
        false
    }

    fn is_listable() -> (r: bool) {
        false
    }

    open spec fn problem(t: Tree) -> Option<Seq<char>> {
        tree::or_else(
            tree::text_problem(t.field("name"@), "name"@),
            tree::or_else(unless(host_ok(t.field("host"@)), "host"@), common_problem(t)),
        )
    }

    open spec fn stands_for(self, t: Tree) -> bool {
        &&& Some(self.name@) == tree::opt_text_of(t.field("name"@))
        &&& self.host == host_of(t.field("host"@))
        &&& common_is(t, self.common)
    }

    fn read(t: &Tree) -> (r: Result<Self, String>) {
        let name = tree::need_text(t.get("name"), "name")?;
        let host = read_host(t)?;
        let common = read_common(t)?;
        Ok(GitEntry { name, host, common })
    }
}

impl Readable for CargoEntry {
    open spec fn listable() -> bool {
        false
    }

    fn is_listable() -> (r: bool) {
        false
    }

    open spec fn problem(t: Tree) -> Option<Seq<char>> {
        tree::or_else(tree::text_problem(t.field("name"@), "name"@), common_problem(t))
    }

    open spec fn stands_for(self, t: Tree) -> bool {
        &&& Some(self.name@) == tree::opt_text_of(t.field("name"@))
        &&& common_is(t, self.common)
    }

    fn read(t: &Tree) -> (r: Result<Self, String>) {
        let name = tree::need_text(t.get("name"), "name")?;
        let common = read_common(t)?;
        Ok(CargoEntry { name, common })
    }
}

impl Readable for NodeEntry {
    open spec fn listable() -> bool {
        false
    }

    fn is_listable() -> (r: bool) {
        false
    }

    open spec fn problem(t: Tree) -> Option<Seq<char>> {
        tree::or_else(
            tree::text_problem(t.field("name"@), "name"@),
            tree::or_else(unless(manager_ok(t.field("manager"@)), "manager"@), common_problem(t)),
        )
    }

    open spec fn stands_for(self, t: Tree) -> bool {
        &&& Some(self.name@) == tree::opt_text_of(t.field("name"@))
        &&& self.manager == manager_of(t.field("manager"@))
        &&& common_is(t, self.common)
    }

    fn read(t: &Tree) -> (r: Result<Self, String>) {
        let name = tree::need_text(t.get("name"), "name")?;
        let manager = read_manager(t)?;
        let common = read_common(t)?;
        Ok(NodeEntry { name, manager, common })
    }
}

impl Readable for AptEntry {
    open spec fn listable() -> bool {
        false
    }

    fn is_listable() -> (r: bool) {
        false
    }

    open spec fn problem(t: Tree) -> Option<Seq<char>> {
        tree::or_else(tree::text_problem(t.field("name"@), "name"@), common_problem(t))
    }

    open spec fn stands_for(self, t: Tree) -> bool {
        &&& Some(self.name@) == tree::opt_text_of(t.field("name"@))
        &&& common_is(t, self.common)
    }

    fn read(t: &Tree) -> (r: Result<Self, String>) {
        let name = tree::need_text(t.get("name"), "name")?;
        let common = read_common(t)?;
        Ok(AptEntry { name, common })
    }
}

impl Readable for CurlEntry {
    open spec fn listable() -> bool {
        false
    }

    fn is_listable() -> (r: bool) {
        false
    }

    open spec fn problem(t: Tree) -> Option<Seq<char>> {
        tree::or_else(
            tree::text_problem(t.field("name"@), "name"@),
            tree::or_else(tree::text_problem(t.field("url"@), "url"@), common_problem(t)),
        )
    }

    open spec fn stands_for(self, t: Tree) -> bool {
        &&& Some(self.name@) == tree::opt_text_of(t.field("name"@))
        &&& Some(self.url@) == tree::opt_text_of(t.field("url"@))
        &&& common_is(t, self.common)
    }

    fn read(t: &Tree) -> (r: Result<Self, String>) {
        let name = tree::need_text(t.get("name"), "name")?;
        let url = tree::need_text(t.get("url"), "url")?;
        let common = read_common(t)?;
        Ok(CurlEntry { name, url, common })
    }
}

impl Readable for PluginEntry {
    open spec fn listable() -> bool {
        true
    }

    fn is_listable() -> (r: bool) {
        true
    }

    open spec fn problem(t: Tree) -> Option<Seq<char>> {
        tree::or_else(
            tree::length_problem(t, 4, None),
            tree::or_else(
                tree::text_problem(t.part("name"@, 0), "name"@),
                tree::or_else(
                    tree::opt_text_problem(t.part("description"@, 1), "description"@),
                    tree::or_else(
                        tree::opt_text_problem(t.part("source"@, 2), "source"@),
                        unless(text_or_list(t.part("run"@, 3)), "run"@),
                    ),
                ),
            ),
        )
    }

    open spec fn stands_for(self, t: Tree) -> bool {
        &&& Some(self.name@) == tree::opt_text_of(t.part("name"@, 0))
        &&& text::opt_text(self.description) == tree::opt_text_of(t.part("description"@, 1))
        &&& text::opt_text(self.source) == tree::opt_text_of(t.part("source"@, 2))
        &&& run_is(t.part("run"@, 3), self.run)
    }

    fn read(t: &Tree) -> (r: Result<Self, String>) {
        tree::check_length(t, 4, None)?;
        let name = tree::need_text(t.get_part("name", 0), "name")?;
        let description = tree::may_text(t.get_part("description", 1), "description")?;
        let source = tree::may_text(t.get_part("source", 2), "source")?;
        let run = read_run(t.get_part("run", 3))?;
        Ok(PluginEntry { name, description, source, run })
    }
}

/// Whether `parallel` is a number of workers.
pub open spec fn parallel_ok(v: Option<Tree>) -> bool {
    match v {
        None => true,
        Some(Tree::Integer(n)) => 0 <= n <= u32::MAX,
        Some(_) => false,
    }
}

/// The first problem with the settings.
pub open spec fn settings_problem(t: Tree) -> Option<Seq<char>> {
    match t.field("settings"@) {
        None => None,
        Some(s) => if !s.has_parts() {
            Some(tree::invalid("settings"@))
        } else {
            tree::or_else(
                tree::opt_text_problem(s.part("prefix"@, 0), "prefix"@),
                unless(parallel_ok(s.part("parallel"@, 1)), "parallel"@),
            )
        },
    }
}

/// Each setting that is missing has its default.
pub open spec fn settings_is(t: Tree, settings: Settings) -> bool {
    let s = match t.field("settings"@) {
        Some(s) => s,
        None => Tree::Other,
    };
    &&& settings.prefix@ == match tree::opt_text_of(s.part("prefix"@, 0)) {
        Some(prefix) => prefix,
        None => "~/.local"@,
    }
    &&& settings.parallel == match s.part("parallel"@, 1) {
        Some(Tree::Integer(n)) => n,
        _ => 8,
    }
}

fn read_settings(t: &Tree) -> (r: Result<Settings, String>)
    ensures
        match r {
            Ok(s) => settings_problem(*t) is None && settings_is(*t, s),
            Err(m) => settings_problem(*t) == Some(m@),
        },
{
    let mut settings = Settings::default();
    if let Some(s) = t.get("settings") {
        if !s.is_branch_or_list() {
            return Err(tree::invalid_field("settings"));
        }
        if let Some(prefix) = tree::may_text(s.get_part("prefix", 0), "prefix")? {
            settings.prefix = prefix;
        }
        match s.get_part("parallel", 1) {
            None => {},
            Some(Tree::Integer(n)) => {
                if *n < 0 || *n > u32::MAX as i128 {
                    return Err(tree::invalid_field("parallel"));
                }
                settings.parallel = *n as u32;
            },
            Some(_) => {
                return Err(tree::invalid_field("parallel"));
            },
        }
    }
    Ok(settings)
}

/// The first problem with what a configuration file holds.
pub open spec fn config_problem(t: Tree) -> Option<Seq<char>> {
    if !(t is Branch) {
        Some(tree::invalid("config.toml"@))
    } else {
        tree::or_else(
            settings_problem(t),
            tree::or_else(
                tree::items_problem::<RepoEntry>(t.field("repo"@), "repo"@),
                tree::or_else(
                    tree::items_problem::<GitEntry>(t.field("git"@), "git"@),
                    tree::or_else(
                        tree::items_problem::<CargoEntry>(t.field("cargo"@), "cargo"@),
                        tree::or_else(
                            tree::items_problem::<NodeEntry>(t.field("node"@), "node"@),
                            tree::or_else(
                                tree::items_problem::<AptEntry>(t.field("apt"@), "apt"@),
                                tree::or_else(
                                    tree::items_problem::<CurlEntry>(t.field("curl"@), "curl"@),
                                    tree::items_problem::<PluginEntry>(t.field("plugin"@), "plugin"@),
                                ),
                            ),
                        ),
                    ),
                ),
            ),
        )
    }
}

/// Whether a configuration is what a tree without a problem stands for.
pub open spec fn config_is(t: Tree, c: Config) -> bool {
    &&& settings_is(t, c.settings)
    &&& tree::items_are(t.field("repo"@), c.repo@)
    &&& tree::items_are(t.field("git"@), c.git@)
    &&& tree::items_are(t.field("cargo"@), c.cargo@)
    &&& tree::items_are(t.field("node"@), c.node@)
    &&& tree::items_are(t.field("apt"@), c.apt@)
    &&& tree::items_are(t.field("curl"@), c.curl@)
    &&& tree::items_are(t.field("plugin"@), c.plugin@)
}

fn read_config(t: &Tree) -> (r: Result<Config, String>)
    ensures
        match r {
            Ok(c) => config_problem(*t) is None && config_is(*t, c),
            Err(m) => config_problem(*t) == Some(m@),
        },
{
    if !t.is_branch() {
        return Err(tree::invalid_field("config.toml"));
    }
    let settings = read_settings(t)?;
    let repo = tree::read_items::<RepoEntry>(t.get("repo"), "repo")?;
    let git = tree::read_items::<GitEntry>(t.get("git"), "git")?;
    let cargo = tree::read_items::<CargoEntry>(t.get("cargo"), "cargo")?;
    let node = tree::read_items::<NodeEntry>(t.get("node"), "node")?;
    let apt = tree::read_items::<AptEntry>(t.get("apt"), "apt")?;
    let curl = tree::read_items::<CurlEntry>(t.get("curl"), "curl")?;
    let plugin = tree::read_items::<PluginEntry>(t.get("plugin"), "plugin")?;
    Ok(Config { settings, repo, git, cargo, node, apt, curl, plugin })
}

/// Reads a configuration. Fields that nothing asks for do not matter. It fails
/// if and only if there is a problem with what the file holds, and says which.
pub fn parse(t: &Tree) -> (r: Result<Config, Failure>)
    ensures
        match r {
            Ok(c) => config_problem(*t) is None && config_is(*t, c),
            Err(e) => config_problem(*t) is Some && e@ == seq![
                "failed to parse config.toml"@,
                config_problem(*t)->0,
            ],
        },
{
    match read_config(t) {
        Ok(c) => Ok(c),
        Err(problem) => Err(
            Failure::new(problem).context("failed to parse config.toml".to_owned()),
        ),
    }
}

/// Every entry of a file is read, each under its own source type, at its own
/// place and with its own name; a source type without entries has none.
pub proof fn lemma_every_entry_is_read(t: Tree, c: Config)
    requires
        config_is(t, c),
    ensures
        match t.field("repo"@) {
            Some(Tree::List(items)) => c.repo@.len() == items@.len() && forall|i: int|
                0 <= i < items@.len() ==> Some((#[trigger] c.repo@[i]).name@) == tree::opt_text_of(
                    items@[i].field("name"@),
                ),
            _ => c.repo@.len() == 0,
        },
        match t.field("git"@) {
            Some(Tree::List(items)) => c.git@.len() == items@.len() && forall|i: int|
                0 <= i < items@.len() ==> Some((#[trigger] c.git@[i]).name@) == tree::opt_text_of(
                    items@[i].field("name"@),
                ),
            _ => c.git@.len() == 0,
        },
        match t.field("cargo"@) {
            Some(Tree::List(items)) => c.cargo@.len() == items@.len() && forall|i: int|
                0 <= i < items@.len() ==> Some((#[trigger] c.cargo@[i]).name@) == tree::opt_text_of(
                    items@[i].field("name"@),
                ),
            _ => c.cargo@.len() == 0,
        },
        match t.field("node"@) {
            Some(Tree::List(items)) => c.node@.len() == items@.len() && forall|i: int|
                0 <= i < items@.len() ==> Some((#[trigger] c.node@[i]).name@) == tree::opt_text_of(
                    items@[i].field("name"@),
                ),
            _ => c.node@.len() == 0,
        },
        match t.field("apt"@) {
            Some(Tree::List(items)) => c.apt@.len() == items@.len() && forall|i: int|
                0 <= i < items@.len() ==> Some((#[trigger] c.apt@[i]).name@) == tree::opt_text_of(
                    items@[i].field("name"@),
                ),
            _ => c.apt@.len() == 0,
        },
        match t.field("curl"@) {
            Some(Tree::List(items)) => c.curl@.len() == items@.len() && forall|i: int|
                0 <= i < items@.len() ==> Some((#[trigger] c.curl@[i]).name@) == tree::opt_text_of(
                    items@[i].field("name"@),
                ),
            _ => c.curl@.len() == 0,
        },
        match t.field("plugin"@) {
            Some(Tree::List(items)) => c.plugin@.len() == items@.len() && forall|i: int|
                0 <= i < items@.len() ==> Some((#[trigger] c.plugin@[i]).name@) == tree::opt_text_of(
                    items@[i].part("name"@, 0),
                ),
            _ => c.plugin@.len() == 0,
        },
{
}

/// The fields of an entry are read from where they are written: what is
/// missing has its default, which defers nothing and links the completions.
pub proof fn lemma_fields_of_an_entry(t: Tree, c: Common)
    requires
        common_is(t, c),
    ensures
        c.lazy <==> t.field("lazy"@) == Some(Tree::Bool(true)),
        match t.field("description"@) {
            Some(Tree::Text(s)) => c.description is Some && c.description->0@ == s@,
            _ => c.description is None,
        },
        match t.field("bind"@) {
            Some(Tree::Text(s)) => c.bind is Some && c.bind->0@ == s@,
            _ => c.bind is None,
        },
        match t.field("bin"@) {
            None => c.bin is None,
            Some(Tree::Text(s)) => c.bin is Some && c.bin->0 is Single && c.bin->0->Single_0@ == s@,
            Some(Tree::List(items)) => c.bin is Some && c.bin->0 is Multiple
                && c.bin->0->Multiple_0@.len() == items@.len() && forall|i: int|
                0 <= i < items@.len() ==> (#[trigger] c.bin->0->Multiple_0@[i])@
                    == items@[i]->Text_0@,
            Some(_) => c.bin is Some && c.bin->0 is Mapped,
        },
        match t.field("env"@) {
            Some(Tree::Branch(m)) => forall|k: Seq<char>|
                (#[trigger] c.env@.contains_key(k) <==> m@.contains_key(k)) && (m@.contains_key(k)
                    ==> c.env@[k]@ == m@[k]->Text_0@),
            _ => forall|k: Seq<char>| !#[trigger] c.env@.contains_key(k),
        },
        match t.field("eval"@) {
            None => c.eval is None,
            Some(Tree::Text(s)) => c.eval is Some && c.eval->0.cmd_text() == s@
                && c.eval->0.cache_choice() is None,
            Some(v) => c.eval is Some && Some(c.eval->0.cmd_text()) == tree::opt_text_of(
                v.field("cmd"@),
            ) && c.eval->0.cache_choice() == tree::opt_bool_of(v.field("cache"@)),
        },
        t.field("run"@) is None <==> c.run is None,
        t.field("setup"@) is None <==> c.setup is None,
        t.field("setup"@) matches Some(Tree::Branch(m)) ==> {
            &&& c.setup is Some && c.setup->0 is Split
            &&& tree::opt_text_of(tree::slot(m@, "install"@)) == Some(c.setup->0->install@)
            &&& tree::opt_text_of(tree::slot(m@, "update"@)) == Some(c.setup->0->update@)
        },
        t.field("completions"@) is None ==> c.completions == CompletionsSpec::Enabled(true),
        t.field("completions"@) == Some(Tree::Bool(false)) ==> c.completions
            == CompletionsSpec::Enabled(false),
{
    if let Some(Tree::List(items)) = t.field("bin"@) {
        let names = c.bin->0->Multiple_0@;
        assert(text::texts(names) == tree::texts_of(items@));
        assert(text::texts(names).len() == names.len());
        assert(tree::texts_of(items@).len() == items@.len());
        assert forall|i: int| 0 <= i < items@.len() implies (#[trigger] names[i])@
            == items@[i]->Text_0@ by {
            assert(text::texts(names)[i] == names[i]@);
            assert(tree::texts_of(items@)[i] == items@[i]->Text_0@);
        }
    }
    if let Some(Tree::Branch(m)) = t.field("env"@) {
        assert forall|k: Seq<char>|
            (#[trigger] c.env@.contains_key(k) <==> m@.contains_key(k)) && (m@.contains_key(k)
                ==> c.env@[k]@ == m@[k]->Text_0@) by {
            assert(c.env@.dom().contains(k) <==> m@.dom().contains(k));
        }
    }
}

/// The host is Codeberg exactly if that is written, a package manager is the
/// one that is written, and both have a default.
pub proof fn lemma_choices(v: Option<Tree>)
    ensures
        host_of(None) == Host::Github,
        manager_of(None) == NodeManager::Auto,
        host_of(v) == Host::Codeberg <==> v is Some && v->0.choice() == Some("codeberg"@),
        host_ok(v) ==> (host_of(v) == Host::Github <==> v is None || v->0.choice() == Some(
            "github"@,
        )),
        manager_of(v) == NodeManager::Bun <==> v is Some && v->0.choice() == Some("bun"@),
        manager_of(v) == NodeManager::Npm <==> v is Some && v->0.choice() == Some("npm"@),
{
    reveal_strlit("bun");
    reveal_strlit("npm");
    reveal_strlit("github");
    reveal_strlit("codeberg");
    assert("bun"@[0] != "npm"@[0]);
    assert("github"@.len() != "codeberg"@.len());
}

/// A setting is the one that is written, and has its default where none is.
pub proof fn lemma_settings(t: Tree, settings: Settings)
    requires
        settings_is(t, settings),
    ensures
        t.field("settings"@) is None ==> settings.prefix@ == "~/.local"@ && settings.parallel == 8,
        t.field("settings"@) matches Some(Tree::Branch(m)) ==> {
            &&& tree::slot(m@, "prefix"@) matches Some(Tree::Text(s)) ==> settings.prefix@ == s@
            &&& tree::slot(m@, "prefix"@) is None ==> settings.prefix@ == "~/.local"@
            &&& tree::slot(m@, "parallel"@) matches Some(Tree::Integer(n)) ==> settings.parallel
                == n
            &&& tree::slot(m@, "parallel"@) is None ==> settings.parallel == 8
        },
{
}

/// A name is all that an entry needs: one with a name and no other field that
/// anything asks for has no problem, and one without a name has one.
pub proof fn lemma_a_name_is_enough(t: Tree)
    requires
        t is Branch,
    ensures
        t.field("name"@) is None ==> RepoEntry::problem(t) is Some && GitEntry::problem(t) is Some
            && CargoEntry::problem(t) is Some && NodeEntry::problem(t) is Some
            && AptEntry::problem(t) is Some && CurlEntry::problem(t) is Some
            && PluginEntry::problem(t) is Some,
        t.field("url"@) is None ==> CurlEntry::problem(t) is Some,
        tree::opt_text_of(t.field("name"@)) is Some && (forall|k: Seq<char>|
            k != "name"@ ==> (#[trigger] t.field(k)) is None) ==> RepoEntry::problem(t) is None
            && GitEntry::problem(t) is None && CargoEntry::problem(t) is None && NodeEntry::problem(
            t,
        ) is None && AptEntry::problem(t) is None && PluginEntry::problem(t) is None,
{
    reveal_strlit("name");
    reveal_strlit("description");
    reveal_strlit("bin");
    reveal_strlit("env");
    reveal_strlit("eval");
    reveal_strlit("run");
    reveal_strlit("completions");
    reveal_strlit("setup");
    reveal_strlit("lazy");
    reveal_strlit("bind");
    reveal_strlit("host");
    reveal_strlit("bpick");
    reveal_strlit("extract");
    reveal_strlit("manager");
    reveal_strlit("source");
    assert("name"@[0] == 'n');
    assert("eval"@[0] == 'e');
    assert("lazy"@[0] == 'l');
    assert("bind"@[0] == 'b');
    assert("host"@[0] == 'h');
    if forall|k: Seq<char>| k != "name"@ ==> (#[trigger] t.field(k)) is None {
        assert(t.field("description"@) is None);
        assert(t.field("bin"@) is None);
        assert(t.field("env"@) is None);
        assert(t.field("eval"@) is None);
        assert(t.field("run"@) is None);
        assert(t.field("completions"@) is None);
        assert(t.field("setup"@) is None);
        assert(t.field("lazy"@) is None);
        assert(t.field("bind"@) is None);
        assert(t.field("host"@) is None);
        assert(t.field("bpick"@) is None);
        assert(t.field("extract"@) is None);
        assert(t.field("manager"@) is None);
        assert(t.field("source"@) is None);
    }
}

/// The fields of an entry that belong to its source type alone.
pub proof fn lemma_own_fields(t: Tree, r: RepoEntry, c: CurlEntry, p: PluginEntry)
    requires
        t is Branch,
    ensures
        r.stands_for(t) ==> r.extract == tree::opt_bool_of(t.field("extract"@)),
        r.stands_for(t) && t.field("bpick"@) is None ==> r.bpick is None,
        r.stands_for(t) ==> (t.field("bpick"@) matches Some(Tree::Text(s)) ==> r.bpick is Some
            && r.bpick->0 is Single && r.bpick->0->Single_0@ == s@),
        c.stands_for(t) ==> Some(c.url@) == tree::opt_text_of(t.field("url"@)),
        p.stands_for(t) ==> text::opt_text(p.source) == tree::opt_text_of(t.field("source"@)),
{
}

/// Completions that are generated or lie in a file are read as such, and a
/// command that generates them comes before a file.
pub proof fn lemma_completions_field(m: Table<Tree>, spec: CompletionsSpec)
    requires
        completions_is(Some(Tree::Branch(m)), spec),
    ensures
        tree::slot(m@, "generate"@) matches Some(Tree::Text(cmd)) ==> spec is Generate
            && spec->generate@ == cmd@,
        tree::slot(m@, "generate"@) is None ==> spec is Path && tree::opt_text_of(
            tree::slot(m@, "path"@),
        ) == Some(spec->path@),
{
}

} // verus!
