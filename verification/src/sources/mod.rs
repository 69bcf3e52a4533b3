//! What the source types share: choosing and checking what is downloaded,
//! running hooks, collecting commands and completions, and the order in which
//! all of that happens.

pub mod apt;
pub mod assets;
pub mod cargo;
pub mod collect;
pub mod curl;
pub mod digest;
pub mod git;
pub mod glob;
pub mod node;
pub mod plan;
pub mod plugin;
pub mod repo;

use vstd::prelude::*;

use crate::config::{BinSpec, EvalSpec, SetupSpec};
use crate::config;
use crate::evalcache::Probe;
use crate::failure;
use crate::failure::Failure;
use crate::path;
use crate::paths;
use crate::strings;
use crate::table::{NameSet, Table};
use crate::text;
use crate::text::Class;

verus! {

/// How the program names itself to servers.
pub const USER_AGENT: &'static str = "rig/0.10.0";

/// What `git rev-parse HEAD` in a clone said.
pub fn git_head_commit(repo_dir: &str, success: bool, stdout: &str, stderr: &str) -> (r: Result<
    String,
    Failure,
>)
    ensures
        failure::said(r) == if success {
            Ok::<Seq<char>, Seq<Seq<char>>>(text::trim(stdout@))
        } else {
            Err(seq!["git rev-parse HEAD failed in "@ + repo_dir@ + ": "@ + stderr@])
        },
{
    if success {
        Ok(strings::trim(stdout).to_owned())
    } else {
        Err(
            Failure::new(
                strings::cat4("git rev-parse HEAD failed in ", repo_dir, ": ", stderr),
            ),
        )
    }
}

/// The variables that a configuration sets for a command.
pub open spec fn applied(home: Seq<char>, env: Table<String>) -> Seq<(Seq<char>, Seq<char>)> {
    Seq::new(env.keys().len(), |i: int| (env.keys()[i], paths::expanded(home, env.values()[i]@)))
}

/// The variables that a configuration sets for a command, with `~` expanded.
/// They are always set, so that where a tool lands does not depend on the
/// shell that called.
pub fn apply_env(home: &str, env: &Table<String>) -> (r: Vec<(String, String)>)
    ensures
        text::pairs(r@) == applied(home@, *env),
{
    let ghost wanted = applied(home@, *env);
    let mut out: Vec<(String, String)> = Vec::new();
    let n = env.len();
    let mut i: usize = 0;
    assert(text::pairs(out@) =~= wanted.take(0));
    while i < n
        invariant
            i <= n,
            n == env.keys().len(),
            n == env.values().len(),
            wanted == applied(home@, *env),
            text::pairs(out@) == wanted.take(i as int),
        decreases n - i,
    {
        let ghost before = text::pairs(out@);
        let value = paths::expand_tilde_in(home, env.value(i).as_str());
        let ghost pair = (env.keys()[i as int], value@);
        out.push((env.key(i).to_owned(), value));
        assert(text::pairs(out@) =~= before.push(pair));
        i += 1;
        assert(wanted.take(i as int) =~= wanted.take(i - 1).push(wanted[i - 1]));
    }
    assert(wanted.take(i as int) =~= wanted);
    out
}

/// The shell command that looks a command up.
pub fn path_query(name: &str) -> (r: String)
    ensures
        r@ == "command -v "@ + name@,
{
    strings::cat2("command -v ", name)
}

/// What that command said.
pub fn resolve_on_path(name: &str, success: bool, stdout: &str) -> (r: Result<String, Failure>)
    ensures
        failure::said(r) == if success {
            Ok::<Seq<char>, Seq<Seq<char>>>(text::trim(stdout@))
        } else {
            Err(seq![name@ + " is not on PATH"@])
        },
{
    if success {
        Ok(strings::trim(stdout).to_owned())
    } else {
        Err(Failure::new(strings::cat2(name, " is not on PATH")))
    }
}

/// Where a command lies: in the preferred directory, else on the `PATH`.
pub open spec fn bin_place(
    name: Seq<char>,
    preferred_dir: Option<Seq<char>>,
    context: Seq<char>,
    existing: Set<Seq<char>>,
    on_path: Map<Seq<char>, String>,
) -> Result<Seq<char>, Seq<Seq<char>>> {
    if preferred_dir is Some && existing.contains(path::join(preferred_dir->0, name)) {
        Ok(path::join(preferred_dir->0, name))
    } else if on_path.contains_key(name) {
        Ok(on_path[name]@)
    } else {
        Err(seq![name + " not found on PATH after "@ + context, name + " is not on PATH"@])
    }
}

/// What is said of a command that did not land in the preferred directory.
pub open spec fn place_warning(
    name: Seq<char>,
    preferred_dir: Option<Seq<char>>,
    context: Seq<char>,
    existing: Set<Seq<char>>,
) -> Seq<Seq<char>> {
    match preferred_dir {
        Some(dir) => if existing.contains(path::join(dir, name)) {
            seq![]
        } else {
            seq![
                "warning: "@ + name + " landed outside "@ + dir + " after "@ + context
                    + " — recording its ambient PATH location instead"@,
            ]
        },
        None => seq![],
    }
}

/// Finds where a command lies, and what to warn of. `existing` holds the
/// paths that exist, `on_path` what the `PATH` says of a name.
pub fn resolve_bin_name(
    name: &str,
    preferred_dir: Option<&str>,
    context: &str,
    existing: &NameSet,
    on_path: &Table<String>,
    warnings: &mut Vec<String>,
) -> (r: Result<String, Failure>)
    ensures
        failure::said(r) == bin_place(
            name@,
            text::opt_str(preferred_dir),
            context@,
            existing@,
            on_path@,
        ),
        text::texts(final(warnings)@) == text::texts(old(warnings)@) + place_warning(
            name@,
            text::opt_str(preferred_dir),
            context@,
            existing@,
        ),
{
    let ghost before = warnings@;
    assert(text::texts(before) + seq![] =~= text::texts(before));
    if let Some(dir) = preferred_dir {
        let managed = path::join_path(dir, name);
        if existing.contains(managed.as_str()) {
            return Ok(managed);
        }
        let mut warning = strings::cat5("warning: ", name, " landed outside ", dir, " after ");
        warning.append(context);
        warning.append(" — recording its ambient PATH location instead");
        let ghost said = warning@;
        warnings.push(warning);
        assert(text::texts(warnings@) =~= text::texts(before) + seq![said]);
    }
    match on_path.get(name) {
        Some(place) => Ok(place.as_str().to_owned()),
        None => {
            let inner = Failure::new(strings::cat2(name, " is not on PATH"));
            let r = inner.context(strings::cat3(name, " not found on PATH after ", context));
            assert(r@ =~= seq![
                name@ + " not found on PATH after "@ + context@,
                name@ + " is not on PATH"@,
            ]);
            Err(r)
        },
    }
}

/// Where several commands lie; the first without a place decides the error.
pub open spec fn bin_places(
    names: Seq<Seq<char>>,
    preferred_dir: Option<Seq<char>>,
    context: Seq<char>,
    existing: Set<Seq<char>>,
    on_path: Map<Seq<char>, String>,
) -> Result<Seq<Seq<char>>, Seq<Seq<char>>>
    decreases names.len(),
{
    if names.len() == 0 {
        Ok(seq![])
    } else {
        match bin_places(names.drop_last(), preferred_dir, context, existing, on_path) {
            Err(e) => Err(e),
            Ok(found) => match bin_place(names.last(), preferred_dir, context, existing, on_path) {
                Err(e) => Err(e),
                Ok(p) => Ok(found.push(p)),
            },
        }
    }
}

pub open spec fn texts_or(r: Result<Vec<String>, Failure>) -> Result<
    Seq<Seq<char>>,
    Seq<Seq<char>>,
> {
    match r {
        Ok(v) => Ok(text::texts(v@)),
        Err(f) => Err(f@),
    }
}

/// The warnings about several commands, up to the first without a place.
pub open spec fn place_warnings(
    names: Seq<Seq<char>>,
    preferred_dir: Option<Seq<char>>,
    context: Seq<char>,
    existing: Set<Seq<char>>,
    on_path: Map<Seq<char>, String>,
) -> Seq<Seq<char>>
    decreases names.len(),
{
    if names.len() == 0 {
        seq![]
    } else {
        let front = names.drop_last();
        let before = place_warnings(front, preferred_dir, context, existing, on_path);
        if bin_places(front, preferred_dir, context, existing, on_path) is Err {
            before
        } else {
            before + place_warning(names.last(), preferred_dir, context, existing)
        }
    }
}

/// Finds where the commands of a `bin` field lie, for sources that place
/// files themselves, and what to warn of on the way.
pub fn resolve_declared_bins(
    bin: Option<&BinSpec>,
    tool: &str,
    preferred_dir: Option<&str>,
    context: &str,
    existing: &NameSet,
    on_path: &Table<String>,
    warnings: &mut Vec<String>,
) -> (r: Result<Vec<String>, Failure>)
    ensures
        texts_or(r) == bin_places(
            config::declared(bin, tool@),
            text::opt_str(preferred_dir),
            context@,
            existing@,
            on_path@,
        ),
        text::texts(final(warnings)@) == text::texts(old(warnings)@) + place_warnings(
            config::declared(bin, tool@),
            text::opt_str(preferred_dir),
            context@,
            existing@,
            on_path@,
        ),
{
    let names = BinSpec::declared_names(bin, tool);
    let ghost all = config::declared(bin, tool@);
    let ghost dir = text::opt_str(preferred_dir);
    let ghost start = text::texts(warnings@);
    let mut out: Vec<String> = Vec::new();
    let mut i: usize = 0;
    assert(text::texts(out@) =~= seq![]);
    assert(start + seq![] =~= start);
    while i < names.len()
        invariant
            i <= names.len(),
            all == config::declared(bin, tool@),
            all == text::texts(names@),
            dir == text::opt_str(preferred_dir),
            start == text::texts(old(warnings)@),
            bin_places(all.take(i as int), dir, context@, existing@, on_path@) == Ok::<
                _,
                Seq<Seq<char>>,
            >(text::texts(out@)),
            text::texts(warnings@) == start + place_warnings(
                all.take(i as int),
                dir,
                context@,
                existing@,
                on_path@,
            ),
        decreases names.len() - i,
    {
        let ghost before = out@;
        proof {
            assert(all.take(i + 1).drop_last() =~= all.take(i as int));
            assert(all[i as int] == names@[i as int]@);
            let warned = place_warnings(all.take(i as int), dir, context@, existing@, on_path@);
            let more = place_warning(all[i as int], dir, context@, existing@);
            assert(start + warned + more =~= start + (warned + more));
        }
        match resolve_bin_name(
            names[i].as_str(),
            preferred_dir,
            context,
            existing,
            on_path,
            warnings,
        ) {
            Err(f) => {
                proof {
                    lemma_first_place_error_stays(
                        all,
                        dir,
                        context@,
                        existing@,
                        on_path@,
                        i + 1,
                    );
                }
                return Err(f);
            },
            Ok(place) => {
                let ghost said = place@;
                out.push(place);
                assert(text::texts(out@) =~= text::texts(before).push(said));
            },
        }
        i += 1;
    }
    assert(all.take(i as int) =~= all);
    Ok(out)
}

proof fn lemma_first_place_error_stays(
    names: Seq<Seq<char>>,
    preferred_dir: Option<Seq<char>>,
    context: Seq<char>,
    existing: Set<Seq<char>>,
    on_path: Map<Seq<char>, String>,
    n: int,
)
    requires
        0 <= n <= names.len(),
        bin_places(names.take(n), preferred_dir, context, existing, on_path) is Err,
    ensures
        bin_places(names, preferred_dir, context, existing, on_path) == bin_places(
            names.take(n),
            preferred_dir,
            context,
            existing,
            on_path,
        ),
        place_warnings(names, preferred_dir, context, existing, on_path) == place_warnings(
            names.take(n),
            preferred_dir,
            context,
            existing,
            on_path,
        ),
    decreases names.len() - n,
{
    if n < names.len() {
        assert(names.take(n + 1).drop_last() =~= names.take(n));
        lemma_first_place_error_stays(names, preferred_dir, context, existing, on_path, n + 1);
    } else {
        assert(names.take(n) =~= names);
    }
}

/// How a downloaded file is unpacked.
#[derive(Debug, Clone, Copy, PartialEq, Eq, Structural)]
pub enum Unpack {
    /// The file is the command.
    Raw,
    TarGz,
    Zip,
    Deb,
}

/// The name of a file; nothing if a path has none.
pub open spec fn name_or_empty(p: Seq<char>) -> Seq<char> {
    match path::file_name(p) {
        Some(name) => name,
        None => seq![],
    }
}

pub open spec fn unpack_by(archive: Seq<char>, extract_flag: Option<bool>) -> Result<
    Unpack,
    Seq<Seq<char>>,
> {
    let name = name_or_empty(archive);
    if extract_flag == Some(false) {
        Ok(Unpack::Raw)
    } else if ".tar.gz"@.is_suffix_of(name) || ".tgz"@.is_suffix_of(name) {
        Ok(Unpack::TarGz)
    } else if ".zip"@.is_suffix_of(name) {
        Ok(Unpack::Zip)
    } else if ".deb"@.is_suffix_of(name) {
        Ok(Unpack::Deb)
    } else {
        Err(
            seq![
                "don't know how to extract "@ + name
                    + "; set `extract = false` if this is a raw binary"@,
            ],
        )
    }
}

/// Decides by its name how a downloaded file is unpacked.
pub fn extract_kind(archive: &str, extract_flag: Option<bool>) -> (r: Result<Unpack, Failure>)
    ensures
        match unpack_by(archive@, extract_flag) {
            Ok(kind) => r is Ok && r->Ok_0 == kind,
            Err(chain) => r is Err && r->Err_0@ == chain,
        },
{
    if let Some(false) = extract_flag {
        return Ok(Unpack::Raw);
    }
    let name = match path::path_file_name(archive) {
        Some(name) => name,
        None => String::new(),
    };
    let s = name.as_str();
    if strings::ends_with(s, ".tar.gz") || strings::ends_with(s, ".tgz") {
        Ok(Unpack::TarGz)
    } else if strings::ends_with(s, ".zip") {
        Ok(Unpack::Zip)
    } else if strings::ends_with(s, ".deb") {
        Ok(Unpack::Deb)
    } else {
        Err(
            Failure::new(
                strings::cat3(
                    "don't know how to extract ",
                    s,
                    "; set `extract = false` if this is a raw binary",
                ),
            ),
        )
    }
}

/// Where a file that is the command itself is copied to.
pub fn raw_binary_dest(archive: &str, dest: &str) -> (r: Result<String, Failure>)
    ensures
        failure::said(r) == match path::file_name(archive@) {
            Some(name) => Ok::<Seq<char>, Seq<Seq<char>>>(path::join(dest@, name)),
            None => Err(seq!["archive path has no file name"@]),
        },
{
    match path::path_file_name(archive) {
        Some(name) => Ok(path::join_path(dest, name.as_str())),
        None => Err(Failure::new("archive path has no file name".to_owned())),
    }
}

/// A file mode with the permission to execute added for everyone.
pub fn executable_mode(mode: u32) -> (r: u32)
    ensures
        r == mode | 0o111,
{
    mode | 0o111
}

/// Making a file executable takes no permission away.
pub proof fn lemma_executable_mode(mode: u32)
    ensures
        (mode | 0o111u32) & 0o111u32 == 0o111u32,
        (mode | 0o111u32) & mode == mode,
{
    assert((mode | 0o111u32) & 0o111u32 == 0o111u32) by (bit_vector);
    assert((mode | 0o111u32) & mode == mode) by (bit_vector);
}

/// The command that shows whether a fresh build works: the first that it
/// provides.
pub open spec fn smoke_bin(found: Result<Seq<(Seq<char>, Seq<char>)>, Seq<Seq<char>>>) -> Result<
    (Seq<char>, Seq<char>),
    Seq<Seq<char>>,
> {
    match found {
        Ok(pairs) => if pairs.len() > 0 {
            Ok(pairs[0])
        } else {
            Err(seq!["no bin resolved to smoke-test"@])
        },
        Err(e) => Err(e),
    }
}

/// Finds the command that shows whether a fresh build works, before it goes
/// live.
pub fn smoke_test_version(
    search_dir: &str,
    files: &Vec<String>,
    bin_spec: Option<&BinSpec>,
    default_name: &str,
) -> (r: Result<collect::BinSource, Failure>)
    ensures
        match smoke_bin(
            collect::bin_sources(search_dir@, text::texts(files@), bin_spec, default_name@),
        ) {
            Ok(pair) => r is Ok && (r->Ok_0.command@, r->Ok_0.file@) == pair,
            Err(chain) => r is Err && r->Err_0@ == chain,
        },
{
    match collect::resolve_bin_sources(search_dir, files, bin_spec, default_name) {
        Ok(found) => {
            let mut found = found;
            assert(collect::pairs(found@).len() == found@.len());
            if found.len() == 0 {
                Err(Failure::new("no bin resolved to smoke-test".to_owned()))
            } else {
                assert(collect::pairs(found@)[0] == (found@[0].command@, found@[0].file@));
                Ok(found.remove(0))
            }
        },
        Err(f) => Err(f),
    }
}

/// What running a fresh build with `--version` means: one that cannot even
/// print its version never goes live.
pub fn run_version_smoke(label: &str, success: bool, status: &str) -> (r: Result<(), Failure>)
    ensures
        failure::done(r) == if success {
            Ok::<(), Seq<Seq<char>>>(())
        } else {
            Err(
                seq![
                    "`"@ + label@ + " --version` exited with "@ + status@
                        + " — refusing to make this build live"@,
                ],
            )
        },
{
    if success {
        Ok(())
    } else {
        Err(
            Failure::new(
                strings::cat5(
                    "`",
                    label,
                    " --version` exited with ",
                    status,
                    " — refusing to make this build live",
                ),
            ),
        )
    }
}

/// Whether a tool is installed for the first time.
#[derive(Debug, Clone, Copy, PartialEq, Eq, Structural)]
pub enum Phase {
    Install,
    Update,
}

impl Phase {
    pub open spec fn doing(self) -> Seq<char> {
        match self {
            Phase::Install => "installing"@,
            Phase::Update => "updating"@,
        }
    }

    pub fn verb(self) -> (r: &'static str)
        ensures
            r@ == self.doing(),
    {
        match self {
            Phase::Install => "installing",
            Phase::Update => "updating",
        }
    }
}

/// The commands of a `setup` field.
pub open spec fn setup_commands(spec: SetupSpec, phase: Phase) -> Seq<Seq<char>> {
    match spec {
        SetupSpec::Single(cmd) => seq![cmd@],
        SetupSpec::Multiple(cmds) => text::texts(cmds@),
        SetupSpec::Split { install, update } => match phase {
            Phase::Install => seq![install@],
            Phase::Update => seq![update@],
        },
    }
}

/// The commands of a `setup` field, to be run in order until one fails.
pub fn run_setup(spec: &SetupSpec, phase: Phase) -> (r: Vec<String>)
    ensures
        text::texts(r@) == setup_commands(*spec, phase),
{
    let r = match spec {
        SetupSpec::Single(cmd) => vec![cmd.as_str().to_owned()],
        SetupSpec::Multiple(cmds) => strings::clone_texts(cmds),
        SetupSpec::Split { install, update } => match phase {
            Phase::Install => vec![install.as_str().to_owned()],
            Phase::Update => vec![update.as_str().to_owned()],
        },
    };
    assert(text::texts(r@) =~= setup_commands(*spec, phase));
    r
}

/// Whether a word calls `sudo`, once the shell syntax around it is gone.
pub open spec fn is_sudo(word: Seq<char>) -> bool {
    let bare = text::trim_both(word, Class::NotCommand);
    bare == "sudo"@ || "/sudo"@.is_suffix_of(bare)
}

pub open spec fn has_sudo(cmd: Seq<char>) -> bool {
    exists|i: int| 0 <= i < text::words(cmd).len() && is_sudo(#[trigger] text::words(cmd)[i])
}

/// Whether a command mentions `sudo`: as a word, at the end of a path, or in
/// a subshell.
pub fn mentions_sudo(cmd: &str) -> (r: bool)
    ensures
        r == has_sudo(cmd@),
{
    let words = strings::words(cmd);
    let ghost all = text::words(cmd@);
    let mut i: usize = 0;
    while i < words.len()
        invariant
            i <= words.len(),
            all == text::words(cmd@),
            all == text::strs(words@),
            forall|j: int| 0 <= j < i ==> !is_sudo(#[trigger] all[j]),
        decreases words.len() - i,
    {
        assert(all[i as int] == words@[i as int]@);
        let bare = strings::trim_both(words[i], Class::NotCommand);
        if strings::same(bare, "sudo") || strings::ends_with(bare, "/sudo") {
            return true;
        }
        i += 1;
    }
    false
}

/// What is said before a hook that reaches outside is run.
pub open spec fn sudo_warning(cmd: Seq<char>) -> Option<Seq<char>> {
    if has_sudo(cmd) {
        Some(
            "warning: setup hook runs `sudo` — writes outside rig's control, uninstall will be incomplete: "@
                + cmd,
        )
    } else {
        None
    }
}

pub fn hook_warning(cmd: &str) -> (r: Option<String>)
    ensures
        text::opt_text(r) == sudo_warning(cmd@),
{
    if mentions_sudo(cmd) {
        Some(
            strings::cat2(
                "warning: setup hook runs `sudo` — writes outside rig's control, uninstall will be incomplete: ",
                cmd,
            ),
        )
    } else {
        None
    }
}

/// What came of running a hook.
pub fn run_shell(cmd: &str, success: bool, status: &str) -> (r: Result<(), Failure>)
    ensures
        failure::done(r) == if success {
            Ok::<(), Seq<Seq<char>>>(())
        } else {
            Err(seq!["setup command failed ("@ + status@ + "): "@ + cmd@])
        },
{
    if success {
        Ok(())
    } else {
        Err(Failure::new(strings::cat4("setup command failed (", status, "): ", cmd)))
    }
}

/// What came of running a program.
pub fn command_outcome(label: &str, success: bool, status: &str) -> (r: Result<(), Failure>)
    ensures
        failure::done(r) == if success {
            Ok::<(), Seq<Seq<char>>>(())
        } else {
            Err(seq![label@ + " failed ("@ + status@ + ")"@])
        },
{
    if success {
        Ok(())
    } else {
        Err(Failure::new(strings::cat4(label, " failed (", status, ")")))
    }
}

/// What has to be done for an `eval` field.
#[derive(Debug, Clone, Copy, PartialEq, Eq, Structural)]
pub enum EvalPlan {
    /// Nothing is known or wanted.
    Nothing,
    /// The output is not to be kept.
    Live,
    /// Run the command once and keep its output.
    Capture,
    /// Find out whether the output may be kept.
    Probe,
}

pub open spec fn eval_need(eval: Option<EvalSpec>) -> EvalPlan {
    match eval {
        None => EvalPlan::Nothing,
        Some(e) => match e.cache_choice() {
            Some(true) => EvalPlan::Capture,
            Some(false) => EvalPlan::Live,
            None => EvalPlan::Probe,
        },
    }
}

pub fn eval_plan(eval: &Option<EvalSpec>) -> (r: EvalPlan)
    ensures
        r == eval_need(*eval),
{
    match eval {
        None => EvalPlan::Nothing,
        Some(e) => match e.cache_override() {
            Some(true) => EvalPlan::Capture,
            Some(false) => EvalPlan::Live,
            None => EvalPlan::Probe,
        },
    }
}

/// What a record says of an `eval` command.
#[derive(Debug)]
pub struct EvalState {
    pub cacheable: Option<bool>,
    pub output: Option<String>,
    pub evidence: Vec<String>,
}

#[verifier::ext_equal]
pub struct EvalStateView {
    pub cacheable: Option<bool>,
    pub output: Option<Seq<char>>,
    pub evidence: Seq<Seq<char>>,
}

impl View for EvalState {
    type V = EvalStateView;

    open spec fn view(&self) -> EvalStateView {
        EvalStateView {
            cacheable: self.cacheable,
            output: text::opt_text(self.output),
            evidence: text::texts(self.evidence@),
        }
    }
}

/// What came of the plan: the output of a single run, or a probe.
#[derive(Debug)]
pub enum EvalReply {
    Nothing,
    Captured(Option<String>),
    Probed(Option<Probe>),
}

pub open spec fn eval_state(plan: EvalPlan, reply: EvalReply) -> EvalStateView {
    match (plan, reply) {
        (EvalPlan::Live, _) => EvalStateView {
            cacheable: Some(false),
            output: None,
            evidence: seq![],
        },
        (EvalPlan::Capture, EvalReply::Captured(Some(output))) => EvalStateView {
            cacheable: Some(true),
            output: Some(output@),
            evidence: seq![],
        },
        (EvalPlan::Probe, EvalReply::Probed(Some(probe))) => EvalStateView {
            cacheable: Some(probe.cacheable),
            output: if probe.cacheable {
                Some(probe.baseline_output@)
            } else {
                None
            },
            evidence: text::texts(probe.reasons@),
        },
        _ => EvalStateView { cacheable: None, output: None, evidence: seq![] },
    }
}

/// A command is recorded as cacheable exactly if its output is kept: one whose
/// run or probe failed is not.
pub proof fn lemma_kept_only_if_cacheable(plan: EvalPlan, reply: EvalReply)
    ensures
        eval_state(plan, reply).output is Some <==> eval_state(plan, reply).cacheable == Some(true),
{
}

fn no_texts() -> (r: Vec<String>)
    ensures
        text::texts(r@) == Seq::<Seq<char>>::empty(),
{
    let r: Vec<String> = Vec::new();
    assert(text::texts(r@) =~= seq![]);
    r
}

/// What is recorded of an `eval` command. A probe or a run that failed never
/// fails the install: the command then counts as not cacheable and is run live.
pub fn resolve_eval_cache(plan: EvalPlan, reply: EvalReply) -> (r: EvalState)
    ensures
        r@ == eval_state(plan, reply),
{
    match plan {
        EvalPlan::Nothing => EvalState { cacheable: None, output: None, evidence: no_texts() },
        EvalPlan::Live => EvalState { cacheable: Some(false), output: None, evidence: no_texts() },
        EvalPlan::Capture => match reply {
            EvalReply::Captured(Some(output)) => EvalState {
                cacheable: Some(true),
                output: Some(output),
                evidence: no_texts(),
            },
            _ => EvalState { cacheable: None, output: None, evidence: no_texts() },
        },
        EvalPlan::Probe => match reply {
            EvalReply::Probed(Some(probe)) => {
                let output = if probe.cacheable {
                    Some(probe.baseline_output)
                } else {
                    None
                };
                EvalState { cacheable: Some(probe.cacheable), output, evidence: probe.reasons }
            },
            _ => EvalState { cacheable: None, output: None, evidence: no_texts() },
        },
    }
}

/// What is said of an `eval` command whose output could not be had.
pub fn eval_warning(plan: EvalPlan, cmd: &str, error: &str) -> (r: String)
    ensures
        r@ == match plan {
            EvalPlan::Capture => "warning: eval capture failed for `"@ + cmd@ + "`: "@ + error@,
            _ => "warning: eval cacheability probe failed for `"@ + cmd@
                + "`, falling back to live eval: "@ + error@,
        },
{
    match plan {
        EvalPlan::Capture => strings::cat4(
            "warning: eval capture failed for `",
            cmd,
            "`: ",
            error,
        ),
        _ => strings::cat4(
            "warning: eval cacheability probe failed for `",
            cmd,
            "`, falling back to live eval: ",
            error,
        ),
    }
}

/// A command gets exactly the variables of its entry, in their order: `~` is
/// the home directory, `~/` at the start leads into it, and everything else is
/// handed on as it is.
pub proof fn lemma_variables_are_set(home: Seq<char>, env: Table<String>, i: int)
    requires
        0 <= i < env.keys().len(),
    ensures
        applied(home, env).len() == env.keys().len(),
        applied(home, env)[i].0 == env.keys()[i],
        ({
            let raw = env.values()[i]@;
            let set = applied(home, env)[i].1;
            &&& raw == seq!['~'] ==> set == home
            &&& raw.len() >= 2 && raw[0] == '~' && raw[1] == '/' ==> set == path::join(
                home,
                raw.skip(2),
            )
            &&& (raw.len() == 0 || raw[0] != '~' || (raw.len() > 1 && raw[1] != '/')) ==> set == raw
        }),
{
    let raw = env.values()[i]@;
    reveal_strlit("~/");
    reveal_strlit("~");
    if raw == seq!['~'] {
        assert(raw =~= "~"@);
        assert(raw.len() == 1);
    }
    if raw.len() >= 2 && raw[0] == '~' && raw[1] == '/' {
        assert("~/"@ =~= raw.take(2));
    }
    if "~/"@.is_prefix_of(raw) {
        assert(raw[0] == "~/"@[0]);
        assert(raw[1] == "~/"@[1]);
    }
}

/// A command lies in the preferred directory exactly if it exists there, else
/// where the `PATH` has it; it has no place exactly if neither holds it. A
/// warning is given exactly if there is a preferred directory without it.
pub proof fn lemma_where_a_command_lies(
    name: Seq<char>,
    preferred_dir: Option<Seq<char>>,
    context: Seq<char>,
    existing: Set<Seq<char>>,
    on_path: Map<Seq<char>, String>,
)
    ensures
        ({
            let place = bin_place(name, preferred_dir, context, existing, on_path);
            let managed = preferred_dir is Some && existing.contains(
                path::join(preferred_dir->0, name),
            );
            &&& managed ==> place == Ok::<Seq<char>, Seq<Seq<char>>>(
                path::join(preferred_dir->0, name),
            )
            &&& !managed && on_path.contains_key(name) ==> place == Ok::<
                Seq<char>,
                Seq<Seq<char>>,
            >(on_path[name]@)
            &&& place is Err <==> !managed && !on_path.contains_key(name)
            &&& place_warning(name, preferred_dir, context, existing).len() == if preferred_dir
                is Some && !managed {
                1int
            } else {
                0int
            }
        }),
{
}

/// Every declared command gets its own place, in the order of the commands,
/// and an error comes exactly if one of them has none.
pub proof fn lemma_every_command_is_placed(
    names: Seq<Seq<char>>,
    preferred_dir: Option<Seq<char>>,
    context: Seq<char>,
    existing: Set<Seq<char>>,
    on_path: Map<Seq<char>, String>,
)
    ensures
        ({
            let places = bin_places(names, preferred_dir, context, existing, on_path);
            &&& places is Err <==> exists|i: int|
                0 <= i < names.len() && bin_place(
                    #[trigger] names[i],
                    preferred_dir,
                    context,
                    existing,
                    on_path,
                ) is Err
            &&& places is Ok ==> places->Ok_0.len() == names.len() && forall|i: int|
                0 <= i < names.len() ==> bin_place(
                    #[trigger] names[i],
                    preferred_dir,
                    context,
                    existing,
                    on_path,
                ) == Ok::<Seq<char>, Seq<Seq<char>>>(places->Ok_0[i])
        }),
    decreases names.len(),
{
    if names.len() > 0 {
        let front = names.drop_last();
        lemma_every_command_is_placed(front, preferred_dir, context, existing, on_path);
        let places = bin_places(names, preferred_dir, context, existing, on_path);
        let before = bin_places(front, preferred_dir, context, existing, on_path);
        if before is Err {
            let i = choose|i: int|
                0 <= i < front.len() && bin_place(
                    #[trigger] front[i],
                    preferred_dir,
                    context,
                    existing,
                    on_path,
                ) is Err;
            assert(names[i] == front[i]);
        } else {
            assert forall|i: int| 0 <= i < front.len() implies bin_place(
                #[trigger] names[i],
                preferred_dir,
                context,
                existing,
                on_path,
            ) == Ok::<Seq<char>, Seq<Seq<char>>>(before->Ok_0[i]) by {
                assert(names[i] == front[i]);
            }
            assert(names[names.len() - 1] == names.last());
        }
    }
}

/// How a file is unpacked goes by the end of its name, unless it is the
/// command itself; without a known ending there is no way.
pub proof fn lemma_how_a_file_is_unpacked(archive: Seq<char>, stem: Seq<char>, flag: Option<bool>)
    ensures
        unpack_by(archive, Some(false)) == Ok::<Unpack, Seq<Seq<char>>>(Unpack::Raw),
        flag != Some(false) ==> {
            let name = path::file_name(archive);
            let kind = unpack_by(archive, flag);
            &&& name == Some(stem + ".tar.gz"@) ==> kind == Ok::<Unpack, Seq<Seq<char>>>(
                Unpack::TarGz,
            )
            &&& name == Some(stem + ".tgz"@) ==> kind == Ok::<Unpack, Seq<Seq<char>>>(Unpack::TarGz)
            &&& name == Some(stem + ".zip"@) ==> kind == Ok::<Unpack, Seq<Seq<char>>>(Unpack::Zip)
            &&& name == Some(stem + ".deb"@) ==> kind == Ok::<Unpack, Seq<Seq<char>>>(Unpack::Deb)
            &&& kind != Ok::<Unpack, Seq<Seq<char>>>(Unpack::Raw)
            &&& kind is Ok ==> name is Some && (".tar.gz"@.is_suffix_of(name->0)
                || ".tgz"@.is_suffix_of(name->0) || ".zip"@.is_suffix_of(name->0)
                || ".deb"@.is_suffix_of(name->0))
        },
{
    reveal_strlit(".tar.gz");
    reveal_strlit(".tgz");
    reveal_strlit(".zip");
    reveal_strlit(".deb");
    let tar = stem + ".tar.gz"@;
    let tgz = stem + ".tgz"@;
    let zip = stem + ".zip"@;
    let deb = stem + ".deb"@;
    assert(".tar.gz"@ =~= tar.subrange(tar.len() - 7, tar.len() as int));
    assert(".tgz"@ =~= tgz.subrange(tgz.len() - 4, tgz.len() as int));
    assert(".zip"@ =~= zip.subrange(zip.len() - 4, zip.len() as int));
    assert(".deb"@ =~= deb.subrange(deb.len() - 4, deb.len() as int));
    assert(!".tar.gz"@.is_suffix_of(zip)) by {
        if ".tar.gz"@.is_suffix_of(zip) {
            assert(zip.subrange(zip.len() - 7, zip.len() as int)[6] == 'z');
        }
    }
    assert(!".tgz"@.is_suffix_of(zip)) by {
        if ".tgz"@.is_suffix_of(zip) {
            assert(zip.subrange(zip.len() - 4, zip.len() as int)[3] == 'z');
        }
    }
    assert(!".tar.gz"@.is_suffix_of(deb)) by {
        if ".tar.gz"@.is_suffix_of(deb) {
            assert(deb.subrange(deb.len() - 7, deb.len() as int)[6] == 'z');
        }
    }
    assert(!".tgz"@.is_suffix_of(deb)) by {
        if ".tgz"@.is_suffix_of(deb) {
            assert(deb.subrange(deb.len() - 4, deb.len() as int)[3] == 'z');
        }
    }
    assert(!".zip"@.is_suffix_of(deb)) by {
        if ".zip"@.is_suffix_of(deb) {
            assert(deb.subrange(deb.len() - 4, deb.len() as int)[3] == 'p');
        }
    }
}

/// What is done about an `eval` command: what the configuration says of keeping
/// its output decides, and without a word there it is probed.
pub proof fn lemma_what_an_eval_needs(eval: Option<EvalSpec>)
    ensures
        eval_need(eval) == EvalPlan::Nothing <==> eval is None,
        eval_need(eval) == EvalPlan::Capture <==> eval is Some && eval->0.cache_choice() == Some(
            true,
        ),
        eval_need(eval) == EvalPlan::Live <==> eval is Some && eval->0.cache_choice() == Some(
            false,
        ),
        eval_need(eval) == EvalPlan::Probe <==> eval is Some && eval->0.cache_choice() is None,
{
}

/// What is recorded of an `eval` command: an output that was captured or that a
/// probe found stable is kept as it is, a probe's reasons are kept as evidence,
/// and a failure keeps nothing.
pub proof fn lemma_what_is_recorded_of_an_eval(reply: EvalReply)
    ensures
        eval_state(EvalPlan::Nothing, reply).cacheable is None,
        eval_state(EvalPlan::Live, reply).cacheable == Some(false),
        reply matches EvalReply::Captured(Some(output)) ==> {
            &&& eval_state(EvalPlan::Capture, reply).cacheable == Some(true)
            &&& eval_state(EvalPlan::Capture, reply).output == Some(output@)
        },
        reply matches EvalReply::Probed(Some(probe)) ==> {
            &&& eval_state(EvalPlan::Probe, reply).cacheable == Some(probe.cacheable)
            &&& probe.cacheable ==> eval_state(EvalPlan::Probe, reply).output == Some(
                probe.baseline_output@,
            )
            &&& !probe.cacheable ==> eval_state(EvalPlan::Probe, reply).output is None
            &&& eval_state(EvalPlan::Probe, reply).evidence == text::texts(probe.reasons@)
        },
        reply matches EvalReply::Captured(None) ==> eval_state(EvalPlan::Capture, reply).cacheable
            is None,
        reply matches EvalReply::Probed(None) ==> eval_state(EvalPlan::Probe, reply).cacheable
            is None,
{
}

/// A command mentions `sudo` exactly if one of its words is `sudo` or a path
/// that ends in it, once what is no letter, digit, slash or hyphen is taken
/// away at both of the word's ends; exactly then the hook is warned of.
pub proof fn lemma_sudo_is_noticed(cmd: Seq<char>)
    ensures
        has_sudo(cmd) <==> exists|i: int|
            {
                let bare = text::trim_both(text::words(cmd)[i], Class::NotCommand);
                &&& 0 <= i < text::words(cmd).len()
                &&& #[trigger] text::words(cmd)[i] == text::words(cmd)[i]
                &&& bare == "sudo"@ || (bare.len() >= 5 && bare.skip(bare.len() - 5) == "/sudo"@)
            },
        sudo_warning(cmd) is Some <==> has_sudo(cmd),
{
    reveal_strlit("/sudo");
    let words = text::words(cmd);
    if has_sudo(cmd) {
        let i = choose|i: int| 0 <= i < words.len() && is_sudo(#[trigger] words[i]);
        let bare = text::trim_both(words[i], Class::NotCommand);
        if "/sudo"@.is_suffix_of(bare) {
            assert(bare.skip(bare.len() - 5) =~= "/sudo"@);
        }
        assert(words[i] == words[i]);
    }
    if exists|i: int|
        {
            let bare = text::trim_both(words[i], Class::NotCommand);
            &&& 0 <= i < words.len()
            &&& #[trigger] words[i] == words[i]
            &&& bare == "sudo"@ || (bare.len() >= 5 && bare.skip(bare.len() - 5) == "/sudo"@)
        } {
        let i = choose|i: int|
            {
                let bare = text::trim_both(words[i], Class::NotCommand);
                &&& 0 <= i < words.len()
                &&& #[trigger] words[i] == words[i]
                &&& bare == "sudo"@ || (bare.len() >= 5 && bare.skip(bare.len() - 5) == "/sudo"@)
            };
        let bare = text::trim_both(words[i], Class::NotCommand);
        if bare != "sudo"@ {
            assert(bare.subrange(bare.len() - 5, bare.len() as int) =~= "/sudo"@);
        }
        assert(is_sudo(words[i]));
    }
}

/// The build that is tried is the first command that was found; without one, or
/// where the search failed, nothing is tried.
pub proof fn lemma_first_command_is_tried(
    found: Result<Seq<(Seq<char>, Seq<char>)>, Seq<Seq<char>>>,
)
    ensures
        smoke_bin(found) is Ok <==> found is Ok && found->Ok_0.len() > 0,
        smoke_bin(found) is Ok ==> smoke_bin(found)->Ok_0 == found->Ok_0[0],
        found is Err ==> smoke_bin(found) == Err::<(Seq<char>, Seq<char>), Seq<Seq<char>>>(
            found->Err_0,
        ),
{
}

/// A command without a place is told by its name, and so is one that landed
/// somewhere else than it should.
pub proof fn lemma_lost_command_is_told(
    name: Seq<char>,
    dir: Seq<char>,
    context: Seq<char>,
    existing: Set<Seq<char>>,
    on_path: Map<Seq<char>, String>,
)
    requires
        !existing.contains(path::join(dir, name)),
    ensures
        place_warning(name, Some(dir), context, existing) == seq![
            "warning: "@ + name + " landed outside "@ + dir + " after "@ + context
                + " — recording its ambient PATH location instead"@,
        ],
        !on_path.contains_key(name) ==> bin_place(name, Some(dir), context, existing, on_path)
            == Err::<Seq<char>, Seq<Seq<char>>>(
            seq![name + " not found on PATH after "@ + context, name + " is not on PATH"@],
        ),
{
}

} // verus!
