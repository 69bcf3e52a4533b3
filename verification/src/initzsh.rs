//! The shell startup file: `fpath`, environment, the table of commands and
//! its `command_not_found` handler, `eval` blocks and plugins. All of it is
//! text assembly; writing the file is left to the caller.

use vstd::prelude::*;

use crate::config;
use crate::config::{Common, Config, EvalSpec, PluginEntry, ResolvedEntry, RunSpec};
use crate::lock::{Lock, ToolLock, ToolLockView};
use crate::path;
use crate::paths::{Layout, LayoutView};
use crate::sources;
use crate::sources::{EvalPlan, EvalReply};
use crate::strings;
use crate::table::{NameSet, Table};
use crate::text;
use crate::text::Class;

verus! {

/// The characters that double quotes do not protect.
pub open spec fn special(c: char) -> bool {
    c == '\\' || c == '"' || c == '`' || c == '$'
}

/// A text with a backslash before each special character.
pub open spec fn escaped(s: Seq<char>) -> Seq<char>
    decreases s.len(),
{
    if s.len() == 0 {
        s
    } else if special(s.last()) {
        escaped(s.drop_last()).push('\\').push(s.last())
    } else {
        escaped(s.drop_last()).push(s.last())
    }
}

/// What a double-quoted text means to the shell, as far as backslashes go:
/// one before a special character is dropped. `None` if a special character
/// stands without one.
pub open spec fn unescaped(s: Seq<char>) -> Option<Seq<char>>
    decreases s.len(),
{
    if s.len() == 0 {
        Some(s)
    } else if s.last() == '\\' || s.last() == '"' || s.last() == '`' || s.last() == '$' {
        if s.len() >= 2 && s[s.len() - 2] == '\\' {
            match unescaped(s.drop_last().drop_last()) {
                Some(t) => Some(t.push(s.last())),
                None => None,
            }
        } else {
            None
        }
    } else {
        match unescaped(s.drop_last()) {
            Some(t) => Some(t.push(s.last())),
            None => None,
        }
    }
}

/// Escaping leaves no special character without its backslash, and taking
/// the backslashes away gives the text back: a value can neither end the
/// quotes that it stands in nor be substituted.
pub proof fn lemma_escaped(s: Seq<char>)
    ensures
        unescaped(escaped(s)) == Some(s),
    decreases s.len(),
{
    if s.len() > 0 {
        let front = s.drop_last();
        lemma_escaped(front);
        assert(s =~= front.push(s.last()));
        if special(s.last()) {
            assert(escaped(s).drop_last().drop_last() =~= escaped(front));
        } else {
            assert(escaped(s).drop_last() =~= escaped(front));
        }
    }
}

pub fn escape_dquoted(value: &str) -> (r: String)
    ensures
        r@ == escaped(value@),
{
    let chars = strings::chars_of(value);
    let mut out = String::new();
    let mut i: usize = 0;
    assert(value@.take(0) =~= seq![]);
    while i < chars.len()
        invariant
            i <= chars.len(),
            chars@ == value@,
            out@ == escaped(value@.take(i as int)),
        decreases chars.len() - i,
    {
        let c = chars[i];
        if c == '\\' || c == '"' || c == '`' || c == '$' {
            out.push('\\');
        }
        out.push(c);
        i += 1;
        assert(value@.take(i as int).drop_last() =~= value@.take(i - 1));
    }
    assert(value@.take(i as int) =~= value@);
    out
}

/// A value as it stands between the double quotes of an `export`.
pub open spec fn exported(value: Seq<char>) -> Seq<char> {
    if "~/"@.is_prefix_of(value) {
        "$HOME/"@ + escaped(value.skip("~/"@.len() as int))
    } else if value == "~"@ {
        "$HOME"@
    } else {
        escaped(value)
    }
}

/// Replaces a leading `~` by `$HOME` and escapes the rest.
pub fn expand_tilde_export(value: &str) -> (r: String)
    ensures
        r@ == exported(value@),
{
    match strings::strip_prefix(value, "~/") {
        Some(rest) => strings::cat2("$HOME/", escape_dquoted(rest).as_str()),
        None => {
            if strings::same(value, "~") {
                "$HOME".to_owned()
            } else {
                escape_dquoted(value)
            }
        },
    }
}

/// One `export` line.
pub open spec fn export_line(lead: Seq<char>, name: Seq<char>, value: Seq<char>) -> Seq<char> {
    lead + "export "@ + name + "=\""@ + exported(value) + "\"\n"@
}

pub open spec fn export_lines(lead: Seq<char>, env: Table<String>) -> Seq<Seq<char>> {
    Seq::new(env.keys().len(), |i: int| export_line(lead, env.keys()[i], env.values()[i]@))
}

/// The `export` lines of a table.
fn exports(lead: &str, env: &Table<String>) -> (r: String)
    ensures
        r@ == text::concat(export_lines(lead@, *env)),
{
    let ghost pieces = export_lines(lead@, *env);
    let mut out = String::new();
    let n = env.len();
    let mut i: usize = 0;
    while i < n
        invariant
            i <= n,
            n == env.keys().len(),
            n == env.values().len(),
            pieces == export_lines(lead@, *env),
            out@ == text::concat(pieces.take(i as int)),
        decreases n - i,
    {
        let value = expand_tilde_export(env.value(i).as_str());
        let mut line = strings::cat5(lead, "export ", env.key(i), "=\"", value.as_str());
        line.append("\"\n");
        out.append(line.as_str());
        proof {
            text::lemma_concat_take(pieces, i as int);
        }
        i += 1;
    }
    assert(pieces.take(i as int) =~= pieces);
    out
}

/// Each line with `lead` before it and a line end after it.
pub open spec fn block(lead: Seq<char>, lines: Seq<Seq<char>>) -> Seq<Seq<char>> {
    Seq::new(lines.len(), |i: int| lead + lines[i] + "\n"@)
}

fn line_block(lead: &str, lines: &Vec<&str>) -> (r: String)
    ensures
        r@ == text::concat(block(lead@, text::strs(lines@))),
{
    let ghost pieces = block(lead@, text::strs(lines@));
    let mut out = String::new();
    let mut i: usize = 0;
    while i < lines.len()
        invariant
            i <= lines.len(),
            pieces == block(lead@, text::strs(lines@)),
            out@ == text::concat(pieces.take(i as int)),
        decreases lines.len() - i,
    {
        let line = strings::cat3(lead, lines[i], "\n");
        out.append(line.as_str());
        proof {
            text::lemma_concat_take(pieces, i as int);
        }
        i += 1;
    }
    assert(pieces.take(i as int) =~= pieces);
    out
}

pub open spec fn fpath_text(layout: LayoutView) -> Seq<char> {
    "fpath=("@ + layout.completions_dir + " $fpath)\n\n"@
}

fn render_fpath(out: &mut String, layout: &Layout)
    ensures
        final(out)@ == old(out)@ + fpath_text(layout@),
{
    let line = strings::cat3("fpath=(", layout.completions_dir.as_str(), " $fpath)\n\n");
    out.append(line.as_str());
}

/// The environment of an entry that is set up at startup.
pub open spec fn env_piece(e: ResolvedEntry<'static>) -> Seq<char> {
    match e.shared() {
        Some(c) if !c.lazy => text::concat(export_lines(seq![], c.env)),
        _ => seq![],
    }
}

pub open spec fn env_text(entries: Seq<ResolvedEntry<'static>>) -> Seq<char> {
    text::concat(Seq::new(entries.len(), |i: int| env_piece(entries[i]))) + "\n"@
}

fn render_env<'a>(out: &mut String, entries: &Vec<ResolvedEntry<'a>>)
    ensures
        final(out)@ == old(out)@ + env_text(entries@),
{
    let ghost pieces = Seq::new(entries@.len(), |i: int| env_piece(entries@[i]));
    let mut part = String::new();
    let mut i: usize = 0;
    while i < entries.len()
        invariant
            i <= entries.len(),
            pieces == Seq::new(entries@.len(), |i: int| env_piece(entries@[i])),
            part@ == text::concat(pieces.take(i as int)),
        decreases entries.len() - i,
    {
        let ghost before = part@;
        if let Some(c) = entries[i].common() {
            if !c.lazy {
                proof {
                    reveal_strlit("");
                    assert(""@ =~= seq![]);
                }
                part.append(exports("", &c.env).as_str());
            }
        }
        proof {
            text::lemma_concat_take(pieces, i as int);
            assert(before + Seq::<char>::empty() =~= before);
        }
        i += 1;
    }
    assert(pieces.take(i as int) =~= pieces);
    part.append("\n");
    out.append(part.as_str());
}

/// The statements of a `run` field, if there is one.
pub open spec fn run_text(lead: Seq<char>, run: Option<RunSpec>) -> Seq<char> {
    match run {
        Some(run) => text::concat(block(lead, run.statements())),
        None => seq![],
    }
}

fn run_block(lead: &str, run: &Option<RunSpec>) -> (r: String)
    ensures
        r@ == run_text(lead@, *run),
{
    match run {
        Some(run) => line_block(lead, &run.lines()),
        None => String::new(),
    }
}

/// The statements of an entry that is set up at startup.
pub open spec fn run_piece(e: ResolvedEntry<'static>) -> Seq<char> {
    match e.shared() {
        Some(c) if !c.lazy => run_text(seq![], c.run),
        _ => seq![],
    }
}

pub open spec fn runs_text(entries: Seq<ResolvedEntry<'static>>) -> Seq<char> {
    text::concat(Seq::new(entries.len(), |i: int| run_piece(entries[i]))) + "\n"@
}

fn render_run<'a>(out: &mut String, entries: &Vec<ResolvedEntry<'a>>)
    ensures
        final(out)@ == old(out)@ + runs_text(entries@),
{
    let ghost pieces = Seq::new(entries@.len(), |i: int| run_piece(entries@[i]));
    let mut part = String::new();
    let mut i: usize = 0;
    while i < entries.len()
        invariant
            i <= entries.len(),
            pieces == Seq::new(entries@.len(), |i: int| run_piece(entries@[i])),
            part@ == text::concat(pieces.take(i as int)),
        decreases entries.len() - i,
    {
        let ghost before = part@;
        if let Some(c) = entries[i].common() {
            if !c.lazy {
                proof {
                    reveal_strlit("");
                    assert(""@ =~= seq![]);
                }
                part.append(run_block("", &c.run).as_str());
            }
        }
        proof {
            text::lemma_concat_take(pieces, i as int);
            assert(before + Seq::<char>::empty() =~= before);
        }
        i += 1;
    }
    assert(pieces.take(i as int) =~= pieces);
    part.append("\n");
    out.append(part.as_str());
}

/// The lines that map an entry's commands to its key.
pub open spec fn command_lines(e: ResolvedEntry<'static>) -> Seq<Seq<char>> {
    Seq::new(e.commands().len(), |i: int| "  "@ + e.commands()[i] + " "@ + e.key_text() + "\n"@)
}

pub open spec fn commands_text(entries: Seq<ResolvedEntry<'static>>) -> Seq<char> {
    text::concat(Seq::new(entries.len(), |i: int| text::concat(command_lines(entries[i]))))
}

/// The handler that installs a missing command.
pub open spec fn handler_text(init_zsh: Seq<char>) -> Seq<char> {
    "command_not_found_handler() {\n  local tool=\"${RIG_CMD[$1]}\"\n  [[ -z \"$tool\" ]] && tool=$(rig which \"$1\" 2>/dev/null)\n  [[ -z \"$tool\" ]] && { print -ru2 \"zsh: command not found: $1\"; return 127 }\n  rig install \"$tool\" || return 127\n  source "@
        + init_zsh + "\n  rehash\n  command \"$@\"\n}\n\n"@
}

pub open spec fn rig_cmd_text(entries: Seq<ResolvedEntry<'static>>) -> Seq<char> {
    "typeset -gA RIG_CMD\nRIG_CMD=(\n"@ + commands_text(entries) + ")\n\n"@
}

fn entry_commands<'a>(entry: &ResolvedEntry<'a>) -> (r: String)
    ensures
        r@ == text::concat(command_lines(*entry)),
{
    let key = entry.key();
    let names = entry.command_names();
    let ghost pieces = command_lines(*entry);
    let mut out = String::new();
    let mut i: usize = 0;
    while i < names.len()
        invariant
            i <= names.len(),
            pieces == command_lines(*entry),
            text::texts(names@) == entry.commands(),
            key@ == entry.key_text(),
            out@ == text::concat(pieces.take(i as int)),
        decreases names.len() - i,
    {
        proof {
            assert(text::texts(names@)[i as int] == names@[i as int]@);
        }
        let line = strings::cat5("  ", names[i].as_str(), " ", key.as_str(), "\n");
        out.append(line.as_str());
        proof {
            text::lemma_concat_take(pieces, i as int);
        }
        i += 1;
    }
    assert(pieces.take(i as int) =~= pieces);
    out
}

fn render_rig_cmd_and_handler<'a>(
    out: &mut String,
    entries: &Vec<ResolvedEntry<'a>>,
    layout: &Layout,
)
    ensures
        final(out)@ == old(out)@ + rig_cmd_text(entries@) + handler_text(layout.init_zsh_path@),
{
    let ghost pieces = Seq::new(entries@.len(), |i: int| text::concat(command_lines(entries@[i])));
    let mut part = String::new();
    let mut i: usize = 0;
    while i < entries.len()
        invariant
            i <= entries.len(),
            pieces == Seq::new(
                entries@.len(),
                |i: int| text::concat(command_lines(entries@[i])),
            ),
            part@ == text::concat(pieces.take(i as int)),
        decreases entries.len() - i,
    {
        part.append(entry_commands(&entries[i]).as_str());
        proof {
            text::lemma_concat_take(pieces, i as int);
        }
        i += 1;
    }
    assert(pieces.take(i as int) =~= pieces);
    let table = strings::cat3("typeset -gA RIG_CMD\nRIG_CMD=(\n", part.as_str(), ")\n\n");
    out.append(table.as_str());
    let handler = strings::cat3(
        "command_not_found_handler() {\n  local tool=\"${RIG_CMD[$1]}\"\n  [[ -z \"$tool\" ]] && tool=$(rig which \"$1\" 2>/dev/null)\n  [[ -z \"$tool\" ]] && { print -ru2 \"zsh: command not found: $1\"; return 127 }\n  rig install \"$tool\" || return 127\n  source ",
        layout.init_zsh_path.as_str(),
        "\n  rehash\n  command \"$@\"\n}\n\n",
    );
    out.append(handler.as_str());
}

/// What an `eval` becomes: the captured output where there is one that may
/// be kept, a live call otherwise.
pub open spec fn eval_text(cmd: Seq<char>, tool: ToolLockView) -> Seq<char> {
    match tool.eval_cached_output {
        Some(cached) if tool.eval_cacheable == Some(true) => "# cached: "@ + cmd
            + " (evidence: none — probed clean)\n"@ + cached + "\n"@,
        _ => "eval \"$("@ + cmd + ")\"\n"@,
    }
}

fn render_eval_text(eval: &EvalSpec, tool_lock: &ToolLock) -> (r: String)
    ensures
        r@ == eval_text(eval.cmd_text(), tool_lock@),
{
    let cmd = eval.command();
    if let Some(true) = tool_lock.eval_cacheable {
        if let Some(cached) = &tool_lock.eval_cached_output {
            return strings::cat5(
                "# cached: ",
                cmd,
                " (evidence: none — probed clean)\n",
                cached.as_str(),
                "\n",
            );
        }
    }
    strings::cat3("eval \"$(", cmd, ")\"\n")
}

/// The `eval` of an entry that is set up at startup; nothing before it is
/// installed.
pub open spec fn eval_piece(
    e: ResolvedEntry<'static>,
    lock: Map<Seq<char>, ToolLockView>,
) -> Seq<char> {
    match e.shared() {
        Some(c) if !c.lazy && c.eval is Some && lock.contains_key(e.key_text()) => eval_text(
            c.eval->0.cmd_text(),
            lock[e.key_text()],
        ) + "\n"@,
        _ => seq![],
    }
}

pub open spec fn evals_text(
    entries: Seq<ResolvedEntry<'static>>,
    lock: Map<Seq<char>, ToolLockView>,
) -> Seq<char> {
    text::concat(Seq::new(entries.len(), |i: int| eval_piece(entries[i], lock)))
}

fn entry_eval<'a>(entry: &ResolvedEntry<'a>, lock: &Lock) -> (r: String)
    ensures
        r@ == eval_piece(*entry, lock@),
{
    if let Some(c) = entry.common() {
        if !c.lazy {
            if let Some(eval) = &c.eval {
                if let Some(tool_lock) = lock.tool.get(entry.key().as_str()) {
                    let body = render_eval_text(eval, tool_lock);
                    return strings::cat2(body.as_str(), "\n");
                }
            }
        }
    }
    String::new()
}

fn render_eval_blocks<'a>(out: &mut String, entries: &Vec<ResolvedEntry<'a>>, lock: &Lock)
    ensures
        final(out)@ == old(out)@ + evals_text(entries@, lock@),
{
    let ghost pieces = Seq::new(entries@.len(), |i: int| eval_piece(entries@[i], lock@));
    let mut part = String::new();
    let mut i: usize = 0;
    while i < entries.len()
        invariant
            i <= entries.len(),
            pieces == Seq::new(entries@.len(), |i: int| eval_piece(entries@[i], lock@)),
            part@ == text::concat(pieces.take(i as int)),
        decreases entries.len() - i,
    {
        part.append(entry_eval(&entries[i], lock).as_str());
        proof {
            text::lemma_concat_take(pieces, i as int);
        }
        i += 1;
    }
    assert(pieces.take(i as int) =~= pieces);
    out.append(part.as_str());
}

/// A key with every character that no zsh identifier can hold replaced.
pub open spec fn ident(key: Seq<char>) -> Seq<char> {
    Seq::new(key.len(), |i: int| if text::ascii_alphanumeric(key[i]) { key[i] } else { '_' })
}

pub fn zsh_ident(key: &str) -> (r: String)
    ensures
        r@ == ident(key@),
{
    let chars = strings::chars_of(key);
    let mut out = String::new();
    let mut i: usize = 0;
    assert(ident(key@).take(0) =~= seq![]);
    while i < chars.len()
        invariant
            i <= chars.len(),
            chars@ == key@,
            out@ == ident(key@).take(i as int),
        decreases chars.len() - i,
    {
        let c = chars[i];
        out.push(if text::is_ascii_alphanumeric(c) { c } else { '_' });
        i += 1;
        assert(ident(key@).take(i as int) =~= ident(key@).take(i - 1).push(ident(key@)[i - 1]));
    }
    assert(ident(key@).take(i as int) =~= ident(key@));
    out
}

/// What stands before and after the first colon.
pub open spec fn colon_split(s: Seq<char>) -> Option<(Seq<char>, Seq<char>)> {
    let i = text::first_at(s, Class::Only(':')) as int;
    if i < s.len() {
        Some((s.take(i), s.skip(i + 1)))
    } else {
        None
    }
}

fn split_colon<'a>(s: &'a str) -> (r: Option<(&'a str, &'a str)>)
    ensures
        match r {
            Some((a, b)) => colon_split(s@) == Some((a@, b@)),
            None => colon_split(s@) is None,
        },
{
    let chars = strings::chars_of(s);
    let mut i: usize = 0;
    while i < chars.len() && chars[i] != ':'
        invariant
            i <= chars.len(),
            chars@ == s@,
            forall|j: int| 0 <= j < i ==> s@[j] != ':',
        decreases chars.len() - i,
    {
        i += 1;
    }
    proof {
        text::lemma_first_at_unique(s@, Class::Only(':'), i as int);
    }
    if i < chars.len() {
        let a = s.substring_char(0, i);
        let b = s.substring_char(i + 1, chars.len());
        assert(a@ =~= s@.take(i as int));
        assert(b@ =~= s@.skip(i + 1));
        Some((a, b))
    } else {
        None
    }
}

/// The key sequence and the widget that a `bind` field names.
pub open spec fn bound(bind: Option<String>) -> Option<(Seq<char>, Seq<char>)> {
    match bind {
        Some(spec) => colon_split(spec@),
        None => None,
    }
}

fn split_bind<'a>(bind: &'a Option<String>) -> (r: Option<(&'a str, &'a str)>)
    ensures
        match r {
            Some((a, b)) => bound(*bind) == Some((a@, b@)),
            None => bound(*bind) is None,
        },
{
    match bind {
        Some(spec) => split_colon(spec.as_str()),
        None => None,
    }
}

/// Whether the setup of an entry is deferred, and to something that can
/// trigger it.
pub open spec fn deferred(
    e: ResolvedEntry<'static>,
    c: Common,
    lock: Map<Seq<char>, ToolLockView>,
) -> bool {
    &&& c.lazy
    &&& !(c.env.keys().len() == 0 && c.eval is None && c.run is None)
    &&& lock.contains_key(e.key_text())
    &&& !(e.commands().len() == 0 && bound(c.bind) is None)
}

pub open spec fn unfunction_text(names: Seq<Seq<char>>) -> Seq<char> {
    if names.len() == 0 {
        seq![]
    } else {
        "  unfunction "@ + text::join(names, " "@) + " 2>/dev/null\n"@
    }
}

/// The `eval` of a deferred entry, indented.
pub open spec fn lazy_eval_text(eval: Option<EvalSpec>, tool: ToolLockView) -> Seq<char> {
    match eval {
        Some(eval) => text::concat(block("  "@, text::lines(eval_text(eval.cmd_text(), tool)))),
        None => seq![],
    }
}

/// The body of the function that runs the deferred setup.
pub open spec fn lazy_body(names: Seq<Seq<char>>, c: Common, tool: ToolLockView) -> Seq<char> {
    unfunction_text(names) + text::concat(export_lines("  "@, c.env)) + lazy_eval_text(c.eval, tool)
        + run_text("  "@, c.run)
}

fn lazy_setup(names: &Vec<String>, c: &Common, tool_lock: &ToolLock) -> (r: String)
    ensures
        r@ == lazy_body(text::texts(names@), *c, tool_lock@),
{
    let mut body = String::new();
    if names.len() > 0 {
        body = strings::cat3("  unfunction ", strings::join(names, " ").as_str(), " 2>/dev/null\n");
    }
    assert(body@ == unfunction_text(text::texts(names@)));
    body.append(exports("  ", &c.env).as_str());
    let mut evaluated = String::new();
    if let Some(eval) = &c.eval {
        let live = render_eval_text(eval, tool_lock);
        evaluated = line_block("  ", &strings::lines(live.as_str()));
    }
    body.append(evaluated.as_str());
    body.append(run_block("  ", &c.run).as_str());
    body
}

/// The line that points a key at its real widget.
pub open spec fn rebind_text(bound: Option<(Seq<char>, Seq<char>)>) -> Seq<char> {
    match bound {
        Some((keys, widget)) => "  bindkey '"@ + keys + "' "@ + widget + "\n"@,
        None => seq![],
    }
}

/// The stub that stands for a command until its first use.
pub open spec fn stub_text(name: Seq<char>, init: Seq<char>, rebind: Seq<char>) -> Seq<char> {
    name + "() {\n  "@ + init + "\n"@ + rebind + "  "@ + name + " \"$@\"\n}\n\n"@
}

pub open spec fn stubs(names: Seq<Seq<char>>, init: Seq<char>, rebind: Seq<char>) -> Seq<
    Seq<char>,
> {
    Seq::new(names.len(), |i: int| stub_text(names[i], init, rebind))
}

fn render_stubs(names: &Vec<String>, init: &str, rebind: &str) -> (r: String)
    ensures
        r@ == text::concat(stubs(text::texts(names@), init@, rebind@)),
{
    let ghost pieces = stubs(text::texts(names@), init@, rebind@);
    let mut out = String::new();
    let mut i: usize = 0;
    while i < names.len()
        invariant
            i <= names.len(),
            pieces == stubs(text::texts(names@), init@, rebind@),
            out@ == text::concat(pieces.take(i as int)),
        decreases names.len() - i,
    {
        let name = names[i].as_str();
        let mut stub = strings::cat5(name, "() {\n  ", init, "\n", rebind);
        stub.append("  ");
        stub.append(name);
        stub.append(" \"$@\"\n}\n\n");
        out.append(stub.as_str());
        proof {
            text::lemma_concat_take(pieces, i as int);
        }
        i += 1;
    }
    assert(pieces.take(i as int) =~= pieces);
    out
}

/// The placeholder widget of a deferred entry with a key.
pub open spec fn widget_text(
    ident: Seq<char>,
    init: Seq<char>,
    bound: Option<(Seq<char>, Seq<char>)>,
) -> Seq<char> {
    match bound {
        Some((keys, widget)) => {
            let name = "_rig_lazy_bind_"@ + ident;
            name + "() {\n  "@ + init + "\n  bindkey '"@ + keys + "' "@ + widget + "\n  zle "@
                + widget + "\n}\nzle -N "@ + name + "\nbindkey '"@ + keys + "' "@ + name + "\n\n"@
        },
        None => seq![],
    }
}

fn render_widget(ident: &str, init: &str, bound: Option<(&str, &str)>) -> (r: String)
    ensures
        r@ == widget_text(
            ident@,
            init@,
            match bound {
                Some((a, b)) => Some((a@, b@)),
                None => None,
            },
        ),
{
    match bound {
        Some((keys, widget)) => {
            let name = strings::cat2("_rig_lazy_bind_", ident);
            let mut out = strings::cat5(name.as_str(), "() {\n  ", init, "\n  bindkey '", keys);
            out.append("' ");
            out.append(widget);
            out.append("\n  zle ");
            out.append(widget);
            out.append("\n}\nzle -N ");
            out.append(name.as_str());
            out.append("\nbindkey '");
            out.append(keys);
            out.append("' ");
            out.append(name.as_str());
            out.append("\n\n");
            out
        },
        None => String::new(),
    }
}

/// The deferred setup of an entry: a function that runs it once, a stub for
/// each command, and a placeholder widget.
pub open spec fn lazy_piece(
    e: ResolvedEntry<'static>,
    lock: Map<Seq<char>, ToolLockView>,
) -> Seq<char> {
    match e.shared() {
        Some(c) if deferred(e, c, lock) => {
            let names = e.commands();
            let id = ident(e.key_text());
            let init = "_rig_lazy_init_"@ + id;
            init + "() {\n"@ + lazy_body(names, c, lock[e.key_text()]) + "}\n\n"@ + text::concat(
                stubs(names, init, rebind_text(bound(c.bind))),
            ) + widget_text(id, init, bound(c.bind))
        },
        _ => seq![],
    }
}

fn entry_lazy<'a>(entry: &ResolvedEntry<'a>, lock: &Lock) -> (r: String)
    ensures
        r@ == lazy_piece(*entry, lock@),
{
    let c = match entry.common() {
        Some(c) => c,
        None => {
            return String::new();
        },
    };
    if !c.lazy || (c.env.is_empty() && c.eval.is_none() && c.run.is_none()) {
        return String::new();
    }
    let key = entry.key();
    let tool_lock = match lock.tool.get(key.as_str()) {
        Some(tool_lock) => tool_lock,
        None => {
            return String::new();
        },
    };
    let names = entry.command_names();
    let bind = split_bind(&c.bind);
    assert(text::texts(names@).len() == names@.len());
    if names.len() == 0 && bind.is_none() {
        return String::new();
    }
    let id = zsh_ident(key.as_str());
    let init = strings::cat2("_rig_lazy_init_", id.as_str());
    let body = lazy_setup(&names, c, tool_lock);
    // Every trigger rebinds the key, whichever fires first.
    let rebind = match bind {
        Some((keys, widget)) => strings::cat5("  bindkey '", keys, "' ", widget, "\n"),
        None => String::new(),
    };
    let mut out = strings::cat4(init.as_str(), "() {\n", body.as_str(), "}\n\n");
    out.append(render_stubs(&names, init.as_str(), rebind.as_str()).as_str());
    out.append(render_widget(id.as_str(), init.as_str(), bind).as_str());
    out
}

pub open spec fn lazies_text(
    entries: Seq<ResolvedEntry<'static>>,
    lock: Map<Seq<char>, ToolLockView>,
) -> Seq<char> {
    text::concat(Seq::new(entries.len(), |i: int| lazy_piece(entries[i], lock)))
}

fn render_lazy_blocks<'a>(out: &mut String, entries: &Vec<ResolvedEntry<'a>>, lock: &Lock)
    ensures
        final(out)@ == old(out)@ + lazies_text(entries@, lock@),
{
    let ghost pieces = Seq::new(entries@.len(), |i: int| lazy_piece(entries@[i], lock@));
    let mut part = String::new();
    let mut i: usize = 0;
    while i < entries.len()
        invariant
            i <= entries.len(),
            pieces == Seq::new(entries@.len(), |i: int| lazy_piece(entries@[i], lock@)),
            part@ == text::concat(pieces.take(i as int)),
        decreases entries.len() - i,
    {
        part.append(entry_lazy(&entries[i], lock).as_str());
        proof {
            text::lemma_concat_take(pieces, i as int);
        }
        i += 1;
    }
    assert(pieces.take(i as int) =~= pieces);
    out.append(part.as_str());
}

/// The line that marks where a plugin is loaded.
pub open spec fn plugin_marker(key: Seq<char>) -> Seq<char> {
    "# rig-plugin: "@ + key + "\n"@
}

pub open spec fn source_text(clone_dir: Seq<char>, source: Option<String>) -> Seq<char> {
    match source {
        Some(file) => "source "@ + path::join(clone_dir, file@) + "\n"@,
        None => seq![],
    }
}

/// What follows a plugin's marker: the plugin is sourced before its `run` is
/// executed, which may call what the plugin defines.
pub open spec fn plugin_load(p: PluginEntry, plugins_dir: Seq<char>) -> Seq<char> {
    source_text(path::join(plugins_dir, config::short_name(p.name@)), p.source) + run_text(
        seq![],
        p.run,
    ) + "\n"@
}

pub open spec fn plugin_piece(p: PluginEntry, plugins_dir: Seq<char>) -> Seq<char> {
    plugin_marker(config::short_name(p.name@)) + plugin_load(p, plugins_dir)
}

fn entry_plugin(plugin: &PluginEntry, layout: &Layout) -> (r: String)
    ensures
        r@ == plugin_piece(*plugin, layout.plugins_dir@),
{
    let key = config::tool_key(plugin.name.as_str());
    let mut out = strings::cat3("# rig-plugin: ", key, "\n");
    let clone_dir = path::join_path(layout.plugins_dir.as_str(), key);
    let mut load = String::new();
    if let Some(source) = &plugin.source {
        let file = path::join_path(clone_dir.as_str(), source.as_str());
        load = strings::cat3("source ", file.as_str(), "\n");
    }
    assert(load@ == source_text(clone_dir@, plugin.source));
    proof {
        reveal_strlit("");
        assert(""@ =~= seq![]);
    }
    load.append(run_block("", &plugin.run).as_str());
    load.append("\n");
    out.append(load.as_str());
    out
}

pub open spec fn plugins_text(plugins: Seq<PluginEntry>, plugins_dir: Seq<char>) -> Seq<char> {
    text::concat(Seq::new(plugins.len(), |i: int| plugin_piece(plugins[i], plugins_dir)))
}

fn render_plugins(out: &mut String, config: &Config, layout: &Layout)
    ensures
        final(out)@ == old(out)@ + plugins_text(config.plugin@, layout.plugins_dir@),
{
    let ghost pieces = Seq::new(
        config.plugin@.len(),
        |i: int| plugin_piece(config.plugin@[i], layout.plugins_dir@),
    );
    let mut part = String::new();
    let mut i: usize = 0;
    while i < config.plugin.len()
        invariant
            i <= config.plugin.len(),
            pieces == Seq::new(
                config.plugin@.len(),
                |i: int| plugin_piece(config.plugin@[i], layout.plugins_dir@),
            ),
            part@ == text::concat(pieces.take(i as int)),
        decreases config.plugin.len() - i,
    {
        part.append(entry_plugin(&config.plugin[i], layout).as_str());
        proof {
            text::lemma_concat_take(pieces, i as int);
        }
        i += 1;
    }
    assert(pieces.take(i as int) =~= pieces);
    out.append(part.as_str());
}

/// The whole startup file.
pub open spec fn rendered(
    config: Config,
    lock: Map<Seq<char>, ToolLockView>,
    layout: LayoutView,
) -> Seq<char> {
    let entries = config::entries(config);
    fpath_text(layout) + env_text(entries) + runs_text(entries) + rig_cmd_text(entries)
        + handler_text(layout.init_zsh_path) + evals_text(entries, lock) + lazies_text(
        entries,
        lock,
    ) + plugins_text(config.plugin@, layout.plugins_dir)
}

/// Renders the startup file.
pub fn render(config: &Config, lock: &Lock, layout: &Layout) -> (r: String)
    ensures
        r@ == rendered(*config, lock@, layout@),
{
    let entries = config::all_entries(config);
    let mut out = String::new();
    assert(out@ + fpath_text(layout@) =~= fpath_text(layout@));
    render_fpath(&mut out, layout);
    render_env(&mut out, &entries);
    render_run(&mut out, &entries);
    render_rig_cmd_and_handler(&mut out, &entries, layout);
    render_eval_blocks(&mut out, &entries, lock);
    render_lazy_blocks(&mut out, &entries, lock);
    render_plugins(&mut out, config, layout);
    out
}

/// The tool keys that the lines of a startup file declare: the second word of
/// each line of the command table, and what the plugin markers name.
pub open spec fn keys_in(lines: Seq<Seq<char>>, inside: bool) -> Set<Seq<char>>
    decreases lines.len(),
{
    if lines.len() == 0 {
        Set::empty()
    } else {
        let line = lines[0];
        let rest = lines.skip(1);
        let marker = "# rig-plugin: "@;
        if marker.is_prefix_of(line) {
            keys_in(rest, inside).insert(line.skip(marker.len() as int))
        } else if inside {
            if text::trim(line) == ")"@ {
                keys_in(rest, false)
            } else if text::words(line).len() >= 2 {
                keys_in(rest, true).insert(text::words(line)[1])
            } else {
                keys_in(rest, true)
            }
        } else {
            keys_in(rest, text::trim(line) == "RIG_CMD=("@)
        }
    }
}

/// Reads the declared tool keys back from a startup file.
pub fn declared_tool_keys(init_zsh: &str) -> (r: NameSet)
    ensures
        r@ == keys_in(text::lines(init_zsh@), false),
{
    let lines = strings::lines(init_zsh);
    let ghost all = text::strs(lines@);
    let mut keys = NameSet::new();
    let mut inside = false;
    let mut i: usize = 0;
    assert(all.skip(0) =~= all);
    assert(keys@.union(keys_in(all, false)) =~= keys_in(all, false));
    while i < lines.len()
        invariant
            i <= lines.len(),
            all == text::strs(lines@),
            keys@.union(keys_in(all.skip(i as int), inside)) == keys_in(all, false),
        decreases lines.len() - i,
    {
        let line = lines[i];
        let ghost before = keys@;
        let ghost left = keys_in(all.skip(i as int), inside);
        let ghost mut added: Seq<char> = seq![];
        proof {
            assert(all.skip(i as int)[0] == line@);
            assert(all.skip(i as int).skip(1) =~= all.skip(i + 1));
        }
        if let Some(plugin) = strings::strip_prefix(line, "# rig-plugin: ") {
            keys.insert(plugin.to_owned());
            proof {
                added = plugin@;
            }
        } else if inside {
            if strings::same(strings::trim(line), ")") {
                inside = false;
            } else {
                let words = strings::words(line);
                assert(text::strs(words@).len() == words@.len());
                if words.len() >= 2 {
                    keys.insert(words[1].to_owned());
                    proof {
                        added = words@[1]@;
                    }
                }
            }
        } else if strings::same(strings::trim(line), "RIG_CMD=(") {
            inside = true;
        }
        i += 1;
        proof {
            let rest = keys_in(all.skip(i as int), inside);
            if keys@ == before.insert(added) && left == rest.insert(added) {
                assert(keys@.union(rest) =~= before.union(left));
            }
        }
    }
    assert(keys@.union(keys_in(all.skip(i as int), inside)) =~= keys@);
    keys
}

/// A text that can stand in the command table: a word.
pub open spec fn is_word(s: Seq<char>) -> bool {
    s.len() > 0 && forall|i: int| 0 <= i < s.len() ==> !text::whitespace(#[trigger] s[i])
}

/// Whether a line declares nothing outside the command table.
pub open spec fn quiet_line(line: Seq<char>) -> bool {
    !"# rig-plugin: "@.is_prefix_of(line) && text::trim(line) != "RIG_CMD=("@
}

/// Whether no line of a text declares anything.
pub open spec fn quiet(s: Seq<char>) -> bool {
    forall|i: int| 0 <= i < text::lines(s).len() ==> quiet_line(#[trigger] text::lines(s)[i])
}

/// Whether one of the entries has commands and a given key.
pub open spec fn commanded(entries: Seq<ResolvedEntry<'static>>, key: Seq<char>) -> bool {
    exists|i: int|
        {
            &&& 0 <= i < entries.len()
            &&& (#[trigger] entries[i]).commands().len() > 0
            &&& entries[i].key_text() == key
        }
}

/// Whether a configuration declares a tool key.
pub open spec fn declares(config: Config, key: Seq<char>) -> bool {
    ||| commanded(config::entries(config), key)
    ||| exists|i: int|
        {
            &&& 0 <= i < config.plugin@.len()
            &&& config::short_name((#[trigger] config.plugin@[i]).name@) == key
        }
}

/// The part of the startup file before the command table.
pub open spec fn head_text(config: Config, layout: LayoutView) -> Seq<char> {
    let entries = config::entries(config);
    fpath_text(layout) + env_text(entries) + runs_text(entries)
}

/// The part of the startup file between the command table and the plugins.
pub open spec fn middle_text(
    config: Config,
    lock: Map<Seq<char>, ToolLockView>,
    layout: LayoutView,
) -> Seq<char> {
    let entries = config::entries(config);
    handler_text(layout.init_zsh_path) + evals_text(entries, lock) + lazies_text(entries, lock)
}

proof fn lemma_quiet_skipped(quiet_lines: Seq<Seq<char>>, rest: Seq<Seq<char>>)
    requires
        forall|i: int| 0 <= i < quiet_lines.len() ==> quiet_line(#[trigger] quiet_lines[i]),
    ensures
        keys_in(quiet_lines + rest, false) == keys_in(rest, false),
    decreases quiet_lines.len(),
{
    if quiet_lines.len() == 0 {
        assert(quiet_lines + rest =~= rest);
    } else {
        assert(quiet_line(quiet_lines[0]));
        assert((quiet_lines + rest).skip(1) =~= quiet_lines.skip(1) + rest);
        assert forall|i: int| 0 <= i < quiet_lines.skip(1).len() implies quiet_line(
            #[trigger] quiet_lines.skip(1)[i],
        ) by {
            assert(quiet_line(quiet_lines[i + 1]));
        }
        lemma_quiet_skipped(quiet_lines.skip(1), rest);
    }
}

/// A line of the command table declares its key.
proof fn lemma_command_line(cmd: Seq<char>, key: Seq<char>, rest: Seq<Seq<char>>)
    requires
        is_word(cmd),
        is_word(key),
    ensures
        ({
            let piece = "  "@ + cmd + " "@ + key + "\n"@;
            keys_in(text::lines(piece) + rest, true) == keys_in(rest, true).insert(key)
        }),
{
    reveal_strlit("  ");
    reveal_strlit(" ");
    reveal_strlit("\n");
    reveal_strlit(")");
    reveal_strlit("# rig-plugin: ");
    let line = "  "@ + cmd + " "@ + key;
    assert forall|i: int| 0 <= i < line.len() implies line[i] != '\n' by {
        if 2 <= i < 2 + cmd.len() {
            assert(!text::whitespace(cmd[i - 2]));
        } else if i >= 3 + cmd.len() {
            assert(!text::whitespace(key[i - 3 - cmd.len()]));
        }
    }
    assert(line.last() == key.last());
    assert(!text::whitespace(key[key.len() - 1]));
    assert(line + "\n"@ =~= line.push('\n'));
    text::lemma_one_line(line);
    text::lemma_two_words(cmd, key);
    let all = seq![line] + rest;
    assert(all.skip(1) =~= rest);
    assert(line[0] == ' ');
    if "# rig-plugin: "@.is_prefix_of(line) {
        assert("# rig-plugin: "@[0] == line[0]);
    }
    assert(!text::whitespace(cmd[0]));
    assert(!text::whitespace(key[0]));
    assert(line[2] == cmd[0]);
    assert(line[3 + cmd.len() as int] == key[0]);
    text::lemma_trim_span(line, Class::Space, 2, 3 + cmd.len() as int);
}

/// The first lines of an entry in the command table declare its key.
proof fn lemma_entry_commands(e: ResolvedEntry<'static>, n: int, rest: Seq<Seq<char>>)
    requires
        0 <= n <= e.commands().len(),
        is_word(e.key_text()),
        forall|i: int| 0 <= i < n ==> is_word(#[trigger] e.commands()[i]),
    ensures
        text::ends_line(text::concat(command_lines(e).take(n))),
        keys_in(text::lines(text::concat(command_lines(e).take(n))) + rest, true) == if n == 0 {
            keys_in(rest, true)
        } else {
            keys_in(rest, true).insert(e.key_text())
        },
    decreases n,
{
    let pieces = command_lines(e);
    if n == 0 {
        assert(text::concat(pieces.take(0)) =~= seq![]);
        assert(text::lines(seq![]) + rest =~= rest);
    } else {
        let front = text::concat(pieces.take(n - 1));
        let piece = pieces[n - 1];
        let after = text::lines(piece) + rest;
        lemma_entry_commands(e, n - 1, after);
        text::lemma_concat_take(pieces, n - 1);
        text::lemma_lines_append(front, piece);
        assert(text::lines(front) + after =~= text::lines(front + piece) + rest);
        lemma_command_line(e.commands()[n - 1], e.key_text(), rest);
        reveal_strlit("\n");
        assert(piece.last() == '\n');
        let base = keys_in(rest, true);
        assert(base.insert(e.key_text()).insert(e.key_text()) =~= base.insert(e.key_text()));
    }
}

/// Whether the commands and the key of an entry can stand in the table.
pub open spec fn well_named(e: ResolvedEntry<'static>) -> bool {
    e.commands().len() > 0 ==> is_word(e.key_text()) && forall|i: int|
        0 <= i < e.commands().len() ==> is_word(#[trigger] e.commands()[i])
}

/// The command table declares the keys of the entries that have commands.
proof fn lemma_commands(
    entries: Seq<ResolvedEntry<'static>>,
    n: int,
    rest: Seq<Seq<char>>,
    key: Seq<char>,
)
    requires
        0 <= n <= entries.len(),
        forall|i: int| 0 <= i < n ==> well_named(#[trigger] entries[i]),
    ensures
        ({
            let pieces = Seq::new(
                entries.len(),
                |i: int| text::concat(command_lines(entries[i])),
            );
            let part = text::concat(pieces.take(n));
            &&& text::ends_line(part)
            &&& keys_in(text::lines(part) + rest, true).contains(key) <==> keys_in(
                rest,
                true,
            ).contains(key) || exists|i: int|
                {
                    &&& 0 <= i < n
                    &&& (#[trigger] entries[i]).commands().len() > 0
                    &&& entries[i].key_text() == key
                }
        }),
    decreases n,
{
    let pieces = Seq::new(entries.len(), |i: int| text::concat(command_lines(entries[i])));
    if n == 0 {
        assert(text::concat(pieces.take(0)) =~= seq![]);
        assert(text::lines(seq![]) + rest =~= rest);
    } else {
        let e = entries[n - 1];
        let front = text::concat(pieces.take(n - 1));
        let piece = pieces[n - 1];
        let after = text::lines(piece) + rest;
        assert(well_named(e));
        lemma_commands(entries, n - 1, after, key);
        text::lemma_concat_take(pieces, n - 1);
        text::lemma_lines_append(front, piece);
        assert(text::lines(front) + after =~= text::lines(front + piece) + rest);
        let count = e.commands().len() as int;
        assert(command_lines(e).take(count) =~= command_lines(e));
        if count > 0 {
            lemma_entry_commands(e, count, rest);
            if piece.len() == 0 {
                assert(front + piece =~= front);
            }
        } else {
            assert(piece =~= seq![]);
            assert(front + piece =~= front);
            assert(text::lines(seq![]) + rest =~= rest);
        }
    }
}

/// Whether a key can stand in a plugin marker.
pub open spec fn fits_marker(key: Seq<char>) -> bool {
    (forall|i: int| 0 <= i < key.len() ==> key[i] != '\n') && (key.len() > 0 ==> key.last() != '\r')
}

/// A plugin declares its key.
proof fn lemma_plugin(p: PluginEntry, plugins_dir: Seq<char>, rest: Seq<Seq<char>>)
    requires
        fits_marker(config::short_name(p.name@)),
        quiet(plugin_load(p, plugins_dir)),
    ensures
        text::ends_line(plugin_piece(p, plugins_dir)),
        plugin_piece(p, plugins_dir).len() > 0,
        keys_in(text::lines(plugin_piece(p, plugins_dir)) + rest, false) == keys_in(
            rest,
            false,
        ).insert(config::short_name(p.name@)),
{
    reveal_strlit("\n");
    reveal_strlit("# rig-plugin: ");
    let key = config::short_name(p.name@);
    let marker = "# rig-plugin: "@;
    let line = marker + key;
    let load = plugin_load(p, plugins_dir);
    assert(load.last() == '\n');
    assert(plugin_marker(key) =~= line.push('\n'));
    assert forall|i: int| 0 <= i < line.len() implies line[i] != '\n' by {
        if i >= marker.len() {
            assert(line[i] == key[i - marker.len()]);
        }
    }
    if key.len() > 0 {
        assert(line.last() == key.last());
    } else {
        assert(line =~= marker);
    }
    text::lemma_one_line(line);
    text::lemma_lines_append(plugin_marker(key), load);
    let all = text::lines(plugin_piece(p, plugins_dir)) + rest;
    assert(all[0] == line);
    assert(all.skip(1) =~= text::lines(load) + rest);
    assert(line.take(marker.len() as int) =~= marker);
    assert(line.skip(marker.len() as int) =~= key);
    lemma_quiet_skipped(text::lines(load), rest);
}

#[verifier::spinoff_prover]
#[verifier::rlimit(40)]
proof fn lemma_plugins(plugins: Seq<PluginEntry>, plugins_dir: Seq<char>, n: int, rest: Seq<
    Seq<char>,
>, key: Seq<char>)
    requires
        0 <= n <= plugins.len(),
        forall|i: int|
            0 <= i < n ==> fits_marker(config::short_name((#[trigger] plugins[i]).name@)) && quiet(
                plugin_load(plugins[i], plugins_dir),
            ),
    ensures
        ({
            let pieces = Seq::new(plugins.len(), |i: int| plugin_piece(plugins[i], plugins_dir));
            let part = text::concat(pieces.take(n));
            &&& text::ends_line(part)
            &&& keys_in(text::lines(part) + rest, false).contains(key) <==> keys_in(
                rest,
                false,
            ).contains(key) || exists|i: int|
                0 <= i < n && config::short_name((#[trigger] plugins[i]).name@) == key
        }),
    decreases n,
{
    let pieces = Seq::new(plugins.len(), |i: int| plugin_piece(plugins[i], plugins_dir));
    if n == 0 {
        assert(text::concat(pieces.take(0)) =~= seq![]);
        assert(text::lines(seq![]) + rest =~= rest);
    } else {
        let p = plugins[n - 1];
        let front = text::concat(pieces.take(n - 1));
        let piece = pieces[n - 1];
        let after = text::lines(piece) + rest;
        lemma_plugins(plugins, plugins_dir, n - 1, after, key);
        text::lemma_concat_take(pieces, n - 1);
        text::lemma_lines_append(front, piece);
        assert(text::lines(front) + after =~= text::lines(front + piece) + rest);
        lemma_plugin(p, plugins_dir, rest);
    }
}

proof fn lemma_ends_in(a: Seq<char>, b: Seq<char>)
    requires
        text::ends_line(a),
        text::ends_line(b),
    ensures
        text::ends_line(a + b),
{
    if b.len() == 0 {
        assert(a + b =~= a);
    }
}

/// A deferred setup ends a line.
proof fn lemma_lazy_ends_line(e: ResolvedEntry<'static>, lock: Map<Seq<char>, ToolLockView>)
    ensures
        text::ends_line(lazy_piece(e, lock)),
{
    reveal_strlit("\n\n");
    reveal_strlit("}\n\n");
    reveal_strlit(" \"$@\"\n}\n\n");
    if let Some(c) = e.shared() {
        if deferred(e, c, lock) {
            let names = e.commands();
            let id = ident(e.key_text());
            let init = "_rig_lazy_init_"@ + id;
            let rebind = rebind_text(bound(c.bind));
            let front = init + "() {\n"@ + lazy_body(names, c, lock[e.key_text()]) + "}\n\n"@;
            let middle = stubs(names, init, rebind);
            let last = widget_text(id, init, bound(c.bind));
            assert(front.last() == '\n');
            assert forall|i: int| 0 <= i < middle.len() implies text::ends_line(
                #[trigger] middle[i],
            ) by {
                assert(middle[i].last() == '\n');
            }
            text::lemma_concat_ends_line(middle);
            if bound(c.bind) is Some {
                assert(last.last() == '\n');
            }
            lemma_ends_in(front, text::concat(middle));
            lemma_ends_in(front + text::concat(middle), last);
        }
    }
}

/// The part between the command table and the plugins ends a line.
proof fn lemma_middle_ends_line(
    config: Config,
    lock: Map<Seq<char>, ToolLockView>,
    layout: LayoutView,
)
    ensures
        text::ends_line(middle_text(config, lock, layout)),
{
    reveal_strlit("\n  rehash\n  command \"$@\"\n}\n\n");
    reveal_strlit("\n");
    let entries = config::entries(config);
    let handler = handler_text(layout.init_zsh_path);
    assert(handler.last() == '\n');
    let evals = Seq::new(entries.len(), |i: int| eval_piece(entries[i], lock));
    text::lemma_concat_ends_line(evals);
    let lazies = Seq::new(entries.len(), |i: int| lazy_piece(entries[i], lock));
    assert forall|i: int| 0 <= i < lazies.len() implies text::ends_line(#[trigger] lazies[i]) by {
        lemma_lazy_ends_line(entries[i], lock);
    }
    text::lemma_concat_ends_line(lazies);
    lemma_ends_in(handler, evals_text(entries, lock));
    lemma_ends_in(handler + evals_text(entries, lock), lazies_text(entries, lock));
}

/// The keys of a text made of a quiet head, a command table, a quiet middle
/// and more.
proof fn lemma_assembled(
    head: Seq<char>,
    entries: Seq<ResolvedEntry<'static>>,
    middle: Seq<char>,
    last: Seq<char>,
    key: Seq<char>,
)
    requires
        quiet(head),
        text::ends_line(head),
        quiet(middle),
        text::ends_line(middle),
        forall|i: int| 0 <= i < entries.len() ==> well_named(#[trigger] entries[i]),
    ensures
        keys_in(text::lines(head + (rig_cmd_text(entries) + (middle + last))), false).contains(key)
            <==> commanded(entries, key) || keys_in(text::lines(last), false).contains(key),
{
    let opening = "typeset -gA RIG_CMD\nRIG_CMD=(\n"@;
    let closing = ")\n\n"@;
    let table = commands_text(entries);
    let pieces = Seq::new(entries.len(), |i: int| text::concat(command_lines(entries[i])));
    assert(pieces.take(entries.len() as int) =~= pieces);
    let end = middle + last;
    text::lemma_lines_append(middle, last);
    lemma_quiet_skipped(text::lines(middle), text::lines(last));
    lemma_table_closes(text::lines(end));
    assert(text::ends_line(closing) && text::ends_line(opening)) by {
        reveal_strlit(")\n\n");
        reveal_strlit("typeset -gA RIG_CMD\nRIG_CMD=(\n");
    }
    text::lemma_lines_append(closing, end);
    lemma_commands(entries, entries.len() as int, text::lines(closing + end), key);
    text::lemma_lines_append(table, closing + end);
    lemma_table_opens(text::lines(table + (closing + end)));
    text::lemma_lines_append(opening, table + (closing + end));
    let rest = opening + (table + (closing + end));
    text::lemma_lines_append(head, rest);
    lemma_quiet_skipped(text::lines(head), text::lines(rest));
    assert(rig_cmd_text(entries) + end =~= rest);
}

/// What the startup file declares can be read back from it: the keys of the
/// entries that have commands, and the keys of the plugins. The other text of
/// the file may not look like a declaration, and names have to be words.
pub proof fn lemma_declared_keys_round_trip(
    config: Config,
    lock: Map<Seq<char>, ToolLockView>,
    layout: LayoutView,
    key: Seq<char>,
)
    requires
        quiet(head_text(config, layout)),
        quiet(middle_text(config, lock, layout)),
        forall|i: int|
            0 <= i < config::entries(config).len() ==> well_named(
                #[trigger] config::entries(config)[i],
            ),
        forall|i: int|
            0 <= i < config.plugin@.len() ==> fits_marker(
                config::short_name((#[trigger] config.plugin@[i]).name@),
            ) && quiet(plugin_load(config.plugin@[i], layout.plugins_dir)),
    ensures
        keys_in(text::lines(rendered(config, lock, layout)), false).contains(key) <==> declares(
            config,
            key,
        ),
{
    let entries = config::entries(config);
    let head = head_text(config, layout);
    let middle = middle_text(config, lock, layout);
    let plugins = plugins_text(config.plugin@, layout.plugins_dir);
    let pieces = Seq::new(
        config.plugin@.len(),
        |i: int| plugin_piece(config.plugin@[i], layout.plugins_dir),
    );
    assert(pieces.take(config.plugin@.len() as int) =~= pieces);
    let none = Seq::<Seq<char>>::empty();
    assert(text::lines(plugins) + none =~= text::lines(plugins));
    lemma_plugins(config.plugin@, layout.plugins_dir, config.plugin@.len() as int, none, key);
    lemma_middle_ends_line(config, lock, layout);
    assert(text::ends_line(head)) by {
        reveal_strlit("\n");
        assert(head.last() == '\n');
    }
    lemma_assembled(head, entries, middle, plugins, key);
    lemma_regroup(
        head,
        rig_cmd_text(entries),
        handler_text(layout.init_zsh_path),
        evals_text(entries, lock),
        lazies_text(entries, lock),
        plugins,
    );
}

/// The handler knows every command of every entry, installed or not: the
/// command table maps it to the key of its tool.
pub proof fn lemma_every_command_is_listed(
    config: Config,
    lock: Map<Seq<char>, ToolLockView>,
    layout: LayoutView,
    i: int,
    j: int,
)
    requires
        0 <= i < config::entries(config).len(),
        0 <= j < config::entries(config)[i].commands().len(),
    ensures
        text::contains(
            rig_cmd_text(config::entries(config)),
            "  "@ + config::entries(config)[i].commands()[j] + " "@ + config::entries(
                config,
            )[i].key_text() + "\n"@,
        ),
        text::contains(rendered(config, lock, layout), rig_cmd_text(config::entries(config))),
{
    let entries = config::entries(config);
    let line = command_lines(entries[i])[j];
    assert(text::occurs_at(line, line, 0)) by {
        assert(line.subrange(0, line.len() as int) =~= line);
    }
    text::lemma_concat_contains(command_lines(entries[i]), j, line);
    let pieces = Seq::new(entries.len(), |k: int| text::concat(command_lines(entries[k])));
    assert(pieces[i] == text::concat(command_lines(entries[i])));
    text::lemma_concat_contains(pieces, i, line);
    let opening = "typeset -gA RIG_CMD\nRIG_CMD=(\n"@;
    text::lemma_contains_within(opening, commands_text(entries), ")\n\n"@, line);
    let table = rig_cmd_text(entries);
    assert(text::occurs_at(table, table, 0)) by {
        assert(table.subrange(0, table.len() as int) =~= table);
    }
    let end = middle_text(config, lock, layout) + plugins_text(config.plugin@, layout.plugins_dir);
    text::lemma_contains_within(head_text(config, layout), table, end, table);
    lemma_regroup(
        head_text(config, layout),
        table,
        handler_text(layout.init_zsh_path),
        evals_text(entries, lock),
        lazies_text(entries, lock),
        plugins_text(config.plugin@, layout.plugins_dir),
    );
    assert(head_text(config, layout) + table + end =~= head_text(config, layout) + (table + end));
}

/// What an `eval` command said that is put in its place: that of a probe which
/// found it stable, or of a run that was told to be kept.
pub open spec fn inlined(plan: EvalPlan, reply: EvalReply) -> Option<Seq<char>> {
    match (plan, reply) {
        (EvalPlan::Probe, EvalReply::Probed(Some(probe))) => if probe.cacheable {
            Some(probe.baseline_output@)
        } else {
            None
        },
        (EvalPlan::Capture, EvalReply::Captured(Some(output))) => Some(output@),
        _ => None,
    }
}

/// An `eval` command that was found to depend on where it runs, that is not to
/// be kept, or whose probe or run failed, stays a live call; any other is
/// replaced by what it said.
pub proof fn lemma_unstable_eval_stays_live(
    cmd: Seq<char>,
    plan: EvalPlan,
    reply: EvalReply,
    tool: ToolLockView,
)
    requires
        tool.eval_cacheable == sources::eval_state(plan, reply).cacheable,
        tool.eval_cached_output == sources::eval_state(plan, reply).output,
    ensures
        eval_text(cmd, tool) == match inlined(plan, reply) {
            Some(said) => "# cached: "@ + cmd + " (evidence: none — probed clean)\n"@ + said
                + "\n"@,
            None => "eval \"$("@ + cmd + ")\"\n"@,
        },
{
}

proof fn lemma_regroup(
    a: Seq<char>,
    b: Seq<char>,
    c: Seq<char>,
    d: Seq<char>,
    e: Seq<char>,
    f: Seq<char>,
)
    ensures
        a + b + c + d + e + f == a + (b + ((c + d + e) + f)),
{
    assert(a + b + c + d + e + f =~= a + (b + ((c + d + e) + f)));
}

/// The lines that open the command table lead into it.
proof fn lemma_table_opens(rest: Seq<Seq<char>>)
    ensures
        keys_in(text::lines("typeset -gA RIG_CMD\nRIG_CMD=(\n"@) + rest, false) == keys_in(
            rest,
            true,
        ),
{
    reveal_strlit("typeset -gA RIG_CMD\nRIG_CMD=(\n");
    reveal_strlit("typeset -gA RIG_CMD");
    reveal_strlit("RIG_CMD=(");
    reveal_strlit("# rig-plugin: ");
    let first = "typeset -gA RIG_CMD"@;
    let second = "RIG_CMD=("@;
    assert("typeset -gA RIG_CMD\nRIG_CMD=(\n"@ =~= first.push('\n') + second.push('\n'));
    text::lemma_one_line(first);
    text::lemma_one_line(second);
    text::lemma_lines_append(first.push('\n'), second.push('\n'));
    let all = seq![first] + seq![second] + rest;
    assert(all.skip(1) =~= seq![second] + rest);
    assert(all.skip(1).skip(1) =~= rest);
    assert(first[0] == 't');
    assert(second[0] == 'R');
    if "# rig-plugin: "@.is_prefix_of(first) {
        assert("# rig-plugin: "@[0] == first[0]);
    }
    if "# rig-plugin: "@.is_prefix_of(second) {
        assert("# rig-plugin: "@[0] == second[0]);
    }
    text::lemma_trim_span(first, Class::Space, 0, 18);
    assert(text::trim(first) != second);
    text::lemma_trim_whole(second, Class::Space);
    assert(all[0] == first);
    assert(all.skip(1)[0] == second);
    assert(keys_in(all.skip(1), false) == keys_in(rest, true));
}

/// The lines that close the command table lead out of it.
proof fn lemma_table_closes(rest: Seq<Seq<char>>)
    ensures
        keys_in(text::lines(")\n\n"@) + rest, true) == keys_in(rest, false),
{
    reveal_strlit(")\n\n");
    reveal_strlit(")");
    reveal_strlit("RIG_CMD=(");
    reveal_strlit("# rig-plugin: ");
    let first = ")"@;
    let second = Seq::<char>::empty();
    assert(")\n\n"@ =~= first.push('\n') + second.push('\n'));
    text::lemma_one_line(first);
    text::lemma_one_line(second);
    text::lemma_lines_append(first.push('\n'), second.push('\n'));
    let all = seq![first] + seq![second] + rest;
    assert(all.skip(1) =~= seq![second] + rest);
    assert(all.skip(1).skip(1) =~= rest);
    if "# rig-plugin: "@.is_prefix_of(first) {
        assert("# rig-plugin: "@[0] == first[0]);
    }
    text::lemma_trim_whole(first, Class::Space);
    assert(all[0] == first);
    assert(all.skip(1)[0] == second);
    assert(text::trim(second) =~= second);
    assert(keys_in(all.skip(1), false) == keys_in(rest, false));
}

/// Whether a text between double quotes means a value: a leading `~` is the
/// home directory, and the rest is taken letter by letter.
pub open spec fn quotes(w: Seq<char>, value: Seq<char>) -> bool {
    if value == seq!['~'] {
        w == "$HOME"@
    } else if value.len() >= 2 && value[0] == '~' && value[1] == '/' {
        exists|x: Seq<char>|
            w == "$HOME/"@ + x && #[trigger] unescaped(x) == Some(value.skip(2))
    } else {
        unescaped(w) == Some(value)
    }
}

/// What is exported means the value.
pub proof fn lemma_exported_means_the_value(value: Seq<char>)
    ensures
        quotes(exported(value), value),
{
    reveal_strlit("~/");
    reveal_strlit("~");
    if value == seq!['~'] {
        assert(value =~= "~"@);
        assert(value.len() == 1);
    } else if value.len() >= 2 && value[0] == '~' && value[1] == '/' {
        assert("~/"@ =~= value.take(2));
        lemma_escaped(value.skip(2));
    } else {
        if "~/"@.is_prefix_of(value) {
            assert(value[0] == "~/"@[0]);
            assert(value[1] == "~/"@[1]);
        }
        if value == "~"@ {
            assert(value =~= seq!['~']);
        }
        lemma_escaped(value);
    }
}

/// Whether the startup file runs a line when it is read: it stands on its own,
/// before the command table and so before the first function.
pub open spec fn at_startup(file: Seq<char>, line: Seq<char>) -> bool {
    exists|before: Seq<char>, after: Seq<char>| #[trigger]
        text::cut(file, before, line, after) && text::contains(after, "\nRIG_CMD=(\n"@)
}

/// Whether a text stands in the startup file, from the start of a line on.
pub open spec fn stands_in(file: Seq<char>, p: Seq<char>) -> bool {
    exists|before: Seq<char>, after: Seq<char>| #[trigger] text::cut(file, before, p, after)
}

proof fn lemma_export_lines_end(lead: Seq<char>, env: Table<String>)
    ensures
        forall|i: int|
            0 <= i < export_lines(lead, env).len() ==> text::ends_line(
                #[trigger] export_lines(lead, env)[i],
            ),
        text::ends_line(text::concat(export_lines(lead, env))),
{
    reveal_strlit("\"\n");
    let all = export_lines(lead, env);
    assert forall|i: int| 0 <= i < all.len() implies text::ends_line(#[trigger] all[i]) by {
        assert(all[i].last() == '\n');
    }
    text::lemma_concat_ends_line(all);
}

proof fn lemma_block_ends(lead: Seq<char>, lines: Seq<Seq<char>>)
    ensures
        forall|i: int|
            0 <= i < block(lead, lines).len() ==> text::ends_line(#[trigger] block(lead, lines)[i]),
        text::ends_line(text::concat(block(lead, lines))),
{
    reveal_strlit("\n");
    let all = block(lead, lines);
    assert forall|i: int| 0 <= i < all.len() implies text::ends_line(#[trigger] all[i]) by {
        assert(all[i].last() == '\n');
    }
    text::lemma_concat_ends_line(all);
}

#[verifier::spinoff_prover]
#[verifier::rlimit(40)]
proof fn lemma_env_cut(entries: Seq<ResolvedEntry<'static>>, i: int, k: Seq<char>)
    requires
        0 <= i < entries.len(),
        entries[i].shared() is Some,
        !entries[i].shared()->0.lazy,
        entries[i].shared()->0.env@.contains_key(k),
    ensures
        exists|before: Seq<char>, after: Seq<char>| #[trigger]
            text::cut(
                env_text(entries),
                before,
                export_line(seq![], k, entries[i].shared()->0.env@[k]@),
                after,
            ),
{
    let env = entries[i].shared()->0.env;
    crate::table::lemma_places(env, k);
    let j = choose|j: int|
        0 <= j < env.keys().len() && env.keys()[j] == k && env.values()[j] == env@[k];
    let lines = export_lines(seq![], env);
    let line = export_line(seq![], k, env@[k]@);
    assert(lines[j] == line);
    let none = Seq::<char>::empty();
    assert(text::cut(line, none, line, none)) by {
        assert(none + line + none =~= line);
    }
    lemma_export_lines_end(seq![], env);
    text::lemma_cut_of_concat(lines, j, none, line, none);
    let pieces = Seq::new(entries.len(), |n: int| env_piece(entries[n]));
    assert forall|n: int| 0 <= n < pieces.len() implies text::ends_line(#[trigger] pieces[n]) by {
        if entries[n].shared() is Some {
            lemma_export_lines_end(seq![], entries[n].shared()->0.env);
        }
    }
    let b = text::concat(lines.take(j)) + none;
    let a = none + text::concat(lines.skip(j + 1));
    assert(pieces[i] == text::concat(lines));
    text::lemma_cut_of_concat(pieces, i, b, line, a);
    let b2 = text::concat(pieces.take(i)) + b;
    let a2 = a + text::concat(pieces.skip(i + 1));
    text::lemma_cut_within(none, text::concat(pieces), "\n"@, b2, line, a2);
    assert(none + text::concat(pieces) + "\n"@ =~= env_text(entries));
    assert(text::cut(env_text(entries), none + b2, line, a2 + "\n"@));
}

#[verifier::spinoff_prover]
#[verifier::rlimit(40)]
proof fn lemma_run_cut(entries: Seq<ResolvedEntry<'static>>, i: int, j: int)
    requires
        0 <= i < entries.len(),
        entries[i].shared() is Some,
        !entries[i].shared()->0.lazy,
        entries[i].shared()->0.run is Some,
        0 <= j < entries[i].shared()->0.run->0.statements().len(),
    ensures
        exists|before: Seq<char>, after: Seq<char>| #[trigger]
            text::cut(
                runs_text(entries),
                before,
                entries[i].shared()->0.run->0.statements()[j] + "\n"@,
                after,
            ),
{
    let statements = entries[i].shared()->0.run->0.statements();
    let lines = block(seq![], statements);
    let line = statements[j] + "\n"@;
    let none = Seq::<char>::empty();
    assert(lines[j] =~= line);
    assert(text::cut(line, none, line, none)) by {
        assert(none + line + none =~= line);
    }
    lemma_block_ends(seq![], statements);
    text::lemma_cut_of_concat(lines, j, none, line, none);
    let pieces = Seq::new(entries.len(), |n: int| run_piece(entries[n]));
    assert forall|n: int| 0 <= n < pieces.len() implies text::ends_line(#[trigger] pieces[n]) by {
        if entries[n].shared() is Some && entries[n].shared()->0.run is Some {
            lemma_block_ends(seq![], entries[n].shared()->0.run->0.statements());
        }
    }
    let b = text::concat(lines.take(j)) + none;
    let a = none + text::concat(lines.skip(j + 1));
    assert(pieces[i] == text::concat(lines));
    text::lemma_cut_of_concat(pieces, i, b, line, a);
    let b2 = text::concat(pieces.take(i)) + b;
    let a2 = a + text::concat(pieces.skip(i + 1));
    text::lemma_cut_within(none, text::concat(pieces), "\n"@, b2, line, a2);
    assert(none + text::concat(pieces) + "\n"@ =~= runs_text(entries));
    assert(text::cut(runs_text(entries), none + b2, line, a2 + "\n"@));
}

/// What follows the head of the startup file holds the opening of the command
/// table.
proof fn lemma_table_follows(
    config: Config,
    lock: Map<Seq<char>, ToolLockView>,
    layout: LayoutView,
    lead: Seq<char>,
)
    ensures
        ({
            let rest = rig_cmd_text(config::entries(config)) + (middle_text(config, lock, layout)
                + plugins_text(config.plugin@, layout.plugins_dir));
            &&& rendered(config, lock, layout) == head_text(config, layout) + rest
            &&& text::contains(lead + rest, "\nRIG_CMD=(\n"@)
        }),
{
    let entries = config::entries(config);
    let end = middle_text(config, lock, layout) + plugins_text(config.plugin@, layout.plugins_dir);
    let rest = rig_cmd_text(entries) + end;
    lemma_regroup(
        head_text(config, layout),
        rig_cmd_text(entries),
        handler_text(layout.init_zsh_path),
        evals_text(entries, lock),
        lazies_text(entries, lock),
        plugins_text(config.plugin@, layout.plugins_dir),
    );
    reveal_strlit("typeset -gA RIG_CMD\nRIG_CMD=(\n");
    reveal_strlit("\nRIG_CMD=(\n");
    let opening = "typeset -gA RIG_CMD\nRIG_CMD=(\n"@;
    let mark = "\nRIG_CMD=(\n"@;
    assert(opening.subrange(19, 30) =~= mark);
    assert(text::occurs_at(opening, mark, 19));
    let after = commands_text(entries) + ")\n\n"@ + end;
    text::lemma_contains_within(lead, opening, after, mark);
    assert(lead + opening + after =~= lead + rest);
}

/// The variables of every entry that is set up at startup are exported there,
/// whatever other fields the entry has: each on a line of its own, before any
/// function, with a value that means what the configuration says.
#[verifier::spinoff_prover]
#[verifier::rlimit(40)]
pub proof fn lemma_variables_are_exported(
    config: Config,
    lock: Map<Seq<char>, ToolLockView>,
    layout: LayoutView,
    i: int,
    k: Seq<char>,
)
    requires
        0 <= i < config::entries(config).len(),
        config::entries(config)[i].shared() is Some,
        !config::entries(config)[i].shared()->0.lazy,
        config::entries(config)[i].shared()->0.env@.contains_key(k),
    ensures
        exists|w: Seq<char>|
            {
                &&& #[trigger] quotes(w, config::entries(config)[i].shared()->0.env@[k]@)
                &&& at_startup(
                    rendered(config, lock, layout),
                    "export "@ + k + "=\""@ + w + "\"\n"@,
                )
            },
{
    let entries = config::entries(config);
    let value = entries[i].shared()->0.env@[k]@;
    let w = exported(value);
    let line = "export "@ + k + "=\""@ + w + "\"\n"@;
    lemma_exported_means_the_value(value);
    assert(export_line(seq![], k, value) =~= line);
    lemma_env_cut(entries, i, k);
    let (b, a) = choose|b: Seq<char>, a: Seq<char>| #[trigger]
        text::cut(env_text(entries), b, line, a);
    let fpath = fpath_text(layout);
    let runs = runs_text(entries);
    assert(text::ends_line(fpath)) by {
        reveal_strlit(" $fpath)\n\n");
        assert(fpath.last() == '\n');
    }
    let rest = rig_cmd_text(entries) + (middle_text(config, lock, layout) + plugins_text(
        config.plugin@,
        layout.plugins_dir,
    ));
    text::lemma_cut_within(fpath, env_text(entries), runs + rest, b, line, a);
    lemma_table_follows(config, lock, layout, a + runs);
    let file = rendered(config, lock, layout);
    assert(fpath + env_text(entries) + (runs + rest) =~= file);
    assert(a + (runs + rest) =~= a + runs + rest);
    assert(text::cut(file, fpath + b, line, a + (runs + rest)));
    assert(at_startup(file, line));
}

proof fn lemma_export_before(
    entries: Seq<ResolvedEntry<'static>>,
    n: int,
    k: Seq<char>,
    lead: Seq<char>,
    after: Seq<char>,
)
    requires
        0 <= n < entries.len(),
        entries[n].shared() is Some,
        !entries[n].shared()->0.lazy,
        entries[n].shared()->0.env@.contains_key(k),
    ensures
        text::contains(lead + env_text(entries) + after, "export "@ + k + "=\""@),
{
    lemma_env_cut(entries, n, k);
    let value = entries[n].shared()->0.env@[k]@;
    let export = export_line(seq![], k, value);
    let (c, d) = choose|c: Seq<char>, d: Seq<char>| #[trigger]
        text::cut(env_text(entries), c, export, d);
    let start = "export "@ + k + "=\""@;
    let tail = exported(value) + "\"\n"@ + d + after;
    assert(text::occurs_at(start, start, 0)) by {
        assert(start.subrange(0, start.len() as int) =~= start);
    }
    text::lemma_contains_within(lead + c, start, tail, start);
    assert(lead + c + start + tail =~= lead + env_text(entries) + after);
}

/// The statements of every entry that is set up at startup are run there, each
/// on a line of its own, verbatim, and after every variable of every such
/// entry has been exported.
#[verifier::spinoff_prover]
#[verifier::rlimit(40)]
pub proof fn lemma_statements_are_run(
    config: Config,
    lock: Map<Seq<char>, ToolLockView>,
    layout: LayoutView,
    i: int,
    j: int,
)
    requires
        0 <= i < config::entries(config).len(),
        config::entries(config)[i].shared() is Some,
        !config::entries(config)[i].shared()->0.lazy,
        config::entries(config)[i].shared()->0.run is Some,
        0 <= j < config::entries(config)[i].shared()->0.run->0.statements().len(),
    ensures
        ({
            let file = rendered(config, lock, layout);
            let statement = config::entries(config)[i].shared()->0.run->0.statements()[j] + "\n"@;
            exists|before: Seq<char>, after: Seq<char>|
                {
                    &&& #[trigger] text::cut(file, before, statement, after)
                    &&& text::contains(after, "\nRIG_CMD=(\n"@)
                    &&& forall|n: int, k: Seq<char>|
                        {
                            &&& 0 <= n < config::entries(config).len()
                            &&& config::entries(config)[n].shared() is Some
                            &&& !config::entries(config)[n].shared()->0.lazy
                            &&& #[trigger] config::entries(
                                config,
                            )[n].shared()->0.env@.contains_key(k)
                        } ==> text::contains(before, "export "@ + k + "=\""@)
                }
        }),
{
    let entries = config::entries(config);
    let line = entries[i].shared()->0.run->0.statements()[j] + "\n"@;
    lemma_run_cut(entries, i, j);
    let (b, a) = choose|b: Seq<char>, a: Seq<char>| #[trigger]
        text::cut(runs_text(entries), b, line, a);
    let front = fpath_text(layout) + env_text(entries);
    assert(text::ends_line(front)) by {
        reveal_strlit("\n");
        assert(front.last() == '\n');
    }
    let rest = rig_cmd_text(entries) + (middle_text(config, lock, layout) + plugins_text(
        config.plugin@,
        layout.plugins_dir,
    ));
    text::lemma_cut_within(front, runs_text(entries), rest, b, line, a);
    lemma_table_follows(config, lock, layout, a);
    let file = rendered(config, lock, layout);
    assert(front + runs_text(entries) + rest =~= file);
    assert(text::cut(file, front + b, line, a + rest));
    assert forall|n: int, k: Seq<char>|
        {
            &&& 0 <= n < entries.len()
            &&& entries[n].shared() is Some
            &&& !entries[n].shared()->0.lazy
            &&& #[trigger] entries[n].shared()->0.env@.contains_key(k)
        } implies text::contains(front + b, "export "@ + k + "=\""@) by {
        lemma_export_before(entries, n, k, fpath_text(layout), b);
    }
}

proof fn lemma_dropped_piece(parts: Seq<Seq<char>>, i: int)
    requires
        0 <= i < parts.len(),
        parts[i].len() == 0,
    ensures
        text::concat(parts.remove(i)) == text::concat(parts),
    decreases parts.len(),
{
    let n = parts.len() - 1;
    let less = parts.remove(i);
    if i == n {
        assert(less =~= parts.drop_last());
        assert(text::concat(parts) =~= text::concat(parts.drop_last()));
    } else {
        assert(less.drop_last() =~= parts.drop_last().remove(i));
        assert(less.last() == parts.last());
        lemma_dropped_piece(parts.drop_last(), i);
    }
}

/// The setup of a deferred entry does not run at startup: without the entry,
/// the exports, statements and `eval` blocks of the startup file are the same.
pub proof fn lemma_deferred_setup_waits(
    entries: Seq<ResolvedEntry<'static>>,
    lock: Map<Seq<char>, ToolLockView>,
    i: int,
)
    requires
        0 <= i < entries.len(),
        entries[i].shared() is Some,
        entries[i].shared()->0.lazy,
    ensures
        env_text(entries) == env_text(entries.remove(i)),
        runs_text(entries) == runs_text(entries.remove(i)),
        evals_text(entries, lock) == evals_text(entries.remove(i), lock),
{
    let less = entries.remove(i);
    let envs = Seq::new(entries.len(), |n: int| env_piece(entries[n]));
    let runs = Seq::new(entries.len(), |n: int| run_piece(entries[n]));
    let evals = Seq::new(entries.len(), |n: int| eval_piece(entries[n], lock));
    lemma_dropped_piece(envs, i);
    lemma_dropped_piece(runs, i);
    lemma_dropped_piece(evals, i);
    assert(envs.remove(i) =~= Seq::new(less.len(), |n: int| env_piece(less[n])));
    assert(runs.remove(i) =~= Seq::new(less.len(), |n: int| run_piece(less[n])));
    assert(evals.remove(i) =~= Seq::new(less.len(), |n: int| eval_piece(less[n], lock)));
}

/// A tool that is not installed adds no `eval` and no deferred setup; one that
/// is set up at startup adds no deferred setup.
pub proof fn lemma_absent_tool_is_quiet(
    entries: Seq<ResolvedEntry<'static>>,
    lock: Map<Seq<char>, ToolLockView>,
    i: int,
)
    requires
        0 <= i < entries.len(),
    ensures
        !lock.contains_key(entries[i].key_text()) ==> evals_text(entries, lock) == evals_text(
            entries.remove(i),
            lock,
        ) && lazies_text(entries, lock) == lazies_text(entries.remove(i), lock),
        entries[i].shared() is Some && !entries[i].shared()->0.lazy ==> lazies_text(entries, lock)
            == lazies_text(entries.remove(i), lock),
{
    let less = entries.remove(i);
    let evals = Seq::new(entries.len(), |n: int| eval_piece(entries[n], lock));
    let lazies = Seq::new(entries.len(), |n: int| lazy_piece(entries[n], lock));
    assert(evals.remove(i) =~= Seq::new(less.len(), |n: int| eval_piece(less[n], lock)));
    assert(lazies.remove(i) =~= Seq::new(less.len(), |n: int| lazy_piece(less[n], lock)));
    if evals[i].len() == 0 {
        lemma_dropped_piece(evals, i);
    }
    if lazies[i].len() == 0 {
        lemma_dropped_piece(lazies, i);
    }
}

/// The `eval` of an installed entry that is set up at startup stands in the
/// startup file: as what it said, exactly if that is recorded and may be kept,
/// as a live call otherwise.
#[verifier::spinoff_prover]
#[verifier::rlimit(40)]
pub proof fn lemma_eval_is_in_place(
    config: Config,
    lock: Map<Seq<char>, ToolLockView>,
    layout: LayoutView,
    i: int,
)
    requires
        0 <= i < config::entries(config).len(),
        config::entries(config)[i].shared() is Some,
        !config::entries(config)[i].shared()->0.lazy,
        config::entries(config)[i].shared()->0.eval is Some,
        lock.contains_key(config::entries(config)[i].key_text()),
    ensures
        ({
            let e = config::entries(config)[i];
            let cmd = e.shared()->0.eval->0.cmd_text();
            let tool = lock[e.key_text()];
            let kept = tool.eval_cacheable == Some(true) && tool.eval_cached_output is Some;
            &&& kept ==> stands_in(
                rendered(config, lock, layout),
                "# cached: "@ + cmd + " (evidence: none — probed clean)\n"@
                    + tool.eval_cached_output->0 + "\n"@,
            )
            &&& !kept ==> stands_in(
                rendered(config, lock, layout),
                "eval \"$("@ + cmd + ")\"\n"@,
            )
        }),
{
    let entries = config::entries(config);
    let e = entries[i];
    let body = eval_text(e.shared()->0.eval->0.cmd_text(), lock[e.key_text()]);
    let pieces = Seq::new(entries.len(), |n: int| eval_piece(entries[n], lock));
    let none = Seq::<char>::empty();
    reveal_strlit("\n");
    assert forall|n: int| 0 <= n < pieces.len() implies text::ends_line(#[trigger] pieces[n]) by {}
    assert(text::cut(pieces[i], none, body, "\n"@)) by {
        assert(none + body + "\n"@ =~= pieces[i]);
    }
    text::lemma_cut_of_concat(pieces, i, none, body, "\n"@);
    let b = text::concat(pieces.take(i)) + none;
    let a = "\n"@ + text::concat(pieces.skip(i + 1));
    let front = head_text(config, layout) + rig_cmd_text(entries) + handler_text(
        layout.init_zsh_path,
    );
    let rest = lazies_text(entries, lock) + plugins_text(config.plugin@, layout.plugins_dir);
    assert(text::ends_line(front)) by {
        reveal_strlit("\n  rehash\n  command \"$@\"\n}\n\n");
        assert(front.last() == '\n');
    }
    text::lemma_cut_within(front, evals_text(entries, lock), rest, b, body, a);
    assert(front + evals_text(entries, lock) + rest =~= rendered(config, lock, layout));
    assert(text::cut(rendered(config, lock, layout), front + b, body, a + rest));
}

/// The function path leads to the completions before anything else happens.
pub proof fn lemma_completions_come_first(
    config: Config,
    lock: Map<Seq<char>, ToolLockView>,
    layout: LayoutView,
)
    ensures
        ("fpath=("@ + layout.completions_dir + " $fpath)\n"@).is_prefix_of(
            rendered(config, lock, layout),
        ),
{
    reveal_strlit(" $fpath)\n\n");
    reveal_strlit(" $fpath)\n");
    let line = "fpath=("@ + layout.completions_dir + " $fpath)\n"@;
    let file = rendered(config, lock, layout);
    assert(file.take(line.len() as int) =~= line);
}

#[verifier::spinoff_prover]
#[verifier::rlimit(40)]
proof fn lemma_lazy_cut(
    config: Config,
    lock: Map<Seq<char>, ToolLockView>,
    layout: LayoutView,
    i: int,
    before: Seq<char>,
    p: Seq<char>,
    after: Seq<char>,
)
    requires
        0 <= i < config::entries(config).len(),
        text::cut(lazy_piece(config::entries(config)[i], lock), before, p, after),
    ensures
        stands_in(rendered(config, lock, layout), p),
{
    let entries = config::entries(config);
    let pieces = Seq::new(entries.len(), |n: int| lazy_piece(entries[n], lock));
    assert forall|n: int| 0 <= n < pieces.len() implies text::ends_line(#[trigger] pieces[n]) by {
        lemma_lazy_ends_line(entries[n], lock);
    }
    assert(pieces[i] == lazy_piece(entries[i], lock));
    text::lemma_cut_of_concat(pieces, i, before, p, after);
    let b = text::concat(pieces.take(i)) + before;
    let a = after + text::concat(pieces.skip(i + 1));
    let handler = handler_text(layout.init_zsh_path);
    let front = head_text(config, layout) + rig_cmd_text(entries) + handler + evals_text(
        entries,
        lock,
    );
    let rest = plugins_text(config.plugin@, layout.plugins_dir);
    let evals = Seq::new(entries.len(), |n: int| eval_piece(entries[n], lock));
    assert(text::ends_line(front)) by {
        reveal_strlit("\n  rehash\n  command \"$@\"\n}\n\n");
        reveal_strlit("\n");
        text::lemma_concat_ends_line(evals);
        let start = head_text(config, layout) + rig_cmd_text(entries) + handler;
        assert(start.last() == '\n');
        lemma_ends_in(start, evals_text(entries, lock));
    }
    text::lemma_cut_within(front, lazies_text(entries, lock), rest, b, p, a);
    assert(front + lazies_text(entries, lock) + rest =~= rendered(config, lock, layout));
    assert(text::cut(rendered(config, lock, layout), front + b, p, a + rest));
}

/// Whether an entry of a configuration waits for its first use: it is deferred,
/// there is something to set up, its tool is installed, and a command or a key
/// can set it off.
pub open spec fn waits(
    config: Config,
    lock: Map<Seq<char>, ToolLockView>,
    i: int,
) -> bool {
    let e = config::entries(config)[i];
    &&& 0 <= i < config::entries(config).len()
    &&& e.shared() is Some
    &&& e.shared()->0.lazy
    &&& e.shared()->0.env.keys().len() > 0 || e.shared()->0.eval is Some || e.shared()->0.run is Some
    &&& lock.contains_key(e.key_text())
    &&& e.commands().len() > 0 || (e.shared()->0.bind is Some
        && e.shared()->0.bind->0@.contains(':'))
}

proof fn lemma_bound(bind: Option<String>)
    ensures
        bound(bind) is Some <==> bind is Some && bind->0@.contains(':'),
        bound(bind) is Some ==> {
            let (keys, widget) = bound(bind)->0;
            bind->0@ == keys + seq![':'] + widget && !keys.contains(':')
        },
{
    if bind is Some {
        let s = bind->0@;
        let colon = Class::Only(':');
        text::lemma_first_at(s, colon);
        let at = text::first_at(s, colon) as int;
        if s.contains(':') {
            let i = choose|i: int| 0 <= i < s.len() && s[i] == ':';
            assert(colon.holds(s[i]));
        }
        if at < s.len() {
            assert(s[at] == ':');
            assert(s =~= s.take(at) + seq![':'] + s.skip(at + 1));
            let keys = s.take(at);
            if keys.contains(':') {
                let i = choose|i: int| 0 <= i < keys.len() && keys[i] == ':';
                assert(!colon.holds(s[i]));
            }
        }
    }
}

/// Each command of a waiting entry is a stub until its first use: it runs the
/// setup once, points the entry's key at its real widget where there is one,
/// and then calls the command itself with the same arguments.
#[verifier::spinoff_prover]
#[verifier::rlimit(40)]
pub proof fn lemma_waiting_commands_are_stubs(
    config: Config,
    lock: Map<Seq<char>, ToolLockView>,
    layout: LayoutView,
    i: int,
    j: int,
)
    requires
        waits(config, lock, i),
        0 <= j < config::entries(config)[i].commands().len(),
    ensures
        ({
            let e = config::entries(config)[i];
            let name = e.commands()[j];
            let bind = e.shared()->0.bind;
            let call = name + "() {\n  "@ + ("_rig_lazy_init_"@ + ident(e.key_text())) + "\n"@;
            let last = "  "@ + name + " \"$@\"\n}\n\n"@;
            &&& (bind is None || !bind->0@.contains(':')) ==> stands_in(
                rendered(config, lock, layout),
                call + last,
            )
            &&& forall|keys: Seq<char>, widget: Seq<char>|
                bind is Some && bind->0@ == #[trigger] (keys + seq![':'] + widget)
                    && !keys.contains(':') ==> stands_in(
                    rendered(config, lock, layout),
                    call + ("  bindkey '"@ + keys + "' "@ + widget + "\n"@) + last,
                )
        }),
{
    let e = config::entries(config)[i];
    let c = e.shared()->0;
    let names = e.commands();
    let name = names[j];
    let id = ident(e.key_text());
    let init = "_rig_lazy_init_"@ + id;
    let rebind = rebind_text(bound(c.bind));
    let call = name + "() {\n  "@ + init + "\n"@;
    let last = "  "@ + name + " \"$@\"\n}\n\n"@;
    let stub = stub_text(name, init, rebind);
    lemma_bound(c.bind);
    assert(deferred(e, c, lock));
    let pieces = stubs(names, init, rebind);
    let none = Seq::<char>::empty();
    reveal_strlit(" \"$@\"\n}\n\n");
    reveal_strlit("}\n\n");
    assert forall|n: int| 0 <= n < pieces.len() implies text::ends_line(#[trigger] pieces[n]) by {
        assert(pieces[n].last() == '\n');
    }
    assert(text::cut(pieces[j], none, stub, none)) by {
        assert(none + stub + none =~= pieces[j]);
    }
    text::lemma_cut_of_concat(pieces, j, none, stub, none);
    let front = init + "() {\n"@ + lazy_body(names, c, lock[e.key_text()]) + "}\n\n"@;
    assert(front.last() == '\n');
    let b = text::concat(pieces.take(j)) + none;
    let a = none + text::concat(pieces.skip(j + 1));
    let widget_part = widget_text(id, init, bound(c.bind));
    text::lemma_cut_within(front, text::concat(pieces), widget_part, b, stub, a);
    lemma_lazy_cut(config, lock, layout, i, front + b, stub, a + widget_part);
    if bound(c.bind) is None {
        assert(stub =~= call + last);
    }
    assert forall|keys: Seq<char>, widget: Seq<char>|
        c.bind is Some && c.bind->0@ == #[trigger] (keys + seq![':'] + widget) && !keys.contains(
            ':',
        ) implies stands_in(
        rendered(config, lock, layout),
        call + ("  bindkey '"@ + keys + "' "@ + widget + "\n"@) + last,
    ) by {
        lemma_colon_split(keys, widget);
        assert(stub =~= call + ("  bindkey '"@ + keys + "' "@ + widget + "\n"@) + last);
    }
}

proof fn lemma_colon_split(keys: Seq<char>, widget: Seq<char>)
    requires
        !keys.contains(':'),
    ensures
        colon_split(keys + seq![':'] + widget) == Some((keys, widget)),
{
    let s = keys + seq![':'] + widget;
    let n = keys.len() as int;
    assert forall|j: int| 0 <= j < n implies !Class::Only(':').holds(#[trigger] s[j]) by {
        assert(s[j] == keys[j]);
        assert(keys.contains(keys[j]));
    }
    assert(s[n] == ':');
    text::lemma_first_at_unique(s, Class::Only(':'), n);
    assert(s.take(n) =~= keys);
    assert(s.skip(n + 1) =~= widget);
}

/// A key that a waiting entry binds runs a placeholder: the placeholder runs
/// the setup, points the key at the real widget, and calls that widget.
#[verifier::spinoff_prover]
#[verifier::rlimit(40)]
pub proof fn lemma_waiting_key_is_bound(
    config: Config,
    lock: Map<Seq<char>, ToolLockView>,
    layout: LayoutView,
    i: int,
    keys: Seq<char>,
    widget: Seq<char>,
)
    requires
        waits(config, lock, i),
        config::entries(config)[i].shared()->0.bind is Some,
        config::entries(config)[i].shared()->0.bind->0@ == keys + seq![':'] + widget,
        !keys.contains(':'),
    ensures
        ({
            let id = ident(config::entries(config)[i].key_text());
            let name = "_rig_lazy_bind_"@ + id;
            stands_in(
                rendered(config, lock, layout),
                name + "() {\n  "@ + ("_rig_lazy_init_"@ + id) + "\n  bindkey '"@ + keys + "' "@
                    + widget + "\n  zle "@ + widget + "\n}\nzle -N "@ + name + "\nbindkey '"@
                    + keys + "' "@ + name + "\n\n"@,
            )
        }),
{
    let e = config::entries(config)[i];
    let c = e.shared()->0;
    let names = e.commands();
    let id = ident(e.key_text());
    let init = "_rig_lazy_init_"@ + id;
    lemma_bound(c.bind);
    lemma_colon_split(keys, widget);
    assert(deferred(e, c, lock));
    let pieces = stubs(names, init, rebind_text(bound(c.bind)));
    reveal_strlit(" \"$@\"\n}\n\n");
    reveal_strlit("}\n\n");
    assert forall|n: int| 0 <= n < pieces.len() implies text::ends_line(#[trigger] pieces[n]) by {
        assert(pieces[n].last() == '\n');
    }
    text::lemma_concat_ends_line(pieces);
    let first = init + "() {\n"@ + lazy_body(names, c, lock[e.key_text()]) + "}\n\n"@;
    assert(first.last() == '\n');
    lemma_ends_in(first, text::concat(pieces));
    let front = first + text::concat(pieces);
    let body = widget_text(id, init, bound(c.bind));
    let none = Seq::<char>::empty();
    assert(text::cut(lazy_piece(e, lock), front, body, none)) by {
        assert(front + body + none =~= lazy_piece(e, lock));
    }
    lemma_lazy_cut(config, lock, layout, i, front, body, none);
}

/// The line that takes the stubs of commands away; none without commands.
pub open spec fn stubs_removed(names: Seq<Seq<char>>) -> Seq<char> {
    if names.len() > 0 {
        "  unfunction "@ + text::join(names, " "@) + " 2>/dev/null\n"@
    } else {
        seq![]
    }
}

/// Whether a text exports a variable, with a value that means another one.
pub open spec fn exports_value(
    s: Seq<char>,
    lead: Seq<char>,
    k: Seq<char>,
    value: Seq<char>,
) -> bool {
    exists|w: Seq<char>|
        {
            &&& #[trigger] quotes(w, value)
            &&& stands_in(s, lead + "export "@ + k + "=\""@ + w + "\"\n"@)
        }
}

/// Whether a text holds each of several lines, with `lead` before it.
pub open spec fn holds_lines(s: Seq<char>, lead: Seq<char>, lines: Seq<Seq<char>>) -> bool {
    forall|j: int| 0 <= j < lines.len() ==> stands_in(s, lead + #[trigger] lines[j] + "\n"@)
}

/// What an `eval` command becomes: what it said, exactly if that is recorded
/// and may be kept, and a live call otherwise.
pub open spec fn live_or_kept(cmd: Seq<char>, tool: ToolLockView) -> Seq<char> {
    if tool.eval_cacheable == Some(true) && tool.eval_cached_output is Some {
        "# cached: "@ + cmd + " (evidence: none — probed clean)\n"@ + tool.eval_cached_output->0
            + "\n"@
    } else {
        "eval \"$("@ + cmd + ")\"\n"@
    }
}

/// Whether three texts are the setup of an entry: its exports, its `eval` and
/// its statements.
pub open spec fn sets_up(
    c: Common,
    tool: ToolLockView,
    exports: Seq<char>,
    live: Seq<char>,
    runs: Seq<char>,
) -> bool {
    &&& forall|k: Seq<char>| #[trigger]
        c.env@.contains_key(k) ==> exports_value(exports, "  "@, k, c.env@[k]@)
    &&& match c.eval {
        Some(eval) => holds_lines(live, "  "@, text::lines(live_or_kept(eval.cmd_text(), tool))),
        None => live.len() == 0,
    }
    &&& match c.run {
        Some(run) => holds_lines(runs, "  "@, run.statements()),
        None => runs.len() == 0,
    }
}

/// The setup of a waiting entry is one function. It first takes the stubs of
/// all its commands away, exports every variable with a value that means what
/// the configuration says, evaluates, and runs every statement, in this order.
#[verifier::spinoff_prover]
#[verifier::rlimit(40)]
pub proof fn lemma_waiting_setup_is_one_function(
    config: Config,
    lock: Map<Seq<char>, ToolLockView>,
    layout: LayoutView,
    i: int,
)
    requires
        waits(config, lock, i),
    ensures
        ({
            let e = config::entries(config)[i];
            exists|exports: Seq<char>, live: Seq<char>, runs: Seq<char>|
                {
                    &&& #[trigger] sets_up(
                        e.shared()->0,
                        lock[e.key_text()],
                        exports,
                        live,
                        runs,
                    )
                    &&& stands_in(
                        rendered(config, lock, layout),
                        "_rig_lazy_init_"@ + ident(e.key_text()) + "() {\n"@ + stubs_removed(
                            e.commands(),
                        ) + exports + live + runs + "}\n\n"@,
                    )
                }
        }),
{
    let e = config::entries(config)[i];
    let c = e.shared()->0;
    let names = e.commands();
    let tool = lock[e.key_text()];
    let id = ident(e.key_text());
    let init = "_rig_lazy_init_"@ + id;
    lemma_bound(c.bind);
    assert(deferred(e, c, lock));
    let exports = text::concat(export_lines("  "@, c.env));
    let live = lazy_eval_text(c.eval, tool);
    let runs = run_text("  "@, c.run);
    let body = init + "() {\n"@ + stubs_removed(names) + exports + live + runs + "}\n\n"@;
    let rest = text::concat(stubs(names, init, rebind_text(bound(c.bind)))) + widget_text(
        id,
        init,
        bound(c.bind),
    );
    let none = Seq::<char>::empty();
    assert(text::cut(lazy_piece(e, lock), none, body, rest)) by {
        assert(none + body + rest =~= lazy_piece(e, lock));
    }
    lemma_lazy_cut(config, lock, layout, i, none, body, rest);
    lemma_sets_up(c, tool);
}

#[verifier::spinoff_prover]
#[verifier::rlimit(40)]
proof fn lemma_sets_up(c: Common, tool: ToolLockView)
    ensures
        sets_up(
            c,
            tool,
            text::concat(export_lines("  "@, c.env)),
            lazy_eval_text(c.eval, tool),
            run_text("  "@, c.run),
        ),
{
    let exports = text::concat(export_lines("  "@, c.env));
    assert forall|k: Seq<char>| #[trigger] c.env@.contains_key(k) implies exports_value(
        exports,
        "  "@,
        k,
        c.env@[k]@,
    ) by {
        crate::table::lemma_places(c.env, k);
        let j = choose|j: int|
            0 <= j < c.env.keys().len() && c.env.keys()[j] == k && c.env.values()[j] == c.env@[k];
        let w = exported(c.env@[k]@);
        lemma_exported_means_the_value(c.env@[k]@);
        assert(export_lines("  "@, c.env)[j] == "  "@ + "export "@ + k + "=\""@ + w + "\"\n"@);
        lemma_export_lines_end("  "@, c.env);
        lemma_line_stands(export_lines("  "@, c.env), j);
    }
    if c.run is Some {
        lemma_holds_lines("  "@, c.run->0.statements());
    }
    if c.eval is Some {
        lemma_holds_lines("  "@, text::lines(eval_text(c.eval->0.cmd_text(), tool)));
    }
}

proof fn lemma_holds_lines(lead: Seq<char>, lines: Seq<Seq<char>>)
    ensures
        holds_lines(text::concat(block(lead, lines)), lead, lines),
{
    let all = block(lead, lines);
    lemma_block_ends(lead, lines);
    assert forall|j: int| 0 <= j < lines.len() implies stands_in(
        text::concat(all),
        lead + #[trigger] lines[j] + "\n"@,
    ) by {
        lemma_line_stands(all, j);
    }
}

proof fn lemma_line_stands(lines: Seq<Seq<char>>, j: int)
    requires
        0 <= j < lines.len(),
        forall|n: int| 0 <= n < lines.len() ==> text::ends_line(#[trigger] lines[n]),
    ensures
        stands_in(text::concat(lines), lines[j]),
{
    let none = Seq::<char>::empty();
    assert(text::cut(lines[j], none, lines[j], none)) by {
        assert(none + lines[j] + none =~= lines[j]);
    }
    text::lemma_cut_of_concat(lines, j, none, lines[j], none);
}

/// The name of a deferred entry's functions is its key, letter by letter,
/// except that what a shell identifier cannot hold becomes an underscore.
pub proof fn lemma_identifier(key: Seq<char>, i: int)
    requires
        0 <= i < key.len(),
    ensures
        ident(key).len() == key.len(),
        ({
            let c = key[i];
            let plain = ('a' <= c && c <= 'z') || ('A' <= c && c <= 'Z') || ('0' <= c && c <= '9');
            ident(key)[i] == if plain {
                c
            } else {
                '_'
            }
        }),
{
}

/// The line that sources a file out of a directory; none without a file.
pub open spec fn sourced_from(dir: Seq<char>, file: Option<String>) -> Seq<char> {
    if file is Some {
        "source "@ + path::join(dir, file->0@) + "\n"@
    } else {
        seq![]
    }
}

/// Whether a text is what a plugin's `run` field says.
pub open spec fn runs_after(p: PluginEntry, runs: Seq<char>) -> bool {
    match p.run {
        Some(run) => holds_lines(runs, seq![], run.statements()),
        None => runs.len() == 0,
    }
}

/// Every plugin is loaded: under its marker, its file is sourced out of its own
/// clone, and its statements run after that.
#[verifier::spinoff_prover]
#[verifier::rlimit(40)]
pub proof fn lemma_plugins_are_loaded(
    config: Config,
    lock: Map<Seq<char>, ToolLockView>,
    layout: LayoutView,
    i: int,
)
    requires
        0 <= i < config.plugin@.len(),
    ensures
        ({
            let p = config.plugin@[i];
            let key = config::short_name(p.name@);
            exists|runs: Seq<char>|
                {
                    &&& #[trigger] runs_after(p, runs)
                    &&& stands_in(
                        rendered(config, lock, layout),
                        "# rig-plugin: "@ + key + "\n"@ + sourced_from(
                            path::join(layout.plugins_dir, key),
                            p.source,
                        ) + runs + "\n"@,
                    )
                }
        }),
{
    let p = config.plugin@[i];
    let plugins = config.plugin@;
    let dir = layout.plugins_dir;
    let key = config::short_name(p.name@);
    let pieces = Seq::new(plugins.len(), |n: int| plugin_piece(plugins[n], dir));
    reveal_strlit("\n");
    assert forall|n: int| 0 <= n < pieces.len() implies text::ends_line(#[trigger] pieces[n]) by {
        assert(pieces[n].last() == '\n');
    }
    let none = Seq::<char>::empty();
    let runs = run_text(seq![], p.run);
    let piece = plugin_piece(p, dir);
    assert(text::cut(pieces[i], none, piece, none)) by {
        assert(none + piece + none =~= pieces[i]);
    }
    text::lemma_cut_of_concat(pieces, i, none, piece, none);
    let b = text::concat(pieces.take(i)) + none;
    let a = none + text::concat(pieces.skip(i + 1));
    let entries = config::entries(config);
    let front = head_text(config, layout) + rig_cmd_text(entries) + middle_text(
        config,
        lock,
        layout,
    );
    lemma_middle_ends_line(config, lock, layout);
    let start = head_text(config, layout) + rig_cmd_text(entries);
    assert(text::ends_line(start)) by {
        reveal_strlit(")\n\n");
        assert(start.last() == '\n');
    }
    lemma_ends_in(start, middle_text(config, lock, layout));
    text::lemma_cut_within(front, plugins_text(plugins, dir), none, b, piece, a);
    let file = rendered(config, lock, layout);
    assert(front + plugins_text(plugins, dir) + none =~= file);
    assert(text::cut(file, front + b, piece, a + none));
    assert(piece =~= "# rig-plugin: "@ + key + "\n"@ + sourced_from(path::join(dir, key), p.source)
        + runs + "\n"@);
    if p.run is Some {
        lemma_holds_lines(seq![], p.run->0.statements());
    }
    assert(runs_after(p, runs));
}

/// A command that is not found is looked up in the command table, and asked for
/// where the table does not know it; the tool that provides it is installed,
/// the startup file is read again, and the command is run with its arguments.
/// Without such a tool, or where the install fails, the shell's own code for a
/// missing command is returned.
pub proof fn lemma_missing_command_is_installed(
    config: Config,
    lock: Map<Seq<char>, ToolLockView>,
    layout: LayoutView,
)
    ensures
        stands_in(
            rendered(config, lock, layout),
            "command_not_found_handler() {\n  local tool=\"${RIG_CMD[$1]}\"\n  [[ -z \"$tool\" ]] && tool=$(rig which \"$1\" 2>/dev/null)\n  [[ -z \"$tool\" ]] && { print -ru2 \"zsh: command not found: $1\"; return 127 }\n  rig install \"$tool\" || return 127\n  source "@
                + layout.init_zsh_path + "\n  rehash\n  command \"$@\"\n}\n\n"@,
        ),
{
    let entries = config::entries(config);
    let handler = handler_text(layout.init_zsh_path);
    let front = head_text(config, layout) + rig_cmd_text(entries);
    let rest = evals_text(entries, lock) + lazies_text(entries, lock) + plugins_text(
        config.plugin@,
        layout.plugins_dir,
    );
    assert(text::ends_line(front)) by {
        reveal_strlit(")\n\n");
        assert(front.last() == '\n');
    }
    assert(front + handler + rest =~= rendered(config, lock, layout));
    assert(text::cut(rendered(config, lock, layout), front, handler, rest));
}

/// The startup file sets the environment before it runs statements, knows every
/// command before it evaluates anything, and loads plugins last, when all that
/// they may use is there.
pub proof fn lemma_order_of_the_parts(
    config: Config,
    lock: Map<Seq<char>, ToolLockView>,
    layout: LayoutView,
)
    ensures
        ({
            let file = rendered(config, lock, layout);
            let entries = config::entries(config);
            &&& (fpath_text(layout) + env_text(entries) + runs_text(entries) + rig_cmd_text(
                entries,
            ) + handler_text(layout.init_zsh_path)).is_prefix_of(file)
            &&& (evals_text(entries, lock) + lazies_text(entries, lock) + plugins_text(
                config.plugin@,
                layout.plugins_dir,
            )).is_suffix_of(file)
        }),
{
    let file = rendered(config, lock, layout);
    let entries = config::entries(config);
    let first = fpath_text(layout) + env_text(entries) + runs_text(entries) + rig_cmd_text(entries)
        + handler_text(layout.init_zsh_path);
    let last = evals_text(entries, lock) + lazies_text(entries, lock) + plugins_text(
        config.plugin@,
        layout.plugins_dir,
    );
    assert(file =~= first + last);
    assert(file.take(first.len() as int) =~= first);
    assert(file.subrange(file.len() - last.len(), file.len() as int) =~= last);
}

} // verus!
