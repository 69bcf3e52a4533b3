//! Whether the output of a tool's `eval` command may be kept. Evidence only
//! ever speaks against it: one hit, and the command is run live.

use vstd::prelude::*;

use crate::failure;
use crate::failure::Failure;
use crate::strings;
use crate::text;
use crate::text::Class;

verus! {

/// What was found out about a command.
#[derive(Debug)]
pub struct Probe {
    pub cacheable: bool,
    /// What speaks against keeping the output.
    pub reasons: Vec<String>,
    /// What the command printed first.
    pub baseline_output: String,
}

/// One run of the command that is probed.
#[derive(Debug)]
pub struct ProbeRun {
    /// Where it runs; `None` where the process is.
    pub cwd: Option<String>,
    /// What it finds in its environment in place of the process's.
    pub env: Vec<(String, String)>,
}

#[verifier::ext_equal]
pub struct ProbeRunView {
    pub cwd: Option<Seq<char>>,
    pub env: Seq<(Seq<char>, Seq<char>)>,
}

impl View for ProbeRun {
    type V = ProbeRunView;

    open spec fn view(&self) -> ProbeRunView {
        ProbeRunView { cwd: text::opt_text(self.cwd), env: text::pairs(self.env@) }
    }
}

pub open spec fn plain_run() -> ProbeRunView {
    ProbeRunView { cwd: None, env: seq![] }
}

/// The runs of a probe: the baseline, two directories, another terminal,
/// another `PATH`, another shell depth, and the baseline again.
pub open spec fn run_list(path: Seq<char>) -> Seq<ProbeRunView> {
    seq![
        plain_run(),
        ProbeRunView { cwd: Some("/"@), env: seq![] },
        ProbeRunView { cwd: Some("/tmp"@), env: seq![] },
        ProbeRunView { cwd: None, env: seq![("TERM"@, "dumb"@), ("COLUMNS"@, "40"@)] },
        ProbeRunView {
            cwd: None,
            env: seq![("PATH"@, path + ":"@ + "/tmp/rig-eval-probe-does-not-exist"@)],
        },
        ProbeRunView { cwd: None, env: seq![("SHLVL"@, "9"@)] },
        plain_run(),
    ]
}

pub open spec fn run_views(v: Seq<ProbeRun>) -> Seq<ProbeRunView> {
    Seq::new(v.len(), |i: int| v[i]@)
}

fn bare_run(cwd: Option<String>) -> (r: ProbeRun)
    ensures
        r@ == (ProbeRunView { cwd: text::opt_text(cwd), env: seq![] }),
{
    let r = ProbeRun { cwd, env: Vec::new() };
    assert(text::pairs(r.env@) =~= seq![]);
    r
}

fn env_run(key: &str, value: String) -> (r: ProbeRun)
    ensures
        r@ == (ProbeRunView { cwd: None, env: seq![(key@, value@)] }),
{
    let ghost said = value@;
    let r = ProbeRun { cwd: None, env: vec![(key.to_owned(), value)] };
    assert(text::pairs(r.env@) =~= seq![(key@, said)]);
    r
}

/// The one run whose output is kept without a probe.
pub fn capture() -> (r: ProbeRun)
    ensures
        r@ == plain_run(),
{
    bare_run(None)
}

/// The runs of a probe, in order.
pub fn probe_runs(current_path: &str) -> (r: Vec<ProbeRun>)
    ensures
        run_views(r@) == run_list(current_path@),
{
    let mut term: Vec<(String, String)> = Vec::new();
    term.push(("TERM".to_owned(), "dumb".to_owned()));
    term.push(("COLUMNS".to_owned(), "40".to_owned()));
    assert(text::pairs(term@) =~= seq![("TERM"@, "dumb"@), ("COLUMNS"@, "40"@)]);
    let mut runs: Vec<ProbeRun> = Vec::new();
    runs.push(capture());
    runs.push(bare_run(Some("/".to_owned())));
    runs.push(bare_run(Some("/tmp".to_owned())));
    runs.push(ProbeRun { cwd: None, env: term });
    runs.push(
        env_run("PATH", strings::cat3(current_path, ":", "/tmp/rig-eval-probe-does-not-exist")),
    );
    runs.push(env_run("SHLVL", "9".to_owned()));
    runs.push(capture());
    assert(run_views(runs@) =~= run_list(current_path@));
    runs
}

/// What one run gave: its output, or an error if it failed.
pub fn run_outcome(cmd: &str, success: bool, status: &str, stdout: &str) -> (r: Result<
    String,
    Failure,
>)
    ensures
        failure::said(r) == if success {
            Ok::<Seq<char>, Seq<Seq<char>>>(stdout@)
        } else {
            Err(seq!["probe command failed ("@ + status@ + "): "@ + cmd@])
        },
{
    if success {
        Ok(stdout.to_owned())
    } else {
        Err(Failure::new(strings::cat4("probe command failed (", status, "): ", cmd)))
    }
}

/// The outputs of a probe's runs, in their order.
#[derive(Debug)]
pub struct Outputs {
    pub baseline: String,
    pub cwd_root: String,
    pub cwd_tmp: String,
    pub term_variant: String,
    pub path_variant: String,
    pub shlvl_variant: String,
    pub rerun: String,
}

/// A text, if a condition holds.
pub open spec fn when(condition: bool, s: Seq<char>) -> Seq<Seq<char>> {
    if condition {
        seq![s]
    } else {
        seq![]
    }
}

/// What the differences between runs say.
pub open spec fn run_hits(o: Outputs) -> Seq<Seq<char>> {
    when(o.cwd_root@ != o.cwd_tmp@, "cwd"@) + when(o.term_variant@ != o.baseline@, "TERM"@) + when(
        o.path_variant@ != o.baseline@,
        "PATH"@,
    ) + when(o.shlvl_variant@ != o.baseline@, "SHLVL"@) + when(
        o.rerun@ != o.baseline@,
        "nondeterministic"@,
    )
}

/// Whether a character can be part of a path.
pub open spec fn path_char(c: char) -> bool {
    text::unicode_alphanumeric(c) || c == '.' || c == '-' || c == '_' || c == '/'
}

pub fn is_path_char(ch: char) -> (r: bool)
    ensures
        r == path_char(ch),
{
    text::is_alphanumeric(ch) || ch == '.' || ch == '-' || ch == '_' || ch == '/'
}

/// Whether an occurrence of a path at a position stands for itself, not for
/// a part of a longer one.
pub open spec fn clean_at(output: Seq<char>, i: int, n: nat) -> bool {
    &&& i == 0 || !path_char(output[i - 1])
    &&& i + n == output.len() || output[i + n] == '/' || !path_char(output[i + n])
}

/// Whether one of the occurrences of a path from a position on is clean.
/// Occurrences are counted from the left and do not overlap.
pub open spec fn clean_from(output: Seq<char>, component: Seq<char>, from: int) -> bool
    decreases output.len() - from + 1,
{
    match text::occurrence_from(output, component, from) {
        Some(i) => if component.len() > 0 && from <= i && i + component.len() <= output.len() {
            clean_at(output, i, component.len()) || clean_from(
                output,
                component,
                i + component.len(),
            )
        } else {
            false
        },
        None => false,
    }
}

/// Whether a text names a path.
pub open spec fn names_path(output: Seq<char>, component: Seq<char>) -> bool {
    clean_from(output, component, 0)
}

/// Whether a text names a path, which may not be empty.
pub fn contains_path_component(output: &str, component: &str) -> (r: bool)
    requires
        component@.len() > 0,
    ensures
        r == names_path(output@, component@),
{
    let chars = strings::chars_of(output);
    let wanted = strings::chars_of(component);
    let mut from: usize = 0;
    loop
        invariant
            from <= chars.len(),
            chars@ == output@,
            wanted@ == component@,
            component@.len() > 0,
            names_path(output@, component@) == clean_from(output@, component@, from as int),
        decreases chars.len() - from,
    {
        proof {
            text::lemma_occurrence(output@, component@, from as int);
        }
        match strings::find_from(&chars, &wanted, from) {
            None => {
                return false;
            },
            Some(i) => {
                let total = chars.len();
                assert(text::occurs_at(output@, component@, i as int));
                let end: usize = i + wanted.len();
                let starts_clean = i == 0 || !is_path_char(chars[i - 1]);
                let ends_clean = end == total || chars[end] == '/' || !is_path_char(chars[end]);
                if starts_clean && ends_clean {
                    return true;
                }
                from = end;
            },
        }
    }
}

/// A path without the slashes at its end.
pub open spec fn bare_dir(p: Seq<char>) -> Seq<char> {
    text::trim_end(p, Class::Only('/'))
}

/// Whether one of several texts is a name that `mktemp` makes up.
pub open spec fn temp_name(word: Seq<char>) -> bool {
    word.len() > 4 && "tmp."@.is_prefix_of(word)
}

/// Whether a text names the directory for temporary files, or one of the
/// files in it.
pub open spec fn names_temp(output: Seq<char>, tmpdir: Seq<char>) -> bool {
    ||| bare_dir(tmpdir).len() > 0 && names_path(output, bare_dir(tmpdir))
    ||| exists|i: int|
        0 <= i < text::fields(output, Class::NotTempName).len() && temp_name(
            #[trigger] text::fields(output, Class::NotTempName)[i],
        )
}

pub fn contains_tmp_dir(output: &str, tmpdir: &str) -> (r: bool)
    ensures
        r == names_temp(output@, tmpdir@),
{
    let dir = strings::trim_end(tmpdir, Class::Only('/'));
    if dir.unicode_len() > 0 && contains_path_component(output, dir) {
        return true;
    }
    let words = strings::split(output, Class::NotTempName);
    let ghost all = text::fields(output@, Class::NotTempName);
    let mut i: usize = 0;
    while i < words.len()
        invariant
            i <= words.len(),
            all == text::fields(output@, Class::NotTempName),
            all == text::strs(words@),
            forall|j: int| 0 <= j < i ==> !temp_name(#[trigger] all[j]),
        decreases words.len() - i,
    {
        assert(all[i as int] == words@[i as int]@);
        if words[i].unicode_len() > 4 && strings::starts_with(words[i], "tmp.") {
            return true;
        }
        i += 1;
    }
    false
}

/// The directories of a `PATH`, without slashes at their ends.
pub open spec fn path_dirs(path: Seq<char>) -> Seq<Seq<char>> {
    let parts = text::fields(path, Class::Only(':'));
    Seq::new(parts.len(), |i: int| bare_dir(parts[i]))
}

/// How many different ones of several directories a text names.
pub open spec fn dirs_named(output: Seq<char>, dirs: Seq<Seq<char>>) -> nat
    decreases dirs.len(),
{
    if dirs.len() == 0 {
        0
    } else {
        let dir = dirs.last();
        let before = dirs_named(output, dirs.drop_last());
        if dir.len() > 0 && !dirs.drop_last().contains(dir) && names_path(output, dir) {
            before + 1
        } else {
            before
        }
    }
}

/// The directories that count: those that a text names, each once. The root
/// is none of them.
pub open spec fn named_set(output: Seq<char>, dirs: Seq<Seq<char>>) -> Set<Seq<char>> {
    dirs.to_set().filter(|dir: Seq<char>| dir.len() > 0 && names_path(output, dir))
}

/// What is counted is the number of different directories: writing one twice,
/// or with a slash at its end, changes nothing.
pub proof fn lemma_dirs_named(output: Seq<char>, dirs: Seq<Seq<char>>)
    ensures
        named_set(output, dirs).finite(),
        dirs_named(output, dirs) == named_set(output, dirs).len(),
    decreases dirs.len(),
{
    let counted = named_set(output, dirs);
    if dirs.len() == 0 {
        assert(counted =~= Set::empty());
    } else {
        let front = dirs.drop_last();
        let dir = dirs.last();
        lemma_dirs_named(output, front);
        assert(dirs =~= front.push(dir));
        assert forall|d: Seq<char>| dirs.contains(d) <==> front.contains(d) || d == dir by {
            if front.contains(d) {
                let i = choose|i: int| 0 <= i < front.len() && front[i] == d;
                assert(dirs[i] == d);
            }
            if dirs.contains(d) && d != dir {
                let i = choose|i: int| 0 <= i < dirs.len() && dirs[i] == d;
                assert(front[i] == d);
            }
            assert(dirs[dirs.len() - 1] == dir);
        }
        if dir.len() > 0 && names_path(output, dir) && !front.contains(dir) {
            assert(counted =~= named_set(output, front).insert(dir));
        } else {
            assert(counted =~= named_set(output, front));
        }
    }
}

/// How many different directories of a `PATH` a text names.
pub fn path_component_hits(output: &str, path: &str) -> (r: usize)
    ensures
        r == dirs_named(output@, path_dirs(path@)),
{
    let parts = strings::split(path, Class::Only(':'));
    let ghost dirs = path_dirs(path@);
    let mut seen: Vec<String> = Vec::new();
    let mut hits: usize = 0;
    let mut i: usize = 0;
    assert(dirs.take(0) =~= seq![]);
    assert(text::texts(seen@) =~= dirs.take(0));
    while i < parts.len()
        invariant
            i <= parts.len(),
            text::strs(parts@) == text::fields(path@, Class::Only(':')),
            dirs == path_dirs(path@),
            text::texts(seen@) == dirs.take(i as int),
            hits <= i,
            hits == dirs_named(output@, dirs.take(i as int)),
        decreases parts.len() - i,
    {
        assert(text::strs(parts@)[i as int] == parts@[i as int]@);
        let dir = strings::trim_end(parts[i], Class::Only('/'));
        assert(dirs[i as int] == dir@);
        if dir.unicode_len() > 0 && !strings::is_among(&seen, dir) && contains_path_component(
            output,
            dir,
        ) {
            hits += 1;
        }
        let ghost before = seen@;
        seen.push(dir.to_owned());
        assert(text::texts(seen@) =~= text::texts(before).push(dir@));
        i += 1;
        proof {
            assert(dirs.take(i as int).drop_last() =~= dirs.take(i - 1));
            assert(dirs.take(i as int) =~= dirs.take(i - 1).push(dir@));
        }
    }
    assert(dirs.take(i as int) =~= dirs);
    hits
}

/// What a text gives away of the session that it was made in.
pub open spec fn session_hits(
    output: Seq<char>,
    path: Seq<char>,
    tmpdir: Seq<char>,
    pid: u32,
) -> Seq<Seq<char>> {
    when(text::contains(output, "/run/user/"@), "content:/run/user/"@) + when(
        text::contains(output, "/proc/"@),
        "content:/proc/"@,
    ) + when(names_temp(output, tmpdir), "content:tmp-dir"@) + when(
        text::contains(output, text::decimal(pid as nat)),
        "content:pid"@,
    ) + when(dirs_named(output, path_dirs(path)) >= 3, "content:path-components"@)
}

fn push_when(out: &mut Vec<String>, condition: bool, s: &str)
    ensures
        text::texts(final(out)@) == text::texts(old(out)@) + when(condition, s@),
{
    let ghost before = out@;
    if condition {
        out.push(s.to_owned());
        assert(text::texts(out@) =~= text::texts(before) + seq![s@]);
    } else {
        assert(text::texts(out@) =~= text::texts(before) + seq![]);
    }
}

/// What the output gives away of the session that it was made in; the runs
/// that differ may not have touched it.
pub fn content_hits(output: &str, path: &str, tmpdir: &str, pid: u32) -> (r: Vec<String>)
    ensures
        text::texts(r@) == session_hits(output@, path@, tmpdir@, pid),
{
    let mut hits: Vec<String> = Vec::new();
    let ghost none = Seq::<Seq<char>>::empty();
    assert(text::texts(hits@) =~= none);
    assert(none + when(text::contains(output@, "/run/user/"@), "content:/run/user/"@) =~= when(
        text::contains(output@, "/run/user/"@),
        "content:/run/user/"@,
    ));
    push_when(&mut hits, strings::contains(output, "/run/user/"), "content:/run/user/");
    push_when(&mut hits, strings::contains(output, "/proc/"), "content:/proc/");
    push_when(&mut hits, contains_tmp_dir(output, tmpdir), "content:tmp-dir");
    let id = strings::decimal(pid as u64);
    push_when(&mut hits, strings::contains(output, id.as_str()), "content:pid");
    push_when(&mut hits, path_component_hits(output, path) >= 3, "content:path-components");
    hits
}

/// Everything that speaks against keeping the output.
pub open spec fn evidence(o: Outputs, path: Seq<char>, tmpdir: Seq<char>, pid: u32) -> Seq<
    Seq<char>,
> {
    run_hits(o) + session_hits(o.baseline@, path, tmpdir, pid)
}

fn differ(a: &String, b: &String) -> (r: bool)
    ensures
        r == (a@ != b@),
{
    !strings::same(a.as_str(), b.as_str())
}

/// Judges a command by the outputs of its runs.
pub fn probe(outputs: Outputs, current_path: &str, tmpdir: &str, pid: u32) -> (r: Probe)
    ensures
        text::texts(r.reasons@) == evidence(outputs, current_path@, tmpdir@, pid),
        r.cacheable == (r.reasons@.len() == 0),
        r.baseline_output@ == outputs.baseline@,
{
    let mut reasons: Vec<String> = Vec::new();
    let ghost none = Seq::<Seq<char>>::empty();
    assert(text::texts(reasons@) =~= none);
    assert(none + when(outputs.cwd_root@ != outputs.cwd_tmp@, "cwd"@) =~= when(
        outputs.cwd_root@ != outputs.cwd_tmp@,
        "cwd"@,
    ));
    push_when(&mut reasons, differ(&outputs.cwd_root, &outputs.cwd_tmp), "cwd");
    push_when(&mut reasons, differ(&outputs.term_variant, &outputs.baseline), "TERM");
    push_when(&mut reasons, differ(&outputs.path_variant, &outputs.baseline), "PATH");
    push_when(&mut reasons, differ(&outputs.shlvl_variant, &outputs.baseline), "SHLVL");
    push_when(&mut reasons, differ(&outputs.rerun, &outputs.baseline), "nondeterministic");
    let ghost so_far = text::texts(reasons@);
    let mut more = content_hits(outputs.baseline.as_str(), current_path, tmpdir, pid);
    let ghost hits = text::texts(more@);
    reasons.append(&mut more);
    assert(text::texts(reasons@) =~= so_far + hits);
    Probe { cacheable: reasons.len() == 0, reasons, baseline_output: outputs.baseline }
}

/// An output is kept only if no run differed and nothing of the session shows
/// in it: every judge has a veto, and none can overrule another.
pub proof fn lemma_every_judge_has_a_veto(o: Outputs, path: Seq<char>, tmpdir: Seq<char>, pid: u32)
    ensures
        evidence(o, path, tmpdir, pid).len() == 0 <==> {
            &&& o.cwd_root@ == o.cwd_tmp@
            &&& o.term_variant@ == o.baseline@
            &&& o.path_variant@ == o.baseline@
            &&& o.shlvl_variant@ == o.baseline@
            &&& o.rerun@ == o.baseline@
            &&& !text::contains(o.baseline@, "/run/user/"@)
            &&& !text::contains(o.baseline@, "/proc/"@)
            &&& !names_temp(o.baseline@, tmpdir)
            &&& !text::contains(o.baseline@, text::decimal(pid as nat))
            &&& dirs_named(o.baseline@, path_dirs(path)) < 3
        },
{
}

/// The runs of a probe begin and end as they are; in between, each changes one
/// thing: twice where it runs, once the terminal, once the `PATH`, which only
/// gets longer, and once the depth of the shell.
pub proof fn lemma_each_run_changes_one_thing(path: Seq<char>)
    ensures
        ({
            let runs = run_list(path);
            &&& runs.len() == 7
            &&& runs[0].cwd is None && runs[0].env.len() == 0
            &&& runs[6].cwd is None && runs[6].env.len() == 0
            &&& runs[1].cwd == Some("/"@) && runs[1].env.len() == 0
            &&& runs[2].cwd == Some("/tmp"@) && runs[2].env.len() == 0
            &&& runs[3].cwd is None && runs[3].env.len() == 2
            &&& runs[3].env[0] == ("TERM"@, "dumb"@)
            &&& runs[3].env[1] == ("COLUMNS"@, "40"@)
            &&& runs[4].cwd is None && runs[4].env.len() == 1
            &&& runs[4].env[0].0 == "PATH"@
            &&& (path + ":"@).is_prefix_of(runs[4].env[0].1)
            &&& runs[4].env[0].1.len() > path.len() + 1
            &&& runs[5].cwd is None && runs[5].env.len() == 1
            &&& runs[5].env[0] == ("SHLVL"@, "9"@)
        }),
{
    reveal_strlit(":");
    reveal_strlit("/tmp/rig-eval-probe-does-not-exist");
    let longer = path + ":"@ + "/tmp/rig-eval-probe-does-not-exist"@;
    assert(longer.take((path.len() + 1) as int) =~= path + ":"@);
}

proof fn lemma_in_sum(a: Seq<Seq<char>>, b: Seq<Seq<char>>, x: Seq<char>)
    ensures
        a.contains(x) || b.contains(x) ==> (a + b).contains(x),
{
    if a.contains(x) {
        let i = choose|i: int| 0 <= i < a.len() && a[i] == x;
        assert((a + b)[i] == x);
    }
    if b.contains(x) {
        let i = choose|i: int| 0 <= i < b.len() && b[i] == x;
        assert((a + b)[a.len() + i] == x);
    }
}

proof fn lemma_in_five(
    a: Seq<Seq<char>>,
    b: Seq<Seq<char>>,
    c: Seq<Seq<char>>,
    d: Seq<Seq<char>>,
    e: Seq<Seq<char>>,
    x: Seq<char>,
)
    ensures
        a.contains(x) || b.contains(x) || c.contains(x) || d.contains(x) || e.contains(x) ==> (a + b
            + c + d + e).contains(x),
{
    lemma_in_sum(a, b, x);
    lemma_in_sum(a + b, c, x);
    lemma_in_sum(a + b + c, d, x);
    lemma_in_sum(a + b + c + d, e, x);
}

/// How much a condition counts.
pub open spec fn one_if(condition: bool) -> int {
    if condition {
        1
    } else {
        0
    }
}

/// Each difference between runs is told by its own name, and nothing is told
/// without one.
pub proof fn lemma_differences_are_told(o: Outputs)
    ensures
        o.cwd_root@ != o.cwd_tmp@ ==> run_hits(o).contains("cwd"@),
        o.term_variant@ != o.baseline@ ==> run_hits(o).contains("TERM"@),
        o.path_variant@ != o.baseline@ ==> run_hits(o).contains("PATH"@),
        o.shlvl_variant@ != o.baseline@ ==> run_hits(o).contains("SHLVL"@),
        o.rerun@ != o.baseline@ ==> run_hits(o).contains("nondeterministic"@),
        run_hits(o).len() == one_if(o.cwd_root@ != o.cwd_tmp@) + one_if(
            o.term_variant@ != o.baseline@,
        ) + one_if(o.path_variant@ != o.baseline@) + one_if(o.shlvl_variant@ != o.baseline@)
            + one_if(o.rerun@ != o.baseline@),
{
    let a = when(o.cwd_root@ != o.cwd_tmp@, "cwd"@);
    let b = when(o.term_variant@ != o.baseline@, "TERM"@);
    let c = when(o.path_variant@ != o.baseline@, "PATH"@);
    let d = when(o.shlvl_variant@ != o.baseline@, "SHLVL"@);
    let e = when(o.rerun@ != o.baseline@, "nondeterministic"@);
    assert(a.len() > 0 ==> a[0] == "cwd"@);
    assert(b.len() > 0 ==> b[0] == "TERM"@);
    assert(c.len() > 0 ==> c[0] == "PATH"@);
    assert(d.len() > 0 ==> d[0] == "SHLVL"@);
    assert(e.len() > 0 ==> e[0] == "nondeterministic"@);
    lemma_in_five(a, b, c, d, e, "cwd"@);
    lemma_in_five(a, b, c, d, e, "TERM"@);
    lemma_in_five(a, b, c, d, e, "PATH"@);
    lemma_in_five(a, b, c, d, e, "SHLVL"@);
    lemma_in_five(a, b, c, d, e, "nondeterministic"@);
}

/// Each trace of the session in an output is told by its own name, and nothing
/// is told without one.
pub proof fn lemma_traces_are_told(output: Seq<char>, path: Seq<char>, tmpdir: Seq<char>, pid: u32)
    ensures
        ({
            let hits = session_hits(output, path, tmpdir, pid);
            let user = text::contains(output, "/run/user/"@);
            let proc = text::contains(output, "/proc/"@);
            let temp = names_temp(output, tmpdir);
            let id = text::contains(output, text::decimal(pid as nat));
            let dirs = dirs_named(output, path_dirs(path)) >= 3;
            &&& user ==> hits.contains("content:/run/user/"@)
            &&& proc ==> hits.contains("content:/proc/"@)
            &&& temp ==> hits.contains("content:tmp-dir"@)
            &&& id ==> hits.contains("content:pid"@)
            &&& dirs ==> hits.contains("content:path-components"@)
            &&& hits.len() == one_if(user) + one_if(proc) + one_if(temp) + one_if(id) + one_if(dirs)
        }),
{
    let a = when(text::contains(output, "/run/user/"@), "content:/run/user/"@);
    let b = when(text::contains(output, "/proc/"@), "content:/proc/"@);
    let c = when(names_temp(output, tmpdir), "content:tmp-dir"@);
    let d = when(text::contains(output, text::decimal(pid as nat)), "content:pid"@);
    let e = when(dirs_named(output, path_dirs(path)) >= 3, "content:path-components"@);
    assert(a.len() > 0 ==> a[0] == "content:/run/user/"@);
    assert(b.len() > 0 ==> b[0] == "content:/proc/"@);
    assert(c.len() > 0 ==> c[0] == "content:tmp-dir"@);
    assert(d.len() > 0 ==> d[0] == "content:pid"@);
    assert(e.len() > 0 ==> e[0] == "content:path-components"@);
    lemma_in_five(a, b, c, d, e, "content:/run/user/"@);
    lemma_in_five(a, b, c, d, e, "content:/proc/"@);
    lemma_in_five(a, b, c, d, e, "content:tmp-dir"@);
    lemma_in_five(a, b, c, d, e, "content:pid"@);
    lemma_in_five(a, b, c, d, e, "content:path-components"@);
}

proof fn lemma_clean_from(output: Seq<char>, component: Seq<char>, from: int)
    requires
        0 <= from,
        clean_from(output, component, from),
    ensures
        exists|i: int|
            {
                &&& from <= i
                &&& #[trigger] text::occurs_at(output, component, i)
                &&& clean_at(output, i, component.len())
            },
    decreases output.len() - from + 1,
{
    text::lemma_occurrence(output, component, from);
    let i = text::occurrence_from(output, component, from)->0;
    if !clean_at(output, i, component.len()) {
        lemma_clean_from(output, component, i + component.len());
        let k = choose|k: int|
            {
                &&& i + component.len() <= k
                &&& #[trigger] text::occurs_at(output, component, k)
                &&& clean_at(output, k, component.len())
            };
        assert(text::occurs_at(output, component, k));
    } else {
        assert(text::occurs_at(output, component, i));
    }
}

/// Whether a character belongs to a longer path beside it.
pub open spec fn joins_path(c: char) -> bool {
    text::unicode_alphanumeric(c) || c == '.' || c == '-' || c == '_' || c == '/'
}

/// A text names a path only where the path stands for itself: nothing that
/// belongs to a path comes before it, and nothing but a slash comes after it.
pub proof fn lemma_named_path_stands_alone(output: Seq<char>, component: Seq<char>)
    requires
        names_path(output, component),
    ensures
        exists|i: int|
            {
                &&& #[trigger] text::occurs_at(output, component, i)
                &&& i == 0 || !joins_path(output[i - 1])
                &&& i + component.len() == output.len() || output[i + component.len()] == '/'
                    || !joins_path(output[i + component.len()])
            },
{
    lemma_clean_from(output, component, 0);
    let i = choose|i: int|
        {
            &&& 0 <= i
            &&& #[trigger] text::occurs_at(output, component, i)
            &&& clean_at(output, i, component.len())
        };
    assert(text::occurs_at(output, component, i));
}

/// A path that stands for itself where it first occurs is named.
pub proof fn lemma_lone_path_is_named(output: Seq<char>, component: Seq<char>, i: int)
    requires
        component.len() > 0,
        text::occurs_at(output, component, i),
        forall|j: int| 0 <= j < i ==> !#[trigger] text::occurs_at(output, component, j),
        i == 0 || !joins_path(output[i - 1]),
        i + component.len() == output.len() || output[i + component.len()] == '/' || !joins_path(
            output[i + component.len()],
        ),
    ensures
        names_path(output, component),
{
    text::lemma_occurrence(output, component, 0);
    let k = text::occurrence_from(output, component, 0)->0;
    if k < i {
        assert(!text::occurs_at(output, component, k));
    } else if k > i {
        assert(!text::occurs_at(output, component, i));
    }
}

/// A made-up name gives a temporary file away wherever it stands.
pub proof fn lemma_temp_names_are_noticed(output: Seq<char>, tmpdir: Seq<char>, i: int)
    requires
        0 <= i < text::fields(output, Class::NotTempName).len(),
    ensures
        ({
            let word = text::fields(output, Class::NotTempName)[i];
            word.len() > 4 && word[0] == 't' && word[1] == 'm' && word[2] == 'p' && word[3] == '.'
                ==> names_temp(output, tmpdir)
        }),
{
    reveal_strlit("tmp.");
    let word = text::fields(output, Class::NotTempName)[i];
    if word.len() > 4 && word[0] == 't' && word[1] == 'm' && word[2] == 'p' && word[3] == '.' {
        assert(word.take(4) =~= "tmp."@);
        assert(temp_name(word));
    }
}

/// A text gives a temporary file away exactly if it names the directory for
/// such files, whether or not that is written with slashes at its end, or holds
/// a made-up name. The root is no such directory.
pub proof fn lemma_what_gives_temp_files_away(output: Seq<char>, tmpdir: Seq<char>)
    ensures
        names_temp(output, tmpdir) <==> {
            let dir = text::trim_end(tmpdir, Class::Only('/'));
            ||| dir.len() > 0 && names_path(output, dir)
            ||| exists|i: int|
                {
                    let word = text::fields(output, Class::NotTempName)[i];
                    &&& 0 <= i < text::fields(output, Class::NotTempName).len()
                    &&& temp_name(#[trigger] text::fields(output, Class::NotTempName)[i])
                    &&& word.len() > 4 && word[0] == 't' && word[1] == 'm' && word[2] == 'p'
                        && word[3] == '.'
                }
        },
{
    reveal_strlit("tmp.");
    let words = text::fields(output, Class::NotTempName);
    if exists|i: int| 0 <= i < words.len() && temp_name(#[trigger] words[i]) {
        let i = choose|i: int| 0 <= i < words.len() && temp_name(#[trigger] words[i]);
        let word = words[i];
        assert(word[0] == "tmp."@[0] && word[1] == "tmp."@[1] && word[2] == "tmp."@[2] && word[3]
            == "tmp."@[3]);
    }
}

/// The directories of a `PATH` are what stands between its colons, without
/// slashes at the end.
pub proof fn lemma_dirs_of_a_path(path: Seq<char>, i: int)
    requires
        0 <= i < text::fields(path, Class::Only(':')).len(),
    ensures
        path_dirs(path).len() == text::fields(path, Class::Only(':')).len(),
        path_dirs(path)[i] == text::trim_end(
            text::fields(path, Class::Only(':'))[i],
            Class::Only('/'),
        ),
{
}

} // verus!
