//! How the records of installed tools are read from the lock file, and how
//! they are written to it.

use vstd::prelude::*;

use crate::failure::Failure;
use crate::lock::Lock;
use crate::lock::ToolLock;
use crate::lock::ToolLockView;
use crate::stamp;
use crate::stamp::Timestamp;
use crate::strings;
use crate::table::Table;
use crate::text;
use crate::tree;
use crate::tree::Tree;

verus! {

/// What is wrong with the time of a record.
pub open spec fn stamp_problem(v: Option<Tree>, field: Seq<char>) -> Option<Seq<char>> {
    match v {
        Some(Tree::Text(s)) => if Timestamp::read(s@) is Some {
            None
        } else {
            Some(tree::invalid(field))
        },
        _ => tree::text_problem(v, field),
    }
}

fn need_stamp(v: Option<&Tree>, field: &str) -> (r: Result<Timestamp, String>)
    ensures
        match r {
            Ok(at) => stamp_problem(tree::found(v), field@) is None && Timestamp::read(
                tree::found(v)->0->Text_0@,
            ) == Some(at),
            Err(m) => stamp_problem(tree::found(v), field@) == Some(m@),
        },
{
    let s = match tree::need_text(v, field) {
        Ok(s) => s,
        Err(m) => {
            return Err(m);
        },
    };
    match Timestamp::parse(s.as_str()) {
        Some(at) => Ok(at),
        None => Err(tree::invalid_field(field)),
    }
}

/// What is wrong with a size that may be missing.
pub open spec fn size_problem(v: Option<Tree>, field: Seq<char>) -> Option<Seq<char>> {
    match v {
        None => None,
        Some(Tree::Integer(n)) => if 0 <= n <= u64::MAX {
            None
        } else {
            Some(tree::invalid(field))
        },
        Some(_) => Some(tree::invalid(field)),
    }
}

pub open spec fn size_of_field(v: Option<Tree>) -> Option<u64> {
    match v {
        Some(Tree::Integer(n)) => Some(n as u64),
        _ => None,
    }
}

fn may_size(v: Option<&Tree>, field: &str) -> (r: Result<Option<u64>, String>)
    ensures
        match r {
            Ok(n) => size_problem(tree::found(v), field@) is None && n == size_of_field(
                tree::found(v),
            ),
            Err(m) => size_problem(tree::found(v), field@) == Some(m@),
        },
{
    match v {
        None => Ok(None),
        Some(Tree::Integer(n)) => if 0 <= *n && *n <= u64::MAX as i128 {
            Ok(Some(*n as u64))
        } else {
            Err(tree::invalid_field(field))
        },
        Some(_) => Err(tree::invalid_field(field)),
    }
}

/// The first problem with a record: a field that has to be there and is not,
/// or one that holds something else than it should. Other fields do not
/// matter. A list of the fields, down to `eval_cached_output` at least, will do
/// too.
pub open spec fn tool_problem(t: Tree) -> Option<Seq<char>> {
    if !t.has_parts() {
        Some(tree::invalid("tool"@))
    } else if tree::length_problem(t, 12, None) is Some {
        tree::length_problem(t, 12, None)
    } else {
        tree::or_else(
            tree::text_problem(t.part("version"@, 0), "version"@),
            tree::or_else(
                tree::text_problem(t.part("source"@, 1), "source"@),
                tree::or_else(
                    stamp_problem(t.part("installed_at"@, 2), "installed_at"@),
                    tree::or_else(
                        tree::list_problem(t.part("bins"@, 3), "bins"@),
                        tree::or_else(
                            tree::opt_list_problem(t.part("completions"@, 4), "completions"@),
                            tree::or_else(
                                tree::opt_text_problem(t.part("asset"@, 5), "asset"@),
                                tree::or_else(size_problem(t.part("size"@, 6), "size"@), late_problem(t)),
                            ),
                        ),
                    ),
                ),
            ),
        )
    }
}

/// The first problem with the fields after `size`.
pub open spec fn late_problem(t: Tree) -> Option<Seq<char>> {
    tree::or_else(
        tree::opt_text_problem(t.part("pkg"@, 7), "pkg"@),
        tree::or_else(
            tree::opt_text_problem(t.part("manager"@, 8), "manager"@),
            tree::or_else(
                tree::opt_text_problem(t.part("root"@, 9), "root"@),
                tree::or_else(
                    tree::opt_bool_problem(t.part("eval_cacheable"@, 10), "eval_cacheable"@),
                    tree::or_else(
                        tree::opt_text_problem(t.part("eval_cached_output"@, 11), "eval_cached_output"@),
                        tree::opt_list_problem(t.part("eval_evidence"@, 12), "eval_evidence"@),
                    ),
                ),
            ),
        ),
    )
}

/// The record that a tree without a problem stands for.
pub open spec fn tool_of(t: Tree) -> ToolLockView {
    ToolLockView {
        version: t.part("version"@, 0)->0->Text_0@,
        source: t.part("source"@, 1)->0->Text_0@,
        installed_at: Timestamp::read(t.part("installed_at"@, 2)->0->Text_0@)->0,
        bins: tree::list_of(t.part("bins"@, 3)),
        completions: tree::list_of(t.part("completions"@, 4)),
        asset: tree::opt_text_of(t.part("asset"@, 5)),
        size: size_of_field(t.part("size"@, 6)),
        pkg: tree::opt_text_of(t.part("pkg"@, 7)),
        manager: tree::opt_text_of(t.part("manager"@, 8)),
        root: tree::opt_text_of(t.part("root"@, 9)),
        eval_cacheable: tree::opt_bool_of(t.part("eval_cacheable"@, 10)),
        eval_cached_output: tree::opt_text_of(t.part("eval_cached_output"@, 11)),
        eval_evidence: tree::list_of(t.part("eval_evidence"@, 12)),
    }
}

/// Reads one record.
pub fn parse_tool(t: &Tree) -> (r: Result<ToolLock, String>)
    ensures
        match r {
            Ok(tool) => tool_problem(*t) is None && tool@ == tool_of(*t),
            Err(m) => tool_problem(*t) == Some(m@),
        },
{
    if !t.is_branch_or_list() {
        return Err(tree::invalid_field("tool"));
    }
    tree::check_length(t, 12, None)?;
    let version = tree::need_text(t.get_part("version", 0), "version")?;
    let source = tree::need_text(t.get_part("source", 1), "source")?;
    let installed_at = need_stamp(t.get_part("installed_at", 2), "installed_at")?;
    let bins = tree::need_list(t.get_part("bins", 3), "bins")?;
    let completions = tree::may_list(t.get_part("completions", 4), "completions")?;
    let asset = tree::may_text(t.get_part("asset", 5), "asset")?;
    let size = may_size(t.get_part("size", 6), "size")?;
    let pkg = tree::may_text(t.get_part("pkg", 7), "pkg")?;
    let manager = tree::may_text(t.get_part("manager", 8), "manager")?;
    let root = tree::may_text(t.get_part("root", 9), "root")?;
    let eval_cacheable = tree::may_bool(t.get_part("eval_cacheable", 10), "eval_cacheable")?;
    let eval_cached_output = tree::may_text(t.get_part("eval_cached_output", 11), "eval_cached_output")?;
    let eval_evidence = tree::may_list(t.get_part("eval_evidence", 12), "eval_evidence")?;
    Ok(
        ToolLock {
            version,
            source,
            installed_at,
            bins,
            completions,
            asset,
            size,
            pkg,
            manager,
            root,
            eval_cacheable,
            eval_cached_output,
            eval_evidence,
        },
    )
}

/// What is said of a record that has a problem.
pub open spec fn in_tool(key: Seq<char>, problem: Seq<char>) -> Seq<char> {
    "in `tool."@ + key + "`: "@ + problem
}

/// The first problem among the records with some keys.
pub open spec fn tools_problem(keys: Seq<Seq<char>>, m: Map<Seq<char>, Tree>) -> Option<Seq<char>>
    decreases keys.len(),
{
    if keys.len() == 0 {
        None
    } else {
        match tool_problem(m[keys[0]]) {
            Some(problem) => Some(in_tool(keys[0], problem)),
            None => tools_problem(keys.skip(1), m),
        }
    }
}

/// The first problem with what a lock file holds.
pub open spec fn lock_problem(t: Tree) -> Option<Seq<char>> {
    if !(t is Branch) {
        Some(tree::invalid("rig.lock"@))
    } else {
        match t.field("tool"@) {
            None => None,
            Some(Tree::Branch(tools)) => tools_problem(tools.keys(), tools@),
            Some(_) => Some(tree::invalid("tool"@)),
        }
    }
}

/// The records that a lock file without a problem holds.
pub open spec fn lock_of(t: Tree) -> Map<Seq<char>, ToolLockView> {
    match t.field("tool"@) {
        Some(Tree::Branch(tools)) => tools@.map_values(|tool: Tree| tool_of(tool)),
        _ => Map::empty(),
    }
}

fn parse_tools(tools: &Table<Tree>) -> (r: Result<Lock, String>)
    ensures
        match r {
            Ok(lock) => tools_problem(tools.keys(), tools@) is None && lock@ == tools@.map_values(
                |tool: Tree| tool_of(tool),
            ),
            Err(m) => tools_problem(tools.keys(), tools@) == Some(m@),
        },
{
    let ghost keys = tools.keys();
    let ghost m = tools@;
    let mut tool: Table<ToolLock> = Table::new();
    let n = tools.len();
    let mut i: usize = 0;
    assert(keys.skip(0) =~= keys);
    while i < n
        invariant
            i <= n,
            n == tools.keys().len(),
            keys == tools.keys(),
            m == tools@,
            tools_problem(keys, m) == tools_problem(keys.skip(i as int), m),
            forall|k: Seq<char>|
                #![trigger tool@.dom().contains(k)]
                tool@.dom().contains(k) <==> keys.take(i as int).contains(k),
            forall|k: Seq<char>|
                #![trigger tool@.dom().contains(k)]
                tool@.dom().contains(k) ==> m.dom().contains(k) && tool@[k]@ == tool_of(m[k]),
        decreases n - i,
    {
        let key = tools.key(i);
        let value = tools.value(i);
        proof {
            assert(keys.skip(i as int)[0] == key@);
            assert(keys.skip(i as int).skip(1) =~= keys.skip(i + 1));
        }
        match parse_tool(value) {
            Ok(parsed) => {
                tool.insert(key.to_owned(), parsed);
            },
            Err(problem) => {
                return Err(strings::cat4("in `tool.", key, "`: ", problem.as_str()));
            },
        }
        i += 1;
        proof {
            let k = keys[i - 1];
            assert(keys.take(i as int) =~= keys.take(i - 1).push(k));
            assert forall|other: Seq<char>|
                keys.take(i as int).contains(other) <==> keys.take(i - 1).contains(other) || other
                    == k by {
                text::lemma_push_contains(keys.take(i - 1), k, other);
            }
        }
    }
    let lock = Lock { tool };
    proof {
        assert(keys.take(i as int) =~= keys);
        let wanted = m.map_values(|tool: Tree| tool_of(tool));
        assert forall|k: Seq<char>| #[trigger] lock@.dom().contains(k) <==> wanted.dom().contains(
            k,
        ) by {
            assert(lock.tool@.dom().contains(k) <==> keys.contains(k));
        }
        assert forall|k: Seq<char>| #[trigger] lock@.dom().contains(k) implies lock@[k]
            == wanted[k] by {
            assert(lock.tool@.dom().contains(k));
        }
        assert(lock@ =~= wanted);
    }
    Ok(lock)
}

/// Reads the records of a lock file. It fails if and only if there is a
/// problem with what the file holds, and says which.
pub fn parse(t: &Tree) -> (r: Result<Lock, Failure>)
    ensures
        match r {
            Ok(lock) => lock_problem(*t) is None && lock@ == lock_of(*t),
            Err(e) => lock_problem(*t) is Some && e@ == seq![
                "failed to parse rig.lock"@,
                lock_problem(*t)->0,
            ],
        },
{
    let parsed = if !t.is_branch() {
        Err(tree::invalid_field("rig.lock"))
    } else {
        match t.get("tool") {
            None => Ok(Lock::default()),
            Some(Tree::Branch(tools)) => parse_tools(tools),
            Some(_) => Err(tree::invalid_field("tool")),
        }
    };
    match parsed {
        Ok(lock) => Ok(lock),
        Err(problem) => Err(Failure::new(problem).context("failed to parse rig.lock".to_owned())),
    }
}

/// Whether a field holds a text, or is missing where there is none.
pub open spec fn holds_text(v: Option<Tree>, s: Option<Seq<char>>) -> bool {
    match s {
        Some(s) => v == Some(Tree::Text(v->0->Text_0)) && v->0->Text_0@ == s,
        None => v is None,
    }
}

/// Whether a field holds a list of texts.
pub open spec fn holds_list(v: Option<Tree>, items: Seq<Seq<char>>) -> bool {
    v is Some && v->0 is List && tree::opt_list_ok(v) && tree::list_of(v) == items
}

/// Whether a field holds a list of texts, or is missing where the list is
/// empty.
pub open spec fn holds_some(v: Option<Tree>, items: Seq<Seq<char>>) -> bool {
    if items.len() == 0 {
        v is None
    } else {
        holds_list(v, items)
    }
}

/// The fields of a record.
pub open spec fn field_names() -> Set<Seq<char>> {
    set![
        "version"@,
        "source"@,
        "installed_at"@,
        "bins"@,
        "completions"@,
        "asset"@,
        "size"@,
        "pkg"@,
        "manager"@,
        "root"@,
        "eval_cacheable"@,
        "eval_cached_output"@,
        "eval_evidence"@,
    ]
}

/// Whether a map is the written form of a record: a field for each thing that
/// the record holds, and no others.
pub open spec fn writes_fields(m: Map<Seq<char>, Tree>, v: ToolLockView) -> bool {
    &&& holds_text(tree::slot(m, "version"@), Some(v.version))
    &&& holds_text(tree::slot(m, "source"@), Some(v.source))
    &&& holds_text(
        tree::slot(m, "installed_at"@),
        stamp::rfc3339_text(v.installed_at.nanos, v.installed_at.offset),
    )
    &&& tree::slot(m, "installed_at"@) is Some
    &&& Timestamp::read(tree::slot(m, "installed_at"@)->0->Text_0@) == Some(v.installed_at)
    &&& holds_list(tree::slot(m, "bins"@), v.bins)
    &&& holds_some(tree::slot(m, "completions"@), v.completions)
    &&& holds_text(tree::slot(m, "asset"@), v.asset)
    &&& match v.size {
        Some(n) => tree::slot(m, "size"@) == Some(Tree::Integer(n as i128)),
        None => tree::slot(m, "size"@) is None,
    }
    &&& holds_text(tree::slot(m, "pkg"@), v.pkg)
    &&& holds_text(tree::slot(m, "manager"@), v.manager)
    &&& holds_text(tree::slot(m, "root"@), v.root)
    &&& match v.eval_cacheable {
        Some(b) => tree::slot(m, "eval_cacheable"@) == Some(Tree::Bool(b)),
        None => tree::slot(m, "eval_cacheable"@) is None,
    }
    &&& holds_text(tree::slot(m, "eval_cached_output"@), v.eval_cached_output)
    &&& holds_some(tree::slot(m, "eval_evidence"@), v.eval_evidence)
    &&& m.dom().subset_of(field_names())
}

/// Why a record has no written form: the time may be out of the range of
/// RFC 3339.
pub open spec fn unwritable(v: ToolLockView) -> Option<Seq<char>> {
    if stamp::rfc3339_text(v.installed_at.nanos, v.installed_at.offset) is None {
        Some(tree::invalid("installed_at"@))
    } else {
        None
    }
}

/// Whether two maps differ at most in one key.
pub open spec fn same_but(
    a: Map<Seq<char>, Tree>,
    b: Map<Seq<char>, Tree>,
    key: Seq<char>,
) -> bool {
    forall|k: Seq<char>| k != key ==> #[trigger] tree::slot(b, k) == tree::slot(a, k)
}

fn text_items(v: &Vec<String>) -> (r: Vec<Tree>)
    ensures
        tree::all_text(r@),
        tree::texts_of(r@) == text::texts(v@),
{
    let ghost wanted = text::texts(v@);
    let mut out: Vec<Tree> = Vec::new();
    let mut i: usize = 0;
    assert(tree::texts_of(out@) =~= wanted.take(0));
    while i < v.len()
        invariant
            i <= v.len(),
            wanted == text::texts(v@),
            tree::all_text(out@),
            tree::texts_of(out@) == wanted.take(i as int),
        decreases v.len() - i,
    {
        let ghost before = out@;
        out.push(Tree::Text(v[i].as_str().to_owned()));
        proof {
            assert(tree::texts_of(out@) =~= tree::texts_of(before).push(wanted[i as int]));
            assert(wanted.take(i + 1) =~= wanted.take(i as int).push(wanted[i as int]));
        }
        i += 1;
    }
    assert(wanted.take(i as int) =~= wanted);
    out
}

fn put(m: &mut Table<Tree>, field: &str, value: Tree)
    ensures
        same_but(old(m)@, final(m)@, field@),
        tree::slot(final(m)@, field@) == Some(value),
{
    m.insert(field.to_owned(), value);
}

fn put_text(m: &mut Table<Tree>, field: &str, value: &Option<String>)
    requires
        tree::slot(old(m)@, field@) is None,
    ensures
        same_but(old(m)@, final(m)@, field@),
        holds_text(tree::slot(final(m)@, field@), text::opt_text(*value)),
{
    if let Some(s) = value {
        put(m, field, Tree::Text(s.as_str().to_owned()));
    }
}

fn put_list(m: &mut Table<Tree>, field: &str, value: &Vec<String>)
    requires
        tree::slot(old(m)@, field@) is None,
    ensures
        same_but(old(m)@, final(m)@, field@),
        holds_some(tree::slot(final(m)@, field@), text::texts(value@)),
{
    if value.len() > 0 {
        put(m, field, Tree::List(text_items(value)));
    }
}

/// No two fields of a record have the same name.
proof fn lemma_names_differ()
    ensures
        "version"@ != "manager"@,
        "bins"@ != "size"@,
        "bins"@ != "root"@,
        "size"@ != "root"@,
        "version"@.len() == 7,
        "source"@.len() == 6,
        "installed_at"@.len() == 12,
        "bins"@.len() == 4,
        "completions"@.len() == 11,
        "asset"@.len() == 5,
        "size"@.len() == 4,
        "pkg"@.len() == 3,
        "manager"@.len() == 7,
        "root"@.len() == 4,
        "eval_cacheable"@.len() == 14,
        "eval_cached_output"@.len() == 18,
        "eval_evidence"@.len() == 13,
{
    reveal_strlit("version");
    reveal_strlit("source");
    reveal_strlit("installed_at");
    reveal_strlit("bins");
    reveal_strlit("completions");
    reveal_strlit("asset");
    reveal_strlit("size");
    reveal_strlit("pkg");
    reveal_strlit("manager");
    reveal_strlit("root");
    reveal_strlit("eval_cacheable");
    reveal_strlit("eval_cached_output");
    reveal_strlit("eval_evidence");
    assert("version"@[0] != "manager"@[0]);
    assert("bins"@[0] != "size"@[0]);
    assert("bins"@[0] != "root"@[0]);
    assert("size"@[0] != "root"@[0]);
}

/// The written form of one record.
pub fn write_tool(tool: &ToolLock) -> (r: Result<Table<Tree>, String>)
    ensures
        match r {
            Ok(m) => unwritable(tool@) is None && writes_fields(m@, tool@),
            Err(problem) => unwritable(tool@) == Some(problem@),
        },
{
    let installed_at = match tool.installed_at.to_text() {
        Some(s) => s,
        None => {
            return Err(tree::invalid_field("installed_at"));
        },
    };
    proof {
        lemma_names_differ();
    }
    let mut m: Table<Tree> = Table::new();
    put(&mut m, "version", Tree::Text(tool.version.as_str().to_owned()));
    put(&mut m, "source", Tree::Text(tool.source.as_str().to_owned()));
    put(&mut m, "installed_at", Tree::Text(installed_at));
    put(&mut m, "bins", Tree::List(text_items(&tool.bins)));
    put_list(&mut m, "completions", &tool.completions);
    put_text(&mut m, "asset", &tool.asset);
    if let Some(n) = tool.size {
        put(&mut m, "size", Tree::Integer(n as i128));
    }
    put_text(&mut m, "pkg", &tool.pkg);
    put_text(&mut m, "manager", &tool.manager);
    put_text(&mut m, "root", &tool.root);
    if let Some(b) = tool.eval_cacheable {
        put(&mut m, "eval_cacheable", Tree::Bool(b));
    }
    put_text(&mut m, "eval_cached_output", &tool.eval_cached_output);
    put_list(&mut m, "eval_evidence", &tool.eval_evidence);
    proof {
        assert forall|k: Seq<char>| m@.dom().contains(k) implies field_names().contains(k) by {
            assert(tree::slot(m@, k) is Some);
        }
    }
    Ok(m)
}

/// Why some records have no written form: the first that has none.
pub open spec fn tools_unwritable(
    keys: Seq<Seq<char>>,
    tools: Map<Seq<char>, ToolLockView>,
) -> Option<Seq<char>>
    decreases keys.len(),
{
    if keys.len() == 0 {
        None
    } else {
        match unwritable(tools[keys[0]]) {
            Some(problem) => Some(in_tool(keys[0], problem)),
            None => tools_unwritable(keys.skip(1), tools),
        }
    }
}

/// Whether a tree is the written form of a record.
pub open spec fn writes_tool(t: Tree, v: ToolLockView) -> bool {
    t is Branch && writes_fields(t->Branch_0@, v)
}

/// Whether a tree is the written form of records.
pub open spec fn writes(t: Tree, lock: Map<Seq<char>, ToolLockView>) -> bool {
    &&& t is Branch
    &&& t->Branch_0@.dom() == set!["tool"@]
    &&& t->Branch_0@["tool"@] is Branch
    &&& t->Branch_0@["tool"@]->Branch_0@.dom() == lock.dom()
    &&& forall|k: Seq<char>|
        #[trigger] lock.dom().contains(k) ==> writes_tool(
            t->Branch_0@["tool"@]->Branch_0@[k],
            lock[k],
        )
}

/// The written form of all records. It fails if and only if one of them has
/// none.
pub fn write(lock: &Lock) -> (r: Result<Tree, Failure>)
    ensures
        match r {
            Ok(t) => tools_unwritable(lock.tool.keys(), lock@) is None && writes(t, lock@),
            Err(e) => tools_unwritable(lock.tool.keys(), lock@) is Some && e@ == seq![
                "failed to serialize rig.lock"@,
                tools_unwritable(lock.tool.keys(), lock@)->0,
            ],
        },
{
    let ghost keys = lock.tool.keys();
    let ghost m = lock@;
    let mut tools: Table<Tree> = Table::new();
    let n = lock.tool.len();
    let mut i: usize = 0;
    assert(keys.skip(0) =~= keys);
    while i < n
        invariant
            i <= n,
            n == lock.tool.keys().len(),
            keys == lock.tool.keys(),
            m == lock@,
            tools_unwritable(keys, m) == tools_unwritable(keys.skip(i as int), m),
            forall|k: Seq<char>|
                #![trigger tools@.dom().contains(k)]
                tools@.dom().contains(k) <==> keys.take(i as int).contains(k),
            forall|k: Seq<char>|
                #![trigger tools@.dom().contains(k)]
                tools@.dom().contains(k) ==> m.dom().contains(k) && writes_tool(tools@[k], m[k]),
        decreases n - i,
    {
        let key = lock.tool.key(i);
        let value = lock.tool.value(i);
        proof {
            assert(keys.skip(i as int)[0] == key@);
            assert(keys.skip(i as int).skip(1) =~= keys.skip(i + 1));
            assert(m.dom().contains(key@));
            assert(m[key@] == value@);
        }
        match write_tool(value) {
            Ok(written) => {
                tools.insert(key.to_owned(), Tree::Branch(written));
            },
            Err(problem) => {
                let detail = strings::cat4("in `tool.", key, "`: ", problem.as_str());
                return Err(
                    Failure::new(detail).context("failed to serialize rig.lock".to_owned()),
                );
            },
        }
        i += 1;
        proof {
            let k = keys[i - 1];
            assert(keys.take(i as int) =~= keys.take(i - 1).push(k));
            assert forall|other: Seq<char>|
                keys.take(i as int).contains(other) <==> keys.take(i - 1).contains(other) || other
                    == k by {
                text::lemma_push_contains(keys.take(i - 1), k, other);
            }
        }
    }
    let ghost written = tools@;
    let mut top: Table<Tree> = Table::new();
    top.insert("tool".to_owned(), Tree::Branch(tools));
    proof {
        assert(keys.take(i as int) =~= keys);
        assert forall|k: Seq<char>| written.dom().contains(k) <==> m.dom().contains(k) by {
            assert(m.dom().contains(k) <==> lock.tool@.dom().contains(k));
        }
        assert(written.dom() =~= m.dom());
        assert forall|k: Seq<char>| #[trigger] m.dom().contains(k) implies writes_tool(
            written[k],
            m[k],
        ) by {
            assert(written.dom().contains(k));
        }
        assert(top@.dom() =~= set!["tool"@]);
    }
    Ok(Tree::Branch(top))
}

/// What was written of a record is read back as that record.
proof fn lemma_tool_read_back(t: Tree, v: ToolLockView)
    requires
        writes_tool(t, v),
    ensures
        tool_problem(t) is None,
        tool_of(t) == v,
{
    assert(tool_of(t).bins =~= v.bins);
    assert(tool_of(t).completions =~= v.completions);
    assert(tool_of(t).eval_evidence =~= v.eval_evidence);
}

proof fn lemma_no_problem(keys: Seq<Seq<char>>, m: Map<Seq<char>, Tree>)
    requires
        forall|i: int| 0 <= i < keys.len() ==> tool_problem(m[#[trigger] keys[i]]) is None,
    ensures
        tools_problem(keys, m) is None,
    decreases keys.len(),
{
    if keys.len() > 0 {
        assert forall|i: int| 0 <= i < keys.skip(1).len() implies tool_problem(
            m[#[trigger] keys.skip(1)[i]],
        ) is None by {
            assert(keys.skip(1)[i] == keys[i + 1]);
        }
        lemma_no_problem(keys.skip(1), m);
    }
}

/// Reading what was written gives the same records: whatever `write` returns
/// for some records, `parse` accepts it and returns those records.
pub proof fn lemma_read_back(t: Tree, lock: Map<Seq<char>, ToolLockView>)
    requires
        writes(t, lock),
    ensures
        lock_problem(t) is None,
        lock_of(t) == lock,
{
    let tools = t->Branch_0@["tool"@]->Branch_0;
    assert(t->Branch_0@.dom().contains("tool"@));
    let keys = tools.keys();
    assert forall|k: Seq<char>| #[trigger] lock.dom().contains(k) implies tool_problem(tools@[k]) is
        None && tool_of(tools@[k]) == lock[k] by {
        lemma_tool_read_back(tools@[k], lock[k]);
    }
    assert forall|i: int| 0 <= i < keys.len() implies tool_problem(
        tools@[#[trigger] keys[i]],
    ) is None by {
        assert(tools@.dom().contains(keys[i]));
        assert(lock.dom().contains(keys[i]));
    }
    lemma_no_problem(keys, tools@);
    assert(lock_of(t) =~= lock);
}

/// Every field of a record is read from the field of its own name.
pub proof fn lemma_fields_of_a_record(t: Tree)
    requires
        t is Branch,
        tool_problem(t) is None,
    ensures
        ({
            let v = tool_of(t);
            &&& Some(v.version) == tree::opt_text_of(t.field("version"@))
            &&& Some(v.source) == tree::opt_text_of(t.field("source"@))
            &&& v.bins == tree::list_of(t.field("bins"@))
            &&& v.completions == tree::list_of(t.field("completions"@))
            &&& v.asset == tree::opt_text_of(t.field("asset"@))
            &&& v.pkg == tree::opt_text_of(t.field("pkg"@))
            &&& v.manager == tree::opt_text_of(t.field("manager"@))
            &&& v.root == tree::opt_text_of(t.field("root"@))
            &&& v.eval_cacheable == tree::opt_bool_of(t.field("eval_cacheable"@))
            &&& v.eval_cached_output == tree::opt_text_of(t.field("eval_cached_output"@))
            &&& v.eval_evidence == tree::list_of(t.field("eval_evidence"@))
            &&& t.field("size"@) matches Some(Tree::Integer(n)) ==> v.size is Some && v.size->0 == n
            &&& t.field("size"@) is None ==> v.size is None
            &&& Some(v.installed_at) == Timestamp::read(
                tree::opt_text_of(t.field("installed_at"@))->0,
            )
        }),
{
}

/// A record needs its version, its source, its time and its commands, and
/// nothing else.
pub proof fn lemma_what_a_record_needs(t: Tree)
    requires
        t is Branch,
    ensures
        t.field("version"@) is None ==> tool_problem(t) is Some,
        t.field("source"@) is None ==> tool_problem(t) is Some,
        t.field("installed_at"@) is None ==> tool_problem(t) is Some,
        t.field("bins"@) is None ==> tool_problem(t) is Some,
{
}

/// There is a record exactly for each tool of the file.
pub proof fn lemma_every_record_is_read(t: Tree, k: Seq<char>)
    ensures
        lock_of(t).contains_key(k) <==> t.field("tool"@) is Some && t.field("tool"@)->0.field(k)
            is Some,
        lock_of(t).contains_key(k) ==> lock_of(t)[k] == tool_of(t.field("tool"@)->0.field(k)->0),
{
}

} // verus!
