//! Structured text, once it has been read: what a TOML or JSON document holds,
//! as far as anything here looks at it.

use vstd::prelude::*;

use crate::strings;
use crate::table::Table;
use crate::text;

verus! {

#[derive(Debug)]
pub enum Tree {
    Text(String),
    Integer(i128),
    Bool(bool),
    Null,
    List(Vec<Tree>),
    Branch(Table<Tree>),
    /// Anything else, such as a number with a fraction.
    Other,
}

/// Whether all of several values are texts.
pub open spec fn all_text(items: Seq<Tree>) -> bool {
    forall|i: int| 0 <= i < items.len() ==> (#[trigger] items[i]) is Text
}

/// The texts of values that are texts.
pub open spec fn texts_of(items: Seq<Tree>) -> Seq<Seq<char>> {
    Seq::new(items.len(), |i: int| items[i]->Text_0@)
}

/// Whether all values of a map are texts.
pub open spec fn branch_text(m: Map<Seq<char>, Tree>) -> bool {
    forall|k: Seq<char>| #[trigger] m.dom().contains(k) ==> m[k] is Text
}

/// Whether one map holds the texts of another.
pub open spec fn same_texts(m: Map<Seq<char>, Tree>, t: Map<Seq<char>, String>) -> bool {
    &&& t.dom() == m.dom()
    &&& forall|k: Seq<char>|
        #[trigger] m.dom().contains(k) ==> m[k] is Text && t[k]@ == m[k]->Text_0@
}

/// What a map holds under a key.
pub open spec fn slot(m: Map<Seq<char>, Tree>, key: Seq<char>) -> Option<Tree> {
    if m.dom().contains(key) {
        Some(m[key])
    } else {
        None
    }
}

/// What was found at some place.
pub open spec fn found(v: Option<&Tree>) -> Option<Tree> {
    match v {
        Some(t) => Some(*t),
        None => None,
    }
}

/// Whether a value is a list or a branch without anything in it.
pub open spec fn hollow(t: Tree) -> bool {
    match t {
        Tree::List(items) => items@.len() == 0,
        Tree::Branch(b) => b.keys().len() == 0,
        _ => false,
    }
}

impl Tree {
    /// The value of a field.
    pub open spec fn field(self, name: Seq<char>) -> Option<Tree> {
        match self {
            Tree::Branch(t) => slot(t@, name),
            _ => None,
        }
    }

    /// The value of a field.
    pub fn get(&self, name: &str) -> (r: Option<&Tree>)
        ensures
            found(r) == self.field(name@),
    {
        match self {
            Tree::Branch(t) => t.get(name),
            _ => None,
        }
    }

    /// The value of a field of something that may also be written as a list of
    /// its fields: under its name in a branch, at its place in a list.
    pub open spec fn part(self, name: Seq<char>, place: nat) -> Option<Tree> {
        match self {
            Tree::List(items) => if place < items@.len() {
                Some(items@[place as int])
            } else {
                None
            },
            _ => self.field(name),
        }
    }

    pub fn get_part(&self, name: &str, place: usize) -> (r: Option<&Tree>)
        ensures
            found(r) == self.part(name@, place as nat),
    {
        match self {
            Tree::List(items) => if place < items.len() {
                Some(&items[place])
            } else {
                None
            },
            _ => self.get(name),
        }
    }

    /// Whether this is something with fields: a branch, or a list of them.
    pub open spec fn has_parts(self) -> bool {
        self is Branch || self is List
    }

    pub fn is_branch_or_list(&self) -> (r: bool)
        ensures
            r == self.has_parts(),
    {
        match self {
            Tree::Branch(_) => true,
            Tree::List(_) => true,
            _ => false,
        }
    }

    /// The name of a choice: a text, or the one key of a branch with nothing
    /// under it.
    pub open spec fn choice(self) -> Option<Seq<char>> {
        match self {
            Tree::Text(s) => Some(s@),
            Tree::Branch(t) => if t.keys().len() == 1 && hollow(t.values()[0]) {
                Some(t.keys()[0])
            } else {
                None
            },
            _ => None,
        }
    }

    pub fn get_choice(&self) -> (r: Option<&str>)
        ensures
            text::opt_str(r) == self.choice(),
    {
        match self {
            Tree::Text(s) => Some(s.as_str()),
            Tree::Branch(t) => {
                if t.len() == 1 && t.value(0).is_hollow() {
                    Some(t.key(0))
                } else {
                    None
                }
            },
            _ => None,
        }
    }

    pub fn is_hollow(&self) -> (r: bool)
        ensures
            r == hollow(*self),
    {
        match self {
            Tree::List(items) => items.len() == 0,
            Tree::Branch(t) => t.len() == 0,
            _ => false,
        }
    }

    pub fn is_branch(&self) -> (r: bool)
        ensures
            r == (self is Branch),
    {
        match self {
            Tree::Branch(_) => true,
            _ => false,
        }
    }
}

/// The texts of a list, if it holds nothing else.
pub fn text_list(items: &Vec<Tree>) -> (r: Option<Vec<String>>)
    ensures
        match r {
            Some(v) => all_text(items@) && text::texts(v@) == texts_of(items@),
            None => !all_text(items@),
        },
{
    let ghost wanted = texts_of(items@);
    let mut out: Vec<String> = Vec::new();
    let mut i: usize = 0;
    assert(text::texts(out@) =~= wanted.take(0));
    while i < items.len()
        invariant
            i <= items.len(),
            wanted == texts_of(items@),
            forall|j: int| 0 <= j < i ==> (#[trigger] items@[j]) is Text,
            text::texts(out@) == wanted.take(i as int),
        decreases items.len() - i,
    {
        let ghost before = out@;
        match &items[i] {
            Tree::Text(s) => {
                out.push(s.as_str().to_owned());
                assert(text::texts(out@) =~= text::texts(before).push(wanted[i as int]));
            },
            _ => {
                return None;
            },
        }
        i += 1;
        assert(wanted.take(i as int) =~= wanted.take(i - 1).push(wanted[i - 1]));
    }
    assert(wanted.take(i as int) =~= wanted);
    Some(out)
}

/// The texts of a branch, if it holds nothing else.
pub fn text_table(t: &Table<Tree>) -> (r: Option<Table<String>>)
    ensures
        match r {
            Some(m) => branch_text(t@) && same_texts(t@, m@),
            None => !branch_text(t@),
        },
{
    let ghost keys = t.keys();
    let mut out: Table<String> = Table::new();
    let n = t.len();
    let mut i: usize = 0;
    while i < n
        invariant
            i <= n,
            n == t.keys().len(),
            n == t.values().len(),
            keys == t.keys(),
            forall|k: Seq<char>|
                #![trigger out@.dom().contains(k)]
                out@.dom().contains(k) <==> keys.take(i as int).contains(k),
            forall|k: Seq<char>|
                #![trigger out@.dom().contains(k)]
                out@.dom().contains(k) ==> t@.dom().contains(k) && t@[k] is Text && out@[k]@
                    == t@[k]->Text_0@,
        decreases n - i,
    {
        let value = t.value(i);
        match value {
            Tree::Text(s) => {
                out.insert(t.key(i).to_owned(), s.as_str().to_owned());
            },
            _ => {
                assert(t@.dom().contains(keys[i as int]));
                return None;
            },
        }
        i += 1;
        proof {
            let k = keys[i - 1];
            assert(keys.take(i as int) =~= keys.take(i - 1).push(k));
            assert forall|other: Seq<char>|
                keys.take(i as int).contains(other) <==> keys.take(i - 1).contains(other) || other
                    == k by {
                text::lemma_push_contains(keys.take(i - 1), k, other);
            }
        }
    }
    proof {
        assert(keys.take(i as int) =~= keys);
        assert(out@.dom() =~= t@.dom());
        assert forall|k: Seq<char>| #[trigger] t@.dom().contains(k) implies t@[k] is Text
            && out@[k]@ == t@[k]->Text_0@ by {
            assert(out@.dom().contains(k));
        }
    }
    Some(out)
}

/// What is said of a field that is not there.
pub open spec fn missing(field: Seq<char>) -> Seq<char> {
    "missing field `"@ + field + "`"@
}

pub fn missing_field(field: &str) -> (r: String)
    ensures
        r@ == missing(field@),
{
    strings::cat3("missing field `", field, "`")
}

/// What is said of a field that holds something else than it should.
pub open spec fn invalid(field: Seq<char>) -> Seq<char> {
    "invalid `"@ + field + "`"@
}

pub fn invalid_field(field: &str) -> (r: String)
    ensures
        r@ == invalid(field@),
{
    strings::cat3("invalid `", field, "`")
}

/// What is wrong with the length of a list of fields, if something is written
/// so: those without a default all have to be there.
pub open spec fn length_problem(t: Tree, least: nat, most: Option<nat>) -> Option<Seq<char>> {
    match t {
        Tree::List(items) => if items@.len() < least || (most is Some && items@.len() > most->0) {
            Some("invalid length "@ + text::decimal(items@.len()))
        } else {
            None
        },
        _ => None,
    }
}

/// Sees to the length of a list of fields.
pub fn check_length(t: &Tree, least: usize, most: Option<usize>) -> (r: Result<(), String>)
    ensures
        match r {
            Ok(_) => length_problem(*t, least as nat, as_nat(most)) is None,
            Err(m) => length_problem(*t, least as nat, as_nat(most)) == Some(m@),
        },
{
    if let Tree::List(items) = t {
        let n = items.len();
        let long = match most {
            Some(most) => n > most,
            None => false,
        };
        if n < least || long {
            return Err(strings::cat2("invalid length ", strings::decimal(n as u64).as_str()));
        }
    }
    Ok(())
}

pub open spec fn as_nat(n: Option<usize>) -> Option<nat> {
    match n {
        Some(n) => Some(n as nat),
        None => None,
    }
}

/// What is wrong with a text that has to be there.
pub open spec fn text_problem(v: Option<Tree>, field: Seq<char>) -> Option<Seq<char>> {
    match v {
        None => Some(missing(field)),
        Some(Tree::Text(_)) => None,
        Some(_) => Some(invalid(field)),
    }
}

/// The text of a field that has to be there.
pub fn need_text(v: Option<&Tree>, field: &str) -> (r: Result<String, String>)
    ensures
        match r {
            Ok(s) => text_problem(found(v), field@) is None && s@ == found(v)->0->Text_0@,
            Err(m) => text_problem(found(v), field@) == Some(m@),
        },
{
    match v {
        None => Err(missing_field(field)),
        Some(Tree::Text(s)) => Ok(s.as_str().to_owned()),
        Some(_) => Err(invalid_field(field)),
    }
}

/// Whether a value that may be missing is a text.
pub open spec fn opt_text_ok(v: Option<Tree>) -> bool {
    match v {
        None => true,
        Some(t) => t is Text,
    }
}

/// The text of a value that may be missing.
pub open spec fn opt_text_of(v: Option<Tree>) -> Option<Seq<char>> {
    match v {
        Some(Tree::Text(s)) => Some(s@),
        _ => None,
    }
}

pub open spec fn opt_text_problem(v: Option<Tree>, field: Seq<char>) -> Option<Seq<char>> {
    if opt_text_ok(v) {
        None
    } else {
        Some(invalid(field))
    }
}

/// The text of a field that may be missing.
pub fn may_text(v: Option<&Tree>, field: &str) -> (r: Result<Option<String>, String>)
    ensures
        match r {
            Ok(s) => opt_text_problem(found(v), field@) is None && text::opt_text(s)
                == opt_text_of(found(v)),
            Err(m) => opt_text_problem(found(v), field@) == Some(m@),
        },
{
    match v {
        None => Ok(None),
        Some(Tree::Text(s)) => Ok(Some(s.as_str().to_owned())),
        Some(_) => Err(invalid_field(field)),
    }
}

pub open spec fn opt_bool_problem(v: Option<Tree>, field: Seq<char>) -> Option<Seq<char>> {
    match v {
        None => None,
        Some(Tree::Bool(_)) => None,
        Some(_) => Some(invalid(field)),
    }
}

pub open spec fn opt_bool_of(v: Option<Tree>) -> Option<bool> {
    match v {
        Some(Tree::Bool(b)) => Some(b),
        _ => None,
    }
}

/// The truth value of a field that may be missing.
pub fn may_bool(v: Option<&Tree>, field: &str) -> (r: Result<Option<bool>, String>)
    ensures
        match r {
            Ok(b) => opt_bool_problem(found(v), field@) is None && b == opt_bool_of(found(v)),
            Err(m) => opt_bool_problem(found(v), field@) == Some(m@),
        },
{
    match v {
        None => Ok(None),
        Some(Tree::Bool(b)) => Ok(Some(*b)),
        Some(_) => Err(invalid_field(field)),
    }
}

/// Whether a value that may be missing is a list of texts.
pub open spec fn opt_list_ok(v: Option<Tree>) -> bool {
    match v {
        None => true,
        Some(Tree::List(items)) => all_text(items@),
        Some(_) => false,
    }
}

/// The texts of a list; none if it is missing.
pub open spec fn list_of(v: Option<Tree>) -> Seq<Seq<char>> {
    match v {
        Some(Tree::List(items)) => texts_of(items@),
        _ => seq![],
    }
}

pub open spec fn opt_list_problem(v: Option<Tree>, field: Seq<char>) -> Option<Seq<char>> {
    if opt_list_ok(v) {
        None
    } else {
        Some(invalid(field))
    }
}

pub open spec fn list_problem(v: Option<Tree>, field: Seq<char>) -> Option<Seq<char>> {
    if v is None {
        Some(missing(field))
    } else {
        opt_list_problem(v, field)
    }
}

/// The texts of a list; none if the field is missing.
pub fn may_list(v: Option<&Tree>, field: &str) -> (r: Result<Vec<String>, String>)
    ensures
        match r {
            Ok(items) => opt_list_problem(found(v), field@) is None && text::texts(items@)
                == list_of(found(v)),
            Err(m) => opt_list_problem(found(v), field@) == Some(m@),
        },
{
    match v {
        None => {
            let none: Vec<String> = Vec::new();
            assert(text::texts(none@) =~= seq![]);
            Ok(none)
        },
        Some(Tree::List(items)) => match text_list(items) {
            Some(texts) => Ok(texts),
            None => Err(invalid_field(field)),
        },
        Some(_) => Err(invalid_field(field)),
    }
}

/// The texts of a list that has to be there.
pub fn need_list(v: Option<&Tree>, field: &str) -> (r: Result<Vec<String>, String>)
    ensures
        match r {
            Ok(items) => list_problem(found(v), field@) is None && text::texts(items@) == list_of(
                found(v),
            ),
            Err(m) => list_problem(found(v), field@) == Some(m@),
        },
{
    match v {
        None => Err(missing_field(field)),
        Some(_) => may_list(v, field),
    }
}

/// The first of two problems.
pub open spec fn or_else(a: Option<Seq<char>>, b: Option<Seq<char>>) -> Option<Seq<char>> {
    match a {
        Some(_) => a,
        None => b,
    }
}

/// What can be read from a tree.
pub trait Readable: Sized {
    /// Whether a list of the fields will do in place of a branch.
    spec fn listable() -> bool;

    fn is_listable() -> (r: bool)
        ensures
            r == Self::listable(),
    ;

    /// What is wrong with a tree, if anything.
    spec fn problem(t: Tree) -> Option<Seq<char>>;

    /// Whether this is what a tree without a problem stands for.
    spec fn stands_for(self, t: Tree) -> bool;

    fn read(t: &Tree) -> (r: Result<Self, String>)
        ensures
            match r {
                Ok(e) => Self::problem(*t) is None && e.stands_for(*t),
                Err(m) => Self::problem(*t) == Some(m@),
            },
    ;
}

/// The first problem among entries, with the number of the entry.
pub open spec fn listed_problem<E: Readable>(
    items: Seq<Tree>,
    kind: Seq<char>,
    from: nat,
) -> Option<Seq<char>>
    decreases items.len() - from,
{
    if from >= items.len() {
        None
    } else {
        let t = items[from as int];
        match if t is Branch || (t is List && E::listable()) {
            E::problem(t)
        } else {
            Some(invalid(kind))
        } {
            Some(problem) => Some(
                "in `"@ + kind + "` entry "@ + text::decimal(from + 1) + (": "@ + problem),
            ),
            None => listed_problem::<E>(items, kind, from + 1),
        }
    }
}

/// The first problem with the entries of a list that may be missing.
pub open spec fn items_problem<E: Readable>(v: Option<Tree>, kind: Seq<char>) -> Option<Seq<char>> {
    match v {
        None => None,
        Some(Tree::List(items)) => listed_problem::<E>(items@, kind, 0),
        Some(_) => Some(invalid(kind)),
    }
}

/// Whether entries are what a list stands for, each at its place.
pub open spec fn items_are<E: Readable>(v: Option<Tree>, entries: Seq<E>) -> bool {
    match v {
        Some(Tree::List(items)) => entries.len() == items@.len() && forall|i: int|
            0 <= i < entries.len() ==> (#[trigger] entries[i]).stands_for(items@[i]),
        _ => entries.len() == 0,
    }
}

/// The entries of a list; none if it is missing.
pub fn read_items<E: Readable>(v: Option<&Tree>, kind: &str) -> (r: Result<Vec<E>, String>)
    ensures
        match r {
            Ok(entries) => items_problem::<E>(found(v), kind@) is None && items_are(
                found(v),
                entries@,
            ),
            Err(m) => items_problem::<E>(found(v), kind@) == Some(m@),
        },
{
    let mut out: Vec<E> = Vec::new();
    let items = match v {
        None => {
            return Ok(out);
        },
        Some(Tree::List(items)) => items,
        Some(_) => {
            return Err(invalid_field(kind));
        },
    };
    let mut i: usize = 0;
    while i < items.len()
        invariant
            i <= items.len(),
            out@.len() == i,
            listed_problem::<E>(items@, kind@, 0) == listed_problem::<E>(
                items@,
                kind@,
                i as nat,
            ),
            found(v) == Some(Tree::List(*items)),
            forall|j: int| 0 <= j < i ==> (#[trigger] out@[j]).stands_for(items@[j]),
        decreases items.len() - i,
    {
        let item = &items[i];
        let fits = item.is_branch() || (item.is_branch_or_list() && E::is_listable());
        let read = if fits {
            E::read(item)
        } else {
            Err(invalid_field(kind))
        };
        match read {
            Ok(e) => {
                out.push(e);
            },
            Err(problem) => {
                let number = strings::decimal(i as u64 + 1);
                let detail = strings::cat2(": ", problem.as_str());
                return Err(
                    strings::cat5("in `", kind, "` entry ", number.as_str(), detail.as_str()),
                );
            },
        }
        i += 1;
    }
    Ok(out)
}

/// A problem with an entry is told with the number of the first entry that has
/// one; there is none exactly if no entry has one.
pub proof fn lemma_first_problem_is_told<E: Readable>(
    items: Seq<Tree>,
    kind: Seq<char>,
    from: nat,
    i: int,
)
    requires
        from <= i < items.len(),
        items[i] is Branch,
        forall|j: int|
            from <= j < i ==> (#[trigger] items[j]) is Branch && E::problem(items[j]) is None,
    ensures
        E::problem(items[i]) is Some ==> listed_problem::<E>(items, kind, from) == Some(
            "in `"@ + kind + "` entry "@ + text::decimal((i + 1) as nat) + (": "@ + E::problem(
                items[i],
            )->0),
        ),
        (forall|j: int|
            from <= j < items.len() ==> (#[trigger] items[j]) is Branch && E::problem(items[j])
                is None) ==> listed_problem::<E>(items, kind, from) is None,
    decreases items.len() - from,
{
    if from < i {
        assert(items[from as int] is Branch && E::problem(items[from as int]) is None);
        lemma_first_problem_is_told::<E>(items, kind, from + 1, i);
    } else if E::problem(items[i]) is None && from + 1 < items.len() {
        if items[(from + 1) as int] is Branch {
            lemma_first_problem_is_told::<E>(items, kind, from + 1, (from + 1) as int);
        }
    }
}

/// What is said of a field names it.
pub proof fn lemma_problem_names_the_field(field: Seq<char>)
    ensures
        missing(field) == "missing field `"@ + field + "`"@,
        invalid(field) == "invalid `"@ + field + "`"@,
        text_problem(None, field) == Some(missing(field)),
        opt_text_problem(None, field) is None,
        opt_bool_problem(None, field) is None,
        opt_list_problem(None, field) is None,
        list_problem(None, field) == Some(missing(field)),
{
}

} // verus!
