//! Versions of a node package.

use vstd::prelude::*;

use crate::failure::Failure;
use crate::strings;
use crate::table::Table;
use crate::text;
use crate::text::Class;
use crate::tree;
use crate::tree::Tree;

verus! {

/// What the registry says of a package's newest version.
#[derive(Debug)]
pub struct NpmInfo {
    pub version: String,
    /// From the name of a command to the script that it runs.
    pub bin: Table<String>,
}

/// A package name as one segment of an address: the slash of a scoped name
/// is percent-encoded.
pub open spec fn encoded(pkg: Seq<char>) -> Seq<char> {
    if pkg.len() > 0 && pkg[0] == '@' {
        let rest = pkg.skip(1);
        let i = text::first_at(rest, Class::Only('/')) as int;
        if i < rest.len() {
            "@"@ + rest.take(i) + "%2f"@ + rest.skip(i + 1)
        } else {
            pkg
        }
    } else {
        pkg
    }
}

pub fn registry_path(pkg: &str) -> (r: String)
    ensures
        r@ == encoded(pkg@),
{
    let chars = strings::chars_of(pkg);
    let n = chars.len();
    if n > 0 && chars[0] == '@' {
        let mut i: usize = 1;
        while i < n && chars[i] != '/'
            invariant
                1 <= i <= n == chars.len(),
                chars@ == pkg@,
                forall|j: int| 1 <= j < i ==> pkg@[j] != '/',
            decreases n - i,
        {
            i += 1;
        }
        proof {
            text::lemma_first_at_unique(pkg@.skip(1), Class::Only('/'), i - 1);
        }
        if i < n {
            let scope = strings::from_chars(&chars, 1, i);
            let name = strings::from_chars(&chars, i + 1, n);
            assert(scope@ =~= pkg@.skip(1).take(i - 1));
            assert(name@ =~= pkg@.skip(1).skip(i as int));
            return strings::cat4("@", scope.as_str(), "%2f", name.as_str());
        }
    }
    pkg.to_owned()
}

/// The address that answers with a package's newest version.
pub fn package_url(pkg: &str) -> (r: String)
    ensures
        r@ == "https://registry.npmjs.org/"@ + encoded(pkg@) + "/latest"@,
{
    strings::cat3("https://registry.npmjs.org/", registry_path(pkg).as_str(), "/latest")
}

/// Whether `bin` maps names to texts, or is missing.
pub open spec fn bin_ok(v: Option<Tree>) -> bool {
    match v {
        None => true,
        Some(Tree::Branch(m)) => tree::branch_text(m@),
        Some(_) => false,
    }
}

/// The first problem with the answer about a package.
pub open spec fn package_problem(t: Tree) -> Option<Seq<char>> {
    tree::or_else(
        tree::length_problem(t, 1, Some(2)),
        tree::or_else(
            tree::text_problem(t.part("version"@, 0), "version"@),
            if bin_ok(t.part("bin"@, 1)) {
                None
            } else {
                Some(tree::invalid("bin"@))
            },
        ),
    )
}

pub open spec fn package_is(t: Tree, info: NpmInfo) -> bool {
    &&& Some(info.version@) == tree::opt_text_of(t.part("version"@, 0))
    &&& match t.part("bin"@, 1) {
        Some(Tree::Branch(m)) => tree::same_texts(m@, info.bin@),
        _ => info.bin@ == Map::<Seq<char>, String>::empty(),
    }
}

fn read_package(t: &Tree) -> (r: Result<NpmInfo, String>)
    ensures
        match r {
            Ok(info) => package_problem(*t) is None && package_is(*t, info),
            Err(m) => package_problem(*t) == Some(m@),
        },
{
    tree::check_length(t, 1, Some(2))?;
    let version = tree::need_text(t.get_part("version", 0), "version")?;
    let bin = match t.get_part("bin", 1) {
        None => Table::new(),
        Some(Tree::Branch(m)) => match tree::text_table(m) {
            Some(bin) => bin,
            None => {
                return Err(tree::invalid_field("bin"));
            },
        },
        Some(_) => {
            return Err(tree::invalid_field("bin"));
        },
    };
    Ok(NpmInfo { version, bin })
}

/// The newest version of a package, from the answer of the registry at an
/// address.
pub fn latest(reply: &Tree, url: &str) -> (r: Result<NpmInfo, Failure>)
    ensures
        match r {
            Ok(info) => package_problem(*reply) is None && package_is(*reply, info),
            Err(e) => package_problem(*reply) is Some && e@ == seq![
                "failed to parse npm registry response from "@ + url@,
                package_problem(*reply)->0,
            ],
        },
{
    match read_package(reply) {
        Ok(info) => Ok(info),
        Err(m) => Err(
            Failure::new(m).context(
                strings::cat2("failed to parse npm registry response from ", url),
            ),
        ),
    }
}

/// The slash of a scoped name is encoded, and nothing else is.
pub proof fn lemma_encoded_name(scope: Seq<char>, name: Seq<char>, plain: Seq<char>)
    requires
        !scope.contains('/'),
        plain.len() == 0 || plain[0] != '@' || !plain.contains('/'),
    ensures
        encoded(seq!['@'] + scope + seq!['/'] + name) == seq!['@'] + scope + "%2f"@ + name,
        encoded(plain) == plain,
{
    reveal_strlit("@");
    let pkg = seq!['@'] + scope + seq!['/'] + name;
    let rest = pkg.skip(1);
    let n = scope.len() as int;
    assert forall|j: int| 0 <= j < n implies !Class::Only('/').holds(#[trigger] rest[j]) by {
        assert(rest[j] == scope[j]);
        assert(scope.contains(scope[j]));
    }
    text::lemma_first_at_unique(rest, Class::Only('/'), n);
    assert(rest.take(n) =~= scope);
    assert(rest.skip(n + 1) =~= name);
    assert("@"@ =~= seq!['@']);
    if plain.len() > 0 && plain[0] == '@' {
        let tail = plain.skip(1);
        text::lemma_first_at(tail, Class::Only('/'));
        let i = text::first_at(tail, Class::Only('/')) as int;
        if i < tail.len() {
            assert(plain[i + 1] == '/');
            assert(plain.contains('/'));
        }
    }
}

/// A package's version and commands are read from the fields that the registry
/// writes them in.
pub proof fn lemma_fields_of_a_package(t: Tree, info: NpmInfo, k: Seq<char>)
    requires
        t is Branch,
        package_problem(t) is None,
        package_is(t, info),
    ensures
        Some(info.version@) == tree::opt_text_of(t.field("version"@)),
        info.bin@.contains_key(k) <==> t.field("bin"@) is Some && t.field("bin"@)->0.field(k)
            is Some,
        info.bin@.contains_key(k) ==> Some(info.bin@[k]@) == tree::opt_text_of(
            t.field("bin"@)->0.field(k),
        ),
{
    if let Some(Tree::Branch(m)) = t.field("bin"@) {
        assert(info.bin@.dom().contains(k) <==> m@.dom().contains(k));
    }
}

} // verus!
