//! Releases of a repository.

use vstd::prelude::*;

use crate::config::Host;
use crate::failure::Failure;
use crate::strings;
use crate::text;
use crate::tree;
use crate::tree::Readable;
use crate::tree::Tree;

verus! {

#[derive(Debug)]
pub struct Release {
    pub tag: String,
    pub assets: Vec<Asset>,
}

/// One file of a release.
#[derive(Debug)]
pub struct Asset {
    pub name: String,
    pub url: String,
    pub size: u64,
    /// `sha256:<hex>`, where the host publishes it.
    pub digest: Option<String>,
}

/// Where a host answers with the latest release of a repository.
pub open spec fn release_address(name: Seq<char>, host: Host) -> Seq<char> {
    match host {
        Host::Github => "https://api.github.com/repos/"@ + name + "/releases/latest"@,
        Host::Codeberg => "https://codeberg.org/api/v1/repos/"@ + name + "/releases/latest"@,
    }
}

/// The address of a repository's latest release; GitHub and Codeberg answer
/// in the same form.
pub fn release_url(name: &str, host: Host) -> (r: String)
    ensures
        r@ == release_address(name@, host),
{
    match host {
        Host::Github => strings::cat3("https://api.github.com/repos/", name, "/releases/latest"),
        Host::Codeberg => strings::cat3(
            "https://codeberg.org/api/v1/repos/",
            name,
            "/releases/latest",
        ),
    }
}

/// Whether `digest` is a text, or nothing.
pub open spec fn digest_ok(v: Option<Tree>) -> bool {
    match v {
        None => true,
        Some(v) => v is Text || v is Null,
    }
}

/// Whether `size` is a number of bytes.
pub open spec fn size_problem(v: Option<Tree>) -> Option<Seq<char>> {
    match v {
        None => Some(tree::missing("size"@)),
        Some(Tree::Integer(n)) => if 0 <= n <= u64::MAX {
            None
        } else {
            Some(tree::invalid("size"@))
        },
        Some(_) => Some(tree::invalid("size"@)),
    }
}

fn read_size(v: Option<&Tree>) -> (r: Result<u64, String>)
    ensures
        match r {
            Ok(n) => size_problem(tree::found(v)) is None && tree::found(v) == Some(
                Tree::Integer(n as i128),
            ),
            Err(m) => size_problem(tree::found(v)) == Some(m@),
        },
{
    match v {
        None => Err(tree::missing_field("size")),
        Some(Tree::Integer(n)) => if 0 <= *n && *n <= u64::MAX as i128 {
            Ok(*n as u64)
        } else {
            Err(tree::invalid_field("size"))
        },
        Some(_) => Err(tree::invalid_field("size")),
    }
}

fn read_digest(v: Option<&Tree>) -> (r: Result<Option<String>, String>)
    ensures
        match r {
            Ok(d) => digest_ok(tree::found(v)) && text::opt_text(d) == tree::opt_text_of(
                tree::found(v),
            ),
            Err(m) => !digest_ok(tree::found(v)) && m@ == tree::invalid("digest"@),
        },
{
    match v {
        None => Ok(None),
        Some(Tree::Null) => Ok(None),
        Some(Tree::Text(s)) => Ok(Some(s.as_str().to_owned())),
        Some(_) => Err(tree::invalid_field("digest")),
    }
}

impl Readable for Asset {
    open spec fn listable() -> bool {
        true
    }

    fn is_listable() -> (r: bool) {
        true
    }

    open spec fn problem(t: Tree) -> Option<Seq<char>> {
        tree::or_else(
            tree::length_problem(t, 3, Some(4)),
            tree::or_else(
                tree::text_problem(t.part("name"@, 0), "name"@),
                tree::or_else(
                    tree::text_problem(t.part("browser_download_url"@, 1), "browser_download_url"@),
                    tree::or_else(
                        size_problem(t.part("size"@, 2)),
                        if digest_ok(t.part("digest"@, 3)) {
                            None
                        } else {
                            Some(tree::invalid("digest"@))
                        },
                    ),
                ),
            ),
        )
    }

    open spec fn stands_for(self, t: Tree) -> bool {
        &&& Some(self.name@) == tree::opt_text_of(t.part("name"@, 0))
        &&& Some(self.url@) == tree::opt_text_of(t.part("browser_download_url"@, 1))
        &&& t.part("size"@, 2) == Some(Tree::Integer(self.size as i128))
        &&& text::opt_text(self.digest) == tree::opt_text_of(t.part("digest"@, 3))
    }

    fn read(t: &Tree) -> (r: Result<Self, String>) {
        tree::check_length(t, 3, Some(4))?;
        let name = tree::need_text(t.get_part("name", 0), "name")?;
        let url = tree::need_text(
            t.get_part("browser_download_url", 1),
            "browser_download_url",
        )?;
        let size = read_size(t.get_part("size", 2))?;
        let digest = read_digest(t.get_part("digest", 3))?;
        Ok(Asset { name, url, size, digest })
    }
}

/// The first problem with the answer about a release.
pub open spec fn release_problem(t: Tree) -> Option<Seq<char>> {
    tree::or_else(
        tree::length_problem(t, 2, Some(2)),
        tree::or_else(
            tree::text_problem(t.part("tag_name"@, 0), "tag_name"@),
            if t.part("assets"@, 1) is None {
                Some(tree::missing("assets"@))
            } else {
                tree::items_problem::<Asset>(t.part("assets"@, 1), "assets"@)
            },
        ),
    )
}

pub open spec fn release_is(t: Tree, r: Release) -> bool {
    &&& Some(r.tag@) == tree::opt_text_of(t.part("tag_name"@, 0))
    &&& tree::items_are(t.part("assets"@, 1), r.assets@)
}

fn read_release(t: &Tree) -> (r: Result<Release, String>)
    ensures
        match r {
            Ok(release) => release_problem(*t) is None && release_is(*t, release),
            Err(m) => release_problem(*t) == Some(m@),
        },
{
    tree::check_length(t, 2, Some(2))?;
    let tag = tree::need_text(t.get_part("tag_name", 0), "tag_name")?;
    let assets = t.get_part("assets", 1);
    if assets.is_none() {
        return Err(tree::missing_field("assets"));
    }
    let assets = tree::read_items::<Asset>(assets, "assets")?;
    Ok(Release { tag, assets })
}

/// The latest release, from the answer of a host at an address.
pub fn latest_release(reply: &Tree, url: &str) -> (r: Result<Release, Failure>)
    ensures
        match r {
            Ok(release) => release_problem(*reply) is None && release_is(*reply, release),
            Err(e) => release_problem(*reply) is Some && e@ == seq![
                "failed to parse release response from "@ + url@,
                release_problem(*reply)->0,
            ],
        },
{
    match read_release(reply) {
        Ok(release) => Ok(release),
        Err(m) => Err(
            Failure::new(m).context(strings::cat2("failed to parse release response from ", url)),
        ),
    }
}

/// Each host is asked for the latest release of the repository itself.
pub proof fn lemma_release_address(name: Seq<char>)
    ensures
        release_address(name, Host::Github) == "https://api.github.com/repos/"@ + name
            + "/releases/latest"@,
        release_address(name, Host::Codeberg) == "https://codeberg.org/api/v1/repos/"@ + name
            + "/releases/latest"@,
{
}

/// A release is its tag and its files, each with its own name, address, size
/// and digest, all read from the fields that hosts write them in.
pub proof fn lemma_fields_of_a_release(t: Tree, r: Release, i: int)
    requires
        t is Branch,
        release_problem(t) is None,
        release_is(t, r),
        0 <= i < r.assets@.len(),
    ensures
        Some(r.tag@) == tree::opt_text_of(t.field("tag_name"@)),
        t.field("assets"@) is Some && t.field("assets"@)->0 is List,
        ({
            let items = t.field("assets"@)->0->List_0@;
            let item = items[i];
            let asset = r.assets@[i];
            &&& r.assets@.len() == items.len()
            &&& item is Branch ==> {
                &&& Some(asset.name@) == tree::opt_text_of(item.field("name"@))
                &&& Some(asset.url@) == tree::opt_text_of(item.field("browser_download_url"@))
                &&& item.field("size"@) == Some(Tree::Integer(asset.size as i128))
                &&& text::opt_text(asset.digest) == tree::opt_text_of(item.field("digest"@))
            }
        }),
{
    assert(r.assets@[i].stands_for(t.field("assets"@)->0->List_0@[i]));
}

} // verus!
