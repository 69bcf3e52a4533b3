//! Versions of a crate.

use vstd::prelude::*;

use crate::failure::Failure;
use crate::strings;
use crate::tree;
use crate::tree::Tree;

verus! {

/// The address that answers with a crate's newest stable version.
pub fn crate_url(name: &str) -> (r: String)
    ensures
        r@ == "https://crates.io/api/v1/crates/"@ + name@,
{
    strings::cat2("https://crates.io/api/v1/crates/", name)
}

/// What is wrong with the answer about a crate, if anything.
pub open spec fn crate_problem(t: Tree) -> Option<Seq<char>> {
    tree::or_else(
        tree::length_problem(t, 1, Some(1)),
        match t.part("crate"@, 0) {
            None => Some(tree::missing("crate"@)),
            Some(k) => tree::or_else(
                tree::length_problem(k, 1, Some(1)),
                tree::text_problem(k.part("max_stable_version"@, 0), "max_stable_version"@),
            ),
        },
    )
}

fn read_crate(t: &Tree) -> (r: Result<String, String>)
    ensures
        match r {
            Ok(v) => crate_problem(*t) is None && Some(v@) == tree::opt_text_of(
                t.part("crate"@, 0)->0.part("max_stable_version"@, 0),
            ),
            Err(m) => crate_problem(*t) == Some(m@),
        },
{
    tree::check_length(t, 1, Some(1))?;
    match t.get_part("crate", 0) {
        None => Err(tree::missing_field("crate")),
        Some(k) => {
            tree::check_length(k, 1, Some(1))?;
            tree::need_text(k.get_part("max_stable_version", 0), "max_stable_version")
        },
    }
}

/// The newest stable version, from the answer of crates.io at an address.
pub fn latest_version(reply: &Tree, url: &str) -> (r: Result<String, Failure>)
    ensures
        match r {
            Ok(v) => crate_problem(*reply) is None && Some(v@) == tree::opt_text_of(
                reply.part("crate"@, 0)->0.part("max_stable_version"@, 0),
            ),
            Err(e) => crate_problem(*reply) is Some && e@ == seq![
                "failed to parse crates.io response from "@ + url@,
                crate_problem(*reply)->0,
            ],
        },
{
    match read_crate(reply) {
        Ok(v) => Ok(v),
        Err(m) => Err(
            Failure::new(m).context(
                strings::cat2("failed to parse crates.io response from ", url),
            ),
        ),
    }
}

} // verus!
