//! Versions: where the newest one is looked up, and how one is shown.

pub mod crates_io;
pub mod github;
pub mod npm;

use vstd::prelude::*;

use crate::strings;
use crate::text;

verus! {

/// Recorded for an install script, which exposes no version.
pub const UNVERSIONED: &'static str = "unversioned";

/// A version without the `v` of a tag: one that a digit follows.
pub open spec fn without_v(version: Seq<char>) -> Seq<char> {
    if version.len() >= 2 && version[0] == 'v' && text::ascii_digit(version[1]) {
        version.skip(1)
    } else {
        version
    }
}

/// Whether a text is a full commit hash.
pub open spec fn is_sha(s: Seq<char>) -> bool {
    s.len() == 40 && forall|i: int| 0 <= i < s.len() ==> text::ascii_hex_digit(#[trigger] s[i])
}

/// How a version is shown.
pub open spec fn shown(version: Seq<char>) -> Seq<char> {
    let bare = without_v(version);
    if is_sha(bare) {
        bare.take(7)
    } else {
        bare
    }
}

/// A version as it is shown: without a tag's `v`, and a commit hash cut short.
/// What is stored stays as it is.
pub fn display_version(version: &str) -> (r: &str)
    ensures
        r@ == shown(version@),
{
    let chars = strings::chars_of(version);
    let total = chars.len();
    let mut start: usize = 0;
    if total >= 2 && chars[0] == 'v' && text::is_ascii_digit(chars[1]) {
        start = 1;
    }
    let ghost bare = version@.skip(start as int);
    assert(version@.skip(0) =~= version@);
    let mut all_hex = true;
    let mut i: usize = start;
    while i < total
        invariant
            start <= i <= total == chars.len(),
            start <= 1,
            chars@ == version@,
            bare == version@.skip(start as int),
            all_hex == forall|j: int| 0 <= j < i - start ==> text::ascii_hex_digit(
                #[trigger] bare[j],
            ),
        decreases total - i,
    {
        if !text::is_ascii_hex_digit(chars[i]) {
            all_hex = false;
            assert(bare[i - start] == chars@[i as int]);
        }
        assert(bare[i - start] == chars@[i as int]);
        i += 1;
    }
    if total - start == 40 && all_hex {
        let r = version.substring_char(start, start + 7);
        assert(r@ =~= bare.take(7));
        r
    } else {
        let r = version.substring_char(start, total);
        assert(r@ =~= bare);
        r
    }
}

/// A marker for a missing version is shown as it is.
pub proof fn lemma_unversioned_shown()
    ensures
        shown(UNVERSIONED@) == UNVERSIONED@,
{
    reveal_strlit("unversioned");
}

/// A tag's `v` is not shown before a digit, of a commit hash seven characters
/// are shown, and every other version is shown whole.
pub proof fn lemma_how_versions_are_shown(rest: Seq<char>)
    ensures
        ({
            let sha = rest.len() == 40 && forall|i: int|
                0 <= i < rest.len() ==> (('0' <= #[trigger] rest[i] && rest[i] <= '9') || ('a'
                    <= rest[i] && rest[i] <= 'f') || ('A' <= rest[i] && rest[i] <= 'F'));
            let short = if sha {
                rest.take(7)
            } else {
                rest
            };
            &&& rest.len() > 0 && '0' <= rest[0] && rest[0] <= '9' ==> shown(seq!['v'] + rest)
                == short
            &&& (rest.len() == 0 || rest[0] != 'v') ==> shown(rest) == short
        }),
{
    let tag = seq!['v'] + rest;
    assert(tag.skip(1) =~= rest);
    let sha = rest.len() == 40 && forall|i: int|
        0 <= i < rest.len() ==> (('0' <= #[trigger] rest[i] && rest[i] <= '9') || ('a' <= rest[i]
            && rest[i] <= 'f') || ('A' <= rest[i] && rest[i] <= 'F'));
    assert(sha == is_sha(rest)) by {
        if sha {
            assert forall|i: int| 0 <= i < rest.len() implies text::ascii_hex_digit(
                #[trigger] rest[i],
            ) by {}
        }
        if is_sha(rest) {
            assert forall|i: int| 0 <= i < rest.len() implies (('0' <= #[trigger] rest[i]
                && rest[i] <= '9') || ('a' <= rest[i] && rest[i] <= 'f') || ('A' <= rest[i]
                && rest[i] <= 'F')) by {
                assert(text::ascii_hex_digit(rest[i]));
            }
        }
    }
}

} // verus!
