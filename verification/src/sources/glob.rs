//! File-name patterns with `*`.

use vstd::prelude::*;

use crate::strings;
use crate::text;
use crate::text::Class;

verus! {

/// Whether a name fits a pattern: `*` stands for any text, every other
/// character for itself.
pub open spec fn fits(pattern: Seq<char>, name: Seq<char>) -> bool
    decreases pattern.len() + name.len(),
{
    if pattern.len() == 0 {
        name.len() == 0
    } else if pattern[0] == '*' {
        fits(pattern.skip(1), name) || (name.len() > 0 && fits(pattern, name.skip(1)))
    } else {
        name.len() > 0 && name[0] == pattern[0] && fits(pattern.skip(1), name.skip(1))
    }
}

/// Whether a name is the first part, any text, the second part, and so on.
pub open spec fn fits_parts(parts: Seq<Seq<char>>, name: Seq<char>) -> bool
    decreases parts.len(), name.len(), 0int,
{
    if parts.len() == 0 {
        false
    } else if parts.len() == 1 {
        name == parts[0]
    } else {
        parts[0].is_prefix_of(name) && fits_later(
            parts.skip(1),
            name.skip(parts[0].len() as int),
        )
    }
}

/// Whether a name ends in a text that `fits_parts`.
pub open spec fn fits_later(parts: Seq<Seq<char>>, name: Seq<char>) -> bool
    decreases parts.len(), name.len(), 1int,
{
    fits_parts(parts, name) || (name.len() > 0 && fits_later(parts, name.skip(1)))
}

proof fn lemma_fits_later(parts: Seq<Seq<char>>, name: Seq<char>)
    ensures
        fits_later(parts, name) <==> exists|k: int|
            0 <= k <= name.len() && #[trigger] fits_parts(parts, name.skip(k)),
    decreases name.len(),
{
    assert(name.skip(0) =~= name);
    if fits_parts(parts, name) {
        assert(fits_parts(parts, name.skip(0)));
    }
    if name.len() > 0 {
        let shorter = name.skip(1);
        lemma_fits_later(parts, shorter);
        if fits_later(parts, shorter) {
            let k = choose|k: int|
                0 <= k <= shorter.len() && #[trigger] fits_parts(parts, shorter.skip(k));
            lemma_skip_skip(name, 1, k);
            assert(fits_parts(parts, name.skip(k + 1)));
        }
        assert forall|k: int|
            0 < k <= name.len() && #[trigger] fits_parts(parts, name.skip(k)) implies fits_later(
            parts,
            shorter,
        ) by {
            lemma_skip_skip(name, 1, k - 1);
            assert(fits_parts(parts, shorter.skip(k - 1)));
        }
    }
    if exists|k: int| 0 <= k <= name.len() && #[trigger] fits_parts(parts, name.skip(k)) {
        let k = choose|k: int| 0 <= k <= name.len() && #[trigger] fits_parts(parts, name.skip(k));
        assert(k == 0 ==> fits_parts(parts, name));
    }
}

proof fn lemma_skip_skip(s: Seq<char>, a: int, b: int)
    requires
        0 <= a,
        0 <= b,
        a + b <= s.len(),
    ensures
        s.skip(a).skip(b) == s.skip(a + b),
{
    assert(s.skip(a).skip(b) =~= s.skip(a + b));
}

proof fn lemma_later(parts: Seq<Seq<char>>, name: Seq<char>, from: int)
    requires
        0 <= from <= name.len(),
        fits_later(parts, name.skip(from)),
    ensures
        fits_later(parts, name),
{
    lemma_fits_later(parts, name);
    lemma_fits_later(parts, name.skip(from));
    let k = choose|k: int|
        0 <= k <= name.skip(from).len() && #[trigger] fits_parts(parts, name.skip(from).skip(k));
    lemma_skip_skip(name, from, k);
    assert(fits_parts(parts, name.skip(from + k)));
}

proof fn lemma_star(pattern: Seq<char>, name: Seq<char>)
    requires
        pattern.len() > 0,
        pattern[0] == '*',
    ensures
        fits(pattern, name) <==> exists|k: int|
            0 <= k <= name.len() && #[trigger] fits(pattern.skip(1), name.skip(k)),
    decreases name.len(),
{
    assert(name.skip(0) =~= name);
    if name.len() > 0 {
        lemma_star(pattern, name.skip(1));
        if fits(pattern, name) && !fits(pattern.skip(1), name) {
            let k = choose|k: int|
                0 <= k <= name.skip(1).len() && #[trigger] fits(
                    pattern.skip(1),
                    name.skip(1).skip(k),
                );
            lemma_skip_skip(name, 1, k);
            assert(fits(pattern.skip(1), name.skip(k + 1)));
        }
        assert forall|k: int|
            0 <= k <= name.len() && #[trigger] fits(pattern.skip(1), name.skip(k)) implies fits(
            pattern,
            name,
        ) by {
            if k > 0 {
                lemma_skip_skip(name, 1, k - 1);
                assert(fits(pattern.skip(1), name.skip(1).skip(k - 1)));
            }
        }
    } else {
        assert(fits(pattern, name) <==> fits(pattern.skip(1), name.skip(0)));
    }
}

/// Dropping one character that is no `*` from the pattern drops it from the
/// first part.
proof fn lemma_literal(pattern: Seq<char>, name: Seq<char>)
    requires
        pattern.len() > 0,
        pattern[0] != '*',
    ensures
        fits_parts(text::fields(pattern, Class::Only('*')), name) <==> (name.len() > 0 && name[0]
            == pattern[0] && fits_parts(
            text::fields(pattern.skip(1), Class::Only('*')),
            name.skip(1),
        )),
{
    let star = Class::Only('*');
    let rest = pattern.skip(1);
    text::lemma_first_at(pattern, star);
    text::lemma_first_at(rest, star);
    let i = text::first_at(pattern, star) as int;
    let parts = text::fields(pattern, star);
    let shorter = text::fields(rest, star);
    if i < pattern.len() {
        let first = pattern.take(i);
        let after = text::fields(pattern.skip(i + 1), star);
        assert(rest.take(i - 1) =~= first.skip(1));
        assert(rest.skip(i) =~= pattern.skip(i + 1));
        assert(parts == seq![first] + after);
        assert(shorter == seq![first.skip(1)] + after);
        assert(parts.skip(1) =~= after);
        assert(shorter.skip(1) =~= after);
        lemma_fields_nonempty(pattern.skip(i + 1));
        if name.len() > 0 && name[0] == pattern[0] {
            assert(first.is_prefix_of(name) <==> first.skip(1).is_prefix_of(name.skip(1))) by {
                if first.is_prefix_of(name) {
                    assert(first.skip(1) =~= name.skip(1).take(i - 1));
                }
                if first.skip(1).is_prefix_of(name.skip(1)) {
                    assert forall|j: int| 0 <= j < first.len() implies first[j] == name[j] by {
                        if j > 0 {
                            assert(first.skip(1)[j - 1] == name.skip(1)[j - 1]);
                        }
                    }
                    assert(first =~= name.take(i));
                }
            }
            if first.is_prefix_of(name) {
                assert(name.skip(1).skip(i - 1) =~= name.skip(i));
            }
        } else if first.is_prefix_of(name) {
            assert(first[0] == name[0]);
        }
    } else {
        assert(parts == seq![pattern]);
        assert(shorter == seq![rest]);
        if name.len() > 0 && name[0] == pattern[0] && name.skip(1) == rest {
            assert(name =~= seq![name[0]] + name.skip(1));
            assert(pattern =~= seq![pattern[0]] + rest);
        }
    }
}

proof fn lemma_fields_nonempty(s: Seq<char>)
    ensures
        text::fields(s, Class::Only('*')).len() >= 1,
{
}

/// A name fits a pattern if and only if it is made of the pattern's parts, in
/// order, with any text in place of each `*`.
pub proof fn lemma_fits_parts(pattern: Seq<char>, name: Seq<char>)
    ensures
        fits(pattern, name) <==> fits_parts(text::fields(pattern, Class::Only('*')), name),
    decreases pattern.len(),
{
    let star = Class::Only('*');
    let parts = text::fields(pattern, star);
    if pattern.len() == 0 {
        assert(parts == seq![pattern]);
        assert(name.len() == 0 <==> name =~= pattern);
    } else if pattern[0] == '*' {
        lemma_star(pattern, name);
        let rest = pattern.skip(1);
        assert(pattern.take(0) =~= Seq::<char>::empty());
        assert(parts == seq![pattern.take(0)] + text::fields(rest, star));
        assert(parts.skip(1) =~= text::fields(rest, star));
        lemma_fields_nonempty(rest);
        assert(name.skip(0) =~= name);
        assert(parts[0].is_prefix_of(name)) by {
            assert(name.take(0) =~= parts[0]);
        }
        assert forall|k: int| 0 <= k <= name.len() implies (#[trigger] fits(rest, name.skip(k))
            <==> fits_parts(text::fields(rest, star), name.skip(k))) by {
            lemma_fits_parts(rest, name.skip(k));
        }
        lemma_fits_later(parts.skip(1), name);
        if fits(pattern, name) {
            let k = choose|k: int| 0 <= k <= name.len() && #[trigger] fits(rest, name.skip(k));
            assert(fits_parts(parts.skip(1), name.skip(k)));
        }
        if fits_parts(parts, name) {
            let k = choose|k: int|
                0 <= k <= name.len() && #[trigger] fits_parts(parts.skip(1), name.skip(k));
            assert(fits(rest, name.skip(k)));
        }
    } else {
        lemma_literal(pattern, name);
        if name.len() > 0 {
            lemma_fits_parts(pattern.skip(1), name.skip(1));
        }
    }
}

/// With several parts left, it is enough to try the first place where the
/// next part occurs.
proof fn lemma_first_place(parts: Seq<Seq<char>>, name: Seq<char>)
    requires
        parts.len() >= 2,
    ensures
        fits_later(parts, name) <==> match text::occurrence_from(name, parts[0], 0) {
            Some(i) => fits_later(parts.skip(1), name.skip(i + parts[0].len())),
            None => false,
        },
{
    let part = parts[0];
    text::lemma_occurrence(name, part, 0);
    assert forall|k: int| 0 <= k <= name.len() implies (part.is_prefix_of(name.skip(k))
        <==> #[trigger] text::occurs_at(name, part, k)) by {
        if part.len() <= name.len() - k {
            assert(name.skip(k).take(part.len() as int) =~= name.subrange(k, k + part.len()));
        }
    }
    lemma_fits_later(parts, name);
    if fits_later(parts, name) {
        let k = choose|k: int| 0 <= k <= name.len() && #[trigger] fits_parts(parts, name.skip(k));
        assert(text::occurs_at(name, part, k));
        let i = text::occurrence_from(name, part, 0)->0;
        assert(i <= k);
        let after = name.skip(i + part.len());
        lemma_skip_skip(name, k, part.len() as int);
        lemma_skip_skip(name, i + part.len(), k - i);
        assert(fits_later(parts.skip(1), after.skip(k - i)));
        lemma_later(parts.skip(1), after, k - i);
    }
    if let Some(i) = text::occurrence_from(name, part, 0) {
        if fits_later(parts.skip(1), name.skip(i + part.len())) {
            lemma_skip_skip(name, i, part.len() as int);
            assert(text::occurs_at(name, part, i));
            assert(fits_parts(parts, name.skip(i)));
        }
    }
}

/// The last part has to stand at the end.
proof fn lemma_last_place(part: Seq<char>, name: Seq<char>)
    ensures
        fits_later(seq![part], name) <==> part.is_suffix_of(name),
{
    lemma_fits_later(seq![part], name);
    if fits_later(seq![part], name) {
        let k = choose|k: int|
            0 <= k <= name.len() && #[trigger] fits_parts(seq![part], name.skip(k));
        assert(name.subrange(name.len() - part.len(), name.len() as int) =~= name.skip(k));
    }
    if part.is_suffix_of(name) {
        let k = name.len() - part.len();
        assert(name.skip(k) =~= part);
        assert(fits_parts(seq![part], name.skip(k)));
    }
}

/// Whether a name fits a pattern in which `*` stands for any text.
pub fn glob_match(pattern: &str, name: &str) -> (r: bool)
    ensures
        r == fits(pattern@, name@),
{
    let parts = strings::split(pattern, Class::Only('*'));
    let ghost all = text::strs(parts@);
    proof {
        lemma_fits_parts(pattern@, name@);
        lemma_fields_nonempty(pattern@);
    }
    if parts.len() == 1 {
        return strings::same(parts[0], name);
    }
    let chars = strings::chars_of(name);
    let first = strings::chars_of(parts[0]);
    if !strings::occurs_at(&chars, &first, 0) {
        assert(!first@.is_prefix_of(name@));
        return false;
    }
    let mut at: usize = first.len();
    let mut i: usize = 1;
    proof {
        assert(all[0].is_prefix_of(name@));
    }
    while i < parts.len() - 1
        invariant
            1 <= i < parts.len(),
            at <= chars.len(),
            chars@ == name@,
            all == text::strs(parts@),
            fits(pattern@, name@) == fits_later(all.skip(i as int), name@.skip(at as int)),
        decreases parts.len() - i,
    {
        let part = strings::chars_of(parts[i]);
        let ghost rest = name@.skip(at as int);
        proof {
            let left = all.skip(i as int);
            lemma_first_place(left, rest);
            assert(left.skip(1) =~= all.skip(i + 1));
            assert(left[0] == part@);
            lemma_occurrence_shifts(name@, part@, at as int, 0);
            text::lemma_occurrence(name@, part@, at as int);
        }
        match strings::find_from(&chars, &part, at) {
            Some(found) => {
                proof {
                    lemma_skip_skip(name@, at as int, found - at + part.len());
                    assert(text::occurs_at(name@, part@, found as int));
                }
                at = found + part.len();
            },
            None => {
                return false;
            },
        }
        i += 1;
    }
    let last = parts[i];
    proof {
        assert(all.skip(i as int) =~= seq![last@]);
        lemma_last_place(last@, name@.skip(at as int));
    }
    let tail = name.substring_char(at, chars.len());
    assert(tail@ =~= name@.skip(at as int));
    strings::ends_with(tail, last)
}

/// Looking from a position on is looking in what follows it.
proof fn lemma_occurrence_shifts(s: Seq<char>, p: Seq<char>, at: int, from: int)
    requires
        0 <= at <= s.len(),
        0 <= from,
    ensures
        text::occurrence_from(s, p, at + from) == match text::occurrence_from(
            s.skip(at),
            p,
            from,
        ) {
            Some(i) => Some(at + i),
            None => None,
        },
    decreases s.len() - at - from + 1,
{
    if at + from <= s.len() {
        if at + from + p.len() <= s.len() {
            assert(s.skip(at).subrange(from, from + p.len()) =~= s.subrange(
                at + from,
                at + from + p.len(),
            ));
        }
        assert(text::occurs_at(s, p, at + from) <==> text::occurs_at(s.skip(at), p, from));
        if !text::occurs_at(s, p, at + from) {
            lemma_occurrence_shifts(s, p, at, from + 1);
        }
    }
}

/// A text fits itself, taken as a pattern.
proof fn lemma_fits_itself(s: Seq<char>)
    ensures
        fits(s, s),
    decreases s.len(),
{
    if s.len() > 0 {
        lemma_fits_itself(s.skip(1));
        if s[0] == '*' {
            assert(fits(s, s.skip(1)));
        }
    }
}

/// What a name fits, it fits with the same text put before both.
proof fn lemma_fits_after(lead: Seq<char>, pattern: Seq<char>, name: Seq<char>)
    requires
        fits(pattern, name),
    ensures
        fits(lead + pattern, lead + name),
    decreases lead.len(),
{
    if lead.len() == 0 {
        assert(lead + pattern =~= pattern);
        assert(lead + name =~= name);
    } else {
        lemma_fits_after(lead.skip(1), pattern, name);
        let p = lead + pattern;
        let n = lead + name;
        assert(p.skip(1) =~= lead.skip(1) + pattern);
        assert(n.skip(1) =~= lead.skip(1) + name);
        if p[0] == '*' {
            assert(fits(p, n.skip(1)));
        }
    }
}

/// A `*` stands for any text.
pub proof fn lemma_star_stands_for_any(lead: Seq<char>, any: Seq<char>, tail: Seq<char>)
    ensures
        fits(lead + seq!['*'] + tail, lead + any + tail),
{
    lemma_star_takes(any, tail);
    lemma_fits_after(lead, seq!['*'] + tail, any + tail);
    assert(lead + (seq!['*'] + tail) =~= lead + seq!['*'] + tail);
    assert(lead + (any + tail) =~= lead + any + tail);
}

proof fn lemma_star_takes(any: Seq<char>, tail: Seq<char>)
    ensures
        fits(seq!['*'] + tail, any + tail),
    decreases any.len(),
{
    let pattern = seq!['*'] + tail;
    assert(pattern.skip(1) =~= tail);
    if any.len() == 0 {
        assert(any + tail =~= tail);
        lemma_fits_itself(tail);
    } else {
        lemma_star_takes(any.skip(1), tail);
        assert((any + tail).skip(1) =~= any.skip(1) + tail);
    }
}

/// A pattern without a `*` fits exactly its own text.
pub proof fn lemma_plain_pattern(pattern: Seq<char>, name: Seq<char>)
    requires
        !pattern.contains('*'),
    ensures
        fits(pattern, name) <==> pattern == name,
    decreases pattern.len(),
{
    if pattern.len() > 0 {
        assert(pattern.contains(pattern[0]));
        let rest = pattern.skip(1);
        assert(!rest.contains('*')) by {
            if rest.contains('*') {
                let i = choose|i: int| 0 <= i < rest.len() && rest[i] == '*';
                assert(pattern[i + 1] == '*');
            }
        }
        if name.len() > 0 {
            lemma_plain_pattern(rest, name.skip(1));
            if name[0] == pattern[0] && rest == name.skip(1) {
                assert(pattern =~= seq![pattern[0]] + rest);
                assert(name =~= seq![name[0]] + name.skip(1));
            }
        }
    } else {
        assert(name.len() == 0 ==> name =~= pattern);
    }
}

/// A pattern with one `*` fits exactly the names that begin with what stands
/// before it and go on to end in what stands behind it.
pub proof fn lemma_one_star(lead: Seq<char>, tail: Seq<char>, name: Seq<char>)
    requires
        !lead.contains('*'),
        !tail.contains('*'),
    ensures
        fits(lead + seq!['*'] + tail, name) <==> {
            &&& name.len() >= lead.len() + tail.len()
            &&& lead.is_prefix_of(name)
            &&& tail.is_suffix_of(name)
        },
    decreases lead.len(),
{
    let pattern = lead + seq!['*'] + tail;
    if lead.len() == 0 {
        assert(pattern[0] == '*');
        assert(pattern.skip(1) =~= tail);
        assert(name.take(0) =~= lead);
        lemma_star(pattern, name);
        if fits(pattern, name) {
            let k = choose|k: int| 0 <= k <= name.len() && #[trigger] fits(tail, name.skip(k));
            lemma_plain_pattern(tail, name.skip(k));
            assert(name.subrange(name.len() - tail.len(), name.len() as int) =~= tail);
        }
        if name.len() >= tail.len() && tail.is_suffix_of(name) {
            let k = name.len() - tail.len();
            assert(name.skip(k) =~= tail);
            lemma_plain_pattern(tail, name.skip(k));
            assert(fits(pattern.skip(1), name.skip(k)));
        }
    } else {
        assert(lead.contains(lead[0]));
        assert(pattern[0] == lead[0]);
        let rest = lead.skip(1);
        assert(!rest.contains('*')) by {
            if rest.contains('*') {
                let i = choose|i: int| 0 <= i < rest.len() && rest[i] == '*';
                assert(lead[i + 1] == '*');
            }
        }
        assert(pattern.skip(1) =~= rest + seq!['*'] + tail);
        if name.len() > 0 {
            let after = name.skip(1);
            lemma_one_star(rest, tail, after);
            if name.len() >= lead.len() + tail.len() {
                assert(after.subrange(after.len() - tail.len(), after.len() as int)
                    =~= name.subrange(name.len() - tail.len(), name.len() as int));
                if lead.is_prefix_of(name) {
                    assert(name[0] == lead[0]);
                    assert(after.take(rest.len() as int) =~= rest);
                }
                if name[0] == lead[0] && rest.is_prefix_of(after) {
                    assert forall|j: int| 0 <= j < lead.len() implies name[j] == lead[j] by {
                        if j > 0 {
                            assert(rest[j - 1] == after[j - 1]);
                        }
                    }
                    assert(name.take(lead.len() as int) =~= lead);
                }
            }
        } else if lead.is_prefix_of(name) {
            assert(lead.len() <= name.len());
        }
    }
}

} // verus!
