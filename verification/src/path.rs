//! Unix paths as text: joining, taking apart and comparing them by component.

use vstd::prelude::*;

use crate::strings;
use crate::text;

verus! {

pub open spec fn is_absolute(p: Seq<char>) -> bool {
    p.len() > 0 && p[0] == '/'
}

/// `q` under `p`; an absolute `q` stands for itself.
pub open spec fn join(p: Seq<char>, q: Seq<char>) -> Seq<char> {
    if is_absolute(q) {
        q
    } else if p.len() == 0 || p.last() == '/' {
        p + q
    } else {
        p.push('/') + q
    }
}

/// A path tail without the separators and `.` components at its start.
pub open spec fn skip_lead(p: Seq<char>) -> Seq<char>
    decreases p.len(),
{
    if p.len() == 0 {
        p
    } else if p[0] == '/' || (p[0] == '.' && (p.len() == 1 || p[1] == '/')) {
        skip_lead(p.skip(1))
    } else {
        p
    }
}

/// How many characters stand before the first separator.
pub open spec fn segment_len(p: Seq<char>) -> nat
    decreases p.len(),
{
    if p.len() == 0 || p[0] == '/' {
        0
    } else {
        1 + segment_len(p.skip(1))
    }
}

/// How many characters of a path its first component takes.
pub open spec fn first_len(p: Seq<char>) -> nat {
    if is_absolute(p) {
        1
    } else {
        segment_len(p)
    }
}

pub proof fn lemma_skip_lead(p: Seq<char>)
    ensures
        skip_lead(p).len() <= p.len(),
    decreases p.len(),
{
    if p.len() > 0 {
        lemma_skip_lead(p.skip(1));
    }
}

pub proof fn lemma_segment_len(p: Seq<char>)
    ensures
        segment_len(p) <= p.len(),
        p.len() > 0 && p[0] != '/' ==> segment_len(p) > 0,
        forall|j: int| 0 <= j < segment_len(p) ==> #[trigger] p[j] != '/',
        segment_len(p) < p.len() ==> p[segment_len(p) as int] == '/',
    decreases p.len(),
{
    if p.len() > 0 && p[0] != '/' {
        lemma_segment_len(p.skip(1));
        assert forall|j: int| 0 <= j < segment_len(p) implies #[trigger] p[j] != '/' by {
            if j > 0 {
                assert(p.skip(1)[j - 1] == p[j]);
            }
        }
    }
}

/// What follows the first component.
pub open spec fn after_first(p: Seq<char>) -> Seq<char> {
    skip_lead(p.skip(first_len(p) as int))
}

pub proof fn lemma_after_first(p: Seq<char>)
    requires
        p.len() > 0,
    ensures
        0 < first_len(p) <= p.len(),
        after_first(p).len() < p.len(),
{
    lemma_segment_len(p);
    lemma_skip_lead(p.skip(first_len(p) as int));
}

/// The components of a path: the root as `/`, then the names between the
/// separators. Repeated separators, a separator at the end and `.` count for
/// nothing, but for a `.` that the path starts with.
pub open spec fn components(p: Seq<char>) -> Seq<Seq<char>>
    decreases p.len(),
{
    if p.len() == 0 {
        seq![]
    } else {
        proof {
            lemma_after_first(p);
        }
        seq![p.take(first_len(p) as int)] + components(after_first(p))
    }
}

/// What follows the first `n` components.
pub open spec fn after_components(p: Seq<char>, n: nat) -> Seq<char>
    decreases n,
{
    if n == 0 {
        p
    } else {
        after_components(after_first(p), (n - 1) as nat)
    }
}

/// A path without the separators and `.` components at its end.
pub open spec fn trim_tail(p: Seq<char>) -> Seq<char>
    decreases p.len(),
{
    if p.len() > 1 && (p.last() == '/' || (p.last() == '.' && p[p.len() - 2] == '/')) {
        trim_tail(p.drop_last())
    } else {
        p
    }
}

/// How many characters of a text its last separator ends.
pub open spec fn last_separator(p: Seq<char>) -> nat
    decreases p.len(),
{
    if p.len() == 0 {
        0
    } else if p.last() == '/' {
        p.len()
    } else {
        last_separator(p.drop_last())
    }
}

/// The last component, if it is a name.
pub open spec fn file_name(p: Seq<char>) -> Option<Seq<char>> {
    let t = trim_tail(p);
    let name = t.skip(last_separator(t) as int);
    if name.len() == 0 || name == seq!['.'] || name == seq!['.', '.'] {
        None
    } else {
        Some(name)
    }
}

/// The path without its last component; the root and the empty path have no parent.
pub open spec fn parent(p: Seq<char>) -> Option<Seq<char>> {
    let t = trim_tail(p);
    if t.len() == 0 || t == seq!['/'] {
        None
    } else {
        Some(trim_tail(t.take(last_separator(t) as int)))
    }
}

/// Whether the components of `base` are the first ones of `p`.
pub open spec fn starts_with(p: Seq<char>, base: Seq<char>) -> bool {
    components(base).is_prefix_of(components(p))
}

/// What `p` adds to `base`, if it starts with it.
pub open spec fn strip_prefix(p: Seq<char>, base: Seq<char>) -> Option<Seq<char>> {
    if starts_with(p, base) {
        Some(trim_tail(after_components(p, components(base).len())))
    } else {
        None
    }
}

/// Whether two texts name the same path, component by component.
pub open spec fn same_path(p: Seq<char>, q: Seq<char>) -> bool {
    components(p) == components(q)
}

/// How many characters of a file name its stem takes: up to the last dot,
/// unless that is the first character.
pub open spec fn stem_len(name: Seq<char>) -> nat {
    let d = last_dot(name);
    if d <= 1 {
        name.len()
    } else {
        (d - 1) as nat
    }
}

/// How many characters of a text its last dot ends.
pub open spec fn last_dot(name: Seq<char>) -> nat
    decreases name.len(),
{
    if name.len() == 0 {
        0
    } else if name.last() == '.' {
        name.len()
    } else {
        last_dot(name.drop_last())
    }
}

/// What follows the last dot of a file name, if that is not its first character.
pub open spec fn extension(p: Seq<char>) -> Option<Seq<char>> {
    match file_name(p) {
        Some(name) => if last_dot(name) <= 1 {
            None
        } else {
            Some(name.skip(last_dot(name) as int))
        },
        None => None,
    }
}

/// The path with the last component replaced, or added if it is no name.
pub open spec fn with_file_name(p: Seq<char>, name: Seq<char>) -> Seq<char> {
    match (file_name(p), parent(p)) {
        (Some(_), Some(dir)) => join(dir, name),
        _ => join(p, name),
    }
}

/// The path with the extension of its file name replaced, or added.
pub open spec fn with_extension(p: Seq<char>, ext: Seq<char>) -> Seq<char> {
    match file_name(p) {
        Some(name) => {
            let t = trim_tail(p);
            let stem = t.take(t.len() - name.len() + stem_len(name));
            if ext.len() == 0 {
                stem
            } else {
                stem.push('.') + ext
            }
        },
        None => p,
    }
}

pub proof fn lemma_last_separator(p: Seq<char>)
    ensures
        last_separator(p) <= p.len(),
        last_separator(p) > 0 ==> p[last_separator(p) - 1] == '/',
        forall|j: int| last_separator(p) <= j < p.len() ==> #[trigger] p[j] != '/',
    decreases p.len(),
{
    if p.len() > 0 && p.last() != '/' {
        lemma_last_separator(p.drop_last());
        assert forall|j: int| last_separator(p) <= j < p.len() implies #[trigger] p[j] != '/' by {
            if j < p.len() - 1 {
                assert(p.drop_last()[j] == p[j]);
            }
        }
    }
}

pub proof fn lemma_last_dot(name: Seq<char>)
    ensures
        last_dot(name) <= name.len(),
        last_dot(name) > 0 ==> name[last_dot(name) - 1] == '.',
        forall|j: int| last_dot(name) <= j < name.len() ==> #[trigger] name[j] != '.',
    decreases name.len(),
{
    if name.len() > 0 && name.last() != '.' {
        lemma_last_dot(name.drop_last());
        assert forall|j: int| last_dot(name) <= j < name.len() implies #[trigger] name[j] != '.' by {
            if j < name.len() - 1 {
                assert(name.drop_last()[j] == name[j]);
            }
        }
    }
}

/// Whether a text is the name of a single thing in a directory.
pub open spec fn is_name(s: Seq<char>) -> bool {
    &&& s.len() > 0
    &&& !s.contains('/')
    &&& s != "."@
    &&& s != ".."@
}

proof fn lemma_segment_append(p: Seq<char>, s: Seq<char>)
    ensures
        segment_len(p) < p.len() ==> segment_len(p + s) == segment_len(p),
        segment_len(p) == p.len() && !s.contains('/') ==> segment_len(p + s) == p.len() + s.len(),
        segment_len(p) == p.len() && s.len() > 0 && s[0] == '/' ==> segment_len(p + s) == p.len(),
    decreases p.len() + s.len(),
{
    if p.len() > 0 {
        assert((p + s)[0] == p[0]);
        assert((p + s).skip(1) =~= p.skip(1) + s);
        lemma_segment_append(p.skip(1), s);
    } else if s.len() > 0 {
        assert(p + s =~= s);
        assert(!s.contains('/') ==> s[0] != '/');
        assert(s.skip(1).contains('/') ==> s.contains('/')) by {
            if s.skip(1).contains('/') {
                let i = choose|i: int| 0 <= i < s.skip(1).len() && s.skip(1)[i] == '/';
                assert(s[i + 1] == '/');
            }
        }
        assert(Seq::<char>::empty() + s.skip(1) =~= s.skip(1));
        lemma_segment_append(Seq::empty(), s.skip(1));
    }
}

/// A name is its only component.
proof fn lemma_name_is_one(s: Seq<char>)
    requires
        s.len() > 0,
        !s.contains('/'),
    ensures
        components(s) == seq![s],
{
    assert(s[0] != '/');
    assert(Seq::<char>::empty() + s =~= s);
    lemma_segment_append(Seq::empty(), s);
    assert(s.take(s.len() as int) =~= s);
    assert(s.skip(s.len() as int) =~= Seq::<char>::empty());
    assert(components(after_first(s)) =~= seq![]);
    assert(seq![s] + Seq::<Seq<char>>::empty() =~= seq![s]);
}

/// A text that goes on with a longer last component goes on after its leading
/// separators too, unless nothing but those stood there.
proof fn lemma_skip_lead_grown(p: Seq<char>, s: Seq<char>)
    requires
        s.len() > 1,
        !s.contains('/'),
    ensures
        skip_lead(p + s) == skip_lead(p) + s || (skip_lead(p).len() == 0 && skip_lead(p + s).len()
            > 0),
    decreases p.len(),
{
    assert(s[0] != '/' && s[1] != '/');
    if p.len() == 0 {
        assert(p + s =~= s);
    } else {
        let grown = p + s;
        assert(grown[0] == p[0]);
        assert(grown[1] == if p.len() > 1 {
            p[1]
        } else {
            s[0]
        });
        if p[0] == '/' || (p[0] == '.' && (p.len() == 1 || p[1] == '/')) {
            assert(grown.skip(1) =~= p.skip(1) + s);
            lemma_skip_lead_grown(p.skip(1), s);
            if p[0] == '.' && p.len() == 1 {
                assert(p.skip(1).len() == 0);
            }
        }
    }
}

/// A path whose last component was made longer does not lead to where it led
/// before, nor to anything above that.
pub proof fn lemma_grown_elsewhere(p: Seq<char>, s: Seq<char>)
    requires
        s.len() > 1,
        !s.contains('/'),
    ensures
        !starts_with(p, p + s),
    decreases p.len(),
{
    let grown = p + s;
    if p.len() == 0 {
        assert(grown =~= s);
        lemma_name_is_one(s);
    } else {
        let n = first_len(p) as int;
        lemma_segment_len(p);
        lemma_after_first(p);
        lemma_segment_append(p, s);
        assert(grown[0] == p[0]);
        if !is_absolute(p) && n == p.len() {
            assert(components(grown)[0] == grown.take(grown.len() as int));
            assert(components(p)[0] == p.take(n));
            assert(components(grown)[0].len() > components(p)[0].len());
        } else {
            assert(first_len(grown) == n);
            assert(grown.take(n) =~= p.take(n));
            assert(grown.skip(n) =~= p.skip(n) + s);
            lemma_skip_lead_grown(p.skip(n), s);
            let a = components(after_first(grown));
            let b = components(after_first(p));
            assert(components(grown) == seq![p.take(n)] + a);
            assert(components(p) == seq![p.take(n)] + b);
            if after_first(grown) == after_first(p) + s {
                lemma_grown_elsewhere(after_first(p), s);
            }
            assert(!a.is_prefix_of(b));
            if components(grown).is_prefix_of(components(p)) {
                assert(a =~= components(grown).skip(1));
                assert(b =~= components(p).skip(1));
                assert(a =~= b.take(a.len() as int));
            }
        }
    }
}

proof fn lemma_skip_lead_named(p: Seq<char>, name: Seq<char>)
    requires
        p.len() == 0 || p.last() == '/',
        is_name(name),
    ensures
        skip_lead(p + name) == skip_lead(p) + name,
        skip_lead(p).len() == 0 || skip_lead(p).last() == '/',
    decreases p.len(),
{
    reveal_strlit(".");
    if p.len() == 0 {
        assert(p + name =~= name);
        assert(name[0] != '/');
        if name.len() == 1 && name[0] == '.' {
            assert(name =~= "."@);
        }
        assert(name.len() > 1 ==> name[1] != '/');
    } else {
        let whole = p + name;
        assert(whole[0] == p[0]);
        assert(p.len() > 1 ==> whole[1] == p[1]);
        if p[0] == '/' || (p[0] == '.' && p.len() > 1 && p[1] == '/') {
            assert(whole.skip(1) =~= p.skip(1) + name);
            lemma_skip_lead_named(p.skip(1), name);
        }
    }
}

proof fn lemma_components_named(p: Seq<char>, name: Seq<char>)
    requires
        p.len() == 0 || p.last() == '/',
        is_name(name),
    ensures
        components(p + name) == components(p).push(name),
    decreases p.len(),
{
    let whole = p + name;
    if p.len() == 0 {
        assert(whole =~= name);
        lemma_name_is_one(name);
        assert(Seq::<Seq<char>>::empty().push(name) =~= seq![name]);
    } else {
        let n = first_len(p) as int;
        lemma_segment_len(p);
        lemma_after_first(p);
        lemma_segment_append(p, name);
        assert(whole[0] == p[0]);
        assert(first_len(whole) == n);
        assert(whole.take(n) =~= p.take(n));
        assert(whole.skip(n) =~= p.skip(n) + name);
        lemma_skip_lead_named(p.skip(n), name);
        lemma_components_named(after_first(p), name);
        assert(components(whole) =~= components(p).push(name));
    }
}

proof fn lemma_skip_lead_closed(p: Seq<char>)
    ensures
        skip_lead(p.push('/')) == if skip_lead(p).len() == 0 {
            skip_lead(p)
        } else {
            skip_lead(p).push('/')
        },
    decreases p.len(),
{
    let closed = p.push('/');
    if p.len() == 0 {
        assert(closed.skip(1) =~= p);
    } else {
        assert(closed.skip(1) =~= p.skip(1).push('/'));
        lemma_skip_lead_closed(p.skip(1));
    }
}

/// A separator at the end counts for nothing.
proof fn lemma_components_closed(p: Seq<char>)
    requires
        p.len() > 0,
    ensures
        components(p.push('/')) == components(p),
    decreases p.len(),
{
    let closed = p.push('/');
    let n = first_len(p) as int;
    lemma_segment_len(p);
    lemma_after_first(p);
    assert(closed[0] == p[0]);
    assert(closed =~= p + seq!['/']);
    lemma_segment_append(p, seq!['/']);
    assert(first_len(closed) == n);
    assert(closed.take(n) =~= p.take(n));
    assert(closed.skip(n) =~= p.skip(n).push('/'));
    lemma_skip_lead_closed(p.skip(n));
    if after_first(p).len() > 0 {
        lemma_components_closed(after_first(p));
    }
}

/// A name under a path adds one component to it.
pub proof fn lemma_components_join(p: Seq<char>, name: Seq<char>)
    requires
        is_name(name),
    ensures
        components(join(p, name)) == components(p).push(name),
{
    assert(name[0] != '/');
    if p.len() == 0 || p.last() == '/' {
        lemma_components_named(p, name);
    } else {
        lemma_components_named(p.push('/'), name);
        lemma_components_closed(p);
    }
}

/// Two things in a directory do not lie in each other.
pub proof fn lemma_names_apart(dir: Seq<char>, one: Seq<char>, other: Seq<char>)
    requires
        is_name(one),
        is_name(other),
        one != other,
    ensures
        !starts_with(join(dir, one), join(dir, other)),
{
    lemma_components_join(dir, one);
    lemma_components_join(dir, other);
    let a = components(join(dir, one));
    let b = components(join(dir, other));
    assert(a.last() == one && b.last() == other);
    assert(a.len() == b.len());
}

pub fn is_absolute_path(p: &str) -> (r: bool)
    ensures
        r == is_absolute(p@),
{
    p.unicode_len() > 0 && p.get_char(0) == '/'
}

/// `q` under `p`; an absolute `q` stands for itself.
pub fn join_path(p: &str, q: &str) -> (r: String)
    ensures
        r@ == join(p@, q@),
{
    if is_absolute_path(q) {
        return q.to_owned();
    }
    let n = p.unicode_len();
    if n == 0 || p.get_char(n - 1) == '/' {
        strings::cat2(p, q)
    } else {
        let mut r = p.to_owned();
        r.push('/');
        r.append(q);
        r
    }
}

fn skip_lead_from(v: &Vec<char>, from: usize) -> (i: usize)
    requires
        from <= v.len(),
    ensures
        from <= i <= v.len(),
        v@.skip(i as int) == skip_lead(v@.skip(from as int)),
{
    let mut i = from;
    while i < v.len() && (v[i] == '/' || (v[i] == '.' && (i + 1 == v.len() || v[i + 1] == '/')))
        invariant
            from <= i <= v.len(),
            skip_lead(v@.skip(i as int)) == skip_lead(v@.skip(from as int)),
        decreases v.len() - i,
    {
        assert(v@.skip(i as int).skip(1) =~= v@.skip(i + 1));
        assert(v@.skip(i as int)[0] == v@[i as int]);
        assert(i + 1 < v.len() ==> v@.skip(i as int)[1] == v@[i + 1]);
        i += 1;
    }
    proof {
        if i < v.len() {
            assert(v@.skip(i as int)[0] == v@[i as int]);
            assert(i + 1 < v.len() ==> v@.skip(i as int)[1] == v@[i + 1]);
        }
    }
    i
}

fn first_end(v: &Vec<char>, from: usize) -> (i: usize)
    requires
        from < v.len(),
    ensures
        from < i <= v.len(),
        i - from == first_len(v@.skip(from as int)),
{
    let ghost rest = v@.skip(from as int);
    proof {
        lemma_segment_len(rest);
        assert(rest[0] == v@[from as int]);
    }
    if v[from] == '/' {
        return from + 1;
    }
    let mut i = from;
    while i < v.len() && v[i] != '/'
        invariant
            rest == v@.skip(from as int),
            from <= i <= v.len(),
            i - from <= segment_len(rest) <= rest.len(),
            forall|j: int| 0 <= j < segment_len(rest) ==> #[trigger] rest[j] != '/',
            segment_len(rest) < rest.len() ==> rest[segment_len(rest) as int] == '/',
        decreases v.len() - i,
    {
        assert(rest[i - from] == v@[i as int]);
        i += 1;
    }
    proof {
        if i < v.len() {
            assert(rest[i - from] == v@[i as int]);
        }
    }
    i
}

/// The components of a path.
pub fn path_components(p: &str) -> (r: Vec<String>)
    ensures
        text::texts(r@) == components(p@),
{
    let v = strings::chars_of(p);
    let mut out: Vec<String> = Vec::new();
    let mut i: usize = 0;
    assert(p@.skip(0) =~= p@);
    assert(text::texts(out@) + components(p@) =~= components(p@));
    while i < v.len()
        invariant
            v@ == p@,
            i <= v.len(),
            text::texts(out@) + components(p@.skip(i as int)) == components(p@),
        decreases v.len() - i,
    {
        let end = first_end(&v, i);
        let part = strings::from_chars(&v, i, end);
        let next = skip_lead_from(&v, end);
        proof {
            let rest = p@.skip(i as int);
            assert(part@ =~= rest.take(first_len(rest) as int));
            assert(rest.skip(first_len(rest) as int) =~= p@.skip(end as int));
            assert(text::texts(out@.push(part)) =~= text::texts(out@).push(part@));
            assert(text::texts(out@.push(part)) + components(p@.skip(next as int))
                =~= text::texts(out@) + components(rest));
        }
        out.push(part);
        i = next;
    }
    assert(text::texts(out@) + components(p@.skip(i as int)) =~= text::texts(out@));
    out
}

fn is_prefix(a: &Vec<String>, b: &Vec<String>) -> (r: bool)
    ensures
        r == text::texts(a@).is_prefix_of(text::texts(b@)),
{
    if a.len() > b.len() {
        return false;
    }
    let ghost ta = text::texts(a@);
    let ghost tb = text::texts(b@);
    let mut i: usize = 0;
    while i < a.len()
        invariant
            i <= a.len() <= b.len(),
            ta == text::texts(a@),
            tb == text::texts(b@),
            forall|j: int| 0 <= j < i ==> ta[j] == tb[j],
        decreases a.len() - i,
    {
        if !strings::same(a[i].as_str(), b[i].as_str()) {
            assert(ta[i as int] != tb.subrange(0, ta.len() as int)[i as int]);
            return false;
        }
        i += 1;
    }
    assert(ta =~= tb.subrange(0, ta.len() as int));
    true
}

/// Whether the components of `base` are the first ones of `p`.
pub fn path_starts_with(p: &str, base: &str) -> (r: bool)
    ensures
        r == starts_with(p@, base@),
{
    is_prefix(&path_components(base), &path_components(p))
}

/// Whether two texts name the same path.
pub fn paths_equal(p: &str, q: &str) -> (r: bool)
    ensures
        r == same_path(p@, q@),
{
    let a = path_components(p);
    let b = path_components(q);
    proof {
        let ta = text::texts(a@);
        let tb = text::texts(b@);
        if ta.len() == tb.len() {
            assert(tb.subrange(0, ta.len() as int) =~= tb);
        }
    }
    a.len() == b.len() && is_prefix(&a, &b)
}

fn trim_tail_len(v: &Vec<char>, from: usize) -> (n: usize)
    requires
        from <= v.len(),
    ensures
        from <= n <= v.len(),
        v@.subrange(from as int, n as int) == trim_tail(v@.skip(from as int)),
{
    let mut n = v.len();
    assert(v@.subrange(from as int, n as int) =~= v@.skip(from as int));
    while n - from > 1 && (v[n - 1] == '/' || (v[n - 1] == '.' && v[n - 2] == '/'))
        invariant
            from <= n <= v.len(),
            trim_tail(v@.subrange(from as int, n as int)) == trim_tail(v@.skip(from as int)),
        decreases n,
    {
        assert(v@.subrange(from as int, n as int).drop_last() =~= v@.subrange(from as int, n - 1));
        n -= 1;
    }
    n
}

pub fn last_separator_in(v: &Vec<char>) -> (i: usize)
    ensures
        i == last_separator(v@),
{
    let mut i = v.len();
    assert(v@.take(i as int) =~= v@);
    while i > 0 && v[i - 1] != '/'
        invariant
            i <= v.len(),
            last_separator(v@.take(i as int)) == last_separator(v@),
        decreases i,
    {
        assert(v@.take(i as int).drop_last() =~= v@.take(i - 1));
        i -= 1;
    }
    i
}

fn trimmed(p: &str) -> (v: Vec<char>)
    ensures
        v@ == trim_tail(p@),
{
    let all = strings::chars_of(p);
    let n = trim_tail_len(&all, 0);
    let t = strings::from_chars(&all, 0, n);
    assert(p@.skip(0) =~= p@);
    strings::chars_of(&t)
}

/// The last component of a path, if it is a name.
pub fn path_file_name(p: &str) -> (r: Option<String>)
    ensures
        text::opt_text(r) == file_name(p@),
{
    let v = trimmed(p);
    let start = last_separator_in(&v);
    proof {
        lemma_last_separator(v@);
    }
    let name = strings::from_chars(&v, start, v.len());
    assert(name@ =~= v@.skip(start as int));
    let n = v.len() - start;
    proof {
        assert(name@.len() == n);
        assert(n > 0 ==> name@[0] == v@[start as int]);
        assert(n > 1 ==> name@[1] == v@[start + 1]);
        if name@ == seq!['.'] {
            assert(name@.len() == 1 && name@[0] == '.');
        }
        if name@ == seq!['.', '.'] {
            assert(name@.len() == 2 && name@[0] == '.' && name@[1] == '.');
        }
    }
    if n == 0 {
        None
    } else if n == 1 && v[start] == '.' {
        assert(name@ =~= seq!['.']);
        None
    } else if n == 2 && v[start] == '.' && v[start + 1] == '.' {
        assert(name@ =~= seq!['.', '.']);
        None
    } else {
        Some(name)
    }
}

/// A path without its last component.
pub fn path_parent(p: &str) -> (r: Option<String>)
    ensures
        text::opt_text(r) == parent(p@),
{
    let v = trimmed(p);
    if v.len() == 0 {
        return None;
    }
    if v.len() == 1 && v[0] == '/' {
        assert(v@ =~= seq!['/']);
        return None;
    }
    proof {
        lemma_last_separator(v@);
    }
    let end = last_separator_in(&v);
    let dir = strings::from_chars(&v, 0, end);
    assert(dir@ =~= v@.take(end as int));
    let d = trimmed(&dir);
    let r = strings::from_chars(&d, 0, d.len());
    assert(r@ =~= d@);
    Some(r)
}

/// What `p` adds to `base`, if it starts with it.
pub fn path_strip_prefix(p: &str, base: &str) -> (r: Option<String>)
    ensures
        text::opt_text(r) == strip_prefix(p@, base@),
{
    let parts = path_components(base);
    if !is_prefix(&parts, &path_components(p)) {
        return None;
    }
    let v = strings::chars_of(p);
    let mut i: usize = 0;
    let mut n: usize = parts.len();
    let ghost total = parts.len() as nat;
    assert(p@.skip(0) =~= p@);
    proof {
        assert(components(base@).len() == total);
        assert(components(p@).len() >= total);
    }
    while n > 0
        invariant
            v@ == p@,
            i <= v.len(),
            n <= total,
            after_components(p@.skip(i as int), n as nat) == after_components(p@, total),
            components(p@.skip(i as int)).len() >= n,
        decreases n,
    {
        let end = first_end(&v, i);
        let next = skip_lead_from(&v, end);
        proof {
            let rest = p@.skip(i as int);
            assert(rest.skip(first_len(rest) as int) =~= p@.skip(end as int));
        }
        i = next;
        n -= 1;
    }
    let end = trim_tail_len(&v, i);
    Some(strings::from_chars(&v, i, end))
}

pub fn last_dot_in(v: &Vec<char>) -> (i: usize)
    ensures
        i == last_dot(v@),
{
    let mut i = v.len();
    assert(v@.take(i as int) =~= v@);
    while i > 0 && v[i - 1] != '.'
        invariant
            i <= v.len(),
            last_dot(v@.take(i as int)) == last_dot(v@),
        decreases i,
    {
        assert(v@.take(i as int).drop_last() =~= v@.take(i - 1));
        i -= 1;
    }
    i
}

/// The extension of a path's file name.
pub fn path_extension(p: &str) -> (r: Option<String>)
    ensures
        text::opt_text(r) == extension(p@),
{
    match path_file_name(p) {
        Some(name) => {
            let v = strings::chars_of(&name);
            let d = last_dot_in(&v);
            proof {
                lemma_last_dot(v@);
            }
            if d <= 1 {
                None
            } else {
                let ext = strings::from_chars(&v, d, v.len());
                assert(ext@ =~= v@.skip(d as int));
                Some(ext)
            }
        },
        None => None,
    }
}

/// A path with its last component replaced, or one added if it is no name.
pub fn path_with_file_name(p: &str, name: &str) -> (r: String)
    ensures
        r@ == with_file_name(p@, name@),
{
    match (path_file_name(p), path_parent(p)) {
        (Some(_), Some(dir)) => join_path(&dir, name),
        _ => join_path(p, name),
    }
}

/// A path with the extension of its file name replaced, or one added.
pub fn path_with_extension(p: &str, ext: &str) -> (r: String)
    ensures
        r@ == with_extension(p@, ext@),
{
    match path_file_name(p) {
        Some(name) => {
            let t = trimmed(p);
            let v = strings::chars_of(&name);
            let d = last_dot_in(&v);
            proof {
                lemma_last_dot(v@);
                lemma_last_separator(t@);
            }
            let stem = if d <= 1 { v.len() } else { d - 1 };
            let end = t.len() - v.len() + stem;
            let mut r = strings::from_chars(&t, 0, end);
            assert(r@ =~= t@.take(end as int));
            if ext.unicode_len() > 0 {
                r.push('.');
                r.append(ext);
            }
            r
        },
        None => p.to_owned(),
    }
}

/// A name under a path is the file name of the whole.
pub proof fn lemma_file_name_of_join(p: Seq<char>, name: Seq<char>)
    requires
        is_name(name),
    ensures
        file_name(join(p, name)) == Some(name),
        trim_tail(join(p, name)) == join(p, name),
        last_separator(join(p, name)) == join(p, name).len() - name.len(),
        join(p, name).skip(join(p, name).len() - name.len()) == name,
{
    reveal_strlit(".");
    reveal_strlit("..");
    let whole = join(p, name);
    let at = whole.len() - name.len();
    assert(name.contains(name[0]));
    assert(!is_absolute(name));
    assert forall|j: int| at <= j < whole.len() implies #[trigger] whole[j] != '/' by {
        assert(whole[j] == name[j - at]);
        assert(name.contains(name[j - at]));
    }
    assert(whole.skip(at) =~= name);
    assert(name != seq!['.'] && name != seq!['.', '.']) by {
        assert("."@ =~= seq!['.']);
        assert(".."@ =~= seq!['.', '.']);
    }
    assert(trim_tail(whole) == whole) by {
        assert(whole.last() != '/');
        if whole.len() > 1 && whole.last() == '.' && whole[whole.len() - 2] == '/' {
            assert(name.len() == 1);
            assert(name =~= seq!['.']);
        }
    }
    lemma_last_separator(whole);
    let sep = last_separator(whole) as int;
    if sep > at {
        assert(whole[sep - 1] == '/');
    }
    if at > 0 {
        assert(whole[at - 1] == '/');
        if sep < at {
            assert(whole[at - 1] != '/');
        }
    }
}

/// An extension of a name is what follows its last dot.
pub proof fn lemma_extension_of_join(p: Seq<char>, stem: Seq<char>, ext: Seq<char>, other: Seq<char>)
    requires
        is_name(stem + seq!['.'] + ext),
        stem.len() > 0,
        !ext.contains('.'),
        other.len() > 0,
    ensures
        extension(join(p, stem + seq!['.'] + ext)) == Some(ext),
        with_extension(join(p, stem + seq!['.'] + ext), other) == join(p, stem + seq!['.'] + other),
{
    let name = stem + seq!['.'] + ext;
    let whole = join(p, name);
    lemma_file_name_of_join(p, name);
    lemma_last_dot(name);
    let d = last_dot(name) as int;
    let n = stem.len() as int;
    assert(name[n] == '.');
    if d > n + 1 {
        assert(name[d - 1] == '.');
        assert(ext[d - 1 - n - 1] == '.');
    }
    assert(d == n + 1);
    assert(name.skip(d) =~= ext);
    let fresh = stem + seq!['.'] + other;
    assert(name[0] == stem[0]);
    assert(name.contains(name[0]));
    assert(!is_absolute(name) && !is_absolute(fresh));
    let cut = whole.take(whole.len() - name.len() + n);
    assert(cut.push('.') + other =~= join(p, fresh));
}

/// What lies in a directory has that directory as its parent.
pub proof fn lemma_parent_of_join(up: Seq<char>, dir: Seq<char>, name: Seq<char>)
    requires
        is_name(dir),
        is_name(name),
    ensures
        parent(join(join(up, dir), name)) == Some(join(up, dir)),
        with_file_name(join(join(up, dir), name), dir) == join(join(up, dir), dir),
{
    let d = join(up, dir);
    let whole = join(d, name);
    lemma_file_name_of_join(up, dir);
    lemma_file_name_of_join(d, name);
    assert(dir.contains(dir[0]) && name.contains(name[0]));
    assert(d.last() == dir.last());
    assert(dir.contains(dir[dir.len() - 1]));
    assert(d.last() != '/');
    let sep = last_separator(whole) as int;
    assert(whole.take(sep) =~= d.push('/'));
    assert(d.push('/').drop_last() =~= d);
    assert(whole.len() > 1);
}

/// An absolute path stands for itself, wherever it is put.
pub proof fn lemma_join_absolute(p: Seq<char>, q: Seq<char>)
    ensures
        q.len() > 0 && q[0] == '/' ==> join(p, q) == q,
        (q.len() == 0 || q[0] != '/') && p.len() > 0 && p.last() != '/' ==> join(p, q) == p + seq![
            '/',
        ] + q,
        (q.len() == 0 || q[0] != '/') && (p.len() == 0 || p.last() == '/') ==> join(p, q) == p + q,
{
    assert(p.push('/') + q =~= p + seq!['/'] + q);
}

proof fn lemma_after_named(p: Seq<char>, name: Seq<char>)
    requires
        is_name(name),
        p.len() == 0 || p.last() == '/',
    ensures
        after_components(p + name, components(p).len()) == name,
    decreases p.len(),
{
    if p.len() == 0 {
        assert(p + name =~= name);
    } else {
        lemma_after_first(p);
        lemma_segment_len(p);
        let n = first_len(p) as int;
        let whole = p + name;
        assert(whole[0] == p[0]);
        if !is_absolute(p) {
            if n == p.len() {
                assert(p[p.len() - 1] != '/');
            }
            lemma_segment_append(p, name);
        }
        assert(first_len(whole) == n);
        let rest = p.skip(n);
        assert(whole.skip(n) =~= rest + name);
        assert(rest.len() == 0 || rest.last() == '/');
        lemma_skip_lead_named(rest, name);
        lemma_after_named(after_first(p), name);
        assert(after_first(whole) == after_first(p) + name);
        assert(components(p).len() == 1 + components(after_first(p)).len());
    }
}

/// What lies in a directory is found again when the directory is taken away.
pub proof fn lemma_strip_prefix_of_join(p: Seq<char>, name: Seq<char>)
    requires
        is_name(name),
    ensures
        strip_prefix(join(p, name), p) == Some(name),
        starts_with(join(p, name), p),
{
    lemma_components_join(p, name);
    let all = components(join(p, name));
    assert(all.take(components(p).len() as int) =~= components(p));
    assert(name.contains(name[0]));
    if p.len() == 0 || p.last() == '/' {
        lemma_after_named(p, name);
    } else {
        lemma_after_named(p.push('/'), name);
        lemma_components_closed(p);
        assert(p.push('/') + name =~= join(p, name));
    }
    assert(join(Seq::<char>::empty(), name) =~= name);
    lemma_file_name_of_join(seq![], name);
}

} // verus!
