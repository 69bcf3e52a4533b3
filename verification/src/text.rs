//! Text as sequences of characters: the cutting, trimming, searching and
//! joining that the rest of the crate is stated and written with.

use vstd::prelude::*;

verus! {

/// `String::push` appends one character at the end.
pub assume_specification[ String::push ](s: &mut String, c: char)
    ensures
        final(s)@ == old(s)@.push(c),
;

/// Whether a character is a letter or a digit of any script.
pub uninterp spec fn unicode_alphanumeric(c: char) -> bool;

/// `char::is_alphanumeric`. For an ASCII character it says whether that is
/// one of `0-9`, `A-Z`, `a-z`; for any other one the answer comes from the
/// Unicode tables and is only named here.
#[verifier::external_body]
pub(crate) fn is_alphanumeric(c: char) -> (r: bool)
    ensures
        r == unicode_alphanumeric(c),
        (c as u32) < 128 ==> r == ascii_alphanumeric(c),
{
    c.is_alphanumeric()
}

pub open spec fn ascii_digit(c: char) -> bool {
    '0' <= c <= '9'
}

pub open spec fn ascii_alphanumeric(c: char) -> bool {
    ||| ascii_digit(c)
    ||| 'A' <= c <= 'Z'
    ||| 'a' <= c <= 'z'
}

pub open spec fn ascii_hex_digit(c: char) -> bool {
    ||| ascii_digit(c)
    ||| 'A' <= c <= 'F'
    ||| 'a' <= c <= 'f'
}

/// The characters with the Unicode property `White_Space`.
pub open spec fn whitespace(c: char) -> bool {
    ||| '\u{9}' <= c <= '\u{d}'
    ||| c == ' '
    ||| c == '\u{85}'
    ||| c == '\u{a0}'
    ||| c == '\u{1680}'
    ||| '\u{2000}' <= c <= '\u{200a}'
    ||| c == '\u{2028}'
    ||| c == '\u{2029}'
    ||| c == '\u{202f}'
    ||| c == '\u{205f}'
    ||| c == '\u{3000}'
}

pub fn is_ascii_digit(c: char) -> (r: bool)
    ensures
        r == ascii_digit(c),
{
    '0' <= c && c <= '9'
}

pub fn is_ascii_alphanumeric(c: char) -> (r: bool)
    ensures
        r == ascii_alphanumeric(c),
{
    is_ascii_digit(c) || ('A' <= c && c <= 'Z') || ('a' <= c && c <= 'z')
}

pub fn is_ascii_hex_digit(c: char) -> (r: bool)
    ensures
        r == ascii_hex_digit(c),
{
    is_ascii_digit(c) || ('A' <= c && c <= 'F') || ('a' <= c && c <= 'f')
}

pub fn is_whitespace(c: char) -> (r: bool)
    ensures
        r == whitespace(c),
{
    ('\u{9}' <= c && c <= '\u{d}') || c == ' ' || c == '\u{85}' || c == '\u{a0}' || c == '\u{1680}'
        || ('\u{2000}' <= c && c <= '\u{200a}') || c == '\u{2028}' || c == '\u{2029}' || c
        == '\u{202f}' || c == '\u{205f}' || c == '\u{3000}'
}

/// A set of characters that text is cut at, or trimmed of.
#[derive(Debug, Clone, Copy)]
pub enum Class {
    /// One character.
    Only(char),
    /// White space.
    Space,
    /// All but ASCII letters, ASCII digits and `.`.
    NotTempName,
    /// All but letters, digits, `/` and `-`.
    NotCommand,
}

impl Class {
    pub open spec fn holds(self, c: char) -> bool {
        match self {
            Class::Only(d) => c == d,
            Class::Space => whitespace(c),
            Class::NotTempName => !ascii_alphanumeric(c) && c != '.',
            Class::NotCommand => !unicode_alphanumeric(c) && c != '/' && c != '-',
        }
    }

    pub fn has(self, c: char) -> (r: bool)
        ensures
            r == self.holds(c),
    {
        match self {
            Class::Only(d) => c == d,
            Class::Space => is_whitespace(c),
            Class::NotTempName => !is_ascii_alphanumeric(c) && c != '.',
            Class::NotCommand => !is_alphanumeric(c) && c != '/' && c != '-',
        }
    }
}

/// The views of owned texts.
pub open spec fn texts(v: Seq<String>) -> Seq<Seq<char>> {
    Seq::new(v.len(), |i: int| v[i]@)
}

/// The views of borrowed texts.
pub open spec fn strs(v: Seq<&str>) -> Seq<Seq<char>> {
    Seq::new(v.len(), |i: int| v[i]@)
}

/// The texts of pairs.
pub open spec fn pairs(v: Seq<(String, String)>) -> Seq<(Seq<char>, Seq<char>)> {
    Seq::new(v.len(), |i: int| (v[i].0@, v[i].1@))
}

/// The text of an optional slice.
pub open spec fn opt_str(o: Option<&str>) -> Option<Seq<char>> {
    match o {
        Some(s) => Some(s@),
        None => None,
    }
}

/// The text of an optional value.
pub open spec fn opt_text(o: Option<String>) -> Option<Seq<char>> {
    match o {
        Some(s) => Some(s@),
        None => None,
    }
}

/// How many characters stand before the first one of the class.
pub open spec fn first_at(s: Seq<char>, k: Class) -> nat
    decreases s.len(),
{
    if s.len() == 0 || k.holds(s[0]) {
        0
    } else {
        1 + first_at(s.skip(1), k)
    }
}

pub proof fn lemma_first_at(s: Seq<char>, k: Class)
    ensures
        first_at(s, k) <= s.len(),
        forall|j: int| 0 <= j < first_at(s, k) ==> !k.holds(#[trigger] s[j]),
        first_at(s, k) < s.len() ==> k.holds(s[first_at(s, k) as int]),
    decreases s.len(),
{
    if s.len() == 0 || k.holds(s[0]) {
    } else {
        lemma_first_at(s.skip(1), k);
        assert forall|j: int| 0 <= j < first_at(s, k) implies !k.holds(#[trigger] s[j]) by {
            if j > 0 {
                assert(s.skip(1)[j - 1] == s[j]);
            }
        }
    }
}

/// The position that `first_at` names is the only one with its properties.
pub proof fn lemma_first_at_unique(s: Seq<char>, k: Class, i: int)
    requires
        0 <= i <= s.len(),
        forall|j: int| 0 <= j < i ==> !k.holds(#[trigger] s[j]),
        i < s.len() ==> k.holds(s[i]),
    ensures
        first_at(s, k) == i,
{
    lemma_first_at(s, k);
    if first_at(s, k) < i {
        assert(!k.holds(s[first_at(s, k) as int]));
    } else if i < first_at(s, k) {
        assert(!k.holds(s[i]));
    }
}

/// The parts of a text between the characters of a class, empty ones kept.
pub open spec fn fields(s: Seq<char>, k: Class) -> Seq<Seq<char>>
    decreases s.len(),
{
    let i = first_at(s, k) as int;
    if i < s.len() {
        seq![s.take(i)] + fields(s.skip(i + 1), k)
    } else {
        seq![s]
    }
}

/// The non-empty ones of several texts.
pub open spec fn nonempty(parts: Seq<Seq<char>>) -> Seq<Seq<char>>
    decreases parts.len(),
{
    if parts.len() == 0 {
        parts
    } else if parts[0].len() == 0 {
        nonempty(parts.skip(1))
    } else {
        seq![parts[0]] + nonempty(parts.skip(1))
    }
}

/// The words of a text: what stands between white space.
pub open spec fn words(s: Seq<char>) -> Seq<Seq<char>> {
    nonempty(fields(s, Class::Space))
}

/// A text without one carriage return at its end.
pub open spec fn strip_cr(s: Seq<char>) -> Seq<char> {
    if s.len() > 0 && s.last() == '\r' {
        s.drop_last()
    } else {
        s
    }
}

/// The lines of a text. A line ends in `\n` or `\r\n`, which do not belong
/// to it; what follows the last line end is a line unless it is empty.
pub open spec fn lines(s: Seq<char>) -> Seq<Seq<char>>
    decreases s.len(),
{
    let i = first_at(s, Class::Only('\n')) as int;
    if i < s.len() {
        seq![strip_cr(s.take(i))] + lines(s.skip(i + 1))
    } else if s.len() > 0 {
        seq![s]
    } else {
        seq![]
    }
}

/// Whether a text is empty or ends a line.
pub open spec fn ends_line(s: Seq<char>) -> bool {
    s.len() == 0 || s.last() == '\n'
}

/// The lines of two texts, the first of which ends a line.
pub proof fn lemma_lines_append(a: Seq<char>, b: Seq<char>)
    requires
        ends_line(a),
    ensures
        lines(a + b) == lines(a) + lines(b),
    decreases a.len(),
{
    let nl = Class::Only('\n');
    if a.len() == 0 {
        assert(a + b =~= b);
        assert(lines(a) + lines(b) =~= lines(b));
    } else {
        lemma_first_at(a, nl);
        let i = first_at(a, nl) as int;
        assert(i < a.len()) by {
            assert(a[a.len() - 1] == '\n');
        }
        assert forall|j: int| 0 <= j < i implies !nl.holds(#[trigger] (a + b)[j]) by {
            assert(!nl.holds(a[j]));
        }
        lemma_first_at_unique(a + b, nl, i);
        assert((a + b).take(i) =~= a.take(i));
        assert((a + b).skip(i + 1) =~= a.skip(i + 1) + b);
        lemma_lines_append(a.skip(i + 1), b);
        assert(seq![strip_cr(a.take(i))] + (lines(a.skip(i + 1)) + lines(b)) =~= seq![
            strip_cr(a.take(i)),
        ] + lines(a.skip(i + 1)) + lines(b));
    }
}

/// A text without line ends, and with no carriage return last, is a line.
pub proof fn lemma_one_line(s: Seq<char>)
    requires
        forall|i: int| 0 <= i < s.len() ==> s[i] != '\n',
        s.len() > 0 ==> s.last() != '\r',
    ensures
        lines(s.push('\n')) == seq![s],
{
    let t = s.push('\n');
    lemma_first_at_unique(t, Class::Only('\n'), s.len() as int);
    assert(t.take(s.len() as int) =~= s);
    assert(t.skip(s.len() as int + 1) =~= seq![]);
    assert(lines(seq![]) =~= seq![]);
    assert(seq![s] + lines(seq![]) =~= seq![s]);
}

/// What is put together of texts that end a line ends a line.
pub proof fn lemma_concat_ends_line(parts: Seq<Seq<char>>)
    requires
        forall|i: int| 0 <= i < parts.len() ==> ends_line(#[trigger] parts[i]),
    ensures
        ends_line(concat(parts)),
    decreases parts.len(),
{
    if parts.len() > 0 {
        assert forall|i: int| 0 <= i < parts.len() - 1 implies ends_line(
            #[trigger] parts.drop_last()[i],
        ) by {
            assert(ends_line(parts[i]));
        }
        lemma_concat_ends_line(parts.drop_last());
        assert(ends_line(parts[parts.len() - 1]));
        if parts.last().len() == 0 {
            assert(concat(parts) =~= concat(parts.drop_last()));
        }
    }
}

pub open spec fn trim_start(s: Seq<char>, k: Class) -> Seq<char>
    decreases s.len(),
{
    if s.len() > 0 && k.holds(s[0]) {
        trim_start(s.skip(1), k)
    } else {
        s
    }
}

pub open spec fn trim_end(s: Seq<char>, k: Class) -> Seq<char>
    decreases s.len(),
{
    if s.len() > 0 && k.holds(s.last()) {
        trim_end(s.drop_last(), k)
    } else {
        s
    }
}

/// A text without the characters of a class at both ends.
pub open spec fn trim_both(s: Seq<char>, k: Class) -> Seq<char> {
    trim_end(trim_start(s, k), k)
}

/// A text without white space at both ends.
pub open spec fn trim(s: Seq<char>) -> Seq<char> {
    trim_both(s, Class::Space)
}

pub open spec fn occurs_at(s: Seq<char>, p: Seq<char>, i: int) -> bool {
    0 <= i && i + p.len() <= s.len() && s.subrange(i, i + p.len()) == p
}

pub open spec fn contains(s: Seq<char>, p: Seq<char>) -> bool {
    exists|i: int| occurs_at(s, p, i)
}

/// Where `p` first occurs in `s`, not before `from`.
pub open spec fn occurrence_from(s: Seq<char>, p: Seq<char>, from: int) -> Option<int>
    decreases s.len() - from + 1,
{
    if from < 0 || from > s.len() {
        None
    } else if occurs_at(s, p, from) {
        Some(from)
    } else {
        occurrence_from(s, p, from + 1)
    }
}

/// What `occurrence_from` finds is the first occurrence, if there is one.
pub proof fn lemma_occurrence(s: Seq<char>, p: Seq<char>, from: int)
    requires
        0 <= from,
    ensures
        match occurrence_from(s, p, from) {
            Some(i) => from <= i && occurs_at(s, p, i) && forall|j: int|
                from <= j < i ==> !occurs_at(s, p, j),
            None => forall|j: int| from <= j ==> !occurs_at(s, p, j),
        },
        from == 0 ==> (contains(s, p) <==> occurrence_from(s, p, from) is Some),
    decreases s.len() - from + 1,
{
    if from <= s.len() && !occurs_at(s, p, from) {
        lemma_occurrence(s, p, from + 1);
    }
}

/// A text with the first occurrence of `p` replaced.
pub open spec fn replace_first(s: Seq<char>, p: Seq<char>, with: Seq<char>) -> Seq<char> {
    match occurrence_from(s, p, 0) {
        Some(i) => s.take(i) + with + s.skip(i + p.len()),
        None => s,
    }
}

pub open spec fn concat(parts: Seq<Seq<char>>) -> Seq<char>
    decreases parts.len(),
{
    if parts.len() == 0 {
        seq![]
    } else {
        concat(parts.drop_last()) + parts.last()
    }
}

/// Taking one part more adds it at the end.
pub proof fn lemma_concat_take(parts: Seq<Seq<char>>, i: int)
    requires
        0 <= i < parts.len(),
    ensures
        concat(parts.take(i + 1)) == concat(parts.take(i)) + parts[i],
{
    assert(parts.take(i + 1).drop_last() =~= parts.take(i));
}

/// A text holds what a part of it holds.
pub proof fn lemma_contains_within(a: Seq<char>, b: Seq<char>, c: Seq<char>, p: Seq<char>)
    requires
        contains(b, p),
    ensures
        contains(a + b + c, p),
{
    let i = choose|i: int| occurs_at(b, p, i);
    let all = a + b + c;
    let at = a.len() + i;
    assert(all.subrange(at, at + p.len()) =~= b.subrange(i, i + p.len()));
    assert(occurs_at(all, p, at));
}

/// What is put together of parts holds each of them.
pub proof fn lemma_concat_contains(parts: Seq<Seq<char>>, i: int, p: Seq<char>)
    requires
        0 <= i < parts.len(),
        contains(parts[i], p),
    ensures
        contains(concat(parts), p),
    decreases parts.len(),
{
    let front = concat(parts.drop_last());
    let none = Seq::<char>::empty();
    if i == parts.len() - 1 {
        lemma_contains_within(front, parts.last(), none, p);
        assert(front + parts.last() + none =~= concat(parts));
    } else {
        lemma_concat_contains(parts.drop_last(), i, p);
        lemma_contains_within(none, front, parts.last(), p);
        assert(none + front + parts.last() =~= concat(parts));
    }
}

/// The parts with `sep` between each two.
pub open spec fn join(parts: Seq<Seq<char>>, sep: Seq<char>) -> Seq<char>
    decreases parts.len(),
{
    if parts.len() == 0 {
        seq![]
    } else if parts.len() == 1 {
        parts[0]
    } else {
        join(parts.drop_last(), sep) + sep + parts.last()
    }
}

/// Dictionary order by code point, which is also the order of the UTF-8 bytes.
pub open spec fn before(a: Seq<char>, b: Seq<char>) -> bool
    decreases b.len(),
{
    if b.len() == 0 {
        false
    } else if a.len() == 0 {
        true
    } else if a[0] != b[0] {
        a[0] < b[0]
    } else {
        before(a.skip(1), b.skip(1))
    }
}

pub proof fn lemma_before_irreflexive(a: Seq<char>)
    ensures
        !before(a, a),
    decreases a.len(),
{
    if a.len() > 0 {
        lemma_before_irreflexive(a.skip(1));
    }
}

pub proof fn lemma_before_transitive(a: Seq<char>, b: Seq<char>, c: Seq<char>)
    requires
        before(a, b),
        before(b, c),
    ensures
        before(a, c),
    decreases a.len(),
{
    if a.len() > 0 && a[0] == b[0] && b[0] == c[0] {
        lemma_before_transitive(a.skip(1), b.skip(1), c.skip(1));
    }
}

pub proof fn lemma_before_total(a: Seq<char>, b: Seq<char>)
    ensures
        a == b || before(a, b) || before(b, a),
    decreases a.len(),
{
    if a.len() > 0 && b.len() > 0 && a[0] == b[0] {
        lemma_before_total(a.skip(1), b.skip(1));
        if a.skip(1) == b.skip(1) {
            assert(a =~= seq![a[0]] + a.skip(1));
            assert(b =~= seq![b[0]] + b.skip(1));
        }
    } else if a.len() == 0 && b.len() == 0 {
        assert(a =~= b);
    }
}

pub open spec fn digit_char(d: nat) -> char {
    if d == 0 { '0' }
    else if d == 1 { '1' }
    else if d == 2 { '2' }
    else if d == 3 { '3' }
    else if d == 4 { '4' }
    else if d == 5 { '5' }
    else if d == 6 { '6' }
    else if d == 7 { '7' }
    else if d == 8 { '8' }
    else { '9' }
}

/// A number in decimal digits, without leading zeros.
pub open spec fn decimal(n: nat) -> Seq<char>
    decreases n,
{
    if n < 10 {
        seq![digit_char(n)]
    } else {
        decimal(n / 10).push(digit_char(n % 10))
    }
}

pub open spec fn all_digits(s: Seq<char>) -> bool {
    forall|i: int| 0 <= i < s.len() ==> ascii_digit(#[trigger] s[i])
}

/// The value of a row of decimal digits.
pub open spec fn digits_value(s: Seq<char>) -> nat
    decreases s.len(),
{
    if s.len() == 0 {
        0
    } else {
        digits_value(s.drop_last()) * 10 + (s.last() as u32 - '0' as u32) as nat
    }
}

/// More digits never make a smaller value.
pub proof fn lemma_digits_value_grows(s: Seq<char>, i: int)
    requires
        0 <= i <= s.len(),
    ensures
        digits_value(s.take(i)) <= digits_value(s),
    decreases s.len() - i,
{
    if i == s.len() {
        assert(s.take(i) =~= s);
    } else {
        lemma_digits_value_grows(s, i + 1);
        assert(s.take(i + 1).drop_last() =~= s.take(i));
    }
}

/// The number that a text writes: decimal digits, after an optional `+`, of
/// a value below 2^64.
pub open spec fn number(s: Seq<char>) -> Option<u64> {
    let digits = if s.len() > 1 && s[0] == '+' { s.skip(1) } else { s };
    if digits.len() > 0 && all_digits(digits) && digits_value(digits) <= u64::MAX {
        Some(digits_value(digits) as u64)
    } else {
        None
    }
}

/// The lower-case form of an ASCII letter; any other character unchanged.
pub open spec fn ascii_lower(c: char) -> char {
    if 'A' <= c <= 'Z' {
        ((c as u32) + 32) as char
    } else {
        c
    }
}

pub open spec fn eq_ignore_case(a: Seq<char>, b: Seq<char>) -> bool {
    a.len() == b.len() && forall|i: int|
        0 <= i < a.len() ==> #[trigger] ascii_lower(a[i]) == ascii_lower(b[i])
}

/// Trimming at the start leaves what follows a character outside the class.
proof fn lemma_trim_start_span(s: Seq<char>, k: Class, i: int)
    requires
        0 <= i < s.len(),
        !k.holds(s[i]),
    ensures
        s.len() - i <= trim_start(s, k).len() <= s.len(),
        trim_start(s, k) == s.skip(s.len() - trim_start(s, k).len()),
    decreases s.len(),
{
    assert(s.skip(0) =~= s);
    if k.holds(s[0]) {
        lemma_trim_start_span(s.skip(1), k, i - 1);
        let n = trim_start(s, k).len();
        assert(s.skip(1).skip(s.len() - 1 - n) =~= s.skip(s.len() - n));
    }
}

proof fn lemma_trim_end_span(s: Seq<char>, k: Class, i: int)
    requires
        0 <= i < s.len(),
        !k.holds(s[i]),
    ensures
        trim_end(s, k).len() > i,
    decreases s.len(),
{
    if k.holds(s.last()) {
        lemma_trim_end_span(s.drop_last(), k, i);
    }
}

/// Trimming leaves what lies between two characters outside the class.
pub proof fn lemma_trim_span(s: Seq<char>, k: Class, i: int, j: int)
    requires
        0 <= i <= j < s.len(),
        !k.holds(s[i]),
        !k.holds(s[j]),
    ensures
        trim_both(s, k).len() >= j - i + 1,
{
    lemma_trim_start_span(s, k, i);
    let t = trim_start(s, k);
    let cut = s.len() - t.len();
    assert(t[j - cut] == s[j]);
    lemma_trim_end_span(t, k, j - cut);
}

/// Trimming leaves a text that starts and ends outside the class.
pub proof fn lemma_trim_whole(s: Seq<char>, k: Class)
    requires
        s.len() > 0,
        !k.holds(s[0]),
        !k.holds(s.last()),
    ensures
        trim_both(s, k) == s,
{
}

/// Two texts without white space, with white space around and between them,
/// are the words of the whole.
pub proof fn lemma_two_words(a: Seq<char>, b: Seq<char>)
    requires
        a.len() > 0,
        b.len() > 0,
        forall|i: int| 0 <= i < a.len() ==> !whitespace(#[trigger] a[i]),
        forall|i: int| 0 <= i < b.len() ==> !whitespace(#[trigger] b[i]),
    ensures
        words("  "@ + a + " "@ + b) == seq![a, b],
{
    reveal_strlit("  ");
    reveal_strlit(" ");
    let k = Class::Space;
    let none = Seq::<char>::empty();
    let mid = a + " "@ + b;
    let one = " "@ + mid;
    let all = "  "@ + a + " "@ + b;
    lemma_first_at_unique(b, k, b.len() as int);
    assert(fields(b, k) == seq![b]);
    assert forall|j: int| 0 <= j < a.len() implies !k.holds(#[trigger] mid[j]) by {
        assert(mid[j] == a[j]);
    }
    lemma_first_at_unique(mid, k, a.len() as int);
    assert(mid.take(a.len() as int) =~= a);
    assert(mid.skip(a.len() as int + 1) =~= b);
    assert(fields(mid, k) =~= seq![a, b]);
    lemma_first_at_unique(one, k, 0);
    assert(one.take(0) =~= none);
    assert(one.skip(1) =~= mid);
    assert(fields(one, k) =~= seq![none, a, b]);
    lemma_first_at_unique(all, k, 0);
    assert(all.take(0) =~= none);
    assert(all.skip(1) =~= one);
    assert(fields(all, k) =~= seq![none, none, a, b]);
    assert(fields(all, k).skip(1) =~= seq![none, a, b]);
    assert(nonempty(seq![b]) =~= seq![b]) by {
        assert(seq![b].skip(1) =~= seq![]);
        assert(nonempty(seq![]) =~= seq![]);
    }
    assert(nonempty(seq![a, b]) =~= seq![a, b]) by {
        assert(seq![a, b].skip(1) =~= seq![b]);
    }
    assert(nonempty(seq![none, a, b]) =~= seq![a, b]) by {
        assert(seq![none, a, b].skip(1) =~= seq![a, b]);
    }
}

/// What a sequence holds once one more value is behind it.
pub proof fn lemma_push_contains<A>(s: Seq<A>, last: A, x: A)
    ensures
        s.push(last).contains(x) <==> s.contains(x) || x == last,
{
    let t = s.push(last);
    if s.contains(x) {
        let i = choose|i: int| 0 <= i < s.len() && s[i] == x;
        assert(t[i] == x);
    }
    assert(t[s.len() as int] == last);
    if t.contains(x) {
        let i = choose|i: int| 0 <= i < t.len() && t[i] == x;
        if i < s.len() {
            assert(s[i] == x);
        }
    }
}

/// Trimming at the end leaves a beginning of the text.
pub proof fn lemma_trim_end_is_prefix(s: Seq<char>, k: Class)
    ensures
        trim_end(s, k).is_prefix_of(s),
    decreases s.len(),
{
    if s.len() > 0 && k.holds(s.last()) {
        lemma_trim_end_is_prefix(s.drop_last(), k);
        let t = trim_end(s, k);
        assert(s.take(t.len() as int) =~= s.drop_last().take(t.len() as int));
    } else {
        assert(s.take(s.len() as int) =~= s);
    }
}

/// A part that is not empty stays.
pub proof fn lemma_nonempty_keeps(parts: Seq<Seq<char>>, i: int)
    requires
        0 <= i < parts.len(),
        parts[i].len() > 0,
    ensures
        nonempty(parts).contains(parts[i]),
    decreases parts.len(),
{
    let rest = nonempty(parts.skip(1));
    if i > 0 {
        lemma_nonempty_keeps(parts.skip(1), i - 1);
        assert(parts.skip(1)[i - 1] == parts[i]);
        if parts[0].len() > 0 {
            let j = choose|j: int| 0 <= j < rest.len() && rest[j] == parts[i];
            assert(nonempty(parts)[j + 1] == parts[i]);
        }
    } else {
        assert(nonempty(parts)[0] == parts[0]);
    }
}

/// What is put together of parts, cut around one of them.
pub proof fn lemma_concat_cut(parts: Seq<Seq<char>>, i: int)
    requires
        0 <= i < parts.len(),
    ensures
        concat(parts) == concat(parts.take(i)) + parts[i] + concat(parts.skip(i + 1)),
    decreases parts.len(),
{
    let n = parts.len() - 1;
    let front = parts.drop_last();
    if i == n {
        assert(parts.take(i) =~= front);
        assert(parts.skip(i + 1) =~= seq![]);
        assert(concat(parts) =~= concat(front) + parts[i] + concat(parts.skip(i + 1)));
    } else {
        lemma_concat_cut(front, i);
        assert(front.take(i) =~= parts.take(i));
        let rest = parts.skip(i + 1);
        assert(rest.drop_last() =~= front.skip(i + 1));
        assert(rest.last() == parts.last());
        assert(concat(parts) =~= concat(parts.take(i)) + parts[i] + concat(rest));
    }
}

/// Whether a text holds another one that starts on a line of its own, between
/// what comes before and what comes after.
pub open spec fn cut(s: Seq<char>, before: Seq<char>, p: Seq<char>, after: Seq<char>) -> bool {
    s == before + p + after && ends_line(before)
}

/// A cut of a part is one of the whole, if the parts before it end a line.
pub proof fn lemma_cut_of_concat(
    parts: Seq<Seq<char>>,
    i: int,
    before: Seq<char>,
    p: Seq<char>,
    after: Seq<char>,
)
    requires
        0 <= i < parts.len(),
        forall|k: int| 0 <= k < parts.len() ==> ends_line(#[trigger] parts[k]),
        cut(parts[i], before, p, after),
    ensures
        cut(concat(parts), concat(parts.take(i)) + before, p, after + concat(parts.skip(i + 1))),
{
    lemma_concat_cut(parts, i);
    let front = parts.take(i);
    assert forall|k: int| 0 <= k < front.len() implies ends_line(#[trigger] front[k]) by {
        assert(ends_line(parts[k]));
    }
    lemma_concat_ends_line(front);
    if before.len() == 0 {
        assert(concat(front) + before =~= concat(front));
    }
    assert(concat(parts) =~= concat(front) + before + p + (after + concat(parts.skip(i + 1))));
}

/// A cut of the middle of a text is one of the whole.
pub proof fn lemma_cut_within(
    a: Seq<char>,
    b: Seq<char>,
    c: Seq<char>,
    before: Seq<char>,
    p: Seq<char>,
    after: Seq<char>,
)
    requires
        ends_line(a),
        cut(b, before, p, after),
    ensures
        cut(a + b + c, a + before, p, after + c),
{
    if before.len() == 0 {
        assert(a + before =~= a);
    }
    assert(a + b + c =~= a + before + p + (after + c));
}

/// What a filter keeps is what was there and passes.
pub proof fn lemma_filter_keeps<A>(s: Seq<A>, pred: spec_fn(A) -> bool, x: A)
    ensures
        s.filter(pred).contains(x) <==> s.contains(x) && pred(x),
    decreases s.len(),
{
    reveal(Seq::filter);
    if s.len() > 0 {
        let front = s.drop_last();
        lemma_filter_keeps(front, pred, x);
        lemma_push_contains(front.filter(pred), s.last(), x);
        lemma_push_contains(front, s.last(), x);
        assert(s =~= front.push(s.last()));
    }
}

/// A filter keeps nothing where nothing passes.
pub proof fn lemma_filter_none<A>(s: Seq<A>, pred: spec_fn(A) -> bool)
    requires
        forall|j: int| 0 <= j < s.len() ==> !pred(#[trigger] s[j]),
    ensures
        s.filter(pred).len() == 0,
    decreases s.len(),
{
    reveal(Seq::filter);
    if s.len() > 0 {
        let front = s.drop_last();
        assert(!pred(s[s.len() - 1]));
        assert forall|j: int| 0 <= j < front.len() implies !pred(#[trigger] front[j]) by {
            assert(!pred(s[j]));
        }
        lemma_filter_none(front, pred);
    }
}

/// A filter keeps one thing where exactly one place passes.
pub proof fn lemma_filter_one<A>(s: Seq<A>, pred: spec_fn(A) -> bool, i: int)
    requires
        0 <= i < s.len(),
        pred(s[i]),
        forall|j: int| 0 <= j < s.len() && j != i ==> !pred(#[trigger] s[j]),
    ensures
        s.filter(pred) == seq![s[i]],
    decreases s.len(),
{
    reveal(Seq::filter);
    let front = s.drop_last();
    assert forall|j: int| 0 <= j < front.len() && j != i implies !pred(#[trigger] front[j]) by {
        assert(!pred(s[j]));
    }
    if i == s.len() - 1 {
        lemma_filter_none(front, pred);
        assert(s.filter(pred) =~= seq![s[i]]);
    } else {
        assert(!pred(s[s.len() - 1]));
        lemma_filter_one(front, pred, i);
    }
}

/// Where a filter keeps one thing, exactly one place passes.
pub proof fn lemma_filter_only<A>(s: Seq<A>, pred: spec_fn(A) -> bool)
    requires
        s.filter(pred).len() == 1,
    ensures
        exists|i: int|
            {
                &&& 0 <= i < s.len()
                &&& pred(#[trigger] s[i])
                &&& s.filter(pred) == seq![s[i]]
                &&& forall|j: int| 0 <= j < s.len() && j != i ==> !pred(#[trigger] s[j])
            },
    decreases s.len(),
{
    reveal(Seq::filter);
    let front = s.drop_last();
    let n = s.len() - 1;
    if pred(s[n]) {
        assert(front.filter(pred).len() == 0);
        assert forall|j: int| 0 <= j < s.len() && j != n implies !pred(#[trigger] s[j]) by {
            if pred(s[j]) {
                assert(front[j] == s[j]);
                assert(front.contains(s[j]));
                lemma_filter_keeps(front, pred, s[j]);
            }
        }
        assert(s.filter(pred) =~= seq![s[n]]);
    } else {
        lemma_filter_only(front, pred);
        let i = choose|i: int|
            {
                &&& 0 <= i < front.len()
                &&& pred(#[trigger] front[i])
                &&& front.filter(pred) == seq![front[i]]
                &&& forall|j: int| 0 <= j < front.len() && j != i ==> !pred(#[trigger] front[j])
            };
        assert(s[i] == front[i]);
        assert forall|j: int| 0 <= j < s.len() && j != i implies !pred(#[trigger] s[j]) by {
            if j < n {
                assert(!pred(front[j]));
            }
        }
    }
}

/// What stands before the first separator is the first field, and the fields of
/// what follows it are the others.
pub proof fn lemma_fields_cut(a: Seq<char>, c: char, rest: Seq<char>)
    requires
        !a.contains(c),
    ensures
        fields(a, Class::Only(c)) == seq![a],
        fields(a + seq![c] + rest, Class::Only(c)) == seq![a] + fields(rest, Class::Only(c)),
{
    let k = Class::Only(c);
    let s = a + seq![c] + rest;
    let n = a.len() as int;
    assert forall|j: int| 0 <= j < n implies !k.holds(#[trigger] a[j]) by {
        assert(a.contains(a[j]));
    }
    assert forall|j: int| 0 <= j < n implies !k.holds(#[trigger] s[j]) by {
        assert(s[j] == a[j]);
        assert(a.contains(a[j]));
    }
    lemma_first_at_unique(a, k, n);
    lemma_first_at_unique(s, k, n);
    assert(s.take(n) =~= a);
    assert(s.skip(n + 1) =~= rest);
}

/// A number read back from its decimal digits is the number.
pub proof fn lemma_decimal_reads_back(n: nat)
    ensures
        decimal(n).len() > 0,
        all_digits(decimal(n)),
        digits_value(decimal(n)) == n,
        n <= u64::MAX ==> number(decimal(n)) == Some(n as u64),
    decreases n,
{
    if n >= 10 {
        lemma_decimal_reads_back(n / 10);
        assert(decimal(n).drop_last() =~= decimal(n / 10));
    } else {
        let one = seq![digit_char(n)];
        assert(one.drop_last() =~= Seq::<char>::empty());
        assert(digits_value(one.drop_last()) == 0);
    }
    let d = decimal(n);
    assert(ascii_digit(d[0]));
}

/// Letters are compared without their case, everything else as it is.
pub proof fn lemma_ignored_case(a: Seq<char>, b: Seq<char>)
    ensures
        eq_ignore_case(a, a),
        eq_ignore_case(a, b) ==> a.len() == b.len(),
        eq_ignore_case(a, b) <==> eq_ignore_case(b, a),
        eq_ignore_case(a, b) && (forall|i: int|
            0 <= i < a.len() ==> !('A' <= #[trigger] a[i] && a[i] <= 'Z')) && (forall|i: int|
            0 <= i < b.len() ==> !('A' <= #[trigger] b[i] && b[i] <= 'Z')) ==> a == b,
{
    if eq_ignore_case(a, b) {
        assert forall|i: int| 0 <= i < b.len() implies #[trigger] ascii_lower(b[i]) == ascii_lower(
            a[i],
        ) by {
            assert(ascii_lower(a[i]) == ascii_lower(b[i]));
        }
    }
    if eq_ignore_case(b, a) {
        assert forall|i: int| 0 <= i < a.len() implies #[trigger] ascii_lower(a[i]) == ascii_lower(
            b[i],
        ) by {
            assert(ascii_lower(b[i]) == ascii_lower(a[i]));
        }
    }
    if eq_ignore_case(a, b) && (forall|i: int|
        0 <= i < a.len() ==> !('A' <= #[trigger] a[i] && a[i] <= 'Z')) && (forall|i: int|
        0 <= i < b.len() ==> !('A' <= #[trigger] b[i] && b[i] <= 'Z')) {
        assert forall|i: int| 0 <= i < a.len() implies #[trigger] a[i] == b[i] by {
            assert(ascii_lower(a[i]) == ascii_lower(b[i]));
        }
        assert(a =~= b);
    }
}

/// What is kept is what is not empty.
pub proof fn lemma_nonempty(parts: Seq<Seq<char>>, x: Seq<char>)
    ensures
        nonempty(parts).contains(x) <==> parts.contains(x) && x.len() > 0,
    decreases parts.len(),
{
    if parts.contains(x) && x.len() > 0 {
        let i = choose|i: int| 0 <= i < parts.len() && parts[i] == x;
        lemma_nonempty_keeps(parts, i);
    }
    if parts.len() > 0 {
        let rest = nonempty(parts.skip(1));
        lemma_nonempty(parts.skip(1), x);
        if nonempty(parts).contains(x) {
            let i = choose|i: int| 0 <= i < nonempty(parts).len() && nonempty(parts)[i] == x;
            if parts[0].len() == 0 {
                assert(rest.contains(x));
            } else if i == 0 {
                assert(parts[0] == x);
            } else {
                assert(rest[i - 1] == x);
            }
            if rest.contains(x) {
                let k = choose|k: int| 0 <= k < parts.skip(1).len() && parts.skip(1)[k] == x;
                assert(parts[k + 1] == x);
            }
        }
    }
}

/// What separates words: spaces, tabs and line ends do, visible ASCII characters
/// do not.
pub proof fn lemma_white_space(c: char)
    ensures
        whitespace(' ') && whitespace('\t') && whitespace('\n') && whitespace('\r'),
        '!' <= c && c <= '~' ==> !whitespace(c),
{
}

/// What is left of a text when it is trimmed neither begins nor ends in white
/// space.
pub proof fn lemma_trimmed_ends(s: Seq<char>)
    ensures
        trim(s).len() > 0 ==> !whitespace(trim(s)[0]) && !whitespace(trim(s).last()),
{
    lemma_trim_start_ends(s, Class::Space);
    lemma_trim_end_ends(trim_start(s, Class::Space), Class::Space);
    lemma_trim_end_is_prefix(trim_start(s, Class::Space), Class::Space);
}

proof fn lemma_trim_start_ends(s: Seq<char>, k: Class)
    ensures
        trim_start(s, k).len() > 0 ==> !k.holds(trim_start(s, k)[0]),
    decreases s.len(),
{
    if s.len() > 0 && k.holds(s[0]) {
        lemma_trim_start_ends(s.skip(1), k);
    }
}

proof fn lemma_trim_end_ends(s: Seq<char>, k: Class)
    ensures
        trim_end(s, k).len() > 0 ==> !k.holds(trim_end(s, k).last()),
    decreases s.len(),
{
    if s.len() > 0 && k.holds(s.last()) {
        lemma_trim_end_ends(s.drop_last(), k);
    }
}

/// Joined parts stand in their order with the separator between each two, and
/// nowhere else.
pub proof fn lemma_join(parts: Seq<Seq<char>>, sep: Seq<char>, one: Seq<char>)
    ensures
        join(seq![], sep) == Seq::<char>::empty(),
        join(seq![one], sep) == one,
        parts.len() > 0 ==> join(parts.push(one), sep) == join(parts, sep) + sep + one,
{
    assert(parts.push(one).drop_last() =~= parts);
}

} // verus!
