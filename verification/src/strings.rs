//! The executable side of `text`.

use vstd::prelude::*;

use crate::text;
use crate::text::Class;

verus! {

pub fn chars_of(s: &str) -> (v: Vec<char>)
    ensures
        v@ == s@,
{
    let mut v: Vec<char> = Vec::new();
    for c in it: s.chars()
        invariant
            v@ == s@.take(it.index()),
            it.seq() == s@,
    {
        v.push(c);
        assert(s@.take(it.index() + 1) =~= s@.take(it.index()).push(c));
    }
    assert(s@.take(s@.len() as int) =~= s@);
    v
}

pub fn from_chars(v: &Vec<char>, from: usize, to: usize) -> (s: String)
    requires
        from <= to <= v.len(),
    ensures
        s@ == v@.subrange(from as int, to as int),
{
    let mut s = String::new();
    let mut i = from;
    while i < to
        invariant
            from <= i <= to <= v.len(),
            s@ == v@.subrange(from as int, i as int),
        decreases to - i,
    {
        s.push(v[i]);
        i += 1;
        assert(v@.subrange(from as int, i as int) =~= v@.subrange(from as int, i - 1).push(
            v@[i - 1],
        ));
    }
    s
}

pub fn same_chars(a: &Vec<char>, b: &Vec<char>) -> (r: bool)
    ensures
        r == (a@ == b@),
{
    if a.len() != b.len() {
        return false;
    }
    let mut i: usize = 0;
    while i < a.len()
        invariant
            a.len() == b.len(),
            i <= a.len(),
            forall|j: int| 0 <= j < i ==> a@[j] == b@[j],
        decreases a.len() - i,
    {
        if a[i] != b[i] {
            assert(a@[i as int] != b@[i as int]);
            return false;
        }
        i += 1;
    }
    assert(a@ =~= b@);
    true
}

/// Whether two texts are equal.
pub fn same(a: &str, b: &str) -> (r: bool)
    ensures
        r == (a@ == b@),
{
    same_chars(&chars_of(a), &chars_of(b))
}

pub fn occurs_at(s: &Vec<char>, p: &Vec<char>, i: usize) -> (r: bool)
    ensures
        r == text::occurs_at(s@, p@, i as int),
{
    if p.len() > s.len() || i > s.len() - p.len() {
        return false;
    }
    let mut j: usize = 0;
    while j < p.len()
        invariant
            j <= p.len() <= s.len(),
            i <= s.len() - p.len(),
            forall|k: int| 0 <= k < j ==> s@[i + k] == p@[k],
        decreases p.len() - j,
    {
        if s[i + j] != p[j] {
            proof {
                if text::occurs_at(s@, p@, i as int) {
                    assert(s@.subrange(i as int, i + p.len())[j as int] == p@[j as int]);
                }
            }
            return false;
        }
        j += 1;
    }
    assert(s@.subrange(i as int, i + p.len()) =~= p@);
    true
}

/// Where `p` first occurs in `s`, not before `from`.
pub fn find_from(s: &Vec<char>, p: &Vec<char>, from: usize) -> (r: Option<usize>)
    ensures
        match r {
            Some(i) => text::occurrence_from(s@, p@, from as int) == Some(i as int),
            None => text::occurrence_from(s@, p@, from as int) is None,
        },
{
    if from > s.len() {
        return None;
    }
    let mut i = from;
    while i < s.len()
        invariant
            from <= i <= s.len(),
            text::occurrence_from(s@, p@, from as int) == text::occurrence_from(s@, p@, i as int),
        decreases s.len() - i,
    {
        if occurs_at(s, p, i) {
            return Some(i);
        }
        i += 1;
    }
    proof {
        reveal_with_fuel(text::occurrence_from, 2);
    }
    if occurs_at(s, p, i) {
        Some(i)
    } else {
        None
    }
}

pub fn contains(s: &str, p: &str) -> (r: bool)
    ensures
        r == text::contains(s@, p@),
{
    proof {
        text::lemma_occurrence(s@, p@, 0);
    }
    find_from(&chars_of(s), &chars_of(p), 0).is_some()
}

pub fn starts_with(s: &str, p: &str) -> (r: bool)
    ensures
        r == p@.is_prefix_of(s@),
{
    occurs_at(&chars_of(s), &chars_of(p), 0)
}

pub fn ends_with(s: &str, p: &str) -> (r: bool)
    ensures
        r == p@.is_suffix_of(s@),
{
    let v = chars_of(s);
    let q = chars_of(p);
    if q.len() > v.len() {
        return false;
    }
    occurs_at(&v, &q, v.len() - q.len())
}

pub fn strip_prefix<'a>(s: &'a str, p: &str) -> (r: Option<&'a str>)
    ensures
        match r {
            Some(rest) => p@.is_prefix_of(s@) && rest@ == s@.skip(p@.len() as int),
            None => !p@.is_prefix_of(s@),
        },
{
    if starts_with(s, p) {
        Some(s.substring_char(p.unicode_len(), s.unicode_len()))
    } else {
        None
    }
}

/// The parts of a text between the characters of a class.
pub fn split<'a>(s: &'a str, k: Class) -> (r: Vec<&'a str>)
    ensures
        text::strs(r@) == text::fields(s@, k),
{
    let v = chars_of(s);
    let mut out: Vec<&'a str> = Vec::new();
    let mut start: usize = 0;
    let mut i: usize = 0;
    assert(s@.skip(0) =~= s@);
    assert(text::strs(out@) + text::fields(s@, k) =~= text::fields(s@, k));
    while i < v.len()
        invariant
            v@ == s@,
            start <= i <= v.len(),
            text::strs(out@) + text::fields(s@.skip(start as int), k) == text::fields(s@, k),
            forall|j: int| start <= j < i ==> !k.holds(#[trigger] s@[j]),
        decreases v.len() - i,
    {
        if k.has(v[i]) {
            let part = s.substring_char(start, i);
            proof {
                let rest = s@.skip(start as int);
                text::lemma_first_at_unique(rest, k, i - start);
                assert(rest.take(i - start) =~= part@);
                assert(rest.skip(i - start + 1) =~= s@.skip(i + 1));
                assert(text::strs(out@.push(part)) =~= text::strs(out@).push(part@));
                assert(text::strs(out@.push(part)) + text::fields(s@.skip(i + 1), k) =~= text::strs(
                    out@,
                ) + text::fields(rest, k));
            }
            out.push(part);
            start = i + 1;
        }
        i += 1;
    }
    let part = s.substring_char(start, v.len());
    proof {
        let rest = s@.skip(start as int);
        text::lemma_first_at_unique(rest, k, i - start);
        assert(part@ =~= rest);
        assert(text::strs(out@.push(part)) =~= text::strs(out@).push(part@));
    }
    out.push(part);
    out
}

/// The words of a text: what stands between white space.
pub fn words<'a>(s: &'a str) -> (r: Vec<&'a str>)
    ensures
        text::strs(r@) == text::words(s@),
{
    let parts = split(s, Class::Space);
    let ghost all = text::strs(parts@);
    let mut out: Vec<&'a str> = Vec::new();
    let mut i: usize = 0;
    assert(all.skip(0) =~= all);
    assert(text::strs(out@) + text::nonempty(all) =~= text::nonempty(all));
    while i < parts.len()
        invariant
            i <= parts.len(),
            all == text::strs(parts@),
            text::strs(out@) + text::nonempty(all.skip(i as int)) == text::nonempty(all),
        decreases parts.len() - i,
    {
        let part = parts[i];
        proof {
            assert(all.skip(i as int)[0] == part@);
            assert(all.skip(i as int).skip(1) =~= all.skip(i + 1));
            assert(text::strs(out@.push(part)) =~= text::strs(out@).push(part@));
            assert(text::strs(out@).push(part@) + text::nonempty(all.skip(i + 1)) =~= text::strs(
                out@,
            ) + (seq![part@] + text::nonempty(all.skip(i + 1))));
        }
        if !part.is_empty() {
            out.push(part);
        }
        i += 1;
    }
    assert(text::strs(out@) + text::nonempty(all.skip(i as int)) =~= text::strs(out@));
    out
}

/// The lines of a text.
pub fn lines<'a>(s: &'a str) -> (r: Vec<&'a str>)
    ensures
        text::strs(r@) == text::lines(s@),
{
    let v = chars_of(s);
    let ghost k = Class::Only('\n');
    let mut out: Vec<&'a str> = Vec::new();
    let mut start: usize = 0;
    let mut i: usize = 0;
    assert(s@.skip(0) =~= s@);
    assert(text::strs(out@) + text::lines(s@) =~= text::lines(s@));
    while i < v.len()
        invariant
            v@ == s@,
            k == Class::Only('\n'),
            start <= i <= v.len(),
            text::strs(out@) + text::lines(s@.skip(start as int)) == text::lines(s@),
            forall|j: int| start <= j < i ==> !k.holds(#[trigger] s@[j]),
        decreases v.len() - i,
    {
        if v[i] == '\n' {
            let end: usize = if i > start && v[i - 1] == '\r' { i - 1 } else { i };
            let line = s.substring_char(start, end);
            proof {
                let rest = s@.skip(start as int);
                text::lemma_first_at_unique(rest, k, i - start);
                assert(text::strip_cr(rest.take(i - start)) =~= line@);
                assert(rest.skip(i - start + 1) =~= s@.skip(i + 1));
                assert(text::strs(out@.push(line)) =~= text::strs(out@).push(line@));
                assert(text::strs(out@.push(line)) + text::lines(s@.skip(i + 1)) =~= text::strs(out@)
                    + text::lines(rest));
            }
            out.push(line);
            start = i + 1;
        }
        i += 1;
    }
    proof {
        text::lemma_first_at_unique(s@.skip(start as int), k, i - start);
    }
    if start < v.len() {
        let line = s.substring_char(start, v.len());
        assert(line@ =~= s@.skip(start as int));
        assert(text::strs(out@.push(line)) =~= text::strs(out@).push(line@));
        out.push(line);
    } else {
        assert(text::strs(out@) + text::lines(s@.skip(start as int)) =~= text::strs(out@));
    }
    out
}

/// A text without the characters of a class at its end.
pub fn trim_end<'a>(s: &'a str, k: Class) -> (r: &'a str)
    ensures
        r@ == text::trim_end(s@, k),
{
    let v = chars_of(s);
    let mut j: usize = v.len();
    assert(s@.take(j as int) =~= s@);
    while j > 0 && k.has(v[j - 1])
        invariant
            v@ == s@,
            j <= v.len(),
            text::trim_end(s@, k) == text::trim_end(s@.take(j as int), k),
        decreases j,
    {
        j -= 1;
        assert(s@.take(j + 1).drop_last() =~= s@.take(j as int));
    }
    s.substring_char(0, j)
}

/// A text without the characters of a class at its start.
pub fn trim_start<'a>(s: &'a str, k: Class) -> (r: &'a str)
    ensures
        r@ == text::trim_start(s@, k),
{
    let v = chars_of(s);
    let mut i: usize = 0;
    assert(s@.skip(0) =~= s@);
    while i < v.len() && k.has(v[i])
        invariant
            v@ == s@,
            i <= v.len(),
            text::trim_start(s@, k) == text::trim_start(s@.skip(i as int), k),
        decreases v.len() - i,
    {
        i += 1;
        assert(s@.skip(i - 1).skip(1) =~= s@.skip(i as int));
    }
    let rest = s.substring_char(i, v.len());
    assert(rest@ =~= s@.skip(i as int));
    rest
}

/// A text without the characters of a class at both ends.
pub fn trim_both<'a>(s: &'a str, k: Class) -> (r: &'a str)
    ensures
        r@ == text::trim_both(s@, k),
{
    trim_end(trim_start(s, k), k)
}

/// A text without white space at both ends.
pub fn trim<'a>(s: &'a str) -> (r: &'a str)
    ensures
        r@ == text::trim(s@),
{
    trim_both(s, Class::Space)
}

/// A text with the first occurrence of `p` replaced.
pub fn replace_first(s: &str, p: &str, with: &str) -> (r: String)
    ensures
        r@ == text::replace_first(s@, p@, with@),
{
    let v = chars_of(s);
    let q = chars_of(p);
    proof {
        text::lemma_occurrence(s@, p@, 0);
    }
    match find_from(&v, &q, 0) {
        Some(i) => {
            assert(text::occurs_at(s@, p@, i as int));
            let end = v.len();
            let head = from_chars(&v, 0, i);
            let tail = from_chars(&v, i + q.len(), end);
            assert(head@ =~= s@.take(i as int));
            assert(tail@ =~= s@.skip(i + p@.len()));
            cat3(&head, with, &tail)
        },
        None => s.to_owned(),
    }
}

pub fn cat2(a: &str, b: &str) -> (r: String)
    ensures
        r@ == a@ + b@,
{
    let mut r = a.to_owned();
    r.append(b);
    r
}

pub fn cat3(a: &str, b: &str, c: &str) -> (r: String)
    ensures
        r@ == a@ + b@ + c@,
{
    let mut r = cat2(a, b);
    r.append(c);
    r
}

pub fn cat4(a: &str, b: &str, c: &str, d: &str) -> (r: String)
    ensures
        r@ == a@ + b@ + c@ + d@,
{
    let mut r = cat3(a, b, c);
    r.append(d);
    r
}

pub fn cat5(a: &str, b: &str, c: &str, d: &str, e: &str) -> (r: String)
    ensures
        r@ == a@ + b@ + c@ + d@ + e@,
{
    let mut r = cat4(a, b, c, d);
    r.append(e);
    r
}

/// The parts with `sep` between each two.
pub fn join(parts: &Vec<String>, sep: &str) -> (r: String)
    ensures
        r@ == text::join(text::texts(parts@), sep@),
{
    let ghost all = text::texts(parts@);
    let mut r = String::new();
    let mut i: usize = 0;
    while i < parts.len()
        invariant
            i <= parts.len(),
            all == text::texts(parts@),
            r@ == text::join(all.take(i as int), sep@),
        decreases parts.len() - i,
    {
        if i > 0 {
            r.append(sep);
        }
        r.append(parts[i].as_str());
        i += 1;
        proof {
            assert(all.take(i as int).drop_last() =~= all.take(i - 1));
            assert(all.take(i as int).last() == parts@[i - 1]@);
            if i == 1 {
                assert(r@ =~= parts@[0]@);
            }
        }
    }
    assert(all.take(i as int) =~= all);
    r
}

/// Whether `a` comes before `b` in dictionary order.
pub fn before(a: &str, b: &str) -> (r: bool)
    ensures
        r == text::before(a@, b@),
{
    let v = chars_of(a);
    let w = chars_of(b);
    let mut i: usize = 0;
    assert(a@.skip(0) =~= a@);
    assert(b@.skip(0) =~= b@);
    loop
        invariant
            v@ == a@,
            w@ == b@,
            i <= v.len(),
            i <= w.len(),
            text::before(a@, b@) == text::before(a@.skip(i as int), b@.skip(i as int)),
        decreases v.len() - i,
    {
        if i >= w.len() {
            return false;
        }
        if i >= v.len() {
            return true;
        }
        if v[i] != w[i] {
            return v[i] < w[i];
        }
        i += 1;
        assert(a@.skip(i - 1).skip(1) =~= a@.skip(i as int));
        assert(b@.skip(i - 1).skip(1) =~= b@.skip(i as int));
    }
}

fn digit_char(d: u64) -> (c: char)
    requires
        d < 10,
    ensures
        c == text::digit_char(d as nat),
{
    if d == 0 {
        '0'
    } else if d == 1 {
        '1'
    } else if d == 2 {
        '2'
    } else if d == 3 {
        '3'
    } else if d == 4 {
        '4'
    } else if d == 5 {
        '5'
    } else if d == 6 {
        '6'
    } else if d == 7 {
        '7'
    } else if d == 8 {
        '8'
    } else {
        '9'
    }
}

/// A number in decimal digits.
pub fn decimal(n: u64) -> (r: String)
    ensures
        r@ == text::decimal(n as nat),
    decreases n,
{
    let mut r = if n < 10 { String::new() } else { decimal(n / 10) };
    r.push(digit_char(n % 10));
    assert(n < 10 ==> r@ =~= text::decimal(n as nat));
    r
}

/// The number that a text writes, if it writes one that fits.
pub fn parse_number(s: &str) -> (r: Option<u64>)
    ensures
        r == text::number(s@),
{
    let v = chars_of(s);
    let start: usize = if v.len() > 1 && v[0] == '+' { 1 } else { 0 };
    let ghost digits = s@.skip(start as int);
    assert(s@.skip(0) =~= s@);
    if start >= v.len() {
        return None;
    }
    let mut n: u64 = 0;
    let mut i: usize = start;
    while i < v.len()
        invariant
            v@ == s@,
            start <= i <= v.len(),
            digits == s@.skip(start as int),
            start == if s@.len() > 1 && s@[0] == '+' { 1int } else { 0int },
            s@.skip(0) == s@,
            n == text::digits_value(digits.take(i - start)),
            forall|j: int| 0 <= j < i - start ==> text::ascii_digit(#[trigger] digits[j]),
        decreases v.len() - i,
    {
        let c = v[i];
        assert(c == digits[i - start]);
        if !text::is_ascii_digit(c) {
            assert(!text::all_digits(digits));
            return None;
        }
        let d: u64 = (c as u32 - '0' as u32) as u64;
        proof {
            assert(digits.take(i - start + 1).drop_last() =~= digits.take(i - start));
            text::lemma_digits_value_grows(digits, i - start + 1);
        }
        match n.checked_mul(10) {
            None => {
                return None;
            },
            Some(m) => match m.checked_add(d) {
                None => {
                    return None;
                },
                Some(next) => {
                    n = next;
                },
            },
        }
        i += 1;
    }
    assert(digits.take(i - start) =~= digits);
    Some(n)
}

fn ascii_lower(c: char) -> (r: char)
    ensures
        r == text::ascii_lower(c),
{
    if 'A' <= c && c <= 'Z' {
        ((c as u8) + 32) as char
    } else {
        c
    }
}

pub fn eq_ignore_case(a: &str, b: &str) -> (r: bool)
    ensures
        r == text::eq_ignore_case(a@, b@),
{
    let v = chars_of(a);
    let w = chars_of(b);
    if v.len() != w.len() {
        return false;
    }
    let mut i: usize = 0;
    while i < v.len()
        invariant
            v@ == a@,
            w@ == b@,
            v.len() == w.len(),
            i <= v.len(),
            forall|j: int|
                0 <= j < i ==> #[trigger] text::ascii_lower(a@[j]) == text::ascii_lower(b@[j]),
        decreases v.len() - i,
    {
        if ascii_lower(v[i]) != ascii_lower(w[i]) {
            assert(text::ascii_lower(a@[i as int]) != text::ascii_lower(b@[i as int]));
            return false;
        }
        i += 1;
    }
    true
}

/// A copy of a list of texts.
pub fn clone_texts(v: &Vec<String>) -> (r: Vec<String>)
    ensures
        r@ == v@,
{
    let mut r: Vec<String> = Vec::new();
    let mut i: usize = 0;
    while i < v.len()
        invariant
            i <= v.len(),
            r@ == v@.take(i as int),
        decreases v.len() - i,
    {
        r.push(v[i].clone());
        i += 1;
        assert(v@.take(i as int) =~= v@.take(i - 1).push(v@[i - 1]));
    }
    assert(v@.take(i as int) =~= v@);
    r
}

pub fn clone_opt(o: &Option<String>) -> (r: Option<String>)
    ensures
        r == *o,
{
    match o {
        Some(s) => Some(s.clone()),
        None => None,
    }
}

/// Whether a text is one of several.
pub fn is_among(v: &Vec<String>, s: &str) -> (r: bool)
    ensures
        r == text::texts(v@).contains(s@),
{
    let mut i: usize = 0;
    while i < v.len()
        invariant
            i <= v.len(),
            forall|j: int| 0 <= j < i ==> v@[j]@ != s@,
        decreases v.len() - i,
    {
        if same(v[i].as_str(), s) {
            assert(text::texts(v@)[i as int] == s@);
            return true;
        }
        i += 1;
    }
    assert forall|j: int| 0 <= j < v.len() implies text::texts(v@)[j] != s@ by {}
    false
}

} // verus!
