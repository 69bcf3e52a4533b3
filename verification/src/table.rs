//! Tables and sets keyed by text, kept in dictionary order.

use vstd::prelude::*;

use crate::strings;
use crate::text;

verus! {

/// Whether each text comes before all that follow it; nothing occurs twice then.
pub open spec fn ascending(keys: Seq<Seq<char>>) -> bool {
    forall|i: int, j: int| 0 <= i < j < keys.len() ==> text::before(#[trigger] keys[i], #[trigger] keys[j])
}

pub proof fn lemma_ascending_distinct(keys: Seq<Seq<char>>)
    requires
        ascending(keys),
    ensures
        forall|i: int, j: int|
            0 <= i < keys.len() && 0 <= j < keys.len() && i != j ==> #[trigger] keys[i]
                != #[trigger] keys[j],
        forall|i: int| 0 <= i < keys.len() ==> keys.index_of(#[trigger] keys[i]) == i,
{
    assert forall|i: int, j: int|
        0 <= i < keys.len() && 0 <= j < keys.len() && i != j implies #[trigger] keys[i]
        != #[trigger] keys[j] by {
        text::lemma_before_irreflexive(keys[i]);
        if i < j {
            assert(text::before(keys[i], keys[j]));
        } else {
            assert(text::before(keys[j], keys[i]));
        }
    }
}

/// The map that lists a key and a value at each position.
pub open spec fn as_map<V>(keys: Seq<Seq<char>>, values: Seq<V>) -> Map<Seq<char>, V> {
    Map::new(|k: Seq<char>| keys.contains(k), |k: Seq<char>| values[keys.index_of(k)])
}

/// A map from text, walked in the order of its keys.
#[derive(Debug)]
pub struct Table<V> {
    entries: Vec<(String, V)>,
}

impl<V> View for Table<V> {
    type V = Map<Seq<char>, V>;

    open spec fn view(&self) -> Map<Seq<char>, V> {
        as_map(self.keys(), self.values())
    }
}

spec fn keys_of<V>(entries: Seq<(String, V)>) -> Seq<Seq<char>> {
    Seq::new(entries.len(), |i: int| entries[i].0@)
}

spec fn values_of<V>(entries: Seq<(String, V)>) -> Seq<V> {
    Seq::new(entries.len(), |i: int| entries[i].1)
}

impl<V> Table<V> {
    /// The keys, in the order in which the table is walked.
    pub closed spec fn keys(&self) -> Seq<Seq<char>> {
        keys_of(self.entries@)
    }

    /// The values, each at the position of its key.
    pub closed spec fn values(&self) -> Seq<V> {
        values_of(self.entries@)
    }

    #[verifier::type_invariant]
    spec fn in_order(self) -> bool {
        ascending(keys_of(self.entries@))
    }

    pub fn new() -> (t: Self)
        ensures
            t@ == Map::<Seq<char>, V>::empty(),
            t.keys().len() == 0,
            t.values().len() == 0,
    {
        let t = Table { entries: Vec::new() };
        assert(t@ =~= Map::<Seq<char>, V>::empty());
        t
    }

    pub fn len(&self) -> (n: usize)
        ensures
            n == self.keys().len(),
            n == self.values().len(),
            ascending(self.keys()),
    {
        proof {
            use_type_invariant(self);
        }
        self.entries.len()
    }

    pub fn is_empty(&self) -> (r: bool)
        ensures
            r == (self.keys().len() == 0),
    {
        self.entries.len() == 0
    }

    pub fn key(&self, i: usize) -> (k: &str)
        requires
            i < self.keys().len(),
        ensures
            k@ == self.keys()[i as int],
    {
        self.entries[i].0.as_str()
    }

    pub fn value(&self, i: usize) -> (v: &V)
        requires
            i < self.keys().len(),
        ensures
            *v == self.values()[i as int],
            self@.contains_pair(self.keys()[i as int], *v),
    {
        proof {
            use_type_invariant(self);
            lemma_ascending_distinct(self.keys());
            assert(self.keys().contains(self.keys()[i as int]));
        }
        &self.entries[i].1
    }

    fn position(&self, key: &str) -> (r: Option<usize>)
        ensures
            match r {
                Some(i) => i < self.keys().len() && self.keys()[i as int] == key@,
                None => !self.keys().contains(key@),
            },
    {
        let mut i: usize = 0;
        while i < self.entries.len()
            invariant
                i <= self.entries.len(),
                forall|j: int| 0 <= j < i ==> self.entries@[j].0@ != key@,
            decreases self.entries.len() - i,
        {
            if strings::same(self.entries[i].0.as_str(), key) {
                return Some(i);
            }
            i += 1;
        }
        assert forall|j: int| 0 <= j < self.keys().len() implies self.keys()[j] != key@ by {}
        None
    }

    pub fn get(&self, key: &str) -> (r: Option<&V>)
        ensures
            match r {
                Some(v) => self@.contains_pair(key@, *v),
                None => !self@.dom().contains(key@),
            },
    {
        match self.position(key) {
            Some(i) => Some(self.value(i)),
            None => None,
        }
    }

    pub fn contains_key(&self, key: &str) -> (r: bool)
        ensures
            r == self@.dom().contains(key@),
    {
        self.position(key).is_some()
    }

    /// Sets the value of a key, new or not.
    pub fn insert(&mut self, key: String, value: V)
        ensures
            final(self)@ == old(self)@.insert(key@, value),
    {
        proof {
            use_type_invariant(&*self);
        }
        let ghost before_keys = self.keys();
        let ghost before_values = self.values();
        let ghost k = key@;
        let mut entries: Vec<(String, V)> = Vec::new();
        std::mem::swap(&mut entries, &mut self.entries);
        let mut p: usize = 0;
        while p < entries.len() && strings::before(entries[p].0.as_str(), key.as_str())
            invariant
                p <= entries.len(),
                forall|j: int| 0 <= j < p ==> text::before(#[trigger] entries@[j].0@, key@),
            decreases entries.len() - p,
        {
            p += 1;
        }
        proof {
            lemma_ascending_distinct(before_keys);
        }
        if p < entries.len() && strings::same(entries[p].0.as_str(), key.as_str()) {
            assert(before_keys[p as int] == k);
            entries[p] = (key, value);
            proof {
                assert(keys_of(entries@) =~= before_keys);
                let after = values_of(entries@);
                assert(as_map(before_keys, after) =~= as_map(before_keys, before_values).insert(
                    k,
                    value,
                )) by {
                    assert(before_keys.contains(k));
                }
            }
        } else {
            entries.insert(p, (key, value));
            proof {
                let after_keys = keys_of(entries@);
                let after_values = values_of(entries@);
                assert(after_keys =~= before_keys.insert(p as int, k));
                assert(after_values =~= before_values.insert(p as int, value));
                lemma_insert_ascending(before_keys, k, p as int);
                lemma_insert_map(before_keys, before_values, k, value, p as int);
            }
        }
        self.entries = entries;
    }

    /// Takes a key out, and gives back its value if it was there.
    pub fn remove(&mut self, key: &str) -> (r: Option<V>)
        ensures
            final(self)@ == old(self)@.remove(key@),
            match r {
                Some(v) => old(self)@.contains_pair(key@, v),
                None => !old(self)@.dom().contains(key@),
            },
    {
        proof {
            use_type_invariant(&*self);
        }
        let ghost before_keys = self.keys();
        let ghost before_values = self.values();
        let found = self.position(key);
        match found {
            None => {
                assert(old(self)@.remove(key@) =~= old(self)@);
                None
            },
            Some(i) => {
                let mut entries: Vec<(String, V)> = Vec::new();
                std::mem::swap(&mut entries, &mut self.entries);
                let removed = entries.remove(i);
                proof {
                    assert(keys_of(entries@) =~= before_keys.remove(i as int));
                    assert(values_of(entries@) =~= before_values.remove(i as int));
                    lemma_ascending_distinct(before_keys);
                    assert(before_keys.contains(key@));
                    lemma_remove_map(before_keys, before_values, i as int);
                }
                self.entries = entries;
                Some(removed.1)
            },
        }
    }
}

proof fn lemma_insert_ascending(keys: Seq<Seq<char>>, k: Seq<char>, p: int)
    requires
        ascending(keys),
        0 <= p <= keys.len(),
        forall|j: int| 0 <= j < p ==> text::before(#[trigger] keys[j], k),
        p < keys.len() ==> keys[p] != k && !text::before(keys[p], k),
    ensures
        ascending(keys.insert(p, k)),
        !keys.contains(k),
{
    let after = keys.insert(p, k);
    if p < keys.len() {
        text::lemma_before_total(keys[p], k);
    }
    assert forall|i: int, j: int| 0 <= i < j < after.len() implies text::before(
        #[trigger] after[i],
        #[trigger] after[j],
    ) by {
        if i < p && j == p {
            assert(text::before(keys[i], k));
        } else if i == p {
            if j - 1 > p {
                text::lemma_before_transitive(k, keys[p], keys[j - 1]);
            }
        } else {
            let a = if i < p { i } else { i - 1 };
            let b = if j < p { j } else { j - 1 };
            assert(text::before(keys[a], keys[b]));
        }
    }
    if keys.contains(k) {
        let i = keys.index_of(k);
        text::lemma_before_irreflexive(k);
        if i > p {
            text::lemma_before_transitive(k, keys[p], keys[i]);
        }
    }
}

proof fn lemma_insert_map<V>(keys: Seq<Seq<char>>, values: Seq<V>, k: Seq<char>, v: V, p: int)
    requires
        ascending(keys),
        ascending(keys.insert(p, k)),
        keys.len() == values.len(),
        0 <= p <= keys.len(),
    ensures
        as_map(keys.insert(p, k), values.insert(p, v)) == as_map(keys, values).insert(k, v),
{
    let keys2 = keys.insert(p, k);
    let values2 = values.insert(p, v);
    lemma_ascending_distinct(keys);
    lemma_ascending_distinct(keys2);
    let a = as_map(keys2, values2);
    let b = as_map(keys, values).insert(k, v);
    assert(keys2[p] == k);
    assert forall|x: Seq<char>| a.dom().contains(x) <==> b.dom().contains(x) by {
        if keys2.contains(x) && x != k {
            let i = keys2.index_of(x);
            assert(x == keys[if i < p { i } else { i - 1 }]);
        }
        if keys.contains(x) {
            let i = keys.index_of(x);
            assert(x == keys2[if i < p { i } else { i + 1 }]);
        }
    }
    assert forall|x: Seq<char>| a.dom().contains(x) implies a[x] == b[x] by {
        let i = keys2.index_of(x);
        assert(keys2[i] == x);
        if x == k {
            assert(i == p);
        } else {
            let j = if i < p { i } else { i - 1 };
            assert(keys[j] == x);
            assert(keys.index_of(keys[j]) == j);
        }
    }
    assert(a =~= b);
}

proof fn lemma_remove_map<V>(keys: Seq<Seq<char>>, values: Seq<V>, p: int)
    requires
        ascending(keys),
        keys.len() == values.len(),
        0 <= p < keys.len(),
    ensures
        ascending(keys.remove(p)),
        as_map(keys.remove(p), values.remove(p)) == as_map(keys, values).remove(keys[p]),
{
    let keys2 = keys.remove(p);
    let values2 = values.remove(p);
    assert forall|i: int, j: int| 0 <= i < j < keys2.len() implies text::before(
        #[trigger] keys2[i],
        #[trigger] keys2[j],
    ) by {
        let a = if i < p { i } else { i + 1 };
        let b = if j < p { j } else { j + 1 };
        assert(text::before(keys[a], keys[b]));
    }
    lemma_ascending_distinct(keys);
    lemma_ascending_distinct(keys2);
    let a = as_map(keys2, values2);
    let b = as_map(keys, values).remove(keys[p]);
    assert forall|x: Seq<char>| a.dom().contains(x) <==> b.dom().contains(x) by {
        if keys2.contains(x) {
            let i = keys2.index_of(x);
            assert(x == keys[if i < p { i } else { i + 1 }]);
        }
        if keys.contains(x) && x != keys[p] {
            let i = keys.index_of(x);
            assert(x == keys2[if i < p { i } else { i - 1 }]);
        }
    }
    assert forall|x: Seq<char>| a.dom().contains(x) implies a[x] == b[x] by {
        let i = keys2.index_of(x);
        assert(keys2[i] == x);
        let j = if i < p { i } else { i + 1 };
        assert(keys[j] == x);
        assert(keys.index_of(keys[j]) == j);
    }
    assert(a =~= b);
}

/// A set of texts, walked in dictionary order.
#[derive(Debug)]
pub struct NameSet {
    table: Table<()>,
}

impl View for NameSet {
    type V = Set<Seq<char>>;

    open spec fn view(&self) -> Set<Seq<char>> {
        self.names().to_set()
    }
}

impl NameSet {
    /// The members, in order.
    pub closed spec fn names(&self) -> Seq<Seq<char>> {
        self.table.keys()
    }

    pub fn new() -> (s: Self)
        ensures
            s@ == Set::<Seq<char>>::empty(),
            s.names().len() == 0,
    {
        let s = NameSet { table: Table::new() };
        assert(s@ =~= Set::<Seq<char>>::empty());
        s
    }

    pub fn len(&self) -> (n: usize)
        ensures
            n == self.names().len(),
            ascending(self.names()),
    {
        self.table.len()
    }

    pub fn is_empty(&self) -> (r: bool)
        ensures
            r == (self.names().len() == 0),
    {
        self.table.is_empty()
    }

    pub fn name(&self, i: usize) -> (k: &str)
        requires
            i < self.names().len(),
        ensures
            k@ == self.names()[i as int],
            self@.contains(k@),
    {
        self.table.key(i)
    }

    pub fn contains(&self, name: &str) -> (r: bool)
        ensures
            r == self@.contains(name@),
    {
        self.table.contains_key(name)
    }

    pub fn insert(&mut self, name: String)
        ensures
            final(self)@ == old(self)@.insert(name@),
    {
        let ghost t = self.table@;
        let ghost s = self@;
        let ghost k = name@;
        self.table.insert(name, ());
        proof {
            assert forall|x: Seq<char>| self@.contains(x) <==> #[trigger] s.insert(k).contains(x) by {
                assert(self@.contains(x) <==> self.table@.dom().contains(x));
                assert(s.contains(x) <==> t.dom().contains(x));
            }
            assert(self@ =~= s.insert(k));
        }
    }
}

/// A table has a value for each key, and a value found under a key stands at
/// the place of that key.
pub proof fn lemma_places<V>(t: Table<V>, k: Seq<char>)
    ensures
        t.keys().len() == t.values().len(),
        t@.dom().contains(k) ==> exists|i: int|
            0 <= i < t.keys().len() && #[trigger] t.keys()[i] == k && t.values()[i] == t@[k],
{
    if t@.dom().contains(k) {
        let i = t.keys().index_of(k);
        assert(t.keys()[i] == k);
    }
}

} // verus!
