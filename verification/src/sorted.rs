//! Collections kept in strictly increasing string order: the ordered set of
//! strings and the ordered string-keyed map that the manifest model uses.
use vstd::prelude::*;
use crate::text::{
    chars_of, compare_chars, lemma_seq_lt_irreflexive, lemma_seq_lt_total, lemma_seq_lt_transitive,
    seq_lt, str_eq, strictly_sorted, StrOrder,
};

verus! {

/// The first index at or after `from` whose key is not below `k`.
pub open spec fn insert_index(keys: Seq<Seq<char>>, k: Seq<char>, from: int) -> int
    decreases keys.len() - from,
{
    if from < 0 || from >= keys.len() {
        keys.len() as int
    } else if seq_lt(keys[from], k) {
        insert_index(keys, k, from + 1)
    } else {
        from
    }
}

pub proof fn lemma_insert_index(keys: Seq<Seq<char>>, k: Seq<char>, from: int)
    requires
        0 <= from <= keys.len(),
    ensures
        from <= insert_index(keys, k, from) <= keys.len(),
        forall|j: int| from <= j < insert_index(keys, k, from) ==> seq_lt(#[trigger] keys[j], k),
        insert_index(keys, k, from) < keys.len() ==> !seq_lt(keys[insert_index(keys, k, from)], k),
    decreases keys.len() - from,
{
    if from < keys.len() && seq_lt(keys[from], k) {
        lemma_insert_index(keys, k, from + 1);
    }
}

/// Inserting into a strictly sorted key sequence keeps it strictly sorted.
pub proof fn lemma_sorted_insert(keys: Seq<Seq<char>>, k: Seq<char>)
    requires
        strictly_sorted(keys),
    ensures
        ({
            let i = insert_index(keys, k, 0);
            &&& 0 <= i <= keys.len()
            &&& (i < keys.len() && keys[i] == k) || strictly_sorted(keys.insert(i, k))
            &&& (i < keys.len() && keys[i] == k) <==> keys.contains(k)
        }),
{
    lemma_insert_index(keys, k, 0);
    let i = insert_index(keys, k, 0);
    if !(i < keys.len() && keys[i] == k) {
        if i < keys.len() {
            lemma_seq_lt_total(keys[i], k);
        }
        let ks = keys.insert(i, k);
        assert forall|a: int, b: int| 0 <= a < b < ks.len() implies seq_lt(ks[a], ks[b]) by {
            if b < i {
            } else if b == i {
            } else if a < i {
                assert(ks[b] == keys[b - 1]);
                lemma_seq_lt_transitive(keys[a], k, keys[i]);
                if b - 1 > i {
                    lemma_seq_lt_transitive(keys[a], keys[i], keys[b - 1]);
                }
            } else if a == i {
                assert(ks[b] == keys[b - 1]);
                if b - 1 > i {
                    lemma_seq_lt_transitive(k, keys[i], keys[b - 1]);
                }
            } else {
                assert(ks[a] == keys[a - 1]);
                assert(ks[b] == keys[b - 1]);
            }
        }
        if keys.contains(k) {
            let j = choose|j: int| 0 <= j < keys.len() && keys[j] == k;
            lemma_seq_lt_irreflexive(k);
            if j > i {
                lemma_seq_lt_transitive(k, keys[i], keys[j]);
            }
        }
    }
}

/// The ordered set that `s` becomes after inserting `k`.
pub open spec fn set_insert(s: Seq<Seq<char>>, k: Seq<char>) -> Seq<Seq<char>> {
    let i = insert_index(s, k, 0);
    if i < s.len() && s[i] == k {
        s
    } else {
        s.insert(i, k)
    }
}

/// A set of strings kept in strictly increasing order.
#[derive(Debug, PartialEq, Eq)]
pub struct StrSet {
    items: Vec<String>,
}

impl View for StrSet {
    type V = Seq<Seq<char>>;

    closed spec fn view(&self) -> Seq<Seq<char>> {
        self.items@.map_values(|s: String| s@)
    }
}

impl StrSet {
    /// The strings are strictly increasing.
    #[verifier::type_invariant]
    pub closed spec fn wf(self) -> bool {
        strictly_sorted(self.items@.map_values(|s: String| s@))
    }

    /// The strings of a set are strictly increasing: each occurs once, in
    /// order.
    pub proof fn lemma_sorted(self)
        requires
            self.wf(),
        ensures
            strictly_sorted(self@),
    {
    }

    /// The empty set.
    pub fn new() -> (r: StrSet)
        ensures
            r@ == Seq::<Seq<char>>::empty(),
    {
        let r = StrSet { items: Vec::new() };
        assert(r.items@.map_values(|s: String| s@) =~= Seq::<Seq<char>>::empty());
        r
    }

    /// The number of strings in the set.
    pub fn len(&self) -> (r: usize)
        ensures
            r == self@.len(),
    {
        self.items.len()
    }

    /// Whether the set holds no string.
    pub fn is_empty(&self) -> (r: bool)
        ensures
            r == (self@.len() == 0),
    {
        self.items.len() == 0
    }

    /// The `i`-th string in increasing order.
    pub fn get(&self, i: usize) -> (r: &String)
        requires
            i < self@.len(),
        ensures
            r@ == self@[i as int],
    {
        &self.items[i]
    }

    /// Adds `s` in its sorted place; a string already present is kept once.
    pub fn insert(&mut self, s: String)
        ensures
            final(self)@ == set_insert(old(self)@, s@),
    {
        proof {
            use_type_invariant(&*self);
            lemma_sorted_insert(self@, s@);
        }
        let key = chars_of(s.as_str());
        let mut i: usize = 0;
        let n = self.items.len();
        proof {
            lemma_insert_index(self@, s@, 0);
        }
        while i < n
            invariant
                n == self.items.len(),
                i <= n,
                key@ == s@,
                insert_index(self@, s@, 0) == insert_index(self@, s@, i as int),
            ensures
                i == n || seq_lt(s@, self@[i as int]),
            decreases n - i,
        {
            let cur = chars_of(self.items[i].as_str());
            match compare_chars(&cur, &key) {
                StrOrder::Less => {
                    i = i + 1;
                },
                StrOrder::Equal => {
                    return;
                },
                StrOrder::Greater => {
                    break;
                },
            }
        }
        proof {
            if i < n {
                lemma_seq_lt_total(s@, self@[i as int]);
                lemma_seq_lt_irreflexive(s@);
            }
        }
        let ghost before = self@;
        let mut items: Vec<String> = Vec::new();
        std::mem::swap(&mut items, &mut self.items);
        items.insert(i, s);
        assert(items@.map_values(|x: String| x@) =~= set_insert(before, s@));
        self.items = items;
    }

    /// Whether `s` is in the set.
    pub fn contains(&self, s: &str) -> (r: bool)
        ensures
            r == self@.contains(s@),
    {
        let mut i: usize = 0;
        while i < self.items.len()
            invariant
                i <= self.items.len(),
                forall|j: int| 0 <= j < i ==> self@[j] != s@,
            decreases self.items.len() - i,
        {
            if str_eq(self.items[i].as_str(), s) {
                assert(self@[i as int] == s@);
                return true;
            }
            i = i + 1;
        }
        false
    }
}

impl Clone for StrSet {
    /// A copy of the set.
    fn clone(&self) -> (r: StrSet)
        ensures
            r@ == self@,
    {
        proof {
            use_type_invariant(self);
        }
        let mut items: Vec<String> = Vec::new();
        let mut i: usize = 0;
        while i < self.items.len()
            invariant
                i <= self.items.len(),
                items@.map_values(|x: String| x@) == self@.take(i as int),
            decreases self.items.len() - i,
        {
            let ghost before = items@.map_values(|x: String| x@);
            items.push(self.items[i].clone());
            assert(items@.map_values(|x: String| x@) =~= before.push(self@[i as int]));
            assert(self@.take(i + 1) =~= self@.take(i as int).push(self@[i as int]));
            i = i + 1;
        }
        assert(self@.take(self.items.len() as int) =~= self@);
        StrSet { items }
    }
}

/// The keys of an association list, in order.
pub open spec fn keys_of<V>(s: Seq<(Seq<char>, V)>) -> Seq<Seq<char>> {
    s.map_values(|p: (Seq<char>, V)| p.0)
}

/// The association list that `s` becomes after binding `k` to `v`: an
/// existing binding of `k` is replaced in place, a new one goes to the
/// sorted position of `k`.
pub open spec fn assoc_insert<V>(s: Seq<(Seq<char>, V)>, k: Seq<char>, v: V) -> Seq<(Seq<char>, V)> {
    let i = insert_index(keys_of(s), k, 0);
    if i < s.len() && s[i].0 == k {
        s.update(i, (k, v))
    } else {
        s.insert(i, (k, v))
    }
}

/// The value bound to `k`, searching from the front.
pub open spec fn assoc_get<V>(s: Seq<(Seq<char>, V)>, k: Seq<char>) -> Option<V>
    decreases s.len(),
{
    if s.len() == 0 {
        None
    } else if s[0].0 == k {
        Some(s[0].1)
    } else {
        assoc_get(s.drop_first(), k)
    }
}

/// Binding a key keeps an association list's keys strictly sorted, and its
/// keys are those of the old list with `k` added.
pub proof fn lemma_assoc_insert<V>(s: Seq<(Seq<char>, V)>, k: Seq<char>, v: V)
    requires
        strictly_sorted(keys_of(s)),
    ensures
        keys_of(assoc_insert(s, k, v)) == set_insert(keys_of(s), k),
        strictly_sorted(keys_of(assoc_insert(s, k, v))),
{
    lemma_sorted_insert(keys_of(s), k);
    let i = insert_index(keys_of(s), k, 0);
    assert(keys_of(assoc_insert(s, k, v)) =~= set_insert(keys_of(s), k));
}

/// A map keyed by strings, kept in strictly increasing key order, like a
/// `BTreeMap<String, V>`.
#[derive(Debug, PartialEq)]
pub struct SortedMap<V> {
    entries: Vec<(String, V)>,
}

impl<V: View> View for SortedMap<V> {
    type V = Seq<(Seq<char>, V::V)>;

    closed spec fn view(&self) -> Seq<(Seq<char>, V::V)> {
        self.entries@.map_values(|p: (String, V)| (p.0@, p.1@))
    }
}

impl<V> SortedMap<V> {
    /// The keys, in order.
    pub closed spec fn key_seq(self) -> Seq<Seq<char>> {
        self.entries@.map_values(|p: (String, V)| p.0@)
    }

    /// The values, in key order.
    pub closed spec fn value_seq(self) -> Seq<V> {
        self.entries@.map_values(|p: (String, V)| p.1)
    }

    /// The keys are strictly increasing.
    #[verifier::type_invariant]
    pub closed spec fn wf(self) -> bool {
        strictly_sorted(self.key_seq())
    }
}

impl<V: Clone> Clone for SortedMap<V> {
    /// A copy of the map: the same keys in the same order, each value
    /// cloned.
    fn clone(&self) -> (r: SortedMap<V>)
        ensures
            r.key_seq() == self.key_seq(),
            r.value_seq().len() == self.value_seq().len(),
            forall|i: int| 0 <= i < self.value_seq().len() ==> cloned::<V>(self.value_seq()[i], #[trigger] r.value_seq()[i]),
    {
        proof {
            use_type_invariant(self);
        }
        let ghost keys = self.entries@.map_values(|p: (String, V)| p.0@);
        let mut entries: Vec<(String, V)> = Vec::new();
        let mut i: usize = 0;
        while i < self.entries.len()
            invariant
                i <= self.entries.len(),
                keys == self.entries@.map_values(|p: (String, V)| p.0@),
                entries@.map_values(|p: (String, V)| p.0@) == keys.take(i as int),
                entries.len() == i,
                forall|j: int| 0 <= j < i ==> cloned::<V>(self.entries@[j].1, #[trigger] entries@[j].1),
            decreases self.entries.len() - i,
        {
            let ghost before = entries@.map_values(|p: (String, V)| p.0@);
            let key = self.entries[i].0.clone();
            let value = self.entries[i].1.clone();
            entries.push((key, value));
            assert(entries@.map_values(|p: (String, V)| p.0@) =~= before.push(keys[i as int]));
            assert(keys.take(i + 1) =~= keys.take(i as int).push(keys[i as int]));
            i = i + 1;
        }
        assert(keys.take(self.entries.len() as int) =~= keys);
        let r = SortedMap { entries };
        assert forall|i: int| 0 <= i < self.value_seq().len() implies cloned::<V>(self.value_seq()[i], #[trigger] r.value_seq()[i]) by {
            assert(self.value_seq()[i] == self.entries@[i].1);
            assert(r.value_seq()[i] == r.entries@[i].1);
        }
        r
    }
}

impl<V: View> SortedMap<V> {
    /// The keys of a map are strictly increasing: each is bound once, in
    /// order; its view pairs each key with the view of its value.
    pub proof fn lemma_sorted(self)
        requires
            self.wf(),
        ensures
            keys_of(self@) == self.key_seq(),
            strictly_sorted(keys_of(self@)),
            self@.len() == self.value_seq().len(),
            forall|i: int| 0 <= i < self@.len() ==> (#[trigger] self@[i]).1 == self.value_seq()[i]@,
    {
        assert(keys_of(self@) =~= self.key_seq());
    }

    /// The empty map.
    pub fn new() -> (r: SortedMap<V>)
        ensures
            r@ == Seq::<(Seq<char>, V::V)>::empty(),
    {
        let r = SortedMap { entries: Vec::new() };
        assert(r.entries@.map_values(|p: (String, V)| p.0@) =~= Seq::<Seq<char>>::empty());
        r
    }

    /// The number of keys.
    pub fn len(&self) -> (r: usize)
        ensures
            r == self@.len(),
    {
        self.entries.len()
    }

    /// Whether the map holds no key.
    pub fn is_empty(&self) -> (r: bool)
        ensures
            r == (self@.len() == 0),
    {
        self.entries.len() == 0
    }

    /// The `i`-th binding in increasing key order.
    pub fn entry(&self, i: usize) -> (r: (&String, &V))
        requires
            i < self@.len(),
        ensures
            r.0@ == self@[i as int].0,
            r.1@ == self@[i as int].1,
    {
        (&self.entries[i].0, &self.entries[i].1)
    }

    /// Binds `lib` to `coord`, replacing an earlier binding of `lib`.
    pub fn insert(&mut self, lib: String, coord: V)
        ensures
            final(self)@ == assoc_insert(old(self)@, lib@, coord@),
    {
        proof {
            use_type_invariant(&*self);
            self.lemma_sorted();
            lemma_assoc_insert(self@, lib@, coord@);
        }
        let key = chars_of(lib.as_str());
        let mut i: usize = 0;
        let n = self.entries.len();
        proof {
            lemma_insert_index(keys_of(self@), lib@, 0);
        }
        while i < n
            invariant
                n == self.entries.len(),
                n == self@.len(),
                i <= n,
                key@ == lib@,
                insert_index(keys_of(self@), lib@, 0) == insert_index(keys_of(self@), lib@, i as int),
            ensures
                i == n || seq_lt(lib@, self@[i as int].0) || self@[i as int].0 == lib@,
            decreases n - i,
        {
            let cur = chars_of(self.entries[i].0.as_str());
            assert(keys_of(self@)[i as int] == self@[i as int].0);
            match compare_chars(&cur, &key) {
                StrOrder::Less => {
                    i = i + 1;
                },
                _ => {
                    break;
                },
            }
        }
        proof {
            if i < n {
                lemma_seq_lt_total(lib@, self@[i as int].0);
                lemma_seq_lt_irreflexive(lib@);
                assert(keys_of(self@)[i as int] == self@[i as int].0);
            }
        }
        let ghost before = self@;
        let same = i < n && str_eq(self.entries[i].0.as_str(), lib.as_str());
        let mut entries: Vec<(String, V)> = Vec::new();
        std::mem::swap(&mut entries, &mut self.entries);
        let ghost old_entries = entries@;
        if same {
            entries.set(i, (lib, coord));
        } else {
            entries.insert(i, (lib, coord));
        }
        assert(entries@.map_values(|p: (String, V)| (p.0@, p.1@)) =~= assoc_insert(before, lib@, coord@));
        assert(entries@.map_values(|p: (String, V)| p.0@) =~= keys_of(assoc_insert(before, lib@, coord@)));
        self.entries = entries;
    }

    /// The value bound to `lib`.
    pub fn get(&self, lib: &str) -> (r: Option<&V>)
        ensures
            r matches Some(c) ==> assoc_get(self@, lib@) == Some(c@),
            r is None ==> assoc_get(self@, lib@) is None,
    {
        let mut i: usize = 0;
        assert(self@.skip(0) =~= self@);
        while i < self.entries.len()
            invariant
                i <= self.entries.len(),
                self.entries.len() == self@.len(),
                assoc_get(self@, lib@) == assoc_get(self@.skip(i as int), lib@),
            decreases self.entries.len() - i,
        {
            assert(self@.skip(i as int).drop_first() =~= self@.skip(i + 1));
            assert(self@.skip(i as int)[0] == self@[i as int]);
            if str_eq(self.entries[i].0.as_str(), lib) {
                return Some(&self.entries[i].1);
            }
            i = i + 1;
        }
        None
    }

    /// Whether `lib` is bound.
    pub fn contains_key(&self, lib: &str) -> (r: bool)
        ensures
            r == (assoc_get(self@, lib@) is Some),
    {
        self.get(lib).is_some()
    }
}

} // verus!
