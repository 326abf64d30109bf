//! A map keyed by strings, kept as an association list in insertion order.

use vstd::prelude::*;
use crate::text::owned;

verus! {

/// The value of the first entry whose key is `key`.
pub open spec fn lookup<V>(entries: Seq<(String, V)>, key: Seq<char>) -> Option<V>
    decreases entries.len(),
{
    if entries.len() == 0 {
        None
    } else if entries[0].0@ == key {
        Some(entries[0].1)
    } else {
        lookup(entries.drop_first(), key)
    }
}

/// The index of the first entry whose key is `key`.
pub open spec fn index_of_key<V>(entries: Seq<(String, V)>, key: Seq<char>) -> Option<int>
    decreases entries.len(),
{
    if entries.len() == 0 {
        None
    } else if entries[0].0@ == key {
        Some(0)
    } else {
        match index_of_key(entries.drop_first(), key) {
            Some(i) => Some(i + 1),
            None => None,
        }
    }
}

/// The keys of an association list, in order.
pub open spec fn keys_of<V>(entries: Seq<(String, V)>) -> Seq<Seq<char>> {
    entries.map_values(|e: (String, V)| e.0@)
}

/// `index_of_key` finds the first entry with the key, and `lookup` its value.
pub proof fn lemma_index_of_key<V>(entries: Seq<(String, V)>, key: Seq<char>)
    ensures
        match index_of_key(entries, key) {
            Some(i) => 0 <= i < entries.len() && entries[i].0@ == key && lookup(entries, key) == Some(
                entries[i].1,
            ) && forall|j: int| 0 <= j < i ==> (#[trigger] entries[j]).0@ != key,
            None => lookup(entries, key) is None && forall|j: int|
                0 <= j < entries.len() ==> (#[trigger] entries[j]).0@ != key,
        },
    decreases entries.len(),
{
    if entries.len() > 0 && entries[0].0@ != key {
        lemma_index_of_key(entries.drop_first(), key);
        assert forall|j: int| 1 <= j < entries.len() implies entries[j] == entries.drop_first()[j - 1] by {}
    }
}

/// A lookup only depends on the first entry carrying the key.
pub proof fn lemma_lookup_update<V>(entries: Seq<(String, V)>, i: int, v: V, key: Seq<char>)
    requires
        index_of_key(entries, entries[i].0@) == Some(i),
        0 <= i < entries.len(),
    ensures
        lookup(entries.update(i, (entries[i].0, v)), key) == if key == entries[i].0@ {
            Some(v)
        } else {
            lookup(entries, key)
        },
        index_of_key(entries.update(i, (entries[i].0, v)), key) == index_of_key(entries, key),
    decreases entries.len(),
{
    let u = entries.update(i, (entries[i].0, v));
    if i > 0 {
        lemma_index_of_key(entries, entries[i].0@);
        assert(u.drop_first() =~= entries.drop_first().update(i - 1, (entries[i].0, v)));
        assert(entries.drop_first()[i - 1] == entries[i]);
        assert(u[0] == entries[0]);
        assert(entries[0].0@ != entries[i].0@);
        lemma_lookup_update(entries.drop_first(), i - 1, v, key);
    } else {
        assert(u.drop_first() =~= entries.drop_first());
        assert(u[0] == (entries[0].0, v));
    }
}

/// Appending an entry with a new key keeps every other lookup.
pub proof fn lemma_lookup_push<V>(entries: Seq<(String, V)>, k: String, v: V, key: Seq<char>)
    requires
        lookup(entries, k@) is None,
    ensures
        lookup(entries.push((k, v)), key) == if key == k@ {
            Some(v)
        } else {
            lookup(entries, key)
        },
        index_of_key(entries.push((k, v)), key) == if key == k@ {
            Some(entries.len() as int)
        } else {
            index_of_key(entries, key)
        },
    decreases entries.len(),
{
    let p = entries.push((k, v));
    if entries.len() > 0 {
        assert(p.drop_first() =~= entries.drop_first().push((k, v)));
        assert(p[0] == entries[0]);
        assert(entries[0].0@ != k@);
        lemma_lookup_push(entries.drop_first(), k, v, key);
        assert(lookup(p.drop_first(), key) == lookup(entries.drop_first().push((k, v)), key));
        assert(index_of_key(p.drop_first(), key) == index_of_key(entries.drop_first().push((k, v)), key));
    } else {
        assert(p[0] == (k, v));
        assert(p.drop_first() =~= Seq::<(String, V)>::empty());
        assert(lookup(p.drop_first(), key) is None);
        assert(index_of_key(p.drop_first(), key) is None);
    }
}

/// A map from strings to values: an association list in insertion order,
/// where the first entry with a key is the one that counts.
pub struct StringMap<V> {
    entries: Vec<(String, V)>,
}

impl<V> StringMap<V> {
    /// The entries, in insertion order.
    pub closed spec fn entries(&self) -> Seq<(String, V)> {
        self.entries@
    }

    /// The value under `key`, if any.
    pub open spec fn spec_get(&self, key: Seq<char>) -> Option<V> {
        lookup(self.entries(), key)
    }

    /// The keys, in insertion order.
    pub open spec fn spec_keys(&self) -> Seq<Seq<char>> {
        keys_of(self.entries())
    }

    /// An empty map.
    pub fn new() -> (m: Self)
        ensures
            m.entries() == Seq::<(String, V)>::empty(),
    {
        StringMap { entries: Vec::new() }
    }

    /// The number of entries.
    pub fn len(&self) -> (n: usize)
        ensures
            n == self.entries().len(),
    {
        self.entries.len()
    }

    /// Whether there is no entry.
    pub fn is_empty(&self) -> (r: bool)
        ensures
            r == (self.entries().len() == 0),
    {
        self.entries.len() == 0
    }

    /// The index of the entry for `key`, if any.
    fn position(&self, key: &str) -> (r: Option<usize>)
        ensures
            match r {
                Some(i) => index_of_key(self.entries(), key@) == Some(i as int),
                None => index_of_key(self.entries(), key@) is None,
            },
    {
        proof {
            lemma_index_of_key(self.entries(), key@);
        }
        let k = owned(key);
        let mut i: usize = 0;
        while i < self.entries.len()
            invariant
                i <= self.entries@.len(),
                k@ == key@,
                forall|j: int| 0 <= j < i ==> (#[trigger] self.entries@[j]).0@ != key@,
            decreases self.entries@.len() - i,
        {
            if self.entries[i].0 == k {
                proof {
                    lemma_index_of_key(self.entries(), key@);
                    if let Some(p) = index_of_key(self.entries(), key@) {
                        if p < i {
                            assert(self.entries@[p].0@ != key@);
                        }
                    }
                }
                return Some(i);
            }
            i = i + 1;
        }
        None
    }

    /// The value under `key`, if any.
    pub fn get(&self, key: &str) -> (r: Option<&V>)
        ensures
            match r {
                Some(v) => self.spec_get(key@) == Some(*v),
                None => self.spec_get(key@) is None,
            },
    {
        proof {
            lemma_index_of_key(self.entries(), key@);
        }
        match self.position(key) {
            Some(i) => Some(&self.entries[i].1),
            None => None,
        }
    }

    /// Whether `key` has an entry.
    pub fn contains_key(&self, key: &str) -> (r: bool)
        ensures
            r == self.spec_get(key@) is Some,
    {
        proof {
            lemma_index_of_key(self.entries(), key@);
        }
        self.position(key).is_some()
    }

    /// The key of the `i`-th entry.
    pub fn key_at(&self, i: usize) -> (k: &String)
        requires
            i < self.entries().len(),
        ensures
            *k == self.entries()[i as int].0,
    {
        &self.entries[i].0
    }

    /// The value of the `i`-th entry.
    pub fn value_at(&self, i: usize) -> (v: &V)
        requires
            i < self.entries().len(),
        ensures
            *v == self.entries()[i as int].1,
    {
        &self.entries[i].1
    }

    /// Sets the value under `key`: the existing entry is overwritten in
    /// place, or a new entry is appended.
    pub fn insert(&mut self, key: String, value: V)
        ensures
            forall|k: Seq<char>| #[trigger] final(self).spec_get(k) == if k == key@ {
                Some(value)
            } else {
                old(self).spec_get(k)
            },
            final(self).spec_keys() == if old(self).spec_get(key@) is Some {
                old(self).spec_keys()
            } else {
                old(self).spec_keys().push(key@)
            },
    {
        proof {
            lemma_index_of_key(self.entries(), key@);
        }
        match self.position(key.as_str()) {
            Some(i) => {
                let ghost old_entries = self.entries@;
                let k = self.entries[i].0.clone();
                self.entries.set(i, (k, value));
                proof {
                    assert forall|q: Seq<char>| #[trigger] self.spec_get(q) == if q == key@ {
                        Some(value)
                    } else {
                        lookup(old_entries, q)
                    } by {
                        lemma_lookup_update(old_entries, i as int, value, q);
                    }
                    assert(keys_of(self.entries@) =~= keys_of(old_entries));
                }
            },
            None => {
                let ghost old_entries = self.entries@;
                self.entries.push((key, value));
                proof {
                    assert forall|q: Seq<char>| #[trigger] self.spec_get(q) == if q == key@ {
                        Some(value)
                    } else {
                        lookup(old_entries, q)
                    } by {
                        lemma_lookup_push(old_entries, key, value, q);
                    }
                    assert(keys_of(self.entries@) =~= keys_of(old_entries).push(key@));
                }
            },
        }
    }
}


/// The names listed under `key`, as views (empty when `key` has no entry).
pub open spec fn listed(m: StringMap<Vec<String>>, key: Seq<char>) -> Seq<Seq<char>> {
    match m.spec_get(key) {
        Some(v) => v@.map_values(|s: String| s@),
        None => seq![],
    }
}

impl StringMap<Vec<String>> {
    /// Appends `item` to the list under `key`, creating an empty list
    /// first when `key` has no entry.
    pub fn push_to(&mut self, key: String, item: String)
        ensures
            listed(*final(self), key@) == listed(*old(self), key@).push(item@),
            forall|k: Seq<char>| k != key@ ==> #[trigger] final(self).spec_get(k) == old(self).spec_get(k),
            final(self).spec_keys() == if old(self).spec_get(key@) is Some {
                old(self).spec_keys()
            } else {
                old(self).spec_keys().push(key@)
            },
    {
        proof {
            lemma_index_of_key(self.entries(), key@);
        }
        match self.position(key.as_str()) {
            Some(i) => {
                let ghost old_entries = self.entries@;
                let (k, mut list) = self.entries.remove(i);
                let ghost old_list = list@;
                list.push(item);
                self.entries.insert(i, (k, list));
                proof {
                    assert(self.entries@ =~= old_entries.update(i as int, (old_entries[i as int].0, self.entries@[i as int].1)));
                    assert forall|q: Seq<char>| q != key@ implies #[trigger] self.spec_get(q) == lookup(old_entries, q) by {
                        lemma_lookup_update(old_entries, i as int, self.entries@[i as int].1, q);
                    }
                    lemma_lookup_update(old_entries, i as int, self.entries@[i as int].1, key@);
                    assert(self.entries@[i as int].1@.map_values(|s: String| s@) =~= old_list.map_values(|s: String| s@).push(item@));
                    assert(keys_of(self.entries@) =~= keys_of(old_entries));
                }
            },
            None => {
                let mut list: Vec<String> = Vec::new();
                let ghost it = item;
                list.push(item);
                let ghost l = list;
                let ghost old_entries = self.entries@;
                self.entries.push((key, list));
                proof {
                    assert forall|q: Seq<char>| q != key@ implies #[trigger] self.spec_get(q) == lookup(old_entries, q) by {
                        lemma_lookup_push(old_entries, key, l, q);
                    }
                    lemma_lookup_push(old_entries, key, l, key@);
                    assert(l@.map_values(|s: String| s@) =~= seq![it@]);
                    assert(keys_of(self.entries@) =~= keys_of(old_entries).push(key@));
                }
            },
        }
    }
}


/// A key is listed exactly when it is bound.
pub proof fn lemma_spec_keys<V>(m: StringMap<V>, k: Seq<char>)
    ensures
        m.spec_keys().contains(k) <==> m.spec_get(k) is Some,
{
    lemma_index_of_key(m.entries(), k);
    if m.spec_keys().contains(k) {
        let i = choose|i: int| 0 <= i < m.spec_keys().len() && m.spec_keys()[i] == k;
        assert(m.entries()[i].0@ == k);
    }
    if let Some(i) = index_of_key(m.entries(), k) {
        assert(m.spec_keys()[i] == k);
    }
}

/// The entries whose key is not `key`, in order.
pub open spec fn without_entries<V>(entries: Seq<(String, V)>, key: Seq<char>) -> Seq<(String, V)>
    decreases entries.len(),
{
    if entries.len() == 0 {
        entries
    } else if entries.last().0@ == key {
        without_entries(entries.drop_last(), key)
    } else {
        without_entries(entries.drop_last(), key).push(entries.last())
    }
}

/// A lookup in a list with an entry appended: the earlier entries win.
pub proof fn lemma_lookup_append<V>(entries: Seq<(String, V)>, e: (String, V), k: Seq<char>)
    ensures
        lookup(entries.push(e), k) == match lookup(entries, k) {
            Some(v) => Some(v),
            None => if e.0@ == k {
                Some(e.1)
            } else {
                None
            },
        },
    decreases entries.len(),
{
    let p = entries.push(e);
    if entries.len() > 0 {
        assert(p.drop_first() =~= entries.drop_first().push(e));
        assert(p[0] == entries[0]);
        lemma_lookup_append(entries.drop_first(), e, k);
    } else {
        assert(p.drop_first() =~= Seq::<(String, V)>::empty());
        assert(lookup(p.drop_first(), k) is None);
        assert(p[0] == e);
    }
}

/// Dropping the entries of a key unbinds it and keeps every other key.
pub proof fn lemma_without_entries<V>(entries: Seq<(String, V)>, key: Seq<char>, k: Seq<char>)
    ensures
        lookup(without_entries(entries, key), k) == if k == key {
            None
        } else {
            lookup(entries, k)
        },
    decreases entries.len(),
{
    if entries.len() > 0 {
        let init = entries.drop_last();
        let last = entries.last();
        lemma_without_entries(init, key, k);
        assert(init.push(last) =~= entries);
        lemma_lookup_append(init, last, k);
        if last.0@ != key {
            lemma_lookup_append(without_entries(init, key), last, k);
        }
    }
}

/// Whether a string holds the characters of `key`.
fn str_eq_owned(a: &String, key: &str) -> (r: bool)
    ensures
        r == (a@ == key@),
{
    crate::text::str_eq(a.as_str(), key)
}

impl<V> StringMap<V> {
    /// Unbinds `key`, keeping every other binding.
    pub fn remove(&mut self, key: &str)
        ensures
            final(self).spec_get(key@) is None,
            forall|k: Seq<char>| k != key@ ==> #[trigger] final(self).spec_get(k) == old(self).spec_get(k),
            final(self).entries().len() <= old(self).entries().len(),
    {
        let ghost old_entries = self.entries@;
        let mut kept: Vec<(String, V)> = Vec::new();
        let mut rest: Vec<(String, V)> = Vec::new();
        std::mem::swap(&mut rest, &mut self.entries);
        let ghost n = old_entries.len();
        proof {
            assert(old_entries.skip(0) =~= old_entries);
            assert(old_entries.take(0) =~= Seq::<(String, V)>::empty());
        }
        while rest.len() > 0
            invariant
                n == old_entries.len(),
                rest@.len() <= n,
                rest@ == old_entries.skip(n - rest@.len()),
                kept@ == without_entries(old_entries.take(n - rest@.len()), key@),
                kept@.len() <= n - rest@.len(),
            decreases rest@.len(),
        {
            let ghost t = n - rest@.len();
            let e = rest.remove(0);
            proof {
                assert(e == old_entries[t]);
                assert(rest@ =~= old_entries.skip(t + 1));
                assert(old_entries.take(t + 1).drop_last() =~= old_entries.take(t));
                assert(old_entries.take(t + 1).last() == e);
            }
            if !str_eq_owned(&e.0, key) {
                kept.push(e);
            }
        }
        proof {
            assert(old_entries.take(n as int) =~= old_entries);
            assert forall|k: Seq<char>| #[trigger] lookup(kept@, k) == if k == key@ {
                None
            } else {
                lookup(old_entries, k)
            } by {
                lemma_without_entries(old_entries, key@, k);
            }
        }
        self.entries = kept;
    }
}

/// When no earlier entry carries the key of entry `i`, a lookup of that key
/// finds entry `i`.
pub proof fn lemma_first_entry<V>(entries: Seq<(String, V)>, i: int)
    requires
        0 <= i < entries.len(),
        !keys_of(entries).take(i).contains(entries[i].0@),
    ensures
        lookup(entries, entries[i].0@) == Some(entries[i].1),
{
    lemma_index_of_key(entries, entries[i].0@);
    match index_of_key(entries, entries[i].0@) {
        Some(j) => {
            if j < i {
                assert(keys_of(entries).take(i)[j] == entries[j].0@);
            }
        },
        None => {},
    }
}
} // verus!
