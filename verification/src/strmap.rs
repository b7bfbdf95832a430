//! A map keyed by strings that remembers the order in which keys were
//! first inserted.

use vstd::prelude::*;
use vstd::string::StringExecFns;

verus! {

/// The keys of an entry sequence are pairwise distinct.
pub open spec fn keys_distinct<V>(entries: Seq<(String, V)>) -> bool {
    forall|i: int, j: int|
        0 <= i < entries.len() && 0 <= j < entries.len() && i != j ==> #[trigger] entries[i].0@
            != #[trigger] entries[j].0@
}

/// Some entry has key `k`.
pub open spec fn has_key<V>(entries: Seq<(String, V)>, k: Seq<char>) -> bool {
    exists|i: int| 0 <= i < entries.len() && #[trigger] entries[i].0@ == k
}

/// The index of the entry with key `k` (meaningful when `has_key`).
pub open spec fn index_of<V>(entries: Seq<(String, V)>, k: Seq<char>) -> int {
    choose|i: int| 0 <= i < entries.len() && #[trigger] entries[i].0@ == k
}

/// With distinct keys, the entry with key `k` is at `i` exactly when `entries[i]` has key `k`.
pub proof fn lemma_index_of<V>(entries: Seq<(String, V)>, i: int)
    requires
        keys_distinct(entries),
        0 <= i < entries.len(),
    ensures
        has_key(entries, entries[i].0@),
        index_of(entries, entries[i].0@) == i,
{
    let k = entries[i].0@;
    assert(has_key(entries, k));
    let j = index_of(entries, k);
    assert(entries[j].0@ == k);
}

/// After an insert of `(k, v)`, `k` maps to `v` and every other key is as before.
pub proof fn lemma_insert_effect<V>(old_e: Seq<(String, V)>, new_e: Seq<(String, V)>, k: String, v: V)
    requires
        keys_distinct(old_e),
        keys_distinct(new_e),
        has_key(old_e, k@) ==> new_e == old_e.update(index_of(old_e, k@), (k, v)),
        !has_key(old_e, k@) ==> new_e == old_e.push((k, v)),
    ensures
        has_key(new_e, k@),
        new_e[index_of(new_e, k@)].1 == v,
        forall|k2: Seq<char>|
            k2 != k@ ==> (has_key(new_e, k2) == has_key(old_e, k2)) && (has_key(old_e, k2)
                ==> new_e[index_of(new_e, k2)].1 == old_e[index_of(old_e, k2)].1),
{
    let pos = if has_key(old_e, k@) { index_of(old_e, k@) } else { old_e.len() as int };
    assert(new_e[pos].0@ == k@);
    lemma_index_of(new_e, pos);
    assert forall|k2: Seq<char>| k2 != k@ implies (has_key(new_e, k2) == has_key(old_e, k2)) && (
    has_key(old_e, k2) ==> new_e[index_of(new_e, k2)].1 == old_e[index_of(old_e, k2)].1) by {
        if has_key(old_e, k2) {
            let j = index_of(old_e, k2);
            assert(j != pos);
            assert(new_e[j] == old_e[j]);
            lemma_index_of(new_e, j);
        }
        if has_key(new_e, k2) {
            let j = index_of(new_e, k2);
            assert(j != pos);
            assert(new_e[j] == old_e[j]);
        }
    }
}

/// After removing key `k`, `k` is absent and every other key is as before.
pub proof fn lemma_remove_effect<V>(old_e: Seq<(String, V)>, k: Seq<char>)
    requires
        keys_distinct(old_e),
        has_key(old_e, k),
    ensures
        !has_key(old_e.remove(index_of(old_e, k)), k),
        forall|k2: Seq<char>|
            k2 != k ==> (has_key(old_e.remove(index_of(old_e, k)), k2) == has_key(old_e, k2)) && (
            has_key(old_e, k2) ==> old_e.remove(index_of(old_e, k))[index_of(
                old_e.remove(index_of(old_e, k)),
                k2,
            )].1 == old_e[index_of(old_e, k2)].1),
{
    let p = index_of(old_e, k);
    let new_e = old_e.remove(p);
    assert forall|j: int| 0 <= j < new_e.len() implies new_e[j].0@ != k by {
        if j < p {
            assert(new_e[j] == old_e[j]);
        } else {
            assert(new_e[j] == old_e[j + 1]);
        }
    }
    assert forall|k2: Seq<char>| k2 != k implies (has_key(new_e, k2) == has_key(old_e, k2)) && (
    has_key(old_e, k2) ==> new_e[index_of(new_e, k2)].1 == old_e[index_of(old_e, k2)].1) by {
        if has_key(old_e, k2) {
            let j = index_of(old_e, k2);
            assert(j != p);
            let nj = if j < p { j } else { j - 1 };
            assert(new_e[nj] == old_e[j]);
            assert(keys_distinct(new_e)) by {
                assert forall|a: int, b: int| 0 <= a < new_e.len() && 0 <= b < new_e.len() && a != b implies #[trigger] new_e[a].0@ != #[trigger] new_e[b].0@ by {
                    let oa = if a < p { a } else { a + 1 };
                    let ob = if b < p { b } else { b + 1 };
                    assert(new_e[a] == old_e[oa]);
                    assert(new_e[b] == old_e[ob]);
                }
            }
            lemma_index_of(new_e, nj);
        }
        if has_key(new_e, k2) {
            let j = index_of(new_e, k2);
            let oj = if j < p { j } else { j + 1 };
            assert(new_e[j] == old_e[oj]);
        }
    }
}

/// Insertion-ordered map from strings to values.
#[derive(Clone, Debug)]
pub struct StrMap<V> {
    entries: Vec<(String, V)>,
}

impl<V> StrMap<V> {
    /// The entries, in order of first insertion.
    pub closed spec fn entries(&self) -> Seq<(String, V)> {
        self.entries@
    }

    /// The keys are distinct.
    pub open spec fn wf(&self) -> bool {
        keys_distinct(self.entries())
    }

    /// The key is present.
    pub open spec fn has(&self, k: Seq<char>) -> bool {
        has_key(self.entries(), k)
    }

    /// The value of a present key.
    pub open spec fn value_of(&self, k: Seq<char>) -> V {
        self.entries()[index_of(self.entries(), k)].1
    }

    pub fn new() -> (m: Self)
        ensures
            m.entries() == Seq::<(String, V)>::empty(),
            m.wf(),
    {
        StrMap { entries: Vec::new() }
    }

    pub fn len(&self) -> (n: usize)
        ensures
            n == self.entries().len(),
    {
        self.entries.len()
    }

    pub fn is_empty(&self) -> (b: bool)
        ensures
            b == (self.entries().len() == 0),
    {
        self.entries.len() == 0
    }

    /// The position of key `k`, if present.
    pub fn find(&self, k: &str) -> (r: Option<usize>)
        requires
            self.wf(),
        ensures
            r matches Some(i) ==> i < self.entries().len() && self.entries()[i as int].0@ == k@
                && index_of(self.entries(), k@) == i,
            r is None ==> !self.has(k@),
            r is Some <==> self.has(k@),
    {
        let key = String::from_str(k);
        let mut i: usize = 0;
        while i < self.entries.len()
            invariant
                i <= self.entries@.len(),
                key@ == k@,
                keys_distinct(self.entries@),
                forall|j: int| 0 <= j < i ==> self.entries@[j].0@ != k@,
            decreases self.entries@.len() - i,
        {
            if self.entries[i].0 == key {
                proof {
                    lemma_index_of(self.entries@, i as int);
                }
                return Some(i);
            }
            i = i + 1;
        }
        None
    }

    /// Whether key `k` is present.
    pub fn contains_key(&self, k: &str) -> (b: bool)
        requires
            self.wf(),
        ensures
            b == self.has(k@),
    {
        self.find(k).is_some()
    }

    /// The value of key `k`, if present.
    pub fn get(&self, k: &str) -> (r: Option<&V>)
        requires
            self.wf(),
        ensures
            r matches Some(v) ==> self.has(k@) && *v == self.value_of(k@),
            r is None <==> !self.has(k@),
    {
        match self.find(k) {
            Some(i) => Some(&self.entries[i].1),
            None => None,
        }
    }

    /// The key of the entry at position `i`.
    pub fn key_at(&self, i: usize) -> (k: &String)
        requires
            i < self.entries().len(),
        ensures
            *k == self.entries()[i as int].0,
    {
        &self.entries[i].0
    }

    /// The value of the entry at position `i`.
    pub fn value_at(&self, i: usize) -> (v: &V)
        requires
            i < self.entries().len(),
        ensures
            *v == self.entries()[i as int].1,
    {
        &self.entries[i].1
    }

    /// The value of the entry at position `i`, for update in place.
    pub fn value_at_mut(&mut self, i: usize) -> (v: &mut V)
        requires
            i < old(self).entries().len(),
        ensures
            *v == old(self).entries()[i as int].1,
            final(self).entries() == old(self).entries().update(
                i as int,
                (old(self).entries()[i as int].0, *final(v)),
            ),
    {
        &mut self.entries[i].1
    }

    /// Appends an entry as it is, whatever keys the map holds.
    pub(crate) fn push_entry(&mut self, k: String, v: V)
        ensures
            final(self).entries() == old(self).entries().push((k, v)),
    {
        self.entries.push((k, v));
    }

    /// Sets the value of key `k`: in place when present, appended otherwise.
    /// Returns the previous value.
    pub fn insert(&mut self, k: String, v: V) -> (prev: Option<V>)
        requires
            old(self).wf(),
        ensures
            final(self).wf(),
            old(self).has(k@) ==> final(self).entries() == old(self).entries().update(
                index_of(old(self).entries(), k@),
                (k, v),
            ) && prev == Some(old(self).value_of(k@)),
            !old(self).has(k@) ==> final(self).entries() == old(self).entries().push((k, v))
                && prev is None,
            final(self).has(k@),
            final(self).value_of(k@) == v,
            forall|k2: Seq<char>|
                k2 != k@ ==> (final(self).has(k2) == old(self).has(k2)) && (old(self).has(k2)
                    ==> final(self).value_of(k2) == old(self).value_of(k2)),
    {
        match self.find(k.as_str()) {
            Some(i) => {
                let (_, old_v) = self.entries.remove(i);
                self.entries.insert(i, (k, v));
                proof {
                    assert(self.entries@ =~= old(self).entries@.update(i as int, (k, v)));
                    lemma_insert_effect(old(self).entries@, self.entries@, k, v);
                }
                Some(old_v)
            },
            None => {
                self.entries.push((k, v));
                proof {
                    lemma_insert_effect(old(self).entries@, self.entries@, k, v);
                }
                None
            },
        }
    }

    /// Removes key `k`, returning its value.
    pub fn remove(&mut self, k: &str) -> (prev: Option<V>)
        requires
            old(self).wf(),
        ensures
            final(self).wf(),
            old(self).has(k@) ==> final(self).entries() == old(self).entries().remove(
                index_of(old(self).entries(), k@),
            ) && prev == Some(old(self).value_of(k@)),
            !old(self).has(k@) ==> final(self).entries() == old(self).entries() && prev is None,
            !final(self).has(k@),
            forall|k2: Seq<char>|
                k2 != k@ ==> (final(self).has(k2) == old(self).has(k2)) && (old(self).has(k2)
                    ==> final(self).value_of(k2) == old(self).value_of(k2)),
    {
        match self.find(k) {
            Some(i) => {
                let (_, old_v) = self.entries.remove(i);
                proof {
                    lemma_remove_effect(old(self).entries@, k@);
                }
                Some(old_v)
            },
            None => None,
        }
    }

    /// Removes every entry.
    pub fn clear(&mut self)
        ensures
            final(self).entries() == Seq::<(String, V)>::empty(),
            final(self).wf(),
    {
        self.entries.clear();
    }
}

} // verus!
