//! A table of entries, each found by its key.

use vstd::prelude::*;
use crate::types::Address;

verus! {

/// A value that can be told apart from others of its type.
pub trait Key: Sized {
    /// Tells whether the two keys are one.
    fn same(&self, other: &Self) -> (result: bool)
        ensures
            result == (*self == *other),
    ;
}

impl Key for u64 {
    fn same(&self, other: &Self) -> (result: bool) {
        *self == *other
    }
}

impl Key for Address {
    fn same(&self, other: &Self) -> (result: bool) {
        *self == *other
    }
}

impl Key for (u64, u64) {
    fn same(&self, other: &Self) -> (result: bool) {
        self.0 == other.0 && self.1 == other.1
    }
}

impl Key for (u64, Address) {
    fn same(&self, other: &Self) -> (result: bool) {
        self.0 == other.0 && self.1 == other.1
    }
}

/// What a list of entries says: of two entries with one key, the later counts.
pub open spec fn entries_to_map<K, V>(entries: Seq<(K, V)>) -> Map<K, V>
    decreases entries.len(),
{
    if entries.len() == 0 {
        Map::empty()
    } else {
        entries_to_map(entries.drop_last()).insert(entries.last().0, entries.last().1)
    }
}

/// A finite map, kept as a list of entries.
#[verifier::reject_recursive_types(K)]
pub struct Table<K, V> {
    entries: Vec<(K, V)>,
}

impl<K, V> View for Table<K, V> {
    type V = Map<K, V>;

    closed spec fn view(&self) -> Map<K, V> {
        entries_to_map(self.entries@)
    }
}

/// A key that no entry has is not in the map.
proof fn lemma_absent<K, V>(entries: Seq<(K, V)>, key: K)
    requires
        forall|i: int| 0 <= i < entries.len() ==> (#[trigger] entries[i]).0 != key,
    ensures
        !entries_to_map(entries).dom().contains(key),
    decreases entries.len(),
{
    if entries.len() > 0 {
        let shorter = entries.drop_last();
        assert forall|i: int| 0 <= i < shorter.len() implies (#[trigger] shorter[i]).0 != key by {
            assert(entries[i].0 != key);
        }
        assert(entries[entries.len() - 1].0 != key);
        lemma_absent(shorter, key);
    }
}

/// The last entry with a key gives the key's value.
proof fn lemma_found<K, V>(entries: Seq<(K, V)>, key: K, at: int)
    requires
        0 <= at < entries.len(),
        entries[at].0 == key,
        forall|i: int| at < i < entries.len() ==> (#[trigger] entries[i]).0 != key,
    ensures
        entries_to_map(entries).dom().contains(key),
        entries_to_map(entries)[key] == entries[at].1,
    decreases entries.len(),
{
    if at < entries.len() - 1 {
        let shorter = entries.drop_last();
        assert forall|i: int| at < i < shorter.len() implies (#[trigger] shorter[i]).0 != key by {
            assert(entries[i].0 != key);
        }
        assert(entries[entries.len() - 1].0 != key);
        lemma_found(shorter, key, at);
    }
}

/// Dropping one entry of a key changes nothing for the other keys.
proof fn lemma_drop_entry<K, V>(entries: Seq<(K, V)>, key: K, at: int)
    requires
        0 <= at < entries.len(),
        entries[at].0 == key,
    ensures
        entries_to_map(entries.remove(at)).remove(key) == entries_to_map(entries).remove(key),
    decreases entries.len(),
{
    let rest = entries.remove(at);
    if at == entries.len() - 1 {
        assert(rest =~= entries.drop_last());
        assert(entries_to_map(rest).remove(key) =~= entries_to_map(entries).remove(key));
    } else {
        let shorter = entries.drop_last();
        lemma_drop_entry(shorter, key, at);
        assert(rest.drop_last() =~= shorter.remove(at));
        assert(rest.last() == entries.last());
        let k = entries.last().0;
        let v = entries.last().1;
        let a = entries_to_map(shorter.remove(at));
        let b = entries_to_map(shorter);
        assert(a.remove(key) == b.remove(key));
        if k == key {
            assert(a.insert(k, v).remove(key) =~= a.remove(key));
            assert(b.insert(k, v).remove(key) =~= b.remove(key));
        } else {
            assert(a.insert(k, v).remove(key) =~= a.remove(key).insert(k, v));
            assert(b.insert(k, v).remove(key) =~= b.remove(key).insert(k, v));
        }
    }
}

impl<K: Key, V> Table<K, V> {
    /// Makes a table without entries.
    pub fn new() -> (table: Self)
        ensures
            table@ == Map::<K, V>::empty(),
    {
        Table { entries: Vec::new() }
    }

    /// Looks a key up.
    pub fn get(&self, key: &K) -> (result: Option<&V>)
        ensures
            match result {
                Some(v) => self@.dom().contains(*key) && *v == self@[*key],
                None => !self@.dom().contains(*key),
            },
    {
        let mut i: usize = self.entries.len();
        while i > 0
            invariant
                i <= self.entries@.len(),
                forall|j: int| i <= j < self.entries@.len() ==> (#[trigger] self.entries@[j]).0
                    != *key,
            decreases i,
        {
            i = i - 1;
            if self.entries[i].0.same(key) {
                proof {
                    lemma_found(self.entries@, *key, i as int);
                }
                return Some(&self.entries[i].1);
            }
        }
        proof {
            lemma_absent(self.entries@, *key);
        }
        None
    }

    /// Looks a key up and hands out a copy of its value.
    pub fn find(&self, key: &K) -> (result: Option<V>) where V: Copy
        ensures
            result == self@.get(*key),
    {
        match self.get(key) {
            Some(v) => Some(*v),
            None => None,
        }
    }

    /// Tells whether a key has an entry.
    pub fn has(&self, key: &K) -> (result: bool)
        ensures
            result == self@.dom().contains(*key),
    {
        match self.get(key) {
            Some(_) => true,
            None => false,
        }
    }

    /// Takes a key's entry out, if there is one.
    pub fn remove(&mut self, key: &K)
        ensures
            final(self)@ == old(self)@.remove(*key),
    {
        let mut i: usize = self.entries.len();
        while i > 0
            invariant
                i <= self.entries@.len(),
                self@.remove(*key) == old(self)@.remove(*key),
                forall|j: int| i <= j < self.entries@.len() ==> (#[trigger] self.entries@[j]).0
                    != *key,
            decreases i,
        {
            i = i - 1;
            if self.entries[i].0.same(key) {
                let ghost before = self.entries@;
                let _dropped = self.entries.remove(i);
                proof {
                    lemma_drop_entry(before, *key, i as int);
                    assert forall|j: int| i <= j < self.entries@.len() implies (
                    #[trigger] self.entries@[j]).0 != *key by {
                        assert(self.entries@[j] == before[j + 1]);
                    }
                }
            }
        }
        proof {
            lemma_absent(self.entries@, *key);
            assert(self@.remove(*key) =~= self@);
        }
    }

    /// Gives a key a value, in place of the one that it had.
    pub fn insert(&mut self, key: K, value: V)
        ensures
            final(self)@ == old(self)@.insert(key, value),
    {
        self.remove(&key);
        let ghost before = self.entries@;
        self.entries.push((key, value));
        proof {
            assert(self.entries@.drop_last() =~= before);
            assert(self@ =~= old(self)@.insert(key, value));
        }
    }
}

} // verus!
