//! A small map kept as a list of entries, in which the latest entry of a key
//! counts.

use vstd::prelude::*;

verus! {

/// What a table can be keyed by: values whose equality can be decided.
pub trait Key: Copy {
    fn same(&self, other: &Self) -> (r: bool)
        ensures
            r == (*self == *other),
    ;
}

impl Key for u64 {
    fn same(&self, other: &Self) -> (r: bool) {
        *self == *other
    }
}

pub struct Table<K: Key, V> {
    entries: Vec<(K, V)>,
}

/// The map that a list of entries stands for.
spec fn as_map<K, V>(entries: Seq<(K, V)>) -> Map<K, V>
    decreases entries.len(),
{
    if entries.len() == 0 {
        Map::empty()
    } else {
        as_map(entries.drop_last()).insert(entries.last().0, entries.last().1)
    }
}

impl<K: Key, V> View for Table<K, V> {
    type V = Map<K, V>;

    closed spec fn view(&self) -> Map<K, V> {
        as_map(self.entries@)
    }
}

impl<K: Key, V> Table<K, V> {
    pub fn new() -> (t: Self)
        ensures
            t@ == Map::<K, V>::empty(),
    {
        Table { entries: Vec::new() }
    }

    /// The value kept under `key`.
    pub fn get(&self, key: &K) -> (r: Option<&V>)
        ensures
            r is Some <==> self@.contains_key(*key),
            r matches Some(v) ==> *v == self@[*key],
    {
        let mut i: usize = self.entries.len();
        assert(self.entries@.take(i as int) =~= self.entries@);
        while i > 0
            invariant
                i <= self.entries@.len(),
                as_map(self.entries@.take(i as int)).contains_key(*key) <==> self@.contains_key(
                    *key,
                ),
                self@.contains_key(*key) ==> as_map(self.entries@.take(i as int))[*key]
                    == self@[*key],
            decreases i,
        {
            let ghost above = self.entries@.take(i as int);
            i = i - 1;
            assert(above.drop_last() =~= self.entries@.take(i as int));
            if self.entries[i].0.same(key) {
                return Some(&self.entries[i].1);
            }
        }
        assert(self.entries@.take(0) =~= Seq::empty());
        None
    }

    /// Keeps `value` under `key`, in place of what was there.
    pub fn insert(&mut self, key: K, value: V)
        ensures
            final(self)@ == old(self)@.insert(key, value),
    {
        self.remove(&key);
        let ghost before = self.entries@;
        self.entries.push((key, value));
        assert(self.entries@.drop_last() =~= before);
        assert(old(self)@.remove(key).insert(key, value) =~= old(self)@.insert(key, value));
    }

    /// Drops what is kept under `key`.
    pub fn remove(&mut self, key: &K)
        ensures
            final(self)@ == old(self)@.remove(*key),
    {
        let mut i: usize = self.entries.len();
        while i > 0
            invariant
                i <= self.entries@.len(),
                as_map(self.entries@).remove(*key) == old(self)@.remove(*key),
                forall|j: int| i <= j < self.entries@.len() ==> (#[trigger] self.entries@[j]).0 != *key,
            decreases i,
        {
            i = i - 1;
            if self.entries[i].0.same(key) {
                let ghost before = self.entries@;
                self.entries.remove(i);
                proof {
                    lemma_remove_entry(before, i as int);
                    assert(self.entries@ =~= before.remove(i as int));
                }
            }
        }
        proof {
            lemma_absent(self.entries@, *key);
            assert(as_map(self.entries@).remove(*key) =~= as_map(self.entries@));
        }
    }
}

/// Dropping one entry of a key changes the map at that key alone.
proof fn lemma_remove_entry<K, V>(entries: Seq<(K, V)>, i: int)
    requires
        0 <= i < entries.len(),
    ensures
        as_map(entries.remove(i)).remove(entries[i].0) == as_map(entries).remove(entries[i].0),
    decreases entries.len(),
{
    let key = entries[i].0;
    if i == entries.len() - 1 {
        assert(entries.remove(i) =~= entries.drop_last());
        assert(as_map(entries.drop_last()).remove(key) =~= as_map(entries).remove(key));
    } else {
        lemma_remove_entry(entries.drop_last(), i);
        assert(entries.remove(i).drop_last() =~= entries.drop_last().remove(i));
        assert(entries.remove(i).last() == entries.last());
        let rest = as_map(entries.drop_last());
        let less = as_map(entries.drop_last().remove(i));
        let (k, v) = entries.last();
        let left = less.insert(k, v).remove(key);
        let right = rest.insert(k, v).remove(key);
        assert forall|x: K| #[trigger] left.contains_key(x) == right.contains_key(x) by {
            assert(less.remove(key).contains_key(x) == rest.remove(key).contains_key(x));
        }
        assert forall|x: K| left.contains_key(x) implies #[trigger] left[x] == right[x] by {
            assert(less.remove(key).contains_key(x) == rest.remove(key).contains_key(x));
            assert(less.remove(key)[x] == rest.remove(key)[x]);
        }
        assert(left =~= right);
    }
}

/// A key that no entry has is not in the map.
proof fn lemma_absent<K, V>(entries: Seq<(K, V)>, key: K)
    requires
        forall|j: int| 0 <= j < entries.len() ==> (#[trigger] entries[j]).0 != key,
    ensures
        !as_map(entries).contains_key(key),
    decreases entries.len(),
{
    if entries.len() > 0 {
        assert forall|j: int| 0 <= j < entries.drop_last().len() implies (
        #[trigger] entries.drop_last()[j]).0 != key by {
            assert(entries[j].0 != key);
        }
        lemma_absent(entries.drop_last(), key);
        assert(entries[entries.len() - 1].0 != key);
    }
}

} // verus!
