//! A cache of bounded size that drops entries at random.

use crate::table::{Table, TableKey};
use vstd::prelude::*;

verus! {

/// The sum of the sizes under the keys.
pub open spec fn total_size<K>(sizes: Map<K, nat>) -> nat
    decreases sizes.dom().len(),
{
    if sizes.dom().finite() && sizes.dom().len() > 0 {
        let key = sizes.dom().choose();
        sizes[key] + total_size(sizes.remove(key))
    } else {
        0
    }
}

/// Any one of the sizes can be counted first.
pub proof fn lemma_total_size_remove<K>(sizes: Map<K, nat>, key: K)
    requires
        sizes.dom().finite(),
        sizes.contains_key(key),
    ensures
        total_size(sizes) == sizes[key] + total_size(sizes.remove(key)),
    decreases sizes.dom().len(),
{
    let other = sizes.dom().choose();
    assert(sizes.dom().contains(other));
    if other != key {
        lemma_total_size_remove(sizes.remove(other), key);
        lemma_total_size_remove(sizes.remove(key), other);
        assert(sizes.remove(other).remove(key) =~= sizes.remove(key).remove(other));
    }
}

/// A size under a new key adds to the sum.
pub proof fn lemma_total_size_insert<K>(sizes: Map<K, nat>, key: K, size: nat)
    requires
        sizes.dom().finite(),
        !sizes.contains_key(key),
    ensures
        total_size(sizes.insert(key, size)) == total_size(sizes) + size,
{
    lemma_total_size_remove(sizes.insert(key, size), key);
    assert(sizes.insert(key, size).remove(key) =~= sizes);
}

/// Values under keys, whose sizes add up to no more than the capacity.
pub struct RndCache<K, V> {
    map: Table<K, (V, usize)>,
    keys: Vec<K>,
    usage: usize,
    capacity: usize,
}

impl<K: TableKey, V> View for RndCache<K, V> {
    type V = Map<K, V>;

    closed spec fn view(&self) -> Map<K, V> {
        self.map@.map_values(|entry: (V, usize)| entry.0)
    }
}

impl<K: TableKey, V> RndCache<K, V> {
    /// The size that each entry counts with.
    pub closed spec fn sizes(&self) -> Map<K, nat> {
        self.map@.map_values(|entry: (V, usize)| entry.1 as nat)
    }

    /// The sum of the sizes of the entries.
    pub closed spec fn spec_usage(&self) -> usize {
        self.usage
    }

    /// What the sizes may add up to.
    pub closed spec fn spec_capacity(&self) -> usize {
        self.capacity
    }

    /// Each key is listed once, the sizes add up to the usage, and that is within the capacity.
    pub closed spec fn wf(&self) -> bool {
        &&& self.map.wf()
        &&& self.map@.dom().finite()
        &&& self.usage == total_size(self.sizes())
        &&& self.usage <= self.capacity
        &&& self.keys@.no_duplicates()
        &&& forall|key: K| #[trigger] self.map@.contains_key(key) <==> self.keys@.contains(key)
    }

    /// The entries are those that are counted, and their sizes add up to the usage, which is
    /// within the capacity.
    pub proof fn law_usage_counts_entries(&self)
        requires
            self.wf(),
        ensures
            self@.dom().finite(),
            self.sizes().dom() == self@.dom(),
            self.spec_usage() == total_size(self.sizes()),
            self.spec_usage() <= self.spec_capacity(),
    {
        assert(self.map@.dom() =~= self@.dom());
        assert(self.sizes().dom() =~= self@.dom());
    }

    /// A cache without entries.
    pub fn new(capacity: usize) -> (cache: Self)
        ensures
            cache.wf(),
            cache@ == Map::<K, V>::empty(),
            cache.spec_usage() == 0,
            cache.spec_capacity() == capacity,
    {
        let cache = RndCache { map: Table::new(), keys: Vec::new(), usage: 0, capacity };
        assert(cache.sizes() =~= Map::<K, nat>::empty());
        assert(cache@ =~= Map::<K, V>::empty());
        cache
    }

    /// The sum of the sizes of the entries.
    pub fn usage(&self) -> (usage: usize)
        requires
            self.wf(),
        ensures
            usage == self.spec_usage(),
            usage == total_size(self.sizes()),
            usage <= self.spec_capacity(),
    {
        self.usage
    }

    /// The value under a key, if it is still there.
    pub fn get(&self, key: &K) -> (value: Option<&V>)
        requires
            self.wf(),
        ensures
            match value {
                Some(v) => self@.contains_key(*key) && *v == self@[*key],
                None => !self@.contains_key(*key),
            },
    {
        match self.map.get(key) {
            Some(entry) => Some(&entry.0),
            None => None,
        }
    }

    /// Drops the entry at a place.
    fn drop_at(&mut self, place: usize)
        requires
            old(self).wf(),
            place < old(self).keys.len(),
        ensures
            final(self).wf(),
            final(self).capacity == old(self).capacity,
            final(self).keys@ == old(self).keys@.remove(place as int),
            final(self)@ == old(self)@.remove(old(self).keys[place as int]),
            final(self).sizes() == old(self).sizes().remove(old(self).keys[place as int]),
    {
        let ghost before = self.keys@;
        let key = self.keys.remove(place);
        assert(before.contains(key));
        let ghost held = self.map@;
        proof {
            let sizes = old(self).sizes();
            assert(sizes.dom() =~= held.dom());
            lemma_total_size_remove(sizes, key);
        }
        if let Some((_, size)) = self.map.remove(&key) {
            self.usage = self.usage - size;
        }
        proof {
            assert(self@ =~= old(self)@.remove(key));
            assert(self.sizes() =~= old(self).sizes().remove(key));
            let after = self.keys@;
            assert forall|other: K| #[trigger] self.map@.contains_key(other) <==> after.contains(
                other,
            ) by {
                if after.contains(other) {
                    let i = choose|i: int| 0 <= i < after.len() && after[i] == other;
                    let k = if i < place {
                        i
                    } else {
                        i + 1
                    };
                    assert(after[i] == before[k]);
                    assert(before.contains(other));
                }
                if held.contains_key(other) && other != key {
                    let k = choose|k: int| 0 <= k < before.len() && before[k] == other;
                    if k < place {
                        assert(after[k] == other);
                    } else {
                        assert(after[k - 1] == other);
                    }
                }
            }
        }
    }

    /// Puts a value under a key, in place of what was there. Entries that `draw` picks are
    /// dropped until it fits; a value that never fits is not kept.
    pub fn put<F: Fn(usize) -> usize>(&mut self, key: K, value: V, byte_size: usize, draw: &F)
        requires
            old(self).wf(),
            forall|count: usize| call_requires(*draw, (count,)),
        ensures
            final(self).wf(),
            final(self).spec_capacity() == old(self).spec_capacity(),
            byte_size > old(self).spec_capacity() ==> final(self)@ == old(self)@.remove(key)
                && final(self).sizes() == old(self).sizes().remove(key),
            byte_size <= old(self).spec_capacity() ==> final(self)@.contains_pair(key, value)
                && final(self).sizes().contains_pair(key, byte_size as nat),
            forall|other: K| #[trigger]
                final(self)@.contains_key(other) && other != key ==> old(self)@.contains_pair(
                    other,
                    final(self)@[other],
                ) && final(self).sizes()[other] == old(self).sizes()[other],
            total_size(old(self).sizes().remove(key)) + byte_size <= old(self).spec_capacity()
                ==> final(self)@ == old(self)@.insert(key, value) && final(self).sizes() == old(
                self,
            ).sizes().insert(key, byte_size as nat),
            final(self).spec_usage() == total_size(final(self).sizes()),
    {
        if let Some(place) = self.place(&key) {
            self.drop_at(place);
        }
        assert(self@ =~= old(self)@.remove(key));
        assert(self.sizes() =~= old(self).sizes().remove(key));
        if byte_size > self.capacity {
            return;
        }
        let ghost fits = self.usage + byte_size <= self.capacity;
        while self.usage > self.capacity - byte_size
            invariant
                self.wf(),
                self.capacity == old(self).capacity,
                byte_size <= self.capacity,
                forall|count: usize| call_requires(*draw, (count,)),
                !self@.contains_key(key),
                forall|other: K| #[trigger]
                    self@.contains_key(other) ==> old(self)@.contains_pair(other, self@[other])
                        && self.sizes()[other] == old(self).sizes()[other],
                fits ==> self@ == old(self)@.remove(key) && self.sizes() == old(self).sizes().remove(
                    key,
                ) && self.usage + byte_size <= self.capacity,
            decreases self.keys.len(),
        {
            assert(self.keys.len() > 0) by {
                let some = self.sizes().dom().choose();
                assert(self.sizes().dom().len() > 0);
                assert(self.sizes().dom().contains(some));
                assert(self.map@.contains_key(some));
            }
            let count: usize = self.keys.len();
            let place: usize = draw(count) % count;
            self.drop_at(place);
        }
        let ghost before = self.keys@;
        let ghost held = self.map@;
        let ghost sizes = self.sizes();
        proof {
            assert(sizes.dom() =~= held.dom());
            lemma_total_size_insert(sizes, key, byte_size as nat);
        }
        self.map.insert(key, (value, byte_size));
        self.keys.push(key);
        self.usage = self.usage + byte_size;
        proof {
            assert(self.sizes() =~= sizes.insert(key, byte_size as nat));
            let after = self.keys@;
            assert(!before.contains(key));
            assert(after[before.len() as int] == key);
            assert forall|other: K| #[trigger] self.map@.contains_key(other) <==> after.contains(
                other,
            ) by {
                if after.contains(other) && other != key {
                    let i = choose|i: int| 0 <= i < after.len() && after[i] == other;
                    assert(before[i] == other);
                }
                if held.contains_key(other) {
                    let i = choose|i: int| 0 <= i < before.len() && before[i] == other;
                    assert(after[i] == other);
                }
            }
            assert(fits ==> self@ =~= old(self)@.insert(key, value));
            assert(fits ==> self.sizes() =~= old(self).sizes().insert(key, byte_size as nat));
        }
    }

    /// The place of a key in the list.
    fn place(&self, key: &K) -> (place: Option<usize>)
        requires
            self.wf(),
        ensures
            match place {
                Some(i) => i < self.keys.len() && self.keys[i as int] == *key,
                None => !self@.contains_key(*key),
            },
    {
        if self.map.get(key).is_none() {
            return None;
        }
        let code = key.code();
        for i in 0..self.keys.len()
            invariant
                self.wf(),
                code == key.spec_code(),
                forall|j: int| 0 <= j < i ==> #[trigger] self.keys[j] != *key,
        {
            let other = self.keys[i].code();
            if other.0 == code.0 && other.1 == code.1 && other.2 == code.2 {
                proof {
                    K::lemma_injective(self.keys[i as int], *key);
                }
                return Some(i);
            }
        }
        None
    }
}

} // verus!
