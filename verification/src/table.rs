//! Tables keyed by hashes and outpoints.

use crate::chain::OutPoint;
use crate::hashes::{lemma_hash_eq, FullHash};
use std::collections::BTreeMap;
use vstd::bytes::*;
use vstd::prelude::*;
use vstd::slice::slice_subrange;

verus! {

/// A key that integers tell apart.
pub trait TableKey: Copy {
    spec fn spec_code(self) -> (u128, u128, u32);

    proof fn lemma_injective(a: Self, b: Self)
        requires
            a.spec_code() == b.spec_code(),
        ensures
            a == b,
    ;

    fn code(&self) -> (code: (u128, u128, u32))
        ensures
            code == self.spec_code(),
    ;
}

impl TableKey for FullHash {
    open spec fn spec_code(self) -> (u128, u128, u32) {
        (
            spec_u128_from_le_bytes(self@.subrange(0, 16)),
            spec_u128_from_le_bytes(self@.subrange(16, 32)),
            0,
        )
    }

    proof fn lemma_injective(a: Self, b: Self) {
        lemma_auto_spec_u128_to_from_le_bytes();
        let (a0, a1) = (a@.subrange(0, 16), a@.subrange(16, 32));
        let (b0, b1) = (b@.subrange(0, 16), b@.subrange(16, 32));
        assert(spec_u128_to_le_bytes(spec_u128_from_le_bytes(a0)) == a0);
        assert(spec_u128_to_le_bytes(spec_u128_from_le_bytes(b0)) == b0);
        assert(spec_u128_to_le_bytes(spec_u128_from_le_bytes(a1)) == a1);
        assert(spec_u128_to_le_bytes(spec_u128_from_le_bytes(b1)) == b1);
        assert(a@ =~= a0 + a1);
        assert(b@ =~= b0 + b1);
        lemma_hash_eq(a, b);
    }

    fn code(&self) -> (code: (u128, u128, u32)) {
        let bytes = self.as_slice();
        (
            u128_from_le_bytes(slice_subrange(bytes, 0, 16)),
            u128_from_le_bytes(slice_subrange(bytes, 16, 32)),
            0,
        )
    }
}

impl TableKey for OutPoint {
    open spec fn spec_code(self) -> (u128, u128, u32) {
        (self.txid.spec_code().0, self.txid.spec_code().1, self.vout)
    }

    proof fn lemma_injective(a: Self, b: Self) {
        <FullHash as TableKey>::lemma_injective(a.txid, b.txid);
    }

    fn code(&self) -> (code: (u128, u128, u32)) {
        let (low, high, _) = self.txid.code();
        (low, high, self.vout)
    }
}

/// A finite map from keys to values.
pub struct Table<K, V> {
    entries: BTreeMap<(u128, u128, u32), (K, V)>,
}

impl<K: TableKey, V> View for Table<K, V> {
    type V = Map<K, V>;

    closed spec fn view(&self) -> Map<K, V> {
        Map::new(
            |key: K| self.entries@.contains_key(key.spec_code()),
            |key: K| self.entries@[key.spec_code()].1,
        )
    }
}

impl<K: TableKey, V> Table<K, V> {
    /// Every value lies under the code of its own key.
    pub closed spec fn wf(&self) -> bool {
        forall|code: (u128, u128, u32)| #[trigger]
            self.entries@.contains_key(code) ==> self.entries@[code].0.spec_code() == code
    }

    /// A table without entries.
    pub fn new() -> (table: Self)
        ensures
            table.wf(),
            table@ == Map::<K, V>::empty(),
    {
        let table = Table { entries: BTreeMap::new() };
        assert(table@ =~= Map::<K, V>::empty());
        table
    }

    /// Puts `value` under `key`, in place of what was there.
    pub fn insert(&mut self, key: K, value: V)
        requires
            old(self).wf(),
        ensures
            final(self).wf(),
            final(self)@ == old(self)@.insert(key, value),
    {
        self.entries.insert(key.code(), (key, value));
        proof {
            assert forall|other: K| other.spec_code() == key.spec_code() implies other == key by {
                K::lemma_injective(other, key);
            }
            assert(self@ =~= old(self)@.insert(key, value));
        }
    }

    /// The value under `key`, if there is one.
    pub fn get(&self, key: &K) -> (value: Option<&V>)
        requires
            self.wf(),
        ensures
            match value {
                Some(v) => self@.contains_key(*key) && *v == self@[*key],
                None => !self@.contains_key(*key),
            },
    {
        match self.entries.get(&key.code()) {
            Some(entry) => Some(&entry.1),
            None => None,
        }
    }

    /// Takes the value from under `key`, if there is one.
    pub fn remove(&mut self, key: &K) -> (value: Option<V>)
        requires
            old(self).wf(),
        ensures
            final(self).wf(),
            final(self)@ == old(self)@.remove(*key),
            match value {
                Some(v) => old(self)@.contains_key(*key) && v == old(self)@[*key],
                None => !old(self)@.contains_key(*key),
            },
    {
        let removed = self.entries.remove(&key.code());
        proof {
            assert forall|other: K| other.spec_code() == key.spec_code() implies other == key by {
                K::lemma_injective(other, *key);
            }
            assert(self@ =~= old(self)@.remove(*key));
        }
        match removed {
            Some((_, value)) => Some(value),
            None => None,
        }
    }

    /// Every key, once.
    pub fn keys(&self) -> (keys: Vec<K>)
        requires
            self.wf(),
        ensures
            keys@.no_duplicates(),
            forall|key: K| #[trigger] keys@.contains(key) <==> self@.contains_key(key),
    {
        let mut keys: Vec<K> = Vec::new();
        for entry in it: self.entries.iter()
            invariant
                self.wf(),
                keys.len() == it.index(),
                it.seq() == vstd::std_specs::iter::IteratorSpec::remaining(&self.entries.iter()),
                it.seq().no_duplicates(),
                forall|i: int| 0 <= i < keys.len() ==> #[trigger] keys[i] == it.seq()[i].1.0,
        {
            keys.push(entry.1.0);
        }
        proof {
            let seq = vstd::std_specs::iter::IteratorSpec::remaining(&self.entries.iter());
            assert forall|key: K| #[trigger] keys@.contains(key) implies self@.contains_key(key) by {
                let i = choose|i: int| 0 <= i < keys.len() && keys[i] == key;
                assert(self.entries@.contains_key(*seq[i].0));
            }
            assert forall|key: K| #[trigger] self@.contains_key(key) implies keys@.contains(key) by {
                let code = key.spec_code();
                assert(self.entries@.contains_key(code));
                assert(seq.contains((&code, &self.entries@[code])));
                let i = choose|i: int| 0 <= i < seq.len() && seq[i] == (&code, &self.entries@[code]);
                K::lemma_injective(keys[i], key);
                assert(keys[i] == key);
            }
            assert forall|i: int, j: int|
                0 <= i < keys.len() && 0 <= j < keys.len() && i != j implies keys[i] != keys[j] by {
                assert(self.entries@.contains_key(*seq[i].0));
                assert(self.entries@.contains_key(*seq[j].0));
                assert(seq[i] != seq[j]);
            }
        }
        keys
    }

    /// Every key with its value, each key once.
    pub fn pairs(&self) -> (pairs: Vec<(K, V)>) where V: Copy
        requires
            self.wf(),
        ensures
            lists(pairs@, self@),
    {
        let mut pairs: Vec<(K, V)> = Vec::new();
        for entry in it: self.entries.iter()
            invariant
                self.wf(),
                pairs.len() == it.index(),
                it.seq() == vstd::std_specs::iter::IteratorSpec::remaining(&self.entries.iter()),
                it.seq().no_duplicates(),
                forall|i: int|
                    0 <= i < pairs.len() ==> #[trigger] pairs[i] == *it.seq()[i].1,
        {
            pairs.push(*entry.1);
        }
        proof {
            let seq = vstd::std_specs::iter::IteratorSpec::remaining(&self.entries.iter());
            assert forall|i: int| 0 <= i < pairs.len() implies self@.contains_pair(
                (#[trigger] pairs[i]).0,
                pairs[i].1,
            ) by {
                assert(self.entries@.contains_key(*seq[i].0));
            }
            assert forall|key: K| #[trigger] self@.contains_key(key) implies pairs@.contains(
                (key, self@[key]),
            ) by {
                let code = key.spec_code();
                assert(self.entries@.contains_key(code));
                assert(seq.contains((&code, &self.entries@[code])));
                let i = choose|i: int| 0 <= i < seq.len() && seq[i] == (&code, &self.entries@[code]);
                K::lemma_injective(pairs[i].0, key);
                assert(pairs[i] == (key, self@[key]));
            }
            assert forall|i: int, j: int| 0 <= i < j < pairs.len() implies (#[trigger] pairs[i]).0
                != (#[trigger] pairs[j]).0 by {
                assert(self.entries@.contains_key(*seq[i].0));
                assert(self.entries@.contains_key(*seq[j].0));
                assert(seq[i] != seq[j]);
            }
        }
        pairs
    }
}

/// `pairs` holds every key of `map` with its value, each key once.
pub open spec fn lists<K, V>(pairs: Seq<(K, V)>, map: Map<K, V>) -> bool {
    &&& forall|i: int|
        0 <= i < pairs.len() ==> map.contains_pair((#[trigger] pairs[i]).0, pairs[i].1)
    &&& forall|key: K| #[trigger]
        map.contains_key(key) ==> pairs.contains((key, map[key]))
    &&& forall|i: int, j: int|
        0 <= i < j < pairs.len() ==> (#[trigger] pairs[i]).0 != (#[trigger] pairs[j]).0
}

} // verus!
