//! Rows of the key-value store and what a store hands out.

use crate::hashes::{bytes_less, lex_less, same_bytes};
use vstd::prelude::*;
use vstd::slice::{slice_subrange, slice_to_vec};

verus! {

/// One entry of the store.
#[derive(Debug)]
pub struct Row {
    pub key: Vec<u8>,
    pub value: Vec<u8>,
}

/// The contents of a [`Row`].
#[verifier::ext_equal]
pub struct RowView {
    pub key: Seq<u8>,
    pub value: Seq<u8>,
}

impl View for Row {
    type V = RowView;

    open spec fn view(&self) -> RowView {
        RowView { key: self.key@, value: self.value@ }
    }
}

/// The contents of each row of a vector.
pub open spec fn row_views(rows: Seq<Row>) -> Seq<RowView> {
    rows.map_values(|row: Row| row@)
}

/// The rows whose key begins with `prefix`, in the order in which they lie in the store.
pub open spec fn rows_under(rows: Seq<RowView>, prefix: Seq<u8>) -> Seq<RowView> {
    rows.filter(|row: RowView| prefix.is_prefix_of(row.key))
}

/// The value under `key`, if there is one.
pub open spec fn value_under(rows: Seq<RowView>, key: Seq<u8>) -> Option<Seq<u8>> {
    if exists|i: int| 0 <= i < rows.len() && (#[trigger] rows[i]).key == key {
        let i = choose|i: int| 0 <= i < rows.len() && (#[trigger] rows[i]).key == key;
        Some(rows[i].value)
    } else {
        None
    }
}

/// The keys ascend.
pub open spec fn ascending(rows: Seq<RowView>) -> bool {
    forall|i: int, j: int|
        0 <= i < j < rows.len() ==> lex_less((#[trigger] rows[i]).key, (#[trigger] rows[j]).key)
}

/// A store that can be read. It does not change while it is borrowed.
pub trait ReadStore {
    /// Everything in the store, by ascending key.
    spec fn rows(&self) -> Seq<RowView>;

    /// The value under `key`, if there is one.
    fn get(&self, key: &[u8]) -> (value: Option<Vec<u8>>)
        ensures
            match value {
                Some(v) => value_under(self.rows(), key@) == Some(v@),
                None => value_under(self.rows(), key@) is None,
            },
    ;

    /// The rows whose key begins with `prefix`, by ascending key.
    fn scan(&self, prefix: &[u8]) -> (found: Vec<Row>)
        ensures
            row_views(found@) == rows_under(self.rows(), prefix@),
    ;
}

/// What lies under each key.
pub open spec fn contents(rows: Seq<RowView>) -> Map<Seq<u8>, Seq<u8>> {
    Map::new(
        |key: Seq<u8>| value_under(rows, key) is Some,
        |key: Seq<u8>| value_under(rows, key).unwrap(),
    )
}

/// In ascending rows a key stands at one place only.
pub proof fn lemma_value_at(rows: Seq<RowView>, i: int)
    requires
        ascending(rows),
        0 <= i < rows.len(),
    ensures
        value_under(rows, rows[i].key) == Some(rows[i].value),
{
    let key = rows[i].key;
    let j = choose|j: int| 0 <= j < rows.len() && (#[trigger] rows[j]).key == key;
    crate::hashes::lemma_lex_total(key, key);
    assert(rows[j].key == key);
    assert(i == j);
}

/// A store in memory.
#[derive(Debug)]
pub struct MemoryStore {
    entries: Vec<Row>,
}

impl MemoryStore {
    /// The keys ascend.
    #[verifier::type_invariant]
    spec fn inv(&self) -> bool {
        ascending(row_views(self.entries@))
    }

    /// A store without rows.
    pub fn new() -> (store: MemoryStore)
        ensures
            store.rows() == Seq::<RowView>::empty(),
    {
        let store = MemoryStore { entries: Vec::new() };
        assert(row_views(store.entries@) =~= Seq::empty());
        store
    }

    /// Where `key` stands or belongs: behind every smaller key and before every greater one.
    fn place(entries: &Vec<Row>, key: &[u8]) -> (place: usize)
        requires
            ascending(row_views(entries@)),
        ensures
            place <= entries.len(),
            forall|i: int| 0 <= i < place ==> lex_less((#[trigger] entries[i]).key@, key@),
            forall|i: int|
                place <= i < entries.len() ==> !lex_less((#[trigger] entries[i]).key@, key@),
    {
        let mut low: usize = 0;
        let mut high: usize = entries.len();
        while low < high
            invariant
                low <= high <= entries.len(),
                ascending(row_views(entries@)),
                forall|i: int| 0 <= i < low ==> lex_less((#[trigger] entries[i]).key@, key@),
                forall|i: int|
                    high <= i < entries.len() ==> !lex_less((#[trigger] entries[i]).key@, key@),
            decreases high - low,
        {
            let middle: usize = low + (high - low) / 2;
            let ghost views = row_views(entries@);
            if bytes_less(entries[middle].key.as_slice(), key) {
                assert forall|i: int| 0 <= i <= middle implies lex_less(
                    (#[trigger] entries[i]).key@,
                    key@,
                ) by {
                    if i < middle {
                        assert(lex_less(views[i].key, views[middle as int].key));
                        crate::hashes::lemma_lex_transitive(
                            entries[i].key@,
                            entries[middle as int].key@,
                            key@,
                        );
                    }
                }
                low = middle + 1;
            } else {
                assert forall|i: int| middle <= i < entries.len() implies !lex_less(
                    (#[trigger] entries[i]).key@,
                    key@,
                ) by {
                    if i > middle && lex_less(entries[i].key@, key@) {
                        assert(lex_less(views[middle as int].key, views[i].key));
                        crate::hashes::lemma_lex_transitive(
                            entries[middle as int].key@,
                            entries[i].key@,
                            key@,
                        );
                    }
                }
                high = middle;
            }
        }
        low
    }

    /// Writes a row, in place of the one with its key.
    pub fn write(&mut self, row: Row)
        ensures
            ascending(final(self).rows()),
            contents(final(self).rows()) == contents(old(self).rows()).insert(row.key@, row.value@),
    {
        proof {
            use_type_invariant(&*self);
        }
        let ghost key = row.key@;
        let ghost value = row.value@;
        let ghost before = row_views(self.entries@);
        let mut entries: Vec<Row> = Vec::new();
        std::mem::swap(&mut entries, &mut self.entries);
        let place = MemoryStore::place(&entries, row.key.as_slice());
        proof {
            lemma_place_splits(before, key, place as int);
        }
        if place < entries.len() && same_bytes(entries[place].key.as_slice(), row.key.as_slice()) {
            entries.set(place, row);
            assert(row_views(entries@) =~= before.update(place as int, RowView { key, value }));
            proof {
                lemma_update_row(before, place as int, value);
            }
        } else {
            entries.insert(place, row);
            assert(row_views(entries@) =~= before.insert(place as int, RowView { key, value }));
            proof {
                if place < before.len() {
                    assert(before[place as int].key != key);
                }
                lemma_insert_row(before, place as int, RowView { key, value });
            }
        }
        self.entries = entries;
    }

    /// Takes the row with this key out of the store.
    pub fn remove(&mut self, key: &[u8])
        ensures
            ascending(final(self).rows()),
            contents(final(self).rows()) == contents(old(self).rows()).remove(key@),
    {
        proof {
            use_type_invariant(&*self);
        }
        let ghost before = row_views(self.entries@);
        let mut entries: Vec<Row> = Vec::new();
        std::mem::swap(&mut entries, &mut self.entries);
        let place = MemoryStore::place(&entries, key);
        proof {
            lemma_place_splits(before, key@, place as int);
        }
        if place < entries.len() && same_bytes(entries[place].key.as_slice(), key) {
            let _ = entries.remove(place);
            assert(row_views(entries@) =~= before.remove(place as int));
            proof {
                lemma_remove_row(before, place as int);
            }
        } else {
            proof {
                if place < before.len() {
                    assert(before[place as int].key != key@);
                }
                assert(contents(before).remove(key@) =~= contents(before));
            }
        }
        self.entries = entries;
    }
}

/// Where `key` belongs, no other place can hold it.
proof fn lemma_place_splits(rows: Seq<RowView>, key: Seq<u8>, place: int)
    requires
        ascending(rows),
        0 <= place <= rows.len(),
        forall|i: int| 0 <= i < place ==> lex_less((#[trigger] rows[i]).key, key),
        forall|i: int| place <= i < rows.len() ==> !lex_less((#[trigger] rows[i]).key, key),
    ensures
        forall|i: int| 0 <= i < rows.len() && i != place ==> (#[trigger] rows[i]).key != key,
        forall|i: int|
            place < i < rows.len() ==> lex_less(key, (#[trigger] rows[i]).key),
        place < rows.len() && rows[place].key != key ==> lex_less(key, rows[place].key),
        place < rows.len() && rows[place].key != key ==> value_under(rows, key) is None,
        place == rows.len() ==> value_under(rows, key) is None,
{
    crate::hashes::lemma_lex_total(key, key);
    if place < rows.len() {
        crate::hashes::lemma_lex_total(rows[place].key, key);
    }
    assert forall|i: int| place < i < rows.len() implies lex_less(key, (#[trigger] rows[i]).key)
        by {
        assert(lex_less(rows[place].key, rows[i].key));
        if rows[place].key != key {
            crate::hashes::lemma_lex_transitive(key, rows[place].key, rows[i].key);
        }
    }
}

/// Another value under a key that is there changes what lies under that key alone.
proof fn lemma_update_row(rows: Seq<RowView>, place: int, value: Seq<u8>)
    requires
        ascending(rows),
        0 <= place < rows.len(),
    ensures
        ascending(rows.update(place, RowView { key: rows[place].key, value })),
        contents(rows.update(place, RowView { key: rows[place].key, value })) == contents(
            rows,
        ).insert(rows[place].key, value),
{
    let key = rows[place].key;
    let after = rows.update(place, RowView { key, value });
    assert(ascending(after));
    assert forall|k: Seq<u8>| contents(after).contains_key(k) == contents(rows).insert(
        key,
        value,
    ).contains_key(k) by {
        if contents(after).contains_key(k) {
            let i = choose|i: int| 0 <= i < after.len() && (#[trigger] after[i]).key == k;
            assert(rows[i].key == k);
        }
        if contents(rows).contains_key(k) {
            let i = choose|i: int| 0 <= i < rows.len() && (#[trigger] rows[i]).key == k;
            assert(after[i].key == k);
        }
        assert(after[place].key == key);
    }
    assert forall|k: Seq<u8>| contents(after).contains_key(k) implies contents(after)[k]
        == contents(rows).insert(key, value)[k] by {
        let i = choose|i: int| 0 <= i < after.len() && (#[trigger] after[i]).key == k;
        lemma_value_at(after, i);
        lemma_value_at(rows, i);
        assert(rows[i].key == k);
        if k == key {
            lemma_value_at(after, place);
            assert(after[place].key == key);
        }
    }
    assert(contents(after) =~= contents(rows).insert(key, value));
}

/// A row under a new key, where the key belongs, adds what it holds and changes nothing else.
proof fn lemma_insert_row(rows: Seq<RowView>, place: int, row: RowView)
    requires
        ascending(rows),
        0 <= place <= rows.len(),
        forall|i: int| 0 <= i < place ==> lex_less((#[trigger] rows[i]).key, row.key),
        forall|i: int| place <= i < rows.len() ==> lex_less(row.key, (#[trigger] rows[i]).key),
    ensures
        ascending(rows.insert(place, row)),
        contents(rows.insert(place, row)) == contents(rows).insert(row.key, row.value),
{
    let after = rows.insert(place, row);
    assert forall|i: int, j: int| 0 <= i < j < after.len() implies lex_less(
        (#[trigger] after[i]).key,
        (#[trigger] after[j]).key,
    ) by {
        let ri = if i < place { rows[i] } else { rows[i - 1] };
        let rj = if j < place { rows[j] } else { rows[j - 1] };
    }
    assert forall|k: Seq<u8>| contents(after).contains_key(k) == contents(rows).insert(
        row.key,
        row.value,
    ).contains_key(k) by {
        if contents(after).contains_key(k) {
            let i = choose|i: int| 0 <= i < after.len() && (#[trigger] after[i]).key == k;
            if i < place {
                assert(rows[i].key == k);
            } else if i > place {
                assert(rows[i - 1].key == k);
            }
        }
        if contents(rows).contains_key(k) {
            let i = choose|i: int| 0 <= i < rows.len() && (#[trigger] rows[i]).key == k;
            if i < place {
                assert(after[i].key == k);
            } else {
                assert(after[i + 1].key == k);
            }
        }
        assert(after[place].key == row.key);
    }
    assert forall|k: Seq<u8>| contents(after).contains_key(k) implies contents(after)[k]
        == contents(rows).insert(row.key, row.value)[k] by {
        let i = choose|i: int| 0 <= i < after.len() && (#[trigger] after[i]).key == k;
        lemma_value_at(after, i);
        crate::hashes::lemma_lex_total(row.key, row.key);
        if i < place {
            lemma_value_at(rows, i);
            assert(after[i] == rows[i]);
            assert(k != row.key);
        } else if i > place {
            lemma_value_at(rows, i - 1);
            assert(after[i] == rows[i - 1]);
            assert(k != row.key);
        }
    }
    assert(contents(after) =~= contents(rows).insert(row.key, row.value));
}

/// Taking a row out takes away what it holds and changes nothing else.
proof fn lemma_remove_row(rows: Seq<RowView>, place: int)
    requires
        ascending(rows),
        0 <= place < rows.len(),
    ensures
        ascending(rows.remove(place)),
        contents(rows.remove(place)) == contents(rows).remove(rows[place].key),
{
    let key = rows[place].key;
    let after = rows.remove(place);
    assert forall|i: int, j: int| 0 <= i < j < after.len() implies lex_less(
        (#[trigger] after[i]).key,
        (#[trigger] after[j]).key,
    ) by {
        let ri = if i < place { rows[i] } else { rows[i + 1] };
        let rj = if j < place { rows[j] } else { rows[j + 1] };
    }
    crate::hashes::lemma_lex_total(key, key);
    assert forall|k: Seq<u8>| contents(after).contains_key(k) == contents(rows).remove(
        key,
    ).contains_key(k) by {
        if contents(after).contains_key(k) {
            let i = choose|i: int| 0 <= i < after.len() && (#[trigger] after[i]).key == k;
            let j = if i < place { i } else { i + 1 };
            assert(rows[j].key == k);
            assert(lex_less(rows[j].key, key) || lex_less(key, rows[j].key));
        }
        if contents(rows).contains_key(k) && k != key {
            let i = choose|i: int| 0 <= i < rows.len() && (#[trigger] rows[i]).key == k;
            if i < place {
                assert(after[i].key == k);
            } else {
                assert(after[i - 1].key == k);
            }
        }
    }
    assert forall|k: Seq<u8>| contents(after).contains_key(k) implies contents(after)[k]
        == contents(rows).remove(key)[k] by {
        let i = choose|i: int| 0 <= i < after.len() && (#[trigger] after[i]).key == k;
        lemma_value_at(after, i);
        lemma_value_at(rows, if i < place { i } else { i + 1 });
    }
    assert(contents(after) =~= contents(rows).remove(key));
}

impl ReadStore for MemoryStore {
    closed spec fn rows(&self) -> Seq<RowView> {
        row_views(self.entries@)
    }

    fn get(&self, key: &[u8]) -> (value: Option<Vec<u8>>) {
        proof {
            use_type_invariant(self);
        }
        let place = MemoryStore::place(&self.entries, key);
        proof {
            lemma_place_splits(self.rows(), key@, place as int);
        }
        if place < self.entries.len() && same_bytes(self.entries[place].key.as_slice(), key) {
            assert(self.rows()[place as int] == self.entries[place as int]@);
            proof {
                lemma_value_at(self.rows(), place as int);
            }
            Some(slice_to_vec(self.entries[place].value.as_slice()))
        } else {
            assert(place < self.rows().len() ==> self.rows()[place as int].key != key@);
            None
        }
    }

    fn scan(&self, prefix: &[u8]) -> (found: Vec<Row>) {
        let mut found: Vec<Row> = Vec::new();
        let ghost chosen = |row: RowView| prefix@.is_prefix_of(row.key);
        assert(self.rows().take(0) =~= Seq::empty());
        for i in 0..self.entries.len()
            invariant
                chosen == (|row: RowView| prefix@.is_prefix_of(row.key)),
                self.rows() == row_views(self.entries@),
                row_views(found@) =~= self.rows().take(i as int).filter(chosen),
        {
            let ghost views = row_views(found@);
            let row = &self.entries[i];
            assert(self.rows().take(i + 1) =~= self.rows().take(i as int).push(row@));
            proof {
                self.rows().take(i as int).lemma_filter_push(row@, chosen);
            }
            if begins_with(row.key.as_slice(), prefix) {
                found.push(copy_row(row));
                assert(row_views(found@) =~= views.push(row@));
            }
        }
        assert(self.rows().take(self.rows().len() as int) =~= self.rows());
        found
    }
}

/// Whether `bytes` begins with `prefix`.
pub fn begins_with(bytes: &[u8], prefix: &[u8]) -> (begins: bool)
    ensures
        begins == prefix@.is_prefix_of(bytes@),
{
    if bytes.len() < prefix.len() {
        return false;
    }
    let front = slice_subrange(bytes, 0, prefix.len());
    same_bytes(prefix, front)
}

/// The same row once more.
pub fn copy_row(row: &Row) -> (copy: Row)
    ensures
        copy@ == row@,
{
    Row { key: slice_to_vec(row.key.as_slice()), value: slice_to_vec(row.value.as_slice()) }
}

/// A scan finds a row exactly if the row is in the store and its key begins with the prefix, and
/// finds the rows in the order of the store: what comes with one more row is found behind the
/// rest.
pub proof fn law_rows_under(rows: Seq<RowView>, prefix: Seq<u8>, row: RowView)
    ensures
        rows_under(rows, prefix).contains(row) <==> rows.contains(row) && row.key.len()
            >= prefix.len() && forall|i: int|
            0 <= i < prefix.len() ==> row.key[i] == #[trigger] prefix[i],
        rows_under(rows.push(row), prefix) == if prefix.is_prefix_of(row.key) {
            rows_under(rows, prefix).push(row)
        } else {
            rows_under(rows, prefix)
        },
        rows_under(Seq::<RowView>::empty(), prefix).len() == 0,
{
    let under = |row: RowView| prefix.is_prefix_of(row.key);
    let found = rows_under(rows, prefix);
    rows.lemma_filter_push(row, under);
    if found.contains(row) {
        let i = choose|i: int| 0 <= i < found.len() && found[i] == row;
        rows.lemma_filter_pred(under, i);
        rows.lemma_filter_contains_rev(under, row);
    }
    if rows.contains(row) && prefix.is_prefix_of(row.key) {
        let i = choose|i: int| 0 <= i < rows.len() && rows[i] == row;
        rows.lemma_filter_contains(under, i);
    }
    if row.key.len() >= prefix.len() && forall|i: int|
        0 <= i < prefix.len() ==> row.key[i] == #[trigger] prefix[i] {
        assert(prefix =~= row.key.subrange(0, prefix.len() as int));
    }
    if prefix.is_prefix_of(row.key) {
        assert forall|i: int| 0 <= i < prefix.len() implies row.key[i] == #[trigger] prefix[i] by {
            assert(prefix[i] == row.key.subrange(0, prefix.len() as int)[i]);
        }
    }
    reveal(Seq::filter);
}

/// In a store whose keys ascend, a value lies under a key exactly if a row holds both.
pub proof fn law_contents(rows: Seq<RowView>, key: Seq<u8>, value: Seq<u8>)
    requires
        ascending(rows),
    ensures
        value_under(rows, key) == Some(value) <==> rows.contains((RowView { key, value })),
        contents(rows).contains_pair(key, value) <==> rows.contains((RowView { key, value })),
{
    let row = RowView { key, value };
    if rows.contains(row) {
        let i = choose|i: int| 0 <= i < rows.len() && rows[i] == row;
        lemma_value_at(rows, i);
    }
    if value_under(rows, key) == Some(value) {
        let i = choose|i: int| 0 <= i < rows.len() && (#[trigger] rows[i]).key == key;
        assert(rows[i] == row);
    }
}

} // verus!
