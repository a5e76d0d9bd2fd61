//! The transactions that wait for a block.

use crate::chain::{Transaction, TransactionView, TxIn};
use crate::db::encoding::{InFields, OutFields};
use crate::db::inputs::{
    law_txin_lookup, law_txin_numbers_read_back, law_txin_row_read_back, lemma_in_fields_sized,
    txin_of, txin_prefix, txin_sound, TX_IN_CODE,
};
use crate::db::outputs::{
    law_txout_lookup, law_txout_numbers_read_back, law_txout_row_read_back, lemma_out_fields_sized,
    txout_prefix, txouts_of, txouts_sound, TX_OUT_CODE,
};
use crate::db::varint;
use crate::hashes::{lemma_hash_eq, sha256, FullHash, Txid};
use crate::index::laws::{
    comes_from, holds_input, holds_output, is_nonzero, law_transaction_input_row,
    law_transaction_output_row, law_transaction_rows_come_from, written,
};
use crate::index::{
    index_transaction, input_row, input_rows, maybe_row, output_row, output_rows, spends,
    transaction_rows,
};
use crate::store::{
    contents, copy_row, row_views, rows_under, value_under, MemoryStore, ReadStore, RowView,
};
use crate::table::Table;
use vstd::prelude::*;

verus! {

/// The height that stands for the mempool.
pub const MEMPOOL_HEIGHT: u32 = 0x7FFF_FFFF;

/// What the daemon says of a transaction in its mempool.
#[derive(Clone, Copy, Debug)]
pub struct MempoolEntry {
    /// In satoshis.
    pub fee: u64,
    /// In virtual bytes, a quarter of the weight.
    pub vsize: u32,
}

impl MempoolEntry {
    /// The entry with this fee and size.
    pub fn new(fee: u64, vsize: u32) -> (entry: MempoolEntry)
        ensures
            entry == (MempoolEntry { fee, vsize }),
    {
        MempoolEntry { fee, vsize }
    }

    /// The fee in satoshis.
    pub fn fee(&self) -> (fee: u64)
        ensures
            fee == self.fee,
    {
        self.fee
    }

    /// The size in virtual bytes.
    pub fn vsize(&self) -> (vsize: u32)
        ensures
            vsize == self.vsize,
    {
        self.vsize
    }
}

/// A transaction in the mempool.
pub struct Item {
    tx: Transaction,
    entry: MempoolEntry,
}

/// The contents of an [`Item`].
pub struct ItemView {
    pub tx: TransactionView,
    pub entry: MempoolEntry,
}

/// The transactions in the mempool, and the index rows of their inputs and outputs.
pub struct Tracker {
    items: Table<Txid, Item>,
    index: MemoryStore,
}

impl View for Tracker {
    type V = Map<Txid, ItemView>;

    closed spec fn view(&self) -> Map<Txid, ItemView> {
        Map::new(
            |txid: Txid| self.items@.contains_key(txid),
            |txid: Txid|
                ItemView { tx: self.items@[txid].tx@, entry: self.items@[txid].entry },
        )
    }
}

/// The index rows of a transaction in the mempool.
pub open spec fn mempool_rows(tx: TransactionView) -> Seq<RowView> {
    transaction_rows(tx, MEMPOOL_HEIGHT, None)
}

/// Whether one of the index rows of a transaction has this key.
pub open spec fn has_key(tx: TransactionView, key: Seq<u8>) -> bool {
    exists|i: int| 0 <= i < mempool_rows(tx).len() && (#[trigger] mempool_rows(tx)[i]).key == key
}

/// Whether one of the index rows of a transaction in the mempool has this key.
pub open spec fn indexes_key(items: Map<Txid, ItemView>, key: Seq<u8>) -> bool {
    exists|txid: Txid| #[trigger] items.contains_key(txid) && has_key(items[txid].tx, key)
}

/// The keys of the store are those of the index rows of the transactions.
pub open spec fn mirrors(items: Map<Txid, ItemView>, held: Map<Seq<u8>, Seq<u8>>) -> bool {
    forall|key: Seq<u8>| #[trigger] held.contains_key(key) <==> indexes_key(items, key)
}

/// The key of an index row of a transaction tells its id.
proof fn lemma_key_names_tx(a: TransactionView, b: TransactionView, key: Seq<u8>)
    requires
        has_key(a, key),
        has_key(b, key),
    ensures
        a.txid == b.txid,
{
    lemma_key_holds_txid(a, key);
    lemma_key_holds_txid(b, key);
    lemma_hash_eq(a.txid, b.txid);
}

/// The key of an index row of a transaction reads back as a row with its id.
proof fn lemma_key_holds_txid(tx: TransactionView, key: Seq<u8>)
    requires
        has_key(tx, key),
    ensures
        key.len() > 0,
        key[0] == TX_IN_CODE || key[0] == TX_OUT_CODE,
        key[0] == TX_IN_CODE ==> InFields::read(key) is Some && InFields::read(key).unwrap().txid
            == tx.txid@,
        key[0] == TX_OUT_CODE ==> OutFields::read(key) is Some && OutFields::read(key).unwrap().txid
            == tx.txid@,
{
    let rows = mempool_rows(tx);
    let i = choose|i: int| 0 <= i < rows.len() && (#[trigger] rows[i]).key == key;
    let ins = input_rows(tx, MEMPOOL_HEIGHT);
    let outs = output_rows(tx, MEMPOOL_HEIGHT);
    assert(maybe_row(None).len() == 0);
    if i < ins.len() {
        let input = tx.input.filter(|input: TxIn| spends(input))[i];
        assert(rows[i] == input_row(tx.txid, input, MEMPOOL_HEIGHT));
        law_txin_row_read_back(tx.txid, input, MEMPOOL_HEIGHT);
        assert(InFields::of_input(tx.txid, input, MEMPOOL_HEIGHT).bytes()[0] == TX_IN_CODE);
    } else {
        let k = i - ins.len();
        assert(rows[i] == output_row(tx, k, MEMPOOL_HEIGHT));
        law_txout_row_read_back(tx.txid, tx.output[k], k as u32, MEMPOOL_HEIGHT);
        assert(OutFields::of_output(tx.txid, tx.output[k], k as u32, MEMPOOL_HEIGHT).bytes()[0]
            == TX_OUT_CODE);
    }
}

/// After rows have been written, a key is there if it was or if a row has it.
proof fn lemma_written_keys(held: Map<Seq<u8>, Seq<u8>>, rows: Seq<RowView>, key: Seq<u8>)
    ensures
        written(held, rows).contains_key(key) <==> held.contains_key(key) || exists|i: int|
            0 <= i < rows.len() && (#[trigger] rows[i]).key == key,
    decreases rows.len(),
{
    if rows.len() > 0 {
        let rest = rows.drop_last();
        lemma_written_keys(held, rest, key);
        assert(rows[rows.len() - 1] == rows.last());
        if exists|i: int| 0 <= i < rest.len() && (#[trigger] rest[i]).key == key {
            let i = choose|i: int| 0 <= i < rest.len() && (#[trigger] rest[i]).key == key;
            assert(rows[i].key == key);
        }
        if exists|i: int| 0 <= i < rows.len() && (#[trigger] rows[i]).key == key {
            let i = choose|i: int| 0 <= i < rows.len() && (#[trigger] rows[i]).key == key;
            if i < rest.len() {
                assert(rest[i].key == key);
            }
        }
    }
}

/// What is chosen from items are those that meet the condition.
proof fn lemma_filter_elements<T>(items: Seq<T>, pred: spec_fn(T) -> bool)
    ensures
        forall|item: T| #[trigger]
            items.filter(pred).contains(item) <==> items.contains(item) && pred(item),
{
    let chosen = items.filter(pred);
    assert forall|item: T| #[trigger] chosen.contains(item) implies items.contains(item) && pred(
        item,
    ) by {
        items.lemma_filter_contains_rev(pred, item);
        let i = choose|i: int| 0 <= i < chosen.len() && chosen[i] == item;
        items.lemma_filter_pred(pred, i);
    }
    assert forall|item: T| items.contains(item) && pred(item) implies #[trigger] chosen.contains(
        item,
    ) by {
        let i = choose|i: int| 0 <= i < items.len() && items[i] == item;
        items.lemma_filter_contains(pred, i);
    }
}

/// What is chosen from items that differ differs.
proof fn lemma_filter_unique<T>(items: Seq<T>, pred: spec_fn(T) -> bool)
    requires
        items.no_duplicates(),
    ensures
        items.filter(pred).no_duplicates(),
    decreases items.len(),
{
    reveal(Seq::filter);
    if items.len() > 0 {
        let rest = items.drop_last();
        let last = items.last();
        lemma_filter_unique(rest, pred);
        lemma_filter_elements(rest, pred);
        let chosen = rest.filter(pred);
        if pred(last) {
            assert(!chosen.contains(last)) by {
                if rest.contains(last) {
                    let i = choose|i: int| 0 <= i < rest.len() && rest[i] == last;
                    assert(items[i] == items[items.len() - 1]);
                }
            }
            let all = chosen.push(last);
            assert forall|i: int, j: int| 0 <= i < all.len() && 0 <= j < all.len() && i != j implies
                all[i] != all[j] by {
                if i < chosen.len() {
                    assert(chosen.contains(chosen[i]));
                }
                if j < chosen.len() {
                    assert(chosen.contains(chosen[j]));
                }
            }
        }
    }
}

impl Tracker {
    /// The rows of the index.
    pub closed spec fn index_rows(&self) -> Seq<RowView> {
        self.index.rows()
    }

    /// Each transaction stands under its own id, and the index holds the rows of exactly these
    /// transactions.
    pub closed spec fn wf(&self) -> bool {
        &&& self.items.wf()
        &&& forall|txid: Txid| #[trigger]
            self@.contains_key(txid) ==> self@[txid].tx.txid == txid && self@[txid].tx.hashable()
        &&& mirrors(self@, contents(self.index_rows()))
    }

    /// An empty mempool.
    pub fn new() -> (tracker: Tracker)
        ensures
            tracker.wf(),
            tracker@ == Map::<Txid, ItemView>::empty(),
    {
        let tracker = Tracker { items: Table::new(), index: MemoryStore::new() };
        assert(tracker@ =~= Map::<Txid, ItemView>::empty());
        tracker
    }

    /// Takes a transaction in, in place of one with the same id.
    pub fn add(&mut self, tx: Transaction, entry: MempoolEntry)
        requires
            old(self).wf(),
            tx@.hashable(),
        ensures
            final(self).wf(),
            final(self)@ == old(self)@.insert(tx.txid, ItemView { tx: tx@, entry }),
    {
        let txid = tx.txid;
        self.remove(&txid);
        let ghost (items, kept) = (self@, self.items);
        let ghost held = contents(self.index_rows());
        let rows = index_transaction(&tx, MEMPOOL_HEIGHT, None);
        let ghost all = row_views(rows@);
        assert(all == mempool_rows(tx@));
        assert(all.take(0) =~= Seq::empty());
        for i in 0..rows.len()
            invariant
                all == row_views(rows@),
                self@ == items,
                self.items == kept,
                contents(self.index.rows()) == written(held, all.take(i as int)),
        {
            assert(all.take(i + 1).drop_last() =~= all.take(i as int));
            assert(all[i as int] == rows[i as int]@);
            self.index.write(copy_row(&rows[i]));
        }
        assert(all.take(all.len() as int) =~= all);
        self.items.insert(txid, Item { tx, entry });
        proof {
            assert(self@ =~= items.insert(txid, ItemView { tx: tx@, entry }));
            assert(self@ =~= old(self)@.insert(txid, ItemView { tx: tx@, entry }));
            assert forall|key: Seq<u8>| #[trigger]
                contents(self.index_rows()).contains_key(key) <==> indexes_key(self@, key) by {
                lemma_written_keys(held, all, key);
                assert(contents(self.index.rows()).contains_key(key) <==> held.contains_key(key)
                    || has_key(tx@, key));
                assert(held.contains_key(key) <==> indexes_key(items, key));
                if indexes_key(items, key) {
                    let id = choose|id: Txid| #[trigger]
                        items.contains_key(id) && has_key(items[id].tx, key);
                    assert(self@.contains_key(id) && has_key(self@[id].tx, key));
                }
                if has_key(tx@, key) {
                    assert(self@.contains_key(txid) && has_key(self@[txid].tx, key));
                }
                if indexes_key(self@, key) {
                    let id = choose|id: Txid| #[trigger]
                        self@.contains_key(id) && has_key(self@[id].tx, key);
                    if id != txid {
                        assert(items.contains_key(id) && has_key(items[id].tx, key));
                    }
                }
            }
        }
    }

    /// Drops the transaction with this id, if it is there.
    pub fn remove(&mut self, txid: &Txid)
        requires
            old(self).wf(),
        ensures
            final(self).wf(),
            final(self)@ == old(self)@.remove(*txid),
    {
        let removed = self.items.remove(txid);
        assert(self@ =~= old(self)@.remove(*txid));
        let tx = match removed {
            Some(item) => item.tx,
            None => {
                assert(self@ =~= old(self)@);
                return;
            },
        };
        let ghost (items, kept) = (self@, self.items);
        let ghost held = contents(self.index_rows());
        assert(old(self)@.contains_key(*txid) && old(self)@[*txid].tx == tx@);
        let rows = index_transaction(&tx, MEMPOOL_HEIGHT, None);
        let ghost all = row_views(rows@);
        assert(all == mempool_rows(tx@));
        for i in 0..rows.len()
            invariant
                all == row_views(rows@),
                self@ == items,
                self.items == kept,
                forall|key: Seq<u8>| #[trigger]
                    contents(self.index.rows()).contains_key(key) <==> held.contains_key(key)
                        && !exists|j: int| 0 <= j < i && (#[trigger] all[j]).key == key,
        {
            assert(all[i as int] == rows[i as int]@);
            let ghost before = contents(self.index.rows());
            self.index.remove(rows[i].key.as_slice());
            assert forall|key: Seq<u8>| #[trigger]
                contents(self.index.rows()).contains_key(key) <==> held.contains_key(key)
                    && !exists|j: int| 0 <= j < i + 1 && (#[trigger] all[j]).key == key by {
                assert(before.contains_key(key) <==> held.contains_key(key) && !exists|j: int|
                    0 <= j < i && (#[trigger] all[j]).key == key);
                if key == all[i as int].key {
                    assert(exists|j: int| 0 <= j < i + 1 && (#[trigger] all[j]).key == key);
                }
            }
        }
        proof {
            assert forall|key: Seq<u8>| #[trigger]
                contents(self.index_rows()).contains_key(key) <==> indexes_key(items, key) by {
                assert(held.contains_key(key) <==> indexes_key(old(self)@, key));
                assert(contents(self.index.rows()).contains_key(key) <==> held.contains_key(key)
                    && !has_key(tx@, key));
                if indexes_key(items, key) {
                    let id = choose|id: Txid| #[trigger]
                        items.contains_key(id) && has_key(items[id].tx, key);
                    assert(old(self)@.contains_key(id) && has_key(old(self)@[id].tx, key));
                    if has_key(tx@, key) {
                        lemma_key_names_tx(tx@, items[id].tx, key);
                    }
                }
                if indexes_key(old(self)@, key) && !has_key(tx@, key) {
                    let id = choose|id: Txid| #[trigger]
                        old(self)@.contains_key(id) && has_key(old(self)@[id].tx, key);
                    assert(items.contains_key(id) && has_key(items[id].tx, key));
                }
            }
        }
    }

    /// Whether the transaction is in the mempool.
    pub fn contains(&self, txid: &Txid) -> (contains: bool)
        requires
            self.wf(),
        ensures
            contains == self@.contains_key(*txid),
    {
        self.items.get(txid).is_some()
    }

    /// The transaction with this id.
    pub fn get_txn(&self, txid: &Txid) -> (tx: Option<&Transaction>)
        requires
            self.wf(),
        ensures
            match tx {
                Some(tx) => self@.contains_key(*txid) && tx@ == self@[*txid].tx,
                None => !self@.contains_key(*txid),
            },
    {
        match self.items.get(txid) {
            Some(item) => Some(&item.tx),
            None => None,
        }
    }

    /// The fee of the transaction with this id.
    pub fn get_fee(&self, txid: &Txid) -> (fee: Option<u64>)
        requires
            self.wf(),
        ensures
            fee == if self@.contains_key(*txid) {
                Some(self@[*txid].entry.fee)
            } else {
                None
            },
    {
        match self.items.get(txid) {
            Some(item) => Some(item.entry.fee),
            None => None,
        }
    }

    /// The ids of all transactions in the mempool.
    pub fn txids(&self) -> (txids: Vec<Txid>)
        requires
            self.wf(),
        ensures
            txids@.no_duplicates(),
            forall|txid: Txid| #[trigger] txids@.contains(txid) <==> self@.contains_key(txid),
    {
        let txids = self.items.keys();
        assert forall|txid: Txid| #[trigger] txids@.contains(txid) <==> self@.contains_key(txid) by {
            assert(self.items@.contains_key(txid) <==> self@.contains_key(txid));
        }
        txids
    }

    /// Which of the given transactions are not in the mempool yet, and which transactions in
    /// the mempool are not among those given.
    pub fn differences(&self, txids: &Vec<Txid>) -> (differences: (Vec<Txid>, Vec<Txid>))
        requires
            self.wf(),
        ensures
            differences.0@ == txids@.filter(|txid: Txid| !self@.contains_key(txid)),
            differences.1@.no_duplicates(),
            forall|txid: Txid| #[trigger]
                differences.1@.contains(txid) <==> self@.contains_key(txid) && !txids@.contains(
                    txid,
                ),
    {
        let mut new: Vec<Txid> = Vec::new();
        let mut given: Table<Txid, ()> = Table::new();
        let ghost unknown = |txid: Txid| !self@.contains_key(txid);
        assert(txids@.take(0) =~= Seq::empty());
        for i in 0..txids.len()
            invariant
                self.wf(),
                unknown == (|txid: Txid| !self@.contains_key(txid)),
                new@ == txids@.take(i as int).filter(unknown),
                given.wf(),
                forall|txid: Txid| #[trigger]
                    given@.contains_key(txid) <==> exists|j: int| 0 <= j < i && txids@[j] == txid,
        {
            let txid = txids[i];
            assert(txids@.take(i + 1) =~= txids@.take(i as int).push(txid));
            proof {
                txids@.take(i as int).lemma_filter_push(txid, unknown);
            }
            if !self.contains(&txid) {
                new.push(txid);
            }
            given.insert(txid, ());
        }
        assert(txids@.take(txids.len() as int) =~= txids@);
        let held = self.txids();
        let mut gone: Vec<Txid> = Vec::new();
        let ghost missing = |txid: Txid| !txids@.contains(txid);
        assert(held@.take(0) =~= Seq::empty());
        for i in 0..held.len()
            invariant
                missing == (|txid: Txid| !txids@.contains(txid)),
                gone@ == held@.take(i as int).filter(missing),
                given.wf(),
                forall|txid: Txid| #[trigger]
                    given@.contains_key(txid) <==> exists|j: int|
                        0 <= j < txids.len() && txids@[j] == txid,
        {
            let txid = held[i];
            assert(held@.take(i + 1) =~= held@.take(i as int).push(txid));
            proof {
                held@.take(i as int).lemma_filter_push(txid, missing);
            }
            assert(given@.contains_key(txid) <==> txids@.contains(txid));
            if given.get(&txid).is_none() {
                gone.push(txid);
            }
        }
        assert(held@.take(held.len() as int) =~= held@);
        proof {
            lemma_filter_unique(held@, missing);
            lemma_filter_elements(held@, missing);
        }
        (new, gone)
    }

    /// The index rows of the transactions.
    pub fn index(&self) -> (index: &MemoryStore)
        requires
            self.wf(),
        ensures
            index.rows() == self.index_rows(),
            mirrors(self@, contents(index.rows())),
    {
        &self.index
    }
}

/// An input of a transaction in the mempool that spends an output.
pub open spec fn is_mempool_input(items: Map<Txid, ItemView>, fields: InFields) -> bool {
    exists|txid: Txid, i: int| #[trigger]
        items.contains_key(txid) && 0 <= i < items[txid].tx.input.len() && spends(
            #[trigger] items[txid].tx.input[i],
        ) && fields == InFields::of_input(
            items[txid].tx.txid,
            items[txid].tx.input[i],
            MEMPOOL_HEIGHT,
        )
}

/// An output of a transaction in the mempool.
pub open spec fn is_mempool_output(items: Map<Txid, ItemView>, fields: OutFields) -> bool {
    exists|txid: Txid, i: int| #[trigger]
        items.contains_key(txid) && 0 <= i < items[txid].tx.output.len() && fields
            == OutFields::of_output(
            items[txid].tx.txid,
            #[trigger] items[txid].tx.output[i],
            i as u32,
            MEMPOOL_HEIGHT,
        )
}

/// Every key of the index is that of an input or of an output.
proof fn lemma_key_shape(items: Map<Txid, ItemView>, key: Seq<u8>)
    requires
        indexes_key(items, key),
    ensures
        key.len() > 0,
        key[0] == TX_IN_CODE || key[0] == TX_OUT_CODE,
        key[0] == TX_IN_CODE ==> exists|fields: InFields| #[trigger]
            is_mempool_input(items, fields) && fields.bytes() == key && fields.wf()
                && InFields::read(key) == Some(fields),
        key[0] == TX_OUT_CODE ==> exists|fields: OutFields| #[trigger]
            is_mempool_output(items, fields) && fields.bytes() == key && fields.wf()
                && OutFields::read(key) == Some(fields),
{
    let txid = choose|txid: Txid| #[trigger] items.contains_key(txid) && has_key(items[txid].tx, key);
    let tx = items[txid].tx;
    let rows = mempool_rows(tx);
    let i = choose|i: int| 0 <= i < rows.len() && (#[trigger] rows[i]).key == key;
    let ins = input_rows(tx, MEMPOOL_HEIGHT);
    let pred = |input: TxIn| spends(input);
    assert(maybe_row(None).len() == 0);
    if i < ins.len() {
        let input = tx.input.filter(pred)[i];
        assert(rows[i] == input_row(tx.txid, input, MEMPOOL_HEIGHT));
        law_txin_row_read_back(tx.txid, input, MEMPOOL_HEIGHT);
        law_txin_numbers_read_back(tx.txid, input, MEMPOOL_HEIGHT);
        let fields = InFields::of_input(tx.txid, input, MEMPOOL_HEIGHT);
        assert(fields.bytes()[0] == TX_IN_CODE);
        tx.input.lemma_filter_pred(pred, i);
        tx.input.lemma_filter_contains_rev(pred, input);
        let k = choose|k: int| 0 <= k < tx.input.len() && tx.input[k] == input;
        assert(items.contains_key(txid) && spends(items[txid].tx.input[k]));
        assert(is_mempool_input(items, fields));
    } else {
        let k = i - ins.len();
        assert(rows[i] == output_row(tx, k, MEMPOOL_HEIGHT));
        law_txout_row_read_back(tx.txid, tx.output[k], k as u32, MEMPOOL_HEIGHT);
        law_txout_numbers_read_back(tx.txid, tx.output[k], k as u32, MEMPOOL_HEIGHT);
        let fields = OutFields::of_output(tx.txid, tx.output[k], k as u32, MEMPOOL_HEIGHT);
        assert(fields.bytes()[0] == TX_OUT_CODE);
        assert(is_mempool_output(items, fields));
    }
}

/// What is found in the index under a prefix is a row of a transaction in the mempool.
proof fn lemma_found(
    items: Map<Txid, ItemView>,
    rows: Seq<RowView>,
    prefix: Seq<u8>,
    i: int,
)
    requires
        mirrors(items, contents(rows)),
        prefix.len() > 0,
        0 <= i < rows_under(rows, prefix).len(),
    ensures
        indexes_key(items, rows_under(rows, prefix)[i].key),
        rows_under(rows, prefix)[i].key.len() > 0,
        rows_under(rows, prefix)[i].key[0] == prefix[0],
{
    let under = |row: RowView| prefix.is_prefix_of(row.key);
    let row = rows_under(rows, prefix)[i];
    rows.lemma_filter_pred(under, i);
    rows.lemma_filter_contains_rev(under, row);
    let k = choose|k: int| 0 <= k < rows.len() && rows[k] == row;
    assert(rows[k].key == row.key);
    assert(value_under(rows, row.key) is Some);
    assert(contents(rows).contains_key(row.key));
    assert(prefix.is_prefix_of(row.key));
    assert(prefix[0] == row.key[0]);
}

/// Everything that a lookup finds in the index of the mempool can be read.
pub proof fn law_mempool_rows_sound(
    items: Map<Txid, ItemView>,
    rows: Seq<RowView>,
    scripthash: FullHash,
    txid: Txid,
    output_index: u32,
)
    requires
        mirrors(items, contents(rows)),
    ensures
        txouts_sound(rows, scripthash),
        txin_sound(rows, txid, output_index),
{
    let outs = rows_under(rows, txout_prefix(scripthash));
    assert forall|i: int| 0 <= i < outs.len() implies OutFields::read(
        (#[trigger] outs[i]).key,
    ) is Some && OutFields::read(outs[i].key).unwrap().wf() by {
        lemma_found(items, rows, txout_prefix(scripthash), i);
        assert(txout_prefix(scripthash)[0] == TX_OUT_CODE);
        lemma_key_shape(items, outs[i].key);
    }
    assert forall|i: int| 0 <= i < txouts_of(rows, scripthash).len() implies (#[trigger] txouts_of(
        rows,
        scripthash,
    )[i]).wf() by {
        assert(OutFields::read(outs[i].key).unwrap().wf());
    }
    let ins = rows_under(rows, txin_prefix(txid, output_index));
    if ins.len() > 0 {
        lemma_found(items, rows, txin_prefix(txid, output_index), 0);
        assert(txin_prefix(txid, output_index)[0] == TX_IN_CODE);
        lemma_key_shape(items, ins[0].key);
    }
}

/// What a lookup by script finds in the index of the mempool is an output to that script.
proof fn lemma_output_is_mempool(
    items: Map<Txid, ItemView>,
    rows: Seq<RowView>,
    scripthash: FullHash,
    i: int,
)
    requires
        mirrors(items, contents(rows)),
        0 <= i < txouts_of(rows, scripthash).len(),
    ensures
        is_mempool_output(items, txouts_of(rows, scripthash)[i]),
        txouts_of(rows, scripthash)[i].scripthash == scripthash@,
{
    let prefix = txout_prefix(scripthash);
    let under = |row: RowView| prefix.is_prefix_of(row.key);
    let key = rows_under(rows, prefix)[i].key;
    let fields = txouts_of(rows, scripthash)[i];
    assert(prefix[0] == TX_OUT_CODE);
    lemma_found(items, rows, prefix, i);
    lemma_key_shape(items, key);
    let held = choose|held: OutFields| #[trigger]
        is_mempool_output(items, held) && held.bytes() == key && held.wf() && OutFields::read(key)
            == Some(held);
    assert(held == fields);
    rows.lemma_filter_pred(under, i);
    let (txid, k) = choose|txid: Txid, k: int| #[trigger]
        items.contains_key(txid) && 0 <= k < items[txid].tx.output.len() && fields
            == OutFields::of_output(
            items[txid].tx.txid,
            #[trigger] items[txid].tx.output[k],
            k as u32,
            MEMPOOL_HEIGHT,
        );
    lemma_out_fields_sized(items[txid].tx.txid, items[txid].tx.output[k], k as u32, MEMPOOL_HEIGHT);
    law_txout_lookup(fields, scripthash);
}

/// A lookup by script in the index of the mempool finds each output to that script.
proof fn lemma_mempool_output_found(
    items: Map<Txid, ItemView>,
    rows: Seq<RowView>,
    txid: Txid,
    k: int,
)
    requires
        mirrors(items, contents(rows)),
        items.contains_key(txid),
        0 <= k < items[txid].tx.output.len(),
    ensures
        txouts_of(rows, sha256(items[txid].tx.output[k].script_pubkey)).contains(
            OutFields::of_output(
                items[txid].tx.txid,
                items[txid].tx.output[k],
                k as u32,
                MEMPOOL_HEIGHT,
            ),
        ),
{
    let tx = items[txid].tx;
    let scripthash = sha256(tx.output[k].script_pubkey);
    let prefix = txout_prefix(scripthash);
    let under = |row: RowView| prefix.is_prefix_of(row.key);
    let fields = OutFields::of_output(tx.txid, tx.output[k], k as u32, MEMPOOL_HEIGHT);
    let key = fields.bytes();
    assert(mempool_rows(tx)[input_rows(tx, MEMPOOL_HEIGHT).len() + k] == output_row(
        tx,
        k,
        MEMPOOL_HEIGHT,
    ));
    assert(has_key(tx, key));
    assert(indexes_key(items, key));
    assert(contents(rows).contains_key(key));
    let r = choose|r: int| 0 <= r < rows.len() && (#[trigger] rows[r]).key == key;
    assert(rows[r].key == key);
    lemma_out_fields_sized(tx.txid, tx.output[k], k as u32, MEMPOOL_HEIGHT);
    law_txout_lookup(fields, scripthash);
    rows.lemma_filter_contains(under, r);
    let outs = rows_under(rows, prefix);
    let m = choose|m: int| 0 <= m < outs.len() && outs[m] == rows[r];
    law_txout_row_read_back(tx.txid, tx.output[k], k as u32, MEMPOOL_HEIGHT);
    assert(txouts_of(rows, scripthash)[m] == fields);
}

/// A lookup by script in the index of the mempool finds the outputs of its transactions to
/// that script, and nothing else.
pub proof fn law_mempool_outputs(
    items: Map<Txid, ItemView>,
    rows: Seq<RowView>,
    scripthash: FullHash,
    fields: OutFields,
)
    requires
        mirrors(items, contents(rows)),
    ensures
        txouts_of(rows, scripthash).contains(fields) <==> is_mempool_output(items, fields)
            && fields.scripthash == scripthash@,
{
    let found = txouts_of(rows, scripthash);
    if found.contains(fields) {
        let i = choose|i: int| 0 <= i < found.len() && found[i] == fields;
        lemma_output_is_mempool(items, rows, scripthash, i);
    }
    if is_mempool_output(items, fields) && fields.scripthash == scripthash@ {
        let (txid, k) = choose|txid: Txid, k: int| #[trigger]
            items.contains_key(txid) && 0 <= k < items[txid].tx.output.len() && fields
                == OutFields::of_output(
                items[txid].tx.txid,
                #[trigger] items[txid].tx.output[k],
                k as u32,
                MEMPOOL_HEIGHT,
            );
        lemma_hash_eq(sha256(items[txid].tx.output[k].script_pubkey), scripthash);
        lemma_mempool_output_found(items, rows, txid, k);
    }
}

/// A lookup by output in the index of the mempool finds an input of one of its transactions
/// that spends the output exactly if there is one.
pub proof fn law_mempool_inputs(
    items: Map<Txid, ItemView>,
    rows: Seq<RowView>,
    txid: Txid,
    output_index: u32,
)
    requires
        mirrors(items, contents(rows)),
    ensures
        txin_of(rows, txid, output_index) matches Some(fields) ==> is_mempool_input(items, fields)
            && fields.prev_hash == txid@ && fields.prev_index == varint(output_index as nat),
        txin_of(rows, txid, output_index) is None ==> forall|fields: InFields| #[trigger]
            is_mempool_input(items, fields) ==> fields.prev_hash != txid@ || fields.prev_index
                != varint(output_index as nat),
{
    let prefix = txin_prefix(txid, output_index);
    let found = rows_under(rows, prefix);
    assert(prefix[0] == TX_IN_CODE);
    if found.len() > 0 {
        let key = found[0].key;
        lemma_found(items, rows, prefix, 0);
        lemma_key_shape(items, key);
        let held = choose|held: InFields| #[trigger]
            is_mempool_input(items, held) && held.bytes() == key && held.wf() && InFields::read(key)
                == Some(held);
        rows.lemma_filter_pred(|row: RowView| prefix.is_prefix_of(row.key), 0);
        lemma_mempool_input_sized(items, held);
        law_txin_lookup(held, txid, output_index);
    } else {
        assert forall|fields: InFields| #[trigger] is_mempool_input(items, fields) implies
            fields.prev_hash != txid@ || fields.prev_index != varint(output_index as nat) by {
            if fields.prev_hash == txid@ && fields.prev_index == varint(output_index as nat) {
                lemma_mempool_input_sized(items, fields);
                law_txin_lookup(fields, txid, output_index);
                lemma_mempool_input_stored(items, rows, fields);
                let r = choose|r: int|
                    0 <= r < rows.len() && (#[trigger] rows[r]).key == fields.bytes();
                rows.lemma_filter_contains(|row: RowView| prefix.is_prefix_of(row.key), r);
            }
        }
    }
}

/// The fields of an input in the mempool have the lengths of their types.
proof fn lemma_mempool_input_sized(items: Map<Txid, ItemView>, fields: InFields)
    requires
        is_mempool_input(items, fields),
    ensures
        fields.sized(),
        fields.code == TX_IN_CODE,
{
    let (txid, i) = choose|txid: Txid, i: int| #[trigger]
        items.contains_key(txid) && 0 <= i < items[txid].tx.input.len() && spends(
            #[trigger] items[txid].tx.input[i],
        ) && fields == InFields::of_input(
            items[txid].tx.txid,
            items[txid].tx.input[i],
            MEMPOOL_HEIGHT,
        );
    lemma_in_fields_sized(items[txid].tx.txid, items[txid].tx.input[i], MEMPOOL_HEIGHT);
}

/// The row of an input in the mempool is in the index.
proof fn lemma_mempool_input_stored(
    items: Map<Txid, ItemView>,
    rows: Seq<RowView>,
    fields: InFields,
)
    requires
        mirrors(items, contents(rows)),
        is_mempool_input(items, fields),
    ensures
        exists|r: int| 0 <= r < rows.len() && (#[trigger] rows[r]).key == fields.bytes(),
{
    let (txid, i) = choose|txid: Txid, i: int| #[trigger]
        items.contains_key(txid) && 0 <= i < items[txid].tx.input.len() && spends(
            #[trigger] items[txid].tx.input[i],
        ) && fields == InFields::of_input(
            items[txid].tx.txid,
            items[txid].tx.input[i],
            MEMPOOL_HEIGHT,
        );
    let tx = items[txid].tx;
    let pred = |input: TxIn| spends(input);
    let ins = input_rows(tx, MEMPOOL_HEIGHT);
    tx.input.lemma_filter_contains(pred, i);
    let chosen = tx.input.filter(pred);
    let k = choose|k: int| 0 <= k < chosen.len() && chosen[k] == tx.input[i];
    assert(ins[k] == input_row(tx.txid, tx.input[i], MEMPOOL_HEIGHT));
    assert(mempool_rows(tx)[k] == ins[k]);
    assert(has_key(tx, fields.bytes()));
    assert(indexes_key(items, fields.bytes()));
    assert(contents(rows).contains_key(fields.bytes()));
}

/// The index of the mempool holds a row for each output of a transaction in it, and for each
/// input of one that spends an output, at the height that stands for the mempool.
pub proof fn law_mempool_indexed(
    items: Map<Txid, ItemView>,
    held: Map<Seq<u8>, Seq<u8>>,
    txid: Txid,
    i: int,
)
    requires
        mirrors(items, held),
        items.contains_key(txid),
    ensures
        0 <= i < items[txid].tx.output.len() && i <= u32::MAX ==> exists|row: RowView| #[trigger]
            held.contains_key(row.key) && holds_output(row, items[txid].tx, i, 0x7FFF_FFFF),
        0 <= i < items[txid].tx.input.len() && is_nonzero(
            items[txid].tx.input[i].previous_output.txid,
        ) ==> exists|row: RowView| #[trigger]
            held.contains_key(row.key) && holds_input(row, items[txid].tx, i, 0x7FFF_FFFF),
{
    let tx = items[txid].tx;
    let rows = mempool_rows(tx);
    if 0 <= i < tx.output.len() && i <= u32::MAX {
        law_transaction_output_row(tx, MEMPOOL_HEIGHT, None, i);
        let k = choose|k: int|
            0 <= k < rows.len() && holds_output(#[trigger] rows[k], tx, i, MEMPOOL_HEIGHT as int);
        assert(has_key(tx, rows[k].key));
        assert(indexes_key(items, rows[k].key));
        assert(held.contains_key(rows[k].key));
    }
    if 0 <= i < tx.input.len() && is_nonzero(tx.input[i].previous_output.txid) {
        law_transaction_input_row(tx, MEMPOOL_HEIGHT, None, i);
        let k = choose|k: int|
            0 <= k < rows.len() && holds_input(#[trigger] rows[k], tx, i, MEMPOOL_HEIGHT as int);
        assert(has_key(tx, rows[k].key));
        assert(indexes_key(items, rows[k].key));
        assert(held.contains_key(rows[k].key));
    }
}

/// Each row of the index of the mempool comes from an output of a transaction in it, or from an
/// input of one that spends an output.
pub proof fn law_mempool_index_comes_from(
    items: Map<Txid, ItemView>,
    held: Map<Seq<u8>, Seq<u8>>,
    key: Seq<u8>,
)
    requires
        mirrors(items, held),
        held.contains_key(key),
        forall|txid: Txid| #[trigger]
            items.contains_key(txid) ==> items[txid].tx.output.len() <= u32::MAX,
    ensures
        exists|txid: Txid| #[trigger]
            items.contains_key(txid) && comes_from(
                (RowView { key, value: Seq::empty() }),
                items[txid].tx,
                0x7FFF_FFFF,
                None,
            ),
{
    assert(indexes_key(items, key));
    let txid = choose|txid: Txid| #[trigger] items.contains_key(txid) && has_key(items[txid].tx, key);
    let tx = items[txid].tx;
    let rows = mempool_rows(tx);
    let i = choose|i: int| 0 <= i < rows.len() && (#[trigger] rows[i]).key == key;
    law_transaction_rows_come_from(tx, MEMPOOL_HEIGHT, None, i);
    assert(rows[i] == (RowView { key, value: Seq::empty() })) by {
        assert(rows[i].value =~= Seq::empty());
    }
}

} // verus!
