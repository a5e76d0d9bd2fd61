//! The rows that blocks and transactions leave in the store, and the chain that is read back
//! from them.

use crate::chain::{
    block_views, deserialize_blockhash, deserialize_header, header_in, lemma_header_in,
    serialize_blockhash, serialize_header, transaction_views, Block, BlockHeader, BlockView, Transaction, TransactionView, TxIn,
};
use crate::db::encoding::{
    bincode_hash_key, bincode_read_hash_key, out_key_bytes, InFields, OutFields,
};
use crate::db::inputs::TxInRow;
use crate::db::outputs::TxOutRow;
use crate::hashes::{
    default_hash, hash_in, lemma_hash_in, null_hash, same_hash, BlockHash, FullHash,
};
use crate::store::{copy_row, row_views, rows_under, value_under, ReadStore, Row, RowView};
use crate::table::Table;
use crate::util::{
    applied, chain_wf, continues, entries_from, entry_of, follows, header_follows, headers_linked,
    holds_places, lemma_place_of, linked, next_height, ordered, places, tip_of, HeaderEntry,
    HeaderList,
};
use vstd::prelude::*;

pub mod laws;

verus! {

/// The first byte of a block row.
pub const BLOCK_CODE: u8 = 0x42;

/// The key under which the last indexed block is named.
pub const LAST_BLOCK_CODE: u8 = 0x4c;

/// Whether an input spends an output: the input of a coinbase does not.
pub open spec fn spends(input: TxIn) -> bool {
    input.previous_output.txid != null_hash()
}

/// The row of an input.
pub open spec fn input_row(txid: FullHash, input: TxIn, height: u32) -> RowView {
    RowView { key: InFields::of_input(txid, input, height).bytes(), value: Seq::empty() }
}

/// The rows of the inputs of a transaction that spend an output.
pub open spec fn input_rows(tx: TransactionView, height: u32) -> Seq<RowView> {
    tx.input.filter(|input: TxIn| spends(input)).map_values(
        |input: TxIn| input_row(tx.txid, input, height),
    )
}

/// The row of output `i` of a transaction.
pub open spec fn output_row(tx: TransactionView, i: int, height: u32) -> RowView {
    RowView {
        key: OutFields::of_output(tx.txid, tx.output[i], i as u32, height).bytes(),
        value: Seq::empty(),
    }
}

/// The rows of the outputs of a transaction.
pub open spec fn output_rows(tx: TransactionView, height: u32) -> Seq<RowView> {
    Seq::new(tx.output.len(), |i: int| output_row(tx, i, height))
}

/// A row that may be there.
pub open spec fn maybe_row(row: Option<RowView>) -> Seq<RowView> {
    match row {
        Some(row) => seq![row],
        None => Seq::empty(),
    }
}

/// The rows of a transaction: of its inputs, of its outputs, and of the account that it
/// registers.
pub open spec fn transaction_rows(
    tx: TransactionView,
    height: u32,
    account: Option<RowView>,
) -> Seq<RowView> {
    input_rows(tx, height) + output_rows(tx, height) + maybe_row(account)
}

/// The rows of the transactions of a block, one after the other.
pub open spec fn transactions_rows(
    txs: Seq<TransactionView>,
    height: u32,
    accounts: Seq<Option<RowView>>,
) -> Seq<RowView>
    decreases txs.len(),
{
    if txs.len() == 0 {
        Seq::empty()
    } else {
        transactions_rows(txs.drop_last(), height, accounts) + transaction_rows(
            txs.last(),
            height,
            accounts[txs.len() - 1],
        )
    }
}

/// The row that holds a header.
pub open spec fn header_row(header: BlockHeader) -> RowView {
    RowView {
        key: out_key_bytes(BLOCK_CODE, header.spec_block_hash()@),
        value: header.bytes(),
    }
}

/// The rows of a block: of its transactions, and of its header.
pub open spec fn block_rows(
    block: BlockView,
    height: u32,
    accounts: Seq<Option<RowView>>,
) -> Seq<RowView> {
    transactions_rows(block.txdata, height, accounts).push(header_row(block.header))
}

/// The row that names the last indexed block.
pub open spec fn last_block_row(hash: BlockHash) -> RowView {
    RowView { key: seq![LAST_BLOCK_CODE], value: hash@ }
}

/// The contents of rows that may be there.
pub open spec fn account_views(rows: Seq<Option<Row>>) -> Seq<Option<RowView>> {
    rows.map_values(
        |row: Option<Row>|
            match row {
                Some(row) => Some(row@),
                None => None,
            },
    )
}

/// The rows of a transaction that is confirmed at `height`, with the row of the account that
/// it registers.
pub fn index_transaction(txn: &Transaction, height: u32, cashaccount: Option<&Row>) -> (rows: Vec<
    Row,
>)
    requires
        txn@.hashable(),
    ensures
        row_views(rows@) == transaction_rows(
            txn@,
            height,
            match cashaccount {
                Some(row) => Some(row@),
                None => None,
            },
        ),
{
    let mut rows: Vec<Row> = Vec::new();
    let ghost spending = |input: TxIn| spends(input);
    let ghost as_row = |input: TxIn| input_row(txn.txid, input, height);
    assert(txn@.input.take(0) =~= Seq::empty());
    assert(row_views(rows@) =~= Seq::empty());
    for i in 0..txn.input.len()
        invariant
            spending == (|input: TxIn| spends(input)),
            as_row == (|input: TxIn| input_row(txn.txid, input, height)),
            row_views(rows@) =~= txn.input@.take(i as int).filter(spending).map_values(as_row),
    {
        let ghost before = row_views(rows@);
        let input = &txn.input[i];
        assert(txn.input@.take(i + 1) =~= txn.input@.take(i as int).push(*input));
        proof {
            txn.input@.take(i as int).lemma_filter_push(*input, spending);
        }
        if !same_hash(&input.previous_output.txid, &default_hash()) {
            rows.push(TxInRow::new(txn.txid, input, height).to_row());
            assert(row_views(rows@) =~= before.push(as_row(*input)));
        }
    }
    assert(txn.input@.take(txn.input.len() as int) =~= txn.input@);
    let ghost inputs = row_views(rows@);
    assert(inputs =~= input_rows(txn@, height));
    for i in 0..txn.output.len()
        invariant
            txn@.hashable(),
            inputs == input_rows(txn@, height),
            row_views(rows@) =~= inputs + output_rows(txn@, height).take(i as int),
    {
        let ghost before = row_views(rows@);
        let output = &txn.output[i];
        assert(txn@.output[i as int] == output@);
        rows.push(TxOutRow::new(txn.txid, output, i as u32, height).to_row());
        assert(row_views(rows@) =~= before.push(output_row(txn@, i as int, height)));
    }
    let ghost before = row_views(rows@);
    if let Some(row) = cashaccount {
        rows.push(copy_row(row));
        assert(row_views(rows@) =~= before.push(row@));
    }
    rows
}

/// The rows of a block at `height`, with the rows of the accounts that its transactions
/// register.
pub fn index_block(block: &Block, height: u32, cashaccounts: &Vec<Option<Row>>) -> (rows: Vec<Row>)
    requires
        cashaccounts.len() == block.txdata.len(),
        block@.hashable(),
    ensures
        row_views(rows@) == block_rows(block@, height, account_views(cashaccounts@)),
{
    let mut rows: Vec<Row> = Vec::new();
    let ghost txs = transaction_views(block.txdata@);
    let ghost accounts = account_views(cashaccounts@);
    assert(row_views(rows@) =~= Seq::empty());
    for i in 0..block.txdata.len()
        invariant
            cashaccounts.len() == block.txdata.len(),
            block@.hashable(),
            txs == transaction_views(block.txdata@),
            accounts == account_views(cashaccounts@),
            row_views(rows@) =~= transactions_rows(txs.take(i as int), height, accounts),
    {
        let ghost before = row_views(rows@);
        assert(block@.txdata[i as int] == block.txdata[i as int]@);
        let mut found = index_transaction(&block.txdata[i], height, cashaccounts[i].as_ref());
        let ghost added = row_views(found@);
        rows.append(&mut found);
        assert(row_views(rows@) =~= before + added);
        assert(txs.take(i + 1).drop_last() =~= txs.take(i as int));
    }
    assert(txs.take(txs.len() as int) =~= txs);
    let ghost before = row_views(rows@);
    let hash = block.header.block_hash();
    rows.push(
        Row { key: bincode_hash_key(BLOCK_CODE, &hash), value: serialize_header(&block.header) },
    );
    assert(row_views(rows@) =~= before.push(header_row(block.header)));
    rows
}

/// The row that names the last indexed block: all blocks before it have been indexed.
pub fn last_indexed_block(blockhash: &BlockHash) -> (row: Row)
    ensures
        row@ == last_block_row(*blockhash),
{
    let row = Row { key: vec![LAST_BLOCK_CODE], value: serialize_blockhash(blockhash) };
    assert(row.key@ =~= seq![LAST_BLOCK_CODE]);
    row
}

/// The hash in the key of a block row.
pub open spec fn hash_in_key(row: RowView) -> BlockHash {
    hash_in(row.key.subrange(1, 33))
}

/// Whether the key of a block row is long enough to hold a hash.
pub open spec fn key_readable(row: RowView) -> bool {
    row.key.len() >= 33
}

/// Whether a block row holds a hash and a header.
pub open spec fn block_row_readable(row: RowView) -> bool {
    key_readable(row) && row.value.len() == 80
}

/// The block rows.
pub open spec fn rows_of_blocks(rows: Seq<RowView>) -> Seq<RowView> {
    rows_under(rows, seq![BLOCK_CODE])
}

/// The headers in block rows, each under the hash in its key; of two with the same hash the
/// later one.
pub open spec fn header_map(rows: Seq<RowView>) -> Map<BlockHash, BlockHeader>
    decreases rows.len(),
{
    if rows.len() == 0 {
        Map::empty()
    } else {
        header_map(rows.drop_last()).insert(hash_in_key(rows.last()), header_in(rows.last().value))
    }
}

/// The headers from the first block to the one with this hash, each found under the hash that
/// the one above it names: none if one of them is missing.
pub open spec fn path_to(map: Map<BlockHash, BlockHeader>, hash: BlockHash) -> Option<
    Seq<BlockHeader>,
>
    decreases map.dom().len(),
    when map.dom().finite()
{
    if hash == null_hash() {
        Some(Seq::empty())
    } else if !map.contains_key(hash) {
        None
    } else {
        match path_to(map.remove(hash), map[hash].prev_blockhash) {
            Some(path) => Some(path.push(map[hash])),
            None => None,
        }
    }
}

/// The hash of the last indexed block, the null hash if there is none: nothing if what lies
/// there is no hash.
pub open spec fn indexed_tip(rows: Seq<RowView>) -> Option<BlockHash> {
    match value_under(rows, seq![LAST_BLOCK_CODE]) {
        Some(value) => if value.len() == 32 {
            Some(hash_in(value))
        } else {
            None
        },
        None => Some(null_hash()),
    }
}

/// The hash of the last header; the null hash if there is none.
pub open spec fn headers_tip(headers: Seq<BlockHeader>) -> BlockHash {
    if headers.len() == 0 {
        null_hash()
    } else {
        headers.last().spec_block_hash()
    }
}

/// The headers of the indexed chain, from the first block to the last indexed one: nothing if
/// a row cannot be read, a header is missing, or the headers do not name each other's hashes.
pub open spec fn indexed_headers(rows: Seq<RowView>) -> Option<Seq<BlockHeader>> {
    let found = rows_of_blocks(rows);
    match indexed_tip(rows) {
        Some(tip) => if forall|i: int|
            0 <= i < found.len() ==> #[trigger] block_row_readable(found[i]) {
            match path_to(header_map(found), tip) {
                Some(headers) => if headers_tip(headers) == tip && headers_linked(headers) {
                    Some(headers)
                } else {
                    None
                },
                None => None,
            }
        } else {
            None
        },
        None => None,
    }
}

proof fn lemma_header_map_finite(rows: Seq<RowView>)
    ensures
        header_map(rows).dom().finite(),
    decreases rows.len(),
{
    if rows.len() > 0 {
        lemma_header_map_finite(rows.drop_last());
    }
}

proof fn lemma_path_starts(map: Map<BlockHash, BlockHeader>, hash: BlockHash)
    requires
        map.dom().finite(),
        path_to(map, hash) is Some,
    ensures
        path_to(map, hash).unwrap().len() > 0 ==> path_to(map, hash).unwrap()[0].prev_blockhash
            == null_hash(),
    decreases map.dom().len(),
{
    if hash != null_hash() {
        lemma_path_starts(map.remove(hash), map[hash].prev_blockhash);
    }
}

/// The hashes of all indexed blocks.
pub fn read_indexed_blockhashes<S: ReadStore>(store: &S) -> (hashes: Vec<BlockHash>)
    requires
        forall|i: int|
            0 <= i < rows_of_blocks(store.rows()).len() ==> #[trigger] key_readable(
                rows_of_blocks(store.rows())[i],
            ),
    ensures
        hashes@.no_duplicates(),
        forall|hash: BlockHash| #[trigger]
            hashes@.contains(hash) <==> exists|i: int|
                0 <= i < rows_of_blocks(store.rows()).len() && hash == #[trigger] hash_in_key(
                    rows_of_blocks(store.rows())[i],
                ),
{
    let mut seen: Table<BlockHash, ()> = Table::new();
    let mut hashes: Vec<BlockHash> = Vec::new();
    let prefix: [u8; 1] = [BLOCK_CODE];
    let rows = store.scan(&prefix);
    let ghost found = rows_of_blocks(store.rows());
    assert(prefix@ =~= seq![BLOCK_CODE]);
    for i in 0..rows.len()
        invariant
            row_views(rows@) == found,
            forall|j: int| 0 <= j < found.len() ==> #[trigger] key_readable(found[j]),
            seen.wf(),
            hashes@.no_duplicates(),
            forall|hash: BlockHash| #[trigger]
                hashes@.contains(hash) <==> seen@.contains_key(hash),
            forall|hash: BlockHash| #[trigger]
                seen@.contains_key(hash) <==> exists|j: int|
                    0 <= j < i && hash == #[trigger] hash_in_key(found[j]),
    {
        assert(found[i as int] == rows[i as int]@);
        assert(key_readable(found[i as int]));
        let hash = bincode_read_hash_key(rows[i].key.as_slice()).unwrap().1;
        proof {
            lemma_hash_in(hash);
        }
        assert(hash == hash_in_key(found[i as int]));
        let ghost (before, known) = (hashes@, seen@);
        if seen.get(&hash).is_none() {
            hashes.push(hash);
            seen.insert(hash, ());
            assert(hashes@.last() == hash);
            assert(!before.contains(hash));
            assert forall|j: int, k: int| 0 <= j < hashes.len() && 0 <= k < hashes.len() && j != k
                implies hashes@[j] != hashes@[k] by {
                assert(j < before.len() ==> before.contains(hashes@[j]));
                assert(k < before.len() ==> before.contains(hashes@[k]));
            }
            assert forall|other: BlockHash| #[trigger] hashes@.contains(other) implies known.insert(
                hash,
                (),
            ).contains_key(other) by {
                if other != hash {
                    assert(before.contains(other));
                }
            }
            assert forall|other: BlockHash| known.insert(hash, ()).contains_key(
                other,
            ) implies #[trigger] hashes@.contains(other) by {
                if other != hash {
                    assert(before.contains(other));
                    let k = choose|k: int| 0 <= k < before.len() && before[k] == other;
                    assert(hashes@[k] == other);
                }
            }
        }
    }
    hashes
}

/// The hash of the last indexed block, the null hash if there is none; nothing if what lies
/// there is no hash.
fn read_indexed_tip<S: ReadStore>(store: &S) -> (tip: Option<BlockHash>)
    ensures
        tip == indexed_tip(store.rows()),
{
    let key: [u8; 1] = [LAST_BLOCK_CODE];
    assert(key@ =~= seq![LAST_BLOCK_CODE]);
    match store.get(&key) {
        Some(value) => {
            let tip = deserialize_blockhash(value.as_slice());
            proof {
                if tip is Some {
                    lemma_hash_in(tip.unwrap());
                }
            }
            tip
        },
        None => Some(default_hash()),
    }
}

/// The headers in the block rows, each under its hash; nothing if one of the rows cannot be
/// read.
fn read_header_map<S: ReadStore>(store: &S) -> (map: Option<Table<BlockHash, BlockHeader>>)
    ensures
        map is Some <==> forall|i: int|
            0 <= i < rows_of_blocks(store.rows()).len() ==> #[trigger] block_row_readable(
                rows_of_blocks(store.rows())[i],
            ),
        map is Some ==> map.unwrap().wf() && map.unwrap()@ == header_map(
            rows_of_blocks(store.rows()),
        ),
{
    let prefix: [u8; 1] = [BLOCK_CODE];
    assert(prefix@ =~= seq![BLOCK_CODE]);
    let rows = store.scan(&prefix);
    let ghost found = rows_of_blocks(store.rows());
    let mut map: Table<BlockHash, BlockHeader> = Table::new();
    assert(found.take(0) =~= Seq::empty());
    for i in 0..rows.len()
        invariant
            found == rows_of_blocks(store.rows()),
            row_views(rows@) == found,
            forall|j: int| 0 <= j < i ==> #[trigger] block_row_readable(found[j]),
            map.wf(),
            map@ == header_map(found.take(i as int)),
    {
        assert(found[i as int] == rows[i as int]@);
        let (key, header) = match (
            bincode_read_hash_key(rows[i].key.as_slice()),
            deserialize_header(rows[i].value.as_slice()),
        ) {
            (Some(key), Ok(header)) => (key, header),
            _ => {
                assert(!block_row_readable(found[i as int]));
                return None;
            },
        };
        proof {
            lemma_hash_in(key.1);
            lemma_header_in(header);
        }
        map.insert(key.1, header);
        assert(found.take(i + 1).drop_last() =~= found.take(i as int));
    }
    assert(found.take(found.len() as int) =~= found);
    Some(map)
}

/// The headers from the first block to the one with this hash; nothing if one is missing.
fn walk_back(map: Table<BlockHash, BlockHeader>, hash: BlockHash) -> (headers: Option<
    Vec<BlockHeader>,
>)
    requires
        map.wf(),
        map@.dom().finite(),
    ensures
        headers is Some <==> path_to(map@, hash) is Some,
        headers is Some ==> headers.unwrap()@ == path_to(map@, hash).unwrap(),
{
    let ghost full = map@;
    let mut left = map;
    let mut descending: Vec<BlockHeader> = Vec::new();
    let mut blockhash = hash;
    assert(path_to(full, hash) is Some ==> path_to(full, hash).unwrap() + descending@.reverse()
        =~= path_to(full, hash).unwrap());
    while !same_hash(&blockhash, &default_hash())
        invariant
            full == map@,
            full.dom().finite(),
            left.wf(),
            left@.dom().finite(),
            path_to(full, hash) is Some <==> path_to(left@, blockhash) is Some,
            path_to(full, hash) is Some ==> path_to(full, hash).unwrap() == path_to(
                left@,
                blockhash,
            ).unwrap() + descending@.reverse(),
        decreases left@.dom().len(),
    {
        let ghost before = descending@;
        let ghost rest = path_to(left@.remove(blockhash), left@[blockhash].prev_blockhash);
        let header = match left.remove(&blockhash) {
            Some(header) => header,
            None => {
                return None;
            },
        };
        blockhash = header.prev_blockhash;
        descending.push(header);
        assert(rest is Some ==> rest.unwrap().push(header) + before.reverse() =~= rest.unwrap()
            + descending@.reverse());
    }
    let mut headers: Vec<BlockHeader> = Vec::new();
    for i in 0..descending.len()
        invariant
            headers@ =~= descending@.reverse().take(i as int),
    {
        headers.push(descending[descending.len() - 1 - i]);
    }
    assert(headers@ =~= descending@.reverse());
    assert(path_to(full, hash).unwrap() =~= headers@);
    Some(headers)
}

/// The chain of the indexed blocks; nothing if what the store holds is no such chain.
pub fn read_indexed_headers<S: ReadStore>(store: &S) -> (list: Option<HeaderList>)
    ensures
        list is Some <==> indexed_headers(store.rows()) is Some,
        list is Some ==> list.unwrap().wf() && list.unwrap()@ == entries_from(
            indexed_headers(store.rows()).unwrap(),
            0,
        ),
{
    let latest_blockhash = match read_indexed_tip(store) {
        Some(hash) => hash,
        None => {
            return None;
        },
    };
    let map = match read_header_map(store) {
        Some(map) => map,
        None => {
            return None;
        },
    };
    proof {
        lemma_header_map_finite(rows_of_blocks(store.rows()));
    }
    let ghost full = map@;
    let headers = match walk_back(map, latest_blockhash) {
        Some(headers) => headers,
        None => {
            return None;
        },
    };
    let tip = if headers.len() == 0 {
        default_hash()
    } else {
        headers[headers.len() - 1].block_hash()
    };
    if !same_hash(&tip, &latest_blockhash) {
        return None;
    }
    proof {
        lemma_path_starts(full, latest_blockhash);
    }
    let mut list = HeaderList::empty();
    let entries = match list.order(&headers) {
        Some(entries) => entries,
        None => {
            return None;
        },
    };
    assert(entries@ =~= entries_from(headers@, 0));
    proof {
        lemma_entries_linked(headers@);
    }
    assert(list@.take(0) =~= Seq::empty());
    list.apply(&entries, latest_blockhash);
    assert(list@ =~= entries@);
    Some(list)
}

proof fn lemma_entries_linked(headers: Seq<BlockHeader>)
    requires
        headers_linked(headers),
        headers.len() <= usize::MAX,
    ensures
        linked(entries_from(headers, 0)),
{
    let entries = entries_from(headers, 0);
    assert forall|i: int| 0 < i < entries.len() implies #[trigger] follows(entries, i) by {
        assert(header_follows(headers, i));
    }
}

/// The rows of a batch of blocks, each with the row that names it the last indexed one:
/// nothing if one of the blocks is not among the new ones.
pub open spec fn batch_rows(
    new: Seq<HeaderEntry>,
    blocks: Seq<BlockView>,
    accounts: Seq<Seq<Option<RowView>>>,
) -> Option<Seq<RowView>>
    decreases blocks.len(),
{
    if blocks.len() == 0 {
        Some(Seq::empty())
    } else {
        let block = blocks.last();
        let hash = block.header.spec_block_hash();
        match (batch_rows(new, blocks.drop_last(), accounts), entry_of(new, hash)) {
            (Some(rows), Some(entry)) => Some(
                rows + block_rows(block, entry.height as u32, accounts[blocks.len() - 1]).push(
                    last_block_row(hash),
                ),
            ),
            _ => None,
        }
    }
}

/// The size of a transaction by which the sizes of indexed transactions are counted: a quarter
/// of its weight, in whole units.
pub fn tx_vsize(tx: &Transaction) -> (vsize: i64)
    requires
        tx.weight <= i64::MAX,
    ensures
        vsize == tx.weight as int / 4,
{
    tx.weight as i64 / 4
}

/// The contents of the account rows of each block.
pub open spec fn accounts_views(rows: Seq<Vec<Option<Row>>>) -> Seq<Seq<Option<RowView>>> {
    rows.map_values(|rows: Vec<Option<Row>>| account_views(rows@))
}

/// The hashes of the entries.
pub open spec fn entry_hashes(entries: Seq<HeaderEntry>) -> Seq<BlockHash> {
    entries.map_values(|entry: HeaderEntry| entry.hash)
}

/// The new blocks that an index is about to take in, and how many of them have been asked for.
pub struct IndexUpdate {
    new_headers: Vec<HeaderEntry>,
    places: Table<BlockHash, usize>,
    tip: BlockHash,
    batch_size: usize,
    asked: usize,
}

impl IndexUpdate {
    /// The new blocks.
    pub closed spec fn spec_new_headers(&self) -> Seq<HeaderEntry> {
        self.new_headers@
    }

    /// The last block of the chain after the update.
    pub closed spec fn spec_tip(&self) -> BlockHash {
        self.tip
    }

    /// How many blocks are asked for at a time.
    pub closed spec fn spec_batch_size(&self) -> usize {
        self.batch_size
    }

    /// The hashes of the new blocks that have not been asked for.
    pub closed spec fn remaining(&self) -> Seq<BlockHash> {
        entry_hashes(self.new_headers@).skip(self.asked as int)
    }

    /// At least one block is asked for at a time, and no more than there are.
    pub closed spec fn wf(&self) -> bool {
        &&& self.asked <= self.new_headers.len()
        &&& self.batch_size > 0
        &&& self.places.wf()
        &&& holds_places(self.places@, self.new_headers@)
    }

    /// The new blocks.
    pub fn new_headers(&self) -> (headers: &Vec<HeaderEntry>)
        ensures
            headers@ == self.spec_new_headers(),
    {
        &self.new_headers
    }

    /// The hashes of the next blocks to fetch; there are none once all have been asked for.
    pub fn next_batch(&mut self) -> (batch: Vec<BlockHash>)
        requires
            old(self).wf(),
        ensures
            final(self).wf(),
            final(self).spec_new_headers() == old(self).spec_new_headers(),
            final(self).spec_tip() == old(self).spec_tip(),
            final(self).spec_batch_size() == old(self).spec_batch_size(),
            old(self).remaining() == batch@ + final(self).remaining(),
            batch.len() == if old(self).remaining().len() < old(self).spec_batch_size() {
                old(self).remaining().len()
            } else {
                old(self).spec_batch_size() as nat
            },
    {
        let left: usize = self.new_headers.len() - self.asked;
        let count: usize = if left < self.batch_size { left } else { self.batch_size };
        let mut batch: Vec<BlockHash> = Vec::new();
        for i in 0..count
            invariant
                self.asked + count <= self.new_headers.len(),
                batch@ =~= entry_hashes(self.new_headers@).subrange(
                    self.asked as int,
                    self.asked + i,
                ),
        {
            batch.push(self.new_headers[self.asked + i].hash);
        }
        self.asked = self.asked + count;
        assert(old(self).remaining() =~= batch@ + self.remaining());
        batch
    }

    /// The height of a new block, by its hash; none of any other block.
    pub fn height_of(&self, blockhash: &BlockHash) -> (height: Option<usize>)
        requires
            self.wf(),
        ensures
            match entry_of(self.spec_new_headers(), *blockhash) {
                Some(entry) => height == Some(entry.height),
                None => height is None,
            },
    {
        proof {
            lemma_place_of(self.spec_new_headers(), *blockhash);
        }
        match self.places.get(blockhash) {
            Some(place) => Some(self.new_headers[*place].height),
            None => None,
        }
    }

    /// The rows of a batch of the new blocks, to be written in this order: nothing if one of
    /// them is not a new block.
    pub fn batch_rows(&self, blocks: &Vec<Block>, cashaccounts: &Vec<Vec<Option<Row>>>) -> (rows:
        Option<Vec<Row>>)
        requires
            self.wf(),
            cashaccounts.len() == blocks.len(),
            forall|i: int|
                0 <= i < blocks.len() ==> (#[trigger] blocks[i])@.hashable()
                    && cashaccounts[i].len() == blocks[i].txdata.len(),
        ensures
            rows is Some <==> batch_rows(
                self.spec_new_headers(),
                block_views(blocks@),
                accounts_views(cashaccounts@),
            ) is Some,
            rows is Some ==> row_views(rows.unwrap()@) == batch_rows(
                self.spec_new_headers(),
                block_views(blocks@),
                accounts_views(cashaccounts@),
            ).unwrap(),
    {
        let mut rows: Vec<Row> = Vec::new();
        let ghost views = block_views(blocks@);
        let ghost accounts = accounts_views(cashaccounts@);
        assert(views.take(views.len() as int) =~= views);
        assert(row_views(rows@) =~= Seq::empty());
        for i in 0..blocks.len()
            invariant
                self.wf(),
                cashaccounts.len() == blocks.len(),
                forall|j: int|
                    0 <= j < blocks.len() ==> (#[trigger] blocks[j])@.hashable()
                        && cashaccounts[j].len() == blocks[j].txdata.len(),
                views == block_views(blocks@),
                accounts == accounts_views(cashaccounts@),
                batch_rows(self.spec_new_headers(), views.take(i as int), accounts) == Some(row_views(rows@)),
                views.take(views.len() as int) == views,
        {
            assert(views.take(i + 1).drop_last() =~= views.take(i as int));
            assert(views[i as int] == blocks[i as int]@);
            assert(accounts[i as int] == account_views(cashaccounts[i as int]@));
            let ghost before = row_views(rows@);
            let blockhash = blocks[i].header.block_hash();
            let height: u32 = match self.height_of(&blockhash) {
                Some(height) => height as u32,
                None => {
                    proof {
                        lemma_batch_rows_take(self.spec_new_headers(), views, accounts, i + 1);
                    }
                    return None;
                },
            };
            let mut found = index_block(&blocks[i], height, &cashaccounts[i]);
            let ghost of_block = row_views(found@);
            rows.append(&mut found);
            rows.push(last_indexed_block(&blockhash));
            assert(row_views(rows@) =~= before + of_block.push(last_block_row(blockhash)));
        }
        Some(rows)
    }
}

/// There are no rows of a batch if there are none of the first blocks of it.
proof fn lemma_batch_rows_take(
    new: Seq<HeaderEntry>,
    blocks: Seq<BlockView>,
    accounts: Seq<Seq<Option<RowView>>>,
    n: int,
)
    requires
        0 <= n <= blocks.len(),
        batch_rows(new, blocks.take(n), accounts) is None,
    ensures
        batch_rows(new, blocks, accounts) is None,
    decreases blocks.len() - n,
{
    if n < blocks.len() {
        assert(blocks.take(n + 1).drop_last() =~= blocks.take(n));
        lemma_batch_rows_take(new, blocks, accounts, n + 1);
    } else {
        assert(blocks.take(n) =~= blocks);
    }
}

/// The chain of the indexed blocks, and how further blocks are indexed.
pub struct Index {
    headers: HeaderList,
    batch_size: usize,
    cashaccount_activation_height: u32,
}

impl View for Index {
    type V = Seq<HeaderEntry>;

    closed spec fn view(&self) -> Seq<HeaderEntry> {
        self.headers@
    }
}

impl Index {
    /// The indexed blocks are a chain.
    pub closed spec fn wf(&self) -> bool {
        self.headers.wf()
    }

    /// The indexed blocks are a chain, each at its height.
    pub proof fn lemma_heights(&self)
        requires
            self.wf(),
        ensures
            chain_wf(self@),
    {
    }

    /// How many blocks are fetched at a time.
    pub closed spec fn spec_batch_size(&self) -> usize {
        self.batch_size
    }

    /// From which height on account registrations are indexed.
    pub closed spec fn spec_activation_height(&self) -> u32 {
        self.cashaccount_activation_height
    }

    /// An index over the chain that the store holds; nothing if what the store holds is no
    /// chain.
    pub fn load<S: ReadStore>(
        store: &S,
        batch_size: usize,
        cashaccount_activation_height: u32,
    ) -> (index: Option<Index>)
        ensures
            index is Some <==> indexed_headers(store.rows()) is Some,
            index is Some ==> {
                &&& index.unwrap().wf()
                &&& index.unwrap()@ == entries_from(indexed_headers(store.rows()).unwrap(), 0)
                &&& index.unwrap().spec_batch_size() == batch_size
                &&& index.unwrap().spec_activation_height() == cashaccount_activation_height
            },
    {
        match read_indexed_headers(store) {
            Some(headers) => Some(Index { headers, batch_size, cashaccount_activation_height }),
            None => None,
        }
    }

    /// Takes the chain anew from the store, and says whether the store holds one; the index
    /// stays as it is if it does not.
    pub fn reload<S: ReadStore>(&mut self, store: &S) -> (reloaded: bool)
        requires
            old(self).wf(),
        ensures
            final(self).wf(),
            reloaded == (indexed_headers(store.rows()) is Some),
            final(self)@ == if reloaded {
                entries_from(indexed_headers(store.rows()).unwrap(), 0)
            } else {
                old(self)@
            },
            final(self).spec_batch_size() == old(self).spec_batch_size(),
            final(self).spec_activation_height() == old(self).spec_activation_height(),
    {
        match read_indexed_headers(store) {
            Some(headers) => {
                self.headers = headers;
                true
            },
            None => false,
        }
    }

    /// How many blocks are fetched at a time.
    pub fn batch_size(&self) -> (size: usize)
        ensures
            size == self.spec_batch_size(),
    {
        self.batch_size
    }

    /// From which height on account registrations are indexed.
    pub fn cashaccount_activation_height(&self) -> (height: u32)
        ensures
            height == self.spec_activation_height(),
    {
        self.cashaccount_activation_height
    }

    /// The indexed blocks.
    pub fn headers(&self) -> (headers: &HeaderList)
        requires
            self.wf(),
        ensures
            headers.wf(),
            headers@ == self@,
    {
        &self.headers
    }

    /// The last indexed block.
    pub fn best_header(&self) -> (entry: Option<HeaderEntry>)
        requires
            self.wf(),
        ensures
            entry == entry_of(self@, tip_of(self@)),
    {
        self.get_header_by_blockhash(&self.headers.tiphash())
    }

    /// The block at `height`.
    pub fn get_header(&self, height: usize) -> (entry: Option<HeaderEntry>)
        ensures
            entry == if height < self@.len() {
                Some(self@[height as int])
            } else {
                None
            },
    {
        self.headers.header_by_height(height)
    }

    /// The block with this hash.
    pub fn get_header_by_blockhash(&self, blockhash: &BlockHash) -> (entry: Option<HeaderEntry>)
        requires
            self.wf(),
        ensures
            entry == entry_of(self@, *blockhash),
    {
        self.headers.header_by_blockhash(blockhash)
    }

    /// Begins to take in new headers, given in ascending order, after which `tip` is to be the
    /// last block: nothing if they do not belong on top of this chain.
    pub fn update(&self, new_headers: &Vec<BlockHeader>, tip: BlockHash) -> (update: Option<
        IndexUpdate,
    >)
        requires
            self.wf(),
            self.spec_batch_size() > 0,
        ensures
            update is Some <==> ordered(self@, new_headers@) is Some,
            update is Some ==> {
                &&& update.unwrap().wf()
                &&& update.unwrap().spec_new_headers() == ordered(self@, new_headers@).unwrap()
                &&& update.unwrap().remaining() == entry_hashes(update.unwrap().spec_new_headers())
                &&& update.unwrap().spec_tip() == tip
                &&& update.unwrap().spec_batch_size() == self.spec_batch_size()
            },
    {
        match self.headers.order(new_headers) {
            Some(new_headers) => {
                let places = places(&new_headers);
                assert(entry_hashes(new_headers@).skip(0) =~= entry_hashes(new_headers@));
                Some(
                    IndexUpdate {
                        new_headers,
                        places,
                        tip,
                        batch_size: self.batch_size,
                        asked: 0,
                    },
                )
            },
            None => None,
        }
    }

    /// Takes the new blocks into the chain once their rows are written, and gives the last
    /// block: nothing, with the chain as it was, if they do not continue this chain up to the
    /// tip, or no block would be left.
    pub fn finish(&mut self, update: &IndexUpdate) -> (tip: Option<HeaderEntry>)
        requires
            old(self).wf(),
        ensures
            final(self).wf(),
            tip is Some <==> continues(old(self)@, update.spec_new_headers(), update.spec_tip()) && applied(
                old(self)@,
                update.spec_new_headers(),
                update.spec_tip(),
            ).len() > 0,
            final(self)@ == if tip is Some {
                applied(old(self)@, update.spec_new_headers(), update.spec_tip())
            } else {
                old(self)@
            },
            tip is Some ==> tip == Some(final(self)@.last()) && tip.unwrap().hash
                == update.spec_tip(),
            final(self).spec_batch_size() == old(self).spec_batch_size(),
            final(self).spec_activation_height() == old(self).spec_activation_height(),
    {
        if !self.headers.accepts(&update.new_headers, &update.tip) {
            return None;
        }
        if update.new_headers.len() == 0 && same_hash(&update.tip, &default_hash()) {
            return None;
        }
        proof {
            lemma_place_of(self@, update.tip);
        }
        self.headers.apply(&update.new_headers, update.tip);
        self.headers.tip()
    }
}

/// New headers that [`Index::update`] has ordered and that end at the tip continue the chain.
pub proof fn law_ordered_continues(
    chain: Seq<HeaderEntry>,
    headers: Seq<BlockHeader>,
    tip: BlockHash,
)
    requires
        chain_wf(chain),
        ordered(chain, headers) is Some,
        headers.len() > 0,
        headers.last().spec_block_hash() == tip,
    ensures
        continues(chain, ordered(chain, headers).unwrap(), tip),
{
    let new = ordered(chain, headers).unwrap();
    let prev = headers[0].prev_blockhash;
    let base = next_height(chain, prev).unwrap();
    lemma_place_of(chain, prev);
    assert(new == entries_from(headers, base));
    assert forall|i: int| 0 < i < new.len() implies #[trigger] follows(new, i) by {
        assert(header_follows(headers, i));
    }
    if prev != null_hash() {
        assert(chain.take(base).last() == chain[base - 1]);
    }
}

} // verus!
