use electrscash::chain::{Block, BlockHeader, OutPoint, Transaction, TxIn, TxOut};
use electrscash::db::inputs::get_txin;
use electrscash::db::outputs::get_txouts;
use electrscash::index::{
    index_block, index_transaction, last_indexed_block, read_indexed_blockhashes,
    read_indexed_headers, tx_vsize, Index,
};
use electrscash::scripthash::compute_script_hash;
use electrscash::store::{MemoryStore, ReadStore, Row};
use electrscash::util::HeaderList;

fn header(prev: [u8; 32], nonce: u32) -> BlockHeader {
    BlockHeader {
        version: 1,
        prev_blockhash: prev,
        merkle_root: [0; 32],
        time: 0,
        bits: 0,
        nonce,
    }
}

fn chain(prev: [u8; 32], nonces: std::ops::Range<u32>) -> Vec<BlockHeader> {
    let mut prev = prev;
    let mut headers = vec![];
    for nonce in nonces {
        let next = header(prev, nonce);
        prev = next.block_hash();
        headers.push(next);
    }
    headers
}

fn transaction(txid: u8, spends: Vec<([u8; 32], u32)>, pays: Vec<(u64, u8)>) -> Transaction {
    Transaction {
        txid: [txid; 32],
        input: spends
            .into_iter()
            .map(|(txid, vout)| TxIn { previous_output: OutPoint { txid, vout } })
            .collect(),
        output: pays
            .into_iter()
            .map(|(value, script)| TxOut { value, script_pubkey: vec![script] })
            .collect(),
        weight: 400,
        raw: vec![txid],
    }
}

fn write(store: &mut MemoryStore, rows: Vec<Row>) {
    for row in rows {
        store.write(row);
    }
}

fn block(header: BlockHeader) -> Block {
    Block { header, txdata: vec![] }
}

#[test]
fn genesis_block_hash() {
    let mut merkle_root = [0u8; 32];
    merkle_root.copy_from_slice(
        &hex::decode("3ba3edfd7a7b12b27ac72c3e67768f617fc81bc3888a51323a9fb8aa4b1e5e4a").unwrap(),
    );
    let genesis = BlockHeader {
        version: 1,
        prev_blockhash: [0; 32],
        merkle_root,
        time: 1_231_006_505,
        bits: 0x1d00_ffff,
        nonce: 2_083_236_893,
    };
    let mut hash = genesis.block_hash();
    hash.reverse();
    assert_eq!(
        hex::encode(hash),
        "000000000019d6689c085ae165831e934ff763ae46a2a6c172b3f1b60a8ce26f"
    );
    let rows = index_block(&block(genesis), 0, &vec![]);
    assert_eq!(rows.len(), 1);
    assert_eq!(rows[0].key[0], b'B');
    assert_eq!(rows[0].key[1..], genesis.block_hash());
    assert_eq!(
        hex::encode(&rows[0].value),
        "0100000000000000000000000000000000000000000000000000000000000000000000003ba3edfd7a7b12b2\
         7ac72c3e67768f617fc81bc3888a51323a9fb8aa4b1e5e4a29ab5f49ffff001d1dac2b7c"
    );
}

#[test]
fn rows_of_a_transaction() {
    let tx = transaction(9, vec![([1; 32], 3), ([0; 32], 0)], vec![(50, 0x51), (60, 0x52)]);
    let account = Row { key: b"Caccount".to_vec(), value: vec![] };
    let rows = index_transaction(&tx, 7, Some(&account));
    let codes: Vec<u8> = rows.iter().map(|row| row.key[0]).collect();
    assert_eq!(codes, b"IOOC".to_vec());
    assert_eq!(index_transaction(&tx, 7, None).len(), 3);
    let mut store = MemoryStore::new();
    write(&mut store, rows);
    let spender = get_txin(&store, [1; 32], 3).unwrap();
    assert_eq!(*spender.get_txid(), [9; 32]);
    assert_eq!(spender.get_confirmed_height(), 7);
    assert!(get_txin(&store, [0; 32], 0).is_none());
    let found = get_txouts(&store, compute_script_hash(&[0x52]));
    assert_eq!(found.len(), 1);
    assert_eq!(found[0].get_output_index(), 1);
    assert_eq!(found[0].get_output_value(), 60);
}

#[test]
fn rows_of_a_block_end_with_its_header() {
    let block = Block {
        header: header([0; 32], 5),
        txdata: vec![
            transaction(1, vec![([0; 32], u32::MAX)], vec![(50, 0x51)]),
            transaction(2, vec![([1; 32], 0)], vec![(40, 0x52)]),
        ],
    };
    let rows = index_block(&block, 3, &vec![None, None]);
    let codes: Vec<u8> = rows.iter().map(|row| row.key[0]).collect();
    assert_eq!(codes, b"OIOB".to_vec());
}

#[test]
fn last_block_row() {
    let row = last_indexed_block(&[8; 32]);
    assert_eq!(row.key, b"L".to_vec());
    assert_eq!(row.value, vec![8; 32]);
}

#[test]
fn chain_is_read_back() {
    let headers = chain([0; 32], 0..5);
    let mut store = MemoryStore::new();
    assert_eq!(read_indexed_headers(&store).unwrap().len(), 0);
    for (height, header) in headers.iter().enumerate() {
        write(&mut store, index_block(&block(*header), height as u32, &vec![]));
        store.write(last_indexed_block(&header.block_hash()));
    }
    write(&mut store, index_block(&block(header([7; 32], 99)), 1, &vec![]));
    let list = read_indexed_headers(&store).unwrap();
    assert_eq!(list.len(), 5);
    for (height, header) in headers.iter().enumerate() {
        let entry = list.header_by_height(height).unwrap();
        assert_eq!(*entry.hash(), header.block_hash());
        assert_eq!(entry.height(), height);
    }
    assert_eq!(list.tiphash(), headers[4].block_hash());
    assert_eq!(read_indexed_blockhashes(&store).len(), 6);
}

#[test]
fn broken_chains_are_not_read() {
    let headers = chain([0; 32], 0..3);
    let full = || {
        let mut store = MemoryStore::new();
        for header in &headers {
            write(&mut store, index_block(&block(*header), 0, &vec![]));
        }
        store.write(last_indexed_block(&headers[2].block_hash()));
        store
    };
    assert!(read_indexed_headers(&full()).is_some());
    let key = |header: &BlockHeader| {
        let mut key = vec![b'B'];
        key.extend(&header.block_hash());
        key
    };
    let mut missing = full();
    missing.remove(&key(&headers[1]));
    assert!(read_indexed_headers(&missing).is_none());
    let mut other = full();
    other.write(Row { key: key(&headers[2]), value: full().get(&key(&headers[1])).unwrap() });
    assert!(read_indexed_headers(&other).is_none());
    let mut cut = full();
    cut.write(Row { key: key(&headers[0]), value: vec![0; 79] });
    assert!(read_indexed_headers(&cut).is_none());
    let mut short = full();
    short.write(Row { key: b"Bx".to_vec(), value: vec![0; 80] });
    assert!(read_indexed_headers(&short).is_none());
    let mut tip = full();
    tip.write(Row { key: b"L".to_vec(), value: vec![0; 31] });
    assert!(read_indexed_headers(&tip).is_none());
}

#[test]
fn update_in_batches_then_reload() {
    let headers = chain([0; 32], 0..5);
    let tip = headers[4].block_hash();
    let mut store = MemoryStore::new();
    let mut index = Index::load(&store, 2, 600_000).unwrap();
    assert_eq!(index.batch_size(), 2);
    assert_eq!(index.cashaccount_activation_height(), 600_000);
    assert!(index.best_header().is_none());
    let mut update = index.update(&headers, tip).unwrap();
    let mut asked = vec![];
    loop {
        let batch = update.next_batch();
        if batch.is_empty() {
            break;
        }
        assert!(batch.len() <= 2);
        let blocks: Vec<Block> = batch
            .iter()
            .map(|hash| block(*headers.iter().find(|h| h.block_hash() == *hash).unwrap()))
            .collect();
        let accounts: Vec<Vec<Option<Row>>> = blocks.iter().map(|_| vec![]).collect();
        asked.extend(batch);
        let rows = update.batch_rows(&blocks, &accounts).unwrap();
        assert_eq!(rows.len(), 2 * blocks.len());
        write(&mut store, rows);
    }
    let hashes: Vec<[u8; 32]> = headers.iter().map(|h| h.block_hash()).collect();
    assert_eq!(asked, hashes);
    assert_eq!(store.get(b"L"), Some(tip.to_vec()));
    assert_eq!(update.new_headers().len(), 5);
    let last = index.finish(&update).unwrap();
    assert_eq!((*last.hash(), last.height()), (tip, 4));
    assert_eq!(*index.best_header().unwrap().hash(), tip);
    assert_eq!(*index.get_header(3).unwrap().hash(), hashes[3]);
    assert!(index.get_header(5).is_none());
    assert_eq!(index.get_header_by_blockhash(&hashes[2]).unwrap().height(), 2);
    assert!(index.reload(&store));
    assert_eq!(*index.best_header().unwrap().hash(), tip);
    assert_eq!(index.headers().len(), 5);
}

#[test]
fn update_onto_an_earlier_block() {
    let headers = chain([0; 32], 0..4);
    let mut store = MemoryStore::new();
    for (height, header) in headers.iter().enumerate() {
        write(&mut store, index_block(&block(*header), height as u32, &vec![]));
    }
    store.write(last_indexed_block(&headers[3].block_hash()));
    let mut index = Index::load(&store, 10, 0).unwrap();
    let branch = chain(headers[1].block_hash(), 100..103);
    let tip = branch[2].block_hash();
    let mut update = index.update(&branch, tip).unwrap();
    assert_eq!(update.new_headers()[0].height(), 2);
    assert_eq!(update.height_of(&tip), Some(4));
    assert_eq!(update.height_of(&headers[0].block_hash()), None);
    assert_eq!(update.next_batch().len(), 3);
    let blocks: Vec<Block> = branch.iter().map(|header| block(*header)).collect();
    let rows = update.batch_rows(&blocks, &vec![vec![], vec![], vec![]]).unwrap();
    write(&mut store, rows);
    assert!(index.finish(&update).is_some());
    assert_eq!(index.headers().len(), 5);
    assert!(index.get_header_by_blockhash(&headers[2].block_hash()).is_none());
    let reloaded = read_indexed_headers(&store).unwrap();
    assert_eq!(reloaded.len(), 5);
    assert_eq!(reloaded.tiphash(), tip);
}

#[test]
fn updates_that_do_not_belong_are_refused() {
    let headers = chain([0; 32], 0..3);
    let store = MemoryStore::new();
    let mut index = Index::load(&store, 2, 0).unwrap();
    assert!(index.update(&headers[1..].to_vec(), headers[2].block_hash()).is_none());
    assert!(index.update(&vec![headers[0], headers[2]], headers[2].block_hash()).is_none());
    let update = index.update(&headers, headers[1].block_hash()).unwrap();
    assert!(index.finish(&update).is_none());
    assert!(index.best_header().is_none());
    let unknown = vec![block(header([0; 32], 77))];
    assert!(update.batch_rows(&unknown, &vec![vec![]]).is_none());
    let nothing = index.update(&vec![], [0; 32]).unwrap();
    assert!(index.finish(&nothing).is_none());
}

#[test]
fn header_list_shrinks_to_a_known_tip() {
    let headers = chain([0; 32], 0..4);
    let mut list = HeaderList::empty();
    assert!(list.is_empty());
    let entries = list.order(&headers).unwrap();
    assert!(list.accepts(&entries, &headers[3].block_hash()));
    assert!(!list.accepts(&entries, &headers[2].block_hash()));
    list.apply(&entries, headers[3].block_hash());
    assert_eq!(list.tip().unwrap().height(), 3);
    assert!(list.accepts(&vec![], &headers[1].block_hash()));
    assert!(!list.accepts(&vec![], &[9; 32]));
    list.apply(&vec![], headers[1].block_hash());
    assert_eq!(list.len(), 2);
    assert_eq!(list.tiphash(), headers[1].block_hash());
    assert!(list.header_by_blockhash(&headers[2].block_hash()).is_none());
    list.apply(&vec![], [0; 32]);
    assert!(list.is_empty());
}

#[test]
fn size_is_a_quarter_of_the_weight() {
    let mut tx = transaction(1, vec![], vec![]);
    assert_eq!(tx_vsize(&tx), 100);
    tx.weight = 403;
    assert_eq!(tx_vsize(&tx), 100);
}
