use electrscash::cache::TransactionCache;
use electrscash::chain::{Block, BlockHeader, OutPoint, Transaction, TxIn, TxOut};
use electrscash::db::cashaccounts::TxCashAccountRow;
use electrscash::db::inputs::TxInRow;
use electrscash::db::outputs::TxOutRow;
use electrscash::errors::Error;
use electrscash::index::{index_block, index_transaction, last_indexed_block, Index};
use electrscash::json::{parse_json, write_json, Json};
use electrscash::mempool::{MempoolEntry, Tracker, MEMPOOL_HEIGHT};
use electrscash::query::merkle::merklize;
use electrscash::query::status::{
    calc_balance, ConfirmationState, FundingOutput, SpendingInput, Status,
};
use electrscash::query::unconfirmed::UnconfirmedQuery;
use electrscash::query::{fee_bucket, Query};
use electrscash::scripthash::compute_script_hash;
use electrscash::store::{MemoryStore, Row};

const GENESIS_TX: &str = "01000000010000000000000000000000000000000000000000000000000000000000\
    000000ffffffff4d04ffff001d0104455468652054696d65732030332f4a616e2f32303039204368616e63656c6c\
    6f72206f6e206272696e6b206f66207365636f6e64206261696c6f757420666f722062616e6b73ffffffff0100f2\
    052a01000000434104678afdb0fe5548271967f1a67130b7105cd6a828e03909a67962e0ea1f61deb649f6bc3f4c\
    ef38c4f35504e51ec112de5c384df7ba0b8d578a4c702b6bf11d5fac00000000";

fn transaction(txid: u8, spends: Vec<(u8, u32)>, pays: Vec<(u64, u8)>) -> Transaction {
    Transaction {
        txid: [txid; 32],
        input: spends
            .into_iter()
            .map(|(txid, vout)| TxIn { previous_output: OutPoint { txid: [txid; 32], vout } })
            .collect(),
        output: pays
            .into_iter()
            .map(|(value, script)| TxOut { value, script_pubkey: vec![script] })
            .collect(),
        weight: 400,
        raw: vec![txid, 0xab],
    }
}

fn headers(count: u32) -> Vec<BlockHeader> {
    let mut prev_blockhash = [0; 32];
    let mut headers = vec![];
    for nonce in 0..count {
        let header = BlockHeader {
            version: 1,
            prev_blockhash,
            merkle_root: [0; 32],
            time: 0,
            bits: 0,
            nonce,
        };
        prev_blockhash = header.block_hash();
        headers.push(header);
    }
    headers
}

fn write(store: &mut MemoryStore, rows: Vec<Row>) {
    for row in rows {
        store.write(row);
    }
}

fn store_with_chain(count: u32) -> MemoryStore {
    let mut store = MemoryStore::new();
    for header in headers(count) {
        write(&mut store, index_block(&Block { header, txdata: vec![] }, 0, &vec![]));
        store.write(last_indexed_block(&header.block_hash()));
    }
    store
}

fn funding(txid: u8, index: u32, value: u64, height: u32, state: ConfirmationState) -> FundingOutput {
    let output = TxOut { value, script_pubkey: vec![0x51] };
    FundingOutput { txout: TxOutRow::new([txid; 32], &output, index, height), state }
}

fn spending(txid: u8, prev: (u8, u32), value: u64, height: u32, state: ConfirmationState) -> SpendingInput {
    let previous_output = OutPoint { txid: [prev.0; 32], vout: prev.1 };
    SpendingInput {
        txin: TxInRow::new([txid; 32], &TxIn { previous_output }, height),
        funding_output: previous_output,
        value,
        state,
    }
}

fn never() -> Result<(), Error> {
    Ok(())
}

fn always() -> Result<(), Error> {
    Err(Error::message("timeout"))
}

fn message<T>(result: Result<T, Error>) -> String {
    match result {
        Err(Error::Message(text)) => text,
        _ => panic!("no message"),
    }
}

fn chain<T>(result: Result<T, Error>) -> Vec<String> {
    match result {
        Err(error) => error.chain().into_iter().map(|text| text.to_owned()).collect(),
        Ok(_) => panic!("no error"),
    }
}

#[test]
fn balances_are_what_is_funded_less_what_is_spent() {
    let status = Status {
        confirmed: (
            vec![
                funding(1, 0, 700, 5, ConfirmationState::Confirmed),
                funding(2, 1, 300, 6, ConfirmationState::Confirmed),
            ],
            vec![spending(3, (1, 0), 700, 7, ConfirmationState::Confirmed)],
        ),
        mempool: (vec![], vec![spending(4, (2, 1), 300, MEMPOOL_HEIGHT, ConfirmationState::InMempool)]),
    };
    assert_eq!(status.confirmed_balance(), 300);
    assert_eq!(status.mempool_balance(), -300);
    assert_eq!(calc_balance(&(vec![], vec![])), 0);
}

#[test]
fn history_is_in_order() {
    let status = Status {
        confirmed: (
            vec![
                funding(1, 0, 1, 9, ConfirmationState::Confirmed),
                funding(1, 1, 1, 9, ConfirmationState::Confirmed),
                funding(2, 0, 1, 9, ConfirmationState::Confirmed),
                funding(3, 0, 1, 4, ConfirmationState::Confirmed),
            ],
            vec![spending(4, (3, 0), 1, 12, ConfirmationState::Confirmed)],
        ),
        mempool: (
            vec![funding(6, 0, 1, MEMPOOL_HEIGHT, ConfirmationState::UnconfirmedParent)],
            vec![
                spending(5, (1, 0), 1, MEMPOOL_HEIGHT, ConfirmationState::InMempool),
                spending(7, (1, 1), 1, MEMPOOL_HEIGHT, ConfirmationState::InMempool),
            ],
        ),
    };
    assert_eq!(
        status.history(),
        vec![
            (4, [3; 32]),
            (9, [2; 32]),
            (9, [1; 32]),
            (12, [4; 32]),
            (0, [7; 32]),
            (0, [5; 32]),
            (-1, [6; 32]),
        ]
    );
}

#[test]
fn later_height_of_a_transaction_counts() {
    let status = Status {
        confirmed: (
            vec![funding(1, 0, 1, 9, ConfirmationState::Confirmed)],
            vec![spending(1, (2, 0), 1, 10, ConfirmationState::Confirmed)],
        ),
        mempool: (vec![], vec![]),
    };
    assert_eq!(status.history(), vec![(10, [1; 32])]);
}

#[test]
fn status_hash_is_that_of_the_history() {
    let status = Status {
        confirmed: (vec![funding(0x11, 0, 1, 5, ConfirmationState::Confirmed)], vec![]),
        mempool: (
            vec![],
            vec![spending(0x22, (0x11, 0), 1, MEMPOOL_HEIGHT, ConfirmationState::InMempool)],
        ),
    };
    assert_eq!(status.history(), vec![(5, [0x11; 32]), (0, [0x22; 32])]);
    assert_eq!(
        hex::encode(status.hash().unwrap()),
        "1772190f77daa5040188d3946ff72427585fe00e8372ba4653a0a8f8a2e2248e"
    );
    let empty = Status { confirmed: (vec![], vec![]), mempool: (vec![], vec![]) };
    assert!(empty.hash().is_none());
}

#[test]
fn spent_outputs_are_not_unspent() {
    let status = Status {
        confirmed: (
            vec![
                funding(1, 0, 10, 9, ConfirmationState::Confirmed),
                funding(1, 1, 20, 9, ConfirmationState::Confirmed),
                funding(2, 0, 30, 4, ConfirmationState::Confirmed),
            ],
            vec![spending(3, (1, 0), 10, 11, ConfirmationState::Confirmed)],
        ),
        mempool: (
            vec![funding(4, 0, 40, MEMPOOL_HEIGHT, ConfirmationState::InMempool)],
            vec![spending(5, (9, 9), 1, MEMPOOL_HEIGHT, ConfirmationState::InMempool)],
        ),
    };
    let values: Vec<u64> = status.unspent().iter().map(|output| output.value()).collect();
    assert_eq!(values, vec![30, 20, 40]);
}

#[test]
fn status_of_a_script() {
    let mut store = store_with_chain(1);
    write(&mut store, index_transaction(&transaction(1, vec![], vec![(100, 0x51), (5, 0x52)]), 3, None));
    write(&mut store, index_transaction(&transaction(2, vec![(1, 0)], vec![(90, 0x51)]), 4, None));
    let index = Index::load(&store, 1, 0).unwrap();
    let mut tracker = Tracker::new();
    tracker.add(transaction(3, vec![(2, 0)], vec![(80, 0x51)]), MempoolEntry::new(10, 100));
    tracker.add(transaction(4, vec![(3, 0)], vec![(70, 0x51)]), MempoolEntry::new(10, 100));
    let query = Query { store: &store, index: &index, tracker: &tracker };
    let script = compute_script_hash(&[0x51]);
    assert!(query.is_status_sound(script));
    let status = query.status(&script, &never).unwrap();
    assert_eq!(status.confirmed.0.len(), 2);
    assert_eq!(status.confirmed.1.len(), 1);
    assert_eq!(status.confirmed.1[0].value, 100);
    assert_eq!(status.confirmed_balance(), 90);
    assert_eq!(status.mempool_balance(), (80 + 70) - (90 + 80));
    assert_eq!(
        status.history(),
        vec![(3, [1; 32]), (4, [2; 32]), (0, [3; 32]), (-1, [4; 32])]
    );
    assert_eq!(status.unspent().len(), 1);
    assert_eq!(*status.unspent()[0].txid(), [4; 32]);
    assert_eq!(
        chain(query.status(&script, &always)),
        vec!["failed to get confirmed status", "timeout"]
    );
    let waiting = compute_script_hash(&[0x99]);
    assert!(query.status(&waiting, &always).unwrap().history().is_empty());
}

#[test]
fn balance_is_what_is_unspent() {
    let mut store = store_with_chain(1);
    write(&mut store, index_transaction(&transaction(1, vec![], vec![(100, 0x51), (7, 0x51)]), 3, None));
    write(&mut store, index_transaction(&transaction(2, vec![(1, 0)], vec![(90, 0x51)]), 4, None));
    let index = Index::load(&store, 1, 0).unwrap();
    let mut tracker = Tracker::new();
    tracker.add(transaction(3, vec![(1, 1)], vec![(5, 0x51)]), MempoolEntry::new(2, 100));
    let query = Query { store: &store, index: &index, tracker: &tracker };
    let status = query.status(&compute_script_hash(&[0x51]), &never).unwrap();
    let unspent: u64 = status.unspent().iter().map(|output| output.value()).sum();
    assert_eq!(unspent, 95);
    assert_eq!(status.confirmed_balance() + status.mempool_balance(), 95);
}

#[test]
fn timeout_in_the_mempool() {
    let store = store_with_chain(1);
    let index = Index::load(&store, 1, 0).unwrap();
    let mut tracker = Tracker::new();
    tracker.add(transaction(3, vec![(2, 0)], vec![(80, 0x51)]), MempoolEntry::new(10, 100));
    let query = Query { store: &store, index: &index, tracker: &tracker };
    let script = compute_script_hash(&[0x51]);
    assert_eq!(
        chain(query.status(&script, &always)),
        vec!["failed to get mempool status", "timeout"]
    );
    let confirmed = query.begin_status(&script, &always).unwrap();
    assert_eq!(
        chain(query.finish_status(&script, confirmed, &always)),
        vec!["failed to get mempool status", "timeout"]
    );
    assert_eq!(message(query.mempool_status(script, &vec![], &always)), "timeout");
    let (funding, spending) = query.confirmed_status(script, &always).unwrap();
    assert!(funding.is_empty() && spending.is_empty());
}

#[test]
fn unreadable_rows_are_seen() {
    let mut store = store_with_chain(1);
    let tx = transaction(1, vec![], vec![(100, 0x51)]);
    write(&mut store, index_transaction(&tx, 3, None));
    let spender = transaction(2, vec![(1, 0)], vec![]);
    let mut rows = index_transaction(&spender, 4, None);
    rows[0].key.pop();
    write(&mut store, rows);
    let index = Index::load(&store, 1, 0).unwrap();
    let tracker = Tracker::new();
    let query = Query { store: &store, index: &index, tracker: &tracker };
    assert!(!query.is_status_sound(compute_script_hash(&[0x51])));
    assert!(query.is_status_sound(compute_script_hash(&[0x52])));
}

#[test]
fn headers_by_height() {
    let store = store_with_chain(4);
    let index = Index::load(&store, 1, 0).unwrap();
    let tracker = Tracker::new();
    let query = Query { store: &store, index: &index, tracker: &tracker };
    let chain = headers(4);
    let found = query.get_headers(&[2, 9, 0]);
    assert_eq!(found.len(), 2);
    assert_eq!(*found[0].hash(), chain[2].block_hash());
    assert_eq!(*found[1].hash(), chain[0].block_hash());
    assert_eq!(query.get_best_header().unwrap().height(), 3);
    assert_eq!(query.best_header().unwrap().height(), 3);
    let empty = MemoryStore::new();
    let none = Index::load(&empty, 1, 0).unwrap();
    let query = Query { store: &empty, index: &none, tracker: &tracker };
    assert!(query.best_header().is_none());
    assert_eq!(message(query.get_best_header()), "no headers indexed");
    assert_eq!(message(query.get_header_merkle_proof(0, 0)), "no headers indexed");
}

#[test]
fn merkle_proof_of_a_transaction() {
    let store = store_with_chain(2);
    let index = Index::load(&store, 1, 0).unwrap();
    let tracker = Tracker::new();
    let query = Query { store: &store, index: &index, tracker: &tracker };
    let txids = vec![[1; 32], [2; 32], [3; 32], [2; 32]];
    let (branch, pos) = query.get_merkle_proof(&[2; 32], 1, txids.clone()).unwrap();
    assert_eq!(pos, 1);
    assert_eq!(branch, vec![[1; 32], merklize([3; 32], [2; 32])]);
    assert_eq!(message(query.get_merkle_proof(&[2; 32], 2, txids.clone())), "missing block #2");
    let mut hash = headers(2)[1].block_hash();
    hash.reverse();
    assert_eq!(
        message(query.get_merkle_proof(&[9; 32], 1, txids.clone())),
        format!("missing txid {} in block {}", "09".repeat(32), hex::encode(hash))
    );
    let (txid, branch) = query.get_id_from_pos(1, 2, true, txids.clone()).unwrap();
    assert_eq!(txid, [3; 32]);
    assert_eq!(branch, vec![[2; 32], merklize([1; 32], [2; 32])]);
    assert_eq!(query.get_id_from_pos(1, 2, false, txids.clone()).unwrap(), ([3; 32], vec![]));
    assert_eq!(message(query.get_id_from_pos(5, 0, true, txids.clone())), "missing block #5");
    assert_eq!(
        message(query.get_id_from_pos(1, 4, true, txids)),
        "No tx in position #4 in block #1"
    );
    assert_eq!(query.get_block_header(1).unwrap().height(), 1);
}

#[test]
fn merkle_proof_of_a_header() {
    let store = store_with_chain(3);
    let index = Index::load(&store, 1, 0).unwrap();
    let tracker = Tracker::new();
    let query = Query { store: &store, index: &index, tracker: &tracker };
    let hashes: Vec<[u8; 32]> = headers(3).iter().map(|header| header.block_hash()).collect();
    let (branch, root) = query.get_header_merkle_proof(2, 2).unwrap();
    let left = merklize(hashes[0], hashes[1]);
    assert_eq!(branch, vec![hashes[2], left]);
    assert_eq!(root, merklize(left, merklize(hashes[2], hashes[2])));
    assert_eq!(query.get_header_merkle_proof(0, 1).unwrap(), (vec![hashes[1]], left));
    assert_eq!(message(query.get_header_merkle_proof(2, 1)), "cp_height #1 < height #2");
    assert_eq!(
        message(query.get_header_merkle_proof(2, 3)),
        "cp_height #3 above best block height #2"
    );
}

#[test]
fn first_use_of_a_script() {
    let mut store = store_with_chain(1);
    write(&mut store, index_transaction(&transaction(1, vec![], vec![(1, 0x51)]), 30, None));
    write(&mut store, index_transaction(&transaction(8, vec![], vec![(1, 0x51)]), 20, None));
    write(&mut store, index_transaction(&transaction(7, vec![], vec![(1, 0x51)]), 25, None));
    write(&mut store, index_transaction(&transaction(9, vec![], vec![(1, 0x51)]), 20, None));
    let index = Index::load(&store, 1, 0).unwrap();
    let mut tracker = Tracker::new();
    tracker.add(transaction(2, vec![], vec![(1, 0x51), (1, 0x52)]), MempoolEntry::new(1, 1));
    let query = Query { store: &store, index: &index, tracker: &tracker };
    let first = |script: u8| query.scripthash_first_use(compute_script_hash(&[script]));
    assert_eq!(first(0x51), (20, [8; 32]));
    assert_eq!(first(0x52), (MEMPOOL_HEIGHT, [2; 32]));
    assert_eq!(first(0x53), (0, [0; 32]));
}

#[test]
fn first_use_in_the_first_block() {
    let mut store = store_with_chain(1);
    write(&mut store, index_transaction(&transaction(5, vec![], vec![(1, 0x51)]), 5, None));
    write(&mut store, index_transaction(&transaction(3, vec![], vec![(1, 0x51)]), 0, None));
    write(&mut store, index_transaction(&transaction(4, vec![], vec![(1, 0x52)]), 0, None));
    let index = Index::load(&store, 1, 0).unwrap();
    let mut tracker = Tracker::new();
    let pays = vec![(1, 0x51), (1, 0x52), (1, 0x53)];
    tracker.add(transaction(2, vec![], pays), MempoolEntry::new(1, 1));
    let query = Query { store: &store, index: &index, tracker: &tracker };
    let first = |script: u8| query.scripthash_first_use(compute_script_hash(&[script]));
    assert_eq!(first(0x51), (0, [3; 32]));
    assert_eq!(first(0x52), (0, [4; 32]));
    assert_eq!(first(0x53), (MEMPOOL_HEIGHT, [2; 32]));
}

#[test]
fn transactions_that_register_an_account() {
    let mut store = store_with_chain(2);
    store.write(TxCashAccountRow::new([6; 32], b"alice", 1).to_row());
    let index = Index::load(&store, 1, 0).unwrap();
    let tracker = Tracker::new();
    let query = Query { store: &store, index: &index, tracker: &tracker };
    assert_eq!(query.get_cashaccount_txids("Alice", 1), Some(vec![[6; 32]]));
    let txns = vec![transaction(6, vec![], vec![]), transaction(7, vec![], vec![])];
    let found = query.get_cashaccount_txs(1, &txns, &vec![true, false]).unwrap();
    let mut hash = headers(2)[1].block_hash();
    hash.reverse();
    assert_eq!(
        write_json(&found),
        format!(
            "[{{\"blockhash\":\"{}\",\"height\":1,\"tx\":\"06ab\"}}]",
            hex::encode(hash)
        )
    );
    assert_eq!(
        message(query.get_cashaccount_txs(2, &txns, &vec![true, false])),
        "missing header at height 2"
    );
}

#[test]
fn transaction_with_its_block() {
    let store = store_with_chain(2);
    let index = Index::load(&store, 1, 0).unwrap();
    let tracker = Tracker::new();
    let query = Query { store: &store, index: &index, tracker: &tracker };
    let mut hash = headers(2)[1].block_hash();
    hash.reverse();
    let mut cache = TransactionCache::new(1000);
    let draw = |_count: usize| 0;
    let txid = [5; 32];
    let mut load = |cache: &mut TransactionCache, text: &str| {
        query.load_txn_with_blockheader(cache, txid, &parse_json(text).unwrap(), &draw)
    };
    let short = "I/O error: failed to fill whole buffer";
    for (text, texts) in [
        ("{}", vec!["invalid tx hex from bitcoind"]),
        ("[1]", vec!["invalid tx hex from bitcoind"]),
        ("{\"hex\": 5}", vec!["invalid tx hex from bitcoind"]),
        (
            "{\"hex\": \"xy\"}",
            vec!["non-hex tx from bitcoind", "Invalid character 'x' at position 0"],
        ),
        ("{\"hex\": \"00\"}", vec!["failed to parse tx from bitcoind", short]),
    ] {
        assert_eq!(chain(load(&mut cache, text)), texts);
        assert!(cache.get(&txid).is_none());
    }
    let bare = format!("{{\"hex\": \"{}\"}}", GENESIS_TX);
    assert_eq!(message(load(&mut cache, &bare)), "invalid blockhash from bitcoind");
    assert_eq!(cache.get(&txid).unwrap().output[0].value, 50_0000_0000);
    assert_eq!(cache.usage(), 32 + 204);
    let wrong = format!("{{\"hex\": \"{}\", \"blockhash\": \"00\"}}", GENESIS_TX);
    assert_eq!(
        chain(load(&mut cache, &wrong)),
        vec!["non-hex blockhash from bitcoind", "bad hex string length 2 (expected 64)"]
    );
    let right = format!("{{\"hex\": \"{}\", \"blockhash\": \"{}\"}}", GENESIS_TX, hex::encode(hash));
    let (tx, header) = load(&mut cache, &right).unwrap();
    assert_eq!(tx.input.len(), 1);
    assert_eq!(header.unwrap().height(), 1);
    let other = format!("{{\"hex\": \"{}\", \"blockhash\": \"{}\"}}", GENESIS_TX, "77".repeat(32));
    assert!(load(&mut cache, &other).unwrap().1.is_none());
    assert!(query.load_txn_from_cache(&cache, &[1; 32]).is_none());
    assert!(query.load_txn_from_cache(&cache, &txid).is_some());
}

#[test]
fn mempool_transactions_come_before_kept_ones() {
    let store = MemoryStore::new();
    let index = Index::load(&store, 1, 0).unwrap();
    let mut tracker = Tracker::new();
    tracker.add(transaction(5, vec![(1, 2)], vec![(3, 0x51)]), MempoolEntry::new(7, 8));
    let query = Query { store: &store, index: &index, tracker: &tracker };
    let mut cache = TransactionCache::new(1000);
    cache.put_serialized([5; 32], hex::decode(GENESIS_TX).unwrap(), &|_count: usize| 0);
    let tx = query.load_txn_from_cache(&cache, &[5; 32]).unwrap();
    assert_eq!(tx.output[0].value, 3);
    assert_eq!(tx.raw, vec![5, 0xab]);
}

#[test]
fn fee_of_the_bucket_that_fills_the_blocks() {
    let vsizes = vec![600_000, 500_000, 1_000_000];
    assert_eq!(fee_bucket(&vsizes, 0), Some(0));
    assert_eq!(fee_bucket(&vsizes, 1), Some(1));
    assert_eq!(fee_bucket(&vsizes, 2), Some(2));
    assert_eq!(fee_bucket(&vsizes, 25), Some(2));
    assert_eq!(fee_bucket(&vec![], 1), None);
    assert_eq!(fee_bucket(&vec![u32::MAX, u32::MAX], 4294), Some(0));
}

#[test]
fn mempool_tracks_its_transactions() {
    let mut tracker = Tracker::new();
    tracker.add(transaction(1, vec![(9, 0)], vec![(5, 0x51)]), MempoolEntry::new(10, 100));
    tracker.add(transaction(2, vec![(1, 0)], vec![(4, 0x51)]), MempoolEntry::new(20, 200));
    assert!(tracker.contains(&[1; 32]));
    assert_eq!(tracker.get_fee(&[2; 32]), Some(20));
    assert_eq!(tracker.get_fee(&[3; 32]), None);
    assert_eq!(tracker.get_txn(&[1; 32]).unwrap().output[0].value, 5);
    assert_eq!(tracker.txids(), vec![[1; 32], [2; 32]]);
    assert_eq!(
        tracker.differences(&vec![[3; 32], [2; 32], [4; 32]]),
        (vec![[3; 32], [4; 32]], vec![[1; 32]])
    );
    let script = compute_script_hash(&[0x51]);
    let found = |tracker: &Tracker| {
        electrscash::db::outputs::get_txouts(tracker.index(), script).len()
    };
    assert_eq!(found(&tracker), 2);
    tracker.remove(&[1; 32]);
    tracker.remove(&[7; 32]);
    assert_eq!(found(&tracker), 1);
    assert!(!tracker.contains(&[1; 32]));
    tracker.add(transaction(2, vec![], vec![(4, 0x52)]), MempoolEntry::new(30, 200));
    assert_eq!(found(&tracker), 0);
    assert_eq!(tracker.get_fee(&[2; 32]), Some(30));
    let entry = MempoolEntry::new(30, 200);
    assert_eq!((entry.fee(), entry.vsize()), (30, 200));
}

#[test]
fn unconfirmed_outputs_inputs_and_fees() {
    let mut tracker = Tracker::new();
    tracker.add(transaction(1, vec![(9, 0)], vec![(5, 0x51)]), MempoolEntry::new(10, 100));
    tracker.add(transaction(2, vec![(1, 0), (8, 1)], vec![]), MempoolEntry::new(20, 200));
    let query = UnconfirmedQuery::new();
    let script = compute_script_hash(&[0x51]);
    let funding_found = query.get_funding(&tracker, &script, &never).unwrap();
    assert_eq!(message(query.get_funding(&tracker, &script, &always)), "timeout");
    let unused = compute_script_hash(&[0x99]);
    assert!(query.get_funding(&tracker, &unused, &always).unwrap().is_empty());
    assert!(query.get_spending(&tracker, &vec![], &vec![], &always).unwrap().is_empty());
    assert_eq!(funding_found.len(), 1);
    assert_eq!(funding_found[0].state, ConfirmationState::InMempool);
    let confirmed = vec![
        funding(8, 1, 70, 3, ConfirmationState::Confirmed),
        funding(7, 0, 60, 3, ConfirmationState::Confirmed),
    ];
    let spending_found = query.get_spending(&tracker, &funding_found, &confirmed, &never).unwrap();
    let values: Vec<u64> = spending_found.iter().map(|input| input.value).collect();
    assert_eq!(values, vec![5, 70]);
    assert_eq!(spending_found[0].state, ConfirmationState::UnconfirmedParent);
    assert_eq!(spending_found[0].height(), MEMPOOL_HEIGHT);
    assert_eq!(message(query.get_spending(&tracker, &funding_found, &confirmed, &always)), "timeout");
    let fees = query.get_tx_fees(&tracker, &confirmed, &spending_found);
    assert_eq!(fees.pairs(), vec![([2; 32], 20)]);
    let fees = query.get_tx_fees(&tracker, &funding_found, &spending_found);
    assert_eq!(fees.get(&[1; 32]), Some(&10));
}

#[test]
fn empty_json_list_without_registrations() {
    let store = store_with_chain(1);
    let index = Index::load(&store, 1, 0).unwrap();
    let tracker = Tracker::new();
    let query = Query { store: &store, index: &index, tracker: &tracker };
    assert!(matches!(
        query.get_cashaccount_txs(0, &vec![], &vec![]),
        Ok(Json::Array(items)) if items.is_empty()
    ));
}
