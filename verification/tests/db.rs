use electrscash::cashaccount::{compute_accountname_hash, hash_prefix};
use electrscash::chain::{OutPoint, TxIn, TxOut};
use electrscash::db::cashaccounts::{
    are_accounts_readable, txids_by_cashaccount, TxCashAccountRow,
};
use electrscash::db::inputs::{get_txin, is_txin_sound, TxInRow};
use electrscash::db::outputs::{are_txouts_sound, get_txouts, TxOutRow};
use electrscash::db::{
    decode_varint_u32, decode_varint_u64, encode_varint_u32, encode_varint_u64,
};
use electrscash::scripthash::compute_script_hash;
use electrscash::store::{MemoryStore, ReadStore, Row};

fn script() -> Vec<u8> {
    let mut script = vec![0x76, 0xa9, 0x14];
    script.extend(0..20u8);
    script.extend(&[0x88, 0xac]);
    script
}

fn script_hash() -> [u8; 32] {
    let mut hash = [0u8; 32];
    hash.copy_from_slice(
        &hex::decode("0e76c0e5f4c810ba937491fb28fde5812b7b87446554bdc6e4a77783d32a54e9").unwrap(),
    );
    hash
}

fn length(n: u64) -> Vec<u8> {
    n.to_le_bytes().to_vec()
}

fn store_of(rows: Vec<Row>) -> MemoryStore {
    let mut store = MemoryStore::new();
    for row in rows {
        store.write(row);
    }
    store
}

#[test]
fn varint_of_a_small_number() {
    assert_eq!(encode_varint_u32(300), vec![0xac, 0x02]);
    assert_eq!(decode_varint_u32(&[0xac, 0x02]), 300);
}

#[test]
fn varints_read_back() {
    for n in [0, 1, 127, 128, 16_383, 16_384, u32::MAX] {
        assert_eq!(decode_varint_u32(&encode_varint_u32(n)), n);
        assert_eq!(encode_varint_u64(n as u64), encode_varint_u32(n));
    }
    for n in [0, 1 << 32, u64::MAX - 1, u64::MAX] {
        assert_eq!(decode_varint_u64(&encode_varint_u64(n)), n);
    }
    assert_eq!(encode_varint_u32(0), vec![0]);
    assert_eq!(encode_varint_u64(u64::MAX).len(), 10);
}

#[test]
fn script_hash_is_the_digest_of_the_script() {
    assert_eq!(compute_script_hash(&script()), script_hash());
}

#[test]
fn output_row_bytes() {
    let output = TxOut { value: 300, script_pubkey: script() };
    let row = TxOutRow::new([7; 32], &output, 1, 1000).to_row();
    let mut key = vec![b'O'];
    key.extend(&script_hash());
    key.extend(length(32));
    key.extend(&[7; 32]);
    key.extend(length(2));
    key.extend(&[0xe8, 0x07]);
    key.extend(length(1));
    key.extend(&[1]);
    key.extend(length(2));
    key.extend(&[0xac, 0x02]);
    assert_eq!(row.key, key);
    assert!(row.value.is_empty());
    assert_eq!(TxOutRow::filter(&TxOutRow::key(script_hash())), key[..33].to_vec());
}

#[test]
fn output_row_reads_back() {
    let output = TxOut { value: u64::MAX, script_pubkey: script() };
    let row = TxOutRow::from_row(&TxOutRow::new([7; 32], &output, u32::MAX, 5).to_row());
    assert!(row.is_wf());
    assert_eq!(row.key.scripthash, script_hash());
    assert_eq!(*row.get_txid(), [7; 32]);
    assert_eq!(row.get_output_index(), u32::MAX);
    assert_eq!(row.get_output_value(), u64::MAX);
    assert_eq!(row.get_confirmed_height(), 5);
}

#[test]
fn unreadable_output_row() {
    let output = TxOut { value: 1, script_pubkey: script() };
    let mut row = TxOutRow::new([7; 32], &output, 0, 5).to_row();
    row.key.pop();
    assert!(TxOutRow::parse(&row).is_none());
    let sound = TxOutRow::new([7; 32], &output, 0, 5);
    let mut broken = TxOutRow::new([7; 32], &output, 0, 5);
    broken.output_value = vec![0x80];
    assert!(sound.is_wf());
    assert!(!broken.is_wf());
    assert!(are_txouts_sound(&store_of(vec![sound.to_row()]), script_hash()));
    assert!(!are_txouts_sound(&store_of(vec![broken.to_row()]), script_hash()));
    assert!(!are_txouts_sound(&store_of(vec![row]), script_hash()));
}

#[test]
fn outputs_are_found_by_script() {
    let ours = TxOut { value: 10, script_pubkey: script() };
    let theirs = TxOut { value: 20, script_pubkey: vec![0x51] };
    let store = store_of(vec![
        TxOutRow::new([2; 32], &ours, 0, 7).to_row(),
        TxOutRow::new([1; 32], &theirs, 1, 7).to_row(),
        TxOutRow::new([1; 32], &ours, 0, 9).to_row(),
    ]);
    let found = get_txouts(&store, script_hash());
    assert_eq!(found.len(), 2);
    assert_eq!(*found[0].get_txid(), [1; 32]);
    assert_eq!(found[0].get_confirmed_height(), 9);
    assert_eq!(*found[1].get_txid(), [2; 32]);
    assert!(get_txouts(&store, [0; 32]).is_empty());
}

#[test]
fn input_row_bytes() {
    let input = TxIn { previous_output: OutPoint { txid: [3; 32], vout: 300 } };
    let row = TxInRow::new([4; 32], &input, 2).to_row();
    let mut key = vec![b'I'];
    key.extend(length(32));
    key.extend(&[3; 32]);
    key.extend(length(2));
    key.extend(&[0xac, 0x02]);
    assert_eq!(TxInRow::filter([3; 32], 300), key);
    key.extend(length(32));
    key.extend(&[4; 32]);
    key.extend(length(1));
    key.extend(&[2]);
    assert_eq!(row.key, key);
    assert!(row.value.is_empty());
}

#[test]
fn input_row_reads_back() {
    let input = TxIn { previous_output: OutPoint { txid: [3; 32], vout: 300 } };
    let row = TxInRow::from_row(&TxInRow::new([4; 32], &input, 70_000).to_row());
    assert!(row.is_wf());
    assert_eq!(row.key.prev_hash, [3; 32]);
    assert_eq!(row.get_prev_index(), 300);
    assert_eq!(*row.get_txid(), [4; 32]);
    assert_eq!(row.get_confirmed_height(), 70_000);
}

#[test]
fn spender_is_found_by_output() {
    let input = TxIn { previous_output: OutPoint { txid: [3; 32], vout: 1 } };
    let other = TxIn { previous_output: OutPoint { txid: [3; 32], vout: 129 } };
    let store = store_of(vec![
        TxInRow::new([4; 32], &other, 2).to_row(),
        TxInRow::new([5; 32], &input, 2).to_row(),
    ]);
    assert!(is_txin_sound(&store, [3; 32], 1));
    assert_eq!(*get_txin(&store, [3; 32], 1).unwrap().get_txid(), [5; 32]);
    assert_eq!(*get_txin(&store, [3; 32], 129).unwrap().get_txid(), [4; 32]);
    assert!(get_txin(&store, [3; 32], 2).is_none());
    let mut cut = TxInRow::new([5; 32], &input, 2).to_row();
    cut.key.pop();
    assert!(TxInRow::parse(&cut).is_none());
    assert!(!is_txin_sound(&store_of(vec![cut]), [3; 32], 1));
}

#[test]
fn account_hash_is_that_of_name_and_height() {
    let hash = compute_accountname_hash(b"jonathan", 563_720);
    assert_eq!(
        hex::encode(hash),
        "837649bff89738b9cfa9d3bef776cc42334552ff885bbd34dc368658a3899006"
    );
    assert_eq!(hex::encode(hash_prefix(&hash)), "837649bff89738b9");
}

#[test]
fn account_row_bytes() {
    let row = TxCashAccountRow::new([6; 32], b"jonathan", 563_720).to_row();
    let mut key = vec![b'C'];
    key.extend(hex::decode("837649bff89738b9").unwrap());
    assert_eq!(TxCashAccountRow::filter(b"jonathan", 563_720), key);
    key.extend(length(32));
    key.extend(&[6; 32]);
    assert_eq!(row.key, key);
    let read = TxCashAccountRow::from_row(&row);
    assert_eq!(read.txid, [6; 32]);
    assert_eq!(read.key.accout_hash_prefix.to_vec(), key[1..9].to_vec());
}

#[test]
fn accounts_are_found_by_name_in_any_case() {
    let store = store_of(vec![
        TxCashAccountRow::new([6; 32], b"jonathan", 563_720).to_row(),
        TxCashAccountRow::new([7; 32], b"jonathan", 563_721).to_row(),
    ]);
    assert!(are_accounts_readable(&store, "Jonathan", 563_720));
    assert_eq!(txids_by_cashaccount(&store, "Jonathan", 563_720), vec![[6; 32]]);
    assert_eq!(txids_by_cashaccount(&store, "jonathan", 563_721), vec![[7; 32]]);
    assert!(txids_by_cashaccount(&store, "jonathan", 1).is_empty());
    let mut cut = TxCashAccountRow::new([6; 32], b"jonathan", 563_720).to_row();
    cut.key.pop();
    assert!(TxCashAccountRow::parse(&cut).is_none());
    assert!(!are_accounts_readable(&store_of(vec![cut]), "jonathan", 563_720));
}

#[test]
fn store_keeps_one_value_for_each_key() {
    let row = |key: &[u8], value: &[u8]| Row { key: key.to_vec(), value: value.to_vec() };
    let mut store = store_of(vec![
        row(b"b", b"1"),
        row(b"a", b"2"),
        row(b"ab", b"3"),
        row(b"b", b"4"),
    ]);
    assert_eq!(store.get(b"b"), Some(b"4".to_vec()));
    assert_eq!(store.get(b"c"), None);
    let keys: Vec<Vec<u8>> = store.scan(b"a").into_iter().map(|row| row.key).collect();
    assert_eq!(keys, vec![b"a".to_vec(), b"ab".to_vec()]);
    assert_eq!(store.scan(b"").len(), 3);
    store.remove(b"a");
    store.remove(b"x");
    assert_eq!(store.get(b"a"), None);
    assert_eq!(store.scan(b"a").len(), 1);
}
