use electrscash::app::App;
use electrscash::cache::{BlockTxIDsCache, TransactionCache};
use electrscash::chain::BlockHeader;
use electrscash::errors::Error;
use electrscash::json::Json;
use electrscash::rndcache::RndCache;
use electrscash::util::HeaderEntry;

const GENESIS_TX: &str = "01000000010000000000000000000000000000000000000000000000000000000000\
    000000ffffffff4d04ffff001d0104455468652054696d65732030332f4a616e2f32303039204368616e63656c6c\
    6f72206f6e206272696e6b206f66207365636f6e64206261696c6f757420666f722062616e6b73ffffffff0100f2\
    052a01000000434104678afdb0fe5548271967f1a67130b7105cd6a828e03909a67962e0ea1f61deb649f6bc3f4c\
    ef38c4f35504e51ec112de5c384df7ba0b8d578a4c702b6bf11d5fac00000000";

fn first(_count: usize) -> usize {
    0
}

fn last(count: usize) -> usize {
    count - 1
}

#[test]
fn cache_drops_what_is_drawn_until_there_is_room() {
    let mut cache: RndCache<[u8; 32], u8> = RndCache::new(10);
    cache.put([1; 32], 1, 4, &first);
    cache.put([2; 32], 2, 4, &first);
    assert_eq!(cache.usage(), 8);
    cache.put([3; 32], 3, 6, &last);
    assert_eq!(cache.get(&[1; 32]), Some(&1));
    assert_eq!(cache.get(&[2; 32]), None);
    assert_eq!(cache.get(&[3; 32]), Some(&3));
    assert_eq!(cache.usage(), 10);
    cache.put([4; 32], 4, 11, &first);
    assert_eq!(cache.get(&[4; 32]), None);
    assert_eq!(cache.usage(), 10);
    cache.put([3; 32], 5, 1, &first);
    assert_eq!(cache.get(&[3; 32]), Some(&5));
    assert_eq!(cache.usage(), 5);
}

#[test]
fn ids_of_a_block_are_kept() {
    let mut cache = BlockTxIDsCache::new(32 * 3);
    assert!(cache.get(&[9; 32]).is_none());
    let txids = vec![[1; 32], [2; 32]];
    assert_eq!(cache.get_or_fetch(&[9; 32], txids.clone(), &first), txids);
    assert_eq!(cache.usage(), 32 * 3);
    assert_eq!(cache.get(&[9; 32]), Some(txids.clone()));
    assert_eq!(cache.get_or_fetch(&[9; 32], vec![], &first), txids);
    assert_eq!(cache.get_or_fetch(&[8; 32], vec![[3; 32]], &first), vec![[3; 32]]);
    assert!(cache.get(&[9; 32]).is_none());
    assert_eq!(cache.usage(), 32 * 2);
    let many = vec![[1; 32], [2; 32], [3; 32]];
    assert_eq!(cache.get_or_fetch(&[7; 32], many.clone(), &first), many);
    assert!(cache.get(&[7; 32]).is_none());
    assert_eq!(cache.usage(), 32 * 2);
}

#[test]
fn transactions_are_kept_serialized() {
    let bytes = hex::decode(GENESIS_TX).unwrap();
    let mut cache = TransactionCache::new(1000);
    cache.put_serialized([1; 32], bytes.clone(), &first);
    assert_eq!(cache.usage(), 32 + 204);
    let tx = cache.get(&[1; 32]).unwrap();
    assert_eq!(tx.raw, bytes);
    let mut txid = tx.txid;
    txid.reverse();
    assert_eq!(
        hex::encode(txid),
        "4a5e1e4baab89f3a32518a88c31bc87f618f76673e2cc77ab2127b7afdeda33b"
    );
    assert_eq!(tx.weight, 4 * 204);
    assert_eq!(tx.input[0].previous_output.txid, [0; 32]);
    assert_eq!(tx.input[0].previous_output.vout, u32::MAX);
    assert_eq!(tx.output[0].value, 50_0000_0000);
    assert_eq!(tx.output[0].script_pubkey.len(), 67);
    cache.put_serialized([2; 32], vec![1, 2, 3], &first);
    assert_eq!(cache.usage(), 32 + 204 + 32 + 3);
    cache.put_serialized([1; 32], vec![1], &first);
    assert_eq!(cache.usage(), 32 + 1 + 32 + 3);
    assert!(cache.get(&[2; 32]).is_none());
    assert!(cache.get(&[3; 32]).is_none());
}

#[test]
fn fetched_transactions_are_read_and_kept() {
    let mut cache = TransactionCache::new(1000);
    for (value, texts) in [
        (Json::Null, vec!["non-string tx"]),
        (Json::Str("0".to_owned()), vec!["non-hex tx", "Odd number of digits"]),
        (
            Json::Str("00".to_owned()),
            vec!["failed to parse serialized tx", "I/O error: failed to fill whole buffer"],
        ),
    ] {
        match cache.get_or_fetch(&[1; 32], &value, &first) {
            Err(error) => assert_eq!(error.chain(), texts),
            Ok(_) => panic!("no error"),
        }
    }
    assert_eq!(cache.usage(), 0);
    let value = Json::Str(GENESIS_TX.to_owned());
    assert_eq!(cache.get_or_fetch(&[1; 32], &value, &first).unwrap().output.len(), 1);
    assert_eq!(cache.get_or_fetch(&[1; 32], &Json::Null, &first).unwrap().output.len(), 1);
}

#[test]
fn index_is_brought_up_to_new_blocks() {
    let mut app = App::new("welcome".to_owned());
    assert!(!app.is_new_block(&[0; 32]));
    assert!(app.is_new_block(&[1; 32]));
    let header = BlockHeader {
        version: 1,
        prev_blockhash: [0; 32],
        merkle_root: [0; 32],
        time: 0,
        bits: 0,
        nonce: 0,
    };
    let entry = HeaderEntry { height: 0, hash: [1; 32], header };
    let failed = app.update(&[1; 32], Some(Err(Error::message("gone"))));
    assert_eq!(failed.unwrap_err().text(), "gone");
    assert!(app.is_new_block(&[1; 32]));
    let (headers, tip) = app.update(&[1; 32], Some(Ok((vec![entry], entry)))).unwrap();
    assert_eq!((headers.len(), tip.unwrap().hash), (1, [1; 32]));
    assert!(!app.is_new_block(&[1; 32]));
    let (headers, tip) = app.update(&[1; 32], None).unwrap();
    assert!(headers.is_empty() && tip.is_none());
    assert!(app.is_new_block(&[2; 32]));
    assert_eq!(app.get_banner("/daemon:1.0/"), "welcome\n/daemon:1.0/");
}
