use electrscash::chain::{BlockHeader, Transaction};
use electrscash::daemon::headers::{
    header_error, is_chain_to, next_heights, parse_height, wants_all_headers, AllHeaders,
    NewHeaders,
};
use electrscash::daemon::http::{request_message, Reply};
use electrscash::daemon::rpc::{
    check_error_code, parse_batch, parse_error_code, parse_jsonrpc_reply, parse_response,
    request_batch, retry_after, single_reply, Counter, RETRY_SECONDS,
};
use electrscash::daemon::values::{
    block_from_value, header_from_value, parse_hash, tx_from_value,
};
use electrscash::daemon::{
    check_pruned, check_version, list_blk_files, BlockchainInfo, Daemon, Network, NetworkInfo,
    Validation,
};
use electrscash::errors::Error;
use electrscash::json::{debug_json, debug_object, parse_json, value_of, write_json, Json};
use electrscash::text::{number_text, parse_usize, same_text, u64_text};
use electrscash::util::HeaderList;

const GENESIS_HEADER: &str = "01000000000000000000000000000000000000000000000000000000000000000000\
    00003ba3edfd7a7b12b27ac72c3e67768f617fc81bc3888a51323a9fb8aa4b1e5e4a29ab5f49ffff001d1dac2b7c";

const GENESIS_TX: &str = "01000000010000000000000000000000000000000000000000000000000000000000\
    000000ffffffff4d04ffff001d0104455468652054696d65732030332f4a616e2f32303039204368616e63656c6c\
    6f72206f6e206272696e6b206f66207365636f6e64206261696c6f757420666f722062616e6b73ffffffff0100f2\
    052a01000000434104678afdb0fe5548271967f1a67130b7105cd6a828e03909a67962e0ea1f61deb649f6bc3f4c\
    ef38c4f35504e51ec112de5c384df7ba0b8d578a4c702b6bf11d5fac00000000";

fn json(text: &str) -> Json {
    parse_json(text).unwrap()
}

fn text(value: &str) -> Json {
    Json::Str(value.to_owned())
}

fn message<T>(result: Result<T, Error>) -> String {
    match result {
        Err(Error::Message(text)) => text,
        _ => panic!("no message"),
    }
}

fn chain_of(error: Error) -> Vec<String> {
    error.chain().into_iter().map(|text| text.to_owned()).collect()
}

fn chain<T>(result: Result<T, Error>) -> Vec<String> {
    match result {
        Err(error) => chain_of(error),
        Ok(_) => panic!("no error"),
    }
}

fn connection<T>(result: Result<T, Error>) -> String {
    match result {
        Err(Error::Connection(text)) => text,
        _ => panic!("no failed connection"),
    }
}

fn genesis_hash() -> [u8; 32] {
    let mut hash = [0u8; 32];
    hash.copy_from_slice(
        &hex::decode("000000000019d6689c085ae165831e934ff763ae46a2a6c172b3f1b60a8ce26f").unwrap(),
    );
    hash.reverse();
    hash
}

fn headers(count: u32) -> Vec<BlockHeader> {
    let mut prev_blockhash = [0; 32];
    let mut headers = vec![];
    for nonce in 0..count {
        let header = BlockHeader {
            version: 1,
            prev_blockhash,
            merkle_root: [0; 32],
            time: 0,
            bits: 0,
            nonce,
        };
        prev_blockhash = header.block_hash();
        headers.push(header);
    }
    headers
}

#[test]
fn json_is_read_and_written() {
    let value = json("{\"b\": [1, -2, 0.5, null, true, \"x\"], \"a\": {}}");
    assert_eq!(write_json(&value), "{\"a\":{},\"b\":[1,-2,0.5,null,true,\"x\"]}");
    let items = value.get("b").unwrap().as_array().unwrap();
    assert_eq!(items[0].as_u64(), Some(1));
    assert_eq!(items[0].as_i64(), Some(1));
    assert_eq!(items[1].as_i64(), Some(-2));
    assert_eq!(items[1].as_u64(), None);
    assert_eq!(items[2].as_i64(), None);
    assert!(matches!(&items[2], Json::Number(number) if number.as_f64() == Some(0.5)));
    assert!(items[3].is_null());
    assert!(matches!(items[4], Json::Bool(true)));
    assert_eq!(items[5].as_str(), Some("x"));
    assert!(value.get("a").unwrap().is_object());
    assert!(value.get("c").is_none());
    assert!(items[0].get("a").is_none());
    assert!(items[0].as_array().is_none());
    assert!(items[0].as_str().is_none());
    assert_eq!(json("18446744073709551615").as_u64(), Some(u64::MAX));
    assert_eq!(json("18446744073709551615").as_i64(), None);
    assert_eq!(parse_json("{").unwrap_err(), "EOF while parsing an object at line 1 column 1");
    assert_eq!(debug_json(&json("[null]")), "Array [Null]");
    assert_eq!(debug_object(&json("{\"a\": null}")), "{\"a\": Null}");
    assert_eq!(debug_json(&json("{\"a\": null}")), "Object {\"a\": Null}");
}

#[test]
fn later_field_of_the_same_name_counts() {
    let value = Json::Object(vec![
        ("a".to_owned(), Json::Bool(false)),
        ("a".to_owned(), Json::Bool(true)),
    ]);
    assert!(matches!(value.get("a"), Some(Json::Bool(true))));
    assert_eq!(write_json(&value), "{\"a\":true}");
}

#[test]
fn numbers_are_written_as_they_were_read() {
    let numbers = Json::Array(vec![
        Json::unsigned(5),
        Json::Number(serde_json::Number::from(-5)),
        Json::Number(serde_json::Number::from_f64(2.5).unwrap()),
    ]);
    assert_eq!(write_json(&numbers), "[5,-5,2.5]");
    assert_eq!(write_json(&json("[-0.0, 1e2, -7, 0.25]")), "[-0.0,100.0,-7,0.25]");
    let mut seed = 1u64;
    for _ in 0..2000 {
        seed = seed.wrapping_mul(6364136223846793005).wrapping_add(1442695040888963407);
        let text = format!("[{}.{}e-{}]", seed >> 40, seed, seed % 300);
        let value: serde_json::Value = serde_json::from_str(&text).unwrap();
        assert_eq!(write_json(&json(&text)), value.to_string());
        assert_eq!(debug_json(&json(&text)), format!("{:?}", value));
        assert_eq!(value_of(&json(&text)), value);
    }
}

#[test]
fn numbers_in_headers() {
    assert_eq!(parse_usize("0"), Some(0));
    assert_eq!(parse_usize("+042"), Some(42));
    assert_eq!(parse_usize("18446744073709551615"), Some(usize::MAX));
    for text in ["", "+", "-1", " 1", "1x", "18446744073709551616", "99999999999999999999999"] {
        assert_eq!(parse_usize(text), None);
    }
    for n in [0, 7, 10, 1000, 98_765_432_109, u64::MAX] {
        assert_eq!(u64_text(n), n.to_string());
    }
    for n in [0, 42, -1, -10, i64::MAX, i64::MIN] {
        assert_eq!(number_text(n), n.to_string());
    }
    assert!(same_text("a\u{e9}", "a\u{e9}"));
    assert!(!same_text("a", "b"));
}

#[test]
fn hashes_in_values() {
    let shown = "000000000019d6689c085ae165831e934ff763ae46a2a6c172b3f1b60a8ce26f";
    assert_eq!(parse_hash(&text(shown)).unwrap(), genesis_hash());
    assert_eq!(parse_hash(&text(&shown.to_uppercase())).unwrap(), genesis_hash());
    assert_eq!(message(parse_hash(&json("5"))), "non-string value: 5");
    assert_eq!(
        chain(parse_hash(&text("00"))),
        vec!["non-hex value: \"00\"", "bad hex string length 2 (expected 64)"]
    );
    assert_eq!(
        chain(parse_hash(&text("000"))),
        vec!["non-hex value: \"000\"", "odd hex string length 3"]
    );
    assert_eq!(
        chain(parse_hash(&text(&"zz".repeat(32)))),
        vec![format!("non-hex value: \"{}\"", "zz".repeat(32)), "invalid hex character 122".to_owned()]
    );
}

#[test]
fn headers_in_values() {
    let header = header_from_value(&text(GENESIS_HEADER)).unwrap();
    assert_eq!(header.block_hash(), genesis_hash());
    assert_eq!(header.nonce, 2_083_236_893);
    assert_eq!(Daemon::getblockheader(&text(GENESIS_HEADER)).unwrap().time, 1_231_006_505);
    assert_eq!(message(header_from_value(&json("[]"))), "non-string header: []");
    assert_eq!(
        chain(header_from_value(&text("0"))),
        vec!["non-hex header", "Odd number of digits"]
    );
    assert_eq!(
        chain(header_from_value(&text("0g"))),
        vec!["non-hex header", "Invalid character 'g' at position 1"]
    );
    assert_eq!(
        chain(header_from_value(&text("00"))),
        vec!["failed to parse header 00", "I/O error: failed to fill whole buffer"]
    );
    let long = format!("{}00", GENESIS_HEADER);
    assert_eq!(
        chain(header_from_value(&text(&long))),
        vec![
            format!("failed to parse header {}", long),
            "parse failed: data not consumed entirely when explicitly deserializing".to_owned(),
        ]
    );
    let values = vec![text(GENESIS_HEADER), text(GENESIS_HEADER)];
    assert_eq!(Daemon::getblockheaders(&values).unwrap().len(), 2);
    let values = vec![text(GENESIS_HEADER), text("00"), text("0")];
    assert_eq!(
        chain(Daemon::getblockheaders(&values)),
        vec!["failed to parse header 00", "I/O error: failed to fill whole buffer"]
    );
}

#[test]
fn blocks_in_values() {
    let block_hex = format!("{}01{}", GENESIS_HEADER, GENESIS_TX);
    let block = block_from_value(&text(&block_hex)).unwrap();
    assert_eq!(block.header.block_hash(), genesis_hash());
    assert_eq!(block.txdata.len(), 1);
    assert_eq!(block.txdata[0].txid, block.header.merkle_root);
    let found = Daemon::getblock(&text(&block_hex), &genesis_hash()).unwrap();
    assert_eq!(found.unwrap().txdata.len(), 1);
    assert!(Daemon::getblock(&text(&block_hex), &[1; 32]).unwrap().is_none());
    assert_eq!(
        chain(Daemon::getblock(&text("x"), &[1; 32])),
        vec!["non-hex block", "Odd number of digits"]
    );
    assert_eq!(message(block_from_value(&Json::Null)), "non-string block");
    assert_eq!(
        chain(block_from_value(&text("x"))),
        vec!["non-hex block", "Odd number of digits"]
    );
    assert_eq!(
        chain(block_from_value(&text("00"))),
        vec!["failed to parse block 00", "I/O error: failed to fill whole buffer"]
    );
    assert_eq!(Daemon::getblocks(&vec![text(&block_hex)]).unwrap().len(), 1);
    assert_eq!(
        chain(Daemon::getblocks(&vec![text("x")])),
        vec!["non-hex block", "Odd number of digits"]
    );
}

#[test]
fn transactions_in_values() {
    let tx = tx_from_value(&text(GENESIS_TX)).unwrap();
    assert_eq!(hex::encode(&tx.raw), GENESIS_TX);
    assert_eq!(Daemon::gettransaction(&text(GENESIS_TX)).unwrap().txid, tx.txid);
    assert_eq!(message(tx_from_value(&Json::Bool(true))), "non-string tx");
    assert_eq!(
        chain(tx_from_value(&text("abc"))),
        vec!["non-hex tx", "Odd number of digits"]
    );
    assert_eq!(
        chain(tx_from_value(&text("ab"))),
        vec!["failed to parse tx ab", "I/O error: failed to fill whole buffer"]
    );
    let values = vec![text(GENESIS_TX)];
    assert_eq!(Daemon::gettransactions(&values, 1).unwrap().unwrap().len(), 1);
    assert!(Daemon::gettransactions(&values, 2).unwrap().is_none());
    assert_eq!(message(Daemon::gettransactions(&vec![Json::Null], 5)), "non-string tx");
}

#[test]
fn error_codes() {
    assert_eq!(parse_error_code(&json("{\"code\": -5}")), Some(-5));
    assert_eq!(parse_error_code(&json("{\"code\": \"x\"}")), None);
    assert_eq!(parse_error_code(&json("{}")), None);
    assert_eq!(parse_error_code(&Json::Null), None);
    assert_eq!(parse_error_code(&json("7")), None);
    assert!(check_error_code(&json("{\"error\": null}"), "m").is_ok());
    assert!(check_error_code(&json("{}"), "m").is_ok());
    assert_eq!(
        message(check_error_code(&json("{\"error\": {\"code\": 1}}"), "m")),
        "m RPC error: {\"code\":1}"
    );
    assert_eq!(
        connection(check_error_code(&json("{\"error\": {\"code\": -28}}"), "m")),
        "{\"code\":-28}"
    );
}

#[test]
fn replies() {
    let reply = |value: &str| parse_jsonrpc_reply(json(value), "m", 7);
    let result = reply("{\"error\": null, \"id\": 7, \"result\": [1]}").unwrap();
    assert_eq!(write_json(&result), "[1]");
    assert!(reply("{\"id\": 7, \"result\": null}").unwrap().is_null());
    assert_eq!(write_json(&parse_response("[ 1 ]").unwrap()), "[1]");
    assert_eq!(
        chain(parse_response("[")),
        vec!["invalid JSON", "EOF while parsing a list at line 1 column 1"]
    );
    assert!(reply("{\"id\": 7, \"result\": null, \"error\": \"x\"}").unwrap().is_null());
    assert_eq!(message(reply("[1]")), "non-object reply: Array [Number(1)]");
    assert_eq!(message(reply("{\"result\": 1}")), "no id in reply: {\"result\": Number(1)}");
    assert_eq!(
        message(reply("{\"id\": 8, \"result\": 1}")),
        "wrong m response id 8, expected 7"
    );
    assert_eq!(
        message(reply("{\"id\": \"7\", \"result\": 1}")),
        "wrong m response id \"7\", expected 7"
    );
    assert_eq!(message(reply("{\"id\": 7}")), "no result in reply: {\"id\": Number(7)}");
    assert_eq!(
        message(reply("{\"id\": 9, \"error\": {\"code\": 4}}")),
        "m RPC error: {\"code\":4}"
    );
    assert_eq!(connection(reply("{\"error\": {\"code\": -28}}")), "{\"code\":-28}");
}

#[test]
fn batches() {
    let replies = json("[{\"id\": 1, \"result\": 5}, {\"id\": 1, \"result\": 6}]");
    let results = parse_batch(replies, "m", 1).unwrap();
    assert_eq!(results.len(), 2);
    assert_eq!(results[1].as_u64(), Some(6));
    assert_eq!(
        message(parse_batch(json("[{\"id\": 1, \"result\": 5}, {\"id\": 2}]"), "m", 1)),
        "wrong m response id 2, expected 1"
    );
    assert_eq!(message(parse_batch(json("5"), "m", 1)), "non-array replies: Number(5)");
    assert_eq!(parse_batch(json("[]"), "m", 1).unwrap().len(), 0);
    let batch = request_batch("getblock", vec![json("[\"a\", false]"), json("[]")], 3);
    assert_eq!(
        write_json(&batch),
        "[{\"id\":3,\"method\":\"getblock\",\"params\":[\"a\",false]},\
         {\"id\":3,\"method\":\"getblock\",\"params\":[]}]"
    );
    let mut daemon = Daemon::new(Network::Regtest);
    assert!(daemon.has_next_id());
    assert_eq!(daemon.batch("m", vec![]).0, 1);
    assert_eq!(daemon.batch("m", vec![]).0, 2);
    assert_eq!(daemon.reconnect().batch("m", vec![]).0, 1);
    assert_eq!(single_reply(vec![json("5")]).unwrap().as_u64(), Some(5));
    assert!(single_reply(vec![]).is_none());
    assert!(single_reply(vec![json("5"), json("6")]).is_none());
    let mut counter = Counter::new();
    assert_eq!((counter.next(), counter.next()), (1, 2));
}

#[test]
fn failed_connections_are_tried_again() {
    assert_eq!(RETRY_SECONDS, 3);
    assert_eq!(retry_after(&Error::connection("gone")), Some(3));
    assert_eq!(retry_after(&Reply::unreadable_line("reset".to_owned())), Some(3));
    assert_eq!(retry_after(&Error::message("wrong")), None);
    assert_eq!(Error::connection("gone").text(), "gone");
    assert_eq!(Error::message("wrong").text(), "wrong");
    let outer = Error::caused("outer", Error::caused("inner", Error::connection("gone")));
    assert_eq!(retry_after(&outer), None);
    assert_eq!(outer.text(), "outer");
    assert_eq!(outer.chain(), vec!["outer", "inner", "gone"]);
}

#[test]
fn parameters() {
    let mut hash = [0u8; 32];
    hash[0] = 0xab;
    let shown = format!("{}ab", "00".repeat(31));
    assert_eq!(write_json(&Daemon::no_params()), "[]");
    assert_eq!(write_json(&Daemon::hash_params(&hash, false)), format!("[\"{}\",false]", shown));
    assert_eq!(write_json(&Daemon::hash_params(&hash, true)), format!("[\"{}\",true]", shown));
    assert_eq!(write_json(&Daemon::hash_only_params(&hash)), format!("[\"{}\"]", shown));
    assert_eq!(write_json(&Daemon::blocktxids_params(&hash)), format!("[\"{}\",1]", shown));
    assert_eq!(write_json(&Daemon::height_params(170)), "[\"170\",false]");
    assert_eq!(write_json(&Daemon::mempooltxids_params()), "[false]");
    let tx = Transaction { txid: hash, input: vec![], output: vec![], weight: 0, raw: vec![1, 0xfe] };
    assert_eq!(write_json(&Daemon::broadcast_params(&tx)), "[\"01fe\"]");
}

#[test]
fn parameters_read_back() {
    let hash = genesis_hash();
    match Daemon::hash_only_params(&hash) {
        Json::Array(items) => assert_eq!(parse_hash(&items[0]).unwrap(), hash),
        _ => panic!("no list"),
    }
    let tx = tx_from_value(&text(GENESIS_TX)).unwrap();
    match Daemon::broadcast_params(&tx) {
        Json::Array(items) => assert_eq!(tx_from_value(&items[0]).unwrap().txid, tx.txid),
        _ => panic!("no list"),
    }
}

#[test]
fn hashes_of_blocks_and_transactions() {
    let shown = "000000000019d6689c085ae165831e934ff763ae46a2a6c172b3f1b60a8ce26f";
    assert_eq!(Daemon::getbestblockhash(&text(shown)).unwrap(), genesis_hash());
    assert_eq!(
        chain(Daemon::getbestblockhash(&Json::Null)),
        vec!["invalid blockhash", "non-string value: null"]
    );
    assert_eq!(Daemon::broadcast(&text(shown)).unwrap(), genesis_hash());
    assert_eq!(message(Daemon::broadcast(&Json::Null)), "non-string txid");
    assert_eq!(
        chain(Daemon::broadcast(&text("12"))),
        vec!["failed to parse txid", "bad hex string length 2 (expected 64)"]
    );
    let block = json(&format!("{{\"tx\": [\"{}\"]}}", shown));
    assert_eq!(Daemon::load_blocktxids(&block).unwrap(), vec![genesis_hash()]);
    assert_eq!(message(Daemon::load_blocktxids(&json("{}"))), "block missing txids");
    assert_eq!(message(Daemon::load_blocktxids(&json("{\"tx\": 1}"))), "invalid block txids");
    assert_eq!(
        message(Daemon::load_blocktxids(&json("{\"tx\": [1]}"))),
        "non-string value: 1"
    );
    let txids = json(&format!("[\"{}\", \"{}\"]", shown, shown));
    assert_eq!(Daemon::getmempooltxids(&txids).unwrap(), vec![genesis_hash()]);
    assert_eq!(message(Daemon::getmempooltxids(&json("{}"))), "non-array result");
    assert_eq!(
        chain(Daemon::getmempooltxids(&json("[1]"))),
        vec!["invalid txid", "non-string value: 1"]
    );
}

#[test]
fn mempool_entries() {
    let entry = json("{\"fee\": 0.00001, \"size\": 250, \"vsize\": 300}");
    assert_eq!(Daemon::mempool_vsize(&entry).unwrap(), 250);
    assert_eq!(Daemon::mempool_fee(&entry).unwrap().as_f64(), Some(0.00001));
    assert_eq!(Daemon::mempool_vsize(&json("{\"vsize\": 300}")).unwrap(), 300);
    assert_eq!(Daemon::mempool_vsize(&json("{\"vsize\": 4294967301}")).unwrap(), 5);
    assert_eq!(message(Daemon::mempool_vsize(&json("{}"))), "missing vsize");
    assert_eq!(message(Daemon::mempool_vsize(&json("{\"size\": -1}"))), "non-integer vsize");
    assert_eq!(Daemon::mempool_fee(&json("{\"fee\": 1}")).unwrap().as_u64(), Some(1));
    assert_eq!(message(Daemon::mempool_fee(&json("{}"))), "missing fee");
    assert_eq!(message(Daemon::mempool_fee(&json("{\"fee\": \"1\"}"))), "non-float fee");
}

#[test]
fn request_messages() {
    assert_eq!(
        request_message(b"user:pass", "[]"),
        "POST / HTTP/1.1\nAuthorization: Basic dXNlcjpwYXNz\nContent-Length: 2\n\n[]"
    );
    assert!(request_message(b"ab", "").contains("Basic YWI=\nContent-Length: 0\n"));
    assert!(request_message(b"a", "\u{e9}").contains("Basic YQ==\nContent-Length: 2\n"));
}

fn read(status: &str, lines: &[&str]) -> Result<String, Error> {
    let mut reply = Reply::new(status.to_owned());
    for line in lines {
        if reply.line((*line).to_owned()) {
            break;
        }
    }
    reply.finish()
}

#[test]
fn reply_messages() {
    let ok = "HTTP/1.1 200 OK";
    let failed = "HTTP/1.1 500 Internal Server Error";
    assert_eq!(read(ok, &["Content-Length: 5", "", "{\"a\"", "more"]).is_ok(), true);
    assert_eq!(read(ok, &["Content-Length: 3", "", "[]"]).unwrap(), "[]");
    assert_eq!(read(failed, &["Content-Length: 3", "", "[]"]).unwrap(), "[]");
    assert_eq!(read(ok, &["Content-Length: 9", "Content-Length: 3", "x", "", "", "[]"]).unwrap(), "[]");
    assert_eq!(connection(read(ok, &["Content-Length: 3", ""])), "no reply from daemon");
    assert_eq!(connection(read(ok, &[])), "no reply from daemon");
    assert_eq!(
        message(read(ok, &["A: b: c", "D:e", "", "[]"])),
        "Content-Length is missing: {\"A\": \"b: c\"}"
    );
    assert_eq!(
        message(read(ok, &["A: b", "C: d", "A: e", "", "[]"])),
        "Content-Length is missing: {\"A\": \"e\", \"C\": \"d\"}"
    );
    assert_eq!(
        chain(read(ok, &["Content-Length: x\"y", "", "[]"])),
        vec!["invalid Content-Length: \"x\\\"y\"", "invalid digit found in string"]
    );
    assert_eq!(
        chain(read(ok, &["Content-Length: ", "", "[]"])),
        vec!["invalid Content-Length: \"\"", "cannot parse integer from empty string"]
    );
    assert_eq!(
        connection(read(ok, &["Content-Length: 8", "", "[]"])),
        "expected 7 bytes, got 2"
    );
    assert_eq!(
        connection(read(ok, &["Content-Length: 0", "", "[]"])),
        "expected 0 bytes, got 2"
    );
    assert_eq!(
        message(read("HTTP/1.1 404 Not Found", &["Content-Length: 3", "", "[]"])),
        "request failed \"HTTP/1.1 404 Not Found\": {\"Content-Length\": \"3\"} = \"[]\""
    );
    assert_eq!(
        connection::<()>(Err(Reply::disconnected())),
        "disconnected from daemon while receiving"
    );
    let reset = || "reset".to_owned();
    assert_eq!(chain_of(Reply::unreadable_status(reset())), vec!["failed to read status", "reset"]);
    assert!(!Reply::unreadable_status(reset()).is_connection());
    assert_eq!(chain_of(Reply::unreadable_line(reset())), vec!["failed to read", "reset"]);
    assert_eq!(Reply::unreadable_line(reset()).text(), "failed to read");
    assert!(Reply::unreadable_line(reset()).is_connection());
}

#[test]
fn all_headers_in_chunks() {
    assert_eq!(next_heights(0, 2), vec![0, 1, 2]);
    assert_eq!(next_heights(3, 2), Vec::<usize>::new());
    let chunk = next_heights(100_000, 1_000_000);
    assert_eq!((chunk.len(), chunk[0], chunk[99_999]), (100_000, 100_000, 199_999));
    assert_eq!(next_heights(0, 99_999).len(), 100_000);
    assert_eq!(next_heights(0, 99_998).len(), 99_999);
    let chain = headers(3);
    let mut all = AllHeaders::new(2);
    assert_eq!(all.wanted(), vec![0, 1, 2]);
    assert!(!all.take(chain[..2].to_vec()));
    assert_eq!(all.wanted(), vec![0, 1, 2]);
    assert!(all.take(chain.clone()));
    assert!(all.wanted().is_empty());
    assert_eq!(all.finish(&chain[2].block_hash()).unwrap().len(), 3);
    let mut other = AllHeaders::new(2);
    assert!(other.take(chain.clone()));
    assert!(other.finish(&chain[1].block_hash()).is_none());
    assert!(AllHeaders::new(2).finish(&[0; 32]).is_none());
    assert!(is_chain_to(&chain, &chain[2].block_hash()));
    assert!(!is_chain_to(&chain[1..].to_vec(), &chain[2].block_hash()));
    assert!(!is_chain_to(&vec![chain[0], chain[2]], &chain[2].block_hash()));
    assert!(is_chain_to(&vec![], &[0; 32]));
    assert_eq!(parse_height(&json("{\"height\": 7}")), Some(7));
    assert_eq!(parse_height(&json("{\"height\": -7}")), None);
    assert_eq!(parse_height(&json("{}")), None);
}

#[test]
fn new_headers_back_to_a_known_one() {
    let chain = headers(5);
    let mut list = HeaderList::empty();
    assert!(wants_all_headers(&list));
    let entries = list.order(&chain[..2].to_vec()).unwrap();
    list.apply(&entries, chain[1].block_hash());
    assert!(!wants_all_headers(&list));
    let best = chain[4].block_hash();
    let mut new = NewHeaders::new(best);
    while let Some(hash) = new.wanted(&list) {
        new.take(*chain.iter().find(|header| header.block_hash() == hash).unwrap());
    }
    let fetched = new.finish();
    let nonces: Vec<u32> = fetched.iter().map(|header| header.nonce).collect();
    assert_eq!(nonces, vec![2, 3, 4]);
    let entries = list.order(&fetched).unwrap();
    assert!(list.accepts(&entries, &best));
    assert!(NewHeaders::new([0; 32]).wanted(&list).is_none());
    assert_eq!(
        chain_of(header_error(&genesis_hash(), Error::message("gone"))),
        vec![
            "failed to get 000000000019d6689c085ae165831e934ff763ae46a2a6c172b3f1b60a8ce26f header",
            "gone"
        ]
    );
    assert!(NewHeaders::new(chain[0].block_hash()).wanted(&list).is_none());
}

#[test]
fn daemons_that_can_be_used() {
    let network = |version: u64| NetworkInfo { version, subversion: "/old/".to_owned() };
    let info = |pruned: bool, initialblockdownload: bool| BlockchainInfo {
        chain: "main".to_owned(),
        blocks: 1,
        headers: 1,
        bestblockhash: String::new(),
        pruned,
        initialblockdownload,
    };
    assert!(check_version(&network(160_000)).is_ok());
    assert_eq!(
        message(check_version(&network(159_999))),
        "/old/ is not supported - please use bitcoind 0.16+"
    );
    let pruned = "pruned node is not supported (use '-prune=0' bitcoind flag)";
    assert_eq!(message(check_pruned(&info(true, false))), pruned);
    let step = Validation::AskNetwork.network(&network(200_000)).unwrap();
    assert_eq!(step, Validation::AskChain);
    assert!(Validation::AskNetwork.network(&network(1)).is_err());
    assert_eq!(message(step.blockchain(&info(true, true))), pruned);
    let step = step.blockchain(&info(false, true)).unwrap();
    assert_eq!(step, Validation::AskProgress);
    let step = step.blockchain(&info(false, true)).unwrap();
    assert_eq!(step, Validation::Wait);
    assert_eq!(step.wait_seconds(), Some(3));
    assert_eq!(step.waited(), Validation::AskProgress);
    assert_eq!(step.waited().wait_seconds(), None);
    assert_eq!(Validation::Ready.waited(), Validation::Ready);
    assert_eq!(step.waited().blockchain(&info(false, false)).unwrap(), Validation::Ready);
}

#[test]
fn block_files() {
    let names: Vec<String> = ["blk00010.dat", "rev00001.dat", "blk00002.dat", "blk.tmp", "index"]
        .iter()
        .map(|name| (*name).to_owned())
        .collect();
    assert_eq!(list_blk_files(&names), vec!["blk00002.dat", "blk00010.dat"]);
}

#[test]
fn magic_numbers() {
    assert_eq!(Daemon::new(Network::Bitcoin).magic(), 0xD9B4BEF9);
    assert_eq!(Daemon::new(Network::Testnet).magic(), 0x0709110B);
    assert_eq!(Daemon::new(Network::Signet).magic(), 0x40CF030A);
    assert_eq!(Daemon::new(Network::Regtest).magic(), 0xDAB5BFFA);
}
