//! What is asked of the daemon, and what its replies mean.

use crate::chain::{
    transaction_views, Block, BlockHeader, BlockView, Transaction, TransactionView,
};
use crate::daemon::rpc::{batch_view, request_batch, Counter, RETRY_SECONDS};
use crate::daemon::values::{
    block_from_value, block_value, hash_value, header_from_value, header_value, is_hex_of,
    parse_hash, tx_from_value, tx_value,
};
use crate::errors::{outcome, outcome_view, Error, ErrorView};
use crate::hashes::{
    bytes_less, hash_from_hex, hash_in, hash_of_text, hash_text, hash_text_error, hash_to_hex,
    hex_encode, hex_text,
    lemma_hash_in, lemma_lex_total, lemma_lex_transitive, lex_less, same_bytes, same_hash,
    BlockHash, FullHash, Txid,
};
use crate::json::{item_views, lemma_array_view, number_held, Json, JsonView, NumberView};
use crate::sort::sort;
use crate::table::Table;
use crate::text::{decimal, u64_text};
use vstd::prelude::*;
use vstd::relations::sorted_by;
use vstd::slice::slice_subrange;
use vstd::utf8::*;

pub mod headers;
pub mod http;
pub mod laws;
pub mod rpc;
pub mod values;

verus! {

/// What each value is read as, up to the first that cannot be read.
pub open spec fn collected<T>(
    values: Seq<JsonView>,
    read: spec_fn(JsonView) -> Result<T, ErrorView>,
) -> Result<Seq<T>, ErrorView>
    decreases values.len(),
{
    if values.len() == 0 {
        Ok(Seq::empty())
    } else {
        match collected(values.drop_last(), read) {
            Ok(all) => match read(values.last()) {
                Ok(item) => Ok(all.push(item)),
                Err(error) => Err(error),
            },
            Err(error) => Err(error),
        }
    }
}

/// A collection fails as its first failing value does.
proof fn lemma_collected_fails<T>(
    values: Seq<JsonView>,
    read: spec_fn(JsonView) -> Result<T, ErrorView>,
    n: int,
)
    requires
        0 <= n <= values.len(),
        collected(values.take(n), read) is Err,
    ensures
        collected(values, read) == Err::<Seq<T>, ErrorView>(collected(values.take(n), read)->Err_0),
    decreases values.len() - n,
{
    if n < values.len() {
        assert(values.take(n + 1).drop_last() =~= values.take(n));
        lemma_collected_fails(values, read, n + 1);
    } else {
        assert(values.take(n) =~= values);
    }
}

/// The contents of collected items.
pub open spec fn outcome_all<T: View>(result: Result<Vec<T>, Error>) -> Result<
    Seq<T::V>,
    ErrorView,
> {
    match result {
        Ok(items) => Ok(items@.map_values(|item: T| item@)),
        Err(error) => Err(error@),
    }
}

/// The same for items that are their own contents.
pub open spec fn outcome_seq<T>(result: Result<Vec<T>, Error>) -> Result<Seq<T>, ErrorView> {
    match result {
        Ok(items) => Ok(items@),
        Err(error) => Err(error@),
    }
}

/// A hash, or the error with this text that not being able to read it causes.
pub open spec fn hash_or(value: JsonView, text: Seq<char>) -> Result<FullHash, ErrorView> {
    match hash_value(value) {
        Ok(hash) => Ok(hash),
        Err(cause) => Err(ErrorView::Caused(text, Box::new(cause))),
    }
}

/// The ids of the transactions of a block.
pub open spec fn block_txids(block: JsonView) -> Result<Seq<Txid>, ErrorView> {
    match block.field("tx"@) {
        None => Err(ErrorView::Message("block missing txids"@)),
        Some(txids) => match txids.items() {
            None => Err(ErrorView::Message("invalid block txids"@)),
            Some(items) => collected(items, |value: JsonView| hash_value(value)),
        },
    }
}

/// The ids of the transactions in the mempool, one for each value.
pub open spec fn mempool_txids(txids: JsonView) -> Result<Seq<Txid>, ErrorView> {
    match txids.items() {
        None => Err(ErrorView::Message("non-array result"@)),
        Some(items) => collected(items, |value: JsonView| hash_or(value, "invalid txid"@)),
    }
}

/// The size of a transaction in the mempool.
pub open spec fn mempool_vsize(entry: JsonView) -> Result<u32, ErrorView> {
    let size = match entry.field("size"@) {
        Some(size) => Some(size),
        None => entry.field("vsize"@),
    };
    match size {
        None => Err(ErrorView::Message("missing vsize"@)),
        Some(size) => match size.unsigned() {
            None => Err(ErrorView::Message("non-integer vsize"@)),
            Some(size) => Ok(size as u32),
        },
    }
}

/// The fee of a transaction in the mempool, as the number that the daemon gives.
pub open spec fn mempool_fee(entry: JsonView) -> Result<NumberView, ErrorView> {
    match entry.field("fee"@) {
        None => Err(ErrorView::Message("missing fee"@)),
        Some(JsonView::Number(fee)) => Ok(fee),
        Some(_) => Err(ErrorView::Message("non-float fee"@)),
    }
}

/// The id of a transaction that the daemon has taken.
pub open spec fn broadcast_txid(value: JsonView) -> Result<Txid, ErrorView> {
    match value.text() {
        None => Err(ErrorView::Message("non-string txid"@)),
        Some(text) => match hash_of_text(encode_utf8(text)) {
            Some(bytes) => Ok(hash_in(bytes)),
            None => Err(ErrorView::caused_by("failed to parse txid"@, hash_text_error(text))),
        },
    }
}

/// A hash as a parameter.
pub open spec fn hash_param(hash: FullHash) -> JsonView {
    JsonView::Str(hash_text(hash))
}

/// The chains that there are.
#[derive(Clone, Copy, Debug, PartialEq, Eq, Structural)]
pub enum Network {
    Bitcoin,
    Testnet,
    Signet,
    Regtest,
}

/// `bitcoin::network::constants::Network::magic`: the number with which the messages and the
/// block files of a chain begin.
#[verifier::external_body]
fn network_magic(network: Network) -> (magic: u32)
    ensures
        magic == match network {
            Network::Bitcoin => 0xD9B4BEF9u32,
            Network::Testnet => 0x0709110Bu32,
            Network::Signet => 0x40CF030Au32,
            Network::Regtest => 0xDAB5BFFAu32,
        },
{
    match network {
        Network::Bitcoin => bitcoin::network::constants::Network::Bitcoin,
        Network::Testnet => bitcoin::network::constants::Network::Testnet,
        Network::Signet => bitcoin::network::constants::Network::Signet,
        Network::Regtest => bitcoin::network::constants::Network::Regtest,
    }
    .magic()
}

/// What the daemon says of its chain.
#[derive(Debug)]
pub struct BlockchainInfo {
    pub chain: String,
    pub blocks: u32,
    pub headers: u32,
    pub bestblockhash: String,
    pub pruned: bool,
    pub initialblockdownload: bool,
}

/// What the daemon says of itself.
#[derive(Debug)]
pub struct NetworkInfo {
    pub version: u64,
    pub subversion: String,
}

/// The first version of the daemon that is supported.
pub const MIN_VERSION: u64 = 16_00_00;

/// Fails if the daemon is older than the first version that is supported.
pub fn check_version(info: &NetworkInfo) -> (result: Result<(), Error>)
    ensures
        outcome(result) == if info.version < MIN_VERSION {
            Err(
                ErrorView::Message(
                    info.subversion@ + " is not supported - please use bitcoind 0.16+"@,
                ),
            )
        } else {
            Ok(())
        },
{
    if info.version < MIN_VERSION {
        let text = info.subversion.clone().concat(" is not supported - please use bitcoind 0.16+");
        return Err(Error::Message(text));
    }
    Ok(())
}

/// Fails if the daemon does not keep all blocks.
pub fn check_pruned(info: &BlockchainInfo) -> (result: Result<(), Error>)
    ensures
        outcome(result) == if info.pruned {
            Err(
                ErrorView::Message("pruned node is not supported (use '-prune=0' bitcoind flag)"@),
            )
        } else {
            Ok(())
        },
{
    if info.pruned {
        return Err(Error::message("pruned node is not supported (use '-prune=0' bitcoind flag)"));
    }
    Ok(())
}

/// How far the validation of a daemon has got.
#[derive(Clone, Copy, Debug, PartialEq, Eq, Structural)]
pub enum Validation {
    /// It is to be asked for its version.
    AskNetwork,
    /// It is to be asked whether it keeps all blocks.
    AskChain,
    /// It is to be asked whether it has all blocks.
    AskProgress,
    /// It is to be given time to get all blocks.
    Wait,
    /// It can be used.
    Ready,
}

impl Validation {
    /// What follows once the daemon has said what it is.
    pub fn network(self, info: &NetworkInfo) -> (next: Result<Validation, Error>)
        ensures
            match next {
                Ok(next) => info.version >= MIN_VERSION && next == Validation::AskChain,
                Err(error) => info.version < MIN_VERSION && error@ == ErrorView::Message(
                    info.subversion@ + " is not supported - please use bitcoind 0.16+"@,
                ),
            },
    {
        check_version(info)?;
        Ok(Validation::AskChain)
    }

    /// How many seconds the daemon is to be given now, if it is.
    pub fn wait_seconds(self) -> (seconds: Option<u64>)
        ensures
            seconds == if self == Validation::Wait {
                Some(RETRY_SECONDS)
            } else {
                None
            },
    {
        if self == Validation::Wait {
            Some(RETRY_SECONDS)
        } else {
            None
        }
    }

    /// What follows once the daemon has been given time.
    pub fn waited(self) -> (next: Validation)
        ensures
            next == if self == Validation::Wait {
                Validation::AskProgress
            } else {
                self
            },
    {
        if self == Validation::Wait {
            Validation::AskProgress
        } else {
            self
        }
    }

    /// What follows once the daemon has told of its chain: it is refused if it drops blocks,
    /// and waited for until it has them all.
    pub fn blockchain(self, info: &BlockchainInfo) -> (next: Result<Validation, Error>)
        ensures
            match next {
                Ok(next) => next == if self == Validation::AskChain {
                    Validation::AskProgress
                } else if info.initialblockdownload {
                    Validation::Wait
                } else {
                    Validation::Ready
                },
                Err(error) => error@ == ErrorView::Message(
                    "pruned node is not supported (use '-prune=0' bitcoind flag)"@,
                ),
            },
            next is Err <==> self == Validation::AskChain && info.pruned,
    {
        if self == Validation::AskChain {
            check_pruned(info)?;
            return Ok(Validation::AskProgress);
        }
        if info.initialblockdownload {
            Ok(Validation::Wait)
        } else {
            Ok(Validation::Ready)
        }
    }
}

/// Whether a file in the directory of blocks holds blocks.
pub open spec fn is_blk_name(name: Seq<u8>) -> bool {
    encode_utf8("blk"@).is_prefix_of(name) && encode_utf8(".dat"@).is_suffix_of(name)
}

/// Whether a file in the directory of blocks holds blocks.
fn is_blk_file(name: &str) -> (is_blk: bool)
    ensures
        is_blk == is_blk_name(encode_utf8(name@)),
{
    let (bytes, suffix) = (name.as_bytes(), ".dat".as_bytes());
    if !crate::store::begins_with(bytes, "blk".as_bytes()) || bytes.len() < suffix.len() {
        return false;
    }
    let end = slice_subrange(bytes, bytes.len() - suffix.len(), bytes.len());
    same_bytes(end, suffix)
}

/// The order of names by their bytes.
pub open spec fn name_order(a: &str, b: &str) -> bool {
    !lex_less(encode_utf8(b@), encode_utf8(a@))
}

/// The names of the files that hold blocks, among the names of all files, in their order.
pub fn list_blk_files<'a>(names: &'a Vec<String>) -> (files: Vec<&'a str>)
    ensures
        sorted_by(files@, |a: &str, b: &str| name_order(a, b)),
        exists|chosen: Seq<&str>|
            files@.to_multiset() == #[trigger] chosen.to_multiset() && chosen.map_values(
                |name: &str| name@,
            ) == names@.map_values(|name: String| name@).filter(
                |name: Seq<char>| is_blk_name(encode_utf8(name)),
            ),
{
    let mut chosen: Vec<&'a str> = Vec::new();
    let ghost all = names@.map_values(|name: String| name@);
    let ghost pred = |name: Seq<char>| is_blk_name(encode_utf8(name));
    let ghost text = |name: &str| name@;
    assert(all.take(0) =~= Seq::empty());
    for i in 0..names.len()
        invariant
            all == names@.map_values(|name: String| name@),
            pred == (|name: Seq<char>| is_blk_name(encode_utf8(name))),
            text == (|name: &str| name@),
            chosen@.map_values(text) =~= all.take(i as int).filter(pred),
    {
        let name = names[i].as_str();
        let ghost before = chosen@.map_values(text);
        assert(all.take(i + 1) =~= all.take(i as int).push(name@));
        proof {
            all.take(i as int).lemma_filter_push(name@, pred);
        }
        if is_blk_file(name) {
            chosen.push(name);
            assert(chosen@.map_values(text) =~= before.push(name@));
        }
    }
    assert(all.take(all.len() as int) =~= all);
    let before = |a: &'a str, b: &'a str| -> (before: bool)
        ensures
            before == name_order(a, b),
        { !bytes_less(b.as_bytes(), a.as_bytes()) };
    let ghost leq = |a: &'a str, b: &'a str| name_order(a, b);
    proof {
        assert forall|a: &'a str, b: &'a str| #[trigger] leq(a, b) || leq(b, a) by {
            lemma_lex_total(encode_utf8(a@), encode_utf8(b@));
        }
        assert forall|a: &'a str, b: &'a str, c: &'a str| #[trigger]
            leq(a, b) && #[trigger] leq(b, c) implies leq(a, c) by {
            let (x, y, z) = (encode_utf8(a@), encode_utf8(b@), encode_utf8(c@));
            lemma_lex_total(x, y);
            lemma_lex_total(y, z);
            lemma_lex_total(x, z);
            if lex_less(z, x) && lex_less(x, y) {
                lemma_lex_transitive(z, x, y);
            }
        }
    }
    let ghost picked = chosen@;
    let files = sort(chosen, &before, Ghost(leq));
    assert(files@.to_multiset() == picked.to_multiset());
    files
}

/// Parameters.
fn params(items: Vec<Json>) -> (params: Json)
    ensures
        params@ == JsonView::Array(item_views(items@)),
{
    proof {
        lemma_array_view(items);
    }
    Json::Array(items)
}

/// What is asked of the daemon, and what its replies mean.
pub struct Daemon {
    network: Network,
    message_id: Counter,
}

impl Daemon {
    /// The chain that the daemon follows.
    pub closed spec fn spec_network(&self) -> Network {
        self.network
    }

    /// The id of the last batch of requests.
    pub closed spec fn last_id(&self) -> u64 {
        self.message_id.last()
    }

    /// A daemon that follows `network`, of which nothing has been asked yet.
    pub fn new(network: Network) -> (daemon: Daemon)
        ensures
            daemon.spec_network() == network,
            daemon.last_id() == 0,
    {
        Daemon { network, message_id: Counter::new() }
    }

    /// The same daemon, to be asked over another connection.
    pub fn reconnect(&self) -> (daemon: Daemon)
        ensures
            daemon.spec_network() == self.spec_network(),
            daemon.last_id() == 0,
    {
        Daemon { network: self.network, message_id: Counter::new() }
    }

    /// The number with which the block files begin.
    pub fn magic(&self) -> (magic: u32)
        ensures
            magic == match self.spec_network() {
                Network::Bitcoin => 0xD9B4BEF9u32,
                Network::Testnet => 0x0709110Bu32,
                Network::Signet => 0x40CF030Au32,
                Network::Regtest => 0xDAB5BFFAu32,
            },
    {
        network_magic(self.network)
    }

    /// Whether there is an id for another batch of requests.
    pub fn has_next_id(&self) -> (has_next: bool)
        ensures
            has_next == (self.last_id() < u64::MAX),
    {
        self.message_id.has_next()
    }

    /// A batch of requests, with an id of its own.
    pub fn batch(&mut self, method: &str, params_list: Vec<Json>) -> (batch: (u64, Json))
        requires
            old(self).last_id() < u64::MAX,
        ensures
            batch.0 == old(self).last_id() + 1,
            batch.1@ == batch_view(method@, item_views(params_list@), batch.0),
            final(self).last_id() == batch.0,
            final(self).spec_network() == old(self).spec_network(),
    {
        let id: u64 = self.message_id.next();
        (id, request_batch(method, params_list, id))
    }

    /// The parameters of a request without any.
    pub fn no_params() -> (list: Json)
        ensures
            list@ == JsonView::Array(Seq::empty()),
    {
        let items: Vec<Json> = Vec::new();
        assert(item_views(items@) =~= Seq::empty());
        params(items)
    }

    /// The parameters of a request for a block, header or transaction.
    pub fn hash_params(hash: &FullHash, verbose: bool) -> (list: Json)
        ensures
            list@ == JsonView::Array(seq![hash_param(*hash), JsonView::Bool(verbose)]),
    {
        let items: Vec<Json> = vec![Json::Str(hash_to_hex(hash)), Json::Bool(verbose)];
        assert(item_views(items@) =~= seq![hash_param(*hash), JsonView::Bool(verbose)]);
        params(items)
    }

    /// The parameters of a request for the description of a header, or of an entry of the
    /// mempool.
    pub fn hash_only_params(hash: &FullHash) -> (list: Json)
        ensures
            list@ == JsonView::Array(seq![hash_param(*hash)]),
    {
        let items: Vec<Json> = vec![Json::Str(hash_to_hex(hash))];
        assert(item_views(items@) =~= seq![hash_param(*hash)]);
        params(items)
    }

    /// The parameters of a request for the ids of the transactions of a block.
    pub fn blocktxids_params(blockhash: &BlockHash) -> (list: Json)
        ensures
            list@ == JsonView::Array(
                seq![hash_param(*blockhash), JsonView::Number(NumberView::Unsigned(1))],
            ),
    {
        let items: Vec<Json> = vec![
            Json::Str(hash_to_hex(blockhash)),
            Json::unsigned(1),
        ];
        assert(item_views(items@) =~= seq![
            hash_param(*blockhash),
            JsonView::Number(NumberView::Unsigned(1)),
        ]);
        params(items)
    }

    /// The parameters of a request for the header at a height.
    pub fn height_params(height: usize) -> (list: Json)
        ensures
            list@ == JsonView::Array(
                seq![JsonView::Str(decimal(height as int)), JsonView::Bool(false)],
            ),
    {
        let items: Vec<Json> = vec![Json::Str(u64_text(height as u64)), Json::Bool(false)];
        assert(item_views(items@) =~= seq![
            JsonView::Str(decimal(height as int)),
            JsonView::Bool(false),
        ]);
        params(items)
    }

    /// The parameters of a request for the ids of the transactions in the mempool.
    pub fn mempooltxids_params() -> (list: Json)
        ensures
            list@ == JsonView::Array(seq![JsonView::Bool(false)]),
    {
        let items: Vec<Json> = vec![Json::Bool(false)];
        assert(item_views(items@) =~= seq![JsonView::Bool(false)]);
        params(items)
    }

    /// The parameters of a request to send out a transaction.
    pub fn broadcast_params(tx: &Transaction) -> (list: Json)
        ensures
            list@ == JsonView::Array(seq![JsonView::Str(hex_text(tx@.raw))]),
    {
        let items: Vec<Json> = vec![Json::Str(hex_encode(tx.raw.as_slice()))];
        assert(item_views(items@) =~= seq![JsonView::Str(hex_text(tx@.raw))]);
        params(items)
    }

    /// The hash of the best block.
    pub fn getbestblockhash(value: &Json) -> (hash: Result<BlockHash, Error>)
        ensures
            outcome(hash) == hash_or(value@, "invalid blockhash"@),
    {
        match parse_hash(value) {
            Ok(hash) => Ok(hash),
            Err(cause) => Err(Error::caused("invalid blockhash", cause)),
        }
    }

    /// A header.
    pub fn getblockheader(value: &Json) -> (header: Result<BlockHeader, Error>)
        ensures
            outcome(header) == header_value(value@),
    {
        header_from_value(value)
    }

    /// Headers.
    pub fn getblockheaders(values: &Vec<Json>) -> (headers: Result<Vec<BlockHeader>, Error>)
        ensures
            outcome_seq(headers) == collected(
                item_views(values@),
                |value: JsonView| header_value(value),
            ),
    {
        let ghost all = item_views(values@);
        let ghost read = |value: JsonView| header_value(value);
        let mut result: Vec<BlockHeader> = Vec::new();
        assert(all.take(0) =~= Seq::empty());
        for i in 0..values.len()
            invariant
                all == item_views(values@),
                read == (|value: JsonView| header_value(value)),
                collected(all.take(i as int), read) == Ok::<Seq<BlockHeader>, ErrorView>(result@),
        {
            assert(all.take(i + 1).drop_last() =~= all.take(i as int));
            assert(all[i as int] == values[i as int]@);
            match header_from_value(&values[i]) {
                Ok(header) => result.push(header),
                Err(error) => {
                    proof {
                        lemma_collected_fails(all, read, i + 1);
                    }
                    return Err(error);
                },
            }
        }
        assert(all.take(all.len() as int) =~= all);
        Ok(result)
    }

    /// The block with this hash; nothing if the value holds a block with another one.
    pub fn getblock(value: &Json, blockhash: &BlockHash) -> (block: Result<Option<Block>, Error>)
        ensures
            match (block, block_value(value@)) {
                (Ok(Some(block)), Ok(read)) => block@ == read && read.header.spec_block_hash()
                    == *blockhash && read.hashable(),
                (Ok(None), Ok(read)) => read.header.spec_block_hash() != *blockhash,
                (Err(error), Err(wanted)) => error@ == wanted,
                _ => false,
            },
    {
        match block_from_value(value) {
            Ok(block) => if same_hash(&block.header.block_hash(), blockhash) {
                Ok(Some(block))
            } else {
                Ok(None)
            },
            Err(error) => Err(error),
        }
    }

    /// Blocks.
    pub fn getblocks(values: &Vec<Json>) -> (blocks: Result<Vec<Block>, Error>)
        ensures
            outcome_all(blocks) == collected(
                item_views(values@),
                |value: JsonView| block_value(value),
            ),
            blocks is Ok ==> forall|i: int|
                0 <= i < blocks.unwrap().len() ==> (#[trigger] blocks.unwrap()[i])@.hashable(),
    {
        let ghost all = item_views(values@);
        let ghost read = |value: JsonView| block_value(value);
        let ghost seen = |block: Block| block@;
        let mut result: Vec<Block> = Vec::new();
        assert(all.take(0) =~= Seq::empty());
        assert(result@.map_values(seen) =~= Seq::empty());
        for i in 0..values.len()
            invariant
                all == item_views(values@),
                read == (|value: JsonView| block_value(value)),
                seen == (|block: Block| block@),
                collected(all.take(i as int), read) == Ok::<Seq<BlockView>, ErrorView>(
                    result@.map_values(seen),
                ),
                forall|j: int| 0 <= j < result.len() ==> (#[trigger] result[j])@.hashable(),
        {
            let ghost before = result@.map_values(seen);
            assert(all.take(i + 1).drop_last() =~= all.take(i as int));
            assert(all[i as int] == values[i as int]@);
            match block_from_value(&values[i]) {
                Ok(block) => {
                    result.push(block);
                    assert(result@.map_values(seen) =~= before.push(block@));
                },
                Err(error) => {
                    proof {
                        lemma_collected_fails(all, read, i + 1);
                    }
                    return Err(error);
                },
            }
        }
        assert(all.take(all.len() as int) =~= all);
        Ok(result)
    }

    /// A transaction.
    pub fn gettransaction(value: &Json) -> (tx: Result<Transaction, Error>)
        ensures
            outcome_view(tx) == tx_value(value@),
            tx matches Ok(tx) ==> tx@.hashable() && is_hex_of(value@, tx@.raw),
    {
        tx_from_value(value)
    }

    /// As many transactions as were asked for; nothing if there are more or fewer.
    pub fn gettransactions(values: &Vec<Json>, count: usize) -> (txs: Result<
        Option<Vec<Transaction>>,
        Error,
    >)
        ensures
            match (txs, collected(item_views(values@), |value: JsonView| tx_value(value))) {
                (Ok(Some(txs)), Ok(read)) => transaction_views(txs@) == read && read.len() == count
                    && forall|i: int| 0 <= i < txs.len() ==> (#[trigger] txs[i])@.hashable(),
                (Ok(None), Ok(read)) => read.len() != count,
                (Err(error), Err(wanted)) => error@ == wanted,
                _ => false,
            },
    {
        match Daemon::read_transactions(values) {
            Ok(txs) => {
                assert(transaction_views(txs@).len() == txs.len());
                if txs.len() == count {
                    Ok(Some(txs))
                } else {
                    Ok(None)
                }
            },
            Err(error) => Err(error),
        }
    }

    /// Transactions.
    fn read_transactions(values: &Vec<Json>) -> (txs: Result<Vec<Transaction>, Error>)
        ensures
            outcome_all(txs) == collected(item_views(values@), |value: JsonView| tx_value(value)),
            txs is Ok ==> forall|i: int|
                0 <= i < txs.unwrap().len() ==> (#[trigger] txs.unwrap()[i])@.hashable(),
    {
        let ghost all = item_views(values@);
        let ghost read = |value: JsonView| tx_value(value);
        let ghost seen = |tx: Transaction| tx@;
        let mut result: Vec<Transaction> = Vec::new();
        assert(all.take(0) =~= Seq::empty());
        assert(result@.map_values(seen) =~= Seq::empty());
        for i in 0..values.len()
            invariant
                all == item_views(values@),
                read == (|value: JsonView| tx_value(value)),
                seen == (|tx: Transaction| tx@),
                collected(all.take(i as int), read) == Ok::<Seq<TransactionView>, ErrorView>(
                    result@.map_values(seen),
                ),
                forall|j: int| 0 <= j < result.len() ==> (#[trigger] result[j])@.hashable(),
        {
            let ghost before = result@.map_values(seen);
            assert(all.take(i + 1).drop_last() =~= all.take(i as int));
            assert(all[i as int] == values[i as int]@);
            match tx_from_value(&values[i]) {
                Ok(tx) => {
                    result.push(tx);
                    assert(result@.map_values(seen) =~= before.push(tx@));
                },
                Err(error) => {
                    proof {
                        lemma_collected_fails(all, read, i + 1);
                    }
                    return Err(error);
                },
            }
        }
        assert(all.take(all.len() as int) =~= all);
        Ok(result)
    }

    /// The ids of the transactions of a block.
    pub fn load_blocktxids(block: &Json) -> (txids: Result<Vec<Txid>, Error>)
        ensures
            outcome_seq(txids) == block_txids(block@),
    {
        let values = match block.get("tx") {
            Some(txids) => match txids.as_array() {
                Some(values) => values,
                None => {
                    return Err(Error::message("invalid block txids"));
                },
            },
            None => {
                return Err(Error::message("block missing txids"));
            },
        };
        let ghost all = item_views(values@);
        let ghost read = |value: JsonView| hash_value(value);
        let mut result: Vec<Txid> = Vec::new();
        assert(all.take(0) =~= Seq::empty());
        for i in 0..values.len()
            invariant
                all == item_views(values@),
                read == (|value: JsonView| hash_value(value)),
                block_txids(block@) == collected(all, read),
                collected(all.take(i as int), read) == Ok::<Seq<Txid>, ErrorView>(result@),
        {
            assert(all.take(i + 1).drop_last() =~= all.take(i as int));
            assert(all[i as int] == values[i as int]@);
            match parse_hash(&values[i]) {
                Ok(txid) => result.push(txid),
                Err(error) => {
                    proof {
                        lemma_collected_fails(all, read, i + 1);
                    }
                    return Err(error);
                },
            }
        }
        assert(all.take(all.len() as int) =~= all);
        Ok(result)
    }

    /// The ids of the transactions in the mempool, each once.
    pub fn getmempooltxids(value: &Json) -> (txids: Result<Vec<Txid>, Error>)
        ensures
            match (txids, mempool_txids(value@)) {
                (Ok(txids), Ok(all)) => txids@.no_duplicates() && forall|txid: Txid| #[trigger]
                    txids@.contains(txid) <==> all.contains(txid),
                (Err(error), Err(wanted)) => error@ == wanted,
                _ => false,
            },
    {
        let values = match value.as_array() {
            Some(values) => values,
            None => {
                return Err(Error::message("non-array result"));
            },
        };
        let ghost all = item_views(values@);
        let ghost read = |value: JsonView| hash_or(value, "invalid txid"@);
        let mut seen: Table<Txid, ()> = Table::new();
        let ghost mut found: Seq<Txid> = Seq::empty();
        assert(all.take(0) =~= Seq::empty());
        for i in 0..values.len()
            invariant
                all == item_views(values@),
                read == (|value: JsonView| hash_or(value, "invalid txid"@)),
                mempool_txids(value@) == collected(all, read),
                collected(all.take(i as int), read) == Ok::<Seq<Txid>, ErrorView>(found),
                seen.wf(),
                forall|txid: Txid| #[trigger] seen@.contains_key(txid) <==> found.contains(txid),
        {
            assert(all.take(i + 1).drop_last() =~= all.take(i as int));
            assert(all[i as int] == values[i as int]@);
            match parse_hash(&values[i]) {
                Ok(txid) => {
                    let ghost (before, known) = (found, seen@);
                    seen.insert(txid, ());
                    proof {
                        found = found.push(txid);
                        assert(found.last() == txid);
                        assert forall|other: Txid| #[trigger] seen@.contains_key(other)
                            <==> found.contains(other) by {
                            assert(known.contains_key(other) <==> before.contains(other));
                            if before.contains(other) {
                                let k = choose|k: int| 0 <= k < before.len() && before[k] == other;
                                assert(found[k] == other);
                            }
                            if found.contains(other) && other != txid {
                                let k = choose|k: int| 0 <= k < found.len() && found[k] == other;
                                assert(before[k] == other);
                            }
                        }
                    }
                },
                Err(cause) => {
                    proof {
                        lemma_collected_fails(all, read, i + 1);
                    }
                    return Err(Error::caused("invalid txid", cause));
                },
            }
        }
        assert(all.take(all.len() as int) =~= all);
        let txids = seen.keys();
        assert forall|txid: Txid| #[trigger] txids@.contains(txid) <==> found.contains(txid) by {
            assert(seen@.contains_key(txid) <==> found.contains(txid));
        }
        Ok(txids)
    }

    /// The fee of an entry of the mempool, as the number that the daemon gives.
    pub fn mempool_fee(entry: &Json) -> (fee: Result<&serde_json::Number, Error>)
        ensures
            match fee {
                Ok(fee) => mempool_fee(entry@) == Ok::<NumberView, ErrorView>(number_held(*fee)),
                Err(error) => mempool_fee(entry@) == Err::<NumberView, ErrorView>(error@),
            },
    {
        match entry.get("fee") {
            None => Err(Error::message("missing fee")),
            Some(Json::Number(fee)) => Ok(fee),
            Some(_) => Err(Error::message("non-float fee")),
        }
    }

    /// The size of an entry of the mempool, under one of the two names that it has had.
    pub fn mempool_vsize(entry: &Json) -> (vsize: Result<u32, Error>)
        ensures
            outcome(vsize) == mempool_vsize(entry@),
    {
        let size = match entry.get("size") {
            Some(size) => Some(size),
            None => entry.get("vsize"),
        };
        match size {
            None => Err(Error::message("missing vsize")),
            Some(size) => match size.as_u64() {
                None => Err(Error::message("non-integer vsize")),
                Some(size) => Ok(size as u32),
            },
        }
    }

    /// The id of a transaction that the daemon has taken.
    pub fn broadcast(value: &Json) -> (txid: Result<Txid, Error>)
        ensures
            outcome(txid) == broadcast_txid(value@),
    {
        match value.as_str() {
            None => Err(Error::message("non-string txid")),
            Some(text) => match hash_from_hex(text) {
                Ok(txid) => {
                    proof {
                        lemma_hash_in(txid);
                    }
                    Ok(txid)
                },
                Err(cause) => Err(Error::caused_by("failed to parse txid", cause)),
            },
        }
    }
}

} // verus!
