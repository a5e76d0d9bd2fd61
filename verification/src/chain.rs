//! Transactions, blocks and headers, and their consensus encoding.

use crate::hashes::{sha256d, BlockHash, FullHash, Txid};
use vstd::bytes::*;
use vstd::prelude::*;
use vstd::slice::slice_to_vec;

verus! {

/// Names one output of a transaction.
#[derive(Clone, Copy, Debug)]
pub struct OutPoint {
    pub txid: Txid,
    pub vout: u32,
}

/// An input of a transaction.
#[derive(Clone, Copy, Debug)]
pub struct TxIn {
    pub previous_output: OutPoint,
}

/// An output of a transaction.
#[derive(Debug)]
pub struct TxOut {
    pub value: u64,
    pub script_pubkey: Vec<u8>,
}

/// A transaction: its id, what it spends and pays, its weight and its serialized form.
#[derive(Debug)]
pub struct Transaction {
    pub txid: Txid,
    pub input: Vec<TxIn>,
    pub output: Vec<TxOut>,
    pub weight: usize,
    pub raw: Vec<u8>,
}

/// A block header.
#[derive(Clone, Copy, Debug)]
pub struct BlockHeader {
    pub version: i32,
    pub prev_blockhash: BlockHash,
    pub merkle_root: FullHash,
    pub time: u32,
    pub bits: u32,
    pub nonce: u32,
}

/// A block.
#[derive(Debug)]
pub struct Block {
    pub header: BlockHeader,
    pub txdata: Vec<Transaction>,
}

/// The contents of a [`TxOut`].
#[verifier::ext_equal]
pub struct TxOutView {
    pub value: u64,
    pub script_pubkey: Seq<u8>,
}

impl View for TxOut {
    type V = TxOutView;

    open spec fn view(&self) -> TxOutView {
        TxOutView { value: self.value, script_pubkey: self.script_pubkey@ }
    }
}

/// The contents of a [`Transaction`].
#[verifier::ext_equal]
pub struct TransactionView {
    pub txid: Txid,
    pub input: Seq<TxIn>,
    pub output: Seq<TxOutView>,
    pub weight: usize,
    pub raw: Seq<u8>,
}

impl View for Transaction {
    type V = TransactionView;

    open spec fn view(&self) -> TransactionView {
        TransactionView {
            txid: self.txid,
            input: self.input@,
            output: self.output@.map_values(|output: TxOut| output@),
            weight: self.weight,
            raw: self.raw@,
        }
    }
}

/// The contents of each transaction of a vector.
pub open spec fn transaction_views(txs: Seq<Transaction>) -> Seq<TransactionView> {
    txs.map_values(|tx: Transaction| tx@)
}

/// The contents of a [`Block`].
#[verifier::ext_equal]
pub struct BlockView {
    pub header: BlockHeader,
    pub txdata: Seq<TransactionView>,
}

impl View for Block {
    type V = BlockView;

    open spec fn view(&self) -> BlockView {
        BlockView { header: self.header, txdata: transaction_views(self.txdata@) }
    }
}

impl BlockView {
    /// Every script of every transaction is short enough to be hashed.
    pub open spec fn hashable(self) -> bool {
        forall|i: int| 0 <= i < self.txdata.len() ==> (#[trigger] self.txdata[i]).hashable()
    }
}

/// The contents of each block of a vector.
pub open spec fn block_views(blocks: Seq<Block>) -> Seq<BlockView> {
    blocks.map_values(|block: Block| block@)
}

impl TransactionView {
    /// Every script is short enough to be hashed.
    pub open spec fn hashable(self) -> bool {
        forall|i: int|
            0 <= i < self.output.len() ==> (#[trigger] self.output[i]).script_pubkey.len()
                <= crate::hashes::MAX_DIGEST_INPUT
    }
}

impl BlockHeader {
    /// The consensus encoding: 80 bytes, numbers with the lowest byte first.
    pub open spec fn bytes(self) -> Seq<u8> {
        spec_u32_to_le_bytes(self.version as u32) + self.prev_blockhash@ + self.merkle_root@
            + spec_u32_to_le_bytes(self.time) + spec_u32_to_le_bytes(self.bits)
            + spec_u32_to_le_bytes(self.nonce)
    }

    /// The hash that names the block.
    pub open spec fn spec_block_hash(self) -> BlockHash {
        sha256d(self.bytes())
    }

    /// The hash that names the block.
    pub fn block_hash(&self) -> (hash: BlockHash)
        ensures
            hash == self.spec_block_hash(),
    {
        header_block_hash(self)
    }
}

/// Headers with the same encoding are the same header.
pub proof fn law_header_encoding_injective(a: BlockHeader, b: BlockHeader)
    requires
        a.bytes() == b.bytes(),
    ensures
        a == b,
        a.bytes().len() == 80,
{
    lemma_auto_spec_u32_to_from_le_bytes();
    let (s, t) = (a.bytes(), b.bytes());
    assert(s.subrange(0, 4) =~= spec_u32_to_le_bytes(a.version as u32));
    assert(t.subrange(0, 4) =~= spec_u32_to_le_bytes(b.version as u32));
    assert(s.subrange(4, 36) =~= a.prev_blockhash@);
    assert(t.subrange(4, 36) =~= b.prev_blockhash@);
    assert(s.subrange(36, 68) =~= a.merkle_root@);
    assert(t.subrange(36, 68) =~= b.merkle_root@);
    assert(s.subrange(68, 72) =~= spec_u32_to_le_bytes(a.time));
    assert(t.subrange(68, 72) =~= spec_u32_to_le_bytes(b.time));
    assert(s.subrange(72, 76) =~= spec_u32_to_le_bytes(a.bits));
    assert(t.subrange(72, 76) =~= spec_u32_to_le_bytes(b.bits));
    assert(s.subrange(76, 80) =~= spec_u32_to_le_bytes(a.nonce));
    assert(t.subrange(76, 80) =~= spec_u32_to_le_bytes(b.nonce));
    crate::hashes::lemma_hash_eq(a.prev_blockhash, b.prev_blockhash);
    crate::hashes::lemma_hash_eq(a.merkle_root, b.merkle_root);
    let (v, w) = (a.version, b.version);
    assert(v as u32 == w as u32 ==> v == w) by (bit_vector);
}

/// The header whose encoding these bytes are.
pub open spec fn header_in(bytes: Seq<u8>) -> BlockHeader {
    choose|header: BlockHeader| header.bytes() == bytes
}

/// The encoding of a header is that of no other header.
pub proof fn lemma_header_in(header: BlockHeader)
    ensures
        header_in(header.bytes()) == header,
{
    law_header_encoding_injective(header_in(header.bytes()), header);
}

/// A copy of a transaction.
pub fn copy_transaction(tx: &Transaction) -> (copy: Transaction)
    ensures
        copy@ == tx@,
{
    let mut output: Vec<TxOut> = Vec::new();
    let ghost seen = |output: TxOut| output@;
    for i in 0..tx.output.len()
        invariant
            seen == (|output: TxOut| output@),
            output@.map_values(seen) =~= tx.output@.map_values(seen).take(i as int),
    {
        let ghost before = output@.map_values(seen);
        let out = TxOut {
            value: tx.output[i].value,
            script_pubkey: slice_to_vec(tx.output[i].script_pubkey.as_slice()),
        };
        assert(out@ == tx.output[i as int]@);
        output.push(out);
        assert(output@.map_values(seen) =~= before.push(out@));
    }
    let copy = Transaction {
        txid: tx.txid,
        input: slice_to_vec(tx.input.as_slice()),
        output,
        weight: tx.weight,
        raw: slice_to_vec(tx.raw.as_slice()),
    };
    assert(copy@.output =~= tx@.output);
    copy
}

/// `bitcoin`'s `BlockHeader::block_hash`: the double SHA-256 of the consensus encoding.
#[verifier::external_body]
fn header_block_hash(header: &BlockHeader) -> (hash: BlockHash)
    ensures
        hash == sha256d(header.bytes()),
{
    let header = bitcoin::blockdata::block::BlockHeader {
        version: header.version,
        prev_blockhash: bitcoin_hashes::Hash::from_inner(header.prev_blockhash),
        merkle_root: bitcoin_hashes::Hash::from_inner(header.merkle_root),
        time: header.time,
        bits: header.bits,
        nonce: header.nonce,
    };
    bitcoin_hashes::Hash::into_inner(header.block_hash())
}

/// `bitcoin::consensus::encode::serialize` of a header: its fields in order, numbers with the
/// lowest byte first.
#[verifier::external_body]
pub(crate) fn serialize_header(header: &BlockHeader) -> (bytes: Vec<u8>)
    ensures
        bytes@ == header.bytes(),
{
    let header = bitcoin::blockdata::block::BlockHeader {
        version: header.version,
        prev_blockhash: bitcoin_hashes::Hash::from_inner(header.prev_blockhash),
        merkle_root: bitcoin_hashes::Hash::from_inner(header.merkle_root),
        time: header.time,
        bits: header.bits,
        nonce: header.nonce,
    };
    bitcoin::consensus::encode::serialize(&header)
}

/// What the error of `bitcoin::consensus::encode::deserialize` says of bytes that are no header.
pub uninterp spec fn header_bytes_error(bytes: Seq<u8>) -> Seq<char>;

/// `bitcoin::consensus::encode::deserialize` of a header, with the text of its error: it
/// accepts exactly 80 bytes, and gives the header whose encoding they are. What the error says
/// is a function of the bytes alone.
#[verifier::external_body]
pub(crate) fn deserialize_header(bytes: &[u8]) -> (header: Result<BlockHeader, String>)
    ensures
        match header {
            Ok(header) => bytes@.len() == 80 && header.bytes() == bytes@,
            Err(error) => bytes@.len() != 80 && error@ == header_bytes_error(bytes@),
        },
{
    let header: bitcoin::blockdata::block::BlockHeader =
        bitcoin::consensus::encode::deserialize(bytes).map_err(|error| error.to_string())?;
    Ok(BlockHeader {
        version: header.version,
        prev_blockhash: bitcoin_hashes::Hash::into_inner(header.prev_blockhash),
        merkle_root: bitcoin_hashes::Hash::into_inner(header.merkle_root),
        time: header.time,
        bits: header.bits,
        nonce: header.nonce,
    })
}

/// `bitcoin::consensus::encode::serialize` of a block hash: its 32 bytes.
#[verifier::external_body]
pub(crate) fn serialize_blockhash(hash: &BlockHash) -> (bytes: Vec<u8>)
    ensures
        bytes@ == hash@,
{
    let hash: bitcoin::hash_types::BlockHash = bitcoin_hashes::Hash::from_inner(*hash);
    bitcoin::consensus::encode::serialize(&hash)
}

/// `bitcoin::consensus::encode::deserialize` of a block hash: it accepts exactly 32 bytes,
/// which are the hash.
#[verifier::external_body]
pub(crate) fn deserialize_blockhash(bytes: &[u8]) -> (hash: Option<BlockHash>)
    ensures
        hash is Some <==> bytes@.len() == 32,
        hash is Some ==> hash.unwrap()@ == bytes@,
{
    let hash: bitcoin::hash_types::BlockHash =
        bitcoin::consensus::encode::deserialize(bytes).ok()?;
    Some(bitcoin_hashes::Hash::into_inner(hash))
}

/// The transaction of which `bytes` is the consensus encoding, as `bitcoin` reads it, or what
/// its error says if it is not one.
pub uninterp spec fn parsed_transaction(bytes: Seq<u8>) -> Result<TransactionView, Seq<char>>;

/// `bitcoin::consensus::encode::deserialize` of a transaction, with its `txid`, `get_weight`
/// and `serialize`, and with the text of the error. What they give is a function of the bytes
/// alone; how many items a list may announce goes by their size in memory on the target. No
/// script of a transaction that it accepts is longer than the bytes that it accepts in one
/// vector. It accepts a transaction in one encoding only, so that `serialize` gives back the
/// bytes.
#[verifier::external_body]
pub(crate) fn deserialize_transaction(bytes: &[u8]) -> (tx: Result<Transaction, String>)
    ensures
        match tx {
            Ok(tx) => parsed_transaction(bytes@) == Ok::<TransactionView, Seq<char>>(tx@),
            Err(error) => parsed_transaction(bytes@) == Err::<TransactionView, Seq<char>>(error@),
        },
        tx matches Ok(tx) ==> tx@.hashable() && tx@.raw == bytes@,
{
    let tx: bitcoin::Transaction =
        bitcoin::consensus::encode::deserialize(bytes).map_err(|error| error.to_string())?;
    Ok(Transaction {
        txid: bitcoin_hashes::Hash::into_inner(tx.txid()),
        weight: tx.get_weight(),
        raw: bitcoin::consensus::encode::serialize(&tx),
        input: tx.input.iter().map(|input| TxIn { previous_output: OutPoint {
            txid: bitcoin_hashes::Hash::into_inner(input.previous_output.txid),
            vout: input.previous_output.vout,
        } }).collect(),
        output: tx.output.into_iter().map(|output| TxOut {
            value: output.value,
            script_pubkey: output.script_pubkey.into_bytes(),
        }).collect(),
    })
}

/// The transactions of the block of which `bytes` is the consensus encoding, as `bitcoin`
/// reads it, or what its error says if it is not one.
pub uninterp spec fn parsed_block_transactions(bytes: Seq<u8>) -> Result<
    Seq<TransactionView>,
    Seq<char>,
>;

/// `bitcoin::consensus::encode::deserialize` of a block, with the `txid`, `get_weight` and
/// `serialize` of its transactions, and with the text of the error. What they give is a function
/// of the bytes alone; how many items a list may announce goes by their size in memory on the
/// target. A block begins with its header, and no script that it holds is longer than the bytes
/// that are accepted in one vector.
#[verifier::external_body]
fn deserialize_block_transactions(bytes: &[u8]) -> (txs: Result<Vec<Transaction>, String>)
    ensures
        match txs {
            Ok(txs) => parsed_block_transactions(bytes@) == Ok::<
                Seq<TransactionView>,
                Seq<char>,
            >(transaction_views(txs@)),
            Err(error) => parsed_block_transactions(bytes@) == Err::<
                Seq<TransactionView>,
                Seq<char>,
            >(error@),
        },
        txs matches Ok(txs) ==> bytes@.len() >= 80 && forall|i: int|
            0 <= i < txs.len() ==> (#[trigger] txs[i])@.hashable(),
{
    let block: bitcoin::Block =
        bitcoin::consensus::encode::deserialize(bytes).map_err(|error| error.to_string())?;
    Ok(block.txdata.into_iter().map(|tx| Transaction {
        txid: bitcoin_hashes::Hash::into_inner(tx.txid()),
        weight: tx.get_weight(),
        raw: bitcoin::consensus::encode::serialize(&tx),
        input: tx.input.iter().map(|input| TxIn { previous_output: OutPoint {
            txid: bitcoin_hashes::Hash::into_inner(input.previous_output.txid),
            vout: input.previous_output.vout,
        } }).collect(),
        output: tx.output.into_iter().map(|output| TxOut {
            value: output.value,
            script_pubkey: output.script_pubkey.into_bytes(),
        }).collect(),
    }).collect())
}

/// The block of which `bytes` is the consensus encoding, or what the error says if it is not
/// one: the header lies at the front of the bytes.
pub open spec fn parsed_block(bytes: Seq<u8>) -> Result<BlockView, Seq<char>> {
    match parsed_block_transactions(bytes) {
        Ok(txdata) => Ok(BlockView { header: header_in(bytes.take(80)), txdata }),
        Err(error) => Err(error),
    }
}

/// Reads a block from its consensus encoding.
pub fn deserialize_block(bytes: &[u8]) -> (block: Result<Block, String>)
    ensures
        match block {
            Ok(block) => parsed_block(bytes@) == Ok::<BlockView, Seq<char>>(block@),
            Err(error) => parsed_block(bytes@) == Err::<BlockView, Seq<char>>(error@),
        },
        block matches Ok(block) ==> block@.hashable(),
{
    let txdata = match deserialize_block_transactions(bytes) {
        Ok(txdata) => txdata,
        Err(error) => {
            return Err(error);
        },
    };
    let front = vstd::slice::slice_subrange(bytes, 0, 80);
    assert(front@ =~= bytes@.take(80));
    match deserialize_header(front) {
        Ok(header) => {
            proof {
                lemma_header_in(header);
            }
            Ok(Block { header, txdata })
        },
        Err(error) => Err(error),
    }
}

} // verus!
