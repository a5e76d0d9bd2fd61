//! What has been fetched from the daemon, to be used again.

use crate::chain::{
    deserialize_transaction, parsed_transaction, Transaction, TransactionView,
};
use crate::errors::{outcome_view, Error, ErrorView};
use crate::hashes::{
    hex_decode, hex_error, hex_text, law_hex_read_back, unhex, BlockHash, Txid,
};
use crate::json::{Json, JsonView};
use crate::rndcache::{lemma_total_size_remove, total_size, RndCache};
use vstd::prelude::*;
use vstd::slice::slice_to_vec;
use vstd::utf8::*;

verus! {

/// How many bytes a hash takes.
pub const HASH_SIZE: usize = 32;

/// The bytes that the ids of the transactions of each block count with: the hash of the block
/// and each id.
pub open spec fn txids_sizes(held: Map<BlockHash, Seq<Txid>>) -> Map<BlockHash, nat> {
    held.map_values(|txids: Seq<Txid>| HASH_SIZE as nat * (1 + txids.len()))
}

/// The bytes that each serialized transaction counts with: its id and its bytes.
pub open spec fn tx_sizes(held: Map<Txid, Seq<u8>>) -> Map<Txid, nat> {
    held.map_values(|bytes: Seq<u8>| HASH_SIZE as nat + bytes.len())
}

/// The ids of the transactions of blocks.
pub struct BlockTxIDsCache {
    map: RndCache<BlockHash, Vec<Txid>>,
}

impl View for BlockTxIDsCache {
    type V = Map<BlockHash, Seq<Txid>>;

    closed spec fn view(&self) -> Map<BlockHash, Seq<Txid>> {
        self.map@.map_values(|txids: Vec<Txid>| txids@)
    }
}

impl BlockTxIDsCache {
    /// How many bytes may be taken.
    pub closed spec fn spec_capacity(&self) -> usize {
        self.map.spec_capacity()
    }

    /// How many bytes are taken.
    pub closed spec fn spec_usage(&self) -> usize {
        self.map.spec_usage()
    }

    /// What is held is what is counted, and no more than the capacity is taken.
    pub closed spec fn wf(&self) -> bool {
        &&& self.map.wf()
        &&& self.map.sizes() == txids_sizes(self@)
    }

    /// The ids that are held are finitely many, their sizes add up to the bytes that are taken, and
    /// these are no more than the capacity.
    pub proof fn law_bytes_bounded(&self)
        requires
            self.wf(),
        ensures
            self@.dom().finite(),
            self.spec_usage() == total_size(txids_sizes(self@)),
            self.spec_usage() <= self.spec_capacity(),
    {
        self.map.law_usage_counts_entries();
        assert(self@.dom() =~= self.map@.dom());
    }

    /// A cache without entries.
    pub fn new(bytes_capacity: usize) -> (cache: BlockTxIDsCache)
        ensures
            cache.wf(),
            cache@ == Map::<BlockHash, Seq<Txid>>::empty(),
            cache.spec_capacity() == bytes_capacity,
            cache.spec_usage() == 0,
    {
        let cache = BlockTxIDsCache { map: RndCache::new(bytes_capacity) };
        assert(cache@ =~= Map::<BlockHash, Seq<Txid>>::empty());
        proof {
            cache.map.law_usage_counts_entries();
            assert(cache.map.sizes() =~= txids_sizes(cache@));
        }
        cache
    }

    /// How many bytes are taken.
    pub fn usage(&self) -> (usage: usize)
        requires
            self.wf(),
        ensures
            usage == self.spec_usage(),
            usage == total_size(txids_sizes(self@)),
            usage <= self.spec_capacity(),
    {
        self.map.usage()
    }

    /// The ids of the transactions of a block, if they are still there.
    pub fn get(&self, blockhash: &BlockHash) -> (txids: Option<Vec<Txid>>)
        requires
            self.wf(),
        ensures
            match txids {
                Some(txids) => self@.contains_pair(*blockhash, txids@),
                None => !self@.contains_key(*blockhash),
            },
    {
        match self.map.get(blockhash) {
            Some(txids) => Some(slice_to_vec(txids.as_slice())),
            None => None,
        }
    }

    /// The ids of the transactions of a block: those that are kept, or else those that have
    /// been fetched, which are kept from now on.
    pub fn get_or_fetch<F: Fn(usize) -> usize>(
        &mut self,
        blockhash: &BlockHash,
        fetched: Vec<Txid>,
        draw: &F,
    ) -> (txids: Vec<Txid>)
        requires
            old(self).wf(),
            HASH_SIZE * (1 + fetched.len()) <= usize::MAX,
            forall|count: usize| call_requires(*draw, (count,)),
        ensures
            final(self).wf(),
            old(self)@.contains_key(*blockhash) ==> txids@ == old(self)@[*blockhash]
                && *final(self) == *old(self),
            !old(self)@.contains_key(*blockhash) ==> txids@ == fetched@ && txids_kept(
                *old(self),
                *final(self),
                *blockhash,
                fetched@,
            ),
    {
        if let Some(txids) = self.get(blockhash) {
            return txids;
        }
        self.put(*blockhash, &fetched, draw);
        fetched
    }

    /// Keeps the ids of the transactions of a block: the hash of the block and each id count.
    fn put<F: Fn(usize) -> usize>(&mut self, blockhash: BlockHash, txids: &Vec<Txid>, draw: &F)
        requires
            old(self).wf(),
            HASH_SIZE * (1 + txids.len()) <= usize::MAX,
            forall|count: usize| call_requires(*draw, (count,)),
        ensures
            txids_kept(*old(self), *final(self), blockhash, txids@),
    {
        let byte_size: usize = HASH_SIZE * (1 + txids.len());
        self.map.put(blockhash, slice_to_vec(txids.as_slice()), byte_size, draw);
        proof {
            assert(byte_size > old(self).spec_capacity() ==> self@ =~= old(self)@.remove(
                blockhash,
            ));
            let rest = txids_sizes(old(self)@.remove(blockhash));
            assert(rest =~= old(self).map.sizes().remove(blockhash));
            assert(total_size(rest) + byte_size <= old(self).spec_capacity() ==> self@ =~= old(
                self,
            )@.insert(blockhash, txids@));
            assert forall|other: BlockHash| #[trigger]
                self@.contains_key(other) && other != blockhash implies old(self)@.contains_pair(
                other,
                self@[other],
            ) by {
                assert(self.map@.contains_key(other));
            }
            self.map.law_usage_counts_entries();
            assert(self.map.sizes() =~= txids_sizes(self@));
        }
    }
}

/// What a cache holds after the ids of the transactions of a block have been put there.
pub open spec fn txids_kept(
    old: BlockTxIDsCache,
    new: BlockTxIDsCache,
    blockhash: BlockHash,
    txids: Seq<Txid>,
) -> bool {
    let size = HASH_SIZE * (1 + txids.len());
    &&& new.wf()
    &&& new.spec_capacity() == old.spec_capacity()
    &&& size <= old.spec_capacity() ==> new@.contains_pair(blockhash, txids)
    &&& size > old.spec_capacity() ==> new@ == old@.remove(blockhash)
    &&& forall|other: BlockHash| #[trigger]
        new@.contains_key(other) && other != blockhash ==> old@.contains_pair(other, new@[other])
    &&& total_size(txids_sizes(old@.remove(blockhash))) + size <= old.spec_capacity() ==> new@
        == old@.insert(blockhash, txids)
    &&& new.spec_usage() == total_size(txids_sizes(new@))
}

/// Serialized transactions, which take less space than transactions would.
pub struct TransactionCache {
    map: RndCache<Txid, Vec<u8>>,
}

impl View for TransactionCache {
    type V = Map<Txid, Seq<u8>>;

    closed spec fn view(&self) -> Map<Txid, Seq<u8>> {
        self.map@.map_values(|bytes: Vec<u8>| bytes@)
    }
}

/// The transaction that a reply holds in hexadecimal, with its bytes.
pub open spec fn fetched_tx(value: JsonView) -> Result<(Seq<u8>, TransactionView), ErrorView> {
    match value.text() {
        Some(text) => match unhex(encode_utf8(text)) {
            Some(bytes) => match parsed_transaction(bytes) {
                Ok(tx) => Ok((bytes, tx)),
                Err(cause) => Err(ErrorView::caused_by("failed to parse serialized tx"@, cause)),
            },
            None => Err(ErrorView::caused_by("non-hex tx"@, hex_error(text))),
        },
        None => Err(ErrorView::Message("non-string tx"@)),
    }
}

/// The transaction that a cache with these contents gives.
pub open spec fn cached_tx(held: Map<Txid, Seq<u8>>, txid: Txid) -> Option<TransactionView> {
    if held.contains_key(txid) {
        parsed_transaction(held[txid]).ok()
    } else {
        None
    }
}

/// What a cache holds after `bytes` have been put under `txid`.
pub open spec fn tx_kept(
    old: TransactionCache,
    new: TransactionCache,
    txid: Txid,
    bytes: Seq<u8>,
) -> bool {
    let size = HASH_SIZE + bytes.len();
    &&& new.wf()
    &&& new.spec_capacity() == old.spec_capacity()
    &&& size <= old.spec_capacity() ==> new@.contains_pair(txid, bytes)
    &&& size > old.spec_capacity() ==> new@ == old@.remove(txid)
    &&& forall|other: Txid| #[trigger]
        new@.contains_key(other) && other != txid ==> old@.contains_pair(other, new@[other])
    &&& total_size(tx_sizes(old@.remove(txid))) + size <= old.spec_capacity() ==> new@
        == old@.insert(txid, bytes)
    &&& new.spec_usage() == total_size(tx_sizes(new@))
}

impl TransactionCache {
    /// How many bytes may be taken.
    pub closed spec fn spec_capacity(&self) -> usize {
        self.map.spec_capacity()
    }

    /// How many bytes are taken.
    pub closed spec fn spec_usage(&self) -> usize {
        self.map.spec_usage()
    }

    /// What is held is what is counted, and no more than the capacity is taken.
    pub closed spec fn wf(&self) -> bool {
        &&& self.map.wf()
        &&& self.map.sizes() == tx_sizes(self@)
    }

    /// The transactions that are held are finitely many, their sizes add up to the bytes that are taken, and
    /// these are no more than the capacity.
    pub proof fn law_bytes_bounded(&self)
        requires
            self.wf(),
        ensures
            self@.dom().finite(),
            self.spec_usage() == total_size(tx_sizes(self@)),
            self.spec_usage() <= self.spec_capacity(),
    {
        self.map.law_usage_counts_entries();
        assert(self@.dom() =~= self.map@.dom());
    }

    /// A cache without entries.
    pub fn new(bytes_capacity: usize) -> (cache: TransactionCache)
        ensures
            cache.wf(),
            cache@ == Map::<Txid, Seq<u8>>::empty(),
            cache.spec_capacity() == bytes_capacity,
            cache.spec_usage() == 0,
    {
        let cache = TransactionCache { map: RndCache::new(bytes_capacity) };
        assert(cache@ =~= Map::<Txid, Seq<u8>>::empty());
        proof {
            cache.map.law_usage_counts_entries();
            assert(cache.map.sizes() =~= tx_sizes(cache@));
        }
        cache
    }

    /// How many bytes are taken.
    pub fn usage(&self) -> (usage: usize)
        requires
            self.wf(),
        ensures
            usage == self.spec_usage(),
            usage == total_size(tx_sizes(self@)),
            usage <= self.spec_capacity(),
    {
        self.map.usage()
    }

    /// The transaction with this id, if it is still there and can be read.
    pub fn get(&self, txid: &Txid) -> (tx: Option<Transaction>)
        requires
            self.wf(),
        ensures
            match tx {
                Some(tx) => cached_tx(self@, *txid) == Some(tx@) && tx@.hashable(),
                None => cached_tx(self@, *txid) is None,
            },
    {
        match self.map.get(txid) {
            Some(bytes) => {
                assert(self@[*txid] == bytes@);
                deserialize_transaction(bytes.as_slice()).ok()
            },
            None => None,
        }
    }

    /// Keeps a serialized transaction: its id and its bytes count.
    pub fn put_serialized<F: Fn(usize) -> usize>(
        &mut self,
        txid: Txid,
        serialized_txn: Vec<u8>,
        draw: &F,
    )
        requires
            old(self).wf(),
            HASH_SIZE + serialized_txn.len() <= usize::MAX,
            forall|count: usize| call_requires(*draw, (count,)),
        ensures
            tx_kept(*old(self), *final(self), txid, serialized_txn@),
    {
        let byte_size: usize = HASH_SIZE + serialized_txn.len();
        let ghost bytes = serialized_txn@;
        self.map.put(txid, serialized_txn, byte_size, draw);
        proof {
            assert(byte_size > old(self).spec_capacity() ==> self@ =~= old(self)@.remove(txid));
            let rest = tx_sizes(old(self)@.remove(txid));
            assert(rest =~= old(self).map.sizes().remove(txid));
            assert(total_size(rest) + byte_size <= old(self).spec_capacity() ==> self@ =~= old(
                self,
            )@.insert(txid, bytes));
            assert forall|other: Txid| #[trigger]
                self@.contains_key(other) && other != txid implies old(self)@.contains_pair(
                other,
                self@[other],
            ) by {
                assert(self.map@.contains_key(other));
            }
            self.map.law_usage_counts_entries();
            assert(self.map.sizes() =~= tx_sizes(self@));
        }
    }

    /// The transaction with this id: the one that is kept, or else the one that has been
    /// fetched, which is kept from now on.
    pub fn get_or_fetch<F: Fn(usize) -> usize>(&mut self, txid: &Txid, fetched: &Json, draw: &F) -> (
    tx: Result<Transaction, Error>)
        requires
            old(self).wf(),
            forall|count: usize| call_requires(*draw, (count,)),
        ensures
            final(self).wf(),
            match (cached_tx(old(self)@, *txid), fetched_tx(fetched@)) {
                (Some(held), _) => outcome_view(tx) == Ok::<TransactionView, ErrorView>(held)
                    && *final(self) == *old(self),
                (None, Ok((bytes, read))) => outcome_view(tx) == Ok::<TransactionView, ErrorView>(
                    read,
                ) && (HASH_SIZE + bytes.len() <= usize::MAX ==> tx_kept(
                    *old(self),
                    *final(self),
                    *txid,
                    bytes,
                )),
                (None, Err(error)) => outcome_view(tx) == Err::<TransactionView, ErrorView>(error)
                    && *final(self) == *old(self),
            },
            tx matches Ok(tx) ==> tx@.hashable(),
    {
        if let Some(tx) = self.get(txid) {
            return Ok(tx);
        }
        let text = match fetched.as_str() {
            Some(text) => text,
            None => {
                return Err(Error::message("non-string tx"));
            },
        };
        let serialized_txn = match hex_decode(text) {
            Ok(bytes) => bytes,
            Err(cause) => {
                return Err(Error::caused_by("non-hex tx", cause));
            },
        };
        let tx = match deserialize_transaction(serialized_txn.as_slice()) {
            Ok(tx) => tx,
            Err(cause) => {
                return Err(Error::caused_by("failed to parse serialized tx", cause));
            },
        };
        if serialized_txn.len() <= usize::MAX - HASH_SIZE {
            self.put_serialized(*txid, serialized_txn, draw);
        }
        Ok(tx)
    }
}

/// The ids of the transactions of a block count with 32 bytes for each of them and for the hash of
/// the block, a serialized transaction with its bytes and 32 for its id.
pub proof fn law_sizes(
    txids: Map<BlockHash, Seq<Txid>>,
    blockhash: BlockHash,
    txs: Map<Txid, Seq<u8>>,
    txid: Txid,
)
    ensures
        txids_sizes(txids).dom() == txids.dom(),
        txids.contains_key(blockhash) ==> txids_sizes(txids)[blockhash] == 32 * (1
            + txids[blockhash].len()),
        tx_sizes(txs).dom() == txs.dom(),
        txs.contains_key(txid) ==> tx_sizes(txs)[txid] == 32 + txs[txid].len(),
{
    assert(txids_sizes(txids).dom() =~= txids.dom());
    assert(tx_sizes(txs).dom() =~= txs.dom());
}

/// A transaction that is fetched is the one whose bytes the reply holds in hexadecimal; where it
/// is held, it is the one whose bytes are held.
pub proof fn law_fetched_tx(value: JsonView, bytes: Seq<u8>, held: Map<Txid, Seq<u8>>, txid: Txid)
    ensures
        value == JsonView::Str(hex_text(bytes)) ==> fetched_tx(value) == match parsed_transaction(
            bytes,
        ) {
            Ok(tx) => Ok((bytes, tx)),
            Err(cause) => Err(ErrorView::caused_by("failed to parse serialized tx"@, cause)),
        },
        value is Str && unhex(encode_utf8(value->Str_0)) is None ==> fetched_tx(value) == Err::<
            (Seq<u8>, TransactionView),
            ErrorView,
        >(ErrorView::caused_by("non-hex tx"@, hex_error(value->Str_0))),
        !(value is Str) ==> fetched_tx(value) == Err::<(Seq<u8>, TransactionView), ErrorView>(
            ErrorView::Message("non-string tx"@),
        ),
        !held.contains_key(txid) ==> cached_tx(held, txid) is None,
        held.contains_key(txid) && parsed_transaction(held[txid]) is Ok ==> cached_tx(held, txid)
            == Some(parsed_transaction(held[txid])->Ok_0),
        held.contains_key(txid) && parsed_transaction(held[txid]) is Err ==> cached_tx(
            held,
            txid,
        ) is None,
{
    law_hex_read_back(bytes);
}

/// After a transaction has been put into a cache, it is held if it fits at all, and otherwise none
/// is held under its id. The others are held as they were or have been dropped, and none of them
/// is dropped where there is room. The bytes that are taken are those of what is held.
pub proof fn law_tx_kept(
    old: TransactionCache,
    new: TransactionCache,
    txid: Txid,
    bytes: Seq<u8>,
    other: Txid,
)
    requires
        old.wf(),
        tx_kept(old, new, txid, bytes),
    ensures
        new.spec_capacity() == old.spec_capacity(),
        32 + bytes.len() <= old.spec_capacity() ==> new@.contains_key(txid) && new@[txid] == bytes,
        32 + bytes.len() > old.spec_capacity() ==> !new@.contains_key(txid),
        other != txid && new@.contains_key(other) ==> old@.contains_key(other) && new@[other]
            == old@[other],
        other != txid && old@.contains_key(other) && (32 + bytes.len() > old.spec_capacity()
            || old.spec_usage() + 32 + bytes.len() <= old.spec_capacity()) ==> new@.contains_key(
            other,
        ),
        new.spec_usage() == total_size(tx_sizes(new@)),
        new.spec_usage() <= new.spec_capacity(),
{
    old.law_bytes_bounded();
    new.law_bytes_bounded();
    let sizes = tx_sizes(old@);
    assert(sizes.dom() =~= old@.dom());
    assert(tx_sizes(old@.remove(txid)) =~= sizes.remove(txid));
    if old@.contains_key(txid) {
        lemma_total_size_remove(sizes, txid);
    } else {
        assert(sizes.remove(txid) =~= sizes);
    }
}

/// After the ids of a block have been put into a cache, they are held if they fit at all, and
/// otherwise none are held under its hash. The others are held as they were or have been dropped,
/// and none of them is dropped where there is room. The bytes that are taken are those of what is
/// held.
pub proof fn law_txids_kept(
    old: BlockTxIDsCache,
    new: BlockTxIDsCache,
    blockhash: BlockHash,
    txids: Seq<Txid>,
    other: BlockHash,
)
    requires
        old.wf(),
        txids_kept(old, new, blockhash, txids),
    ensures
        new.spec_capacity() == old.spec_capacity(),
        32 * (1 + txids.len()) <= old.spec_capacity() ==> new@.contains_key(blockhash)
            && new@[blockhash] == txids,
        32 * (1 + txids.len()) > old.spec_capacity() ==> !new@.contains_key(blockhash),
        other != blockhash && new@.contains_key(other) ==> old@.contains_key(other) && new@[other]
            == old@[other],
        other != blockhash && old@.contains_key(other) && (32 * (1 + txids.len())
            > old.spec_capacity() || old.spec_usage() + 32 * (1 + txids.len())
            <= old.spec_capacity()) ==> new@.contains_key(other),
        new.spec_usage() == total_size(txids_sizes(new@)),
        new.spec_usage() <= new.spec_capacity(),
{
    old.law_bytes_bounded();
    new.law_bytes_bounded();
    let sizes = txids_sizes(old@);
    assert(sizes.dom() =~= old@.dom());
    assert(txids_sizes(old@.remove(blockhash)) =~= sizes.remove(blockhash));
    if old@.contains_key(blockhash) {
        lemma_total_size_remove(sizes, blockhash);
    } else {
        assert(sizes.remove(blockhash) =~= sizes);
    }
}

} // verus!
