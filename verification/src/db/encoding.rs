//! The byte format of row keys: fields one after the other, byte strings behind their length.

use crate::hashes::{FullHash, HashPrefix, Txid};
use vstd::bytes::*;
use vstd::prelude::*;

verus! {

/// A byte string behind its length, which takes eight bytes, the lowest first.
pub open spec fn counted(bytes: Seq<u8>) -> Seq<u8> {
    spec_u64_to_le_bytes(bytes.len() as u64) + bytes
}

/// The byte string that stands behind its length at the front of `bytes`, and what follows
/// it: none if `bytes` ends too early.
pub open spec fn split_counted(bytes: Seq<u8>) -> Option<(Seq<u8>, Seq<u8>)> {
    if bytes.len() < 8 {
        None
    } else {
        let len = spec_u64_from_le_bytes(bytes.take(8)) as int;
        if bytes.len() < 8 + len {
            None
        } else {
            Some((bytes.subrange(8, 8 + len), bytes.skip(8 + len)))
        }
    }
}

/// A byte string behind its length can be read off the front, whatever follows it.
pub proof fn lemma_split_counted(bytes: Seq<u8>, rest: Seq<u8>)
    requires
        bytes.len() <= u64::MAX,
    ensures
        split_counted(counted(bytes) + rest) == Some((bytes, rest)),
        counted(bytes).len() == 8 + bytes.len(),
{
    lemma_auto_spec_u64_to_from_le_bytes();
    let head = spec_u64_to_le_bytes(bytes.len() as u64);
    let all = counted(bytes) + rest;
    assert(all.take(8) =~= head);
    assert(all.subrange(8, 8 + bytes.len() as int) =~= bytes);
    assert(all.skip(8 + bytes.len() as int) =~= rest);
}

/// The key of an output row: its code and the hash of the script.
pub open spec fn out_key_bytes(code: u8, scripthash: Seq<u8>) -> Seq<u8> {
    seq![code] + scripthash
}

/// The fields of an output row.
#[verifier::ext_equal]
pub struct OutFields {
    pub code: u8,
    pub scripthash: Seq<u8>,
    pub txid: Seq<u8>,
    pub confirmed_height: Seq<u8>,
    pub output_index: Seq<u8>,
    pub output_value: Seq<u8>,
}

impl OutFields {
    /// The bytes of the row.
    pub open spec fn bytes(self) -> Seq<u8> {
        out_key_bytes(self.code, self.scripthash) + counted(self.txid) + counted(
            self.confirmed_height,
        ) + counted(self.output_index) + counted(self.output_value)
    }

    /// The lengths that the types of the fields give them.
    pub open spec fn sized(self) -> bool {
        &&& self.scripthash.len() == 32
        &&& self.txid.len() == 32
        &&& self.confirmed_height.len() <= u64::MAX
        &&& self.output_index.len() <= u64::MAX
        &&& self.output_value.len() <= u64::MAX
    }

    /// The row at the front of `bytes`; what follows it is ignored.
    pub open spec fn read(bytes: Seq<u8>) -> Option<OutFields> {
        if bytes.len() < 33 {
            None
        } else {
            match split_counted(bytes.skip(33)) {
                None => None,
                Some((txid, rest)) => match split_counted(rest) {
                    None => None,
                    Some((confirmed_height, rest)) => match split_counted(rest) {
                        None => None,
                        Some((output_index, rest)) => match split_counted(rest) {
                            None => None,
                            Some((output_value, rest)) => if txid.len() == 32 {
                                Some(
                                    OutFields {
                                        code: bytes[0],
                                        scripthash: bytes.subrange(1, 33),
                                        txid,
                                        confirmed_height,
                                        output_index,
                                        output_value,
                                    },
                                )
                            } else {
                                None
                            },
                        },
                    },
                },
            }
        }
    }

    /// Reading the bytes of a row gives back the row, whatever follows them.
    pub proof fn lemma_read_back(self, rest: Seq<u8>)
        requires
            self.sized(),
        ensures
            Self::read(self.bytes() + rest) == Some(self),
    {
        let all = self.bytes() + rest;
        let tail3 = counted(self.output_value) + rest;
        let tail2 = counted(self.output_index) + tail3;
        let tail1 = counted(self.confirmed_height) + tail2;
        let tail0 = counted(self.txid) + tail1;
        lemma_split_counted(self.txid, tail1);
        lemma_split_counted(self.confirmed_height, tail2);
        lemma_split_counted(self.output_index, tail3);
        lemma_split_counted(self.output_value, rest);
        assert(all.skip(33) =~= tail0);
        assert(all.subrange(1, 33) =~= self.scripthash);
    }
}

/// The key of an input row: its code and the output that the input spends.
pub open spec fn in_key_bytes(code: u8, prev_hash: Seq<u8>, prev_index: Seq<u8>) -> Seq<u8> {
    seq![code] + counted(prev_hash) + counted(prev_index)
}

/// The fields of an input row.
#[verifier::ext_equal]
pub struct InFields {
    pub code: u8,
    pub prev_hash: Seq<u8>,
    pub prev_index: Seq<u8>,
    pub txid: Seq<u8>,
    pub confirmed_height: Seq<u8>,
}

impl InFields {
    /// The bytes of the row.
    pub open spec fn bytes(self) -> Seq<u8> {
        in_key_bytes(self.code, self.prev_hash, self.prev_index) + counted(self.txid) + counted(
            self.confirmed_height,
        )
    }

    /// The lengths that the types of the fields give them.
    pub open spec fn sized(self) -> bool {
        &&& self.prev_hash.len() == 32
        &&& self.prev_index.len() <= u64::MAX
        &&& self.txid.len() == 32
        &&& self.confirmed_height.len() <= u64::MAX
    }

    /// The row at the front of `bytes`; what follows it is ignored.
    pub open spec fn read(bytes: Seq<u8>) -> Option<InFields> {
        if bytes.len() < 1 {
            None
        } else {
            match split_counted(bytes.skip(1)) {
                None => None,
                Some((prev_hash, rest)) => match split_counted(rest) {
                    None => None,
                    Some((prev_index, rest)) => match split_counted(rest) {
                        None => None,
                        Some((txid, rest)) => match split_counted(rest) {
                            None => None,
                            Some((confirmed_height, rest)) => if prev_hash.len() == 32
                                && txid.len() == 32 {
                                Some(
                                    InFields {
                                        code: bytes[0],
                                        prev_hash,
                                        prev_index,
                                        txid,
                                        confirmed_height,
                                    },
                                )
                            } else {
                                None
                            },
                        },
                    },
                },
            }
        }
    }

    /// Reading the bytes of a row gives back the row, whatever follows them.
    pub proof fn lemma_read_back(self, rest: Seq<u8>)
        requires
            self.sized(),
        ensures
            Self::read(self.bytes() + rest) == Some(self),
    {
        let all = self.bytes() + rest;
        let tail3 = counted(self.confirmed_height) + rest;
        let tail2 = counted(self.txid) + tail3;
        let tail1 = counted(self.prev_index) + tail2;
        let tail0 = counted(self.prev_hash) + tail1;
        lemma_split_counted(self.prev_hash, tail1);
        lemma_split_counted(self.prev_index, tail2);
        lemma_split_counted(self.txid, tail3);
        lemma_split_counted(self.confirmed_height, rest);
        assert(all.skip(1) =~= tail0);
    }
}

/// The key of an account row: its code and the front of the hash of the account.
pub open spec fn account_key_bytes(code: u8, prefix: Seq<u8>) -> Seq<u8> {
    seq![code] + prefix
}

/// The fields of an account row.
#[verifier::ext_equal]
pub struct AccountFields {
    pub code: u8,
    pub prefix: Seq<u8>,
    pub txid: Seq<u8>,
}

impl AccountFields {
    /// The bytes of the row.
    pub open spec fn bytes(self) -> Seq<u8> {
        account_key_bytes(self.code, self.prefix) + counted(self.txid)
    }

    /// The lengths that the types of the fields give them.
    pub open spec fn sized(self) -> bool {
        &&& self.prefix.len() == 8
        &&& self.txid.len() == 32
    }

    /// The row at the front of `bytes`; what follows it is ignored.
    pub open spec fn read(bytes: Seq<u8>) -> Option<AccountFields> {
        if bytes.len() < 9 {
            None
        } else {
            match split_counted(bytes.skip(9)) {
                None => None,
                Some((txid, rest)) => if txid.len() == 32 {
                    Some(AccountFields { code: bytes[0], prefix: bytes.subrange(1, 9), txid })
                } else {
                    None
                },
            }
        }
    }

    /// Reading the bytes of a row gives back the row, whatever follows them.
    pub proof fn lemma_read_back(self, rest: Seq<u8>)
        requires
            self.sized(),
        ensures
            Self::read(self.bytes() + rest) == Some(self),
    {
        let all = self.bytes() + rest;
        lemma_split_counted(self.txid, rest);
        assert(all.skip(9) =~= counted(self.txid) + rest);
        assert(all.subrange(1, 9) =~= self.prefix);
    }
}

/// `bincode::serialize` of a code and a hash: the code, then the 32 bytes.
#[verifier::external_body]
pub(crate) fn bincode_hash_key(code: u8, hash: &FullHash) -> (bytes: Vec<u8>)
    ensures
        bytes@ == out_key_bytes(code, hash@),
{
    bincode::serialize(&(code, hash)).unwrap()
}

/// `bincode::deserialize` of a code and a hash: the first byte, then 32 bytes; what follows
/// is ignored. It fails where there are fewer bytes.
#[verifier::external_body]
pub(crate) fn bincode_read_hash_key(bytes: &[u8]) -> (key: Option<(u8, FullHash)>)
    ensures
        key is Some <==> bytes@.len() >= 33,
        key is Some ==> key.unwrap().0 == bytes@[0] && key.unwrap().1@ == bytes@.subrange(1, 33),
{
    bincode::deserialize(bytes).ok()
}

/// `bincode::serialize` of the fields of an output row, the transaction as a
/// `bitcoin::hash_types::Txid`, which it writes as a byte string behind its length.
#[verifier::external_body]
pub(crate) fn bincode_out_row(
    code: u8,
    scripthash: &FullHash,
    txid: &Txid,
    confirmed_height: &Vec<u8>,
    output_index: &Vec<u8>,
    output_value: &Vec<u8>,
) -> (bytes: Vec<u8>)
    ensures
        bytes@ == (OutFields {
            code,
            scripthash: scripthash@,
            txid: txid@,
            confirmed_height: confirmed_height@,
            output_index: output_index@,
            output_value: output_value@,
        }).bytes(),
{
    let txid: bitcoin::hash_types::Txid = bitcoin_hashes::Hash::from_inner(*txid);
    bincode::serialize(
        &((code, scripthash), txid, confirmed_height, output_index, output_value),
    ).unwrap()
}

/// `bincode::deserialize` of the fields of an output row; what follows the row is ignored.
/// It fails where the bytes end too early or the transaction does not take 32 bytes.
#[verifier::external_body]
pub(crate) fn bincode_read_out_row(bytes: &[u8]) -> (row: Option<
    (u8, FullHash, Txid, Vec<u8>, Vec<u8>, Vec<u8>),
>)
    ensures
        row is Some <==> OutFields::read(bytes@) is Some,
        row is Some ==> ({
            let (code, scripthash, txid, confirmed_height, output_index, output_value) =
                row.unwrap();
            OutFields::read(bytes@) == Some(
                OutFields {
                    code,
                    scripthash: scripthash@,
                    txid: txid@,
                    confirmed_height: confirmed_height@,
                    output_index: output_index@,
                    output_value: output_value@,
                },
            )
        }),
{
    let ((code, scripthash), txid, height, index, value): (
        (u8, FullHash),
        bitcoin::hash_types::Txid,
        Vec<u8>,
        Vec<u8>,
        Vec<u8>,
    ) = bincode::deserialize(bytes).ok()?;
    Some((code, scripthash, bitcoin_hashes::Hash::into_inner(txid), height, index, value))
}

/// `bincode::serialize` of the key of an input row, the transaction as a
/// `bitcoin::hash_types::Txid`, which it writes as a byte string behind its length.
#[verifier::external_body]
pub(crate) fn bincode_in_key(code: u8, prev_hash: &Txid, prev_index: &Vec<u8>) -> (bytes: Vec<u8>)
    ensures
        bytes@ == in_key_bytes(code, prev_hash@, prev_index@),
{
    let prev_hash: bitcoin::hash_types::Txid = bitcoin_hashes::Hash::from_inner(*prev_hash);
    bincode::serialize(&(code, prev_hash, prev_index)).unwrap()
}

/// `bincode::serialize` of the fields of an input row, the transactions as
/// `bitcoin::hash_types::Txid`, which it writes as a byte string behind its length.
#[verifier::external_body]
pub(crate) fn bincode_in_row(
    code: u8,
    prev_hash: &Txid,
    prev_index: &Vec<u8>,
    txid: &Txid,
    confirmed_height: &Vec<u8>,
) -> (bytes: Vec<u8>)
    ensures
        bytes@ == (InFields {
            code,
            prev_hash: prev_hash@,
            prev_index: prev_index@,
            txid: txid@,
            confirmed_height: confirmed_height@,
        }).bytes(),
{
    let prev_hash: bitcoin::hash_types::Txid = bitcoin_hashes::Hash::from_inner(*prev_hash);
    let txid: bitcoin::hash_types::Txid = bitcoin_hashes::Hash::from_inner(*txid);
    bincode::serialize(&((code, prev_hash, prev_index), txid, confirmed_height)).unwrap()
}

/// `bincode::deserialize` of the fields of an input row; what follows the row is ignored. It
/// fails where the bytes end too early or a transaction does not take 32 bytes.
#[verifier::external_body]
pub(crate) fn bincode_read_in_row(bytes: &[u8]) -> (row: Option<
    (u8, Txid, Vec<u8>, Txid, Vec<u8>),
>)
    ensures
        row is Some <==> InFields::read(bytes@) is Some,
        row is Some ==> ({
            let (code, prev_hash, prev_index, txid, confirmed_height) = row.unwrap();
            InFields::read(bytes@) == Some(
                InFields {
                    code,
                    prev_hash: prev_hash@,
                    prev_index: prev_index@,
                    txid: txid@,
                    confirmed_height: confirmed_height@,
                },
            )
        }),
{
    let ((code, prev, index), txid, height): (
        (u8, bitcoin::hash_types::Txid, Vec<u8>),
        bitcoin::hash_types::Txid,
        Vec<u8>,
    ) = bincode::deserialize(bytes).ok()?;
    let prev: Txid = bitcoin_hashes::Hash::into_inner(prev);
    Some((code, prev, index, bitcoin_hashes::Hash::into_inner(txid), height))
}

/// `bincode::serialize` of a code and eight bytes: the code, then the bytes.
#[verifier::external_body]
pub(crate) fn bincode_account_key(code: u8, prefix: &HashPrefix) -> (bytes: Vec<u8>)
    ensures
        bytes@ == account_key_bytes(code, prefix@),
{
    bincode::serialize(&(code, prefix)).unwrap()
}

/// `bincode::serialize` of the fields of an account row, the transaction as a
/// `bitcoin::hash_types::Txid`, which it writes as a byte string behind its length.
#[verifier::external_body]
pub(crate) fn bincode_account_row(code: u8, prefix: &HashPrefix, txid: &Txid) -> (bytes: Vec<u8>)
    ensures
        bytes@ == (AccountFields { code, prefix: prefix@, txid: txid@ }).bytes(),
{
    let txid: bitcoin::hash_types::Txid = bitcoin_hashes::Hash::from_inner(*txid);
    bincode::serialize(&((code, prefix), txid)).unwrap()
}

/// `bincode::deserialize` of the fields of an account row; what follows the row is ignored.
/// It fails where the bytes end too early or the transaction does not take 32 bytes.
#[verifier::external_body]
pub(crate) fn bincode_read_account_row(bytes: &[u8]) -> (row: Option<(u8, HashPrefix, Txid)>)
    ensures
        row is Some <==> AccountFields::read(bytes@) is Some,
        row is Some ==> ({
            let (code, prefix, txid) = row.unwrap();
            AccountFields::read(bytes@) == Some(
                AccountFields { code, prefix: prefix@, txid: txid@ },
            )
        }),
{
    let ((code, prefix), txid): ((u8, HashPrefix), bitcoin::hash_types::Txid) =
        bincode::deserialize(bytes).ok()?;
    Some((code, prefix, bitcoin_hashes::Hash::into_inner(txid)))
}

} // verus!
