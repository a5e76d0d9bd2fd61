//! Index of the transactions that register a cash account.

use crate::cashaccount::{
    account_bytes, ascii_lowercase, compute_accountname_hash, hash_prefix, lower,
    to_ascii_lowercase, MAX_ACCOUNT_NAME,
};
use crate::db::encoding::{
    account_key_bytes, bincode_account_key, bincode_account_row, bincode_read_account_row,
    AccountFields,
};
use crate::hashes::{sha256, HashPrefix, Txid};
use crate::store::{row_views, rows_under, ReadStore, Row, RowView};
use crate::text::decimal;
use vstd::prelude::*;
use vstd::utf8::*;

verus! {

/// The first byte of an account row.
pub const TX_ACCOUNT_CODE: u8 = 0x43;

/// The part of an account row by which it is looked up.
#[derive(Clone, Copy, Debug)]
pub struct TxCashAccountKey {
    pub code: u8,
    pub accout_hash_prefix: HashPrefix,
}

/// A registration of an account, and the transaction that made it.
#[derive(Clone, Copy, Debug)]
pub struct TxCashAccountRow {
    pub key: TxCashAccountKey,
    pub txid: Txid,
}

impl AccountFields {
    /// The row of the transaction `txid`, which registers `name` at `height`.
    pub open spec fn of_account(txid: Txid, name: Seq<u8>, height: u32) -> AccountFields {
        AccountFields {
            code: TX_ACCOUNT_CODE,
            prefix: sha256(account_bytes(name, height))@.take(8),
            txid: txid@,
        }
    }
}

/// The bytes with which the rows of an account begin.
pub open spec fn account_prefix(name: Seq<u8>, height: u32) -> Seq<u8> {
    account_key_bytes(TX_ACCOUNT_CODE, sha256(account_bytes(name, height))@.take(8))
}

/// Every row of the account can be read.
pub open spec fn accounts_readable(rows: Seq<RowView>, name: Seq<u8>, height: u32) -> bool {
    forall|i: int|
        0 <= i < rows_under(rows, account_prefix(name, height)).len() ==> AccountFields::read(
            (#[trigger] rows_under(rows, account_prefix(name, height))[i]).key,
        ) is Some
}

/// The transactions that the rows of the account name.
pub open spec fn accounts_of(rows: Seq<RowView>, name: Seq<u8>, height: u32) -> Seq<Seq<u8>> {
    rows_under(rows, account_prefix(name, height)).map_values(
        |row: RowView| AccountFields::read(row.key).unwrap().txid,
    )
}

/// The key that is stored for a registration reads back as that registration.
pub proof fn law_account_row_read_back(txid: Txid, name: Seq<u8>, height: u32)
    ensures
        AccountFields::read(AccountFields::of_account(txid, name, height).bytes()) == Some(
            AccountFields::of_account(txid, name, height),
        ),
{
    let fields = AccountFields::of_account(txid, name, height);
    fields.lemma_read_back(Seq::empty());
    assert(fields.bytes() + Seq::<u8>::empty() =~= fields.bytes());
}

/// A lookup by account finds the rows whose hash begins as that of the account does, and no
/// others.
pub proof fn law_account_lookup(fields: AccountFields, name: Seq<u8>, height: u32)
    requires
        fields.sized(),
    ensures
        account_prefix(name, height).is_prefix_of(fields.bytes()) <==> fields.code
            == TX_ACCOUNT_CODE && fields.prefix == sha256(account_bytes(name, height))@.take(8),
{
    let prefix = account_prefix(name, height);
    let bytes = fields.bytes();
    assert(bytes.take(9) =~= account_key_bytes(fields.code, fields.prefix));
    assert(prefix.is_prefix_of(bytes) <==> bytes.take(9) =~= prefix);
    assert(bytes.take(9)[0] == fields.code);
    assert(bytes.take(9).skip(1) =~= fields.prefix);
    assert(prefix.skip(1) =~= sha256(account_bytes(name, height))@.take(8));
}

impl TxCashAccountRow {
    /// The fields of the row.
    pub open spec fn fields(self) -> AccountFields {
        AccountFields {
            code: self.key.code,
            prefix: self.key.accout_hash_prefix@,
            txid: self.txid@,
        }
    }

    /// The row of the transaction `txid`, which registers `accountname` at `blockheight`.
    pub fn new(txid: Txid, accountname: &[u8], blockheight: u32) -> (row: TxCashAccountRow)
        requires
            accountname@.len() <= MAX_ACCOUNT_NAME,
        ensures
            row.fields() == AccountFields::of_account(txid, accountname@, blockheight),
            row.txid == txid,
    {
        TxCashAccountRow {
            key: TxCashAccountKey {
                code: TX_ACCOUNT_CODE,
                accout_hash_prefix: hash_prefix(&compute_accountname_hash(accountname, blockheight)),
            },
            txid,
        }
    }

    /// The bytes with which every row of the account begins.
    pub fn filter(accountname: &[u8], blockheight: u32) -> (prefix: Vec<u8>)
        requires
            accountname@.len() <= MAX_ACCOUNT_NAME,
        ensures
            prefix@ == account_prefix(accountname@, blockheight),
    {
        bincode_account_key(
            TX_ACCOUNT_CODE,
            &hash_prefix(&compute_accountname_hash(accountname, blockheight)),
        )
    }

    /// The row as it is stored.
    pub fn to_row(&self) -> (row: Row)
        ensures
            row@ == (RowView { key: self.fields().bytes(), value: Seq::empty() }),
    {
        let key = bincode_account_row(self.key.code, &self.key.accout_hash_prefix, &self.txid);
        Row { key, value: Vec::new() }
    }

    /// The registration that a stored row holds: none if it cannot be read.
    pub fn parse(row: &Row) -> (parsed: Option<TxCashAccountRow>)
        ensures
            parsed is Some <==> AccountFields::read(row.key@) is Some,
            parsed is Some ==> AccountFields::read(row.key@) == Some(parsed.unwrap().fields()),
    {
        match bincode_read_account_row(row.key.as_slice()) {
            None => None,
            Some((code, accout_hash_prefix, txid)) => Some(
                TxCashAccountRow { key: TxCashAccountKey { code, accout_hash_prefix }, txid },
            ),
        }
    }

    /// The registration that a stored row holds.
    pub fn from_row(row: &Row) -> (parsed: TxCashAccountRow)
        requires
            AccountFields::read(row.key@) is Some,
        ensures
            AccountFields::read(row.key@) == Some(parsed.fields()),
    {
        TxCashAccountRow::parse(row).unwrap()
    }
}

/// Whether every row of the account can be read.
pub fn are_accounts_readable<S: ReadStore>(store: &S, name: &str, height: u32) -> (readable: bool)
    requires
        encode_utf8(name@).len() <= MAX_ACCOUNT_NAME,
    ensures
        readable == accounts_readable(store.rows(), ascii_lowercase(encode_utf8(name@)), height),
{
    let lowered = to_ascii_lowercase(name.as_bytes());
    let prefix = TxCashAccountRow::filter(lowered.as_slice(), height);
    let found = store.scan(prefix.as_slice());
    let ghost views = rows_under(store.rows(), account_prefix(lowered@, height));
    for i in 0..found.len()
        invariant
            row_views(found@) == views,
            views == rows_under(store.rows(), account_prefix(lowered@, height)),
            lowered@ == ascii_lowercase(encode_utf8(name@)),
            forall|j: int| 0 <= j < i ==> AccountFields::read((#[trigger] views[j]).key) is Some,
    {
        assert(views[i as int] == found[i as int]@);
        if TxCashAccountRow::parse(&found[i]).is_none() {
            return false;
        }
    }
    true
}

/// The transactions that register `name`, in any case of its letters, at `height`, and those
/// of accounts whose hash begins alike.
pub fn txids_by_cashaccount<S: ReadStore>(store: &S, name: &str, height: u32) -> (txids: Vec<Txid>)
    requires
        encode_utf8(name@).len() <= MAX_ACCOUNT_NAME,
        accounts_readable(store.rows(), ascii_lowercase(encode_utf8(name@)), height),
    ensures
        txids@.map_values(|txid: Txid| txid@) == accounts_of(
            store.rows(),
            ascii_lowercase(encode_utf8(name@)),
            height,
        ),
{
    let lowered = to_ascii_lowercase(name.as_bytes());
    let prefix = TxCashAccountRow::filter(lowered.as_slice(), height);
    let found = store.scan(prefix.as_slice());
    let mut txids: Vec<Txid> = Vec::new();
    for i in 0..found.len()
        invariant
            row_views(found@) == rows_under(store.rows(), account_prefix(lowered@, height)),
            accounts_readable(store.rows(), lowered@, height),
            txids.len() == i,
            forall|j: int|
                0 <= j < i ==> AccountFields::read(found[j].key@).unwrap().txid == (
                #[trigger] txids[j])@,
    {
        assert(row_views(found@)[i as int] == found[i as int]@);
        txids.push(TxCashAccountRow::from_row(&found[i]).txid);
    }
    assert(txids@.map_values(|txid: Txid| txid@) =~= accounts_of(store.rows(), lowered@, height))
        by {
        assert forall|j: int| 0 <= j < txids.len() implies row_views(found@)[j].key == (
        #[trigger] found[j]).key@ by {}
    }
    txids
}

/// A name finds the same transactions in every spelling that differs from it only in the case
/// of its ASCII letters.
pub proof fn law_account_any_case(rows: Seq<RowView>, a: Seq<u8>, b: Seq<u8>, height: u32)
    requires
        a.len() == b.len(),
        forall|i: int| 0 <= i < a.len() ==> lower(#[trigger] a[i]) == lower(b[i]),
    ensures
        accounts_of(rows, ascii_lowercase(a), height) == accounts_of(
            rows,
            ascii_lowercase(b),
            height,
        ),
{
    assert(ascii_lowercase(a) =~= ascii_lowercase(b));
}

/// The row of a registration holds the code of account rows, the first eight bytes of the hash of
/// the account and the transaction.
pub proof fn law_account_row(txid: Txid, name: Seq<u8>, height: u32)
    ensures
        AccountFields::of_account(txid, name, height) == (AccountFields {
            code: 0x43,
            prefix: sha256(name + encode_utf8(seq!['#'] + decimal(height as int)))@.take(8),
            txid: txid@,
        }),
{
    reveal_strlit("#");
    assert("#"@ =~= seq!['#']);
}

/// A lookup by account finds, in the order of the store, the transactions of the rows whose key
/// begins with the code of account rows and the first eight bytes of the hash of the account.
pub proof fn law_accounts_found(rows: Seq<RowView>, name: Seq<u8>, height: u32, i: int)
    ensures
        ({
            let prefix = seq![0x43u8] + sha256(
                name + encode_utf8(seq!['#'] + decimal(height as int)),
            )@.take(8);
            let found = rows_under(rows, prefix);
            &&& accounts_of(rows, name, height).len() == found.len()
            &&& 0 <= i < found.len() ==> accounts_of(rows, name, height)[i] == AccountFields::read(
                found[i].key,
            ).unwrap().txid
        }),
{
    reveal_strlit("#");
    assert("#"@ =~= seq!['#']);
}

/// The rows of an account can be read exactly if each of them reads as a registration.
pub proof fn law_accounts_readable(rows: Seq<RowView>, name: Seq<u8>, height: u32)
    ensures
        accounts_readable(rows, name, height) <==> forall|row: RowView| #[trigger]
            rows_under(rows, account_prefix(name, height)).contains(row) ==> AccountFields::read(
                row.key,
            ) is Some,
{
    let found = rows_under(rows, account_prefix(name, height));
    if forall|row: RowView| #[trigger]
        found.contains(row) ==> AccountFields::read(row.key) is Some {
        assert forall|i: int| 0 <= i < found.len() implies AccountFields::read(
            (#[trigger] found[i]).key,
        ) is Some by {
            assert(found.contains(found[i]));
        }
    }
}

} // verus!
