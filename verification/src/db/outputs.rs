//! Index of the transaction outputs that pay to a script.

use crate::chain::{TxOut, TxOutView};
use crate::db::encoding::{
    bincode_hash_key, bincode_out_row, bincode_read_out_row, out_key_bytes, OutFields,
};
use crate::db::{
    decode_varint_u32, decode_varint_u64, encode_varint_u32, encode_varint_u64, holds_u32,
    holds_u64, is_u32, is_u64, u32_of, u64_of, varint,
};
use crate::hashes::{sha256, FullHash, Txid, MAX_DIGEST_INPUT};
use crate::scripthash::compute_script_hash;
use crate::store::{row_views, rows_under, ReadStore, Row, RowView};
use vstd::prelude::*;

verus! {

/// The first byte of an output row.
pub const TX_OUT_CODE: u8 = 0x4f;

/// The part of an output row by which it is looked up.
#[derive(Clone, Copy, Debug)]
pub struct TxOutKey {
    pub code: u8,
    pub scripthash: FullHash,
}

/// An output: what it pays to, its transaction and position, its value and the height at
/// which it was confirmed.
#[derive(Debug)]
pub struct TxOutRow {
    pub key: TxOutKey,
    pub txid: Txid,
    pub confirmed_height: Vec<u8>,
    pub output_index: Vec<u8>,
    pub output_value: Vec<u8>,
}

impl OutFields {
    /// The numbers of the row can be read.
    pub open spec fn wf(self) -> bool {
        &&& holds_u32(self.confirmed_height)
        &&& holds_u32(self.output_index)
        &&& holds_u64(self.output_value)
    }

    /// The height at which the output was confirmed.
    pub open spec fn height(self) -> u32 {
        u32_of(self.confirmed_height)
    }

    /// The position of the output in its transaction.
    pub open spec fn index(self) -> u32 {
        u32_of(self.output_index)
    }

    /// The value of the output.
    pub open spec fn value(self) -> u64 {
        u64_of(self.output_value)
    }

    /// The row of output `index` of the transaction `txid`, confirmed at `height`.
    pub open spec fn of_output(txid: Txid, output: TxOutView, index: u32, height: u32) -> OutFields {
        OutFields {
            code: TX_OUT_CODE,
            scripthash: sha256(output.script_pubkey)@,
            txid: txid@,
            confirmed_height: varint(height as nat),
            output_index: varint(index as nat),
            output_value: varint(output.value as nat),
        }
    }
}

/// The bytes with which the rows of the outputs to `scripthash` begin.
pub open spec fn txout_prefix(scripthash: FullHash) -> Seq<u8> {
    out_key_bytes(TX_OUT_CODE, scripthash@)
}

/// Every row of an output to `scripthash` can be read.
pub open spec fn txouts_readable(rows: Seq<RowView>, scripthash: FullHash) -> bool {
    forall|i: int|
        0 <= i < rows_under(rows, txout_prefix(scripthash)).len() ==> OutFields::read(
            (#[trigger] rows_under(rows, txout_prefix(scripthash))[i]).key,
        ) is Some
}

/// The outputs to `scripthash` that the rows hold.
pub open spec fn txouts_of(rows: Seq<RowView>, scripthash: FullHash) -> Seq<OutFields> {
    rows_under(rows, txout_prefix(scripthash)).map_values(
        |row: RowView| OutFields::read(row.key).unwrap(),
    )
}

/// Every row of an output to `scripthash` can be read, and so can its numbers.
pub open spec fn txouts_sound(rows: Seq<RowView>, scripthash: FullHash) -> bool {
    &&& txouts_readable(rows, scripthash)
    &&& forall|i: int|
        0 <= i < txouts_of(rows, scripthash).len() ==> (#[trigger] txouts_of(
            rows,
            scripthash,
        )[i]).wf()
}

/// The fields of each row of a vector.
pub open spec fn out_fields(rows: Seq<TxOutRow>) -> Seq<OutFields> {
    rows.map_values(|row: TxOutRow| row.fields())
}

/// A row holds the height, position and value that it was made with.
pub proof fn law_txout_numbers_read_back(txid: Txid, output: TxOutView, index: u32, height: u32)
    ensures
        OutFields::of_output(txid, output, index, height).wf(),
        OutFields::of_output(txid, output, index, height).height() == height,
        OutFields::of_output(txid, output, index, height).index() == index,
        OutFields::of_output(txid, output, index, height).value() == output.value,
{
    crate::db::law_u32_read_back(height);
    crate::db::law_u32_read_back(index);
    crate::db::law_u64_read_back(output.value);
}

/// The key that is stored for an output reads back as that output.
pub proof fn law_txout_row_read_back(txid: Txid, output: TxOutView, index: u32, height: u32)
    ensures
        OutFields::read(OutFields::of_output(txid, output, index, height).bytes()) == Some(
            OutFields::of_output(txid, output, index, height),
        ),
{
    let fields = OutFields::of_output(txid, output, index, height);
    lemma_out_fields_sized(txid, output, index, height);
    fields.lemma_read_back(Seq::empty());
    assert(fields.bytes() + Seq::<u8>::empty() =~= fields.bytes());
}

/// The fields of a new row have the lengths of their types.
pub(crate) proof fn lemma_out_fields_sized(txid: Txid, output: TxOutView, index: u32, height: u32)
    ensures
        OutFields::of_output(txid, output, index, height).sized(),
{
    crate::db::lemma_varint_lens(height, index, output.value);
}

/// A lookup by script finds the rows of the outputs that pay to it, and no others.
pub proof fn law_txout_lookup(fields: OutFields, scripthash: FullHash)
    requires
        fields.sized(),
    ensures
        txout_prefix(scripthash).is_prefix_of(fields.bytes()) <==> fields.code == TX_OUT_CODE
            && fields.scripthash == scripthash@,
{
    let prefix = txout_prefix(scripthash);
    let bytes = fields.bytes();
    assert(bytes.take(33) =~= out_key_bytes(fields.code, fields.scripthash));
    assert(prefix.is_prefix_of(bytes) <==> bytes.take(33) =~= prefix);
    assert(bytes.take(33)[0] == fields.code);
    assert(bytes.take(33).skip(1) =~= fields.scripthash);
    assert(prefix.skip(1) =~= scripthash@);
}

impl TxOutRow {
    /// The fields of the row.
    pub open spec fn fields(self) -> OutFields {
        OutFields {
            code: self.key.code,
            scripthash: self.key.scripthash@,
            txid: self.txid@,
            confirmed_height: self.confirmed_height@,
            output_index: self.output_index@,
            output_value: self.output_value@,
        }
    }

    /// The row of output `output_index` of the transaction `txid`.
    pub fn new(txid: Txid, output: &TxOut, output_index: u32, confirmed_height: u32) -> (row:
        TxOutRow)
        requires
            output.script_pubkey@.len() <= MAX_DIGEST_INPUT,
        ensures
            row.fields() == OutFields::of_output(txid, output@, output_index, confirmed_height),
            row.txid == txid,
    {
        TxOutRow {
            key: TxOutRow::key(compute_script_hash(output.script_pubkey.as_slice())),
            txid,
            confirmed_height: encode_varint_u32(confirmed_height),
            output_index: encode_varint_u32(output_index),
            output_value: encode_varint_u64(output.value),
        }
    }

    /// The key under which the outputs to `scripthash` are looked up.
    pub fn key(scripthash: FullHash) -> (key: TxOutKey)
        ensures
            key == (TxOutKey { code: TX_OUT_CODE, scripthash }),
    {
        TxOutKey { code: TX_OUT_CODE, scripthash }
    }

    /// The bytes with which every row under `key` begins.
    pub fn filter(key: &TxOutKey) -> (prefix: Vec<u8>)
        ensures
            prefix@ == out_key_bytes(key.code, key.scripthash@),
    {
        bincode_hash_key(key.code, &key.scripthash)
    }

    /// The row as it is stored.
    pub fn to_row(&self) -> (row: Row)
        ensures
            row@ == (RowView { key: self.fields().bytes(), value: Seq::empty() }),
    {
        let key = bincode_out_row(
            self.key.code,
            &self.key.scripthash,
            &self.txid,
            &self.confirmed_height,
            &self.output_index,
            &self.output_value,
        );
        Row { key, value: Vec::new() }
    }

    /// The output that a stored row holds: none if it cannot be read.
    pub fn parse(row: &Row) -> (parsed: Option<TxOutRow>)
        ensures
            parsed is Some <==> OutFields::read(row.key@) is Some,
            parsed is Some ==> OutFields::read(row.key@) == Some(parsed.unwrap().fields()),
    {
        match bincode_read_out_row(row.key.as_slice()) {
            None => None,
            Some((code, scripthash, txid, confirmed_height, output_index, output_value)) => Some(
                TxOutRow {
                    key: TxOutKey { code, scripthash },
                    txid,
                    confirmed_height,
                    output_index,
                    output_value,
                },
            ),
        }
    }

    /// The output that a stored row holds.
    pub fn from_row(row: &Row) -> (parsed: TxOutRow)
        requires
            OutFields::read(row.key@) is Some,
        ensures
            OutFields::read(row.key@) == Some(parsed.fields()),
    {
        TxOutRow::parse(row).unwrap()
    }

    /// Whether the numbers of the row can be read.
    pub fn is_wf(&self) -> (wf: bool)
        ensures
            wf == self.fields().wf(),
    {
        is_u32(self.confirmed_height.as_slice()) && is_u32(self.output_index.as_slice()) && is_u64(
            self.output_value.as_slice(),
        )
    }

    /// The transaction of the output.
    pub fn get_txid(&self) -> (txid: &Txid)
        ensures
            *txid == self.txid,
    {
        &self.txid
    }

    /// The position of the output in its transaction.
    pub fn get_output_index(&self) -> (index: u32)
        requires
            holds_u32(self.output_index@),
        ensures
            index == self.fields().index(),
    {
        decode_varint_u32(self.output_index.as_slice())
    }

    /// The value of the output.
    pub fn get_output_value(&self) -> (value: u64)
        requires
            holds_u64(self.output_value@),
        ensures
            value == self.fields().value(),
    {
        decode_varint_u64(self.output_value.as_slice())
    }

    /// The height at which the output was confirmed.
    pub fn get_confirmed_height(&self) -> (height: u32)
        requires
            holds_u32(self.confirmed_height@),
        ensures
            height == self.fields().height(),
    {
        decode_varint_u32(self.confirmed_height.as_slice())
    }
}

/// Whether every row of an output to `scripthash` can be read, and its numbers.
pub fn are_txouts_sound<S: ReadStore>(store: &S, scripthash: FullHash) -> (sound: bool)
    ensures
        sound == txouts_sound(store.rows(), scripthash),
{
    let prefix = TxOutRow::filter(&TxOutRow::key(scripthash));
    let found = store.scan(prefix.as_slice());
    let ghost views = rows_under(store.rows(), txout_prefix(scripthash));
    for i in 0..found.len()
        invariant
            row_views(found@) == views,
            views == rows_under(store.rows(), txout_prefix(scripthash)),
            forall|j: int|
                0 <= j < i ==> OutFields::read((#[trigger] views[j]).key) is Some
                    && OutFields::read(views[j].key).unwrap().wf(),
    {
        assert(views[i as int] == found[i as int]@);
        match TxOutRow::parse(&found[i]) {
            Some(row) => {
                if !row.is_wf() {
                    assert(!txouts_of(store.rows(), scripthash)[i as int].wf());
                    return false;
                }
            },
            None => {
                return false;
            },
        }
    }
    assert forall|j: int| 0 <= j < txouts_of(store.rows(), scripthash).len() implies (
    #[trigger] txouts_of(store.rows(), scripthash)[j]).wf() by {
        assert(OutFields::read(views[j].key).unwrap().wf());
    }
    true
}

/// The outputs to `scripthash` in the store, in the order of their rows.
pub fn get_txouts<S: ReadStore>(store: &S, scripthash: FullHash) -> (outputs: Vec<TxOutRow>)
    requires
        txouts_readable(store.rows(), scripthash),
    ensures
        out_fields(outputs@) == txouts_of(store.rows(), scripthash),
{
    let prefix = TxOutRow::filter(&TxOutRow::key(scripthash));
    let found = store.scan(prefix.as_slice());
    let mut outputs: Vec<TxOutRow> = Vec::new();
    for i in 0..found.len()
        invariant
            row_views(found@) == rows_under(store.rows(), txout_prefix(scripthash)),
            txouts_readable(store.rows(), scripthash),
            outputs.len() == i,
            forall|j: int|
                0 <= j < i ==> OutFields::read(found[j].key@) == Some(
                    (#[trigger] outputs[j]).fields(),
                ),
    {
        let ghost views = row_views(found@);
        assert(views[i as int] == found[i as int]@);
        outputs.push(TxOutRow::from_row(&found[i]));
    }
    assert(out_fields(outputs@) =~= txouts_of(store.rows(), scripthash)) by {
        assert forall|j: int| 0 <= j < outputs.len() implies row_views(found@)[j].key == (
        #[trigger] found[j]).key@ by {}
    }
    outputs
}

/// A lookup by script finds, in the order of the store, what the rows hold whose key begins with
/// the code of output rows and the hash of the script.
pub proof fn law_txouts_found(rows: Seq<RowView>, scripthash: FullHash, i: int)
    ensures
        ({
            let found = rows_under(rows, seq![0x4fu8] + scripthash@);
            &&& txouts_of(rows, scripthash).len() == found.len()
            &&& 0 <= i < found.len() ==> txouts_of(rows, scripthash)[i] == OutFields::read(
                found[i].key,
            ).unwrap()
        }),
{
}

} // verus!
