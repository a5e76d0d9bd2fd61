//! Index of the inputs that spend an output.

use crate::chain::TxIn;
use crate::db::encoding::{
    bincode_in_key, bincode_in_row, bincode_read_in_row, counted, in_key_bytes, InFields,
};
use crate::db::{decode_varint_u32, encode_varint_u32, holds_u32, is_u32, u32_of, varint};
use crate::hashes::Txid;
use crate::store::{row_views, rows_under, ReadStore, Row, RowView};
use vstd::bytes::*;
use vstd::prelude::*;

verus! {

/// The first byte of an input row.
pub const TX_IN_CODE: u8 = 0x49;

/// The part of an input row by which it is looked up: the output that the input spends.
#[derive(Debug)]
pub struct TxInKey {
    pub code: u8,
    pub prev_hash: Txid,
    pub prev_index: Vec<u8>,
}

/// An input: what it spends, its transaction and the height at which it was confirmed.
#[derive(Debug)]
pub struct TxInRow {
    pub key: TxInKey,
    pub txid: Txid,
    pub confirmed_height: Vec<u8>,
}

impl InFields {
    /// The numbers of the row can be read.
    pub open spec fn wf(self) -> bool {
        &&& holds_u32(self.prev_index)
        &&& holds_u32(self.confirmed_height)
    }

    /// The position of the output that the input spends.
    pub open spec fn index(self) -> u32 {
        u32_of(self.prev_index)
    }

    /// The height at which the input was confirmed.
    pub open spec fn height(self) -> u32 {
        u32_of(self.confirmed_height)
    }

    /// The row of an input of the transaction `txid`, confirmed at `height`.
    pub open spec fn of_input(txid: Txid, input: TxIn, height: u32) -> InFields {
        InFields {
            code: TX_IN_CODE,
            prev_hash: input.previous_output.txid@,
            prev_index: varint(input.previous_output.vout as nat),
            txid: txid@,
            confirmed_height: varint(height as nat),
        }
    }
}

/// The bytes with which the rows of the inputs that spend an output begin.
pub open spec fn txin_prefix(txid: Txid, output_index: u32) -> Seq<u8> {
    in_key_bytes(TX_IN_CODE, txid@, varint(output_index as nat))
}

/// The first row of an input that spends the output, if there is one.
pub open spec fn txin_row(rows: Seq<RowView>, txid: Txid, output_index: u32) -> Option<RowView> {
    let found = rows_under(rows, txin_prefix(txid, output_index));
    if found.len() == 0 {
        None
    } else {
        Some(found[0])
    }
}

/// The first row of an input that spends the output can be read, if there is one.
pub open spec fn txin_readable(rows: Seq<RowView>, txid: Txid, output_index: u32) -> bool {
    txin_row(rows, txid, output_index) is Some ==> InFields::read(
        txin_row(rows, txid, output_index).unwrap().key,
    ) is Some
}

/// The input that spends the output, if the rows hold one.
pub open spec fn txin_of(rows: Seq<RowView>, txid: Txid, output_index: u32) -> Option<InFields> {
    match txin_row(rows, txid, output_index) {
        None => None,
        Some(row) => InFields::read(row.key),
    }
}

/// The first row of an input that spends the output can be read, and so can its numbers.
pub open spec fn txin_sound(rows: Seq<RowView>, txid: Txid, output_index: u32) -> bool {
    &&& txin_readable(rows, txid, output_index)
    &&& txin_of(rows, txid, output_index) is Some ==> txin_of(rows, txid, output_index).unwrap().wf()
}

/// A row holds the numbers that it was made with.
pub proof fn law_txin_numbers_read_back(txid: Txid, input: TxIn, height: u32)
    ensures
        InFields::of_input(txid, input, height).wf(),
        InFields::of_input(txid, input, height).index() == input.previous_output.vout,
        InFields::of_input(txid, input, height).height() == height,
{
    crate::db::law_u32_read_back(height);
    crate::db::law_u32_read_back(input.previous_output.vout);
}

/// The key that is stored for an input reads back as that input.
pub proof fn law_txin_row_read_back(txid: Txid, input: TxIn, height: u32)
    ensures
        InFields::read(InFields::of_input(txid, input, height).bytes()) == Some(
            InFields::of_input(txid, input, height),
        ),
{
    let fields = InFields::of_input(txid, input, height);
    lemma_in_fields_sized(txid, input, height);
    fields.lemma_read_back(Seq::empty());
    assert(fields.bytes() + Seq::<u8>::empty() =~= fields.bytes());
}

/// The fields of a new row have the lengths of their types.
pub(crate) proof fn lemma_in_fields_sized(txid: Txid, input: TxIn, height: u32)
    ensures
        InFields::of_input(txid, input, height).sized(),
{
    crate::db::lemma_varint_lens(height, input.previous_output.vout, 0);
}

/// Of two byte strings behind their lengths, one can be at the front of the other only if
/// they are the same byte string.
proof fn lemma_counted_prefix(a: Seq<u8>, b: Seq<u8>, rest: Seq<u8>)
    requires
        a.len() <= u64::MAX,
        b.len() <= u64::MAX,
        counted(a).is_prefix_of(counted(b) + rest),
    ensures
        a == b,
{
    lemma_auto_spec_u64_to_from_le_bytes();
    let all = counted(b) + rest;
    let (x, y) = (a.len() as u64, b.len() as u64);
    assert(spec_u64_to_le_bytes(x).len() == 8 && spec_u64_to_le_bytes(y).len() == 8);
    assert(counted(a).take(8) =~= spec_u64_to_le_bytes(x));
    assert(all.take(8) =~= spec_u64_to_le_bytes(y));
    assert(counted(a).take(8) =~= all.take(8));
    assert(spec_u64_from_le_bytes(spec_u64_to_le_bytes(x)) == x);
    assert(spec_u64_from_le_bytes(spec_u64_to_le_bytes(y)) == y);
    assert(counted(a).skip(8) =~= a);
    assert(all.subrange(8, 8 + b.len() as int) =~= b);
    assert(a =~= b);
}

/// A lookup by output finds the rows of the inputs that spend it, and no others.
pub proof fn law_txin_lookup(fields: InFields, txid: Txid, output_index: u32)
    requires
        fields.sized(),
    ensures
        txin_prefix(txid, output_index).is_prefix_of(fields.bytes()) <==> fields.code == TX_IN_CODE
            && fields.prev_hash == txid@ && fields.prev_index == varint(output_index as nat),
{
    let index = varint(output_index as nat);
    let prefix = txin_prefix(txid, output_index);
    let bytes = fields.bytes();
    let tail2 = counted(fields.txid) + counted(fields.confirmed_height);
    let tail1 = counted(fields.prev_index) + tail2;
    crate::db::lemma_varint_lens(output_index, 0, 0);
    assert(bytes =~= seq![fields.code] + counted(fields.prev_hash) + tail1);
    if prefix.is_prefix_of(bytes) {
        assert(prefix[0] == bytes[0]);
        assert(bytes.skip(1) =~= counted(fields.prev_hash) + tail1);
        assert(prefix.skip(1) =~= counted(txid@) + counted(index));
        assert(counted(txid@).is_prefix_of(prefix.skip(1)));
        assert(prefix.skip(1).is_prefix_of(bytes.skip(1)));
        lemma_counted_prefix(txid@, fields.prev_hash, tail1);
        let n = 1 + counted(txid@).len() as int;
        assert(prefix.skip(n) =~= counted(index));
        assert(bytes.skip(n) =~= tail1);
        assert(prefix.skip(n).is_prefix_of(bytes.skip(n)));
        lemma_counted_prefix(index, fields.prev_index, tail2);
    } else if fields.code == TX_IN_CODE && fields.prev_hash == txid@ && fields.prev_index == index {
        assert(bytes =~= prefix + tail2);
    }
}

impl TxInRow {
    /// The fields of the row.
    pub open spec fn fields(self) -> InFields {
        InFields {
            code: self.key.code,
            prev_hash: self.key.prev_hash@,
            prev_index: self.key.prev_index@,
            txid: self.txid@,
            confirmed_height: self.confirmed_height@,
        }
    }

    /// The row of an input of the transaction `txid`.
    pub fn new(txid: Txid, input: &TxIn, confirmed_height: u32) -> (row: TxInRow)
        ensures
            row.fields() == InFields::of_input(txid, *input, confirmed_height),
            row.txid == txid,
    {
        TxInRow {
            key: TxInKey {
                code: TX_IN_CODE,
                prev_hash: input.previous_output.txid,
                prev_index: encode_varint_u32(input.previous_output.vout),
            },
            txid,
            confirmed_height: encode_varint_u32(confirmed_height),
        }
    }

    /// The bytes with which every row of an input that spends the output begins.
    pub fn filter(txid: Txid, output_index: u32) -> (prefix: Vec<u8>)
        ensures
            prefix@ == txin_prefix(txid, output_index),
    {
        let index = encode_varint_u32(output_index);
        bincode_in_key(TX_IN_CODE, &txid, &index)
    }

    /// The row as it is stored.
    pub fn to_row(&self) -> (row: Row)
        ensures
            row@ == (RowView { key: self.fields().bytes(), value: Seq::empty() }),
    {
        let key = bincode_in_row(
            self.key.code,
            &self.key.prev_hash,
            &self.key.prev_index,
            &self.txid,
            &self.confirmed_height,
        );
        Row { key, value: Vec::new() }
    }

    /// The input that a stored row holds: none if it cannot be read.
    pub fn parse(row: &Row) -> (parsed: Option<TxInRow>)
        ensures
            parsed is Some <==> InFields::read(row.key@) is Some,
            parsed is Some ==> InFields::read(row.key@) == Some(parsed.unwrap().fields()),
    {
        match bincode_read_in_row(row.key.as_slice()) {
            None => None,
            Some((code, prev_hash, prev_index, txid, confirmed_height)) => Some(
                TxInRow {
                    key: TxInKey { code, prev_hash, prev_index },
                    txid,
                    confirmed_height,
                },
            ),
        }
    }

    /// The input that a stored row holds.
    pub fn from_row(row: &Row) -> (parsed: TxInRow)
        requires
            InFields::read(row.key@) is Some,
        ensures
            InFields::read(row.key@) == Some(parsed.fields()),
    {
        TxInRow::parse(row).unwrap()
    }

    /// Whether the numbers of the row can be read.
    pub fn is_wf(&self) -> (wf: bool)
        ensures
            wf == self.fields().wf(),
    {
        is_u32(self.key.prev_index.as_slice()) && is_u32(self.confirmed_height.as_slice())
    }

    /// The position of the output that the input spends.
    pub fn get_prev_index(&self) -> (index: u32)
        requires
            holds_u32(self.key.prev_index@),
        ensures
            index == self.fields().index(),
    {
        decode_varint_u32(self.key.prev_index.as_slice())
    }

    /// The height at which the input was confirmed.
    pub fn get_confirmed_height(&self) -> (height: u32)
        requires
            holds_u32(self.confirmed_height@),
        ensures
            height == self.fields().height(),
    {
        decode_varint_u32(self.confirmed_height.as_slice())
    }

    /// The transaction of the input.
    pub fn get_txid(&self) -> (txid: &Txid)
        ensures
            *txid == self.txid,
    {
        &self.txid
    }
}

/// Whether the first row of an input that spends the output can be read, and its numbers.
pub fn is_txin_sound<S: ReadStore>(store: &S, txid: Txid, output_index: u32) -> (sound: bool)
    ensures
        sound == txin_sound(store.rows(), txid, output_index),
{
    let prefix = TxInRow::filter(txid, output_index);
    let found = store.scan(prefix.as_slice());
    assert(row_views(found@).len() == found.len());
    if found.is_empty() {
        return true;
    }
    assert(row_views(found@)[0] == found[0]@);
    match TxInRow::parse(&found[0]) {
        Some(row) => row.is_wf(),
        None => false,
    }
}

/// The input that spends the output, if the store holds one.
pub fn get_txin<S: ReadStore>(store: &S, txid: Txid, output_index: u32) -> (input: Option<TxInRow>)
    requires
        txin_readable(store.rows(), txid, output_index),
    ensures
        input is Some <==> txin_of(store.rows(), txid, output_index) is Some,
        input is Some ==> txin_of(store.rows(), txid, output_index) == Some(
            input.unwrap().fields(),
        ),
{
    let prefix = TxInRow::filter(txid, output_index);
    let found = store.scan(prefix.as_slice());
    assert(row_views(found@).len() == found.len());
    if found.is_empty() {
        None
    } else {
        assert(row_views(found@)[0] == found[0]@);
        Some(TxInRow::from_row(&found[0]))
    }
}

/// A lookup by output finds what the first of the rows holds whose key begins with the code of
/// input rows, the transaction of the output behind its length, and the varint of its position
/// behind its length.
pub proof fn law_txin_found(rows: Seq<RowView>, txid: Txid, output_index: u32)
    ensures
        ({
            let found = rows_under(
                rows,
                seq![0x49u8] + counted(txid@) + counted(varint(output_index as nat)),
            );
            txin_of(rows, txid, output_index) == if found.len() == 0 {
                None
            } else {
                InFields::read(found[0].key)
            }
        }),
{
}

} // verus!
