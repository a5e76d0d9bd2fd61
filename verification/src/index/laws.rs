//! What holds of the rows of blocks and transactions once they are stored.

use crate::chain::{
    block_views, header_in, law_header_encoding_injective, lemma_header_in, transaction_views, Block,
    BlockHeader, BlockView, Transaction, TransactionView, TxIn, TxOutView,
};
use crate::db::cashaccounts::{
    account_prefix, accounts_of, law_account_lookup, law_account_row_read_back,
};
use crate::db::encoding::{AccountFields, InFields, OutFields};
use crate::db::inputs::{
    law_txin_lookup, law_txin_numbers_read_back, law_txin_row_read_back, lemma_in_fields_sized, txin_of, txin_prefix,
    TX_IN_CODE,
};
use crate::db::outputs::{
    law_txout_lookup, law_txout_numbers_read_back, law_txout_row_read_back, lemma_out_fields_sized, txout_prefix, txouts_of,
    TX_OUT_CODE,
};
use crate::db::{law_u32_read_back, u32_of, u64_of, varint};
use crate::hashes::{
    hash_in, law_null_hash, lemma_hash_eq, lemma_hash_in, null_hash, sha256, sha256d, BlockHash,
    FullHash, Txid,
};
use crate::index::{
    accounts_views, batch_rows, entry_hashes, block_row_readable, block_rows, hash_in_key, header_map, header_row, headers_tip,
    indexed_headers, indexed_tip, input_row, input_rows,
    last_block_row, lemma_header_map_finite, lemma_path_starts, maybe_row, output_row, output_rows, path_to, rows_of_blocks, spends,
    transaction_rows, transactions_rows, BLOCK_CODE, LAST_BLOCK_CODE,
};
use crate::store::{
    ascending, contents, lemma_value_at, row_views, rows_under, value_under, Row, RowView,
};
use crate::util::{
    applied, chain_wf, continues, entries_from, entry_of, header_follows, headers_linked,
    lemma_place_of, next_height, ordered, place_of, HeaderEntry,
};
use vstd::prelude::*;

verus! {

/// The outputs of a transaction, as the index holds them.
pub open spec fn outputs_of(tx: TransactionView, height: u32) -> Seq<OutFields> {
    Seq::new(
        tx.output.len(),
        |i: int| OutFields::of_output(tx.txid, tx.output[i], i as u32, height),
    )
}

/// The account row of a transaction begins with the code of account rows.
pub open spec fn account_row_wf(row: Option<RowView>) -> bool {
    row is Some ==> row.unwrap().key.len() > 0 && row.unwrap().key[0]
        == crate::db::cashaccounts::TX_ACCOUNT_CODE
}

proof fn lemma_filter_none<A>(s: Seq<A>, pred: spec_fn(A) -> bool)
    requires
        forall|i: int| 0 <= i < s.len() ==> !pred(#[trigger] s[i]),
    ensures
        s.filter(pred) == Seq::<A>::empty(),
    decreases s.len(),
{
    reveal(Seq::filter);
    if s.len() > 0 {
        lemma_filter_none(s.drop_last(), pred);
    }
}

proof fn lemma_filter_map<A, B>(s: Seq<A>, f: spec_fn(A) -> B, pred: spec_fn(B) -> bool)
    ensures
        s.map_values(f).filter(pred) == s.filter(|a: A| pred(f(a))).map_values(f),
    decreases s.len(),
{
    reveal(Seq::filter);
    if s.len() > 0 {
        lemma_filter_map(s.drop_last(), f, pred);
        assert(s.map_values(f).drop_last() =~= s.drop_last().map_values(f));
        let both = |a: A| pred(f(a));
        assert(s.drop_last().filter(both).push(s.last()).map_values(f) =~= s.drop_last().filter(
            both,
        ).map_values(f).push(f(s.last())));
    } else {
        assert(s.map_values(f) =~= Seq::empty());
        assert(s.filter(|a: A| pred(f(a))).map_values(f) =~= Seq::empty());
    }
}

pub(crate) proof fn lemma_filter_same<A>(s: Seq<A>, p: spec_fn(A) -> bool, q: spec_fn(A) -> bool)
    requires
        forall|i: int| 0 <= i < s.len() ==> p(#[trigger] s[i]) == q(s[i]),
    ensures
        s.filter(p) == s.filter(q),
    decreases s.len(),
{
    reveal(Seq::filter);
    if s.len() > 0 {
        lemma_filter_same(s.drop_last(), p, q);
    }
}

proof fn lemma_map_back<A, B, C>(s: Seq<A>, f: spec_fn(A) -> B, g: spec_fn(B) -> C, h: spec_fn(
    A,
) -> C)
    requires
        forall|i: int| 0 <= i < s.len() ==> g(f(#[trigger] s[i])) == h(s[i]),
    ensures
        s.map_values(f).map_values(g) == s.map_values(h),
{
    assert(s.map_values(f).map_values(g) =~= s.map_values(h));
}

/// A lookup by script in the rows of a transaction finds its outputs to that script, in their
/// order, and nothing else.
pub proof fn law_outputs_found(
    tx: TransactionView,
    height: u32,
    account: Option<RowView>,
    scripthash: FullHash,
)
    requires
        account_row_wf(account),
    ensures
        txouts_of(transaction_rows(tx, height, account), scripthash) == outputs_of(
            tx,
            height,
        ).filter(|output: OutFields| output.scripthash == scripthash@),
{
    let prefix = txout_prefix(scripthash);
    let under = |row: RowView| prefix.is_prefix_of(row.key);
    let (ins, outs, acc) = (input_rows(tx, height), output_rows(tx, height), maybe_row(account));
    Seq::filter_distributes_over_add(ins + outs, acc, under);
    Seq::filter_distributes_over_add(ins, outs, under);
    let spending = tx.input.filter(|input: TxIn| spends(input));
    assert forall|i: int| 0 <= i < ins.len() implies !under(#[trigger] ins[i]) by {
        let fields = InFields::of_input(tx.txid, spending[i], height);
        assert(ins[i].key == fields.bytes());
        assert(fields.bytes()[0] == TX_IN_CODE);
        assert(prefix[0] == TX_OUT_CODE);
    }
    lemma_filter_none(ins, under);
    assert forall|i: int| 0 <= i < acc.len() implies !under(#[trigger] acc[i]) by {
        assert(prefix[0] == TX_OUT_CODE);
    }
    lemma_filter_none(acc, under);
    assert(Seq::<RowView>::empty() + outs.filter(under) + Seq::<RowView>::empty() =~= outs.filter(
        under,
    ));
    let as_row = |fields: OutFields| RowView { key: fields.bytes(), value: Seq::empty() };
    let read = |row: RowView| OutFields::read(row.key).unwrap();
    let all = outputs_of(tx, height);
    assert(outs =~= all.map_values(as_row));
    lemma_filter_map(all, as_row, under);
    let to_script = |output: OutFields| output.scripthash == scripthash@;
    assert forall|i: int| 0 <= i < all.len() implies under(as_row(#[trigger] all[i])) == to_script(
        all[i],
    ) by {
        lemma_out_fields_sized(tx.txid, tx.output[i], i as u32, height);
        law_txout_lookup(all[i], scripthash);
    }
    lemma_filter_same(all, |fields: OutFields| under(as_row(fields)), to_script);
    let chosen = all.filter(to_script);
    assert forall|i: int| 0 <= i < chosen.len() implies read(as_row(#[trigger] chosen[i]))
        == chosen[i] by {
        all.lemma_filter_contains_rev(to_script, chosen[i]);
        let k = choose|k: int| 0 <= k < all.len() && all[k] == chosen[i];
        law_txout_row_read_back(tx.txid, tx.output[k], k as u32, height);
    }
    assert(chosen.map_values(as_row).map_values(read) =~= chosen);
}

proof fn lemma_filter_twice<A>(s: Seq<A>, p: spec_fn(A) -> bool, q: spec_fn(A) -> bool)
    ensures
        s.filter(p).filter(q) == s.filter(|a: A| p(a) && q(a)),
    decreases s.len(),
{
    reveal(Seq::filter);
    if s.len() > 0 {
        lemma_filter_twice(s.drop_last(), p, q);
        if p(s.last()) {
            s.drop_last().filter(p).lemma_filter_push(s.last(), q);
        }
    }
}

/// The inputs of a transaction that spend a given output, as the index holds them.
pub open spec fn spenders_of(
    tx: TransactionView,
    height: u32,
    txid: Txid,
    output_index: u32,
) -> Seq<InFields> {
    tx.input.filter(
        |input: TxIn|
            spends(input) && input.previous_output.txid == txid && input.previous_output.vout
                == output_index,
    ).map_values(|input: TxIn| InFields::of_input(tx.txid, input, height))
}

/// A lookup by output in the rows of a transaction finds its inputs that spend the output, in
/// their order, and nothing else.
pub proof fn law_inputs_found(
    tx: TransactionView,
    height: u32,
    account: Option<RowView>,
    txid: Txid,
    output_index: u32,
)
    requires
        account_row_wf(account),
    ensures
        rows_under(
            transaction_rows(tx, height, account),
            txin_prefix(txid, output_index),
        ).map_values(|row: RowView| InFields::read(row.key).unwrap()) == spenders_of(
            tx,
            height,
            txid,
            output_index,
        ),
{
    let prefix = txin_prefix(txid, output_index);
    let under = |row: RowView| prefix.is_prefix_of(row.key);
    let (ins, outs, acc) = (input_rows(tx, height), output_rows(tx, height), maybe_row(account));
    Seq::filter_distributes_over_add(ins + outs, acc, under);
    Seq::filter_distributes_over_add(ins, outs, under);
    assert forall|i: int| 0 <= i < outs.len() implies !under(#[trigger] outs[i]) by {
        let fields = OutFields::of_output(tx.txid, tx.output[i], i as u32, height);
        assert(outs[i].key == fields.bytes());
        assert(fields.bytes()[0] == TX_OUT_CODE);
        assert(prefix[0] == TX_IN_CODE);
    }
    lemma_filter_none(outs, under);
    assert forall|i: int| 0 <= i < acc.len() implies !under(#[trigger] acc[i]) by {
        assert(prefix[0] == TX_IN_CODE);
    }
    lemma_filter_none(acc, under);
    assert(ins.filter(under) + Seq::<RowView>::empty() + Seq::<RowView>::empty() =~= ins.filter(
        under,
    ));
    let spending = |input: TxIn| spends(input);
    let as_row = |input: TxIn| input_row(tx.txid, input, height);
    let read = |row: RowView| InFields::read(row.key).unwrap();
    let as_fields = |input: TxIn| InFields::of_input(tx.txid, input, height);
    let some = tx.input.filter(spending);
    assert(ins =~= some.map_values(as_row));
    lemma_filter_map(some, as_row, under);
    let found = |input: TxIn| under(as_row(input));
    let wanted = |input: TxIn|
        spends(input) && input.previous_output.txid == txid && input.previous_output.vout
            == output_index;
    lemma_filter_twice(tx.input, spending, found);
    let both = |input: TxIn| spending(input) && found(input);
    assert forall|i: int| 0 <= i < tx.input.len() implies both(#[trigger] tx.input[i]) == wanted(
        tx.input[i],
    ) by {
        let input = tx.input[i];
        let fields = InFields::of_input(tx.txid, input, height);
        lemma_in_fields_sized(tx.txid, input, height);
        law_txin_lookup(fields, txid, output_index);
        law_u32_read_back(output_index);
        law_u32_read_back(input.previous_output.vout);
        if input.previous_output.txid@ == txid@ {
            lemma_hash_eq(input.previous_output.txid, txid);
        }
    }
    lemma_filter_same(tx.input, both, wanted);
    let chosen = tx.input.filter(wanted);
    assert forall|i: int| 0 <= i < chosen.len() implies read(as_row(#[trigger] chosen[i]))
        == as_fields(chosen[i]) by {
        law_txin_row_read_back(tx.txid, chosen[i], height);
    }
    lemma_map_back(chosen, as_row, read, as_fields);
}

/// The hashes of the headers tell them apart, and none of them is the null hash.
pub open spec fn told_apart(headers: Seq<BlockHeader>) -> bool {
    &&& forall|i: int|
        0 <= i < headers.len() ==> (#[trigger] headers[i]).spec_block_hash() != null_hash()
    &&& forall|i: int, j: int|
        0 <= i < j < headers.len() ==> (#[trigger] headers[i]).spec_block_hash() != (
        #[trigger] headers[j]).spec_block_hash()
}

/// The headers are a chain from the first block on.
pub open spec fn headers_chain(headers: Seq<BlockHeader>) -> bool {
    &&& headers_linked(headers)
    &&& headers.len() > 0 ==> headers[0].prev_blockhash == null_hash()
}

/// What lies under a key that begins as those of blocks do is a header, under its own hash.
pub open spec fn holds_header(held: Map<Seq<u8>, Seq<u8>>, key: Seq<u8>) -> bool {
    exists|header: BlockHeader| key == (#[trigger] header_row(header)).key && held[key]
        == header.bytes()
}

/// Each of the headers lies under its hash.
pub open spec fn holds_headers(
    held: Map<Seq<u8>, Seq<u8>>,
    headers: Seq<BlockHeader>,
) -> bool {
    forall|i: int|
        0 <= i < headers.len() ==> held.contains_key(header_row(#[trigger] headers[i]).key)
            && held[header_row(headers[i]).key] == headers[i].bytes()
}

/// Every block row holds a header.
pub open spec fn holds_only_headers(held: Map<Seq<u8>, Seq<u8>>) -> bool {
    forall|key: Seq<u8>| #[trigger]
        held.contains_key(key) && key.len() > 0 && key[0] == BLOCK_CODE ==> holds_header(held, key)
}

/// A store with these contents holds the headers, and names the last of them.
pub open spec fn holds_chain(held: Map<Seq<u8>, Seq<u8>>, headers: Seq<BlockHeader>) -> bool {
    &&& holds_only_headers(held)
    &&& holds_headers(held, headers)
    &&& if headers.len() == 0 {
        !held.contains_key(seq![LAST_BLOCK_CODE])
    } else {
        held.contains_key(seq![LAST_BLOCK_CODE]) && held[seq![LAST_BLOCK_CODE]] == headers_tip(
            headers,
        )@
    }
}

proof fn lemma_header_map(rows: Seq<RowView>, hash: BlockHash)
    ensures
        header_map(rows).contains_key(hash) ==> exists|k: int|
            0 <= k < rows.len() && #[trigger] hash_in_key(rows[k]) == hash && header_map(rows)[hash]
                == header_in(rows[k].value),
        forall|k: int|
            0 <= k < rows.len() ==> header_map(rows).contains_key(#[trigger] hash_in_key(rows[k])),
    decreases rows.len(),
{
    if rows.len() > 0 {
        let rest = rows.drop_last();
        let n = rows.len() - 1;
        lemma_header_map(rest, hash);
        assert(hash_in_key(rows[n]) == hash_in_key(rows.last()));
        if header_map(rows).contains_key(hash) && hash_in_key(rows.last()) != hash {
            let k = choose|k: int|
                0 <= k < rest.len() && #[trigger] hash_in_key(rest[k]) == hash && header_map(
                    rest,
                )[hash] == header_in(rest[k].value);
            assert(hash_in_key(rows[k]) == hash);
        }
        assert forall|k: int| 0 <= k < rows.len() implies header_map(rows).contains_key(
            #[trigger] hash_in_key(rows[k]),
        ) by {
            if k < n {
                assert(header_map(rest).contains_key(hash_in_key(rest[k])));
            }
        }
    }
}

/// The path to the last of the headers is the headers, where each lies under its hash.
proof fn lemma_path(map: Map<BlockHash, BlockHeader>, headers: Seq<BlockHeader>)
    requires
        map.dom().finite(),
        headers_chain(headers),
        told_apart(headers),
        forall|i: int|
            0 <= i < headers.len() ==> map.contains_key((#[trigger] headers[i]).spec_block_hash())
                && map[headers[i].spec_block_hash()] == headers[i],
    ensures
        path_to(map, headers_tip(headers)) == Some(headers),
    decreases headers.len(),
{
    if headers.len() > 0 {
        let rest = headers.drop_last();
        let tip = headers.last().spec_block_hash();
        assert forall|i: int| 0 <= i < rest.len() implies map.remove(tip).contains_key(
            (#[trigger] rest[i]).spec_block_hash(),
        ) && map.remove(tip)[rest[i].spec_block_hash()] == rest[i] by {
            assert(rest[i] == headers[i]);
            assert(headers[headers.len() - 1].spec_block_hash() != headers[i].spec_block_hash());
        }
        assert forall|i: int| 0 < i < rest.len() implies #[trigger] header_follows(rest, i) by {
            assert(header_follows(headers, i));
        }
        assert(told_apart(rest)) by {
            assert forall|i: int, j: int| 0 <= i < j < rest.len() implies (
            #[trigger] rest[i]).spec_block_hash() != (#[trigger] rest[j]).spec_block_hash() by {
                assert(headers[i].spec_block_hash() != headers[j].spec_block_hash());
            }
            assert forall|i: int| 0 <= i < rest.len() implies (#[trigger] rest[i]).spec_block_hash()
                != null_hash() by {
                assert(headers[i].spec_block_hash() != null_hash());
            }
        }
        lemma_path(map.remove(tip), rest);
        assert(headers[headers.len() - 1].spec_block_hash() != null_hash());
        assert(map[tip] == headers.last());
        if headers.len() > 1 {
            assert(header_follows(headers, headers.len() - 1));
        }
        assert(headers.last().prev_blockhash == headers_tip(rest));
        assert(rest.push(headers.last()) =~= headers);
    } else {
        assert(headers =~= Seq::empty());
    }
}

/// A chain of headers that a store holds is read back from it as it is.
pub proof fn law_chain_read_back(rows: Seq<RowView>, headers: Seq<BlockHeader>)
    requires
        ascending(rows),
        headers_chain(headers),
        told_apart(headers),
        holds_chain(contents(rows), headers),
    ensures
        indexed_headers(rows) == Some(headers),
{
    let held = contents(rows);
    let found = rows_of_blocks(rows);
    let under = |row: RowView| seq![BLOCK_CODE].is_prefix_of(row.key);
    let tip = headers_tip(headers);
    lemma_hash_in(tip);
    assert(indexed_tip(rows) == Some(tip)) by {
        let last = seq![LAST_BLOCK_CODE];
        assert(held.contains_key(last) <==> value_under(rows, last) is Some);
    }
    // each block row that is found holds a header under its hash
    assert forall|k: int| 0 <= k < found.len() implies held.contains_key((#[trigger] found[k]).key)
        && held[found[k].key] == found[k].value && holds_header(held, found[k].key) by {
        rows.lemma_filter_pred(under, k);
        rows.lemma_filter_contains_rev(under, found[k]);
        let i = choose|i: int| 0 <= i < rows.len() && rows[i] == found[k];
        lemma_value_at(rows, i);
        let key = found[k].key;
        assert(seq![BLOCK_CODE].is_prefix_of(key));
        assert(seq![BLOCK_CODE][0] == key[0]);
        assert(value_under(rows, key) == Some(found[k].value));
        assert(held.contains_key(key));
    }
    assert forall|k: int| 0 <= k < found.len() implies #[trigger] block_row_readable(found[k]) by {
        let key = found[k].key;
        assert(holds_header(held, key));
        let h = choose|header: BlockHeader| key == (#[trigger] header_row(header)).key && held[key]
            == header.bytes();
        law_header_encoding_injective(h, h);
    }
    let map = header_map(found);
    lemma_header_map_finite(found);
    assert forall|i: int| 0 <= i < headers.len() implies map.contains_key(
        (#[trigger] headers[i]).spec_block_hash(),
    ) && map[headers[i].spec_block_hash()] == headers[i] by {
        let hash = headers[i].spec_block_hash();
        let key = header_row(headers[i]).key;
        assert(held.contains_key(key) && held[key] == headers[i].bytes());
        let r = choose|r: int| 0 <= r < rows.len() && (#[trigger] rows[r]).key == key;
        assert(rows[r].key == key);
        assert(seq![BLOCK_CODE].is_prefix_of(key));
        rows.lemma_filter_contains(under, r);
        let m = choose|m: int| 0 <= m < found.len() && found[m] == rows[r];
        lemma_hash_in(hash);
        assert(key.subrange(1, 33) =~= hash@);
        assert(hash_in_key(found[m]) == hash);
        lemma_header_map(found, hash);
        let k = choose|k: int|
            0 <= k < found.len() && #[trigger] hash_in_key(found[k]) == hash && map[hash]
                == header_in(found[k].value);
        assert(holds_header(held, found[k].key));
        let h = choose|header: BlockHeader|
            found[k].key == (#[trigger] header_row(header)).key && held[found[k].key]
                == header.bytes();
        assert(found[k].key.subrange(1, 33) =~= h.spec_block_hash()@);
        lemma_hash_in(h.spec_block_hash());
        assert(found[k].key == key);
        lemma_header_in(headers[i]);
    }
    lemma_path(map, headers);
}

/// What lies under each key after the rows have been written in their order.
pub open spec fn written(held: Map<Seq<u8>, Seq<u8>>, rows: Seq<RowView>) -> Map<Seq<u8>, Seq<u8>>
    decreases rows.len(),
{
    if rows.len() == 0 {
        held
    } else {
        written(held, rows.drop_last()).insert(rows.last().key, rows.last().value)
    }
}

/// Rows that are written in two parts are all written.
pub proof fn law_written_in_parts(
    held: Map<Seq<u8>, Seq<u8>>,
    first: Seq<RowView>,
    second: Seq<RowView>,
)
    ensures
        written(held, first + second) == written(written(held, first), second),
    decreases second.len(),
{
    if second.len() > 0 {
        law_written_in_parts(held, first, second.drop_last());
        assert((first + second).drop_last() =~= first + second.drop_last());
    } else {
        assert(first + second =~= first);
    }
}

/// The headers of the blocks.
pub open spec fn headers_of(blocks: Seq<BlockView>) -> Seq<BlockHeader> {
    blocks.map_values(|block: BlockView| block.header)
}

/// Every account row begins with the code of account rows.
pub open spec fn accounts_wf(
    blocks: Seq<BlockView>,
    accounts: Seq<Seq<Option<RowView>>>,
) -> bool {
    forall|i: int, j: int|
        0 <= i < blocks.len() && 0 <= j < blocks[i].txdata.len() ==> account_row_wf(
            #[trigger] accounts[i][j],
        )
}

/// The key is one of a block, or the one under which the last block is named.
spec fn marks_block(key: Seq<u8>) -> bool {
    key.len() > 0 && (key[0] == BLOCK_CODE || key[0] == LAST_BLOCK_CODE)
}

proof fn lemma_transaction_rows_mark_none(
    txs: Seq<TransactionView>,
    height: u32,
    accounts: Seq<Option<RowView>>,
    i: int,
)
    requires
        0 <= i < transactions_rows(txs, height, accounts).len(),
        forall|j: int| 0 <= j < txs.len() ==> account_row_wf(#[trigger] accounts[j]),
    ensures
        !marks_block(transactions_rows(txs, height, accounts)[i].key),
    decreases txs.len(),
{
    let before = transactions_rows(txs.drop_last(), height, accounts);
    let tx = txs.last();
    let account = accounts[txs.len() - 1];
    let own = transaction_rows(tx, height, account);
    if i < before.len() {
        lemma_transaction_rows_mark_none(txs.drop_last(), height, accounts, i);
    } else {
        let k = i - before.len();
        let (ins, outs, acc) = (
            input_rows(tx, height),
            output_rows(tx, height),
            maybe_row(account),
        );
        assert(transactions_rows(txs, height, accounts)[i] == own[k]);
        if k < ins.len() {
            let input = tx.input.filter(|input: TxIn| spends(input))[k];
            assert(own[k] == input_row(tx.txid, input, height));
            assert(own[k].key[0] == TX_IN_CODE);
        } else if k < ins.len() + outs.len() {
            assert(own[k] == output_row(tx, k - ins.len(), height));
            assert(own[k].key[0] == TX_OUT_CODE);
        } else {
            assert(own[k] == acc[k - ins.len() - outs.len()]);
        }
    }
}

proof fn lemma_written_elsewhere(
    held: Map<Seq<u8>, Seq<u8>>,
    rows: Seq<RowView>,
    key: Seq<u8>,
)
    requires
        marks_block(key),
        forall|i: int| 0 <= i < rows.len() ==> !marks_block((#[trigger] rows[i]).key),
    ensures
        written(held, rows).contains_key(key) == held.contains_key(key),
        held.contains_key(key) ==> written(held, rows)[key] == held[key],
    decreases rows.len(),
{
    if rows.len() > 0 {
        lemma_written_elsewhere(held, rows.drop_last(), key);
        assert(!marks_block(rows[rows.len() - 1].key));
    }
}

/// What is true of a store after the rows of one more block have been written.
proof fn lemma_block_written(
    held: Map<Seq<u8>, Seq<u8>>,
    headers: Seq<BlockHeader>,
    block: BlockView,
    height: u32,
    accounts: Seq<Option<RowView>>,
)
    requires
        holds_only_headers(held),
        holds_headers(held, headers),
        told_apart(headers.push(block.header)),
        forall|j: int| 0 <= j < block.txdata.len() ==> account_row_wf(#[trigger] accounts[j]),
    ensures
        holds_chain(
            written(
                held,
                block_rows(block, height, accounts).push(
                    last_block_row(block.header.spec_block_hash()),
                ),
            ),
            headers.push(block.header),
        ),
{
    let txs = transactions_rows(block.txdata, height, accounts);
    let own = header_row(block.header);
    let last = last_block_row(block.header.spec_block_hash());
    let rows = block_rows(block, height, accounts).push(last);
    let all = headers.push(block.header);
    let middle = written(held, txs);
    let after = written(held, rows);
    assert(rows.drop_last() =~= txs.push(own));
    assert(txs.push(own).drop_last() =~= txs);
    assert(written(held, txs.push(own)) == middle.insert(own.key, own.value));
    assert(after == middle.insert(own.key, own.value).insert(last.key, last.value));
    assert forall|i: int| 0 <= i < txs.len() implies !marks_block((#[trigger] txs[i]).key) by {
        lemma_transaction_rows_mark_none(block.txdata, height, accounts, i);
    }
    assert(own.key[0] == BLOCK_CODE);
    assert(last.key[0] == LAST_BLOCK_CODE);
    assert forall|key: Seq<u8>| #[trigger]
        after.contains_key(key) && key.len() > 0 && key[0] == BLOCK_CODE implies holds_header(
        after,
        key,
    ) by {
        lemma_written_elsewhere(held, txs, key);
        if key == own.key {
            assert(key == header_row(block.header).key && after[key] == block.header.bytes());
        } else {
            assert(held.contains_key(key));
            assert(holds_header(held, key));
            let header = choose|header: BlockHeader|
                key == (#[trigger] header_row(header)).key && held[key] == header.bytes();
            assert(key == header_row(header).key && after[key] == header.bytes());
        }
    }
    assert forall|i: int| 0 <= i < all.len() implies after.contains_key(
        header_row(#[trigger] all[i]).key,
    ) && after[header_row(all[i]).key] == all[i].bytes() by {
        if i < headers.len() {
            let key = header_row(headers[i]).key;
            assert(key[0] == BLOCK_CODE);
            assert(held.contains_key(key) && held[key] == headers[i].bytes());
            lemma_written_elsewhere(held, txs, key);
            assert(all[i].spec_block_hash() != all[headers.len() as int].spec_block_hash());
            if key == own.key {
                assert(key.skip(1) =~= headers[i].spec_block_hash()@);
                assert(own.key.skip(1) =~= block.header.spec_block_hash()@);
                lemma_hash_eq(headers[i].spec_block_hash(), block.header.spec_block_hash());
            }
        }
    }
}

/// After a batch of blocks is written, the store holds their headers on top of those that it
/// held, and names the last of them.
pub proof fn law_batch_written(
    held: Map<Seq<u8>, Seq<u8>>,
    headers: Seq<BlockHeader>,
    new: Seq<HeaderEntry>,
    blocks: Seq<BlockView>,
    accounts: Seq<Seq<Option<RowView>>>,
)
    requires
        holds_only_headers(held),
        holds_headers(held, headers),
        blocks.len() > 0,
        batch_rows(new, blocks, accounts) is Some,
        accounts_wf(blocks, accounts),
        told_apart(headers + headers_of(blocks)),
    ensures
        holds_chain(
            written(held, batch_rows(new, blocks, accounts).unwrap()),
            headers + headers_of(blocks),
        ),
    decreases blocks.len(),
{
    let rest = blocks.drop_last();
    let block = blocks.last();
    let rows = batch_rows(new, rest, accounts).unwrap();
    let all = headers + headers_of(blocks);
    let before = headers + headers_of(rest);
    let hash = block.header.spec_block_hash();
    let height = entry_of(new, hash).unwrap().height as u32;
    let own = block_rows(block, height, accounts[blocks.len() - 1]).push(last_block_row(hash));
    assert(batch_rows(new, blocks, accounts).unwrap() == rows + own);
    law_written_in_parts(held, rows, own);
    assert(all =~= before.push(block.header));
    assert(told_apart(before)) by {
        assert forall|i: int, j: int| 0 <= i < j < before.len() implies (
        #[trigger] before[i]).spec_block_hash() != (#[trigger] before[j]).spec_block_hash() by {
            assert(all[i].spec_block_hash() != all[j].spec_block_hash());
        }
        assert forall|i: int| 0 <= i < before.len() implies (#[trigger] before[i]).spec_block_hash()
            != null_hash() by {
            assert(all[i].spec_block_hash() != null_hash());
        }
    }
    assert(accounts_wf(rest, accounts)) by {
        assert forall|i: int, j: int|
            0 <= i < rest.len() && 0 <= j < rest[i].txdata.len() implies account_row_wf(
            #[trigger] accounts[i][j],
        ) by {
            assert(rest[i] == blocks[i]);
        }
    }
    if rest.len() > 0 {
        law_batch_written(held, headers, new, rest, accounts);
    } else {
        assert(before =~= headers);
        assert(rows =~= Seq::empty());
    }
    assert forall|j: int| 0 <= j < block.txdata.len() implies account_row_wf(
        #[trigger] accounts[blocks.len() - 1][j],
    ) by {
        assert(blocks[blocks.len() - 1] == block);
    }
    lemma_block_written(written(held, rows), before, block, height, accounts[blocks.len() - 1]);
}

/// The account rows of other blocks do not matter to the rows of a batch.
proof fn lemma_batch_accounts(
    new: Seq<HeaderEntry>,
    blocks: Seq<BlockView>,
    accounts: Seq<Seq<Option<RowView>>>,
    more: Seq<Seq<Option<RowView>>>,
)
    requires
        accounts.len() == blocks.len(),
    ensures
        batch_rows(new, blocks, accounts + more) == batch_rows(new, blocks, accounts),
    decreases blocks.len(),
{
    if blocks.len() > 0 {
        let rest = accounts.drop_last();
        lemma_batch_accounts(new, blocks.drop_last(), rest, seq![accounts.last()] + more);
        assert(rest + (seq![accounts.last()] + more) =~= accounts + more);
        lemma_batch_accounts(new, blocks.drop_last(), rest, seq![accounts.last()]);
        assert(rest + seq![accounts.last()] =~= accounts);
    }
}

/// The rows of two batches are those of one batch with the blocks of both.
pub proof fn law_batches_join(
    new: Seq<HeaderEntry>,
    first: Seq<BlockView>,
    first_accounts: Seq<Seq<Option<RowView>>>,
    second: Seq<BlockView>,
    second_accounts: Seq<Seq<Option<RowView>>>,
)
    requires
        first_accounts.len() == first.len(),
        second_accounts.len() == second.len(),
    ensures
        batch_rows(new, first + second, first_accounts + second_accounts) == match (
            batch_rows(new, first, first_accounts),
            batch_rows(new, second, second_accounts),
        ) {
            (Some(a), Some(b)) => Some(a + b),
            _ => None,
        },
    decreases second.len(),
{
    let blocks = first + second;
    let accounts = first_accounts + second_accounts;
    if second.len() == 0 {
        assert(blocks =~= first);
        assert(accounts =~= first_accounts);
        if let Some(rows) = batch_rows(new, first, first_accounts) {
            assert(rows + Seq::<RowView>::empty() =~= rows);
        }
    } else {
        let (rest, rest_accounts) = (second.drop_last(), second_accounts.drop_last());
        let last = second_accounts.last();
        law_batches_join(new, first, first_accounts, rest, rest_accounts);
        assert(blocks.drop_last() =~= first + rest);
        assert(accounts =~= (first_accounts + rest_accounts) + seq![last]);
        lemma_batch_accounts(new, first + rest, first_accounts + rest_accounts, seq![last]);
        assert(second_accounts =~= rest_accounts + seq![last]);
        lemma_batch_accounts(new, rest, rest_accounts, seq![last]);
        assert(accounts[blocks.len() - 1] == last);
        assert(second_accounts[second.len() - 1] == last);
        let hash = second.last().header.spec_block_hash();
        if let (Some(a), Some(b), Some(entry)) = (
            batch_rows(new, first, first_accounts),
            batch_rows(new, rest, rest_accounts),
            entry_of(new, hash),
        ) {
            let own = block_rows(second.last(), entry.height as u32, last).push(
                last_block_row(hash),
            );
            assert((a + b) + own =~= a + (b + own));
        }
    }
}

/// The headers of the chain after `new` has been put on top of the block that it follows.
pub open spec fn joined(old: Seq<BlockHeader>, new: Seq<BlockHeader>) -> Seq<BlockHeader> {
    old.take(next_height(entries_from(old, 0), new[0].prev_blockhash).unwrap()) + new
}

/// The chain that is read back after an update is the chain that the update has left in
/// memory.
pub proof fn law_reload_after_update(
    held: Map<Seq<u8>, Seq<u8>>,
    old: Seq<BlockHeader>,
    new: Seq<BlockHeader>,
    blocks: Seq<BlockView>,
    accounts: Seq<Seq<Option<RowView>>>,
    rows: Seq<RowView>,
)
    requires
        headers_chain(old),
        old.len() <= usize::MAX,
        holds_only_headers(held),
        holds_headers(held, old),
        new.len() > 0,
        ordered(entries_from(old, 0), new) is Some,
        headers_of(blocks) == new,
        accounts_wf(blocks, accounts),
        batch_rows(ordered(entries_from(old, 0), new).unwrap(), blocks, accounts) is Some,
        told_apart(joined(old, new)),
        ascending(rows),
        contents(rows) == written(
            held,
            batch_rows(
                ordered(entries_from(old, 0), new).unwrap(),
                blocks,
                accounts,
            ).unwrap(),
        ),
    ensures
        indexed_headers(rows) == Some(joined(old, new)),
        entries_from(joined(old, new), 0) == applied(
            entries_from(old, 0),
            ordered(entries_from(old, 0), new).unwrap(),
            new.last().spec_block_hash(),
        ),
{
    let chain = entries_from(old, 0);
    let entries = ordered(chain, new).unwrap();
    let prev = new[0].prev_blockhash;
    let base = next_height(chain, prev).unwrap();
    let kept = old.take(base);
    let all = joined(old, new);
    lemma_place_of(chain, prev);
    assert(prev != null_hash() ==> 0 < base <= old.len() && old[base - 1].spec_block_hash()
        == prev);
    assert(all == kept + new);
    assert(headers_chain(all)) by {
        assert forall|i: int| 0 < i < all.len() implies #[trigger] header_follows(all, i) by {
            if i < base {
                assert(header_follows(old, i));
            } else if i > base {
                assert(header_follows(new, i - base));
            }
        }
    }
    assert(holds_headers(held, kept)) by {
        assert forall|i: int| 0 <= i < kept.len() implies held.contains_key(
            header_row(#[trigger] kept[i]).key,
        ) && held[header_row(kept[i]).key] == kept[i].bytes() by {
            assert(kept[i] == old[i]);
        }
    }
    law_batch_written(held, kept, entries, blocks, accounts);
    law_chain_read_back(rows, all);
    assert(entries_from(all, 0) =~= chain.take(base) + entries);
    assert(entries[0].height == base);
}

/// A row is among those that a lookup by the beginning of its key finds.
proof fn lemma_row_found(rows: Seq<RowView>, row: RowView, prefix: Seq<u8>)
    requires
        rows.contains(row),
        prefix.is_prefix_of(row.key),
    ensures
        rows_under(rows, prefix).contains(row),
{
    let i = choose|i: int| 0 <= i < rows.len() && rows[i] == row;
    rows.lemma_filter_contains(|row: RowView| prefix.is_prefix_of(row.key), i);
}

/// An output of a transaction whose rows are in a store, among any others, is found there by
/// its script.
pub proof fn law_stored_output_found(
    rows: Seq<RowView>,
    tx: TransactionView,
    i: int,
    height: u32,
)
    requires
        0 <= i < tx.output.len(),
        rows.contains(output_row(tx, i, height)),
    ensures
        txouts_of(rows, sha256(tx.output[i].script_pubkey)).contains(
            OutFields::of_output(tx.txid, tx.output[i], i as u32, height),
        ),
{
    let fields = OutFields::of_output(tx.txid, tx.output[i], i as u32, height);
    let scripthash = sha256(tx.output[i].script_pubkey);
    lemma_out_fields_sized(tx.txid, tx.output[i], i as u32, height);
    law_txout_lookup(fields, scripthash);
    law_txout_row_read_back(tx.txid, tx.output[i], i as u32, height);
    lemma_row_found(rows, output_row(tx, i, height), txout_prefix(scripthash));
    let found = rows_under(rows, txout_prefix(scripthash));
    let k = choose|k: int| 0 <= k < found.len() && found[k] == output_row(tx, i, height);
    assert(txouts_of(rows, scripthash)[k] == fields);
}

/// An input of a transaction whose rows are in a store is found there by the output that it
/// spends, if no other input in the store spends that output.
pub proof fn law_stored_input_found(rows: Seq<RowView>, txid: Txid, input: TxIn, height: u32)
    requires
        rows.contains(input_row(txid, input, height)),
        forall|i: int|
            0 <= i < rows.len() && txin_prefix(
                input.previous_output.txid,
                input.previous_output.vout,
            ).is_prefix_of((#[trigger] rows[i]).key) ==> rows[i] == input_row(txid, input, height),
    ensures
        txin_of(rows, input.previous_output.txid, input.previous_output.vout) == Some(
            InFields::of_input(txid, input, height),
        ),
{
    let row = input_row(txid, input, height);
    let fields = InFields::of_input(txid, input, height);
    let prefix = txin_prefix(input.previous_output.txid, input.previous_output.vout);
    lemma_in_fields_sized(txid, input, height);
    law_txin_lookup(fields, input.previous_output.txid, input.previous_output.vout);
    law_txin_row_read_back(txid, input, height);
    lemma_row_found(rows, row, prefix);
    let under = |row: RowView| prefix.is_prefix_of(row.key);
    let found = rows_under(rows, prefix);
    assert(found.len() > 0);
    rows.lemma_filter_pred(under, 0);
    rows.lemma_filter_contains_rev(under, found[0]);
    let i = choose|i: int| 0 <= i < rows.len() && rows[i] == found[0];
    assert(rows[i] == row);
}

/// The registration of an account whose row is in a store, among any others, is found there by
/// the name and the height of the account.
pub proof fn law_stored_account_found(
    rows: Seq<RowView>,
    txid: Txid,
    name: Seq<u8>,
    height: u32,
    value: Seq<u8>,
)
    requires
        rows.contains(
            (RowView { key: AccountFields::of_account(txid, name, height).bytes(), value }),
        ),
    ensures
        accounts_of(rows, name, height).contains(txid@),
{
    let fields = AccountFields::of_account(txid, name, height);
    let row = RowView { key: fields.bytes(), value };
    law_account_lookup(fields, name, height);
    law_account_row_read_back(txid, name, height);
    lemma_row_found(rows, row, account_prefix(name, height));
    let found = rows_under(rows, account_prefix(name, height));
    let k = choose|k: int| 0 <= k < found.len() && found[k] == row;
    assert(accounts_of(rows, name, height)[k] == txid@);
}

/// What lies under a hash that the dropped rows do not hold is the same without them.
proof fn lemma_header_map_without(rows: Seq<RowView>, kept: spec_fn(RowView) -> bool, hash: BlockHash)
    requires
        forall|i: int|
            0 <= i < rows.len() && !kept(#[trigger] rows[i]) ==> hash_in_key(rows[i]) != hash,
    ensures
        header_map(rows.filter(kept)).contains_key(hash) == header_map(rows).contains_key(hash),
        header_map(rows).contains_key(hash) ==> header_map(rows.filter(kept))[hash] == header_map(
            rows,
        )[hash],
    decreases rows.len(),
{
    reveal(Seq::filter);
    if rows.len() > 0 {
        let rest = rows.drop_last();
        assert forall|i: int| 0 <= i < rest.len() && !kept(#[trigger] rest[i]) implies hash_in_key(
            rest[i],
        ) != hash by {
            assert(rest[i] == rows[i]);
        }
        lemma_header_map_without(rest, kept, hash);
        assert(rows[rows.len() - 1] == rows.last());
        if kept(rows.last()) {
            let chosen = rest.filter(kept);
            assert(chosen.push(rows.last()).drop_last() =~= chosen);
        }
    }
}

/// A path is the same in a map that holds the same under each hash on it.
proof fn lemma_same_path(
    a: Map<BlockHash, BlockHeader>,
    b: Map<BlockHash, BlockHeader>,
    hash: BlockHash,
    headers: Seq<BlockHeader>,
)
    requires
        a.dom().finite(),
        b.dom().finite(),
        path_to(a, hash) == Some(headers),
        headers_tip(headers) == hash,
        headers_linked(headers),
        forall|i: int|
            0 <= i < headers.len() ==> {
                let h = (#[trigger] headers[i]).spec_block_hash();
                a.contains_key(h) ==> b.contains_key(h) && b[h] == a[h]
            },
    ensures
        path_to(b, hash) == Some(headers),
    decreases headers.len(),
{
    if hash != null_hash() {
        let rest = headers.drop_last();
        let last = a[hash];
        let below = path_to(a.remove(hash), last.prev_blockhash).unwrap();
        assert(headers == below.push(last));
        assert(rest =~= below);
        assert(headers[headers.len() - 1] == last);
        assert(b.contains_key(hash) && b[hash] == last);
        assert forall|i: int| 0 < i < rest.len() implies #[trigger] header_follows(rest, i) by {
            assert(header_follows(headers, i));
        }
        if rest.len() > 0 {
            assert(header_follows(headers, headers.len() - 1));
        } else {
            lemma_empty_path(a.remove(hash), last.prev_blockhash);
        }
        assert forall|i: int| 0 <= i < rest.len() implies {
            let h = (#[trigger] rest[i]).spec_block_hash();
            a.remove(hash).contains_key(h) ==> b.remove(hash).contains_key(h) && b.remove(hash)[h]
                == a.remove(hash)[h]
        } by {
            assert(headers[i] == rest[i]);
        }
        lemma_same_path(a.remove(hash), b.remove(hash), last.prev_blockhash, rest);
    }
}

/// Only the path to no block is without headers.
proof fn lemma_empty_path(map: Map<BlockHash, BlockHeader>, hash: BlockHash)
    requires
        map.dom().finite(),
        path_to(map, hash) == Some(Seq::<BlockHeader>::empty()),
    ensures
        hash == null_hash(),
{
    if hash != null_hash() {
        let below = path_to(map.remove(hash), map[hash].prev_blockhash).unwrap();
        assert(below.push(map[hash]).len() > 0);
    }
}

/// The row of a block that is not on the chain of these headers.
pub open spec fn is_orphan(row: RowView, headers: Seq<BlockHeader>) -> bool {
    &&& row.key.len() > 0 && row.key[0] == BLOCK_CODE
    &&& block_row_readable(row)
    &&& forall|i: int|
        0 <= i < headers.len() ==> hash_in_key(row) != (#[trigger] headers[i]).spec_block_hash()
}

/// Rows of blocks that are not on the indexed chain change nothing of what is read: a store has
/// the same headers as it has without them.
pub proof fn law_orphans_ignored(
    rows: Seq<RowView>,
    kept: spec_fn(RowView) -> bool,
    headers: Seq<BlockHeader>,
)
    requires
        ascending(rows),
        indexed_headers(rows.filter(kept)) == Some(headers),
        forall|i: int|
            0 <= i < rows.len() && !kept(#[trigger] rows[i]) ==> is_orphan(rows[i], headers),
    ensures
        indexed_headers(rows) == Some(headers),
{
    let fewer = rows.filter(kept);
    let block = |row: RowView| seq![BLOCK_CODE].is_prefix_of(row.key);
    let (found, known) = (rows_of_blocks(rows), rows_of_blocks(fewer));
    lemma_filter_twice(rows, kept, block);
    lemma_filter_twice(rows, block, kept);
    lemma_filter_same(
        rows,
        |row: RowView| kept(row) && block(row),
        |row: RowView| block(row) && kept(row),
    );
    assert(known == found.filter(kept));
    // the last block is named in both
    let last = seq![LAST_BLOCK_CODE];
    assert(value_under(fewer, last) == value_under(rows, last)) by {
        if exists|i: int| 0 <= i < fewer.len() && (#[trigger] fewer[i]).key == last {
            let i = choose|i: int| 0 <= i < fewer.len() && (#[trigger] fewer[i]).key == last;
            rows.lemma_filter_contains_rev(kept, fewer[i]);
            let k = choose|k: int| 0 <= k < rows.len() && rows[k] == fewer[i];
            lemma_value_at(rows, k);
        }
        if exists|k: int| 0 <= k < rows.len() && (#[trigger] rows[k]).key == last {
            let k = choose|k: int| 0 <= k < rows.len() && (#[trigger] rows[k]).key == last;
            assert(rows[k].key[0] == LAST_BLOCK_CODE);
            assert(kept(rows[k]));
            rows.lemma_filter_contains(kept, k);
            let i = choose|i: int| 0 <= i < fewer.len() && fewer[i] == rows[k];
            assert(fewer[i].key == last);
        }
    }
    // every block row can be read
    assert forall|i: int| 0 <= i < found.len() implies #[trigger] block_row_readable(found[i]) by {
        if kept(found[i]) {
            found.lemma_filter_contains(kept, i);
            let k = choose|k: int| 0 <= k < known.len() && known[k] == found[i];
            assert(block_row_readable(known[k]));
        } else {
            rows.lemma_filter_contains_rev(block, found[i]);
            let k = choose|k: int| 0 <= k < rows.len() && rows[k] == found[i];
            assert(is_orphan(rows[k], headers));
        }
    }
    // and under each hash of the chain lies the same
    assert forall|i: int| 0 <= i < headers.len() implies {
        let h = (#[trigger] headers[i]).spec_block_hash();
        header_map(known).contains_key(h) ==> header_map(found).contains_key(h) && header_map(
            found,
        )[h] == header_map(known)[h]
    } by {
        let h = headers[i].spec_block_hash();
        assert forall|k: int| 0 <= k < found.len() && !kept(#[trigger] found[k]) implies hash_in_key(
            found[k],
        ) != h by {
            rows.lemma_filter_contains_rev(block, found[k]);
            let r = choose|r: int| 0 <= r < rows.len() && rows[r] == found[k];
            assert(is_orphan(rows[r], headers));
        }
        lemma_header_map_without(found, kept, h);
    }
    lemma_header_map_finite(known);
    lemma_header_map_finite(found);
    lemma_same_path(
        header_map(known),
        header_map(found),
        indexed_tip(rows).unwrap(),
        headers,
    );
}

/// The row reads as output `o` of the transaction, confirmed at the height.
pub open spec fn holds_output(row: RowView, tx: TransactionView, o: int, height: int) -> bool {
    &&& row.value.len() == 0
    &&& OutFields::read(row.key) is Some
    &&& OutFields::read(row.key).unwrap().code == 0x4f
    &&& OutFields::read(row.key).unwrap().scripthash == sha256(tx.output[o].script_pubkey)@
    &&& OutFields::read(row.key).unwrap().txid == tx.txid@
    &&& u32_of(OutFields::read(row.key).unwrap().confirmed_height) == height
    &&& u32_of(OutFields::read(row.key).unwrap().output_index) == o
    &&& u64_of(OutFields::read(row.key).unwrap().output_value) == tx.output[o].value
}

/// The row reads as an input of the transaction that spends what input `i` of it spends,
/// confirmed at the height.
pub open spec fn holds_input(row: RowView, tx: TransactionView, i: int, height: int) -> bool {
    let prev = tx.input[i].previous_output;
    &&& row.value.len() == 0
    &&& InFields::read(row.key) is Some
    &&& InFields::read(row.key).unwrap().code == 0x49
    &&& InFields::read(row.key).unwrap().prev_hash == prev.txid@
    &&& InFields::read(row.key).unwrap().prev_index == varint(prev.vout as nat)
    &&& u32_of(InFields::read(row.key).unwrap().prev_index) == prev.vout
    &&& InFields::read(row.key).unwrap().txid == tx.txid@
    &&& u32_of(InFields::read(row.key).unwrap().confirmed_height) == height
}

/// The hash has a byte that is not zero: it is neither the transaction that the input of a
/// coinbase names nor the block that the first block names.
pub open spec fn is_nonzero(hash: FullHash) -> bool {
    exists|b: int| 0 <= b < 32 && #[trigger] hash@[b] != 0
}

proof fn lemma_nonzero(hash: FullHash)
    ensures
        is_nonzero(hash) <==> hash != null_hash(),
{
    law_null_hash(hash);
}

proof fn lemma_output_row_holds(tx: TransactionView, o: int, height: u32)
    requires
        0 <= o < tx.output.len(),
        o <= u32::MAX,
    ensures
        holds_output(output_row(tx, o, height), tx, o, height as int),
{
    law_txout_row_read_back(tx.txid, tx.output[o], o as u32, height);
    law_txout_numbers_read_back(tx.txid, tx.output[o], o as u32, height);
}

proof fn lemma_input_row_holds(tx: TransactionView, i: int, height: u32)
    requires
        0 <= i < tx.input.len(),
    ensures
        holds_input(input_row(tx.txid, tx.input[i], height), tx, i, height as int),
{
    law_txin_row_read_back(tx.txid, tx.input[i], height);
    law_txin_numbers_read_back(tx.txid, tx.input[i], height);
}

/// Each output of a transaction has a row among its rows, at the height that is given.
pub proof fn law_transaction_output_row(
    tx: TransactionView,
    height: u32,
    account: Option<RowView>,
    o: int,
)
    requires
        0 <= o < tx.output.len(),
        o <= u32::MAX,
    ensures
        exists|k: int|
            0 <= k < transaction_rows(tx, height, account).len() && holds_output(
                #[trigger] transaction_rows(tx, height, account)[k],
                tx,
                o,
                height as int,
            ),
{
    let rows = transaction_rows(tx, height, account);
    let k = input_rows(tx, height).len() + o;
    lemma_output_row_holds(tx, o, height);
    assert(rows[k] == output_row(tx, o, height));
}

/// Each input of a transaction that spends an output has a row among its rows, at the height
/// that is given; the input of a coinbase, which names no transaction, does not.
pub proof fn law_transaction_input_row(
    tx: TransactionView,
    height: u32,
    account: Option<RowView>,
    i: int,
)
    requires
        0 <= i < tx.input.len(),
        is_nonzero(tx.input[i].previous_output.txid),
    ensures
        exists|k: int|
            0 <= k < transaction_rows(tx, height, account).len() && holds_input(
                #[trigger] transaction_rows(tx, height, account)[k],
                tx,
                i,
                height as int,
            ),
{
    let rows = transaction_rows(tx, height, account);
    let pred = |input: TxIn| spends(input);
    let chosen = tx.input.filter(pred);
    lemma_nonzero(tx.input[i].previous_output.txid);
    tx.input.lemma_filter_contains(pred, i);
    let k = choose|k: int| 0 <= k < chosen.len() && chosen[k] == tx.input[i];
    lemma_input_row_holds(tx, i, height);
    assert(rows[k] == input_row(tx.txid, tx.input[i], height));
}

/// Where a row of a transaction comes from: one of its inputs that spend an output, one of its
/// outputs, or the account that it registers.
pub open spec fn comes_from(
    row: RowView,
    tx: TransactionView,
    height: int,
    account: Option<RowView>,
) -> bool {
    ||| exists|i: int|
        0 <= i < tx.input.len() && is_nonzero(
            tx.input[i].previous_output.txid,
        ) && #[trigger] holds_input(row, tx, i, height)
    ||| exists|o: int| 0 <= o < tx.output.len() && #[trigger] holds_output(row, tx, o, height)
    ||| account == Some(row)
}

/// Each row of a transaction comes from one of its inputs that spend an output, from one of its
/// outputs, or from the account that it registers.
pub proof fn law_transaction_rows_come_from(
    tx: TransactionView,
    height: u32,
    account: Option<RowView>,
    k: int,
)
    requires
        tx.output.len() <= u32::MAX,
        0 <= k < transaction_rows(tx, height, account).len(),
    ensures
        comes_from(transaction_rows(tx, height, account)[k], tx, height as int, account),
{
    let row = transaction_rows(tx, height, account)[k];
    let (ins, outs) = (input_rows(tx, height), output_rows(tx, height));
    if k < ins.len() {
        let pred = |input: TxIn| spends(input);
        let chosen = tx.input.filter(pred);
        tx.input.lemma_filter_pred(pred, k);
        tx.input.lemma_filter_contains_rev(pred, chosen[k]);
        let i = choose|i: int| 0 <= i < tx.input.len() && tx.input[i] == chosen[k];
        lemma_nonzero(tx.input[i].previous_output.txid);
        lemma_input_row_holds(tx, i, height);
        assert(holds_input(row, tx, i, height as int));
    } else if k < ins.len() + outs.len() {
        let o = k - ins.len();
        lemma_output_row_holds(tx, o, height);
        assert(holds_output(row, tx, o, height as int));
    }
}

/// The rows of a transaction of a block are among those of the block.
proof fn lemma_transaction_in_block(
    txs: Seq<TransactionView>,
    height: u32,
    accounts: Seq<Option<RowView>>,
    t: int,
    row: RowView,
)
    requires
        0 <= t < txs.len(),
        transaction_rows(txs[t], height, accounts[t]).contains(row),
    ensures
        transactions_rows(txs, height, accounts).contains(row),
    decreases txs.len(),
{
    let rest = txs.drop_last();
    let before = transactions_rows(rest, height, accounts);
    let own = transaction_rows(txs.last(), height, accounts[txs.len() - 1]);
    let all = transactions_rows(txs, height, accounts);
    if t < rest.len() {
        lemma_transaction_in_block(rest, height, accounts, t, row);
        let k = choose|k: int| 0 <= k < before.len() && before[k] == row;
        assert(all[k] == row);
    } else {
        let k = choose|k: int| 0 <= k < own.len() && own[k] == row;
        assert(all[before.len() + k] == row);
    }
}

/// A row of the transactions of a block is one of one of them.
proof fn lemma_block_row_has_transaction(
    txs: Seq<TransactionView>,
    height: u32,
    accounts: Seq<Option<RowView>>,
    k: int,
) -> (t: int)
    requires
        0 <= k < transactions_rows(txs, height, accounts).len(),
    ensures
        0 <= t < txs.len(),
        transaction_rows(txs[t], height, accounts[t]).contains(
            transactions_rows(txs, height, accounts)[k],
        ),
    decreases txs.len(),
{
    let rest = txs.drop_last();
    let before = transactions_rows(rest, height, accounts);
    let own = transaction_rows(txs.last(), height, accounts[txs.len() - 1]);
    if k < before.len() {
        lemma_block_row_has_transaction(rest, height, accounts, k)
    } else {
        assert(own[k - before.len()] == transactions_rows(txs, height, accounts)[k]);
        txs.len() - 1
    }
}

/// The last entry with this hash is the one that is found.
proof fn lemma_entry_at(entries: Seq<HeaderEntry>, e: int)
    requires
        0 <= e < entries.len(),
        forall|j: int| e < j < entries.len() ==> (#[trigger] entries[j]).hash != entries[e].hash,
    ensures
        entry_of(entries, entries[e].hash) == Some(entries[e]),
{
    lemma_place_of(entries, entries[e].hash);
}

/// The rows of a block of a batch are among those of the batch, at the height of the entry with
/// the hash of the block.
proof fn lemma_block_in_batch(
    new: Seq<HeaderEntry>,
    blocks: Seq<BlockView>,
    accounts: Seq<Seq<Option<RowView>>>,
    b: int,
    e: int,
    row: RowView,
)
    requires
        batch_rows(new, blocks, accounts) is Some,
        0 <= b < blocks.len(),
        0 <= e < new.len(),
        new[e].hash == blocks[b].header.spec_block_hash(),
        forall|j: int| e < j < new.len() ==> (#[trigger] new[j]).hash != new[e].hash,
        block_rows(blocks[b], new[e].height as u32, accounts[b]).contains(row),
    ensures
        batch_rows(new, blocks, accounts).unwrap().contains(row),
    decreases blocks.len(),
{
    let rest = blocks.drop_last();
    let before = batch_rows(new, rest, accounts).unwrap();
    let all = batch_rows(new, blocks, accounts).unwrap();
    if b < rest.len() {
        lemma_block_in_batch(new, rest, accounts, b, e, row);
        let k = choose|k: int| 0 <= k < before.len() && before[k] == row;
        assert(all[k] == row);
    } else {
        lemma_entry_at(new, e);
        let own = block_rows(blocks[b], new[e].height as u32, accounts[b]);
        let k = choose|k: int| 0 <= k < own.len() && own[k] == row;
        assert(all[before.len() + k] == row);
    }
}

/// A batch has rows exactly if each of its blocks is a new one.
pub proof fn law_batch_of_new_blocks(
    new: Seq<HeaderEntry>,
    blocks: Seq<BlockView>,
    accounts: Seq<Seq<Option<RowView>>>,
)
    ensures
        batch_rows(new, blocks, accounts) is Some <==> forall|b: int|
            0 <= b < blocks.len() ==> exists|e: int|
                0 <= e < new.len() && (#[trigger] new[e]).hash == sha256d(
                    (#[trigger] blocks[b]).header.bytes(),
                ),
    decreases blocks.len(),
{
    if blocks.len() > 0 {
        let rest = blocks.drop_last();
        let hash = blocks.last().header.spec_block_hash();
        law_batch_of_new_blocks(new, rest, accounts);
        lemma_place_of(new, hash);
        assert forall|b: int| 0 <= b < rest.len() implies rest[b] == #[trigger] blocks[b] by {}
        assert(blocks[blocks.len() - 1] == blocks.last());
        if forall|b: int|
            0 <= b < blocks.len() ==> exists|e: int|
                0 <= e < new.len() && (#[trigger] new[e]).hash == sha256d(
                    (#[trigger] blocks[b]).header.bytes(),
                ) {
            assert forall|b: int| 0 <= b < rest.len() implies exists|e: int|
                0 <= e < new.len() && (#[trigger] new[e]).hash == sha256d(
                    (#[trigger] rest[b]).header.bytes(),
                ) by {
                assert(rest[b] == blocks[b]);
            }
        } else if batch_rows(new, rest, accounts) is Some && entry_of(new, hash) is Some {
            let e = place_of(new, hash).unwrap();
            assert forall|b: int| 0 <= b < blocks.len() implies exists|e: int|
                0 <= e < new.len() && (#[trigger] new[e]).hash == sha256d(
                    (#[trigger] blocks[b]).header.bytes(),
                ) by {
                if b < rest.len() {
                    assert(rest[b] == blocks[b]);
                } else {
                    assert(new[e].hash == sha256d(blocks[b].header.bytes()));
                }
            }
        }
    }
}

/// Each output of a block of a batch has a row in the batch, at the height of the new header
/// with the hash of the block.
pub proof fn law_batch_output_row(
    new: Seq<HeaderEntry>,
    blocks: Seq<BlockView>,
    accounts: Seq<Seq<Option<RowView>>>,
    b: int,
    t: int,
    o: int,
    e: int,
)
    requires
        batch_rows(new, blocks, accounts) is Some,
        0 <= b < blocks.len(),
        0 <= t < blocks[b].txdata.len(),
        0 <= o < blocks[b].txdata[t].output.len(),
        o <= u32::MAX,
        0 <= e < new.len(),
        new[e].hash == sha256d(blocks[b].header.bytes()),
        forall|j: int| e < j < new.len() ==> (#[trigger] new[j]).hash != new[e].hash,
        new[e].height <= u32::MAX,
    ensures
        exists|k: int|
            0 <= k < batch_rows(new, blocks, accounts).unwrap().len() && holds_output(
                #[trigger] batch_rows(new, blocks, accounts).unwrap()[k],
                blocks[b].txdata[t],
                o,
                new[e].height as int,
            ),
{
    let height = new[e].height as u32;
    let tx = blocks[b].txdata[t];
    law_transaction_output_row(tx, height, accounts[b][t], o);
    let own = transaction_rows(tx, height, accounts[b][t]);
    let m = choose|m: int|
        0 <= m < own.len() && holds_output(#[trigger] own[m], tx, o, height as int);
    let row = own[m];
    assert(own.contains(row));
    lemma_transaction_in_block(blocks[b].txdata, height, accounts[b], t, row);
    lemma_block_holds(blocks[b], height, accounts[b], row);
    lemma_block_in_batch(new, blocks, accounts, b, e, row);
    let all = batch_rows(new, blocks, accounts).unwrap();
    let k = choose|k: int| 0 <= k < all.len() && all[k] == row;
    assert(holds_output(all[k], tx, o, new[e].height as int));
}

proof fn lemma_block_holds(
    block: BlockView,
    height: u32,
    accounts: Seq<Option<RowView>>,
    row: RowView,
)
    requires
        transactions_rows(block.txdata, height, accounts).contains(row),
    ensures
        block_rows(block, height, accounts).contains(row),
{
    let txs = transactions_rows(block.txdata, height, accounts);
    let k = choose|k: int| 0 <= k < txs.len() && txs[k] == row;
    assert(block_rows(block, height, accounts)[k] == row);
}

/// Each input of a block of a batch that spends an output has a row in the batch, at the height
/// of the new header with the hash of the block.
pub proof fn law_batch_input_row(
    new: Seq<HeaderEntry>,
    blocks: Seq<BlockView>,
    accounts: Seq<Seq<Option<RowView>>>,
    b: int,
    t: int,
    i: int,
    e: int,
)
    requires
        batch_rows(new, blocks, accounts) is Some,
        0 <= b < blocks.len(),
        0 <= t < blocks[b].txdata.len(),
        0 <= i < blocks[b].txdata[t].input.len(),
        is_nonzero(blocks[b].txdata[t].input[i].previous_output.txid),
        0 <= e < new.len(),
        new[e].hash == sha256d(blocks[b].header.bytes()),
        forall|j: int| e < j < new.len() ==> (#[trigger] new[j]).hash != new[e].hash,
        new[e].height <= u32::MAX,
    ensures
        exists|k: int|
            0 <= k < batch_rows(new, blocks, accounts).unwrap().len() && holds_input(
                #[trigger] batch_rows(new, blocks, accounts).unwrap()[k],
                blocks[b].txdata[t],
                i,
                new[e].height as int,
            ),
{
    let height = new[e].height as u32;
    let tx = blocks[b].txdata[t];
    law_transaction_input_row(tx, height, accounts[b][t], i);
    let own = transaction_rows(tx, height, accounts[b][t]);
    let m = choose|m: int|
        0 <= m < own.len() && holds_input(#[trigger] own[m], tx, i, height as int);
    let row = own[m];
    assert(own.contains(row));
    lemma_transaction_in_block(blocks[b].txdata, height, accounts[b], t, row);
    lemma_block_holds(blocks[b], height, accounts[b], row);
    lemma_block_in_batch(new, blocks, accounts, b, e, row);
    let all = batch_rows(new, blocks, accounts).unwrap();
    let k = choose|k: int| 0 <= k < all.len() && all[k] == row;
    assert(holds_input(all[k], tx, i, new[e].height as int));
}

/// The account that a transaction of a block registers, and the header of the block under its
/// hash, are in the rows of the batch, and the last row names the last block.
pub proof fn law_batch_block_rows(
    new: Seq<HeaderEntry>,
    blocks: Seq<BlockView>,
    accounts: Seq<Seq<Option<RowView>>>,
    b: int,
    t: int,
)
    requires
        batch_rows(new, blocks, accounts) is Some,
        0 <= b < blocks.len(),
    ensures
        batch_rows(new, blocks, accounts).unwrap().contains(
            (RowView {
                key: seq![0x42u8] + sha256d(blocks[b].header.bytes())@,
                value: blocks[b].header.bytes(),
            }),
        ),
        batch_rows(new, blocks, accounts).unwrap().last() == (RowView {
            key: seq![0x4cu8],
            value: sha256d(blocks[blocks.len() - 1].header.bytes())@,
        }),
        0 <= t < blocks[b].txdata.len() && accounts[b][t] is Some ==> batch_rows(
            new,
            blocks,
            accounts,
        ).unwrap().contains(accounts[b][t].unwrap()),
{
    let hash = blocks[b].header.spec_block_hash();
    let all = batch_rows(new, blocks, accounts).unwrap();
    law_batch_of_new_blocks(new, blocks, accounts);
    lemma_place_of(new, hash);
    assert(blocks[b] == blocks[b]);
    let e = place_of(new, hash).unwrap();
    let height = new[e].height as u32;
    let own = block_rows(blocks[b], height, accounts[b]);
    let header = header_row(blocks[b].header);
    assert(own[own.len() - 1] == header);
    assert(own.contains(header));
    lemma_block_in_batch(new, blocks, accounts, b, e, header);
    if 0 <= t < blocks[b].txdata.len() && accounts[b][t] is Some {
        let tx = blocks[b].txdata[t];
        let row = accounts[b][t].unwrap();
        let rows = transaction_rows(tx, height, accounts[b][t]);
        assert(rows[rows.len() - 1] == row);
        assert(rows.contains(row));
        lemma_transaction_in_block(blocks[b].txdata, height, accounts[b], t, row);
        lemma_block_holds(blocks[b], height, accounts[b], row);
        lemma_block_in_batch(new, blocks, accounts, b, e, row);
    }
}

/// Where a row of a batch comes from: a transaction of one of the blocks, at the height of the
/// new header with the hash of the block, or the block itself, whose header the row holds or
/// which it names as the last one.
pub open spec fn comes_from_block(
    row: RowView,
    new: Seq<HeaderEntry>,
    block: BlockView,
    accounts: Seq<Option<RowView>>,
) -> bool {
    let hash = sha256d(block.header.bytes());
    ||| exists|e: int, t: int|
        0 <= e < new.len() && 0 <= t < block.txdata.len() && new[e].hash == hash
            && #[trigger] comes_from(row, block.txdata[t], new[e].height as int, accounts[t])
    ||| row == (RowView { key: seq![0x42u8] + hash@, value: block.header.bytes() })
    ||| row == (RowView { key: seq![0x4cu8], value: hash@ })
}

/// Each row of a batch comes from one of its blocks.
pub proof fn law_batch_rows_come_from(
    new: Seq<HeaderEntry>,
    blocks: Seq<BlockView>,
    accounts: Seq<Seq<Option<RowView>>>,
    k: int,
)
    requires
        batch_rows(new, blocks, accounts) is Some,
        0 <= k < batch_rows(new, blocks, accounts).unwrap().len(),
        forall|e: int| 0 <= e < new.len() ==> (#[trigger] new[e]).height <= u32::MAX,
        forall|b: int, t: int|
            0 <= b < blocks.len() && 0 <= t < blocks[b].txdata.len() ==> (
            #[trigger] blocks[b].txdata[t]).output.len() <= u32::MAX,
    ensures
        exists|b: int|
            0 <= b < blocks.len() && comes_from_block(
                batch_rows(new, blocks, accounts).unwrap()[k],
                new,
                #[trigger] blocks[b],
                accounts[b],
            ),
    decreases blocks.len(),
{
    let rest = blocks.drop_last();
    let before = batch_rows(new, rest, accounts).unwrap();
    let all = batch_rows(new, blocks, accounts).unwrap();
    let row = all[k];
    if k < before.len() {
        assert forall|b: int, t: int|
            0 <= b < rest.len() && 0 <= t < rest[b].txdata.len() implies (
        #[trigger] rest[b].txdata[t]).output.len() <= u32::MAX by {
            assert(rest[b] == blocks[b]);
            assert(blocks[b].txdata[t].output.len() <= u32::MAX);
        }
        law_batch_rows_come_from(new, rest, accounts, k);
        let b = choose|b: int|
            0 <= b < rest.len() && comes_from_block(row, new, #[trigger] rest[b], accounts[b]);
        assert(comes_from_block(row, new, blocks[b], accounts[b]));
    } else {
        let b = blocks.len() - 1;
        let block = blocks[b];
        let hash = block.header.spec_block_hash();
        lemma_place_of(new, hash);
        let e = place_of(new, hash).unwrap();
        let height = new[e].height as u32;
        assert(new[e].height <= u32::MAX);
        let txs = transactions_rows(block.txdata, height, accounts[b]);
        let m = k - before.len();
        if m < txs.len() {
            let t = lemma_block_row_has_transaction(block.txdata, height, accounts[b], m);
            let own = transaction_rows(block.txdata[t], height, accounts[b][t]);
            let n = choose|n: int| 0 <= n < own.len() && own[n] == row;
            assert(blocks[b].txdata[t].output.len() <= u32::MAX);
            law_transaction_rows_come_from(block.txdata[t], height, accounts[b][t], n);
            assert(comes_from(row, block.txdata[t], new[e].height as int, accounts[b][t]));
        }
        assert(comes_from_block(row, new, blocks[b], accounts[b]));
    }
}

/// New headers that belong on top of a chain get the heights behind the block that the first of
/// them names, or from 0 on where it names none: each the height above that of the one before.
pub proof fn law_new_heights(
    chain: Seq<HeaderEntry>,
    headers: Seq<BlockHeader>,
    place: int,
    i: int,
)
    requires
        chain_wf(chain),
        ordered(chain, headers) is Some,
        0 <= i < headers.len(),
        !is_nonzero(headers[0].prev_blockhash) || (0 <= place < chain.len()
            && chain[place].hash == headers[0].prev_blockhash && forall|j: int|
            place < j < chain.len() ==> (#[trigger] chain[j]).hash != chain[place].hash),
    ensures
        ordered(chain, headers).unwrap().len() == headers.len(),
        ordered(chain, headers).unwrap()[i].header == headers[i],
        ordered(chain, headers).unwrap()[i].hash == sha256d(headers[i].bytes()),
        ordered(chain, headers).unwrap()[i].height == if is_nonzero(
            headers[0].prev_blockhash,
        ) {
            place + 1 + i
        } else {
            i
        },
{
    lemma_nonzero(headers[0].prev_blockhash);
    if headers[0].prev_blockhash != null_hash() {
        lemma_entry_at(chain, place);
        assert(chain[place].height == place);
    }
}

/// New headers belong on top of a chain exactly if each names the hash of the one before it, the
/// first names a block of the chain or none, and their heights are numbers of the machine.
pub proof fn law_new_headers_belong(chain: Seq<HeaderEntry>, headers: Seq<BlockHeader>)
    requires
        chain_wf(chain),
        chain.len() + headers.len() < usize::MAX,
    ensures
        ordered(chain, headers) is Some <==> {
            &&& forall|i: int|
                0 < i < headers.len() ==> (#[trigger] headers[i]).prev_blockhash == sha256d(
                    headers[i - 1].bytes(),
                )
            &&& headers.len() == 0 || !is_nonzero(headers[0].prev_blockhash) || exists|
                j: int,
            |
                0 <= j < chain.len() && (#[trigger] chain[j]).hash == headers[0].prev_blockhash
        },
{
    if headers.len() > 0 {
        let prev = headers[0].prev_blockhash;
        lemma_nonzero(prev);
        lemma_place_of(chain, prev);
        if let Some(j) = place_of(chain, prev) {
            assert(chain[j].height == j);
            assert(chain[j].hash == prev);
        }
        assert forall|i: int| 0 < i < headers.len() implies #[trigger] header_follows(headers, i)
            == (headers[i].prev_blockhash == sha256d(headers[i - 1].bytes())) by {}
        if headers_linked(headers) {
            assert forall|i: int| 0 < i < headers.len() implies (
            #[trigger] headers[i]).prev_blockhash == sha256d(headers[i - 1].bytes()) by {
                assert(header_follows(headers, i));
            }
        }
    }
}

/// What an update leaves of a chain: the blocks below the first new height as they were, the new
/// ones above them, and nothing else. Without new blocks, the blocks up to the one that is to be
/// the last.
pub proof fn law_chain_after_update(
    old: Seq<HeaderEntry>,
    new: Seq<HeaderEntry>,
    tip: BlockHash,
    i: int,
)
    requires
        chain_wf(old),
        continues(old, new, tip),
    ensures
        new.len() > 0 ==> {
            let base = new[0].height as int;
            &&& applied(old, new, tip).len() == base + new.len()
            &&& 0 <= i < base ==> applied(old, new, tip)[i] == old[i]
            &&& 0 <= i < new.len() ==> applied(old, new, tip)[base + i] == new[i]
        },
        new.len() == 0 && is_nonzero(tip) ==> {
            let after = applied(old, new, tip);
            &&& 0 < after.len() <= old.len()
            &&& after.last().hash == tip
            &&& 0 <= i < after.len() ==> after[i] == old[i]
            &&& after.len() <= i < old.len() ==> old[i].hash != tip
        },
        new.len() == 0 && !is_nonzero(tip) ==> applied(old, new, tip).len() == 0,
{
    lemma_nonzero(tip);
    if new.len() == 0 {
        lemma_place_of(old, tip);
    }
}

/// Each header of a path lies under its hash, where they name each other's hashes.
proof fn lemma_path_holds(
    map: Map<BlockHash, BlockHeader>,
    hash: BlockHash,
    headers: Seq<BlockHeader>,
    i: int,
)
    requires
        map.dom().finite(),
        path_to(map, hash) == Some(headers),
        headers_tip(headers) == hash,
        headers_linked(headers),
        0 <= i < headers.len(),
    ensures
        map.contains_key(headers[i].spec_block_hash()),
        map[headers[i].spec_block_hash()] == headers[i],
    decreases headers.len(),
{
    if hash == null_hash() {
        assert(headers =~= Seq::empty());
    } else {
        let last = map[hash];
        let below = path_to(map.remove(hash), last.prev_blockhash).unwrap();
        let rest = headers.drop_last();
        assert(headers == below.push(last));
        assert(rest =~= below);
        if i < rest.len() {
            assert forall|k: int| 0 < k < rest.len() implies #[trigger] header_follows(rest, k) by {
                assert(header_follows(headers, k));
            }
            assert(header_follows(headers, headers.len() - 1));
            lemma_path_holds(map.remove(hash), last.prev_blockhash, rest, i);
        }
    }
}

/// The headers that are read from a store are a chain from the first block to the one that the
/// store names as the last, and each of them stands in a block row under its hash.
pub proof fn law_indexed_headers_sound(rows: Seq<RowView>, i: int)
    requires
        indexed_headers(rows) is Some,
    ensures
        ({
            let headers = indexed_headers(rows).unwrap();
            let named = value_under(rows, seq![0x4cu8]);
            &&& headers.len() == 0 ==> named is None || !is_nonzero(hash_in(named.unwrap()))
            &&& headers.len() > 0 ==> named is Some && named.unwrap().len() == 32 && hash_in(
                named.unwrap(),
            ) == sha256d(headers[headers.len() - 1].bytes()) && !is_nonzero(
                headers[0].prev_blockhash,
            )
            &&& 0 < i < headers.len() ==> headers[i].prev_blockhash == sha256d(
                headers[i - 1].bytes(),
            )
            &&& 0 <= i < headers.len() ==> exists|k: int|
                0 <= k < rows.len() && seq![0x42u8].is_prefix_of((#[trigger] rows[k]).key)
                    && hash_in(rows[k].key.subrange(1, 33)) == sha256d(headers[i].bytes())
                    && header_in(rows[k].value) == headers[i]
        }),
{
    let headers = indexed_headers(rows).unwrap();
    let tip = indexed_tip(rows).unwrap();
    let found = rows_of_blocks(rows);
    let map = header_map(found);
    lemma_header_map_finite(found);
    lemma_path_starts(map, tip);
    let last = seq![LAST_BLOCK_CODE];
    lemma_nonzero(tip);
    if headers.len() > 0 {
        lemma_nonzero(headers[0].prev_blockhash);
        if value_under(rows, last) is None {
            assert(headers =~= Seq::empty());
        }
    }
    if 0 < i < headers.len() {
        assert(header_follows(headers, i));
    }
    if 0 <= i < headers.len() {
        let hash = headers[i].spec_block_hash();
        lemma_path_holds(map, tip, headers, i);
        lemma_header_map(found, hash);
        let m = choose|m: int|
            0 <= m < found.len() && #[trigger] hash_in_key(found[m]) == hash && map[hash]
                == header_in(found[m].value);
        let under = |row: RowView| seq![BLOCK_CODE].is_prefix_of(row.key);
        rows.lemma_filter_pred(under, m);
        rows.lemma_filter_contains_rev(under, found[m]);
        let k = choose|k: int| 0 <= k < rows.len() && rows[k] == found[m];
        assert(seq![0x42u8].is_prefix_of(rows[k].key));
    }
}

/// The block rows are those whose key begins with the code of block rows; the hash of a block
/// stands behind it.
pub proof fn law_block_rows(rows: Seq<RowView>, row: RowView)
    ensures
        rows_of_blocks(rows) == rows_under(rows, seq![0x42u8]),
        hash_in_key(row) == hash_in(row.key.subrange(1, 33)),
        block_row_readable(row) <==> row.key.len() >= 33 && row.value.len() == 80,
{
}

/// The rows, blocks and transactions that are handed over are taken one for one, in their order,
/// as they are; an account row that is not there is none.
pub proof fn law_taken_as_they_are(
    rows: Seq<Row>,
    blocks: Seq<Block>,
    txs: Seq<Transaction>,
    accounts: Seq<Vec<Option<Row>>>,
    entries: Seq<HeaderEntry>,
    i: int,
    j: int,
)
    ensures
        row_views(rows).len() == rows.len(),
        0 <= i < rows.len() ==> row_views(rows)[i].key == rows[i].key@ && row_views(rows)[i].value
            == rows[i].value@,
        block_views(blocks).len() == blocks.len(),
        0 <= i < blocks.len() ==> block_views(blocks)[i].header == blocks[i].header && block_views(
            blocks,
        )[i].txdata == transaction_views(blocks[i].txdata@),
        transaction_views(txs).len() == txs.len(),
        0 <= i < txs.len() ==> transaction_views(txs)[i].txid == txs[i].txid && transaction_views(
            txs,
        )[i].input == txs[i].input@ && transaction_views(txs)[i].output.len()
            == txs[i].output.len(),
        0 <= i < txs.len() && 0 <= j < txs[i].output.len() ==> transaction_views(txs)[i].output[j]
            == (TxOutView {
            value: txs[i].output[j].value,
            script_pubkey: txs[i].output[j].script_pubkey@,
        }),
        accounts_views(accounts).len() == accounts.len(),
        0 <= i < accounts.len() ==> accounts_views(accounts)[i].len() == accounts[i].len(),
        0 <= i < accounts.len() && 0 <= j < accounts[i].len() ==> match accounts[i][j] {
            Some(row) => accounts_views(accounts)[i][j] == Some(
                RowView { key: row.key@, value: row.value@ },
            ),
            None => accounts_views(accounts)[i][j] is None,
        },
        entry_hashes(entries).len() == entries.len(),
        0 <= i < entries.len() ==> entry_hashes(entries)[i] == entries[i].hash,
{
}

/// An output of a block of a batch, whose rows are in a store among any others, is found there by
/// the hash of its script, with its transaction, its position, its value, and the height of the
/// new header with the hash of the block.
pub proof fn law_indexed_output_found(
    new: Seq<HeaderEntry>,
    blocks: Seq<BlockView>,
    accounts: Seq<Seq<Option<RowView>>>,
    b: int,
    t: int,
    o: int,
    e: int,
    stored: Seq<RowView>,
    found: Seq<OutFields>,
)
    requires
        batch_rows(new, blocks, accounts) is Some,
        forall|k: int|
            0 <= k < batch_rows(new, blocks, accounts).unwrap().len() ==> stored.contains(
                #[trigger] batch_rows(new, blocks, accounts).unwrap()[k],
            ),
        0 <= b < blocks.len(),
        0 <= t < blocks[b].txdata.len(),
        0 <= o < blocks[b].txdata[t].output.len(),
        o <= u32::MAX,
        0 <= e < new.len(),
        new[e].hash == sha256d(blocks[b].header.bytes()),
        forall|j: int| e < j < new.len() ==> (#[trigger] new[j]).hash != new[e].hash,
        new[e].height <= u32::MAX,
        found == txouts_of(stored, sha256(blocks[b].txdata[t].output[o].script_pubkey)),
    ensures
        exists|i: int|
            0 <= i < found.len() && (#[trigger] found[i]).txid == blocks[b].txdata[t].txid@
                && u32_of(found[i].confirmed_height) == new[e].height && u32_of(
                found[i].output_index,
            ) == o && u64_of(found[i].output_value) == blocks[b].txdata[t].output[o].value,
{
    let tx = blocks[b].txdata[t];
    let all = batch_rows(new, blocks, accounts).unwrap();
    let scripthash = sha256(tx.output[o].script_pubkey);
    law_batch_output_row(new, blocks, accounts, b, t, o, e);
    let k = choose|k: int|
        0 <= k < all.len() && holds_output(#[trigger] all[k], tx, o, new[e].height as int);
    let row = all[k];
    let prefix = txout_prefix(scripthash);
    assert(stored.contains(row));
    assert(prefix =~= row.key.subrange(0, 33)) by {
        assert forall|i: int| 0 <= i < 33 implies prefix[i] == row.key[i] by {
            if i > 0 {
                assert(row.key.subrange(1, 33)[i - 1] == row.key[i]);
                assert(prefix[i] == scripthash@[i - 1]);
            }
        }
    }
    lemma_row_found(stored, row, prefix);
    let rows = rows_under(stored, prefix);
    let i = choose|i: int| 0 <= i < rows.len() && rows[i] == row;
    assert(found[i] == OutFields::read(row.key).unwrap());
}

/// The row that names a block as the last one comes behind all rows of the block and of those
/// before it: of a batch of different blocks, no row but the last names the last block.
pub proof fn law_named_last(
    new: Seq<HeaderEntry>,
    blocks: Seq<BlockView>,
    accounts: Seq<Seq<Option<RowView>>>,
    hash: BlockHash,
    k: int,
)
    requires
        batch_rows(new, blocks, accounts) is Some,
        accounts_wf(blocks, accounts),
        blocks.len() > 0,
        forall|b: int|
            0 <= b < blocks.len() - 1 ==> sha256d((#[trigger] blocks[b]).header.bytes()) != hash,
        0 <= k < batch_rows(new, blocks, accounts).unwrap().len() - 1,
    ensures
        batch_rows(new, blocks, accounts).unwrap()[k] != (RowView {
            key: seq![0x4cu8],
            value: hash@,
        }),
    decreases blocks.len(),
{
    let rest = blocks.drop_last();
    let before = batch_rows(new, rest, accounts).unwrap();
    let all = batch_rows(new, blocks, accounts).unwrap();
    let mark = RowView { key: seq![0x4cu8], value: hash@ };
    assert(mark.key[0] == LAST_BLOCK_CODE);
    if k < before.len() {
        assert(accounts_wf(rest, accounts)) by {
            assert forall|i: int, j: int|
                0 <= i < rest.len() && 0 <= j < rest[i].txdata.len() implies account_row_wf(
                #[trigger] accounts[i][j],
            ) by {
                assert(rest[i] == blocks[i]);
            }
        }
        let b = rest.len() - 1;
        assert(blocks[b] == rest.last());
        if k < before.len() - 1 {
            assert forall|i: int| 0 <= i < rest.len() - 1 implies sha256d(
                (#[trigger] rest[i]).header.bytes(),
            ) != hash by {
                assert(rest[i] == blocks[i]);
            }
            law_named_last(new, rest, accounts, hash, k);
        } else {
            let other = blocks[b].header.spec_block_hash();
            assert(other != hash);
            assert(all[k] == before.last());
            assert(before.last() == last_block_row(other));
            if all[k] == mark {
                lemma_hash_eq(other, hash);
            }
        }
    } else {
        let b = blocks.len() - 1;
        let block = blocks[b];
        let height = entry_of(new, block.header.spec_block_hash()).unwrap().height as u32;
        let txs = transactions_rows(block.txdata, height, accounts[b]);
        let m = k - before.len();
        if m < txs.len() {
            assert forall|j: int| 0 <= j < block.txdata.len() implies account_row_wf(
                #[trigger] accounts[b][j],
            ) by {
                assert(blocks[b] == block);
            }
            lemma_transaction_rows_mark_none(block.txdata, height, accounts[b], m);
            assert(all[k] == txs[m]);
        } else {
            assert(all[k] == header_row(block.header));
            assert(all[k].key[0] == BLOCK_CODE);
        }
    }
}

} // verus!
