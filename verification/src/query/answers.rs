//! What holds of the answers to questions about blocks and transactions.

use crate::chain::{parsed_transaction, TransactionView};
use crate::db::encoding::{InFields, OutFields};
use crate::db::outputs::{out_fields, txouts_of, TxOutRow};
use crate::db::u32_of;
use crate::errors::{Error, ErrorView};
use crate::hashes::{
    hash_in, hash_text, hash_text_error, hex_error, hex_text, law_hash_text_read_back,
    law_hex_read_back, law_null_hash, lemma_hash_in, unhex, FullHash, Txid,
};
use crate::json::{JsonView, NumberView};
use crate::mempool::ItemView;
use crate::query::merkle::{merkle_branch, merkle_root};
use crate::query::status::{
    funding_views, spending_views, targets, FundingOutput, SpendingInput,
};
use crate::query::{
    account_txs, block_at, blocks_in_vbytes, branch_outcome, first_place, header_merkle_proof, headers_at, hashes_to,
    id_from_pos, is_first_use, is_lowest, known_tx, lemma_first_place, merkle_proof, raw_blockhash,
    raw_tx, total_vsize,
};
use crate::store::RowView;
use crate::text::decimal;
use crate::util::HeaderEntry;
use vstd::prelude::*;
use vstd::utf8::*;

verus! {

/// The headers at given heights are the blocks of the chain there, in the order of the heights;
/// a height above the chain gives none.
pub proof fn law_headers_at(chain: Seq<HeaderEntry>, heights: Seq<usize>, height: usize)
    ensures
        headers_at(chain, Seq::empty()).len() == 0,
        headers_at(chain, heights.push(height)) == if height < chain.len() {
            headers_at(chain, heights).push(chain[height as int])
        } else {
            headers_at(chain, heights)
        },
{
    assert(heights.push(height).drop_last() =~= heights);
}

/// A Merkle proof of a transaction is the branch from the first place at which the ids of the
/// block name it, with that place. Without the block or the transaction there is an error.
pub proof fn law_merkle_proof(
    chain: Seq<HeaderEntry>,
    tx_hash: Txid,
    height: int,
    txids: Seq<Txid>,
    place: int,
)
    ensures
        !(0 <= height < chain.len()) ==> merkle_proof(chain, tx_hash, height, txids) == Err::<
            (Seq<FullHash>, int),
            ErrorView,
        >(ErrorView::Message("missing block #"@ + decimal(height))),
        0 <= height < chain.len() && (forall|i: int|
            0 <= i < txids.len() ==> #[trigger] txids[i] != tx_hash) ==> merkle_proof(
            chain,
            tx_hash,
            height,
            txids,
        ) == Err::<(Seq<FullHash>, int), ErrorView>(
            ErrorView::Message(
                "missing txid "@ + hash_text(tx_hash) + " in block "@ + hash_text(
                    chain[height].hash,
                ),
            ),
        ),
        0 <= height < chain.len() && 0 <= place < txids.len() && txids[place] == tx_hash && (forall|
            i: int,
        |
            0 <= i < place ==> #[trigger] txids[i] != tx_hash) ==> merkle_proof(
            chain,
            tx_hash,
            height,
            txids,
        ) == Ok::<(Seq<FullHash>, int), ErrorView>((merkle_branch(txids, place), place)),
{
    lemma_first_place(txids, tx_hash);
    if let Some(found) = first_place(txids, tx_hash) {
        assert(txids[found] == tx_hash);
        if 0 <= place < found && txids[place] == tx_hash {
            assert(txids.take(found)[place] == tx_hash);
        }
    } else if 0 <= place < txids.len() {
        assert(txids.contains(txids[place]));
    }
}

/// A Merkle proof of a header is the branch from its hash, and the root, over the hashes of all
/// blocks up to the checkpoint. A checkpoint below the header or above the chain is an error.
pub proof fn law_header_proof(
    chain: Seq<HeaderEntry>,
    hashes: Seq<FullHash>,
    height: int,
    cp_height: int,
)
    requires
        0 <= height,
        0 <= cp_height,
    ensures
        cp_height < height ==> header_merkle_proof(chain, height, cp_height) == Err::<
            (Seq<FullHash>, FullHash),
            ErrorView,
        >(
            ErrorView::Message(
                "cp_height #"@ + decimal(cp_height) + " < height #"@ + decimal(height),
            ),
        ),
        height <= cp_height && chain.len() == 0 ==> header_merkle_proof(chain, height, cp_height)
            == Err::<(Seq<FullHash>, FullHash), ErrorView>(
            ErrorView::Message("no headers indexed"@),
        ),
        height <= cp_height && 0 < chain.len() <= cp_height ==> header_merkle_proof(
            chain,
            height,
            cp_height,
        ) == Err::<(Seq<FullHash>, FullHash), ErrorView>(
            ErrorView::Message(
                "cp_height #"@ + decimal(cp_height) + " above best block height #"@ + decimal(
                    chain.len() - 1,
                ),
            ),
        ),
        height <= cp_height < chain.len() && hashes.len() == cp_height + 1 && (forall|i: int|
            0 <= i <= cp_height ==> #[trigger] hashes[i] == chain[i].hash) ==> header_merkle_proof(
            chain,
            height,
            cp_height,
        ) == Ok::<(Seq<FullHash>, FullHash), ErrorView>(
            (merkle_branch(hashes, height), merkle_root(hashes)),
        ),
{
    if height <= cp_height < chain.len() && hashes.len() == cp_height + 1 && (forall|i: int|
        0 <= i <= cp_height ==> #[trigger] hashes[i] == chain[i].hash) {
        assert(hashes_to(chain, cp_height) =~= hashes);
    }
}

/// The transaction at a position is the one that the ids of the block name there, with the branch
/// from that position if it is wanted. Without the block or the position there is an error.
pub proof fn law_id_from_pos(
    chain: Seq<HeaderEntry>,
    height: int,
    tx_pos: int,
    txids: Seq<Txid>,
    want_merkle: bool,
)
    ensures
        !(0 <= height < chain.len()) ==> id_from_pos(chain, height, tx_pos, want_merkle, txids)
            == Err::<(Txid, Seq<FullHash>), ErrorView>(
            ErrorView::Message("missing block #"@ + decimal(height)),
        ),
        0 <= height < chain.len() && !(0 <= tx_pos < txids.len()) ==> id_from_pos(
            chain,
            height,
            tx_pos,
            want_merkle,
            txids,
        ) == Err::<(Txid, Seq<FullHash>), ErrorView>(
            ErrorView::Message(
                "No tx in position #"@ + decimal(tx_pos) + " in block #"@ + decimal(height),
            ),
        ),
        0 <= height < chain.len() && 0 <= tx_pos < txids.len() ==> id_from_pos(
            chain,
            height,
            tx_pos,
            true,
            txids,
        ) == Ok::<(Txid, Seq<FullHash>), ErrorView>(
            (txids[tx_pos], merkle_branch(txids, tx_pos)),
        ) && id_from_pos(chain, height, tx_pos, false, txids) == Ok::<
            (Txid, Seq<FullHash>),
            ErrorView,
        >((txids[tx_pos], Seq::empty())),
{
}

/// The first use of a script is the lowest of its outputs, and of several at that height the one
/// that the rows hold first. A script without outputs is first used at 0, in the transaction
/// whose id is all zeroes.
pub proof fn law_first_use(
    rows: Seq<RowView>,
    outputs: Seq<OutFields>,
    scripthash: FullHash,
    first: (u32, Txid),
)
    requires
        is_first_use(rows, scripthash, first),
        outputs == txouts_of(rows, scripthash),
    ensures
        outputs.len() == 0 ==> first.0 == 0 && forall|b: int|
            0 <= b < 32 ==> #[trigger] first.1@[b] == 0,
        outputs.len() > 0 ==> exists|i: int|
            {
                &&& 0 <= i < outputs.len()
                &&& first.0 == u32_of((#[trigger] outputs[i]).confirmed_height)
                &&& first.1 == hash_in(outputs[i].txid)
                &&& forall|j: int|
                    0 <= j < i ==> u32_of((#[trigger] outputs[j]).confirmed_height) > first.0
                &&& forall|j: int|
                    i < j < outputs.len() ==> u32_of((#[trigger] outputs[j]).confirmed_height)
                        >= first.0
            },
{
    if outputs.len() == 0 {
        law_null_hash(first.1);
    } else {
        let i = choose|i: int| #[trigger]
            is_lowest(outputs, i) && first == (outputs[i].height(), hash_in(outputs[i].txid));
        assert(first.0 == u32_of(outputs[i].confirmed_height));
        assert forall|j: int| 0 <= j < i implies u32_of((#[trigger] outputs[j]).confirmed_height)
            > first.0 by {
            assert(outputs[i].height() < outputs[j].height());
        }
        assert forall|j: int| i < j < outputs.len() implies u32_of(
            (#[trigger] outputs[j]).confirmed_height,
        ) >= first.0 by {
            assert(outputs[i].height() <= outputs[j].height());
        }
    }
}

/// A transaction in the mempool is known as it is there, any other as it is held.
pub proof fn law_known_tx(items: Map<Txid, ItemView>, held: Map<Txid, Seq<u8>>, txid: Txid)
    ensures
        items.contains_key(txid) ==> known_tx(items, held, txid) == Some(items[txid].tx),
        !items.contains_key(txid) && held.contains_key(txid) && parsed_transaction(held[txid]) is Ok
            ==> known_tx(items, held, txid) == Some(parsed_transaction(held[txid])->Ok_0),
        !items.contains_key(txid) && !held.contains_key(txid) ==> known_tx(items, held, txid) is None,
{
}

/// What the daemon says of a transaction holds its bytes and the hash of its block in
/// hexadecimal; what is missing or no such text is an error.
pub proof fn law_raw_transaction(
    rawtx: JsonView,
    bytes: Seq<u8>,
    hash: FullHash,
    text: Seq<char>,
)
    ensures
        rawtx.field("hex"@) == Some(JsonView::Str(hex_text(bytes))) ==> raw_tx(rawtx) == match
        parsed_transaction(bytes) {
            Ok(tx) => Ok((bytes, tx)),
            Err(cause) => Err(ErrorView::caused_by("failed to parse tx from bitcoind"@, cause)),
        },
        rawtx.field("hex"@) == Some(JsonView::Str(text)) && unhex(encode_utf8(text)) is None
            ==> raw_tx(rawtx) == Err::<(Seq<u8>, TransactionView), ErrorView>(
            ErrorView::caused_by("non-hex tx from bitcoind"@, hex_error(text)),
        ),
        (rawtx.field("hex"@) is None || !(rawtx.field("hex"@).unwrap() is Str)) ==> raw_tx(rawtx)
            == Err::<(Seq<u8>, TransactionView), ErrorView>(
            ErrorView::Message("invalid tx hex from bitcoind"@),
        ),
        rawtx.field("blockhash"@) == Some(JsonView::Str(hash_text(hash))) ==> raw_blockhash(rawtx)
            == Ok::<FullHash, ErrorView>(hash),
        rawtx.field("blockhash"@) == Some(JsonView::Str(text)) && (encode_utf8(text).len() != 64
            || unhex(encode_utf8(text)) is None) ==> raw_blockhash(rawtx) == Err::<
            FullHash,
            ErrorView,
        >(ErrorView::caused_by("non-hex blockhash from bitcoind"@, hash_text_error(text))),
        (rawtx.field("blockhash"@) is None || !(rawtx.field("blockhash"@).unwrap() is Str))
            ==> raw_blockhash(rawtx) == Err::<FullHash, ErrorView>(
            ErrorView::Message("invalid blockhash from bitcoind"@),
        ),
{
    law_hex_read_back(bytes);
    law_hash_text_read_back(hash);
    lemma_hash_in(hash);
}

/// Of the transactions at a height those that register the account are given, in their order,
/// each with its bytes, the height and the hash of the block.
pub proof fn law_account_txs(
    txs: Seq<TransactionView>,
    registers: Seq<bool>,
    height: u32,
    blockhash: FullHash,
    tx: TransactionView,
)
    requires
        registers.len() > txs.len(),
    ensures
        account_txs(Seq::empty(), registers, height, blockhash).len() == 0,
        account_txs(txs.push(tx), registers, height, blockhash) == if registers[txs.len() as int] {
            account_txs(txs, registers, height, blockhash).push(
                JsonView::Object(
                    seq![
                        ("blockhash"@, JsonView::Str(hash_text(blockhash))),
                        ("height"@, JsonView::Number(NumberView::Unsigned(height as u64))),
                        ("tx"@, JsonView::Str(hex_text(tx.raw))),
                    ],
                ),
            )
        } else {
            account_txs(txs, registers, height, blockhash)
        },
{
    assert(txs.push(tx).drop_last() =~= txs);
}

/// The sizes of a histogram add up, and a block is taken to hold a million bytes.
pub proof fn law_sizes_add_up(vsizes: Seq<u32>, vsize: u32, blocks: usize)
    ensures
        total_vsize(Seq::empty()) == 0,
        total_vsize(vsizes.push(vsize)) == total_vsize(vsizes) + vsize,
        blocks * 1_000_000 <= u32::MAX ==> blocks_in_vbytes(blocks) == blocks * 1_000_000,
{
    assert(vsizes.push(vsize).drop_last() =~= vsizes);
}

/// The block at a height is that of the chain; above it there is an error.
pub proof fn law_block_at(chain: Seq<HeaderEntry>, height: int)
    ensures
        0 <= height < chain.len() ==> block_at(chain, height) == Ok::<HeaderEntry, ErrorView>(
            chain[height],
        ),
        height >= chain.len() ==> block_at(chain, height) == Err::<HeaderEntry, ErrorView>(
            ErrorView::Message("missing block #"@ + decimal(height)),
        ),
{
}

/// The outputs and inputs of a status are taken one for one, in their order, as they are.
pub proof fn law_taken_as_they_are(
    funding: Seq<FundingOutput>,
    spending: Seq<SpendingInput>,
    rows: Seq<TxOutRow>,
    i: int,
)
    ensures
        funding_views(funding).len() == funding.len(),
        0 <= i < funding.len() ==> funding_views(funding)[i].state == funding[i].state
            && funding_views(funding)[i].fields == (OutFields {
            code: funding[i].txout.key.code,
            scripthash: funding[i].txout.key.scripthash@,
            txid: funding[i].txout.txid@,
            confirmed_height: funding[i].txout.confirmed_height@,
            output_index: funding[i].txout.output_index@,
            output_value: funding[i].txout.output_value@,
        }),
        spending_views(spending).len() == spending.len(),
        0 <= i < spending.len() ==> spending_views(spending)[i].state == spending[i].state
            && spending_views(spending)[i].funding_output == spending[i].funding_output
            && spending_views(spending)[i].value == spending[i].value && spending_views(
            spending,
        )[i].fields == (InFields {
            code: spending[i].txin.key.code,
            prev_hash: spending[i].txin.key.prev_hash@,
            prev_index: spending[i].txin.key.prev_index@,
            txid: spending[i].txin.txid@,
            confirmed_height: spending[i].txin.confirmed_height@,
        }),
        out_fields(rows).len() == rows.len(),
        0 <= i < rows.len() ==> out_fields(rows)[i] == rows[i].fields(),
{
}

/// A result with a branch is the branch and what comes with it, or what the error holds, and
/// references stand for what they refer to.
pub proof fn law_outcomes<T>(
    branch: Vec<FullHash>,
    rest: T,
    error: Error,
    refs: Seq<&FundingOutput>,
    i: int,
)
    ensures
        branch_outcome(Ok::<(Vec<FullHash>, T), Error>((branch, rest))) == Ok::<
            (Seq<FullHash>, T),
            ErrorView,
        >((branch@, rest)),
        branch_outcome(Err::<(Vec<FullHash>, T), Error>(error)) == Err::<
            (Seq<FullHash>, T),
            ErrorView,
        >(error@),
        targets(refs).len() == refs.len(),
        0 <= i < refs.len() ==> targets(refs)[i] == *refs[i],
{
}

} // verus!
