//! How the rows of an index become outputs to a script and inputs that spend them.

use crate::chain::{OutPoint, TransactionView};
use crate::db::encoding::{counted, lemma_split_counted, InFields, OutFields};
use crate::db::inputs::{get_txin, law_txin_lookup, txin_of, txin_prefix, txin_sound, TX_IN_CODE};
use crate::db::outputs::{get_txouts, out_fields, txouts_of, txouts_sound, TxOutRow};
use crate::db::{u32_of, u64_of, varint};
use crate::errors::Error;
use crate::hashes::{hash_in, lemma_hash_in, FullHash, Txid};
use crate::mempool::{ItemView, Tracker, MEMPOOL_HEIGHT};
use crate::query::status::{
    funding_views, spending_views, ConfirmationState, FundingOutput, FundingView, SpendingInput,
    SpendingView,
};
use crate::store::{rows_under, ReadStore, RowView};
use vstd::prelude::*;

verus! {

/// Whether a transaction spends from one that waits for a block.
pub open spec fn has_unconfirmed_parent(items: Map<Txid, ItemView>, tx: TransactionView) -> bool {
    exists|i: int|
        0 <= i < tx.input.len() && items.contains_key(
            (#[trigger] tx.input[i]).previous_output.txid,
        )
}

/// How far the transaction `txid` has got, if it is indexed at `height`.
pub open spec fn state_of(items: Map<Txid, ItemView>, txid: Txid, height: u32) -> ConfirmationState {
    if height != MEMPOOL_HEIGHT {
        ConfirmationState::Confirmed
    } else if items.contains_key(txid) && has_unconfirmed_parent(items, items[txid].tx) {
        ConfirmationState::UnconfirmedParent
    } else {
        ConfirmationState::InMempool
    }
}

/// An output with how far its transaction has got.
pub open spec fn funding_of_row(items: Map<Txid, ItemView>, fields: OutFields) -> FundingView {
    FundingView { fields, state: state_of(items, hash_in(fields.txid), fields.height()) }
}

/// The outputs to a script that the rows hold.
pub open spec fn funding_of(
    items: Map<Txid, ItemView>,
    rows: Seq<RowView>,
    scripthash: FullHash,
) -> Seq<FundingView> {
    txouts_of(rows, scripthash).map_values(|fields: OutFields| funding_of_row(items, fields))
}

/// The input that spends an output, if the rows hold one.
pub open spec fn spender_of(
    items: Map<Txid, ItemView>,
    rows: Seq<RowView>,
    funding: FundingView,
) -> Option<SpendingView> {
    match txin_of(rows, funding.outpoint().txid, funding.outpoint().vout) {
        Some(fields) => Some(
            SpendingView {
                fields,
                funding_output: funding.outpoint(),
                value: funding.fields.value(),
                state: state_of(items, hash_in(fields.txid), fields.height()),
            },
        ),
        None => None,
    }
}

/// The inputs that spend the outputs, in the order of the outputs.
pub open spec fn spending_of(
    items: Map<Txid, ItemView>,
    rows: Seq<RowView>,
    funding: Seq<FundingView>,
) -> Seq<SpendingView>
    decreases funding.len(),
{
    if funding.len() == 0 {
        Seq::empty()
    } else {
        let before = spending_of(items, rows, funding.drop_last());
        match spender_of(items, rows, funding.last()) {
            Some(spender) => before.push(spender),
            None => before,
        }
    }
}

/// The timeout can let a question go on.
pub open spec fn lets_pass<F: Fn() -> Result<(), Error>>(timeout: F) -> bool {
    call_ensures(timeout, (), Ok(()))
}

/// The timeout can refuse with this error.
pub open spec fn refuses_with<F: Fn() -> Result<(), Error>>(timeout: F, error: Error) -> bool {
    call_ensures(timeout, (), Err(error))
}

/// The row of the input that spends the output can be read.
pub open spec fn spender_sound(rows: Seq<RowView>, funding: FundingView) -> bool {
    txin_sound(rows, funding.outpoint().txid, funding.outpoint().vout)
}

/// How far the transaction `txid` has got, if it is indexed at `height`.
pub fn check_confirmation_state(tracker: &Tracker, txid: &Txid, height: u32) -> (state:
    ConfirmationState)
    requires
        tracker.wf(),
    ensures
        state == state_of(tracker@, *txid, height),
{
    if height != MEMPOOL_HEIGHT {
        return ConfirmationState::Confirmed;
    }
    match tracker.get_txn(txid) {
        Some(txn) => {
            for i in 0..txn.input.len()
                invariant
                    tracker.wf(),
                    forall|j: int|
                        0 <= j < i ==> !tracker@.contains_key(
                            (#[trigger] txn@.input[j]).previous_output.txid,
                        ),
                    tracker@.contains_key(*txid),
                    txn@ == tracker@[*txid].tx,
                    height == MEMPOOL_HEIGHT,
            {
                if tracker.contains(&txn.input[i].previous_output.txid) {
                    assert(tracker@.contains_key(txn@.input[i as int].previous_output.txid));
                    return ConfirmationState::UnconfirmedParent;
                }
            }
            ConfirmationState::InMempool
        },
        None => ConfirmationState::InMempool,
    }
}

/// The output of a row, with how far its transaction has got.
pub fn txoutrow_to_fundingoutput(tracker: &Tracker, txout: TxOutRow) -> (funding: FundingOutput)
    requires
        tracker.wf(),
        txout.fields().wf(),
    ensures
        funding@ == funding_of_row(tracker@, txout.fields()),
        funding.txout == txout,
        funding.wf(),
{
    proof {
        lemma_hash_in(txout.txid);
    }
    let state = check_confirmation_state(tracker, txout.get_txid(), txout.get_confirmed_height());
    FundingOutput { txout, state }
}

/// The outputs to a script in the store, with how far their transactions have got.
pub fn find_funding<S: ReadStore>(store: &S, tracker: &Tracker, scripthash: FullHash) -> (funding:
    Vec<FundingOutput>)
    requires
        tracker.wf(),
        txouts_sound(store.rows(), scripthash),
    ensures
        funding_views(funding@) == funding_of(tracker@, store.rows(), scripthash),
        forall|i: int| 0 <= i < funding.len() ==> (#[trigger] funding[i]).wf(),
{
    let rows = get_txouts(store, scripthash);
    let ghost found = rows@;
    let ghost wanted = funding_of(tracker@, store.rows(), scripthash);
    let mut funding: Vec<FundingOutput> = Vec::new();
    for txout in it: rows
        invariant
            tracker.wf(),
            txouts_sound(store.rows(), scripthash),
            out_fields(found) == txouts_of(store.rows(), scripthash),
            wanted == funding_of(tracker@, store.rows(), scripthash),
            it.seq() == found,
            funding_views(funding@) == wanted.take(it.index() as int),
            forall|i: int| 0 <= i < funding.len() ==> (#[trigger] funding[i]).wf(),
    {
        let ghost i = it.index() as int;
        let ghost before = funding_views(funding@);
        assert(out_fields(found)[i] == txout.fields());
        assert(txouts_of(store.rows(), scripthash)[i].wf());
        funding.push(txoutrow_to_fundingoutput(tracker, txout));
        assert(funding_views(funding@) =~= before.push(wanted[i]));
        assert(wanted.take(i + 1) =~= wanted.take(i).push(wanted[i]));
    }
    assert(wanted.take(wanted.len() as int) =~= wanted);
    funding
}

/// The input that spends an output, if the store holds one.
pub fn find_spending_input<S: ReadStore>(
    store: &S,
    tracker: &Tracker,
    funding: &FundingOutput,
) -> (spending: Option<SpendingInput>)
    requires
        tracker.wf(),
        funding.wf(),
        spender_sound(store.rows(), funding@),
    ensures
        match spending {
            Some(spending) => spender_of(tracker@, store.rows(), funding@) == Some(spending@)
                && spending.wf(),
            None => spender_of(tracker@, store.rows(), funding@) is None,
        },
{
    proof {
        lemma_hash_in(funding.txout.txid);
    }
    let (txid, vout) = (*funding.txid(), funding.output_index());
    match get_txin(store, txid, vout) {
        Some(txin) => {
            proof {
                lemma_hash_in(txin.txid);
            }
            let state = check_confirmation_state(
                tracker,
                txin.get_txid(),
                txin.get_confirmed_height(),
            );
            Some(
                SpendingInput {
                    txin,
                    funding_output: OutPoint { txid, vout },
                    value: funding.value(),
                    state,
                },
            )
        },
        None => None,
    }
}

/// The inputs in the store that spend the outputs. `timeout` is asked before each output, and
/// what it refuses with is returned.
pub fn find_spending<S: ReadStore, F: Fn() -> Result<(), Error>>(
    store: &S,
    tracker: &Tracker,
    funding: &Vec<FundingOutput>,
    more: &Vec<FundingOutput>,
    timeout: &F,
) -> (spending: Result<Vec<SpendingInput>, Error>)
    requires
        tracker.wf(),
        call_requires(*timeout, ()),
        forall|i: int|
            0 <= i < funding.len() ==> (#[trigger] funding[i]).wf() && spender_sound(
                store.rows(),
                funding[i]@,
            ),
        forall|i: int|
            0 <= i < more.len() ==> (#[trigger] more[i]).wf() && spender_sound(
                store.rows(),
                more[i]@,
            ),
    ensures
        match spending {
            Ok(spending) => spending_views(spending@) == spending_of(
                tracker@,
                store.rows(),
                funding_views(funding@) + funding_views(more@),
            ) && (forall|i: int| 0 <= i < spending.len() ==> (#[trigger] spending[i]).wf()) && (
            funding.len() + more.len() > 0 ==> lets_pass(*timeout)),
            Err(error) => refuses_with(*timeout, error) && funding.len() + more.len() > 0,
        },
{
    let mut spending: Vec<SpendingInput> = Vec::new();
    let ghost (first, second) = (funding_views(funding@), funding_views(more@));
    assert(first.take(0) =~= Seq::empty());
    assert(spending_views(spending@) =~= Seq::empty());
    for i in 0..funding.len()
        invariant
            tracker.wf(),
            call_requires(*timeout, ()),
            forall|j: int|
                0 <= j < funding.len() ==> (#[trigger] funding[j]).wf() && spender_sound(
                    store.rows(),
                    funding[j]@,
                ),
            first == funding_views(funding@),
            spending_views(spending@) == spending_of(
                tracker@,
                store.rows(),
                first.take(i as int),
            ),
            forall|j: int| 0 <= j < spending.len() ==> (#[trigger] spending[j]).wf(),
            i > 0 ==> lets_pass(*timeout),
    {
        timeout()?;
        let ghost before = spending_views(spending@);
        assert(first.take(i + 1).drop_last() =~= first.take(i as int));
        assert(first[i as int] == funding[i as int]@);
        if let Some(spent) = find_spending_input(store, tracker, &funding[i]) {
            spending.push(spent);
            assert(spending_views(spending@) =~= before.push(spent@));
        }
    }
    assert(first.take(first.len() as int) =~= (first + second).take(first.len() as int));
    for i in 0..more.len()
        invariant
            tracker.wf(),
            call_requires(*timeout, ()),
            forall|j: int|
                0 <= j < more.len() ==> (#[trigger] more[j]).wf() && spender_sound(
                    store.rows(),
                    more[j]@,
                ),
            second == funding_views(more@),
            spending_views(spending@) == spending_of(
                tracker@,
                store.rows(),
                (first + second).take(first.len() + i),
            ),
            forall|j: int| 0 <= j < spending.len() ==> (#[trigger] spending[j]).wf(),
            i > 0 ==> lets_pass(*timeout),
    {
        timeout()?;
        let ghost before = spending_views(spending@);
        let ghost n = first.len() + i;
        assert((first + second).take(n + 1).drop_last() =~= (first + second).take(n));
        assert((first + second)[n] == more[i as int]@);
        if let Some(spent) = find_spending_input(store, tracker, &more[i]) {
            spending.push(spent);
            assert(spending_views(spending@) =~= before.push(spent@));
        }
    }
    assert((first + second).take((first + second).len() as int) =~= first + second);
    Ok(spending)
}

/// An input that is found spends one of the outputs for which it was looked, and has its value.
pub proof fn law_spenders_spend(
    items: Map<Txid, ItemView>,
    rows: Seq<RowView>,
    funding: Seq<FundingView>,
    i: int,
)
    requires
        0 <= i < spending_of(items, rows, funding).len(),
    ensures
        exists|j: int|
            0 <= j < funding.len() && (#[trigger] funding[j]).outpoint() == spending_of(
                items,
                rows,
                funding,
            )[i].funding_output && funding[j].fields.value() == spending_of(
                items,
                rows,
                funding,
            )[i].value,
    decreases funding.len(),
{
    let rest = funding.drop_last();
    let before = spending_of(items, rows, rest);
    let input = spending_of(items, rows, funding)[i];
    if i < before.len() {
        law_spenders_spend(items, rows, rest, i);
        let j = choose|j: int|
            0 <= j < rest.len() && (#[trigger] rest[j]).outpoint() == before[i].funding_output
                && rest[j].fields.value() == before[i].value;
        assert(funding[j].outpoint() == input.funding_output);
    } else {
        assert(funding[funding.len() - 1].outpoint() == input.funding_output);
    }
}

/// A transaction at any height but that of the mempool is confirmed. One at that height waits
/// with a parent exactly if it is in the mempool together with a transaction that it spends
/// from.
pub proof fn law_confirmation_state(items: Map<Txid, ItemView>, txid: Txid, height: u32)
    ensures
        state_of(items, txid, height) is Confirmed <==> height != 0x7FFF_FFFF,
        state_of(items, txid, height) is UnconfirmedParent <==> height == 0x7FFF_FFFF
            && items.contains_key(txid) && exists|i: int|
            0 <= i < items[txid].tx.input.len() && items.contains_key(
                (#[trigger] items[txid].tx.input[i]).previous_output.txid,
            ),
{
}

/// One more output adds at most one input, behind those of the other outputs, and it spends
/// that output.
pub proof fn law_one_input_for_each_output(
    items: Map<Txid, ItemView>,
    rows: Seq<RowView>,
    funding: Seq<FundingView>,
    output: FundingView,
)
    ensures
        ({
            let before = spending_of(items, rows, funding);
            let after = spending_of(items, rows, funding.push(output));
            after == before || (after.len() == before.len() + 1 && after.drop_last() == before
                && after.last().funding_output.txid == hash_in(output.fields.txid)
                && after.last().funding_output.vout == u32_of(output.fields.output_index)
                && after.last().value == u64_of(output.fields.output_value))
        }),
{
    assert(funding.push(output).drop_last() =~= funding);
    let before = spending_of(items, rows, funding);
    if let Some(spender) = spender_of(items, rows, output) {
        assert(before.push(spender).drop_last() =~= before);
    }
}

/// The input that spends an output is among those that are found.
proof fn lemma_spender_listed(
    items: Map<Txid, ItemView>,
    rows: Seq<RowView>,
    funding: Seq<FundingView>,
    i: int,
)
    requires
        0 <= i < funding.len(),
        spender_of(items, rows, funding[i]) is Some,
    ensures
        spending_of(items, rows, funding).contains(spender_of(items, rows, funding[i]).unwrap()),
    decreases funding.len(),
{
    let rest = funding.drop_last();
    let before = spending_of(items, rows, rest);
    let all = spending_of(items, rows, funding);
    let spender = spender_of(items, rows, funding[i]).unwrap();
    if i < rest.len() {
        lemma_spender_listed(items, rows, rest, i);
        let j = choose|j: int| 0 <= j < before.len() && before[j] == spender;
        assert(all[j] == spender);
    } else {
        assert(all[before.len() as int] == spender);
    }
}

/// Where the rows hold an input that spends one of the outputs, and the rows of inputs can be
/// read, an input is found that spends it, with its value.
pub proof fn law_stored_spender_found(
    items: Map<Txid, ItemView>,
    rows: Seq<RowView>,
    funding: Seq<FundingView>,
    i: int,
    txid: Txid,
    input: InFields,
    r: int,
)
    requires
        0 <= i < funding.len(),
        funding[i].fields.txid == txid@,
        forall|q: int|
            0 <= q < rows.len() && (#[trigger] rows[q]).key.len() > 0 && rows[q].key[0] == 0x49
                ==> InFields::read(rows[q].key) is Some,
        0 <= r < rows.len(),
        rows[r].key == input.bytes(),
        input.sized(),
        input.code == 0x49,
        input.prev_hash == txid@,
        input.prev_index == varint(u32_of(funding[i].fields.output_index) as nat),
    ensures
        exists|j: int|
            0 <= j < spending_of(items, rows, funding).len() && (#[trigger] spending_of(
                items,
                rows,
                funding,
            )[j]).funding_output.txid == txid && spending_of(
                items,
                rows,
                funding,
            )[j].funding_output.vout == u32_of(funding[i].fields.output_index) && spending_of(
                items,
                rows,
                funding,
            )[j].value == u64_of(funding[i].fields.output_value),
{
    let vout = u32_of(funding[i].fields.output_index);
    let prefix = txin_prefix(txid, vout);
    lemma_hash_in(txid);
    law_txin_lookup(input, txid, vout);
    let under = |row: RowView| prefix.is_prefix_of(row.key);
    let found = rows_under(rows, prefix);
    rows.lemma_filter_contains(under, r);
    assert(found.len() > 0);
    rows.lemma_filter_pred(under, 0);
    rows.lemma_filter_contains_rev(under, found[0]);
    let q = choose|q: int| 0 <= q < rows.len() && rows[q] == found[0];
    assert(prefix[0] == 0x49);
    assert(prefix.is_prefix_of(rows[q].key));
    assert(rows[q].key[0] == prefix[0]);
    assert(spender_of(items, rows, funding[i]) is Some);
    lemma_spender_listed(items, rows, funding, i);
    let spender = spender_of(items, rows, funding[i]).unwrap();
    let all = spending_of(items, rows, funding);
    let j = choose|j: int| 0 <= j < all.len() && all[j] == spender;
    assert(all[j].funding_output.txid == txid);
}

/// The key of a row names the output by which the row is looked up.
proof fn lemma_named_by_prefix(key: Seq<u8>, txid: Txid, vout: u32)
    requires
        txin_prefix(txid, vout).is_prefix_of(key),
        InFields::read(key) is Some,
    ensures
        InFields::read(key).unwrap().code == TX_IN_CODE,
        InFields::read(key).unwrap().prev_hash == txid@,
        InFields::read(key).unwrap().prev_index == varint(vout as nat),
{
    let prefix = txin_prefix(txid, vout);
    let index = varint(vout as nat);
    let rest = key.skip(prefix.len() as int);
    crate::db::lemma_varint_lens(vout, 0, 0);
    lemma_split_counted(txid@, counted(index) + rest);
    lemma_split_counted(index, rest);
    assert(prefix[0] == key[0]);
    assert(key =~= prefix + rest);
    assert(key.skip(1) =~= counted(txid@) + (counted(index) + rest));
}

/// An input that is found stands in one of the rows, which names the output that it spends, and
/// its state is that of the transaction and the height in the row.
pub proof fn law_found_spender_stored(
    items: Map<Txid, ItemView>,
    rows: Seq<RowView>,
    funding: Seq<FundingView>,
    j: int,
)
    requires
        0 <= j < spending_of(items, rows, funding).len(),
    ensures
        ({
            let input = spending_of(items, rows, funding)[j];
            &&& exists|r: int|
                0 <= r < rows.len() && InFields::read((#[trigger] rows[r]).key) == Some(
                    input.fields,
                )
            &&& input.fields.code == 0x49
            &&& input.fields.prev_hash == input.funding_output.txid@
            &&& input.fields.prev_index == varint(input.funding_output.vout as nat)
            &&& input.state == state_of(
                items,
                hash_in(input.fields.txid),
                u32_of(input.fields.confirmed_height),
            )
        }),
    decreases funding.len(),
{
    let rest = funding.drop_last();
    let before = spending_of(items, rows, rest);
    if j < before.len() {
        law_found_spender_stored(items, rows, rest, j);
    } else {
        let output = funding.last().outpoint();
        let prefix = txin_prefix(output.txid, output.vout);
        let under = |row: RowView| prefix.is_prefix_of(row.key);
        let found = rows_under(rows, prefix);
        rows.lemma_filter_pred(under, 0);
        rows.lemma_filter_contains_rev(under, found[0]);
        let r = choose|r: int| 0 <= r < rows.len() && rows[r] == found[0];
        lemma_named_by_prefix(rows[r].key, output.txid, output.vout);
        assert(InFields::read(rows[r].key) == Some(spending_of(items, rows, funding)[j].fields));
    }
}

} // verus!
