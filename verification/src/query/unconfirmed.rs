//! What the mempool holds of a script.

use crate::db::outputs::{get_txouts, out_fields, txouts_of, txouts_sound};
use crate::errors::Error;
use crate::hashes::{null_hash, FullHash, Txid};
use crate::mempool::{law_mempool_rows_sound, ItemView, Tracker};
use crate::query::queryutil::{
    find_spending, funding_of, lets_pass, refuses_with, spender_sound, spending_of,
    txoutrow_to_fundingoutput,
};
use crate::query::status::{
    funding_views, spending_views, FundingOutput, FundingView, SpendingInput,
};
use crate::table::Table;
use vstd::prelude::*;

verus! {

/// The transactions of the outputs and of the inputs.
pub open spec fn tx_ids(funding: Seq<FundingOutput>, spending: Seq<SpendingInput>) -> Seq<Txid> {
    funding.map_values(|output: FundingOutput| output.txout.txid) + spending.map_values(
        |input: SpendingInput| input.txin.txid,
    )
}

/// The fee of each of the transactions that is in the mempool.
pub open spec fn fees_of(items: Map<Txid, ItemView>, txids: Seq<Txid>) -> Map<Txid, u64> {
    Map::new(
        |txid: Txid| txids.contains(txid) && items.contains_key(txid),
        |txid: Txid| items[txid].entry.fee,
    )
}

proof fn lemma_fees_push(items: Map<Txid, ItemView>, txids: Seq<Txid>, txid: Txid)
    ensures
        fees_of(items, txids.push(txid)) == if items.contains_key(txid) {
            fees_of(items, txids).insert(txid, items[txid].entry.fee)
        } else {
            fees_of(items, txids)
        },
{
    let after = txids.push(txid);
    assert forall|other: Txid| #[trigger] after.contains(other) <==> txids.contains(other) || other
        == txid by {
        assert(after[txids.len() as int] == txid);
        if txids.contains(other) {
            let i = choose|i: int| 0 <= i < txids.len() && txids[i] == other;
            assert(after[i] == other);
        }
        if after.contains(other) {
            let i = choose|i: int| 0 <= i < after.len() && after[i] == other;
            if i < txids.len() {
                assert(txids[i] == other);
            }
        }
    }
    let wanted = if items.contains_key(txid) {
        fees_of(items, txids).insert(txid, items[txid].entry.fee)
    } else {
        fees_of(items, txids)
    };
    assert(fees_of(items, after) =~= wanted);
}

/// Questions about the mempool.
pub struct UnconfirmedQuery {}

impl UnconfirmedQuery {
    /// Questions about the mempool.
    pub fn new() -> (query: UnconfirmedQuery)
        ensures
            query == (UnconfirmedQuery {  }),
    {
        UnconfirmedQuery {  }
    }

    /// The outputs to a script in the mempool. `timeout` is asked before each output, and what
    /// it refuses with is returned.
    pub fn get_funding<F: Fn() -> Result<(), Error>>(
        &self,
        tracker: &Tracker,
        scripthash: &FullHash,
        timeout: &F,
    ) -> (funding: Result<Vec<FundingOutput>, Error>)
        requires
            tracker.wf(),
            call_requires(*timeout, ()),
        ensures
            match funding {
                Ok(funding) => {
                    &&& funding_views(funding@) == funding_of(
                        tracker@,
                        tracker.index_rows(),
                        *scripthash,
                    )
                    &&& forall|i: int| 0 <= i < funding.len() ==> (#[trigger] funding[i]).wf()
                    &&& funding.len() > 0 ==> lets_pass(*timeout)
                },
                Err(error) => refuses_with(*timeout, error) && funding_of(
                    tracker@,
                    tracker.index_rows(),
                    *scripthash,
                ).len() > 0,
            },
    {
        let index = tracker.index();
        proof {
            law_mempool_rows_sound(tracker@, tracker.index_rows(), *scripthash, null_hash(), 0);
        }
        let rows = get_txouts(index, *scripthash);
        let ghost found = rows@;
        let ghost wanted = funding_of(tracker@, tracker.index_rows(), *scripthash);
        let mut funding: Vec<FundingOutput> = Vec::new();
        assert(out_fields(found).len() == wanted.len());
        for txout in it: rows
            invariant
                tracker.wf(),
                call_requires(*timeout, ()),
                txouts_sound(tracker.index_rows(), *scripthash),
                out_fields(found) == txouts_of(tracker.index_rows(), *scripthash),
                wanted == funding_of(tracker@, tracker.index_rows(), *scripthash),
                it.seq() == found,
                found.len() == wanted.len(),
                funding_views(funding@) == wanted.take(it.index() as int),
                forall|i: int| 0 <= i < funding.len() ==> (#[trigger] funding[i]).wf(),
                funding.len() > 0 ==> lets_pass(*timeout),
        {
            timeout()?;
            let ghost i = it.index() as int;
            let ghost before = funding_views(funding@);
            assert(out_fields(found)[i] == txout.fields());
            assert(txouts_of(tracker.index_rows(), *scripthash)[i].wf());
            funding.push(txoutrow_to_fundingoutput(tracker, txout));
            assert(funding_views(funding@) =~= before.push(wanted[i]));
            assert(wanted.take(i + 1) =~= wanted.take(i).push(wanted[i]));
        }
        assert(wanted.take(wanted.len() as int) =~= wanted);
        Ok(funding)
    }

    /// The inputs in the mempool that spend outputs, those in the mempool before those in
    /// blocks. `timeout` is asked before each output, and what it refuses with is returned.
    pub fn get_spending<F: Fn() -> Result<(), Error>>(
        &self,
        tracker: &Tracker,
        unconfirmed_funding: &Vec<FundingOutput>,
        confirmed_funding: &Vec<FundingOutput>,
        timeout: &F,
    ) -> (spending: Result<Vec<SpendingInput>, Error>)
        requires
            tracker.wf(),
            call_requires(*timeout, ()),
            forall|i: int|
                0 <= i < unconfirmed_funding.len() ==> (#[trigger] unconfirmed_funding[i]).wf(),
            forall|i: int|
                0 <= i < confirmed_funding.len() ==> (#[trigger] confirmed_funding[i]).wf(),
        ensures
            match spending {
                Ok(spending) => spending_views(spending@) == spending_of(
                    tracker@,
                    tracker.index_rows(),
                    funding_views(unconfirmed_funding@) + funding_views(confirmed_funding@),
                ) && (forall|i: int| 0 <= i < spending.len() ==> (#[trigger] spending[i]).wf()) && (
                unconfirmed_funding.len() + confirmed_funding.len() > 0 ==> lets_pass(*timeout)),
                Err(error) => refuses_with(*timeout, error) && unconfirmed_funding.len()
                    + confirmed_funding.len() > 0,
            },
    {
        let index = tracker.index();
        proof {
            assert forall|funding: FundingView| #[trigger]
                spender_sound(tracker.index_rows(), funding) by {
                let output = funding.outpoint();
                law_mempool_rows_sound(
                    tracker@,
                    tracker.index_rows(),
                    null_hash(),
                    output.txid,
                    output.vout,
                );
            }
        }
        find_spending(index, tracker, unconfirmed_funding, confirmed_funding, timeout)
    }

    /// The fees of the transactions of the outputs and inputs, as far as they are in the
    /// mempool.
    pub fn get_tx_fees(
        &self,
        tracker: &Tracker,
        funding: &Vec<FundingOutput>,
        spending: &Vec<SpendingInput>,
    ) -> (fees: Table<Txid, u64>)
        requires
            tracker.wf(),
        ensures
            fees.wf(),
            fees@ == fees_of(tracker@, tx_ids(funding@, spending@)),
    {
        let ghost txids = tx_ids(funding@, spending@);
        let mut fees: Table<Txid, u64> = Table::new();
        assert(fees@ =~= fees_of(tracker@, txids.take(0)));
        for i in 0..funding.len()
            invariant
                tracker.wf(),
                txids == tx_ids(funding@, spending@),
                fees.wf(),
                fees@ == fees_of(tracker@, txids.take(i as int)),
        {
            let txid = *funding[i].txid();
            assert(txids.take(i + 1) =~= txids.take(i as int).push(txid));
            proof {
                lemma_fees_push(tracker@, txids.take(i as int), txid);
            }
            if let Some(fee) = tracker.get_fee(&txid) {
                fees.insert(txid, fee);
            }
        }
        for i in 0..spending.len()
            invariant
                tracker.wf(),
                txids == tx_ids(funding@, spending@),
                fees.wf(),
                fees@ == fees_of(tracker@, txids.take(funding.len() + i)),
        {
            let txid = *spending[i].txid();
            let ghost n = funding.len() + i;
            assert(txids.take(n + 1) =~= txids.take(n).push(txid));
            proof {
                lemma_fees_push(tracker@, txids.take(n), txid);
            }
            if let Some(fee) = tracker.get_fee(&txid) {
                fees.insert(txid, fee);
            }
        }
        assert(txids.take(txids.len() as int) =~= txids);
        fees
    }
}

/// A timeout that only refuses lets no question with an output to look up be answered.
pub proof fn law_refused_is_not_answered<F: Fn() -> Result<(), Error>>(timeout: F)
    requires
        forall|answer: Result<(), Error>| #[trigger]
            call_ensures(timeout, (), answer) ==> answer is Err,
    ensures
        !lets_pass(timeout),
{
    let answer: Result<(), Error> = Ok(());
    assert(call_ensures(timeout, (), answer) ==> answer is Err);
}

/// The fees are those of the transactions of the outputs and inputs that are in the mempool, as
/// they stand there, and no others.
pub proof fn law_fees(
    items: Map<Txid, ItemView>,
    funding: Seq<FundingOutput>,
    spending: Seq<SpendingInput>,
    txid: Txid,
)
    ensures
        fees_of(items, tx_ids(funding, spending)).contains_key(txid) <==> items.contains_key(txid)
            && ((exists|i: int| 0 <= i < funding.len() && (#[trigger] funding[i]).txout.txid == txid)
            || (exists|i: int| 0 <= i < spending.len() && (#[trigger] spending[i]).txin.txid
            == txid)),
        fees_of(items, tx_ids(funding, spending)).contains_key(txid) ==> fees_of(
            items,
            tx_ids(funding, spending),
        )[txid] == items[txid].entry.fee,
{
    let ids = tx_ids(funding, spending);
    if ids.contains(txid) {
        let k = choose|k: int| 0 <= k < ids.len() && ids[k] == txid;
        if k < funding.len() {
            assert(funding[k].txout.txid == txid);
        } else {
            assert(spending[k - funding.len()].txin.txid == txid);
        }
    }
    if exists|i: int| 0 <= i < funding.len() && (#[trigger] funding[i]).txout.txid == txid {
        let i = choose|i: int| 0 <= i < funding.len() && (#[trigger] funding[i]).txout.txid == txid;
        assert(ids[i] == txid);
    }
    if exists|i: int| 0 <= i < spending.len() && (#[trigger] spending[i]).txin.txid == txid {
        let i = choose|i: int| 0 <= i < spending.len() && (#[trigger] spending[i]).txin.txid == txid;
        assert(ids[funding.len() + i] == txid);
    }
}

} // verus!
