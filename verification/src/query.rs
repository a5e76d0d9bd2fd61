//! Answers to what wallets ask: balances, histories, unspent outputs and Merkle proofs.

use crate::cache::{cached_tx, tx_kept, TransactionCache, HASH_SIZE};
use crate::cashaccount::{ascii_lowercase, MAX_ACCOUNT_NAME};
use crate::chain::{
    copy_transaction, deserialize_transaction, parsed_transaction, transaction_views, Transaction, TransactionView,
};
use crate::db::cashaccounts::{
    accounts_of, accounts_readable, are_accounts_readable, txids_by_cashaccount,
};
use crate::db::encoding::OutFields;
use crate::db::inputs::is_txin_sound;
use crate::db::outputs::{
    are_txouts_sound, get_txouts, out_fields, txouts_of, txouts_sound,
};
use crate::errors::{outcome, Error, ErrorView};
use crate::hashes::{
    default_hash, hash_from_hex, hash_in, hash_of_text, hash_text, hash_text_error, hash_to_hex,
    hex_decode, hex_error,
    hex_encode, hex_text, lemma_hash_in, null_hash, same_hash, unhex, FullHash, Txid,
};
use crate::index::Index;
use crate::json::{
    field_views, item_views, lemma_array_view, lemma_object_view, Json, JsonView,
    NumberView,
};
use crate::mempool::{law_mempool_rows_sound, ItemView, Tracker};
use crate::query::merkle::{
    climb, create_merkle_branch_and_root, law_branch_leads_to_root, merkle_branch, merkle_root,
};
use crate::query::queryutil::{
    find_funding, find_spending, funding_of, law_spenders_spend, lets_pass, refuses_with,
    spender_sound, spending_of,
};
use crate::query::status::{
    distinct_outputs, distinct_spends, funded, funding_views, is_unspent, law_balance_is_unspent,
    lemma_funded_concat, lemma_spent_concat, spending_views, spends_one_of, spent, unspent_map,
    FundingView, SpendingInput,
};
use crate::store::{ReadStore, RowView};
use crate::text::{decimal, u64_text};
use crate::util::{entry_of, lemma_place_of, tip_of, HeaderEntry};
use vstd::prelude::*;
use vstd::utf8::*;

pub use crate::query::status::{ConfirmationState, FundingOutput, Status};

pub mod answers;
pub mod laws;
pub mod merkle;
pub mod queryutil;
pub mod status;
pub mod unconfirmed;

verus! {

/// The rows of the outputs to a script, and of the inputs that spend them, can be read.
pub open spec fn status_sound(
    items: Map<Txid, ItemView>,
    rows: Seq<RowView>,
    scripthash: FullHash,
) -> bool {
    &&& txouts_sound(rows, scripthash)
    &&& forall|i: int|
        0 <= i < funding_of(items, rows, scripthash).len() ==> spender_sound(
            rows,
            #[trigger] funding_of(items, rows, scripthash)[i],
        )
}

/// The status of a script: its outputs and their spenders in blocks, its outputs in the
/// mempool, and the spenders of both there.
pub open spec fn is_status(
    status: Status,
    items: Map<Txid, ItemView>,
    confirmed: Seq<RowView>,
    mempool: Seq<RowView>,
    scripthash: FullHash,
) -> bool {
    let known = funding_of(items, confirmed, scripthash);
    let waiting = funding_of(items, mempool, scripthash);
    &&& status.wf()
    &&& funding_views(status.confirmed.0@) == known
    &&& spending_views(status.confirmed.1@) == spending_of(items, confirmed, known)
    &&& funding_views(status.mempool.0@) == waiting
    &&& spending_views(status.mempool.1@) == spending_of(items, mempool, waiting + known)
}

/// Output `i` is the lowest one, the first of them if there are more.
pub open spec fn is_lowest(outputs: Seq<OutFields>, i: int) -> bool {
    &&& 0 <= i < outputs.len()
    &&& forall|j: int| 0 <= j < i ==> outputs[i].height() < (#[trigger] outputs[j]).height()
    &&& forall|j: int|
        i <= j < outputs.len() ==> outputs[i].height() <= (#[trigger] outputs[j]).height()
}

/// `first` is the height and the transaction of the lowest output to a script that the rows
/// hold; 0 and the null hash if there is none.
pub open spec fn is_first_use(
    rows: Seq<RowView>,
    scripthash: FullHash,
    first: (u32, Txid),
) -> bool {
    let outputs = txouts_of(rows, scripthash);
    if outputs.len() == 0 {
        first == (0u32, null_hash())
    } else {
        exists|i: int| #[trigger]
            is_lowest(outputs, i) && first == (outputs[i].height(), hash_in(outputs[i].txid))
    }
}

/// The first place of an item.
pub open spec fn first_place<T>(items: Seq<T>, item: T) -> Option<int>
    decreases items.len(),
{
    if items.len() == 0 {
        None
    } else {
        match first_place(items.drop_last(), item) {
            Some(place) => Some(place),
            None => if items.last() == item {
                Some(items.len() - 1)
            } else {
                None
            },
        }
    }
}

proof fn lemma_first_place<T>(items: Seq<T>, item: T)
    ensures
        match first_place(items, item) {
            Some(place) => 0 <= place < items.len() && items[place] == item && !items.take(
                place,
            ).contains(item),
            None => !items.contains(item),
        },
    decreases items.len(),
{
    if items.len() > 0 {
        let rest = items.drop_last();
        lemma_first_place(rest, item);
        match first_place(rest, item) {
            Some(place) => {
                assert(rest.take(place) =~= items.take(place));
            },
            None => {
                assert(items.take(items.len() - 1) =~= rest);
                if items.contains(item) {
                    let i = choose|i: int| 0 <= i < items.len() && items[i] == item;
                    if i < rest.len() {
                        assert(rest[i] == item);
                    }
                }
            },
        }
    }
}

/// The block that stands at a height, or the error that there is none.
pub open spec fn block_at(chain: Seq<HeaderEntry>, height: int) -> Result<HeaderEntry, ErrorView> {
    if 0 <= height < chain.len() {
        Ok(chain[height])
    } else {
        Err(ErrorView::Message("missing block #"@ + decimal(height)))
    }
}

/// The Merkle proof of a transaction in the block at a height: the branch from its position.
pub open spec fn merkle_proof(
    chain: Seq<HeaderEntry>,
    tx_hash: Txid,
    height: int,
    txids: Seq<Txid>,
) -> Result<(Seq<FullHash>, int), ErrorView> {
    match block_at(chain, height) {
        Err(error) => Err(error),
        Ok(block) => match first_place(txids, tx_hash) {
            Some(place) => Ok((merkle_branch(txids, place), place)),
            None => Err(
                ErrorView::Message(
                    "missing txid "@ + hash_text(tx_hash) + " in block "@ + hash_text(block.hash),
                ),
            ),
        },
    }
}

/// The hashes of the blocks up to a height.
pub open spec fn hashes_to(chain: Seq<HeaderEntry>, height: int) -> Seq<FullHash> {
    chain.take(height + 1).map_values(|entry: HeaderEntry| entry.hash)
}

/// The Merkle proof of a header among those up to `cp_height`.
pub open spec fn header_merkle_proof(chain: Seq<HeaderEntry>, height: int, cp_height: int) -> Result<
    (Seq<FullHash>, FullHash),
    ErrorView,
> {
    if cp_height < height {
        Err(
            ErrorView::Message(
                "cp_height #"@ + decimal(cp_height) + " < height #"@ + decimal(height),
            ),
        )
    } else if chain.len() == 0 {
        Err(ErrorView::Message("no headers indexed"@))
    } else if chain.len() - 1 < cp_height {
        Err(
            ErrorView::Message(
                "cp_height #"@ + decimal(cp_height) + " above best block height #"@ + decimal(
                    chain.len() - 1,
                ),
            ),
        )
    } else {
        Ok(
            (
                merkle_branch(hashes_to(chain, cp_height), height),
                merkle_root(hashes_to(chain, cp_height)),
            ),
        )
    }
}

/// The transaction at a position in the block at a height, with the branch from it if that is
/// wanted.
pub open spec fn id_from_pos(
    chain: Seq<HeaderEntry>,
    height: int,
    tx_pos: int,
    want_merkle: bool,
    txids: Seq<Txid>,
) -> Result<(Txid, Seq<FullHash>), ErrorView> {
    match block_at(chain, height) {
        Err(error) => Err(error),
        Ok(_) => if 0 <= tx_pos < txids.len() {
            Ok(
                (
                    txids[tx_pos],
                    if want_merkle {
                        merkle_branch(txids, tx_pos)
                    } else {
                        Seq::empty()
                    },
                ),
            )
        } else {
            Err(
                ErrorView::Message(
                    "No tx in position #"@ + decimal(tx_pos) + " in block #"@ + decimal(height),
                ),
            )
        },
    }
}

/// A branch with a position or a root, as plain values.
pub open spec fn branch_outcome<T>(result: Result<(Vec<FullHash>, T), Error>) -> Result<
    (Seq<FullHash>, T),
    ErrorView,
> {
    match result {
        Ok((branch, rest)) => Ok((branch@, rest)),
        Err(error) => Err(error@),
    }
}

/// A view on everything that is known: what the blocks have left in the store, the chain of
/// the indexed blocks, and the mempool.
pub struct Query<'a, S: ReadStore> {
    pub store: &'a S,
    pub index: &'a Index,
    pub tracker: &'a Tracker,
}

/// The outputs of a part of a status are `funding`, and its inputs are those that spend one of
/// `spendable`, as the rows tell them.
pub open spec fn is_part(
    part: (Vec<FundingOutput>, Vec<SpendingInput>),
    items: Map<Txid, ItemView>,
    rows: Seq<RowView>,
    funding: Seq<FundingView>,
    spendable: Seq<FundingView>,
) -> bool {
    &&& funding_views(part.0@) == funding
    &&& spending_views(part.1@) == spending_of(items, rows, spendable)
    &&& forall|i: int| 0 <= i < part.0.len() ==> (#[trigger] part.0[i]).wf()
    &&& forall|i: int| 0 <= i < part.1.len() ==> (#[trigger] part.1[i]).wf()
}

impl<'a, S: ReadStore> Query<'a, S> {
    /// The chain and the mempool are in order.
    pub open spec fn wf(&self) -> bool {
        self.index.wf() && self.tracker.wf()
    }

    /// The outputs to a script in blocks, and the inputs in blocks that spend them. `timeout`
    /// is asked before each output, and what it refuses with is returned.
    pub fn confirmed_status<F: Fn() -> Result<(), Error>>(
        &self,
        script_hash: FullHash,
        timeout: &F,
    ) -> (status: Result<(Vec<FundingOutput>, Vec<SpendingInput>), Error>)
        requires
            self.wf(),
            call_requires(*timeout, ()),
            status_sound(self.tracker@, self.store.rows(), script_hash),
        ensures
            match status {
                Ok(part) => {
                    let known = funding_of(self.tracker@, self.store.rows(), script_hash);
                    &&& is_part(part, self.tracker@, self.store.rows(), known, known)
                    &&& known.len() > 0 ==> lets_pass(*timeout)
                },
                Err(error) => refuses_with(*timeout, error) && funding_of(
                    self.tracker@,
                    self.store.rows(),
                    script_hash,
                ).len() > 0,
            },
    {
        let funding = find_funding(self.store, self.tracker, script_hash);
        let none: Vec<FundingOutput> = Vec::new();
        proof {
            let known = funding_of(self.tracker@, self.store.rows(), script_hash);
            assert forall|i: int| 0 <= i < funding.len() implies spender_sound(
                self.store.rows(),
                (#[trigger] funding[i])@,
            ) by {
                assert(funding_views(funding@)[i] == known[i]);
            }
            assert(funding_views(funding@) + funding_views(none@) =~= known);
            assert(known.len() == funding.len());
        }
        let spending = find_spending(self.store, self.tracker, &funding, &none, timeout)?;
        Ok((funding, spending))
    }

    /// The outputs to a script in the mempool, and the inputs in the mempool that spend them
    /// or those in blocks.
    pub fn mempool_status<F: Fn() -> Result<(), Error>>(
        &self,
        script_hash: FullHash,
        confirmed_funding: &Vec<FundingOutput>,
        timeout: &F,
    ) -> (status: Result<(Vec<FundingOutput>, Vec<SpendingInput>), Error>)
        requires
            self.wf(),
            call_requires(*timeout, ()),
            forall|i: int|
                0 <= i < confirmed_funding.len() ==> (#[trigger] confirmed_funding[i]).wf(),
        ensures
            match status {
                Ok(part) => {
                    let rows = self.tracker.index_rows();
                    let waiting = funding_of(self.tracker@, rows, script_hash);
                    &&& is_part(
                        part,
                        self.tracker@,
                        rows,
                        waiting,
                        waiting + funding_views(confirmed_funding@),
                    )
                    &&& waiting.len() + confirmed_funding.len() > 0 ==> lets_pass(*timeout)
                },
                Err(error) => refuses_with(*timeout, error) && funding_of(
                    self.tracker@,
                    self.tracker.index_rows(),
                    script_hash,
                ).len() + confirmed_funding.len() > 0,
            },
    {
        let index = self.tracker.index();
        proof {
            law_mempool_rows_sound(self.tracker@, index.rows(), script_hash, null_hash(), 0);
            assert forall|funding: FundingView| #[trigger] spender_sound(index.rows(), funding) by {
                let output = funding.outpoint();
                law_mempool_rows_sound(
                    self.tracker@,
                    index.rows(),
                    script_hash,
                    output.txid,
                    output.vout,
                );
            }
        }
        let funding = find_funding(index, self.tracker, script_hash);
        assert(funding_views(funding@).len() == funding.len());
        let spending = find_spending(index, self.tracker, &funding, confirmed_funding, timeout)?;
        Ok((funding, spending))
    }

    /// What is paid to a script and what is spent of it. If the timeout refuses, the error says
    /// whether that was among the outputs in blocks or, with all of these done, in the mempool.
    pub fn status<F: Fn() -> Result<(), Error>>(&self, script_hash: &FullHash, timeout: &F) -> (
    status: Result<Status, Error>)
        requires
            self.wf(),
            call_requires(*timeout, ()),
            status_sound(self.tracker@, self.store.rows(), *script_hash),
        ensures
            match status {
                Ok(status) => is_status(
                    status,
                    self.tracker@,
                    self.store.rows(),
                    self.tracker.index_rows(),
                    *script_hash,
                ) && (status.all_funding().len() > 0 ==> lets_pass(*timeout)),
                Err(error) => {
                    let known = funding_of(self.tracker@, self.store.rows(), *script_hash);
                    let waiting = funding_of(
                        self.tracker@,
                        self.tracker.index_rows(),
                        *script_hash,
                    );
                    exists|cause: Error| #[trigger]
                        refuses_with(*timeout, cause) && if error@ == ErrorView::Caused(
                            "failed to get confirmed status"@,
                            Box::new(cause@),
                        ) {
                            known.len() > 0
                        } else {
                            &&& error@ == ErrorView::Caused(
                                "failed to get mempool status"@,
                                Box::new(cause@),
                            )
                            &&& waiting.len() + known.len() > 0
                            &&& known.len() > 0 ==> lets_pass(*timeout)
                        }
                },
            },
    {
        let confirmed = self.begin_status(script_hash, timeout)?;
        assert(funding_views(confirmed.0@).len() == confirmed.0.len());
        proof {
            reveal_strlit("failed to get confirmed status");
            reveal_strlit("failed to get mempool status");
            assert("failed to get confirmed status"@.len() == 30);
            assert("failed to get mempool status"@.len() == 28);
        }
        let status = self.finish_status(script_hash, confirmed, timeout)?;
        assert(funding_views(status.confirmed.0@).len() == status.confirmed.0.len());
        assert(funding_views(status.mempool.0@).len() == status.mempool.0.len());
        Ok(status)
    }

    /// The first part of [`Query::status`]: what blocks hold.
    pub fn begin_status<F: Fn() -> Result<(), Error>>(&self, script_hash: &FullHash, timeout: &F) -> (
    confirmed: Result<(Vec<FundingOutput>, Vec<SpendingInput>), Error>)
        requires
            self.wf(),
            call_requires(*timeout, ()),
            status_sound(self.tracker@, self.store.rows(), *script_hash),
        ensures
            ({
                let known = funding_of(self.tracker@, self.store.rows(), *script_hash);
                match confirmed {
                    Ok(part) => {
                        &&& is_part(part, self.tracker@, self.store.rows(), known, known)
                        &&& known.len() > 0 ==> lets_pass(*timeout)
                    },
                    Err(error) => known.len() > 0 && exists|cause: Error| #[trigger]
                        refuses_with(*timeout, cause) && error@ == ErrorView::Caused(
                            "failed to get confirmed status"@,
                            Box::new(cause@),
                        ),
                }
            }),
    {
        match self.confirmed_status(*script_hash, timeout) {
            Ok(confirmed) => Ok(confirmed),
            Err(cause) => Err(Error::caused("failed to get confirmed status", cause)),
        }
    }

    /// The second part of [`Query::status`]: what the mempool holds, beside what blocks hold.
    pub fn finish_status<F: Fn() -> Result<(), Error>>(
        &self,
        script_hash: &FullHash,
        confirmed: (Vec<FundingOutput>, Vec<SpendingInput>),
        timeout: &F,
    ) -> (status: Result<Status, Error>)
        requires
            self.wf(),
            call_requires(*timeout, ()),
            forall|i: int| 0 <= i < confirmed.0.len() ==> (#[trigger] confirmed.0[i]).wf(),
        ensures
            ({
                let rows = self.tracker.index_rows();
                let waiting = funding_of(self.tracker@, rows, *script_hash);
                match status {
                    Ok(status) => {
                        &&& status.confirmed == confirmed
                        &&& is_part(
                            status.mempool,
                            self.tracker@,
                            rows,
                            waiting,
                            waiting + funding_views(confirmed.0@),
                        )
                        &&& waiting.len() + confirmed.0.len() > 0 ==> lets_pass(*timeout)
                    },
                    Err(error) => waiting.len() + confirmed.0.len() > 0 && exists|cause: Error|
                        #[trigger]
                        refuses_with(*timeout, cause) && error@ == ErrorView::Caused(
                            "failed to get mempool status"@,
                            Box::new(cause@),
                        ),
                }
            }),
    {
        match self.mempool_status(*script_hash, &confirmed.0, timeout) {
            Ok(mempool) => Ok(Status { confirmed, mempool }),
            Err(cause) => Err(Error::caused("failed to get mempool status", cause)),
        }
    }

    /// Whether the rows of a script can be read, so that its status can be asked for.
    pub fn is_status_sound(&self, script_hash: FullHash) -> (sound: bool)
        requires
            self.wf(),
        ensures
            sound == status_sound(self.tracker@, self.store.rows(), script_hash),
    {
        if !are_txouts_sound(self.store, script_hash) {
            return false;
        }
        let funding = find_funding(self.store, self.tracker, script_hash);
        let ghost known = funding_of(self.tracker@, self.store.rows(), script_hash);
        for i in 0..funding.len()
            invariant
                known == funding_of(self.tracker@, self.store.rows(), script_hash),
                funding_views(funding@) == known,
                forall|j: int| 0 <= j < funding.len() ==> (#[trigger] funding[j]).wf(),
                forall|j: int|
                    0 <= j < i ==> spender_sound(self.store.rows(), #[trigger] known[j]),
        {
            assert(funding_views(funding@)[i as int] == funding[i as int]@);
            proof {
                lemma_hash_in(funding[i as int].txout.txid);
            }
            if !is_txin_sound(self.store, *funding[i].txid(), funding[i].output_index()) {
                assert(!spender_sound(self.store.rows(), known[i as int]));
                return false;
            }
        }
        true
    }

    /// The last indexed block.
    pub fn best_header(&self) -> (entry: Option<HeaderEntry>)
        requires
            self.wf(),
        ensures
            entry == if self.index@.len() == 0 {
                None
            } else {
                Some(self.index@.last())
            },
    {
        proof {
            lemma_place_of(self.index@, tip_of(self.index@));
        }
        self.index.best_header()
    }

    /// The last indexed block, or an error.
    pub fn get_best_header(&self) -> (entry: Result<HeaderEntry, Error>)
        requires
            self.wf(),
        ensures
            outcome(entry) == if self.index@.len() == 0 {
                Err(ErrorView::Message("no headers indexed"@))
            } else {
                Ok(self.index@.last())
            },
    {
        match self.best_header() {
            Some(entry) => Ok(entry),
            None => Err(Error::message("no headers indexed")),
        }
    }

    /// The blocks at those of the heights at which there is one.
    pub fn get_headers(&self, heights: &[usize]) -> (entries: Vec<HeaderEntry>)
        ensures
            entries@ == headers_at(self.index@, heights@),
    {
        let mut entries: Vec<HeaderEntry> = Vec::new();
        assert(heights@.take(0) =~= Seq::empty());
        for i in 0..heights.len()
            invariant
                entries@ == headers_at(self.index@, heights@.take(i as int)),
        {
            assert(heights@.take(i + 1).drop_last() =~= heights@.take(i as int));
            if let Some(entry) = self.index.get_header(heights[i]) {
                entries.push(entry);
            }
        }
        assert(heights@.take(heights.len() as int) =~= heights@);
        entries
    }

    /// The block at a height, of which the ids of the transactions are to be fetched.
    pub fn get_block_header(&self, height: usize) -> (entry: Result<HeaderEntry, Error>)
        ensures
            outcome(entry) == block_at(self.index@, height as int),
    {
        match self.index.get_header(height) {
            Some(entry) => Ok(entry),
            None => Err(
                Error::Message(String::from_str("missing block #").concat(&u64_text(height as u64))),
            ),
        }
    }

    /// The Merkle proof of a transaction in the block at a height, which holds the
    /// transactions `txids`: the branch from the transaction, and its position.
    pub fn get_merkle_proof(&self, tx_hash: &Txid, height: usize, txids: Vec<Txid>) -> (found:
        Result<(Vec<FullHash>, usize), Error>)
        ensures
            match found {
                Ok((branch, pos)) => merkle_proof(self.index@, *tx_hash, height as int, txids@)
                    == Ok::<(Seq<FullHash>, int), ErrorView>((branch@, pos as int)),
                Err(error) => merkle_proof(self.index@, *tx_hash, height as int, txids@) == Err::<
                    (Seq<FullHash>, int),
                    ErrorView,
                >(error@),
            },
    {
        let header_entry = match self.get_block_header(height) {
            Ok(entry) => entry,
            Err(error) => {
                return Err(error);
            },
        };
        proof {
            lemma_first_place(txids@, *tx_hash);
        }
        match position(&txids, tx_hash) {
            Some(pos) => {
                let (branch, _root) = create_merkle_branch_and_root(txids, pos);
                Ok((branch, pos))
            },
            None => {
                let text = String::from_str("missing txid ").concat(&hash_to_hex(tx_hash)).concat(
                    " in block ",
                ).concat(&hash_to_hex(header_entry.hash()));
                Err(Error::Message(text))
            },
        }
    }

    /// The Merkle proof of the header at a height among those up to `cp_height`: the branch
    /// from the header, and the root.
    pub fn get_header_merkle_proof(&self, height: usize, cp_height: usize) -> (found: Result<
        (Vec<FullHash>, FullHash),
        Error,
    >)
        requires
            self.wf(),
        ensures
            branch_outcome(found) == header_merkle_proof(
                self.index@,
                height as int,
                cp_height as int,
            ),
    {
        if cp_height < height {
            let text = String::from_str("cp_height #").concat(&u64_text(cp_height as u64)).concat(
                " < height #",
            ).concat(&u64_text(height as u64));
            return Err(Error::Message(text));
        }
        proof {
            self.index.lemma_heights();
        }
        let best_height: usize = match self.get_best_header() {
            Ok(entry) => entry.height(),
            Err(error) => {
                return Err(error);
            },
        };
        if best_height < cp_height {
            let text = String::from_str("cp_height #").concat(&u64_text(cp_height as u64)).concat(
                " above best block height #",
            ).concat(&u64_text(best_height as u64));
            return Err(Error::Message(text));
        }
        let mut hashes: Vec<FullHash> = Vec::new();
        let ghost wanted = hashes_to(self.index@, cp_height as int);
        for i in 0..cp_height
            invariant
                cp_height < self.index@.len(),
                wanted == hashes_to(self.index@, cp_height as int),
                hashes@ =~= wanted.take(i as int),
        {
            hashes.push(*self.index.get_header(i).unwrap().hash());
        }
        hashes.push(*self.index.get_header(cp_height).unwrap().hash());
        assert(hashes@ =~= wanted);
        Ok(create_merkle_branch_and_root(hashes, height))
    }

    /// The transaction at a position in the block at a height, which holds the transactions
    /// `txids`, with the branch from it if that is wanted.
    pub fn get_id_from_pos(
        &self,
        height: usize,
        tx_pos: usize,
        want_merkle: bool,
        txids: Vec<Txid>,
    ) -> (id: Result<(Txid, Vec<FullHash>), Error>)
        ensures
            match id {
                Ok((txid, branch)) => id_from_pos(
                    self.index@,
                    height as int,
                    tx_pos as int,
                    want_merkle,
                    txids@,
                ) == Ok::<(Txid, Seq<FullHash>), ErrorView>((txid, branch@)),
                Err(error) => id_from_pos(
                    self.index@,
                    height as int,
                    tx_pos as int,
                    want_merkle,
                    txids@,
                ) == Err::<(Txid, Seq<FullHash>), ErrorView>(error@),
            },
    {
        if let Err(error) = self.get_block_header(height) {
            return Err(error);
        }
        if tx_pos >= txids.len() {
            let text = String::from_str("No tx in position #").concat(
                &u64_text(tx_pos as u64),
            ).concat(" in block #").concat(&u64_text(height as u64));
            return Err(Error::Message(text));
        }
        let txid = txids[tx_pos];
        let branch = if want_merkle {
            create_merkle_branch_and_root(txids, tx_pos).0
        } else {
            Vec::new()
        };
        assert(!want_merkle ==> branch@ =~= Seq::empty());
        Ok((txid, branch))
    }

    /// The transaction with this id, if it is in the mempool or has been kept.
    pub fn load_txn_from_cache(&self, tx_cache: &TransactionCache, txid: &Txid) -> (tx: Option<
        Transaction,
    >)
        requires
            self.wf(),
            tx_cache.wf(),
        ensures
            match tx {
                Some(tx) => known_tx(self.tracker@, tx_cache@, *txid) == Some(tx@),
                None => known_tx(self.tracker@, tx_cache@, *txid) is None,
            },
    {
        if let Some(tx) = self.tracker.get_txn(txid) {
            return Some(copy_transaction(tx));
        }
        tx_cache.get(txid)
    }

    /// A transaction and the block that holds it, from what the daemon says of the
    /// transaction. The transaction is kept as soon as it is read.
    pub fn load_txn_with_blockheader<F: Fn(usize) -> usize>(
        &self,
        tx_cache: &mut TransactionCache,
        txid: Txid,
        rawtx: &Json,
        draw: &F,
    ) -> (found: Result<(Transaction, Option<HeaderEntry>), Error>)
        requires
            self.wf(),
            old(tx_cache).wf(),
            forall|count: usize| call_requires(*draw, (count,)),
        ensures
            final(tx_cache).wf(),
            match raw_tx(rawtx@) {
                Ok((bytes, _)) => HASH_SIZE + bytes.len() <= usize::MAX ==> tx_kept(
                    *old(tx_cache),
                    *final(tx_cache),
                    txid,
                    bytes,
                ),
                Err(_) => *final(tx_cache) == *old(tx_cache),
            },
            match (raw_tx(rawtx@), raw_blockhash(rawtx@)) {
                (Ok((_, tx)), Ok(hash)) => found matches Ok((read, header)) && read@ == tx && header
                    == entry_of(self.index@, hash),
                (Ok(_), Err(error)) => found matches Err(e) && e@ == error,
                (Err(error), _) => found matches Err(e) && e@ == error,
            },
    {
        let txhex = match text_field(rawtx, "hex") {
            Some(text) => text,
            None => {
                return Err(Error::message("invalid tx hex from bitcoind"));
            },
        };
        let txserialized = match hex_decode(txhex) {
            Ok(bytes) => bytes,
            Err(cause) => {
                return Err(Error::caused_by("non-hex tx from bitcoind", cause));
            },
        };
        let tx = match deserialize_transaction(txserialized.as_slice()) {
            Ok(tx) => tx,
            Err(cause) => {
                return Err(Error::caused_by("failed to parse tx from bitcoind", cause));
            },
        };
        if txserialized.len() <= usize::MAX - HASH_SIZE {
            tx_cache.put_serialized(txid, txserialized, draw);
        }
        let blockhash = match text_field(rawtx, "blockhash") {
            Some(text) => match hash_from_hex(text) {
                Ok(hash) => hash,
                Err(cause) => {
                    return Err(Error::caused_by("non-hex blockhash from bitcoind", cause));
                },
            },
            None => {
                return Err(Error::message("invalid blockhash from bitcoind"));
            },
        };
        proof {
            lemma_hash_in(blockhash);
        }
        Ok((tx, self.index.get_header_by_blockhash(&blockhash)))
    }

    /// The ids of the transactions that may register an account at a height; nothing if one
    /// of the rows of the account cannot be read.
    pub fn get_cashaccount_txids(&self, name: &str, height: u32) -> (txids: Option<Vec<Txid>>)
        requires
            encode_utf8(name@).len() <= MAX_ACCOUNT_NAME,
        ensures
            txids is Some <==> accounts_readable(
                self.store.rows(),
                ascii_lowercase(encode_utf8(name@)),
                height,
            ),
            txids matches Some(txids) ==> txids@.map_values(|txid: Txid| txid@) == accounts_of(
                self.store.rows(),
                ascii_lowercase(encode_utf8(name@)),
                height,
            ),
    {
        if are_accounts_readable(self.store, name, height) {
            Some(txids_by_cashaccount(self.store, name, height))
        } else {
            None
        }
    }

    /// Those of the transactions at a height that do register the account, with the block:
    /// the hash in the key of a row may be that of another account.
    pub fn get_cashaccount_txs(&self, height: u32, txns: &Vec<Transaction>, registers: &Vec<bool>) -> (
    found: Result<Json, Error>)
        requires
            registers.len() == txns.len(),
        ensures
            if height < self.index@.len() {
                found matches Ok(json) && json@ == JsonView::Array(
                    account_txs(
                        transaction_views(txns@),
                        registers@,
                        height,
                        self.index@[height as int].hash,
                    ),
                )
            } else {
                found matches Err(error) && error@ == ErrorView::Message(
                    "missing header at height "@ + decimal(height as int),
                )
            },
    {
        let header = match self.index.get_header(height as usize) {
            Some(header) => header,
            None => {
                let text = String::from_str("missing header at height ").concat(
                    &u64_text(height as u64),
                );
                return Err(Error::Message(text));
            },
        };
        let blockhash = *header.hash();
        let ghost txs = transaction_views(txns@);
        let mut found: Vec<Json> = Vec::new();
        assert(txs.take(0) =~= Seq::empty());
        assert(item_views(found@) =~= Seq::empty());
        for i in 0..txns.len()
            invariant
                registers.len() == txns.len(),
                txs == transaction_views(txns@),
                item_views(found@) == account_txs(
                    txs.take(i as int),
                    registers@,
                    height,
                    blockhash,
                ),
        {
            assert(txs.take(i + 1).drop_last() =~= txs.take(i as int));
            assert(txs[i as int] == txns[i as int]@);
            if registers[i] {
                let ghost before = item_views(found@);
                let tx = account_tx_json(&txns[i], height, &blockhash);
                found.push(tx);
                assert(item_views(found@) =~= before.push(tx@));
            }
        }
        assert(txs.take(txs.len() as int) =~= txs);
        proof {
            lemma_array_view(found);
        }
        Ok(Json::Array(found))
    }

    /// The height and the transaction of the lowest output to a script in a store, if there is
    /// one.
    fn lowest_output<R: ReadStore>(store: &R, scripthash: FullHash) -> (first: Option<(u32, Txid)>)
        requires
            txouts_sound(store.rows(), scripthash),
        ensures
            first is Some <==> txouts_of(store.rows(), scripthash).len() > 0,
            first matches Some(first) ==> is_first_use(store.rows(), scripthash, first),
    {
        let rows = get_txouts(store, scripthash);
        let ghost outputs = txouts_of(store.rows(), scripthash);
        assert(out_fields(rows@).len() == rows.len());
        if rows.len() == 0 {
            return None;
        }
        let mut lowest: usize = 0;
        let mut height: u32 = 0;
        for i in 0..rows.len()
            invariant
                txouts_sound(store.rows(), scripthash),
                outputs == txouts_of(store.rows(), scripthash),
                out_fields(rows@) == outputs,
                i == 0 ==> lowest == 0,
                i > 0 ==> is_lowest(outputs.take(i as int), lowest as int) && height
                    == outputs[lowest as int].height(),
        {
            assert(out_fields(rows@)[i as int] == rows[i as int].fields());
            assert(outputs[i as int].wf());
            let other: u32 = rows[i].get_confirmed_height();
            let ghost before = outputs.take(i as int);
            if i == 0 || other < height {
                assert forall|j: int| 0 <= j < i implies outputs[i as int].height() < (
                #[trigger] outputs.take(i + 1)[j]).height() by {
                    assert(before[j] == outputs[j]);
                }
                lowest = i;
                height = other;
            } else {
                assert forall|j: int| 0 <= j < i implies before[j] == #[trigger] outputs.take(
                    i + 1,
                )[j] by {}
            }
        }
        assert(outputs.take(rows.len() as int) =~= outputs);
        assert(out_fields(rows@)[lowest as int] == rows[lowest as int].fields());
        proof {
            lemma_hash_in(rows[lowest as int].txid);
        }
        Some((height, *rows[lowest].get_txid()))
    }

    /// The height and the transaction of the lowest output to a script in a store; 0 and the
    /// null hash if there is none.
    pub fn get_one_tx_for_scripthash<R: ReadStore>(store: &R, scripthash: FullHash) -> (first: (
        u32,
        Txid,
    ))
        requires
            txouts_sound(store.rows(), scripthash),
        ensures
            is_first_use(store.rows(), scripthash, first),
    {
        match Query::<S>::lowest_output(store, scripthash) {
            Some(first) => first,
            None => (0, default_hash()),
        }
    }

    /// The height and the transaction of the first use of a script: its lowest output in
    /// blocks, or that in the mempool where no block holds one.
    pub fn scripthash_first_use(&self, scripthash: FullHash) -> (first: (u32, Txid))
        requires
            self.wf(),
            txouts_sound(self.store.rows(), scripthash),
        ensures
            txouts_of(self.store.rows(), scripthash).len() > 0 ==> is_first_use(
                self.store.rows(),
                scripthash,
                first,
            ),
            txouts_of(self.store.rows(), scripthash).len() == 0 ==> is_first_use(
                self.tracker.index_rows(),
                scripthash,
                first,
            ),
    {
        if let Some(first) = Query::<S>::lowest_output(self.store, scripthash) {
            return first;
        }
        let index = self.tracker.index();
        proof {
            law_mempool_rows_sound(self.tracker@, index.rows(), scripthash, null_hash(), 0);
        }
        Query::<S>::get_one_tx_for_scripthash(index, scripthash)
    }
}

/// There is one first use.
pub proof fn law_first_use_unique(
    rows: Seq<RowView>,
    scripthash: FullHash,
    a: (u32, Txid),
    b: (u32, Txid),
)
    requires
        is_first_use(rows, scripthash, a),
        is_first_use(rows, scripthash, b),
    ensures
        a == b,
{
    let outputs = txouts_of(rows, scripthash);
    if outputs.len() > 0 {
        let i = choose|i: int| #[trigger]
            is_lowest(outputs, i) && a == (outputs[i].height(), hash_in(outputs[i].txid));
        let j = choose|j: int| #[trigger]
            is_lowest(outputs, j) && b == (outputs[j].height(), hash_in(outputs[j].txid));
        assert(outputs[i].height() <= outputs[j].height());
        assert(outputs[j].height() <= outputs[i].height());
    }
}

/// No output to a script in a store lies lower than its first use there, and the first use is
/// one of them.
pub proof fn law_first_use_is_first(
    rows: Seq<RowView>,
    scripthash: FullHash,
    first: (u32, Txid),
    output: OutFields,
)
    requires
        is_first_use(rows, scripthash, first),
        txouts_of(rows, scripthash).contains(output),
    ensures
        first.0 <= output.height(),
        exists|used: OutFields| #[trigger]
            txouts_of(rows, scripthash).contains(used) && first == (used.height(), hash_in(used.txid)),
{
    let outputs = txouts_of(rows, scripthash);
    let i = choose|i: int| #[trigger]
        is_lowest(outputs, i) && first == (outputs[i].height(), hash_in(outputs[i].txid));
    let j = choose|j: int| 0 <= j < outputs.len() && outputs[j] == output;
    assert(outputs.contains(outputs[i]));
    if j < i {
        assert(outputs[i].height() < outputs[j].height());
    }
}

/// The blocks at those of the heights at which there is one.
pub open spec fn headers_at(chain: Seq<HeaderEntry>, heights: Seq<usize>) -> Seq<HeaderEntry>
    decreases heights.len(),
{
    if heights.len() == 0 {
        Seq::empty()
    } else {
        let before = headers_at(chain, heights.drop_last());
        if heights.last() < chain.len() {
            before.push(chain[heights.last() as int])
        } else {
            before
        }
    }
}

/// The first place of a transaction.
fn position(txids: &Vec<Txid>, tx_hash: &Txid) -> (place: Option<usize>)
    ensures
        match place {
            Some(place) => first_place(txids@, *tx_hash) == Some(place as int),
            None => first_place(txids@, *tx_hash) is None,
        },
{
    for i in 0..txids.len()
        invariant
            first_place(txids@.take(i as int), *tx_hash) is None,
    {
        assert(txids@.take(i + 1).drop_last() =~= txids@.take(i as int));
        if same_hash(&txids[i], tx_hash) {
            proof {
                lemma_first_place_take(txids@, *tx_hash, i + 1);
            }
            return Some(i);
        }
    }
    assert(txids@.take(txids.len() as int) =~= txids@);
    None
}

proof fn lemma_first_place_take<T>(items: Seq<T>, item: T, n: int)
    requires
        0 <= n <= items.len(),
        first_place(items.take(n), item) is Some,
    ensures
        first_place(items, item) == first_place(items.take(n), item),
    decreases items.len() - n,
{
    if n < items.len() {
        assert(items.take(n + 1).drop_last() =~= items.take(n));
        lemma_first_place_take(items, item, n + 1);
    } else {
        assert(items.take(n) =~= items);
    }
}

/// The transaction with this id, in the mempool or else among those that have been kept.
pub open spec fn known_tx(
    items: Map<Txid, ItemView>,
    held: Map<Txid, Seq<u8>>,
    txid: Txid,
) -> Option<TransactionView> {
    if items.contains_key(txid) {
        Some(items[txid].tx)
    } else {
        cached_tx(held, txid)
    }
}

/// The text in a field.
pub open spec fn text_in(value: JsonView, name: Seq<char>) -> Option<Seq<char>> {
    match value.field(name) {
        Some(field) => field.text(),
        None => None,
    }
}

/// The text in a field.
fn text_field<'j>(value: &'j Json, name: &str) -> (text: Option<&'j str>)
    ensures
        match text {
            Some(text) => text_in(value@, name@) == Some(text@),
            None => text_in(value@, name@) is None,
        },
{
    match value.get(name) {
        Some(field) => field.as_str(),
        None => None,
    }
}

/// The transaction in what the daemon says of one, with its bytes.
pub open spec fn raw_tx(rawtx: JsonView) -> Result<(Seq<u8>, TransactionView), ErrorView> {
    match text_in(rawtx, "hex"@) {
        Some(text) => match unhex(encode_utf8(text)) {
            Some(bytes) => match parsed_transaction(bytes) {
                Ok(tx) => Ok((bytes, tx)),
                Err(cause) => Err(
                    ErrorView::caused_by("failed to parse tx from bitcoind"@, cause),
                ),
            },
            None => Err(ErrorView::caused_by("non-hex tx from bitcoind"@, hex_error(text))),
        },
        None => Err(ErrorView::Message("invalid tx hex from bitcoind"@)),
    }
}

/// The block in what the daemon says of a transaction.
pub open spec fn raw_blockhash(rawtx: JsonView) -> Result<FullHash, ErrorView> {
    match text_in(rawtx, "blockhash"@) {
        Some(text) => match hash_of_text(encode_utf8(text)) {
            Some(bytes) => Ok(hash_in(bytes)),
            None => Err(
                ErrorView::caused_by("non-hex blockhash from bitcoind"@, hash_text_error(text)),
            ),
        },
        None => Err(ErrorView::Message("invalid blockhash from bitcoind"@)),
    }
}

/// A transaction that registers an account, with its block.
pub open spec fn account_tx(tx: TransactionView, height: u32, blockhash: FullHash) -> JsonView {
    JsonView::Object(
        seq![
            ("blockhash"@, JsonView::Str(hash_text(blockhash))),
            ("height"@, JsonView::Number(NumberView::Unsigned(height as u64))),
            ("tx"@, JsonView::Str(hex_text(tx.raw))),
        ],
    )
}

/// Those of the transactions that register an account, with their block.
pub open spec fn account_txs(
    txs: Seq<TransactionView>,
    registers: Seq<bool>,
    height: u32,
    blockhash: FullHash,
) -> Seq<JsonView>
    decreases txs.len(),
{
    if txs.len() == 0 {
        Seq::empty()
    } else {
        let before = account_txs(txs.drop_last(), registers, height, blockhash);
        if registers[txs.len() - 1] {
            before.push(account_tx(txs.last(), height, blockhash))
        } else {
            before
        }
    }
}

/// A transaction that registers an account, with its block.
fn account_tx_json(tx: &Transaction, height: u32, blockhash: &FullHash) -> (json: Json)
    ensures
        json@ == account_tx(tx@, height, *blockhash),
{
    let fields: Vec<(String, Json)> = vec![
        (String::from_str("blockhash"), Json::Str(hash_to_hex(blockhash))),
        (String::from_str("height"), Json::unsigned(height as u64)),
        (String::from_str("tx"), Json::Str(hex_encode(tx.raw.as_slice()))),
    ];
    proof {
        lemma_object_view(fields);
        assert(field_views(fields@) =~= account_tx(tx@, height, *blockhash)->Object_0);
    }
    Json::Object(fields)
}

/// The sum of the sizes in a histogram of fees.
pub open spec fn total_vsize(vsizes: Seq<u32>) -> nat
    decreases vsizes.len(),
{
    if vsizes.len() == 0 {
        0
    } else {
        total_vsize(vsizes.drop_last()) + vsizes.last() as nat
    }
}

/// How many bytes of transactions the given number of blocks is taken to hold: a million for
/// each.
pub open spec fn blocks_in_vbytes(blocks: usize) -> u32 {
    (blocks * 1_000_000) as usize as u32
}

/// The bucket of a histogram, by descending fee, whose fee is enough for `blocks` blocks: the
/// first up to which the sizes fill these blocks, or else the last; none if there are no
/// buckets.
pub fn fee_bucket(vsizes: &Vec<u32>, blocks: usize) -> (bucket: Option<usize>)
    requires
        blocks * 1_000_000 <= usize::MAX,
    ensures
        bucket is None <==> vsizes.len() == 0,
        bucket matches Some(i) ==> {
            &&& i < vsizes.len()
            &&& i + 1 == vsizes.len() || total_vsize(vsizes@.take(i + 1)) >= blocks_in_vbytes(blocks)
            &&& forall|j: int|
                0 < j <= i ==> total_vsize(#[trigger] vsizes@.take(j)) < blocks_in_vbytes(blocks)
        },
{
    let limit: u64 = (blocks * 1_000_000) as u32 as u64;
    let mut total: u64 = 0;
    assert(vsizes@.take(0) =~= Seq::empty());
    let mut last: Option<usize> = None;
    for i in 0..vsizes.len()
        invariant
            limit == blocks_in_vbytes(blocks),
            total == total_vsize(vsizes@.take(i as int)),
            i > 0 ==> total < limit && last == Some((i - 1) as usize),
            i == 0 ==> last is None && total == 0,
            forall|j: int| 0 < j <= i ==> total_vsize(#[trigger] vsizes@.take(j)) < limit,
    {
        assert(vsizes@.take(i + 1).drop_last() =~= vsizes@.take(i as int));
        last = Some(i);
        total = total + vsizes[i] as u64;
        if total >= limit {
            return last;
        }
    }
    last
}

/// The branch of a Merkle proof leads from the transaction to the root over all transactions.
pub proof fn law_merkle_proof_leads_to_root(
    chain: Seq<HeaderEntry>,
    tx_hash: Txid,
    height: int,
    txids: Seq<Txid>,
)
    ensures
        match merkle_proof(chain, tx_hash, height, txids) {
            Ok((branch, place)) => climb(tx_hash, place, branch) == merkle_root(txids),
            Err(_) => !txids.contains(tx_hash) || !(0 <= height < chain.len()),
        },
{
    lemma_first_place(txids, tx_hash);
    if let Some(place) = first_place(txids, tx_hash) {
        law_branch_leads_to_root(txids, place);
    }
}

/// The branch of a header's proof leads from the hash of the block at that height to the
/// root.
pub proof fn law_header_proof_leads_to_root(chain: Seq<HeaderEntry>, height: int, cp_height: int)
    requires
        0 <= height,
    ensures
        match header_merkle_proof(chain, height, cp_height) {
            Ok((branch, root)) => climb(chain[height].hash, height, branch) == root,
            Err(_) => cp_height < height || cp_height >= chain.len(),
        },
{
    if height <= cp_height < chain.len() {
        let hashes = hashes_to(chain, cp_height);
        law_branch_leads_to_root(hashes, height);
        assert(hashes[height] == chain[height].hash);
    }
}

/// The outputs that a status holds have the names of their contents.
proof fn lemma_same_outpoint(output: FundingOutput)
    ensures
        output@.outpoint() == output.outpoint(),
        output@.fields.value() == output.txout.fields().value(),
{
    lemma_hash_in(output.txout.txid);
}

/// Each input of a status spends one of its outputs.
proof fn lemma_status_spends(
    status: Status,
    items: Map<Txid, ItemView>,
    confirmed: Seq<RowView>,
    mempool: Seq<RowView>,
    scripthash: FullHash,
    i: int,
)
    requires
        is_status(status, items, confirmed, mempool, scripthash),
        0 <= i < status.all_spending().len(),
    ensures
        spends_one_of(status.all_funding(), status.all_spending()[i]),
{
    let known = funding_of(items, confirmed, scripthash);
    let waiting = funding_of(items, mempool, scripthash);
    let n = status.confirmed.0.len();
    let all = status.all_funding();
    let input = status.all_spending()[i];
    let k = if i < status.confirmed.1.len() {
        assert(spending_views(status.confirmed.1@)[i] == input@);
        law_spenders_spend(items, confirmed, known, i);
        choose|j: int|
            0 <= j < known.len() && (#[trigger] known[j]).outpoint() == input@.funding_output
                && known[j].fields.value() == input@.value
    } else {
        let m = i - status.confirmed.1.len();
        let both = waiting + known;
        assert(spending_views(status.mempool.1@)[m] == input@);
        law_spenders_spend(items, mempool, both, m);
        let j = choose|j: int|
            0 <= j < both.len() && (#[trigger] both[j]).outpoint() == input@.funding_output
                && both[j].fields.value() == input@.value;
        if j < waiting.len() {
            n + j
        } else {
            j - waiting.len()
        }
    };
    if k < n {
        assert(funding_views(status.confirmed.0@)[k] == all[k]@);
    } else {
        assert(funding_views(status.mempool.0@)[k - n] == all[k]@);
    }
    lemma_same_outpoint(all[k]);
    assert(all[k].outpoint() == input.funding_output);
}

/// The balances of a script, in blocks and in the mempool, add up to what is unspent, as long
/// as no output of it is listed twice and none is spent twice.
pub proof fn law_status_balance(
    status: Status,
    items: Map<Txid, ItemView>,
    confirmed: Seq<RowView>,
    mempool: Seq<RowView>,
    scripthash: FullHash,
    unspent: Seq<FundingOutput>,
)
    requires
        is_status(status, items, confirmed, mempool, scripthash),
        distinct_outputs(status.all_funding()),
        distinct_spends(status.all_spending()),
        is_unspent(unspent, unspent_map(status.all_funding(), status.all_spending())),
    ensures
        (funded(status.confirmed.0@) - spent(status.confirmed.1@)) + (funded(status.mempool.0@)
            - spent(status.mempool.1@)) == funded(unspent),
{
    let (funding, spending) = (status.all_funding(), status.all_spending());
    assert forall|i: int| 0 <= i < spending.len() implies spends_one_of(
        funding,
        #[trigger] spending[i],
    ) by {
        lemma_status_spends(status, items, confirmed, mempool, scripthash, i);
    }
    law_balance_is_unspent(funding, spending, unspent);
    lemma_funded_concat(status.confirmed.0@, status.mempool.0@);
    lemma_spent_concat(status.confirmed.1@, status.mempool.1@);
}

} // verus!
