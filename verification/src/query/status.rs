//! What is paid to a script and what is spent of it: its balance, its history and what is left
//! unspent.

use crate::chain::OutPoint;
use crate::db::encoding::{InFields, OutFields};
use crate::db::inputs::TxInRow;
use crate::db::outputs::TxOutRow;
use crate::hashes::{
    bytes_less, hash_in, hash_text, hash_to_hex, lemma_lex_total, lemma_lex_transitive, lex_less, sha256,
    sha256_digest, FullHash, Txid, MAX_DIGEST_INPUT,
};
use crate::sort::sort;
use crate::table::{lists, Table};
use crate::text::{decimal, lemma_ascii_len, lemma_decimal, number_text};
use vstd::prelude::*;
use vstd::relations::sorted_by;
use vstd::utf8::*;

verus! {

/// How far a transaction has got.
#[derive(Clone, Copy, Debug, PartialEq, Eq, Structural)]
pub enum ConfirmationState {
    /// It is in a block.
    Confirmed,
    /// It waits for a block, and spends confirmed outputs only.
    InMempool,
    /// It waits for a block together with a transaction that it spends from.
    UnconfirmedParent,
}

/// An output that pays to a script.
pub struct FundingOutput {
    pub txout: TxOutRow,
    pub state: ConfirmationState,
}

/// The contents of a [`FundingOutput`].
#[verifier::ext_equal]
pub struct FundingView {
    pub fields: OutFields,
    pub state: ConfirmationState,
}

impl View for FundingOutput {
    type V = FundingView;

    open spec fn view(&self) -> FundingView {
        FundingView { fields: self.txout.fields(), state: self.state }
    }
}

impl FundingView {
    /// The output, named by its transaction and position.
    pub open spec fn outpoint(self) -> OutPoint {
        OutPoint { txid: hash_in(self.fields.txid), vout: self.fields.index() }
    }
}

/// The contents of each output of a vector.
pub open spec fn funding_views(funding: Seq<FundingOutput>) -> Seq<FundingView> {
    funding.map_values(|output: FundingOutput| output@)
}

impl FundingOutput {
    /// The numbers of the row can be read.
    pub open spec fn wf(self) -> bool {
        self.txout.fields().wf()
    }

    /// The output, named by its transaction and position.
    pub open spec fn outpoint(self) -> OutPoint {
        OutPoint { txid: self.txout.txid, vout: self.txout.fields().index() }
    }

    /// The value of the output.
    pub fn value(&self) -> (value: u64)
        requires
            self.wf(),
        ensures
            value == self.txout.fields().value(),
    {
        self.txout.get_output_value()
    }

    /// The height at which the output was confirmed.
    pub fn height(&self) -> (height: u32)
        requires
            self.wf(),
        ensures
            height == self.txout.fields().height(),
    {
        self.txout.get_confirmed_height()
    }

    /// The transaction of the output.
    pub fn txid(&self) -> (txid: &Txid)
        ensures
            *txid == self.txout.txid,
    {
        self.txout.get_txid()
    }

    /// The position of the output in its transaction.
    pub fn output_index(&self) -> (index: u32)
        requires
            self.wf(),
        ensures
            index == self.txout.fields().index(),
    {
        self.txout.get_output_index()
    }
}

/// An input that spends an output, and the value of that output.
pub struct SpendingInput {
    pub txin: TxInRow,
    pub funding_output: OutPoint,
    pub value: u64,
    pub state: ConfirmationState,
}

/// The contents of a [`SpendingInput`].
#[verifier::ext_equal]
pub struct SpendingView {
    pub fields: InFields,
    pub funding_output: OutPoint,
    pub value: u64,
    pub state: ConfirmationState,
}

impl View for SpendingInput {
    type V = SpendingView;

    open spec fn view(&self) -> SpendingView {
        SpendingView {
            fields: self.txin.fields(),
            funding_output: self.funding_output,
            value: self.value,
            state: self.state,
        }
    }
}

/// The contents of each input of a vector.
pub open spec fn spending_views(spending: Seq<SpendingInput>) -> Seq<SpendingView> {
    spending.map_values(|input: SpendingInput| input@)
}

impl SpendingInput {
    /// The numbers of the row can be read.
    pub open spec fn wf(self) -> bool {
        self.txin.fields().wf()
    }

    /// The height at which the input was confirmed.
    pub fn height(&self) -> (height: u32)
        requires
            self.wf(),
        ensures
            height == self.txin.fields().height(),
    {
        self.txin.get_confirmed_height()
    }

    /// The transaction of the input.
    pub fn txid(&self) -> (txid: &Txid)
        ensures
            *txid == self.txin.txid,
    {
        self.txin.get_txid()
    }
}

/// What is paid to a script and what is spent of it, in blocks and in the mempool.
pub struct Status {
    pub confirmed: (Vec<FundingOutput>, Vec<SpendingInput>),
    pub mempool: (Vec<FundingOutput>, Vec<SpendingInput>),
}

/// The sum of the values of the outputs.
pub open spec fn funded(funding: Seq<FundingOutput>) -> nat
    decreases funding.len(),
{
    if funding.len() == 0 {
        0
    } else {
        funded(funding.drop_last()) + funding.last().txout.fields().value() as nat
    }
}

/// The sum of the values of what the inputs spend.
pub open spec fn spent(spending: Seq<SpendingInput>) -> nat
    decreases spending.len(),
{
    if spending.len() == 0 {
        0
    } else {
        spent(spending.drop_last()) + spending.last().value as nat
    }
}

proof fn lemma_funded_grows(funding: Seq<FundingOutput>, n: int)
    requires
        0 <= n <= funding.len(),
    ensures
        funded(funding.take(n)) <= funded(funding),
    decreases funding.len() - n,
{
    if n < funding.len() {
        assert(funding.take(n + 1).drop_last() =~= funding.take(n));
        lemma_funded_grows(funding, n + 1);
    } else {
        assert(funding.take(n) =~= funding);
    }
}

proof fn lemma_spent_grows(spending: Seq<SpendingInput>, n: int)
    requires
        0 <= n <= spending.len(),
    ensures
        spent(spending.take(n)) <= spent(spending),
    decreases spending.len() - n,
{
    if n < spending.len() {
        assert(spending.take(n + 1).drop_last() =~= spending.take(n));
        lemma_spent_grows(spending, n + 1);
    } else {
        assert(spending.take(n) =~= spending);
    }
}

/// The outputs can be read, and the balance can be held: each sum in an unsigned number, and
/// the difference of the two, taken as signed numbers, in a signed one.
pub open spec fn has_balance(status: (Vec<FundingOutput>, Vec<SpendingInput>)) -> bool {
    &&& forall|i: int| 0 <= i < status.0.len() ==> (#[trigger] status.0[i]).wf()
    &&& funded(status.0@) <= u64::MAX
    &&& spent(status.1@) <= u64::MAX
    &&& i64::MIN <= (funded(status.0@) as u64 as i64) - (spent(status.1@) as u64 as i64)
        <= i64::MAX
}

/// The values of the outputs less those of what is spent.
pub fn calc_balance(status: &(Vec<FundingOutput>, Vec<SpendingInput>)) -> (balance: i64)
    requires
        has_balance(*status),
    ensures
        balance == (funded(status.0@) as u64 as i64) - (spent(status.1@) as u64 as i64),
        funded(status.0@) <= i64::MAX && spent(status.1@) <= i64::MAX ==> balance == funded(
            status.0@,
        ) - spent(status.1@),
{
    let mut total_funded: u64 = 0;
    assert(status.0@.take(0) =~= Seq::empty());
    for i in 0..status.0.len()
        invariant
            has_balance(*status),
            total_funded == funded(status.0@.take(i as int)),
    {
        assert(status.0@.take(i + 1).drop_last() =~= status.0@.take(i as int));
        proof {
            lemma_funded_grows(status.0@, i + 1);
        }
        total_funded = total_funded + status.0[i].value();
    }
    assert(status.0@.take(status.0.len() as int) =~= status.0@);
    let mut total_spent: u64 = 0;
    assert(status.1@.take(0) =~= Seq::empty());
    for i in 0..status.1.len()
        invariant
            has_balance(*status),
            total_spent == spent(status.1@.take(i as int)),
    {
        assert(status.1@.take(i + 1).drop_last() =~= status.1@.take(i as int));
        proof {
            lemma_spent_grows(status.1@, i + 1);
        }
        total_spent = total_spent + status.1[i].value;
    }
    assert(status.1@.take(status.1.len() as int) =~= status.1@);
    total_funded as i64 - total_spent as i64
}

/// The height at which a transaction is shown: that of its block, 0 in the mempool, and -1 in
/// the mempool together with a transaction that it spends from.
pub open spec fn shown_height(state: ConfirmationState, height: u32) -> i32 {
    match state {
        ConfirmationState::Confirmed => height as i32,
        ConfirmationState::InMempool => 0,
        ConfirmationState::UnconfirmedParent => (-1) as i32,
    }
}

/// The height at which a transaction is shown.
fn height_shown(state: ConfirmationState, height: u32) -> (shown: i32)
    ensures
        shown == shown_height(state, height),
{
    match state {
        ConfirmationState::Confirmed => height as i32,
        ConfirmationState::InMempool => 0,
        ConfirmationState::UnconfirmedParent => -1,
    }
}

/// The height at which each transaction that pays to the script is shown.
pub open spec fn funding_heights(funding: Seq<FundingOutput>) -> Map<Txid, i32>
    decreases funding.len(),
{
    if funding.len() == 0 {
        Map::empty()
    } else {
        let f = funding.last();
        funding_heights(funding.drop_last()).insert(
            f.txout.txid,
            shown_height(f.state, f.txout.fields().height()),
        )
    }
}

/// The same, with the transactions that spend from the script.
pub open spec fn tx_heights(funding: Seq<FundingOutput>, spending: Seq<SpendingInput>) -> Map<
    Txid,
    i32,
>
    decreases spending.len(),
{
    if spending.len() == 0 {
        funding_heights(funding)
    } else {
        let s = spending.last();
        tx_heights(funding, spending.drop_last()).insert(
            s.txin.txid,
            shown_height(s.state, s.txin.fields().height()),
        )
    }
}

/// By which height a transaction takes its place in a history: those in the mempool come
/// behind every block up to this height.
pub open spec fn placing_height(height: i32) -> int {
    if height > 0 {
        height as int
    } else {
        0xEE_EEEE - height
    }
}

/// By which height a transaction takes its place in a history.
fn height_placing(height: i32) -> (placing: i64)
    ensures
        placing == placing_height(height),
{
    if height > 0 {
        height as i64
    } else {
        0xEE_EEEE - height as i64
    }
}

/// The order of a history: by placing height, and at the same height by descending bytes of
/// the transaction id. Where a block stands at the placing height of the mempool, it comes
/// first.
pub open spec fn history_order(a: (i32, Txid), b: (i32, Txid)) -> bool {
    if a.0 == b.0 {
        !lex_less(a.1@, b.1@)
    } else if placing_height(a.0) == placing_height(b.0) {
        a.0 > b.0
    } else {
        placing_height(a.0) < placing_height(b.0)
    }
}

/// The order of a history.
fn history_before(a: (i32, Txid), b: (i32, Txid)) -> (before: bool)
    ensures
        before == history_order(a, b),
{
    if a.0 == b.0 {
        !bytes_less(a.1.as_slice(), b.1.as_slice())
    } else {
        let (x, y) = (height_placing(a.0), height_placing(b.0));
        if x == y {
            a.0 > b.0
        } else {
            x < y
        }
    }
}

proof fn lemma_history_order()
    ensures
        crate::sort::total_preorder(|a: (i32, Txid), b: (i32, Txid)| history_order(a, b)),
{
    let leq = |a: (i32, Txid), b: (i32, Txid)| history_order(a, b);
    assert forall|a: (i32, Txid), b: (i32, Txid)| #[trigger] leq(a, b) || leq(b, a) by {
        lemma_lex_total(a.1@, b.1@);
    }
    assert forall|a: (i32, Txid), b: (i32, Txid), c: (i32, Txid)| #[trigger]
        leq(a, b) && #[trigger] leq(b, c) implies leq(a, c) by {
        lemma_lex_total(a.1@, b.1@);
        lemma_lex_total(b.1@, c.1@);
        lemma_lex_total(a.1@, c.1@);
        if lex_less(c.1@, b.1@) && lex_less(b.1@, a.1@) {
            lemma_lex_transitive(c.1@, b.1@, a.1@);
        }
    }
}

/// The entries of a history as transactions with their heights.
pub open spec fn history_pairs(history: Seq<(i32, Txid)>) -> Seq<(Txid, i32)> {
    history.map_values(|entry: (i32, Txid)| (entry.1, entry.0))
}

/// `history` holds each transaction once, at its height, in the order of a history.
pub open spec fn is_history(history: Seq<(i32, Txid)>, heights: Map<Txid, i32>) -> bool {
    &&& lists(history_pairs(history), heights)
    &&& sorted_by(history, |a: (i32, Txid), b: (i32, Txid)| history_order(a, b))
}

/// The history of the transactions with these heights.
pub open spec fn history_of(heights: Map<Txid, i32>) -> Seq<(i32, Txid)> {
    choose|history: Seq<(i32, Txid)>| is_history(history, heights)
}

/// Whatever lists a map lists it in any order.
proof fn lemma_lists_permuted<T, K, V>(
    a: Seq<T>,
    b: Seq<T>,
    f: spec_fn(T) -> (K, V),
    map: Map<K, V>,
)
    requires
        a.to_multiset() == b.to_multiset(),
        lists(a.map_values(f), map),
    ensures
        lists(b.map_values(f), map),
{
    broadcast use vstd::seq_lib::to_multiset_contains;

    let (p, q) = (a.map_values(f), b.map_values(f));
    assert(a.no_duplicates()) by {
        assert forall|i: int, j: int| 0 <= i < a.len() && 0 <= j < a.len() && i != j implies a[i]
            != a[j] by {
            if i < j {
                assert(p[i].0 != p[j].0);
            } else {
                assert(p[j].0 != p[i].0);
            }
        }
    }
    a.lemma_multiset_has_no_duplicates();
    b.lemma_multiset_has_no_duplicates_conv();
    assert forall|i: int| 0 <= i < q.len() implies a.contains(b[i]) by {
        assert(b.contains(b[i]));
        assert(b.to_multiset().contains(b[i]));
    }
    assert forall|i: int| 0 <= i < q.len() implies map.contains_pair(
        (#[trigger] q[i]).0,
        q[i].1,
    ) by {
        let k = choose|k: int| 0 <= k < a.len() && a[k] == b[i];
        assert(p[k] == q[i]);
    }
    assert forall|key: K| #[trigger] map.contains_key(key) implies q.contains((key, map[key])) by {
        let k = choose|k: int| 0 <= k < p.len() && p[k] == (key, map[key]);
        assert(a.contains(a[k]));
        assert(a.to_multiset().contains(a[k]));
        assert(b.contains(a[k]));
        let m = choose|m: int| 0 <= m < b.len() && b[m] == a[k];
        assert(q[m] == (key, map[key]));
    }
    assert forall|i: int, j: int| 0 <= i < j < q.len() implies (#[trigger] q[i]).0 != (
    #[trigger] q[j]).0 by {
        assert(b[i] != b[j]);
        let k = choose|k: int| 0 <= k < a.len() && a[k] == b[i];
        let l = choose|l: int| 0 <= l < a.len() && a[l] == b[j];
        assert(p[k] == q[i] && p[l] == q[j]);
        if k < l {
            assert(p[k].0 != p[l].0);
        } else {
            assert(p[l].0 != p[k].0);
        }
    }
}

/// The references of a vector, as the values that they refer to.
pub open spec fn targets<T>(refs: Seq<&T>) -> Seq<T> {
    refs.map_values(|r: &T| *r)
}

/// References to the items of two vectors, the ones of the first before those of the second.
fn chain<'a, T>(first: &'a Vec<T>, second: &'a Vec<T>) -> (refs: Vec<&'a T>)
    ensures
        targets(refs@) == first@ + second@,
{
    let mut refs: Vec<&'a T> = Vec::new();
    for i in 0..first.len()
        invariant
            targets(refs@) =~= first@.take(i as int),
    {
        let ghost before = targets(refs@);
        refs.push(&first[i]);
        assert(targets(refs@) =~= before.push(first[i as int]));
    }
    for i in 0..second.len()
        invariant
            targets(refs@) =~= first@ + second@.take(i as int),
    {
        let ghost before = targets(refs@);
        refs.push(&second[i]);
        assert(targets(refs@) =~= before.push(second[i as int]));
    }
    assert(second@.take(second.len() as int) =~= second@);
    refs
}

impl Status {
    /// All outputs that pay to the script.
    pub open spec fn all_funding(&self) -> Seq<FundingOutput> {
        self.confirmed.0@ + self.mempool.0@
    }

    /// All inputs that spend from the script.
    pub open spec fn all_spending(&self) -> Seq<SpendingInput> {
        self.confirmed.1@ + self.mempool.1@
    }

    /// The numbers of every row can be read.
    pub open spec fn wf(&self) -> bool {
        &&& forall|i: int|
            0 <= i < self.all_funding().len() ==> (#[trigger] self.all_funding()[i]).wf()
        &&& forall|i: int|
            0 <= i < self.all_spending().len() ==> (#[trigger] self.all_spending()[i]).wf()
    }

    /// The height at which each transaction of the script is shown.
    pub open spec fn heights(&self) -> Map<Txid, i32> {
        tx_heights(self.all_funding(), self.all_spending())
    }

    /// The hash of the history; none if there is no history.
    pub open spec fn spec_hash(&self) -> Option<FullHash> {
        if self.heights() == Map::<Txid, i32>::empty() {
            None
        } else {
            Some(sha256(history_bytes(history_of(self.heights()))))
        }
    }

    /// All outputs that pay to the script.
    fn funding(&self) -> (funding: Vec<&FundingOutput>)
        ensures
            targets(funding@) == self.all_funding(),
    {
        chain(&self.confirmed.0, &self.mempool.0)
    }

    /// All inputs that spend from the script.
    fn spending(&self) -> (spending: Vec<&SpendingInput>)
        ensures
            targets(spending@) == self.all_spending(),
    {
        chain(&self.confirmed.1, &self.mempool.1)
    }

    /// What the script has in blocks.
    pub fn confirmed_balance(&self) -> (balance: i64)
        requires
            has_balance(self.confirmed),
        ensures
            balance == (funded(self.confirmed.0@) as u64 as i64) - (spent(
                self.confirmed.1@,
            ) as u64 as i64),
            funded(self.confirmed.0@) <= i64::MAX && spent(self.confirmed.1@) <= i64::MAX
                ==> balance == funded(self.confirmed.0@) - spent(self.confirmed.1@),
    {
        calc_balance(&self.confirmed)
    }

    /// By how much the mempool changes what the script has.
    pub fn mempool_balance(&self) -> (balance: i64)
        requires
            has_balance(self.mempool),
        ensures
            balance == (funded(self.mempool.0@) as u64 as i64) - (spent(
                self.mempool.1@,
            ) as u64 as i64),
            funded(self.mempool.0@) <= i64::MAX && spent(self.mempool.1@) <= i64::MAX ==> balance
                == funded(self.mempool.0@) - spent(self.mempool.1@),
    {
        calc_balance(&self.mempool)
    }

    /// The transactions that pay to the script or spend from it, each once, with the heights
    /// at which they are shown: those in blocks before those in the mempool.
    pub fn history(&self) -> (history: Vec<(i32, Txid)>)
        requires
            self.wf(),
        ensures
            is_history(history@, self.heights()),
            history@ == history_of(self.heights()),
    {
        let mut txns_map: Table<Txid, i32> = Table::new();
        let funding = self.funding();
        let ghost all_funding = self.all_funding();
        assert(all_funding.take(0) =~= Seq::empty());
        for i in 0..funding.len()
            invariant
                self.wf(),
                all_funding == self.all_funding(),
                targets(funding@) == all_funding,
                txns_map.wf(),
                txns_map@ == funding_heights(all_funding.take(i as int)),
        {
            let f = funding[i];
            assert(targets(funding@)[i as int] == *f);
            assert(all_funding[i as int].wf());
            assert(all_funding.take(i + 1).drop_last() =~= all_funding.take(i as int));
            txns_map.insert(*f.txid(), height_shown(f.state, f.height()));
        }
        assert(all_funding.take(all_funding.len() as int) =~= all_funding);
        let spending = self.spending();
        let ghost all_spending = self.all_spending();
        assert(all_spending.take(0) =~= Seq::empty());
        for i in 0..spending.len()
            invariant
                self.wf(),
                all_spending == self.all_spending(),
                targets(spending@) == all_spending,
                txns_map.wf(),
                txns_map@ == tx_heights(all_funding, all_spending.take(i as int)),
        {
            let s = spending[i];
            assert(targets(spending@)[i as int] == *s);
            assert(all_spending[i as int].wf());
            assert(all_spending.take(i + 1).drop_last() =~= all_spending.take(i as int));
            txns_map.insert(*s.txid(), height_shown(s.state, s.height()));
        }
        assert(all_spending.take(all_spending.len() as int) =~= all_spending);
        let pairs = txns_map.pairs();
        let mut txns: Vec<(i32, Txid)> = Vec::new();
        for i in 0..pairs.len()
            invariant
                history_pairs(txns@) =~= pairs@.take(i as int),
        {
            let ghost before = history_pairs(txns@);
            txns.push((pairs[i].1, pairs[i].0));
            assert(history_pairs(txns@) =~= before.push(pairs@[i as int]));
        }
        assert(pairs@.take(pairs.len() as int) =~= pairs@);
        let before = |a: (i32, Txid), b: (i32, Txid)| -> (before: bool)
            ensures
                before == history_order(a, b),
            { history_before(a, b) };
        proof {
            lemma_history_order();
        }
        let ghost unsorted = txns@;
        let sorted = sort(
            txns,
            &before,
            Ghost(|a: (i32, Txid), b: (i32, Txid)| history_order(a, b)),
        );
        proof {
            lemma_lists_permuted(
                unsorted,
                sorted@,
                |entry: (i32, Txid)| (entry.1, entry.0),
                self.heights(),
            );
            assert(is_history(sorted@, self.heights()));
            law_history_unique(sorted@, history_of(self.heights()), self.heights());
        }
        sorted
    }

    /// The outputs to the script that no input spends, by ascending height.
    pub fn unspent(&self) -> (unspent: Vec<&FundingOutput>)
        requires
            self.wf(),
        ensures
            is_unspent(targets(unspent@), unspent_map(self.all_funding(), self.all_spending())),
    {
        let mut outputs_map: Table<OutPoint, usize> = Table::new();
        let funding = self.funding();
        let ghost all = self.all_funding();
        assert(all.take(0) =~= Seq::empty());
        for i in 0..funding.len()
            invariant
                self.wf(),
                all == self.all_funding(),
                targets(funding@) == all,
                outputs_map.wf(),
                stands_for(outputs_map@, outputs_by_place(all.take(i as int)), all),
        {
            let f = funding[i];
            assert(targets(funding@)[i as int] == *f);
            assert(all[i as int].wf());
            assert(all.take(i + 1).drop_last() =~= all.take(i as int));
            outputs_map.insert(OutPoint { txid: *f.txid(), vout: f.output_index() }, i);
        }
        assert(all.take(all.len() as int) =~= all);
        let spending = self.spending();
        let ghost all_spending = self.all_spending();
        assert(all_spending.take(0) =~= Seq::empty());
        for i in 0..spending.len()
            invariant
                all_spending == self.all_spending(),
                targets(spending@) == all_spending,
                outputs_map.wf(),
                stands_for(outputs_map@, unspent_map(all, all_spending.take(i as int)), all),
        {
            assert(targets(spending@)[i as int] == *spending[i as int]);
            assert(all_spending.take(i + 1).drop_last() =~= all_spending.take(i as int));
            outputs_map.remove(&spending[i].funding_output);
        }
        assert(all_spending.take(all_spending.len() as int) =~= all_spending);
        let ghost map = unspent_map(all, all_spending);
        let pairs = outputs_map.pairs();
        let mut items: Vec<(u32, usize)> = Vec::new();
        for i in 0..pairs.len()
            invariant
                self.wf(),
                all == self.all_funding(),
                targets(funding@) == all,
                lists(pairs@, outputs_map@),
                stands_for(outputs_map@, map, all),
                items.len() == i,
                forall|j: int|
                    0 <= j < i ==> (#[trigger] items[j]).1 == pairs[j].1 && items[j].0
                        == all[items[j].1 as int].txout.fields().height(),
        {
            let place: usize = pairs[i].1;
            assert(outputs_map@.contains_pair(pairs[i as int].0, pairs[i as int].1));
            assert(targets(funding@)[place as int] == *funding[place as int]);
            assert(all[place as int].wf());
            items.push((funding[place].height(), place));
        }
        let ghost entry = |item: (u32, usize)| (all[item.1 as int].outpoint(), all[item.1 as int]);
        proof {
            lemma_stands_for_lists(pairs@, items@, outputs_map@, map, all, entry);
        }
        let before = |a: (u32, usize), b: (u32, usize)| -> (before: bool)
            ensures
                before == (a.0 <= b.0),
            { a.0 <= b.0 };
        let ghost unsorted = items@;
        let ghost leq = |a: (u32, usize), b: (u32, usize)| a.0 <= b.0;
        let sorted = sort(items, &before, Ghost(leq));
        proof {
            lemma_lists_permuted(unsorted, sorted@, entry, map);
        }
        assert forall|j: int| 0 <= j < sorted.len() implies (#[trigger] sorted[j]).1 < all.len()
            && sorted[j].0 == all[sorted[j].1 as int].txout.fields().height() by {
            broadcast use vstd::seq_lib::to_multiset_contains;

            assert(sorted@.contains(sorted[j]));
            assert(unsorted.to_multiset().contains(sorted[j]));
            let k = choose|k: int| 0 <= k < unsorted.len() && unsorted[k] == sorted[j];
            assert(outputs_map@.contains_pair(pairs[k].0, pairs[k].1));
        }
        let mut outputs: Vec<&FundingOutput> = Vec::new();
        for i in 0..sorted.len()
            invariant
                targets(funding@) == all,
                forall|j: int| 0 <= j < sorted.len() ==> (#[trigger] sorted[j]).1 < all.len(),
                outputs.len() == i,
                forall|j: int|
                    0 <= j < i ==> *(#[trigger] outputs[j]) == all[sorted[j].1 as int],
        {
            assert(sorted[i as int].1 < all.len());
            assert(targets(funding@)[sorted[i as int].1 as int] == *funding[sorted[i as int].1 as int]);
            outputs.push(funding[sorted[i].1]);
        }
        assert(by_outpoint(targets(outputs@)) =~= sorted@.map_values(entry));
        assert forall|i: int, j: int| 0 <= i < j < outputs.len() implies (
        #[trigger] targets(outputs@)[i]).txout.fields().height() <= (
        #[trigger] targets(outputs@)[j]).txout.fields().height() by {
            assert(*outputs[i] == all[sorted[i].1 as int]);
            assert(*outputs[j] == all[sorted[j].1 as int]);
            assert(leq(sorted@[i], sorted@[j]));
            assert(sorted[i].0 <= sorted[j].0);
        }
        outputs
    }

    /// The hash of the history, by which a wallet sees that it has changed: none if there is
    /// no history.
    pub fn hash(&self) -> (hash: Option<FullHash>)
        requires
            self.wf(),
            (self.all_funding().len() + self.all_spending().len()) * MAX_PART <= MAX_DIGEST_INPUT,
        ensures
            hash is None <==> self.heights() == Map::<Txid, i32>::empty(),
            hash is Some ==> hash == Some(sha256(history_bytes(history_of(self.heights())))),
            hash == self.spec_hash(),
    {
        let txns = self.history();
        proof {
            lemma_heights_count(self.all_funding(), self.all_spending());
            lemma_lists_len(history_pairs(txns@), self.heights());
        }
        if txns.is_empty() {
            assert(self.heights() =~= Map::empty());
            return None;
        }
        assert(self.heights().contains_key(history_pairs(txns@)[0].0));
        let mut data: Vec<u8> = Vec::new();
        assert(txns@.take(0) =~= Seq::empty());
        for i in 0..txns.len()
            invariant
                data@ == history_bytes(txns@.take(i as int)),
                data.len() <= i * MAX_PART,
        {
            let mut part = hash_to_hex(&txns[i].1);
            part.append(":");
            part.append(number_text(txns[i].0 as i64).as_str());
            part.append(":");
            proof {
                reveal_strlit(":");
                assert(part@ =~= history_part(txns[i as int]));
                lemma_part_len(txns[i as int]);
                assert(txns@.take(i + 1).drop_last() =~= txns@.take(i as int));
            }
            data.extend_from_slice(part.as_str().as_bytes());
        }
        assert(txns@.take(txns.len() as int) =~= txns@);
        assert(data.len() <= MAX_DIGEST_INPUT);
        Some(sha256_digest(data.as_slice()))
    }
}

/// The most bytes that an entry of a history takes in what is hashed.
pub const MAX_PART: u64 = 86;

/// How an entry of a history is written before it is hashed.
pub open spec fn history_part(entry: (i32, Txid)) -> Seq<char> {
    hash_text(entry.1) + seq![':'] + decimal(entry.0 as int) + seq![':']
}

/// The bytes of a history that are hashed.
pub open spec fn history_bytes(history: Seq<(i32, Txid)>) -> Seq<u8>
    decreases history.len(),
{
    if history.len() == 0 {
        Seq::empty()
    } else {
        history_bytes(history.drop_last()) + encode_utf8(history_part(history.last()))
    }
}

proof fn lemma_part_len(entry: (i32, Txid))
    ensures
        encode_utf8(history_part(entry)).len() <= MAX_PART,
{
    lemma_decimal(entry.0 as i64);
    assert(is_ascii_chars(hash_text(entry.1)));
    assert(is_ascii_chars(history_part(entry)));
    lemma_ascii_len(history_part(entry));
}

/// A map whose keys are listed once each has as many keys as the list has entries.
proof fn lemma_lists_len<K, V>(pairs: Seq<(K, V)>, map: Map<K, V>)
    requires
        lists(pairs, map),
    ensures
        map.dom().finite(),
        map.dom().len() == pairs.len(),
{
    let keys = pairs.map_values(|pair: (K, V)| pair.0);
    assert(keys.no_duplicates()) by {
        assert forall|i: int, j: int| 0 <= i < keys.len() && 0 <= j < keys.len() && i != j implies
            keys[i] != keys[j] by {
            if i < j {
                assert(pairs[i].0 != pairs[j].0);
            } else {
                assert(pairs[j].0 != pairs[i].0);
            }
        }
    }
    keys.unique_seq_to_set();
    assert(keys.to_set() =~= map.dom()) by {
        assert forall|key: K| keys.contains(key) implies map.contains_key(key) by {
            let i = choose|i: int| 0 <= i < keys.len() && keys[i] == key;
            assert(map.contains_pair(pairs[i].0, pairs[i].1));
        }
        assert forall|key: K| map.contains_key(key) implies keys.contains(key) by {
            let i = choose|i: int| 0 <= i < pairs.len() && pairs[i] == (key, map[key]);
            assert(keys[i] == key);
        }
    }
}

/// There are no more transactions than outputs and inputs.
proof fn lemma_heights_count(funding: Seq<FundingOutput>, spending: Seq<SpendingInput>)
    ensures
        tx_heights(funding, spending).dom().finite(),
        tx_heights(funding, spending).dom().len() <= funding.len() + spending.len(),
    decreases funding.len() + spending.len(),
{
    if spending.len() > 0 {
        lemma_heights_count(funding, spending.drop_last());
    } else if funding.len() > 0 {
        lemma_heights_count(funding.drop_last(), spending);
    }
}

/// A history is determined by the heights of its transactions.
pub proof fn law_history_unique(
    a: Seq<(i32, Txid)>,
    b: Seq<(i32, Txid)>,
    heights: Map<Txid, i32>,
)
    requires
        is_history(a, heights),
        is_history(b, heights),
    ensures
        a == b,
{
    let leq = |x: (i32, Txid), y: (i32, Txid)| history_order(x, y);
    lemma_history_order();
    assert(vstd::relations::total_ordering(leq)) by {
        assert forall|x: (i32, Txid)| #[trigger] leq(x, x) by {
            lemma_lex_total(x.1@, x.1@);
        }
        assert forall|x: (i32, Txid), y: (i32, Txid)| #[trigger] leq(x, y) && #[trigger] leq(
            y,
            x,
        ) implies x == y by {
            lemma_lex_total(x.1@, y.1@);
            crate::hashes::lemma_hash_eq(x.1, y.1);
        }
    }
    assert(a.to_multiset() =~= b.to_multiset()) by {
        broadcast use vstd::seq_lib::to_multiset_contains;

        lemma_history_entries(a, heights);
        lemma_history_entries(b, heights);
        a.lemma_multiset_has_no_duplicates();
        b.lemma_multiset_has_no_duplicates();
        assert forall|entry: (i32, Txid)| #[trigger]
            a.to_multiset().count(entry) == b.to_multiset().count(entry) by {
            assert(a.contains(entry) <==> b.contains(entry));
            assert(a.to_multiset().contains(entry) <==> b.to_multiset().contains(entry));
        }
    }
    vstd::seq_lib::lemma_sorted_unique(a, b, leq);
}

pub(crate) proof fn lemma_history_entries(history: Seq<(i32, Txid)>, heights: Map<Txid, i32>)
    requires
        is_history(history, heights),
    ensures
        history.no_duplicates(),
        forall|entry: (i32, Txid)| #[trigger]
            history.contains(entry) <==> heights.contains_pair(entry.1, entry.0),
{
    let pairs = history_pairs(history);
    assert forall|i: int, j: int|
        0 <= i < history.len() && 0 <= j < history.len() && i != j implies history[i]
        != history[j] by {
        if i < j {
            assert(pairs[i].0 != pairs[j].0);
        } else {
            assert(pairs[j].0 != pairs[i].0);
        }
    }
    assert forall|entry: (i32, Txid)| #[trigger] history.contains(entry) implies
        heights.contains_pair(entry.1, entry.0) by {
        let i = choose|i: int| 0 <= i < history.len() && history[i] == entry;
        assert(heights.contains_pair(pairs[i].0, pairs[i].1));
    }
    assert forall|entry: (i32, Txid)| heights.contains_pair(entry.1, entry.0) implies
        #[trigger] history.contains(entry) by {
        assert(heights.contains_key(entry.1));
        let i = choose|i: int| 0 <= i < pairs.len() && pairs[i] == (entry.1, heights[entry.1]);
        assert(history[i] == entry);
    }
}

/// The outputs, each under its name; of two with the same name the later one.
pub open spec fn outputs_by_place(funding: Seq<FundingOutput>) -> Map<OutPoint, FundingOutput>
    decreases funding.len(),
{
    if funding.len() == 0 {
        Map::empty()
    } else {
        outputs_by_place(funding.drop_last()).insert(funding.last().outpoint(), funding.last())
    }
}

/// The outputs without those that an input spends.
pub open spec fn unspent_map(funding: Seq<FundingOutput>, spending: Seq<SpendingInput>) -> Map<
    OutPoint,
    FundingOutput,
>
    decreases spending.len(),
{
    if spending.len() == 0 {
        outputs_by_place(funding)
    } else {
        unspent_map(funding, spending.drop_last()).remove(spending.last().funding_output)
    }
}

/// The outputs with their names.
pub open spec fn by_outpoint(outputs: Seq<FundingOutput>) -> Seq<(OutPoint, FundingOutput)> {
    outputs.map_values(|output: FundingOutput| (output.outpoint(), output))
}

/// `unspent` holds each output of `map` once, by ascending height.
pub open spec fn is_unspent(
    unspent: Seq<FundingOutput>,
    map: Map<OutPoint, FundingOutput>,
) -> bool {
    &&& lists(by_outpoint(unspent), map)
    &&& sorted_by(
        unspent,
        |a: FundingOutput, b: FundingOutput|
            a.txout.fields().height() <= b.txout.fields().height(),
    )
}

/// An output is unspent exactly if it is the last of its name and no input spends it.
pub proof fn law_unspent(
    funding: Seq<FundingOutput>,
    spending: Seq<SpendingInput>,
    output: OutPoint,
)
    ensures
        unspent_map(funding, spending).contains_key(output) <==> (exists|i: int|
            0 <= i < funding.len() && (#[trigger] funding[i]).outpoint() == output) && (
        forall|j: int|
            0 <= j < spending.len() ==> (#[trigger] spending[j]).funding_output != output),
        unspent_map(funding, spending).contains_key(output) ==> funding.contains(
            unspent_map(funding, spending)[output],
        ) && unspent_map(funding, spending)[output].outpoint() == output,
    decreases funding.len() + spending.len(),
{
    if spending.len() > 0 {
        let rest = spending.drop_last();
        law_unspent(funding, rest, output);
        assert forall|j: int| 0 <= j < rest.len() implies rest[j] == #[trigger] spending[j] by {}
        assert(spending[spending.len() - 1] == spending.last());
        if forall|j: int|
            0 <= j < rest.len() ==> (#[trigger] rest[j]).funding_output != output {
            assert forall|j: int| 0 <= j < rest.len() implies (
            #[trigger] spending[j]).funding_output != output by {
                assert(rest[j].funding_output != output);
            }
        }
    } else if funding.len() > 0 {
        let rest = funding.drop_last();
        law_unspent(rest, spending, output);
        if exists|i: int| 0 <= i < rest.len() && (#[trigger] rest[i]).outpoint() == output {
            let i = choose|i: int| 0 <= i < rest.len() && (#[trigger] rest[i]).outpoint() == output;
            assert(funding[i].outpoint() == output);
        }
        if exists|i: int| 0 <= i < funding.len() && (#[trigger] funding[i]).outpoint() == output {
            let i = choose|i: int|
                0 <= i < funding.len() && (#[trigger] funding[i]).outpoint() == output;
            if i < rest.len() {
                assert(rest[i].outpoint() == output);
            }
        }
        assert(funding[funding.len() - 1] == funding.last());
        if unspent_map(rest, spending).contains_key(output) {
            let held = unspent_map(rest, spending)[output];
            let i = choose|i: int| 0 <= i < rest.len() && rest[i] == held;
            assert(funding[i] == held);
        }
    }
}

/// The table holds for each output of the map its place among all outputs.
spec fn stands_for(
    table: Map<OutPoint, usize>,
    map: Map<OutPoint, FundingOutput>,
    all: Seq<FundingOutput>,
) -> bool {
    &&& forall|key: OutPoint| #[trigger] table.contains_key(key) <==> map.contains_key(key)
    &&& forall|key: OutPoint| #[trigger]
        table.contains_key(key) ==> table[key] < all.len() && all[table[key] as int] == map[key]
            && map[key].outpoint() == key
}

proof fn lemma_stands_for_lists(
    pairs: Seq<(OutPoint, usize)>,
    items: Seq<(u32, usize)>,
    table: Map<OutPoint, usize>,
    map: Map<OutPoint, FundingOutput>,
    all: Seq<FundingOutput>,
    entry: spec_fn((u32, usize)) -> (OutPoint, FundingOutput),
)
    requires
        lists(pairs, table),
        stands_for(table, map, all),
        items.len() == pairs.len(),
        forall|j: int| 0 <= j < items.len() ==> (#[trigger] items[j]).1 == pairs[j].1,
        entry == (|item: (u32, usize)| (all[item.1 as int].outpoint(), all[item.1 as int])),
    ensures
        lists(items.map_values(entry), map),
{
    let entries = items.map_values(entry);
    assert forall|j: int| 0 <= j < entries.len() implies entries[j] == (
        pairs[j].0,
        map[pairs[j].0],
    ) && map.contains_key(pairs[j].0) by {
        assert(table.contains_pair(pairs[j].0, pairs[j].1));
        assert(items[j].1 == pairs[j].1);
    }
    assert forall|key: OutPoint| #[trigger] map.contains_key(key) implies entries.contains(
        (key, map[key]),
    ) by {
        assert(table.contains_key(key));
        let j = choose|j: int| 0 <= j < pairs.len() && pairs[j] == (key, table[key]);
        assert(entries[j] == (key, map[key]));
    }
    assert forall|i: int, j: int| 0 <= i < j < entries.len() implies (#[trigger] entries[i]).0 != (
    #[trigger] entries[j]).0 by {
        assert(pairs[i].0 != pairs[j].0);
    }
}

/// As long as no block stands at the placing height of the mempool, the transactions in blocks
/// come first, by ascending height, then those in the mempool, and last those that wait
/// together with one that they spend from.
pub proof fn law_history_order(
    history: Seq<(i32, Txid)>,
    heights: Map<Txid, i32>,
    i: int,
    j: int,
)
    requires
        is_history(history, heights),
        0 <= i < j < history.len(),
        forall|txid: Txid| #[trigger] heights.contains_key(txid) ==> heights[txid] < 0xEE_EEEE,
    ensures
        history[i].0 <= 0 ==> history[j].0 <= history[i].0,
        history[i].0 > 0 ==> history[j].0 >= history[i].0 || history[j].0 <= 0,
{
    let pairs = history_pairs(history);
    assert(heights.contains_pair(pairs[i].0, pairs[i].1));
    assert(heights.contains_pair(pairs[j].0, pairs[j].1));
    let leq = |a: (i32, Txid), b: (i32, Txid)| history_order(a, b);
    assert(leq(history[i], history[j]));
}

/// The outputs have different names.
pub open spec fn distinct_outputs(funding: Seq<FundingOutput>) -> bool {
    forall|i: int, j: int|
        0 <= i < j < funding.len() ==> (#[trigger] funding[i]).outpoint() != (
        #[trigger] funding[j]).outpoint()
}

/// The inputs spend different outputs.
pub open spec fn distinct_spends(spending: Seq<SpendingInput>) -> bool {
    forall|i: int, j: int|
        0 <= i < j < spending.len() ==> (#[trigger] spending[i]).funding_output != (
        #[trigger] spending[j]).funding_output
}

/// The input spends one of the outputs, and has its value.
pub open spec fn spends_one_of(funding: Seq<FundingOutput>, input: SpendingInput) -> bool {
    exists|i: int|
        0 <= i < funding.len() && (#[trigger] funding[i]).outpoint() == input.funding_output
            && funding[i].txout.fields().value() == input.value
}

proof fn lemma_lists_add<K, V>(pairs: Seq<(K, V)>, map: Map<K, V>, key: K)
    requires
        map.contains_key(key),
        lists(pairs, map.remove(key)),
    ensures
        lists(pairs.push((key, map[key])), map),
{
    let more = pairs.push((key, map[key]));
    let less = map.remove(key);
    assert forall|i: int| 0 <= i < more.len() implies map.contains_pair(
        (#[trigger] more[i]).0,
        more[i].1,
    ) by {
        if i < pairs.len() {
            assert(less.contains_pair(pairs[i].0, pairs[i].1));
        }
    }
    assert forall|k: K| #[trigger] map.contains_key(k) implies more.contains((k, map[k])) by {
        if k == key {
            assert(more[pairs.len() as int] == (k, map[k]));
        } else {
            assert(less.contains_key(k));
            let i = choose|i: int| 0 <= i < pairs.len() && pairs[i] == (k, less[k]);
            assert(more[i] == (k, map[k]));
        }
    }
    assert forall|i: int, j: int| 0 <= i < j < more.len() implies (#[trigger] more[i]).0 != (
    #[trigger] more[j]).0 by {
        assert(less.contains_pair(pairs[i].0, pairs[i].1));
        if j < pairs.len() {
            assert(pairs[i].0 != pairs[j].0);
        }
    }
}

proof fn lemma_lists_drop<K, V>(pairs: Seq<(K, V)>, map: Map<K, V>, key: K, value: V, place: int)
    requires
        !map.contains_key(key),
        lists(pairs, map.insert(key, value)),
        0 <= place < pairs.len(),
        pairs[place].0 == key,
    ensures
        lists(pairs.remove(place), map),
{
    let less = pairs.remove(place);
    let more = map.insert(key, value);
    assert forall|i: int| 0 <= i < less.len() implies map.contains_pair(
        (#[trigger] less[i]).0,
        less[i].1,
    ) by {
        let k = if i < place {
            i
        } else {
            i + 1
        };
        assert(less[i] == pairs[k]);
        assert(more.contains_pair(pairs[k].0, pairs[k].1));
        if k < place {
            assert(pairs[k].0 != pairs[place].0);
        } else {
            assert(pairs[place].0 != pairs[k].0);
        }
    }
    assert forall|k: K| #[trigger] map.contains_key(k) implies less.contains((k, map[k])) by {
        assert(more.contains_key(k));
        let i = choose|i: int| 0 <= i < pairs.len() && pairs[i] == (k, more[k]);
        if i < place {
            assert(less[i] == pairs[i]);
        } else {
            assert(less[i - 1] == pairs[i]);
        }
    }
    assert forall|i: int, j: int| 0 <= i < j < less.len() implies (#[trigger] less[i]).0 != (
    #[trigger] less[j]).0 by {
        let k = if i < place {
            i
        } else {
            i + 1
        };
        let l = if j < place {
            j
        } else {
            j + 1
        };
        assert(less[i] == pairs[k] && less[j] == pairs[l]);
        assert(pairs[k].0 != pairs[l].0);
    }
}

proof fn lemma_funded_remove(funding: Seq<FundingOutput>, place: int)
    requires
        0 <= place < funding.len(),
    ensures
        funded(funding) == funded(funding.remove(place)) + funding[place].txout.fields().value(),
    decreases funding.len(),
{
    if place == funding.len() - 1 {
        assert(funding.remove(place) =~= funding.drop_last());
    } else {
        lemma_funded_remove(funding.drop_last(), place);
        assert(funding.remove(place).drop_last() =~= funding.drop_last().remove(place));
        assert(funding.remove(place).last() == funding.last());
    }
}

/// Outputs that are all listed have the same sum.
proof fn lemma_all_listed(funding: Seq<FundingOutput>, listed: Seq<FundingOutput>)
    requires
        distinct_outputs(funding),
        lists(by_outpoint(listed), outputs_by_place(funding)),
    ensures
        funded(listed) == funded(funding),
    decreases funding.len(),
{
    let pairs = by_outpoint(listed);
    let map = outputs_by_place(funding);
    if funding.len() == 0 {
        if listed.len() > 0 {
            assert(map.contains_pair(pairs[0].0, pairs[0].1));
        }
    } else {
        let rest = funding.drop_last();
        let f = funding.last();
        let none: Seq<SpendingInput> = Seq::empty();
        assert(map.contains_key(f.outpoint()));
        let place = choose|i: int| 0 <= i < pairs.len() && pairs[i] == (f.outpoint(), f);
        law_unspent(rest, none, f.outpoint());
        assert(unspent_map(rest, none) == outputs_by_place(rest));
        if outputs_by_place(rest).contains_key(f.outpoint()) {
            let i = choose|i: int|
                0 <= i < rest.len() && (#[trigger] rest[i]).outpoint() == f.outpoint();
            assert(funding[i].outpoint() != funding[funding.len() - 1].outpoint());
        }
        lemma_lists_drop(pairs, outputs_by_place(rest), f.outpoint(), f, place);
        assert(pairs.remove(place) =~= by_outpoint(listed.remove(place)));
        assert(distinct_outputs(rest)) by {
            assert forall|i: int, j: int| 0 <= i < j < rest.len() implies (
            #[trigger] rest[i]).outpoint() != (#[trigger] rest[j]).outpoint() by {
                assert(funding[i].outpoint() != funding[j].outpoint());
            }
        }
        lemma_all_listed(rest, listed.remove(place));
        lemma_funded_remove(listed, place);
    }
}

/// Where each input spends one of the outputs, and none of them twice, what is funded is what
/// is spent and what is left unspent.
pub proof fn law_balance_is_unspent(
    funding: Seq<FundingOutput>,
    spending: Seq<SpendingInput>,
    unspent: Seq<FundingOutput>,
)
    requires
        distinct_outputs(funding),
        distinct_spends(spending),
        forall|i: int| 0 <= i < spending.len() ==> spends_one_of(funding, #[trigger] spending[i]),
        lists(by_outpoint(unspent), unspent_map(funding, spending)),
    ensures
        funded(unspent) + spent(spending) == funded(funding),
    decreases spending.len(),
{
    if spending.len() == 0 {
        lemma_all_listed(funding, unspent);
    } else {
        let rest = spending.drop_last();
        let s = spending.last();
        let map = unspent_map(funding, rest);
        assert(spends_one_of(funding, spending[spending.len() - 1]));
        let i = choose|i: int|
            0 <= i < funding.len() && (#[trigger] funding[i]).outpoint() == s.funding_output
                && funding[i].txout.fields().value() == s.value;
        let f = funding[i];
        law_unspent(funding, rest, s.funding_output);
        assert forall|j: int| 0 <= j < rest.len() implies (#[trigger] rest[j]).funding_output
            != s.funding_output by {
            assert(spending[j].funding_output != spending[spending.len() - 1].funding_output);
        }
        assert(map.contains_key(s.funding_output));
        let held = map[s.funding_output];
        let k = choose|k: int| 0 <= k < funding.len() && funding[k] == held;
        assert(k == i) by {
            if k < i {
                assert(funding[k].outpoint() != funding[i].outpoint());
            } else if i < k {
                assert(funding[i].outpoint() != funding[k].outpoint());
            }
        }
        lemma_lists_add(by_outpoint(unspent), map, s.funding_output);
        assert(by_outpoint(unspent.push(f)) =~= by_outpoint(unspent).push((s.funding_output, f)));
        assert(distinct_spends(rest)) by {
            assert forall|a: int, b: int| 0 <= a < b < rest.len() implies (
            #[trigger] rest[a]).funding_output != (#[trigger] rest[b]).funding_output by {
                assert(spending[a].funding_output != spending[b].funding_output);
            }
        }
        assert forall|j: int| 0 <= j < rest.len() implies spends_one_of(
            funding,
            #[trigger] rest[j],
        ) by {
            assert(spends_one_of(funding, spending[j]));
        }
        law_balance_is_unspent(funding, rest, unspent.push(f));
        assert(unspent.push(f).drop_last() =~= unspent);
    }
}

/// The sum of outputs in two parts is that of both.
pub proof fn lemma_funded_concat(a: Seq<FundingOutput>, b: Seq<FundingOutput>)
    ensures
        funded(a + b) == funded(a) + funded(b),
    decreases b.len(),
{
    if b.len() > 0 {
        lemma_funded_concat(a, b.drop_last());
        assert((a + b).drop_last() =~= a + b.drop_last());
    } else {
        assert(a + b =~= a);
    }
}

/// The sum of what inputs spend in two parts is that of both.
pub proof fn lemma_spent_concat(a: Seq<SpendingInput>, b: Seq<SpendingInput>)
    ensures
        spent(a + b) == spent(a) + spent(b),
    decreases b.len(),
{
    if b.len() > 0 {
        lemma_spent_concat(a, b.drop_last());
        assert((a + b).drop_last() =~= a + b.drop_last());
    } else {
        assert(a + b =~= a);
    }
}

} // verus!
