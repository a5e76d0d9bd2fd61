//! What holds of the status of a script, of its history and of the hash of that history.

use crate::chain::OutPoint;
use crate::db::encoding::{InFields, OutFields};
use crate::db::inputs::{txin_prefix, txin_sound};
use crate::db::outputs::{txout_prefix, txouts_of, txouts_sound};
use crate::db::{holds_u32, holds_u64, u32_of, u64_of, varint};
use crate::hashes::{
    hash_in, hash_text, hex_text, law_hash_text_read_back, lemma_hash_eq, lemma_hash_in, lex_less,
    sha256, FullHash, Txid,
};
use crate::index::laws::lemma_filter_same;
use crate::mempool::ItemView;
use crate::query::{is_part, is_status, status_sound};
use crate::query::queryutil::{
    funding_of, funding_of_row, law_found_spender_stored, law_spenders_spend,
    law_stored_spender_found, spender_sound, spending_of, state_of,
};
use crate::query::status::{
    by_outpoint, distinct_outputs, funded, funding_heights, funding_views, history_bytes, history_of,
    history_order,
    history_pairs, history_part, is_history, is_unspent, law_history_unique,
    law_unspent, lemma_history_entries,
    outputs_by_place, spending_views, spent, tx_heights, unspent_map, ConfirmationState,
    FundingOutput, FundingView, SpendingInput, Status,
};
use crate::store::{rows_under, RowView};
use crate::text::{
    decimal, digits, is_digit, law_decimal_distinct, law_decimal_read_back, lemma_decimal,
};
use vstd::prelude::*;
use vstd::utf8::*;

verus! {

/// A transaction is shown at the height of the last output of it.
proof fn lemma_funding_height(funding: Seq<FundingOutput>, i: int)
    requires
        0 <= i < funding.len(),
        forall|j: int|
            i < j < funding.len() ==> (#[trigger] funding[j]).txout.txid != funding[i].txout.txid,
    ensures
        funding_heights(funding).contains_key(funding[i].txout.txid),
        ({
            let shown = funding_heights(funding)[funding[i].txout.txid];
            let height = u32_of(funding[i].txout.confirmed_height@);
            match funding[i].state {
                ConfirmationState::Confirmed => height < 0x8000_0000 ==> shown == height,
                ConfirmationState::InMempool => shown == 0,
                ConfirmationState::UnconfirmedParent => shown == -1,
            }
        }),
    decreases funding.len(),
{
    if i < funding.len() - 1 {
        let rest = funding.drop_last();
        assert(funding[funding.len() - 1].txout.txid != funding[i].txout.txid);
        assert forall|j: int| i < j < rest.len() implies (#[trigger] rest[j]).txout.txid
            != rest[i].txout.txid by {
            assert(funding[j].txout.txid != funding[i].txout.txid);
        }
        lemma_funding_height(rest, i);
    }
}

/// Inputs of other transactions do not change the height at which one is shown.
proof fn lemma_unspending_height(
    funding: Seq<FundingOutput>,
    spending: Seq<SpendingInput>,
    txid: Txid,
)
    requires
        forall|j: int| 0 <= j < spending.len() ==> (#[trigger] spending[j]).txin.txid != txid,
    ensures
        tx_heights(funding, spending).contains_key(txid) == funding_heights(funding).contains_key(
            txid,
        ),
        funding_heights(funding).contains_key(txid) ==> tx_heights(funding, spending)[txid]
            == funding_heights(funding)[txid],
    decreases spending.len(),
{
    if spending.len() > 0 {
        let rest = spending.drop_last();
        assert(spending[spending.len() - 1].txin.txid != txid);
        assert forall|j: int| 0 <= j < rest.len() implies (#[trigger] rest[j]).txin.txid
            != txid by {
            assert(spending[j].txin.txid != txid);
        }
        lemma_unspending_height(funding, rest, txid);
    }
}

/// A transaction that spends is shown at the height of the last input of it.
proof fn lemma_spending_height(
    funding: Seq<FundingOutput>,
    spending: Seq<SpendingInput>,
    i: int,
)
    requires
        0 <= i < spending.len(),
        forall|j: int|
            i < j < spending.len() ==> (#[trigger] spending[j]).txin.txid != spending[i].txin.txid,
    ensures
        tx_heights(funding, spending).contains_key(spending[i].txin.txid),
        ({
            let shown = tx_heights(funding, spending)[spending[i].txin.txid];
            let height = u32_of(spending[i].txin.confirmed_height@);
            match spending[i].state {
                ConfirmationState::Confirmed => height < 0x8000_0000 ==> shown == height,
                ConfirmationState::InMempool => shown == 0,
                ConfirmationState::UnconfirmedParent => shown == -1,
            }
        }),
    decreases spending.len(),
{
    if i < spending.len() - 1 {
        let rest = spending.drop_last();
        assert(spending[spending.len() - 1].txin.txid != spending[i].txin.txid);
        assert forall|j: int| i < j < rest.len() implies (#[trigger] rest[j]).txin.txid
            != rest[i].txin.txid by {
            assert(spending[j].txin.txid != spending[i].txin.txid);
        }
        lemma_spending_height(funding, rest, i);
    }
}

/// A transaction that pays to the script and does not spend from it is in the history at the
/// height in the row of its output if that is confirmed, at 0 if it is in the mempool, and at
/// -1 if it waits there together with one that it spends from. Of several outputs of it the
/// last counts.
pub proof fn law_history_shows_output(status: Status, history: Seq<(i32, Txid)>, i: int)
    requires
        is_history(history, status.heights()),
        0 <= i < status.confirmed.0.len() + status.mempool.0.len(),
        ({
            let funding = status.confirmed.0@ + status.mempool.0@;
            let spending = status.confirmed.1@ + status.mempool.1@;
            &&& forall|j: int|
                i < j < funding.len() ==> (#[trigger] funding[j]).txout.txid
                    != funding[i].txout.txid
            &&& forall|j: int|
                0 <= j < spending.len() ==> (#[trigger] spending[j]).txin.txid
                    != funding[i].txout.txid
        }),
    ensures
        ({
            let output = (status.confirmed.0@ + status.mempool.0@)[i];
            let height = u32_of(output.txout.confirmed_height@);
            match output.state {
                ConfirmationState::Confirmed => height < 0x8000_0000 ==> history.contains(
                    (height as i32, output.txout.txid),
                ),
                ConfirmationState::InMempool => history.contains((0i32, output.txout.txid)),
                ConfirmationState::UnconfirmedParent => history.contains(
                    (-1i32, output.txout.txid),
                ),
            }
        }),
{
    let funding = status.confirmed.0@ + status.mempool.0@;
    let spending = status.confirmed.1@ + status.mempool.1@;
    let txid = funding[i].txout.txid;
    lemma_funding_height(funding, i);
    lemma_unspending_height(funding, spending, txid);
    lemma_history_entries(history, status.heights());
    let shown = status.heights()[txid];
    assert(history.contains((shown, txid)));
}

/// A transaction that spends from the script is in the history at the height in the row of its
/// input if that is confirmed, at 0 if it is in the mempool, and at -1 if it waits there
/// together with one that it spends from. Of several inputs of it the last counts.
pub proof fn law_history_shows_input(status: Status, history: Seq<(i32, Txid)>, i: int)
    requires
        is_history(history, status.heights()),
        0 <= i < status.confirmed.1.len() + status.mempool.1.len(),
        ({
            let spending = status.confirmed.1@ + status.mempool.1@;
            forall|j: int|
                i < j < spending.len() ==> (#[trigger] spending[j]).txin.txid
                    != spending[i].txin.txid
        }),
    ensures
        ({
            let input = (status.confirmed.1@ + status.mempool.1@)[i];
            let height = u32_of(input.txin.confirmed_height@);
            match input.state {
                ConfirmationState::Confirmed => height < 0x8000_0000 ==> history.contains(
                    (height as i32, input.txin.txid),
                ),
                ConfirmationState::InMempool => history.contains((0i32, input.txin.txid)),
                ConfirmationState::UnconfirmedParent => history.contains((-1i32, input.txin.txid)),
            }
        }),
{
    let funding = status.confirmed.0@ + status.mempool.0@;
    let spending = status.confirmed.1@ + status.mempool.1@;
    let txid = spending[i].txin.txid;
    lemma_spending_height(funding, spending, i);
    lemma_history_entries(history, status.heights());
    let shown = status.heights()[txid];
    assert(history.contains((shown, txid)));
}

/// Only transactions of outputs and of inputs have a height.
proof fn lemma_heights_named(
    funding: Seq<FundingOutput>,
    spending: Seq<SpendingInput>,
    txid: Txid,
)
    requires
        tx_heights(funding, spending).contains_key(txid),
    ensures
        (exists|i: int| 0 <= i < funding.len() && (#[trigger] funding[i]).txout.txid == txid) || (
        exists|i: int| 0 <= i < spending.len() && (#[trigger] spending[i]).txin.txid == txid),
    decreases funding.len() + spending.len(),
{
    if spending.len() > 0 {
        let rest = spending.drop_last();
        assert(spending[spending.len() - 1] == spending.last());
        if spending.last().txin.txid != txid {
            lemma_heights_named(funding, rest, txid);
            if exists|i: int| 0 <= i < rest.len() && (#[trigger] rest[i]).txin.txid == txid {
                let i = choose|i: int| 0 <= i < rest.len() && (#[trigger] rest[i]).txin.txid == txid;
                assert(spending[i].txin.txid == txid);
            }
        }
    } else {
        let rest = funding.drop_last();
        assert(funding[funding.len() - 1] == funding.last());
        if funding.last().txout.txid != txid {
            lemma_heights_named(rest, spending, txid);
            let i = choose|i: int| 0 <= i < rest.len() && (#[trigger] rest[i]).txout.txid == txid;
            assert(funding[i].txout.txid == txid);
        }
    }
}

/// A history names the transactions of the outputs and inputs of the status and no others.
pub proof fn law_history_names_transactions(status: Status, history: Seq<(i32, Txid)>, i: int)
    requires
        is_history(history, status.heights()),
        0 <= i < history.len(),
    ensures
        (exists|k: int|
            0 <= k < status.confirmed.0.len() + status.mempool.0.len() && (#[trigger] (
            status.confirmed.0@ + status.mempool.0@)[k]).txout.txid == history[i].1) || (exists|
            k: int,
        |
            0 <= k < status.confirmed.1.len() + status.mempool.1.len() && (#[trigger] (
            status.confirmed.1@ + status.mempool.1@)[k]).txin.txid == history[i].1),
{
    let pairs = history_pairs(history);
    assert(status.heights().contains_pair(pairs[i].0, pairs[i].1));
    lemma_heights_named(
        status.confirmed.0@ + status.mempool.0@,
        status.confirmed.1@ + status.mempool.1@,
        history[i].1,
    );
}

/// A history names no transaction twice.
pub proof fn law_history_names_once(
    history: Seq<(i32, Txid)>,
    heights: Map<Txid, i32>,
    i: int,
    j: int,
)
    requires
        is_history(history, heights),
        0 <= i < j < history.len(),
    ensures
        history[i].1 != history[j].1,
{
    let pairs = history_pairs(history);
    assert(pairs[i].0 != pairs[j].0);
}

/// The order of a history: blocks by ascending height, the mempool behind every block below the
/// height 0xEEEEEE that it is given, those with an unconfirmed parent last, and at the same
/// height by descending bytes of the transaction id.
pub proof fn law_history_in_order(
    history: Seq<(i32, Txid)>,
    heights: Map<Txid, i32>,
    i: int,
    j: int,
)
    requires
        is_history(history, heights),
        0 <= i < j < history.len(),
    ensures
        ({
            let (a, b) = (history[i].0, history[j].0);
            &&& a > 0 && b > 0 ==> a <= b
            &&& a <= 0 && b <= 0 ==> b <= a
            &&& a > 0 && b <= 0 ==> a <= 0xEE_EEEE - b
            &&& a <= 0 && b > 0 ==> b > 0xEE_EEEE - a
            &&& a == b ==> lex_less(history[j].1@, history[i].1@)
        }),
{
    let leq = |a: (i32, Txid), b: (i32, Txid)| history_order(a, b);
    assert(leq(history[i], history[j]));
    let pairs = history_pairs(history);
    assert(pairs[i].0 != pairs[j].0);
    crate::hashes::lemma_lex_total(history[i].1@, history[j].1@);
    if history[i].1@ == history[j].1@ {
        lemma_hash_eq(history[i].1, history[j].1);
    }
}

/// Each entry of a history adds to what is hashed the id of its transaction in hexadecimal, as it
/// is shown, and its height in decimal, with a colon behind each of them.
pub proof fn law_hashed_entry(history: Seq<(i32, Txid)>, entry: (i32, Txid))
    ensures
        history_bytes(Seq::<(i32, Txid)>::empty()) == Seq::<u8>::empty(),
        history_bytes(history.push(entry)) == history_bytes(history) + encode_utf8(
            hex_text(entry.1@.reverse()) + seq![':'] + decimal(entry.0 as int) + seq![':'],
        ),
        history_bytes(history.push(entry)).len() > history_bytes(history).len(),
{
    assert(history.push(entry).drop_last() =~= history);
    lemma_part_bytes(entry);
}

/// The part of an entry is ASCII, and of its characters only two are colons: the one behind the
/// transaction and the last.
proof fn lemma_part_bytes(entry: (i32, Txid))
    ensures
        encode_utf8(history_part(entry)).len() == history_part(entry).len(),
        history_part(entry).len() == 66 + decimal(entry.0 as int).len(),
        forall|i: int|
            0 <= i < history_part(entry).len() ==> (#[trigger] history_part(entry)[i]) as u32 <= 127
                && encode_utf8(history_part(entry))[i] == history_part(entry)[i] as u8,
        forall|i: int|
            0 <= i < decimal(entry.0 as int).len() ==> #[trigger] decimal(entry.0 as int)[i] != ':',
{
    let part = history_part(entry);
    let number = decimal(entry.0 as int);
    lemma_decimal(entry.0 as i64);
    assert(is_ascii_chars(hash_text(entry.1)));
    assert(is_ascii_chars(part));
    is_ascii_chars_encode_utf8(part);
    let size = (if entry.0 < 0 {
        -(entry.0 as int)
    } else {
        entry.0 as int
    }) as nat;
    law_decimal_read_back(size);
    assert forall|i: int| 0 <= i < number.len() implies #[trigger] number[i] != ':' by {
        let places = digits(size);
        if entry.0 < 0 {
            if i > 0 {
                assert(number[i] == places[i - 1]);
                assert(is_digit(places[i - 1]));
            }
        } else {
            assert(is_digit(places[i]));
        }
    }
}

/// What is hashed begins with the part of the first entry.
proof fn lemma_bytes_front(history: Seq<(i32, Txid)>)
    requires
        history.len() > 0,
    ensures
        history_bytes(history) == encode_utf8(history_part(history[0])) + history_bytes(
            history.skip(1),
        ),
    decreases history.len(),
{
    let rest = history.drop_last();
    if history.len() == 1 {
        assert(rest =~= Seq::empty());
        assert(history.skip(1) =~= Seq::empty());
        assert(history_bytes(rest) == Seq::<u8>::empty());
        assert(history_bytes(history) =~= encode_utf8(history_part(history[0])));
        assert(history_bytes(history) + Seq::<u8>::empty() =~= history_bytes(history));
    } else {
        lemma_bytes_front(rest);
        assert(history.skip(1).drop_last() =~= rest.skip(1));
        assert(history.skip(1).last() == history.last());
        let (a, b, c) = (
            encode_utf8(history_part(history[0])),
            history_bytes(rest.skip(1)),
            encode_utf8(history_part(history.last())),
        );
        assert((a + b) + c =~= a + (b + c));
    }
}

/// ASCII characters with the same byte are the same.
proof fn lemma_ascii_byte(c: char, d: char)
    requires
        c as u32 <= 127,
        d as u32 <= 127,
        c as u8 == d as u8,
    ensures
        c == d,
{
    let (m, n) = (c as u32, d as u32);
    assert(c as int == m as int && d as int == n as int);
    assert(c as u8 == m as u8 && d as u8 == n as u8);
    assert(m == n);
}

/// Of two histories whose bytes are the same, the first entries are the same.
proof fn lemma_first_entry(a: (i32, Txid), x: Seq<u8>, b: (i32, Txid), y: Seq<u8>)
    requires
        encode_utf8(history_part(a)) + x == encode_utf8(history_part(b)) + y,
    ensures
        a == b,
        x == y,
{
    let (p, q) = (history_part(a), history_part(b));
    let (m, n) = (decimal(a.0 as int), decimal(b.0 as int));
    let (left, right) = (encode_utf8(p) + x, encode_utf8(q) + y);
    lemma_part_bytes(a);
    lemma_part_bytes(b);
    assert forall|i: int| 0 <= i < p.len() && i < q.len() implies p[i] == q[i] by {
        assert(left[i] == p[i] as u8);
        assert(right[i] == q[i] as u8);
        assert(p[i] as u32 <= 127 && q[i] as u32 <= 127);
        assert(left[i] == right[i]);
        lemma_ascii_byte(p[i], q[i]);
    }
    assert(hash_text(a.1) =~= hash_text(b.1)) by {
        assert forall|i: int| 0 <= i < 64 implies hash_text(a.1)[i] == hash_text(b.1)[i] by {
            assert(p[i] == hash_text(a.1)[i]);
            assert(q[i] == hash_text(b.1)[i]);
        }
    }
    law_hash_text_read_back(a.1);
    law_hash_text_read_back(b.1);
    lemma_hash_eq(a.1, b.1);
    if m.len() < n.len() {
        let k = 65 + m.len() as int;
        assert(p[k] == ':');
        assert(q[k] == n[m.len() as int]);
    }
    if n.len() < m.len() {
        let k = 65 + n.len() as int;
        assert(q[k] == ':');
        assert(p[k] == m[n.len() as int]);
    }
    assert(m =~= n) by {
        assert forall|i: int| 0 <= i < m.len() implies m[i] == n[i] by {
            assert(p[65 + i] == m[i]);
            assert(q[65 + i] == n[i]);
        }
    }
    law_decimal_distinct(a.0 as int, b.0 as int);
    assert(left.skip(encode_utf8(p).len() as int) =~= x);
    assert(right.skip(encode_utf8(q).len() as int) =~= y);
}

/// Different histories are hashed from different bytes.
pub proof fn law_hashed_bytes_distinct(a: Seq<(i32, Txid)>, b: Seq<(i32, Txid)>)
    requires
        history_bytes(a) == history_bytes(b),
    ensures
        a == b,
    decreases a.len(),
{
    if a.len() == 0 || b.len() == 0 {
        if a.len() > 0 {
            lemma_bytes_front(a);
            lemma_part_bytes(a[0]);
        }
        if b.len() > 0 {
            lemma_bytes_front(b);
            lemma_part_bytes(b[0]);
        }
        assert(a =~= b);
    } else {
        lemma_bytes_front(a);
        lemma_bytes_front(b);
        lemma_first_entry(a[0], history_bytes(a.skip(1)), b[0], history_bytes(b.skip(1)));
        law_hashed_bytes_distinct(a.skip(1), b.skip(1));
        assert(a =~= seq![a[0]] + a.skip(1));
        assert(b =~= seq![b[0]] + b.skip(1));
    }
}

/// Where outputs and inputs are added to a balance, each adds the value in its row: an output
/// the value that is read from it, an input the value of what it spends.
pub proof fn law_balance_adds_values(
    funding: Seq<FundingOutput>,
    output: FundingOutput,
    spending: Seq<SpendingInput>,
    input: SpendingInput,
)
    ensures
        funded(Seq::<FundingOutput>::empty()) == 0,
        funded(funding.push(output)) == funded(funding) + u64_of(output.txout.output_value@),
        spent(Seq::<SpendingInput>::empty()) == 0,
        spent(spending.push(input)) == spent(spending) + input.value,
{
    assert(funding.push(output).drop_last() =~= funding);
    assert(spending.push(input).drop_last() =~= spending);
}

/// Under the name of an output stands the last output with that name.
proof fn lemma_last_of_name(funding: Seq<FundingOutput>, i: int)
    requires
        0 <= i < funding.len(),
        forall|j: int|
            i < j < funding.len() ==> (#[trigger] funding[j]).outpoint() != funding[i].outpoint(),
    ensures
        outputs_by_place(funding).contains_pair(funding[i].outpoint(), funding[i]),
    decreases funding.len(),
{
    if i < funding.len() - 1 {
        let rest = funding.drop_last();
        assert(funding[funding.len() - 1].outpoint() != funding[i].outpoint());
        assert forall|j: int| i < j < rest.len() implies (#[trigger] rest[j]).outpoint()
            != rest[i].outpoint() by {
            assert(funding[j].outpoint() != funding[i].outpoint());
        }
        lemma_last_of_name(rest, i);
    }
}

/// Inputs that spend other outputs leave an output unspent.
proof fn lemma_left_unspent(
    funding: Seq<FundingOutput>,
    spending: Seq<SpendingInput>,
    name: OutPoint,
)
    requires
        forall|j: int| 0 <= j < spending.len() ==> (#[trigger] spending[j]).funding_output != name,
        outputs_by_place(funding).contains_key(name),
    ensures
        unspent_map(funding, spending).contains_pair(name, outputs_by_place(funding)[name]),
    decreases spending.len(),
{
    if spending.len() > 0 {
        let rest = spending.drop_last();
        assert(spending[spending.len() - 1].funding_output != name);
        assert forall|j: int| 0 <= j < rest.len() implies (#[trigger] rest[j]).funding_output
            != name by {
            assert(spending[j].funding_output != name);
        }
        lemma_left_unspent(funding, rest, name);
    }
}

/// An output that no input spends is listed as unspent, unless a later output has the same
/// transaction and position.
pub proof fn law_unspent_is_listed(status: Status, unspent: Seq<FundingOutput>, i: int)
    requires
        is_unspent(unspent, unspent_map(status.all_funding(), status.all_spending())),
        0 <= i < status.confirmed.0.len() + status.mempool.0.len(),
        ({
            let funding = status.confirmed.0@ + status.mempool.0@;
            let spending = status.confirmed.1@ + status.mempool.1@;
            &&& forall|j: int|
                i < j < funding.len() ==> (#[trigger] funding[j]).txout.txid
                    != funding[i].txout.txid || u32_of(funding[j].txout.output_index@) != u32_of(
                    funding[i].txout.output_index@,
                )
            &&& forall|j: int|
                0 <= j < spending.len() ==> (#[trigger] spending[j]).funding_output.txid
                    != funding[i].txout.txid || spending[j].funding_output.vout != u32_of(
                    funding[i].txout.output_index@,
                )
        }),
    ensures
        unspent.contains((status.confirmed.0@ + status.mempool.0@)[i]),
{
    let funding = status.confirmed.0@ + status.mempool.0@;
    let spending = status.confirmed.1@ + status.mempool.1@;
    let name = funding[i].outpoint();
    assert forall|j: int| i < j < funding.len() implies (#[trigger] funding[j]).outpoint()
        != funding[i].outpoint() by {
        assert(funding[j].txout.txid != funding[i].txout.txid || u32_of(
            funding[j].txout.output_index@,
        ) != u32_of(funding[i].txout.output_index@));
    }
    lemma_last_of_name(funding, i);
    lemma_left_unspent(funding, spending, name);
    let map = unspent_map(funding, spending);
    assert(map.contains_key(name) && map[name] == funding[i]);
    let pairs = by_outpoint(unspent);
    let k = choose|k: int| 0 <= k < pairs.len() && pairs[k] == (name, map[name]);
    assert(unspent[k] == funding[i]);
}

/// What is listed as unspent is an output of the status that none of its inputs spends.
pub proof fn law_listed_is_unspent(status: Status, unspent: Seq<FundingOutput>, k: int, j: int)
    requires
        is_unspent(unspent, unspent_map(status.all_funding(), status.all_spending())),
        0 <= k < unspent.len(),
        0 <= j < status.confirmed.1.len() + status.mempool.1.len(),
    ensures
        (status.confirmed.0@ + status.mempool.0@).contains(unspent[k]),
        ({
            let input = (status.confirmed.1@ + status.mempool.1@)[j];
            input.funding_output.txid != unspent[k].txout.txid || input.funding_output.vout
                != u32_of(unspent[k].txout.output_index@)
        }),
{
    law_listed_is_funding(status, unspent, k);
    let funding = status.confirmed.0@ + status.mempool.0@;
    let spending = status.confirmed.1@ + status.mempool.1@;
    law_unspent(funding, spending, unspent[k].outpoint());
    assert(by_outpoint(unspent)[k] == (unspent[k].outpoint(), unspent[k]));
    assert(spending[j].funding_output != unspent[k].outpoint());
}

/// What is listed as unspent is an output of the status.
pub proof fn law_listed_is_funding(status: Status, unspent: Seq<FundingOutput>, k: int)
    requires
        is_unspent(unspent, unspent_map(status.all_funding(), status.all_spending())),
        0 <= k < unspent.len(),
    ensures
        (status.confirmed.0@ + status.mempool.0@).contains(unspent[k]),
{
    let funding = status.confirmed.0@ + status.mempool.0@;
    let spending = status.confirmed.1@ + status.mempool.1@;
    let pairs = by_outpoint(unspent);
    assert(unspent_map(funding, spending).contains_pair(pairs[k].0, pairs[k].1));
    law_unspent(funding, spending, unspent[k].outpoint());
}

/// Unspent outputs are listed once each, by ascending height of their rows.
pub proof fn law_unspent_in_order(status: Status, unspent: Seq<FundingOutput>, k: int, l: int)
    requires
        is_unspent(unspent, unspent_map(status.all_funding(), status.all_spending())),
        0 <= k < l < unspent.len(),
    ensures
        unspent[k].txout.txid != unspent[l].txout.txid || u32_of(unspent[k].txout.output_index@)
            != u32_of(unspent[l].txout.output_index@),
        u32_of(unspent[k].txout.confirmed_height@) <= u32_of(unspent[l].txout.confirmed_height@),
{
    let pairs = by_outpoint(unspent);
    assert(pairs[k].0 != pairs[l].0);
    let leq = |a: FundingOutput, b: FundingOutput|
        a.txout.fields().height() <= b.txout.fields().height();
    assert(leq(unspent[k], unspent[l]));
}

/// The outputs to a script that the rows hold.
proof fn lemma_outputs_of_rows(
    part: (Vec<FundingOutput>, Vec<SpendingInput>),
    items: Map<Txid, ItemView>,
    rows: Seq<RowView>,
    scripthash: FullHash,
    i: int,
)
    requires
        funding_views(part.0@) == funding_of(items, rows, scripthash),
        forall|q: int|
            0 <= q < rows.len() && (#[trigger] rows[q]).key.len() > 0 && rows[q].key[0] == 0x4f
                ==> OutFields::read(rows[q].key) is Some,
    ensures
        ({
            let found = rows.filter(
                |row: RowView| (seq![0x4fu8] + scripthash@).is_prefix_of(row.key),
            );
            &&& part.0.len() == found.len()
            &&& 0 <= i < part.0.len() ==> OutFields::read(found[i].key) == Some(
                OutFields {
                    code: 0x4f,
                    scripthash: scripthash@,
                    txid: part.0[i].txout.txid@,
                    confirmed_height: part.0[i].txout.confirmed_height@,
                    output_index: part.0[i].txout.output_index@,
                    output_value: part.0[i].txout.output_value@,
                },
            ) && part.0[i].state == state_of(
                items,
                part.0[i].txout.txid,
                u32_of(part.0[i].txout.confirmed_height@),
            )
        }),
{
    let inline = |row: RowView| (seq![0x4fu8] + scripthash@).is_prefix_of(row.key);
    let prefix = txout_prefix(scripthash);
    let under = |row: RowView| prefix.is_prefix_of(row.key);
    lemma_filter_same(rows, inline, under);
    let found = rows.filter(inline);
    assert(funding_views(part.0@).len() == part.0.len());
    if 0 <= i < part.0.len() {
        rows.lemma_filter_pred(inline, i);
        rows.lemma_filter_contains_rev(inline, found[i]);
        let q = choose|q: int| 0 <= q < rows.len() && rows[q] == found[i];
        let start = seq![0x4fu8] + scripthash@;
        assert(start.is_prefix_of(rows[q].key));
        assert(rows[q].key[0] == start[0]);
        assert(rows[q].key.subrange(1, 33) =~= scripthash@) by {
            assert forall|b: int| 0 <= b < 32 implies rows[q].key[1 + b] == scripthash@[b] by {
                assert(start[1 + b] == scripthash@[b]);
            }
        }
        assert(funding_views(part.0@)[i] == part.0[i]@);
        assert(funding_of(items, rows, scripthash)[i] == funding_of_row(
            items,
            OutFields::read(found[i].key).unwrap(),
        ));
        lemma_hash_in(part.0[i].txout.txid);
    }
}

/// The outputs in a part of a status are those in the rows whose key begins with the code of
/// output rows and the hash of the script, in the order of the rows, each as its row holds it
/// and in the state that its transaction has at the height in the row.
pub proof fn law_part_outputs(
    part: (Vec<FundingOutput>, Vec<SpendingInput>),
    items: Map<Txid, ItemView>,
    rows: Seq<RowView>,
    scripthash: FullHash,
    spendable: Seq<FundingView>,
    i: int,
)
    requires
        is_part(part, items, rows, funding_of(items, rows, scripthash), spendable),
        forall|q: int|
            0 <= q < rows.len() && (#[trigger] rows[q]).key.len() > 0 && rows[q].key[0] == 0x4f
                ==> OutFields::read(rows[q].key) is Some,
    ensures
        ({
            let found = rows.filter(
                |row: RowView| (seq![0x4fu8] + scripthash@).is_prefix_of(row.key),
            );
            let outputs = part.0@;
            &&& outputs.len() == found.len()
            &&& 0 <= i < outputs.len() ==> OutFields::read(found[i].key) == Some(
                OutFields {
                    code: 0x4f,
                    scripthash: scripthash@,
                    txid: outputs[i].txout.txid@,
                    confirmed_height: outputs[i].txout.confirmed_height@,
                    output_index: outputs[i].txout.output_index@,
                    output_value: outputs[i].txout.output_value@,
                },
            ) && outputs[i].state == state_of(
                items,
                outputs[i].txout.txid,
                u32_of(outputs[i].txout.confirmed_height@),
            )
        }),
{
    lemma_outputs_of_rows(part, items, rows, scripthash, i);
}

/// The outputs of a status, in blocks and in the mempool, are those in the rows whose key begins
/// with the code of output rows and the hash of the script, in the order of the rows, each as
/// its row holds it and in the state that its transaction has at the height in the row.
pub proof fn law_status_outputs(
    status: Status,
    items: Map<Txid, ItemView>,
    confirmed: Seq<RowView>,
    mempool: Seq<RowView>,
    scripthash: FullHash,
    i: int,
)
    requires
        is_status(status, items, confirmed, mempool, scripthash),
        forall|q: int|
            0 <= q < confirmed.len() && (#[trigger] confirmed[q]).key.len() > 0 && confirmed[q].key[0] == 0x4f
                ==> OutFields::read(confirmed[q].key) is Some,
        forall|q: int|
            0 <= q < mempool.len() && (#[trigger] mempool[q]).key.len() > 0 && mempool[q].key[0] == 0x4f
                ==> OutFields::read(mempool[q].key) is Some,
    ensures
        ({
            let found = confirmed.filter(
                |row: RowView| (seq![0x4fu8] + scripthash@).is_prefix_of(row.key),
            );
            let outputs = status.confirmed.0@;
            &&& outputs.len() == found.len()
            &&& 0 <= i < outputs.len() ==> OutFields::read(found[i].key) == Some(
                OutFields {
                    code: 0x4f,
                    scripthash: scripthash@,
                    txid: outputs[i].txout.txid@,
                    confirmed_height: outputs[i].txout.confirmed_height@,
                    output_index: outputs[i].txout.output_index@,
                    output_value: outputs[i].txout.output_value@,
                },
            ) && outputs[i].state == state_of(
                items,
                outputs[i].txout.txid,
                u32_of(outputs[i].txout.confirmed_height@),
            )
        }),
        ({
            let found = mempool.filter(
                |row: RowView| (seq![0x4fu8] + scripthash@).is_prefix_of(row.key),
            );
            let outputs = status.mempool.0@;
            &&& outputs.len() == found.len()
            &&& 0 <= i < outputs.len() ==> OutFields::read(found[i].key) == Some(
                OutFields {
                    code: 0x4f,
                    scripthash: scripthash@,
                    txid: outputs[i].txout.txid@,
                    confirmed_height: outputs[i].txout.confirmed_height@,
                    output_index: outputs[i].txout.output_index@,
                    output_value: outputs[i].txout.output_value@,
                },
            ) && outputs[i].state == state_of(
                items,
                outputs[i].txout.txid,
                u32_of(outputs[i].txout.confirmed_height@),
            )
        }),
{
    lemma_outputs_of_rows(status.confirmed, items, confirmed, scripthash, i);
    lemma_outputs_of_rows(status.mempool, items, mempool, scripthash, i);
}

/// The inputs that are found for outputs that differ spend different outputs.
proof fn lemma_inputs_differ(
    items: Map<Txid, ItemView>,
    rows: Seq<RowView>,
    funding: Seq<FundingView>,
    j: int,
    k: int,
)
    requires
        forall|a: int, b: int|
            0 <= a < b < funding.len() ==> (#[trigger] funding[a]).outpoint() != (
            #[trigger] funding[b]).outpoint(),
        0 <= j < k < spending_of(items, rows, funding).len(),
    ensures
        spending_of(items, rows, funding)[j].funding_output != spending_of(
            items,
            rows,
            funding,
        )[k].funding_output,
    decreases funding.len(),
{
    let rest = funding.drop_last();
    let before = spending_of(items, rows, rest);
    assert forall|a: int, b: int| 0 <= a < b < rest.len() implies (#[trigger] rest[a]).outpoint()
        != (#[trigger] rest[b]).outpoint() by {
        assert(funding[a].outpoint() != funding[b].outpoint());
    }
    if k < before.len() {
        lemma_inputs_differ(items, rows, rest, j, k);
    } else {
        law_spenders_spend(items, rows, rest, j);
        let a = choose|a: int|
            0 <= a < rest.len() && (#[trigger] rest[a]).outpoint() == before[j].funding_output
                && rest[a].fields.value() == before[j].value;
        assert(funding[a].outpoint() != funding[funding.len() - 1].outpoint());
    }
}

/// The input stands in one of the rows, spends one of the outputs, whose value it has, and is in
/// the state that its transaction has at the height in the row.
pub open spec fn stands_in_row(
    input: SpendingInput,
    outputs: Seq<FundingOutput>,
    items: Map<Txid, ItemView>,
    rows: Seq<RowView>,
) -> bool {
    &&& exists|r: int|
        0 <= r < rows.len() && InFields::read((#[trigger] rows[r]).key) == Some(
            InFields {
                code: 0x49,
                prev_hash: input.funding_output.txid@,
                prev_index: varint(input.funding_output.vout as nat),
                txid: input.txin.txid@,
                confirmed_height: input.txin.confirmed_height@,
            },
        )
    &&& exists|i: int|
        0 <= i < outputs.len() && input.funding_output.txid == (#[trigger] outputs[i]).txout.txid
            && input.funding_output.vout == u32_of(outputs[i].txout.output_index@) && input.value
            == u64_of(outputs[i].txout.output_value@)
    &&& input.state == state_of(
        items,
        input.txin.txid,
        u32_of(input.txin.confirmed_height@),
    )
}

proof fn lemma_inputs_of_rows(
    outputs: Seq<FundingOutput>,
    inputs: Seq<SpendingInput>,
    items: Map<Txid, ItemView>,
    rows: Seq<RowView>,
    j: int,
)
    requires
        spending_views(inputs) == spending_of(items, rows, funding_views(outputs)),
        0 <= j < inputs.len(),
    ensures
        stands_in_row(inputs[j], outputs, items, rows),
{
    let views = funding_views(outputs);
    let all = spending_of(items, rows, views);
    let input = inputs[j];
    assert(spending_views(inputs)[j] == input@);
    law_found_spender_stored(items, rows, views, j);
    law_spenders_spend(items, rows, views, j);
    lemma_hash_in(input.txin.txid);
    let r = choose|r: int|
        0 <= r < rows.len() && InFields::read((#[trigger] rows[r]).key) == Some(all[j].fields);
    assert(InFields::read(rows[r].key) == Some(
        InFields {
            code: 0x49,
            prev_hash: input.funding_output.txid@,
            prev_index: varint(input.funding_output.vout as nat),
            txid: input.txin.txid@,
            confirmed_height: input.txin.confirmed_height@,
        },
    ));
    let i = choose|i: int|
        0 <= i < views.len() && (#[trigger] views[i]).outpoint() == all[j].funding_output
            && views[i].fields.value() == all[j].value;
    assert(views[i] == outputs[i]@);
    lemma_hash_in(outputs[i].txout.txid);
    assert(input.funding_output.txid == outputs[i].txout.txid);
}

/// The inputs of a status stand in the rows: those in blocks spend outputs in blocks, those in
/// the mempool outputs in the mempool or in blocks. Where no two of the outputs have the same
/// transaction and position, no two of the inputs spend the same output.
pub proof fn law_status_inputs(
    status: Status,
    items: Map<Txid, ItemView>,
    confirmed: Seq<RowView>,
    mempool: Seq<RowView>,
    scripthash: FullHash,
    j: int,
    k: int,
)
    requires
        is_status(status, items, confirmed, mempool, scripthash),
    ensures
        0 <= j < status.confirmed.1.len() ==> stands_in_row(
            status.confirmed.1[j],
            status.confirmed.0@,
            items,
            confirmed,
        ),
        0 <= j < status.mempool.1.len() ==> stands_in_row(
            status.mempool.1[j],
            status.mempool.0@ + status.confirmed.0@,
            items,
            mempool,
        ),
        distinct_outputs(status.confirmed.0@ + status.mempool.0@) ==> {
            &&& 0 <= j < k < status.confirmed.1.len() ==> status.confirmed.1[j].funding_output
                != status.confirmed.1[k].funding_output
            &&& 0 <= j < k < status.mempool.1.len() ==> status.mempool.1[j].funding_output
                != status.mempool.1[k].funding_output
        },
{
    let outs = status.confirmed.0@;
    let both = status.mempool.0@ + status.confirmed.0@;
    let all = status.confirmed.0@ + status.mempool.0@;
    assert(funding_views(both) =~= funding_views(status.mempool.0@) + funding_views(outs));
    if 0 <= j < status.confirmed.1.len() {
        lemma_inputs_of_rows(outs, status.confirmed.1@, items, confirmed, j);
    }
    if 0 <= j < status.mempool.1.len() {
        lemma_inputs_of_rows(both, status.mempool.1@, items, mempool, j);
    }
    if distinct_outputs(all) {
        let n = outs.len();
        if 0 <= j < k < status.confirmed.1.len() {
            let views = funding_views(outs);
            assert forall|a: int, b: int| 0 <= a < b < views.len() implies (
            #[trigger] views[a]).outpoint() != (#[trigger] views[b]).outpoint() by {
                assert(all[a].outpoint() != all[b].outpoint());
                assert(views[a] == outs[a]@ && views[b] == outs[b]@);
                lemma_hash_in(outs[a].txout.txid);
                lemma_hash_in(outs[b].txout.txid);
            }
            lemma_inputs_differ(items, confirmed, views, j, k);
            assert(spending_views(status.confirmed.1@)[j] == status.confirmed.1[j]@);
            assert(spending_views(status.confirmed.1@)[k] == status.confirmed.1[k]@);
        }
        if 0 <= j < k < status.mempool.1.len() {
            let views = funding_views(both);
            let m = status.mempool.0.len() as int;
            assert forall|a: int, b: int| 0 <= a < b < views.len() implies (
            #[trigger] views[a]).outpoint() != (#[trigger] views[b]).outpoint() by {
                let x = if a < m {
                    n + a
                } else {
                    a - m
                };
                let y = if b < m {
                    n + b
                } else {
                    b - m
                };
                assert(all[x] == both[a] && all[y] == both[b]);
                if x < y {
                    assert(all[x].outpoint() != all[y].outpoint());
                } else {
                    assert(all[y].outpoint() != all[x].outpoint());
                }
                assert(views[a] == both[a]@ && views[b] == both[b]@);
                lemma_hash_in(both[a].txout.txid);
                lemma_hash_in(both[b].txout.txid);
            }
            lemma_inputs_differ(items, mempool, views, j, k);
            assert(spending_views(status.mempool.1@)[j] == status.mempool.1[j]@);
            assert(spending_views(status.mempool.1@)[k] == status.mempool.1[k]@);
        }
    }
}

/// The inputs of a part of a status stand in the rows, and where the rows hold an input that
/// spends one of the outputs, there is one in the part.
pub proof fn law_part_inputs(
    part: (Vec<FundingOutput>, Vec<SpendingInput>),
    items: Map<Txid, ItemView>,
    rows: Seq<RowView>,
    funding: Seq<FundingView>,
    outputs: Seq<FundingOutput>,
    j: int,
    i: int,
    input: InFields,
    r: int,
)
    requires
        is_part(part, items, rows, funding, funding_views(outputs)),
        forall|q: int|
            0 <= q < rows.len() && (#[trigger] rows[q]).key.len() > 0 && rows[q].key[0] == 0x49
                ==> InFields::read(rows[q].key) is Some,
        0 <= i < outputs.len(),
        0 <= r < rows.len(),
        rows[r].key == input.bytes(),
        input.sized(),
        input.code == 0x49,
        input.prev_hash == outputs[i].txout.txid@,
        input.prev_index == varint(u32_of(outputs[i].txout.output_index@) as nat),
    ensures
        0 <= j < part.1.len() ==> stands_in_row(part.1[j], outputs, items, rows),
        exists|k: int|
            0 <= k < part.1.len() && (#[trigger] part.1[k]).funding_output.txid
                == outputs[i].txout.txid && part.1[k].funding_output.vout == u32_of(
                outputs[i].txout.output_index@,
            ) && part.1[k].value == u64_of(outputs[i].txout.output_value@),
{
    if 0 <= j < part.1.len() {
        lemma_inputs_of_rows(outputs, part.1@, items, rows, j);
    }
    lemma_part_spends(outputs, part.1@, items, rows, i, input, r);
    let k = choose|k: int|
        0 <= k < part.1@.len() && (#[trigger] part.1@[k]).funding_output.txid
            == outputs[i].txout.txid && part.1@[k].funding_output.vout == u32_of(
            outputs[i].txout.output_index@,
        ) && part.1@[k].value == u64_of(outputs[i].txout.output_value@);
    assert(part.1[k].funding_output.txid == outputs[i].txout.txid);
}

/// An output of a part that an input in the rows spends has an input in the part that spends
/// it, with its value; so it is not listed as unspent.
proof fn lemma_part_spends(
    outputs: Seq<FundingOutput>,
    inputs: Seq<SpendingInput>,
    items: Map<Txid, ItemView>,
    rows: Seq<RowView>,
    i: int,
    input: InFields,
    r: int,
)
    requires
        spending_views(inputs) == spending_of(items, rows, funding_views(outputs)),
        forall|q: int|
            0 <= q < rows.len() && (#[trigger] rows[q]).key.len() > 0 && rows[q].key[0] == 0x49
                ==> InFields::read(rows[q].key) is Some,
        0 <= i < outputs.len(),
        0 <= r < rows.len(),
        rows[r].key == input.bytes(),
        input.sized(),
        input.code == 0x49,
        input.prev_hash == outputs[i].txout.txid@,
        input.prev_index == varint(u32_of(outputs[i].txout.output_index@) as nat),
    ensures
        exists|j: int|
            0 <= j < inputs.len() && (#[trigger] inputs[j]).funding_output.txid
                == outputs[i].txout.txid && inputs[j].funding_output.vout == u32_of(
                outputs[i].txout.output_index@,
            ) && inputs[j].value == u64_of(outputs[i].txout.output_value@),
{
    let views = funding_views(outputs);
    assert(views[i] == outputs[i]@);
    law_stored_spender_found(items, rows, views, i, outputs[i].txout.txid, input, r);
    let all = spending_of(items, rows, views);
    let j = choose|j: int|
        0 <= j < all.len() && (#[trigger] all[j]).funding_output.txid == outputs[i].txout.txid
            && all[j].funding_output.vout == u32_of(views[i].fields.output_index)
            && all[j].value == u64_of(views[i].fields.output_value);
    assert(spending_views(inputs)[j] == inputs[j]@);
    assert(inputs[j].funding_output.txid == outputs[i].txout.txid);
}

/// Where a block spends an output of the script, the status has an input that spends it, with
/// its value, and the output is not listed as unspent.
pub proof fn law_spent_in_block(
    status: Status,
    items: Map<Txid, ItemView>,
    confirmed: Seq<RowView>,
    mempool: Seq<RowView>,
    scripthash: FullHash,
    unspent: Seq<FundingOutput>,
    i: int,
    input: InFields,
    r: int,
)
    requires
        is_status(status, items, confirmed, mempool, scripthash),
        is_unspent(unspent, unspent_map(status.all_funding(), status.all_spending())),
        forall|q: int|
            0 <= q < confirmed.len() && (#[trigger] confirmed[q]).key.len() > 0
                && confirmed[q].key[0] == 0x49 ==> InFields::read(confirmed[q].key) is Some,
        0 <= i < status.confirmed.0.len(),
        0 <= r < confirmed.len(),
        confirmed[r].key == input.bytes(),
        input.sized(),
        input.code == 0x49,
        input.prev_hash == status.confirmed.0[i].txout.txid@,
        input.prev_index == varint(u32_of(status.confirmed.0[i].txout.output_index@) as nat),
    ensures
        exists|j: int|
            0 <= j < status.confirmed.1.len() && (
            #[trigger] status.confirmed.1[j]).funding_output.txid
                == status.confirmed.0[i].txout.txid && status.confirmed.1[j].funding_output.vout
                == u32_of(status.confirmed.0[i].txout.output_index@) && status.confirmed.1[j].value
                == u64_of(status.confirmed.0[i].txout.output_value@),
        forall|k: int|
            0 <= k < unspent.len() ==> (#[trigger] unspent[k]).txout.txid
                != status.confirmed.0[i].txout.txid || u32_of(unspent[k].txout.output_index@)
                != u32_of(status.confirmed.0[i].txout.output_index@),
{
    lemma_part_spends(status.confirmed.0@, status.confirmed.1@, items, confirmed, i, input, r);
    let output = status.confirmed.0[i];
    let j = choose|j: int|
        0 <= j < status.confirmed.1@.len() && (
        #[trigger] status.confirmed.1@[j]).funding_output.txid == output.txout.txid
            && status.confirmed.1@[j].funding_output.vout == u32_of(output.txout.output_index@)
            && status.confirmed.1@[j].value == u64_of(output.txout.output_value@);
    assert(status.confirmed.1[j].funding_output.txid == output.txout.txid);
    assert((status.confirmed.1@ + status.mempool.1@)[j] == status.confirmed.1[j]);
    assert forall|k: int| 0 <= k < unspent.len() implies (#[trigger] unspent[k]).txout.txid
        != output.txout.txid || u32_of(unspent[k].txout.output_index@) != u32_of(
        output.txout.output_index@,
    ) by {
        law_listed_is_unspent(status, unspent, k, j);
    }
}

/// Where the mempool spends an output of the script, in a block or in the mempool, the status
/// has an input that spends it, with its value, and the output is not listed as unspent.
pub proof fn law_spent_in_mempool(
    status: Status,
    items: Map<Txid, ItemView>,
    confirmed: Seq<RowView>,
    mempool: Seq<RowView>,
    scripthash: FullHash,
    unspent: Seq<FundingOutput>,
    i: int,
    input: InFields,
    r: int,
)
    requires
        is_status(status, items, confirmed, mempool, scripthash),
        is_unspent(unspent, unspent_map(status.all_funding(), status.all_spending())),
        forall|q: int|
            0 <= q < mempool.len() && (#[trigger] mempool[q]).key.len() > 0 && mempool[q].key[0]
                == 0x49 ==> InFields::read(mempool[q].key) is Some,
        0 <= i < status.confirmed.0.len() + status.mempool.0.len(),
        0 <= r < mempool.len(),
        mempool[r].key == input.bytes(),
        input.sized(),
        input.code == 0x49,
        ({
            let output = (status.confirmed.0@ + status.mempool.0@)[i];
            &&& input.prev_hash == output.txout.txid@
            &&& input.prev_index == varint(u32_of(output.txout.output_index@) as nat)
        }),
    ensures
        ({
            let output = (status.confirmed.0@ + status.mempool.0@)[i];
            &&& exists|j: int|
                0 <= j < status.mempool.1.len() && (
                #[trigger] status.mempool.1[j]).funding_output.txid == output.txout.txid
                    && status.mempool.1[j].funding_output.vout == u32_of(
                    output.txout.output_index@,
                ) && status.mempool.1[j].value == u64_of(output.txout.output_value@)
            &&& forall|k: int|
                0 <= k < unspent.len() ==> (#[trigger] unspent[k]).txout.txid
                    != output.txout.txid || u32_of(unspent[k].txout.output_index@) != u32_of(
                    output.txout.output_index@,
                )
        }),
{
    let output = (status.confirmed.0@ + status.mempool.0@)[i];
    let both = status.mempool.0@ + status.confirmed.0@;
    let n = status.confirmed.0.len();
    let m = if i < n {
        status.mempool.0.len() + i
    } else {
        i - n
    };
    assert(both[m] == output);
    assert(funding_views(both) =~= funding_views(status.mempool.0@) + funding_views(
        status.confirmed.0@,
    ));
    lemma_part_spends(both, status.mempool.1@, items, mempool, m, input, r);
    let j = choose|j: int|
        0 <= j < status.mempool.1@.len() && (
        #[trigger] status.mempool.1@[j]).funding_output.txid == output.txout.txid
            && status.mempool.1@[j].funding_output.vout == u32_of(output.txout.output_index@)
            && status.mempool.1@[j].value == u64_of(output.txout.output_value@);
    assert(status.mempool.1[j].funding_output.txid == output.txout.txid);
    let place = status.confirmed.1.len() + j;
    assert((status.confirmed.1@ + status.mempool.1@)[place] == status.mempool.1[j]);
    assert forall|k: int| 0 <= k < unspent.len() implies (#[trigger] unspent[k]).txout.txid
        != output.txout.txid || u32_of(unspent[k].txout.output_index@) != u32_of(
        output.txout.output_index@,
    ) by {
        law_listed_is_unspent(status, unspent, k, place);
    }
}

/// The hash of a status is the SHA-256 of the bytes of its history, of all entries; a status
/// without outputs and inputs has none.
pub proof fn law_hash_of_history(status: Status, history: Seq<(i32, Txid)>)
    requires
        is_history(history, status.heights()),
    ensures
        history.len() == 0 ==> status.spec_hash() is None,
        history.len() > 0 ==> status.spec_hash() == Some(sha256(history_bytes(history))),
        history.len() == 0 <==> status.confirmed.0.len() + status.mempool.0.len()
            + status.confirmed.1.len() + status.mempool.1.len() == 0,
{
    let heights = status.heights();
    let pairs = history_pairs(history);
    let funding = status.confirmed.0@ + status.mempool.0@;
    let spending = status.confirmed.1@ + status.mempool.1@;
    assert(is_history(history_of(heights), heights));
    law_history_unique(history, history_of(heights), heights);
    lemma_history_entries(history, heights);
    if history.len() == 0 {
        assert forall|txid: Txid| !heights.contains_key(txid) by {
            if heights.contains_key(txid) {
                assert(history.contains((heights[txid], txid)));
            }
        }
        assert(heights =~= Map::<Txid, i32>::empty());
        if spending.len() > 0 {
            assert(heights.contains_key(spending.last().txin.txid));
        } else if funding.len() > 0 {
            assert(heights.contains_key(funding.last().txout.txid));
        }
    } else {
        assert(heights.contains_pair(pairs[0].0, pairs[0].1));
        law_history_names_transactions(status, history, 0);
    }
}

/// The rows of a script can be read for a status exactly if each row of an output to it reads as
/// one, with its numbers, and so does the first row of an input that spends each of these.
pub proof fn law_status_sound(
    items: Map<Txid, ItemView>,
    rows: Seq<RowView>,
    scripthash: FullHash,
)
    ensures
        txouts_sound(rows, scripthash) <==> forall|i: int|
            0 <= i < rows_under(rows, seq![0x4fu8] + scripthash@).len() ==> {
                let fields = OutFields::read(
                    (#[trigger] rows_under(rows, seq![0x4fu8] + scripthash@)[i]).key,
                );
                fields is Some && holds_u32(fields.unwrap().confirmed_height) && holds_u32(
                    fields.unwrap().output_index,
                ) && holds_u64(fields.unwrap().output_value)
            },
        status_sound(items, rows, scripthash) <==> txouts_sound(rows, scripthash) && forall|i: int|
            0 <= i < funding_of(items, rows, scripthash).len() ==> {
                let output = #[trigger] funding_of(items, rows, scripthash)[i];
                let found = rows_under(
                    rows,
                    txin_prefix(hash_in(output.fields.txid), u32_of(output.fields.output_index)),
                );
                found.len() > 0 ==> {
                    let fields = InFields::read(found[0].key);
                    fields is Some && holds_u32(fields.unwrap().prev_index) && holds_u32(
                        fields.unwrap().confirmed_height,
                    )
                }
            },
{
    let found = rows_under(rows, txout_prefix(scripthash));
    if txouts_sound(rows, scripthash) {
        assert forall|i: int| 0 <= i < found.len() implies OutFields::read(
            (#[trigger] found[i]).key,
        ) is Some && OutFields::read(found[i].key).unwrap().wf() by {
            assert(txouts_of(rows, scripthash)[i].wf());
        }
    }
    if forall|i: int|
        0 <= i < found.len() ==> OutFields::read((#[trigger] found[i]).key) is Some
            && OutFields::read(found[i].key).unwrap().wf() {
        assert forall|i: int| 0 <= i < txouts_of(rows, scripthash).len() implies (
        #[trigger] txouts_of(rows, scripthash)[i]).wf() by {
            assert(OutFields::read(found[i].key).unwrap().wf());
        }
    }
    let funding = funding_of(items, rows, scripthash);
    if status_sound(items, rows, scripthash) {
        assert forall|i: int| 0 <= i < funding.len() implies txin_sound(
            rows,
            hash_in((#[trigger] funding[i]).fields.txid),
            u32_of(funding[i].fields.output_index),
        ) by {
            assert(spender_sound(rows, funding[i]));
        }
    }
}

} // verus!
