//! What holds of the replies of the daemon, whatever they say.

use crate::chain::{parsed_transaction, BlockHeader, BlockView, TransactionView};
use crate::daemon::headers::{chunk_len, height_value, wanted_of};
use crate::daemon::http::{
    base64_text, divided_at, header_fields, header_place, header_value, http_request,
    lemma_header_place, shown_fields, shown_headers, ReplyView,
};
use crate::daemon::rpc::{
    batch_reply, batch_results, batch_view, reply_error, reply_result, request_view,
    results_outcome,
};
use crate::daemon::values::{
    block_value, hash_value, header_value as read_header, is_hex_of, tx_value,
};
use crate::daemon::{
    block_txids, broadcast_txid, collected, hash_or, hash_param, is_blk_name, mempool_fee,
    mempool_txids, mempool_vsize, name_order, outcome_all, outcome_seq,
};
use crate::errors::{Error, ErrorView};
use crate::hashes::{
    hash_text, hash_text_error, hex_error, hex_text, law_hash_text_read_back, law_hex_read_back,
    law_null_hash, lemma_hash_in, lex_less, null_hash, unhex, BlockHash, FullHash, Txid,
};
use crate::index::headers_tip;
use crate::index::laws::headers_chain;
use crate::json::{
    field_named, json_debug, json_text, object_debug, Json, JsonView, NumberView,
};
use crate::text::{decimal, parsed_usize, quoted, usize_error};
use crate::util::{header_follows, lemma_place_of, place_of, HeaderEntry};
use vstd::prelude::*;
use vstd::utf8::*;

verus! {

/// Of two fields with the same name the later one counts, and a field of another name is not
/// found.
pub proof fn law_field(
    fields: Seq<(Seq<char>, JsonView)>,
    name: Seq<char>,
    value: JsonView,
    wanted: Seq<char>,
)
    ensures
        JsonView::Object(fields.push((name, value))).field(name) == Some(value),
        name != wanted ==> JsonView::Object(fields.push((name, value))).field(wanted)
            == JsonView::Object(fields).field(wanted),
        JsonView::Object(Seq::empty()).field(wanted) is None,
        JsonView::Array(Seq::empty()).field(wanted) is None,
        JsonView::Null.field(wanted) is None,
        JsonView::Str(name).field(wanted) is None,
{
    assert(fields.push((name, value)).drop_last() =~= fields);
}

/// Values are collected in their order, as each of them is read; where one cannot be read, the
/// first such gives the error.
pub proof fn law_collected<T>(
    values: Seq<JsonView>,
    read: spec_fn(JsonView) -> Result<T, ErrorView>,
)
    ensures
        match collected(values, read) {
            Ok(all) => all.len() == values.len() && forall|i: int|
                0 <= i < values.len() ==> read(#[trigger] values[i]) == Ok::<T, ErrorView>(all[i]),
            Err(error) => exists|i: int|
                0 <= i < values.len() && read(#[trigger] values[i]) == Err::<T, ErrorView>(error)
                    && forall|j: int| 0 <= j < i ==> read(#[trigger] values[j]) is Ok,
        },
    decreases values.len(),
{
    if values.len() > 0 {
        let rest = values.drop_last();
        law_collected(rest, read);
        assert(values[values.len() - 1] == values.last());
        match collected(rest, read) {
            Ok(all) => {
                assert forall|i: int| 0 <= i < rest.len() implies read(#[trigger] values[i])
                    == Ok::<T, ErrorView>(all[i]) by {
                    assert(rest[i] == values[i]);
                }
            },
            Err(error) => {
                let i = choose|i: int|
                    0 <= i < rest.len() && read(#[trigger] rest[i]) == Err::<T, ErrorView>(error)
                        && forall|j: int| 0 <= j < i ==> read(#[trigger] rest[j]) is Ok;
                assert(values[i] == rest[i]);
                assert forall|j: int| 0 <= j < i implies read(#[trigger] values[j]) is Ok by {
                    assert(rest[j] == values[j]);
                }
            },
        }
    }
}

/// The error in a reply counts if it has a whole number as its code: the code -28, of a daemon
/// that is still starting, is a failed connection, and any other fails the method.
pub proof fn law_reply_error(reply: JsonView, method: Seq<char>)
    ensures
        ({
            let error = reply.field("error"@);
            let code = match error {
                Some(error) => match error.field("code"@) {
                    Some(JsonView::Number(NumberView::Unsigned(n))) => if n <= i64::MAX {
                        Some(n as int)
                    } else {
                        None
                    },
                    Some(JsonView::Number(NumberView::Negative(n))) => Some(n as int),
                    _ => None,
                },
                None => None,
            };
            &&& code is None ==> reply_error(reply, method) is None
            &&& code == Some(-28int) ==> reply_error(reply, method) == Some(
                ErrorView::Connection(json_text(error.unwrap())),
            )
            &&& code is Some && code != Some(-28int) ==> reply_error(reply, method) == Some(
                ErrorView::Message(method + " RPC error: "@ + json_text(error.unwrap())),
            )
        }),
{
}

/// A reply is answered with its result if it is an object without an error, with the id that was
/// asked for and with a result; otherwise the first of these that fails gives the error.
pub proof fn law_reply_result(reply: JsonView, method: Seq<char>, id: u64)
    ensures
        !(reply is Object) ==> reply_result(reply, method, id) == Err::<JsonView, ErrorView>(
            ErrorView::Message("non-object reply: "@ + json_debug(reply)),
        ),
        reply is Object && reply_error(reply, method) is Some ==> reply_result(reply, method, id)
            == Err::<JsonView, ErrorView>(reply_error(reply, method).unwrap()),
        reply is Object && reply_error(reply, method) is None && reply.field("id"@) is None
            ==> reply_result(reply, method, id) == Err::<JsonView, ErrorView>(
            ErrorView::Message("no id in reply: "@ + object_debug(reply)),
        ),
        reply is Object && reply_error(reply, method) is None && reply.field("id"@) is Some
            && reply.field("id"@) != Some(JsonView::Number(NumberView::Unsigned(id)))
            ==> reply_result(reply, method, id) == Err::<JsonView, ErrorView>(
            ErrorView::Message(
                "wrong "@ + method + " response id "@ + json_text(reply.field("id"@).unwrap())
                    + ", expected "@ + decimal(id as int),
            ),
        ),
        reply is Object && reply_error(reply, method) is None && reply.field("id"@) == Some(
            JsonView::Number(NumberView::Unsigned(id)),
        ) ==> reply_result(reply, method, id) == match reply.field("result"@) {
            Some(result) => Ok(result),
            None => Err(ErrorView::Message("no result in reply: "@ + object_debug(reply))),
        },
{
}

/// The replies to a batch are answered in their order, each with its result; where one fails, the
/// first such gives the error. What is no list of replies is an error.
pub proof fn law_batch_results(replies: Seq<JsonView>, method: Seq<char>, id: u64)
    ensures
        batch_reply(JsonView::Array(replies), method, id) == batch_results(replies, method, id),
        match batch_results(replies, method, id) {
            Ok(all) => all.len() == replies.len() && forall|i: int|
                0 <= i < replies.len() ==> reply_result(#[trigger] replies[i], method, id) == Ok::<
                    JsonView,
                    ErrorView,
                >(all[i]),
            Err(error) => exists|i: int|
                0 <= i < replies.len() && reply_result(#[trigger] replies[i], method, id) == Err::<
                    JsonView,
                    ErrorView,
                >(error) && forall|j: int|
                    0 <= j < i ==> reply_result(#[trigger] replies[j], method, id) is Ok,
        },
    decreases replies.len(),
{
    if replies.len() > 0 {
        let rest = replies.drop_last();
        law_batch_results(rest, method, id);
        assert(replies[replies.len() - 1] == replies.last());
        match batch_results(rest, method, id) {
            Ok(all) => {
                assert forall|i: int| 0 <= i < rest.len() implies reply_result(
                    #[trigger] replies[i],
                    method,
                    id,
                ) == Ok::<JsonView, ErrorView>(all[i]) by {
                    assert(rest[i] == replies[i]);
                }
            },
            Err(error) => {
                let i = choose|i: int|
                    0 <= i < rest.len() && reply_result(#[trigger] rest[i], method, id) == Err::<
                        JsonView,
                        ErrorView,
                    >(error) && forall|j: int|
                        0 <= j < i ==> reply_result(#[trigger] rest[j], method, id) is Ok;
                assert(replies[i] == rest[i]);
                assert forall|j: int| 0 <= j < i implies reply_result(
                    #[trigger] replies[j],
                    method,
                    id,
                ) is Ok by {
                    assert(rest[j] == replies[j]);
                }
            },
        }
    }
}

/// What is not a list is no reply to a batch.
pub proof fn law_replies_are_a_list(replies: JsonView, method: Seq<char>, id: u64)
    requires
        !(replies is Array),
    ensures
        batch_reply(replies, method, id) == Err::<Seq<JsonView>, ErrorView>(
            ErrorView::Message("non-array replies: "@ + json_debug(replies)),
        ),
{
}

/// Each request of a batch names the method, its own parameters and the id of the batch.
pub proof fn law_requests(method: Seq<char>, params_list: Seq<JsonView>, id: u64, i: int)
    requires
        0 <= i < params_list.len(),
    ensures
        batch_view(method, params_list, id) is Array,
        batch_view(method, params_list, id)->Array_0.len() == params_list.len(),
        ({
            let request = batch_view(method, params_list, id)->Array_0[i];
            &&& request is Object
            &&& request.field("method"@) == Some(JsonView::Str(method))
            &&& request.field("params"@) == Some(params_list[i])
            &&& request.field("id"@) == Some(JsonView::Number(NumberView::Unsigned(id)))
        }),
{
    reveal_strlit("id");
    reveal_strlit("method");
    reveal_strlit("params");
    assert("id"@.len() == 2 && "method"@.len() == 6 && "params"@.len() == 6);
    assert("method"@[0] != "params"@[0]);
    let fields = request_view(method, params_list[i], id)->Object_0;
    reveal_with_fuel(field_named, 4);
    assert(fields.drop_last().last() == fields[1]);
    assert(fields.drop_last().drop_last().last() == fields[0]);
}

/// The bytes of a header, a block or a transaction stand in a value in hexadecimal. What cannot
/// be read is an error that says what the bytes or the text were taken for.
pub proof fn law_values(value: JsonView, bytes: Seq<u8>, text: Seq<char>)
    ensures
        value == JsonView::Str(hex_text(bytes)) ==> {
            &&& tx_value(value) == match parsed_transaction(bytes) {
                Ok(tx) => Ok(tx),
                Err(cause) => Err(
                    ErrorView::caused_by("failed to parse tx "@ + hex_text(bytes), cause),
                ),
            }
            &&& block_value(value) == match crate::chain::parsed_block_transactions(bytes) {
                Ok(txdata) => Ok(
                    BlockView { header: crate::chain::header_in(bytes.take(80)), txdata },
                ),
                Err(cause) => Err(
                    ErrorView::caused_by("failed to parse block "@ + hex_text(bytes), cause),
                ),
            }
            &&& bytes.len() == 80 ==> read_header(value) == Ok::<BlockHeader, ErrorView>(
                crate::chain::header_in(bytes),
            )
            &&& bytes.len() != 80 ==> read_header(value) == Err::<BlockHeader, ErrorView>(
                ErrorView::caused_by(
                    "failed to parse header "@ + hex_text(bytes),
                    crate::chain::header_bytes_error(bytes),
                ),
            )
        },
        value == JsonView::Str(text) && unhex(encode_utf8(text)) is None ==> {
            &&& tx_value(value) == Err::<TransactionView, ErrorView>(
                ErrorView::caused_by("non-hex tx"@, hex_error(text)),
            )
            &&& block_value(value) == Err::<BlockView, ErrorView>(
                ErrorView::caused_by("non-hex block"@, hex_error(text)),
            )
            &&& read_header(value) == Err::<BlockHeader, ErrorView>(
                ErrorView::caused_by("non-hex header"@, hex_error(text)),
            )
        },
        !(value is Str) ==> {
            &&& tx_value(value) == Err::<TransactionView, ErrorView>(
                ErrorView::Message("non-string tx"@),
            )
            &&& block_value(value) == Err::<BlockView, ErrorView>(
                ErrorView::Message("non-string block"@),
            )
            &&& read_header(value) == Err::<BlockHeader, ErrorView>(
                ErrorView::Message("non-string header: "@ + json_text(value)),
            )
        },
{
    law_hex_read_back(bytes);
}

/// A hash stands in a value as it is shown. What is no such text is an error, under the text that
/// the question gives it.
pub proof fn law_hashes_in_values(value: JsonView, hash: FullHash, text: Seq<char>, why: Seq<char>)
    ensures
        value == JsonView::Str(hash_text(hash)) ==> {
            &&& hash_value(value) == Ok::<FullHash, ErrorView>(hash)
            &&& hash_or(value, why) == Ok::<FullHash, ErrorView>(hash)
            &&& broadcast_txid(value) == Ok::<Txid, ErrorView>(hash)
        },
        value == JsonView::Str(text) && (encode_utf8(text).len() != 64 || unhex(
            encode_utf8(text),
        ) is None) ==> {
            &&& hash_value(value) == Err::<FullHash, ErrorView>(
                ErrorView::caused_by("non-hex value: "@ + json_text(value), hash_text_error(text)),
            )
            &&& broadcast_txid(value) == Err::<Txid, ErrorView>(
                ErrorView::caused_by("failed to parse txid"@, hash_text_error(text)),
            )
        },
        !(value is Str) ==> {
            &&& hash_value(value) == Err::<FullHash, ErrorView>(
                ErrorView::Message("non-string value: "@ + json_text(value)),
            )
            &&& broadcast_txid(value) == Err::<Txid, ErrorView>(
                ErrorView::Message("non-string txid"@),
            )
        },
        hash_value(value) is Err ==> hash_or(value, why) == Err::<FullHash, ErrorView>(
            ErrorView::Caused(why, Box::new(hash_value(value)->Err_0)),
        ),
{
    law_hash_text_read_back(hash);
    lemma_hash_in(hash);
}

/// The ids of the transactions of a block are the hashes in its list `tx`; those of the mempool
/// are the hashes in the reply. What is no such list is an error.
pub proof fn law_txids(value: JsonView)
    ensures
        value.field("tx"@) is None ==> block_txids(value) == Err::<Seq<Txid>, ErrorView>(
            ErrorView::Message("block missing txids"@),
        ),
        value.field("tx"@) is Some && !(value.field("tx"@).unwrap() is Array) ==> block_txids(value)
            == Err::<Seq<Txid>, ErrorView>(ErrorView::Message("invalid block txids"@)),
        value.field("tx"@) is Some && value.field("tx"@).unwrap() is Array ==> block_txids(value)
            == collected(
            value.field("tx"@).unwrap()->Array_0,
            |value: JsonView| hash_value(value),
        ),
        value is Array ==> mempool_txids(value) == collected(
            value->Array_0,
            |value: JsonView| hash_or(value, "invalid txid"@),
        ),
        !(value is Array) ==> mempool_txids(value) == Err::<Seq<Txid>, ErrorView>(
            ErrorView::Message("non-array result"@),
        ),
{
}

/// The fee of an entry of the mempool is its number `fee`, and its size the whole number `size`,
/// or `vsize` where there is no `size`, of which 32 bits are kept.
pub proof fn law_mempool_entry(entry: JsonView)
    ensures
        mempool_fee(entry) == match entry.field("fee"@) {
            Some(JsonView::Number(fee)) => Ok(fee),
            Some(_) => Err(ErrorView::Message("non-float fee"@)),
            None => Err(ErrorView::Message("missing fee"@)),
        },
        entry.field("size"@) matches Some(JsonView::Number(NumberView::Unsigned(size)))
            ==> mempool_vsize(entry) == Ok::<u32, ErrorView>((size % 0x1_0000_0000) as u32),
        entry.field("size"@) is None && (entry.field("vsize"@) matches Some(
            JsonView::Number(NumberView::Unsigned(size)),
        )) ==> mempool_vsize(entry) == Ok::<u32, ErrorView>(
            (entry.field("vsize"@).unwrap().unsigned().unwrap() % 0x1_0000_0000) as u32,
        ),
        entry.field("size"@) is None && entry.field("vsize"@) is None ==> mempool_vsize(entry)
            == Err::<u32, ErrorView>(ErrorView::Message("missing vsize"@)),
        ({
            let size = if entry.field("size"@) is Some {
                entry.field("size"@)
            } else {
                entry.field("vsize"@)
            };
            size is Some && !(size matches Some(JsonView::Number(NumberView::Unsigned(_))))
        }) ==> mempool_vsize(entry) == Err::<u32, ErrorView>(
            ErrorView::Message("non-integer vsize"@),
        ),
{
    if let Some(JsonView::Number(NumberView::Unsigned(size))) = entry.field("size"@) {
        assert(size as u32 == (size % 0x1_0000_0000) as u32) by (bit_vector);
    }
    if let Some(JsonView::Number(NumberView::Unsigned(size))) = entry.field("vsize"@) {
        assert(size as u32 == (size % 0x1_0000_0000) as u32) by (bit_vector);
    }
}

/// The height of a header is the whole number `height` of its description, if that is one.
pub proof fn law_height(info: JsonView)
    ensures
        height_value(info) == match info.field("height"@) {
            Some(JsonView::Number(NumberView::Unsigned(height))) => Some(height),
            _ => None,
        },
{
}

/// A file holds blocks if its name begins with `blk` and ends with `.dat`.
pub proof fn law_blk_name(name: Seq<u8>)
    ensures
        is_blk_name(name) <==> name.len() >= 4 && name[0] == 'b' as u8 && name[1] == 'l' as u8
            && name[2] == 'k' as u8 && name[name.len() - 4] == '.' as u8 && name[name.len() - 3]
            == 'd' as u8 && name[name.len() - 2] == 'a' as u8 && name[name.len() - 1] == 't' as u8,
{
    reveal_strlit("blk");
    reveal_strlit(".dat");
    assert(is_ascii_chars("blk"@) && is_ascii_chars(".dat"@));
    is_ascii_chars_encode_utf8("blk"@);
    is_ascii_chars_encode_utf8(".dat"@);
    let (start, end) = (encode_utf8("blk"@), encode_utf8(".dat"@));
    let n = name.len() as int;
    assert(start.len() == 3 && end.len() == 4);
    assert(start[0] == 'b' as u8 && start[1] == 'l' as u8 && start[2] == 'k' as u8);
    assert(end[0] == '.' as u8 && end[1] == 'd' as u8 && end[2] == 'a' as u8 && end[3] == 't' as u8);
    if n >= 4 {
        let (front, back) = (name.subrange(0, 3), name.subrange(n - 4, n));
        assert(front[0] == name[0] && front[1] == name[1] && front[2] == name[2]);
        assert(back[0] == name[n - 4] && back[1] == name[n - 3] && back[2] == name[n - 2] && back[3]
            == name[n - 1]);
        if is_blk_name(name) {
            assert(start == front);
            assert(end == back);
        }
        if name[0] == 'b' as u8 && name[1] == 'l' as u8 && name[2] == 'k' as u8 && name[n - 4]
            == '.' as u8 && name[n - 3] == 'd' as u8 && name[n - 2] == 'a' as u8 && name[n - 1]
            == 't' as u8 {
            assert(start =~= front);
            assert(end =~= back);
        }
    }
}

/// One name may stand before another unless its bytes come behind those of the other.
pub proof fn law_name_order(a: &str, b: &str)
    ensures
        name_order(a, b) <==> encode_utf8(a@) == encode_utf8(b@) || lex_less(
            encode_utf8(a@),
            encode_utf8(b@),
        ),
{
    crate::hashes::lemma_lex_total(encode_utf8(a@), encode_utf8(b@));
}

/// A hundred thousand headers are asked for at a time, or as many as are left up to the tip.
pub proof fn law_chunk(from: int, tip_height: int)
    ensures
        from > tip_height ==> chunk_len(from, tip_height) == 0,
        from <= tip_height && tip_height + 1 - from <= 100_000 ==> chunk_len(from, tip_height)
            == tip_height + 1 - from,
        tip_height + 1 - from >= 100_000 ==> chunk_len(from, tip_height) == 100_000,
{
}

/// A block is fetched unless its hash is all zeroes or it is known.
pub proof fn law_wanted(next: BlockHash, indexed: Seq<HeaderEntry>)
    ensures
        wanted_of(next, indexed) is None <==> (forall|b: int|
            0 <= b < 32 ==> #[trigger] next@[b] == 0) || (exists|i: int|
            0 <= i < indexed.len() && (#[trigger] indexed[i]).hash == next),
        wanted_of(next, indexed) is Some ==> wanted_of(next, indexed) == Some(next),
{
    law_null_hash(next);
    lemma_place_of(indexed, next);
    if let Some(i) = place_of(indexed, next) {
        assert(indexed[i].hash == next);
    }
}

/// Headers are a chain from the first block on if the first names the hash of all zeroes and each
/// other the hash of the one before it; the tip is the hash of the last.
pub proof fn law_headers_chain(headers: Seq<BlockHeader>)
    ensures
        headers_chain(headers) <==> forall|i: int|
            0 <= i < headers.len() ==> (#[trigger] headers[i]).prev_blockhash == if i == 0 {
                null_hash()
            } else {
                crate::hashes::sha256d(headers[i - 1].bytes())
            },
        headers_tip(headers) == if headers.len() == 0 {
            null_hash()
        } else {
            crate::hashes::sha256d(headers[headers.len() - 1].bytes())
        },
{
    if headers_chain(headers) {
        assert forall|i: int| 0 <= i < headers.len() implies (
        #[trigger] headers[i]).prev_blockhash == if i == 0 {
            null_hash()
        } else {
            crate::hashes::sha256d(headers[i - 1].bytes())
        } by {
            if i > 0 {
                assert(header_follows(headers, i));
            }
        }
    }
}

/// A request is posted with the cookie of the user in base 64, the length of its text in bytes,
/// an empty line and the text.
pub proof fn law_request_message(cookie: Seq<u8>, request: Seq<char>)
    ensures
        http_request(cookie, request) == "POST / HTTP/1.1\nAuthorization: Basic "@ + base64_text(
            cookie,
        ) + "\nContent-Length: "@ + decimal(encode_utf8(request).len() as int) + "\n\n"@ + request,
{
}

proof fn lemma_divided(line: Seq<char>, from: int, at: int)
    requires
        0 <= from <= at,
        at + 1 < line.len(),
        line[at] == ':' && line[at + 1] == ' ',
        forall|k: int| from <= k < at ==> !(#[trigger] line[k] == ':' && line[k + 1] == ' '),
    ensures
        divided_at(line, from) == Some(at),
    decreases at - from,
{
    if from < at {
        assert(!(line[from] == ':' && line[from + 1] == ' '));
        lemma_divided(line, from + 1, at);
    }
}

proof fn lemma_not_divided(line: Seq<char>, from: int)
    requires
        0 <= from,
        forall|k: int|
            from <= k < line.len() - 1 ==> !(#[trigger] line[k] == ':' && line[k + 1] == ' '),
    ensures
        divided_at(line, from) is None,
    decreases line.len() - from,
{
    if from + 1 < line.len() {
        assert(!(line[from] == ':' && line[from + 1] == ' '));
        lemma_not_divided(line, from + 1);
    }
}

/// A header line is divided at its first colon with a space behind it: the name stands before
/// them, the value behind them. A line without them is no header.
pub proof fn law_header_line(line: Seq<char>, at: int)
    ensures
        0 <= at && at + 1 < line.len() && line[at] == ':' && line[at + 1] == ' ' && (forall|k: int|
            0 <= k < at ==> !(#[trigger] line[k] == ':' && line[k + 1] == ' ')) ==> header_fields(
            line,
        ) == Some((line.take(at), line.skip(at + 2))),
        (forall|k: int|
            0 <= k < line.len() - 1 ==> !(#[trigger] line[k] == ':' && line[k + 1] == ' '))
            ==> header_fields(line) is None,
{
    if 0 <= at && at + 1 < line.len() && line[at] == ':' && line[at + 1] == ' ' && (forall|k: int|
        0 <= k < at ==> !(#[trigger] line[k] == ':' && line[k + 1] == ' ')) {
        lemma_divided(line, 0, at);
    }
    if forall|k: int|
        0 <= k < line.len() - 1 ==> !(#[trigger] line[k] == ':' && line[k + 1] == ' ') {
        lemma_not_divided(line, 0);
    }
}

/// Another value under a name leaves the places of the other names.
proof fn lemma_place_kept(
    headers: Seq<(Seq<char>, Seq<char>)>,
    at: int,
    value: Seq<char>,
    name: Seq<char>,
)
    requires
        0 <= at < headers.len(),
    ensures
        header_place(headers.update(at, (headers[at].0, value)), name) == header_place(
            headers,
            name,
        ),
    decreases headers.len(),
{
    let after = headers.update(at, (headers[at].0, value));
    if headers.last().0 != name {
        if at < headers.len() - 1 {
            lemma_place_kept(headers.drop_last(), at, value, name);
            assert(after.drop_last() =~= headers.drop_last().update(at, (headers[at].0, value)));
        } else {
            assert(after.drop_last() =~= headers.drop_last());
        }
    }
}

/// What a line does to a reply that is being read. An empty line ends the headers. A line before
/// it is a header, which counts in place of an earlier one with its name, or is passed over. A
/// line behind it is the contents.
pub proof fn law_reply_line(reply: ReplyView, line: Seq<char>, other: Seq<char>)
    ensures
        reply.after(line).status == reply.status,
        line.len() == 0 ==> !reply.after(line).in_header && reply.after(line).headers
            == reply.headers && reply.after(line).contents == reply.contents,
        line.len() > 0 ==> reply.after(line).in_header == reply.in_header,
        line.len() > 0 && !reply.in_header ==> reply.after(line).contents == Some(line)
            && reply.after(line).headers == reply.headers,
        line.len() > 0 && reply.in_header ==> reply.after(line).contents == reply.contents,
        line.len() > 0 && reply.in_header && header_fields(line) is None ==> reply.after(
            line,
        ).headers == reply.headers,
        line.len() > 0 && reply.in_header ==> (header_fields(line) matches Some((name, value)) ==> {
            &&& header_value(reply.after(line).headers, name) == Some(value)
            &&& other != name ==> header_value(reply.after(line).headers, other) == header_value(
                reply.headers,
                other,
            )
        }),
{
    if line.len() > 0 && reply.in_header {
        if let Some((name, value)) = header_fields(line) {
            let (before, after) = (reply.headers, reply.after(line).headers);
            lemma_header_place(before, name);
            lemma_header_place(before, other);
            match header_place(before, name) {
                Some(i) => {
                    assert(before.update(i, (name, value)) =~= before.update(
                        i,
                        (before[i].0, value),
                    ));
                    lemma_place_kept(before, i, value, name);
                    lemma_place_kept(before, i, value, other);
                },
                None => {
                    assert(after.drop_last() =~= before);
                },
            }
        }
    }
}

/// The value of a header is the one that stands under its name; a name that is not there has
/// none.
pub proof fn law_header_value(headers: Seq<(Seq<char>, Seq<char>)>, name: Seq<char>)
    ensures
        match header_value(headers, name) {
            Some(value) => exists|i: int|
                0 <= i < headers.len() && #[trigger] headers[i] == (name, value),
            None => forall|i: int| 0 <= i < headers.len() ==> (#[trigger] headers[i]).0 != name,
        },
{
    lemma_header_place(headers, name);
    if let Some(i) = header_place(headers, name) {
        assert(headers[i] == (name, headers[i].1));
    }
}

/// What a reply carries are its contents, if they and the end of their line are as long as the
/// header says and the status is one of two; otherwise the first of these that fails gives the
/// error.
pub proof fn law_reply_carried(reply: ReplyView, length: nat)
    ensures
        reply.contents is None ==> reply.carried() == Err::<Seq<char>, ErrorView>(
            ErrorView::Connection("no reply from daemon"@),
        ),
        reply.contents is Some && header_value(reply.headers, "Content-Length"@) is None
            ==> reply.carried() == Err::<Seq<char>, ErrorView>(
            ErrorView::Message("Content-Length is missing: "@ + shown_headers(reply.headers)),
        ),
        reply.contents is Some ==> (header_value(reply.headers, "Content-Length"@) matches Some(
            text,
        ) ==> {
            let contents = reply.contents.unwrap();
            let size = encode_utf8(contents).len();
            &&& parsed_usize(text) is None ==> reply.carried() == Err::<Seq<char>, ErrorView>(
                ErrorView::caused_by(
                    "invalid Content-Length: "@ + quoted(text),
                    usize_error(text),
                ),
            )
            &&& parsed_usize(text) == Some(length) && length > 0 && length != size + 1
                ==> reply.carried() == Err::<Seq<char>, ErrorView>(
                ErrorView::Connection(
                    "expected "@ + decimal(length - 1) + " bytes, got "@ + decimal(size as int),
                ),
            )
            &&& parsed_usize(text) == Some(size + 1) && (reply.status == "HTTP/1.1 200 OK"@
                || reply.status == "HTTP/1.1 500 Internal Server Error"@) ==> reply.carried()
                == Ok::<Seq<char>, ErrorView>(contents)
            &&& parsed_usize(text) == Some(size + 1) && reply.status != "HTTP/1.1 200 OK"@
                && reply.status != "HTTP/1.1 500 Internal Server Error"@ ==> reply.carried()
                == Err::<Seq<char>, ErrorView>(
                ErrorView::Message(
                    "request failed "@ + quoted(reply.status) + ": "@ + shown_headers(reply.headers)
                        + " = "@ + quoted(contents),
                ),
            )
            &&& reply.carried() is Ok ==> reply.carried() == Ok::<Seq<char>, ErrorView>(contents)
                && parsed_usize(text) == Some(size + 1)
        }),
{
}

/// Headers are shown in an error in their order, each name and each value in quotes.
pub proof fn law_shown_headers(
    headers: Seq<(Seq<char>, Seq<char>)>,
    name: Seq<char>,
    value: Seq<char>,
)
    ensures
        shown_headers(headers) == "{"@ + shown_fields(headers) + "}"@,
        shown_fields(Seq::empty()).len() == 0,
        shown_fields(headers.push((name, value))) == if headers.len() == 0 {
            quoted(name) + ": "@ + quoted(value)
        } else {
            shown_fields(headers) + ", "@ + (quoted(name) + ": "@ + quoted(value))
        },
{
    assert(headers.push((name, value)).drop_last() =~= headers);
}

/// Collected results are their items one for one, in their order, or what their error holds.
pub proof fn law_outcomes<T, U: View>(
    items: Vec<T>,
    seen: Vec<U>,
    results: Vec<Json>,
    error: Error,
    i: int,
)
    ensures
        outcome_seq(Ok::<Vec<T>, Error>(items)) == Ok::<Seq<T>, ErrorView>(items@),
        outcome_seq(Err::<Vec<T>, Error>(error)) == Err::<Seq<T>, ErrorView>(error@),
        outcome_all(Ok::<Vec<U>, Error>(seen)) matches Ok(all) && all.len() == seen.len() && (0 <= i
            < seen.len() ==> all[i] == seen[i]@),
        outcome_all(Err::<Vec<U>, Error>(error)) == Err::<Seq<U::V>, ErrorView>(error@),
        results_outcome(Ok::<Vec<Json>, Error>(results)) matches Ok(all) && all.len()
            == results.len() && (0 <= i < results.len() ==> all[i] == results[i]@),
        results_outcome(Err::<Vec<Json>, Error>(error)) == Err::<Seq<JsonView>, ErrorView>(error@),
{
}

/// A hash is handed over as it is shown, and a value that holds bytes in hexadecimal holds those
/// bytes and no others.
pub proof fn law_hash_param(hash: FullHash, bytes: Seq<u8>, other: Seq<u8>)
    ensures
        hash_param(hash) == JsonView::Str(hash_text(hash)),
        is_hex_of(JsonView::Str(hex_text(bytes)), bytes),
        is_hex_of(JsonView::Str(hex_text(bytes)), other) ==> other == bytes,
        !is_hex_of(JsonView::Null, bytes),
{
    law_hex_read_back(bytes);
}

} // verus!
