//! The requests to the daemon and the frame of its replies.

use crate::errors::{outcome_view, Error, ErrorView};
use crate::hashes::lex_less;
use crate::json::{
    debug_json, debug_object, field_named, field_views, item_views, json_debug, json_text,
    kept_fields, kept_items, kept_json, lemma_array_view, lemma_kept_array, lemma_object_view,
    object_debug, parse_json, parsed_json, write_json, Json, JsonView, NumberView,
};
use crate::text::{decimal, same_text, u64_text};
use vstd::prelude::*;
use vstd::utf8::*;

verus! {

/// Reads the body of a response.
pub fn parse_response(response: &str) -> (json: Result<Json, Error>)
    ensures
        outcome_view(json) == match parsed_json(response@) {
            Ok(json) => Ok(json),
            Err(cause) => Err(ErrorView::caused_by("invalid JSON"@, cause)),
        },
{
    match parse_json(response) {
        Ok(json) => Ok(json),
        Err(cause) => Err(Error::caused_by("invalid JSON", cause)),
    }
}

/// The code with which the daemon says that it is still starting.
pub const RPC_IN_WARMUP: i64 = -28;

/// The code of an error, if it has one.
pub open spec fn error_code(err: JsonView) -> Option<i64> {
    match err.field("code"@) {
        Some(code) => code.signed(),
        None => None,
    }
}

/// The code of an error, if it has one.
pub fn parse_error_code(err: &Json) -> (code: Option<i64>)
    ensures
        code == error_code(err@),
{
    if err.is_null() {
        return None;
    }
    match err.get("code") {
        Some(code) => code.as_i64(),
        None => None,
    }
}

/// The error in a reply: a failed connection if the daemon is still starting.
pub open spec fn reply_error(reply: JsonView, method: Seq<char>) -> Option<ErrorView> {
    match reply.field("error"@) {
        Some(err) => match error_code(err) {
            Some(code) => if code == RPC_IN_WARMUP {
                Some(ErrorView::Connection(json_text(err)))
            } else {
                Some(ErrorView::Message(method + " RPC error: "@ + json_text(err)))
            },
            None => None,
        },
        None => None,
    }
}

/// Fails if the reply holds an error with a code.
pub fn check_error_code(reply: &Json, method: &str) -> (result: Result<(), Error>)
    ensures
        match result {
            Ok(_) => reply_error(reply@, method@) is None,
            Err(error) => reply_error(reply@, method@) == Some(error@),
        },
{
    if let Some(err) = reply.get("error") {
        if let Some(code) = parse_error_code(err) {
            if code == RPC_IN_WARMUP {
                return Err(Error::Connection(write_json(err)));
            } else {
                let text = String::from_str(method).concat(" RPC error: ").concat(&write_json(err));
                return Err(Error::Message(text));
            }
        }
    }
    Ok(())
}

/// What a reply says that the id `expected` was asked for.
pub open spec fn reply_result(reply: JsonView, method: Seq<char>, expected: u64) -> Result<
    JsonView,
    ErrorView,
> {
    if !(reply is Object) {
        Err(ErrorView::Message("non-object reply: "@ + json_debug(reply)))
    } else {
        match reply_error(reply, method) {
            Some(error) => Err(error),
            None => match reply.field("id"@) {
                None => Err(ErrorView::Message("no id in reply: "@ + object_debug(reply))),
                Some(id) => if id.unsigned() != Some(expected) {
                    Err(
                        ErrorView::Message(
                            "wrong "@ + method + " response id "@ + json_text(id) + ", expected "@
                                + decimal(expected as int),
                        ),
                    )
                } else {
                    match reply.field("result"@) {
                        Some(result) => Ok(result),
                        None => Err(
                            ErrorView::Message("no result in reply: "@ + object_debug(reply)),
                        ),
                    }
                },
            },
        }
    }
}

/// Takes the last field with this name out of an object.
fn take_field(reply: Json, name: &str) -> (field: Option<Json>)
    ensures
        match field {
            Some(field) => reply@.field(name@) == Some(field@),
            None => reply@.field(name@) is None,
        },
{
    match reply {
        Json::Object(fields) => {
            let mut fields = fields;
            let ghost views = field_views(fields@);
            proof {
                lemma_object_view(fields);
            }
            assert(views.take(views.len() as int) =~= views);
            while fields.len() > 0
                invariant
                    fields.len() <= views.len(),
                    reply@ == JsonView::Object(views),
                    field_views(fields@) == views.take(fields.len() as int),
                    field_named(views, name@) == field_named(
                        views.take(fields.len() as int),
                        name@,
                    ),
                decreases fields.len(),
            {
                let ghost before = fields@;
                let ghost n = fields.len() as int;
                assert(field_views(before)[n - 1] == views[n - 1]);
                let (field, value) = fields.pop().unwrap();
                assert(views.take(n).drop_last() =~= views.take(n - 1));
                assert(field_views(fields@) =~= field_views(before).take(n - 1));
                assert(field_views(before).take(n - 1) =~= views.take(n - 1));
                if same_text(field.as_str(), name) {
                    return Some(value);
                }
            }
            None
        },
        _ => None,
    }
}

/// What a reply to the request `expected_id` says.
pub fn parse_jsonrpc_reply(reply: Json, method: &str, expected_id: u64) -> (result: Result<
    Json,
    Error,
>)
    ensures
        outcome_view(result) == reply_result(reply@, method@, expected_id),
{
    if !reply.is_object() {
        return Err(
            Error::Message(String::from_str("non-object reply: ").concat(&debug_json(&reply))),
        );
    }
    if let Err(error) = check_error_code(&reply, method) {
        return Err(error);
    }
    match reply.get("id") {
        None => {
            return Err(
                Error::Message(String::from_str("no id in reply: ").concat(&debug_object(&reply))),
            );
        },
        Some(id) => {
            if id.as_u64() != Some(expected_id) {
                let text = String::from_str("wrong ").concat(method).concat(
                    " response id ",
                ).concat(&write_json(id)).concat(", expected ").concat(&u64_text(expected_id));
                return Err(Error::Message(text));
            }
        },
    }
    if reply.get("result").is_none() {
        return Err(
            Error::Message(String::from_str("no result in reply: ").concat(&debug_object(&reply))),
        );
    }
    Ok(take_field(reply, "result").unwrap())
}

/// What the replies to a batch say, up to the first that fails.
pub open spec fn batch_results(replies: Seq<JsonView>, method: Seq<char>, id: u64) -> Result<
    Seq<JsonView>,
    ErrorView,
>
    decreases replies.len(),
{
    if replies.len() == 0 {
        Ok(Seq::empty())
    } else {
        match batch_results(replies.drop_last(), method, id) {
            Ok(results) => match reply_result(replies.last(), method, id) {
                Ok(result) => Ok(results.push(result)),
                Err(error) => Err(error),
            },
            Err(error) => Err(error),
        }
    }
}

/// What the replies to the requests of a batch with this id say.
pub open spec fn batch_reply(replies: JsonView, method: Seq<char>, id: u64) -> Result<
    Seq<JsonView>,
    ErrorView,
> {
    match replies.items() {
        Some(items) => batch_results(items, method, id),
        None => Err(ErrorView::Message("non-array replies: "@ + json_debug(replies))),
    }
}

/// A batch fails as its first failing reply does.
proof fn lemma_batch_fails(replies: Seq<JsonView>, method: Seq<char>, id: u64, n: int)
    requires
        0 <= n <= replies.len(),
        batch_results(replies.take(n), method, id) is Err,
    ensures
        batch_results(replies, method, id) == batch_results(replies.take(n), method, id),
    decreases replies.len() - n,
{
    if n < replies.len() {
        assert(replies.take(n + 1).drop_last() =~= replies.take(n));
        lemma_batch_fails(replies, method, id, n + 1);
    } else {
        assert(replies.take(n) =~= replies);
    }
}

/// The contents of the results.
pub open spec fn results_outcome(results: Result<Vec<Json>, Error>) -> Result<
    Seq<JsonView>,
    ErrorView,
> {
    match results {
        Ok(results) => Ok(item_views(results@)),
        Err(error) => Err(error@),
    }
}

/// What the replies to the requests of a batch with this id say.
pub fn parse_batch(replies: Json, method: &str, id: u64) -> (results: Result<Vec<Json>, Error>)
    ensures
        results_outcome(results) == batch_reply(replies@, method@, id),
{
    match replies {
        Json::Array(items) => {
            let ghost all = item_views(items@);
            let ghost listed = items@;
            proof {
                lemma_array_view(items);
            }
            let mut results: Vec<Json> = Vec::new();
            assert(all.take(0) =~= Seq::empty());
            assert(item_views(results@) =~= Seq::empty());
            for reply in it: items
                invariant
                    it.seq() == listed,
                    all == item_views(listed),
                    replies@ == JsonView::Array(all),
                    batch_results(all.take(it.index() as int), method@, id) == Ok::<
                        Seq<JsonView>,
                        ErrorView,
                    >(item_views(results@)),
            {
                let ghost i = it.index() as int;
                let ghost before = item_views(results@);
                assert(all[i] == reply@);
                assert(all.take(i + 1).drop_last() =~= all.take(i));
                match parse_jsonrpc_reply(reply, method, id) {
                    Ok(result) => {
                        results.push(result);
                        assert(item_views(results@) =~= before.push(result@));
                    },
                    Err(error) => {
                        proof {
                            lemma_batch_fails(all, method@, id, i + 1);
                        }
                        return Err(error);
                    },
                }
            }
            assert(all.take(all.len() as int) =~= all);
            Ok(results)
        },
        other => Err(
            Error::Message(String::from_str("non-array replies: ").concat(&debug_json(&other))),
        ),
    }
}

/// The one reply to a batch of one request; nothing if there are more replies or none.
pub fn single_reply(values: Vec<Json>) -> (value: Option<Json>)
    ensures
        value is Some <==> values.len() == 1,
        value matches Some(value) ==> value@ == values[0]@,
{
    let mut values = values;
    if values.len() == 1 {
        values.pop()
    } else {
        None
    }
}

/// How many seconds the daemon is given before it is tried again.
pub const RETRY_SECONDS: u64 = 3;

/// After how many seconds a request is to be tried again over a new connection, if it is.
pub fn retry_after(error: &Error) -> (seconds: Option<u64>)
    ensures
        seconds == if error@.is_connection() {
            Some(RETRY_SECONDS)
        } else {
            None
        },
{
    if error.is_connection() {
        Some(RETRY_SECONDS)
    } else {
        None
    }
}

/// One request.
pub open spec fn request_view(method: Seq<char>, params: JsonView, id: u64) -> JsonView {
    JsonView::Object(
        seq![
            ("id"@, JsonView::Number(NumberView::Unsigned(id))),
            ("method"@, JsonView::Str(method)),
            ("params"@, params),
        ],
    )
}

/// One request.
fn request(method: &str, params: Json, id: u64) -> (request: Json)
    ensures
        request@ == request_view(method@, params@, id),
{
    let fields: Vec<(String, Json)> = vec![
        (String::from_str("id"), Json::unsigned(id)),
        (String::from_str("method"), Json::Str(String::from_str(method))),
        (String::from_str("params"), params),
    ];
    proof {
        lemma_object_view(fields);
        assert(field_views(fields@) =~= request_view(method@, params@, id)->Object_0);
    }
    Json::Object(fields)
}

/// A batch of requests for the same method with the same id, one for each of the parameters.
pub open spec fn batch_view(method: Seq<char>, params_list: Seq<JsonView>, id: u64) -> JsonView {
    JsonView::Array(params_list.map_values(|params: JsonView| request_view(method, params, id)))
}

/// A batch of requests for the same method with the same id, one for each of the parameters.
pub fn request_batch(method: &str, params_list: Vec<Json>, id: u64) -> (batch: Json)
    ensures
        batch@ == batch_view(method@, item_views(params_list@), id),
{
    let ghost all = item_views(params_list@);
    let ghost listed = params_list@;
    let ghost wanted = batch_view(method@, all, id)->Array_0;
    let mut requests: Vec<Json> = Vec::new();
    for params in it: params_list
        invariant
            it.seq() == listed,
            all == item_views(listed),
            wanted == batch_view(method@, all, id)->Array_0,
            item_views(requests@) =~= wanted.take(it.index() as int),
    {
        let ghost i = it.index() as int;
        let ghost before = item_views(requests@);
        assert(all[i] == params@);
        requests.push(request(method, params, id));
        assert(item_views(requests@) =~= before.push(wanted[i]));
    }
    assert(wanted.take(wanted.len() as int) =~= wanted);
    proof {
        lemma_array_view(requests);
    }
    Json::Array(requests)
}

/// Counts the requests, so that each batch has an id of its own.
pub struct Counter {
    value: u64,
}

impl Counter {
    /// The last number that was given out.
    pub closed spec fn last(&self) -> u64 {
        self.value
    }

    /// A counter that has given out no number yet.
    pub fn new() -> (counter: Counter)
        ensures
            counter.last() == 0,
    {
        Counter { value: 0 }
    }

    /// Whether there is a next number.
    pub fn has_next(&self) -> (has_next: bool)
        ensures
            has_next == (self.last() < u64::MAX),
    {
        self.value < u64::MAX
    }

    /// The next number.
    pub fn next(&mut self) -> (number: u64)
        requires
            old(self).last() < u64::MAX,
        ensures
            number == old(self).last() + 1,
            final(self).last() == number,
    {
        self.value = self.value + 1;
        self.value
    }
}

/// A reply that repeats the id of its request, holds no error and holds a result is answered
/// with that result.
pub proof fn law_result_returned(id: u64, method: Seq<char>, result: JsonView)
    ensures
        reply_result(
            JsonView::Object(
                seq![
                    ("error"@, JsonView::Null),
                    ("id"@, JsonView::Number(NumberView::Unsigned(id))),
                    ("result"@, result),
                ],
            ),
            method,
            id,
        ) == Ok::<JsonView, ErrorView>(result),
{
    reveal_strlit("error");
    reveal_strlit("id");
    reveal_strlit("result");
    let fields = seq![
        ("error"@, JsonView::Null),
        ("id"@, JsonView::Number(NumberView::Unsigned(id))),
        ("result"@, result),
    ];
    assert("error"@.len() == 5 && "id"@.len() == 2 && "result"@.len() == 6);
    reveal_with_fuel(field_named, 4);
    assert(fields.drop_last().last() == fields[1]);
    assert(fields.drop_last().drop_last().last() == fields[0]);
}

/// A request is written with its fields in this order, and with its parameters as they are
/// written.
pub proof fn law_request_kept(method: Seq<char>, params: JsonView, id: u64)
    ensures
        kept_json(request_view(method, params, id)) == request_view(method, kept_json(params), id),
{
    reveal_strlit("id");
    reveal_strlit("method");
    reveal_strlit("params");
    assert(is_ascii_chars("id"@) && is_ascii_chars("method"@) && is_ascii_chars("params"@));
    is_ascii_chars_encode_utf8("id"@);
    is_ascii_chars_encode_utf8("method"@);
    is_ascii_chars_encode_utf8("params"@);
    let (x, y, z) = (encode_utf8("id"@), encode_utf8("method"@), encode_utf8("params"@));
    assert(x[0] == 'i' as u8 && y[0] == 'm' as u8 && z[0] == 'p' as u8);
    assert(lex_less(x, y) && lex_less(y, z));
    assert("id"@[0] != "method"@[0] && "method"@[0] != "params"@[0]);
    let fields = request_view(method, params, id)->Object_0;
    let wanted = request_view(method, kept_json(params), id)->Object_0;
    let (one, two) = (fields.take(1), fields.take(2));
    reveal_with_fuel(kept_fields, 2);
    reveal_with_fuel(kept_json, 2);
    assert(one.drop_last() =~= Seq::empty());
    assert(kept_fields(one) =~= seq![wanted[0]]);
    assert(two.drop_last() =~= one);
    assert(kept_fields(two) =~= seq![wanted[0], wanted[1]]);
    assert(fields.drop_last() =~= two);
    assert(kept_fields(fields) =~= wanted);
}

/// A batch is written as the requests in it are, one for each of the parameters.
pub proof fn law_batch_kept(method: Seq<char>, params_list: Seq<JsonView>, id: u64)
    ensures
        kept_json(batch_view(method, params_list, id)) == batch_view(
            method,
            kept_items(params_list),
            id,
        ),
{
    let requests = batch_view(method, params_list, id)->Array_0;
    lemma_kept_array(requests);
    assert forall|i: int| 0 <= i < params_list.len() implies #[trigger] kept_items(requests)[i]
        == request_view(method, kept_json(params_list[i]), id) by {
        law_request_kept(method, params_list[i], id);
    }
    assert(kept_items(requests) =~= batch_view(method, kept_items(params_list), id)->Array_0);
}

} // verus!
