//! JSON values.

use crate::hashes::lex_less;
use crate::text::same_text;
use serde_json::{Number, Value};
use vstd::prelude::*;
use vstd::utf8::*;

verus! {

/// `serde_json`'s representation of a number.
#[verifier::external_type_specification]
#[verifier::external_body]
pub struct ExNumber(serde_json::Number);

/// What a number holds.
pub enum NumberView {
    /// A whole number that is not negative.
    Unsigned(u64),
    /// A negative whole number.
    Negative(i64),
    /// Any other number, as `serde_json` writes it.
    Float(Seq<char>),
}

impl NumberView {
    /// The number, if it is a whole one that a signed number can hold.
    pub open spec fn signed(self) -> Option<i64> {
        match self {
            NumberView::Unsigned(n) => if n <= i64::MAX {
                Some(n as i64)
            } else {
                None
            },
            NumberView::Negative(n) => Some(n),
            NumberView::Float(_) => None,
        }
    }

    /// The number, if it is a whole one that is not negative.
    pub open spec fn unsigned(self) -> Option<u64> {
        match self {
            NumberView::Unsigned(n) => Some(n),
            _ => None,
        }
    }
}

/// What a number of `serde_json` holds.
pub uninterp spec fn number_held(number: Number) -> NumberView;

/// `Number::as_i64`: the number, if it is a whole one that a signed number can hold.
#[verifier::external_body]
fn number_as_i64(number: &Number) -> (n: Option<i64>)
    ensures
        n == number_held(*number).signed(),
{
    number.as_i64()
}

/// `Number::as_u64`: the number, if it is a whole one that is not negative.
#[verifier::external_body]
fn number_as_u64(number: &Number) -> (n: Option<u64>)
    ensures
        n == number_held(*number).unsigned(),
{
    number.as_u64()
}

/// `Number::from` an unsigned number, which it holds.
#[verifier::external_body]
fn number_from(n: u64) -> (number: Number)
    ensures
        number_held(number) == NumberView::Unsigned(n),
{
    Number::from(n)
}

/// A JSON value.
#[derive(Debug)]
pub enum Json {
    Null,
    Bool(bool),
    Number(Number),
    Str(String),
    Array(Vec<Json>),
    Object(Vec<(String, Json)>),
}

/// The contents of a [`Json`].
pub enum JsonView {
    Null,
    Bool(bool),
    Number(NumberView),
    Str(Seq<char>),
    Array(Seq<JsonView>),
    Object(Seq<(Seq<char>, JsonView)>),
}

impl View for Json {
    type V = JsonView;

    open spec fn view(&self) -> JsonView
        decreases self,
    {
        match self {
            Json::Null => JsonView::Null,
            Json::Bool(b) => JsonView::Bool(*b),
            Json::Number(n) => JsonView::Number(number_held(*n)),
            Json::Str(text) => JsonView::Str(text@),
            Json::Array(items) => JsonView::Array(
                Seq::new(
                    items@.len(),
                    |i: int|
                        if 0 <= i < items@.len() {
                            items[i]@
                        } else {
                            JsonView::Null
                        },
                ),
            ),
            Json::Object(fields) => JsonView::Object(
                Seq::new(
                    fields@.len(),
                    |i: int|
                        if 0 <= i < fields@.len() {
                            (fields[i].0@, fields[i].1@)
                        } else {
                            (Seq::empty(), JsonView::Null)
                        },
                ),
            ),
        }
    }
}

/// The fields of an object.
pub open spec fn field_views(fields: Seq<(String, Json)>) -> Seq<(Seq<char>, JsonView)> {
    fields.map_values(|field: (String, Json)| (field.0@, field.1@))
}

/// The items of an array.
pub open spec fn item_views(items: Seq<Json>) -> Seq<JsonView> {
    items.map_values(|item: Json| item@)
}

/// The last field with this name.
pub open spec fn field_named(fields: Seq<(Seq<char>, JsonView)>, name: Seq<char>) -> Option<JsonView>
    decreases fields.len(),
{
    if fields.len() == 0 {
        None
    } else if fields.last().0 == name {
        Some(fields.last().1)
    } else {
        field_named(fields.drop_last(), name)
    }
}

/// The contents of an array are those of its items.
pub proof fn lemma_array_view(items: Vec<Json>)
    ensures
        Json::Array(items)@ == JsonView::Array(item_views(items@)),
{
    reveal_with_fuel(<Json as View>::view, 2);
    assert(Json::Array(items)@->Array_0 =~= item_views(items@));
}

/// The contents of an object are those of its fields.
pub proof fn lemma_object_view(fields: Vec<(String, Json)>)
    ensures
        Json::Object(fields)@ == JsonView::Object(field_views(fields@)),
{
    reveal_with_fuel(<Json as View>::view, 2);
    assert(Json::Object(fields)@->Object_0 =~= field_views(fields@));
}

impl JsonView {
    /// The text, if this is one.
    pub open spec fn text(self) -> Option<Seq<char>> {
        match self {
            JsonView::Str(text) => Some(text),
            _ => None,
        }
    }

    /// The field of an object with this name; none of anything else.
    pub open spec fn field(self, name: Seq<char>) -> Option<JsonView> {
        match self {
            JsonView::Object(fields) => field_named(fields, name),
            _ => None,
        }
    }

    /// The items, if this is an array.
    pub open spec fn items(self) -> Option<Seq<JsonView>> {
        match self {
            JsonView::Array(items) => Some(items),
            _ => None,
        }
    }

    /// The number, if this is a whole one that a signed number can hold.
    pub open spec fn signed(self) -> Option<i64> {
        match self {
            JsonView::Number(n) => n.signed(),
            _ => None,
        }
    }

    /// The number, if this is a whole one that is not negative.
    pub open spec fn unsigned(self) -> Option<u64> {
        match self {
            JsonView::Number(n) => n.unsigned(),
            _ => None,
        }
    }
}

impl Json {
    /// A whole number that is not negative.
    pub fn unsigned(n: u64) -> (json: Json)
        ensures
            json@ == JsonView::Number(NumberView::Unsigned(n)),
    {
        Json::Number(number_from(n))
    }

    /// The text, if this is one.
    pub fn as_str(&self) -> (text: Option<&str>)
        ensures
            match text {
                Some(text) => self@.text() == Some(text@),
                None => self@.text() is None,
            },
    {
        match self {
            Json::Str(text) => Some(text.as_str()),
            _ => None,
        }
    }

    /// Whether this is null.
    pub fn is_null(&self) -> (null: bool)
        ensures
            null == (self@ == JsonView::Null),
    {
        match self {
            Json::Null => true,
            _ => false,
        }
    }

    /// Whether this is an object.
    pub fn is_object(&self) -> (object: bool)
        ensures
            object == (self@ is Object),
    {
        match self {
            Json::Object(_) => true,
            _ => false,
        }
    }

    /// The field of an object with this name; none of anything else.
    pub fn get(&self, name: &str) -> (field: Option<&Json>)
        ensures
            match field {
                Some(field) => self@.field(name@) == Some(field@),
                None => self@.field(name@) is None,
            },
    {
        match self {
            Json::Object(fields) => {
                let ghost views = field_views(fields@);
                proof {
                    lemma_object_view(*fields);
                }
                let mut i: usize = fields.len();
                assert(views.take(i as int) =~= views);
                while i > 0
                    invariant
                        i <= fields.len(),
                        views == field_views(fields@),
                        self@ == JsonView::Object(views),
                        field_named(views, name@) == field_named(views.take(i as int), name@),
                    decreases i,
                {
                    i -= 1;
                    assert(views.take(i + 1).drop_last() =~= views.take(i as int));
                    assert(views[i as int] == (fields[i as int].0@, fields[i as int].1@));
                    if same_text(fields[i].0.as_str(), name) {
                        return Some(&fields[i].1);
                    }
                }
                None
            },
            _ => None,
        }
    }

    /// The items, if this is an array.
    pub fn as_array(&self) -> (items: Option<&Vec<Json>>)
        ensures
            match items {
                Some(items) => self@.items() == Some(item_views(items@)),
                None => self@.items() is None,
            },
    {
        match self {
            Json::Array(items) => {
                proof {
                    lemma_array_view(*items);
                }
                Some(items)
            },
            _ => None,
        }
    }

    /// The number, if this is a whole one that a signed number can hold.
    pub fn as_i64(&self) -> (number: Option<i64>)
        ensures
            number == self@.signed(),
    {
        match self {
            Json::Number(n) => number_as_i64(n),
            _ => None,
        }
    }

    /// The number, if this is a whole one that is not negative.
    pub fn as_u64(&self) -> (number: Option<u64>)
        ensures
            number == self@.unsigned(),
    {
        match self {
            Json::Number(n) => number_as_u64(n),
            _ => None,
        }
    }
}

/// `serde_json`'s representation of a JSON value.
#[verifier::external_type_specification]
#[verifier::external_body]
pub struct ExValue(serde_json::Value);

/// What a value of `serde_json` holds, with fields in the order of its map.
pub uninterp spec fn json_tree(value: Value) -> JsonView;

/// The JSON value that the text stands for, as `serde_json::from_str` reads it, or what its
/// error says if the text is not JSON.
pub uninterp spec fn parsed_json(text: Seq<char>) -> Result<JsonView, Seq<char>>;

/// `serde_json::from_str`, with the text of its error. What it gives is a function of the text
/// alone.
#[verifier::external_body]
fn json_from_str(text: &str) -> (value: Result<Value, String>)
    ensures
        match value {
            Ok(value) => parsed_json(text@) == Ok::<JsonView, Seq<char>>(json_tree(value)),
            Err(error) => parsed_json(text@) == Err::<JsonView, Seq<char>>(error@),
        },
{
    serde_json::from_str(text).map_err(|error| error.to_string())
}

/// A value of `serde_json`, taken apart variant by variant.
#[verifier::external_body]
fn json_of(value: &Value) -> (json: Json)
    ensures
        json@ == json_tree(*value),
{
    match value {
        Value::Null => Json::Null,
        Value::Bool(b) => Json::Bool(*b),
        Value::Number(n) => Json::Number(n.clone()),
        Value::String(text) => Json::Str(text.clone()),
        Value::Array(items) => Json::Array(items.iter().map(json_of).collect()),
        Value::Object(map) => {
            Json::Object(map.iter().map(|(name, value)| (name.clone(), json_of(value))).collect())
        }
    }
}

/// Reads JSON, or says why it cannot be read.
pub fn parse_json(text: &str) -> (json: Result<Json, String>)
    ensures
        match json {
            Ok(json) => parsed_json(text@) == Ok::<JsonView, Seq<char>>(json@),
            Err(error) => parsed_json(text@) == Err::<JsonView, Seq<char>>(error@),
        },
{
    match json_from_str(text) {
        Ok(value) => Ok(json_of(&value)),
        Err(error) => Err(error),
    }
}

/// `Value::Null`.
#[verifier::external_body]
fn null_value() -> (value: Value)
    ensures
        json_tree(value) == JsonView::Null,
{
    Value::Null
}

/// `Value::from` a truth value.
#[verifier::external_body]
fn bool_value(b: bool) -> (value: Value)
    ensures
        json_tree(value) == JsonView::Bool(b),
{
    Value::from(b)
}

/// `Value::Number` with a copy of the number.
#[verifier::external_body]
fn number_value(number: &Number) -> (value: Value)
    ensures
        json_tree(value) == JsonView::Number(number_held(*number)),
{
    Value::Number(number.clone())
}

/// `Value::from` a text.
#[verifier::external_body]
fn text_value(text: &str) -> (value: Value)
    ensures
        json_tree(value) == JsonView::Str(text@),
{
    Value::from(text)
}

/// `Value::from` a vector of values: an array of them.
#[verifier::external_body]
fn array_value(items: Vec<Value>) -> (value: Value)
    ensures
        json_tree(value) == JsonView::Array(items@.map_values(|item: Value| json_tree(item))),
{
    Value::from(items)
}

/// `Value::from_iter` over names and values: an object, whose map is ordered by name and holds
/// of two values with the same name the later one.
#[verifier::external_body]
fn object_value(fields: Vec<(String, Value)>) -> (value: Value)
    ensures
        json_tree(value) == JsonView::Object(
            in_order(
                fields@.map_values(|field: (String, Value)| (field.0@, json_tree(field.1))),
            ),
        ),
{
    fields.into_iter().collect()
}

/// Ordered fields with one more, in place of one with the same name.
pub open spec fn with_field(
    fields: Seq<(Seq<char>, JsonView)>,
    name: Seq<char>,
    value: JsonView,
) -> Seq<(Seq<char>, JsonView)>
    decreases fields.len(),
{
    if fields.len() == 0 {
        seq![(name, value)]
    } else if fields.last().0 == name {
        fields.drop_last().push((name, value))
    } else if lex_less(encode_utf8(fields.last().0), encode_utf8(name)) {
        fields.push((name, value))
    } else {
        with_field(fields.drop_last(), name, value).push(fields.last())
    }
}

/// The fields ordered by the bytes of their names, each name once with its last value.
pub open spec fn in_order(fields: Seq<(Seq<char>, JsonView)>) -> Seq<(Seq<char>, JsonView)>
    decreases fields.len(),
{
    if fields.len() == 0 {
        Seq::empty()
    } else {
        with_field(in_order(fields.drop_last()), fields.last().0, fields.last().1)
    }
}

/// A JSON value as it is written: the fields of objects in order, each name once.
pub open spec fn kept_json(json: JsonView) -> JsonView
    decreases json,
{
    match json {
        JsonView::Array(items) => JsonView::Array(
            Seq::new(
                items.len(),
                |i: int|
                    if 0 <= i < items.len() {
                        kept_json(items[i])
                    } else {
                        JsonView::Null
                    },
            ),
        ),
        JsonView::Object(fields) => JsonView::Object(kept_fields(fields)),
        _ => json,
    }
}

/// The fields of an object as they are written: in order, each name once with its last value.
pub open spec fn kept_fields(fields: Seq<(Seq<char>, JsonView)>) -> Seq<(Seq<char>, JsonView)>
    decreases fields,
{
    if fields.len() == 0 {
        Seq::empty()
    } else {
        with_field(
            kept_fields(fields.drop_last()),
            fields[fields.len() - 1].0,
            kept_json(fields[fields.len() - 1].1),
        )
    }
}

/// The items of an array as they are written.
pub open spec fn kept_items(items: Seq<JsonView>) -> Seq<JsonView> {
    items.map_values(|item: JsonView| kept_json(item))
}

/// What is kept of an array is what is kept of its items.
pub proof fn lemma_kept_array(items: Seq<JsonView>)
    ensures
        kept_json(JsonView::Array(items)) == JsonView::Array(kept_items(items)),
{
    reveal_with_fuel(kept_json, 2);
    assert(kept_json(JsonView::Array(items))->Array_0 =~= kept_items(items));
}

/// Fields that are kept each for itself and then put in order are those that are kept.
proof fn lemma_kept_fields(
    fields: Seq<(Seq<char>, JsonView)>,
    each: Seq<(Seq<char>, JsonView)>,
)
    requires
        each.len() == fields.len(),
        forall|i: int|
            0 <= i < fields.len() ==> #[trigger] each[i] == (fields[i].0, kept_json(fields[i].1)),
    ensures
        in_order(each) == kept_fields(fields),
    decreases fields.len(),
{
    if fields.len() > 0 {
        lemma_kept_fields(fields.drop_last(), each.drop_last());
        assert(each[each.len() - 1] == each.last());
    }
}

/// The value of `serde_json` for a JSON value.
pub fn value_of(json: &Json) -> (value: Value)
    ensures
        json_tree(value) == kept_json(json@),
    decreases json,
{
    match json {
        Json::Null => null_value(),
        Json::Bool(b) => bool_value(*b),
        Json::Number(n) => number_value(n),
        Json::Str(text) => text_value(text.as_str()),
        Json::Array(items) => {
            let mut values: Vec<Value> = Vec::new();
            let ghost tree = |item: Value| json_tree(item);
            let ghost wanted = kept_items(item_views(items@));
            for i in 0..items.len()
                invariant
                    *json == Json::Array(*items),
                    tree == (|item: Value| json_tree(item)),
                    wanted == kept_items(item_views(items@)),
                    values@.map_values(tree) =~= wanted.take(i as int),
            {
                let ghost before = values@.map_values(tree);
                assert(decreases_to!(*json => json->Array_0));
                assert(decreases_to!(*items => items[i as int]));
                values.push(value_of(&items[i]));
                assert(values@.map_values(tree) =~= before.push(wanted[i as int]));
            }
            proof {
                lemma_array_view(*items);
                lemma_kept_array(item_views(items@));
                assert(wanted.take(wanted.len() as int) =~= wanted);
            }
            array_value(values)
        },
        Json::Object(fields) => {
            let mut values: Vec<(String, Value)> = Vec::new();
            let ghost views = field_views(fields@);
            for i in 0..fields.len()
                invariant
                    *json == Json::Object(*fields),
                    views == field_views(fields@),
                    values.len() == i,
                    forall|j: int|
                        0 <= j < i ==> (#[trigger] values[j]).0@ == views[j].0 && json_tree(
                            values[j].1,
                        ) == kept_json(views[j].1),
            {
                assert(decreases_to!(*json => json->Object_0));
                assert(decreases_to!(*fields => fields[i as int]));
                assert(decreases_to!(fields[i as int] => fields[i as int].1));
                values.push((fields[i].0.clone(), value_of(&fields[i].1)));
                assert(views[i as int] == (fields[i as int].0@, fields[i as int].1@));
            }
            proof {
                lemma_object_view(*fields);
                lemma_kept_fields(
                    views,
                    values@.map_values(|field: (String, Value)| (field.0@, json_tree(field.1))),
                );
            }
            object_value(values)
        },
    }
}

/// The text of a value of `serde_json`, as its `Display` writes it.
pub uninterp spec fn written_json(json: JsonView) -> Seq<char>;

/// `Value::to_string`. The text is a function of what the value holds alone.
#[verifier::external_body]
fn json_to_string(value: &Value) -> (text: String)
    ensures
        text@ == written_json(json_tree(*value)),
{
    value.to_string()
}

/// The text of a JSON value.
pub open spec fn json_text(json: JsonView) -> Seq<char> {
    written_json(kept_json(json))
}

/// Writes JSON.
pub fn write_json(json: &Json) -> (text: String)
    ensures
        text@ == json_text(json@),
{
    json_to_string(&value_of(json))
}

/// A value of `serde_json`, as its `Debug` shows it.
pub uninterp spec fn shown_json(json: JsonView) -> Seq<char>;

/// `format!("{:?}", value)`. The text is a function of what the value holds alone.
#[verifier::external_body]
fn json_to_debug(value: &Value) -> (text: String)
    ensures
        text@ == shown_json(json_tree(*value)),
{
    format!("{:?}", value)
}

/// A JSON value, as it is shown in an error.
pub open spec fn json_debug(json: JsonView) -> Seq<char> {
    shown_json(kept_json(json))
}

/// Shows JSON in an error.
pub fn debug_json(json: &Json) -> (text: String)
    ensures
        text@ == json_debug(json@),
{
    json_to_debug(&value_of(json))
}

/// The map of an object of `serde_json`, as its `Debug` shows it; any other value as its own
/// `Debug` does.
pub uninterp spec fn shown_map(json: JsonView) -> Seq<char>;

/// `format!("{:?}", map)` for the map of an object. The text is a function of what the value
/// holds alone.
#[verifier::external_body]
fn map_to_debug(value: &Value) -> (text: String)
    ensures
        text@ == shown_map(json_tree(*value)),
{
    match value {
        Value::Object(map) => format!("{:?}", map),
        other => format!("{:?}", other),
    }
}

/// The fields of an object, as they are shown in an error.
pub open spec fn object_debug(json: JsonView) -> Seq<char> {
    shown_map(kept_json(json))
}

/// Shows the fields of an object in an error.
pub fn debug_object(json: &Json) -> (text: String)
    ensures
        text@ == object_debug(json@),
{
    map_to_debug(&value_of(json))
}

} // verus!
