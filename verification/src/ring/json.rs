//! Structured text: the value tree that the metadata section parses to.

use vstd::prelude::*;
use crate::ring::limits::within_limits;

verus! {

/// A JSON value.
///
/// A real number is held by its IEEE-754 double bits. A value that the
/// parser made holds the members of an object in ascending key order, each
/// key once; a value that was put together by hand need not.
pub enum JsonValue {
    Null,
    Boolean(bool),
    I64(i64),
    U64(u64),
    F64(u64),
    String(String),
    Array(Vec<JsonValue>),
    Object(Vec<(String, JsonValue)>),
}

/// The mathematical content of a `JsonValue`: all of it but the bits of its
/// real numbers, which depend on how the machine computes with them.
pub enum JsonView {
    Null,
    Boolean(bool),
    I64(i64),
    U64(u64),
    F64,
    String(Seq<char>),
    Array(Seq<JsonView>),
    Object(Seq<(Seq<char>, JsonView)>),
}

/// The content of a value.
pub open spec fn json_view(value: JsonValue) -> JsonView
    decreases value,
{
    match value {
        JsonValue::Null => JsonView::Null,
        JsonValue::Boolean(b) => JsonView::Boolean(b),
        JsonValue::I64(n) => JsonView::I64(n),
        JsonValue::U64(n) => JsonView::U64(n),
        JsonValue::F64(_) => JsonView::F64,
        JsonValue::String(s) => JsonView::String(s@),
        JsonValue::Array(items) => JsonView::Array(
            Seq::new(items@.len(), |i: int| if 0 <= i < items@.len() {
                json_view(items@[i])
            } else {
                JsonView::Null
            }),
        ),
        JsonValue::Object(members) => JsonView::Object(
            Seq::new(members@.len(), |i: int| if 0 <= i < members@.len() {
                (members@[i].0@, json_view(members@[i].1))
            } else {
                (Seq::empty(), JsonView::Null)
            }),
        ),
    }
}

impl View for JsonValue {
    type V = JsonView;

    open spec fn view(&self) -> JsonView {
        json_view(*self)
    }
}

/// The content of the items of an array.
pub open spec fn items_view(items: Vec<JsonValue>) -> Seq<JsonView> {
    Seq::new(items@.len(), |i: int| items@[i]@)
}

/// The content of the members of an object.
pub open spec fn members_view(members: Vec<(String, JsonValue)>) -> Seq<(Seq<char>, JsonView)> {
    Seq::new(members@.len(), |i: int| (members@[i].0@, members@[i].1@))
}

/// The view of an array is the views of its items, that of an object the
/// views of its members.
pub proof fn lemma_json_view(value: JsonValue)
    ensures
        value matches JsonValue::Array(items) ==> value@ == JsonView::Array(items_view(items)),
        value matches JsonValue::Object(members) ==> value@ == JsonView::Object(members_view(members)),
{
    match value {
        JsonValue::Array(items) => {
            assert(json_view(value)->Array_0 =~= items_view(items));
        },
        JsonValue::Object(members) => {
            assert(json_view(value)->Object_0 =~= members_view(members));
        },
        _ => {},
    }
}

#[verifier::external_type_specification]
#[verifier::external_body]
pub struct ExJson(rustc_serialize::json::Json);

#[verifier::external_type_specification]
#[verifier::external_body]
pub struct ExParserError(rustc_serialize::json::ParserError);

/// The content of the value that `text` parses to as one JSON document, or
/// `None` where `text` is not UTF-8 or not one well-formed document.
pub uninterp spec fn json_document(text: Seq<u8>) -> Option<JsonView>;

/// Copies a `rustc_serialize::json::Json` tree into a `JsonValue`, variant
/// for variant: the members of an object in the order of its map, a real
/// number by `f64::to_bits`. Nothing is claimed of the copy.
#[verifier::external_body]
fn json_value_of(json: &rustc_serialize::json::Json) -> JsonValue {
    match json {
        rustc_serialize::json::Json::Null => JsonValue::Null,
        rustc_serialize::json::Json::Boolean(b) => JsonValue::Boolean(*b),
        rustc_serialize::json::Json::I64(n) => JsonValue::I64(*n),
        rustc_serialize::json::Json::U64(n) => JsonValue::U64(*n),
        rustc_serialize::json::Json::F64(x) => JsonValue::F64(x.to_bits()),
        rustc_serialize::json::Json::String(s) => JsonValue::String(s.clone()),
        rustc_serialize::json::Json::Array(items) => JsonValue::Array(
            items.iter().map(json_value_of).collect()),
        rustc_serialize::json::Json::Object(members) => JsonValue::Object(
            members.iter().map(|(k, v)| (k.clone(), json_value_of(v))).collect()),
    }
}

/// Parses `text` with `rustc_serialize::json::Json::from_reader`.
///
/// Nothing is claimed of the value but that its content is a function of
/// the bytes: the result's view is `json_document`, and an error stands for
/// its `None`. The bits of a real number are no part of the view: the parser
/// computes them with `f64::powi`, whose precision std leaves open, and a
/// number such as `0e999` is a NaN whose bits std leaves open too.
///
/// The text must keep within the limits, for what the parser does beyond
/// them. It calls itself once for every array or object that is open, so
/// the nesting must be bounded. It keeps the keys of the open objects in one
/// buffer that it indexes with 16 bits, so `MAX_NESTING` keys of `MAX_KEY`
/// bytes must stay below 65536 bytes. It gathers the digits of an exponent
/// in a `usize` without a test, so they must fit in 32 bits. It numbers the
/// items of an array with 32 bits, so the text must be no longer than 32
/// bits count. Behind a comma it takes the `}` of an object that is not the
/// outermost for the end of the enclosing value too, and then stops with a
/// panic or goes on wrongly. The scan reads quotes, backslashes, brackets
/// and white space as the parser does up to the place where the parser
/// gives up.
#[verifier::external_body]
pub(crate) fn parse_json(text: &[u8]) -> (r: Result<JsonValue, rustc_serialize::json::ParserError>)
    requires
        within_limits(text@),
    ensures
        match r {
            Ok(value) => json_document(text@) == Some(value@),
            Err(_) => json_document(text@) is None,
        },
{
    let mut reader = text;
    match rustc_serialize::json::Json::from_reader(&mut reader) {
        Ok(json) => Ok(json_value_of(&json)),
        Err(e) => Err(e),
    }
}

} // verus!
