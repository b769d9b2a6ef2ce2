//! Reading the market-data feed: from the text that the service answers
//! with to a raw snapshot.
//!
//! The feed is a JSON object whose `markets` array holds one object for each
//! market; a market holds its contracts in the array `contracts`.  Prices are
//! read in ticks, from numbers written with at most four decimals.  A
//! market's timestamp is written in the local time of the US east coast; it
//! is accepted if it lies within five minutes of the current time.

use crate::base::Status;
use crate::market_data::{ContractData, ContractDataView, MarketData, MarketDataView, PIDataPacket};
use crate::parser::same_text;
use crate::text::{parse_price, price_of};
use chrono::TimeZone;
use std::collections::HashMap;
use vstd::prelude::*;
use vstd::string::*;

verus! {

broadcast use vstd::std_specs::hash::group_hash_axioms;

/// A JSON document as `serde_json` holds it.
#[verifier::external_type_specification]
#[verifier::external_body]
pub struct ExJsonValue(serde_json::Value);

/// A JSON document.  A number is kept as the text that writes it; an
/// unsigned whole number is kept as that number too.  The members of an
/// object are kept in a list.
#[derive(Debug, PartialEq, Eq)]
pub enum Json {
    Null,
    Bool(bool),
    Whole { text: Vec<u8>, value: u64 },
    Number { text: Vec<u8> },
    Text(String),
    Array(Vec<Json>),
    Object(Vec<(String, Json)>),
}

/// What a `Json` holds.
pub enum JsonView {
    Null,
    Bool(bool),
    Whole { text: Seq<u8>, value: int },
    Number { text: Seq<u8> },
    Text(Seq<char>),
    Array(Seq<JsonView>),
    Object { names: Seq<Seq<char>>, values: Seq<JsonView> },
}

impl View for Json {
    type V = JsonView;

    open spec fn view(&self) -> JsonView
        decreases self,
    {
        match self {
            Json::Null => JsonView::Null,
            Json::Bool(b) => JsonView::Bool(*b),
            Json::Whole { text, value } => JsonView::Whole { text: text@, value: *value as int },
            Json::Number { text } => JsonView::Number { text: text@ },
            Json::Text(s) => JsonView::Text((*s)@),
            Json::Array(items) => JsonView::Array(
                Seq::new(
                    items@.len(),
                    |i: int|
                        if 0 <= i < items@.len() {
                            items@[i]@
                        } else {
                            JsonView::Null
                        },
                ),
            ),
            Json::Object(members) => JsonView::Object {
                names: Seq::new(members@.len(), |i: int| members@[i].0@),
                values: Seq::new(
                    members@.len(),
                    |i: int|
                        if 0 <= i < members@.len() {
                            members@[i].1@
                        } else {
                            JsonView::Null
                        },
                ),
            },
        }
    }
}

/// What a list of documents holds.
pub open spec fn documents(v: Seq<Json>) -> Seq<JsonView> {
    Seq::new(v.len(), |i: int| v[i]@)
}

/// The names of a list of named documents.
pub open spec fn member_names(v: Seq<(String, Json)>) -> Seq<Seq<char>> {
    Seq::new(v.len(), |i: int| v[i].0@)
}

/// What the documents of a list of named documents hold.
pub open spec fn member_values(v: Seq<(String, Json)>) -> Seq<JsonView> {
    Seq::new(v.len(), |i: int| v[i].1@)
}

/// An array holds its items, an object its members.
pub proof fn lemma_json_view(j: Json)
    ensures
        j is Array ==> j@ == JsonView::Array(documents(j->Array_0@)),
        j is Object ==> j@ == (JsonView::Object {
            names: member_names(j->Object_0@),
            values: member_values(j->Object_0@),
        }),
        j is Null ==> j@ == JsonView::Null,
        j is Bool ==> j@ == JsonView::Bool(j->Bool_0),
        j is Whole ==> j@ == (JsonView::Whole { text: j->Whole_text@, value: j->value as int }),
        j is Number ==> j@ == (JsonView::Number { text: j->Number_text@ }),
        j is Text ==> j@ == JsonView::Text(j->Text_0@),
{
    if j is Array {
        assert(j@->Array_0 =~= documents(j->Array_0@));
    }
    if j is Object {
        assert(j@->names =~= member_names(j->Object_0@));
        assert(j@->values =~= member_values(j->Object_0@));
    }
}

/// What is wrong with an answer of the feed.
#[derive(Debug, PartialEq, Eq)]
pub enum MarketDataErrorKind {
    /// An object lacks the named field.
    FieldUnavailable(String),
    /// The named field does not hold what it should.
    FieldFormatError(String),
    /// A timestamp names no instant, or one too far from the current time.
    TimestampError(String),
    /// The answer is no JSON object.
    JsonParseError,
    /// The service did not answer.
    APIUnavailable,
}

/// What a `MarketDataErrorKind` holds.
pub enum ErrorView {
    FieldUnavailable(Seq<char>),
    FieldFormatError(Seq<char>),
    TimestampError(Seq<char>),
    JsonParseError,
    APIUnavailable,
}

impl View for MarketDataErrorKind {
    type V = ErrorView;

    open spec fn view(&self) -> ErrorView {
        match self {
            MarketDataErrorKind::FieldUnavailable(s) => ErrorView::FieldUnavailable(s@),
            MarketDataErrorKind::FieldFormatError(s) => ErrorView::FieldFormatError(s@),
            MarketDataErrorKind::TimestampError(s) => ErrorView::TimestampError(s@),
            MarketDataErrorKind::JsonParseError => ErrorView::JsonParseError,
            MarketDataErrorKind::APIUnavailable => ErrorView::APIUnavailable,
        }
    }
}

/// A failure to get market data from the feed.
#[derive(Debug, PartialEq, Eq)]
pub struct MarketDataError {
    kind: MarketDataErrorKind,
}

impl View for MarketDataError {
    type V = ErrorView;

    closed spec fn view(&self) -> ErrorView {
        self.kind@
    }
}

impl MarketDataError {
    /// A failure of the given kind.
    pub fn new(kind: MarketDataErrorKind) -> (e: Self)
        ensures
            e@ == kind@,
    {
        MarketDataError { kind }
    }

    /// The failure that field `field` does not hold what it should.
    pub fn new_field_format_error(field: &str) -> (e: Self)
        ensures
            e@ == ErrorView::FieldFormatError(field@),
    {
        MarketDataError::new(MarketDataErrorKind::FieldFormatError(field.to_owned()))
    }

    /// What is wrong.
    pub fn kind(&self) -> (k: &MarketDataErrorKind)
        ensures
            k@ == self@,
    {
        &self.kind
    }
}

/// What the feed answers with: a snapshot, or nothing where there is no
/// more data.
pub type MarketDataResult = Result<Option<PIDataPacket>, MarketDataError>;

/// The document that `text` writes, as `serde_json::from_str` reads it;
/// nothing where it refuses `text`.
pub uninterp spec fn json_text(text: Seq<char>) -> Option<JsonView>;

/// What a `serde_json::Value` holds.  Of a number it holds the text that
/// `serde_json` displays it with, and the number itself where
/// `serde_json::Value::as_u64` gives it as an unsigned whole number; of an
/// object the members in the order in which `serde_json` walks them.
pub uninterp spec fn json_content(v: serde_json::Value) -> JsonView;

/// Calls `serde_json::from_str` on `text`.  The contract names the
/// document that comes back, and claims that none comes back exactly where
/// `serde_json` refuses `text`.
#[verifier::external_body]
fn json_value(text: &str) -> (r: Option<serde_json::Value>)
    ensures
        match r {
            Some(v) => json_text(text@) == Some(json_content(v)),
            None => json_text(text@).is_none(),
        },
{
    serde_json::from_str::<serde_json::Value>(text).ok()
}

/// One level of a `serde_json::Value`: what it is, and what it holds next.
enum JsonNode<'a> {
    Null,
    Bool(bool),
    Number(Vec<u8>),
    Text(String),
    Array(Vec<&'a serde_json::Value>),
    Object(Vec<(String, &'a serde_json::Value)>),
}

/// The text that writes the number `c`, if `c` is a number.
pub open spec fn number_text(c: JsonView) -> Option<Seq<u8>> {
    match c {
        JsonView::Whole { text, .. } => Some(text),
        JsonView::Number { text } => Some(text),
        _ => None,
    }
}

/// Whether `node` is the first level of the document `c`.
spec fn is_level_of(node: JsonNode, c: JsonView) -> bool {
    match node {
        JsonNode::Null => c == JsonView::Null,
        JsonNode::Bool(b) => c == JsonView::Bool(b),
        JsonNode::Number(text) => number_text(c) == Some(text@),
        JsonNode::Text(s) => c == JsonView::Text(s@),
        JsonNode::Array(items) => c == JsonView::Array(
            Seq::new(items@.len(), |i: int| json_content(*items@[i])),
        ),
        JsonNode::Object(members) => c == (JsonView::Object {
            names: Seq::new(members@.len(), |i: int| members@[i].0@),
            values: Seq::new(members@.len(), |i: int| json_content(*members@[i].1)),
        }),
    }
}

/// Tells the variants of a `serde_json::Value` apart and hands out what the
/// value holds; a number is handed out as the text that `serde_json`
/// displays it with, the members of an object in the order in which
/// `serde_json` walks them.  The contract claims that what is handed out is
/// what the value holds, one level deep.
#[verifier::external_body]
fn json_node<'a>(v: &'a serde_json::Value) -> (r: JsonNode<'a>)
    ensures
        is_level_of(r, json_content(*v)),
{
    match v {
        serde_json::Value::Null => JsonNode::Null,
        serde_json::Value::Bool(b) => JsonNode::Bool(*b),
        serde_json::Value::Number(n) => JsonNode::Number(n.to_string().into_bytes()),
        serde_json::Value::String(s) => JsonNode::Text(s.clone()),
        serde_json::Value::Array(a) => JsonNode::Array(a.iter().collect()),
        serde_json::Value::Object(o) => JsonNode::Object(
            o.iter().map(|(k, x)| (k.clone(), x)).collect(),
        ),
    }
}

/// The unsigned whole number that the document `c` is, if it is one.
pub open spec fn whole_of(c: JsonView) -> Option<u64> {
    match c {
        JsonView::Whole { value, .. } => if 0 <= value <= u64::MAX {
            Some(value as u64)
        } else {
            None
        },
        _ => None,
    }
}

/// Calls `serde_json::Value::as_u64`.  The contract claims that the result
/// is the unsigned whole number that the value holds, nothing where it
/// holds none.
#[verifier::external_body]
fn json_as_u64(v: &serde_json::Value) -> (r: Option<u64>)
    ensures
        match r {
            Some(n) => json_content(*v) is Whole && json_content(*v)->value == n,
            None => !(json_content(*v) is Whole),
        },
{
    v.as_u64()
}

/// Levels of nesting up to which a document is read.
pub const MAX_JSON_DEPTH: usize = 128;

/// Whether the document `j` is nested no deeper than `depth` levels: a
/// null, a truth value, a number and a text are not nested at all; an array
/// or an object is one level deeper than the deepest of what it holds.
pub open spec fn nested_within(j: JsonView, depth: nat) -> bool
    decreases depth,
{
    match j {
        JsonView::Array(items) => depth > 0 && forall|i: int|
            0 <= i < items.len() ==> nested_within(#[trigger] items[i], (depth - 1) as nat),
        JsonView::Object { values, .. } => depth > 0 && forall|i: int|
            0 <= i < values.len() ==> nested_within(#[trigger] values[i], (depth - 1) as nat),
        _ => true,
    }
}

/// An array or an object is nested within `depth` levels exactly when
/// `depth` is positive and what it holds is nested within one level less.
pub proof fn lemma_nested_within(j: JsonView, depth: nat)
    ensures
        j is Array ==> nested_within(j, depth) == (depth > 0 && forall|i: int|
            0 <= i < j->Array_0.len() ==> nested_within(
                #[trigger] j->Array_0[i],
                (depth - 1) as nat,
            )),
        j is Object ==> nested_within(j, depth) == (depth > 0 && forall|i: int|
            0 <= i < j->values.len() ==> nested_within(
                #[trigger] j->values[i],
                (depth - 1) as nat,
            )),
        !(j is Array) && !(j is Object) ==> nested_within(j, depth),
{
}

/// Copies a `serde_json::Value` into a `Json`, level by level: the copy
/// holds what the value holds.  Nothing comes back exactly where the value
/// is nested deeper than `depth` levels.
fn json_from_value(v: &serde_json::Value, depth: usize) -> (r: Option<Json>)
    ensures
        match r {
            Some(j) => j@ == json_content(*v) && nested_within(json_content(*v), depth as nat),
            None => !nested_within(json_content(*v), depth as nat),
        },
    decreases depth,
{
    let ghost content = json_content(*v);
    proof {
        lemma_nested_within(content, depth as nat);
    }
    match json_node(v) {
        JsonNode::Null => Some(Json::Null),
        JsonNode::Bool(b) => Some(Json::Bool(b)),
        JsonNode::Number(text) => {
            match json_as_u64(v) {
                Some(value) => Some(Json::Whole { text, value }),
                None => Some(Json::Number { text }),
            }
        },
        JsonNode::Text(s) => Some(Json::Text(s)),
        JsonNode::Array(items) => {
            let ghost held = content->Array_0;
            assert(held.len() == items@.len());
            if depth == 0 {
                return None;
            }
            let mut copied: Vec<Json> = Vec::new();
            let mut i: usize = 0;
            while i < items.len()
                invariant
                    i <= items@.len(),
                    depth > 0,
                    content == json_content(*v),
                    content == JsonView::Array(held),
                    held.len() == items@.len(),
                    forall|k: int|
                        0 <= k < items@.len() ==> #[trigger] held[k] == json_content(*items@[k]),
                    copied@.len() == i,
                    forall|k: int| 0 <= k < i ==> (#[trigger] copied@[k])@ == held[k],
                    forall|k: int|
                        0 <= k < i ==> nested_within(#[trigger] held[k], (depth - 1) as nat),
                decreases items.len() - i,
            {
                match json_from_value(items[i], depth - 1) {
                    Some(item) => copied.push(item),
                    None => {
                        proof {
                            lemma_nested_within(content, depth as nat);
                            assert(!nested_within(content->Array_0[i as int], (depth - 1) as nat));
                        }
                        return None;
                    },
                }
                i = i + 1;
            }
            let j = Json::Array(copied);
            proof {
                lemma_json_view(j);
                assert(documents(j->Array_0@) =~= held);
                lemma_nested_within(content, depth as nat);
            }
            Some(j)
        },
        JsonNode::Object(members) => {
            let ghost names = content->names;
            let ghost held = content->values;
            assert(held.len() == members@.len());
            assert(names.len() == members@.len());
            if depth == 0 {
                return None;
            }
            let mut copied: Vec<(String, Json)> = Vec::new();
            let mut i: usize = 0;
            while i < members.len()
                invariant
                    i <= members@.len(),
                    depth > 0,
                    content == json_content(*v),
                    content == (JsonView::Object { names, values: held }),
                    held.len() == members@.len(),
                    names.len() == members@.len(),
                    forall|k: int|
                        0 <= k < members@.len() ==> #[trigger] held[k] == json_content(
                            *members@[k].1,
                        ),
                    forall|k: int| 0 <= k < members@.len() ==> #[trigger] names[k] == members@[k].0@,
                    copied@.len() == i,
                    forall|k: int|
                        0 <= k < i ==> (#[trigger] copied@[k]).0@ == names[k] && copied@[k].1@
                            == held[k],
                    forall|k: int|
                        0 <= k < i ==> nested_within(#[trigger] held[k], (depth - 1) as nat),
                decreases members.len() - i,
            {
                match json_from_value(members[i].1, depth - 1) {
                    Some(item) => copied.push((members[i].0.clone(), item)),
                    None => {
                        proof {
                            lemma_nested_within(content, depth as nat);
                            assert(!nested_within(content->values[i as int], (depth - 1) as nat));
                        }
                        return None;
                    },
                }
                i = i + 1;
            }
            let j = Json::Object(copied);
            proof {
                lemma_json_view(j);
                assert(member_names(j->Object_0@) =~= names);
                assert(member_values(j->Object_0@) =~= held);
                lemma_nested_within(content, depth as nat);
            }
            Some(j)
        },
    }
}

/// The document that `text` writes, if `serde_json` reads one from it and
/// the document is nested no deeper than `MAX_JSON_DEPTH` levels.
pub open spec fn document_of(text: Seq<char>) -> Option<JsonView> {
    match json_text(text) {
        Some(c) => if nested_within(c, MAX_JSON_DEPTH as nat) {
            Some(c)
        } else {
            None
        },
        None => None,
    }
}

/// Parses `text` as JSON; nothing if it is no JSON document or one nested
/// deeper than `MAX_JSON_DEPTH` levels.
pub fn parse_json(text: &str) -> (r: Option<Json>)
    ensures
        match r {
            Some(j) => document_of(text@) == Some(j@),
            None => document_of(text@).is_none(),
        },
{
    match json_value(text) {
        Some(v) => json_from_value(&v, MAX_JSON_DEPTH),
        None => None,
    }
}

/// The place of the first of `names` that is `name`, or the length of
/// `names` if none is.
pub open spec fn first_named(names: Seq<Seq<char>>, name: Seq<char>) -> int
    decreases names.len(),
{
    if names.len() == 0 {
        0
    } else if first_named(names.drop_last(), name) < names.len() - 1 {
        first_named(names.drop_last(), name)
    } else if names.last() == name {
        names.len() - 1
    } else {
        names.len() as int
    }
}

/// `first_named` finds the first of that name.
pub proof fn lemma_first_named(names: Seq<Seq<char>>, name: Seq<char>)
    ensures
        0 <= first_named(names, name) <= names.len(),
        first_named(names, name) < names.len() ==> names[first_named(names, name)] == name,
        forall|k: int| 0 <= k < first_named(names, name) ==> #[trigger] names[k] != name,
    decreases names.len(),
{
    if names.len() > 0 {
        lemma_first_named(names.drop_last(), name);
        assert forall|k: int| 0 <= k < first_named(names, name) implies #[trigger] names[k]
            != name by {
            if k < names.len() - 1 {
                assert(names.drop_last()[k] == names[k]);
            }
        }
    }
}

/// The member named `name` of the object `obj`, if `obj` is an object with
/// such a member: the first of that name.
pub open spec fn member(obj: JsonView, name: Seq<char>) -> Option<JsonView> {
    match obj {
        JsonView::Object { names, values } => {
            let k = first_named(names, name);
            if k < names.len() && k < values.len() {
                Some(values[k])
            } else {
                None
            }
        },
        _ => None,
    }
}

/// The field `field` of `obj`, or the error that it is unavailable.
pub open spec fn field_of(obj: JsonView, field: Seq<char>) -> Result<JsonView, ErrorView> {
    match member(obj, field) {
        Some(v) => Ok(v),
        None => Err(ErrorView::FieldUnavailable(field)),
    }
}

/// The field `field` of `obj`.
pub fn get_field<'a>(obj: &'a Json, field: &str) -> (r: Result<&'a Json, MarketDataError>)
    ensures
        match r {
            Ok(v) => field_of(obj@, field@) == Ok::<JsonView, ErrorView>(v@),
            Err(e) => field_of(obj@, field@) == Err::<JsonView, ErrorView>(e@),
        },
{
    proof {
        lemma_json_view(*obj);
    }
    match obj {
        Json::Object(entries) => {
            let ghost names = member_names(entries@);
            let ghost values = member_values(entries@);
            proof {
                lemma_first_named(names, field@);
            }
            let mut i: usize = 0;
            while i < entries.len()
                invariant
                    i <= entries@.len(),
                    names == member_names(entries@),
                    values == member_values(entries@),
                    obj@ == (JsonView::Object { names, values }),
                    forall|k: int| 0 <= k < i ==> #[trigger] names[k] != field@,
                decreases entries.len() - i,
            {
                if same_text(entries[i].0.as_str(), field) {
                    proof {
                        assert(names[i as int] == field@);
                        lemma_first_named(names, field@);
                        assert(values[i as int] == entries@[i as int].1@);
                    }
                    return Ok(&entries[i].1);
                }
                assert(names[i as int] != field@);
                i = i + 1;
            }
            proof {
                lemma_first_named(names, field@);
            }
            Err(MarketDataError::new(MarketDataErrorKind::FieldUnavailable(field.to_owned())))
        },
        _ => Err(MarketDataError::new(MarketDataErrorKind::FieldUnavailable(field.to_owned()))),
    }
}

/// The unsigned number that `v` holds, if it holds one.
pub open spec fn as_u64(v: JsonView) -> Option<u64> {
    whole_of(v)
}

/// The price, in ticks, that `v` holds, if it holds one.
pub open spec fn as_price(v: JsonView) -> Option<u64> {
    match number_text(v) {
        Some(text) => price_of(text),
        None => None,
    }
}

/// The text that `v` holds, if it holds text.
pub open spec fn as_text(v: JsonView) -> Option<Seq<char>> {
    match v {
        JsonView::Text(s) => Some(s),
        _ => None,
    }
}

/// The elements that `v` holds, if it is an array.
pub open spec fn as_array(v: JsonView) -> Option<Seq<JsonView>> {
    match v {
        JsonView::Array(a) => Some(a),
        _ => None,
    }
}

/// What `found` holds of a field named `field`: the error of `found`, a
/// format error where there is nothing, the value otherwise.
pub open spec fn typed<T>(found: Result<Option<T>, ErrorView>, field: Seq<char>) -> Result<
    T,
    ErrorView,
> {
    match found {
        Ok(Some(v)) => Ok(v),
        Ok(None) => Err(ErrorView::FieldFormatError(field)),
        Err(e) => Err(e),
    }
}

/// The unsigned number in field `field` of `obj`.
pub open spec fn u64_field(obj: JsonView, field: Seq<char>) -> Result<u64, ErrorView> {
    match field_of(obj, field) {
        Ok(v) => typed(Ok(as_u64(v)), field),
        Err(e) => Err(e),
    }
}

/// The price in field `field` of `obj`.
pub open spec fn price_field(obj: JsonView, field: Seq<char>) -> Result<u64, ErrorView> {
    match field_of(obj, field) {
        Ok(v) => typed(Ok(as_price(v)), field),
        Err(e) => Err(e),
    }
}

/// The price in field `field` of `obj`, or `val` where the field holds
/// null.
pub open spec fn price_or_null_field(obj: JsonView, field: Seq<char>, val: u64) -> Result<
    u64,
    ErrorView,
> {
    match field_of(obj, field) {
        Ok(v) => match as_price(v) {
            Some(p) => Ok(p),
            None => if v is Null {
                Ok(val)
            } else {
                Err(ErrorView::FieldFormatError(field))
            },
        },
        Err(e) => Err(e),
    }
}

/// The text in field `field` of `obj`.
pub open spec fn text_field(obj: JsonView, field: Seq<char>) -> Result<Seq<char>, ErrorView> {
    match field_of(obj, field) {
        Ok(v) => typed(Ok(as_text(v)), field),
        Err(e) => Err(e),
    }
}

/// The array in field `field` of `obj`.
pub open spec fn array_field(obj: JsonView, field: Seq<char>) -> Result<
    Seq<JsonView>,
    ErrorView,
> {
    match field_of(obj, field) {
        Ok(v) => typed(Ok(as_array(v)), field),
        Err(e) => Err(e),
    }
}

/// The status that the feed writes as `status`: `Open` or `Closed`.
pub open spec fn status_of_text(status: Seq<char>) -> Result<Status, ErrorView> {
    if status == "Open"@ {
        Ok(Status::Open)
    } else if status == "Closed"@ {
        Ok(Status::Closed)
    } else {
        Err(ErrorView::FieldFormatError("status. Unknown status "@ + status))
    }
}

/// The unsigned number in field `field` of `obj`.
pub fn get_u64(obj: &Json, field: &str) -> (r: Result<u64, MarketDataError>)
    ensures
        match r {
            Ok(v) => u64_field(obj@, field@) == Ok::<u64, ErrorView>(v),
            Err(e) => u64_field(obj@, field@) == Err::<u64, ErrorView>(e@),
        },
{
    let found = get_field(obj, field)?;
    proof {
        lemma_json_view(*found);
    }
    match found {
        Json::Whole { value, .. } => Ok(*value),
        _ => Err(MarketDataError::new_field_format_error(field)),
    }
}

/// The price, in ticks, in field `field` of `obj`.
pub fn get_price(obj: &Json, field: &str) -> (r: Result<u64, MarketDataError>)
    ensures
        match r {
            Ok(v) => price_field(obj@, field@) == Ok::<u64, ErrorView>(v),
            Err(e) => price_field(obj@, field@) == Err::<u64, ErrorView>(e@),
        },
{
    let found = get_field(obj, field)?;
    proof {
        lemma_json_view(*found);
    }
    match found {
        Json::Whole { text, .. } | Json::Number { text } => {
            assert(text@.subrange(0, text@.len() as int) =~= text@);
            match parse_price(text.as_slice(), 0, text.len()) {
                Some(v) => Ok(v),
                None => Err(MarketDataError::new_field_format_error(field)),
            }
        },
        _ => Err(MarketDataError::new_field_format_error(field)),
    }
}

/// The price, in ticks, in field `field` of `obj`, or `val` where the
/// field holds null.
pub fn get_price_or_null_val(obj: &Json, field: &str, val: u64) -> (r: Result<
    u64,
    MarketDataError,
>)
    ensures
        match r {
            Ok(v) => price_or_null_field(obj@, field@, val) == Ok::<u64, ErrorView>(v),
            Err(e) => price_or_null_field(obj@, field@, val) == Err::<u64, ErrorView>(e@),
        },
{
    let found = get_field(obj, field)?;
    proof {
        lemma_json_view(*found);
    }
    match found {
        Json::Whole { text, .. } | Json::Number { text } => {
            assert(text@.subrange(0, text@.len() as int) =~= text@);
            match parse_price(text.as_slice(), 0, text.len()) {
                Some(v) => Ok(v),
                None => Err(MarketDataError::new_field_format_error(field)),
            }
        },
        Json::Null => Ok(val),
        _ => Err(MarketDataError::new_field_format_error(field)),
    }
}

/// The text in field `field` of `obj`.
pub fn get_str<'a>(obj: &'a Json, field: &str) -> (r: Result<&'a str, MarketDataError>)
    ensures
        match r {
            Ok(v) => text_field(obj@, field@) == Ok::<Seq<char>, ErrorView>(v@),
            Err(e) => text_field(obj@, field@) == Err::<Seq<char>, ErrorView>(e@),
        },
{
    let found = get_field(obj, field)?;
    proof {
        lemma_json_view(*found);
    }
    match found {
        Json::Text(s) => Ok(s.as_str()),
        _ => Err(MarketDataError::new_field_format_error(field)),
    }
}

/// The text in field `field` of `obj`, as a string of its own.
pub fn get_string(obj: &Json, field: &str) -> (r: Result<String, MarketDataError>)
    ensures
        match r {
            Ok(v) => text_field(obj@, field@) == Ok::<Seq<char>, ErrorView>(v@),
            Err(e) => text_field(obj@, field@) == Err::<Seq<char>, ErrorView>(e@),
        },
{
    Ok(get_str(obj, field)?.to_owned())
}

/// The array in field `field` of `obj`.
pub fn get_array<'a>(obj: &'a Json, field: &str) -> (r: Result<&'a Vec<Json>, MarketDataError>)
    ensures
        match r {
            Ok(v) => array_field(obj@, field@) == Ok::<Seq<JsonView>, ErrorView>(documents(v@)),
            Err(e) => array_field(obj@, field@) == Err::<Seq<JsonView>, ErrorView>(e@),
        },
{
    let found = get_field(obj, field)?;
    proof {
        lemma_json_view(*found);
    }
    match found {
        Json::Array(a) => Ok(a),
        _ => Err(MarketDataError::new_field_format_error(field)),
    }
}

/// The status that the feed writes as `status`.
pub fn get_status(status: &str) -> (r: Result<Status, MarketDataError>)
    ensures
        match r {
            Ok(v) => status_of_text(status@) == Ok::<Status, ErrorView>(v),
            Err(e) => status_of_text(status@) == Err::<Status, ErrorView>(e@),
        },
{
    if same_text(status, "Open") {
        Ok(Status::Open)
    } else if same_text(status, "Closed") {
        Ok(Status::Closed)
    } else {
        Err(
            MarketDataError::new(
                MarketDataErrorKind::FieldFormatError(
                    String::from_str("status. Unknown status ").concat(status),
                ),
            ),
        )
    }
}

/// What the list `v` of contracts holds.
pub open spec fn contracts_view(v: Seq<ContractData>) -> Seq<ContractDataView> {
    Seq::new(v.len(), |i: int| v[i]@)
}

/// Ticks of the ask price where the feed gives none.
pub const NO_ASK: u64 = 10_000;

/// Ticks of the bid price where the feed gives none.
pub const NO_BID: u64 = 0;

/// The contract that the object `obj` describes: its `id`, `shortName`,
/// `status`, `lastTradePrice`, and the best offers to buy and to sell, for
/// which null stands for no offer.  The first field that fails decides the
/// error.
pub open spec fn contract_of(obj: JsonView) -> Result<ContractDataView, ErrorView> {
    match u64_field(obj, "id"@) {
        Err(e) => Err(e),
        Ok(id) => match text_field(obj, "shortName"@) {
            Err(e) => Err(e),
            Ok(name) => match text_field(obj, "status"@) {
                Err(e) => Err(e),
                Ok(status_text) => match status_of_text(status_text) {
                    Err(e) => Err(e),
                    Ok(status) => match price_field(obj, "lastTradePrice"@) {
                        Err(e) => Err(e),
                        Ok(trade_price) => match price_or_null_field(
                            obj,
                            "bestBuyYesCost"@,
                            NO_ASK,
                        ) {
                            Err(e) => Err(e),
                            Ok(ask_price) => match price_or_null_field(
                                obj,
                                "bestSellYesCost"@,
                                NO_BID,
                            ) {
                                Err(e) => Err(e),
                                Ok(bid_price) => Ok(
                                    ContractDataView {
                                        id,
                                        name,
                                        status,
                                        prices: crate::base::ContractPrice {
                                            trade_price,
                                            ask_price,
                                            bid_price,
                                        },
                                    },
                                ),
                            },
                        },
                    },
                },
            },
        },
    }
}

/// The contract that the object `contract` describes.
pub fn get_contract(contract: &Json) -> (r: Result<ContractData, MarketDataError>)
    ensures
        match r {
            Ok(c) => contract_of(contract@) == Ok::<ContractDataView, ErrorView>(c@),
            Err(e) => contract_of(contract@) == Err::<ContractDataView, ErrorView>(e@),
        },
{
    let id = get_u64(contract, "id")?;
    let name = get_string(contract, "shortName")?;
    let status = get_status(get_str(contract, "status")?)?;
    let trade_price = get_price(contract, "lastTradePrice")?;
    let ask_price = get_price_or_null_val(contract, "bestBuyYesCost", NO_ASK)?;
    let bid_price = get_price_or_null_val(contract, "bestSellYesCost", NO_BID)?;
    Ok(ContractData { id, name, status, trade_price, ask_price, bid_price })
}

/// The contract that the array element `entry` describes; the element
/// must be an object.
pub open spec fn contract_entry(entry: JsonView) -> Result<ContractDataView, ErrorView> {
    if entry is Object {
        contract_of(entry)
    } else {
        Err(ErrorView::FieldFormatError("contracts[] entry"@))
    }
}

/// The contracts that the array `contracts` describes, in order; the first
/// element that fails decides the error.
pub open spec fn contracts_of(contracts: Seq<JsonView>) -> Result<Seq<ContractDataView>, ErrorView>
    decreases contracts.len(),
{
    if contracts.len() == 0 {
        Ok(Seq::empty())
    } else {
        match contracts_of(contracts.drop_last()) {
            Err(e) => Err(e),
            Ok(parsed) => match contract_entry(contracts.last()) {
                Err(e) => Err(e),
                Ok(c) => Ok(parsed.push(c)),
            },
        }
    }
}

/// An error among the first `j` elements is the error of the whole array.
pub proof fn lemma_contracts_of_prefix(contracts: Seq<JsonView>, j: int)
    requires
        0 <= j <= contracts.len(),
        contracts_of(contracts.take(j)).is_err(),
    ensures
        contracts_of(contracts) == contracts_of(contracts.take(j)),
    decreases contracts.len() - j,
{
    if j < contracts.len() {
        assert(contracts.take(j + 1).drop_last() =~= contracts.take(j));
        lemma_contracts_of_prefix(contracts, j + 1);
    } else {
        assert(contracts.take(j) =~= contracts);
    }
}

/// The contracts that the array `contracts` describes.
pub fn get_contracts(contracts: &Vec<Json>) -> (r: Result<Vec<ContractData>, MarketDataError>)
    ensures
        match r {
            Ok(parsed) => contracts_of(documents(contracts@)) == Ok::<
                Seq<ContractDataView>,
                ErrorView,
            >(contracts_view(parsed@)),
            Err(e) => contracts_of(documents(contracts@)) == Err::<
                Seq<ContractDataView>,
                ErrorView,
            >(e@),
        },
{
    let ghost held = documents(contracts@);
    let mut parsed_contracts: Vec<ContractData> = Vec::new();
    let mut i: usize = 0;
    proof {
        assert(held.take(0) =~= Seq::<JsonView>::empty());
        assert(contracts_view(parsed_contracts@) =~= Seq::<ContractDataView>::empty());
    }
    while i < contracts.len()
        invariant
            i <= contracts@.len(),
            held == documents(contracts@),
            contracts_of(held.take(i as int)) == Ok::<Seq<ContractDataView>, ErrorView>(
                contracts_view(parsed_contracts@),
            ),
        decreases contracts.len() - i,
    {
        let ghost shown = contracts_view(parsed_contracts@);
        let entry = &contracts[i];
        proof {
            assert(held.take(i + 1).drop_last() =~= held.take(i as int));
            assert(held.take(i + 1).last() == entry@);
            lemma_json_view(*entry);
        }
        let parsed = match entry {
            Json::Object(_) => get_contract(entry),
            _ => Err(MarketDataError::new_field_format_error("contracts[] entry")),
        };
        match parsed {
            Ok(c) => {
                parsed_contracts.push(c);
                assert(contracts_view(parsed_contracts@) =~= shown.push(c@));
            },
            Err(e) => {
                proof {
                    assert(contracts_of(held.take(i + 1)) == Err::<
                        Seq<ContractDataView>,
                        ErrorView,
                    >(e@));
                    lemma_contracts_of_prefix(held, i + 1);
                }
                return Err(e);
            },
        }
        i = i + 1;
    }
    proof {
        assert(held.take(i as int) =~= held);
    }
    Ok(parsed_contracts)
}

/// Milliseconds by which a timestamp of the feed may differ from the
/// current time.
pub const TIMESTAMP_TOLERANCE_MILLIS: i64 = 300_000;

/// The local date and time that `text` writes in the form
/// `2021-01-31T17:45:12.345`, in whole milliseconds since 1970-01-01T00:00
/// of the same local time, as `chrono::NaiveDateTime::parse_from_str` reads
/// it with the format `%Y-%m-%dT%H:%M:%S.%f`, in which the digits behind
/// the point count nanoseconds; nothing where it refuses `text`.
pub uninterp spec fn local_millis(text: Seq<char>) -> Option<i64>;

/// The instants, in milliseconds since the epoch, at which clocks on the US
/// east coast show the local time `local_ms`, earliest first, as the time
/// zone `chrono_tz::US::Eastern` maps it: none within the hour skipped in
/// spring, two within the hour repeated in autumn, one otherwise.
pub uninterp spec fn eastern_instants(local_ms: i64) -> Seq<i64>;

/// Calls `chrono::NaiveDateTime::parse_from_str` on `text` with the format
/// `%Y-%m-%dT%H:%M:%S.%f` and gives the result in milliseconds.  The
/// contract names the result; it claims nothing else.
#[verifier::external_body]
fn local_millis_of(text: &str) -> (r: Option<i64>)
    ensures
        r == local_millis(text@),
{
    match chrono::NaiveDateTime::parse_from_str(text, "%Y-%m-%dT%H:%M:%S.%f") {
        Ok(t) => Some(t.and_utc().timestamp_millis()),
        Err(_) => None,
    }
}

/// Calls `from_local_datetime` of `chrono_tz::US::Eastern` on the local
/// time `local_ms` and gives the instants it maps to, in milliseconds.  The
/// contract names the result and claims that there are at most two
/// instants, as many as the variants `None`, `Single` and `Ambiguous` of
/// the outcome hold.
#[verifier::external_body]
fn eastern_instants_of(local_ms: i64) -> (r: Vec<i64>)
    ensures
        r@ == eastern_instants(local_ms),
        r@.len() <= 2,
{
    match chrono::DateTime::from_timestamp_millis(local_ms) {
        Some(t) => match chrono_tz::US::Eastern.from_local_datetime(&t.naive_utc()) {
            chrono::LocalResult::None => Vec::new(),
            chrono::LocalResult::Single(a) => vec![a.timestamp_millis()],
            chrono::LocalResult::Ambiguous(a, b) => vec![a.timestamp_millis(), b.timestamp_millis()],
        },
        None => Vec::new(),
    }
}

/// How far the instant `t` is from `now`.
pub open spec fn distance(t: i64, now: i64) -> int {
    if t >= now {
        t - now
    } else {
        now - t
    }
}

/// The instant that a timestamp written as `text` stands for, given the
/// instants `candidates` that clocks may have meant by it and the current
/// time `now`.  A single candidate is taken if it is within the tolerance
/// of `now`.  Of two candidates the one nearer to `now` is taken, the later
/// one if both are as near, if it is within the tolerance.
pub open spec fn instant_of(candidates: Seq<i64>, now: i64, text: Seq<char>) -> Result<
    i64,
    ErrorView,
> {
    if candidates.len() == 0 {
        Err(ErrorView::TimestampError("Invalid timezone timestamp: "@ + text))
    } else if candidates.len() == 1 {
        if distance(candidates[0], now) <= TIMESTAMP_TOLERANCE_MILLIS {
            Ok(candidates[0])
        } else {
            Err(ErrorView::TimestampError("Timestamp too far from current time: "@ + text))
        }
    } else {
        let first = distance(candidates[0], now);
        let second = distance(candidates[1], now);
        if first < second && first <= TIMESTAMP_TOLERANCE_MILLIS {
            Ok(candidates[0])
        } else if second <= first && second <= TIMESTAMP_TOLERANCE_MILLIS {
            Ok(candidates[1])
        } else {
            Err(ErrorView::TimestampError("Both timestamps too far from current time: "@ + text))
        }
    }
}

/// How far the instant `t` is from `now`.
pub fn distance_millis(t: i64, now: i64) -> (d: i128)
    ensures
        d == distance(t, now),
{
    if t >= now {
        t as i128 - now as i128
    } else {
        now as i128 - t as i128
    }
}

/// Picks the instant that a timestamp stands for among `candidates`.
pub fn pick_instant(candidates: &Vec<i64>, now_ms: i64, timestamp_str: &str) -> (r: Result<
    i64,
    MarketDataError,
>)
    ensures
        match r {
            Ok(t) => instant_of(candidates@, now_ms, timestamp_str@) == Ok::<i64, ErrorView>(t),
            Err(e) => instant_of(candidates@, now_ms, timestamp_str@) == Err::<i64, ErrorView>(e@),
        },
{
    let tolerance = TIMESTAMP_TOLERANCE_MILLIS as i128;
    if candidates.len() == 0 {
        Err(
            MarketDataError::new(
                MarketDataErrorKind::TimestampError(
                    String::from_str("Invalid timezone timestamp: ").concat(timestamp_str),
                ),
            ),
        )
    } else if candidates.len() == 1 {
        if distance_millis(candidates[0], now_ms) <= tolerance {
            Ok(candidates[0])
        } else {
            Err(
                MarketDataError::new(
                    MarketDataErrorKind::TimestampError(
                        String::from_str("Timestamp too far from current time: ").concat(
                            timestamp_str,
                        ),
                    ),
                ),
            )
        }
    } else {
        let first = distance_millis(candidates[0], now_ms);
        let second = distance_millis(candidates[1], now_ms);
        if first < second && first <= tolerance {
            Ok(candidates[0])
        } else if second <= first && second <= tolerance {
            Ok(candidates[1])
        } else {
            Err(
                MarketDataError::new(
                    MarketDataErrorKind::TimestampError(
                        String::from_str("Both timestamps too far from current time: ").concat(
                            timestamp_str,
                        ),
                    ),
                ),
            )
        }
    }
}

/// The instant that the feed's timestamp `text` stands for, or why it
/// stands for none.
pub open spec fn utc_timestamp(text: Seq<char>, now: i64) -> Result<i64, ErrorView> {
    match local_millis(text) {
        Some(local) => instant_of(eastern_instants(local), now, text),
        None => Err(ErrorView::FieldFormatError("timestamp"@)),
    }
}

/// Reads a timestamp of the feed, written in the local time of the US east
/// coast, as an instant in milliseconds since the epoch.
pub fn get_utc_timestamp(timestamp_str: &str, now_ms: i64) -> (r: Result<i64, MarketDataError>)
    ensures
        match r {
            Ok(t) => utc_timestamp(timestamp_str@, now_ms) == Ok::<i64, ErrorView>(t),
            Err(e) => utc_timestamp(timestamp_str@, now_ms) == Err::<i64, ErrorView>(e@),
        },
{
    match local_millis_of(timestamp_str) {
        Some(local) => {
            let candidates = eastern_instants_of(local);
            pick_instant(&candidates, now_ms, timestamp_str)
        },
        None => Err(MarketDataError::new_field_format_error("timestamp")),
    }
}

/// The market that the object `obj` describes: its `id`, `shortName`,
/// `contracts`, `status` and `timeStamp`.  The first field that fails
/// decides the error.
pub open spec fn market_of(obj: JsonView, now: i64) -> Result<MarketDataView, ErrorView> {
    match u64_field(obj, "id"@) {
        Err(e) => Err(e),
        Ok(id) => match text_field(obj, "shortName"@) {
            Err(e) => Err(e),
            Ok(name) => match array_field(obj, "contracts"@) {
                Err(e) => Err(e),
                Ok(entries) => match contracts_of(entries) {
                    Err(e) => Err(e),
                    Ok(contracts) => match text_field(obj, "status"@) {
                        Err(e) => Err(e),
                        Ok(status_text) => match status_of_text(status_text) {
                            Err(e) => Err(e),
                            Ok(status) => match text_field(obj, "timeStamp"@) {
                                Err(e) => Err(e),
                                Ok(stamp) => match utc_timestamp(stamp, now) {
                                    Err(e) => Err(e),
                                    Ok(timestamp) => Ok(
                                        MarketDataView { id, name, contracts, status, timestamp },
                                    ),
                                },
                            },
                        },
                    },
                },
            },
        },
    }
}

/// The market that the object `market_map` describes, read at `now_ms`.
pub fn get_market(market_map: &Json, now_ms: i64) -> (r: Result<MarketData, MarketDataError>)
    ensures
        match r {
            Ok(m) => market_of(market_map@, now_ms) == Ok::<MarketDataView, ErrorView>(m@),
            Err(e) => market_of(market_map@, now_ms) == Err::<MarketDataView, ErrorView>(e@),
        },
{
    let id = get_u64(market_map, "id")?;
    let name = get_string(market_map, "shortName")?;
    let contracts = get_contracts(get_array(market_map, "contracts")?)?;
    let status = get_status(get_str(market_map, "status")?)?;
    let timestamp = get_utc_timestamp(get_str(market_map, "timeStamp")?, now_ms)?;
    let m = MarketData { id, name, contracts, status, timestamp };
    assert(m@.contracts =~= contracts_view(contracts@));
    Ok(m)
}

/// The market that the array element `entry` describes; the element must
/// be an object.
pub open spec fn market_entry(entry: JsonView, now: i64) -> Result<MarketDataView, ErrorView> {
    if entry is Object {
        market_of(entry, now)
    } else {
        Err(ErrorView::FieldFormatError("markets[] entry"@))
    }
}

/// The markets that the array `markets` describes, by id.  Where an id
/// occurs again the later market replaces the earlier.  The first element
/// that fails decides the error.
pub open spec fn markets_of(markets: Seq<JsonView>, now: i64) -> Result<
    Map<u64, MarketDataView>,
    ErrorView,
>
    decreases markets.len(),
{
    if markets.len() == 0 {
        Ok(Map::empty())
    } else {
        match markets_of(markets.drop_last(), now) {
            Err(e) => Err(e),
            Ok(parsed) => match market_entry(markets.last(), now) {
                Err(e) => Err(e),
                Ok(m) => Ok(parsed.insert(m.id, m)),
            },
        }
    }
}

/// An error among the first `j` elements is the error of the whole array.
pub proof fn lemma_markets_of_prefix(markets: Seq<JsonView>, now: i64, j: int)
    requires
        0 <= j <= markets.len(),
        markets_of(markets.take(j), now).is_err(),
    ensures
        markets_of(markets, now) == markets_of(markets.take(j), now),
    decreases markets.len() - j,
{
    if j < markets.len() {
        assert(markets.take(j + 1).drop_last() =~= markets.take(j));
        lemma_markets_of_prefix(markets, now, j + 1);
    } else {
        assert(markets.take(j) =~= markets);
    }
}

/// The snapshot that the answer `root` of the feed describes, read at the
/// time `now`.  The answer must be an object with the array `markets`.
pub open spec fn snapshot_of(root: JsonView, now: i64) -> Result<Map<u64, MarketDataView>, ErrorView> {
    if root is Object {
        match array_field(root, "markets"@) {
            Ok(markets) => markets_of(markets, now),
            Err(e) => Err(e),
        }
    } else {
        Err(ErrorView::JsonParseError)
    }
}

/// Reads the snapshot that the answer `root` of the feed describes.
pub fn market_data_from_json(root: &Json, now_ms: i64) -> (r: MarketDataResult)
    ensures
        is_answer(r, Some(root@), now_ms),
{
    proof {
        lemma_json_view(*root);
    }
    match root {
        Json::Object(_) => {},
        _ => {
            return Err(MarketDataError::new(MarketDataErrorKind::JsonParseError));
        },
    }
    let markets = get_array(root, "markets")?;
    let ghost held = documents(markets@);
    let mut all_market_data_map: HashMap<u64, MarketData> = HashMap::new();
    let mut i: usize = 0;
    proof {
        assert(held.take(0) =~= Seq::<JsonView>::empty());
        assert(all_market_data_map@.map_values(|m: MarketData| m@) =~= Map::<
            u64,
            MarketDataView,
        >::empty());
    }
    while i < markets.len()
        invariant
            i <= markets@.len(),
            held == documents(markets@),
            snapshot_of(root@, now_ms) == markets_of(held, now_ms),
            markets_of(held.take(i as int), now_ms) == Ok::<Map<u64, MarketDataView>, ErrorView>(
                all_market_data_map@.map_values(|m: MarketData| m@),
            ),
        decreases markets.len() - i,
    {
        let ghost parsed_before = all_market_data_map@;
        let entry = &markets[i];
        proof {
            assert(held.take(i + 1).drop_last() =~= held.take(i as int));
            assert(held.take(i + 1).last() == entry@);
            lemma_json_view(*entry);
        }
        let parsed = match entry {
            Json::Object(_) => get_market(entry, now_ms),
            _ => Err(MarketDataError::new_field_format_error("markets[] entry")),
        };
        match parsed {
            Ok(market) => {
                let ghost view = market@;
                all_market_data_map.insert(market.id, market);
                assert(all_market_data_map@.map_values(|m: MarketData| m@)
                    =~= parsed_before.map_values(|m: MarketData| m@).insert(view.id, view));
            },
            Err(e) => {
                proof {
                    assert(markets_of(held.take(i + 1), now_ms) == Err::<
                        Map<u64, MarketDataView>,
                        ErrorView,
                    >(e@));
                    lemma_markets_of_prefix(held, now_ms, i + 1);
                }
                return Err(e);
            },
        }
        i = i + 1;
    }
    proof {
        assert(held.take(i as int) =~= held);
    }
    Ok(Some(PIDataPacket { market_updates: all_market_data_map }))
}

/// Whether `r` is what the feed's answer yields at the time `now`, the
/// answer being the JSON document `root`, or no JSON at all: the snapshot
/// that the document describes, or the error that it gives rise to; a parse
/// error where there is no document.
pub open spec fn is_answer(r: MarketDataResult, root: Option<JsonView>, now: i64) -> bool {
    match root {
        Some(root) => match r {
            Ok(Some(packet)) => snapshot_of(root, now) == Ok::<Map<u64, MarketDataView>, ErrorView>(
                packet@,
            ),
            Ok(None) => false,
            Err(e) => snapshot_of(root, now) == Err::<Map<u64, MarketDataView>, ErrorView>(e@),
        },
        None => match r {
            Err(e) => e@ == ErrorView::JsonParseError,
            _ => false,
        },
    }
}

/// Reads the snapshot that the text `data` of the feed's answer describes,
/// at the time `now_ms` in milliseconds since the epoch.
pub fn parse_api_market_data(data: &str, now_ms: i64) -> (r: MarketDataResult)
    ensures
        is_answer(r, document_of(data@), now_ms),
{
    match parse_json(data) {
        Some(root) => market_data_from_json(&root, now_ms),
        None => Err(MarketDataError::new(MarketDataErrorKind::JsonParseError)),
    }
}

/// Whether `r` is what the answer to a request for one market yields at
/// the time `now`, the answer being the JSON document `root`, or no JSON at
/// all: the market that the document describes, or the error that it gives
/// rise to; a parse error where there is no document or it is no object.
pub open spec fn is_market_answer(
    r: Result<MarketData, MarketDataError>,
    root: Option<JsonView>,
    now: i64,
) -> bool {
    match root {
        Some(root) => if root is Object {
            match r {
                Ok(m) => market_of(root, now) == Ok::<MarketDataView, ErrorView>(m@),
                Err(e) => market_of(root, now) == Err::<MarketDataView, ErrorView>(e@),
            }
        } else {
            match r {
                Err(e) => e@ == ErrorView::JsonParseError,
                _ => false,
            }
        },
        None => match r {
            Err(e) => e@ == ErrorView::JsonParseError,
            _ => false,
        },
    }
}

/// Reads the market that the text `data` of an answer describes, at the
/// time `now_ms` in milliseconds since the epoch.
pub fn parse_market_data(data: &str, now_ms: i64) -> (r: Result<MarketData, MarketDataError>)
    ensures
        is_market_answer(r, document_of(data@), now_ms),
{
    match parse_json(data) {
        Some(root) => {
            proof {
                lemma_json_view(root);
            }
            match &root {
                Json::Object(_) => get_market(&root, now_ms),
                _ => Err(MarketDataError::new(MarketDataErrorKind::JsonParseError)),
            }
        },
        None => Err(MarketDataError::new(MarketDataErrorKind::JsonParseError)),
    }
}

} // verus!
