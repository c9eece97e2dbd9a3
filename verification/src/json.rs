//! JSON values, their members, and the reading and writing of JSON text.

use vstd::prelude::*;

use crate::error::AppError;
use crate::order;
use crate::text::{self, same_text};

verus! {

/// A JSON number: how it is written, and its value where it is an integer that
/// fits.
#[derive(Debug)]
pub struct JsonNumber {
    pub text: String,
    pub signed: Option<i64>,
    pub unsigned: Option<u64>,
}

/// A JSON value. The members of an object keep their order; a lookup finds the
/// first one with its key.
#[derive(Debug)]
pub enum Json {
    Null,
    Bool(bool),
    Number(JsonNumber),
    Text(String),
    Array(Vec<Json>),
    Object(Vec<Member>),
}

/// A member of a JSON object.
#[derive(Debug)]
pub struct Member {
    pub key: String,
    pub value: Json,
}

/// A JSON number as mathematics sees it.
#[verifier::ext_equal]
pub struct NumberView {
    pub text: Seq<char>,
    pub signed: Option<i64>,
    pub unsigned: Option<u64>,
}

/// A member of a JSON object as mathematics sees it.
#[verifier::ext_equal]
pub struct MemberView {
    pub key: Seq<char>,
    pub value: JsonView,
}

/// A JSON value as mathematics sees it.
#[verifier::ext_equal]
pub enum JsonView {
    Null,
    Bool(bool),
    Number(NumberView),
    Text(Seq<char>),
    Array(Seq<JsonView>),
    Object(Seq<MemberView>),
}

impl JsonNumber {
    pub open spec fn view(&self) -> NumberView {
        NumberView { text: self.text@, signed: self.signed, unsigned: self.unsigned }
    }
}

impl Json {
    pub open spec fn view(&self) -> JsonView
        decreases self,
    {
        match self {
            Json::Null => JsonView::Null,
            Json::Bool(flag) => JsonView::Bool(*flag),
            Json::Number(number) => JsonView::Number(number@),
            Json::Text(held) => JsonView::Text(held@),
            Json::Array(items) => JsonView::Array(
                Seq::new(
                    items@.len(),
                    |i: int|
                        if 0 <= i < items@.len() {
                            items@[i]@
                        } else {
                            JsonView::Null
                        },
                ),
            ),
            Json::Object(members) => JsonView::Object(
                Seq::new(
                    members@.len(),
                    |i: int|
                        if 0 <= i < members@.len() {
                            members@[i]@
                        } else {
                            arbitrary()
                        },
                ),
            ),
        }
    }
}

impl Member {
    pub open spec fn view(&self) -> MemberView
        decreases self,
    {
        MemberView { key: self.key@, value: self.value@ }
    }
}

/// The value that a reference shows, where there is one.
pub open spec fn seen(value: Option<&Json>) -> Option<JsonView> {
    match value {
        Some(json) => Some(json@),
        None => None,
    }
}

/// The characters that a reference shows, where there is one.
pub open spec fn seen_text(value: Option<&str>) -> Option<Seq<char>> {
    match value {
        Some(held) => Some(held@),
        None => None,
    }
}

// ---------------------------------------------------------------------------
// Members
// ---------------------------------------------------------------------------

/// The value of the first member with a key.
pub open spec fn first_member(members: Seq<MemberView>, key: Seq<char>) -> Option<JsonView>
    decreases members.len(),
{
    if members.len() == 0 {
        None
    } else if members[0].key == key {
        Some(members[0].value)
    } else {
        first_member(members.drop_first(), key)
    }
}

impl JsonView {
    /// The member with a key; only objects have members.
    pub open spec fn member(self, key: Seq<char>) -> Option<JsonView> {
        match self {
            JsonView::Object(members) => first_member(members, key),
            _ => None,
        }
    }

    /// The member with a key, where it is an object.
    pub open spec fn object_member(self, key: Seq<char>) -> Option<JsonView> {
        match self.member(key) {
            Some(JsonView::Object(members)) => Some(JsonView::Object(members)),
            _ => None,
        }
    }

    /// The member with a key, where it is text.
    pub open spec fn text_member(self, key: Seq<char>) -> Option<Seq<char>> {
        match self.member(key) {
            Some(JsonView::Text(held)) => Some(held),
            _ => None,
        }
    }

    pub open spec fn has(self, key: Seq<char>) -> bool {
        self.member(key) is Some
    }
}

impl Json {
    /// The member with a key.
    pub fn member(&self, key: &str) -> (found: Option<&Json>)
        ensures
            seen(found) == self@.member(key@),
    {
        match self {
            Json::Object(members) => {
                let ghost all = self@->Object_0;
                let mut i: usize = 0;
                assert(all.skip(0) =~= all);
                while i < members.len()
                    invariant
                        i <= members@.len(),
                        self@ == JsonView::Object(all),
                        all.len() == members@.len(),
                        forall|j: int|
                            0 <= j < members@.len() ==> all[j] == (#[trigger] members@[j])@,
                        first_member(all, key@) == first_member(all.skip(i as int), key@),
                    decreases members@.len() - i,
                {
                    assert(all.skip(i as int)[0] == members@[i as int]@);
                    if same_text(members[i].key.as_str(), key) {
                        return Some(&members[i].value);
                    }
                    assert(all.skip(i as int).drop_first() =~= all.skip(i as int + 1));
                    i = i + 1;
                }
                assert(all.skip(i as int).len() == 0);
                None
            },
            _ => None,
        }
    }

    /// The member with a key, where it is an object.
    pub fn object_member(&self, key: &str) -> (found: Option<&Json>)
        ensures
            seen(found) == self@.object_member(key@),
            found matches Some(json) ==> json@ is Object,
    {
        match self.member(key) {
            Some(json) => match json {
                Json::Object(_) => Some(json),
                _ => None,
            },
            None => None,
        }
    }

    /// The member with a key, where it is text.
    pub fn text_member(&self, key: &str) -> (found: Option<&str>)
        ensures
            seen_text(found) == self@.text_member(key@),
    {
        match self.member(key) {
            Some(Json::Text(held)) => Some(held.as_str()),
            _ => None,
        }
    }

    /// Whether there is a member with a key.
    pub fn has(&self, key: &str) -> (found: bool)
        ensures
            found == self@.has(key@),
    {
        self.member(key).is_some()
    }

    pub fn is_object(&self) -> (object: bool)
        ensures
            object == (self@ is Object),
    {
        match self {
            Json::Object(_) => true,
            _ => false,
        }
    }

    /// A value that holds the same as this one.
    #[verifier::loop_isolation(false)]
    pub fn duplicate(&self) -> (copied: Json)
        ensures
            copied@ == self@,
        decreases self,
    {
        match self {
            Json::Null => Json::Null,
            Json::Bool(flag) => Json::Bool(*flag),
            Json::Number(number) => Json::Number(
                JsonNumber {
                    text: number.text.clone(),
                    signed: number.signed,
                    unsigned: number.unsigned,
                },
            ),
            Json::Text(held) => Json::Text(held.clone()),
            Json::Array(items) => {
                let mut out: Vec<Json> = Vec::new();
                let mut i: usize = 0;
                while i < items.len()
                    invariant
                        i <= items@.len(),
                        out@.len() == i,
                        forall|j: int| 0 <= j < i ==> (#[trigger] out@[j])@ == items@[j]@,
                    decreases items@.len() - i,
                {
                    assert(decreases_to!(self => items@));
                    assert(decreases_to!(items@ => items@[i as int]));
                    out.push(items[i].duplicate());
                    i = i + 1;
                }
                let copied = Json::Array(out);
                assert(copied@->Array_0 =~= self@->Array_0);
                copied
            },
            Json::Object(members) => {
                let mut out: Vec<Member> = Vec::new();
                let mut i: usize = 0;
                while i < members.len()
                    invariant
                        i <= members@.len(),
                        out@.len() == i,
                        forall|j: int| 0 <= j < i ==> (#[trigger] out@[j])@ == members@[j]@,
                    decreases members@.len() - i,
                {
                    assert(decreases_to!(self => members@));
                    assert(decreases_to!(members@ => members@[i as int]));
                    assert(decreases_to!(members@[i as int] => members@[i as int].value));
                    out.push(
                        Member {
                            key: members[i].key.clone(),
                            value: members[i].value.duplicate(),
                        },
                    );
                    i = i + 1;
                }
                let copied = Json::Object(out);
                assert(copied@->Object_0 =~= self@->Object_0);
                copied
            },
        }
    }
}

// ---------------------------------------------------------------------------
// Reading JSON text
// ---------------------------------------------------------------------------

/// A JSON value of serde_json, opaque here.
#[verifier::external_type_specification]
#[verifier::external_body]
pub struct ExValue(serde_json::Value);

/// What a value of serde_json holds.
pub uninterp spec fn value_view(value: serde_json::Value) -> JsonView;

/// One level of a value of serde_json: the values inside an array or an object
/// are left as they are.
pub enum Node {
    Null,
    Bool(bool),
    Number(JsonNumber),
    Text(String),
    Array(Vec<serde_json::Value>),
    Object(Vec<(String, serde_json::Value)>),
}

impl Node {
    pub open spec fn view(&self) -> JsonView {
        match self {
            Node::Null => JsonView::Null,
            Node::Bool(flag) => JsonView::Bool(*flag),
            Node::Number(number) => JsonView::Number(number@),
            Node::Text(held) => JsonView::Text(held@),
            Node::Array(items) => JsonView::Array(
                items@.map_values(|item: serde_json::Value| value_view(item)),
            ),
            Node::Object(members) => JsonView::Object(
                members@.map_values(
                    |member: (String, serde_json::Value)|
                        MemberView { key: member.0@, value: value_view(member.1) },
                ),
            ),
        }
    }
}

/// The value that a JSON text stands for; nothing for a text that is not JSON.
pub uninterp spec fn json_read(json: Seq<char>) -> Option<JsonView>;

/// `serde_json::from_str` into a `serde_json::Value`: whether the text is
/// accepted, and what the value then holds, depends on the text alone.
#[verifier::external_body]
fn read_value(json: &str) -> (result: Result<serde_json::Value, serde_json::Error>)
    ensures
        match result {
            Ok(value) => json_read(json@) == Some(value_view(value)),
            Err(_) => json_read(json@) is None,
        },
{
    serde_json::from_str(json)
}

/// Tells the variants of `serde_json::Value` apart and hands out what the variant
/// holds: a number by its `to_string`, `as_i64` and `as_u64`, the entries of a
/// `serde_json::Map` in the order in which the map gives them.
#[verifier::external_body]
fn open_value(value: serde_json::Value) -> (node: Node)
    ensures
        node@ == value_view(value),
{
    match value {
        serde_json::Value::Null => Node::Null,
        serde_json::Value::Bool(flag) => Node::Bool(flag),
        serde_json::Value::Number(n) => Node::Number(
            JsonNumber { text: n.to_string(), signed: n.as_i64(), unsigned: n.as_u64() },
        ),
        serde_json::Value::String(held) => Node::Text(held),
        serde_json::Value::Array(items) => Node::Array(items),
        serde_json::Value::Object(members) => Node::Object(members.into_iter().collect()),
    }
}

/// The value of serde_json as a value of this library.
#[verifier::loop_isolation(false)]
fn from_value(value: serde_json::Value) -> (json: Json)
    ensures
        json@ == value_view(value),
    decreases value_view(value),
{
    let ghost whole = value_view(value);
    match open_value(value) {
        Node::Null => Json::Null,
        Node::Bool(flag) => Json::Bool(flag),
        Node::Number(number) => Json::Number(number),
        Node::Text(held) => Json::Text(held),
        Node::Array(items) => {
            let ghost held = items@;
            let mut out: Vec<Json> = Vec::new();
            for item in it: items
                invariant
                    it.seq() == held,
                    whole is Array,
                    whole->Array_0.len() == held.len(),
                    forall|i: int|
                        0 <= i < held.len() ==> whole->Array_0[i] == value_view(
                            #[trigger] held[i],
                        ),
                    out@.len() == it.index(),
                    forall|i: int|
                        0 <= i < out@.len() ==> #[trigger] out@[i]@ == whole->Array_0[i],
            {
                proof {
                    let k = it.index() as int;
                    assert(item == held[k]);
                    assert(decreases_to!(whole => whole->Array_0));
                    assert(decreases_to!(whole->Array_0 => whole->Array_0[k]));
                }
                out.push(from_value(item));
            }
            let json = Json::Array(out);
            assert(forall|i: int| 0 <= i < out@.len() ==> json@->Array_0[i] == out@[i]@);
            assert(json@->Array_0 =~= whole->Array_0);
            json
        },
        Node::Object(members) => {
            let ghost held = members@;
            let mut out: Vec<Member> = Vec::new();
            for member in it: members
                invariant
                    it.seq() == held,
                    whole is Object,
                    whole->Object_0.len() == held.len(),
                    forall|i: int|
                        0 <= i < held.len() ==> whole->Object_0[i] == (MemberView {
                            key: (#[trigger] held[i]).0@,
                            value: value_view(held[i].1),
                        }),
                    out@.len() == it.index(),
                    forall|i: int|
                        0 <= i < out@.len() ==> #[trigger] out@[i]@ == whole->Object_0[i],
            {
                proof {
                    let k = it.index() as int;
                    assert(member == held[k]);
                    assert(decreases_to!(whole => whole->Object_0));
                    assert(decreases_to!(whole->Object_0 => whole->Object_0[k]));
                    assert(decreases_to!(whole->Object_0[k] => whole->Object_0[k].value));
                }
                out.push(Member { key: member.0, value: from_value(member.1) });
            }
            let json = Json::Object(out);
            assert(forall|i: int| 0 <= i < out@.len() ==> json@->Object_0[i] == out@[i]@);
            assert(json@->Object_0 =~= whole->Object_0);
            json
        },
    }
}

/// Reads a JSON text.
pub fn parse_json(json: &str) -> (result: Result<Json, serde_json::Error>)
    ensures
        match result {
            Ok(read) => json_read(json@) == Some(read@),
            Err(_) => json_read(json@) is None,
        },
{
    match read_value(json) {
        Ok(value) => Ok(from_value(value)),
        Err(error) => Err(error),
    }
}

// ---------------------------------------------------------------------------
// Writing JSON text
// ---------------------------------------------------------------------------

/// A natural number as a JSON number.
pub open spec fn count_view(count: u64) -> NumberView {
    NumberView {
        text: text::decimal(count as nat),
        signed: if count <= i64::MAX {
            Some(count as i64)
        } else {
            None
        },
        unsigned: Some(count),
    }
}

/// The keys of the members of an object stand in ascending order.
pub open spec fn keys_ascend(members: Seq<MemberView>) -> bool {
    forall|i: int, j: int|
        0 <= i < j < members.len() ==> order::text_before(
            (#[trigger] members[i]).key,
            (#[trigger] members[j]).key,
        )
}

/// A level of a value that serde_json holds as it stands: its numbers are
/// natural numbers, and its keys are in order.
pub open spec fn can_close(node: Node) -> bool {
    match node@ {
        JsonView::Number(number) => number.unsigned is Some && number == count_view(
            number.unsigned->0,
        ),
        JsonView::Object(members) => keys_ascend(members),
        _ => true,
    }
}

/// Builds a `serde_json::Value` from one level. A `serde_json::Map` keeps its
/// entries in ascending order of their keys, so keys that come in that order
/// stay as they are; `Value::from(u64)` is the natural number.
#[verifier::external_body]
fn close_value(node: Node) -> (value: serde_json::Value)
    requires
        can_close(node),
    ensures
        value_view(value) == node@,
{
    match node {
        Node::Null => serde_json::Value::Null,
        Node::Bool(flag) => serde_json::Value::Bool(flag),
        Node::Number(number) => serde_json::Value::from(number.unsigned),
        Node::Text(held) => serde_json::Value::String(held),
        Node::Array(items) => serde_json::Value::Array(items),
        Node::Object(members) => serde_json::Value::Object(members.into_iter().collect()),
    }
}

/// A JSON value as text, indented for the eye.
pub uninterp spec fn pretty_text(value: JsonView) -> Seq<char>;

/// `serde_json::to_string_pretty` of a `serde_json::Value`: the text depends on
/// what the value holds alone. It cannot fail: the keys of a value are strings,
/// and nothing else in a value refuses to be written.
#[verifier::external_body]
fn write_pretty(value: &serde_json::Value) -> (result: Result<String, serde_json::Error>)
    ensures
        match result {
            Ok(written) => written@ == pretty_text(value_view(*value)),
            Err(_) => false,
        },
{
    serde_json::to_string_pretty(value)
}

/// A text as a JSON string, in quotation marks.
pub uninterp spec fn quoted(text: Seq<char>) -> Seq<char>;

/// `serde_json::to_string` of a `str`: the text depends on the argument alone. A
/// string can always be written.
#[verifier::external_body]
fn write_quoted(text: &str) -> (result: Result<String, serde_json::Error>)
    ensures
        match result {
            Ok(written) => written@ == quoted(text@),
            Err(_) => false,
        },
{
    serde_json::to_string(text)
}

/// `text` as a JSON string.
pub fn quote(text: &str) -> (result: Result<String, AppError>)
    ensures
        match result {
            Ok(written) => written@ == quoted(text@),
            Err(_) => false,
        },
{
    match write_quoted(text) {
        Ok(written) => Ok(written),
        Err(error) => Err(AppError::SerializeExport(error)),
    }
}

/// The value of a member of a flat object.
#[derive(Debug)]
pub enum Field {
    Missing,
    Text(String),
    Count(u64),
}

/// A member of a flat object.
#[derive(Debug)]
pub struct Entry {
    pub key: String,
    pub field: Field,
}

impl Field {
    pub open spec fn view(&self) -> JsonView {
        match self {
            Field::Missing => JsonView::Null,
            Field::Text(held) => JsonView::Text(held@),
            Field::Count(count) => JsonView::Number(count_view(*count)),
        }
    }
}

impl Entry {
    pub open spec fn view(&self) -> MemberView {
        MemberView { key: self.key@, value: self.field@ }
    }
}

/// The members of a flat object.
pub open spec fn entry_views(entries: Seq<Entry>) -> Seq<MemberView> {
    entries.map_values(|entry: Entry| entry@)
}

fn field_value(field: Field) -> (value: serde_json::Value)
    ensures
        value_view(value) == field@,
{
    match field {
        Field::Missing => close_value(Node::Null),
        Field::Text(held) => close_value(Node::Text(held)),
        Field::Count(count) => {
            let number = JsonNumber {
                text: text::decimal_text(count),
                signed: if count <= 9223372036854775807 {
                    Some(count as i64)
                } else {
                    None
                },
                unsigned: Some(count),
            };
            close_value(Node::Number(number))
        },
    }
}

fn object_value(entries: Vec<Entry>) -> (value: serde_json::Value)
    requires
        keys_ascend(entry_views(entries@)),
    ensures
        value_view(value) == JsonView::Object(entry_views(entries@)),
{
    let ghost held = entries@;
    let mut members: Vec<(String, serde_json::Value)> = Vec::new();
    for entry in it: entries
        invariant
            it.seq() == held,
            members@.len() == it.index(),
            forall|i: int|
                0 <= i < members@.len() ==> (MemberView {
                    key: (#[trigger] members@[i]).0@,
                    value: value_view(members@[i].1),
                }) == held[i]@,
    {
        members.push((entry.key, field_value(entry.field)));
    }
    let node = Node::Object(members);
    assert(node@->Object_0 =~= entry_views(held));
    close_value(node)
}

fn pretty(value: &serde_json::Value) -> (result: Result<String, AppError>)
    ensures
        match result {
            Ok(written) => written@ == pretty_text(value_view(*value)),
            Err(_) => false,
        },
{
    match write_pretty(value) {
        Ok(written) => Ok(written),
        Err(error) => Err(AppError::SerializeExport(error)),
    }
}

/// A flat object as indented JSON text.
pub fn pretty_object(entries: Vec<Entry>) -> (result: Result<String, AppError>)
    requires
        keys_ascend(entry_views(entries@)),
    ensures
        match result {
            Ok(written) => written@ == pretty_text(JsonView::Object(entry_views(entries@))),
            Err(_) => false,
        },
{
    let value = object_value(entries);
    pretty(&value)
}

/// The flat objects that the rows of a table stand for.
pub open spec fn row_views(rows: Seq<Vec<Entry>>) -> Seq<JsonView> {
    rows.map_values(|row: Vec<Entry>| JsonView::Object(entry_views(row@)))
}

/// An array of flat objects as indented JSON text.
pub fn pretty_rows(rows: Vec<Vec<Entry>>) -> (result: Result<String, AppError>)
    requires
        forall|i: int| 0 <= i < rows@.len() ==> keys_ascend(entry_views(#[trigger] rows@[i]@)),
    ensures
        match result {
            Ok(written) => written@ == pretty_text(JsonView::Array(row_views(rows@))),
            Err(_) => false,
        },
{
    let ghost held = rows@;
    let mut items: Vec<serde_json::Value> = Vec::new();
    for row in it: rows
        invariant
            it.seq() == held,
            forall|i: int| 0 <= i < held.len() ==> keys_ascend(entry_views(#[trigger] held[i]@)),
            items@.len() == it.index(),
            forall|i: int|
                0 <= i < items@.len() ==> value_view(#[trigger] items@[i]) == row_views(held)[i],
    {
        assert(row == held[it.index() as int]);
        items.push(object_value(row));
    }
    let node = Node::Array(items);
    assert(node@->Array_0 =~= row_views(held));
    let value = close_value(node);
    pretty(&value)
}

} // verus!
