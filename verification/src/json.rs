//! JSON documents.

use serde_json::Value;
use vstd::prelude::*;

use crate::binary64::Binary64;
use crate::text::same_strings;

verus! {

/// Documents of more characters than this are not read: the JSON parser counts digits in 31 bits.
pub const DOCUMENT_LIMIT: usize = 0x1fff_ffff;

/// A JSON value.
#[derive(Debug)]
pub enum Json {
    Null,
    Bool(bool),
    /// A number written as an integer, where it fits.
    Integer(i64),
    /// Any other number, by the double that the parser gives for it.
    Double(Binary64),
    Text(String),
    List(Vec<Json>),
    /// Members with their names.
    Table(Vec<(String, Json)>),
}

/// What a [`Json`] value says.
pub enum JsonView {
    Null,
    Bool(bool),
    Integer(i64),
    Double(Binary64),
    Text(Seq<char>),
    List(Seq<JsonView>),
    Table(Seq<(Seq<char>, JsonView)>),
}

/// What `json` says.
pub open spec fn said(json: Json) -> JsonView
    decreases json,
{
    match json {
        Json::Null => JsonView::Null,
        Json::Bool(truth) => JsonView::Bool(truth),
        Json::Integer(number) => JsonView::Integer(number),
        Json::Double(number) => JsonView::Double(number),
        Json::Text(text) => JsonView::Text(text@),
        Json::List(list) => JsonView::List(
            Seq::new(
                list@.len(),
                |i: int|
                    if 0 <= i < list@.len() {
                        said(list@[i])
                    } else {
                        JsonView::Null
                    },
            ),
        ),
        Json::Table(table) => JsonView::Table(
            Seq::new(
                table@.len(),
                |i: int|
                    if 0 <= i < table@.len() {
                        (table@[i].0@, said(table@[i].1))
                    } else {
                        (seq![], JsonView::Null)
                    },
            ),
        ),
    }
}

impl View for Json {
    type V = JsonView;

    open spec fn view(&self) -> JsonView {
        said(*self)
    }
}

/// What each of several values says.
pub open spec fn jsons(list: Seq<Json>) -> Seq<JsonView> {
    Seq::new(list.len(), |i: int| list[i]@)
}

/// The first member called `key`.
pub open spec fn first_member(table: Seq<(Seq<char>, JsonView)>, key: Seq<char>) -> Option<JsonView>
    decreases table.len(),
{
    if table.len() == 0 {
        None
    } else if table[0].0 == key {
        Some(table[0].1)
    } else {
        first_member(table.drop_first(), key)
    }
}

impl JsonView {
    /// The member `key` of a table.
    pub open spec fn found(self, key: Seq<char>) -> Option<JsonView> {
        match self {
            JsonView::Table(table) => first_member(table, key),
            _ => None,
        }
    }

    /// The member `key`, or null where there is none.
    pub open spec fn member(self, key: Seq<char>) -> JsonView {
        match self.found(key) {
            Some(value) => value,
            None => JsonView::Null,
        }
    }

    pub open spec fn text(self) -> Option<Seq<char>> {
        match self {
            JsonView::Text(text) => Some(text),
            _ => None,
        }
    }

    pub open spec fn integer(self) -> Option<i64> {
        match self {
            JsonView::Integer(number) => Some(number),
            _ => None,
        }
    }

    pub open spec fn list(self) -> Option<Seq<JsonView>> {
        match self {
            JsonView::List(list) => Some(list),
            _ => None,
        }
    }
}

impl Json {
    /// The member `key` of a table.
    pub fn find(&self, key: &str) -> (value: Option<&Json>)
        ensures
            match value {
                Some(value) => self@.found(key@) == Some(value@),
                None => self@.found(key@) is None,
            },
    {
        match self {
            Json::Table(table) => {
                let ghost all = self@->Table_0;
                let mut i: usize = 0;
                assert(all.skip(0) == all);
                while i < table.len()
                    invariant
                        i <= table@.len(),
                        *self == Json::Table(*table),
                        all == self@->Table_0,
                        all.len() == table@.len(),
                        first_member(all, key@) == first_member(all.skip(i as int), key@),
                    decreases table@.len() - i,
                {
                    assert(all.skip(i as int)[0] == (table@[i as int].0@, table@[i as int].1@));
                    assert(all.skip(i as int).drop_first() == all.skip(i + 1));
                    if same_strings(table[i].0.as_str(), key) {
                        return Some(&table[i].1);
                    }
                    i += 1;
                }
                None
            },
            _ => None,
        }
    }

    /// The text that a value is.
    pub fn as_text(&self) -> (text: Option<&String>)
        ensures
            match text {
                Some(text) => self@.text() == Some(text@),
                None => self@.text() is None,
            },
    {
        match self {
            Json::Text(text) => Some(text),
            _ => None,
        }
    }

    /// The integer that a value is.
    pub fn as_integer(&self) -> (number: Option<i64>)
        ensures
            number == self@.integer(),
    {
        match self {
            Json::Integer(number) => Some(*number),
            _ => None,
        }
    }

    /// The list that a value is.
    pub fn as_list(&self) -> (list: Option<&Vec<Json>>)
        ensures
            match list {
                Some(list) => self@.list() == Some(jsons(list@)),
                None => self@.list() is None,
            },
    {
        match self {
            Json::List(list) => {
                assert(self@->List_0 =~= jsons(list@));
                Some(list)
            },
            _ => None,
        }
    }

    /// The text of the member `key`.
    pub fn text_of(&self, key: &str) -> (text: Option<&String>)
        ensures
            match text {
                Some(text) => self@.member(key@).text() == Some(text@),
                None => self@.member(key@).text() is None,
            },
    {
        match self.find(key) {
            Some(value) => value.as_text(),
            None => None,
        }
    }

    /// The integer that the member `key` is.
    pub fn integer_of(&self, key: &str) -> (number: Option<i64>)
        ensures
            number == self@.member(key@).integer(),
    {
        match self.find(key) {
            Some(value) => value.as_integer(),
            None => None,
        }
    }

    /// A table of one member.
    pub fn table_of_one(key: &str, value: Json) -> (table: Json)
        ensures
            table@ == JsonView::Table(seq![(key@, value@)]),
    {
        let mut members: Vec<(String, Json)> = Vec::new();
        members.push((key.to_owned(), value));
        let table = Json::Table(members);
        assert(table@->Table_0 =~= seq![(key@, value@)]);
        table
    }

    /// A table of two members.
    pub fn table_of_two(key: &str, value: Json, other_key: &str, other: Json) -> (table: Json)
        ensures
            table@ == JsonView::Table(seq![(key@, value@), (other_key@, other@)]),
    {
        let mut members: Vec<(String, Json)> = Vec::new();
        members.push((key.to_owned(), value));
        members.push((other_key.to_owned(), other));
        let table = Json::Table(members);
        assert(table@->Table_0 =~= seq![(key@, value@), (other_key@, other@)]);
        table
    }

    /// The text `text`.
    pub fn of_text(text: &str) -> (json: Json)
        ensures
            json@ == JsonView::Text(text@),
    {
        Json::Text(text.to_owned())
    }
}

#[verifier::external_type_specification]
#[verifier::external_body]
pub struct ExValue(Value);

/// What a `serde_json::Value` holds.
pub uninterp spec fn json_of(value: Value) -> JsonView;

/// The JSON document that a text is, or nothing when it is none.
pub uninterp spec fn parsed_json(text: Seq<char>) -> Option<JsonView>;

/// `serde_json::from_str`. Claimed: whether a text is a JSON document, and what it holds,
/// depends on the text alone. The JSON grammar is not written out. The parser counts the digits
/// of a number in an `i32`, which the limit keeps from overflowing.
#[verifier::external_body]
fn parse_value(text: &str) -> (value: Option<Value>)
    requires
        text@.len() <= DOCUMENT_LIMIT,
    ensures
        match value {
            Some(value) => parsed_json(text@) == Some(json_of(value)),
            None => parsed_json(text@) is None,
        },
{
    serde_json::from_str(text).ok()
}

/// The variants of `serde_json::Value`, and `as_i64` and `as_f64` of its numbers, each put into
/// the variant that stands for it. Claimed: what comes out says what the value holds.
#[verifier::external_body]
fn own_json(value: Value) -> (json: Json)
    ensures
        json@ == json_of(value),
{
    match value {
        Value::Null => Json::Null,
        Value::Bool(truth) => Json::Bool(truth),
        Value::Number(number) => match number.as_i64() {
            Some(integer) => Json::Integer(integer),
            None => Json::Double(Binary64 { bits: number.as_f64().unwrap_or_default().to_bits() }),
        },
        Value::String(text) => Json::Text(text),
        Value::Array(list) => Json::List(list.into_iter().map(own_json).collect()),
        Value::Object(table) => {
            Json::Table(table.into_iter().map(|(key, item)| (key, own_json(item))).collect())
        },
    }
}

/// Reads a JSON document.
pub fn read_json(text: &str) -> (json: Option<Json>)
    requires
        text@.len() <= DOCUMENT_LIMIT,
    ensures
        match json {
            Some(json) => parsed_json(text@) == Some(json@),
            None => parsed_json(text@) is None,
        },
{
    match parse_value(text) {
        Some(value) => Some(own_json(value)),
        None => None,
    }
}

/// A member is found exactly where the table has one of that name, and the first of them is.
pub proof fn the_first_member_of_a_name_is_found(
    table: Seq<(Seq<char>, JsonView)>,
    key: Seq<char>,
    place: int,
)
    ensures
        0 <= place < table.len() && table[place].0 == key && (forall|i: int|
            0 <= i < place ==> (#[trigger] table[i]).0 != key) ==> JsonView::Table(table).found(key)
            == Some(table[place].1) && JsonView::Table(table).member(key) == table[place].1,
        (forall|i: int| 0 <= i < table.len() ==> (#[trigger] table[i]).0 != key)
            ==> JsonView::Table(table).found(key) is None && JsonView::Table(table).member(key)
            is Null,
    decreases table.len(),
{
    if table.len() > 0 && table[0].0 != key {
        let rest = table.drop_first();
        the_first_member_of_a_name_is_found(rest, key, place - 1);
        assert(JsonView::Table(table).found(key) == JsonView::Table(rest).found(key));
        if 0 < place < table.len() {
            assert(rest[place - 1] == table[place]);
            if forall|i: int| 0 <= i < place ==> (#[trigger] table[i]).0 != key {
                assert forall|i: int| 0 <= i < place - 1 implies (#[trigger] rest[i]).0 != key by {
                    assert(rest[i] == table[i + 1]);
                }
            }
        }
        if forall|i: int| 0 <= i < table.len() ==> (#[trigger] table[i]).0 != key {
            assert forall|i: int| 0 <= i < rest.len() implies (#[trigger] rest[i]).0 != key by {
                assert(rest[i] == table[i + 1]);
            }
        }
    }
}

/// Only tables have members, only texts are texts, only integers are integers and only lists are
/// lists.
pub proof fn values_are_of_one_kind(value: JsonView, key: Seq<char>)
    ensures
        !(value is Table) ==> value.found(key) is None && value.member(key) is Null,
        value.text() == (match value {
            JsonView::Text(text) => Some(text),
            _ => None,
        }),
        value.integer() == (match value {
            JsonView::Integer(number) => Some(number),
            _ => None,
        }),
        value.list() == (match value {
            JsonView::List(list) => Some(list),
            _ => None,
        }),
{
}

} // verus!
