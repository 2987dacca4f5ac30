//! JSON values as the protocol layers read and build them.

use vstd::prelude::*;
use vstd::string::*;
use crate::table::{find_key, first_index, key_seq, lemma_first_index};

verus! {

/// A JSON number: its text, and its value when it is a non-negative
/// integer that fits in a `u64`.
#[derive(Debug, Clone)]
pub struct JsonNumber {
    pub text: String,
    pub unsigned: Option<u64>,
}

/// A JSON value. Object members keep their order; the first member with a
/// name is the one that counts.
#[derive(Debug)]
pub enum JsonValue {
    Null,
    Bool(bool),
    Number(JsonNumber),
    String(String),
    Array(Vec<JsonValue>),
    Object(Vec<(String, JsonValue)>),
}


/// The mathematical value of a JSON value: texts as character sequences,
/// numbers by their text, arrays and objects as sequences.
pub enum JsonView {
    Null,
    Bool(bool),
    Number(Seq<char>),
    Str(Seq<char>),
    Array(Seq<JsonView>),
    Object(Seq<(Seq<char>, JsonView)>),
}

/// The view of a JSON value.
pub open spec fn json_view(v: JsonValue) -> JsonView
    decreases v,
{
    match v {
        JsonValue::Null => JsonView::Null,
        JsonValue::Bool(b) => JsonView::Bool(b),
        JsonValue::Number(n) => JsonView::Number(n.text@),
        JsonValue::String(s) => JsonView::Str(s@),
        JsonValue::Array(items) => JsonView::Array(
            Seq::new(items@.len(), |i: int| if 0 <= i < items@.len() { json_view(items@[i]) } else { JsonView::Null }),
        ),
        JsonValue::Object(ms) => JsonView::Object(
            Seq::new(
                ms@.len(),
                |i: int|
                    if 0 <= i < ms@.len() {
                        (ms@[i].0@, json_view(ms@[i].1))
                    } else {
                        (Seq::empty(), JsonView::Null)
                    },
            ),
        ),
    }
}

/// The views of the members of an object.
pub open spec fn members_view(ms: Seq<(String, JsonValue)>) -> Seq<(Seq<char>, JsonView)> {
    Seq::new(ms.len(), |i: int| (ms[i].0@, json_view(ms[i].1)))
}

/// The views of the items of an array.
pub open spec fn items_view(items: Seq<JsonValue>) -> Seq<JsonView> {
    Seq::new(items.len(), |i: int| json_view(items[i]))
}

/// No members yet.
pub fn new_members() -> (r: Vec<(String, JsonValue)>)
    ensures
        r@ == Seq::<(String, JsonValue)>::empty(),
        members_view(r@) == Seq::<(Seq<char>, JsonView)>::empty(),
{
    let r: Vec<(String, JsonValue)> = Vec::new();
    assert(members_view(r@) =~= Seq::<(Seq<char>, JsonView)>::empty());
    r
}

/// No items yet.
pub fn new_items() -> (r: Vec<JsonValue>)
    ensures
        r@ == Seq::<JsonValue>::empty(),
        items_view(r@) == Seq::<JsonView>::empty(),
{
    let r: Vec<JsonValue> = Vec::new();
    assert(items_view(r@) =~= Seq::<JsonView>::empty());
    r
}

/// Appends the member `(key, value)`.
pub fn push_member(ms: &mut Vec<(String, JsonValue)>, key: &str, value: JsonValue)
    ensures
        final(ms)@.len() == old(ms)@.len() + 1,
        final(ms)@.drop_last() == old(ms)@,
        final(ms)@.last().0@ == key@,
        final(ms)@.last().1 == value,
        members_view(final(ms)@) == members_view(old(ms)@).push((key@, json_view(value))),
{
    let ghost before = ms@;
    ms.push((String::from_str(key), value));
    assert(ms@.drop_last() =~= before);
    assert(members_view(ms@) =~= members_view(before).push((key@, json_view(value))));
}

/// Appends the item `value`.
pub fn push_item(items: &mut Vec<JsonValue>, value: JsonValue)
    ensures
        final(items)@ == old(items)@.push(value),
        items_view(final(items)@) == items_view(old(items)@).push(json_view(value)),
{
    let ghost before = items@;
    items.push(value);
    assert(items_view(items@) =~= items_view(before).push(json_view(value)));
}

/// The object with the members `ms`.
pub fn object(ms: Vec<(String, JsonValue)>) -> (r: JsonValue)
    ensures
        r == JsonValue::Object(ms),
        json_view(r) == JsonView::Object(members_view(ms@)),
{
    let r = JsonValue::Object(ms);
    proof {
        assert(json_view(r)->Object_0 =~= members_view(ms@));
    }
    r
}

/// The array with the items `items`.
pub fn array(items: Vec<JsonValue>) -> (r: JsonValue)
    ensures
        r == JsonValue::Array(items),
        json_view(r) == JsonView::Array(items_view(items@)),
{
    let r = JsonValue::Array(items);
    proof {
        assert(json_view(r)->Array_0 =~= items_view(items@));
    }
    r
}

/// The member `key` of an object (nothing for other values).
pub open spec fn json_get(v: JsonValue, key: Seq<char>) -> Option<JsonValue> {
    match v {
        JsonValue::Object(members) => match first_index(key_seq(members@), key) {
            Some(i) => Some(members@[i].1),
            None => None,
        },
        _ => None,
    }
}

/// The text of a string value.
pub open spec fn json_str(v: JsonValue) -> Option<Seq<char>> {
    match v {
        JsonValue::String(s) => Some(s@),
        _ => None,
    }
}

/// The text of the string member `key` of an object.
pub open spec fn json_get_str(v: JsonValue, key: Seq<char>) -> Option<Seq<char>> {
    match json_get(v, key) {
        Some(m) => json_str(m),
        None => None,
    }
}

/// The members of an object (none for other values).
pub open spec fn json_members(v: JsonValue) -> Seq<(String, JsonValue)> {
    match v {
        JsonValue::Object(ms) => ms@,
        _ => Seq::empty(),
    }
}

/// The items of an array (none for other values).
pub open spec fn json_items(v: JsonValue) -> Seq<JsonValue> {
    match v {
        JsonValue::Array(items) => items@,
        _ => Seq::empty(),
    }
}

/// `v` is the string `s`.
pub open spec fn is_json_str(v: JsonValue, s: Seq<char>) -> bool {
    json_str(v) == Some(s)
}

/// The member `k` of `v` at position `i` is the string `s`.
pub open spec fn member_is_str(v: JsonValue, i: int, k: Seq<char>, s: Seq<char>) -> bool {
    &&& 0 <= i < json_members(v).len()
    &&& json_members(v)[i].0@ == k
    &&& is_json_str(json_members(v)[i].1, s)
}

impl JsonValue {
    /// The member `key`, when this is an object that has one.
    pub fn get(&self, key: &str) -> (r: Option<&JsonValue>)
        ensures
            match json_get(*self, key@) {
                Some(m) => r == Some(&m),
                None => r is None,
            },
    {
        match self {
            JsonValue::Object(members) => {
                proof {
                    lemma_first_index(key_seq(members@), key@);
                }
                match find_key(members, key) {
                    Some(i) => Some(&members[i].1),
                    None => None,
                }
            },
            _ => None,
        }
    }

    /// The text, when this is a string.
    pub fn as_str(&self) -> (r: Option<&str>)
        ensures
            match json_str(*self) {
                Some(s) => r matches Some(x) && x@ == s,
                None => r is None,
            },
    {
        match self {
            JsonValue::String(s) => Some(s.as_str()),
            _ => None,
        }
    }

    /// The text of the string member `key`.
    pub fn get_str(&self, key: &str) -> (r: Option<&str>)
        ensures
            match json_get_str(*self, key@) {
                Some(s) => r matches Some(x) && x@ == s,
                None => r is None,
            },
    {
        match self.get(key) {
            Some(m) => m.as_str(),
            None => None,
        }
    }

    /// Whether this is an object.
    pub fn is_object(&self) -> (r: bool)
        ensures
            r == (*self is Object),
    {
        match self {
            JsonValue::Object(_) => true,
            _ => false,
        }
    }

    /// A string value.
    pub fn string(s: &str) -> (r: JsonValue)
        ensures
            r matches JsonValue::String(x) && x@ == s@,
            json_view(r) == JsonView::Str(s@),
    {
        JsonValue::String(String::from_str(s))
    }

    /// A number value for a non-negative integer.
    pub fn unsigned(n: u64) -> (r: JsonValue)
        ensures
            r matches JsonValue::Number(x) && x.unsigned == Some(n) && x.text@ == crate::text::decimal(n as nat),
            json_view(r) == JsonView::Number(crate::text::decimal(n as nat)),
    {
        JsonValue::Number(JsonNumber { text: crate::text::u64_to_decimal(n), unsigned: Some(n) })
    }
}

} // verus!
