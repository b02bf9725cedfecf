//! JSON documents as plain values, and the lookups that the parsers make in them.

use vstd::prelude::*;
use crate::numbers::{bounded_int, parse_i64};
use crate::outside::{json_reading, plain_value, value_of_text};
use crate::text::same;

verus! {

/// A JSON document. A number is kept as its text.
pub enum Json {
    Null,
    Bool(bool),
    Number(String),
    Text(String),
    Array(Vec<Json>),
    Object(Vec<(String, Json)>),
}

/// What a JSON document says.
#[verifier::ext_equal]
pub enum JsonView {
    Null,
    Bool(bool),
    Number(Seq<char>),
    Text(Seq<char>),
    Array(Seq<JsonView>),
    Object(Seq<(Seq<char>, JsonView)>),
}

impl View for Json {
    type V = JsonView;

    open spec fn view(&self) -> JsonView {
        json_view(*self)
    }
}

pub open spec fn json_view(j: Json) -> JsonView
    decreases j,
{
    match j {
        Json::Null => JsonView::Null,
        Json::Bool(b) => JsonView::Bool(b),
        Json::Number(t) => JsonView::Number(t@),
        Json::Text(t) => JsonView::Text(t@),
        Json::Array(items) => JsonView::Array(
            Seq::new(
                items@.len(),
                |i: int|
                    if 0 <= i < items@.len() {
                        json_view(items@[i])
                    } else {
                        JsonView::Null
                    },
            ),
        ),
        Json::Object(entries) => JsonView::Object(
            Seq::new(
                entries@.len(),
                |i: int|
                    if 0 <= i < entries@.len() {
                        (entries@[i].0@, json_view(entries@[i].1))
                    } else {
                        (Seq::empty(), JsonView::Null)
                    },
            ),
        ),
    }
}

/// The value of the first entry with the given key.
pub open spec fn entry_of(entries: Seq<(Seq<char>, JsonView)>, key: Seq<char>) -> Option<JsonView>
    decreases entries.len(),
{
    if entries.len() == 0 {
        None
    } else if entries[0].0 == key {
        Some(entries[0].1)
    } else {
        entry_of(entries.drop_first(), key)
    }
}

impl JsonView {
    /// The value under a key, where this is an object that has it.
    pub open spec fn get(self, key: Seq<char>) -> Option<JsonView> {
        match self {
            JsonView::Object(entries) => entry_of(entries, key),
            _ => None,
        }
    }

    /// The value under a key of the value under a key.
    pub open spec fn get2(self, first: Seq<char>, second: Seq<char>) -> Option<JsonView> {
        match self.get(first) {
            Some(inner) => inner.get(second),
            None => None,
        }
    }

    /// The items of an array.
    pub open spec fn items(self) -> Option<Seq<JsonView>> {
        match self {
            JsonView::Array(items) => Some(items),
            _ => None,
        }
    }
}

/// The text of a value that is one.
pub open spec fn text_of(v: Option<JsonView>) -> Option<Seq<char>> {
    match v {
        Some(JsonView::Text(t)) => Some(t),
        _ => None,
    }
}

/// The text of a value, or another where it is none.
pub open spec fn text_or(v: Option<JsonView>, other: Seq<char>) -> Seq<char> {
    match text_of(v) {
        Some(t) => t,
        None => other,
    }
}

/// The integer that a value holds, where it is one of 64 bits.
pub open spec fn int_of(v: Option<JsonView>) -> Option<int> {
    match v {
        Some(JsonView::Number(t)) => bounded_int(t, i64::MIN as int, i64::MAX as int),
        _ => None,
    }
}

/// The integer that a value holds, or 0.
pub open spec fn int_or_zero(v: Option<JsonView>) -> int {
    match int_of(v) {
        Some(i) => i,
        None => 0,
    }
}

/// The items of the array that a value holds.
pub open spec fn items_of(v: Option<JsonView>) -> Option<Seq<JsonView>> {
    match v {
        Some(j) => j.items(),
        None => None,
    }
}

/// The view of an optional part of a document.
pub open spec fn part(v: Option<&Json>) -> Option<JsonView> {
    match v {
        Some(j) => Some(j@),
        None => None,
    }
}

proof fn lemma_entry_of_prefix(entries: Seq<(Seq<char>, JsonView)>, key: Seq<char>, i: int)
    requires
        0 <= i <= entries.len(),
        forall|k: int| 0 <= k < i ==> (#[trigger] entries[k]).0 != key,
    ensures
        entry_of(entries, key) == entry_of(entries.skip(i), key),
    decreases i,
{
    if i > 0 {
        assert(entries.drop_first().skip(i - 1) =~= entries.skip(i));
        assert forall|k: int| 0 <= k < i - 1 implies (#[trigger] entries.drop_first()[k]).0
            != key by {
            assert(entries.drop_first()[k] == entries[k + 1]);
        }
        assert(entries[0].0 != key);
        lemma_entry_of_prefix(entries.drop_first(), key, i - 1);
    } else {
        assert(entries.skip(0) =~= entries);
    }
}

impl Json {
    /// The value under a key, where this is an object that has it.
    pub fn get(&self, key: &str) -> (r: Option<&Json>)
        ensures
            part(r) == self@.get(key@),
    {
        match self {
            Json::Object(entries) => {
                let ghost view = self@->Object_0;
                let mut i: usize = 0;
                while i < entries.len()
                    invariant
                        i <= entries@.len(),
                        self@ == JsonView::Object(view),
                        *self == Json::Object(*entries),
                        view.len() == entries@.len(),
                        forall|k: int| 0 <= k < i ==> (#[trigger] view[k]).0 != key@,
                    decreases entries@.len() - i,
                {
                    assert(view[i as int] == (entries@[i as int].0@, entries@[i as int].1@));
                    if same(entries[i].0.as_str(), key) {
                        proof {
                            lemma_entry_of_prefix(view, key@, i as int);
                            assert(view.skip(i as int)[0] == view[i as int]);
                        }
                        return Some(&entries[i].1);
                    }
                    i += 1;
                }
                proof {
                    lemma_entry_of_prefix(view, key@, i as int);
                }
                None
            },
            _ => None,
        }
    }

    /// The value under a key of the value under a key.
    pub fn get2(&self, first: &str, second: &str) -> (r: Option<&Json>)
        ensures
            part(r) == self@.get2(first@, second@),
    {
        match self.get(first) {
            Some(inner) => inner.get(second),
            None => None,
        }
    }
}

/// The items of the array that a value holds.
pub fn items(v: Option<&Json>) -> (r: Option<&Vec<Json>>)
    ensures
        match r {
            Some(list) => items_of(part(v)) is Some && items_of(part(v))->0.len() == list@.len()
                && forall|i: int|
                0 <= i < list@.len() ==> #[trigger] items_of(part(v))->0[i] == list@[i]@,
            None => items_of(part(v)) is None,
        },
{
    match v {
        Some(Json::Array(list)) => Some(list),
        _ => None,
    }
}

/// The text of a value that is one.
pub fn text(v: Option<&Json>) -> (r: Option<&str>)
    ensures
        match r {
            Some(t) => text_of(part(v)) == Some(t@),
            None => text_of(part(v)) is None,
        },
{
    match v {
        Some(Json::Text(t)) => Some(t.as_str()),
        _ => None,
    }
}

/// The text of a value, or another where it is none.
pub fn text_else(v: Option<&Json>, other: &str) -> (r: String)
    ensures
        r@ == text_or(part(v), other@),
{
    match text(v) {
        Some(t) => t.to_owned(),
        None => other.to_owned(),
    }
}

/// The integer that a value holds, where it is one of 64 bits.
pub fn integer(v: Option<&Json>) -> (r: Option<i64>)
    ensures
        match r {
            Some(i) => int_of(part(v)) == Some(i as int),
            None => int_of(part(v)) is None,
        },
{
    match v {
        Some(Json::Number(t)) => parse_i64(t.as_str()),
        _ => None,
    }
}

/// The integer that a value holds, or 0.
pub fn integer_or_zero(v: Option<&Json>) -> (r: i64)
    ensures
        r == int_or_zero(part(v)),
{
    match integer(v) {
        Some(i) => i,
        None => 0,
    }
}

/// Reads a JSON text. The error is the message of the reader.
pub fn read_json(text: &str) -> (r: Result<Json, String>)
    ensures
        match r {
            Ok(j) => json_reading(text@) == Ok::<JsonView, Seq<char>>(j@),
            Err(message) => json_reading(text@) == Err::<JsonView, Seq<char>>(message@),
        },
{
    match value_of_text(text) {
        Ok(value) => Ok(plain_value(value)),
        Err(message) => Err(message),
    }
}

/// A key of an object leads to the value of the first entry that has it, and a key that no
/// entry has to nothing, as any key does in what is no object.
pub proof fn lemma_key_leads_to_its_value(j: JsonView, key: Seq<char>)
    ensures
        !(j is Object) ==> j.get(key) is None,
        j matches JsonView::Object(entries) ==> {
            &&& j.get(key) is None <==> forall|k: int|
                0 <= k < entries.len() ==> (#[trigger] entries[k]).0 != key
            &&& forall|i: int|
                0 <= i < entries.len() && (#[trigger] entries[i]).0 == key && (forall|k: int|
                    0 <= k < i ==> (#[trigger] entries[k]).0 != key) ==> j.get(key) == Some(
                    entries[i].1,
                )
        },
{
    if let JsonView::Object(entries) = j {
        if forall|k: int| 0 <= k < entries.len() ==> (#[trigger] entries[k]).0 != key {
            lemma_entry_of_prefix(entries, key, entries.len() as int);
            assert(entries.skip(entries.len() as int).len() == 0);
        } else {
            lemma_some_entry(entries, key);
        }
        assert forall|i: int|
            0 <= i < entries.len() && (#[trigger] entries[i]).0 == key && (forall|k: int|
                0 <= k < i ==> (#[trigger] entries[k]).0 != key) implies j.get(key) == Some(
            entries[i].1,
        ) by {
            lemma_entry_of_prefix(entries, key, i);
            assert(entries.skip(i)[0] == entries[i]);
        }
    }
}

proof fn lemma_some_entry(entries: Seq<(Seq<char>, JsonView)>, key: Seq<char>)
    requires
        exists|k: int| 0 <= k < entries.len() && (#[trigger] entries[k]).0 == key,
    ensures
        entry_of(entries, key) is Some,
    decreases entries.len(),
{
    let k = choose|k: int| 0 <= k < entries.len() && (#[trigger] entries[k]).0 == key;
    if entries[0].0 != key {
        assert(entries.drop_first()[k - 1] == entries[k]);
        lemma_some_entry(entries.drop_first(), key);
    }
}

/// Numbers, texts and arrays are read as what they are and as nothing else; what is no
/// integer of 64 bits counts as zero where a number is wanted.
pub proof fn lemma_values_are_read_as_they_are(t: Seq<char>, list: Seq<JsonView>)
    ensures
        int_of(Some(JsonView::Number(t))) == bounded_int(t, i64::MIN as int, i64::MAX as int),
        int_of(Some(JsonView::Text(t))) is None,
        int_of(Some(JsonView::Array(list))) is None,
        int_of(None) is None,
        int_or_zero(Some(JsonView::Text(t))) == 0,
        text_of(Some(JsonView::Text(t))) == Some(t),
        text_of(Some(JsonView::Number(t))) is None,
        text_of(None) is None,
        items_of(Some(JsonView::Array(list))) == Some(list),
        items_of(Some(JsonView::Text(t))) is None,
        items_of(None) is None,
{
}

} // verus!
