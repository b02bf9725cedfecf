//! The calls into other crates: reading JSON, dates and CSV.

use vstd::prelude::*;
use vstd::utf8::encode_utf8;
use crate::grid::{body_values, grid_text, is_table, Field};
use crate::json::{Json, JsonView};

verus! {

/// A parsed document of `serde_json`.
#[verifier::external_type_specification]
#[verifier::external_body]
pub struct ExValue(serde_json::Value);

/// What a parsed document holds.
pub uninterp spec fn value_contents(value: serde_json::Value) -> JsonView;

/// What `serde_json::from_str` makes of a text: the document, or the message of
/// its error.
pub uninterp spec fn json_reading(text: Seq<char>) -> Result<JsonView, Seq<char>>;

/// `serde_json::from_str` into a `serde_json::Value`: whether the text is a JSON
/// document, what the document holds, and the message of the error, depend on
/// the text alone.
#[verifier::external_body]
pub(crate) fn value_of_text(text: &str) -> (r: Result<serde_json::Value, String>)
    ensures
        match r {
            Ok(value) => json_reading(text@) == Ok::<JsonView, Seq<char>>(value_contents(value)),
            Err(message) => json_reading(text@) == Err::<JsonView, Seq<char>>(message@),
        },
{
    serde_json::from_str(text).map_err(|e| e.to_string())
}

/// The variants of `serde_json::Value`, one for one: the result holds what the
/// document holds. A number becomes the text that `serde_json::Number` displays.
#[verifier::external_body]
pub(crate) fn plain_value(value: serde_json::Value) -> (r: Json)
    ensures
        r@ == value_contents(value),
{
    match value {
        serde_json::Value::Null => Json::Null,
        serde_json::Value::Bool(b) => Json::Bool(b),
        serde_json::Value::Number(n) => Json::Number(n.to_string()),
        serde_json::Value::String(s) => Json::Text(s),
        serde_json::Value::Array(a) => Json::Array(a.into_iter().map(plain_value).collect()),
        serde_json::Value::Object(o) => {
            Json::Object(o.into_iter().map(|(k, v)| (k, plain_value(v))).collect())
        },
    }
}

/// What `chrono::NaiveDate::parse_from_str` makes of a text in the format
/// year-month-day: the number of the day, counted from 1 on the first of January
/// of the year 1, or the message of its error.
pub uninterp spec fn day_reading(text: Seq<char>) -> Result<i32, Seq<char>>;

/// What a day's number is written as in the format year-month-day, where it is
/// the number of a date that `chrono` can hold.
pub uninterp spec fn day_writing(day: i32) -> Option<Seq<char>>;

/// `chrono::NaiveDate::parse_from_str` with the format `%Y-%m-%d`: the outcome
/// depends on the text alone, and the empty text is no date.
#[verifier::external_body]
pub(crate) fn day_of_text(text: &str) -> (r: Result<i32, String>)
    ensures
        match r {
            Ok(day) => day_reading(text@) == Ok::<i32, Seq<char>>(day),
            Err(message) => day_reading(text@) == Err::<i32, Seq<char>>(message@),
        },
        text@.len() == 0 ==> r is Err,
{
    chrono::NaiveDate::parse_from_str(text, "%Y-%m-%d")
        .map(|date| chrono::Datelike::num_days_from_ce(&date))
        .map_err(|e| e.to_string())
}

/// `chrono::NaiveDate::format` with the format `%Y-%m-%d`, on the date with the
/// given number. Every day of the years 1 to 9999 is a date, and so is every day
/// that a text was read as; what is written reads back as the same day.
#[verifier::external_body]
pub(crate) fn text_of_day(day: i32) -> (r: Option<String>)
    ensures
        match r {
            Some(text) => day_writing(day) == Some(text@) && day_reading(text@) == Ok::<
                i32,
                Seq<char>,
            >(day),
            None => day_writing(day) is None,
        },
        1 <= day <= 3_652_059 ==> r is Some,
        (exists|text: Seq<char>| day_reading(text) == Ok::<i32, Seq<char>>(day)) ==> r is Some,
{
    chrono::NaiveDate::from_num_days_from_ce_opt(day)
        .map(|date| date.format("%Y-%m-%d").to_string())
}

/// What `csv::Reader` makes of the bytes of a table with a header: the records
/// under the header up to the first error, and the message of that error.
pub uninterp spec fn csv_reading(bytes: Seq<u8>) -> (Seq<Seq<Seq<char>>>, Option<Seq<char>>);

pub open spec fn record_view(record: Vec<String>) -> Seq<Seq<char>> {
    Seq::new(record@.len(), |c: int| record@[c]@)
}

pub open spec fn record_views(records: Seq<Vec<String>>) -> Seq<Seq<Seq<char>>> {
    Seq::new(records.len(), |i: int| record_view(records[i]))
}

pub open spec fn message_view(message: Option<String>) -> Option<Seq<char>> {
    match message {
        Some(m) => Some(m@),
        None => None,
    }
}

/// The records of `csv::Reader::from_reader`, up to the first error: they depend
/// on the bytes alone. A table that was written with clear fields is read without
/// error, and its records hold the values that were written.
#[verifier::external_body]
pub(crate) fn csv_records(bytes: &[u8]) -> (r: (Vec<Vec<String>>, Option<String>))
    ensures
        (record_views(r.0@), message_view(r.1)) == csv_reading(bytes@),
        forall|rows: Seq<Seq<Field>>|
            is_table(rows) && bytes@ == encode_utf8(#[trigger] grid_text(rows)) ==> record_views(
                r.0@,
            ) == body_values(rows) && r.1 is None,
{
    let mut records = Vec::new();
    for record in csv::Reader::from_reader(bytes).records() {
        match record {
            Ok(fields) => records.push(fields.iter().map(String::from).collect()),
            Err(e) => return (records, Some(e.to_string())),
        }
    }
    (records, None)
}

} // verus!
