//! A parsed JSON value, as the conversion reads it.

use vstd::prelude::*;

verus! {

/// A JSON number as the conversion reads it: its text as the parser prints it, and
/// whether the parser can read it as an `i64` or as an `f64`.
#[derive(Clone, Debug, PartialEq, Eq)]
pub struct JsonNumber {
    pub text: String,
    pub is_i64: bool,
    pub is_f64: bool,
}

/// A parsed JSON value; an object keeps its members in the order the parser yields them.
#[derive(Debug, PartialEq, Eq)]
pub enum JsonValue {
    Null,
    Bool(bool),
    Number(JsonNumber),
    String(String),
    Array(Vec<JsonValue>),
    Object(Vec<(String, JsonValue)>),
}

/// How many JSON objects `v` holds, itself included: the blank nodes its conversion names.
pub open spec fn blank_count(v: JsonValue) -> nat
    decreases v,
{
    match v {
        JsonValue::Object(entries) => 1 + entries_blank_count(entries@),
        JsonValue::Array(items) => items_blank_count(items@),
        _ => 0,
    }
}

/// How many JSON objects the values of `items` hold.
pub open spec fn items_blank_count(items: Seq<JsonValue>) -> nat
    decreases items,
{
    if items.len() == 0 {
        0
    } else {
        items_blank_count(items.drop_last()) + blank_count(items.last())
    }
}

/// How many JSON objects the member values of `entries` hold.
pub open spec fn entries_blank_count(entries: Seq<(String, JsonValue)>) -> nat
    decreases entries,
{
    if entries.len() == 0 {
        0
    } else {
        entries_blank_count(entries.drop_last()) + blank_count(entries.last().1)
    }
}

} // verus!
