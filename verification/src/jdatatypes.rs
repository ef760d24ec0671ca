//! Type definitions to represent JSON data types, which can be parsed from a
//! JSON text.

use vstd::prelude::*;

verus! {

/// A named value.
#[derive(Debug, Clone)]
pub struct KeyValuePair<T> {
    pub name: String,
    pub value: T,
}

/// The kinds of JSON values.
#[derive(Debug, Clone)]
pub enum JsonValueType {
    String,
    Number,
    Object,
    Array,
    Boolean,
    Null,
}

/// New type definition to have a virtual JSON-Null-type.
#[derive(Debug, Clone)]
pub struct Null;

} // verus!
