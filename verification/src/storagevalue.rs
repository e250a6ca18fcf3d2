//! A value of a key together with the text it is shown as.
use vstd::prelude::*;
use crate::databasehelper::{spaced, spaced_text, strings_view};

verus! {

/// What a key holds.
pub enum StorageValue {
    String(String),
    List(Vec<String>),
    /// The members of a set, each once.
    StringSet(Vec<String>),
}

/// The text of a value: a string as it is, the items of a list or a set
/// each followed by a space.
pub open spec fn shown(v: StorageValue) -> Seq<char> {
    match v {
        StorageValue::String(s) => s@,
        StorageValue::List(l) => spaced(strings_view(l@)),
        StorageValue::StringSet(m) => spaced(strings_view(m@)),
    }
}

impl StorageValue {
    /// The text of the value (see `shown`).
    pub fn to_string(&self) -> (r: String)
        ensures
            r@ == shown(*self),
    {
        match self {
            StorageValue::String(s) => s.clone(),
            StorageValue::List(l) => spaced_text(l),
            StorageValue::StringSet(m) => spaced_text(m),
        }
    }
}

} // verus!
