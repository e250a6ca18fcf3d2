//! The errors of the string commands and their messages.
use vstd::prelude::*;

verus! {

/// An error of a string command.
#[derive(Debug, PartialEq, Eq, Structural)]
pub enum DataBaseError {
    NotAString,
    NonExistentKey,
    NotAnInteger,
    KeyAlredyExist,
    NoMatch,
    NumberOfParamsIsIncorrectly,
    NotASet,
}

/// The message of an error.
pub open spec fn message(e: DataBaseError) -> Seq<char> {
    match e {
        DataBaseError::NonExistentKey => "Non-existent key"@,
        DataBaseError::NotAString => "Value isn't a String"@,
        DataBaseError::NotAnInteger => "Value isn't an Integer"@,
        DataBaseError::KeyAlredyExist => "the key alredy exist in the database"@,
        DataBaseError::NoMatch => "(empty list or set)"@,
        DataBaseError::NumberOfParamsIsIncorrectly => "number of parameters is incorrectly"@,
        DataBaseError::NotASet => "element of key isn't a Set"@,
    }
}

impl DataBaseError {
    /// The message of the error (see `message`).
    pub fn to_string(&self) -> (r: String)
        ensures
            r@ == message(*self),
    {
        match self {
            DataBaseError::NonExistentKey => String::from_str("Non-existent key"),
            DataBaseError::NotAString => String::from_str("Value isn't a String"),
            DataBaseError::NotAnInteger => String::from_str("Value isn't an Integer"),
            DataBaseError::KeyAlredyExist => String::from_str("the key alredy exist in the database"),
            DataBaseError::NoMatch => String::from_str("(empty list or set)"),
            DataBaseError::NumberOfParamsIsIncorrectly => String::from_str(
                "number of parameters is incorrectly",
            ),
            DataBaseError::NotASet => String::from_str("element of key isn't a Set"),
        }
    }
}

} // verus!
