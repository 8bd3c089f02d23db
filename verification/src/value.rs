//! The types of the values that a table column can hold.

use crate::text::same_text;
use vstd::prelude::*;
use vstd::string::StringExecFns;

verus! {

/// The type of a stored value, without the value.
#[derive(Debug, Clone, Copy, PartialEq, Eq, Structural)]
pub enum ValueType {
    Null,
    Integer,
    Real,
    Text,
    Blob,
}

/// The error for a type name that names no value type.
#[derive(Debug, Clone)]
pub struct InvalidValueTypeError {
    origin: String,
}

/// The value type that a type name stands for, if it stands for one.
pub open spec fn value_type_named(name: Seq<char>) -> Option<ValueType> {
    if name == "NULL"@ {
        Some(ValueType::Null)
    } else if name == "INTEGER"@ {
        Some(ValueType::Integer)
    } else if name == "REAL"@ {
        Some(ValueType::Real)
    } else if name == "TEXT"@ {
        Some(ValueType::Text)
    } else if name == "BLOB"@ {
        Some(ValueType::Blob)
    } else {
        None
    }
}

impl InvalidValueTypeError {
    /// The error for the type name `origin`.
    pub fn new(origin: String) -> (error: Self)
        ensures
            error@ == origin@,
    {
        InvalidValueTypeError { origin }
    }

    /// The type name that was not understood.
    pub fn origin(&self) -> (origin: &String)
        ensures
            origin@ == self@,
    {
        &self.origin
    }

    /// The error in words.
    pub fn message(&self) -> (message: String)
        ensures
            message@ == "Trying to get ValueType from invalid string: "@ + self@,
    {
        String::from_str("Trying to get ValueType from invalid string: ").concat(
            self.origin.as_str(),
        )
    }
}

impl View for InvalidValueTypeError {
    type V = Seq<char>;

    closed spec fn view(&self) -> Seq<char> {
        self.origin@
    }
}

impl ValueType {
    /// Reads a value type from its name in upper case. Any other string is
    /// an error that holds the string.
    pub fn try_from(value: &str) -> (result: Result<ValueType, InvalidValueTypeError>)
        ensures
            match result {
                Ok(value_type) => value_type_named(value@) == Some(value_type),
                Err(error) => value_type_named(value@) is None && error@ == value@,
            },
    {
        if same_text(value, "NULL") {
            Ok(ValueType::Null)
        } else if same_text(value, "INTEGER") {
            Ok(ValueType::Integer)
        } else if same_text(value, "REAL") {
            Ok(ValueType::Real)
        } else if same_text(value, "TEXT") {
            Ok(ValueType::Text)
        } else if same_text(value, "BLOB") {
            Ok(ValueType::Blob)
        } else {
            Err(InvalidValueTypeError::new(String::from_str(value)))
        }
    }

    /// The short name under which the type is shown.
    pub fn short_name(&self) -> (name: &'static str)
        ensures
            name@ == match self {
                ValueType::Null => "Null"@,
                ValueType::Integer => "Int"@,
                ValueType::Real => "Real"@,
                ValueType::Text => "Text"@,
                ValueType::Blob => "Blob"@,
            },
    {
        match self {
            ValueType::Null => "Null",
            ValueType::Integer => "Int",
            ValueType::Real => "Real",
            ValueType::Text => "Text",
            ValueType::Blob => "Blob",
        }
    }
}

} // verus!
