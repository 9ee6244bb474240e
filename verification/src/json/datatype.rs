//! The primitive JSON data types.

use vstd::prelude::*;
use vstd::string::*;
use crate::text;

verus! {

/// A JSON data type.
#[derive(Debug, Clone, Copy, PartialEq, Eq, Structural)]
pub enum DataType {
    String,
    Integer,
    Number,
    Boolean,
    Array,
}

/// The name of a JSON data type.
pub open spec fn datatype_name(d: DataType) -> Seq<char> {
    match d {
        DataType::String => "string"@,
        DataType::Integer => "integer"@,
        DataType::Number => "number"@,
        DataType::Boolean => "boolean"@,
        DataType::Array => "array"@,
    }
}

/// The data type a name stands for.
pub open spec fn spec_datatype(s: Seq<char>) -> Option<DataType> {
    if s == "string"@ {
        Some(DataType::String)
    } else if s == "integer"@ {
        Some(DataType::Integer)
    } else if s == "number"@ {
        Some(DataType::Number)
    } else if s == "boolean"@ {
        Some(DataType::Boolean)
    } else if s == "array"@ {
        Some(DataType::Array)
    } else {
        None
    }
}

/// Reading the name of a data type gives the data type back.
pub proof fn law_datatype_name_round_trip(d: DataType)
    ensures
        spec_datatype(datatype_name(d)) == Some(d),
{
    reveal_strlit("string");
    reveal_strlit("integer");
    reveal_strlit("number");
    reveal_strlit("boolean");
    reveal_strlit("array");
    assert("string"@[0] != "integer"@[0]);
    assert("integer"@[0] != "number"@[0]);
    assert("string"@[0] != "number"@[0]);
    assert("string"@[0] != "boolean"@[0]);
    assert("integer"@[0] != "boolean"@[0]);
    assert("number"@[0] != "boolean"@[0]);
}

impl DataType {
    /// The name of the data type.
    pub fn to_string(&self) -> (r: String)
        ensures
            r@ == datatype_name(*self),
    {
        match self {
            DataType::String => String::from_str("string"),
            DataType::Integer => String::from_str("integer"),
            DataType::Number => String::from_str("number"),
            DataType::Boolean => String::from_str("boolean"),
            DataType::Array => String::from_str("array"),
        }
    }

    /// The data type named `s`; any other name is refused with
    /// `Unknown data type: ` and the name.
    pub fn from_str(s: &str) -> (r: Result<DataType, String>)
        ensures
            match r {
                Ok(d) => spec_datatype(s@) == Some(d),
                Err(e) => spec_datatype(s@) is None && e@ == "Unknown data type: "@ + s@,
            },
    {
        if text::str_eq(s, "string") {
            Ok(DataType::String)
        } else if text::str_eq(s, "integer") {
            Ok(DataType::Integer)
        } else if text::str_eq(s, "number") {
            Ok(DataType::Number)
        } else if text::str_eq(s, "boolean") {
            Ok(DataType::Boolean)
        } else if text::str_eq(s, "array") {
            Ok(DataType::Array)
        } else {
            let mut e = String::from_str("Unknown data type: ");
            e.append(s);
            Err(e)
        }
    }
}

} // verus!
