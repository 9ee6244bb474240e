//! The items of a JSON schema that the library reads and writes.

use vstd::prelude::*;
use vstd::string::*;
use crate::text;

verus! {

/// The type of a JSON schema node.
#[derive(Debug, Clone, Copy, PartialEq, Eq, Structural)]
pub enum DataType {
    String,
    Integer,
    Number,
    Boolean,
    Object,
    Array,
}

/// The type a name stands for when read as a schema type: `float` is read
/// as `number`.
pub open spec fn spec_schema_type(s: Seq<char>) -> Option<DataType> {
    if s == "string"@ {
        Some(DataType::String)
    } else if s == "number"@ {
        Some(DataType::Number)
    } else if s == "float"@ {
        Some(DataType::Number)
    } else if s == "integer"@ {
        Some(DataType::Integer)
    } else if s == "boolean"@ {
        Some(DataType::Boolean)
    } else if s == "object"@ {
        Some(DataType::Object)
    } else if s == "array"@ {
        Some(DataType::Array)
    } else {
        None
    }
}

/// The type a data type of an attribute maps to: the primitive names and
/// `float` map to their type, anything else names an object.
pub open spec fn spec_attribute_type(s: Seq<char>) -> DataType {
    match spec_schema_type(s) {
        Some(d) => d,
        None => DataType::Object,
    }
}

/// The name of a schema type, as a schema writes it.
pub open spec fn schema_type_name(d: DataType) -> Seq<char> {
    match d {
        DataType::String => "string"@,
        DataType::Integer => "integer"@,
        DataType::Number => "number"@,
        DataType::Boolean => "boolean"@,
        DataType::Object => "object"@,
        DataType::Array => "array"@,
    }
}

impl DataType {
    /// The name of the schema type.
    pub fn name(&self) -> (r: String)
        ensures
            r@ == schema_type_name(*self),
    {
        match self {
            DataType::String => String::from_str("string"),
            DataType::Integer => String::from_str("integer"),
            DataType::Number => String::from_str("number"),
            DataType::Boolean => String::from_str("boolean"),
            DataType::Object => String::from_str("object"),
            DataType::Array => String::from_str("array"),
        }
    }

    /// The schema type named `s`; any other name is refused with
    /// `Invalid data type: ` and the name.
    pub fn from_str(s: &str) -> (r: Result<DataType, String>)
        ensures
            match r {
                Ok(d) => spec_schema_type(s@) == Some(d),
                Err(e) => spec_schema_type(s@) is None && e@ == "Invalid data type: "@ + s@,
            },
    {
        if text::str_eq(s, "string") {
            Ok(DataType::String)
        } else if text::str_eq(s, "number") {
            Ok(DataType::Number)
        } else if text::str_eq(s, "float") {
            Ok(DataType::Number)
        } else if text::str_eq(s, "integer") {
            Ok(DataType::Integer)
        } else if text::str_eq(s, "boolean") {
            Ok(DataType::Boolean)
        } else if text::str_eq(s, "object") {
            Ok(DataType::Object)
        } else if text::str_eq(s, "array") {
            Ok(DataType::Array)
        } else {
            let mut e = String::from_str("Invalid data type: ");
            e.append(s);
            Err(e)
        }
    }

    /// The schema type for a data type of an attribute; names that are not
    /// primitive name objects.
    pub fn from_attribute_type(s: &String) -> (r: DataType)
        ensures
            r == spec_attribute_type(s@),
    {
        match DataType::from_str(s.as_str()) {
            Ok(d) => d,
            Err(_) => DataType::Object,
        }
    }
}

/// A schema item that refers to a definition.
#[derive(Debug, Clone, PartialEq)]
pub struct ReferenceItemType {
    /// The reference, such as `#/$defs/Name`.
    pub reference: String,
}

/// A schema item that is one of several items.
#[derive(Debug)]
pub struct OneOfItemType {
    pub one_of: Vec<Item>,
}

/// A schema item given by its type.
#[derive(Debug, Clone, PartialEq)]
pub struct DataTypeItemType {
    pub dtype: DataType,
}

/// The items of an array, or one alternative of `oneOf`.
#[derive(Debug)]
pub enum Item {
    ReferenceItem(ReferenceItemType),
    OneOfItem(OneOfItemType),
    DataTypeItem(DataTypeItemType),
}

/// An enumeration of a JSON schema.
#[derive(Debug, Clone, PartialEq)]
pub struct EnumObject {
    pub title: String,
    pub dtype: DataType,
    pub description: Option<String>,
    pub enum_values: Vec<String>,
}

/// Whether an optional list is left out when written: when it is absent or
/// empty.
pub fn skip_empty<T>(option: &Option<Vec<T>>) -> (r: bool)
    ensures
        r == match option {
            Some(v) => v@.len() == 0,
            None => true,
        },
{
    match option {
        Some(v) => v.len() == 0,
        None => true,
    }
}

/// Whether an optional string is left out when written: when it is absent
/// or empty.
pub fn skip_empty_string(option: &Option<String>) -> (r: bool)
    ensures
        r == match option {
            Some(s) => s@.len() == 0,
            None => true,
        },
{
    match option {
        Some(s) => s.unicode_len() == 0,
        None => true,
    }
}

} // verus!
