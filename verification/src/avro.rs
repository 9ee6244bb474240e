//! Avro schemas: records, enumerations, collections and primitives.

use vstd::prelude::*;

verus! {

/// An Avro schema.
#[derive(Debug)]
pub struct AvroSchema {
    /// The type of the schema.
    pub schema_type: SchemaType,
    /// The name, for named types.
    pub name: Option<String>,
    /// The namespace of the name.
    pub namespace: Option<String>,
    /// The documentation.
    pub doc: Option<String>,
    /// Other names of the schema.
    pub aliases: Option<Vec<String>>,
    /// What the type holds.
    pub type_fields: TypeFields,
}

/// The types of Avro.
#[derive(Debug, Clone, Copy, PartialEq, Eq, Structural)]
pub enum SchemaType {
    Record,
    Enum,
    Array,
    MapType,
    Union,
    Fixed,
    String,
    Bytes,
    Int,
    Long,
    Float,
    Double,
    Boolean,
    Null,
}

/// What a type holds: the fields of a record, the symbols of an
/// enumeration, the items of an array, the values of a map, the members
/// of a union, the size of a fixed type; nothing for a primitive.
#[derive(Debug)]
pub enum TypeFields {
    Record { fields: Vec<RecordField> },
    Enum { symbols: Vec<String> },
    Array { items: Box<AvroSchema> },
    MapType { values: Box<AvroSchema> },
    Union { types: Vec<Box<AvroSchema>> },
    Fixed { size: usize },
    Primitive,
}

/// A field of a record.
#[derive(Debug)]
pub struct RecordField {
    /// The name of the field.
    pub name: String,
    /// The documentation.
    pub doc: Option<String>,
    /// The schema of its values.
    pub schema: Box<AvroSchema>,
    /// The default value.
    pub default: Option<serde_json::Value>,
    /// How the field orders records.
    pub order: Option<Order>,
    /// Other names of the field.
    pub aliases: Option<Vec<String>>,
}

/// How a field orders records.
#[derive(Debug, Clone, Copy, PartialEq, Eq, Structural)]
pub enum Order {
    Ascending,
    Descending,
    Ignore,
}

impl AvroSchema {
    /// A schema of a primitive type: no name, namespace, documentation,
    /// aliases or fields.
    pub fn primitive(schema_type: SchemaType) -> (r: Self)
        ensures
            r.schema_type == schema_type,
            r.name is None,
            r.namespace is None,
            r.doc is None,
            r.aliases is None,
            r.type_fields is Primitive,
    {
        AvroSchema {
            schema_type,
            name: None,
            namespace: None,
            doc: None,
            aliases: None,
            type_fields: TypeFields::Primitive,
        }
    }

    /// A record schema with the name and fields: no namespace,
    /// documentation or aliases.
    pub fn record(name: String, fields: Vec<RecordField>) -> (r: Self)
        ensures
            r.schema_type == SchemaType::Record,
            r.name == Some(name),
            r.namespace is None,
            r.doc is None,
            r.aliases is None,
            r.type_fields == (TypeFields::Record { fields }),
    {
        AvroSchema {
            schema_type: SchemaType::Record,
            name: Some(name),
            namespace: None,
            doc: None,
            aliases: None,
            type_fields: TypeFields::Record { fields },
        }
    }
}

} // verus!
