//! JSON schema: its data types, the schema items the library reads, and
//! the rules by which a schema becomes part of a model.

pub mod datatype;
pub mod schema;
pub mod import;
pub mod export;
pub mod validation;
