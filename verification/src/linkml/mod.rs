//! LinkML: its schema types, and the rules by which a model becomes a
//! LinkML schema and a LinkML schema becomes a model.

pub mod schema;
pub mod export;
pub mod import;
