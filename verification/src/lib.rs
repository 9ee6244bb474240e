//! Markdown data models: the model types, their validation rules, and the
//! string handling behind them, with their behaviour stated as contracts.

pub mod text;
pub mod xmltype;
pub mod git;
pub mod primitives;
pub mod attribute;
pub mod object;
pub mod frontmatter;
pub mod datamodel;
pub mod validation;
pub mod option;
pub mod exporters;
pub mod pipeline;
pub mod tree;
pub mod linkml;
pub mod json;
pub mod markdown;
pub mod avro;
pub mod jsonld;
