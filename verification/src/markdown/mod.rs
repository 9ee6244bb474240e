//! Reading data models from markdown.

pub mod events;
pub mod parser;
