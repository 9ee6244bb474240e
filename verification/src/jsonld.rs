//! Values of JSON-LD keywords that hold either one item or a list.

use vstd::prelude::*;

verus! {

/// The value of an `@type` entry: a single type, or several types.
#[derive(Debug, Clone, PartialEq)]
pub enum TypeOrVec {
    /// A single type.
    Single(String),
    /// Several types, in order.
    Multi(Vec<String>),
}

/// A keyword value (such as that of `@container`) written as one item or
/// as a list of items.
#[derive(Debug, Clone, PartialEq)]
pub enum OneOrMany<T> {
    /// One item.
    One(T),
    /// Several items, in order.
    Many(Vec<T>),
}

} // verus!
