//! Options of attributes as written in a model: a key and a value.

use vstd::prelude::*;
use vstd::string::*;
use crate::text;

verus! {

/// An option as written: a key, kept in lower case, and a value.
#[derive(Debug, Clone, PartialEq)]
pub struct RawOption {
    pub key: String,
    pub value: String,
}

impl RawOption {
    /// Creates an option; the key is stored in lower case.
    pub fn new(key: String, value: String) -> (r: Self)
        ensures
            r.key@ == text::lowercase(key@),
            text::all_ascii(key@) ==> r.key@ == text::ascii_lower_seq(key@),
            r.value@ == value@,
    {
        RawOption { key: text::to_lowercase(key.as_str()), value }
    }

    /// The key of the option.
    pub fn key(&self) -> (r: &str)
        ensures
            r@ == self.key@,
    {
        self.key.as_str()
    }

    /// The value of the option.
    pub fn value(&self) -> (r: &str)
        ensures
            r@ == self.value@,
    {
        self.value.as_str()
    }
}

/// The keys of attribute options that the markdown reader treats on their own.
#[derive(Debug, Clone, Copy, PartialEq, Eq, Structural)]
pub enum OptionKey {
    /// The data type of the attribute.
    Type,
    /// The term associated with the attribute.
    Term,
    /// The description of the attribute.
    Description,
    /// The XML type information of the attribute.
    Xml,
    /// The default value of the attribute.
    Default,
    /// Whether the attribute can hold several values.
    Multiple,
    /// Any other option.
    Other,
}

/// The key that a lower-cased key string stands for.
pub open spec fn spec_option_key(lower: Seq<char>) -> OptionKey {
    if lower == "type"@ {
        OptionKey::Type
    } else if lower == "term"@ {
        OptionKey::Term
    } else if lower == "description"@ {
        OptionKey::Description
    } else if lower == "xml"@ {
        OptionKey::Xml
    } else if lower == "default"@ {
        OptionKey::Default
    } else if lower == "multiple"@ {
        OptionKey::Multiple
    } else {
        OptionKey::Other
    }
}

impl OptionKey {
    /// The key named by `key`, compared without regard to case.
    pub fn from_str(key: &str) -> (r: OptionKey)
        ensures
            r == spec_option_key(text::lowercase(key@)),
            text::all_ascii(key@) ==> r == spec_option_key(text::ascii_lower_seq(key@)),
    {
        let lower = text::to_lowercase(key);
        let l = lower.as_str();
        if text::str_eq(l, "type") {
            OptionKey::Type
        } else if text::str_eq(l, "term") {
            OptionKey::Term
        } else if text::str_eq(l, "description") {
            OptionKey::Description
        } else if text::str_eq(l, "xml") {
            OptionKey::Xml
        } else if text::str_eq(l, "default") {
            OptionKey::Default
        } else if text::str_eq(l, "multiple") {
            OptionKey::Multiple
        } else {
            OptionKey::Other
        }
    }
}

} // verus!
