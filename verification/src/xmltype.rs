//! How an attribute is laid out in XML: as an XML attribute or as an element.

use vstd::prelude::*;
use crate::text;

verus! {

/// Represents an XML type, either an attribute or an element.
#[derive(Debug, PartialEq, Clone)]
pub enum XMLType {
    /// An XML attribute with a name.
    Attribute { is_attr: bool, name: String },
    /// An XML element with a name.
    Element { is_attr: bool, name: String },
}

/// The XML type that a definition string denotes: a leading `@` makes it an
/// attribute named by the rest, anything else is an element of that name.
pub open spec fn spec_xml_type(s: Seq<char>) -> (bool, Seq<char>) {
    if s.len() > 0 && s[0] == '@' {
        (true, s.drop_first())
    } else {
        (false, s)
    }
}

/// The mathematical value of an [`XMLType`].
pub struct XmlView {
    /// Whether it is the `Attribute` form.
    pub attribute_form: bool,
    /// The `is_attr` flag it carries.
    pub is_attr: bool,
    /// The name it carries.
    pub name: Seq<char>,
}

impl View for XMLType {
    type V = XmlView;

    open spec fn view(&self) -> XmlView {
        XmlView { attribute_form: self.is_attribute_form(), is_attr: self.flag(), name: self.name_view() }
    }
}

/// The value that [`XMLType::from_str`] gives for a definition string.
pub open spec fn spec_xml_view(s: Seq<char>) -> XmlView {
    XmlView { attribute_form: spec_xml_type(s).0, is_attr: spec_xml_type(s).0, name: spec_xml_type(s).1 }
}

impl XMLType {
    /// Whether this is the attribute form.
    pub open spec fn is_attribute_form(self) -> bool {
        self is Attribute
    }

    /// The name, whichever the form.
    pub open spec fn name_view(self) -> Seq<char> {
        match self {
            XMLType::Attribute { name, .. } => name@,
            XMLType::Element { name, .. } => name@,
        }
    }

    /// The `is_attr` flag, whichever the form.
    pub open spec fn flag(self) -> bool {
        match self {
            XMLType::Attribute { is_attr, .. } => is_attr,
            XMLType::Element { is_attr, .. } => is_attr,
        }
    }

    /// Parses an XML type definition. If the string starts with '@' it is an
    /// attribute, otherwise an element; parsing never fails.
    pub fn from_str(s: &str) -> (r: Result<XMLType, String>)
        ensures
            r matches Ok(x) && x@ == spec_xml_view(s@),
    {
        let cs = text::chars_of(s);
        if cs.len() > 0 && cs[0] == '@' {
            let rest = text::sub_chars(&cs, 1, cs.len());
            assert(rest@ =~= s@.drop_first());
            Ok(XMLType::Attribute { is_attr: true, name: text::string_of(&rest) })
        } else {
            Ok(XMLType::Element { is_attr: false, name: text::string_of(&cs) })
        }
    }
}

} // verus!
