//! Writing a data model as a JSON schema: objects become schema objects,
//! attributes become properties, and the objects and enumerations that the
//! root object uses become definitions.

use vstd::prelude::*;
use crate::attribute::{self, Attribute, AttrOption, DataValue};
use crate::json::schema::{
    self, DataType, DataTypeItemType, Item, OneOfItemType, ReferenceItemType,
};
use crate::datamodel::DataModel;
use crate::frontmatter::FrontMatter;
use crate::object::{self, Object};
use crate::primitives;
use crate::validation;
use crate::text;

verus! {

// ---------------------------------------------------------------------------
// Values
// ---------------------------------------------------------------------------

/// A value in a schema: a default or an option's value. A number is held as
/// the text it was written as.
#[derive(Debug, Clone, PartialEq)]
pub enum PrimitiveType {
    String(String),
    Number(String),
    Integer(i64),
    Boolean(bool),
}

/// The mathematical value of a [`PrimitiveType`].
pub enum PrimitiveValue {
    Text(Seq<char>),
    Number(Seq<char>),
    Integer(i64),
    Boolean(bool),
}

impl View for PrimitiveType {
    type V = PrimitiveValue;

    open spec fn view(&self) -> PrimitiveValue {
        match self {
            PrimitiveType::String(s) => PrimitiveValue::Text(s@),
            PrimitiveType::Number(n) => PrimitiveValue::Number(n@),
            PrimitiveType::Integer(i) => PrimitiveValue::Integer(*i),
            PrimitiveType::Boolean(b) => PrimitiveValue::Boolean(*b),
        }
    }
}

/// The value an option's text stands for, tried in turn: a number (what
/// Rust's `f64` parser accepts), `true` or `false`, an `i64`, else the text.
pub open spec fn option_value(v: Seq<char>) -> PrimitiveValue {
    if attribute::float_syntax(text::lowercase(v)) {
        PrimitiveValue::Number(v)
    } else if v == "true"@ {
        PrimitiveValue::Boolean(true)
    } else if v == "false"@ {
        PrimitiveValue::Boolean(false)
    } else {
        match attribute::parsed_i64(v) {
            Some(i) => PrimitiveValue::Integer(i),
            None => PrimitiveValue::Text(v),
        }
    }
}

/// Reads the value of an option (see [`option_value`]).
pub fn primitive_from_option(v: &str) -> (r: PrimitiveType)
    ensures
        r@ == option_value(v@),
{
    let lower = text::to_lowercase(v);
    let lc = text::chars_of(lower.as_str());
    if attribute::is_float_syntax(&lc) {
        PrimitiveType::Number(String::from_str(v))
    } else if text::str_eq(v, "true") {
        PrimitiveType::Boolean(true)
    } else if text::str_eq(v, "false") {
        PrimitiveType::Boolean(false)
    } else {
        match attribute::parse_i64(v) {
            Some(i) => PrimitiveType::Integer(i),
            None => PrimitiveType::String(String::from_str(v)),
        }
    }
}

/// Text without the double quotes at either end.
pub open spec fn unquoted(s: Seq<char>) -> Seq<char> {
    text::trim_end_char(text::trim_start_char(s, '"'), '"')
}

fn unquote(s: &str) -> (r: String)
    ensures
        r@ == unquoted(s@),
{
    let cs = text::chars_of(s);
    let a = text::trim_start_matches_char(&cs, '"');
    let b = text::trim_end_matches_char(&a, '"');
    text::string_of(&b)
}

/// The schema value of a default: a string loses its surrounding quotes.
pub open spec fn default_value(d: DataValue) -> PrimitiveValue {
    match d {
        DataValue::Boolean(b) => PrimitiveValue::Boolean(b),
        DataValue::Integer(i) => PrimitiveValue::Integer(i),
        DataValue::Float(f) => PrimitiveValue::Number(f),
        DataValue::Text(s) => PrimitiveValue::Text(unquoted(s)),
    }
}

/// Converts a default value (see [`default_value`]).
pub fn primitive_from_default(d: &attribute::DataType) -> (r: PrimitiveType)
    ensures
        r@ == default_value(d@),
{
    match d {
        attribute::DataType::Boolean(b) => PrimitiveType::Boolean(*b),
        attribute::DataType::Integer(i) => PrimitiveType::Integer(*i),
        attribute::DataType::Float(f) => PrimitiveType::Number(f.clone()),
        attribute::DataType::String(s) => PrimitiveType::String(unquote(s.as_str())),
    }
}

/// The default a property gets: for a string property only a string default,
/// unquoted; otherwise the default's value.
pub open spec fn property_default(d: DataValue, dtype: Option<DataType>) -> Option<PrimitiveValue> {
    if dtype == Some(DataType::String) {
        match d {
            DataValue::Text(s) => Some(PrimitiveValue::Text(unquoted(s))),
            _ => None,
        }
    } else {
        Some(default_value(d))
    }
}

/// Converts the default of a property (see [`property_default`]).
pub fn process_default(d: &attribute::DataType, dtype: Option<DataType>) -> (r: Option<PrimitiveType>)
    ensures
        match r {
            Some(p) => property_default(d@, dtype) == Some(p@),
            None => property_default(d@, dtype) is None,
        },
{
    if dtype == Some(DataType::String) {
        match d {
            attribute::DataType::String(s) => Some(PrimitiveType::String(unquote(s.as_str()))),
            _ => None,
        }
    } else {
        Some(primitive_from_default(d))
    }
}

// ---------------------------------------------------------------------------
// Types and items
// ---------------------------------------------------------------------------

/// The reference to a definition: `#/$defs/` and its name.
pub open spec fn definition_ref(name: Seq<char>) -> Seq<char> {
    "#/$defs/"@ + name
}

fn make_ref(name: &str) -> (r: String)
    ensures
        r@ == definition_ref(name@),
{
    let mut s = String::from_str("#/$defs/");
    s.append(name);
    s
}

/// The item a data type name stands for: a schema type where the name is
/// one, else a reference to its definition.
pub open spec fn is_item_for(item: Item, name: Seq<char>) -> bool {
    match schema::spec_schema_type(name) {
        Some(d) => item matches Item::DataTypeItem(t) && t.dtype == d,
        None => item matches Item::ReferenceItem(r) && r.reference@ == definition_ref(name),
    }
}

/// The item for a data type name (see [`is_item_for`]).
pub fn process_dtype(name: &str) -> (r: Item)
    ensures
        is_item_for(r, name@),
{
    match DataType::from_str(name) {
        Ok(d) => Item::DataTypeItem(DataTypeItemType { dtype: d }),
        Err(_) => Item::ReferenceItem(ReferenceItemType { reference: make_ref(name) }),
    }
}

/// The items are those of the names, one for one.
pub open spec fn items_for(items: Seq<Item>, names: Seq<Seq<char>>) -> bool {
    &&& items.len() == names.len()
    &&& forall|i: int| 0 <= i < items.len() ==> is_item_for(#[trigger] items[i], names[i])
}

/// The alternatives of an attribute with several types: an item for each
/// type; none for an attribute with a single type.
pub fn one_of_items(attr: &Attribute) -> (r: Vec<Item>)
    ensures
        attr@.dtypes.len() == 1 ==> r@.len() == 0,
        attr@.dtypes.len() != 1 ==> items_for(r@, attr@.dtypes),
{
    let mut items: Vec<Item> = Vec::new();
    if attr.dtypes.len() == 1 {
        return items;
    }
    let mut i: usize = 0;
    while i < attr.dtypes.len()
        invariant
            i <= attr.dtypes@.len(),
            items_for(items@, attr@.dtypes.take(i as int)),
        decreases attr.dtypes.len() - i,
    {
        let it = process_dtype(attr.dtypes[i].as_str());
        items.push(it);
        i = i + 1;
        assert(items_for(items@, attr@.dtypes.take(i as int))) by {
            assert forall|k: int| 0 <= k < items@.len() implies is_item_for(
                #[trigger] items@[k],
                attr@.dtypes.take(i as int)[k],
            ) by {
                if k < items@.len() - 1 {
                    assert(attr@.dtypes.take(i as int)[k] == attr@.dtypes.take(i - 1)[k]);
                }
            }
        }
    }
    assert(attr@.dtypes.take(i as int) =~= attr@.dtypes);
    items
}

/// The `items` of an array attribute: the alternatives where it has several
/// types, else the item of its single type; none for other attributes.
pub open spec fn is_array_items(r: Option<Item>, a: attribute::AttributeView) -> bool {
    if !a.is_array {
        r is None
    } else if a.dtypes.len() == 1 {
        r matches Some(it) && is_item_for(it, a.dtypes[0])
    } else {
        r matches Some(Item::OneOfItem(o)) && items_for(o.one_of@, a.dtypes)
    }
}

/// The `items` of an attribute (see [`is_array_items`]).
pub fn array_items(attr: &Attribute) -> (r: Option<Item>)
    requires
        attr@.is_array ==> attr@.dtypes.len() > 0,
    ensures
        is_array_items(r, attr@),
{
    if !attr.is_array {
        return None;
    }
    let one_of = one_of_items(attr);
    if one_of.len() == 0 {
        Some(process_dtype(attr.dtypes[0].as_str()))
    } else {
        Some(Item::OneOfItem(OneOfItemType { one_of }))
    }
}

/// The schema type of an attribute: an array for an array attribute, else
/// the type of its first data type; refused when it has none.
pub open spec fn attribute_schema_type(a: attribute::AttributeView) -> Result<DataType, Seq<char>> {
    if a.is_array {
        Ok(DataType::Array)
    } else if a.dtypes.len() == 0 {
        Err("No data types found for attribute: "@ + a.name)
    } else {
        Ok(schema::spec_attribute_type(a.dtypes[0]))
    }
}

/// The schema type of an attribute (see [`attribute_schema_type`]).
pub fn attribute_data_type(attr: &Attribute) -> (r: Result<DataType, String>)
    ensures
        match r {
            Ok(d) => attribute_schema_type(attr@) == Ok::<DataType, Seq<char>>(d),
            Err(e) => attribute_schema_type(attr@) == Err::<DataType, Seq<char>>(e@),
        },
{
    if attr.is_array {
        return Ok(DataType::Array);
    }
    if attr.dtypes.len() == 0 {
        let mut e = String::from_str("No data types found for attribute: ");
        e.append(attr.name.as_str());
        return Err(e);
    }
    Ok(DataType::from_attribute_type(&attr.dtypes[0]))
}

// ---------------------------------------------------------------------------
// Properties
// ---------------------------------------------------------------------------

/// A property of a schema object, written for an attribute. The options are
/// kept in increasing key order.
#[derive(Debug)]
pub struct Property {
    pub title: String,
    pub dtype: Option<DataType>,
    pub default: Option<PrimitiveType>,
    pub description: Option<String>,
    pub term: Option<String>,
    pub reference: Option<String>,
    pub options: Vec<(String, PrimitiveType)>,
    pub items: Option<Item>,
    pub one_of: Option<Vec<Item>>,
    pub enum_values: Option<Vec<String>>,
}

/// The pairs with their values taken by view.
pub open spec fn values_view(s: Seq<(Seq<char>, PrimitiveType)>) -> Seq<(Seq<char>, PrimitiveValue)> {
    s.map_values(|p: (Seq<char>, PrimitiveType)| (p.0, p.1@))
}

/// Setting a key and then taking the values by view is taking the values by
/// view and then setting the key to the value's view.
proof fn lemma_values_view_insert(s: Seq<(Seq<char>, PrimitiveType)>, k: Seq<char>, v: PrimitiveType)
    ensures
        values_view(object::spec_map_insert(s, k, v)) == object::spec_map_insert(
            values_view(s),
            k,
            v@,
        ),
    decreases s.len(),
{
    let vs = values_view(s);
    if s.len() == 0 {
        assert(values_view(object::spec_map_insert(s, k, v)) =~= seq![(k, v@)]);
    } else {
        assert(vs[0] == (s[0].0, s[0].1@));
        assert(values_view(s.drop_first()) =~= vs.drop_first());
        if s[0].0 == k {
            assert(values_view(object::spec_map_insert(s, k, v)) =~= seq![(k, v@)] + vs.drop_first());
        } else if text::seq_lt(k, s[0].0) {
            assert(values_view(object::spec_map_insert(s, k, v)) =~= seq![(k, v@)] + vs);
        } else {
            lemma_values_view_insert(s.drop_first(), k, v);
            assert(values_view(object::spec_map_insert(s, k, v)) =~= seq![vs[0]]
                + values_view(object::spec_map_insert(s.drop_first(), k, v)));
        }
    }
}

/// The options of a property: each option's value under its key, in
/// increasing key order; of options with the same key the last one counts.
pub open spec fn options_map(opts: Seq<(Seq<char>, Seq<char>)>) -> Seq<(Seq<char>, PrimitiveValue)>
    decreases opts.len(),
{
    if opts.len() == 0 {
        Seq::empty()
    } else {
        object::spec_map_insert(
            options_map(opts.drop_last()),
            opts.last().0,
            option_value(opts.last().1),
        )
    }
}

/// The options of an attribute as property options (see [`options_map`]).
pub fn property_options(opts: &Vec<AttrOption>) -> (r: Vec<(String, PrimitiveType)>)
    ensures
        values_view(object::keyed_view(r@)) == options_map(opts@.map_values(|o: AttrOption| o@)),
        object::keys_increasing(object::keyed_view(r@)),
{
    let ghost all = opts@.map_values(|o: AttrOption| o@);
    let mut r: Vec<(String, PrimitiveType)> = Vec::new();
    let mut i: usize = 0;
    assert(all.take(0) =~= Seq::<(Seq<char>, Seq<char>)>::empty());
    assert(object::keyed_view(r@) =~= Seq::<(Seq<char>, PrimitiveType)>::empty());
    while i < opts.len()
        invariant
            i <= opts@.len(),
            all == opts@.map_values(|o: AttrOption| o@),
            values_view(object::keyed_view(r@)) == options_map(all.take(i as int)),
            object::keys_increasing(object::keyed_view(r@)),
        decreases opts.len() - i,
    {
        let ghost before = object::keyed_view(r@);
        let key = opts[i].key.clone();
        let value = primitive_from_option(opts[i].value.as_str());
        assert(all[i as int] == (key@, opts@[i as int].value@));
        object::insert_sorted(&mut r, key, value);
        proof {
            lemma_values_view_insert(before, key@, value);
            assert(all.take(i + 1).drop_last() =~= all.take(i as int));
            assert(all.take(i + 1).last() == all[i as int]);
        }
        i = i + 1;
    }
    assert(all.take(i as int) =~= all);
    r
}

/// An optional string's view.
pub open spec fn opt_view(o: Option<String>) -> Option<Seq<char>> {
    match o {
        Some(s) => Some(s@),
        None => None,
    }
}

/// The type a property gets before several types are accounted for: none
/// for an enumeration, else the attribute's schema type.
pub open spec fn base_type(a: attribute::AttributeView) -> Option<DataType> {
    if a.is_enum {
        None
    } else {
        match attribute_schema_type(a) {
            Ok(d) => Some(d),
            Err(_) => None,
        }
    }
}

/// The property written for an attribute: titled by its name; typed by its
/// schema type (none for an enumeration, or for a non-array attribute with
/// several types); a reference to the definition of its first type for an
/// enumeration or an object; its default, docstring (when not empty), term
/// and options; the items of an array; the alternatives of a non-array
/// attribute; and an empty value list for an enumeration.
pub open spec fn property_matches(p: Property, a: attribute::AttributeView) -> bool {
    property_matches_with(p, a, None, false)
}

/// A term with its prefix resolved: where the term reads `prefix:rest`
/// (without a `:` both parts are empty) and the prefix is listed, the
/// prefix's address followed by the rest; otherwise the term as it is.
pub open spec fn resolve_term(
    term: Option<Seq<char>>,
    prefixes: Option<Seq<(Seq<char>, Seq<char>)>>,
) -> Option<Seq<char>> {
    match (term, prefixes) {
        (Some(t), Some(px)) => {
            let pre = if text::has_char(t, ':') { text::before_first(t, ':') } else { Seq::empty() };
            let rest = if text::has_char(t, ':') { text::after_first(t, ':') } else { Seq::empty() };
            match primitives::lookup(px, pre) {
                Some(iri) => Some(iri + rest),
                None => Some(t),
            }
        },
        _ => term,
    }
}

/// [`property_matches`], with the term's prefix resolved by `prefixes` and,
/// where `no_options` is set, no options.
pub open spec fn property_matches_with(
    p: Property,
    a: attribute::AttributeView,
    prefixes: Option<Seq<(Seq<char>, Seq<char>)>>,
    no_options: bool,
) -> bool {
    let dtype = if a.dtypes.len() > 1 && !a.is_array { None } else { base_type(a) };
    &&& p.title@ == a.name
    &&& p.dtype == dtype
    &&& opt_view(p.reference) == (if a.is_enum || base_type(a) == Some(DataType::Object) {
        Some(definition_ref(a.dtypes[0]))
    } else {
        None
    })
    &&& match a.default {
        Some(d) => match p.default {
            Some(v) => property_default(d, dtype) == Some(v@),
            None => property_default(d, dtype) is None,
        },
        None => p.default is None,
    }
    &&& opt_view(p.description) == (if a.docstring.len() == 0 {
        None
    } else {
        Some(a.docstring)
    })
    &&& opt_view(p.term) == resolve_term(a.term, prefixes)
    &&& if no_options {
        p.options@.len() == 0
    } else {
        values_view(object::keyed_view(p.options@)) == options_map(a.options)
    }
    &&& is_array_items(p.items, a)
    &&& if a.is_array {
        p.one_of is None
    } else {
        p.one_of matches Some(v) && (a.dtypes.len() == 1 ==> v@.len() == 0) && (a.dtypes.len() != 1
            ==> items_for(v@, a.dtypes))
    }
    &&& if a.is_enum {
        p.enum_values matches Some(v) && v@.len() == 0
    } else {
        p.enum_values is None
    }
}

/// Writes the property of an attribute (see [`property_matches`]); refused
/// where the attribute, not an enumeration, has no schema type (see
/// [`attribute_schema_type`]).
pub fn property_from_attribute(attr: &Attribute) -> (r: Result<Property, String>)
    requires
        attr@.is_array ==> attr@.dtypes.len() > 0,
        attr@.is_enum ==> attr@.dtypes.len() > 0,
    ensures
        match r {
            Ok(p) => property_matches(p, attr@),
            Err(e) => !attr@.is_enum && attribute_schema_type(attr@) == Err::<DataType, Seq<char>>(
                e@,
            ),
        },
        r is Err <==> !attr@.is_enum && attribute_schema_type(attr@) is Err,
{
    let base: Option<DataType> = if attr.is_enum {
        None
    } else {
        match attribute_data_type(attr) {
            Ok(d) => Some(d),
            Err(e) => return Err(e),
        }
    };
    let options = property_options(&attr.options);
    let reference = if attr.is_enum || base == Some(DataType::Object) {
        Some(make_ref(attr.dtypes[0].as_str()))
    } else {
        None
    };
    let items = array_items(attr);
    let one_of = if !attr.is_array {
        Some(one_of_items(attr))
    } else {
        None
    };
    let description = if attr.docstring.unicode_len() > 0 {
        Some(attr.docstring.clone())
    } else {
        None
    };
    let enum_values: Option<Vec<String>> = if attr.is_enum {
        Some(Vec::new())
    } else {
        None
    };
    let dtype = if attr.dtypes.len() > 1 && !attr.is_array {
        None
    } else {
        base
    };
    let default = match &attr.default {
        Some(d) => process_default(d, dtype),
        None => None,
    };
    let term = match &attr.term {
        Some(t) => Some(t.clone()),
        None => None,
    };
    Ok(Property {
        title: attr.name.clone(),
        dtype,
        default,
        description,
        term,
        reference,
        options,
        items,
        one_of,
        enum_values,
    })
}

// ---------------------------------------------------------------------------
// Schema objects
// ---------------------------------------------------------------------------

/// A schema object written for an object of the model. Properties and
/// definitions are kept in increasing key order.
#[derive(Debug)]
pub struct SchemaObject {
    pub schema: Option<String>,
    pub id: Option<String>,
    pub title: String,
    pub dtype: DataType,
    pub description: Option<String>,
    pub properties: Vec<(String, Property)>,
    pub definitions: Vec<(String, SchemaType)>,
    pub required: Vec<String>,
    pub additional_properties: bool,
}

/// A definition of a schema: an object or an enumeration.
#[derive(Debug)]
pub enum SchemaType {
    Object(SchemaObject),
    Enum(schema::EnumObject),
}

/// The attributes by name, in increasing name order; of attributes with the
/// same name the last one counts.
pub open spec fn attributes_by_name(attrs: Seq<attribute::AttributeView>) -> Seq<
    (Seq<char>, attribute::AttributeView),
>
    decreases attrs.len(),
{
    if attrs.len() == 0 {
        Seq::empty()
    } else {
        object::spec_map_insert(
            attributes_by_name(attrs.drop_last()),
            attrs.last().name,
            attrs.last(),
        )
    }
}

/// The properties are those of the attributes, key for key.
pub open spec fn properties_match(
    props: Seq<(Seq<char>, Property)>,
    attrs: Seq<(Seq<char>, attribute::AttributeView)>,
) -> bool {
    properties_match_with(props, attrs, None, false)
}

/// [`properties_match`] under [`property_matches_with`].
pub open spec fn properties_match_with(
    props: Seq<(Seq<char>, Property)>,
    attrs: Seq<(Seq<char>, attribute::AttributeView)>,
    prefixes: Option<Seq<(Seq<char>, Seq<char>)>>,
    no_options: bool,
) -> bool {
    &&& props.len() == attrs.len()
    &&& forall|i: int|
        0 <= i < props.len() ==> (#[trigger] props[i]).0 == attrs[i].0 && property_matches_with(
            props[i].1,
            attrs[i].1,
            prefixes,
            no_options,
        )
}

/// Setting the same key on both sides keeps properties and attributes
/// matching.
proof fn lemma_properties_match_insert(
    props: Seq<(Seq<char>, Property)>,
    attrs: Seq<(Seq<char>, attribute::AttributeView)>,
    k: Seq<char>,
    p: Property,
    a: attribute::AttributeView,
)
    requires
        properties_match(props, attrs),
        property_matches(p, a),
    ensures
        properties_match(object::spec_map_insert(props, k, p), object::spec_map_insert(attrs, k, a)),
    decreases props.len(),
{
    let rp = object::spec_map_insert(props, k, p);
    let ra = object::spec_map_insert(attrs, k, a);
    if props.len() == 0 {
    } else {
        assert(props[0].0 == attrs[0].0);
        if props[0].0 == k {
            assert forall|i: int| 0 <= i < rp.len() implies (#[trigger] rp[i]).0 == ra[i].0
                && property_matches(rp[i].1, ra[i].1) by {
                if i > 0 {
                    assert(props[i].0 == attrs[i].0);
                }
            }
        } else if text::seq_lt(k, props[0].0) {
            assert forall|i: int| 0 <= i < rp.len() implies (#[trigger] rp[i]).0 == ra[i].0
                && property_matches(rp[i].1, ra[i].1) by {
                if i > 0 {
                    assert(props[i - 1].0 == attrs[i - 1].0);
                }
            }
        } else {
            let tp = props.drop_first();
            let ta = attrs.drop_first();
            assert(properties_match(tp, ta)) by {
                assert forall|i: int| 0 <= i < tp.len() implies (#[trigger] tp[i]).0 == ta[i].0
                    && property_matches(tp[i].1, ta[i].1) by {
                    assert(props[i + 1].0 == attrs[i + 1].0);
                }
            }
            lemma_properties_match_insert(tp, ta, k, p, a);
            let rtp = object::spec_map_insert(tp, k, p);
            let rta = object::spec_map_insert(ta, k, a);
            assert(rp == seq![props[0]] + rtp);
            assert(ra == seq![attrs[0]] + rta);
            assert forall|i: int| 0 <= i < rp.len() implies (#[trigger] rp[i]).0 == ra[i].0
                && property_matches(rp[i].1, ra[i].1) by {
                if i > 0 {
                    assert(rp[i] == rtp[i - 1]);
                    assert(ra[i] == rta[i - 1]);
                    assert(rtp[i - 1].0 == rta[i - 1].0);
                }
            }
        }
    }
}

/// Every attribute can be written as a property: where it is an array or an
/// enumeration it has a data type.
pub open spec fn attributes_writable(attrs: Seq<attribute::AttributeView>) -> bool {
    forall|i: int|
        0 <= i < attrs.len() ==> ((#[trigger] attrs[i]).is_array || attrs[i].is_enum)
            ==> attrs[i].dtypes.len() > 0
}

/// The index of the first attribute that cannot be given a schema type, if
/// any.
pub open spec fn first_untyped(attrs: Seq<attribute::AttributeView>) -> Option<int>
    decreases attrs.len(),
{
    if attrs.len() == 0 {
        None
    } else {
        match first_untyped(attrs.drop_last()) {
            Some(i) => Some(i),
            None => if !attrs.last().is_enum && attribute_schema_type(attrs.last()) is Err {
                Some(attrs.len() - 1)
            } else {
                None
            },
        }
    }
}

/// The names of the required attributes, in order.
pub open spec fn required_names(attrs: Seq<attribute::AttributeView>) -> Seq<Seq<char>>
    decreases attrs.len(),
{
    if attrs.len() == 0 {
        Seq::empty()
    } else if attrs.last().required {
        required_names(attrs.drop_last()).push(attrs.last().name)
    } else {
        required_names(attrs.drop_last())
    }
}

/// The required list of an object's schema names exactly its required
/// attributes: a name is listed when and only when an attribute of that
/// name is required, and the list is the names of the required attributes,
/// each once per attribute, in the attributes' order.
pub proof fn law_required_listed(attrs: Seq<attribute::AttributeView>)
    ensures
        required_names(attrs) == attrs.filter(|a: attribute::AttributeView| a.required).map_values(
            |a: attribute::AttributeView| a.name,
        ),
        forall|x: Seq<char>|
            #[trigger] required_names(attrs).contains(x) <==> exists|i: int|
                0 <= i < attrs.len() && attrs[i].required && attrs[i].name == x,
    decreases attrs.len(),
{
    reveal_with_fuel(Seq::<_>::filter, 1);
    let f = |a: attribute::AttributeView| a.required;
    let g = |a: attribute::AttributeView| a.name;
    if attrs.len() == 0 {
        assert(attrs.filter(f) =~= Seq::<attribute::AttributeView>::empty());
        assert(attrs.filter(f).map_values(g) =~= Seq::<Seq<char>>::empty());
    } else {
        let p = attrs.drop_last();
        law_required_listed(p);
        let fp = p.filter(f);
        if attrs.last().required {
            assert(attrs.filter(f) == fp.push(attrs.last()));
            assert(attrs.filter(f).map_values(g) =~= fp.map_values(g).push(attrs.last().name));
        } else {
            assert(attrs.filter(f) == fp);
        }
        let r = required_names(attrs);
        let rp = required_names(p);
        assert forall|x: Seq<char>| #[trigger] r.contains(x) implies exists|i: int|
            0 <= i < attrs.len() && attrs[i].required && attrs[i].name == x by {
            let q = choose|q: int| 0 <= q < r.len() && r[q] == x;
            if q < rp.len() {
                assert(rp[q] == x);
                assert(rp.contains(x));
                let i = choose|i: int| 0 <= i < p.len() && p[i].required && p[i].name == x;
                assert(attrs[i] == p[i]);
            } else {
                assert(attrs[attrs.len() - 1].required && attrs[attrs.len() - 1].name == x);
            }
        }
        assert forall|x: Seq<char>| (exists|i: int| 0 <= i < attrs.len() && attrs[i].required && attrs[i].name == x)
            implies #[trigger] r.contains(x) by {
            let i = choose|i: int| 0 <= i < attrs.len() && attrs[i].required && attrs[i].name == x;
            if i < p.len() {
                assert(p[i] == attrs[i]);
                assert(rp.contains(x));
                let q = choose|q: int| 0 <= q < rp.len() && rp[q] == x;
                if attrs.last().required {
                    assert(r[q] == x);
                } else {
                    assert(r[q] == x);
                }
            } else {
                assert(r[r.len() - 1] == x);
            }
        }
    }
}

/// The schema object written for an object: titled by its name, of type
/// object, described by its docstring, with a property for each attribute
/// (see [`attributes_by_name`]) and the names of the required attributes;
/// no definitions, schema, id or additional properties.
pub open spec fn schema_object_matches(s: SchemaObject, o: object::ObjectView) -> bool {
    &&& schema_object_core(s, o, None, false)
    &&& s.definitions@.len() == 0
    &&& s.schema is None
    &&& s.id is None
}

/// The fields of a schema object that an object determines, under
/// [`property_matches_with`].
pub open spec fn schema_object_core(
    s: SchemaObject,
    o: object::ObjectView,
    prefixes: Option<Seq<(Seq<char>, Seq<char>)>>,
    no_options: bool,
) -> bool {
    &&& s.title@ == o.name
    &&& s.dtype == DataType::Object
    &&& opt_view(s.description) == Some(o.docstring)
    &&& properties_match_with(
        object::keyed_view(s.properties@),
        attributes_by_name(o.attributes),
        prefixes,
        no_options,
    )
    &&& object::keys_increasing(object::keyed_view(s.properties@))
    &&& text::strings_view(s.required@) == required_names(o.attributes)
    &&& !s.additional_properties
}

/// Writes the schema object of an object (see [`schema_object_matches`]);
/// refused with the error of the first attribute that has no schema type.
pub fn schema_object_from_object(obj: &Object) -> (r: Result<SchemaObject, String>)
    requires
        attributes_writable(obj@.attributes),
    ensures
        match first_untyped(obj@.attributes) {
            Some(i) => r matches Err(e) && attribute_schema_type(obj@.attributes[i]) == Err::<
                DataType,
                Seq<char>,
            >(e@),
            None => r matches Ok(s) && schema_object_matches(s, obj@),
        },
        r matches Ok(s) ==> forall|x: Seq<char>|
            #[trigger] text::strings_view(s.required@).contains(x) <==> exists|i: int|
                0 <= i < obj@.attributes.len() && obj@.attributes[i].required && obj@.attributes[i].name == x,
{
    proof {
        law_required_listed(obj@.attributes);
    }
    let ghost attrs = obj@.attributes;
    let mut properties: Vec<(String, Property)> = Vec::new();
    let mut required: Vec<String> = Vec::new();
    let mut i: usize = 0;
    assert(attrs.take(0) =~= Seq::<attribute::AttributeView>::empty());
    while i < obj.attributes.len()
        invariant
            i <= obj.attributes@.len(),
            attrs == obj@.attributes,
            attrs.len() == obj.attributes@.len(),
            attributes_writable(attrs),
            first_untyped(attrs.take(i as int)) is None,
            properties_match(object::keyed_view(properties@), attributes_by_name(attrs.take(i as int))),
            object::keys_increasing(object::keyed_view(properties@)),
            text::strings_view(required@) == required_names(attrs.take(i as int)),
        decreases obj.attributes.len() - i,
    {
        let attr = &obj.attributes[i];
        assert(attrs[i as int] == attr@);
        assert(attrs.take(i + 1).drop_last() =~= attrs.take(i as int));
        assert(attrs.take(i + 1).last() == attr@);
        let p = match property_from_attribute(attr) {
            Ok(p) => p,
            Err(e) => {
                proof {
                    lemma_first_untyped_prefix(attrs, i as int + 1);
                }
                return Err(e);
            },
        };
        let ghost before = object::keyed_view(properties@);
        proof {
            lemma_properties_match_insert(
                before,
                attributes_by_name(attrs.take(i as int)),
                attr.name@,
                p,
                attr@,
            );
        }
        object::insert_sorted(&mut properties, attr.name.clone(), p);
        if attr.required {
            let ghost rb = required@;
            required.push(attr.name.clone());
            assert(text::strings_view(required@) =~= text::strings_view(rb).push(attr.name@));
        }
        i = i + 1;
    }
    assert(attrs.take(i as int) =~= attrs);
    Ok(SchemaObject {
        schema: None,
        id: None,
        title: obj.name.clone(),
        dtype: DataType::Object,
        description: Some(obj.docstring.clone()),
        properties,
        definitions: Vec::new(),
        required,
        additional_properties: false,
    })
}

/// Where no attribute of a prefix lacks a type but the one after it does,
/// that one is the first untyped attribute of every longer prefix.
proof fn lemma_first_untyped_prefix(attrs: Seq<attribute::AttributeView>, n: int)
    requires
        0 < n <= attrs.len(),
        first_untyped(attrs.take(n - 1)) is None,
        !attrs[n - 1].is_enum && attribute_schema_type(attrs[n - 1]) is Err,
    ensures
        first_untyped(attrs) == Some(n - 1),
    decreases attrs.len() - n,
{
    assert(attrs.take(n).drop_last() =~= attrs.take(n - 1));
    assert(first_untyped(attrs.take(n)) == Some(n - 1));
    if n < attrs.len() {
        lemma_first_untyped_keeps(attrs, n);
    } else {
        assert(attrs.take(n) =~= attrs);
    }
}

/// A first untyped attribute of a prefix stays the first of the whole.
proof fn lemma_first_untyped_keeps(attrs: Seq<attribute::AttributeView>, n: int)
    requires
        0 <= n <= attrs.len(),
        first_untyped(attrs.take(n)) is Some,
    ensures
        first_untyped(attrs) == first_untyped(attrs.take(n)),
    decreases attrs.len() - n,
{
    if n == attrs.len() {
        assert(attrs.take(n) =~= attrs);
    } else {
        assert(attrs.take(n + 1).drop_last() =~= attrs.take(n));
        lemma_first_untyped_keeps(attrs, n + 1);
    }
}

/// The enumeration of a schema written for an enumeration of the model:
/// titled by its name, of type string, described by its docstring, with its
/// values in the order of their keys.
pub fn enum_object_from_enumeration(e: &object::Enumeration) -> (r: schema::EnumObject)
    ensures
        r.title@ == e.name@,
        r.dtype == DataType::String,
        opt_view(r.description) == Some(e.docstring@),
        text::strings_view(r.enum_values@) == e.mappings@.map_values(
            |p: (Seq<char>, Seq<char>)| p.1,
        ),
{
    let entries = e.mappings.entries();
    let mut values: Vec<String> = Vec::new();
    let mut i: usize = 0;
    while i < entries.len()
        invariant
            i <= entries@.len(),
            text::pairs_view(entries@) == e.mappings@,
            text::strings_view(values@) == e.mappings@.map_values(|p: (Seq<char>, Seq<char>)| p.1).take(
                i as int,
            ),
        decreases entries.len() - i,
    {
        let ghost vb = values@;
        let v = entries[i].1.clone();
        values.push(v);
        assert(text::pairs_view(entries@)[i as int] == (entries@[i as int].0@, entries@[i as int].1@));
        assert(e.mappings@[i as int].1 == v@);
        assert(text::strings_view(values@) =~= text::strings_view(vb).push(v@));
        assert(text::strings_view(values@) =~= e.mappings@.map_values(
            |p: (Seq<char>, Seq<char>)| p.1,
        ).take(i + 1));
        i = i + 1;
    }
    assert(e.mappings@.map_values(|p: (Seq<char>, Seq<char>)| p.1).take(i as int) =~= e.mappings@.map_values(
        |p: (Seq<char>, Seq<char>)| p.1,
    ));
    schema::EnumObject {
        title: e.name.clone(),
        dtype: DataType::String,
        description: Some(e.docstring.clone()),
        enum_values: values,
    }
}

// ---------------------------------------------------------------------------
// The types a root object uses
// ---------------------------------------------------------------------------

/// The objects of a model, by view.
pub open spec fn model_objects(m: DataModel) -> Seq<object::ObjectView> {
    object::objects_view(m.objects@)
}

/// The enumerations of a model, by view.
pub open spec fn model_enums(m: DataModel) -> Seq<object::EnumView> {
    object::enums_view(m.enums@)
}

/// The index of the first object named `name`, if any.
pub open spec fn find_object(objs: Seq<object::ObjectView>, name: Seq<char>) -> Option<int>
    decreases objs.len(),
{
    if objs.len() == 0 {
        None
    } else if objs[0].name == name {
        Some(0)
    } else {
        match find_object(objs.drop_first(), name) {
            Some(i) => Some(i + 1),
            None => None,
        }
    }
}

/// The first object named `name` (meaningful where there is one).
pub open spec fn object_named(objs: Seq<object::ObjectView>, name: Seq<char>) -> object::ObjectView {
    objs[find_object(objs, name)->Some_0]
}

/// The index of the first enumeration named `name`, if any.
pub open spec fn find_enum(es: Seq<object::EnumView>, name: Seq<char>) -> Option<int>
    decreases es.len(),
{
    if es.len() == 0 {
        None
    } else if es[0].name == name {
        Some(0)
    } else {
        match find_enum(es.drop_first(), name) {
            Some(i) => Some(i + 1),
            None => None,
        }
    }
}

/// `find_object` gives the first object with the name, or none where no
/// object has it.
proof fn lemma_find_object(objs: Seq<object::ObjectView>, name: Seq<char>)
    ensures
        match find_object(objs, name) {
            Some(i) => 0 <= i < objs.len() && objs[i].name == name && forall|k: int|
                0 <= k < i ==> (#[trigger] objs[k]).name != name,
            None => forall|k: int| 0 <= k < objs.len() ==> (#[trigger] objs[k]).name != name,
        },
    decreases objs.len(),
{
    if objs.len() > 0 && objs[0].name != name {
        lemma_find_object(objs.drop_first(), name);
        assert forall|k: int| 0 < k < objs.len() implies objs[k] == objs.drop_first()[k - 1] by {}
    }
}

/// `find_enum` gives the first enumeration with the name, or none where no
/// enumeration has it.
proof fn lemma_find_enum(es: Seq<object::EnumView>, name: Seq<char>)
    ensures
        match find_enum(es, name) {
            Some(i) => 0 <= i < es.len() && es[i].name == name && forall|k: int|
                0 <= k < i ==> (#[trigger] es[k]).name != name,
            None => forall|k: int| 0 <= k < es.len() ==> (#[trigger] es[k]).name != name,
        },
    decreases es.len(),
{
    if es.len() > 0 && es[0].name != name {
        lemma_find_enum(es.drop_first(), name);
        assert forall|k: int| 0 < k < es.len() implies es[k] == es.drop_first()[k - 1] by {}
    }
}

/// The index of the first object named `name`.
fn object_index(objects: &Vec<Object>, name: &str) -> (r: Option<usize>)
    ensures
        match r {
            Some(i) => find_object(object::objects_view(objects@), name@) == Some(i as int),
            None => find_object(object::objects_view(objects@), name@) is None,
        },
{
    let ghost objs = object::objects_view(objects@);
    proof {
        lemma_find_object(objs, name@);
    }
    let mut i: usize = 0;
    while i < objects.len()
        invariant
            i <= objects@.len(),
            objs == object::objects_view(objects@),
            forall|k: int| 0 <= k < i ==> (#[trigger] objs[k]).name != name@,
        decreases objects.len() - i,
    {
        if text::str_eq(objects[i].name.as_str(), name) {
            assert(objs[i as int].name == name@);
            proof {
                lemma_find_object(objs, name@);
            }
            return Some(i);
        }
        i = i + 1;
    }
    proof {
        lemma_find_object(objs, name@);
    }
    None
}

/// The index of the first enumeration named `name`.
fn enum_index(enums: &Vec<object::Enumeration>, name: &str) -> (r: Option<usize>)
    ensures
        match r {
            Some(i) => find_enum(object::enums_view(enums@), name@) == Some(i as int),
            None => find_enum(object::enums_view(enums@), name@) is None,
        },
{
    let ghost es = object::enums_view(enums@);
    proof {
        lemma_find_enum(es, name@);
    }
    let mut i: usize = 0;
    while i < enums.len()
        invariant
            i <= enums@.len(),
            es == object::enums_view(enums@),
            forall|k: int| 0 <= k < i ==> (#[trigger] es[k]).name != name@,
        decreases enums.len() - i,
    {
        if text::str_eq(enums[i].name.as_str(), name) {
            assert(es[i as int].name == name@);
            proof {
                lemma_find_enum(es, name@);
            }
            return Some(i);
        }
        i = i + 1;
    }
    proof {
        lemma_find_enum(es, name@);
    }
    None
}

/// An attribute of the object has the data type `d`.
pub open spec fn uses(o: object::ObjectView, d: Seq<char>) -> bool {
    exists|i: int, j: int|
        0 <= i < o.attributes.len() && 0 <= j < o.attributes[i].dtypes.len()
            && #[trigger] o.attributes[i].dtypes[j] == d
}

/// The type `d` is used by the root object or by an object named in `used`.
pub open spec fn reached(
    root: object::ObjectView,
    objs: Seq<object::ObjectView>,
    used: Seq<Seq<char>>,
    d: Seq<char>,
) -> bool {
    uses(root, d) || exists|j: int| 0 <= j < used.len() && uses(object_named(objs, #[trigger] used[j]), d)
}

/// Each name is that of an object, reached from the root through the names
/// before it, and none comes twice.
pub open spec fn chain(root: object::ObjectView, objs: Seq<object::ObjectView>, used: Seq<Seq<char>>) -> bool {
    &&& used.no_duplicates()
    &&& forall|k: int|
        0 <= k < used.len() ==> find_object(objs, #[trigger] used[k]) is Some && reached(
            root,
            objs,
            used.take(k),
            used[k],
        )
}

/// The type `d` can be reached from the root object.
pub open spec fn reachable(root: object::ObjectView, objs: Seq<object::ObjectView>, d: Seq<char>) -> bool {
    exists|used: Seq<Seq<char>>| chain(root, objs, used) && #[trigger] reached(root, objs, used, d)
}

/// The used objects form a chain from the root, and each used enumeration
/// is an enumeration that no object shares a name with, reached from the
/// root; no enumeration comes twice.
pub open spec fn discovered(
    root: object::ObjectView,
    objs: Seq<object::ObjectView>,
    es: Seq<object::EnumView>,
    used: Seq<Seq<char>>,
    used_enums: Seq<Seq<char>>,
) -> bool {
    &&& chain(root, objs, used)
    &&& used_enums.no_duplicates()
    &&& forall|k: int|
        0 <= k < used_enums.len() ==> find_enum(es, #[trigger] used_enums[k]) is Some && find_object(
            objs,
            used_enums[k],
        ) is None && reached(root, objs, used, used_enums[k])
}

/// The type needs no definition, is a used object, or is a used
/// enumeration that no object shares a name with.
pub open spec fn resolved(
    d: Seq<char>,
    objs: Seq<object::ObjectView>,
    used: Seq<Seq<char>>,
    used_enums: Seq<Seq<char>>,
) -> bool {
    validation::basic_types().contains(d) || used.contains(d) || (find_object(objs, d) is None
        && used_enums.contains(d))
}

/// Every data type of the object is resolved.
pub open spec fn closed(
    o: object::ObjectView,
    objs: Seq<object::ObjectView>,
    used: Seq<Seq<char>>,
    used_enums: Seq<Seq<char>>,
) -> bool {
    forall|i: int, j: int|
        0 <= i < o.attributes.len() && 0 <= j < o.attributes[i].dtypes.len() ==> #[trigger] resolved(
            o.attributes[i].dtypes[j],
            objs,
            used,
            used_enums,
        )
}

/// A type that is neither basic, nor an object, nor an enumeration.
pub open spec fn unknown_type(d: Seq<char>, objs: Seq<object::ObjectView>, es: Seq<object::EnumView>) -> bool {
    !validation::basic_types().contains(d) && find_object(objs, d) is None && find_enum(es, d) is None
}

/// The message for a type that is not found.
pub open spec fn not_found_message(d: Seq<char>) -> Seq<char> {
    "Object or enumeration "@ + d + " not found"@
}

/// `b` starts with `a`.
pub open spec fn grows(a: Seq<Seq<char>>, b: Seq<Seq<char>>) -> bool {
    a.len() <= b.len() && forall|i: int| 0 <= i < a.len() ==> #[trigger] b[i] == a[i]
}

proof fn lemma_contains_grows(a: Seq<Seq<char>>, b: Seq<Seq<char>>, x: Seq<char>)
    requires
        grows(a, b),
        a.contains(x),
    ensures
        b.contains(x),
{
    let i = choose|i: int| 0 <= i < a.len() && a[i] == x;
    assert(b[i] == x);
}

proof fn lemma_reached_grows(
    root: object::ObjectView,
    objs: Seq<object::ObjectView>,
    a: Seq<Seq<char>>,
    b: Seq<Seq<char>>,
    d: Seq<char>,
)
    requires
        grows(a, b),
        reached(root, objs, a, d),
    ensures
        reached(root, objs, b, d),
{
    if !uses(root, d) {
        let j = choose|j: int| 0 <= j < a.len() && uses(object_named(objs, #[trigger] a[j]), d);
        assert(b[j] == a[j]);
    }
}

proof fn lemma_closed_grows(
    o: object::ObjectView,
    objs: Seq<object::ObjectView>,
    u: Seq<Seq<char>>,
    e: Seq<Seq<char>>,
    u2: Seq<Seq<char>>,
    e2: Seq<Seq<char>>,
)
    requires
        closed(o, objs, u, e),
        grows(u, u2),
        grows(e, e2),
    ensures
        closed(o, objs, u2, e2),
{
    assert forall|i: int, j: int|
        0 <= i < o.attributes.len() && 0 <= j < o.attributes[i].dtypes.len() implies #[trigger] resolved(
        o.attributes[i].dtypes[j],
        objs,
        u2,
        e2,
    ) by {
        let d = o.attributes[i].dtypes[j];
        assert(resolved(d, objs, u, e));
        if u.contains(d) {
            lemma_contains_grows(u, u2, d);
        } else if e.contains(d) {
            lemma_contains_grows(e, e2, d);
        }
    }
}

/// Distinct names of objects are no more than the objects.
proof fn lemma_used_bound(objs: Seq<object::ObjectView>, used: Seq<Seq<char>>)
    requires
        used.no_duplicates(),
        forall|k: int| 0 <= k < used.len() ==> find_object(objs, #[trigger] used[k]) is Some,
    ensures
        used.len() <= objs.len(),
{
    broadcast use vstd::seq_lib::seq_to_set_is_finite;

    let names = objs.map_values(|o: object::ObjectView| o.name);
    assert(used.to_set().subset_of(names.to_set())) by {
        assert forall|x: Seq<char>| used.to_set().contains(x) implies names.to_set().contains(x) by {
            assert(used.contains(x));
            let k = choose|k: int| 0 <= k < used.len() && used[k] == x;
            assert(find_object(objs, used[k]) is Some);
            lemma_find_object(objs, x);
            let i = find_object(objs, x)->Some_0;
            assert(names[i] == x);
        }
    }
    used.unique_seq_to_set();
    vstd::set_lib::lemma_len_subset(used.to_set(), names.to_set());
    names.lemma_cardinality_of_set();
}

/// The message for a missing type.
fn not_found(d: &str) -> (r: String)
    ensures
        r@ == not_found_message(d@),
{
    let mut s = String::from_str("Object or enumeration ");
    s.append(d);
    s.append(" not found");
    s
}

/// Collects the objects and enumerations that `object` uses, directly or
/// through the objects it uses, into `used_types` and `used_enums`, each
/// name once; refused at the first data type that is neither basic nor an
/// object nor an enumeration of the model.
#[verifier::loop_isolation(false)]
fn collect_definitions(
    object: &Object,
    model: &DataModel,
    used_types: &mut Vec<String>,
    used_enums: &mut Vec<String>,
    Ghost(root): Ghost<object::ObjectView>,
) -> (r: Result<(), String>)
    requires
        object@ == root || exists|k: int|
            0 <= k < old(used_types)@.len() && object@ == object_named(
                model_objects(*model),
                #[trigger] text::strings_view(old(used_types)@)[k],
            ),
        discovered(
            root,
            model_objects(*model),
            model_enums(*model),
            text::strings_view(old(used_types)@),
            text::strings_view(old(used_enums)@),
        ),
    ensures
        discovered(
            root,
            model_objects(*model),
            model_enums(*model),
            text::strings_view(final(used_types)@),
            text::strings_view(final(used_enums)@),
        ),
        grows(text::strings_view(old(used_types)@), text::strings_view(final(used_types)@)),
        grows(text::strings_view(old(used_enums)@), text::strings_view(final(used_enums)@)),
        r is Ok ==> closed(
            object@,
            model_objects(*model),
            text::strings_view(final(used_types)@),
            text::strings_view(final(used_enums)@),
        ) && forall|k: int|
            old(used_types)@.len() <= k < final(used_types)@.len() ==> closed(
                object_named(model_objects(*model), #[trigger] text::strings_view(final(used_types)@)[k]),
                model_objects(*model),
                text::strings_view(final(used_types)@),
                text::strings_view(final(used_enums)@),
            ),
        r matches Err(e) ==> exists|d: Seq<char>|
            reached(root, model_objects(*model), text::strings_view(final(used_types)@), d)
                && unknown_type(d, model_objects(*model), model_enums(*model)) && e@
                == not_found_message(d),
    decreases model.objects@.len() - old(used_types)@.len(),
{
    let ghost objs = model_objects(*model);
    let ghost es = model_enums(*model);
    let ghost u0 = text::strings_view(used_types@);
    let ghost e0 = text::strings_view(used_enums@);
    proof {
        lemma_used_bound(objs, u0);
    }
    let basic = validation::basic_type_list();
    let mut i: usize = 0;
    while i < object.attributes.len()
        invariant
            i <= object.attributes@.len(),
            discovered(root, objs, es, text::strings_view(used_types@), text::strings_view(used_enums@)),
            grows(u0, text::strings_view(used_types@)),
            grows(e0, text::strings_view(used_enums@)),
            forall|ii: int, jj: int|
                0 <= ii < i && 0 <= jj < object@.attributes[ii].dtypes.len() ==> #[trigger] resolved(
                    object@.attributes[ii].dtypes[jj],
                    objs,
                    text::strings_view(used_types@),
                    text::strings_view(used_enums@),
                ),
            forall|k: int|
                u0.len() <= k < used_types@.len() ==> closed(
                    object_named(objs, #[trigger] text::strings_view(used_types@)[k]),
                    objs,
                    text::strings_view(used_types@),
                    text::strings_view(used_enums@),
                ),
        decreases object.attributes.len() - i,
    {
        let attr = &object.attributes[i];
        assert(object@.attributes[i as int] == attr@);
        let mut j: usize = 0;
        while j < attr.dtypes.len()
            invariant
                i < object.attributes@.len(),
                j <= attr.dtypes@.len(),
                object@.attributes[i as int] == attr@,
                discovered(root, objs, es, text::strings_view(used_types@), text::strings_view(used_enums@)),
                grows(u0, text::strings_view(used_types@)),
                grows(e0, text::strings_view(used_enums@)),
                forall|ii: int, jj: int|
                    0 <= ii < i && 0 <= jj < object@.attributes[ii].dtypes.len() ==> #[trigger] resolved(
                        object@.attributes[ii].dtypes[jj],
                        objs,
                        text::strings_view(used_types@),
                        text::strings_view(used_enums@),
                    ),
                forall|jj: int|
                    0 <= jj < j ==> #[trigger] resolved(
                        object@.attributes[i as int].dtypes[jj],
                        objs,
                        text::strings_view(used_types@),
                        text::strings_view(used_enums@),
                    ),
                forall|k: int|
                    u0.len() <= k < used_types@.len() ==> closed(
                        object_named(objs, #[trigger] text::strings_view(used_types@)[k]),
                        objs,
                        text::strings_view(used_types@),
                        text::strings_view(used_enums@),
                    ),
            decreases attr.dtypes.len() - j,
        {
            let dtype = &attr.dtypes[j];
            let ghost d = dtype@;
            assert(object@.attributes[i as int].dtypes[j as int] == d);
            assert(uses(object@, d));
            let ghost ub = text::strings_view(used_types@);
            let ghost eb = text::strings_view(used_enums@);
            assert(reached(root, objs, ub, d)) by {
                if object@ != root {
                    let k = choose|k: int|
                        0 <= k < old(used_types)@.len() && object@ == object_named(
                            objs,
                            #[trigger] text::strings_view(old(used_types)@)[k],
                        );
                    assert(ub[k] == u0[k]);
                }
            }
            if validation::contains_string(&basic, dtype) || validation::contains_string(
                used_types,
                dtype,
            ) {
                j = j + 1;
            } else {
                match object_index(&model.objects, dtype.as_str()) {
                    Some(k) => {
                        proof {
                            lemma_find_object(objs, d);
                        }
                        used_types.push(dtype.clone());
                        let ghost u1 = text::strings_view(used_types@);
                        assert(u1 =~= ub.push(d));
                        assert(u1.take(ub.len() as int) =~= ub);
                        assert(chain(root, objs, u1)) by {
                            assert forall|x: int| 0 <= x < u1.len() implies find_object(
                                objs,
                                #[trigger] u1[x],
                            ) is Some && reached(root, objs, u1.take(x), u1[x]) by {
                                if x < ub.len() {
                                    assert(u1.take(x) =~= ub.take(x));
                                }
                            }
                        }
                        assert(grows(ub, u1));
                        assert forall|x: int| 0 <= x < eb.len() implies reached(
                            root,
                            objs,
                            u1,
                            #[trigger] eb[x],
                        ) by {
                            lemma_reached_grows(root, objs, ub, u1, eb[x]);
                        }
                        proof {
                            lemma_used_bound(objs, u1);
                        }
                        assert(model.objects@[k as int]@ == objs[k as int]);
                        assert(model.objects@[k as int]@ == object_named(objs, u1[ub.len() as int]));
                        let res = collect_definitions(
                            &model.objects[k],
                            model,
                            used_types,
                            used_enums,
                            Ghost(root),
                        );
                        let ghost u2 = text::strings_view(used_types@);
                        let ghost e2 = text::strings_view(used_enums@);
                        match res {
                            Ok(()) => {},
                            Err(e) => {
                                return Err(e);
                            },
                        }
                        proof {
                            assert(grows(ub, u2));
                            assert(grows(eb, e2));
                            assert(u2[ub.len() as int] == d);
                            assert(u2.contains(d));
                            assert forall|ii: int, jj: int|
                                0 <= ii < i && 0 <= jj < object@.attributes[ii].dtypes.len()
                                    implies #[trigger] resolved(
                                object@.attributes[ii].dtypes[jj],
                                objs,
                                u2,
                                e2,
                            ) by {
                                let dd = object@.attributes[ii].dtypes[jj];
                                assert(resolved(dd, objs, ub, eb));
                                if ub.contains(dd) {
                                    lemma_contains_grows(ub, u2, dd);
                                } else if eb.contains(dd) {
                                    lemma_contains_grows(eb, e2, dd);
                                }
                            }
                            assert forall|jj: int| 0 <= jj <= j implies #[trigger] resolved(
                                object@.attributes[i as int].dtypes[jj],
                                objs,
                                u2,
                                e2,
                            ) by {
                                if jj < j {
                                    let dd = object@.attributes[i as int].dtypes[jj];
                                    assert(resolved(dd, objs, ub, eb));
                                    if ub.contains(dd) {
                                        lemma_contains_grows(ub, u2, dd);
                                    } else if eb.contains(dd) {
                                        lemma_contains_grows(eb, e2, dd);
                                    }
                                }
                            }
                            assert forall|x: int| u0.len() <= x < u2.len() implies closed(
                                object_named(objs, #[trigger] u2[x]),
                                objs,
                                u2,
                                e2,
                            ) by {
                                if x < ub.len() {
                                    assert(u2[x] == ub[x]);
                                    lemma_closed_grows(object_named(objs, ub[x]), objs, ub, eb, u2, e2);
                                }
                            }
                            assert(grows(u0, u2));
                            assert(grows(e0, e2));
                        }
                        j = j + 1;
                    },
                    None => {
                        match enum_index(&model.enums, dtype.as_str()) {
                            Some(_) => {
                                if !validation::contains_string(used_enums, dtype) {
                                    used_enums.push(dtype.clone());
                                    let ghost e1 = text::strings_view(used_enums@);
                                    assert(e1 =~= eb.push(d));
                                    assert(grows(eb, e1));
                                    assert(e1.contains(d)) by {
                                        assert(e1[eb.len() as int] == d);
                                    }
                                    assert forall|x: int| u0.len() <= x < ub.len() implies closed(
                                        object_named(objs, #[trigger] ub[x]),
                                        objs,
                                        ub,
                                        e1,
                                    ) by {
                                        lemma_closed_grows(object_named(objs, ub[x]), objs, ub, eb, ub, e1);
                                    }
                                    assert forall|ii: int, jj: int|
                                        0 <= ii < i && 0 <= jj < object@.attributes[ii].dtypes.len()
                                            implies #[trigger] resolved(
                                        object@.attributes[ii].dtypes[jj],
                                        objs,
                                        ub,
                                        e1,
                                    ) by {
                                        let dd = object@.attributes[ii].dtypes[jj];
                                        assert(resolved(dd, objs, ub, eb));
                                        if eb.contains(dd) {
                                            lemma_contains_grows(eb, e1, dd);
                                        }
                                    }
                                    assert forall|jj: int| 0 <= jj < j implies #[trigger] resolved(
                                        object@.attributes[i as int].dtypes[jj],
                                        objs,
                                        ub,
                                        e1,
                                    ) by {
                                        let dd = object@.attributes[i as int].dtypes[jj];
                                        assert(resolved(dd, objs, ub, eb));
                                        if eb.contains(dd) {
                                            lemma_contains_grows(eb, e1, dd);
                                        }
                                    }
                                    assert(grows(e0, e1));
                                }
                                j = j + 1;
                            },
                            None => {
                                return Err(not_found(dtype.as_str()));
                            },
                        }
                    },
                }
            }
        }
        i = i + 1;
    }
    Ok(())
}

// ---------------------------------------------------------------------------
// Definitions
// ---------------------------------------------------------------------------

/// The enumeration of a schema matches an enumeration of the model (see
/// [`enum_object_from_enumeration`]).
pub open spec fn enum_object_matches(eo: schema::EnumObject, e: object::EnumView) -> bool {
    &&& eo.title@ == e.name
    &&& eo.dtype == DataType::String
    &&& opt_view(eo.description) == Some(e.docstring)
    &&& text::strings_view(eo.enum_values@) == e.mappings.map_values(|p: (Seq<char>, Seq<char>)| p.1)
}

/// The definition under `key`: the schema object of the first object of
/// that name, or, where no object has it, the enumeration of the first
/// enumeration of that name.
pub open spec fn definition_matches(
    key: Seq<char>,
    d: SchemaType,
    objs: Seq<object::ObjectView>,
    es: Seq<object::EnumView>,
    prefixes: Option<Seq<(Seq<char>, Seq<char>)>>,
    no_options: bool,
) -> bool {
    match d {
        SchemaType::Object(so) => find_object(objs, key) is Some && schema_object_core(
            so,
            object_named(objs, key),
            prefixes,
            no_options,
        ) && so.definitions@.len() == 0 && so.schema is None && so.id is None,
        SchemaType::Enum(eo) => find_object(objs, key) is None && find_enum(es, key) is Some
            && enum_object_matches(eo, es[find_enum(es, key)->Some_0]),
    }
}

/// Inserting a new key adds one pair and keeps all others.
proof fn lemma_map_insert_fresh<V>(s: Seq<(Seq<char>, V)>, k: Seq<char>, v: V)
    requires
        forall|i: int| 0 <= i < s.len() ==> (#[trigger] s[i]).0 != k,
    ensures
        object::spec_map_insert(s, k, v).len() == s.len() + 1,
        exists|j: int| 0 <= j < object::spec_map_insert(s, k, v).len() && #[trigger] object::spec_map_insert(s, k, v)[j] == (k, v),
        forall|i: int| 0 <= i < s.len() ==> exists|j: int| 0 <= j < object::spec_map_insert(s, k, v).len() && #[trigger] object::spec_map_insert(s, k, v)[j] == #[trigger] s[i],
        forall|j: int| 0 <= j < object::spec_map_insert(s, k, v).len() ==> #[trigger] object::spec_map_insert(s, k, v)[j] == (k, v) || exists|i: int| 0 <= i < s.len() && #[trigger] s[i] == object::spec_map_insert(s, k, v)[j],
    decreases s.len(),
{
    let r = object::spec_map_insert(s, k, v);
    if s.len() == 0 {
        assert(r[0] == (k, v));
    } else if text::seq_lt(k, s[0].0) {
        assert(r[0] == (k, v));
        assert forall|i: int| 0 <= i < s.len() implies exists|j: int| 0 <= j < r.len() && #[trigger] r[j] == #[trigger] s[i] by {
            assert(r[i + 1] == s[i]);
        }
        assert forall|j: int| 0 <= j < r.len() implies #[trigger] r[j] == (k, v) || exists|i: int| 0 <= i < s.len() && #[trigger] s[i] == r[j] by {
            if j > 0 {
                assert(s[j - 1] == r[j]);
            }
        }
    } else {
        let t = s.drop_first();
        assert forall|i: int| 0 <= i < t.len() implies (#[trigger] t[i]).0 != k by {
            assert(t[i] == s[i + 1]);
        }
        lemma_map_insert_fresh(t, k, v);
        let rt = object::spec_map_insert(t, k, v);
        assert(r == seq![s[0]] + rt);
        let j0 = choose|j: int| 0 <= j < rt.len() && rt[j] == (k, v);
        assert(r[j0 + 1] == (k, v));
        assert forall|i: int| 0 <= i < s.len() implies exists|j: int| 0 <= j < r.len() && #[trigger] r[j] == #[trigger] s[i] by {
            if i == 0 {
                assert(r[0] == s[0]);
            } else {
                assert(t[i - 1] == s[i]);
                let j1 = choose|j: int| 0 <= j < rt.len() && #[trigger] rt[j] == t[i - 1];
                assert(r[j1 + 1] == s[i]);
            }
        }
        assert forall|j: int| 0 <= j < r.len() implies #[trigger] r[j] == (k, v) || exists|i: int| 0 <= i < s.len() && #[trigger] s[i] == r[j] by {
            if j == 0 {
                assert(s[0] == r[0]);
            } else {
                assert(r[j] == rt[j - 1]);
                if rt[j - 1] != (k, v) {
                    let i1 = choose|i: int| 0 <= i < t.len() && #[trigger] t[i] == rt[j - 1];
                    assert(s[i1 + 1] == r[j]);
                }
            }
        }
    }
}

/// Every definition matches its key, and every key is among `keys`.
#[verifier::opaque]
pub open spec fn definitions_ok(
    defs: Seq<(Seq<char>, SchemaType)>,
    objs: Seq<object::ObjectView>,
    es: Seq<object::EnumView>,
    keys: Seq<Seq<char>>,
) -> bool {
    forall|i: int|
        0 <= i < defs.len() ==> definition_matches(
            (#[trigger] defs[i]).0,
            defs[i].1,
            objs,
            es,
            None,
            false,
        ) && keys.contains(defs[i].0)
}

/// Every name is the key of a definition.
#[verifier::opaque]
pub open spec fn covers(defs: Seq<(Seq<char>, SchemaType)>, names: Seq<Seq<char>>) -> bool {
    forall|x: int| 0 <= x < names.len() ==> exists|i: int| 0 <= i < defs.len() && #[trigger] defs[i].0 == #[trigger] names[x]
}

/// Keys outside `keys` are new to definitions whose keys are all in `keys`.
proof fn lemma_fresh_key(
    defs: Seq<(Seq<char>, SchemaType)>,
    objs: Seq<object::ObjectView>,
    es: Seq<object::EnumView>,
    keys: Seq<Seq<char>>,
    name: Seq<char>,
)
    requires
        definitions_ok(defs, objs, es, keys),
        !keys.contains(name),
    ensures
        forall|i: int| 0 <= i < defs.len() ==> (#[trigger] defs[i]).0 != name,
{
    reveal(definitions_ok);
    assert forall|i: int| 0 <= i < defs.len() implies (#[trigger] defs[i]).0 != name by {
        assert(keys.contains(defs[i].0));
    }
}

/// Adding a matching definition under a new key keeps the definitions
/// matching, with the key added.
proof fn lemma_definitions_ok_insert(
    before: Seq<(Seq<char>, SchemaType)>,
    objs: Seq<object::ObjectView>,
    es: Seq<object::EnumView>,
    keys: Seq<Seq<char>>,
    name: Seq<char>,
    v: SchemaType,
)
    requires
        definitions_ok(before, objs, es, keys),
        !keys.contains(name),
        definition_matches(name, v, objs, es, None, false),
    ensures
        definitions_ok(object::spec_map_insert(before, name, v), objs, es, keys.push(name)),
{
    lemma_fresh_key(before, objs, es, keys, name);
    lemma_map_insert_fresh(before, name, v);
    reveal(definitions_ok);
    let after = object::spec_map_insert(before, name, v);
    let k2 = keys.push(name);
    assert forall|i: int| 0 <= i < after.len() implies definition_matches(
        (#[trigger] after[i]).0,
        after[i].1,
        objs,
        es,
        None,
        false,
    ) && k2.contains(after[i].0) by {
        if after[i] == (name, v) {
            assert(k2[keys.len() as int] == name);
        } else {
            let i0 = choose|i0: int| 0 <= i0 < before.len() && #[trigger] before[i0] == after[i];
            assert(keys.contains(before[i0].0));
            let x = choose|x: int| 0 <= x < keys.len() && keys[x] == before[i0].0;
            assert(k2[x] == before[i0].0);
        }
    }
}

/// Adding a definition under a new key covers that key too.
proof fn lemma_covers_insert(
    before: Seq<(Seq<char>, SchemaType)>,
    names: Seq<Seq<char>>,
    name: Seq<char>,
    v: SchemaType,
)
    requires
        covers(before, names),
        forall|i: int| 0 <= i < before.len() ==> (#[trigger] before[i]).0 != name,
    ensures
        covers(object::spec_map_insert(before, name, v), names.push(name)),
{
    lemma_map_insert_fresh(before, name, v);
    reveal(covers);
    let after = object::spec_map_insert(before, name, v);
    let n2 = names.push(name);
    assert forall|x: int| 0 <= x < n2.len() implies exists|i: int| 0 <= i < after.len() && #[trigger] after[i].0 == #[trigger] n2[x] by {
        if x == names.len() {
            let j = choose|j: int| 0 <= j < after.len() && after[j] == (name, v);
            assert(after[j].0 == n2[x]);
        } else {
            assert(n2[x] == names[x]);
            let i0 = choose|i: int| 0 <= i < before.len() && #[trigger] before[i].0 == #[trigger] names[x];
            let j = choose|j: int| 0 <= j < after.len() && #[trigger] after[j] == before[i0];
            assert(after[j].0 == n2[x]);
        }
    }
}

/// A covered name is the key of some definition.
proof fn lemma_covers_at(defs: Seq<(Seq<char>, SchemaType)>, names: Seq<Seq<char>>, x: int)
    requires
        covers(defs, names),
        0 <= x < names.len(),
    ensures
        exists|i: int| 0 <= i < defs.len() && #[trigger] defs[i].0 == names[x],
{
    reveal(covers);
    assert(names[x] == names[x]);
}

/// Adds a definition under a new key.
fn add_definition(
    defs: &mut Vec<(String, SchemaType)>,
    name: String,
    value: SchemaType,
    Ghost(objs): Ghost<Seq<object::ObjectView>>,
    Ghost(es): Ghost<Seq<object::EnumView>>,
    Ghost(keys): Ghost<Seq<Seq<char>>>,
    Ghost(names): Ghost<Seq<Seq<char>>>,
)
    requires
        object::keys_increasing(object::keyed_view(old(defs)@)),
        definitions_ok(object::keyed_view(old(defs)@), objs, es, keys),
        covers(object::keyed_view(old(defs)@), names),
        !keys.contains(name@),
        definition_matches(name@, value, objs, es, None, false),
    ensures
        object::keys_increasing(object::keyed_view(final(defs)@)),
        final(defs)@.len() == old(defs)@.len() + 1,
        definitions_ok(object::keyed_view(final(defs)@), objs, es, keys.push(name@)),
        covers(object::keyed_view(final(defs)@), names.push(name@)),
{
    let ghost before = object::keyed_view(defs@);
    let ghost v = value;
    proof {
        lemma_fresh_key(before, objs, es, keys, name@);
        lemma_map_insert_fresh(before, name@, value);
        lemma_definitions_ok_insert(before, objs, es, keys, name@, value);
        lemma_covers_insert(before, names, name@, value);
    }
    object::insert_sorted(defs, name, value);
    assert(object::keyed_view(defs@).len() == before.len() + 1);
}

/// The definitions of the used objects, in the order they were found.
fn object_definitions(
    model: &DataModel,
    used_types: &Vec<String>,
    Ghost(root): Ghost<object::ObjectView>,
) -> (r: Result<Vec<(String, SchemaType)>, String>)
    requires
        chain(root, model_objects(*model), text::strings_view(used_types@)),
        forall|k: int|
            0 <= k < used_types@.len() ==> attributes_writable(
                object_named(model_objects(*model), #[trigger] text::strings_view(used_types@)[k]).attributes,
            ),
    ensures
        match r {
            Ok(defs) => object::keys_increasing(object::keyed_view(defs@)) && defs@.len()
                == used_types@.len() && definitions_ok(
                object::keyed_view(defs@),
                model_objects(*model),
                model_enums(*model),
                text::strings_view(used_types@),
            ) && covers(object::keyed_view(defs@), text::strings_view(used_types@)) && forall|k: int|
                0 <= k < used_types@.len() ==> first_untyped(
                    object_named(model_objects(*model), #[trigger] text::strings_view(used_types@)[k]).attributes,
                ) is None,
            Err(e) => exists|k: int|
                0 <= k < used_types@.len() && match first_untyped(
                    object_named(model_objects(*model), #[trigger] text::strings_view(used_types@)[k]).attributes,
                ) {
                    Some(i) => attribute_schema_type(
                        object_named(model_objects(*model), text::strings_view(used_types@)[k]).attributes[i],
                    ) == Err::<DataType, Seq<char>>(e@),
                    None => false,
                },
        },
{
    let ghost objs = model_objects(*model);
    let ghost es = model_enums(*model);
    let ghost u = text::strings_view(used_types@);
    let mut defs: Vec<(String, SchemaType)> = Vec::new();
    proof {
        reveal(definitions_ok);
        reveal(covers);
        assert(u.take(0) =~= Seq::<Seq<char>>::empty());
    }
    let mut k: usize = 0;
    while k < used_types.len()
        invariant
            k <= used_types@.len(),
            u == text::strings_view(used_types@),
            chain(root, objs, u),
            forall|x: int|
                0 <= x < used_types@.len() ==> attributes_writable(object_named(objs, #[trigger] u[x]).attributes),
            objs == model_objects(*model),
            es == model_enums(*model),
            object::keys_increasing(object::keyed_view(defs@)),
            defs@.len() == k,
            definitions_ok(object::keyed_view(defs@), objs, es, u.take(k as int)),
            covers(object::keyed_view(defs@), u.take(k as int)),
            forall|x: int| 0 <= x < k ==> first_untyped(object_named(objs, #[trigger] u[x]).attributes) is None,
        decreases used_types.len() - k,
    {
        let name = &used_types[k];
        assert(u[k as int] == name@);
        assert(find_object(objs, u[k as int]) is Some);
        let idx = match object_index(&model.objects, name.as_str()) {
            Some(i) => i,
            None => {
                return Err(String::new());
            },
        };
        proof {
            lemma_find_object(objs, name@);
        }
        let obj = &model.objects[idx];
        assert(obj@ == object_named(objs, u[k as int]));
        let so = match schema_object_from_object(obj) {
            Ok(so) => so,
            Err(e) => {
                return Err(e);
            },
        };
        assert(!u.take(k as int).contains(name@)) by {
            if u.take(k as int).contains(name@) {
                let x = choose|x: int| 0 <= x < k && u.take(k as int)[x] == name@;
                assert(u[x] == u[k as int]);
            }
        }
        add_definition(
            &mut defs,
            name.clone(),
            SchemaType::Object(so),
            Ghost(objs),
            Ghost(es),
            Ghost(u.take(k as int)),
            Ghost(u.take(k as int)),
        );
        assert(u.take(k as int).push(name@) =~= u.take(k + 1));
        k = k + 1;
    }
    assert(u.take(k as int) =~= u);
    Ok(defs)
}

/// Adds the definitions of the used enumerations.
fn enum_definitions(
    model: &DataModel,
    defs: &mut Vec<(String, SchemaType)>,
    used_types: &Vec<String>,
    used_enums: &Vec<String>,
    Ghost(root): Ghost<object::ObjectView>,
)
    requires
        discovered(
            root,
            model_objects(*model),
            model_enums(*model),
            text::strings_view(used_types@),
            text::strings_view(used_enums@),
        ),
        object::keys_increasing(object::keyed_view(old(defs)@)),
        old(defs)@.len() == used_types@.len(),
        definitions_ok(
            object::keyed_view(old(defs)@),
            model_objects(*model),
            model_enums(*model),
            text::strings_view(used_types@),
        ),
        covers(object::keyed_view(old(defs)@), text::strings_view(used_types@)),
    ensures
        object::keys_increasing(object::keyed_view(final(defs)@)),
        final(defs)@.len() == used_types@.len() + used_enums@.len(),
        definitions_ok(
            object::keyed_view(final(defs)@),
            model_objects(*model),
            model_enums(*model),
            text::strings_view(used_types@) + text::strings_view(used_enums@),
        ),
        covers(
            object::keyed_view(final(defs)@),
            text::strings_view(used_types@) + text::strings_view(used_enums@),
        ),
{
    let ghost objs = model_objects(*model);
    let ghost es = model_enums(*model);
    let ghost u = text::strings_view(used_types@);
    let ghost ue = text::strings_view(used_enums@);
    assert(u + ue.take(0) =~= u);
    let mut m: usize = 0;
    while m < used_enums.len()
        invariant
            m <= used_enums@.len(),
            u == text::strings_view(used_types@),
            ue == text::strings_view(used_enums@),
            discovered(root, objs, es, u, ue),
            objs == model_objects(*model),
            es == model_enums(*model),
            object::keys_increasing(object::keyed_view(defs@)),
            defs@.len() == u.len() + m,
            definitions_ok(object::keyed_view(defs@), objs, es, u + ue.take(m as int)),
            covers(object::keyed_view(defs@), u + ue.take(m as int)),
        decreases used_enums.len() - m,
    {
        let name = &used_enums[m];
        assert(ue[m as int] == name@);
        assert(find_enum(es, ue[m as int]) is Some);
        let idx = match enum_index(&model.enums, name.as_str()) {
            Some(i) => i,
            None => {
                return;
            },
        };
        proof {
            lemma_find_enum(es, name@);
        }
        let eo = enum_object_from_enumeration(&model.enums[idx]);
        assert(object::enum_view(model.enums@[idx as int]) == es[idx as int]);
        assert(!(u + ue.take(m as int)).contains(name@)) by {
            if (u + ue.take(m as int)).contains(name@) {
                let x = choose|x: int| 0 <= x < u.len() + m && (u + ue.take(m as int))[x] == name@;
                if x < u.len() {
                    assert(u[x] == name@);
                    assert(find_object(objs, u[x]) is Some);
                } else {
                    assert(ue[x - u.len()] == name@);
                }
            }
        }
        add_definition(
            defs,
            name.clone(),
            SchemaType::Enum(eo),
            Ghost(objs),
            Ghost(es),
            Ghost(u + ue.take(m as int)),
            Ghost(u + ue.take(m as int)),
        );
        assert((u + ue.take(m as int)).push(name@) =~= u + ue.take(m + 1));
        m = m + 1;
    }
    assert(ue.take(m as int) =~= ue);
}

// ---------------------------------------------------------------------------
// Prefixes and options
// ---------------------------------------------------------------------------

/// The value of the first pair whose key is `k`.
fn pair_lookup(table: &Vec<(String, String)>, k: &[char]) -> (r: Option<String>)
    ensures
        opt_view(r) == primitives::lookup(text::pairs_view(table@), k@),
{
    let ghost t = text::pairs_view(table@);
    let mut i: usize = 0;
    assert(t.skip(0) =~= t);
    while i < table.len()
        invariant
            i <= table@.len(),
            t == text::pairs_view(table@),
            primitives::lookup(t, k@) == primitives::lookup(t.skip(i as int), k@),
        decreases table.len() - i,
    {
        let key = text::chars_of(table[i].0.as_str());
        assert(t.skip(i as int)[0] == t[i as int]);
        assert(t[i as int].0 == key@);
        if text::chars_eq(&key, k) {
            return Some(table[i].1.clone());
        }
        assert(t.skip(i as int).drop_first() =~= t.skip(i + 1));
        i = i + 1;
    }
    None
}

/// Resolves the prefix of a term (see [`resolve_term`]).
fn resolve_prefix(term: &String, prefixes: &Vec<(String, String)>) -> (r: String)
    ensures
        resolve_term(Some(term@), Some(text::pairs_view(prefixes@))) == Some(r@),
{
    let t = text::chars_of(term.as_str());
    let (pre, rest) = match text::split_once_char(&t, ':') {
        Some((a, b)) => (a, b),
        None => (Vec::new(), Vec::new()),
    };
    assert(pre@ == (if text::has_char(term@, ':') { text::before_first(term@, ':') } else { Seq::empty() }));
    match pair_lookup(prefixes, &pre) {
        Some(iri) => {
            let mut r = iri;
            let tail = text::string_of(&rest);
            r.append(tail.as_str());
            r
        },
        None => term.clone(),
    }
}

/// The prefixes as pairs, by view.
pub open spec fn prefixes_view(p: Option<Vec<(String, String)>>) -> Option<Seq<(Seq<char>, Seq<char>)>> {
    match p {
        Some(v) => Some(text::pairs_view(v@)),
        None => None,
    }
}

/// `q` is `p` with its term resolved by `prefixes` and, where `no_options`
/// is set, without options; all else is kept.
pub open spec fn post_processed(
    q: Property,
    p: Property,
    prefixes: Option<Seq<(Seq<char>, Seq<char>)>>,
    no_options: bool,
) -> bool {
    &&& q.title == p.title
    &&& q.dtype == p.dtype
    &&& q.default == p.default
    &&& q.description == p.description
    &&& q.reference == p.reference
    &&& q.items == p.items
    &&& q.one_of == p.one_of
    &&& q.enum_values == p.enum_values
    &&& opt_view(q.term) == resolve_term(opt_view(p.term), prefixes)
    &&& if no_options {
        q.options@.len() == 0
    } else {
        q.options == p.options
    }
}

/// Resolves the term of a property and, where asked, drops its options.
fn post_process_property(
    p: Property,
    prefixes: &Option<Vec<(String, String)>>,
    no_options: bool,
) -> (r: Property)
    ensures
        post_processed(r, p, prefixes_view(*prefixes), no_options),
{
    let ghost p0 = p;
    let Property {
        title,
        dtype,
        default,
        description,
        term,
        reference,
        options,
        items,
        one_of,
        enum_values,
    } = p;
    let term = match (term, prefixes) {
        (Some(t), Some(px)) => Some(resolve_prefix(&t, px)),
        (t, _) => t,
    };
    let options = if no_options {
        Vec::new()
    } else {
        options
    };
    Property {
        title,
        dtype,
        default,
        description,
        term,
        reference,
        options,
        items,
        one_of,
        enum_values,
    }
}

/// Post-processing a property keeps it matching its attribute, now under
/// the prefixes and the options setting.
proof fn lemma_post_processed_matches(
    q: Property,
    p: Property,
    a: attribute::AttributeView,
    prefixes: Option<Seq<(Seq<char>, Seq<char>)>>,
    no_options: bool,
)
    requires
        property_matches(p, a),
        post_processed(q, p, prefixes, no_options),
    ensures
        property_matches_with(q, a, prefixes, no_options),
{
    assert(resolve_term(a.term, None) == a.term);
}

/// Post-processes every property (see [`post_processed`]); keys are kept.
fn post_process_properties(
    props: Vec<(String, Property)>,
    prefixes: &Option<Vec<(String, String)>>,
    no_options: bool,
) -> (r: Vec<(String, Property)>)
    ensures
        r@.len() == props@.len(),
        forall|i: int|
            0 <= i < props@.len() ==> (#[trigger] r@[i]).0 == props@[i].0 && post_processed(
                r@[i].1,
                props@[i].1,
                prefixes_view(*prefixes),
                no_options,
            ),
{
    let ghost all = props@;
    let mut rest = props;
    let mut out: Vec<(String, Property)> = Vec::new();
    while rest.len() > 0
        invariant
            out@.len() + rest@.len() == all.len(),
            rest@ == all.skip(out@.len() as int),
            forall|i: int|
                0 <= i < out@.len() ==> (#[trigger] out@[i]).0 == all[i].0 && post_processed(
                    out@[i].1,
                    all[i].1,
                    prefixes_view(*prefixes),
                    no_options,
                ),
        decreases rest@.len(),
    {
        let ghost n: int = out@.len() as int;
        let ghost rb = rest@;
        let (k, p) = rest.remove(0);
        assert(rb[0] == all[n]);
        assert(rest@ =~= all.skip(n + 1)) by {
            assert(rb.drop_first() =~= all.skip(n + 1));
        }
        let q = post_process_property(p, prefixes, no_options);
        out.push((k, q));
    }
    out
}

/// Post-processed properties keep matching their attributes, under the
/// prefixes and the options setting.
proof fn lemma_post_processed_properties(
    before: Seq<(String, Property)>,
    after: Seq<(String, Property)>,
    attrs: Seq<(Seq<char>, attribute::AttributeView)>,
    prefixes: Option<Seq<(Seq<char>, Seq<char>)>>,
    no_options: bool,
)
    requires
        properties_match(object::keyed_view(before), attrs),
        object::keys_increasing(object::keyed_view(before)),
        after.len() == before.len(),
        forall|i: int|
            0 <= i < before.len() ==> (#[trigger] after[i]).0 == before[i].0 && post_processed(
                after[i].1,
                before[i].1,
                prefixes,
                no_options,
            ),
    ensures
        properties_match_with(object::keyed_view(after), attrs, prefixes, no_options),
        object::keys_increasing(object::keyed_view(after)),
{
    let kb = object::keyed_view(before);
    let ka = object::keyed_view(after);
    assert forall|i: int| 0 <= i < ka.len() implies (#[trigger] ka[i]).0 == attrs[i].0
        && property_matches_with(ka[i].1, attrs[i].1, prefixes, no_options) by {
        assert(kb[i].0 == attrs[i].0);
        assert(after[i].0 == before[i].0);
        lemma_post_processed_matches(after[i].1, before[i].1, attrs[i].1, prefixes, no_options);
    }
    assert forall|i: int, j: int| 0 <= i < j < ka.len() implies text::seq_lt(
        #[trigger] ka[i].0,
        #[trigger] ka[j].0,
    ) by {
        assert(text::seq_lt(kb[i].0, kb[j].0));
    }
}

/// The schema object with the terms of its properties resolved and, where
/// asked, their options dropped; all else is kept.
fn post_process_object(
    so: SchemaObject,
    prefixes: &Option<Vec<(String, String)>>,
    no_options: bool,
    Ghost(o): Ghost<object::ObjectView>,
) -> (r: SchemaObject)
    requires
        schema_object_core(so, o, None, false),
    ensures
        schema_object_core(r, o, prefixes_view(*prefixes), no_options),
        r.definitions == so.definitions,
        r.schema == so.schema,
        r.id == so.id,
{
    let SchemaObject {
        schema,
        id,
        title,
        dtype,
        description,
        properties,
        definitions,
        required,
        additional_properties,
    } = so;
    let ghost before = properties@;
    let properties = post_process_properties(properties, prefixes, no_options);
    proof {
        lemma_post_processed_properties(
            before,
            properties@,
            attributes_by_name(o.attributes),
            prefixes_view(*prefixes),
            no_options,
        );
    }
    SchemaObject {
        schema,
        id,
        title,
        dtype,
        description,
        properties,
        definitions,
        required,
        additional_properties,
    }
}

/// The definitions match their keys under the prefixes and the options
/// setting, hold one entry for each of `keys` and nothing else, in
/// increasing key order.
#[verifier::opaque]
pub open spec fn final_definitions(
    defs: Seq<(Seq<char>, SchemaType)>,
    objs: Seq<object::ObjectView>,
    es: Seq<object::EnumView>,
    keys: Seq<Seq<char>>,
    prefixes: Option<Seq<(Seq<char>, Seq<char>)>>,
    no_options: bool,
) -> bool {
    &&& object::keys_increasing(defs)
    &&& defs.len() == keys.len()
    &&& forall|i: int|
        0 <= i < defs.len() ==> definition_matches(
            (#[trigger] defs[i]).0,
            defs[i].1,
            objs,
            es,
            prefixes,
            no_options,
        ) && keys.contains(defs[i].0)
    &&& forall|x: int| 0 <= x < keys.len() ==> #[trigger] has_key(defs, keys[x])
}

/// Some definition has the key `k`.
pub open spec fn has_key(defs: Seq<(Seq<char>, SchemaType)>, k: Seq<char>) -> bool {
    exists|i: int| 0 <= i < defs.len() && defs[i].0 == k
}

/// Post-processes the object definitions (see [`post_process_object`]).
fn post_process_definitions(
    defs: Vec<(String, SchemaType)>,
    prefixes: &Option<Vec<(String, String)>>,
    no_options: bool,
    Ghost(objs): Ghost<Seq<object::ObjectView>>,
    Ghost(es): Ghost<Seq<object::EnumView>>,
    Ghost(keys): Ghost<Seq<Seq<char>>>,
) -> (r: Vec<(String, SchemaType)>)
    requires
        object::keys_increasing(object::keyed_view(defs@)),
        defs@.len() == keys.len(),
        definitions_ok(object::keyed_view(defs@), objs, es, keys),
        covers(object::keyed_view(defs@), keys),
    ensures
        final_definitions(object::keyed_view(r@), objs, es, keys, prefixes_view(*prefixes), no_options),
{
    let ghost all = object::keyed_view(defs@);
    let mut rest = defs;
    let mut out: Vec<(String, SchemaType)> = Vec::new();
    while rest.len() > 0
        invariant
            out@.len() + rest@.len() == all.len(),
            object::keyed_view(rest@) == all.skip(out@.len() as int),
            definitions_ok(all, objs, es, keys),
            object::keys_increasing(all),
            all.len() == keys.len(),
            covers(all, keys),
            forall|i: int|
                0 <= i < out@.len() ==> (#[trigger] object::keyed_view(out@)[i]).0 == all[i].0
                    && definition_matches(
                    object::keyed_view(out@)[i].0,
                    object::keyed_view(out@)[i].1,
                    objs,
                    es,
                    prefixes_view(*prefixes),
                    no_options,
                ),
        decreases rest@.len(),
    {
        let ghost n: int = out@.len() as int;
        let ghost rb = object::keyed_view(rest@);
        let (k, d) = rest.remove(0);
        assert(rb[0] == all[n]);
        assert(all[n] == (k@, d));
        assert(object::keyed_view(rest@) =~= all.skip(n + 1)) by {
            assert(rb.drop_first() =~= all.skip(n + 1));
        }
        assert(definition_matches(all[n].0, all[n].1, objs, es, None, false)) by {
            reveal(definitions_ok);
        }
        let d2 = match d {
            SchemaType::Object(so) => SchemaType::Object(
                post_process_object(so, prefixes, no_options, Ghost(object_named(objs, k@))),
            ),
            SchemaType::Enum(e) => SchemaType::Enum(e),
        };
        let ghost ob = object::keyed_view(out@);
        out.push((k, d2));
        assert(object::keyed_view(out@) =~= ob.push((all[n].0, d2)));
    }
    let ghost ko = object::keyed_view(out@);
    proof {
        reveal(definitions_ok);
        reveal(final_definitions);
        assert(ko.len() == keys.len());
        assert forall|i: int| 0 <= i < ko.len() implies definition_matches(
            (#[trigger] ko[i]).0,
            ko[i].1,
            objs,
            es,
            prefixes_view(*prefixes),
            no_options,
        ) by {
            assert(object::keyed_view(out@)[i] == ko[i]);
        }
        assert forall|i: int, j: int| 0 <= i < j < ko.len() implies text::seq_lt(
            #[trigger] ko[i].0,
            #[trigger] ko[j].0,
        ) by {
            assert(text::seq_lt(all[i].0, all[j].0));
        }
        assert forall|i: int| 0 <= i < ko.len() implies keys.contains((#[trigger] ko[i]).0) by {
            assert(keys.contains(all[i].0));
        }
        assert forall|x: int| 0 <= x < keys.len() implies #[trigger] has_key(ko, keys[x]) by {
            lemma_covers_at(all, keys, x);
            let i = choose|i: int| 0 <= i < all.len() && #[trigger] all[i].0 == keys[x];
            assert(ko[i].0 == all[i].0);
            assert(ko[i].0 == keys[x]);
        }
    }
    out
}

// ---------------------------------------------------------------------------
// The schema of a model
// ---------------------------------------------------------------------------

/// The JSON schema dialect.
pub open spec fn dialect() -> Seq<char> {
    "https://json-schema.org/draft/2020-12/schema"@
}

/// The prefixes that post-processing resolves terms with: those of the
/// front matter, where the model has one.
pub open spec fn effective_prefixes(config: Option<FrontMatter>) -> Option<Seq<(Seq<char>, Seq<char>)>> {
    match config {
        Some(c) => prefixes_view(c.prefixes),
        None => None,
    }
}

/// The schema written for a root object, given the objects `used` and
/// enumerations `used_enums` it uses: the root's schema object, with the
/// dialect, the repository of the front matter as id, the definitions of
/// what is used; where the model has a front matter, terms are resolved by
/// its prefixes and, for `openai`, options are dropped.
pub open spec fn json_schema_matches(
    s: SchemaObject,
    root: object::ObjectView,
    objs: Seq<object::ObjectView>,
    es: Seq<object::EnumView>,
    used: Seq<Seq<char>>,
    used_enums: Seq<Seq<char>>,
    config: Option<FrontMatter>,
    openai: bool,
) -> bool {
    let no_options = config is Some && openai;
    &&& schema_object_core(s, root, effective_prefixes(config), no_options)
    &&& opt_view(s.schema) == Some(dialect())
    &&& opt_view(s.id) == match config {
        Some(c) => Some(c.repo@),
        None => None,
    }
    &&& final_definitions(
        object::keyed_view(s.definitions@),
        objs,
        es,
        used + used_enums,
        effective_prefixes(config),
        no_options,
    )
}

/// The root object named `root`, and every object it reaches, can be written
/// (see [`attributes_writable`]).
pub open spec fn exportable(objs: Seq<object::ObjectView>, root: Seq<char>) -> bool {
    match find_object(objs, root) {
        Some(ri) => attributes_writable(objs[ri].attributes) && forall|n: Seq<char>|
            #[trigger] reachable(objs[ri], objs, n) && find_object(objs, n) is Some
                ==> attributes_writable(object_named(objs, n).attributes),
        None => true,
    }
}

/// The first attribute of the object without a schema type gives error `e`.
pub open spec fn untyped_error(o: object::ObjectView, e: Seq<char>) -> bool {
    match first_untyped(o.attributes) {
        Some(i) => attribute_schema_type(o.attributes[i]) == Err::<DataType, Seq<char>>(e),
        None => false,
    }
}

/// Converts a data model into a JSON schema rooted at the object `root`:
/// the root's schema object with the definitions of every object and
/// enumeration it uses, directly or through the objects it uses (see
/// [`json_schema_matches`]). Refused when the root is not found, when it or
/// an object it uses has an attribute without a schema type, and when a type
/// it reaches is neither basic nor an object nor an enumeration.
pub fn to_json_schema(model: &DataModel, root: &str, openai: bool) -> (r: Result<SchemaObject, String>)
    requires
        exportable(model_objects(*model), root@),
    ensures
        match find_object(model_objects(*model), root@) {
            None => r matches Err(e) && e@ == "Object "@ + root@ + " not found"@,
            Some(ri) => {
                let ro = model_objects(*model)[ri];
                let objs = model_objects(*model);
                let es = model_enums(*model);
                match first_untyped(ro.attributes) {
                    Some(i) => r matches Err(e) && attribute_schema_type(ro.attributes[i]) == Err::<
                        DataType,
                        Seq<char>,
                    >(e@),
                    None => match r {
                        Ok(s) => exists|used: Seq<Seq<char>>, used_enums: Seq<Seq<char>>|
                            #[trigger] discovered(ro, objs, es, used, used_enums) && closed(
                                ro,
                                objs,
                                used,
                                used_enums,
                            ) && (forall|k: int|
                                0 <= k < used.len() ==> closed(
                                    object_named(objs, #[trigger] used[k]),
                                    objs,
                                    used,
                                    used_enums,
                                )) && json_schema_matches(
                                s,
                                ro,
                                objs,
                                es,
                                used,
                                used_enums,
                                model.config,
                                openai,
                            ),
                        Err(e) => (exists|d: Seq<char>|
                            #[trigger] reachable(ro, objs, d) && unknown_type(d, objs, es) && e@
                                == not_found_message(d)) || (exists|n: Seq<char>|
                            #[trigger] reachable(ro, objs, n) && find_object(objs, n) is Some
                                && untyped_error(object_named(objs, n), e@)),
                    },
                }
            },
        },
{
    let ghost objs = model_objects(*model);
    let ghost es = model_enums(*model);
    let ri = match object_index(&model.objects, root) {
        Some(i) => i,
        None => {
            let mut e = String::from_str("Object ");
            e.append(root);
            e.append(" not found");
            return Err(e);
        },
    };
    proof {
        lemma_find_object(objs, root@);
    }
    let root_object = &model.objects[ri];
    let ghost ro = objs[ri as int];
    assert(root_object@ == ro);
    let mut schema_object = match schema_object_from_object(root_object) {
        Ok(s) => s,
        Err(e) => return Err(e),
    };
    let mut used_types: Vec<String> = Vec::new();
    let mut used_enums: Vec<String> = Vec::new();
    proof {
        assert(text::strings_view(used_types@) =~= Seq::<Seq<char>>::empty());
        assert(text::strings_view(used_enums@) =~= Seq::<Seq<char>>::empty());
    }
    let res = collect_definitions(root_object, model, &mut used_types, &mut used_enums, Ghost(ro));
    let ghost u = text::strings_view(used_types@);
    let ghost ue = text::strings_view(used_enums@);
    match res {
        Ok(()) => {},
        Err(e) => {
            proof {
                let d = choose|d: Seq<char>| reached(ro, objs, u, d) && unknown_type(d, objs, es) && e@ == not_found_message(d);
                assert(reachable(ro, objs, d));
            }
            return Err(e);
        },
    }
    proof {
        assert forall|k: int| 0 <= k < used_types@.len() implies attributes_writable(
            object_named(objs, #[trigger] u[k]).attributes,
        ) by {
            lemma_reached_grows(ro, objs, u.take(k), u, u[k]);
            assert(reachable(ro, objs, u[k]));
        }
    }
    let defs = match object_definitions(model, &used_types, Ghost(ro)) {
        Ok(d) => d,
        Err(e) => {
            proof {
                let k = choose|k: int| 0 <= k < used_types@.len() && match first_untyped(
                    object_named(objs, #[trigger] u[k]).attributes,
                ) {
                    Some(i) => attribute_schema_type(object_named(objs, u[k]).attributes[i]) == Err::<
                        DataType,
                        Seq<char>,
                    >(e@),
                    None => false,
                };
                lemma_reached_grows(ro, objs, u.take(k), u, u[k]);
                assert(reachable(ro, objs, u[k]));
            }
            return Err(e);
        },
    };
    let mut defs = defs;
    enum_definitions(model, &mut defs, &used_types, &used_enums, Ghost(ro));
    let no_options = model.config.is_some() && openai;
    let empty: Option<Vec<(String, String)>> = None;
    let prefixes = match &model.config {
        Some(c) => &c.prefixes,
        None => &empty,
    };
    let defs = post_process_definitions(defs, prefixes, no_options, Ghost(objs), Ghost(es), Ghost(u + ue));
    let mut root_schema = post_process_object(schema_object, prefixes, no_options, Ghost(ro));
    root_schema.schema = Some(String::from_str("https://json-schema.org/draft/2020-12/schema"));
    root_schema.definitions = defs;
    root_schema.id = match &model.config {
        Some(c) => Some(c.repo.clone()),
        None => None,
    };
    proof {
        reveal_strlit("https://json-schema.org/draft/2020-12/schema");
        assert(discovered(ro, objs, es, u, ue));
    }
    Ok(root_schema)
}

} // verus!
