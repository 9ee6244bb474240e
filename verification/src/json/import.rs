//! How parts of a JSON schema become parts of a model: type references and
//! enumerations.

use vstd::prelude::*;
use vstd::string::*;
use crate::json::schema::{self, EnumObject, Item};
use crate::attribute::{AttrOption, Attribute, AttributeView};
use crate::datamodel::DataModel;
use crate::exporters;
use crate::json::export::{self, PrimitiveType, PrimitiveValue, Property, SchemaObject, SchemaType};
use crate::json::schema::DataType;
use crate::object::{self, Enumeration, Mappings, Object, ObjectView};
use crate::text;

verus! {

/// The last segment of a reference, after its last `/`.
pub open spec fn reference_name(r: Seq<char>) -> Seq<char> {
    match text::last_index_of(r, '/') {
        Some(k) => r.skip(k + 1),
        None => r,
    }
}

/// Extracts the type name from a reference such as `#/$defs/Test`: the
/// part after the last `/`. An empty name is refused with
/// `Invalid reference format`.
pub fn extract_reference(reference: String) -> (r: Result<String, String>)
    ensures
        match r {
            Ok(name) => reference_name(reference@).len() > 0 && name@ == reference_name(
                reference@,
            ),
            Err(e) => reference_name(reference@).len() == 0 && e@ == "Invalid reference format"@,
        },
{
    let cs = text::chars_of(reference.as_str());
    let n = cs.len();
    let last = match text::rfind_char(&cs, '/') {
        Some(k) => text::sub_chars(&cs, k + 1, n),
        None => cs,
    };
    if last.len() > 0 {
        Ok(text::string_of(&last))
    } else {
        Err(String::from_str("Invalid reference format"))
    }
}

/// A valid identifier key: not empty, starting with a letter or `_`, and
/// made of alphanumeric characters and `_`.
pub open spec fn valid_key(s: Seq<char>) -> bool {
    &&& s.len() > 0
    &&& (text::alphabetic(s[0]) || s[0] == '_')
    &&& forall|i: int| 0 <= i < s.len() ==> text::alphanumeric(#[trigger] s[i]) || s[i] == '_'
}

/// On ASCII text, a valid key: an ASCII letter or underscore first, then
/// ASCII letters, digits and underscores.
pub open spec fn ascii_key(s: Seq<char>) -> bool {
    &&& s.len() > 0
    &&& text::ascii_letter(s[0]) || s[0] == '_'
    &&& forall|i: int| 0 <= i < s.len() ==> text::ascii_letter(#[trigger] s[i]) || text::ascii_digit(s[i]) || s[i] == '_'
}

/// Checks if a string is a valid identifier key (see [`valid_key`]).
pub fn is_valid_key(s: &str) -> (r: bool)
    ensures
        r == valid_key(s@),
        text::all_ascii(s@) ==> (r <==> ascii_key(s@)),
{
    let cs = text::chars_of(s);
    if cs.len() == 0 {
        return false;
    }
    if !text::is_alphabetic(cs[0]) && cs[0] != '_' {
        return false;
    }
    let mut i: usize = 0;
    while i < cs.len()
        invariant
            i <= cs@.len(),
            cs@ == s@,
            s@.len() > 0,
            text::all_ascii(s@) ==> (text::ascii_letter(s@[0]) || s@[0] == '_'),
            forall|j: int| 0 <= j < i ==> text::alphanumeric(#[trigger] s@[j]) || s@[j] == '_',
            text::all_ascii(s@) ==> forall|j: int| 0 <= j < i ==> text::ascii_letter(#[trigger] s@[j])
                || text::ascii_digit(s@[j]) || s@[j] == '_',
        decreases cs.len() - i,
    {
        let alnum = text::is_alphanumeric(cs[i]);
        if !alnum && cs[i] != '_' {
            assert(!(text::alphanumeric(s@[i as int]) || s@[i as int] == '_'));
            return false;
        }
        i = i + 1;
    }
    true
}

/// The key an enumeration value gets: the value itself where it is a valid
/// key, otherwise `VALUE_` and its position.
pub open spec fn enum_key(value: Seq<char>, i: nat) -> Seq<char> {
    if valid_key(value) {
        value
    } else {
        "VALUE_"@ + text::decimal(i)
    }
}

/// The mappings of the first `k` values, each inserted under its key (a
/// later value with the same key replaces an earlier one).
pub open spec fn enum_mappings_upto(values: Seq<Seq<char>>, k: int) -> Seq<
    (Seq<char>, Seq<char>),
>
    decreases k,
{
    if k <= 0 {
        Seq::empty()
    } else {
        object::spec_map_insert(
            enum_mappings_upto(values, k - 1),
            enum_key(values[k - 1], (k - 1) as nat),
            values[k - 1],
        )
    }
}

/// The mappings of an enumeration read from a JSON schema: every value
/// under its key (see [`enum_key`]).
pub fn enum_mappings(values: &Vec<String>) -> (r: Mappings)
    ensures
        r@ == enum_mappings_upto(text::strings_view(values@), values@.len() as int),
{
    let ghost vs = text::strings_view(values@);
    let mut m = Mappings::new();
    let mut i: usize = 0;
    while i < values.len()
        invariant
            i <= values@.len(),
            vs == text::strings_view(values@),
            m@ == enum_mappings_upto(vs, i as int),
        decreases values.len() - i,
    {
        let value = &values[i];
        let key = if is_valid_key(value.as_str()) {
            value.clone()
        } else {
            let mut k = String::from_str("VALUE_");
            let d = text::decimal_chars(i as u64);
            k.append(text::string_of(&d).as_str());
            k
        };
        let v = value.clone();
        assert(key@ == enum_key(vs[i as int], i as nat));
        assert(v@ == vs[i as int]);
        m.insert(key, v);
        i = i + 1;
    }
    m
}

/// Converts an enumeration of a JSON schema: its title names it, its
/// description documents it, and its values become its mappings.
pub fn enumeration_from_enum_object(enum_obj: &EnumObject) -> (r: Enumeration)
    ensures
        r.name@ == enum_obj.title@,
        r.docstring@ == match enum_obj.description {
            Some(d) => d@,
            None => Seq::<char>::empty(),
        },
        r.position is None,
        r.mappings@ == enum_mappings_upto(
            text::strings_view(enum_obj.enum_values@),
            enum_obj.enum_values@.len() as int,
        ),
{
    let mappings = enum_mappings(&enum_obj.enum_values);
    let docstring = match &enum_obj.description {
        Some(d) => d.clone(),
        None => String::new(),
    };
    Enumeration { name: enum_obj.title.clone(), mappings, docstring, position: None }
}

// ---------------------------------------------------------------------------
// Properties, objects and schemas
// ---------------------------------------------------------------------------

/// The names a schema item gives: a reference, the name of a type, or the
/// names of each alternative in turn.
pub open spec fn item_names(item: Item) -> Seq<Seq<char>>
    decreases item,
{
    match item {
        Item::ReferenceItem(r) => seq![r.reference@],
        Item::DataTypeItem(t) => seq![schema::schema_type_name(t.dtype)],
        Item::OneOfItem(o) => items_names(o.one_of@),
    }
}

/// The names of the items in turn.
pub open spec fn items_names(items: Seq<Item>) -> Seq<Seq<char>>
    decreases items,
{
    if items.len() == 0 {
        Seq::empty()
    } else {
        item_names(items[0]) + items_names(items.drop_first())
    }
}

/// Appends the names an item gives (see [`item_names`]).
fn push_item_names(item: &Item, out: &mut Vec<String>)
    ensures
        text::strings_view(final(out)@) == text::strings_view(old(out)@) + item_names(*item),
    decreases item,
{
    match item {
        Item::ReferenceItem(r) => {
            let ghost before = text::strings_view(out@);
            out.push(r.reference.clone());
            assert(text::strings_view(out@) =~= before + seq![r.reference@]);
        },
        Item::DataTypeItem(t) => {
            let ghost before = text::strings_view(out@);
            out.push(t.dtype.name());
            assert(text::strings_view(out@) =~= before + seq![schema::schema_type_name(t.dtype)]);
        },
        Item::OneOfItem(o) => {
            let ghost start = text::strings_view(out@);
            let ghost all = o.one_of@;
            let mut i: usize = 0;
            assert(all.skip(0) =~= all);
            assert(start + Seq::<Seq<char>>::empty() =~= start);
            while i < o.one_of.len()
                invariant
                    i <= all.len(),
                    all == o.one_of@,
                    *item == Item::OneOfItem(*o),
                    item_names(*item) == items_names(all),
                    start + items_names(all) == text::strings_view(out@) + items_names(all.skip(i as int)),
                decreases all.len() - i,
            {
                let ghost before = text::strings_view(out@);
                assert(all.skip(i as int)[0] == all[i as int]);
                assert(all.skip(i as int).drop_first() =~= all.skip(i + 1));
                assert(decreases_to!(*item => (*item)->OneOfItem_0));
                assert(decreases_to!(*o => o.one_of));
                assert(decreases_to!(o.one_of => o.one_of@));
                assert(decreases_to!(o.one_of@ => o.one_of@[i as int]));
                assert(decreases_to!(*item => o.one_of@[i as int]));
                push_item_names(&o.one_of[i], out);
                assert(before + (item_names(all[i as int]) + items_names(all.skip(i + 1))) =~= (
                before + item_names(all[i as int])) + items_names(all.skip(i + 1)));
                i = i + 1;
            }
            assert(all.skip(i as int) =~= Seq::<Item>::empty());
            assert(text::strings_view(out@) + Seq::<Seq<char>>::empty() =~= text::strings_view(out@));
        },
    }
}

/// The names a property gives for its types, in turn: those of its items
/// for an array (else the name of its type), its reference, and those of
/// its alternatives.
pub open spec fn property_names(p: Property) -> Seq<Seq<char>> {
    let first = if p.dtype == Some(DataType::Array) {
        match p.items {
            Some(it) => item_names(it),
            None => Seq::empty(),
        }
    } else {
        match p.dtype {
            Some(d) => seq![schema::schema_type_name(d)],
            None => Seq::empty(),
        }
    };
    let reference = match p.reference {
        Some(r) => seq![r@],
        None => Seq::empty(),
    };
    let alternatives = match p.one_of {
        Some(v) => items_names(v@),
        None => Seq::empty(),
    };
    first + reference + alternatives
}

/// Every name has a non-empty last segment.
pub open spec fn names_valid(names: Seq<Seq<char>>) -> bool {
    forall|i: int| 0 <= i < names.len() ==> reference_name(#[trigger] names[i]).len() > 0
}

/// The types of the names: each last segment once, in the order first
/// met, leaving out `object` and `array`.
pub open spec fn kept_types(names: Seq<Seq<char>>) -> Seq<Seq<char>>
    decreases names.len(),
{
    if names.len() == 0 {
        Seq::empty()
    } else {
        let k = kept_types(names.drop_last());
        let n = reference_name(names.last());
        if k.contains(n) || n == "object"@ || n == "array"@ {
            k
        } else {
            k.push(n)
        }
    }
}

/// The text of an option's value.
pub open spec fn option_text(v: PrimitiveValue) -> Seq<char> {
    match v {
        PrimitiveValue::Text(s) => s,
        PrimitiveValue::Number(t) => t,
        PrimitiveValue::Integer(i) => exporters::int_text(i as int),
        PrimitiveValue::Boolean(b) => if b {
            "true"@
        } else {
            "false"@
        },
    }
}

/// The options of a property as options of an attribute.
pub open spec fn options_of(opts: Seq<(String, PrimitiveType)>) -> Seq<(Seq<char>, Seq<char>)> {
    opts.map_values(|o: (String, PrimitiveType)| (o.0@, option_text(o.1@)))
}

/// The attribute read from a property: named by its title, an array where
/// its type is, typed by [`kept_types`], documented by its description, with
/// its options and term; nothing else is set.
pub open spec fn attribute_of_property(p: Property) -> AttributeView {
    AttributeView {
        name: p.title@,
        is_array: p.dtype == Some(DataType::Array),
        is_id: false,
        dtypes: kept_types(property_names(p)),
        docstring: match p.description {
            Some(d) => d@,
            None => Seq::empty(),
        },
        options: options_of(p.options@),
        term: export::opt_view(p.term),
        required: false,
        default: None,
        xml: None,
        is_enum: false,
        position: None,
    }
}

fn value_text(v: &PrimitiveType) -> (r: String)
    ensures
        r@ == option_text(v@),
{
    match v {
        PrimitiveType::String(s) => s.clone(),
        PrimitiveType::Number(t) => t.clone(),
        PrimitiveType::Integer(i) => exporters::i64_text(*i),
        PrimitiveType::Boolean(b) => if *b {
            String::from_str("true")
        } else {
            String::from_str("false")
        },
    }
}

fn contains_name(v: &Vec<String>, x: &String) -> (r: bool)
    ensures
        r == text::strings_view(v@).contains(x@),
{
    crate::validation::contains_string(v, x)
}

/// Reads an attribute from a property (see [`attribute_of_property`]);
/// refused with `Invalid reference format` where a name it gives has an
/// empty last segment.
pub fn attribute_from_property(p: &Property) -> (r: Result<Attribute, String>)
    ensures
        match r {
            Ok(a) => names_valid(property_names(*p)) && a@ == attribute_of_property(*p),
            Err(e) => !names_valid(property_names(*p)) && e@ == "Invalid reference format"@,
        },
{
    let is_array = p.dtype == Some(DataType::Array);
    let mut names: Vec<String> = Vec::new();
    if is_array {
        match &p.items {
            Some(it) => push_item_names(it, &mut names),
            None => {},
        }
    } else {
        match &p.dtype {
            Some(d) => {
                names.push(d.name());
            },
            None => {},
        }
    }
    match &p.reference {
        Some(r) => {
            names.push(r.clone());
        },
        None => {},
    }
    match &p.one_of {
        Some(v) => {
            let mut i: usize = 0;
            let ghost start = text::strings_view(names@);
            let ghost all = v@;
            assert(all.skip(0) =~= all);
            assert(start + Seq::<Seq<char>>::empty() =~= start);
            while i < v.len()
                invariant
                    i <= all.len(),
                    all == v@,
                    start + items_names(all) == text::strings_view(names@) + items_names(all.skip(i as int)),
                decreases all.len() - i,
            {
                let ghost before = text::strings_view(names@);
                assert(all.skip(i as int)[0] == all[i as int]);
                assert(all.skip(i as int).drop_first() =~= all.skip(i + 1));
                push_item_names(&v[i], &mut names);
                assert(before + (item_names(all[i as int]) + items_names(all.skip(i + 1))) =~= (
                before + item_names(all[i as int])) + items_names(all.skip(i + 1)));
                i = i + 1;
            }
            assert(all.skip(i as int) =~= Seq::<Item>::empty());
        },
        None => {},
    }
    let ghost ns = text::strings_view(names@);
    assert(ns =~= property_names(*p));
    let mut dtypes: Vec<String> = Vec::new();
    let mut i: usize = 0;
    assert(ns.take(0) =~= Seq::<Seq<char>>::empty());
    while i < names.len()
        invariant
            i <= names@.len(),
            ns == text::strings_view(names@),
            ns == property_names(*p),
            names_valid(ns.take(i as int)),
            text::strings_view(dtypes@) == kept_types(ns.take(i as int)),
        decreases names.len() - i,
    {
        assert(ns.take(i + 1).drop_last() =~= ns.take(i as int));
        assert(ns.take(i + 1).last() == ns[i as int]);
        let n = match extract_reference(names[i].clone()) {
            Ok(n) => n,
            Err(e) => {
                assert(!names_valid(ns)) by {
                    assert(reference_name(ns[i as int]).len() == 0);
                }
                return Err(e);
            },
        };
        if !contains_name(&dtypes, &n) && !text::str_eq(n.as_str(), "object") && !text::str_eq(
            n.as_str(),
            "array",
        ) {
            let ghost before = text::strings_view(dtypes@);
            dtypes.push(n);
            assert(text::strings_view(dtypes@) =~= before.push(reference_name(ns[i as int])));
        }
        i = i + 1;
        assert(names_valid(ns.take(i as int))) by {
            assert forall|k: int| 0 <= k < i implies reference_name(#[trigger] ns.take(i as int)[k]).len() > 0 by {
                if k < i - 1 {
                    assert(ns.take(i as int)[k] == ns.take(i - 1)[k]);
                }
            }
        }
    }
    assert(ns.take(i as int) =~= ns);
    let mut options: Vec<AttrOption> = Vec::new();
    let mut j: usize = 0;
    while j < p.options.len()
        invariant
            j <= p.options@.len(),
            options@.map_values(|o: AttrOption| o@) == options_of(p.options@.take(j as int)),
        decreases p.options.len() - j,
    {
        let ghost before = options@.map_values(|o: AttrOption| o@);
        let o = AttrOption { key: p.options[j].0.clone(), value: value_text(&p.options[j].1) };
        options.push(o);
        assert(options@.map_values(|o: AttrOption| o@) =~= before.push((p.options@[j as int].0@, option_text(p.options@[j as int].1@))));
        assert(options_of(p.options@.take(j + 1)) =~= options_of(p.options@.take(j as int)).push((p.options@[j as int].0@, option_text(p.options@[j as int].1@))));
        j = j + 1;
    }
    assert(p.options@.take(j as int) =~= p.options@);
    let a = Attribute {
        name: p.title.clone(),
        is_array,
        is_id: false,
        dtypes,
        docstring: match &p.description {
            Some(d) => d.clone(),
            None => String::new(),
        },
        options,
        term: match &p.term {
            Some(t) => Some(t.clone()),
            None => None,
        },
        required: false,
        default: None,
        xml: None,
        is_enum: false,
        position: None,
    };
    assert(a@.dtypes =~= kept_types(property_names(*p)));
    Ok(a)
}

/// The attributes read from the properties, each named by its key.
pub open spec fn attributes_of(props: Seq<(String, Property)>) -> Seq<AttributeView> {
    props.map_values(|e: (String, Property)| AttributeView { name: e.0@, ..attribute_of_property(e.1) })
}

/// The properties can all be read.
pub open spec fn properties_valid(props: Seq<(String, Property)>) -> bool {
    forall|i: int| 0 <= i < props.len() ==> names_valid(property_names(#[trigger] props[i].1))
}

/// The attributes with the first attribute of each required name marked
/// required.
pub open spec fn mark_required(attrs: Seq<AttributeView>, required: Seq<Seq<char>>) -> Seq<AttributeView> {
    Seq::new(
        attrs.len(),
        |i: int|
            AttributeView {
                required: attrs[i].required || (required.contains(attrs[i].name) && forall|j: int|
                    0 <= j < i ==> #[trigger] attrs[j].name != attrs[i].name),
                ..attrs[i]
            },
    )
}

/// The object read from a schema object: named by its title, documented by
/// its description, with an attribute for each property, the required ones
/// marked.
pub open spec fn object_of_schema(so: SchemaObject) -> ObjectView {
    ObjectView {
        name: so.title@,
        attributes: mark_required(attributes_of(so.properties@), text::strings_view(so.required@)),
        docstring: match so.description {
            Some(d) => d@,
            None => Seq::empty(),
        },
        term: None,
        mixins: Seq::empty(),
        parent: None,
        position: None,
    }
}

/// The attributes with the first one named `n` marked required.
pub open spec fn marked(attrs: Seq<AttributeView>, n: Seq<char>) -> Seq<AttributeView> {
    Seq::new(
        attrs.len(),
        |i: int|
            AttributeView {
                required: attrs[i].required || (attrs[i].name == n && forall|j: int|
                    0 <= j < i ==> #[trigger] attrs[j].name != n),
                ..attrs[i]
            },
    )
}

/// Marking one more required name marks the first attribute of that name.
proof fn lemma_mark_step(attrs: Seq<AttributeView>, req: Seq<Seq<char>>, k: int)
    requires
        0 <= k < req.len(),
    ensures
        mark_required(attrs, req.take(k + 1)) == marked(mark_required(attrs, req.take(k)), req[k]),
{
    let before = mark_required(attrs, req.take(k));
    let lhs = mark_required(attrs, req.take(k + 1));
    let rhs = marked(before, req[k]);
    assert forall|x: int| 0 <= x < attrs.len() implies #[trigger] lhs[x] == rhs[x] by {
        assert(before[x].name == attrs[x].name);
        assert((forall|j: int| 0 <= j < x ==> #[trigger] attrs[j].name != attrs[x].name) <==> (forall|j: int|
            0 <= j < x ==> #[trigger] before[j].name != attrs[x].name)) by {
            assert forall|j: int| 0 <= j < x implies before[j].name == attrs[j].name by {}
        }
        if req.take(k + 1).contains(attrs[x].name) {
            let y = choose|y: int| 0 <= y < k + 1 && #[trigger] req.take(k + 1)[y] == attrs[x].name;
            if y < k {
                assert(req.take(k)[y] == attrs[x].name);
            }
        }
        if req.take(k).contains(attrs[x].name) {
            let y = choose|y: int| 0 <= y < k && #[trigger] req.take(k)[y] == attrs[x].name;
            assert(req.take(k + 1)[y] == attrs[x].name);
        }
        if attrs[x].name == req[k] {
            assert(req.take(k + 1)[k] == attrs[x].name);
        }
    }
    assert(lhs =~= rhs);
}

/// Marks the first attribute named `name` as required (see [`marked`]).
fn mark_first(attrs: Vec<Attribute>, name: &String) -> (r: Vec<Attribute>)
    ensures
        object::attrs_view(r@) == marked(object::attrs_view(attrs@), name@),
        r@.len() == attrs@.len(),
{
    let ghost all = object::attrs_view(attrs@);
    let ghost target = marked(all, name@);
    let mut rest = attrs;
    let mut out: Vec<Attribute> = Vec::new();
    let mut found = false;
    while rest.len() > 0
        invariant
            out@.len() + rest@.len() == all.len(),
            object::attrs_view(rest@) == all.skip(out@.len() as int),
            target == marked(all, name@),
            object::attrs_view(out@) == target.take(out@.len() as int),
            found == exists|j: int| 0 <= j < out@.len() && #[trigger] all[j].name == name@,
        decreases rest@.len(),
    {
        let ghost m: int = out@.len() as int;
        let ghost rb = object::attrs_view(rest@);
        let ghost ob = object::attrs_view(out@);
        let mut a = rest.remove(0);
        assert(rb[0] == all[m]);
        assert(a@ == all[m]);
        assert(object::attrs_view(rest@) =~= all.skip(m + 1)) by {
            assert(rb.drop_first() =~= all.skip(m + 1));
        }
        let is_first = !found && text::str_eq(a.name.as_str(), name.as_str());
        if is_first {
            a.required = true;
            found = true;
        }
        proof {
            if !found || is_first {
                assert forall|j: int| 0 <= j < m implies #[trigger] all[j].name != name@ by {}
            }
            if found && !is_first {
                let j0 = choose|j: int| 0 <= j < m && #[trigger] all[j].name == name@;
                assert(!(forall|j: int| 0 <= j < m ==> #[trigger] all[j].name != name@));
            }
            assert(a@ == target[m]);
        }
        out.push(a);
        assert(object::attrs_view(out@) =~= target.take(m + 1)) by {
            assert(object::attrs_view(out@) =~= ob.push(a@));
        }
        assert(found == exists|j: int| 0 <= j < m + 1 && #[trigger] all[j].name == name@) by {
            if found {
                if is_first {
                    assert(all[m].name == name@);
                }
            }
        }
    }
    assert(target.take(out@.len() as int) =~= target);
    out
}

/// Reads an object from a schema object (see [`object_of_schema`]); refused
/// with `Invalid reference format` where a property cannot be read.
pub fn object_from_schema_object(so: &SchemaObject) -> (r: Result<Object, String>)
    ensures
        match r {
            Ok(o) => properties_valid(so.properties@) && o@ == object_of_schema(*so),
            Err(e) => !properties_valid(so.properties@) && e@ == "Invalid reference format"@,
        },
{
    let mut attributes: Vec<Attribute> = Vec::new();
    let mut i: usize = 0;
    while i < so.properties.len()
        invariant
            i <= so.properties@.len(),
            properties_valid(so.properties@.take(i as int)),
            object::attrs_view(attributes@) == attributes_of(so.properties@.take(i as int)),
        decreases so.properties.len() - i,
    {
        let ghost before = object::attrs_view(attributes@);
        let mut a = match attribute_from_property(&so.properties[i].1) {
            Ok(a) => a,
            Err(e) => {
                assert(!properties_valid(so.properties@)) by {
                    assert(!names_valid(property_names(so.properties@[i as int].1)));
                }
                return Err(e);
            },
        };
        a.name = so.properties[i].0.clone();
        assert(a@ == AttributeView { name: so.properties@[i as int].0@, ..attribute_of_property(so.properties@[i as int].1) });
        attributes.push(a);
        assert(object::attrs_view(attributes@) =~= before.push(a@));
        assert(attributes_of(so.properties@.take(i + 1)) =~= attributes_of(so.properties@.take(i as int)).push(a@));
        assert(properties_valid(so.properties@.take(i + 1))) by {
            assert forall|k: int| 0 <= k < i + 1 implies names_valid(
                property_names(#[trigger] so.properties@.take(i + 1)[k].1),
            ) by {
                if k < i {
                    assert(so.properties@.take(i + 1)[k] == so.properties@.take(i as int)[k]);
                }
            }
        }
        i = i + 1;
    }
    assert(so.properties@.take(i as int) =~= so.properties@);
    let ghost attrs0 = object::attrs_view(attributes@);
    let ghost req = text::strings_view(so.required@);
    let mut k: usize = 0;
    assert(mark_required(attrs0, req.take(0)) =~= attrs0);
    while k < so.required.len()
        invariant
            k <= so.required@.len(),
            req == text::strings_view(so.required@),
            attrs0 == attributes_of(so.properties@),
            properties_valid(so.properties@),
            attrs0.len() == attributes@.len(),
            object::attrs_view(attributes@) == mark_required(attrs0, req.take(k as int)),
        decreases so.required.len() - k,
    {
        proof {
            lemma_mark_step(attrs0, req, k as int);
        }
        attributes = mark_first(attributes, &so.required[k]);
        k = k + 1;
    }
    assert(req.take(k as int) =~= req);
    let o = Object {
        name: so.title.clone(),
        attributes,
        docstring: match &so.description {
            Some(d) => d.clone(),
            None => String::new(),
        },
        term: None,
        mixins: Vec::new(),
        parent: None,
        position: None,
    };
    assert(o@.mixins =~= Seq::<Seq<char>>::empty());
    assert(o@ == object_of_schema(*so));
    Ok(o)
}

/// The objects among the definitions, each named by its key.
pub open spec fn definition_objects(defs: Seq<(String, SchemaType)>) -> Seq<ObjectView>
    decreases defs.len(),
{
    if defs.len() == 0 {
        Seq::empty()
    } else {
        let rest = definition_objects(defs.drop_last());
        match defs.last().1 {
            SchemaType::Object(o) => rest.push(ObjectView { name: defs.last().0@, ..object_of_schema(o) }),
            SchemaType::Enum(_) => rest,
        }
    }
}

/// The enumerations among the definitions, each named by its key.
pub open spec fn definition_enums(defs: Seq<(String, SchemaType)>) -> Seq<object::EnumView>
    decreases defs.len(),
{
    if defs.len() == 0 {
        Seq::empty()
    } else {
        let rest = definition_enums(defs.drop_last());
        match defs.last().1 {
            SchemaType::Object(_) => rest,
            SchemaType::Enum(e) => rest.push(
                object::EnumView {
                    name: defs.last().0@,
                    mappings: enum_mappings_upto(
                        text::strings_view(e.enum_values@),
                        e.enum_values@.len() as int,
                    ),
                    docstring: match e.description {
                        Some(d) => d@,
                        None => Seq::empty(),
                    },
                    position: None,
                },
            ),
        }
    }
}

/// Every object among the definitions can be read.
pub open spec fn definitions_valid(defs: Seq<(String, SchemaType)>) -> bool {
    forall|i: int|
        0 <= i < defs.len() ==> match (#[trigger] defs[i]).1 {
            SchemaType::Object(o) => properties_valid(o.properties@),
            SchemaType::Enum(_) => true,
        }
}

/// Reads a data model from a JSON schema: the root object first, then the
/// objects and enumerations of its definitions, named by their keys; the
/// model is named by the schema's title. Refused with `Invalid reference
/// format` where a property cannot be read.
pub fn model_from_schema(so: &SchemaObject) -> (r: Result<DataModel, String>)
    ensures
        match r {
            Ok(m) => properties_valid(so.properties@) && definitions_valid(so.definitions@)
                && object::objects_view(m.objects@) == seq![object_of_schema(*so)] + definition_objects(
                so.definitions@,
            ) && object::enums_view(m.enums@) == definition_enums(so.definitions@)
                && text::opt_string_view(m.name) == Some(so.title@) && m.config is None,
            Err(e) => !(properties_valid(so.properties@) && definitions_valid(so.definitions@)) && e@
                == "Invalid reference format"@,
        },
{
    let root = match object_from_schema_object(so) {
        Ok(o) => o,
        Err(e) => return Err(e),
    };
    let mut objects: Vec<Object> = Vec::new();
    objects.push(root);
    let mut enums: Vec<Enumeration> = Vec::new();
    let ghost defs = so.definitions@;
    let mut i: usize = 0;
    assert(defs.take(0) =~= Seq::<(String, SchemaType)>::empty());
    assert(object::objects_view(objects@) =~= seq![object_of_schema(*so)] + definition_objects(defs.take(0)));
    assert(object::enums_view(enums@) =~= definition_enums(defs.take(0)));
    while i < so.definitions.len()
        invariant
            i <= defs.len(),
            defs == so.definitions@,
            properties_valid(so.properties@),
            definitions_valid(defs.take(i as int)),
            object::objects_view(objects@) == seq![object_of_schema(*so)] + definition_objects(defs.take(i as int)),
            object::enums_view(enums@) == definition_enums(defs.take(i as int)),
        decreases defs.len() - i,
    {
        assert(defs.take(i + 1).drop_last() =~= defs.take(i as int));
        assert(defs.take(i + 1).last() == defs[i as int]);
        let (name, d) = (&so.definitions[i].0, &so.definitions[i].1);
        match d {
            SchemaType::Object(o) => {
                let mut obj = match object_from_schema_object(o) {
                    Ok(obj) => obj,
                    Err(e) => {
                        assert(!definitions_valid(defs)) by {
                            assert(match defs[i as int].1 {
                                SchemaType::Object(o) => !properties_valid(o.properties@),
                                SchemaType::Enum(_) => false,
                            });
                        }
                        return Err(e);
                    },
                };
                obj.name = name.clone();
                let ghost ob = object::objects_view(objects@);
                objects.push(obj);
                assert(object::objects_view(objects@) =~= ob.push(obj@));
            },
            SchemaType::Enum(e) => {
                let mut en = enumeration_from_enum_object(e);
                en.name = name.clone();
                let ghost eb = object::enums_view(enums@);
                enums.push(en);
                assert(object::enums_view(enums@) =~= eb.push(object::enum_view(en)));
            },
        }
        assert(definitions_valid(defs.take(i + 1))) by {
            assert forall|k: int| 0 <= k < i + 1 implies match (#[trigger] defs.take(i + 1)[k]).1 {
                SchemaType::Object(o) => properties_valid(o.properties@),
                SchemaType::Enum(_) => true,
            } by {
                if k < i {
                    assert(defs.take(i + 1)[k] == defs.take(i as int)[k]);
                }
            }
        }
        i = i + 1;
    }
    assert(defs.take(i as int) =~= defs);
    Ok(DataModel { name: Some(so.title.clone()), objects, enums, config: None })
}

// ---------------------------------------------------------------------------
// Laws between writing and reading schemas
// ---------------------------------------------------------------------------

/// Where the text after `prefix` has no `c`, the last `c` of the whole is
/// the last one of the prefix.
proof fn lemma_last_index_suffix(prefix: Seq<char>, rest: Seq<char>, c: char)
    requires
        !rest.contains(c),
    ensures
        text::last_index_of(prefix + rest, c) == text::last_index_of(prefix, c),
    decreases rest.len(),
{
    if rest.len() > 0 {
        assert((prefix + rest).last() == rest.last());
        assert((prefix + rest).drop_last() =~= prefix + rest.drop_last());
        assert(!rest.drop_last().contains(c)) by {
            if rest.drop_last().contains(c) {
                let i = choose|i: int| 0 <= i < rest.drop_last().len() && rest.drop_last()[i] == c;
                assert(rest[i] == c);
            }
        }
        assert(rest[rest.len() - 1] != c);
        lemma_last_index_suffix(prefix, rest.drop_last(), c);
    } else {
        assert(prefix + rest =~= prefix);
    }
}

/// A reference written for a type reads back as that type: the reference
/// `#/$defs/name` that a schema writes for a type name without `/` names
/// that type again when read.
pub proof fn law_reference_round_trip(name: Seq<char>)
    requires
        !name.contains('/'),
    ensures
        reference_name(export::definition_ref(name)) == name,
{
    let p = "#/$defs/"@;
    reveal_strlit("#/$defs/");
    lemma_last_index_suffix(p, name, '/');
    assert(text::last_index_of(p, '/') == Some(7int)) by {
        assert(p.last() == '/');
    }
    assert((p + name).skip(8) =~= name);
}

/// An option's value keeps its text when it is written to a schema and read
/// back, unless the text reads as an integer that is not a number: a
/// number, `true`, `false` or any other text comes back as it was.
pub proof fn law_option_text_round_trip(v: Seq<char>)
    requires
        !(export::option_value(v) is Integer),
    ensures
        option_text(export::option_value(v)) == v,
{
    reveal_strlit("true");
    reveal_strlit("false");
}

/// The types read from a property name each type once and never `object`
/// or `array`.
pub proof fn law_kept_types_distinct(names: Seq<Seq<char>>)
    ensures
        kept_types(names).no_duplicates(),
        !kept_types(names).contains("object"@),
        !kept_types(names).contains("array"@),
    decreases names.len(),
{
    if names.len() > 0 {
        law_kept_types_distinct(names.drop_last());
        let k = kept_types(names.drop_last());
        let n = reference_name(names.last());
        if !(k.contains(n) || n == "object"@ || n == "array"@) {
            assert forall|i: int, j: int| 0 <= i < j < k.push(n).len() implies k.push(n)[i] != k.push(n)[j] by {
                if j == k.len() {
                    assert(k[i] == k.push(n)[i]);
                }
            }
            assert(!k.push(n).contains("object"@)) by {
                if k.push(n).contains("object"@) {
                    let i = choose|i: int| 0 <= i < k.push(n).len() && k.push(n)[i] == "object"@;
                    if i < k.len() {
                        assert(k[i] == "object"@);
                    }
                }
            }
            assert(!k.push(n).contains("array"@)) by {
                if k.push(n).contains("array"@) {
                    let i = choose|i: int| 0 <= i < k.push(n).len() && k.push(n)[i] == "array"@;
                    if i < k.len() {
                        assert(k[i] == "array"@);
                    }
                }
            }
        }
    }
}

} // verus!
