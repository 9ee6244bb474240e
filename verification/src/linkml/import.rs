//! Reading a LinkML schema as a data model.

use vstd::prelude::*;
use crate::attribute::{AttrOption, Attribute, AttributeView};
use crate::linkml::export::{
    class_matches, class_rel, definition_rel, enum_rel, global_slots, lemma_class_without_slots, slot_keys_of,
    lemma_index_insert_fresh, linkml_matches, named_attributes, named_enums, named_objects, opt_view,
    related, root_of, schema_name, schema_prefix, schema_prefixes, value_view,
};
use crate::datamodel::DataModel;
use crate::frontmatter::FrontMatter;
use crate::linkml::schema::{
    attribute_entries, attribute_map_entries, class_entries, class_map_entries, enum_entries,
    enum_map_entries, keys_distinct, string_entries, string_map_entries, usage_entries,
    usage_map_entries, value_entries, value_map_entries, AttributeDefinition, ClassDefinition,
    EnumDefinition, LinkML, PermissibleValue, SlotUsage,
};
use crate::object::{self, Enumeration, Mappings, Object, ObjectView};
use crate::text;

verus! {

/// An optional string, the empty string where there is none.
pub open spec fn or_empty(o: Option<String>) -> Seq<char> {
    match o {
        Some(s) => s@,
        None => Seq::empty(),
    }
}

/// The attribute read from a LinkML definition under a name: its
/// description as docstring, its range (`string` where it has none) as its
/// one data type, its URI as term, and its multivalued, identifier and
/// required flags (off where unset); no options, default, XML form or
/// position.
pub open spec fn definition_attribute(d: AttributeDefinition, name: Seq<char>) -> AttributeView {
    AttributeView {
        name,
        is_array: d.multivalued == Some(true),
        is_id: d.identifier == Some(true),
        dtypes: seq![
            match d.range {
                Some(r) => r@,
                None => "string"@,
            },
        ],
        docstring: or_empty(d.description),
        options: Seq::empty(),
        term: opt_view(d.slot_uri),
        required: d.required == Some(true),
        default: None,
        xml: None,
        is_enum: false,
        position: None,
    }
}

/// Reads an attribute from a LinkML definition (see
/// [`definition_attribute`]); its name is left empty.
pub fn attribute_from_definition(d: &AttributeDefinition) -> (r: Attribute)
    ensures
        r@ == definition_attribute(*d, Seq::empty()),
{
    let dtype = match &d.range {
        Some(r) => r.clone(),
        None => String::from_str("string"),
    };
    let mut dtypes: Vec<String> = Vec::new();
    dtypes.push(dtype);
    let docstring = match &d.description {
        Some(s) => s.clone(),
        None => String::new(),
    };
    let term = match &d.slot_uri {
        Some(t) => Some(t.clone()),
        None => None,
    };
    let r = Attribute {
        name: String::new(),
        is_array: d.multivalued == Some(true),
        is_id: d.identifier == Some(true),
        dtypes,
        docstring,
        options: Vec::new(),
        term,
        required: d.required == Some(true),
        default: None,
        xml: None,
        is_enum: false,
        position: None,
    };
    assert(r@.dtypes =~= definition_attribute(*d, Seq::empty()).dtypes);
    assert(r@.options =~= Seq::<(Seq<char>, Seq<char>)>::empty());
    r
}

/// The patterns that the slot usages give for a name, in order.
pub open spec fn usage_patterns(usages: Seq<(Seq<char>, SlotUsage)>, name: Seq<char>) -> Seq<Seq<char>>
    decreases usages.len(),
{
    if usages.len() == 0 {
        Seq::empty()
    } else {
        let rest = usage_patterns(usages.drop_last(), name);
        match usages.last().1.pattern {
            Some(p) => if usages.last().0 == name {
                rest.push(p@)
            } else {
                rest
            },
            None => rest,
        }
    }
}

/// The slot usages of a class, none where it has none.
pub open spec fn class_usages(c: ClassDefinition) -> Seq<(Seq<char>, SlotUsage)> {
    match c.slot_usage {
        Some(m) => usage_entries(m),
        None => Seq::empty(),
    }
}

/// The attribute definitions of a class, none where it has none.
pub open spec fn class_definitions(c: ClassDefinition) -> Seq<(Seq<char>, AttributeDefinition)> {
    match c.attributes {
        Some(m) => attribute_entries(m),
        None => Seq::empty(),
    }
}

/// An attribute with a `pattern` option for each pattern.
pub open spec fn with_patterns(a: AttributeView, patterns: Seq<Seq<char>>) -> AttributeView {
    AttributeView { options: patterns.map_values(|p: Seq<char>| ("pattern"@, p)), ..a }
}

/// The attributes of a class: one for each of its definitions, in order,
/// under the definition's name, with a `pattern` option for each pattern
/// its slot usage gives that name.
pub open spec fn class_attributes(c: ClassDefinition) -> Seq<AttributeView> {
    let defs = class_definitions(c);
    Seq::new(
        defs.len(),
        |i: int|
            with_patterns(
                definition_attribute(defs[i].1, defs[i].0),
                usage_patterns(class_usages(c), defs[i].0),
            ),
    )
}

/// The object read from a LinkML class: its parent as name (empty where it
/// has none), its description as docstring, its URI as term and its
/// attributes (see [`class_attributes`]); no mixins, parent or position.
pub open spec fn class_object(c: ClassDefinition) -> ObjectView {
    ObjectView {
        name: or_empty(c.is_a),
        attributes: class_attributes(c),
        docstring: or_empty(c.description),
        term: opt_view(c.class_uri),
        mixins: Seq::empty(),
        parent: None,
        position: None,
    }
}

/// The first attribute with the name, if any.
fn find_attribute(attrs: &Vec<Attribute>, name: &str) -> (r: Option<usize>)
    ensures
        match r {
            Some(i) => i < attrs@.len() && attrs@[i as int].name@ == name@ && forall|j: int|
                0 <= j < i ==> (#[trigger] attrs@[j]).name@ != name@,
            None => forall|j: int| 0 <= j < attrs@.len() ==> (#[trigger] attrs@[j]).name@ != name@,
        },
{
    let mut i: usize = 0;
    while i < attrs.len()
        invariant
            i <= attrs@.len(),
            forall|j: int| 0 <= j < i ==> (#[trigger] attrs@[j]).name@ != name@,
        decreases attrs.len() - i,
    {
        if text::str_eq(attrs[i].name.as_str(), name) {
            return Some(i);
        }
        i = i + 1;
    }
    None
}

/// Reads an object from a LinkML class (see [`class_object`]).
pub fn object_from_class(class: ClassDefinition) -> (r: Object)
    ensures
        r@ == class_object(class),
{
    let ghost c = class;
    let ghost defs = class_definitions(c);
    let ghost usages = class_usages(c);
    let mut attributes: Vec<Attribute> = Vec::new();
    let entries: Vec<(String, AttributeDefinition)> = match class.attributes {
        Some(m) => attribute_map_entries(m),
        None => Vec::new(),
    };
    assert(entries@.map_values(|e: (String, AttributeDefinition)| (e.0@, e.1)) == defs);
    assert(keys_distinct(defs));
    let mut i: usize = 0;
    while i < entries.len()
        invariant
            i <= entries@.len(),
            entries@.map_values(|e: (String, AttributeDefinition)| (e.0@, e.1)) == defs,
            attributes@.len() == i,
            forall|k: int| 0 <= k < i ==> (#[trigger] attributes@[k])@ == definition_attribute(
                defs[k].1,
                defs[k].0,
            ),
        decreases entries.len() - i,
    {
        assert(defs[i as int] == (entries@[i as int].0@, entries@[i as int].1));
        let mut a = attribute_from_definition(&entries[i].1);
        a.name = entries[i].0.clone();
        attributes.push(a);
        i = i + 1;
    }
    let uses: Vec<(String, SlotUsage)> = match class.slot_usage {
        Some(m) => usage_map_entries(m),
        None => Vec::new(),
    };
    assert(uses@.map_values(|e: (String, SlotUsage)| (e.0@, e.1)) == usages);
    let mut j: usize = 0;
    assert(usages.take(0) =~= Seq::<(Seq<char>, SlotUsage)>::empty());
    assert forall|k: int| 0 <= k < defs.len() implies (#[trigger] attributes@[k])@ == with_patterns(
        definition_attribute(defs[k].1, defs[k].0),
        usage_patterns(usages.take(0), defs[k].0),
    ) by {
        assert(usage_patterns(usages.take(0), defs[k].0).map_values(|q: Seq<char>| ("pattern"@, q))
            =~= Seq::<(Seq<char>, Seq<char>)>::empty());
    }
    while j < uses.len()
        invariant
            j <= uses@.len(),
            uses@.map_values(|e: (String, SlotUsage)| (e.0@, e.1)) == usages,
            keys_distinct(defs),
            attributes@.len() == defs.len(),
            forall|k: int| 0 <= k < defs.len() ==> (#[trigger] attributes@[k])@ == with_patterns(
                definition_attribute(defs[k].1, defs[k].0),
                usage_patterns(usages.take(j as int), defs[k].0),
            ),
        decreases uses.len() - j,
    {
        assert(usages[j as int] == (uses@[j as int].0@, uses@[j as int].1));
        assert(usages.take(j + 1).drop_last() =~= usages.take(j as int));
        assert(usages.take(j + 1).last() == usages[j as int]);
        match &uses[j].1.pattern {
            Some(p) => {
                match find_attribute(&attributes, uses[j].0.as_str()) {
                    Some(idx) => {
                        let ghost before = attributes@;
                        let mut a = attributes.remove(idx);
                        let opt = AttrOption { key: String::from_str("pattern"), value: p.clone() };
                        let ghost ov = a@.options;
                        a.options.push(opt);
                        assert(a@.options =~= ov.push(("pattern"@, p@)));
                        attributes.insert(idx, a);
                        assert forall|k: int| 0 <= k < defs.len() implies (#[trigger] attributes@[k])@
                            == with_patterns(
                            definition_attribute(defs[k].1, defs[k].0),
                            usage_patterns(usages.take(j + 1), defs[k].0),
                        ) by {
                            assert(before[k]@.name == defs[k].0);
                            if k == idx {
                                assert(usage_patterns(usages.take(j as int), defs[k].0).push(p@).map_values(
                                    |q: Seq<char>| ("pattern"@, q),
                                ) =~= usage_patterns(usages.take(j as int), defs[k].0).map_values(
                                    |q: Seq<char>| ("pattern"@, q),
                                ).push(("pattern"@, p@)));
                            } else {
                                assert(before[idx as int]@.name == defs[idx as int].0);
                                if k < idx {
                                    assert(defs[k].0 != defs[idx as int].0);
                                } else {
                                    assert(defs[idx as int].0 != defs[k].0);
                                }
                            }
                        }
                    },
                    None => {
                        assert forall|k: int| 0 <= k < defs.len() implies (#[trigger] attributes@[k])@
                            == with_patterns(
                            definition_attribute(defs[k].1, defs[k].0),
                            usage_patterns(usages.take(j + 1), defs[k].0),
                        ) by {
                            assert(attributes@[k]@.name == defs[k].0);
                        }
                    },
                }
            },
            None => {},
        }
        j = j + 1;
    }
    assert(usages.take(j as int) =~= usages);
    let name = match class.is_a {
        Some(n) => n,
        None => String::new(),
    };
    let docstring = match class.description {
        Some(d) => d,
        None => String::new(),
    };
    let r = Object {
        name,
        attributes,
        docstring,
        term: class.class_uri,
        mixins: Vec::new(),
        parent: None,
        position: None,
    };
    assert(r@.attributes =~= class_attributes(c));
    assert(r@.mixins =~= Seq::<Seq<char>>::empty());
    r
}

/// The values of an enumeration by key: each meaning, the empty string
/// where there is none.
pub open spec fn meaning_pairs(s: Seq<(Seq<char>, PermissibleValue)>) -> Seq<(Seq<char>, Seq<char>)> {
    s.map_values(|x: (Seq<char>, PermissibleValue)| (x.0, or_empty(x.1.meaning)))
}

/// The pairs inserted in order into a map sorted by key.
pub open spec fn sorted_pairs(s: Seq<(Seq<char>, Seq<char>)>) -> Seq<(Seq<char>, Seq<char>)>
    decreases s.len(),
{
    if s.len() == 0 {
        Seq::empty()
    } else {
        object::spec_map_insert(sorted_pairs(s.drop_last()), s.last().0, s.last().1)
    }
}

/// The mappings read from a LinkML enumeration: each value's meaning under
/// its key, sorted by key.
pub open spec fn definition_mappings(d: EnumDefinition) -> Seq<(Seq<char>, Seq<char>)> {
    sorted_pairs(meaning_pairs(value_entries(d.permissible_values)))
}

/// Reads an enumeration from a LinkML definition: its description as
/// docstring and its values' meanings as mappings; its name is left empty.
pub fn enumeration_from_definition(d: EnumDefinition) -> (r: Enumeration)
    ensures
        r.name@ == Seq::<char>::empty(),
        r.docstring@ == or_empty(d.description),
        r.mappings@ == definition_mappings(d),
        r.position is None,
{
    let ghost pv = meaning_pairs(value_entries(d.permissible_values));
    let values = value_map_entries(d.permissible_values);
    let mut m = Mappings::new();
    let mut i: usize = 0;
    assert(pv.take(0) =~= Seq::<(Seq<char>, Seq<char>)>::empty());
    while i < values.len()
        invariant
            i <= values@.len(),
            pv == meaning_pairs(values@.map_values(|e: (String, PermissibleValue)| (e.0@, e.1))),
            m@ == sorted_pairs(pv.take(i as int)),
        decreases values.len() - i,
    {
        assert(pv.take(i + 1).drop_last() =~= pv.take(i as int));
        assert(pv[i as int] == (values@[i as int].0@, or_empty(values@[i as int].1.meaning)));
        let v = match &values[i].1.meaning {
            Some(t) => t.clone(),
            None => String::new(),
        };
        m.insert(values[i].0.clone(), v);
        i = i + 1;
    }
    assert(pv.take(i as int) =~= pv);
    let docstring = match d.description {
        Some(t) => t,
        None => String::new(),
    };
    Enumeration { name: String::new(), mappings: m, docstring, position: None }
}

/// The first definition among the slots with the name, if any.
pub open spec fn slot_definition(slots: Seq<(Seq<char>, AttributeDefinition)>, name: Seq<char>) -> Option<AttributeDefinition>
    decreases slots.len(),
{
    if slots.len() == 0 {
        None
    } else if slots[0].0 == name {
        Some(slots[0].1)
    } else {
        slot_definition(slots.drop_first(), name)
    }
}

/// The attributes of the named slots that are defined, in order, each
/// under its name.
pub open spec fn slot_attributes(names: Seq<Seq<char>>, slots: Seq<(Seq<char>, AttributeDefinition)>) -> Seq<AttributeView>
    decreases names.len(),
{
    if names.len() == 0 {
        Seq::empty()
    } else {
        let rest = slot_attributes(names.drop_last(), slots);
        match slot_definition(slots, names.last()) {
            Some(d) => rest.push(definition_attribute(d, names.last())),
            None => rest,
        }
    }
}

/// The object read from a LinkML class under its name: that of
/// [`class_object`] under the class's name, followed by an attribute for
/// each of the class's slots that the schema defines.
pub open spec fn schema_object(
    name: Seq<char>,
    c: ClassDefinition,
    slots: Seq<(Seq<char>, AttributeDefinition)>,
) -> ObjectView {
    ObjectView {
        name,
        attributes: class_attributes(c) + slot_attributes(text::strings_view(c.slots@), slots),
        ..class_object(c)
    }
}

/// The data model read from a LinkML schema: the schema's name; front
/// matter with the schema's id as prefix and its prefixes, the rest
/// default; an object for each class and an enumeration for each
/// enumeration, in order, under their keys.
pub open spec fn model_matches(m: DataModel, l: LinkML) -> bool {
    &&& m.name matches Some(n) && n@ == l.name@
    &&& m.config matches Some(c) && {
        &&& c.prefix@ == l.id@
        &&& c.prefixes matches Some(p) && text::pairs_view(p@) == string_entries(l.prefixes)
        &&& c.id is None
        &&& c.id_field
        &&& c.nsmap is None
        &&& c.repo@ == "http://mdmodel.net/"@
        &&& c.imports@.len() == 0
        &&& !c.allow_empty
        &&& c.wf()
    }
    &&& object::objects_view(m.objects@) == class_entries(l.classes).map_values(
        |e: (Seq<char>, ClassDefinition)| schema_object(e.0, e.1, attribute_entries(l.slots)),
    )
    &&& m.enums@.len() == enum_entries(l.enums).len()
    &&& forall|i: int|
        0 <= i < m.enums@.len() ==> {
            &&& (#[trigger] m.enums@[i]).name@ == enum_entries(l.enums)[i].0
            &&& m.enums@[i].docstring@ == or_empty(enum_entries(l.enums)[i].1.description)
            &&& m.enums@[i].mappings@ == definition_mappings(enum_entries(l.enums)[i].1)
            &&& m.enums@[i].position is None
        }
}

/// The position of the first slot with the name, if any.
fn find_slot(slots: &Vec<(String, AttributeDefinition)>, name: &str) -> (r: Option<usize>)
    ensures
        match r {
            Some(i) => i < slots@.len() && slot_definition(
                slots@.map_values(|e: (String, AttributeDefinition)| (e.0@, e.1)),
                name@,
            ) == Some(slots@[i as int].1),
            None => slot_definition(
                slots@.map_values(|e: (String, AttributeDefinition)| (e.0@, e.1)),
                name@,
            ) is None,
        },
{
    let ghost sv = slots@.map_values(|e: (String, AttributeDefinition)| (e.0@, e.1));
    let mut i: usize = 0;
    assert(sv.skip(0) =~= sv);
    while i < slots.len()
        invariant
            i <= slots@.len(),
            sv == slots@.map_values(|e: (String, AttributeDefinition)| (e.0@, e.1)),
            slot_definition(sv, name@) == slot_definition(sv.skip(i as int), name@),
        decreases slots.len() - i,
    {
        assert(sv.skip(i as int)[0] == sv[i as int]);
        if text::str_eq(slots[i].0.as_str(), name) {
            return Some(i);
        }
        assert(sv.skip(i as int).drop_first() =~= sv.skip(i + 1));
        i = i + 1;
    }
    None
}

impl DataModel {
    /// Reads a data model from a LinkML schema (see [`model_matches`]).
    pub fn from_linkml(linkml: LinkML) -> (r: DataModel)
        ensures
            model_matches(r, linkml),
    {
        let ghost l = linkml;
        let ghost sd = attribute_entries(l.slots);
        let mut config = FrontMatter::new();
        config.prefix = linkml.id;
        let pairs = string_map_entries(linkml.prefixes);
        assert(text::pairs_view(pairs@) =~= string_entries(l.prefixes));
        assert(crate::frontmatter::pair_keys_distinct(text::pairs_view(pairs@))) by {
            let pv = text::pairs_view(pairs@);
            let ev = pairs@.map_values(|e: (String, String)| (e.0@, e.1@));
            assert forall|i: int, j: int| 0 <= i < j < pv.len() implies #[trigger] pv[i].0 != #[trigger] pv[j].0 by {
                assert(ev[i].0 != ev[j].0);
            }
        }
        config.prefixes = Some(pairs);
        let slots = attribute_map_entries(linkml.slots);
        assert(slots@.map_values(|e: (String, AttributeDefinition)| (e.0@, e.1)) == sd);
        let classes = class_map_entries(linkml.classes);
        let ghost ce = class_entries(l.classes);
        let ghost want = ce.map_values(
            |e: (Seq<char>, ClassDefinition)| schema_object(e.0, e.1, sd),
        );
        assert(ce.len() == classes@.len());
        assert(classes@.len() == classes.len());
        let mut objects: Vec<Object> = Vec::new();
        let mut rest = classes;
        let ghost total = ce.len();
        let mut k: usize = 0;
        while rest.len() > 0
            invariant
                k + rest@.len() == ce.len(),
                ce.len() <= usize::MAX,
                rest@.map_values(|e: (String, ClassDefinition)| (e.0@, e.1)) == ce.skip(k as int),
                slots@.map_values(|e: (String, AttributeDefinition)| (e.0@, e.1)) == sd,
                want == ce.map_values(|e: (Seq<char>, ClassDefinition)| schema_object(e.0, e.1, sd)),
                objects@.len() == k,
                forall|x: int| 0 <= x < k ==> (#[trigger] objects@[x])@ == want[x],
            decreases rest.len(),
        {
            let ghost before = rest@;
            let (name, class) = rest.remove(0);
            let ghost rv = rest@.map_values(|e: (String, ClassDefinition)| (e.0@, e.1));
            let ghost bv = before.map_values(|e: (String, ClassDefinition)| (e.0@, e.1));
            assert(bv[0] == ce.skip(k as int)[0]);
            assert(ce[k as int] == (name@, class));
            assert forall|x: int| 0 <= x < rv.len() implies #[trigger] rv[x] == ce.skip(k + 1)[x] by {
                assert(bv[x + 1] == ce.skip(k as int)[x + 1]);
            }
            assert(rv =~= ce.skip(k + 1));
            let ghost cg = class;
            let slot_names = crate::attribute::copy_strings(&class.slots);
            let mut obj = object_from_class(class);
            obj.name = name;
            let ghost base = obj@.attributes;
            let mut s: usize = 0;
            let ghost names = text::strings_view(slot_names@);
            assert(names.take(0) =~= Seq::<Seq<char>>::empty());
            assert(base + slot_attributes(names.take(0), sd) =~= base);
            while s < slot_names.len()
                invariant
                    s <= slot_names@.len(),
                    names == text::strings_view(slot_names@),
                    slots@.map_values(|e: (String, AttributeDefinition)| (e.0@, e.1)) == sd,
                    obj@.attributes == base + slot_attributes(names.take(s as int), sd),
                    obj@.name == name@,
                    obj@.docstring == class_object(cg).docstring,
                    obj@.term == class_object(cg).term,
                    obj@.mixins == class_object(cg).mixins,
                    obj@.parent == class_object(cg).parent,
                    obj@.position == class_object(cg).position,
                decreases slot_names.len() - s,
            {
                assert(names.take(s + 1).drop_last() =~= names.take(s as int));
                assert(names.take(s + 1).last() == slot_names@[s as int]@);
                match find_slot(&slots, slot_names[s].as_str()) {
                    Some(idx) => {
                        let mut a = attribute_from_definition(&slots[idx].1);
                        a.name = slot_names[s].clone();
                        let ghost ob = obj@.attributes;
                        obj.attributes.push(a);
                        assert(obj@.attributes =~= ob.push(a@));
                    },
                    None => {},
                }
                s = s + 1;
            }
            assert(names.take(s as int) =~= names);
            assert(obj@ == schema_object(name@, cg, sd));
            objects.push(obj);
            k = k + 1;
        }
        assert(objects@.len() == ce.len());
        assert(object::objects_view(objects@) =~= want);
        let es = enum_map_entries(linkml.enums);
        let ghost ee = enum_entries(l.enums);
        assert(ee.len() == es@.len());
        assert(es@.len() == es.len());
        let mut enums: Vec<Enumeration> = Vec::new();
        let mut rest_e = es;
        let mut j: usize = 0;
        while rest_e.len() > 0
            invariant
                j + rest_e@.len() == ee.len(),
                ee.len() <= usize::MAX,
                rest_e@.map_values(|e: (String, EnumDefinition)| (e.0@, e.1)) == ee.skip(j as int),
                enums@.len() == j,
                forall|x: int|
                    0 <= x < j ==> {
                        &&& (#[trigger] enums@[x]).name@ == ee[x].0
                        &&& enums@[x].docstring@ == or_empty(ee[x].1.description)
                        &&& enums@[x].mappings@ == definition_mappings(ee[x].1)
                        &&& enums@[x].position is None
                    },
            decreases rest_e.len(),
        {
            let ghost before = rest_e@;
            let (name, def) = rest_e.remove(0);
            let ghost rv = rest_e@.map_values(|e: (String, EnumDefinition)| (e.0@, e.1));
            let ghost bv = before.map_values(|e: (String, EnumDefinition)| (e.0@, e.1));
            assert(bv[0] == ee.skip(j as int)[0]);
            assert(ee[j as int] == (name@, def));
            assert forall|x: int| 0 <= x < rv.len() implies #[trigger] rv[x] == ee.skip(j + 1)[x] by {
                assert(bv[x + 1] == ee.skip(j as int)[x + 1]);
            }
            assert(rv =~= ee.skip(j + 1));
            let mut e = enumeration_from_definition(def);
            e.name = name;
            enums.push(e);
            j = j + 1;
        }
        DataModel { name: Some(linkml.name), objects, enums, config: Some(config) }
    }
}

// ---------------------------------------------------------------------------
// Writing a model as LinkML and reading it back
// ---------------------------------------------------------------------------

/// Inserting a key above all keys of a sorted map appends the pair.
proof fn lemma_map_insert_above(t: Seq<(Seq<char>, Seq<char>)>, k: Seq<char>, v: Seq<char>)
    requires
        forall|i: int| 0 <= i < t.len() ==> text::seq_lt(#[trigger] t[i].0, k),
    ensures
        object::spec_map_insert(t, k, v) == t.push((k, v)),
    decreases t.len(),
{
    if t.len() > 0 {
        assert(text::seq_lt(t[0].0, k));
        text::lemma_seq_lt_irreflexive(k);
        if text::seq_lt(k, t[0].0) {
            text::lemma_seq_lt_transitive(k, t[0].0, k);
        }
        assert forall|i: int| 0 <= i < t.drop_first().len() implies text::seq_lt(#[trigger] t.drop_first()[i].0, k) by {
            assert(t.drop_first()[i] == t[i + 1]);
        }
        lemma_map_insert_above(t.drop_first(), k, v);
        assert(seq![t[0]] + t.drop_first().push((k, v)) =~= t.push((k, v)));
    }
}

/// Pairs with increasing keys, inserted in order into a sorted map, give
/// themselves back.
proof fn lemma_sorted_pairs_increasing(s: Seq<(Seq<char>, Seq<char>)>)
    requires
        object::keys_increasing(s),
    ensures
        sorted_pairs(s) == s,
    decreases s.len(),
{
    if s.len() > 0 {
        let p = s.drop_last();
        assert forall|i: int, j: int| 0 <= i < j < p.len() implies text::seq_lt(#[trigger] p[i].0, #[trigger] p[j].0) by {
            assert(s[i] == p[i] && s[j] == p[j]);
        }
        lemma_sorted_pairs_increasing(p);
        assert forall|i: int| 0 <= i < p.len() implies text::seq_lt(#[trigger] p[i].0, s.last().0) by {
            assert(s[i] == p[i]);
        }
        lemma_map_insert_above(p, s.last().0, s.last().1);
        assert(p.push(s.last()) =~= s);
    }
}

/// The names of the enumerations, in order.
pub open spec fn enum_names(enums: Seq<Enumeration>) -> Seq<Seq<char>> {
    enums.map_values(|e: Enumeration| e.name@)
}

/// The names of the attributes, in order.
pub open spec fn attribute_names_of(attrs: Seq<AttributeView>) -> Seq<Seq<char>> {
    attrs.map_values(|a: AttributeView| a.name)
}

/// Objects with distinct names, by name, are the objects in order.
proof fn lemma_named_objects_distinct(objs: Seq<ObjectView>)
    requires
        crate::tree::names_of(objs).no_duplicates(),
    ensures
        named_objects(objs) == objs.map_values(|o: ObjectView| (o.name, o)),
    decreases objs.len(),
{
    if objs.len() > 0 {
        let p = objs.drop_last();
        assert(crate::tree::names_of(p).no_duplicates()) by {
            assert forall|i: int, j: int|
                0 <= i < crate::tree::names_of(p).len() && 0 <= j < crate::tree::names_of(p).len() && i != j implies
                #[trigger] crate::tree::names_of(p)[i] != #[trigger] crate::tree::names_of(p)[j] by {
                assert(crate::tree::names_of(objs)[i] == p[i].name);
                assert(crate::tree::names_of(objs)[j] == p[j].name);
            }
        }
        lemma_named_objects_distinct(p);
        let np = named_objects(p);
        assert forall|i: int| 0 <= i < np.len() implies (#[trigger] np[i]).0 != objs.last().name by {
            assert(np[i].0 == p[i].name);
            assert(crate::tree::names_of(objs)[i] == objs[i].name);
            assert(crate::tree::names_of(objs)[objs.len() - 1] == objs.last().name);
        }
        lemma_index_insert_fresh(np, objs.last().name, objs.last());
        assert(np.push((objs.last().name, objs.last())) =~= objs.map_values(|o: ObjectView| (o.name, o)));
    }
}

/// Enumerations with distinct names, by name, are the enumerations in
/// order.
proof fn lemma_named_enums_distinct(enums: Seq<Enumeration>)
    requires
        enum_names(enums).no_duplicates(),
    ensures
        named_enums(enums) == enums.map_values(|e: Enumeration| (e.name@, e)),
    decreases enums.len(),
{
    if enums.len() > 0 {
        let p = enums.drop_last();
        let all = enum_names(enums);
        assert(enum_names(p).no_duplicates()) by {
            assert forall|i: int, j: int|
                0 <= i < p.len() && 0 <= j < p.len() && i != j implies
                #[trigger] enum_names(p)[i] != #[trigger] enum_names(p)[j] by {
                assert(all[i] == p[i].name@);
                assert(all[j] == p[j].name@);
            }
        }
        lemma_named_enums_distinct(p);
        let np = named_enums(p);
        assert forall|i: int| 0 <= i < np.len() implies (#[trigger] np[i]).0 != enums.last().name@ by {
            assert(np[i].0 == p[i].name@);
            assert(all[i] == enums[i].name@);
            assert(all[enums.len() - 1] == enums.last().name@);
        }
        lemma_index_insert_fresh(np, enums.last().name@, enums.last());
        assert(np.push((enums.last().name@, enums.last())) =~= enums.map_values(|e: Enumeration| (e.name@, e)));
    }
}

/// Attributes with distinct names, by name, are the attributes in order.
proof fn lemma_named_attributes_distinct(attrs: Seq<AttributeView>)
    requires
        attribute_names_of(attrs).no_duplicates(),
    ensures
        named_attributes(attrs) == attrs.map_values(|a: AttributeView| (a.name, a)),
    decreases attrs.len(),
{
    if attrs.len() > 0 {
        let p = attrs.drop_last();
        let all = attribute_names_of(attrs);
        assert(attribute_names_of(p).no_duplicates()) by {
            assert forall|i: int, j: int|
                0 <= i < p.len() && 0 <= j < p.len() && i != j implies
                #[trigger] attribute_names_of(p)[i] != #[trigger] attribute_names_of(p)[j] by {
                assert(all[i] == p[i].name);
                assert(all[j] == p[j].name);
            }
        }
        lemma_named_attributes_distinct(p);
        let np = named_attributes(p);
        assert forall|i: int| 0 <= i < np.len() implies (#[trigger] np[i]).0 != attrs.last().name by {
            assert(np[i].0 == p[i].name);
            assert(all[i] == attrs[i].name);
            assert(all[attrs.len() - 1] == attrs.last().name);
        }
        lemma_index_insert_fresh(np, attrs.last().name, attrs.last());
        assert(np.push((attrs.last().name, attrs.last())) =~= attrs.map_values(|a: AttributeView| (a.name, a)));
    }
}

/// A schema without slots adds no slot attributes.
proof fn lemma_no_slot_attributes(names: Seq<Seq<char>>)
    ensures
        slot_attributes(names, Seq::empty()) == Seq::<AttributeView>::empty(),
    decreases names.len(),
{
    if names.len() > 0 {
        lemma_no_slot_attributes(names.drop_last());
    }
}

/// An attribute read back keeps its name, docstring, term and flags, and
/// its first data type as its one data type.
pub open spec fn attribute_read_back(b: AttributeView, a: AttributeView) -> bool {
    &&& b.name == a.name
    &&& b.docstring == a.docstring
    &&& b.term == a.term
    &&& b.is_array == a.is_array
    &&& b.is_id == a.is_id
    &&& b.required == a.required
    &&& b.dtypes == seq![a.dtypes[0]]
}

/// An object read back keeps its name, docstring and term, and its
/// attributes, in order (see [`attribute_read_back`]).
pub open spec fn object_read_back(b: ObjectView, o: ObjectView) -> bool {
    &&& b.name == o.name
    &&& b.docstring == o.docstring
    &&& b.term == o.term
    &&& b.attributes.len() == o.attributes.len()
    &&& forall|j: int| 0 <= j < o.attributes.len() ==> attribute_read_back(#[trigger] b.attributes[j], o.attributes[j])
}

/// The names of an object's attributes are distinct.
pub open spec fn attribute_names_distinct(o: ObjectView) -> bool {
    attribute_names_of(o.attributes).no_duplicates()
}

/// The object read back from the class written for an object is the object
/// (see [`object_read_back`]).
proof fn lemma_object_read_back(c: ClassDefinition, o: ObjectView)
    requires
        class_matches(c, o),
        attribute_names_distinct(o),
    ensures
        object_read_back(schema_object(o.name, c, Seq::empty()), o),
{
    let b = schema_object(o.name, c, Seq::empty());
    lemma_no_slot_attributes(text::strings_view(c.slots@));
    assert(b.attributes =~= class_attributes(c));
    lemma_named_attributes_distinct(o.attributes);
    let defs = class_definitions(c);
    assert forall|j: int| 0 <= j < o.attributes.len() implies attribute_read_back(#[trigger] b.attributes[j], o.attributes[j]) by {
        assert(named_attributes(o.attributes)[j] == (o.attributes[j].name, o.attributes[j]));
        assert(definition_rel()(defs[j].1, named_attributes(o.attributes)[j].1));
        let d = defs[j].1;
        let a = o.attributes[j];
        assert(b.attributes[j].dtypes =~= seq![a.dtypes[0]]);
    }
}

/// Writing a model whose objects have distinct names as LinkML gives, for
/// each object in order, a class under the object's name whose `is_a` is
/// the object's parent: the parent's name where it has one, none otherwise;
/// its description is the object's docstring and its class URI the
/// object's term.
pub proof fn law_linkml_keeps_parents(model: DataModel, schema: LinkML)
    requires
        linkml_matches(schema, model),
        crate::tree::names_of(object::objects_view(model.objects@)).no_duplicates(),
    ensures
        class_entries(schema.classes).len() == model.objects@.len(),
        forall|i: int|
            0 <= i < model.objects@.len() ==> (#[trigger] class_entries(schema.classes)[i]).0
                == model.objects@[i].name@ && opt_view(class_entries(schema.classes)[i].1.is_a)
                == model.objects@[i]@.parent && opt_view(class_entries(schema.classes)[i].1.description)
                == Some(model.objects@[i].docstring@) && opt_view(class_entries(schema.classes)[i].1.class_uri)
                == model.objects@[i]@.term,
{
    let objs = object::objects_view(model.objects@);
    let root = choose|root: Option<Seq<char>>|
        root_of(root, objs) && #[trigger] related(class_entries(schema.classes), named_objects(objs), class_rel(root, slot_keys_of(objs)));
    let ce = class_entries(schema.classes);
    lemma_named_objects_distinct(objs);
    let no = named_objects(objs);
    assert(related(ce, no, class_rel(root, slot_keys_of(objs))));
    assert forall|i: int| 0 <= i < model.objects@.len() implies (#[trigger] class_entries(schema.classes)[i]).0
        == model.objects@[i].name@ && opt_view(class_entries(schema.classes)[i].1.is_a)
        == model.objects@[i]@.parent && opt_view(class_entries(schema.classes)[i].1.description)
        == Some(model.objects@[i].docstring@) && opt_view(class_entries(schema.classes)[i].1.class_uri)
        == model.objects@[i]@.term by {
        assert(no[i] == (objs[i].name, objs[i]));
        crate::linkml::export::lemma_related_at(ce, no, class_rel(root, slot_keys_of(objs)), i);
        assert(objs[i] == model.objects@[i]@);
        assert(class_rel(root, slot_keys_of(objs))(ce[i].1, no[i].1));
    }
}

/// Writing a model as LinkML and reading the schema back gives the model's
/// name and prefixes, its objects in order, each with its name, docstring
/// and term and its attributes in order with their names, docstrings,
/// terms, flags and first data types, and its enumerations in order with
/// their names, docstrings and mappings; where no object, enumeration, or
/// attribute of one object, shares its name with another, and no attribute
/// is a global slot.
pub proof fn law_linkml_round_trip(model: DataModel, schema: LinkML, back: DataModel)
    requires
        linkml_matches(schema, model),
        model_matches(back, schema),
        crate::tree::names_of(object::objects_view(model.objects@)).no_duplicates(),
        enum_names(model.enums@).no_duplicates(),
        forall|k: int| 0 <= k < model.objects@.len() ==> attribute_names_distinct(#[trigger] model.objects@[k]@),
        forall|k: int| 0 <= k < model.enums@.len() ==> object::keys_increasing(#[trigger] model.enums@[k].mappings@),
        global_slots(object::objects_view(model.objects@)).len() == 0,
    ensures
        back.name matches Some(n) && n@ == schema_name(model.name),
        back.config matches Some(c) && c.prefix@ == schema_prefix(model.config) && (c.prefixes matches Some(p)
            && text::pairs_view(p@) == schema_prefixes(model.config)),
        back.objects@.len() == model.objects@.len(),
        forall|i: int| 0 <= i < model.objects@.len() ==> object_read_back(#[trigger] back.objects@[i]@, model.objects@[i]@),
        back.enums@.len() == model.enums@.len(),
        forall|i: int|
            0 <= i < model.enums@.len() ==> {
                &&& (#[trigger] back.enums@[i]).name@ == model.enums@[i].name@
                &&& back.enums@[i].docstring@ == model.enums@[i].docstring@
                &&& back.enums@[i].mappings@ == model.enums@[i].mappings@
            },
{
    let objs = object::objects_view(model.objects@);
    let root = choose|root: Option<Seq<char>>|
        root_of(root, objs) && #[trigger] related(class_entries(schema.classes), named_objects(objs), class_rel(root, slot_keys_of(objs)));
    assert(slot_keys_of(objs) =~= Seq::<Seq<char>>::empty());
    let ce = class_entries(schema.classes);
    let sd = attribute_entries(schema.slots);
    assert(sd =~= Seq::<(Seq<char>, AttributeDefinition)>::empty());
    lemma_named_objects_distinct(objs);
    let no = named_objects(objs);
    let bv = object::objects_view(back.objects@);
    assert(related(ce, no, class_rel(root, Seq::empty())));
    assert(no.len() == objs.len());
    assert(ce.len() == objs.len());
    assert(bv.len() == ce.len());
    assert(back.objects@.len() == model.objects@.len());
    assert forall|i: int| 0 <= i < model.objects@.len() implies object_read_back(#[trigger] back.objects@[i]@, model.objects@[i]@) by {
        assert(no[i] == (objs[i].name, objs[i]));
        assert(ce[i].0 == no[i].0);
        assert(class_rel(root, Seq::empty())(ce[i].1, no[i].1));
        lemma_class_without_slots(ce[i].1, objs[i]);
        assert(objs[i] == model.objects@[i]@);
        assert(bv[i] == back.objects@[i]@);
        assert(bv[i] == schema_object(ce[i].0, ce[i].1, sd));
        lemma_object_read_back(ce[i].1, objs[i]);
    }
    let ee = enum_entries(schema.enums);
    lemma_named_enums_distinct(model.enums@);
    assert forall|i: int| 0 <= i < model.enums@.len() implies {
        &&& (#[trigger] back.enums@[i]).name@ == model.enums@[i].name@
        &&& back.enums@[i].docstring@ == model.enums@[i].docstring@
        &&& back.enums@[i].mappings@ == model.enums@[i].mappings@
    } by {
        let e = model.enums@[i];
        assert(named_enums(model.enums@)[i] == (e.name@, e));
        assert(enum_rel()(ee[i].1, e));
        let d = ee[i].1;
        let mv = e.mappings@.map_values(
            |m: (Seq<char>, Seq<char>)| (m.0, (None::<Seq<char>>, Some(m.1), Some(m.1))),
        );
        let vv = value_entries(d.permissible_values).map_values(
            |x: (Seq<char>, PermissibleValue)| (x.0, value_view(x.1)),
        );
        assert(vv == mv);
        assert(meaning_pairs(value_entries(d.permissible_values)) =~= e.mappings@) by {
            assert forall|k: int| 0 <= k < e.mappings@.len() implies #[trigger] meaning_pairs(value_entries(d.permissible_values))[k] == e.mappings@[k] by {
                assert(vv[k] == mv[k]);
            }
        }
        lemma_sorted_pairs_increasing(e.mappings@);
    }
}

} // verus!
