//! Writing a data model as a LinkML schema.

use vstd::prelude::*;
use crate::attribute::{self, Attribute, AttributeView};
use crate::datamodel::DataModel;
use crate::frontmatter::FrontMatter;
use crate::linkml::schema::{
    class_entries, class_map_insert, class_map_new, enum_entries, enum_map_insert, enum_map_new,
    string_entries, string_map_insert, string_map_new, LinkML,
    attribute_entries, attribute_map_entries, attribute_map_insert, attribute_map_new, index_insert,
    keys_distinct,
    usage_entries, usage_map_insert, usage_map_len, usage_map_new, value_entries, value_map_insert,
    value_map_new, AttributeDefinition, ClassDefinition, EnumDefinition, Example, PermissibleValue,
    SlotUsage,
};
use crate::object::{self, Enumeration, Object};
use crate::primitives;
use crate::text;
use crate::tree;

verus! {

/// An optional string's view.
pub open spec fn opt_view(o: Option<String>) -> Option<Seq<char>> {
    match o {
        Some(s) => Some(s@),
        None => None,
    }
}

/// The values of the options with the key `key`, in order.
pub open spec fn option_values(opts: Seq<(Seq<char>, Seq<char>)>, key: Seq<char>) -> Seq<Seq<char>>
    decreases opts.len(),
{
    if opts.len() == 0 {
        Seq::empty()
    } else if opts.last().0 == key {
        option_values(opts.drop_last(), key).push(opts.last().1)
    } else {
        option_values(opts.drop_last(), key)
    }
}

/// The bound an option gives: the first option with the key, read as an
/// `i64`.
pub open spec fn bound_of(opts: Seq<(Seq<char>, Seq<char>)>, key: Seq<char>) -> Option<i64> {
    match primitives::lookup(opts, key) {
        Some(v) => attribute::parsed_i64(v),
        None => None,
    }
}

/// The first option with the key, where there is one, reads as an `i64`.
pub open spec fn bound_readable(opts: Seq<(Seq<char>, Seq<char>)>, key: Seq<char>) -> bool {
    match primitives::lookup(opts, key) {
        Some(v) => attribute::parsed_i64(v) is Some,
        None => true,
    }
}

/// An attribute can be written to LinkML: it has a data type, and its
/// `minimum` and `maximum` options read as integers.
pub open spec fn attribute_writable(a: AttributeView) -> bool {
    &&& a.dtypes.len() > 0
    &&& bound_readable(a.options, "minimum"@)
    &&& bound_readable(a.options, "maximum"@)
}

/// The views of examples.
pub open spec fn examples_view(v: Seq<Example>) -> Seq<(Option<Seq<char>>, Option<Seq<char>>)> {
    v.map_values(|e: Example| (opt_view(e.value), opt_view(e.description)))
}

/// The LinkML definition written for an attribute: its term as URI,
/// whether it holds many values, its first type as range unless that is
/// `string`, its docstring, identifier and required flags, the bounds of
/// its `minimum` and `maximum` options, and an example for each `example`
/// option.
pub open spec fn definition_matches(d: AttributeDefinition, a: AttributeView) -> bool {
    &&& opt_view(d.slot_uri) == a.term
    &&& d.multivalued == Some(a.is_array)
    &&& opt_view(d.range) == (if a.dtypes[0] == "string"@ {
        None
    } else {
        Some(a.dtypes[0])
    })
    &&& opt_view(d.description) == Some(a.docstring)
    &&& d.identifier == Some(a.is_id)
    &&& d.required == Some(a.required)
    &&& d.readonly is None
    &&& d.minimum_value == bound_of(a.options, "minimum"@)
    &&& d.maximum_value == bound_of(a.options, "maximum"@)
    &&& d.recommended is None
    &&& examples_view(d.examples@) == option_values(a.options, "example"@).map_values(
        |v: Seq<char>| (Some(v), None::<Seq<char>>),
    )
    &&& d.annotations is None
}

/// The value of the first option with the key.
fn first_option(opts: &Vec<attribute::AttrOption>, key: &str) -> (r: Option<String>)
    ensures
        opt_view(r) == primitives::lookup(opts@.map_values(|o: attribute::AttrOption| o@), key@),
{
    let ghost t = opts@.map_values(|o: attribute::AttrOption| o@);
    let mut i: usize = 0;
    assert(t.skip(0) =~= t);
    while i < opts.len()
        invariant
            i <= opts@.len(),
            t == opts@.map_values(|o: attribute::AttrOption| o@),
            primitives::lookup(t, key@) == primitives::lookup(t.skip(i as int), key@),
        decreases opts.len() - i,
    {
        assert(t.skip(i as int)[0] == t[i as int]);
        if text::str_eq(opts[i].key.as_str(), key) {
            return Some(opts[i].value.clone());
        }
        assert(t.skip(i as int).drop_first() =~= t.skip(i + 1));
        i = i + 1;
    }
    None
}

/// Writes the LinkML definition of an attribute (see
/// [`definition_matches`]).
pub fn attribute_definition(a: &Attribute) -> (r: AttributeDefinition)
    requires
        attribute_writable(a@),
    ensures
        definition_matches(r, a@),
{
    let minimum_value = match first_option(&a.options, "minimum") {
        Some(v) => attribute::parse_i64(v.as_str()),
        None => None,
    };
    let maximum_value = match first_option(&a.options, "maximum") {
        Some(v) => attribute::parse_i64(v.as_str()),
        None => None,
    };
    let ghost opts = a@.options;
    let mut examples: Vec<Example> = Vec::new();
    let mut i: usize = 0;
    while i < a.options.len()
        invariant
            i <= a.options@.len(),
            opts == a@.options,
            opts.len() == a.options@.len(),
            examples_view(examples@) == option_values(opts.take(i as int), "example"@).map_values(
                |v: Seq<char>| (Some(v), None::<Seq<char>>),
            ),
        decreases a.options.len() - i,
    {
        let ghost before = examples_view(examples@);
        assert(opts.take(i + 1).drop_last() =~= opts.take(i as int));
        assert(opts.take(i + 1).last() == opts[i as int]);
        assert(opts[i as int] == a.options@[i as int]@);
        if text::str_eq(a.options[i].key.as_str(), "example") {
            let v = a.options[i].value.clone();
            examples.push(Example { value: Some(v), description: None });
            assert(examples_view(examples@) =~= before.push((Some(v@), None::<Seq<char>>)));
        }
        proof {
            reveal_strlit("example");
        }
        i = i + 1;
    }
    assert(opts.take(i as int) =~= opts);
    let range = if text::str_eq(a.dtypes[0].as_str(), "string") {
        None
    } else {
        Some(a.dtypes[0].clone())
    };
    let slot_uri = match &a.term {
        Some(t) => Some(t.clone()),
        None => None,
    };
    AttributeDefinition {
        description: Some(a.docstring.clone()),
        slot_uri,
        identifier: Some(a.is_id),
        required: Some(a.required),
        range,
        readonly: None,
        multivalued: Some(a.is_array),
        minimum_value,
        maximum_value,
        recommended: None,
        examples,
        annotations: None,
    }
}

/// The views of a permissible value.
pub open spec fn value_view(p: PermissibleValue) -> (Option<Seq<char>>, Option<Seq<char>>, Option<Seq<char>>) {
    (opt_view(p.text), opt_view(p.meaning), opt_view(p.description))
}

/// Inserting a key not present adds the entry last.
pub proof fn lemma_index_insert_fresh<V>(s: Seq<(Seq<char>, V)>, k: Seq<char>, v: V)
    requires
        forall|i: int| 0 <= i < s.len() ==> (#[trigger] s[i]).0 != k,
    ensures
        index_insert(s, k, v) == s.push((k, v)),
{
}

/// The LinkML definition of an enumeration: its docstring, and for each
/// mapping, in key order, a value under the key with the mapped value as
/// both meaning and description.
pub fn enum_definition(e: &Enumeration) -> (r: EnumDefinition)
    ensures
        opt_view(r.description) == Some(e.docstring@),
        value_entries(r.permissible_values).map_values(
            |x: (Seq<char>, PermissibleValue)| (x.0, value_view(x.1)),
        ) == e.mappings@.map_values(
            |m: (Seq<char>, Seq<char>)| (m.0, (None::<Seq<char>>, Some(m.1), Some(m.1))),
        ),
{
    let entries = e.mappings.entries();
    let ghost all = e.mappings@;
    let mut values = value_map_new();
    let mut i: usize = 0;
    while i < entries.len()
        invariant
            i <= entries@.len(),
            text::pairs_view(entries@) == all,
            object::keys_increasing(all),
            value_entries(values).map_values(|x: (Seq<char>, PermissibleValue)| (x.0, value_view(x.1)))
                == all.take(i as int).map_values(
                |m: (Seq<char>, Seq<char>)| (m.0, (None::<Seq<char>>, Some(m.1), Some(m.1))),
            ),
            value_entries(values).len() == i,
        decreases entries.len() - i,
    {
        let ghost before = value_entries(values);
        let key = entries[i].0.clone();
        let val = entries[i].1.clone();
        assert(all[i as int] == (key@, val@));
        proof {
            assert forall|j: int| 0 <= j < before.len() implies (#[trigger] before[j]).0 != key@ by {
                assert(before.map_values(|x: (Seq<char>, PermissibleValue)| (x.0, value_view(x.1)))[j].0 == all[j].0);
                assert(text::seq_lt(all[j].0, all[i as int].0));
                text::lemma_seq_lt_irreflexive(all[j].0);
            }
        }
        let ghost kv = key@;
        let ghost vv = val@;
        let pv = PermissibleValue { text: None, description: Some(val.clone()), meaning: Some(val) };
        let ghost pvg = pv;
        assert(value_view(pvg) == (None::<Seq<char>>, Some(vv), Some(vv)));
        proof {
            lemma_index_insert_fresh(before, key@, pv);
        }
        value_map_insert(&mut values, key, pv);
        assert(value_entries(values) == before.push((kv, pvg)));
        assert(all.take(i + 1) =~= all.take(i as int).push((kv, vv)));
        assert(before.push((kv, pvg)).map_values(|x: (Seq<char>, PermissibleValue)| (x.0, value_view(x.1)))
            =~= before.map_values(|x: (Seq<char>, PermissibleValue)| (x.0, value_view(x.1))).push(
            (kv, value_view(pvg)),
        ));
        assert(all.take(i as int).push((kv, vv)).map_values(
            |m: (Seq<char>, Seq<char>)| (m.0, (None::<Seq<char>>, Some(m.1), Some(m.1))),
        ) =~= all.take(i as int).map_values(
            |m: (Seq<char>, Seq<char>)| (m.0, (None::<Seq<char>>, Some(m.1), Some(m.1))),
        ).push((kv, (None::<Seq<char>>, Some(vv), Some(vv)))));
        assert(value_entries(values).map_values(|x: (Seq<char>, PermissibleValue)| (x.0, value_view(x.1)))
            =~= all.take(i + 1).map_values(
            |m: (Seq<char>, Seq<char>)| (m.0, (None::<Seq<char>>, Some(m.1), Some(m.1))),
        ));
        i = i + 1;
    }
    assert(all.take(i as int) =~= all);
    EnumDefinition { description: Some(e.docstring.clone()), permissible_values: values }
}

/// The entries correspond key for key, their values related by `rel`.
pub open spec fn related<A, B>(
    sa: Seq<(Seq<char>, A)>,
    sb: Seq<(Seq<char>, B)>,
    rel: spec_fn(A, B) -> bool,
) -> bool {
    &&& sa.len() == sb.len()
    &&& forall|i: int| 0 <= i < sa.len() ==> #[trigger] sa[i].0 == sb[i].0 && rel(sa[i].1, sb[i].1)
}

/// Related entries at a position have the same key and related values.
pub proof fn lemma_related_at<A, B>(sa: Seq<(Seq<char>, A)>, sb: Seq<(Seq<char>, B)>, rel: spec_fn(A, B) -> bool, i: int)
    requires
        related(sa, sb, rel),
        0 <= i < sa.len(),
    ensures
        sa[i].0 == sb[i].0,
        rel(sa[i].1, sb[i].1),
{
    assert(sa[i].0 == sb[i].0 && rel(sa[i].1, sb[i].1));
}

/// Pushing related values under the same key keeps the entries related.
pub proof fn lemma_related_push<A, B>(
    sa: Seq<(Seq<char>, A)>,
    sb: Seq<(Seq<char>, B)>,
    k: Seq<char>,
    a: A,
    b: B,
    rel: spec_fn(A, B) -> bool,
)
    requires
        related(sa, sb, rel),
        rel(a, b),
    ensures
        related(sa.push((k, a)), sb.push((k, b)), rel),
{
    let pa = sa.push((k, a));
    let pb = sb.push((k, b));
    assert forall|i: int| 0 <= i < pa.len() implies #[trigger] pa[i].0 == pb[i].0 && rel(pa[i].1, pb[i].1) by {
        if i < sa.len() {
            lemma_related_at(sa, sb, rel, i);
        }
    }
}

/// Inserting related values under the same key on both sides keeps the
/// entries related, and keeps the keys distinct.
pub proof fn lemma_index_insert_related<A, B>(
    sa: Seq<(Seq<char>, A)>,
    sb: Seq<(Seq<char>, B)>,
    k: Seq<char>,
    a: A,
    b: B,
    rel: spec_fn(A, B) -> bool,
)
    requires
        related(sa, sb, rel),
        keys_distinct(sb),
        rel(a, b),
    ensures
        related(index_insert(sa, k, a), index_insert(sb, k, b), rel),
        keys_distinct(index_insert(sb, k, b)),
        keys_distinct(index_insert(sa, k, a)),
{
    if exists|i: int| 0 <= i < sb.len() && #[trigger] sb[i].0 == k {
        let ib = choose|i: int| 0 <= i < sb.len() && #[trigger] sb[i].0 == k;
        assert(sa[ib].0 == k);
        let ia = choose|i: int| 0 <= i < sa.len() && #[trigger] sa[i].0 == k;
        assert(sb[ia].0 == sa[ia].0);
        assert(ia == ib);
        let ra = index_insert(sa, k, a);
        let rb = index_insert(sb, k, b);
        assert forall|i: int, j: int| 0 <= i < j < rb.len() implies #[trigger] rb[i].0 != #[trigger] rb[j].0 by {
            assert(sb[i].0 != sb[j].0);
        }
        assert forall|i: int, j: int| 0 <= i < j < ra.len() implies #[trigger] ra[i].0 != #[trigger] ra[j].0 by {
            assert(sb[i].0 != sb[j].0);
            assert(sa[i].0 == sb[i].0);
            assert(sa[j].0 == sb[j].0);
        }
    } else {
        assert(!exists|i: int| 0 <= i < sa.len() && #[trigger] sa[i].0 == k) by {
            if exists|i: int| 0 <= i < sa.len() && #[trigger] sa[i].0 == k {
                let i = choose|i: int| 0 <= i < sa.len() && #[trigger] sa[i].0 == k;
                assert(sb[i].0 == k);
            }
        }
        let ra = index_insert(sa, k, a);
        let rb = index_insert(sb, k, b);
        assert forall|i: int, j: int| 0 <= i < j < rb.len() implies #[trigger] rb[i].0 != #[trigger] rb[j].0 by {
            if j < sb.len() {
                assert(sb[i].0 != sb[j].0);
            }
        }
        assert forall|i: int, j: int| 0 <= i < j < ra.len() implies #[trigger] ra[i].0 != #[trigger] ra[j].0 by {
            if j < sb.len() {
                assert(sb[i].0 != sb[j].0);
                assert(sa[i].0 == sb[i].0);
                assert(sa[j].0 == sb[j].0);
            } else {
                assert(sa[i].0 == sb[i].0);
            }
        }
    }
}

/// The attributes by name, in the order their names first come, each name
/// holding its last attribute.
pub open spec fn named_attributes(attrs: Seq<AttributeView>) -> Seq<(Seq<char>, AttributeView)>
    decreases attrs.len(),
{
    if attrs.len() == 0 {
        Seq::empty()
    } else {
        index_insert(named_attributes(attrs.drop_last()), attrs.last().name, attrs.last())
    }
}

/// The patterns of the attributes, by name as in [`named_attributes`]:
/// the first `pattern` option of each attribute that has one.
pub open spec fn pattern_usages(attrs: Seq<AttributeView>) -> Seq<(Seq<char>, Seq<char>)>
    decreases attrs.len(),
{
    if attrs.len() == 0 {
        Seq::empty()
    } else {
        match primitives::lookup(attrs.last().options, "pattern"@) {
            Some(p) => index_insert(pattern_usages(attrs.drop_last()), attrs.last().name, p),
            None => pattern_usages(attrs.drop_last()),
        }
    }
}

/// A definition written for an attribute.
pub open spec fn definition_rel() -> spec_fn(AttributeDefinition, AttributeView) -> bool {
    |d: AttributeDefinition, a: AttributeView| definition_matches(d, a)
}

/// A slot usage holding a pattern.
pub open spec fn usage_rel() -> spec_fn(SlotUsage, Seq<char>) -> bool {
    |u: SlotUsage, p: Seq<char>| opt_view(u.pattern) == Some(p)
}

/// Every attribute can be written to LinkML.
pub open spec fn attributes_writable(attrs: Seq<AttributeView>) -> bool {
    forall|i: int| 0 <= i < attrs.len() ==> attribute_writable(#[trigger] attrs[i])
}

/// The LinkML class written for an object: its docstring, term and parent,
/// a definition for each attribute by name, and the patterns of its
/// attributes as slot usage (none where no attribute has one); no slots
/// or mixins.
pub open spec fn class_matches(c: ClassDefinition, o: object::ObjectView) -> bool {
    &&& opt_view(c.description) == Some(o.docstring)
    &&& opt_view(c.class_uri) == o.term
    &&& c.slots@.len() == 0
    &&& opt_view(c.is_a) == o.parent
    &&& c.mixins@.len() == 0
    &&& c.attributes matches Some(m) && related(
        attribute_entries(m),
        named_attributes(o.attributes),
        definition_rel(),
    ) && keys_distinct(attribute_entries(m))
    &&& if pattern_usages(o.attributes).len() == 0 {
        c.slot_usage is None
    } else {
        c.slot_usage matches Some(u) && related(usage_entries(u), pattern_usages(o.attributes), usage_rel())
    }
}

/// Writes the LinkML class of an object (see [`class_matches`]); it is
/// not the tree root.
pub fn class_definition(o: &Object) -> (r: ClassDefinition)
    requires
        attributes_writable(o@.attributes),
    ensures
        class_matches(r, o@),
        r.tree_root is None,
        opt_view(r.is_a) == o@.parent,
{
    let ghost attrs = o@.attributes;
    let mut defs = attribute_map_new();
    let mut usage = usage_map_new();
    let mut i: usize = 0;
    assert(attrs.take(0) =~= Seq::<AttributeView>::empty());
    while i < o.attributes.len()
        invariant
            i <= o.attributes@.len(),
            attrs == o@.attributes,
            attrs.len() == o.attributes@.len(),
            attributes_writable(attrs),
            related(attribute_entries(defs), named_attributes(attrs.take(i as int)), definition_rel()),
            keys_distinct(named_attributes(attrs.take(i as int))),
            keys_distinct(attribute_entries(defs)),
            related(usage_entries(usage), pattern_usages(attrs.take(i as int)), usage_rel()),
            keys_distinct(pattern_usages(attrs.take(i as int))),
        decreases o.attributes.len() - i,
    {
        let a = &o.attributes[i];
        assert(attrs[i as int] == a@);
        assert(attrs.take(i + 1).drop_last() =~= attrs.take(i as int));
        assert(attrs.take(i + 1).last() == a@);
        assert(attribute_writable(attrs[i as int]));
        let d = attribute_definition(a);
        proof {
            lemma_index_insert_related(
                attribute_entries(defs),
                named_attributes(attrs.take(i as int)),
                a.name@,
                d,
                a@,
                definition_rel(),
            );
        }
        attribute_map_insert(&mut defs, a.name.clone(), d);
        match first_option(&a.options, "pattern") {
            Some(p) => {
                let ghost pv = p@;
                let u = SlotUsage { pattern: Some(p) };
                proof {
                    lemma_index_insert_related(
                        usage_entries(usage),
                        pattern_usages(attrs.take(i as int)),
                        a.name@,
                        u,
                        pv,
                        usage_rel(),
                    );
                }
                usage_map_insert(&mut usage, a.name.clone(), u);
            },
            None => {},
        }
        i = i + 1;
    }
    assert(attrs.take(i as int) =~= attrs);
    let is_empty = usage_map_len(&usage) == 0;
    let slot_usage = if is_empty {
        None
    } else {
        Some(usage)
    };
    let class_uri = match &o.term {
        Some(t) => Some(t.clone()),
        None => None,
    };
    let is_a = match &o.parent {
        Some(p) => Some(p.clone()),
        None => None,
    };
    ClassDefinition {
        description: Some(o.docstring.clone()),
        class_uri,
        slots: Vec::new(),
        is_a,
        tree_root: None,
        slot_usage,
        attributes: Some(defs),
        mixins: Vec::new(),
    }
}

// ---------------------------------------------------------------------------
// Global slots
// ---------------------------------------------------------------------------

/// The attributes of all objects, object by object.
pub open spec fn all_attributes(objs: Seq<object::ObjectView>) -> Seq<AttributeView>
    decreases objs.len(),
{
    if objs.len() == 0 {
        Seq::empty()
    } else {
        all_attributes(objs.drop_last()) + objs.last().attributes
    }
}

/// The LinkML range written for an attribute: its first type, none for
/// `string`.
pub open spec fn range_of(a: AttributeView) -> Option<Seq<char>> {
    if a.dtypes[0] == "string"@ {
        None
    } else {
        Some(a.dtypes[0])
    }
}

/// Two attributes are written as identical LinkML definitions (see
/// [`definition_matches`]).
pub open spec fn same_definition(a: AttributeView, b: AttributeView) -> bool {
    &&& a.term == b.term
    &&& a.is_array == b.is_array
    &&& range_of(a) == range_of(b)
    &&& a.docstring == b.docstring
    &&& a.is_id == b.is_id
    &&& a.required == b.required
    &&& bound_of(a.options, "minimum"@) == bound_of(b.options, "minimum"@)
    &&& bound_of(a.options, "maximum"@) == bound_of(b.options, "maximum"@)
    &&& option_values(a.options, "example"@) == option_values(b.options, "example"@)
}

/// The number of attributes with the name of `a` and a definition identical
/// to that of `a`.
pub open spec fn count_same(attrs: Seq<AttributeView>, a: AttributeView) -> nat
    decreases attrs.len(),
{
    if attrs.len() == 0 {
        0
    } else {
        count_same(attrs.drop_last(), a) + (if attrs.last().name == a.name && same_definition(attrs.last(), a) {
            1nat
        } else {
            0nat
        })
    }
}

/// The global slots of a model: of all attributes by name (each name
/// holding its last attribute, in the order names first come), those whose
/// definition more than one attribute of that name shares.
pub open spec fn global_slots(objs: Seq<object::ObjectView>) -> Seq<(Seq<char>, AttributeView)> {
    named_attributes(all_attributes(objs)).filter(shared_in(all_attributes(objs)))
}

/// An entry whose attribute's definition more than one attribute of its
/// name among `attrs` shares.
pub open spec fn shared_in(attrs: Seq<AttributeView>) -> spec_fn((Seq<char>, AttributeView)) -> bool {
    |e: (Seq<char>, AttributeView)| count_same(attrs, e.1) > 1
}

/// The keyed view of a list of slots.
pub open spec fn slots_view(v: Seq<(String, AttributeDefinition)>) -> Seq<(Seq<char>, AttributeDefinition)> {
    v.map_values(|e: (String, AttributeDefinition)| (e.0@, e.1))
}

/// The attributes of all objects, object by object.
fn collect_attributes(model: &DataModel) -> (r: Vec<Attribute>)
    ensures
        object::attrs_view(r@) == all_attributes(object::objects_view(model.objects@)),
{
    let ghost objs = object::objects_view(model.objects@);
    let mut r: Vec<Attribute> = Vec::new();
    let mut k: usize = 0;
    assert(objs.take(0) =~= Seq::<object::ObjectView>::empty());
    while k < model.objects.len()
        invariant
            k <= model.objects@.len(),
            objs == object::objects_view(model.objects@),
            object::attrs_view(r@) == all_attributes(objs.take(k as int)),
        decreases model.objects.len() - k,
    {
        let o = &model.objects[k];
        assert(objs[k as int] == o@);
        let ghost base = object::attrs_view(r@);
        let mut i: usize = 0;
        while i < o.attributes.len()
            invariant
                i <= o.attributes@.len(),
                object::attrs_view(r@) == base + o@.attributes.take(i as int),
            decreases o.attributes.len() - i,
        {
            let ghost before = object::attrs_view(r@);
            let a = attribute::copy_attribute(&o.attributes[i]);
            assert(o@.attributes[i as int] == o.attributes@[i as int]@);
            r.push(a);
            assert(object::attrs_view(r@) =~= before.push(a@));
            assert(base + o@.attributes.take(i + 1) =~= (base + o@.attributes.take(i as int)).push(a@));
            i = i + 1;
        }
        assert(o@.attributes.take(i as int) =~= o@.attributes);
        assert(objs.take(k + 1).drop_last() =~= objs.take(k as int));
        assert(objs.take(k + 1).last() == o@);
        k = k + 1;
    }
    assert(objs.take(k as int) =~= objs);
    r
}

/// The `example` option values of the options, in order.
fn example_values(opts: &Vec<attribute::AttrOption>) -> (r: Vec<String>)
    ensures
        text::strings_view(r@) == option_values(opts@.map_values(|o: attribute::AttrOption| o@), "example"@),
{
    let ghost t = opts@.map_values(|o: attribute::AttrOption| o@);
    let mut r: Vec<String> = Vec::new();
    let mut i: usize = 0;
    assert(text::strings_view(r@) =~= option_values(t.take(0), "example"@));
    while i < opts.len()
        invariant
            i <= opts@.len(),
            t == opts@.map_values(|o: attribute::AttrOption| o@),
            text::strings_view(r@) == option_values(t.take(i as int), "example"@),
        decreases opts.len() - i,
    {
        assert(t.take(i + 1).drop_last() =~= t.take(i as int));
        assert(t.take(i + 1).last() == opts@[i as int]@);
        proof {
            reveal_strlit("example");
        }
        if text::str_eq(opts[i].key.as_str(), "example") {
            let ghost before = text::strings_view(r@);
            let v = opts[i].value.clone();
            r.push(v);
            assert(text::strings_view(r@) =~= before.push(v@));
        }
        i = i + 1;
    }
    assert(t.take(i as int) =~= t);
    r
}

/// The strings are equal, one by one.
fn strings_equal(a: &Vec<String>, b: &Vec<String>) -> (r: bool)
    ensures
        r == (text::strings_view(a@) == text::strings_view(b@)),
{
    if a.len() != b.len() {
        assert(text::strings_view(a@).len() != text::strings_view(b@).len());
        return false;
    }
    let mut i: usize = 0;
    while i < a.len()
        invariant
            i <= a@.len(),
            a@.len() == b@.len(),
            forall|j: int| 0 <= j < i ==> a@[j]@ == b@[j]@,
        decreases a.len() - i,
    {
        if !text::str_eq(a[i].as_str(), b[i].as_str()) {
            assert(text::strings_view(a@)[i as int] != text::strings_view(b@)[i as int]);
            return false;
        }
        i = i + 1;
    }
    assert(text::strings_view(a@) =~= text::strings_view(b@));
    true
}

/// The optional strings are equal.
fn opt_strings_equal(a: &Option<String>, b: &Option<String>) -> (r: bool)
    ensures
        r == (opt_view(*a) == opt_view(*b)),
{
    match (a, b) {
        (Some(x), Some(y)) => text::str_eq(x.as_str(), y.as_str()),
        (None, None) => true,
        _ => false,
    }
}

/// The bound an option gives (see [`bound_of`]).
fn bound_value(opts: &Vec<attribute::AttrOption>, key: &str) -> (r: Option<i64>)
    ensures
        r == bound_of(opts@.map_values(|o: attribute::AttrOption| o@), key@),
{
    match first_option(opts, key) {
        Some(v) => attribute::parse_i64(v.as_str()),
        None => None,
    }
}

/// Whether two attributes are written as identical definitions.
fn is_same_definition(a: &Attribute, b: &Attribute) -> (r: bool)
    requires
        a@.dtypes.len() > 0,
        b@.dtypes.len() > 0,
    ensures
        r == same_definition(a@, b@),
{
    proof {
        reveal_strlit("minimum");
        reveal_strlit("maximum");
    }
    let ra = if text::str_eq(a.dtypes[0].as_str(), "string") { None } else { Some(a.dtypes[0].clone()) };
    let rb = if text::str_eq(b.dtypes[0].as_str(), "string") { None } else { Some(b.dtypes[0].clone()) };
    assert(opt_view(ra) == range_of(a@));
    assert(opt_view(rb) == range_of(b@));
    opt_strings_equal(&a.term, &b.term) && a.is_array == b.is_array && opt_strings_equal(&ra, &rb)
        && text::str_eq(a.docstring.as_str(), b.docstring.as_str()) && a.is_id == b.is_id
        && a.required == b.required && bound_value(&a.options, "minimum") == bound_value(
        &b.options,
        "minimum",
    ) && bound_value(&a.options, "maximum") == bound_value(&b.options, "maximum")
        && strings_equal(&example_values(&a.options), &example_values(&b.options))
}

/// The number of attributes with the name of `a` and an identical
/// definition (see [`count_same`]).
fn count_same_exec(attrs: &Vec<Attribute>, a: &Attribute) -> (r: usize)
    requires
        a@.dtypes.len() > 0,
        attributes_writable(object::attrs_view(attrs@)),
    ensures
        r == count_same(object::attrs_view(attrs@), a@),
{
    let ghost av = object::attrs_view(attrs@);
    let mut n: usize = 0;
    let mut j: usize = 0;
    while j < attrs.len()
        invariant
            j <= attrs@.len(),
            av == object::attrs_view(attrs@),
            a@.dtypes.len() > 0,
            attributes_writable(av),
            n == count_same(av.take(j as int), a@),
            n <= j,
        decreases attrs.len() - j,
    {
        assert(av.take(j + 1).drop_last() =~= av.take(j as int));
        assert(av.take(j + 1).last() == attrs@[j as int]@);
        assert(attribute_writable(av[j as int]));
        if text::str_eq(attrs[j].name.as_str(), a.name.as_str()) && is_same_definition(&attrs[j], a) {
            n = n + 1;
        }
        j = j + 1;
    }
    assert(av.take(j as int) =~= av);
    n
}

/// The attributes by name (see [`named_attributes`]), as positions.
fn named_positions(attrs: &Vec<Attribute>) -> (r: Vec<(String, usize)>)
    ensures
        related(
            r@.map_values(|e: (String, usize)| (e.0@, e.1)),
            named_attributes(object::attrs_view(attrs@)),
            position_rel(object::attrs_view(attrs@)),
        ),
        keys_distinct(named_attributes(object::attrs_view(attrs@))),
        forall|i: int| 0 <= i < r@.len() ==> (#[trigger] r@[i]).1 < attrs@.len(),
{
    let ghost av = object::attrs_view(attrs@);
    let mut r: Vec<(String, usize)> = Vec::new();
    let mut j: usize = 0;
    assert(av.take(0) =~= Seq::<AttributeView>::empty());
    assert(r@.map_values(|e: (String, usize)| (e.0@, e.1)) =~= Seq::<(Seq<char>, usize)>::empty());
    while j < attrs.len()
        invariant
            j <= attrs@.len(),
            av == object::attrs_view(attrs@),
            related(
                r@.map_values(|e: (String, usize)| (e.0@, e.1)),
                named_attributes(av.take(j as int)),
                position_rel(av),
            ),
            keys_distinct(named_attributes(av.take(j as int))),
            keys_distinct(r@.map_values(|e: (String, usize)| (e.0@, e.1))),
            forall|i: int| 0 <= i < r@.len() ==> (#[trigger] r@[i]).1 < j,
        decreases attrs.len() - j,
    {
        let ghost rv = r@.map_values(|e: (String, usize)| (e.0@, e.1));
        let ghost key = attrs@[j as int]@.name;
        assert(av.take(j + 1).drop_last() =~= av.take(j as int));
        assert(av.take(j + 1).last() == av[j as int]);
        assert(av[j as int] == attrs@[j as int]@);
        proof {
            lemma_index_insert_related(rv, named_attributes(av.take(j as int)), key, j as usize, av[j as int], position_rel(av));
        }
        let mut p: usize = 0;
        let mut found = false;
        while p < r.len()
            invariant
                p <= r@.len(),
                rv == r@.map_values(|e: (String, usize)| (e.0@, e.1)),
                key == attrs@[j as int]@.name,
                j < attrs@.len(),
                !found ==> forall|q: int| 0 <= q < p ==> rv[q].0 != key,
                found ==> p < r@.len() && rv[p as int].0 == key,
            ensures
                !found ==> p >= r@.len(),
            decreases r.len() - p + (if found { 0int } else { 1int }),
        {
            if text::str_eq(r[p].0.as_str(), attrs[j].name.as_str()) {
                found = true;
                break;
            }
            p = p + 1;
        }
        if found {
            let nm = attrs[j].name.clone();
            r.set(p, (nm, j));
            proof {
                assert(exists|i: int| 0 <= i < rv.len() && #[trigger] rv[i].0 == key) by {
                    assert(rv[p as int].0 == key);
                }
                let c = choose|i: int| 0 <= i < rv.len() && #[trigger] rv[i].0 == key;
                if c != p {
                    if c < p {
                        assert(rv[c].0 != rv[p as int].0);
                    } else {
                        assert(rv[p as int].0 != rv[c].0);
                    }
                }
                assert(r@.map_values(|e: (String, usize)| (e.0@, e.1)) =~= index_insert(rv, key, j as usize));
            }
        } else {
            let nm = attrs[j].name.clone();
            r.push((nm, j));
            proof {
                assert(!exists|i: int| 0 <= i < rv.len() && #[trigger] rv[i].0 == key);
                assert(r@.map_values(|e: (String, usize)| (e.0@, e.1)) =~= index_insert(rv, key, j as usize));
            }
        }
        j = j + 1;
    }
    assert(av.take(j as int) =~= av);
    r
}

/// A position of the attribute.
pub open spec fn position_rel(av: Seq<AttributeView>) -> spec_fn(usize, AttributeView) -> bool {
    |p: usize, a: AttributeView| p < av.len() && av[p as int] == a
}

/// The global slots of a model (see [`global_slots`]), each with its LinkML
/// definition.
fn extract_slots(model: &DataModel) -> (r: Vec<(String, AttributeDefinition)>)
    requires
        forall|k: int| 0 <= k < model.objects@.len() ==> attributes_writable(#[trigger] model.objects@[k]@.attributes),
    ensures
        related(slots_view(r@), global_slots(object::objects_view(model.objects@)), definition_rel()),
        keys_distinct(slots_view(r@)),
{
    let ghost objs = object::objects_view(model.objects@);
    let flat = collect_attributes(model);
    let ghost av = object::attrs_view(flat@);
    proof {
        lemma_all_writable(objs);
    }
    let named = named_positions(&flat);
    let ghost na = named_attributes(av);
    let ghost pred = shared_in(av);
    let mut slots: Vec<(String, AttributeDefinition)> = Vec::new();
    let mut i: usize = 0;
    assert(na.take(0) =~= Seq::<(Seq<char>, AttributeView)>::empty());
    proof {
        reveal(Seq::filter);
    }
    assert(slots_view(slots@) =~= Seq::<(Seq<char>, AttributeDefinition)>::empty());
    while i < named.len()
        invariant
            i <= named@.len(),
            av == object::attrs_view(flat@),
            av == all_attributes(objs),
            attributes_writable(av),
            na == named_attributes(av),
            pred == shared_in(av),
            keys_distinct(na),
            related(named@.map_values(|e: (String, usize)| (e.0@, e.1)), na, position_rel(av)),
            forall|q: int| 0 <= q < named@.len() ==> (#[trigger] named@[q]).1 < flat@.len(),
            related(slots_view(slots@), na.take(i as int).filter(pred), definition_rel()),
            keys_distinct(slots_view(slots@)),
            forall|q: int| 0 <= q < slots@.len() ==> #[trigger] na.take(i as int).filter(pred)[q].0 == slots_view(slots@)[q].0,
            forall|q: int, x: int| 0 <= q < slots@.len() && i <= x < na.len() ==> #[trigger] slots_view(slots@)[q].0 != #[trigger] na[x].0,
        decreases named.len() - i,
    {
        proof {
            reveal(Seq::filter);
        }
        let idx = named[i].1;
        let ghost nv = named@.map_values(|e: (String, usize)| (e.0@, e.1));
        assert(nv[i as int] == (named@[i as int].0@, idx));
        assert(nv.len() == named@.len());
        proof {
            lemma_related_at(nv, na, position_rel(av), i as int);
        }
        assert(av[idx as int] == na[i as int].1);
        assert(na.take(i + 1) =~= na.take(i as int).push(na[i as int]));
        proof {
            na.take(i as int).lemma_filter_push(na[i as int], pred);
        }
        assert(attribute_writable(av[idx as int]));
        let a = &flat[idx];
        assert(a@ == av[idx as int]);
        let count = count_same_exec(&flat, a);
        if count > 1 {
            let d = attribute_definition(a);
            let ghost sb = slots_view(slots@);
            let nm = named[i].0.clone();
            slots.push((nm, d));
            proof {
                assert(slots_view(slots@) =~= sb.push((na[i as int].0, d)));
                let fl = na.take(i as int).filter(pred);
                assert(na.take(i + 1).filter(pred) =~= fl.push(na[i as int]));
                assert(definition_rel()(d, na[i as int].1));
                lemma_related_push(sb, fl, na[i as int].0, d, na[i as int].1, definition_rel());
                assert forall|p: int, q: int| 0 <= p < q < slots_view(slots@).len() implies #[trigger] slots_view(slots@)[p].0 != #[trigger] slots_view(slots@)[q].0 by {
                    if q == sb.len() {
                        assert(sb[p].0 != na[i as int].0);
                    } else {
                        assert(sb[p].0 != sb[q].0);
                    }
                }
                assert forall|q: int, x: int| 0 <= q < slots_view(slots@).len() && i + 1 <= x < na.len() implies #[trigger] slots_view(slots@)[q].0 != #[trigger] na[x].0 by {
                    if q == sb.len() {
                        assert(na[i as int].0 != na[x].0);
                    }
                }
            }
        } else {
            assert(na.take(i + 1).filter(pred) =~= na.take(i as int).filter(pred));
        }
        i = i + 1;
    }
    assert(na.take(i as int) =~= na);
    assert(na.filter(pred) =~= global_slots(objs));
    slots
}

/// Where every object's attributes can be written, so can all attributes.
proof fn lemma_all_writable(objs: Seq<object::ObjectView>)
    requires
        forall|k: int| 0 <= k < objs.len() ==> attributes_writable(#[trigger] objs[k].attributes),
    ensures
        attributes_writable(all_attributes(objs)),
    decreases objs.len(),
{
    if objs.len() > 0 {
        let p = objs.drop_last();
        assert forall|k: int| 0 <= k < p.len() implies attributes_writable(#[trigger] p[k].attributes) by {
            assert(p[k] == objs[k]);
        }
        lemma_all_writable(p);
        let l = objs.last();
        assert(attributes_writable(objs[objs.len() - 1].attributes));
        let all = all_attributes(objs);
        assert forall|i: int| 0 <= i < all.len() implies attribute_writable(#[trigger] all[i]) by {
            let q = all_attributes(p);
            if i < q.len() {
                assert(all[i] == q[i]);
            } else {
                assert(all[i] == l.attributes[i - q.len()]);
            }
        }
    }
}

/// The entries whose keys are not among `names`.
pub open spec fn kept_entries<V>(s: Seq<(Seq<char>, V)>, names: Seq<Seq<char>>) -> Seq<(Seq<char>, V)>
    decreases s.len(),
{
    if s.len() == 0 {
        Seq::empty()
    } else if names.contains(s.last().0) {
        kept_entries(s.drop_last(), names)
    } else {
        kept_entries(s.drop_last(), names).push(s.last())
    }
}

/// The keys of the entries that are among `names`.
pub open spec fn slot_keys<V>(s: Seq<(Seq<char>, V)>, names: Seq<Seq<char>>) -> Seq<Seq<char>>
    decreases s.len(),
{
    if s.len() == 0 {
        Seq::empty()
    } else if names.contains(s.last().0) {
        slot_keys(s.drop_last(), names).push(s.last().0)
    } else {
        slot_keys(s.drop_last(), names)
    }
}

/// Where no name is given, every entry is kept and none is a slot.
proof fn lemma_no_slot_names<V>(s: Seq<(Seq<char>, V)>)
    ensures
        kept_entries(s, Seq::empty()) == s,
        slot_keys(s, Seq::<Seq<char>>::empty()) == Seq::<Seq<char>>::empty(),
    decreases s.len(),
{
    if s.len() > 0 {
        lemma_no_slot_names(s.drop_last());
        assert(s.drop_last().push(s.last()) =~= s);
    }
}

/// The names of the slots.
pub open spec fn slot_names(slots: Seq<(String, AttributeDefinition)>) -> Seq<Seq<char>> {
    slots.map_values(|e: (String, AttributeDefinition)| e.0@)
}

/// Whether a slot has the name.
fn is_slot_name(slots: &Vec<(String, AttributeDefinition)>, name: &str) -> (r: bool)
    ensures
        r == slot_names(slots@).contains(name@),
{
    let mut i: usize = 0;
    while i < slots.len()
        invariant
            i <= slots@.len(),
            forall|j: int| 0 <= j < i ==> slot_names(slots@)[j] != name@,
        decreases slots.len() - i,
    {
        if text::str_eq(slots[i].0.as_str(), name) {
            assert(slot_names(slots@)[i as int] == name@);
            return true;
        }
        i = i + 1;
    }
    proof {
        if slot_names(slots@).contains(name@) {
            let j = choose|j: int| 0 <= j < slot_names(slots@).len() && slot_names(slots@)[j] == name@;
            assert(slot_names(slots@)[j] != name@);
        }
    }
    false
}

/// Every kept entry is an entry of `s`.
proof fn lemma_kept_from<V>(s: Seq<(Seq<char>, V)>, names: Seq<Seq<char>>)
    ensures
        forall|j: int| 0 <= j < kept_entries(s, names).len() ==>
            exists|m: int| 0 <= m < s.len() && #[trigger] kept_entries(s, names)[j] == s[m],
    decreases s.len(),
{
    if s.len() > 0 {
        lemma_kept_from(s.drop_last(), names);
        let k = kept_entries(s, names);
        let p = kept_entries(s.drop_last(), names);
        assert forall|j: int| 0 <= j < k.len() implies exists|m: int| 0 <= m < s.len() && #[trigger] k[j] == s[m] by {
            if j < p.len() {
                assert(k[j] == p[j]);
                let m = choose|m: int| 0 <= m < s.drop_last().len() && p[j] == s.drop_last()[m];
                assert(k[j] == s[m]);
            } else {
                assert(k[j] == s[s.len() - 1]);
            }
        }
    }
}

/// Entries related key for key keep the same entries, related, and the
/// same slot keys.
proof fn lemma_kept_related<A, B>(
    sa: Seq<(Seq<char>, A)>,
    sb: Seq<(Seq<char>, B)>,
    names: Seq<Seq<char>>,
    rel: spec_fn(A, B) -> bool,
)
    requires
        related(sa, sb, rel),
    ensures
        related(kept_entries(sa, names), kept_entries(sb, names), rel),
        slot_keys(sa, names) == slot_keys(sb, names),
    decreases sa.len(),
{
    if sa.len() > 0 {
        let pa = sa.drop_last();
        let pb = sb.drop_last();
        assert(related(pa, pb, rel)) by {
            assert forall|i: int| 0 <= i < pa.len() implies #[trigger] pa[i].0 == pb[i].0 && rel(pa[i].1, pb[i].1) by {
                lemma_related_at(sa, sb, rel, i);
            }
        }
        lemma_kept_related(pa, pb, names, rel);
        lemma_related_at(sa, sb, rel, sa.len() - 1);
        let ka = kept_entries(sa, names);
        let kb = kept_entries(sb, names);
        if !names.contains(sa.last().0) {
            let qa = kept_entries(pa, names);
            let qb = kept_entries(pb, names);
            assert forall|i: int| 0 <= i < ka.len() implies #[trigger] ka[i].0 == kb[i].0 && rel(ka[i].1, kb[i].1) by {
                if i < qa.len() {
                    lemma_related_at(qa, qb, rel, i);
                }
            }
        }
    }
}

/// Keeping entries keeps their keys distinct.
proof fn lemma_kept_distinct<V>(s: Seq<(Seq<char>, V)>, names: Seq<Seq<char>>)
    requires
        keys_distinct(s),
    ensures
        keys_distinct(kept_entries(s, names)),
    decreases s.len(),
{
    if s.len() > 0 {
        let p = s.drop_last();
        assert(keys_distinct(p)) by {
            assert forall|i: int, j: int| 0 <= i < j < p.len() implies #[trigger] p[i].0 != #[trigger] p[j].0 by {
                assert(s[i].0 != s[j].0);
            }
        }
        lemma_kept_distinct(p, names);
        if !names.contains(s.last().0) {
            lemma_kept_from(p, names);
            let q = kept_entries(p, names);
            let k = kept_entries(s, names);
            assert forall|i: int, j: int| 0 <= i < j < k.len() implies #[trigger] k[i].0 != #[trigger] k[j].0 by {
                if j == q.len() {
                    let m = choose|m: int| 0 <= m < p.len() && #[trigger] q[i] == p[m];
                    assert(s[m].0 != s[s.len() - 1].0);
                } else {
                    assert(q[i].0 != q[j].0);
                }
            }
        }
    }
}

/// Moves the attributes of a class that are among the slots to its slot
/// list: the class's slots become the names of those attributes, in order,
/// and its attributes keep the others.
fn remove_global_slots(class: &mut ClassDefinition, slots: &Vec<(String, AttributeDefinition)>)
    ensures
        ({
            let s = match old(class).attributes {
                Some(m) => attribute_entries(m),
                None => Seq::empty(),
            };
            &&& text::strings_view(final(class).slots@) == slot_keys(s, slot_names(slots@))
            &&& final(class).attributes matches Some(m) && attribute_entries(m) == kept_entries(
                s,
                slot_names(slots@),
            )
        }),
        final(class).description == old(class).description,
        final(class).class_uri == old(class).class_uri,
        final(class).is_a == old(class).is_a,
        final(class).tree_root == old(class).tree_root,
        final(class).slot_usage == old(class).slot_usage,
        final(class).mixins == old(class).mixins,
{
    let ghost names = slot_names(slots@);
    let mut entries = match class.attributes.take() {
        Some(m) => attribute_map_entries(m),
        None => Vec::new(),
    };
    let ghost s = match old(class).attributes {
        Some(m) => attribute_entries(m),
        None => Seq::<(Seq<char>, AttributeDefinition)>::empty(),
    };
    assert(entries@.map_values(|e: (String, AttributeDefinition)| (e.0@, e.1)) == s);
    assert(keys_distinct(s));
    assert(s.len() == entries@.len());
    assert(entries@.len() == entries.len());
    let mut kept = attribute_map_new();
    let mut slot_list: Vec<String> = Vec::new();
    let ghost total = s.len();
    let mut i: usize = 0;
    assert(s.take(0) =~= Seq::<(Seq<char>, AttributeDefinition)>::empty());
    assert(text::strings_view(slot_list@) =~= Seq::<Seq<char>>::empty());
    while entries.len() > 0
        invariant
            names == slot_names(slots@),
            keys_distinct(s),
            i + entries@.len() == s.len(),
            s.len() <= usize::MAX,
            entries@.map_values(|e: (String, AttributeDefinition)| (e.0@, e.1)) == s.skip(i as int),
            attribute_entries(kept) == kept_entries(s.take(i as int), names),
            text::strings_view(slot_list@) == slot_keys(s.take(i as int), names),
        decreases entries.len(),
    {
        let ghost before = entries@;
        let e = entries.remove(0);
        let (k, d) = e;
        assert(before.map_values(|e: (String, AttributeDefinition)| (e.0@, e.1))[0] == s.skip(i as int)[0]);
        assert(s[i as int] == (k@, d));
        assert(entries@ =~= before.drop_first());
        let ghost ev = entries@.map_values(|e: (String, AttributeDefinition)| (e.0@, e.1));
        let ghost bv = before.map_values(|e: (String, AttributeDefinition)| (e.0@, e.1));
        assert forall|j: int| 0 <= j < ev.len() implies #[trigger] ev[j] == s.skip(i + 1)[j] by {
            assert(bv[j + 1] == s.skip(i as int)[j + 1]);
        }
        assert(ev =~= s.skip(i + 1));
        assert(s.take(i + 1).drop_last() =~= s.take(i as int));
        assert(s.take(i + 1).last() == (k@, d));
        if is_slot_name(slots, k.as_str()) {
            let ghost sv = text::strings_view(slot_list@);
            slot_list.push(k);
            assert(text::strings_view(slot_list@) =~= sv.push(k@));
        } else {
            proof {
                lemma_kept_from(s.take(i as int), names);
                let kp = kept_entries(s.take(i as int), names);
                assert forall|j: int| 0 <= j < kp.len() implies (#[trigger] kp[j]).0 != k@ by {
                    let m = choose|m: int| 0 <= m < s.take(i as int).len() && kp[j] == s.take(i as int)[m];
                    assert(s[m].0 != s[i as int].0);
                }
                lemma_index_insert_fresh(kp, k@, d);
            }
            attribute_map_insert(&mut kept, k, d);
        }
        i = i + 1;
    }
    assert(s.take(i as int) =~= s);
    class.slots = slot_list;
    class.attributes = Some(kept);
}

// ---------------------------------------------------------------------------
// The schema of a model
// ---------------------------------------------------------------------------

/// The prefix of a model's schema: that of its front matter, `md` where it
/// has none.
pub open spec fn schema_prefix(config: Option<FrontMatter>) -> Seq<char> {
    match config {
        Some(c) => c.prefix@,
        None => "md"@,
    }
}

/// The pairs as an ordered map, inserted in order.
pub open spec fn pair_entries(pairs: Seq<(Seq<char>, Seq<char>)>) -> Seq<(Seq<char>, Seq<char>)>
    decreases pairs.len(),
{
    if pairs.len() == 0 {
        Seq::empty()
    } else {
        index_insert(pair_entries(pairs.drop_last()), pairs.last().0, pairs.last().1)
    }
}

/// The prefixes of a model's schema: those of its front matter, in order.
pub open spec fn schema_prefixes(config: Option<FrontMatter>) -> Seq<(Seq<char>, Seq<char>)> {
    match config {
        Some(c) => match c.prefixes {
            Some(p) => pair_entries(text::pairs_view(p@)),
            None => Seq::empty(),
        },
        None => Seq::empty(),
    }
}

/// The name of a model's schema: the model's, `Unnamed Data Model` where
/// it has none.
pub open spec fn schema_name(name: Option<String>) -> Seq<char> {
    match name {
        Some(n) => n@,
        None => "Unnamed Data Model"@,
    }
}

/// The objects by name, in the order their names first come, each name
/// holding its last object.
pub open spec fn named_objects(objs: Seq<object::ObjectView>) -> Seq<(Seq<char>, object::ObjectView)>
    decreases objs.len(),
{
    if objs.len() == 0 {
        Seq::empty()
    } else {
        index_insert(named_objects(objs.drop_last()), objs.last().name, objs.last())
    }
}

/// The enumerations by name, in the order their names first come, each
/// name holding its last enumeration.
pub open spec fn named_enums(enums: Seq<Enumeration>) -> Seq<(Seq<char>, Enumeration)>
    decreases enums.len(),
{
    if enums.len() == 0 {
        Seq::empty()
    } else {
        index_insert(named_enums(enums.drop_last()), enums.last().name@, enums.last())
    }
}

/// The LinkML enumeration written for an enumeration (see
/// [`enum_definition`]).
pub open spec fn enum_matches(d: EnumDefinition, e: Enumeration) -> bool {
    &&& opt_view(d.description) == Some(e.docstring@)
    &&& value_entries(d.permissible_values).map_values(
        |x: (Seq<char>, PermissibleValue)| (x.0, value_view(x.1)),
    ) == e.mappings@.map_values(
        |m: (Seq<char>, Seq<char>)| (m.0, (None::<Seq<char>>, Some(m.1), Some(m.1))),
    )
}

/// An enumeration written for an enumeration.
pub open spec fn enum_rel() -> spec_fn(EnumDefinition, Enumeration) -> bool {
    |d: EnumDefinition, e: Enumeration| enum_matches(d, e)
}

/// The names of the global slots of the objects.
pub open spec fn slot_keys_of(objs: Seq<object::ObjectView>) -> Seq<Seq<char>> {
    global_slots(objs).map_values(|e: (Seq<char>, AttributeView)| e.0)
}

/// The class of a schema written for an object, given the names of the
/// global slots: as in [`class_matches`], but the attributes that are
/// global slots are left out of its attributes and listed by name, in
/// order, as its slots.
pub open spec fn schema_class_matches(c: ClassDefinition, o: object::ObjectView, names: Seq<Seq<char>>) -> bool {
    &&& opt_view(c.description) == Some(o.docstring)
    &&& opt_view(c.class_uri) == o.term
    &&& text::strings_view(c.slots@) == slot_keys(named_attributes(o.attributes), names)
    &&& opt_view(c.is_a) == o.parent
    &&& c.mixins@.len() == 0
    &&& c.attributes matches Some(m) && related(
        attribute_entries(m),
        kept_entries(named_attributes(o.attributes), names),
        definition_rel(),
    ) && keys_distinct(attribute_entries(m))
    &&& if pattern_usages(o.attributes).len() == 0 {
        c.slot_usage is None
    } else {
        c.slot_usage matches Some(u) && related(usage_entries(u), pattern_usages(o.attributes), usage_rel())
    }
}

/// Where there are no global slots, the class of a schema is the class
/// written for the object.
pub proof fn lemma_class_without_slots(c: ClassDefinition, o: object::ObjectView)
    requires
        schema_class_matches(c, o, Seq::empty()),
    ensures
        class_matches(c, o),
{
    lemma_no_slot_names(named_attributes(o.attributes));
    assert(text::strings_view(c.slots@).len() == 0);
}

/// A class written for an object, the tree root where the object's name is
/// `root`, with the global slots named in `names`.
pub open spec fn class_rel(root: Option<Seq<char>>, names: Seq<Seq<char>>) -> spec_fn(ClassDefinition, object::ObjectView) -> bool {
    |c: ClassDefinition, o: object::ObjectView|
        schema_class_matches(c, o, names) && c.tree_root == (if root == Some(o.name) {
            Some(true)
        } else {
            None::<bool>
        })
}

/// A root for the objects: the name of one of them, none where there are
/// none; where the objects have distinct names and none reaches itself
/// through the objects it uses, one that no object uses.
pub open spec fn root_of(root: Option<Seq<char>>, objs: Seq<object::ObjectView>) -> bool {
    match root {
        Some(r) => tree::names_of(objs).contains(r) && (tree::plain_model(objs) ==> tree::used_by_none(objs, r)),
        None => objs.len() == 0,
    }
}

/// Every attribute of every object of the model can be written to LinkML.
pub open spec fn model_writable(model: DataModel) -> bool {
    forall|k: int| 0 <= k < model.objects@.len() ==> attributes_writable(#[trigger] model.objects@[k]@.attributes)
}

/// The LinkML schema written for a model: prefix, prefixes and name from
/// the model, `string` as default range and `linkml:types` as import; a
/// class for each object by name, one of which, where there are any, is the
/// tree root, its attributes that are global slots listed as its slots;
/// the global slots, each with its definition; an enumeration for each
/// enumeration by name.
pub open spec fn linkml_matches(l: LinkML, model: DataModel) -> bool {
    let objs = object::objects_view(model.objects@);
    &&& l.id@ == schema_prefix(model.config)
    &&& l.default_prefix@ == schema_prefix(model.config)
    &&& string_entries(l.prefixes) == schema_prefixes(model.config)
    &&& l.name@ == schema_name(model.name)
    &&& l.title@ == schema_name(model.name)
    &&& l.description is None
    &&& l.license is None
    &&& l.see_also@.len() == 0
    &&& opt_view(l.default_range) == Some("string"@)
    &&& text::strings_view(l.imports@) == seq!["linkml:types"@]
    &&& exists|root: Option<Seq<char>>|
        root_of(root, objs) && #[trigger] related(
            class_entries(l.classes),
            named_objects(objs),
            class_rel(root, slot_keys_of(objs)),
        )
    &&& keys_distinct(class_entries(l.classes))
    &&& related(attribute_entries(l.slots), global_slots(objs), definition_rel())
    &&& keys_distinct(attribute_entries(l.slots))
    &&& related(enum_entries(l.enums), named_enums(model.enums@), enum_rel())
    &&& keys_distinct(enum_entries(l.enums))
}

/// The last name of the topological order of the model's dependency
/// graph, whose edges run from each used object to its user: the name of
/// one of the objects, none where there are none; without repeated names
/// or cycles, a name that no object uses.
fn tree_root_name(model: &DataModel) -> (r: Option<String>)
    requires
        tree::graph_fits(*model),
    ensures
        root_of(text::opt_string_view(r), object::objects_view(model.objects@)),
{
    let ghost objs = object::objects_view(model.objects@);
    let g = tree::dependency_graph(model);
    proof {
        assert(tree::node_names(g) =~= tree::names_of(objs)) by {
            assert forall|i: int| 0 <= i < tree::node_names(g).len() implies tree::node_names(g)[i] == tree::names_of(objs)[i] by {
                assert(object::objects_view(tree::graph_nodes(g))[i] == objs[i]);
            }
        }
    }
    let order = tree::get_topological_order(&g);
    if order.len() > 0 {
        let last = order.len() - 1;
        let r = order[last].clone();
        assert(text::strings_view(order@)[last as int] == r@);
        assert(text::strings_view(order@).contains(r@));
        assert(tree::node_names(g).contains(r@));
        proof {
            if tree::plain_model(objs) {
                assert(tree::plain_graph(g));
                assert forall|k: int| 0 <= k < objs.len() implies !#[trigger] tree::attribute_deps(
                    objs[k].attributes,
                    tree::names_of(objs),
                ).contains(r@) by {
                    if tree::attribute_deps(objs[k].attributes, tree::names_of(objs)).contains(r@) {
                        tree::lemma_dependency_edge(objs, k, r@, objs.len() as int);
                        let a = tree::last_named(objs, r@)->Some_0;
                        let edges = tree::graph_edges(g);
                        let e = choose|e: int| 0 <= e < edges.len() && edges[e] == (a, k);
                        assert(tree::edge_in_graph(g, edges[e]));
                        assert(tree::comes_before(
                            text::strings_view(order@),
                            tree::node_names(g)[a],
                            tree::node_names(g)[k],
                        ));
                        tree::lemma_last_named(objs, r@);
                        assert(tree::node_names(g)[a] == r@);
                        let (i, j) = choose|i: int, j: int|
                            0 <= i < j < text::strings_view(order@).len()
                                && #[trigger] text::strings_view(order@)[i] == r@
                                && #[trigger] text::strings_view(order@)[j] == tree::node_names(g)[k];
                        assert(text::strings_view(order@)[last as int] == r@);
                    }
                }
            }
        }
        Some(r)
    } else {
        proof {
            if objs.len() > 0 {
                assert(tree::names_of(objs)[0] == objs[0].name);
                assert(tree::node_names(g).contains(objs[0].name));
                assert(text::strings_view(order@).contains(objs[0].name));
            }
        }
        None
    }
}

impl LinkML {
    /// Writes the LinkML schema of a model (see [`linkml_matches`]).
    pub fn from_model(model: &DataModel) -> (r: LinkML)
        requires
            model_writable(*model),
            tree::graph_fits(*model),
        ensures
            linkml_matches(r, *model),
    {
        let ghost objs = object::objects_view(model.objects@);
        let prefix = match &model.config {
            Some(c) => c.prefix.clone(),
            None => String::from_str("md"),
        };
        let pairs: Vec<(String, String)> = match &model.config {
            Some(c) => match c.prefixes() {
                Some(p) => p,
                None => Vec::new(),
            },
            None => Vec::new(),
        };
        let ghost pv = text::pairs_view(pairs@);
        assert(pair_entries(pv) == schema_prefixes(model.config)) by {
            if pv.len() == 0 {
                assert(pair_entries(pv) =~= Seq::<(Seq<char>, Seq<char>)>::empty());
            }
        }
        let mut prefixes = string_map_new();
        let mut i: usize = 0;
        while i < pairs.len()
            invariant
                i <= pairs@.len(),
                pv == text::pairs_view(pairs@),
                string_entries(prefixes) == pair_entries(pv.take(i as int)),
            decreases pairs.len() - i,
        {
            assert(pv.take(i + 1).drop_last() =~= pv.take(i as int));
            assert(pv[i as int] == (pairs@[i as int].0@, pairs@[i as int].1@));
            string_map_insert(&mut prefixes, pairs[i].0.clone(), pairs[i].1.clone());
            i = i + 1;
        }
        assert(pv.take(i as int) =~= pv);
        let name = match &model.name {
            Some(n) => n.clone(),
            None => String::from_str("Unnamed Data Model"),
        };
        let slots = extract_slots(model);
        let ghost names = slot_keys_of(objs);
        assert(slot_names(slots@) =~= names) by {
            let sv = slots_view(slots@);
            let gs = global_slots(objs);
            assert forall|q: int| 0 <= q < slots@.len() implies #[trigger] slot_names(slots@)[q] == names[q] by {
                assert(sv[q].0 == gs[q].0);
            }
        }
        let root = tree_root_name(model);
        let ghost rv = text::opt_string_view(root);
        let mut classes = class_map_new();
        let mut k: usize = 0;
        assert(objs.take(0) =~= Seq::<object::ObjectView>::empty());
        while k < model.objects.len()
            invariant
                k <= model.objects@.len(),
                objs == object::objects_view(model.objects@),
                model_writable(*model),
                names == slot_keys_of(objs),
                slot_names(slots@) == names,
                rv == text::opt_string_view(root),
                related(class_entries(classes), named_objects(objs.take(k as int)), class_rel(rv, names)),
                keys_distinct(named_objects(objs.take(k as int))),
                keys_distinct(class_entries(classes)),
            decreases model.objects.len() - k,
        {
            let o = &model.objects[k];
            assert(objs[k as int] == o@);
            assert(objs.take(k + 1).drop_last() =~= objs.take(k as int));
            assert(objs.take(k + 1).last() == o@);
            assert(attributes_writable(model.objects@[k as int]@.attributes));
            let mut c = class_definition(o);
            let ghost before = c;
            remove_global_slots(&mut c, &slots);
            proof {
                let s = match before.attributes {
                    Some(m) => attribute_entries(m),
                    None => Seq::empty(),
                };
                lemma_kept_related(s, named_attributes(o@.attributes), names, definition_rel());
                lemma_kept_distinct(s, names);
            }
            let is_root = match &root {
                Some(r) => text::str_eq(r.as_str(), o.name.as_str()),
                None => false,
            };
            if is_root {
                c.tree_root = Some(true);
            }
            assert(class_rel(rv, names)(c, o@));
            proof {
                lemma_index_insert_related(
                    class_entries(classes),
                    named_objects(objs.take(k as int)),
                    o.name@,
                    c,
                    o@,
                    class_rel(rv, names),
                );
            }
            class_map_insert(&mut classes, o.name.clone(), c);
            k = k + 1;
        }
        assert(objs.take(k as int) =~= objs);
        let mut enums = enum_map_new();
        let ghost es = model.enums@;
        let mut j: usize = 0;
        assert(es.take(0) =~= Seq::<Enumeration>::empty());
        while j < model.enums.len()
            invariant
                j <= model.enums@.len(),
                es == model.enums@,
                related(enum_entries(enums), named_enums(es.take(j as int)), enum_rel()),
                keys_distinct(named_enums(es.take(j as int))),
                keys_distinct(enum_entries(enums)),
            decreases model.enums.len() - j,
        {
            let e = &model.enums[j];
            assert(es.take(j + 1).drop_last() =~= es.take(j as int));
            assert(es.take(j + 1).last() == *e);
            let d = enum_definition(e);
            assert(enum_rel()(d, *e));
            proof {
                lemma_index_insert_related(
                    enum_entries(enums),
                    named_enums(es.take(j as int)),
                    e.name@,
                    d,
                    *e,
                    enum_rel(),
                );
            }
            enum_map_insert(&mut enums, e.name.clone(), d);
            j = j + 1;
        }
        assert(es.take(j as int) =~= es);
        let ghost gs = global_slots(objs);
        let ghost sv = slots_view(slots@);
        assert(sv.len() == slots.len());
        let mut slot_list = slots;
        let mut slot_map = attribute_map_new();
        let mut n: usize = 0;
        assert(sv.take(0) =~= Seq::<(Seq<char>, AttributeDefinition)>::empty());
        while slot_list.len() > 0
            invariant
                keys_distinct(sv),
                n + slot_list@.len() == sv.len(),
                slots_view(slot_list@) == sv.skip(n as int),
                attribute_entries(slot_map) == sv.take(n as int),
                sv.len() <= usize::MAX,
            decreases slot_list.len(),
        {
            let ghost before = slot_list@;
            let e = slot_list.remove(0);
            let (key, d) = e;
            assert(slots_view(before)[0] == sv.skip(n as int)[0]);
            assert(sv[n as int] == (key@, d));
            assert(slot_list@ =~= before.drop_first());
            assert(slots_view(slot_list@) =~= sv.skip(n + 1)) by {
                assert forall|j: int| 0 <= j < slots_view(slot_list@).len() implies #[trigger] slots_view(slot_list@)[j] == sv.skip(n + 1)[j] by {
                    assert(slots_view(before)[j + 1] == sv.skip(n as int)[j + 1]);
                }
            }
            proof {
                let t = sv.take(n as int);
                assert forall|j: int| 0 <= j < t.len() implies (#[trigger] t[j]).0 != key@ by {
                    assert(sv[j].0 != sv[n as int].0);
                }
                lemma_index_insert_fresh(t, key@, d);
                assert(sv.take(n + 1) =~= t.push((key@, d)));
            }
            attribute_map_insert(&mut slot_map, key, d);
            n = n + 1;
        }
        assert(sv.take(n as int) =~= sv);
        let mut imports: Vec<String> = Vec::new();
        imports.push(String::from_str("linkml:types"));
        assert(text::strings_view(imports@) =~= seq!["linkml:types"@]);
        let r = LinkML {
            id: prefix.clone(),
            name: name.clone(),
            title: name,
            description: None,
            license: None,
            see_also: Vec::new(),
            prefixes,
            default_prefix: prefix,
            default_range: Some(String::from_str("string")),
            imports,
            classes,
            slots: slot_map,
            enums,
        };
        assert(related(class_entries(r.classes), named_objects(objs), class_rel(rv, names)));
        r
    }
}

/// Whether the first option with the key, where there is one, reads as an
/// `i64`.
fn is_bound_readable(opts: &Vec<attribute::AttrOption>, key: &str) -> (r: bool)
    ensures
        r == bound_readable(opts@.map_values(|o: attribute::AttrOption| o@), key@),
{
    match first_option(opts, key) {
        Some(v) => attribute::parse_i64(v.as_str()).is_some(),
        None => true,
    }
}

/// Whether an attribute can be written to LinkML.
fn is_attribute_writable(a: &Attribute) -> (r: bool)
    ensures
        r == attribute_writable(a@),
{
    proof {
        reveal_strlit("minimum");
        reveal_strlit("maximum");
    }
    a.dtypes.len() > 0 && is_bound_readable(&a.options, "minimum") && is_bound_readable(
        &a.options,
        "maximum",
    )
}

/// Whether every attribute of every object of the model can be written to
/// LinkML.
fn is_model_writable(model: &DataModel) -> (r: bool)
    ensures
        r == model_writable(*model),
{
    let mut k: usize = 0;
    while k < model.objects.len()
        invariant
            k <= model.objects@.len(),
            forall|x: int| 0 <= x < k ==> attributes_writable(#[trigger] model.objects@[x]@.attributes),
        decreases model.objects.len() - k,
    {
        let o = &model.objects[k];
        let mut i: usize = 0;
        while i < o.attributes.len()
            invariant
                i <= o.attributes@.len(),
                k < model.objects@.len(),
                model.objects@[k as int] == *o,
                forall|x: int| 0 <= x < k ==> attributes_writable(#[trigger] model.objects@[x]@.attributes),
                forall|y: int| 0 <= y < i ==> attribute_writable(#[trigger] o@.attributes[y]),
            decreases o.attributes.len() - i,
        {
            assert(o@.attributes[i as int] == o.attributes@[i as int]@);
            if !is_attribute_writable(&o.attributes[i]) {
                assert(!attribute_writable(o@.attributes[i as int]));
                assert(!attributes_writable(model.objects@[k as int]@.attributes));
                return false;
            }
            i = i + 1;
        }
        assert(attributes_writable(model.objects@[k as int]@.attributes));
        k = k + 1;
    }
    true
}

impl LinkML {
    /// Writes the LinkML schema of a model where every attribute of it can
    /// be written (see [`LinkML::from_model`]); none otherwise.
    pub fn try_from_model(model: &DataModel) -> (r: Option<LinkML>)
        requires
            tree::graph_fits(*model),
        ensures
            r is Some <==> model_writable(*model),
            r matches Some(l) ==> linkml_matches(l, *model),
    {
        if is_model_writable(model) {
            Some(LinkML::from_model(model))
        } else {
            None
        }
    }
}

} // verus!
