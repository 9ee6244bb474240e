//! The types of a LinkML schema. Its ordered maps are `indexmap`'s
//! `IndexMap`s, keyed by name; what a map holds is stated by a name for each
//! kind of map, and each operation the library uses has a wrapper.

use vstd::prelude::*;
use indexmap::IndexMap;
use crate::text;

verus! {

#[verifier::external_type_specification]
#[verifier::external_body]
#[verifier::reject_recursive_types(K)]
#[verifier::reject_recursive_types(V)]
#[verifier::reject_recursive_types(S)]
pub struct ExIndexMap<K, V, S>(indexmap::IndexMap<K, V, S>);

/// A LinkML schema.
#[derive(Debug)]
pub struct LinkML {
    pub id: String,
    pub name: String,
    pub title: String,
    pub description: Option<String>,
    pub license: Option<String>,
    pub see_also: Vec<String>,
    pub prefixes: IndexMap<String, String>,
    pub default_prefix: String,
    pub default_range: Option<String>,
    pub imports: Vec<String>,
    pub classes: IndexMap<String, ClassDefinition>,
    pub slots: IndexMap<String, AttributeDefinition>,
    pub enums: IndexMap<String, EnumDefinition>,
}

/// A contributor to a schema.
#[derive(Debug, Clone, PartialEq, Eq)]
pub struct Contributor {
    pub name: String,
}

/// A subset of a schema.
#[derive(Debug, Clone, PartialEq, Eq)]
pub struct Subset {
    pub description: Option<String>,
}

/// A type of a schema, based on another type.
#[derive(Debug, Clone, PartialEq, Eq)]
pub struct TypeDefinition {
    pub base: String,
    pub pattern: Option<String>,
    pub description: Option<String>,
    pub minimum_value: Option<i64>,
}

/// An enumeration: its description and its values by name.
#[derive(Debug)]
pub struct EnumDefinition {
    pub description: Option<String>,
    pub permissible_values: IndexMap<String, PermissibleValue>,
}

/// A value of an enumeration.
#[derive(Debug, Clone, PartialEq, Eq)]
pub struct PermissibleValue {
    pub text: Option<String>,
    pub meaning: Option<String>,
    pub description: Option<String>,
}

/// A class: its description, URI, slots, parent, attributes and how it
/// uses its slots.
#[derive(Debug)]
pub struct ClassDefinition {
    pub description: Option<String>,
    pub class_uri: Option<String>,
    pub slots: Vec<String>,
    pub is_a: Option<String>,
    pub tree_root: Option<bool>,
    pub slot_usage: Option<IndexMap<String, SlotUsage>>,
    pub attributes: Option<IndexMap<String, AttributeDefinition>>,
    pub mixins: Vec<String>,
}

/// An annotation of an attribute.
#[derive(Debug, Clone, PartialEq, Eq)]
pub struct Annotation {
    pub value: Option<String>,
}

/// How a class uses a slot: the pattern its values follow.
#[derive(Debug, Clone, PartialEq, Eq)]
pub struct SlotUsage {
    pub pattern: Option<String>,
}

/// An attribute (a slot) of a class.
#[derive(Debug)]
pub struct AttributeDefinition {
    pub description: Option<String>,
    pub slot_uri: Option<String>,
    pub identifier: Option<bool>,
    pub required: Option<bool>,
    pub range: Option<String>,
    pub readonly: Option<bool>,
    pub multivalued: Option<bool>,
    pub minimum_value: Option<i64>,
    pub maximum_value: Option<i64>,
    pub recommended: Option<bool>,
    pub examples: Vec<Example>,
    pub annotations: Option<IndexMap<String, Annotation>>,
}

/// An example value of an attribute.
#[derive(Debug, Clone, PartialEq, Eq)]
pub struct Example {
    pub value: Option<String>,
    pub description: Option<String>,
}

/// The entries after `IndexMap::insert`: an entry with the key gets the new
/// value and keeps its place; otherwise the entry is added last.
pub open spec fn index_insert<V>(s: Seq<(Seq<char>, V)>, k: Seq<char>, v: V) -> Seq<(Seq<char>, V)> {
    if exists|i: int| 0 <= i < s.len() && #[trigger] s[i].0 == k {
        let i = choose|i: int| 0 <= i < s.len() && #[trigger] s[i].0 == k;
        s.update(i, (k, v))
    } else {
        s.push((k, v))
    }
}

/// The keys of the entries are distinct.
pub open spec fn keys_distinct<V>(s: Seq<(Seq<char>, V)>) -> bool {
    forall|i: int, j: int| 0 <= i < j < s.len() ==> #[trigger] s[i].0 != #[trigger] s[j].0
}

/// The entries of a map of pairs of strings (prefixes), in the map's order, keys by view.
pub uninterp spec fn string_entries(m: IndexMap<String, String>) -> Seq<(Seq<char>, Seq<char>)>;

/// `IndexMap::new`: a map of pairs of strings (prefixes) without entries.
#[verifier::external_body]
pub(crate) fn string_map_new() -> (m: IndexMap<String, String>)
    ensures
        string_entries(m) == Seq::<(Seq<char>, Seq<char>)>::empty(),
{
    IndexMap::new()
}

/// `IndexMap::insert` on a map of pairs of strings (prefixes): an entry with the key gets the
/// new value and keeps its place, otherwise the entry is added last.
#[verifier::external_body]
pub(crate) fn string_map_insert(m: &mut IndexMap<String, String>, k: String, v: String)
    ensures
        string_entries(*final(m)) == index_insert(string_entries(*old(m)), k@, v@),
{
    m.insert(k, v);
}

/// `IndexMap::into_iter` on a map of pairs of strings (prefixes), collected: its entries in
/// order.
#[verifier::external_body]
pub(crate) fn string_map_entries(m: IndexMap<String, String>) -> (r: Vec<(String, String)>)
    ensures
        r@.map_values(|e: (String, String)| (e.0@, e.1@)) == string_entries(m),
        keys_distinct(r@.map_values(|e: (String, String)| (e.0@, e.1@))),
{
    m.into_iter().collect()
}

/// The entries of a map of classes, in the map's order, keys by view.
pub uninterp spec fn class_entries(m: IndexMap<String, ClassDefinition>) -> Seq<(Seq<char>, ClassDefinition)>;

/// `IndexMap::new`: a map of classes without entries.
#[verifier::external_body]
pub(crate) fn class_map_new() -> (m: IndexMap<String, ClassDefinition>)
    ensures
        class_entries(m) == Seq::<(Seq<char>, ClassDefinition)>::empty(),
{
    IndexMap::new()
}

/// `IndexMap::insert` on a map of classes: an entry with the key gets the
/// new value and keeps its place, otherwise the entry is added last.
#[verifier::external_body]
pub(crate) fn class_map_insert(m: &mut IndexMap<String, ClassDefinition>, k: String, v: ClassDefinition)
    ensures
        class_entries(*final(m)) == index_insert(class_entries(*old(m)), k@, v),
{
    m.insert(k, v);
}

/// `IndexMap::into_iter` on a map of classes, collected: its entries in
/// order.
#[verifier::external_body]
pub(crate) fn class_map_entries(m: IndexMap<String, ClassDefinition>) -> (r: Vec<(String, ClassDefinition)>)
    ensures
        r@.map_values(|e: (String, ClassDefinition)| (e.0@, e.1)) == class_entries(m),
        keys_distinct(r@.map_values(|e: (String, ClassDefinition)| (e.0@, e.1))),
{
    m.into_iter().collect()
}

/// The entries of a map of attributes, in the map's order, keys by view.
pub uninterp spec fn attribute_entries(m: IndexMap<String, AttributeDefinition>) -> Seq<(Seq<char>, AttributeDefinition)>;

/// `IndexMap::new`: a map of attributes without entries.
#[verifier::external_body]
pub(crate) fn attribute_map_new() -> (m: IndexMap<String, AttributeDefinition>)
    ensures
        attribute_entries(m) == Seq::<(Seq<char>, AttributeDefinition)>::empty(),
{
    IndexMap::new()
}

/// `IndexMap::insert` on a map of attributes: an entry with the key gets the
/// new value and keeps its place, otherwise the entry is added last.
#[verifier::external_body]
pub(crate) fn attribute_map_insert(m: &mut IndexMap<String, AttributeDefinition>, k: String, v: AttributeDefinition)
    ensures
        attribute_entries(*final(m)) == index_insert(attribute_entries(*old(m)), k@, v),
{
    m.insert(k, v);
}

/// `IndexMap::into_iter` on a map of attributes, collected: its entries in
/// order.
#[verifier::external_body]
pub(crate) fn attribute_map_entries(m: IndexMap<String, AttributeDefinition>) -> (r: Vec<(String, AttributeDefinition)>)
    ensures
        r@.map_values(|e: (String, AttributeDefinition)| (e.0@, e.1)) == attribute_entries(m),
        keys_distinct(r@.map_values(|e: (String, AttributeDefinition)| (e.0@, e.1))),
{
    m.into_iter().collect()
}

/// The entries of a map of enumerations, in the map's order, keys by view.
pub uninterp spec fn enum_entries(m: IndexMap<String, EnumDefinition>) -> Seq<(Seq<char>, EnumDefinition)>;

/// `IndexMap::new`: a map of enumerations without entries.
#[verifier::external_body]
pub(crate) fn enum_map_new() -> (m: IndexMap<String, EnumDefinition>)
    ensures
        enum_entries(m) == Seq::<(Seq<char>, EnumDefinition)>::empty(),
{
    IndexMap::new()
}

/// `IndexMap::insert` on a map of enumerations: an entry with the key gets the
/// new value and keeps its place, otherwise the entry is added last.
#[verifier::external_body]
pub(crate) fn enum_map_insert(m: &mut IndexMap<String, EnumDefinition>, k: String, v: EnumDefinition)
    ensures
        enum_entries(*final(m)) == index_insert(enum_entries(*old(m)), k@, v),
{
    m.insert(k, v);
}

/// `IndexMap::into_iter` on a map of enumerations, collected: its entries in
/// order.
#[verifier::external_body]
pub(crate) fn enum_map_entries(m: IndexMap<String, EnumDefinition>) -> (r: Vec<(String, EnumDefinition)>)
    ensures
        r@.map_values(|e: (String, EnumDefinition)| (e.0@, e.1)) == enum_entries(m),
        keys_distinct(r@.map_values(|e: (String, EnumDefinition)| (e.0@, e.1))),
{
    m.into_iter().collect()
}

/// The entries of a map of permissible values, in the map's order, keys by view.
pub uninterp spec fn value_entries(m: IndexMap<String, PermissibleValue>) -> Seq<(Seq<char>, PermissibleValue)>;

/// `IndexMap::new`: a map of permissible values without entries.
#[verifier::external_body]
pub(crate) fn value_map_new() -> (m: IndexMap<String, PermissibleValue>)
    ensures
        value_entries(m) == Seq::<(Seq<char>, PermissibleValue)>::empty(),
{
    IndexMap::new()
}

/// `IndexMap::insert` on a map of permissible values: an entry with the key gets the
/// new value and keeps its place, otherwise the entry is added last.
#[verifier::external_body]
pub(crate) fn value_map_insert(m: &mut IndexMap<String, PermissibleValue>, k: String, v: PermissibleValue)
    ensures
        value_entries(*final(m)) == index_insert(value_entries(*old(m)), k@, v),
{
    m.insert(k, v);
}

/// `IndexMap::into_iter` on a map of permissible values, collected: its entries in
/// order.
#[verifier::external_body]
pub(crate) fn value_map_entries(m: IndexMap<String, PermissibleValue>) -> (r: Vec<(String, PermissibleValue)>)
    ensures
        r@.map_values(|e: (String, PermissibleValue)| (e.0@, e.1)) == value_entries(m),
        keys_distinct(r@.map_values(|e: (String, PermissibleValue)| (e.0@, e.1))),
{
    m.into_iter().collect()
}

/// The entries of a map of slot usages, in the map's order, keys by view.
pub uninterp spec fn usage_entries(m: IndexMap<String, SlotUsage>) -> Seq<(Seq<char>, SlotUsage)>;

/// `IndexMap::new`: a map of slot usages without entries.
#[verifier::external_body]
pub(crate) fn usage_map_new() -> (m: IndexMap<String, SlotUsage>)
    ensures
        usage_entries(m) == Seq::<(Seq<char>, SlotUsage)>::empty(),
{
    IndexMap::new()
}

/// `IndexMap::insert` on a map of slot usages: an entry with the key gets the
/// new value and keeps its place, otherwise the entry is added last.
#[verifier::external_body]
pub(crate) fn usage_map_insert(m: &mut IndexMap<String, SlotUsage>, k: String, v: SlotUsage)
    ensures
        usage_entries(*final(m)) == index_insert(usage_entries(*old(m)), k@, v),
{
    m.insert(k, v);
}

/// `IndexMap::into_iter` on a map of slot usages, collected: its entries in
/// order.
#[verifier::external_body]
pub(crate) fn usage_map_entries(m: IndexMap<String, SlotUsage>) -> (r: Vec<(String, SlotUsage)>)
    ensures
        r@.map_values(|e: (String, SlotUsage)| (e.0@, e.1)) == usage_entries(m),
        keys_distinct(r@.map_values(|e: (String, SlotUsage)| (e.0@, e.1))),
{
    m.into_iter().collect()
}

/// `IndexMap::len` on a map of slot usages.
#[verifier::external_body]
pub(crate) fn usage_map_len(m: &IndexMap<String, SlotUsage>) -> (r: usize)
    ensures
        r == usage_entries(*m).len(),
{
    m.len()
}

// ---------------------------------------------------------------------------
// Descriptions on one line
// ---------------------------------------------------------------------------

/// The lines of a text as `str::lines` gives them, each still with its
/// trailing carriage return: the pieces between line feeds, without the
/// empty piece after a final line feed; none for the empty text.
pub open spec fn text_lines(s: Seq<char>) -> Seq<Seq<char>> {
    if s.len() == 0 || s.last() == '\n' {
        text::split_on(s, '\n').drop_last()
    } else {
        text::split_on(s, '\n')
    }
}

/// A text on one line: its lines, trimmed, joined by single spaces. (A
/// carriage return ending a line is white space, so trimming drops it.)
pub open spec fn one_line(s: Seq<char>) -> Seq<char> {
    text::join_with(text_lines(s).map_values(|l: Seq<char>| text::trim_ws(l)), " "@)
}

/// Splitting gives at least one piece.
proof fn lemma_split_nonempty(s: Seq<char>, sep: char, cur: Seq<char>)
    ensures
        text::split_from(s, sep, cur).len() >= 1,
    decreases s.len(),
{
    if s.len() > 0 {
        if s[0] == sep {
            lemma_split_nonempty(s.drop_first(), sep, Seq::empty());
        } else {
            lemma_split_nonempty(s.drop_first(), sep, cur.push(s[0]));
        }
    }
}

/// Puts a description read from a schema on one line (see [`one_line`]).
pub fn remove_newlines(s: &str) -> (r: String)
    ensures
        r@ == one_line(s@),
{
    let cs = text::chars_of(s);
    let mut parts = text::split_chars(&cs, '\n');
    proof {
        lemma_split_nonempty(s@, '\n', Seq::empty());
    }
    let ghost pv = text::views(parts@);
    if cs.len() == 0 || cs[cs.len() - 1] == '\n' {
        parts.pop();
        assert(text::views(parts@) =~= pv.drop_last());
    }
    let ghost lines = text_lines(s@);
    assert(text::views(parts@) == lines);
    let mut trimmed: Vec<Vec<char>> = Vec::new();
    let mut i: usize = 0;
    while i < parts.len()
        invariant
            i <= parts@.len(),
            text::views(parts@) == lines,
            text::views(trimmed@) == lines.take(i as int).map_values(|l: Seq<char>| text::trim_ws(l)),
        decreases parts.len() - i,
    {
        let ghost before = text::views(trimmed@);
        let t = text::trim_chars(parts[i].as_slice());
        assert(lines[i as int] == parts@[i as int]@);
        trimmed.push(t);
        assert(text::views(trimmed@) =~= before.push(text::trim_ws(lines[i as int])));
        assert(lines.take(i + 1).map_values(|l: Seq<char>| text::trim_ws(l)) =~= lines.take(
            i as int,
        ).map_values(|l: Seq<char>| text::trim_ws(l)).push(text::trim_ws(lines[i as int])));
        i = i + 1;
    }
    assert(lines.take(i as int) =~= lines);
    let sep = text::chars_of(" ");
    let joined = text::join_chars(&trimmed, 0, sep.as_slice());
    assert(text::views(trimmed@).skip(0) =~= text::views(trimmed@));
    text::string_of(joined.as_slice())
}

} // verus!
