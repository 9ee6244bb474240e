//! Objects and enumerations of a data model.

use vstd::prelude::*;
use crate::attribute::{Attribute, AttributeView};
use crate::text;
use std::hash::Hash;
use convert_case::Casing;
use std::hash::Hasher;

verus! {

// ---------------------------------------------------------------------------
// Positions
// ---------------------------------------------------------------------------

/// A range of columns or byte offsets.
#[derive(Debug, Clone, Copy, PartialEq, Eq, Structural)]
pub struct PositionRange {
    pub start: usize,
    pub end: usize,
}

/// Where a definition stands in its markdown file.
#[derive(Debug, Clone, Copy, PartialEq, Eq, Structural)]
pub struct Position {
    /// The line, counted from 1.
    pub line: usize,
    /// The columns of the definition.
    pub column: PositionRange,
    /// The byte offsets of the definition.
    pub offset: PositionRange,
}

// ---------------------------------------------------------------------------
// Ordered string maps
// ---------------------------------------------------------------------------

/// The pairs' keys are in strictly increasing order.
pub open spec fn keys_increasing<V>(s: Seq<(Seq<char>, V)>) -> bool {
    forall|i: int, j: int| 0 <= i < j < s.len() ==> text::seq_lt(#[trigger] s[i].0, #[trigger] s[j].0)
}

/// `x` sorts before every key of `s`.
pub open spec fn below_all<V>(x: Seq<char>, s: Seq<(Seq<char>, V)>) -> bool {
    forall|i: int| 0 <= i < s.len() ==> text::seq_lt(x, #[trigger] s[i].0)
}

/// The pairs after `key` is set to `value`: the pair with that key is
/// replaced, or the new pair is placed where its key sorts.
pub open spec fn spec_map_insert<V>(
    s: Seq<(Seq<char>, V)>,
    key: Seq<char>,
    value: V,
) -> Seq<(Seq<char>, V)>
    decreases s.len(),
{
    if s.len() == 0 {
        seq![(key, value)]
    } else if s[0].0 == key {
        seq![(key, value)] + s.drop_first()
    } else if text::seq_lt(key, s[0].0) {
        seq![(key, value)] + s
    } else {
        seq![s[0]] + spec_map_insert(s.drop_first(), key, value)
    }
}

/// The value of `key` among the pairs, if any.
pub open spec fn spec_map_get<V>(s: Seq<(Seq<char>, V)>, key: Seq<char>) -> Option<V>
    decreases s.len(),
{
    if s.len() == 0 {
        None
    } else if s[0].0 == key {
        Some(s[0].1)
    } else {
        spec_map_get(s.drop_first(), key)
    }
}

/// The keys of the pairs, in order.
pub open spec fn spec_keys(s: Seq<(Seq<char>, Seq<char>)>) -> Seq<Seq<char>> {
    s.map_values(|p: (Seq<char>, Seq<char>)| p.0)
}

/// Inserting keeps the keys increasing, and whatever sorts below the new
/// key and all old keys sorts below all keys after the insertion.
pub proof fn lemma_map_insert<V>(s: Seq<(Seq<char>, V)>, key: Seq<char>, value: V)
    requires
        keys_increasing(s),
    ensures
        keys_increasing(spec_map_insert(s, key, value)),
        forall|x: Seq<char>|
            text::seq_lt(x, key) && below_all(x, s) ==> below_all(
                x,
                #[trigger] spec_map_insert(s, key, value),
            ),
    decreases s.len(),
{
    let r = spec_map_insert(s, key, value);
    if s.len() == 0 {
    } else if s[0].0 == key {
        assert forall|i: int, j: int| 0 <= i < j < r.len() implies text::seq_lt(
            #[trigger] r[i].0,
            #[trigger] r[j].0,
        ) by {
            assert(text::seq_lt(s[i].0, s[j].0));
        }
        assert forall|x: Seq<char>|
            text::seq_lt(x, key) && below_all(x, s) implies below_all(x, r) by {
            assert forall|i: int| 0 <= i < r.len() implies text::seq_lt(x, #[trigger] r[i].0) by {
                if i > 0 {
                    assert(text::seq_lt(x, s[i].0));
                }
            }
        }
    } else if text::seq_lt(key, s[0].0) {
        assert forall|i: int, j: int| 0 <= i < j < r.len() implies text::seq_lt(
            #[trigger] r[i].0,
            #[trigger] r[j].0,
        ) by {
            if i == 0 {
                if j > 1 {
                    assert(text::seq_lt(s[0].0, s[j - 1].0));
                    text::lemma_seq_lt_transitive(key, s[0].0, s[j - 1].0);
                }
            } else {
                assert(text::seq_lt(s[i - 1].0, s[j - 1].0));
            }
        }
        assert forall|x: Seq<char>|
            text::seq_lt(x, key) && below_all(x, s) implies below_all(x, r) by {
            assert forall|i: int| 0 <= i < r.len() implies text::seq_lt(x, #[trigger] r[i].0) by {
                if i > 0 {
                    assert(text::seq_lt(x, s[i - 1].0));
                }
            }
        }
    } else {
        let rest = s.drop_first();
        assert(keys_increasing(rest)) by {
            assert forall|i: int, j: int| 0 <= i < j < rest.len() implies text::seq_lt(
                #[trigger] rest[i].0,
                #[trigger] rest[j].0,
            ) by {
                assert(text::seq_lt(s[i + 1].0, s[j + 1].0));
            }
        }
        lemma_map_insert(rest, key, value);
        text::lemma_seq_lt_total(s[0].0, key);
        let tail = spec_map_insert(rest, key, value);
        assert(below_all(s[0].0, rest)) by {
            assert forall|i: int| 0 <= i < rest.len() implies text::seq_lt(
                s[0].0,
                #[trigger] rest[i].0,
            ) by {
                assert(text::seq_lt(s[0].0, s[i + 1].0));
            }
        }
        assert(below_all(s[0].0, tail));
        assert forall|i: int, j: int| 0 <= i < j < r.len() implies text::seq_lt(
            #[trigger] r[i].0,
            #[trigger] r[j].0,
        ) by {
            if i == 0 {
                assert(r[j] == tail[j - 1]);
            } else {
                assert(r[i] == tail[i - 1]);
                assert(r[j] == tail[j - 1]);
            }
        }
        assert forall|x: Seq<char>|
            text::seq_lt(x, key) && below_all(x, s) implies below_all(x, r) by {
            assert(below_all(x, rest)) by {
                assert forall|i: int| 0 <= i < rest.len() implies text::seq_lt(
                    x,
                    #[trigger] rest[i].0,
                ) by {
                    assert(text::seq_lt(x, s[i + 1].0));
                }
            }
            assert(below_all(x, tail));
            assert forall|i: int| 0 <= i < r.len() implies text::seq_lt(x, #[trigger] r[i].0) by {
                if i == 0 {
                    assert(text::seq_lt(x, s[0].0));
                } else {
                    assert(r[i] == tail[i - 1]);
                }
            }
        }
    }
}

/// A key that sorts below every key of the pairs has no value there.
pub proof fn lemma_map_get_below<V>(s: Seq<(Seq<char>, V)>, key: Seq<char>)
    requires
        below_all(key, s),
    ensures
        spec_map_get(s, key) is None,
    decreases s.len(),
{
    if s.len() > 0 {
        text::lemma_seq_lt_irreflexive(key);
        assert(below_all(key, s.drop_first())) by {
            assert forall|i: int| 0 <= i < s.drop_first().len() implies text::seq_lt(
                key,
                #[trigger] s.drop_first()[i].0,
            ) by {
                assert(s.drop_first()[i] == s[i + 1]);
            }
        }
        lemma_map_get_below(s.drop_first(), key);
    }
}

/// A map from strings to strings that keeps its keys in sorted order
/// (the key order of a `BTreeMap<String, String>`).
#[derive(Debug, PartialEq)]
pub struct Mappings {
    entries: Vec<(String, String)>,
}

impl View for Mappings {
    type V = Seq<(Seq<char>, Seq<char>)>;

    closed spec fn view(&self) -> Seq<(Seq<char>, Seq<char>)> {
        text::pairs_view(self.entries@)
    }
}

impl Mappings {
    #[verifier::type_invariant]
    spec fn sorted(self) -> bool {
        keys_increasing(self@)
    }

    /// An empty map.
    pub fn new() -> (r: Self)
        ensures
            r@ == Seq::<(Seq<char>, Seq<char>)>::empty(),
    {
        let r = Mappings { entries: Vec::new() };
        assert(r@ =~= Seq::<(Seq<char>, Seq<char>)>::empty());
        r
    }

    /// A copy of the map.
    pub fn copy(&self) -> (r: Self)
        ensures
            r@ == self@,
    {
        proof {
            use_type_invariant(self);
        }
        Mappings { entries: text::clone_pairs(&self.entries) }
    }

    /// The number of entries.
    pub fn len(&self) -> (r: usize)
        ensures
            r == self@.len(),
    {
        self.entries.len()
    }

    /// Whether the map has no entries.
    pub fn is_empty(&self) -> (r: bool)
        ensures
            r == (self@.len() == 0),
    {
        self.entries.len() == 0
    }

    /// Sets `key` to `value`; returns the value it had before, if any.
    pub fn insert(&mut self, key: String, value: String) -> (r: Option<String>)
        ensures
            final(self)@ == spec_map_insert(old(self)@, key@, value@),
            match r {
                Some(v) => spec_map_get(old(self)@, key@) == Some(v@),
                None => spec_map_get(old(self)@, key@) is None,
            },
    {
        proof {
            use_type_invariant(&*self);
        }
        let ghost s = self@;
        let mut entries: Vec<(String, String)> = Vec::new();
        std::mem::swap(&mut entries, &mut self.entries);
        assert(text::pairs_view(entries@) == s);
        let mut i: usize = 0;
        assert(s.skip(0) =~= s);
        while i < entries.len() && text::string_lt(&entries[i].0, &key)
            invariant
                i <= entries@.len(),
                s == text::pairs_view(entries@),
                keys_increasing(s),
                spec_map_insert(s, key@, value@) == s.take(i as int) + spec_map_insert(
                    s.skip(i as int),
                    key@,
                    value@,
                ),
                spec_map_get(s, key@) == spec_map_get(s.skip(i as int), key@),
            decreases entries.len() - i,
        {
            proof {
                text::lemma_seq_lt_irreflexive(key@);
                if text::seq_lt(key@, s[i as int].0) {
                    text::lemma_seq_lt_transitive(key@, s[i as int].0, key@);
                }
                assert(s.skip(i as int)[0] == s[i as int]);
                assert(s.skip(i as int).drop_first() =~= s.skip(i + 1));
                assert(s.take(i + 1) =~= s.take(i as int).push(s[i as int]));
                assert(s.take(i as int) + (seq![s[i as int]] + spec_map_insert(
                    s.skip(i + 1),
                    key@,
                    value@,
                )) =~= s.take(i + 1) + spec_map_insert(s.skip(i + 1), key@, value@));
            }
            i = i + 1;
        }
        proof {
            lemma_map_insert(s, key@, value@);
        }
        if i < entries.len() && entries[i].0 == key {
            assert(s[i as int].0 == key@);
            assert(s.skip(i as int)[0] == s[i as int]);
            assert(spec_map_get(s.skip(i as int), key@) == Some(s[i as int].1));
            assert(s.skip(i as int)[0] == s[i as int]);
            let ghost removed = entries@[i as int];
            assert(text::pair_view(removed) == s[i as int]);
            let (_, old_value) = entries.remove(i);
            assert(old_value@ == s[i as int].1);
            entries.insert(i, (key, value));
            assert(s.skip(i as int).drop_first() =~= s.skip(i + 1));
            assert(text::pairs_view(entries@) =~= s.take(i as int)
                + (seq![(key@, value@)] + s.skip(i + 1)));
            self.entries = entries;
            Some(old_value)
        } else {
            proof {
                if i < s.len() {
                    text::lemma_seq_lt_total(s[i as int].0, key@);
                    assert(below_all(key@, s.skip(i as int))) by {
                        assert forall|j: int| 0 <= j < s.skip(i as int).len() implies text::seq_lt(
                            key@,
                            #[trigger] s.skip(i as int)[j].0,
                        ) by {
                            if j > 0 {
                                assert(text::seq_lt(s[i as int].0, s[i + j].0));
                                text::lemma_seq_lt_transitive(key@, s[i as int].0, s[i + j].0);
                            }
                        }
                    }
                }
                lemma_map_get_below(s.skip(i as int), key@);
            }
            entries.insert(i, (key, value));
            assert(text::pairs_view(entries@) =~= s.take(i as int)
                + (seq![(key@, value@)] + s.skip(i as int)));
            self.entries = entries;
            None
        }
    }

    /// The keys, in increasing order.
    pub fn keys(&self) -> (r: Vec<String>)
        ensures
            text::strings_view(r@) == spec_keys(self@),
            keys_increasing(self@),
    {
        proof {
            use_type_invariant(self);
        }
        let mut r: Vec<String> = Vec::new();
        let mut i: usize = 0;
        while i < self.entries.len()
            invariant
                i <= self.entries@.len(),
                text::strings_view(r@) == spec_keys(self@).take(i as int),
            decreases self.entries.len() - i,
        {
            let k = self.entries[i].0.clone();
            assert(k@ == spec_keys(self@)[i as int]);
            let ghost before = r@;
            r.push(k);
            assert(text::strings_view(r@) =~= text::strings_view(before).push(k@));
            assert(spec_keys(self@).take(i + 1) =~= spec_keys(self@).take(i as int).push(k@));
            i = i + 1;
            assert(text::strings_view(r@) =~= spec_keys(self@).take(i as int));
        }
        assert(spec_keys(self@).take(i as int) =~= spec_keys(self@));
        r
    }

    /// The entries, in increasing key order.
    pub fn entries(&self) -> (r: &Vec<(String, String)>)
        ensures
            text::pairs_view(r@) == self@,
            keys_increasing(self@),
    {
        proof {
            use_type_invariant(self);
        }
        &self.entries
    }

    /// The value of `key`, if present.
    pub fn get(&self, key: &str) -> (r: Option<String>)
        ensures
            match r {
                Some(v) => spec_map_get(self@, key@) == Some(v@),
                None => spec_map_get(self@, key@) is None,
            },
    {
        let ghost s = self@;
        let k = String::from_str(key);
        let mut i: usize = 0;
        assert(s.skip(0) =~= s);
        while i < self.entries.len()
            invariant
                i <= self.entries@.len(),
                s == self@,
                k@ == key@,
                spec_map_get(s, key@) == spec_map_get(s.skip(i as int), key@),
            decreases self.entries.len() - i,
        {
            assert(s.skip(i as int)[0] == s[i as int]);
            assert(s.skip(i as int).drop_first() =~= s.skip(i + 1));
            if self.entries[i].0 == k {
                return Some(self.entries[i].1.clone());
            }
            i = i + 1;
        }
        None
    }
}

/// The pairs with their keys taken by view.
pub open spec fn keyed_view<V>(s: Seq<(String, V)>) -> Seq<(Seq<char>, V)> {
    s.map_values(|p: (String, V)| (p.0@, p.1))
}

/// Sets `key` to `value` among pairs kept in increasing key order (the
/// order of a `BTreeMap` keyed by strings): the pair with that key is
/// replaced, or the new pair is placed where its key sorts.
pub fn insert_sorted<V>(entries: &mut Vec<(String, V)>, key: String, value: V)
    requires
        keys_increasing(keyed_view(old(entries)@)),
    ensures
        keyed_view(final(entries)@) == spec_map_insert(keyed_view(old(entries)@), key@, value),
        keys_increasing(keyed_view(final(entries)@)),
{
    let ghost s = keyed_view(entries@);
    let mut i: usize = 0;
    assert(s.skip(0) =~= s);
    while i < entries.len() && text::string_lt(&entries[i].0, &key)
        invariant
            i <= entries@.len(),
            s == keyed_view(entries@),
            keys_increasing(s),
            spec_map_insert(s, key@, value) == s.take(i as int) + spec_map_insert(
                s.skip(i as int),
                key@,
                value,
            ),
        decreases entries.len() - i,
    {
        proof {
            text::lemma_seq_lt_irreflexive(key@);
            if text::seq_lt(key@, s[i as int].0) {
                text::lemma_seq_lt_transitive(key@, s[i as int].0, key@);
            }
            assert(s.skip(i as int)[0] == s[i as int]);
            assert(s.skip(i as int).drop_first() =~= s.skip(i + 1));
            assert(s.take(i + 1) =~= s.take(i as int).push(s[i as int]));
            assert(s.take(i as int) + (seq![s[i as int]] + spec_map_insert(
                s.skip(i + 1),
                key@,
                value,
            )) =~= s.take(i + 1) + spec_map_insert(s.skip(i + 1), key@, value));
        }
        i = i + 1;
    }
    proof {
        lemma_map_insert(s, key@, value);
    }
    if i < entries.len() && text::str_eq(entries[i].0.as_str(), key.as_str()) {
        assert(s[i as int].0 == key@);
        assert(s.skip(i as int)[0] == s[i as int]);
        entries.remove(i);
        entries.insert(i, (key, value));
        assert(s.skip(i as int).drop_first() =~= s.skip(i + 1));
        assert(keyed_view(entries@) =~= s.take(i as int) + (seq![(key@, value)] + s.skip(i + 1)));
    } else {
        proof {
            if i < s.len() {
                text::lemma_seq_lt_total(s[i as int].0, key@);
            }
        }
        entries.insert(i, (key, value));
        assert(keyed_view(entries@) =~= s.take(i as int) + (seq![(key@, value)] + s.skip(
            i as int,
        )));
    }
}

impl Clone for Mappings {
    fn clone(&self) -> (r: Self)
        ensures
            r@ == self@,
    {
        let mut entries: Vec<(String, String)> = Vec::new();
        let mut i: usize = 0;
        proof {
            use_type_invariant(self);
        }
        while i < self.entries.len()
            invariant
                i <= self.entries@.len(),
                text::pairs_view(entries@) == self@.take(i as int),
                keys_increasing(self@),
            decreases self.entries.len() - i,
        {
            let pair = (self.entries[i].0.clone(), self.entries[i].1.clone());
            assert((pair.0@, pair.1@) == self@[i as int]);
            let ghost before = entries@;
            entries.push(pair);
            assert(entries@ == before.push(pair));
            assert(text::pairs_view(entries@) =~= text::pairs_view(before).push(text::pair_view(pair)));
            assert(self@.take(i + 1) =~= self@.take(i as int).push(self@[i as int]));
            i = i + 1;
            assert(text::pairs_view(entries@) =~= self@.take(i as int));
        }
        proof {
            use_type_invariant(self);
        }
        assert(self@.take(i as int) =~= self@);
        Mappings { entries }
    }
}

// ---------------------------------------------------------------------------
// Enumerations
// ---------------------------------------------------------------------------

/// What hashing a list of strings with `DefaultHasher` gives (`Hash` for
/// `[String]` followed by `Hasher::finish`).
pub uninterp spec fn strings_hash(keys: Seq<Seq<char>>) -> u64;

/// Hashes a list of strings with `std::collections::hash_map::DefaultHasher`,
/// which is created with fixed keys, so equal lists give equal hashes. The
/// standard library keeps that algorithm fixed within one build of it, not
/// across its releases: the name stands for the hash of the build in use.
#[verifier::external_body]
pub(crate) fn hash_strings(keys: &Vec<String>) -> (r: u64)
    ensures
        r == strings_hash(text::strings_view(keys@)),
{
    let mut hasher = std::collections::hash_map::DefaultHasher::new();
    keys.iter().collect::<Vec<&String>>().hash(&mut hasher);
    hasher.finish()
}

/// Represents an enumeration with a name and mappings.
#[derive(Debug, Clone, PartialEq)]
pub struct Enumeration {
    /// Name of the enumeration.
    pub name: String,
    /// Mappings associated with the enumeration.
    pub mappings: Mappings,
    /// Documentation string for the enumeration.
    pub docstring: String,
    /// The position of the enumeration.
    pub position: Option<Position>,
}

impl Enumeration {
    /// A copy of the enumeration.
    pub fn copy(&self) -> (r: Self)
        ensures
            enum_view(r) == enum_view(*self),
    {
        Enumeration {
            name: self.name.clone(),
            mappings: self.mappings.copy(),
            docstring: self.docstring.clone(),
            position: self.position,
        }
    }

    /// An enumeration with no name, mappings, docstring or position.
    pub fn default() -> (r: Self)
        ensures
            r.name@ == Seq::<char>::empty(),
            r.mappings@ == Seq::<(Seq<char>, Seq<char>)>::empty(),
            r.docstring@ == Seq::<char>::empty(),
            r.position is None,
    {
        Enumeration {
            name: String::new(),
            mappings: Mappings::new(),
            docstring: String::new(),
            position: None,
        }
    }

    /// Checks if the enumeration has any values.
    pub fn has_values(&self) -> (r: bool)
        ensures
            r == (self.mappings@.len() > 0),
    {
        !self.mappings.is_empty()
    }

    /// Sets the position of the enumeration.
    pub fn set_position(&mut self, position: Position)
        ensures
            final(self).position == Some(position),
            final(self).name == old(self).name,
            final(self).mappings == old(self).mappings,
            final(self).docstring == old(self).docstring,
    {
        self.position = Some(position);
    }

    /// The hash of an enumeration: that of its sorted keys.
    pub open spec fn spec_hash(&self) -> u64 {
        strings_hash(spec_keys(self.mappings@))
    }

    /// The hash of the enumeration, computed from its keys in sorted order.
    pub fn hash_value(&self) -> (r: u64)
        ensures
            r == self.spec_hash(),
    {
        let keys = self.mappings.keys();
        hash_strings(&keys)
    }

    /// Checks if this enumeration has the same hash as another enumeration.
    pub fn same_hash(&self, other: &Enumeration) -> (r: bool)
        ensures
            r == (self.spec_hash() == other.spec_hash()),
    {
        self.hash_value() == other.hash_value()
    }
}

/// The mathematical value of an enumeration.
pub struct EnumView {
    pub name: Seq<char>,
    pub mappings: Seq<(Seq<char>, Seq<char>)>,
    pub docstring: Seq<char>,
    pub position: Option<Position>,
}

/// The value of an [`Enumeration`].
pub open spec fn enum_view(e: Enumeration) -> EnumView {
    EnumView { name: e.name@, mappings: e.mappings@, docstring: e.docstring@, position: e.position }
}

/// The values of a sequence of enumerations.
pub open spec fn enums_view(v: Seq<Enumeration>) -> Seq<EnumView> {
    v.map_values(|e: Enumeration| enum_view(e))
}

/// Two enumerations whose mappings have the same keys have the same hash,
/// whatever their values and whatever order the keys were inserted in.
pub proof fn law_enumeration_hash_by_keys(a: &Enumeration, b: &Enumeration)
    requires
        spec_keys(a.mappings@) == spec_keys(b.mappings@),
    ensures
        a.spec_hash() == b.spec_hash(),
{
}

/// Inserting the same pairs into an empty map in either order gives the
/// same entries, so the same hash.
pub proof fn law_insertion_order_irrelevant(k1: Seq<char>, v1: Seq<char>, k2: Seq<char>, v2: Seq<char>)
    requires
        k1 != k2,
    ensures
        spec_map_insert(spec_map_insert(Seq::empty(), k1, v1), k2, v2) == spec_map_insert(
            spec_map_insert(Seq::empty(), k2, v2),
            k1,
            v1,
        ),
{
    let e = Seq::<(Seq<char>, Seq<char>)>::empty();
    text::lemma_seq_lt_total(k1, k2);
    let s1 = spec_map_insert(e, k1, v1);
    let s2 = spec_map_insert(e, k2, v2);
    assert(s1 =~= seq![(k1, v1)]);
    assert(s2 =~= seq![(k2, v2)]);
    assert(s1.drop_first() =~= e);
    assert(s2.drop_first() =~= e);
    if text::seq_lt(k1, k2) {
        text::lemma_seq_lt_irreflexive(k1);
        assert(!text::seq_lt(k2, k1)) by {
            if text::seq_lt(k2, k1) {
                text::lemma_seq_lt_transitive(k1, k2, k1);
            }
        }
        assert(spec_map_insert(s1, k2, v2) =~= seq![(k1, v1), (k2, v2)]);
        assert(spec_map_insert(s2, k1, v1) =~= seq![(k1, v1), (k2, v2)]);
    } else {
        text::lemma_seq_lt_irreflexive(k2);
        assert(!text::seq_lt(k1, k2));
        assert(spec_map_insert(s1, k2, v2) =~= seq![(k2, v2), (k1, v1)]);
        assert(spec_map_insert(s2, k1, v1) =~= seq![(k2, v2), (k1, v1)]);
    }
}


// ---------------------------------------------------------------------------
// Objects
// ---------------------------------------------------------------------------

/// What `convert_case`'s `to_case(Case::Pascal)` returns for a string.
pub uninterp spec fn pascal_case_of(s: Seq<char>) -> Seq<char>;

/// Converts a string to PascalCase through `convert_case`.
#[verifier::external_body]
pub(crate) fn to_pascal_case(s: &str) -> (r: String)
    ensures
        r@ == pascal_case_of(s@),
{
    s.to_case(convert_case::Case::Pascal)
}

/// `s` with every `from` replaced by `to` (`str::replace` with a
/// one-character pattern).
pub open spec fn replace_char(s: Seq<char>, from: char, to: char) -> Seq<char> {
    s.map_values(|c: char| if c == from { to } else { c })
}

/// Replaces every `from` in `s` by `to`.
pub fn replace_char_exec(s: &str, from: char, to: char) -> (r: String)
    ensures
        r@ == replace_char(s@, from, to),
{
    let cs = text::chars_of(s);
    let mut out: Vec<char> = Vec::new();
    let mut i: usize = 0;
    while i < cs.len()
        invariant
            i <= cs@.len(),
            cs@ == s@,
            out@ == replace_char(s@, from, to).take(i as int),
        decreases cs.len() - i,
    {
        let c = cs[i];
        out.push(if c == from { to } else { c });
        i = i + 1;
        assert(out@ =~= replace_char(s@, from, to).take(i as int));
    }
    assert(replace_char(s@, from, to).take(i as int) =~= replace_char(s@, from, to));
    text::string_of(&out)
}

/// The name an object gets from its heading: spaces become underscores,
/// then the text is put in PascalCase.
pub open spec fn spec_object_name(name: Seq<char>) -> Seq<char> {
    pascal_case_of(replace_char(name, ' ', '_'))
}

/// The views of a sequence of attributes.
pub open spec fn attrs_view(v: Seq<Attribute>) -> Seq<AttributeView> {
    v.map_values(|a: Attribute| a@)
}

/// Attributes that go first when sorting by requirement: the required ones.
pub open spec fn goes_first(a: AttributeView) -> bool {
    a.required
}

/// The attributes sorted by requirement, descending: the required ones,
/// then the others, each group in the order it had.
pub open spec fn spec_sort_by_required(v: Seq<AttributeView>) -> Seq<AttributeView> {
    v.filter(|a: AttributeView| goes_first(a)) + v.filter(|a: AttributeView| !goes_first(a))
}

/// The kind of a definition in a markdown file: an object or an
/// enumeration.
#[derive(Debug, Clone, Copy, PartialEq, Eq, Structural)]
pub enum ObjectType {
    Object,
    Enum,
}

/// The mathematical value of an [`Object`].
pub struct ObjectView {
    pub name: Seq<char>,
    pub attributes: Seq<AttributeView>,
    pub docstring: Seq<char>,
    pub term: Option<Seq<char>>,
    pub mixins: Seq<Seq<char>>,
    pub parent: Option<Seq<char>>,
    pub position: Option<Position>,
}

/// The views of a sequence of objects.
pub open spec fn objects_view(v: Seq<Object>) -> Seq<ObjectView> {
    v.map_values(|o: Object| o@)
}

/// Represents an object with a name, attributes, docstring, and an optional
/// term.
#[derive(Debug, Clone, PartialEq)]
pub struct Object {
    /// Name of the object.
    pub name: String,
    /// List of attributes associated with the object.
    pub attributes: Vec<Attribute>,
    /// Documentation string for the object.
    pub docstring: String,
    /// Optional term associated with the object.
    pub term: Option<String>,
    /// Other objects that this object gets mixed in with.
    pub mixins: Vec<String>,
    /// The object this object inherits attributes from, if any.
    pub parent: Option<String>,
    /// The position of the object.
    pub position: Option<Position>,
}

impl View for Object {
    type V = ObjectView;

    open spec fn view(&self) -> ObjectView {
        ObjectView {
            name: self.name@,
            attributes: attrs_view(self.attributes@),
            docstring: self.docstring@,
            term: text::opt_string_view(self.term),
            mixins: text::strings_view(self.mixins@),
            parent: text::opt_string_view(self.parent),
            position: self.position,
        }
    }
}

impl Object {
    /// All fields but the attributes are those of `other`.
    pub open spec fn same_besides_attributes(self, other: Object) -> bool {
        &&& self.name == other.name
        &&& self.docstring == other.docstring
        &&& self.term == other.term
        &&& self.mixins == other.mixins
        &&& self.parent == other.parent
        &&& self.position == other.position
    }

    /// Creates a new `Object`; the name has its spaces replaced by
    /// underscores and is put in PascalCase.
    pub fn new(name: String, term: Option<String>) -> (r: Self)
        ensures
            r.name@ == spec_object_name(name@),
            r.attributes@.len() == 0,
            r.docstring@ == Seq::<char>::empty(),
            r.term == term,
            r.mixins@.len() == 0,
            r.parent is None,
            r.position is None,
    {
        let replaced = replace_char_exec(name.as_str(), ' ', '_');
        let name = to_pascal_case(replaced.as_str());
        Object {
            name,
            attributes: Vec::new(),
            docstring: String::new(),
            term,
            mixins: Vec::new(),
            parent: None,
            position: None,
        }
    }

    /// Adds an attribute to the object.
    pub fn add_attribute(&mut self, attribute: Attribute)
        ensures
            attrs_view(final(self).attributes@) == attrs_view(old(self).attributes@).push(attribute@),
            final(self).same_besides_attributes(*old(self)),
    {
        self.attributes.push(attribute);
        assert(attrs_view(self.attributes@) =~= attrs_view(old(self).attributes@).push(attribute@));
    }

    /// Sets the docstring for the object.
    pub fn set_docstring(&mut self, docstring: String)
        ensures
            final(self).docstring == docstring,
            final(self).name == old(self).name,
            final(self).attributes == old(self).attributes,
            final(self).term == old(self).term,
            final(self).mixins == old(self).mixins,
            final(self).parent == old(self).parent,
            final(self).position == old(self).position,
    {
        self.docstring = docstring;
    }

    /// Sets the position of the object.
    pub fn set_position(&mut self, position: Position)
        ensures
            final(self).position == Some(position),
            final(self).name == old(self).name,
            final(self).attributes == old(self).attributes,
            final(self).docstring == old(self).docstring,
            final(self).term == old(self).term,
            final(self).mixins == old(self).mixins,
            final(self).parent == old(self).parent,
    {
        self.position = Some(position);
    }

    /// The last attribute added to the object, to change in place; `None`
    /// when the object has no attributes.
    pub fn get_last_attribute(&mut self) -> (r: Option<&mut Attribute>)
        ensures
            old(self).attributes@.len() == 0 ==> r is None && *final(self) == *old(self),
            old(self).attributes@.len() > 0 ==> {
                &&& r is Some
                &&& *r.unwrap() == old(self).attributes@.last()
                &&& final(self).attributes@ == old(self).attributes@.update(
                    old(self).attributes@.len() - 1,
                    *final(r.unwrap()),
                )
                &&& final(self).same_besides_attributes(*old(self))
            },
    {
        let n = self.attributes.len();
        if n == 0 {
            None
        } else {
            Some(&mut self.attributes[n - 1])
        }
    }

    /// Creates and adds a new attribute to the object.
    pub fn create_new_attribute(&mut self, name: String, required: bool)
        ensures
            attrs_view(final(self).attributes@) == attrs_view(old(self).attributes@).push(
                crate::attribute::spec_new_attribute(name@, required),
            ),
            final(self).same_besides_attributes(*old(self)),
    {
        let attribute = Attribute::new(name, required);
        self.add_attribute(attribute);
    }

    /// Checks if the object has any attributes.
    pub fn has_attributes(&self) -> (r: bool)
        ensures
            r == (self.attributes@.len() > 0),
    {
        self.attributes.len() > 0
    }

    /// Sets the name of the object.
    pub fn set_name(&mut self, name: String)
        ensures
            final(self).name == name,
            final(self).attributes == old(self).attributes,
            final(self).docstring == old(self).docstring,
            final(self).term == old(self).term,
            final(self).mixins == old(self).mixins,
            final(self).parent == old(self).parent,
            final(self).position == old(self).position,
    {
        self.name = name;
    }

    /// Checks if any attribute of the object has a term.
    pub fn has_any_terms(&self) -> (r: bool)
        ensures
            r == exists|i: int|
                0 <= i < self.attributes@.len() && (#[trigger] self.attributes@[i]).term is Some,
    {
        let mut i: usize = 0;
        while i < self.attributes.len()
            invariant
                i <= self.attributes@.len(),
                forall|k: int| 0 <= k < i ==> (#[trigger] self.attributes@[k]).term is None,
            decreases self.attributes.len() - i,
        {
            if self.attributes[i].has_term() {
                return true;
            }
            i = i + 1;
        }
        false
    }

    /// The names of the attributes, in order.
    pub open spec fn attribute_names(self) -> Seq<Seq<char>> {
        attrs_view(self.attributes@).map_values(|a: AttributeView| a.name)
    }

    /// The hash of an object: that of its attribute names in sorted order.
    pub open spec fn spec_hash(self) -> u64 {
        strings_hash(self.attribute_names().sort_by(text::seq_leq()))
    }

    /// The hash of the object, computed from its attribute names in sorted
    /// order.
    pub fn hash_value(&self) -> (r: u64)
        ensures
            r == self.spec_hash(),
    {
        let mut names: Vec<String> = Vec::new();
        let mut i: usize = 0;
        while i < self.attributes.len()
            invariant
                i <= self.attributes@.len(),
                text::strings_view(names@) == self.attribute_names().take(i as int),
            decreases self.attributes.len() - i,
        {
            let ghost before = names@;
            let n = self.attributes[i].name.clone();
            names.push(n);
            assert(text::strings_view(names@) =~= text::strings_view(before).push(n@));
            assert(self.attribute_names().take(i + 1) =~= self.attribute_names().take(i as int).push(
                self.attributes@[i as int].name@,
            ));
            i = i + 1;
        }
        assert(self.attribute_names().take(i as int) =~= self.attribute_names());
        let sorted = text::sort_strings(&names);
        hash_strings(&sorted)
    }

    /// Checks if this object has the same hash as another object.
    pub fn same_hash(&self, other: &Object) -> (r: bool)
        ensures
            r == (self.spec_hash() == other.spec_hash()),
    {
        self.hash_value() == other.hash_value()
    }

    /// Sorts the attributes so that those that are required, have no default
    /// and are no array come first; the order within each group is kept.
    pub fn sort_attrs_by_required(&mut self)
        ensures
            attrs_view(final(self).attributes@) == spec_sort_by_required(
                attrs_view(old(self).attributes@),
            ),
            final(self).same_besides_attributes(*old(self)),
    {
        let mut rest: Vec<Attribute> = Vec::new();
        std::mem::swap(&mut rest, &mut self.attributes);
        let ghost all = attrs_view(rest@);
        let ghost n = rest@.len();
        let mut top: Vec<Attribute> = Vec::new();
        let mut bottom: Vec<Attribute> = Vec::new();
        assert(all.take(0) =~= Seq::<AttributeView>::empty());
        assert(attrs_view(rest@) =~= all.skip(0));
        while rest.len() > 0
            invariant
                all.len() == n,
                rest@.len() <= n,
                attrs_view(rest@) == all.skip(n - rest@.len()),
                attrs_view(top@) == all.take(n - rest@.len()).filter(|a: AttributeView| goes_first(a)),
                attrs_view(bottom@) == all.take(n - rest@.len()).filter(
                    |a: AttributeView| !goes_first(a),
                ),
            decreases rest@.len(),
        {
            let ghost k = n - rest@.len();
            reveal_with_fuel(Seq::<_>::filter, 1);
            assert(all.take(k + 1).drop_last() =~= all.take(k));
            assert(all.skip(k)[0] == all[k]);
            let ghost before_rest = rest@;
            let a = rest.remove(0);
            assert(attrs_view(rest@) =~= all.skip(k + 1)) by {
                assert(all.skip(k).drop_first() =~= all.skip(k + 1));
                assert(attrs_view(rest@) =~= attrs_view(before_rest).drop_first());
            }
            assert(a@ == all[k]);
            if a.required {
                let ghost bt = top@;
                top.push(a);
                assert(attrs_view(top@) =~= attrs_view(bt).push(all[k]));
            } else {
                let ghost bb = bottom@;
                bottom.push(a);
                assert(attrs_view(bottom@) =~= attrs_view(bb).push(all[k]));
            }
        }
        assert(all.take(n as int) =~= all);
        let ghost tv = attrs_view(top@);
        let ghost bv = attrs_view(bottom@);
        top.append(&mut bottom);
        assert(attrs_view(top@) =~= tv + bv);
        self.attributes = top;
    }
}

/// Two objects whose attributes have the same names, counted with their
/// repetitions and in any order, have the same hash, whatever else their
/// attributes hold.
pub proof fn law_object_hash_by_names(a: Object, b: Object)
    requires
        a.attribute_names().to_multiset() == b.attribute_names().to_multiset(),
    ensures
        a.spec_hash() == b.spec_hash(),
{
    text::lemma_seq_leq_total_ordering();
    a.attribute_names().lemma_sort_by_ensures(text::seq_leq());
    b.attribute_names().lemma_sort_by_ensures(text::seq_leq());
    vstd::seq_lib::lemma_sorted_unique(
        a.attribute_names().sort_by(text::seq_leq()),
        b.attribute_names().sort_by(text::seq_leq()),
        text::seq_leq(),
    );
}

/// Reading a key of a map after setting it gives the value set; reading
/// any other key gives what it gave before.
pub proof fn law_mappings_get_after_insert(
    s: Seq<(Seq<char>, Seq<char>)>,
    key: Seq<char>,
    value: Seq<char>,
    other: Seq<char>,
)
    requires
        keys_increasing(s),
    ensures
        spec_map_get(spec_map_insert(s, key, value), key) == Some(value),
        other != key ==> spec_map_get(spec_map_insert(s, key, value), other) == spec_map_get(
            s,
            other,
        ),
    decreases s.len(),
{
    if s.len() == 0 {
        let t = seq![(key, value)];
        assert(t[0] == (key, value));
        assert(t.drop_first() =~= Seq::<(Seq<char>, Seq<char>)>::empty());
        if other != key {
            assert(spec_map_get(t, other) == spec_map_get(t.drop_first(), other));
        }
    } else if s[0].0 == key {
        let t = seq![(key, value)] + s.drop_first();
        assert(t[0] == (key, value));
        assert(t.drop_first() =~= s.drop_first());
        if other != key {
            assert(spec_map_get(t, other) == spec_map_get(s.drop_first(), other));
            assert(spec_map_get(s, other) == spec_map_get(s.drop_first(), other));
        }
    } else if text::seq_lt(key, s[0].0) {
        let t = seq![(key, value)] + s;
        assert(t[0] == (key, value));
        assert(t.drop_first() =~= s);
        if other != key {
            assert(spec_map_get(t, other) == spec_map_get(s, other));
        }
    } else {
        let r = spec_map_insert(s.drop_first(), key, value);
        let t = seq![s[0]] + r;
        assert(t[0] == s[0]);
        assert(t.drop_first() =~= r);
        assert(keys_increasing(s.drop_first())) by {
            assert forall|i: int, j: int| 0 <= i < j < s.drop_first().len() implies text::seq_lt(
                #[trigger] s.drop_first()[i].0,
                #[trigger] s.drop_first()[j].0,
            ) by {
                assert(s.drop_first()[i] == s[i + 1] && s.drop_first()[j] == s[j + 1]);
            }
        }
        law_mappings_get_after_insert(s.drop_first(), key, value, other);
        if other != key && s[0].0 != other {
            assert(spec_map_get(t, other) == spec_map_get(r, other));
            assert(spec_map_get(s, other) == spec_map_get(s.drop_first(), other));
        }
    }
}

} // verus!
