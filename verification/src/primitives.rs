//! The primitive data types of a model and the JSON types they map to.

use vstd::prelude::*;
use vstd::multiset::Multiset;
use crate::text;

verus! {

/// The names that count as primitive types.
pub open spec fn primitive_names() -> Seq<Seq<char>> {
    seq![
        "string"@,
        "float"@,
        "integer"@,
        "boolean"@,
        "bool"@,
        "null"@,
        "number"@,
        "date"@,
        "identifier"@,
    ]
}

/// The JSON type that each mapped data type stands for, as (type, JSON type)
/// pairs.
pub open spec fn json_table() -> Seq<(Seq<char>, Seq<char>)> {
    seq![
        ("string"@, "string"@),
        ("float"@, "number"@),
        ("integer"@, "integer"@),
        ("boolean"@, "boolean"@),
        ("bool"@, "boolean"@),
        ("null"@, "null"@),
        ("date"@, "string"@),
        ("number"@, "number"@),
        ("identifier"@, "string"@),
        ("bytes"@, "string"@),
    ]
}

/// Whether a data type name is primitive.
pub open spec fn is_primitive_name(d: Seq<char>) -> bool {
    primitive_names().contains(d)
}

/// The value of the first entry of `table` whose key is `d`.
pub open spec fn lookup(table: Seq<(Seq<char>, Seq<char>)>, d: Seq<char>) -> Option<Seq<char>>
    decreases table.len(),
{
    if table.len() == 0 {
        None
    } else if table[0].0 == d {
        Some(table[0].1)
    } else {
        lookup(table.drop_first(), d)
    }
}

/// The JSON type of a data type, if it has one.
pub open spec fn json_type_of(d: Seq<char>) -> Option<Seq<char>> {
    lookup(json_table(), d)
}


/// The strings of `dtypes` whose primitive status is `keep`, in order.
pub open spec fn filter_by_primitive(dtypes: Seq<Seq<char>>, keep: bool) -> Seq<Seq<char>> {
    dtypes.filter(|d: Seq<char>| is_primitive_name(d) == keep)
}

/// Of a list of data types, the primitive ones and the others, each kept in
/// order, split the list: every entry goes to exactly one of them, as often
/// as it occurs, so their lengths add up to the list's length.
pub proof fn law_primitive_split(d: Seq<Seq<char>>)
    ensures
        filter_by_primitive(d, true).to_multiset().add(filter_by_primitive(d, false).to_multiset())
            == d.to_multiset(),
        filter_by_primitive(d, true).len() + filter_by_primitive(d, false).len() == d.len(),
        forall|i: int|
            0 <= i < filter_by_primitive(d, true).len() ==> is_primitive_name(
                #[trigger] filter_by_primitive(d, true)[i],
            ),
        forall|i: int|
            0 <= i < filter_by_primitive(d, false).len() ==> !is_primitive_name(
                #[trigger] filter_by_primitive(d, false)[i],
            ),
    decreases d.len(),
{
    broadcast use vstd::multiset::group_multiset_axioms;
    broadcast use vstd::seq_lib::to_multiset_build;
    broadcast use vstd::seq_lib::to_multiset_contains;

    reveal_with_fuel(Seq::<_>::filter, 1);
    if d.len() == 0 {
        assert(filter_by_primitive(d, true) =~= Seq::<Seq<char>>::empty());
        assert(filter_by_primitive(d, false) =~= Seq::<Seq<char>>::empty());
        assert(d.to_multiset() =~= Multiset::<Seq<char>>::empty());
        assert(Seq::<Seq<char>>::empty().to_multiset() =~= Multiset::<Seq<char>>::empty());
        assert(filter_by_primitive(d, true).to_multiset().add(filter_by_primitive(d, false).to_multiset())
            =~= d.to_multiset());
    } else {
        let p = d.drop_last();
        let x = d.last();
        law_primitive_split(p);
        assert(d =~= p.push(x));
        let t = filter_by_primitive(p, true);
        let f = filter_by_primitive(p, false);
        if is_primitive_name(x) {
            assert(filter_by_primitive(d, true) == t.push(x));
            assert(filter_by_primitive(d, false) == f);
            assert(filter_by_primitive(d, true).to_multiset() =~= t.to_multiset().insert(x));
            assert(d.to_multiset() =~= p.to_multiset().insert(x));
            assert(t.to_multiset().insert(x).add(f.to_multiset()) =~= t.to_multiset().add(
                f.to_multiset(),
            ).insert(x));
        } else {
            assert(filter_by_primitive(d, true) == t);
            assert(filter_by_primitive(d, false) == f.push(x));
            assert(filter_by_primitive(d, false).to_multiset() =~= f.to_multiset().insert(x));
            assert(d.to_multiset() =~= p.to_multiset().insert(x));
            assert(t.to_multiset().add(f.to_multiset().insert(x)) =~= t.to_multiset().add(
                f.to_multiset(),
            ).insert(x));
        }
    }
}

/// A struct to manage primitive types and their corresponding JSON mappings.
pub struct PrimitiveTypes {
    types: Vec<String>,
    json_mappings: Vec<(String, String)>,
}

impl View for PrimitiveTypes {
    type V = (Seq<Seq<char>>, Seq<(Seq<char>, Seq<char>)>);

    /// The primitive type names, in order, and the JSON type of each data
    /// type that has one, as pairs in order.
    closed spec fn view(&self) -> (Seq<Seq<char>>, Seq<(Seq<char>, Seq<char>)>) {
        (text::strings_view(self.types@), text::pairs_view(self.json_mappings@))
    }
}

impl PrimitiveTypes {
    #[verifier::type_invariant]
    spec fn well_formed(self) -> bool {
        &&& text::strings_view(self.types@) == primitive_names()
        &&& text::pairs_view(self.json_mappings@) == json_table()
    }

    /// Creates a new instance of `PrimitiveTypes` with the predefined
    /// primitive types and their JSON mappings.
    pub fn new() -> (r: Self)
        ensures
            r@ == (primitive_names(), json_table()),
    {
        let mut json_mappings: Vec<(String, String)> = Vec::new();
        json_mappings.push((String::from_str("string"), String::from_str("string")));
        json_mappings.push((String::from_str("float"), String::from_str("number")));
        json_mappings.push((String::from_str("integer"), String::from_str("integer")));
        json_mappings.push((String::from_str("boolean"), String::from_str("boolean")));
        json_mappings.push((String::from_str("bool"), String::from_str("boolean")));
        json_mappings.push((String::from_str("null"), String::from_str("null")));
        json_mappings.push((String::from_str("date"), String::from_str("string")));
        json_mappings.push((String::from_str("number"), String::from_str("number")));
        json_mappings.push((String::from_str("identifier"), String::from_str("string")));
        json_mappings.push((String::from_str("bytes"), String::from_str("string")));
        let mut types: Vec<String> = Vec::new();
        types.push(String::from_str("string"));
        types.push(String::from_str("float"));
        types.push(String::from_str("integer"));
        types.push(String::from_str("boolean"));
        types.push(String::from_str("bool"));
        types.push(String::from_str("null"));
        types.push(String::from_str("number"));
        types.push(String::from_str("date"));
        types.push(String::from_str("identifier"));
        assert(text::strings_view(types@) =~= primitive_names());
        assert(text::pairs_view(json_mappings@) =~= json_table());
        PrimitiveTypes { types, json_mappings }
    }

    /// Whether the data type is one of the primitive types.
    fn is_primitive(&self, dtype: &String) -> (r: bool)
        ensures
            r == is_primitive_name(dtype@),
    {
        proof {
            use_type_invariant(self);
        }
        let mut i: usize = 0;
        while i < self.types.len()
            invariant
                i <= self.types@.len(),
                text::strings_view(self.types@) == primitive_names(),
                forall|k: int| 0 <= k < i ==> primitive_names()[k] != dtype@,
            decreases self.types.len() - i,
        {
            if self.types[i] == *dtype {
                assert(primitive_names()[i as int] == dtype@);
                return true;
            }
            i = i + 1;
        }
        false
    }

    /// The data types of `dtypes` that are (`keep`) or are not primitive,
    /// in their order.
    fn filter_types(&self, dtypes: &Vec<String>, keep: bool) -> (r: Vec<String>)
        ensures
            text::strings_view(r@) == filter_by_primitive(text::strings_view(dtypes@), keep),
    {
        let mut r: Vec<String> = Vec::new();
        let mut i: usize = 0;
        let ghost ds = text::strings_view(dtypes@);
        assert(ds.take(0) =~= Seq::<Seq<char>>::empty());
        while i < dtypes.len()
            invariant
                i <= dtypes@.len(),
                ds == text::strings_view(dtypes@),
                text::strings_view(r@) == filter_by_primitive(ds.take(i as int), keep),
            decreases dtypes.len() - i,
        {
            reveal_with_fuel(Seq::<_>::filter, 1);
            assert(ds.take(i + 1).drop_last() =~= ds.take(i as int));
            if self.is_primitive(&dtypes[i]) == keep {
                r.push(dtypes[i].clone());
            }
            i = i + 1;
            assert(text::strings_view(r@) =~= filter_by_primitive(ds.take(i as int), keep));
        }
        assert(ds.take(i as int) =~= ds);
        r
    }

    /// Returns the non-primitive types of the given list, in their order.
    pub fn filter_non_primitives(&self, dtypes: &Vec<String>) -> (r: Vec<String>)
        ensures
            text::strings_view(r@) == filter_by_primitive(text::strings_view(dtypes@), false),
    {
        self.filter_types(dtypes, false)
    }

    /// Returns the primitive types of the given list, in their order.
    pub fn filter_primitive(&self, dtypes: &Vec<String>) -> (r: Vec<String>)
        ensures
            text::strings_view(r@) == filter_by_primitive(text::strings_view(dtypes@), true),
    {
        self.filter_types(dtypes, true)
    }

    /// Converts a data type to its JSON type. The data type must be a
    /// primitive type (one that has a JSON mapping); the conversion panics on
    /// any other.
    pub fn dtype_to_json(&self, dtype: &String) -> (r: String)
        requires
            is_primitive_name(dtype@),
            json_type_of(dtype@) is Some,
        ensures
            r@ == json_type_of(dtype@).unwrap(),
    {
        proof {
            use_type_invariant(self);
        }
        let ghost table = json_table();
        let mut i: usize = 0;
        assert(table.skip(0) =~= table);
        while i < self.json_mappings.len()
            invariant
                i <= self.json_mappings@.len(),
                text::pairs_view(self.json_mappings@) == table,
                table == json_table(),
                lookup(table.skip(i as int), dtype@) is Some,
                lookup(table, dtype@) == lookup(table.skip(i as int), dtype@),
            decreases self.json_mappings.len() - i,
        {
            assert(table.skip(i as int).drop_first() =~= table.skip(i + 1));
            if self.json_mappings[i].0 == *dtype {
                return self.json_mappings[i].1.clone();
            }
            i = i + 1;
        }
        assert(table.skip(i as int).len() == 0);
        String::new()
    }
}

} // verus!
