//! Validation of data models: names, duplicates and types.

use vstd::prelude::*;
use vstd::string::*;
use crate::attribute::{Attribute, AttributeView};
use crate::datamodel::DataModel;
use crate::object::{self, Enumeration, Object};
use crate::text;

verus! {

// ---------------------------------------------------------------------------
// Errors
// ---------------------------------------------------------------------------

/// The kind of a validation error.
#[derive(Debug, Clone, Copy, PartialEq, Eq, Structural)]
pub enum ErrorType {
    NameError,
    TypeError,
    DuplicateError,
    GlobalError,
}

/// The name of an error kind.
pub open spec fn error_type_name(t: ErrorType) -> Seq<char> {
    match t {
        ErrorType::NameError => "NameError"@,
        ErrorType::TypeError => "TypeError"@,
        ErrorType::DuplicateError => "DuplicateError"@,
        ErrorType::GlobalError => "GlobalError"@,
    }
}

impl ErrorType {
    /// The name of the error kind, as displayed.
    pub fn to_string(&self) -> (r: String)
        ensures
            r@ == error_type_name(*self),
    {
        match self {
            ErrorType::NameError => String::from_str("NameError"),
            ErrorType::TypeError => String::from_str("TypeError"),
            ErrorType::DuplicateError => String::from_str("DuplicateError"),
            ErrorType::GlobalError => String::from_str("GlobalError"),
        }
    }
}

/// Represents a validation error in the data model.
#[derive(Debug, Clone)]
pub struct ValidationError {
    pub message: String,
    pub object: Option<String>,
    pub attribute: Option<String>,
    pub location: String,
    pub error_type: ErrorType,
}

/// The mathematical value of a [`ValidationError`].
pub struct ErrorView {
    pub message: Seq<char>,
    pub object: Option<Seq<char>>,
    pub attribute: Option<Seq<char>>,
    pub location: Seq<char>,
    pub error_type: ErrorType,
}

/// The view of an optional string.
pub open spec fn opt_view(o: Option<String>) -> Option<Seq<char>> {
    match o {
        Some(s) => Some(s@),
        None => None,
    }
}

impl View for ValidationError {
    type V = ErrorView;

    open spec fn view(&self) -> ErrorView {
        ErrorView {
            message: self.message@,
            object: opt_view(self.object),
            attribute: opt_view(self.attribute),
            location: self.location@,
            error_type: self.error_type,
        }
    }
}

/// The views of a sequence of errors.
pub open spec fn errors_view(v: Seq<ValidationError>) -> Seq<ErrorView> {
    v.map_values(|e: ValidationError| e@)
}

/// An error located globally in the model.
pub open spec fn global_error(
    message: Seq<char>,
    object: Option<Seq<char>>,
    attribute: Option<Seq<char>>,
    error_type: ErrorType,
) -> ErrorView {
    ErrorView { message, object, attribute, location: "Global"@, error_type }
}

/// The error reporting that name `d` is defined more than once. Object
/// names and enumeration names are reported on their own; an attribute name
/// is reported together with its object.
pub open spec fn duplicate_error(
    prefix: Seq<char>,
    d: Seq<char>,
    suffix: Seq<char>,
    object: Option<Seq<char>>,
) -> ErrorView {
    match object {
        Some(o) => global_error(prefix + d + suffix, Some(o), Some(d), ErrorType::DuplicateError),
        None => global_error(prefix + d + suffix, Some(d), None, ErrorType::DuplicateError),
    }
}

/// The errors for each duplicated name in `ds`.
pub open spec fn duplicate_errors(
    prefix: Seq<char>,
    ds: Seq<Seq<char>>,
    suffix: Seq<char>,
    object: Option<Seq<char>>,
) -> Seq<ErrorView> {
    ds.map_values(|d: Seq<char>| duplicate_error(prefix, d, suffix, object))
}

fn make_error(
    message: String,
    object: Option<String>,
    attribute: Option<String>,
    error_type: ErrorType,
) -> (r: ValidationError)
    ensures
        r@ == global_error(message@, opt_view(object), opt_view(attribute), error_type),
{
    ValidationError { message, object, attribute, location: String::from_str("Global"), error_type }
}

fn concat3(a: &str, b: &str, c: &str) -> (r: String)
    ensures
        r@ == a@ + b@ + c@,
{
    let mut r = String::from_str(a);
    r.append(b);
    r.append(c);
    r
}

fn concat5(a: &str, b: &str, c: &str, d: &str, e: &str) -> (r: String)
    ensures
        r@ == a@ + b@ + c@ + d@ + e@,
{
    let mut r = String::from_str(a);
    r.append(b);
    r.append(c);
    r.append(d);
    r.append(e);
    r
}

// ---------------------------------------------------------------------------
// Names
// ---------------------------------------------------------------------------

/// A character that is neither alphanumeric nor `_` nor a space.
pub open spec fn is_special(c: char) -> bool {
    !text::alphanumeric(c) && c != '_' && c != ' '
}

/// The error of the first-letter check: the name must start with an
/// alphabetic character.
pub open spec fn spec_starts_with_character(n: Seq<char>) -> Option<Seq<char>> {
    if n.len() > 0 && text::alphabetic(n[0]) {
        None
    } else {
        Some("Name '"@ + n + "' must start with a letter."@)
    }
}

/// The error of the white-space check: the name must not contain a space.
pub open spec fn spec_contains_white_space(n: Seq<char>) -> Option<Seq<char>> {
    if text::has_char(n, ' ') {
        Some("Name '"@ + n + "' contains whitespace, which is not valid. Use underscores instead."@)
    } else {
        None
    }
}

/// The error of the special-character check: the name must contain only
/// alphanumeric characters, underscores and spaces.
pub open spec fn spec_contains_special_characters(n: Seq<char>) -> Option<Seq<char>> {
    if exists|i: int| 0 <= i < n.len() && is_special(#[trigger] n[i]) {
        Some(
            "Name '"@ + n
                + "' contains special characters, which are not valid except for underscores."@,
        )
    } else {
        None
    }
}

/// The error of the PascalCase check: the name must consist of
/// alphanumeric characters, without underscores, and start with an
/// upper-case letter.
pub open spec fn spec_is_pascal_case(n: Seq<char>) -> Option<Seq<char>> {
    let no_snake = forall|i: int| 0 <= i < n.len() ==> text::alphanumeric(#[trigger] n[i]);
    let first_uppercase = n.len() > 0 && text::uppercase(n[0]);
    if !no_snake || !first_uppercase {
        Some(
            "Name '"@ + n
                + "' is not in PascalCase. Names must be in PascalCase and not contain underscores"@,
        )
    } else {
        None
    }
}

/// An ASCII letter or digit.
pub open spec fn ascii_alphanumeric(c: char) -> bool {
    text::ascii_letter(c) || text::ascii_digit(c)
}

/// An ASCII character that a name may hold: a letter, a digit, an
/// underscore or a space.
pub open spec fn ascii_name_char(c: char) -> bool {
    ascii_alphanumeric(c) || c == '_' || c == ' '
}

/// Checks if the given name starts with an alphabetic character.
pub fn starts_with_character(name: &str) -> (r: Result<(), String>)
    ensures
        match r {
            Ok(()) => spec_starts_with_character(name@) is None,
            Err(m) => spec_starts_with_character(name@) == Some(m@),
        },
        text::all_ascii(name@) ==> (r is Ok <==> (name@.len() > 0 && text::ascii_letter(name@[0]))),
{
    let cs = text::chars_of(name);
    if cs.len() > 0 && text::is_alphabetic(cs[0]) {
        Ok(())
    } else {
        Err(concat3("Name '", name, "' must start with a letter."))
    }
}

/// Checks that the given name contains no space.
pub fn contains_white_space(name: &str) -> (r: Result<(), String>)
    ensures
        match r {
            Ok(()) => spec_contains_white_space(name@) is None,
            Err(m) => spec_contains_white_space(name@) == Some(m@),
        },
{
    let cs = text::chars_of(name);
    if text::contains_char(&cs, ' ') {
        Err(
            concat3(
                "Name '",
                name,
                "' contains whitespace, which is not valid. Use underscores instead.",
            ),
        )
    } else {
        Ok(())
    }
}

/// Checks that the given name contains no special characters, except for
/// underscores (and spaces, which the white-space check reports).
pub fn contains_special_characters(name: &str) -> (r: Result<(), String>)
    ensures
        match r {
            Ok(()) => spec_contains_special_characters(name@) is None,
            Err(m) => spec_contains_special_characters(name@) == Some(m@),
        },
        text::all_ascii(name@) ==> (r is Ok <==> forall|k: int|
            0 <= k < name@.len() ==> ascii_name_char(#[trigger] name@[k])),
{
    let cs = text::chars_of(name);
    let mut i: usize = 0;
    while i < cs.len()
        invariant
            i <= cs@.len(),
            cs@ == name@,
            forall|k: int| 0 <= k < i ==> !is_special(#[trigger] name@[k]),
            text::all_ascii(name@) ==> forall|k: int| 0 <= k < i ==> ascii_name_char(#[trigger] name@[k]),
        decreases cs.len() - i,
    {
        let c = cs[i];
        let alnum = text::is_alphanumeric(c);
        if !alnum && c != '_' && c != ' ' {
            assert(is_special(name@[i as int]));
            return Err(
                concat3(
                    "Name '",
                    name,
                    "' contains special characters, which are not valid except for underscores.",
                ),
            );
        }
        i = i + 1;
    }
    Ok(())
}

/// Checks if the given name is in PascalCase.
pub fn is_pascal_case(name: &str) -> (r: Result<(), String>)
    ensures
        match r {
            Ok(()) => spec_is_pascal_case(name@) is None,
            Err(m) => spec_is_pascal_case(name@) == Some(m@),
        },
        text::all_ascii(name@) ==> (r is Ok <==> (name@.len() > 0 && 'A' <= name@[0] <= 'Z' && forall|k: int|
            0 <= k < name@.len() ==> ascii_alphanumeric(#[trigger] name@[k]))),
{
    let cs = text::chars_of(name);
    let mut no_snake = true;
    let mut i: usize = 0;
    while i < cs.len()
        invariant
            i <= cs@.len(),
            cs@ == name@,
            no_snake == forall|k: int|
                0 <= k < i ==> text::alphanumeric(#[trigger] name@[k]),
            text::all_ascii(name@) ==> (no_snake == forall|k: int|
                0 <= k < i ==> ascii_alphanumeric(#[trigger] name@[k])),
        decreases cs.len() - i,
    {
        let c = cs[i];
        let ok = text::is_alphanumeric(c);
        proof {
            if !no_snake {
                let k = choose|k: int|
                    0 <= k < i && !text::alphanumeric(#[trigger] name@[k]);
                assert(0 <= k < i + 1);
            }
        }
        no_snake = no_snake && ok;
        i = i + 1;
    }
    let first_uppercase = cs.len() > 0 && text::is_uppercase(cs[0]);
    if !no_snake || !first_uppercase {
        Err(
            concat3(
                "Name '",
                name,
                "' is not in PascalCase. Names must be in PascalCase and not contain underscores",
            ),
        )
    } else {
        Ok(())
    }
}

/// The error that a failed check gives, if it failed.
pub open spec fn check_error(
    check: Option<Seq<char>>,
    object: Option<Seq<char>>,
    attribute: Option<Seq<char>>,
) -> Seq<ErrorView> {
    match check {
        Some(m) => seq![global_error(m, object, attribute, ErrorType::NameError)],
        None => Seq::empty(),
    }
}

/// The errors of the name checks of an object.
pub open spec fn object_name_errors(n: Seq<char>) -> Seq<ErrorView> {
    check_error(spec_starts_with_character(n), Some(n), None) + check_error(
        spec_contains_white_space(n),
        Some(n),
        None,
    ) + check_error(spec_contains_special_characters(n), Some(n), None) + check_error(
        spec_is_pascal_case(n),
        Some(n),
        None,
    )
}

/// The errors of the name checks of an attribute of object `obj`.
pub open spec fn attribute_name_errors(n: Seq<char>, obj: Seq<char>) -> Seq<ErrorView> {
    check_error(spec_starts_with_character(n), Some(obj), Some(n)) + check_error(
        spec_contains_white_space(n),
        Some(obj),
        Some(n),
    ) + check_error(spec_contains_special_characters(n), Some(obj), Some(n))
}

// ---------------------------------------------------------------------------
// Duplicates
// ---------------------------------------------------------------------------

/// `x` occurs at least twice in `names`.
pub open spec fn occurs_twice(names: Seq<Seq<char>>, x: Seq<char>) -> bool {
    exists|i: int, j: int| 0 <= i < j < names.len() && names[i] == x && names[j] == x
}

/// The names among the first `k` that occur more than once in `names`,
/// each once, in the order of their first occurrence.
pub open spec fn duplicates_upto(names: Seq<Seq<char>>, k: int) -> Seq<Seq<char>>
    decreases k,
{
    if k <= 0 {
        Seq::empty()
    } else {
        let d = duplicates_upto(names, k - 1);
        let x = names[k - 1];
        if occurs_twice(names, x) && !d.contains(x) {
            d.push(x)
        } else {
            d
        }
    }
}

/// The names that occur more than once, each once, in the order of their
/// first occurrence.
pub open spec fn duplicate_names(names: Seq<Seq<char>>) -> Seq<Seq<char>> {
    duplicates_upto(names, names.len() as int)
}

fn occurs_twice_exec(names: &Vec<String>, x: &String) -> (r: bool)
    ensures
        r == occurs_twice(text::strings_view(names@), x@),
{
    let ghost ns = text::strings_view(names@);
    let mut first: Option<usize> = None;
    let mut i: usize = 0;
    while i < names.len()
        invariant
            i <= names@.len(),
            ns == text::strings_view(names@),
            match first {
                None => forall|k: int| 0 <= k < i ==> ns[k] != x@,
                Some(f) => f < i && ns[f as int] == x@ && forall|k: int|
                    f < k < i ==> ns[k] != x@,
            },
            forall|a: int, b: int| 0 <= a < b < i ==> !(ns[a] == x@ && ns[b] == x@),
        decreases names.len() - i,
    {
        if names[i] == *x {
            match first {
                Some(f) => {
                    assert(ns[f as int] == x@ && ns[i as int] == x@);
                    return true;
                },
                None => {
                    first = Some(i);
                },
            }
        }
        i = i + 1;
    }
    false
}

pub(crate) fn contains_string(v: &Vec<String>, x: &String) -> (r: bool)
    ensures
        r == text::strings_view(v@).contains(x@),
{
    let mut i: usize = 0;
    while i < v.len()
        invariant
            i <= v@.len(),
            forall|k: int| 0 <= k < i ==> text::strings_view(v@)[k] != x@,
        decreases v.len() - i,
    {
        if v[i] == *x {
            assert(text::strings_view(v@)[i as int] == x@);
            return true;
        }
        i = i + 1;
    }
    false
}

/// The names that occur more than once, each once, in the order of their
/// first occurrence.
pub fn get_duplicates(names: &Vec<String>) -> (r: Vec<String>)
    ensures
        text::strings_view(r@) == duplicate_names(text::strings_view(names@)),
{
    let ghost ns = text::strings_view(names@);
    let mut r: Vec<String> = Vec::new();
    let mut i: usize = 0;
    while i < names.len()
        invariant
            i <= names@.len(),
            ns == text::strings_view(names@),
            text::strings_view(r@) == duplicates_upto(ns, i as int),
        decreases names.len() - i,
    {
        let x = &names[i];
        if occurs_twice_exec(names, x) && !contains_string(&r, x) {
            let ghost before = r@;
            r.push(x.clone());
            assert(text::strings_view(r@) =~= text::strings_view(before).push(x@));
        }
        i = i + 1;
    }
    r
}

fn object_names(objects: &Vec<Object>) -> (r: Vec<String>)
    ensures
        text::strings_view(r@) == objects_names(objects@),
{
    let mut r: Vec<String> = Vec::new();
    let mut i: usize = 0;
    while i < objects.len()
        invariant
            i <= objects@.len(),
            text::strings_view(r@) == objects_names(objects@).take(i as int),
        decreases objects.len() - i,
    {
        let ghost before = r@;
        let n = objects[i].name.clone();
        assert(n@ == objects@[i as int].name@);
        r.push(n);
        assert(text::strings_view(r@) =~= text::strings_view(before).push(n@));
        assert(text::strings_view(r@) =~= objects_names(objects@).take(i + 1));
        i = i + 1;
    }
    assert(objects_names(objects@).take(i as int) =~= objects_names(objects@));
    r
}

fn enum_names(enums: &Vec<Enumeration>) -> (r: Vec<String>)
    ensures
        text::strings_view(r@) == enums_names(enums@),
{
    let mut r: Vec<String> = Vec::new();
    let mut i: usize = 0;
    while i < enums.len()
        invariant
            i <= enums@.len(),
            text::strings_view(r@) == enums_names(enums@).take(i as int),
        decreases enums.len() - i,
    {
        let ghost before = r@;
        let n = enums[i].name.clone();
        assert(n@ == enums@[i as int].name@);
        r.push(n);
        assert(text::strings_view(r@) =~= text::strings_view(before).push(n@));
        assert(text::strings_view(r@) =~= enums_names(enums@).take(i + 1));
        i = i + 1;
    }
    assert(enums_names(enums@).take(i as int) =~= enums_names(enums@));
    r
}

fn attribute_names(attributes: &Vec<Attribute>) -> (r: Vec<String>)
    ensures
        text::strings_view(r@) == attrs_names(object::attrs_view(attributes@)),
{
    let mut r: Vec<String> = Vec::new();
    let mut i: usize = 0;
    while i < attributes.len()
        invariant
            i <= attributes@.len(),
            text::strings_view(r@) == attrs_names(object::attrs_view(attributes@)).take(i as int),
        decreases attributes.len() - i,
    {
        let ghost before = r@;
        let n = attributes[i].name.clone();
        assert(n@ == attributes@[i as int].name@);
        assert(n@ == object::attrs_view(attributes@)[i as int].name);
        r.push(n);
        assert(text::strings_view(r@) =~= text::strings_view(before).push(n@));
        assert(text::strings_view(r@) =~= attrs_names(object::attrs_view(attributes@)).take(
            i + 1,
        ));
        i = i + 1;
    }
    assert(attrs_names(object::attrs_view(attributes@)).take(i as int) =~= attrs_names(
        object::attrs_view(attributes@),
    ));
    r
}

// ---------------------------------------------------------------------------
// Models
// ---------------------------------------------------------------------------

/// The names of the objects, in order.
pub open spec fn objects_names(objects: Seq<Object>) -> Seq<Seq<char>> {
    objects.map_values(|o: Object| o.name@)
}

/// The names of the enumerations, in order.
pub open spec fn enums_names(enums: Seq<Enumeration>) -> Seq<Seq<char>> {
    enums.map_values(|e: Enumeration| e.name@)
}

/// The names of the attributes, in order.
pub open spec fn attrs_names(attrs: Seq<AttributeView>) -> Seq<Seq<char>> {
    attrs.map_values(|a: AttributeView| a.name)
}

/// The type names a model defines: its objects, then its enumerations.
pub open spec fn model_types(m: DataModel) -> Seq<Seq<char>> {
    objects_names(m.objects@) + enums_names(m.enums@)
}

/// The basic types, which need no definition.
pub open spec fn basic_types() -> Seq<Seq<char>> {
    seq!["string"@, "number"@, "integer"@, "boolean"@, "float"@, "date"@, "bytes"@]
}

/// The error for a data type of attribute `attr` (of object `obj`) that is
/// neither defined in the model nor basic.
pub open spec fn dtype_error(d: Seq<char>, types: Seq<Seq<char>>, attr: Seq<char>, obj: Seq<char>) -> Seq<
    ErrorView,
> {
    if !types.contains(d) && !basic_types().contains(d) {
        seq![
            global_error(
                "Type "@ + d + " of property "@ + attr
                    + " not found. Either define the type or use a base type."@,
                Some(obj),
                Some(attr),
                ErrorType::TypeError,
            ),
        ]
    } else {
        Seq::empty()
    }
}

/// The errors for the first `k` data types of an attribute.
pub open spec fn dtypes_errors(
    ds: Seq<Seq<char>>,
    k: int,
    types: Seq<Seq<char>>,
    attr: Seq<char>,
    obj: Seq<char>,
) -> Seq<ErrorView>
    decreases k,
{
    if k <= 0 {
        Seq::empty()
    } else {
        dtypes_errors(ds, k - 1, types, attr, obj) + dtype_error(ds[k - 1], types, attr, obj)
    }
}

/// The errors for an attribute of object `obj`: its name checks, a missing
/// type, and each undefined data type.
pub open spec fn attribute_errors(a: AttributeView, types: Seq<Seq<char>>, obj: Seq<char>) -> Seq<
    ErrorView,
> {
    attribute_name_errors(a.name, obj) + (if a.dtypes.len() == 0 {
        seq![
            global_error(
                "Property "@ + a.name + " has no type specified."@,
                Some(obj),
                Some(a.name),
                ErrorType::TypeError,
            ),
        ]
    } else {
        Seq::empty()
    }) + dtypes_errors(a.dtypes, a.dtypes.len() as int, types, a.name, obj)
}

/// The errors for the first `k` attributes of object `obj`.
pub open spec fn attrs_errors(attrs: Seq<AttributeView>, k: int, types: Seq<Seq<char>>, obj: Seq<char>) -> Seq<
    ErrorView,
>
    decreases k,
{
    if k <= 0 {
        Seq::empty()
    } else {
        attrs_errors(attrs, k - 1, types, obj) + attribute_errors(attrs[k - 1], types, obj)
    }
}

/// The errors for an object: its name checks, having no attributes,
/// duplicate attribute names, and the errors of each attribute.
pub open spec fn object_errors(o: Object, types: Seq<Seq<char>>) -> Seq<ErrorView> {
    let n = o.name@;
    let attrs = object::attrs_view(o.attributes@);
    object_name_errors(n) + (if attrs.len() == 0 {
        seq![
            global_error(
                "Type "@ + n + " is empty and has no properties."@,
                Some(n),
                None,
                ErrorType::TypeError,
            ),
        ]
    } else {
        Seq::empty()
    }) + duplicate_errors(
        "Property "@,
        duplicate_names(attrs_names(attrs)),
        " is defined more than once."@,
        Some(n),
    ) + attrs_errors(attrs, attrs.len() as int, types, n)
}

/// The errors for the first `k` objects.
pub open spec fn objects_errors(objects: Seq<Object>, k: int, types: Seq<Seq<char>>) -> Seq<
    ErrorView,
>
    decreases k,
{
    if k <= 0 {
        Seq::empty()
    } else {
        objects_errors(objects, k - 1, types) + object_errors(objects[k - 1], types)
    }
}

/// All errors of a model, in the order the validator reports them:
/// duplicate object names, duplicate enumeration names, a model without
/// objects, then the errors of each object.
pub open spec fn model_errors(m: DataModel) -> Seq<ErrorView> {
    let objs = m.objects@;
    duplicate_errors(
        "Object "@,
        duplicate_names(objects_names(objs)),
        " is defined more than once."@,
        None,
    ) + duplicate_errors(
        "Enumeration "@,
        duplicate_names(enums_names(m.enums@)),
        " is defined more than once."@,
        None,
    ) + (if objs.len() == 0 {
        seq![
            global_error(
                "This model has no definitions."@,
                Some("Model"@),
                None,
                ErrorType::GlobalError,
            ),
        ]
    } else {
        Seq::empty()
    }) + objects_errors(objs, objs.len() as int, model_types(m))
}

/// A name that occurs twice, once among the first `k`, is among the
/// duplicates found up to `k`.
proof fn lemma_duplicates_upto_has(names: Seq<Seq<char>>, k: int, x: Seq<char>, p: int)
    requires
        0 <= p < k <= names.len(),
        names[p] == x,
        occurs_twice(names, x),
    ensures
        duplicates_upto(names, k).contains(x),
    decreases k,
{
    let d = duplicates_upto(names, k - 1);
    if p < k - 1 {
        lemma_duplicates_upto_has(names, k - 1, x, p);
        let q = choose|q: int| 0 <= q < d.len() && d[q] == x;
        let y = names[k - 1];
        if occurs_twice(names, y) && !d.contains(y) {
            assert(d.push(y)[q] == x);
        }
    } else {
        if d.contains(x) {
            let q = choose|q: int| 0 <= q < d.len() && d[q] == x;
            if occurs_twice(names, x) && !d.contains(x) {
            } else {
                assert(duplicates_upto(names, k)[q] == x);
            }
        } else {
            assert(duplicates_upto(names, k)[d.len() as int] == x);
        }
    }
}

/// The errors of the first `k` objects hold the errors of each of them.
proof fn lemma_objects_errors_has(objects: Seq<Object>, k: int, types: Seq<Seq<char>>, q: int, e: ErrorView)
    requires
        0 <= q < k <= objects.len(),
        object_errors(objects[q], types).contains(e),
    ensures
        objects_errors(objects, k, types).contains(e),
    decreases k,
{
    let prev = objects_errors(objects, k - 1, types);
    let last = object_errors(objects[k - 1], types);
    if q < k - 1 {
        lemma_objects_errors_has(objects, k - 1, types, q, e);
        let i = choose|i: int| 0 <= i < prev.len() && prev[i] == e;
        assert((prev + last)[i] == e);
    } else {
        let i = choose|i: int| 0 <= i < last.len() && last[i] == e;
        assert((prev + last)[prev.len() + i] == e);
    }
}

/// Where an object has two attributes of one name, validating the model
/// reports that the property is defined more than once, for that object and
/// that attribute, so the model is not valid.
pub proof fn law_duplicate_attribute_reported(m: DataModel, k: int, i: int, j: int)
    requires
        0 <= k < m.objects@.len(),
        0 <= i < j < m.objects@[k].attributes@.len(),
        m.objects@[k].attributes@[i].name@ == m.objects@[k].attributes@[j].name@,
    ensures
        model_errors(m).contains(
            ErrorView {
                message: "Property "@ + m.objects@[k].attributes@[i].name@ + " is defined more than once."@,
                object: Some(m.objects@[k].name@),
                attribute: Some(m.objects@[k].attributes@[i].name@),
                location: "Global"@,
                error_type: ErrorType::DuplicateError,
            },
        ),
        model_errors(m).len() > 0,
{
    let o = m.objects@[k];
    let n = o.name@;
    let x = o.attributes@[i].name@;
    let attrs = object::attrs_view(o.attributes@);
    let names = attrs_names(attrs);
    assert(names[i] == x);
    assert(names[j] == x);
    assert(occurs_twice(names, x));
    lemma_duplicates_upto_has(names, names.len() as int, x, i);
    let ds = duplicate_names(names);
    let q = choose|q: int| 0 <= q < ds.len() && ds[q] == x;
    let e = ErrorView {
        message: "Property "@ + x + " is defined more than once."@,
        object: Some(n),
        attribute: Some(x),
        location: "Global"@,
        error_type: ErrorType::DuplicateError,
    };
    let dup = duplicate_errors("Property "@, ds, " is defined more than once."@, Some(n));
    assert(dup[q] == e);
    let head = object_name_errors(n) + (if attrs.len() == 0 {
        seq![
            global_error(
                "Type "@ + n + " is empty and has no properties."@,
                Some(n),
                None,
                ErrorType::TypeError,
            ),
        ]
    } else {
        Seq::empty()
    });
    let rest = attrs_errors(attrs, attrs.len() as int, model_types(m), n);
    assert(object_errors(o, model_types(m)) == head + dup + rest);
    assert((head + dup + rest)[head.len() + q] == e);
    lemma_objects_errors_has(m.objects@, m.objects@.len() as int, model_types(m), k, e);
    let objs = m.objects@;
    let oe = objects_errors(objs, objs.len() as int, model_types(m));
    let i2 = choose|i2: int| 0 <= i2 < oe.len() && oe[i2] == e;
    assert(model_errors(m)[model_errors(m).len() - oe.len() + i2] == e);
}

/// The errors of the first `k` attributes hold the errors of each of them.
proof fn lemma_attrs_errors_has(
    attrs: Seq<AttributeView>,
    k: int,
    types: Seq<Seq<char>>,
    obj: Seq<char>,
    q: int,
    e: ErrorView,
)
    requires
        0 <= q < k <= attrs.len(),
        attribute_errors(attrs[q], types, obj).contains(e),
    ensures
        attrs_errors(attrs, k, types, obj).contains(e),
    decreases k,
{
    let prev = attrs_errors(attrs, k - 1, types, obj);
    let last = attribute_errors(attrs[k - 1], types, obj);
    if q < k - 1 {
        lemma_attrs_errors_has(attrs, k - 1, types, obj, q, e);
        let i = choose|i: int| 0 <= i < prev.len() && prev[i] == e;
        assert((prev + last)[i] == e);
    } else {
        let i = choose|i: int| 0 <= i < last.len() && last[i] == e;
        assert((prev + last)[prev.len() + i] == e);
    }
}

/// The errors of the first `k` data types hold the error of each of them.
proof fn lemma_dtypes_errors_has(
    ds: Seq<Seq<char>>,
    k: int,
    types: Seq<Seq<char>>,
    attr: Seq<char>,
    obj: Seq<char>,
    q: int,
    e: ErrorView,
)
    requires
        0 <= q < k <= ds.len(),
        dtype_error(ds[q], types, attr, obj).contains(e),
    ensures
        dtypes_errors(ds, k, types, attr, obj).contains(e),
    decreases k,
{
    let prev = dtypes_errors(ds, k - 1, types, attr, obj);
    let last = dtype_error(ds[k - 1], types, attr, obj);
    if q < k - 1 {
        lemma_dtypes_errors_has(ds, k - 1, types, attr, obj, q, e);
        let i = choose|i: int| 0 <= i < prev.len() && prev[i] == e;
        assert((prev + last)[i] == e);
    } else {
        let i = choose|i: int| 0 <= i < last.len() && last[i] == e;
        assert((prev + last)[prev.len() + i] == e);
    }
}

/// An error of an object is an error of the model.
proof fn lemma_model_has_object_error(m: DataModel, k: int, e: ErrorView)
    requires
        0 <= k < m.objects@.len(),
        object_errors(m.objects@[k], model_types(m)).contains(e),
    ensures
        model_errors(m).contains(e),
        model_errors(m).len() > 0,
{
    let objs = m.objects@;
    lemma_objects_errors_has(objs, objs.len() as int, model_types(m), k, e);
    let oe = objects_errors(objs, objs.len() as int, model_types(m));
    let i2 = choose|i2: int| 0 <= i2 < oe.len() && oe[i2] == e;
    assert(model_errors(m)[model_errors(m).len() - oe.len() + i2] == e);
}

/// An error of an attribute is an error of the model.
proof fn lemma_model_has_attribute_error(m: DataModel, k: int, i: int, e: ErrorView)
    requires
        0 <= k < m.objects@.len(),
        0 <= i < m.objects@[k].attributes@.len(),
        attribute_errors(m.objects@[k].attributes@[i]@, model_types(m), m.objects@[k].name@).contains(e),
    ensures
        model_errors(m).contains(e),
        model_errors(m).len() > 0,
{
    let o = m.objects@[k];
    let n = o.name@;
    let attrs = object::attrs_view(o.attributes@);
    assert(attrs[i] == o.attributes@[i]@);
    lemma_attrs_errors_has(attrs, attrs.len() as int, model_types(m), n, i, e);
    let ae = attrs_errors(attrs, attrs.len() as int, model_types(m), n);
    let j = choose|j: int| 0 <= j < ae.len() && ae[j] == e;
    let oe = object_errors(o, model_types(m));
    assert(oe[oe.len() - ae.len() + j] == e);
    lemma_model_has_object_error(m, k, e);
}

/// Two objects of one name are reported: the object is defined more than
/// once, and the model is not valid.
pub proof fn law_duplicate_object_reported(m: DataModel, i: int, j: int)
    requires
        0 <= i < j < m.objects@.len(),
        m.objects@[i].name@ == m.objects@[j].name@,
    ensures
        model_errors(m).contains(
            ErrorView {
                message: "Object "@ + m.objects@[i].name@ + " is defined more than once."@,
                object: Some(m.objects@[i].name@),
                attribute: None,
                location: "Global"@,
                error_type: ErrorType::DuplicateError,
            },
        ),
        model_errors(m).len() > 0,
{
    let x = m.objects@[i].name@;
    let names = objects_names(m.objects@);
    assert(names[i] == x);
    assert(names[j] == x);
    lemma_duplicates_upto_has(names, names.len() as int, x, i);
    let ds = duplicate_names(names);
    let q = choose|q: int| 0 <= q < ds.len() && ds[q] == x;
    let dup = duplicate_errors("Object "@, ds, " is defined more than once."@, None);
    let e = ErrorView {
        message: "Object "@ + x + " is defined more than once."@,
        object: Some(x),
        attribute: None,
        location: "Global"@,
        error_type: ErrorType::DuplicateError,
    };
    assert(dup[q] == e);
    assert(model_errors(m)[q] == e);
}

/// A model without objects is reported as having no definitions, and is
/// not valid.
pub proof fn law_empty_model_reported(m: DataModel)
    requires
        m.objects@.len() == 0,
    ensures
        model_errors(m).contains(
            ErrorView {
                message: "This model has no definitions."@,
                object: Some("Model"@),
                attribute: None,
                location: "Global"@,
                error_type: ErrorType::GlobalError,
            },
        ),
        model_errors(m).len() > 0,
{
    let a = duplicate_errors("Object "@, duplicate_names(objects_names(m.objects@)), " is defined more than once."@, None);
    let b = duplicate_errors("Enumeration "@, duplicate_names(enums_names(m.enums@)), " is defined more than once."@, None);
    assert(model_errors(m)[(a.len() + b.len()) as int] == global_error(
        "This model has no definitions."@,
        Some("Model"@),
        None,
        ErrorType::GlobalError,
    ));
}

/// An object without attributes is reported as empty, and the model is not
/// valid.
pub proof fn law_empty_object_reported(m: DataModel, k: int)
    requires
        0 <= k < m.objects@.len(),
        m.objects@[k].attributes@.len() == 0,
    ensures
        model_errors(m).contains(
            ErrorView {
                message: "Type "@ + m.objects@[k].name@ + " is empty and has no properties."@,
                object: Some(m.objects@[k].name@),
                attribute: None,
                location: "Global"@,
                error_type: ErrorType::TypeError,
            },
        ),
        model_errors(m).len() > 0,
{
    let o = m.objects@[k];
    let n = o.name@;
    let e = ErrorView {
        message: "Type "@ + n + " is empty and has no properties."@,
        object: Some(n),
        attribute: None,
        location: "Global"@,
        error_type: ErrorType::TypeError,
    };
    let oe = object_errors(o, model_types(m));
    assert(object::attrs_view(o.attributes@).len() == 0);
    assert(oe[object_name_errors(n).len() as int] == e);
    lemma_model_has_object_error(m, k, e);
}

/// An attribute without a data type is reported, and the model is not
/// valid.
pub proof fn law_untyped_attribute_reported(m: DataModel, k: int, i: int)
    requires
        0 <= k < m.objects@.len(),
        0 <= i < m.objects@[k].attributes@.len(),
        m.objects@[k].attributes@[i].dtypes@.len() == 0,
    ensures
        model_errors(m).contains(
            ErrorView {
                message: "Property "@ + m.objects@[k].attributes@[i].name@ + " has no type specified."@,
                object: Some(m.objects@[k].name@),
                attribute: Some(m.objects@[k].attributes@[i].name@),
                location: "Global"@,
                error_type: ErrorType::TypeError,
            },
        ),
        model_errors(m).len() > 0,
{
    let a = m.objects@[k].attributes@[i]@;
    let n = m.objects@[k].name@;
    let e = ErrorView {
        message: "Property "@ + a.name + " has no type specified."@,
        object: Some(n),
        attribute: Some(a.name),
        location: "Global"@,
        error_type: ErrorType::TypeError,
    };
    let ae = attribute_errors(a, model_types(m), n);
    assert(ae[attribute_name_errors(a.name, n).len() as int] == e);
    lemma_model_has_attribute_error(m, k, i, e);
}

/// A data type that is no object, no enumeration and no basic type
/// (`string`, `number`, `integer`, `boolean`, `float`, `date`, `bytes`) is
/// reported as not found, and the model is not valid.
pub proof fn law_undefined_type_reported(m: DataModel, k: int, i: int, d: int)
    requires
        0 <= k < m.objects@.len(),
        0 <= i < m.objects@[k].attributes@.len(),
        0 <= d < m.objects@[k].attributes@[i].dtypes@.len(),
        forall|q: int| 0 <= q < m.objects@.len() ==> m.objects@[q].name@ != m.objects@[k].attributes@[i].dtypes@[d]@,
        forall|q: int| 0 <= q < m.enums@.len() ==> m.enums@[q].name@ != m.objects@[k].attributes@[i].dtypes@[d]@,
        m.objects@[k].attributes@[i].dtypes@[d]@ != "string"@,
        m.objects@[k].attributes@[i].dtypes@[d]@ != "number"@,
        m.objects@[k].attributes@[i].dtypes@[d]@ != "integer"@,
        m.objects@[k].attributes@[i].dtypes@[d]@ != "boolean"@,
        m.objects@[k].attributes@[i].dtypes@[d]@ != "float"@,
        m.objects@[k].attributes@[i].dtypes@[d]@ != "date"@,
        m.objects@[k].attributes@[i].dtypes@[d]@ != "bytes"@,
    ensures
        model_errors(m).contains(
            ErrorView {
                message: "Type "@ + m.objects@[k].attributes@[i].dtypes@[d]@ + " of property "@
                    + m.objects@[k].attributes@[i].name@
                    + " not found. Either define the type or use a base type."@,
                object: Some(m.objects@[k].name@),
                attribute: Some(m.objects@[k].attributes@[i].name@),
                location: "Global"@,
                error_type: ErrorType::TypeError,
            },
        ),
        model_errors(m).len() > 0,
{
    let a = m.objects@[k].attributes@[i]@;
    let n = m.objects@[k].name@;
    let t = a.dtypes[d];
    assert(t == m.objects@[k].attributes@[i].dtypes@[d]@);
    let types = model_types(m);
    assert(!types.contains(t)) by {
        if types.contains(t) {
            let q = choose|q: int| 0 <= q < types.len() && types[q] == t;
            let on = objects_names(m.objects@);
            if q < on.len() {
                assert(on[q] == m.objects@[q].name@);
            } else {
                assert(enums_names(m.enums@)[q - on.len()] == m.enums@[q - on.len()].name@);
            }
        }
    }
    assert(!basic_types().contains(t)) by {
        if basic_types().contains(t) {
            let q = choose|q: int| 0 <= q < basic_types().len() && basic_types()[q] == t;
        }
    }
    let e = ErrorView {
        message: "Type "@ + t + " of property "@ + a.name + " not found. Either define the type or use a base type."@,
        object: Some(n),
        attribute: Some(a.name),
        location: "Global"@,
        error_type: ErrorType::TypeError,
    };
    assert(dtype_error(t, types, a.name, n)[0] == e);
    lemma_dtypes_errors_has(a.dtypes, a.dtypes.len() as int, types, a.name, n, d, e);
    let de = dtypes_errors(a.dtypes, a.dtypes.len() as int, types, a.name, n);
    let j = choose|j: int| 0 <= j < de.len() && de[j] == e;
    let ae = attribute_errors(a, types, n);
    assert(ae[ae.len() - de.len() + j] == e);
    lemma_model_has_attribute_error(m, k, i, e);
}

// ---------------------------------------------------------------------------
// The validator
// ---------------------------------------------------------------------------

/// Validator for checking the integrity of a data model.
#[derive(Debug, Clone)]
pub struct Validator {
    pub is_valid: bool,
    pub errors: Vec<ValidationError>,
}

impl Validator {
    /// Creates a new validator, valid and without errors.
    pub fn new() -> (r: Self)
        ensures
            r.is_valid,
            r.errors@.len() == 0,
    {
        Validator { is_valid: true, errors: Vec::new() }
    }

    /// Clears the errors and marks the validator valid.
    pub fn reset(&mut self)
        ensures
            final(self).is_valid,
            final(self).errors@.len() == 0,
    {
        self.is_valid = true;
        self.errors.clear();
    }

    /// Adds a validation error; the validator is then invalid.
    pub fn add_error(&mut self, error: ValidationError)
        ensures
            errors_view(final(self).errors@) == errors_view(old(self).errors@).push(error@),
            !final(self).is_valid,
    {
        self.errors.push(error);
        assert(errors_view(self.errors@) =~= errors_view(old(self).errors@).push(error@));
        self.is_valid = false;
    }

    /// Adds one error for each name, built by `prefix name suffix`.
    fn add_duplicate_errors(
        &mut self,
        names: &Vec<String>,
        prefix: &str,
        suffix: &str,
        object: &Option<String>,
    )
        ensures
            errors_view(final(self).errors@) == errors_view(old(self).errors@) + duplicate_errors(
                prefix@,
                text::strings_view(names@),
                suffix@,
                opt_view(*object),
            ),
            names@.len() > 0 ==> !final(self).is_valid,
            names@.len() == 0 ==> final(self).is_valid == old(self).is_valid,
    {
        let ghost ov = opt_view(*object);
        let mut i: usize = 0;
        let ghost start = errors_view(self.errors@);
        while i < names.len()
            invariant
                i <= names@.len(),
                errors_view(self.errors@) == start + duplicate_errors(
                    prefix@,
                    text::strings_view(names@).take(i as int),
                    suffix@,
                    ov,
                ),
                ov == opt_view(*object),
                i > 0 ==> !self.is_valid,
                i == 0 ==> self.is_valid == old(self).is_valid,
            decreases names.len() - i,
        {
            let name = &names[i];
            let message = concat3(prefix, name.as_str(), suffix);
            let nm = name.clone();
            assert(nm@ == text::strings_view(names@)[i as int]);
            let (obj, attr) = match object {
                Some(o) => {
                    let oc = o.clone();
                    assert(oc@ == o@);
                    (Some(oc), Some(nm))
                },
                None => (Some(nm), None),
            };
            let e = make_error(message, obj, attr, ErrorType::DuplicateError);
            let ghost d = text::strings_view(names@)[i as int];
            assert(e@ == duplicate_error(prefix@, d, suffix@, ov));
            self.add_error(e);
            assert(duplicate_errors(prefix@, text::strings_view(names@).take(i + 1), suffix@, ov)
                =~= duplicate_errors(prefix@, text::strings_view(names@).take(i as int), suffix@, ov).push(
                duplicate_error(prefix@, d, suffix@, ov),
            ));
            i = i + 1;
        }
        assert(text::strings_view(names@).take(i as int) =~= text::strings_view(names@));
    }

    /// Adds the error of a failed check, if it failed.
    fn add_check_error(
        &mut self,
        check: Result<(), String>,
        object: &Option<String>,
        attribute: &Option<String>,
    )
        ensures
            errors_view(final(self).errors@) == errors_view(old(self).errors@) + check_error(
                match check {
                    Ok(()) => None,
                    Err(m) => Some(m@),
                },
                opt_view(*object),
                opt_view(*attribute),
            ),
            check is Err ==> !final(self).is_valid,
            check is Ok ==> final(self).is_valid == old(self).is_valid,
    {
        match check {
            Ok(()) => {
                assert(errors_view(self.errors@) =~= errors_view(self.errors@) + Seq::<
                    ErrorView,
                >::empty());
            },
            Err(m) => {
                let e = make_error(m, object.clone(), attribute.clone(), ErrorType::NameError);
                self.add_error(e);
            },
        }
    }

    /// Validates the name of an object.
    fn validate_object_name(&mut self, name: &String)
        ensures
            errors_view(final(self).errors@) == errors_view(old(self).errors@)
                + object_name_errors(name@),
            object_name_errors(name@).len() > 0 ==> !final(self).is_valid,
            object_name_errors(name@).len() == 0 ==> final(self).is_valid == old(self).is_valid,
    {
        let obj = Some(name.clone());
        let none: Option<String> = None;
        let ghost e0 = errors_view(self.errors@);
        self.add_check_error(starts_with_character(name.as_str()), &obj, &none);
        self.add_check_error(contains_white_space(name.as_str()), &obj, &none);
        self.add_check_error(contains_special_characters(name.as_str()), &obj, &none);
        self.add_check_error(is_pascal_case(name.as_str()), &obj, &none);
        assert(errors_view(self.errors@) =~= e0 + object_name_errors(name@));
    }

    /// Validates the name of an attribute of object `obj_name`.
    fn validate_attribute_name(&mut self, name: &String, obj_name: &String)
        ensures
            errors_view(final(self).errors@) == errors_view(old(self).errors@)
                + attribute_name_errors(name@, obj_name@),
            attribute_name_errors(name@, obj_name@).len() > 0 ==> !final(self).is_valid,
            attribute_name_errors(name@, obj_name@).len() == 0 ==> final(self).is_valid == old(
                self,
            ).is_valid,
    {
        let obj = Some(obj_name.clone());
        let attr = Some(name.clone());
        let ghost e0 = errors_view(self.errors@);
        self.add_check_error(starts_with_character(name.as_str()), &obj, &attr);
        self.add_check_error(contains_white_space(name.as_str()), &obj, &attr);
        self.add_check_error(contains_special_characters(name.as_str()), &obj, &attr);
        assert(errors_view(self.errors@) =~= e0 + attribute_name_errors(name@, obj_name@));
    }

    /// Adds an error when the type `dtype` is neither defined nor basic.
    fn check_attr_dtype(
        &mut self,
        attribute: &Attribute,
        types: &Vec<String>,
        obj_name: &String,
        dtype: &String,
    )
        ensures
            errors_view(final(self).errors@) == errors_view(old(self).errors@) + dtype_error(
                dtype@,
                text::strings_view(types@),
                attribute.name@,
                obj_name@,
            ),
            dtype_error(dtype@, text::strings_view(types@), attribute.name@, obj_name@).len() > 0
                ==> !final(self).is_valid,
            dtype_error(dtype@, text::strings_view(types@), attribute.name@, obj_name@).len() == 0
                ==> final(self).is_valid == old(self).is_valid,
    {
        let basic = basic_type_list();
        if !contains_string(types, dtype) && !contains_string(&basic, dtype) {
            let message = concat5(
                "Type ",
                dtype.as_str(),
                " of property ",
                attribute.name.as_str(),
                " not found. Either define the type or use a base type.",
            );
            let e = make_error(
                message,
                Some(obj_name.clone()),
                Some(attribute.name.clone()),
                ErrorType::TypeError,
            );
            self.add_error(e);
        } else {
            assert(errors_view(self.errors@) =~= errors_view(self.errors@) + Seq::<
                ErrorView,
            >::empty());
        }
    }

    /// Validates one attribute of object `obj_name`.
    fn validate_attribute(&mut self, attribute: &Attribute, types: &Vec<String>, obj_name: &String)
        ensures
            errors_view(final(self).errors@) == errors_view(old(self).errors@) + attribute_errors(
                attribute@,
                text::strings_view(types@),
                obj_name@,
            ),
            attribute_errors(attribute@, text::strings_view(types@), obj_name@).len() > 0
                ==> !final(self).is_valid,
            attribute_errors(attribute@, text::strings_view(types@), obj_name@).len() == 0
                ==> final(self).is_valid == old(self).is_valid,
    {
        let ghost e0 = errors_view(self.errors@);
        let ghost v0 = self.is_valid;
        let ghost tv = text::strings_view(types@);
        self.validate_attribute_name(&attribute.name, obj_name);
        if attribute.dtypes.len() == 0 {
            let message = concat3("Property ", attribute.name.as_str(), " has no type specified.");
            let e = make_error(
                message,
                Some(obj_name.clone()),
                Some(attribute.name.clone()),
                ErrorType::TypeError,
            );
            self.add_error(e);
        }
        let ghost e1 = errors_view(self.errors@);
        let ghost v1 = self.is_valid;
        assert(e1 =~= e0 + attribute_name_errors(attribute.name@, obj_name@) + (
        if attribute@.dtypes.len() == 0 {
            seq![
                global_error(
                    "Property "@ + attribute.name@ + " has no type specified."@,
                    Some(obj_name@),
                    Some(attribute.name@),
                    ErrorType::TypeError,
                ),
            ]
        } else {
            Seq::empty()
        }));
        let mut i: usize = 0;
        while i < attribute.dtypes.len()
            invariant
                i <= attribute.dtypes@.len(),
                errors_view(self.errors@) == e1 + dtypes_errors(
                    attribute@.dtypes,
                    i as int,
                    tv,
                    attribute.name@,
                    obj_name@,
                ),
                tv == text::strings_view(types@),
                dtypes_errors(attribute@.dtypes, i as int, tv, attribute.name@, obj_name@).len() > 0
                    ==> !self.is_valid,
                dtypes_errors(attribute@.dtypes, i as int, tv, attribute.name@, obj_name@).len()
                    == 0 ==> self.is_valid == v1,
            decreases attribute.dtypes.len() - i,
        {
            assert(attribute@.dtypes[i as int] == attribute.dtypes@[i as int]@);
            self.check_attr_dtype(attribute, types, obj_name, &attribute.dtypes[i]);
            i = i + 1;
            assert(errors_view(self.errors@) =~= e1 + dtypes_errors(
                attribute@.dtypes,
                i as int,
                tv,
                attribute.name@,
                obj_name@,
            ));
        }
        assert(errors_view(self.errors@) =~= e0 + attribute_errors(attribute@, tv, obj_name@));
    }

    /// Validates a single object.
    fn validate_object(&mut self, object: &Object, types: &Vec<String>)
        ensures
            errors_view(final(self).errors@) == errors_view(old(self).errors@) + object_errors(
                *object,
                text::strings_view(types@),
            ),
            object_errors(*object, text::strings_view(types@)).len() > 0 ==> !final(self).is_valid,
            object_errors(*object, text::strings_view(types@)).len() == 0 ==> final(self).is_valid
                == old(self).is_valid,
    {
        let ghost e0 = errors_view(self.errors@);
        let ghost tv = text::strings_view(types@);
        let ghost attrs = object::attrs_view(object.attributes@);
        self.validate_object_name(&object.name);
        if object.attributes.len() == 0 {
            let message = concat3("Type ", object.name.as_str(), " is empty and has no properties.");
            let e = make_error(message, Some(object.name.clone()), None, ErrorType::TypeError);
            self.add_error(e);
        }
        let names = attribute_names(&object.attributes);
        let duplicates = get_duplicates(&names);
        self.add_duplicate_errors(&duplicates, "Property ", " is defined more than once.", &Some(object.name.clone()));
        let ghost e1 = errors_view(self.errors@);
        let ghost v1 = self.is_valid;
        let mut i: usize = 0;
        while i < object.attributes.len()
            invariant
                i <= object.attributes@.len(),
                attrs == object::attrs_view(object.attributes@),
                tv == text::strings_view(types@),
                errors_view(self.errors@) == e1 + attrs_errors(attrs, i as int, tv, object.name@),
                attrs_errors(attrs, i as int, tv, object.name@).len() > 0 ==> !self.is_valid,
                attrs_errors(attrs, i as int, tv, object.name@).len() == 0 ==> self.is_valid == v1,
            decreases object.attributes.len() - i,
        {
            self.validate_attribute(&object.attributes[i], types, &object.name);
            i = i + 1;
            assert(errors_view(self.errors@) =~= e1 + attrs_errors(attrs, i as int, tv, object.name@));
        }
        assert(errors_view(self.errors@) =~= e0 + object_errors(*object, tv));
    }

    /// Validates the provided model: the errors found are exactly
    /// [`model_errors`], and the validator is valid exactly when there are
    /// none. Errors of an earlier validation are cleared first.
    pub fn validate(&mut self, model: &DataModel)
        ensures
            errors_view(final(self).errors@) == model_errors(*model),
            final(self).is_valid == (model_errors(*model).len() == 0),
            forall|k: int, i: int, j: int|
                0 <= k < model.objects@.len() && 0 <= i < j < model.objects@[k].attributes@.len()
                    && #[trigger] model.objects@[k].attributes@[i].name@ == #[trigger] model.objects@[k].attributes@[j].name@
                    ==> !final(self).is_valid && errors_view(final(self).errors@).contains(
                    ErrorView {
                        message: "Property "@ + model.objects@[k].attributes@[i].name@ + " is defined more than once."@,
                        object: Some(model.objects@[k].name@),
                        attribute: Some(model.objects@[k].attributes@[i].name@),
                        location: "Global"@,
                        error_type: ErrorType::DuplicateError,
                    },
                ),
    {
        proof {
            assert forall|k: int, i: int, j: int|
                0 <= k < model.objects@.len() && 0 <= i < j < model.objects@[k].attributes@.len()
                    && #[trigger] model.objects@[k].attributes@[i].name@ == #[trigger] model.objects@[k].attributes@[j].name@
                implies model_errors(*model).len() > 0 && model_errors(*model).contains(
                    ErrorView {
                        message: "Property "@ + model.objects@[k].attributes@[i].name@ + " is defined more than once."@,
                        object: Some(model.objects@[k].name@),
                        attribute: Some(model.objects@[k].attributes@[i].name@),
                        location: "Global"@,
                        error_type: ErrorType::DuplicateError,
                    },
                ) by {
                law_duplicate_attribute_reported(*model, k, i, j);
            }
        }
        self.reset();
        assert(errors_view(self.errors@) =~= Seq::<ErrorView>::empty());
        let mut types = object_names(&model.objects);
        let mut enames = enum_names(&model.enums);
        let ghost tn = text::strings_view(types@);
        let ghost en = text::strings_view(enames@);
        types.append(&mut enames);
        assert(text::strings_view(types@) =~= model_types(*model));
        let objs = object_names(&model.objects);
        let dup_objects = get_duplicates(&objs);
        self.add_duplicate_errors(&dup_objects, "Object ", " is defined more than once.", &None);
        let enums = enum_names(&model.enums);
        let dup_enums = get_duplicates(&enums);
        self.add_duplicate_errors(&dup_enums, "Enumeration ", " is defined more than once.", &None);
        if model.objects.len() == 0 {
            let e = make_error(
                String::from_str("This model has no definitions."),
                Some(String::from_str("Model")),
                None,
                ErrorType::GlobalError,
            );
            self.add_error(e);
        }
        let ghost e1 = errors_view(self.errors@);
        let ghost v1 = self.is_valid;
        let ghost tv = text::strings_view(types@);
        let mut i: usize = 0;
        while i < model.objects.len()
            invariant
                i <= model.objects@.len(),
                tv == text::strings_view(types@),
                tv == model_types(*model),
                errors_view(self.errors@) == e1 + objects_errors(model.objects@, i as int, tv),
                objects_errors(model.objects@, i as int, tv).len() > 0 ==> !self.is_valid,
                objects_errors(model.objects@, i as int, tv).len() == 0 ==> self.is_valid == v1,
            decreases model.objects.len() - i,
        {
            self.validate_object(&model.objects[i], &types);
            i = i + 1;
            assert(errors_view(self.errors@) =~= e1 + objects_errors(model.objects@, i as int, tv));
        }
        assert(errors_view(self.errors@) =~= model_errors(*model));
    }
}

/// The basic types, as a list.
pub(crate) fn basic_type_list() -> (r: Vec<String>)
    ensures
        text::strings_view(r@) == basic_types(),
{
    let mut r: Vec<String> = Vec::new();
    r.push(String::from_str("string"));
    r.push(String::from_str("number"));
    r.push(String::from_str("integer"));
    r.push(String::from_str("boolean"));
    r.push(String::from_str("float"));
    r.push(String::from_str("date"));
    r.push(String::from_str("bytes"));
    assert(text::strings_view(r@) =~= basic_types());
    r
}

} // verus!
