//! Attributes of model objects, their options, and default values.

use vstd::prelude::*;
use crate::text;
use crate::xmltype::{XMLType, XmlView};
use crate::object::Position;

verus! {

// ---------------------------------------------------------------------------
// Default values
// ---------------------------------------------------------------------------

/// The value of a string of ASCII digits, read in base ten.
pub open spec fn digits_value(d: Seq<char>) -> int
    decreases d.len(),
{
    if d.len() == 0 {
        0
    } else {
        digits_value(d.drop_last()) * 10 + ((d.last() as int) - ('0' as int))
    }
}

/// The integer that decimal text denotes: an optional `+` or `-`, then at
/// least one ASCII digit; none for any other text.
pub open spec fn decimal_value(s: Seq<char>) -> Option<int> {
    let signed = s.len() > 0 && (s[0] == '+' || s[0] == '-');
    let d = if signed { s.drop_first() } else { s };
    if d.len() > 0 && all_digits(d) {
        Some(if signed && s[0] == '-' { -digits_value(d) } else { digits_value(d) })
    } else {
        None
    }
}

/// What `str::parse::<i64>` returns for a string: the value of decimal
/// text (see [`decimal_value`]) where it fits in an `i64`, none otherwise.
pub open spec fn parsed_i64(s: Seq<char>) -> Option<i64> {
    match decimal_value(s) {
        Some(v) => if i64::MIN <= v <= i64::MAX {
            Some(v as i64)
        } else {
            None
        },
        None => None,
    }
}

/// The value of digits is not negative.
proof fn lemma_digits_nonneg(d: Seq<char>)
    requires
        all_digits(d),
    ensures
        digits_value(d) >= 0,
    decreases d.len(),
{
    if d.len() > 0 {
        let p = d.drop_last();
        assert forall|i: int| 0 <= i < p.len() implies text::ascii_digit(#[trigger] p[i]) by {
            assert(p[i] == d[i]);
        }
        lemma_digits_nonneg(p);
        assert(text::ascii_digit(d[d.len() - 1]));
    }
}

/// Leading digits are worth no more than all of them.
proof fn lemma_digits_grow(d: Seq<char>, k: int)
    requires
        all_digits(d),
        0 <= k <= d.len(),
    ensures
        0 <= digits_value(d.take(k)) <= digits_value(d),
    decreases d.len() - k,
{
    let t = d.take(k);
    assert forall|i: int| 0 <= i < t.len() implies text::ascii_digit(#[trigger] t[i]) by {
        assert(t[i] == d[i]);
    }
    lemma_digits_nonneg(t);
    if k == d.len() {
        assert(t =~= d);
    } else {
        lemma_digits_grow(d, k + 1);
        let u = d.take(k + 1);
        assert(u.drop_last() =~= t);
        assert(u.last() == d[k]);
        assert(text::ascii_digit(d[k]));
    }
}

/// Reads an `i64` the way `str::parse::<i64>` does (see [`parsed_i64`]):
/// an optional sign, then base-ten digits whose value fits.
pub(crate) fn parse_i64(s: &str) -> (r: Option<i64>)
    ensures
        r == parsed_i64(s@),
{
    let cs = text::chars_of(s);
    let n = cs.len();
    let signed = n > 0 && (cs[0] == '+' || cs[0] == '-');
    let neg = signed && cs[0] == '-';
    let start: usize = if signed { 1 } else { 0 };
    let ghost d = if signed { s@.drop_first() } else { s@ };
    assert(d =~= s@.skip(start as int));
    if start >= n {
        assert(d.len() == 0);
        return None;
    }
    let mut v: i128 = 0;
    let mut i: usize = start;
    assert(d.take(0) =~= Seq::<char>::empty());
    while i < n
        invariant
            start <= i <= n,
            n == s@.len(),
            cs@ == s@,
            d == s@.skip(start as int),
            signed == (s@.len() > 0 && (s@[0] == '+' || s@[0] == '-')),
            neg == (signed && s@[0] == '-'),
            start == (if signed { 1usize } else { 0usize }),
            d == (if signed { s@.drop_first() } else { s@ }),
            0 <= v <= 9223372036854775808,
            v == digits_value(d.take(i - start)),
            all_digits(d.take(i - start)),
        decreases n - i,
    {
        let c = cs[i];
        let ghost k: int = i - start;
        assert(d[k] == c);
        if !('0' <= c && c <= '9') {
            assert(!all_digits(d)) by {
                assert(!text::ascii_digit(d[k]));
            }
            return None;
        }
        let dig: i128 = ((c as u32) - ('0' as u32)) as i128;
        let ghost u = d.take(k + 1);
        assert(u.drop_last() =~= d.take(k));
        assert(u.last() == c);
        assert forall|q: int| 0 <= q < u.len() implies text::ascii_digit(#[trigger] u[q]) by {
            if q < k {
                assert(u[q] == d.take(k)[q]);
            }
        }
        let w: i128 = v * 10 + dig;
        if w > 9223372036854775808 {
            proof {
                if all_digits(d) {
                    lemma_digits_grow(d, k + 1);
                }
            }
            return None;
        }
        v = w;
        i = i + 1;
    }
    assert(d.take(i - start) =~= d);
    if neg {
        Some((0 - v) as i64)
    } else if v <= 9223372036854775807 {
        Some(v as i64)
    } else {
        None
    }
}

/// A default value of an attribute. A floating-point default is held as the
/// (lower-cased) text it was written as, which matches the grammar that
/// Rust's float parser accepts.
#[derive(Debug, Clone, PartialEq)]
pub enum DataType {
    Boolean(bool),
    Integer(i64),
    Float(String),
    String(String),
}

/// The mathematical value of a [`DataType`].
pub enum DataValue {
    Boolean(bool),
    Integer(i64),
    Float(Seq<char>),
    Text(Seq<char>),
}

impl View for DataType {
    type V = DataValue;

    open spec fn view(&self) -> DataValue {
        match self {
            DataType::Boolean(b) => DataValue::Boolean(*b),
            DataType::Integer(i) => DataValue::Integer(*i),
            DataType::Float(f) => DataValue::Float(f@),
            DataType::String(s) => DataValue::Text(s@),
        }
    }
}

/// All characters are ASCII digits.
pub open spec fn all_digits(s: Seq<char>) -> bool {
    forall|i: int| 0 <= i < s.len() ==> text::ascii_digit(#[trigger] s[i])
}

/// The mantissa of a decimal number: digits with at most one `.`, and at
/// least one digit.
pub open spec fn mantissa_syntax(m: Seq<char>) -> bool {
    match text::last_index_of(m, '.') {
        None => m.len() > 0 && all_digits(m),
        Some(d) => {
            let left = m.take(d);
            let right = m.skip(d + 1);
            all_digits(left) && all_digits(right) && (left.len() > 0 || right.len() > 0)
        },
    }
}

/// An exponent after `e`: an optional sign and at least one digit.
pub open spec fn exponent_syntax(e: Seq<char>) -> bool {
    let digits = if e.len() > 0 && (e[0] == '+' || e[0] == '-') { e.drop_first() } else { e };
    digits.len() > 0 && all_digits(digits)
}

/// The index of the first `e` or `E`, if any.
pub open spec fn first_exp_marker(s: Seq<char>) -> Option<int>
    decreases s.len(),
{
    if s.len() == 0 {
        None
    } else if s[0] == 'e' || s[0] == 'E' {
        Some(0)
    } else {
        match first_exp_marker(s.drop_first()) {
            Some(k) => Some(k + 1),
            None => None,
        }
    }
}

/// A decimal number: mantissa and optional exponent.
pub open spec fn number_syntax(b: Seq<char>) -> bool {
    match first_exp_marker(b) {
        None => mantissa_syntax(b),
        Some(k) => mantissa_syntax(b.take(k)) && exponent_syntax(b.skip(k + 1)),
    }
}

/// The text is accepted by Rust's `f64` parser, whose documented grammar is
/// `Sign? ('inf' | 'infinity' | 'nan' | Number)` with
/// `Number ::= (Digit+ | Digit+ '.' Digit* | Digit* '.' Digit+) Exp?` and
/// `Exp ::= 'e' Sign? Digit+`; here for lower-case text.
pub open spec fn float_syntax(s: Seq<char>) -> bool {
    let b = if s.len() > 0 && (s[0] == '+' || s[0] == '-') { s.drop_first() } else { s };
    b == "inf"@ || b == "infinity"@ || b == "nan"@ || number_syntax(b)
}

/// The default value that a written default denotes: `true` or `false`
/// (in any case) is a boolean, then an integer, then a float; any other
/// non-empty text is a string, wrapped in double quotes; empty text is no
/// value.
pub open spec fn spec_data_type(s: Seq<char>) -> Option<DataValue> {
    data_type_of(s, text::lowercase(s))
}

/// The default value that text denotes, given its lower-case form `lower`
/// (see [`spec_data_type`]).
pub open spec fn data_type_of(s: Seq<char>, lower: Seq<char>) -> Option<DataValue> {
    if lower == "true"@ {
        Some(DataValue::Boolean(true))
    } else if lower == "false"@ {
        Some(DataValue::Boolean(false))
    } else if parsed_i64(lower) is Some {
        Some(DataValue::Integer(parsed_i64(lower).unwrap()))
    } else if float_syntax(lower) {
        Some(DataValue::Float(lower))
    } else if lower.len() > 0 {
        Some(DataValue::Text(seq!['"'] + s + seq!['"']))
    } else {
        None
    }
}

fn all_digits_in(s: &[char], i: usize, j: usize) -> (r: bool)
    requires
        i <= j <= s@.len(),
    ensures
        r == all_digits(s@.subrange(i as int, j as int)),
{
    let mut k = i;
    while k < j
        invariant
            i <= k <= j <= s@.len(),
            forall|t: int| i <= t < k ==> text::ascii_digit(s@[t]),
        decreases j - k,
    {
        if !('0' <= s[k] && s[k] <= '9') {
            assert(s@.subrange(i as int, j as int)[k - i] == s@[k as int]);
            return false;
        }
        k = k + 1;
    }
    assert forall|t: int| 0 <= t < j - i implies text::ascii_digit(
        #[trigger] s@.subrange(i as int, j as int)[t],
    ) by {
        assert(s@.subrange(i as int, j as int)[t] == s@[i + t]);
    }
    true
}

fn mantissa_ok(m: &[char]) -> (r: bool)
    ensures
        r == mantissa_syntax(m@),
{
    match text::rfind_char(m, '.') {
        None => {
            assert(m@.subrange(0, m@.len() as int) =~= m@);
            m.len() > 0 && all_digits_in(m, 0, m.len())
        },
        Some(d) => {
            let n = m.len();
            assert(d < n);
            assert(m@.subrange(0, d as int) =~= m@.take(d as int));
            assert(m@.subrange(d + 1, m@.len() as int) =~= m@.skip(d + 1));
            all_digits_in(m, 0, d) && all_digits_in(m, d + 1, m.len()) && (d > 0 || d + 1
                < m.len())
        },
    }
}

fn exponent_ok(e: &[char]) -> (r: bool)
    ensures
        r == exponent_syntax(e@),
{
    let start: usize = if e.len() > 0 && (e[0] == '+' || e[0] == '-') { 1 } else { 0 };
    assert(start == 1 ==> e@.subrange(1, e@.len() as int) =~= e@.drop_first());
    assert(start == 0 ==> e@.subrange(0, e@.len() as int) =~= e@);
    start < e.len() && all_digits_in(e, start, e.len())
}

fn find_exp_marker(s: &[char]) -> (r: Option<usize>)
    ensures
        match r {
            Some(k) => k < s@.len() && first_exp_marker(s@) == Some(k as int),
            None => first_exp_marker(s@) is None,
        },
{
    let mut i: usize = 0;
    while i < s.len()
        invariant
            i <= s@.len(),
            forall|t: int| 0 <= t < i ==> s@[t] != 'e' && s@[t] != 'E',
        decreases s.len() - i,
    {
        if s[i] == 'e' || s[i] == 'E' {
            proof {
                lemma_first_exp_marker(s@, i as int);
            }
            return Some(i);
        }
        i = i + 1;
    }
    proof {
        lemma_no_exp_marker(s@);
    }
    None
}

proof fn lemma_first_exp_marker(s: Seq<char>, i: int)
    requires
        0 <= i < s.len(),
        s[i] == 'e' || s[i] == 'E',
        forall|t: int| 0 <= t < i ==> s[t] != 'e' && s[t] != 'E',
    ensures
        first_exp_marker(s) == Some(i),
    decreases i,
{
    if i > 0 {
        lemma_first_exp_marker(s.drop_first(), i - 1);
    }
}

proof fn lemma_no_exp_marker(s: Seq<char>)
    requires
        forall|t: int| 0 <= t < s.len() ==> s[t] != 'e' && s[t] != 'E',
    ensures
        first_exp_marker(s) is None,
    decreases s.len(),
{
    if s.len() > 0 {
        lemma_no_exp_marker(s.drop_first());
    }
}

/// Whether lower-case text is accepted by Rust's `f64` parser (see
/// [`float_syntax`]).
pub fn is_float_syntax(s: &[char]) -> (r: bool)
    ensures
        r == float_syntax(s@),
{
    let start: usize = if s.len() > 0 && (s[0] == '+' || s[0] == '-') { 1 } else { 0 };
    let b = text::sub_chars(s, start, s.len());
    assert(start == 1 ==> b@ =~= s@.drop_first());
    assert(start == 0 ==> b@ =~= s@);
    let inf = text::chars_of("inf");
    let infinity = text::chars_of("infinity");
    let nan = text::chars_of("nan");
    if text::chars_eq(&b, &inf) || text::chars_eq(&b, &infinity) || text::chars_eq(&b, &nan) {
        return true;
    }
    match find_exp_marker(&b) {
        None => mantissa_ok(&b),
        Some(k) => {
            let m = text::sub_chars(&b, 0, k);
            let e = text::sub_chars(&b, k + 1, b.len());
            assert(m@ =~= b@.take(k as int));
            assert(e@ =~= b@.skip(k + 1));
            mantissa_ok(&m) && exponent_ok(&e)
        },
    }
}

impl DataType {
    pub fn is_boolean(&self) -> (r: bool)
        ensures
            r == (self@ is Boolean),
    {
        matches!(self, DataType::Boolean(_))
    }

    pub fn is_integer(&self) -> (r: bool)
        ensures
            r == (self@ is Integer),
    {
        matches!(self, DataType::Integer(_))
    }

    pub fn is_float(&self) -> (r: bool)
        ensures
            r == (self@ is Float),
    {
        matches!(self, DataType::Float(_))
    }

    pub fn is_string(&self) -> (r: bool)
        ensures
            r == (self@ is Text),
    {
        matches!(self, DataType::String(_))
    }

    pub fn as_boolean(&self) -> (r: Option<bool>)
        ensures
            r == (match self@ {
                DataValue::Boolean(b) => Some(b),
                _ => None,
            }),
    {
        if let DataType::Boolean(value) = self {
            Some(*value)
        } else {
            None
        }
    }

    pub fn as_integer(&self) -> (r: Option<i64>)
        ensures
            r == (match self@ {
                DataValue::Integer(i) => Some(i),
                _ => None,
            }),
    {
        if let DataType::Integer(value) = self {
            Some(*value)
        } else {
            None
        }
    }

    /// The text of a floating-point default.
    pub fn as_float(&self) -> (r: Option<String>)
        ensures
            match self@ {
                DataValue::Float(f) => r matches Some(t) && t@ == f,
                _ => r is None,
            },
    {
        if let DataType::Float(value) = self {
            Some(value.clone())
        } else {
            None
        }
    }

    pub fn as_string(&self) -> (r: Option<String>)
        ensures
            match self@ {
                DataValue::Text(s) => r matches Some(t) && t@ == s,
                _ => r is None,
            },
    {
        if let DataType::String(value) = self {
            Some(value.clone())
        } else {
            None
        }
    }

    /// Converts written text to a default value (see [`spec_data_type`]);
    /// empty text is refused with "Invalid data type".
    pub fn from_str(s: &str) -> (r: Result<DataType, String>)
        ensures
            match r {
                Ok(d) => spec_data_type(s@) == Some(d@),
                Err(e) => spec_data_type(s@) is None && e@ == "Invalid data type"@,
            },
            text::all_ascii(s@) ==> spec_data_type(s@) == data_type_of(s@, text::ascii_lower_seq(s@)),
    {
        let lower = text::to_lowercase(s);
        let lc = text::chars_of(lower.as_str());
        let t = text::chars_of("true");
        let f = text::chars_of("false");
        if text::chars_eq(&lc, &t) {
            Ok(DataType::Boolean(true))
        } else if text::chars_eq(&lc, &f) {
            Ok(DataType::Boolean(false))
        } else if let Some(i) = parse_i64(lower.as_str()) {
            Ok(DataType::Integer(i))
        } else if is_float_syntax(&lc) {
            Ok(DataType::Float(lower))
        } else if lc.len() > 0 {
            let mut q = String::from_str("\"");
            q.append(s);
            q.append("\"");
            proof {
                reveal_strlit("\"");
            }
            assert(q@ =~= seq!['"'] + s@ + seq!['"']);
            Ok(DataType::String(q))
        } else {
            Err(String::from_str("Invalid data type"))
        }
    }
}

// ---------------------------------------------------------------------------
// Options
// ---------------------------------------------------------------------------

/// Represents an option for an attribute: a key (kept in lower case) and a
/// value.
#[derive(Debug, Clone, PartialEq)]
pub struct AttrOption {
    /// The key of the option.
    pub key: String,
    /// The value of the option.
    pub value: String,
}

impl View for AttrOption {
    type V = (Seq<char>, Seq<char>);

    open spec fn view(&self) -> (Seq<char>, Seq<char>) {
        (self.key@, self.value@)
    }
}

impl AttrOption {
    /// Creates a new option; the key is lower-cased.
    pub fn new(key: String, value: String) -> (r: Self)
        ensures
            r@ == (text::lowercase(key@), value@),
            text::all_ascii(key@) ==> r@.0 == text::ascii_lower_seq(key@),
    {
        AttrOption { key: text::to_lowercase(key.as_str()), value }
    }

    /// The key of the option.
    pub fn key(&self) -> (r: &str)
        ensures
            r@ == self.key@,
    {
        self.key.as_str()
    }

    /// The value of the option.
    pub fn value(&self) -> (r: &str)
        ensures
            r@ == self.value@,
    {
        self.value.as_str()
    }
}

// ---------------------------------------------------------------------------
// Attributes
// ---------------------------------------------------------------------------

/// `s` with every occurrence of `Identifier`, `identifier` or
/// `|dentifier` (the matches of the pattern `[I|i]dentifier`, whose class
/// holds the `|` as well), found from left to right without overlap,
/// replaced by `string`.
pub open spec fn identifier_replaced(s: Seq<char>) -> Seq<char>
    decreases s.len(),
{
    if s.len() < 10 {
        s
    } else if (s[0] == 'I' || s[0] == 'i' || s[0] == '|') && s.subrange(1, 10) == "dentifier"@ {
        "string"@ + identifier_replaced(s.skip(10))
    } else {
        seq![s[0]] + identifier_replaced(s.drop_first())
    }
}

/// Replaces every match of the pattern `[I|i]dentifier` by `string`, through
/// the `regex` crate: `replace_all` replaces the leftmost match and goes on
/// after its end, so with a pattern of fixed length the result is
/// [`identifier_replaced`].
#[verifier::external_body]
fn replace_identifier(s: &str) -> (r: String)
    ensures
        r@ == identifier_replaced(s@),
{
    let pattern = regex::Regex::new(r"[I|i]dentifier").unwrap();
    pattern.replace_all(s, "string").to_string()
}

/// Represents an attribute with various properties and options.
#[derive(Debug, Clone, PartialEq)]
pub struct Attribute {
    /// The name of the attribute.
    pub name: String,
    /// Indicates if the attribute is an array.
    pub is_array: bool,
    /// Is an identifier or not.
    pub is_id: bool,
    /// Data types associated with the attribute.
    pub dtypes: Vec<String>,
    /// Documentation string for the attribute.
    pub docstring: String,
    /// List of additional options for the attribute.
    pub options: Vec<AttrOption>,
    /// Term associated with the attribute, if any.
    pub term: Option<String>,
    /// Indicates if the attribute is required.
    pub required: bool,
    /// Default value for the attribute.
    pub default: Option<DataType>,
    /// XML type information for the attribute.
    pub xml: Option<XMLType>,
    /// Whether every data type of the attribute is an enumeration.
    pub is_enum: bool,
    /// Where the attribute stands in its markdown file.
    pub position: Option<Position>,
}

/// The mathematical value of an [`Attribute`].
pub struct AttributeView {
    pub name: Seq<char>,
    pub is_array: bool,
    pub is_id: bool,
    pub dtypes: Seq<Seq<char>>,
    pub docstring: Seq<char>,
    pub options: Seq<(Seq<char>, Seq<char>)>,
    pub term: Option<Seq<char>>,
    pub required: bool,
    pub default: Option<DataValue>,
    pub xml: Option<XmlView>,
    pub is_enum: bool,
    pub position: Option<Position>,
}

impl View for Attribute {
    type V = AttributeView;

    open spec fn view(&self) -> AttributeView {
        AttributeView {
            name: self.name@,
            is_array: self.is_array,
            is_id: self.is_id,
            dtypes: self.dtypes@.map_values(|d: String| d@),
            docstring: self.docstring@,
            options: self.options@.map_values(|o: AttrOption| o@),
            term: match self.term {
                Some(t) => Some(t@),
                None => None,
            },
            required: self.required,
            default: match self.default {
                Some(d) => Some(d@),
                None => None,
            },
            xml: match self.xml {
                Some(x) => Some(x@),
                None => None,
            },
            is_enum: self.is_enum,
            position: self.position,
        }
    }
}

/// A new attribute: no types, options, docstring, term or default; its XML
/// form is read from its name.
pub open spec fn spec_new_attribute(name: Seq<char>, required: bool) -> AttributeView {
    AttributeView {
        name,
        is_array: false,
        is_id: false,
        dtypes: Seq::empty(),
        docstring: Seq::empty(),
        options: Seq::empty(),
        term: None,
        required,
        default: None,
        xml: Some(crate::xmltype::spec_xml_view(name)),
        is_enum: false,
        position: None,
    }
}

/// The attribute after a data type is set: a type starting with
/// `identifier` (in any case) marks an identifier and is rewritten to
/// `string`; a type ending in `[]` marks an array; the type is added without
/// its trailing `[]`s.
pub open spec fn spec_set_dtype(a: AttributeView, dtype: Seq<char>) -> AttributeView {
    let is_ident = text::starts_with(text::lowercase(dtype), "identifier"@);
    let d = if is_ident { identifier_replaced(dtype) } else { dtype };
    AttributeView {
        is_id: a.is_id || is_ident,
        is_array: a.is_array || text::ends_with(d, "[]"@),
        dtypes: a.dtypes.push(text::trim_end_seq(d, "[]"@)),
        ..a
    }
}

/// The attribute after an option is added, by its lower-cased key: `type`
/// sets a data type, `term`, `description` and `xml` set those fields,
/// `default` sets the default value, `multiple` sets the array flag to
/// whether the value is `true` in any case; any other option is kept.
/// `None` where the default value is empty.
pub open spec fn spec_add_option(a: AttributeView, key: Seq<char>, value: Seq<char>) -> Option<
    AttributeView,
> {
    let k = text::lowercase(key);
    if k == "type"@ {
        Some(spec_set_dtype(a, value))
    } else if k == "term"@ {
        Some(AttributeView { term: Some(value), ..a })
    } else if k == "description"@ {
        Some(AttributeView { docstring: value, ..a })
    } else if k == "xml"@ {
        Some(AttributeView { xml: Some(crate::xmltype::spec_xml_view(value)), ..a })
    } else if k == "default"@ {
        match spec_data_type(value) {
            Some(d) => Some(AttributeView { default: Some(d), ..a }),
            None => None,
        }
    } else if k == "multiple"@ {
        Some(AttributeView { is_array: text::lowercase(value) == "true"@, ..a })
    } else {
        Some(AttributeView { options: a.options.push((key, value)), ..a })
    }
}

impl Attribute {
    /// Creates a new `Attribute` with the given name and required status.
    pub fn new(name: String, required: bool) -> (r: Self)
        ensures
            r@ == spec_new_attribute(name@, required),
    {
        let xml = match XMLType::from_str(name.as_str()) {
            Ok(x) => x,
            Err(_) => XMLType::Element { is_attr: false, name: name.clone() },
        };
        let r = Attribute {
            name,
            dtypes: Vec::new(),
            docstring: String::new(),
            options: Vec::new(),
            is_array: false,
            is_id: false,
            term: None,
            required,
            xml: Some(xml),
            default: None,
            is_enum: false,
            position: None,
        };
        assert(r@.dtypes =~= Seq::<Seq<char>>::empty());
        assert(r@.options =~= Seq::<(Seq<char>, Seq<char>)>::empty());
        r
    }

    /// Sets the documentation string for the attribute.
    pub fn set_docstring(&mut self, docstring: String)
        ensures
            final(self)@ == (AttributeView { docstring: docstring@, ..old(self)@ }),
    {
        self.docstring = docstring;
    }

    /// Adds an option to the attribute (see [`spec_add_option`]). An empty
    /// default value is refused with "Invalid data type".
    pub fn add_option(&mut self, option: AttrOption) -> (r: Result<(), String>)
        ensures
            match r {
                Ok(()) => spec_add_option(old(self)@, option.key@, option.value@) == Some(
                    final(self)@,
                ),
                Err(e) => spec_add_option(old(self)@, option.key@, option.value@) is None
                    && final(self)@ == old(self)@ && e@ == "Invalid data type"@,
            },
    {
        let k = text::to_lowercase(option.key.as_str());
        let kc = text::chars_of(k.as_str());
        if text::chars_eq(&kc, &text::chars_of("type")) {
            self.set_dtype(option.value);
        } else if text::chars_eq(&kc, &text::chars_of("term")) {
            self.term = Some(option.value);
        } else if text::chars_eq(&kc, &text::chars_of("description")) {
            self.docstring = option.value;
        } else if text::chars_eq(&kc, &text::chars_of("xml")) {
            match XMLType::from_str(option.value.as_str()) {
                Ok(x) => self.set_xml(x),
                Err(_) => {},
            }
        } else if text::chars_eq(&kc, &text::chars_of("default")) {
            match DataType::from_str(option.value.as_str()) {
                Ok(d) => self.default = Some(d),
                Err(e) => return Err(e),
            }
        } else if text::chars_eq(&kc, &text::chars_of("multiple")) {
            let v = text::to_lowercase(option.value.as_str());
            let vc = text::chars_of(v.as_str());
            self.is_array = text::chars_eq(&vc, &text::chars_of("true"));
        } else {
            let ghost before = self.options@;
            self.options.push(option);
            assert(self@.options =~= old(self)@.options.push((option.key@, option.value@)));
        }
        Ok(())
    }

    /// Sets the data type for the attribute (see [`spec_set_dtype`]).
    pub fn set_dtype(&mut self, dtype: String)
        ensures
            final(self)@ == spec_set_dtype(old(self)@, dtype@),
    {
        let lower = text::to_lowercase(dtype.as_str());
        let lc = text::chars_of(lower.as_str());
        let ident = text::chars_of("identifier");
        let d = if text::has_prefix(&lc, &ident) {
            self.is_id = true;
            replace_identifier(dtype.as_str())
        } else {
            dtype
        };
        let dc = text::chars_of(d.as_str());
        let brackets = text::chars_of("[]");
        if text::has_suffix(&dc, &brackets) {
            self.is_array = true;
        }
        proof {
            reveal_strlit("[]");
        }
        let trimmed = text::trim_end_matches_seq(&dc, &brackets);
        let ghost before = self.dtypes@;
        self.dtypes.push(text::string_of(&trimmed));
        assert(self@.dtypes =~= old(self)@.dtypes.push(text::trim_end_seq(d@, "[]"@)));
    }

    /// Sets where the attribute stands in its markdown file.
    pub fn set_position(&mut self, position: Position)
        ensures
            final(self)@ == (AttributeView { position: Some(position), ..old(self)@ }),
    {
        self.position = Some(position);
    }

    /// Checks if the attribute has an associated term.
    pub fn has_term(&self) -> (r: bool)
        ensures
            r == (self.term is Some),
    {
        self.term.is_some()
    }

    /// Sets the XML type for the attribute.
    pub fn set_xml(&mut self, xml: XMLType)
        ensures
            final(self)@ == (AttributeView { xml: Some(xml@), ..old(self)@ }),
    {
        self.xml = Some(xml);
    }
}

/// A copy of a data type.
pub fn copy_data_type(d: &DataType) -> (r: DataType)
    ensures
        r@ == d@,
{
    match d {
        DataType::Boolean(b) => DataType::Boolean(*b),
        DataType::Integer(i) => DataType::Integer(*i),
        DataType::Float(f) => DataType::Float(f.clone()),
        DataType::String(s) => DataType::String(s.clone()),
    }
}

/// A copy of an XML type.
pub fn copy_xml_type(x: &XMLType) -> (r: XMLType)
    ensures
        r@ == x@,
{
    match x {
        XMLType::Attribute { is_attr, name } => XMLType::Attribute {
            is_attr: *is_attr,
            name: name.clone(),
        },
        XMLType::Element { is_attr, name } => XMLType::Element { is_attr: *is_attr, name: name.clone() },
    }
}

/// A copy of a list of strings.
pub fn copy_strings(v: &Vec<String>) -> (r: Vec<String>)
    ensures
        text::strings_view(r@) == text::strings_view(v@),
{
    let mut r: Vec<String> = Vec::new();
    let mut i: usize = 0;
    while i < v.len()
        invariant
            i <= v@.len(),
            text::strings_view(r@) == text::strings_view(v@).take(i as int),
        decreases v.len() - i,
    {
        let ghost before = r@;
        let c = v[i].clone();
        r.push(c);
        assert(text::strings_view(r@) =~= text::strings_view(before).push(c@));
        assert(text::strings_view(v@).take(i + 1) =~= text::strings_view(v@).take(i as int).push(
            v@[i as int]@,
        ));
        i = i + 1;
    }
    assert(text::strings_view(v@).take(i as int) =~= text::strings_view(v@));
    r
}

/// A copy of an attribute.
pub fn copy_attribute(a: &Attribute) -> (r: Attribute)
    ensures
        r@ == a@,
{
    let mut options: Vec<AttrOption> = Vec::new();
    let mut i: usize = 0;
    let ghost ov = a@.options;
    while i < a.options.len()
        invariant
            i <= a.options@.len(),
            ov == a@.options,
            options@.map_values(|o: AttrOption| o@) == ov.take(i as int),
        decreases a.options.len() - i,
    {
        let ghost before = options@;
        let o = AttrOption { key: a.options[i].key.clone(), value: a.options[i].value.clone() };
        options.push(o);
        assert(options@.map_values(|o: AttrOption| o@) =~= before.map_values(|o: AttrOption| o@).push(
            o@,
        ));
        assert(ov.take(i + 1) =~= ov.take(i as int).push(ov[i as int]));
        i = i + 1;
    }
    assert(ov.take(i as int) =~= ov);
    let dtypes = copy_strings(&a.dtypes);
    let r = Attribute {
        name: a.name.clone(),
        is_array: a.is_array,
        is_id: a.is_id,
        dtypes,
        docstring: a.docstring.clone(),
        options,
        term: match &a.term {
            Some(t) => Some(t.clone()),
            None => None,
        },
        required: a.required,
        default: match &a.default {
            Some(d) => Some(copy_data_type(d)),
            None => None,
        },
        xml: match &a.xml {
            Some(x) => Some(copy_xml_type(x)),
            None => None,
        },
        is_enum: a.is_enum,
        position: a.position,
    };
    assert(r@.dtypes =~= a@.dtypes);
    assert(r@.options =~= a@.options);
    r
}

} // verus!
