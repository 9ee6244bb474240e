use mdmodels::attribute::{AttrOption, Attribute, DataType};
use mdmodels::xmltype::XMLType;

#[test]
fn test_attribute_new() {
    let attr = Attribute::new("name".to_string(), false);
    assert_eq!(attr.name, "name");
    assert_eq!(attr.dtypes.len(), 0);
    assert_eq!(attr.docstring, "");
    assert_eq!(attr.options.len(), 0);
    assert_eq!(attr.is_array, false);
    assert_eq!(attr.term, None);
    assert_eq!(attr.required, false);
}

#[test]
fn test_attribute_set_docstring() {
    let mut attr = Attribute::new("name".to_string(), false);
    attr.set_docstring("This is a test".to_string());
    assert_eq!(attr.docstring, "This is a test");
    assert_eq!(attr.required, false);
}

#[test]
fn test_attribute_add_type_option() {
    let mut attr = Attribute::new("name".to_string(), false);
    let option = AttrOption::new("type".to_string(), "string".to_string());
    attr.add_option(option).expect("Failed to add option");
    assert_eq!(attr.dtypes.len(), 1);
    assert_eq!(attr.dtypes[0], "string");
}

#[test]
fn test_attribute_add_term_option() {
    let mut attr = Attribute::new("name".to_string(), false);
    let option = AttrOption::new("term".to_string(), "string".to_string());
    attr.add_option(option).expect("Failed to add option");
    assert_eq!(attr.term, Some("string".to_string()));
}

#[test]
fn test_attribute_add_option() {
    let mut attr = Attribute::new("name".to_string(), false);
    let option = AttrOption::new("description".to_string(), "This is a test".to_string());
    attr.add_option(option).expect("Failed to add option");
    let option = AttrOption::new("something".to_string(), "something".to_string());
    attr.add_option(option).expect("Failed to add option");

    assert_eq!(attr.options.len(), 1);
    assert_eq!(attr.options[0].key, "something");
    assert_eq!(attr.options[0].value, "something");
    assert_eq!(attr.docstring, "This is a test");
}

#[test]
fn test_attribute_set_dtype() {
    let mut attr = Attribute::new("name".to_string(), false);
    attr.set_dtype("string".to_string());
    assert_eq!(attr.dtypes.len(), 1);
    assert_eq!(attr.dtypes[0], "string");
    assert_eq!(attr.is_array, false);
}

#[test]
fn test_attribute_set_array_dtype() {
    let mut attr = Attribute::new("name".to_string(), false);
    attr.set_dtype("string[]".to_string());
    assert_eq!(attr.dtypes.len(), 1);
    assert_eq!(attr.dtypes[0], "string");
    assert_eq!(attr.is_array, true);
}

#[test]
fn test_attribute_set_xml_attr() {
    let mut attr = Attribute::new("name".to_string(), false);
    let xml = XMLType::from_str("@name").expect("Could not parse XMLType");
    attr.set_xml(xml);
    assert_eq!(
        attr.xml.expect("Could not find XML option"),
        XMLType::Attribute {
            is_attr: true,
            name: "name".to_string(),
        },
        "XMLType is not correct. Expected an attribute type."
    );
}

#[test]
fn test_attribute_set_xml_element() {
    let mut attr = Attribute::new("name".to_string(), false);
    let xml = XMLType::from_str("name").expect("Could not parse XMLType");
    attr.set_xml(xml);
    assert_eq!(
        attr.xml.expect("Could not find XML option"),
        XMLType::Element {
            is_attr: false,
            name: "name".to_string(),
        },
        "XMLType is not correct. Expected an element type."
    );
}

#[test]
fn test_default_xml_type() {
    let attr = Attribute::new("name".to_string(), false);
    assert_eq!(
        attr.xml.unwrap(),
        XMLType::Element {
            is_attr: false,
            name: "name".to_string(),
        }
    );
}

#[test]
fn is_boolean_returns_true_for_boolean() {
    let dt = DataType::Boolean(true);
    assert!(dt.is_boolean());
}

#[test]
fn is_boolean_returns_false_for_non_boolean() {
    let dt = DataType::Integer(1);
    assert!(!dt.is_boolean());
}

#[test]
fn is_integer_returns_true_for_integer() {
    let dt = DataType::Integer(1);
    assert!(dt.is_integer());
}

#[test]
fn is_integer_returns_false_for_non_integer() {
    let dt = DataType::Boolean(true);
    assert!(!dt.is_integer());
}

#[test]
fn is_float_returns_true_for_float() {
    let dt = DataType::Float("1.0".to_string());
    assert!(dt.is_float());
}

#[test]
fn is_float_returns_false_for_non_float() {
    let dt = DataType::String("string".to_string());
    assert!(!dt.is_float());
}

#[test]
fn is_string_returns_true_for_string() {
    let dt = DataType::String("string".to_string());
    assert!(dt.is_string());
}

#[test]
fn is_string_returns_false_for_non_string() {
    let dt = DataType::Float("1.0".to_string());
    assert!(!dt.is_string());
}

#[test]
fn as_boolean_returns_some_for_boolean() {
    let dt = DataType::Boolean(true);
    assert_eq!(dt.as_boolean(), Some(true));
}

#[test]
fn as_boolean_returns_none_for_non_boolean() {
    let dt = DataType::Integer(1);
    assert_eq!(dt.as_boolean(), None);
}

#[test]
fn as_integer_returns_some_for_integer() {
    let dt = DataType::Integer(1);
    assert_eq!(dt.as_integer(), Some(1));
}

#[test]
fn as_integer_returns_none_for_non_integer() {
    let dt = DataType::Boolean(true);
    assert_eq!(dt.as_integer(), None);
}

#[test]
fn as_float_returns_some_for_float() {
    let dt = DataType::Float("1.0".to_string());
    let value: f64 = dt.as_float().expect("a float").parse().unwrap();
    assert_eq!(value, 1.0);
}

#[test]
fn as_float_returns_none_for_non_float() {
    let dt = DataType::String("string".to_string());
    assert_eq!(dt.as_float(), None);
}

#[test]
fn as_string_returns_some_for_string() {
    let dt = DataType::String("string".to_string());
    assert_eq!(dt.as_string(), Some("string".to_string()));
}

#[test]
fn as_string_returns_none_for_non_string() {
    let dt = DataType::Float("1.0".to_string());
    assert_eq!(dt.as_string(), None);
}

#[test]
fn from_str_parses_boolean() {
    let dt = DataType::from_str("true").unwrap();
    assert_eq!(dt, DataType::Boolean(true));
}

#[test]
fn from_str_parses_integer() {
    let dt = DataType::from_str("42").unwrap();
    assert_eq!(dt, DataType::Integer(42));
}

#[test]
fn from_str_parses_float() {
    let dt = DataType::from_str("3.5").unwrap();
    assert!(dt.is_float());
    let value: f64 = dt.as_float().unwrap().parse().unwrap();
    assert_eq!(value, 3.5);
}

#[test]
fn from_str_parses_string() {
    let dt = DataType::from_str("hello").unwrap();
    assert_eq!(dt, DataType::String("\"hello\"".to_string()));
}

#[test]
fn from_str_returns_error_for_invalid_data_type() {
    let dt = DataType::from_str("");
    assert!(dt.is_err());
}

// Further cases of the library's own.

#[test]
fn from_str_is_case_insensitive_for_keywords() {
    assert_eq!(DataType::from_str("TRUE").unwrap(), DataType::Boolean(true));
    assert_eq!(DataType::from_str("False").unwrap(), DataType::Boolean(false));
    assert_eq!(DataType::from_str("-7").unwrap(), DataType::Integer(-7));
    assert_eq!(DataType::from_str("1E3").unwrap(), DataType::Float("1e3".to_string()));
    assert_eq!(DataType::from_str("inf").unwrap(), DataType::Float("inf".to_string()));
    assert_eq!(DataType::from_str("1.2.3").unwrap(), DataType::String("\"1.2.3\"".to_string()));
    assert_eq!(
        DataType::from_str("Identifier").unwrap(),
        DataType::String("\"Identifier\"".to_string())
    );
}

#[test]
fn from_str_error_message() {
    assert_eq!(DataType::from_str(""), Err("Invalid data type".to_string()));
}

#[test]
fn attribute_identifier_type_becomes_string() {
    let mut attr = Attribute::new("id".to_string(), false);
    attr.set_dtype("Identifier".to_string());
    assert_eq!(attr.dtypes, vec!["string".to_string()]);
    assert!(attr.is_id);
    let mut attr = Attribute::new("ids".to_string(), false);
    attr.set_dtype("identifier[]".to_string());
    assert_eq!(attr.dtypes, vec!["string".to_string()]);
    assert!(attr.is_array);
}

#[test]
fn attribute_option_key_is_lower_case() {
    let option = AttrOption::new("MinLength".to_string(), "3".to_string());
    assert_eq!(option.key(), "minlength");
    assert_eq!(option.value(), "3");
}

#[test]
fn attribute_default_and_xml_options() {
    let mut attr = Attribute::new("name".to_string(), false);
    attr.add_option(AttrOption::new("default".to_string(), "12".to_string())).unwrap();
    assert_eq!(attr.default, Some(DataType::Integer(12)));
    attr.add_option(AttrOption::new("xml".to_string(), "@nm".to_string())).unwrap();
    assert_eq!(
        attr.xml,
        Some(XMLType::Attribute { is_attr: true, name: "nm".to_string() })
    );
    assert!(attr.options.is_empty());
}
