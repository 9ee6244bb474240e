use mdmodels::json::validation::validate_json;
use mdmodels::attribute::{AttrOption, Attribute, DataType as DefaultValue};
use mdmodels::frontmatter::FrontMatter;
use mdmodels::json::export::{
    primitive_from_option, property_from_attribute, to_json_schema, PrimitiveType, SchemaType,
};
use mdmodels::json::schema::{DataType, Item};
use mdmodels::markdown::parser::parse_markdown;

fn plain_attribute(name: &str, is_array: bool, dtypes: &[&str]) -> Attribute {
    let mut attr = Attribute::new(name.to_string(), false);
    attr.is_array = is_array;
    attr.xml = None;
    attr.dtypes = dtypes.iter().map(|d| d.to_string()).collect();
    attr
}

fn is_type_item(item: &Item, dtype: DataType) -> bool {
    matches!(item, Item::DataTypeItem(t) if t.dtype == dtype)
}

fn is_ref_item(item: &Item, reference: &str) -> bool {
    matches!(item, Item::ReferenceItem(r) if r.reference == reference)
}

#[test]
fn test_attribute_with_multiple_types() {
    let attr = plain_attribute("test_attribute", false, &["string", "RefType"]);
    let property = property_from_attribute(&attr).expect("Failed to convert Attribute to Property");

    // {"title": "test_attribute", "oneOf": [{"type": "string"}, {"$ref": "#/$defs/RefType"}]}
    assert_eq!(property.title, "test_attribute");
    assert_eq!(property.dtype, None);
    assert!(property.items.is_none());
    assert!(property.reference.is_none());
    assert!(property.description.is_none());
    assert!(property.options.is_empty());
    let one_of = property.one_of.expect("oneOf");
    assert_eq!(one_of.len(), 2);
    assert!(is_type_item(&one_of[0], DataType::String));
    assert!(is_ref_item(&one_of[1], "#/$defs/RefType"));
}

#[test]
fn test_array_attribute() {
    let attr = plain_attribute("test_attribute", true, &["string", "RefType"]);
    let property = property_from_attribute(&attr).expect("Failed to convert Attribute to Property");

    // {"title": "test_attribute", "type": "array",
    //  "items": {"oneOf": [{"type": "string"}, {"$ref": "#/$defs/RefType"}]}}
    assert_eq!(property.title, "test_attribute");
    assert_eq!(property.dtype, Some(DataType::Array));
    assert!(property.one_of.is_none());
    match property.items.expect("items") {
        Item::OneOfItem(o) => {
            assert_eq!(o.one_of.len(), 2);
            assert!(is_type_item(&o.one_of[0], DataType::String));
            assert!(is_ref_item(&o.one_of[1], "#/$defs/RefType"));
        }
        _ => panic!("expected oneOf items"),
    }
}

// Further cases of the library's own.

#[test]
fn single_typed_properties() {
    let attr = plain_attribute("count", false, &["integer"]);
    let p = property_from_attribute(&attr).unwrap();
    assert_eq!(p.dtype, Some(DataType::Integer));
    assert_eq!(p.one_of.as_ref().map(|v| v.len()), Some(0));

    let attr = plain_attribute("owner", false, &["Person"]);
    let p = property_from_attribute(&attr).unwrap();
    assert_eq!(p.dtype, Some(DataType::Object));
    assert_eq!(p.reference, Some("#/$defs/Person".to_string()));

    let attr = plain_attribute("tags", true, &["string"]);
    let p = property_from_attribute(&attr).unwrap();
    assert!(is_type_item(&p.items.unwrap(), DataType::String));

    let attr = plain_attribute("empty", false, &[]);
    assert_eq!(
        property_from_attribute(&attr).unwrap_err(),
        "No data types found for attribute: empty"
    );
}

#[test]
fn enumeration_property() {
    let mut attr = plain_attribute("kind", false, &["Kind"]);
    attr.is_enum = true;
    let p = property_from_attribute(&attr).unwrap();
    assert_eq!(p.dtype, None);
    assert_eq!(p.reference, Some("#/$defs/Kind".to_string()));
    assert_eq!(p.enum_values, Some(vec![]));
}

#[test]
fn property_defaults_and_options() {
    let mut attr = plain_attribute("name", false, &["string"]);
    attr.add_option(AttrOption::new("default".to_string(), "Bob".to_string())).unwrap();
    attr.add_option(AttrOption::new("maxLength".to_string(), "20".to_string())).unwrap();
    attr.add_option(AttrOption::new("pattern".to_string(), "^[a-z]+$".to_string())).unwrap();
    attr.add_option(AttrOption::new("unique".to_string(), "true".to_string())).unwrap();
    attr.add_option(AttrOption::new("pattern".to_string(), "^x$".to_string())).unwrap();
    attr.docstring = "The name".to_string();
    let p = property_from_attribute(&attr).unwrap();
    assert_eq!(p.default, Some(PrimitiveType::String("Bob".to_string())));
    assert_eq!(p.description, Some("The name".to_string()));
    assert_eq!(
        p.options,
        vec![
            ("maxlength".to_string(), PrimitiveType::Number("20".to_string())),
            ("pattern".to_string(), PrimitiveType::String("^x$".to_string())),
            ("unique".to_string(), PrimitiveType::Boolean(true)),
        ]
    );

    let mut attr = plain_attribute("size", false, &["integer"]);
    attr.default = Some(DefaultValue::Integer(3));
    assert_eq!(property_from_attribute(&attr).unwrap().default, Some(PrimitiveType::Integer(3)));
    let mut attr = plain_attribute("size", false, &["string"]);
    attr.default = Some(DefaultValue::Integer(3));
    assert_eq!(property_from_attribute(&attr).unwrap().default, None);
}

#[test]
fn option_values() {
    assert_eq!(primitive_from_option("1e3"), PrimitiveType::Number("1e3".to_string()));
    assert_eq!(primitive_from_option("NaN"), PrimitiveType::Number("NaN".to_string()));
    assert_eq!(primitive_from_option("false"), PrimitiveType::Boolean(false));
    assert_eq!(primitive_from_option("True"), PrimitiveType::String("True".to_string()));
    assert_eq!(primitive_from_option("abc"), PrimitiveType::String("abc".to_string()));
}

const MODEL: &str = "---
prefixes:
  schema: http://schema.org/
---

### Person

- **name**
  - Type: string
  - Term: schema:name
  - maxLength: 20
- address
  - Type: Address
- status
  - Type: Status

### Address

- street
  - Type: string

### Unused

- x
  - Type: string

### Status

```
ACTIVE = active
DONE = done
```
";

#[test]
fn model_schema() {
    let mut config = FrontMatter::new();
    config.prefixes = Some(vec![("schema".to_string(), "http://schema.org/".to_string())]);
    let model = parse_markdown(MODEL, config, &Vec::new(), &Vec::new()).expect("model");
    let schema = to_json_schema(&model, "Person", false).expect("schema");
    assert_eq!(schema.title, "Person");
    assert_eq!(
        schema.schema,
        Some("https://json-schema.org/draft/2020-12/schema".to_string())
    );
    assert_eq!(schema.id, Some("http://mdmodel.net/".to_string()));
    assert_eq!(schema.required, vec!["name".to_string()]);
    let keys: Vec<&str> = schema.properties.iter().map(|(k, _)| k.as_str()).collect();
    assert_eq!(keys, vec!["address", "name", "status"]);
    let name = &schema.properties[1].1;
    assert_eq!(name.term, Some("http://schema.org/name".to_string()));
    assert_eq!(name.options.len(), 1);
    let defs: Vec<&str> = schema.definitions.iter().map(|(k, _)| k.as_str()).collect();
    assert_eq!(defs, vec!["Address", "Status"]);
    match &schema.definitions[1].1 {
        SchemaType::Enum(e) => assert_eq!(e.enum_values, vec!["active".to_string(), "done".to_string()]),
        _ => panic!("expected an enumeration"),
    }

    let openai = to_json_schema(&model, "Person", true).expect("schema");
    assert!(openai.properties.iter().all(|(_, p)| p.options.is_empty()));

    assert_eq!(
        to_json_schema(&model, "Nobody", false).unwrap_err(),
        "Object Nobody not found"
    );
}

#[test]
fn unknown_type_in_schema() {
    let mut model = parse_markdown(MODEL, FrontMatter::new(), &Vec::new(), &Vec::new()).expect("model");
    model.objects[1].attributes[0].dtypes = vec!["Missing".to_string()];
    assert_eq!(
        to_json_schema(&model, "Person", false).unwrap_err(),
        "Object or enumeration Missing not found"
    );
    assert!(to_json_schema(&model, "Unused", false).is_ok());
}

#[test]
fn test_validate_json_dataset() {
    let schema = r#"{"type": "object", "properties": {"a": {"type": "integer"}}, "required": ["a"]}"#;
    let ok = validate_json(r#"{"a": 3}"#, schema).expect("valid texts");
    assert!(ok.is_empty());
    let problems = validate_json(r#"{"a": "three"}"#, schema).expect("valid texts");
    assert_eq!(problems.len(), 1);
    assert_eq!(problems[0].instance_path, "/a");
    let missing = validate_json(r#"{}"#, schema).expect("valid texts");
    assert_eq!(missing.len(), 1);
    assert!(validate_json("{not json", schema).is_err());
    assert!(validate_json("{}", "{not json").is_err());
    assert!(validate_json("{}", r#"{"type": 12}"#).is_err());
}
