use mdmodels::json::export::{PrimitiveType, Property, SchemaObject, SchemaType};
use mdmodels::json::import::{attribute_from_property, model_from_schema, object_from_schema_object};
use mdmodels::json::schema::{
    DataType, DataTypeItemType, EnumObject, Item, OneOfItemType, ReferenceItemType,
};
use std::collections::HashSet;

fn prop(title: &str, dtype: Option<DataType>) -> Property {
    Property {
        title: title.to_string(),
        dtype,
        default: None,
        description: None,
        term: None,
        reference: None,
        options: vec![],
        items: None,
        one_of: None,
        enum_values: None,
    }
}

fn type_item(d: DataType) -> Item {
    Item::DataTypeItem(DataTypeItemType { dtype: d })
}

fn ref_item(r: &str) -> Item {
    Item::ReferenceItem(ReferenceItemType { reference: r.to_string() })
}

fn object(title: &str, properties: Vec<(String, Property)>, required: Vec<String>) -> SchemaObject {
    SchemaObject {
        schema: None,
        id: None,
        title: title.to_string(),
        dtype: DataType::Object,
        description: None,
        properties,
        definitions: vec![],
        required,
        additional_properties: false,
    }
}

#[test]
fn test_parse_property() {
    let mut property = prop("number", Some(DataType::Number));
    property.term = Some("http://schema.org/one".to_string());
    property.options = vec![("minimum".to_string(), PrimitiveType::Number("0.0".to_string()))];
    property.description = Some("test".to_string());

    let attribute = attribute_from_property(&property).unwrap();
    assert_eq!(attribute.name, "number");
    assert_eq!(attribute.dtypes, vec!["number"]);
    assert_eq!(attribute.docstring, "test");
    assert_eq!(attribute.term, Some("http://schema.org/one".to_string()));
    assert!(!attribute.required);
    assert_eq!(attribute.default, None);
    assert!(!attribute.is_array);
    assert_eq!(attribute.xml, None);
    assert!(!attribute.is_enum);
    assert_eq!(attribute.position, None);
}

#[test]
fn test_parse_property_with_one_of() {
    let mut property = prop("number", None);
    property.one_of = Some(vec![type_item(DataType::Number), type_item(DataType::String)]);

    let attribute = attribute_from_property(&property).unwrap();
    assert_eq!(attribute.name, "number");
    assert_eq!(
        attribute.dtypes.into_iter().collect::<HashSet<_>>(),
        vec!["number".to_string(), "string".to_string()]
            .into_iter()
            .collect::<HashSet<_>>()
    );
    assert_eq!(attribute.docstring, "");
    assert_eq!(attribute.term, None);
    assert!(!attribute.required);
    assert_eq!(attribute.default, None);
    assert_eq!(attribute.xml, None);
    assert!(!attribute.is_array);
    assert!(!attribute.is_enum);
    assert_eq!(attribute.position, None);
}

#[test]
fn test_parse_property_with_reference() {
    let mut property = prop("number", None);
    property.reference = Some("#/$defs/Test".to_string());

    let attribute = attribute_from_property(&property).unwrap();
    assert_eq!(attribute.name, "number");
    assert_eq!(attribute.dtypes, vec!["Test".to_string()]);
    assert_eq!(attribute.docstring, "");
    assert_eq!(attribute.term, None);
    assert!(!attribute.required);
    assert_eq!(attribute.default, None);
    assert!(!attribute.is_array);
    assert_eq!(attribute.xml, None);
    assert!(!attribute.is_enum);
    assert_eq!(attribute.position, None);
}

#[test]
fn test_parse_property_array_without_reference() {
    let mut property = prop("number", Some(DataType::Array));
    property.items = Some(type_item(DataType::String));

    let attribute = attribute_from_property(&property).unwrap();
    assert_eq!(attribute.name, "number");
    assert_eq!(attribute.dtypes, vec!["string".to_string()]);
    assert_eq!(attribute.docstring, "");
    assert_eq!(attribute.term, None);
    assert!(!attribute.required);
    assert_eq!(attribute.default, None);
    assert!(attribute.is_array);
    assert_eq!(attribute.xml, None);
    assert!(!attribute.is_enum);
    assert_eq!(attribute.position, None);
}

#[test]
fn test_extract_reference_from_array() {
    let mut property = prop("number", Some(DataType::Array));
    property.items = Some(type_item(DataType::String));

    let attribute = attribute_from_property(&property).unwrap();
    assert_eq!(attribute.name, "number");
    assert_eq!(attribute.dtypes, vec!["string".to_string()]);
    assert_eq!(attribute.docstring, "");
    assert_eq!(attribute.term, None);
    assert!(!attribute.required);
    assert_eq!(attribute.default, None);
    assert!(attribute.is_array);
    assert_eq!(attribute.xml, None);
    assert!(!attribute.is_enum);
    assert_eq!(attribute.position, None);
}

#[test]
fn test_extract_reference_from_one_of() {
    let mut property = prop("number", None);
    property.one_of = Some(vec![ref_item("#/$defs/Test"), type_item(DataType::String)]);

    let attribute = attribute_from_property(&property).unwrap();
    assert_eq!(attribute.name, "number");
    assert_eq!(
        attribute.dtypes.into_iter().collect::<HashSet<_>>(),
        vec!["Test".to_string(), "string".to_string()]
            .into_iter()
            .collect::<HashSet<_>>()
    );
}

#[test]
fn test_parse_object() {
    let schema = object(
        "Test",
        vec![
            ("number".to_string(), prop("number", Some(DataType::Number))),
            ("string".to_string(), prop("", Some(DataType::String))),
        ],
        vec!["number".to_string()],
    );
    let data_model = object_from_schema_object(&schema).unwrap();

    assert_eq!(data_model.name, "Test");
    assert_eq!(data_model.attributes.len(), 2);
    assert_eq!(data_model.attributes[0].name, "number");
    assert_eq!(data_model.attributes[1].name, "string");

    let attribute1 = data_model.attributes[0].clone();
    assert_eq!(attribute1.name, "number");
    assert_eq!(attribute1.dtypes, vec!["number"]);
    assert_eq!(attribute1.docstring, "");
    assert_eq!(attribute1.term, None);
    assert!(attribute1.required);
    assert_eq!(attribute1.default, None);
    assert!(!attribute1.is_array);

    let attribute2 = data_model.attributes[1].clone();
    assert_eq!(attribute2.name, "string");
    assert_eq!(attribute2.dtypes, vec!["string"]);
    assert_eq!(attribute2.docstring, "");
    assert_eq!(attribute2.term, None);
    assert!(!attribute2.required);
    assert_eq!(attribute2.default, None);
    assert!(!attribute2.is_array);
}

#[test]
fn test_parse_schema() {
    let mut array_valued = prop("array_valued", Some(DataType::Array));
    array_valued.term = Some("http://schema.org/something".to_string());
    array_valued.items = Some(ref_item("#/$defs/Test2"));

    let mut multiple_types = prop("multiple_types", None);
    multiple_types.one_of = Some(vec![type_item(DataType::Number), ref_item("#/$defs/Test2")]);

    let mut multiple_types_array = prop("multiple_types_array", Some(DataType::Array));
    multiple_types_array.items = Some(Item::OneOfItem(OneOfItemType {
        one_of: vec![type_item(DataType::Number), ref_item("#/$defs/Test2")],
    }));

    let mut name = prop("name", Some(DataType::String));
    name.default = Some(PrimitiveType::String("test".to_string()));
    name.description = Some("A test description".to_string());
    name.term = Some("http://schema.org/hello".to_string());

    let mut number = prop("number", Some(DataType::Number));
    number.term = Some("http://schema.org/one".to_string());
    number.options = vec![("minimum".to_string(), PrimitiveType::Number("0.0".to_string()))];

    let mut ontology = prop("ontology", None);
    ontology.reference = Some("#/$defs/Ontology".to_string());

    let mut single_valued = prop("single_valued", Some(DataType::Object));
    single_valued.reference = Some("#/$defs/Test2".to_string());

    let mut names = prop("names", Some(DataType::Array));
    names.term = Some("http://schema.org/hello".to_string());
    names.items = Some(type_item(DataType::String));
    let mut number2 = prop("number", Some(DataType::Number));
    number2.term = Some("http://schema.org/one".to_string());
    number2.options = vec![("minimum".to_string(), PrimitiveType::Number("0.0".to_string()))];

    let mut root = object(
        "Test",
        vec![
            ("array_valued".to_string(), array_valued),
            ("multiple_types".to_string(), multiple_types),
            ("multiple_types_array".to_string(), multiple_types_array),
            ("name".to_string(), name),
            ("number".to_string(), number),
            ("ontology".to_string(), ontology),
            ("single_valued".to_string(), single_valued),
        ],
        vec!["name".to_string()],
    );
    root.schema = Some("https://json-schema.org/draft/2020-12/schema".to_string());
    root.id = Some("https://www.github.com/my/repo/".to_string());
    root.definitions = vec![
        (
            "Ontology".to_string(),
            SchemaType::Enum(EnumObject {
                title: "Ontology".to_string(),
                dtype: DataType::String,
                description: None,
                enum_values: vec![
                    "https://www.evidenceontology.org/term/".to_string(),
                    "https://amigo.geneontology.org/amigo/term/".to_string(),
                    "http://semanticscience.org/resource/".to_string(),
                ],
            }),
        ),
        (
            "Test2".to_string(),
            SchemaType::Object(object(
                "Test2",
                vec![("names".to_string(), names), ("number".to_string(), number2)],
                vec![],
            )),
        ),
        (
            "no_title_and_no_required".to_string(),
            SchemaType::Object(object(
                "",
                vec![("val".to_string(), prop("", Some(DataType::String)))],
                vec![],
            )),
        ),
    ];

    let data_model = model_from_schema(&root).expect("Failed to convert schema to data model");

    assert_eq!(data_model.name, Some("Test".to_string()));
    assert_eq!(data_model.objects.len(), 3);
    assert_eq!(data_model.enums.len(), 1);

    let root = data_model
        .objects
        .iter()
        .find(|object| object.name == "Test")
        .expect("Root object not found");

    assert_eq!(root.attributes.len(), 7);
    assert_eq!(root.attributes[0].name, "array_valued");
    assert_eq!(root.attributes[1].name, "multiple_types");
    assert_eq!(root.attributes[2].name, "multiple_types_array");
    assert_eq!(root.attributes[3].name, "name");
    assert_eq!(root.attributes[4].name, "number");
    assert_eq!(root.attributes[5].name, "ontology");
    assert_eq!(root.attributes[6].name, "single_valued");

    let test2 = data_model
        .objects
        .iter()
        .find(|object| object.name == "Test2")
        .expect("Test2 object not found");

    assert_eq!(test2.attributes.len(), 2);
    assert_eq!(test2.attributes[0].name, "names");
    assert_eq!(test2.attributes[1].name, "number");

    let names_attr = &test2.attributes[0];
    assert!(names_attr.is_array);
    assert_eq!(names_attr.dtypes, vec!["string"]);
    assert_eq!(names_attr.term, Some("http://schema.org/hello".to_string()));

    let number_attr = &test2.attributes[1];
    assert!(!number_attr.is_array);
    assert_eq!(number_attr.dtypes, vec!["number"]);
    assert_eq!(number_attr.term, Some("http://schema.org/one".to_string()));

    let no_title_and_no_required = data_model
        .objects
        .iter()
        .find(|object| object.name == "no_title_and_no_required")
        .expect("no_title_and_no_required object not found");

    assert!(!no_title_and_no_required.name.is_empty());
    assert_eq!(no_title_and_no_required.attributes.len(), 1);
    assert_eq!(no_title_and_no_required.attributes[0].name, "val");

    let ontology = data_model
        .enums
        .iter()
        .find(|e| e.name == "Ontology")
        .expect("Ontology enum not found");

    assert_eq!(ontology.mappings.len(), 3);
    assert_eq!(
        ontology.mappings.get("VALUE_0").unwrap(),
        "https://www.evidenceontology.org/term/"
    );
    assert_eq!(
        ontology.mappings.get("VALUE_1").unwrap(),
        "https://amigo.geneontology.org/amigo/term/"
    );
    assert_eq!(
        ontology.mappings.get("VALUE_2").unwrap(),
        "http://semanticscience.org/resource/"
    );

    let array_valued = &root.attributes[0];
    assert!(array_valued.is_array);
    assert_eq!(array_valued.dtypes, vec!["Test2"]);
    assert_eq!(array_valued.term, Some("http://schema.org/something".to_string()));

    let multiple_types = &root.attributes[1];
    assert!(!multiple_types.is_array);
    let multiple_types_dtypes: HashSet<_> = multiple_types.dtypes.iter().collect();
    assert_eq!(
        multiple_types_dtypes,
        HashSet::from([&"number".to_string(), &"Test2".to_string()])
    );

    let name_attr = &root.attributes[3];
    assert!(name_attr.required);
    assert_eq!(name_attr.term, Some("http://schema.org/hello".to_string()));
}

// Further cases of the library's own.

#[test]
fn invalid_reference_is_refused() {
    let mut property = prop("x", None);
    property.reference = Some("#/$defs/".to_string());
    assert_eq!(
        attribute_from_property(&property).unwrap_err(),
        "Invalid reference format"
    );
}

#[test]
fn option_values_become_text() {
    let mut property = prop("x", Some(DataType::Integer));
    property.options = vec![
        ("maximum".to_string(), PrimitiveType::Integer(-3)),
        ("unique".to_string(), PrimitiveType::Boolean(true)),
    ];
    let a = attribute_from_property(&property).unwrap();
    assert_eq!(a.options[0].key, "maximum");
    assert_eq!(a.options[0].value, "-3");
    assert_eq!(a.options[1].value, "true");
}

#[test]
fn object_and_array_types_are_dropped() {
    let mut property = prop("x", Some(DataType::Object));
    property.reference = Some("#/$defs/Thing".to_string());
    let a = attribute_from_property(&property).unwrap();
    assert_eq!(a.dtypes, vec!["Thing".to_string()]);
}
