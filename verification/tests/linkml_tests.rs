use indexmap::IndexMap;
use mdmodels::attribute::{AttrOption, Attribute};
use mdmodels::datamodel::DataModel;
use mdmodels::frontmatter::FrontMatter;
use mdmodels::linkml::export::{attribute_definition, class_definition, enum_definition};
use mdmodels::linkml::import::{
    attribute_from_definition, enumeration_from_definition, object_from_class,
};
use mdmodels::linkml::schema::{
    remove_newlines, AttributeDefinition, ClassDefinition, EnumDefinition, LinkML, PermissibleValue, SlotUsage,
};
use mdmodels::object::{Enumeration, Object};

fn attribute(name: &str, dtypes: &[&str]) -> Attribute {
    let mut attr = Attribute::new(name.to_string(), false);
    attr.dtypes = dtypes.iter().map(|d| d.to_string()).collect();
    attr
}

fn object(name: &str, attributes: Vec<Attribute>) -> Object {
    let mut obj = Object::new(name.to_string(), None);
    obj.attributes = attributes;
    obj
}

fn option(key: &str, value: &str) -> AttrOption {
    AttrOption::new(key.to_string(), value.to_string())
}

fn empty_definition() -> AttributeDefinition {
    AttributeDefinition {
        description: None,
        slot_uri: None,
        identifier: None,
        required: None,
        range: None,
        readonly: None,
        multivalued: None,
        minimum_value: None,
        maximum_value: None,
        recommended: None,
        examples: Vec::new(),
        annotations: None,
    }
}

#[test]
fn test_class_definition_conversion() {
    let mut obj = Object::new("TestClass".to_string(), None);
    obj.name = "TestClass".to_string();
    obj.docstring = "Test description".to_string();
    obj.term = Some("http://example.org/TestClass".to_string());

    let mut attr = Attribute::new("test_attr".to_string(), false);
    attr.name = "test_attr".to_string();
    attr.options = vec![option("pattern", "^test.*$")];
    attr.dtypes = vec!["string".to_string()];
    obj.attributes = vec![attr];

    let class_def = class_definition(&obj);
    assert_eq!(class_def.description, Some("Test description".to_string()));
    assert_eq!(class_def.class_uri, Some("http://example.org/TestClass".to_string()));
    assert!(class_def.is_a.is_none());
    assert!(class_def.slot_usage.is_some());
}

#[test]
fn test_attribute_definition_conversion() {
    let mut attr = Attribute::new(String::new(), false);
    attr.is_array = true;
    attr.dtypes = vec!["integer".to_string()];
    attr.docstring = "Test attribute".to_string();
    attr.is_id = true;
    attr.required = true;

    let attr_def = attribute_definition(&attr);
    assert_eq!(attr_def.multivalued, Some(true));
    assert_eq!(attr_def.range, Some("integer".to_string()));
    assert_eq!(attr_def.description, Some("Test attribute".to_string()));
    assert_eq!(attr_def.identifier, Some(true));
    assert_eq!(attr_def.required, Some(true));
}

#[test]
fn test_enum_definition_conversion() {
    let mut enum_ = Enumeration::default();
    enum_.docstring = "Test enum".to_string();
    enum_.mappings.insert("KEY1".to_string(), "value1".to_string());
    enum_.mappings.insert("KEY2".to_string(), "value2".to_string());

    let enum_def = enum_definition(&enum_);
    assert_eq!(enum_def.description, Some("Test enum".to_string()));
    assert_eq!(enum_def.permissible_values.len(), 2);
    assert!(enum_def.permissible_values.contains_key("KEY1"));
    assert_eq!(enum_def.permissible_values["KEY1"].meaning, Some("value1".to_string()));
}

#[test]
fn test_attribute_definition_string_range_and_bounds() {
    let mut attr = attribute("value", &["string"]);
    attr.options = vec![
        option("minimum", "-3"),
        option("maximum", "12"),
        option("example", "4"),
        option("example", "5"),
    ];
    attr.term = Some("schema:value".to_string());
    let def = attribute_definition(&attr);
    assert_eq!(def.range, None);
    assert_eq!(def.minimum_value, Some(-3));
    assert_eq!(def.maximum_value, Some(12));
    assert_eq!(def.slot_uri, Some("schema:value".to_string()));
    assert_eq!(def.multivalued, Some(false));
    let examples: Vec<Option<String>> = def.examples.iter().map(|e| e.value.clone()).collect();
    assert_eq!(examples, vec![Some("4".to_string()), Some("5".to_string())]);
    assert!(def.examples.iter().all(|e| e.description.is_none()));
}

#[test]
fn test_class_definition_without_patterns_has_no_slot_usage() {
    let obj = object("Plain", vec![attribute("a", &["string"]), attribute("b", &["float"])]);
    let class_def = class_definition(&obj);
    assert!(class_def.slot_usage.is_none());
    let attrs = class_def.attributes.expect("attributes");
    let names: Vec<&String> = attrs.keys().collect();
    assert_eq!(names, vec!["a", "b"]);
    assert_eq!(attrs["b"].range, Some("float".to_string()));
    assert!(class_def.tree_root.is_none());
    assert!(class_def.slots.is_empty());
}

#[test]
fn test_class_definition_slot_usage_pattern() {
    let mut attr = attribute("code", &["string"]);
    attr.options = vec![option("pattern", "^[A-Z]+$")];
    let obj = object("Coded", vec![attr]);
    let class_def = class_definition(&obj);
    let usage = class_def.slot_usage.expect("slot usage");
    assert_eq!(usage.len(), 1);
    assert_eq!(usage["code"].pattern, Some("^[A-Z]+$".to_string()));
}

#[test]
fn test_linkml_from_model() {
    let mut config = FrontMatter::new();
    config.prefix = "ex".to_string();
    config.prefixes = Some(vec![("ex".to_string(), "http://example.org/".to_string())]);
    let mut model = DataModel::new(None, Some(config));
    model.objects.push(object("Root", vec![attribute("child", &["Child"])]));
    model.objects.push(object("Child", vec![attribute("value", &["integer"])]));
    let mut e = Enumeration::default();
    e.name = "Colour".to_string();
    e.mappings.insert("RED".to_string(), "red".to_string());
    model.enums.push(e);

    let linkml = LinkML::from_model(&model);
    assert_eq!(linkml.id, "ex");
    assert_eq!(linkml.default_prefix, "ex");
    assert_eq!(linkml.name, "Unnamed Data Model");
    assert_eq!(linkml.title, "Unnamed Data Model");
    assert_eq!(linkml.prefixes["ex"], "http://example.org/");
    assert_eq!(linkml.default_range, Some("string".to_string()));
    assert_eq!(linkml.imports, vec!["linkml:types".to_string()]);
    assert!(linkml.slots.is_empty());
    let class_names: Vec<&String> = linkml.classes.keys().collect();
    assert_eq!(class_names, vec!["Root", "Child"]);
    let roots: Vec<&String> = linkml
        .classes
        .iter()
        .filter(|(_, c)| c.tree_root == Some(true))
        .map(|(n, _)| n)
        .collect();
    assert_eq!(roots.len(), 1);
    assert!(linkml.classes.values().all(|c| c.tree_root.is_none() || c.tree_root == Some(true)));
    assert_eq!(linkml.enums["Colour"].permissible_values["RED"].meaning, Some("red".to_string()));
}

#[test]
fn test_linkml_from_model_defaults() {
    let mut model = DataModel::new(Some("Named".to_string()), None);
    model.objects.push(object("Only", vec![attribute("x", &["string"])]));
    let linkml = LinkML::from_model(&model);
    assert_eq!(linkml.id, "md");
    assert_eq!(linkml.name, "Named");
    assert!(linkml.prefixes.is_empty());
    assert_eq!(linkml.classes["Only"].tree_root, Some(true));
}

#[test]
fn test_try_from_model_refuses_unreadable_bound() {
    let mut attr = attribute("x", &["integer"]);
    attr.options = vec![option("minimum", "not a number")];
    let mut model = DataModel::new(None, None);
    model.objects.push(object("Thing", vec![attr]));
    assert!(LinkML::try_from_model(&model).is_none());

    let mut untyped = DataModel::new(None, None);
    untyped.objects.push(object("Thing", vec![attribute("x", &[])]));
    assert!(LinkML::try_from_model(&untyped).is_none());

    let mut fine = DataModel::new(None, None);
    fine.objects.push(object("Thing", vec![attribute("x", &["integer"])]));
    assert!(LinkML::try_from_model(&fine).is_some());
}

#[test]
fn test_attribute_from_definition() {
    let mut def = empty_definition();
    def.description = Some("A value".to_string());
    def.multivalued = Some(true);
    def.identifier = Some(false);
    def.slot_uri = Some("schema:v".to_string());
    let attr = attribute_from_definition(&def);
    assert_eq!(attr.name, "");
    assert_eq!(attr.docstring, "A value");
    assert_eq!(attr.dtypes, vec!["string".to_string()]);
    assert!(attr.is_array);
    assert!(!attr.is_id);
    assert!(!attr.required);
    assert_eq!(attr.term, Some("schema:v".to_string()));
    assert!(attr.options.is_empty());

    let mut ranged = empty_definition();
    ranged.range = Some("integer".to_string());
    assert_eq!(attribute_from_definition(&ranged).dtypes, vec!["integer".to_string()]);
}

#[test]
fn test_object_from_class_with_pattern() {
    let mut attrs = IndexMap::new();
    attrs.insert("code".to_string(), empty_definition());
    attrs.insert("label".to_string(), empty_definition());
    let mut usage = IndexMap::new();
    usage.insert("code".to_string(), SlotUsage { pattern: Some("^[A-Z]+$".to_string()) });
    usage.insert("missing".to_string(), SlotUsage { pattern: Some("x".to_string()) });
    let class = ClassDefinition {
        description: Some("Coded thing".to_string()),
        class_uri: Some("schema:Thing".to_string()),
        slots: Vec::new(),
        is_a: Some("Base".to_string()),
        tree_root: None,
        slot_usage: Some(usage),
        attributes: Some(attrs),
        mixins: Vec::new(),
    };
    let obj = object_from_class(class);
    assert_eq!(obj.name, "Base");
    assert_eq!(obj.docstring, "Coded thing");
    assert_eq!(obj.term, Some("schema:Thing".to_string()));
    assert!(obj.parent.is_none());
    assert_eq!(obj.attributes.len(), 2);
    assert_eq!(obj.attributes[0].name, "code");
    assert_eq!(obj.attributes[0].options, vec![AttrOption::new("pattern".to_string(), "^[A-Z]+$".to_string())]);
    assert!(obj.attributes[1].options.is_empty());
}

#[test]
fn test_enumeration_from_definition_sorts_keys() {
    let mut values = IndexMap::new();
    values.insert(
        "ZETA".to_string(),
        PermissibleValue { text: None, meaning: Some("z".to_string()), description: None },
    );
    values.insert(
        "ALPHA".to_string(),
        PermissibleValue { text: None, meaning: None, description: None },
    );
    let def = EnumDefinition { description: Some("Letters".to_string()), permissible_values: values };
    let e = enumeration_from_definition(def);
    assert_eq!(e.name, "");
    assert_eq!(e.docstring, "Letters");
    assert_eq!(e.mappings.keys(), vec!["ALPHA".to_string(), "ZETA".to_string()]);
    assert_eq!(e.mappings.get("ALPHA"), Some(String::new()));
    assert_eq!(e.mappings.get("ZETA"), Some("z".to_string()));
}

#[test]
fn test_model_from_linkml_round_trip() {
    let mut config = FrontMatter::new();
    config.prefix = "ex".to_string();
    let mut model = DataModel::new(Some("Shop".to_string()), Some(config));
    let mut price = attribute("price", &["float"]);
    price.docstring = "The price".to_string();
    let mut item = object("Item", vec![attribute("name", &["string"]), price]);
    item.docstring = "An item".to_string();
    item.term = Some("schema:Product".to_string());
    model.objects.push(item);
    let mut e = Enumeration::default();
    e.name = "Size".to_string();
    e.docstring = "Sizes".to_string();
    e.mappings.insert("S".to_string(), "small".to_string());
    e.mappings.insert("L".to_string(), "large".to_string());
    model.enums.push(e);

    let back = DataModel::from_linkml(LinkML::from_model(&model));
    assert_eq!(back.name, Some("Shop".to_string()));
    let config = back.config.expect("config");
    assert_eq!(config.prefix, "ex");
    assert_eq!(config.prefixes, Some(Vec::new()));
    assert_eq!(back.objects.len(), 1);
    let obj = &back.objects[0];
    assert_eq!(obj.name, "Item");
    assert_eq!(obj.docstring, "An item");
    assert_eq!(obj.term, Some("schema:Product".to_string()));
    let names: Vec<&String> = obj.attributes.iter().map(|a| &a.name).collect();
    assert_eq!(names, vec!["name", "price"]);
    assert_eq!(obj.attributes[1].dtypes, vec!["float".to_string()]);
    assert_eq!(obj.attributes[1].docstring, "The price");
    assert_eq!(back.enums.len(), 1);
    assert_eq!(back.enums[0].name, "Size");
    assert_eq!(back.enums[0].docstring, "Sizes");
    assert_eq!(back.enums[0].mappings.get("S"), Some("small".to_string()));
    assert_eq!(back.enums[0].mappings.get("L"), Some("large".to_string()));
}

#[test]
fn test_model_from_linkml_adds_global_slots() {
    let mut slots = IndexMap::new();
    let mut id_def = empty_definition();
    id_def.identifier = Some(true);
    id_def.range = Some("integer".to_string());
    slots.insert("id".to_string(), id_def);
    let mut classes = IndexMap::new();
    classes.insert(
        "Thing".to_string(),
        ClassDefinition {
            description: None,
            class_uri: None,
            slots: vec!["id".to_string(), "unknown".to_string()],
            is_a: None,
            tree_root: None,
            slot_usage: None,
            attributes: None,
            mixins: Vec::new(),
        },
    );
    let linkml = LinkML {
        id: "t".to_string(),
        name: "T".to_string(),
        title: "T".to_string(),
        description: None,
        license: None,
        see_also: Vec::new(),
        prefixes: IndexMap::new(),
        default_prefix: "t".to_string(),
        default_range: None,
        imports: Vec::new(),
        classes,
        slots,
        enums: IndexMap::new(),
    };
    let model = DataModel::from_linkml(linkml);
    assert_eq!(model.objects.len(), 1);
    let obj = &model.objects[0];
    assert_eq!(obj.name, "Thing");
    assert_eq!(obj.attributes.len(), 1);
    assert_eq!(obj.attributes[0].name, "id");
    assert!(obj.attributes[0].is_id);
    assert_eq!(obj.attributes[0].dtypes, vec!["integer".to_string()]);
}

#[test]
fn test_remove_newlines() {
    assert_eq!(remove_newlines("A long\n  description\r\nhere\n"), "A long description here");
    assert_eq!(remove_newlines(""), "");
    assert_eq!(remove_newlines("one"), "one");
    assert_eq!(remove_newlines("a\n\nb"), "a  b");
    assert_eq!(remove_newlines("  padded  "), "padded");
}
