use mdmodels::attribute::{AttrOption, Attribute, DataType};
use mdmodels::datamodel::DataModel;
use mdmodels::exporters::{has_primary_key, Templates};
use mdmodels::linkml::schema::LinkML;
use mdmodels::object::Object;
use mdmodels::validation::is_pascal_case;
use mdmodels::frontmatter::FrontMatter;
use mdmodels::markdown::parser::{parse_markdown, BuiltinType, MarkdownError};

fn attribute(name: &str, dtype: &str) -> Attribute {
    let mut attr = Attribute::new(name.to_string(), false);
    attr.dtypes = vec![dtype.to_string()];
    attr
}

#[test]
fn test_templates_accept_both_docs_names() {
    assert_eq!(Templates::from_str("mkdocs"), Ok(Templates::MkDocs));
    assert_eq!(Templates::from_str("mk-docs"), Ok(Templates::MkDocs));
}

#[test]
fn test_has_primary_key_reads_pk_option() {
    let mut obj = Object::new("Person".to_string(), None);
    let mut id = attribute("id", "string");
    id.options.push(AttrOption::new("pk".to_string(), "true".to_string()));
    obj.attributes.push(id);
    assert!(has_primary_key(&obj));

    let mut plain = Object::new("Plain".to_string(), None);
    plain.attributes.push(attribute("id", "string"));
    assert!(!has_primary_key(&plain));
}

#[test]
fn test_pascal_case_rejects_underscores() {
    assert!(is_pascal_case("Person").is_ok());
    assert!(is_pascal_case("My_Name").is_err());
    assert!(is_pascal_case("person").is_err());
    assert!(is_pascal_case("").is_err());
}

#[test]
fn test_sort_by_required_flag_alone() {
    let mut obj = Object::new("Test".to_string(), None);
    obj.attributes.push(attribute("a", "string"));
    let mut b = attribute("b", "string");
    b.required = true;
    b.is_array = true;
    obj.attributes.push(b);
    obj.attributes.push(attribute("c", "string"));
    let mut d = attribute("d", "string");
    d.required = true;
    obj.attributes.push(d);
    obj.sort_attrs_by_required();
    let names: Vec<String> = obj.attributes.iter().map(|a| a.name.clone()).collect();
    assert_eq!(names, vec!["b", "d", "a", "c"]);
}

#[test]
fn test_linkml_shared_attributes_become_slots() {
    let mut model = DataModel::new(None, None);
    let mut first = Object::new("First".to_string(), None);
    first.attributes.push(attribute("x", "string"));
    first.attributes.push(attribute("only_first", "integer"));
    let mut second = Object::new("Second".to_string(), None);
    second.attributes.push(attribute("x", "string"));
    model.objects.push(first);
    model.objects.push(second);

    let linkml = LinkML::from_model(&model);
    let slot_names: Vec<&String> = linkml.slots.keys().collect();
    assert_eq!(slot_names, vec!["x"]);
    let first = &linkml.classes["First"];
    assert_eq!(first.slots, vec!["x".to_string()]);
    let first_attrs: Vec<&String> = first.attributes.as_ref().unwrap().keys().collect();
    assert_eq!(first_attrs, vec!["only_first"]);
    let second = &linkml.classes["Second"];
    assert_eq!(second.slots, vec!["x".to_string()]);
    assert!(second.attributes.as_ref().unwrap().is_empty());
}

#[test]
fn test_integer_defaults_follow_decimal_text() {
    assert_eq!(DataType::from_str("+12").unwrap(), DataType::Integer(12));
    assert_eq!(DataType::from_str("-0").unwrap(), DataType::Integer(0));
    assert_eq!(
        DataType::from_str("-9223372036854775808").unwrap(),
        DataType::Integer(i64::MIN)
    );
    assert_eq!(
        DataType::from_str("9223372036854775808").unwrap(),
        DataType::Float("9223372036854775808".to_string())
    );
}

#[test]
fn test_identifier_types_become_strings() {
    let mut attr = Attribute::new("id".to_string(), false);
    attr.add_option(AttrOption::new("type".to_string(), "Identifier".to_string()))
        .unwrap();
    assert_eq!(attr.dtypes, vec!["string".to_string()]);
    assert!(attr.is_id);
    let mut list = Attribute::new("ids".to_string(), false);
    list.add_option(AttrOption::new("type".to_string(), "identifier[]".to_string()))
        .unwrap();
    assert_eq!(list.dtypes, vec!["string".to_string()]);
    assert!(list.is_array);
}

#[test]
fn test_clean_and_trim_is_stable() {
    use_clean("  a  \n\n\n\n\nb \t\n  ");
    use_clean("\n\n  x\n\n\ny  \n\n\n\n");
    use_clean("");
}

fn use_clean(text: &str) {
    let r = mdmodels::exporters::clean_and_trim(text);
    assert_eq!(mdmodels::exporters::clean_and_trim(&r), r);
    assert_eq!(r.trim(), r);
    assert!(r.split('\n').all(|l| l == l.trim_end()));
    assert!(!r.contains("\n\n\n\n"));
}

fn unit_definition_type() -> BuiltinType {
    let mut model = DataModel::new(None, None);
    let mut unit = Object::new("UnitDefinition".to_string(), None);
    unit.attributes.push(attribute("id", "string"));
    let mut base = attribute("base_units", "BaseUnit");
    base.is_array = true;
    unit.attributes.push(base);
    let mut base_unit = Object::new("BaseUnit".to_string(), None);
    base_unit.attributes.push(attribute("kind", "string"));
    model.objects.push(unit);
    model.objects.push(base_unit);
    BuiltinType { name: "UnitDefinition".to_string(), model }
}

#[test]
fn test_builtin_parent_passes_on_attributes() {
    let content = "### Measurement[UnitDefinition]\n\n- value\n  - Type: float\n";
    let builtins = vec![unit_definition_type()];
    let model = parse_markdown(content, FrontMatter::new(), &builtins, &Vec::new()).expect("model");
    let names: Vec<&str> = model.objects.iter().map(|o| o.name.as_str()).collect();
    assert_eq!(names, vec!["Measurement", "BaseUnit"]);
    let attrs: Vec<&str> = model.objects[0].attributes.iter().map(|a| a.name.as_str()).collect();
    assert_eq!(attrs, vec!["value", "id", "base_units"]);
}

#[test]
fn test_builtin_type_used_by_attribute_is_merged() {
    let content = "### Measurement\n\n- unit\n  - Type: UnitDefinition\n";
    let builtins = vec![unit_definition_type()];
    let model = parse_markdown(content, FrontMatter::new(), &builtins, &Vec::new()).expect("model");
    let names: Vec<&str> = model.objects.iter().map(|o| o.name.as_str()).collect();
    assert_eq!(names, vec!["Measurement", "UnitDefinition", "BaseUnit"]);
}

#[test]
fn test_missing_builtin_parent_is_refused() {
    let content = "### Measurement[Equation]\n\n- value\n  - Type: float\n";
    let builtins = vec![unit_definition_type()];
    assert!(matches!(
        parse_markdown(content, FrontMatter::new(), &builtins, &Vec::new()),
        Err(MarkdownError::MissingParent)
    ));
}

#[test]
fn test_merge_keeps_first_of_each_name() {
    let mut model = DataModel::new(None, None);
    model.objects.push(Object::new("A".to_string(), None));
    let mut other = DataModel::new(None, None);
    let mut a2 = Object::new("A".to_string(), None);
    a2.attributes.push(attribute("x", "string"));
    other.objects.push(a2);
    other.objects.push(Object::new("B".to_string(), None));
    model.merge(&other);
    let names: Vec<&str> = model.objects.iter().map(|o| o.name.as_str()).collect();
    assert_eq!(names, vec!["A", "B"]);
    assert!(model.objects[0].attributes.is_empty());
}

#[test]
fn test_imported_models_are_merged() {
    let content = "### Sample\n\n- part\n  - Type: Part\n";
    let mut imported = DataModel::new(None, None);
    let mut part = Object::new("Part".to_string(), None);
    part.attributes.push(attribute("label", "string"));
    imported.objects.push(part);
    let model = parse_markdown(content, FrontMatter::new(), &Vec::new(), &vec![imported]).expect("model");
    let names: Vec<&str> = model.objects.iter().map(|o| o.name.as_str()).collect();
    assert_eq!(names, vec!["Sample", "Part"]);
}

#[test]
fn test_primitive_filters_split_the_list() {
    let pt = mdmodels::primitives::PrimitiveTypes::new();
    let d: Vec<String> = ["string", "Person", "integer", "Person", "bytes", "float"]
        .iter()
        .map(|s| s.to_string())
        .collect();
    let prim = pt.filter_primitive(&d);
    let other = pt.filter_non_primitives(&d);
    assert_eq!(prim, vec!["string", "integer", "float"]);
    assert_eq!(other, vec!["Person", "Person", "bytes"]);
    assert_eq!(prim.len() + other.len(), d.len());
}
