use mdmodels::frontmatter::FrontMatter;
use mdmodels::markdown::parser::{clean_content, create_line_offsets, parse_markdown, MarkdownError};

const README_MODEL: &str = "---
prefixes:
  schema: http://schema.org/
---

### Person

- **name**
  - Type: string
  - Description: The name of the person
  - Term: schema:name
- age
  - Type: integer
  - Description: The age of the person
  - Term: schema:age
- addresses
  - Type: Address[]
  - Description: The address of the person

### Address

- street
  - Type: string
  - Description: The street of the address
";

#[test]
fn readme_model_is_read() {
    let model = parse_markdown(README_MODEL, FrontMatter::new(), &Vec::new(), &Vec::new()).expect("model should be read");
    assert_eq!(model.objects.len(), 2);
    let person = &model.objects[0];
    assert_eq!(person.name, "Person");
    let names: Vec<&str> = person.attributes.iter().map(|a| a.name.as_str()).collect();
    assert_eq!(names, vec!["name", "age", "addresses"]);
    assert!(person.attributes[0].required);
    assert!(!person.attributes[1].required);
    assert_eq!(person.attributes[0].dtypes, vec!["string".to_string()]);
    assert_eq!(person.attributes[0].term, Some("schema:name".to_string()));
    assert_eq!(person.attributes[0].docstring, "The name of the person");
    assert_eq!(person.attributes[1].dtypes, vec!["integer".to_string()]);
    assert_eq!(person.attributes[2].dtypes, vec!["Address".to_string()]);
    assert!(person.attributes[2].is_array);
    let address = &model.objects[1];
    assert_eq!(address.name, "Address");
    assert_eq!(address.attributes.len(), 1);
    assert_eq!(address.attributes[0].name, "street");
    assert!(model.enums.is_empty());
    assert_eq!(model.config, Some(FrontMatter::new()));
}

#[test]
fn enumerations_and_model_name() {
    let content = "# My Model

### Sample

- kind
  - Type: Kind

### Kind

```
LEFT = left
RIGHT = right
```
";
    let model = parse_markdown(content, FrontMatter::new(), &Vec::new(), &Vec::new()).expect("model should be read");
    assert_eq!(model.name, Some("My Model".to_string()));
    assert_eq!(model.objects.len(), 1);
    assert!(model.objects[0].attributes[0].is_enum);
    assert_eq!(model.enums.len(), 1);
    assert_eq!(model.enums[0].name, "Kind");
    assert_eq!(model.enums[0].mappings.get("LEFT"), Some("left".to_string()));
    assert_eq!(model.enums[0].mappings.get("RIGHT"), Some("right".to_string()));
}

#[test]
fn unknown_type_is_invalid() {
    let content = "### Sample\n\n- thing\n  - Type: Missing\n";
    match parse_markdown(content, FrontMatter::new(), &Vec::new(), &Vec::new()) {
        Err(MarkdownError::Invalid(v)) => {
            assert!(!v.is_valid);
            assert!(!v.errors.is_empty());
        }
        other => panic!("expected a validation failure, got {:?}", other),
    }
}

#[test]
fn duplicate_objects_are_invalid() {
    let content = "### Sample\n\n- a\n  - Type: string\n\n### Sample\n\n- b\n  - Type: string\n";
    assert!(matches!(
        parse_markdown(content, FrontMatter::new(), &Vec::new(), &Vec::new()),
        Err(MarkdownError::Invalid(_))
    ));
}

#[test]
fn heading_without_name_is_unreadable() {
    let content = "###\n\n- a\n  - Type: string\n";
    assert!(matches!(
        parse_markdown(content, FrontMatter::new(), &Vec::new(), &Vec::new()),
        Err(MarkdownError::Unreadable)
    ));
}

#[test]
fn type_annotation_after_colon() {
    let content = "### Sample\n\n- count: integer\n";
    let model = parse_markdown(content, FrontMatter::new(), &Vec::new(), &Vec::new()).expect("model should be read");
    assert_eq!(model.objects[0].attributes[0].name, "count");
    assert_eq!(model.objects[0].attributes[0].dtypes, vec!["integer".to_string()]);
}

#[test]
fn inheritance_copies_parent_attributes() {
    let content = "### Base\n\n- id\n  - Type: string\n\n### Child[Base]\n\n- extra\n  - Type: integer\n";
    let model = parse_markdown(content, FrontMatter::new(), &Vec::new(), &Vec::new()).expect("model should be read");
    let child = model.objects.iter().find(|o| o.name == "Child").expect("child object");
    assert_eq!(child.parent, Some("Base".to_string()));
    let names: Vec<&str> = child.attributes.iter().map(|a| a.name.as_str()).collect();
    assert!(names.contains(&"id"));
    assert!(names.contains(&"extra"));
}

#[test]
fn missing_parent_is_refused() {
    let content = "### Child[Nobody]\n\n- extra\n  - Type: integer\n";
    assert!(matches!(
        parse_markdown(content, FrontMatter::new(), &Vec::new(), &Vec::new()),
        Err(MarkdownError::MissingParent)
    ));
}

#[test]
fn content_is_cleaned() {
    assert_eq!(clean_content("<b>bold</b> [label](http://x.org)"), "bold label");
}

#[test]
fn line_offsets() {
    assert_eq!(create_line_offsets("a\nbc\n"), vec![1, 4]);
    assert!(create_line_offsets("abc").is_empty());
}
