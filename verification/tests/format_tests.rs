use mdmodels::exporters::{
    cap_first, clean_and_trim, i64_text, remove_multiple_spaces, replace, replace_lower,
    split_path_pairs, trim, Templates,
};
use mdmodels::git::{parse_github_repo_spec, GithubSpecError};
use mdmodels::json::datatype::DataType as JsonDataType;
use mdmodels::json::import::{enum_mappings, enumeration_from_enum_object, is_valid_key};
use mdmodels::json::schema::{DataType as SchemaDataType, EnumObject};
use mdmodels::option::{OptionKey, RawOption};
use mdmodels::pipeline::{
    generation_step, get_file_name, has_wildcard_fname, internal_schema_allowed,
    json_schema_root, replace_wildcard_fname, GenSpecs, GenerationStep, MergeState,
};

#[test]
fn test_data_type_from_str() {
    let data_type = JsonDataType::from_str("string").unwrap();
    assert_eq!(data_type, JsonDataType::String);
}

#[test]
fn test_data_type_display() {
    let data_type = JsonDataType::String;
    assert_eq!(data_type.to_string(), "string");

    let data_type = JsonDataType::Integer;
    assert_eq!(data_type.to_string(), "integer");

    let data_type = JsonDataType::Number;
    assert_eq!(data_type.to_string(), "number");

    let data_type = JsonDataType::Boolean;
    assert_eq!(data_type.to_string(), "boolean");

    let data_type = JsonDataType::Array;
    assert_eq!(data_type.to_string(), "array");
}

#[test]
fn test_from_str() {
    assert_eq!(SchemaDataType::from_str("string").unwrap(), SchemaDataType::String);
    assert_eq!(SchemaDataType::from_str("number").unwrap(), SchemaDataType::Number);
    assert_eq!(SchemaDataType::from_str("integer").unwrap(), SchemaDataType::Integer);
    assert_eq!(SchemaDataType::from_str("boolean").unwrap(), SchemaDataType::Boolean);
    assert_eq!(SchemaDataType::from_str("object").unwrap(), SchemaDataType::Object);
    assert_eq!(SchemaDataType::from_str("array").unwrap(), SchemaDataType::Array);
}

#[test]
fn test_parse_enum() {
    let enum_obj = EnumObject {
        title: "Test".to_string(),
        dtype: SchemaDataType::String,
        description: None,
        enum_values: vec!["value1".to_string(), "value2".to_string(), "value3".to_string()],
    };
    let enumeration = enumeration_from_enum_object(&enum_obj);

    assert_eq!(enumeration.name, "Test");
    assert_eq!(enumeration.mappings.len(), 3);
    assert_eq!(enumeration.mappings.get("value1").unwrap(), "value1");
    assert_eq!(enumeration.mappings.get("value2").unwrap(), "value2");
    assert_eq!(enumeration.mappings.get("value3").unwrap(), "value3");
}

#[test]
fn test_parse_enum_with_special_characters() {
    let enum_obj = EnumObject {
        title: "Test".to_string(),
        dtype: SchemaDataType::String,
        description: None,
        enum_values: vec![
            "https://www.evidenceontology.org/term/".to_string(),
            "https://amigo.geneontology.org/amigo/term/".to_string(),
            "http://semanticscience.org/resource/".to_string(),
        ],
    };
    let enumeration = enumeration_from_enum_object(&enum_obj);

    assert_eq!(enumeration.name, "Test");
    assert_eq!(enumeration.mappings.len(), 3);
    assert_eq!(
        enumeration.mappings.get("VALUE_0").unwrap(),
        "https://www.evidenceontology.org/term/"
    );
    assert_eq!(
        enumeration.mappings.get("VALUE_1").unwrap(),
        "https://amigo.geneontology.org/amigo/term/"
    );
    assert_eq!(
        enumeration.mappings.get("VALUE_2").unwrap(),
        "http://semanticscience.org/resource/"
    );
}

#[test]
fn test_has_wildcard_fname() {
    assert!(has_wildcard_fname("path/to/*.json"));
}

#[test]
fn test_has_wildcard_fname_no_wildcard() {
    assert!(!has_wildcard_fname("path/to/file.json"));
}

#[test]
fn test_raw_option_case_sensitivity() {
    let raw = RawOption::new("MINIMUM".to_string(), "10.5".to_string());
    assert_eq!(raw.key(), "minimum");
    assert_eq!(raw.value(), "10.5");
}

// Further cases of the library's own.

#[test]
fn option_keys_ignore_case() {
    assert_eq!(OptionKey::from_str("Type"), OptionKey::Type);
    assert_eq!(OptionKey::from_str("TERM"), OptionKey::Term);
    assert_eq!(OptionKey::from_str("multiple"), OptionKey::Multiple);
    assert_eq!(OptionKey::from_str("minimum"), OptionKey::Other);
}

#[test]
fn schema_type_errors_and_float() {
    assert_eq!(SchemaDataType::from_str("float").unwrap(), SchemaDataType::Number);
    assert_eq!(
        SchemaDataType::from_str("text"),
        Err("Invalid data type: text".to_string())
    );
    assert_eq!(
        SchemaDataType::from_attribute_type(&"Person".to_string()),
        SchemaDataType::Object
    );
}

#[test]
fn json_data_type_unknown() {
    assert_eq!(
        JsonDataType::from_str("object"),
        Err("Unknown data type: object".to_string())
    );
    for t in [
        JsonDataType::String,
        JsonDataType::Integer,
        JsonDataType::Number,
        JsonDataType::Boolean,
        JsonDataType::Array,
    ] {
        assert_eq!(JsonDataType::from_str(&t.to_string()).unwrap(), t);
    }
}

#[test]
fn enum_keys() {
    assert!(is_valid_key("value_1"));
    assert!(!is_valid_key("a b"));
    assert!(!is_valid_key(""));
    let m = enum_mappings(&vec!["ok".to_string(), "not ok".to_string()]);
    assert_eq!(m.get("ok"), Some("ok".to_string()));
    assert_eq!(m.get("VALUE_1"), Some("not ok".to_string()));
}

#[test]
fn template_names_round_trip() {
    for name in [
        "python-dataclass",
        "python-pydantic",
        "python-pydantic-xml",
        "xml-schema",
        "markdown",
        "compact-markdown",
        "shacl",
        "json-schema",
        "json-schema-all",
        "shex",
        "mk-docs",
        "internal",
        "typescript",
        "typescript-zod",
        "rust",
        "protobuf",
        "graphql",
        "golang",
        "linkml",
        "julia",
        "mermaid",
    ] {
        let t = Templates::from_str(name).unwrap();
        assert_eq!(t.to_string(), name);
    }
    assert_eq!(
        Templates::from_str("python-sdrdm").unwrap(),
        Templates::PythonPydanticXML
    );
    assert_eq!(
        Templates::from_str("cobol"),
        Err("Invalid template type: cobol".to_string())
    );
}

#[test]
fn text_filters() {
    assert_eq!(replace("a-b-c".to_string(), "-", "+"), "a+b+c");
    assert_eq!(replace("ab".to_string(), "", "_"), "_a_b_");
    assert_eq!(replace_lower("Hello World".to_string(), " ".to_string(), "_".to_string()), "hello_world");
    assert_eq!(trim("__name__", "_"), "name");
    assert_eq!(cap_first("hello".to_string()), "Hello");
    assert_eq!(cap_first("".to_string()), "");
    assert_eq!(remove_multiple_spaces("  a   b\t\nc  "), "a b c");
    assert_eq!(clean_and_trim("a  \n\n\n\n\nb\n"), "a\n\n\nb");
    assert_eq!(i64_text(-42), "-42");
    assert_eq!(i64_text(0), "0");
}

#[test]
fn path_pairs() {
    let pairs = split_path_pairs("a//b/c".to_string(), Some("root".to_string()));
    assert_eq!(
        pairs,
        vec![
            vec!["a".to_string(), "root".to_string()],
            vec!["b".to_string(), "a".to_string()],
            vec!["c".to_string(), "b".to_string()],
        ]
    );
    assert!(split_path_pairs("".to_string(), None).is_empty());
}

#[test]
fn case_conversions() {
    assert_eq!(mdmodels::exporters::pascal_case("my_name".to_string()), "MyName");
    assert_eq!(mdmodels::exporters::pascal_case("my_name_".to_string()), "MyName_");
    assert_eq!(mdmodels::exporters::camel_case("my_name".to_string()), "myName");
    assert_eq!(mdmodels::exporters::snake_case("MyName".to_string()), "my_name");
}

#[test]
fn wildcard_paths() {
    assert_eq!(get_file_name("models/person.model.md"), "person");
    assert_eq!(replace_wildcard_fname("out/*.py", "person"), "out/person.py");
    assert_eq!(replace_wildcard_fname("*.py", "person"), "person.py");
}

fn specs(out: &str, per_spec: Option<bool>, config: Vec<(String, String)>) -> GenSpecs {
    GenSpecs {
        description: None,
        out: out.to_string(),
        root: None,
        per_spec,
        config,
    }
}

#[test]
fn generation_steps() {
    let step = generation_step("mk-docs", &specs("docs.md", None, vec![])).unwrap();
    match step {
        GenerationStep::ByTemplate { template, merge, config, .. } => {
            assert_eq!(template, Templates::MkDocs);
            assert_eq!(merge, MergeState::Merge);
            assert_eq!(config, vec![("nav".to_string(), "false".to_string())]);
        }
        _ => panic!("expected a rendering through a template"),
    }
    let err = generation_step("rust", &specs("lib.rs", Some(true), vec![])).unwrap_err();
    assert!(err.contains("Output file name must contain a wildcard."));
    assert!(generation_step("rust", &specs("out/*.rs", Some(true), vec![])).is_ok());
    assert_eq!(
        generation_step("nothing", &specs("x", None, vec![])).unwrap_err(),
        "Invalid template type: nothing"
    );
    match generation_step("json-schema", &specs("s.json", None, vec![])).unwrap() {
        GenerationStep::JsonSchema { root, out, merge } => {
            assert_eq!(root, None);
            assert_eq!(out, "s.json");
            assert_eq!(merge, MergeState::Merge);
        }
        _ => panic!("expected a JSON schema"),
    }
}

#[test]
fn schema_roots() {
    assert_eq!(
        json_schema_root(&None, MergeState::Merge),
        Err("Root object has to be specified".to_string())
    );
    assert_eq!(
        json_schema_root(&Some("Person".to_string()), MergeState::Merge),
        Ok("Person".to_string())
    );
    assert!(json_schema_root(&Some("Person".to_string()), MergeState::NoMerge).is_err());
    assert!(internal_schema_allowed(MergeState::Merge).is_ok());
    assert!(internal_schema_allowed(MergeState::NoMerge).is_err());
}

#[test]
fn repo_spec_errors() {
    assert!(matches!(parse_github_repo_spec("owner"), Err(GithubSpecError::MissingName)));
    assert!(matches!(parse_github_repo_spec("owner/"), Err(GithubSpecError::InvalidForm)));
    assert!(matches!(parse_github_repo_spec("a/b/c"), Err(GithubSpecError::InvalidForm)));
    assert_eq!(
        GithubSpecError::InvalidForm.message(),
        "Expected GitHub repo in the form owner/repo[@ref]"
    );
}
