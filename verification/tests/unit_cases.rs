use mdmodels::git::{parse_github_file_url, parse_github_repo_spec};
use mdmodels::json::import::extract_reference;
use mdmodels::object::Enumeration;
use mdmodels::pipeline::{GenSpecs, GenTemplate, Meta};
use mdmodels::xmltype::XMLType;

#[test]
fn parse_repo_without_ref() {
    let spec = parse_github_repo_spec("owner/repo").expect("spec should parse");
    assert_eq!(spec.owner, "owner");
    assert_eq!(spec.name, "repo");
    assert_eq!(spec.reference, None);
}

#[test]
fn parse_repo_with_ref() {
    let spec = parse_github_repo_spec("owner/repo@main").expect("spec should parse");
    assert_eq!(spec.owner, "owner");
    assert_eq!(spec.name, "repo");
    assert_eq!(spec.reference.as_deref(), Some("main"));
}

#[test]
fn parse_repo_with_git_plus_url() {
    let spec = parse_github_repo_spec("git+https://github.com/owner/repo.git@v1.2.3")
        .expect("spec should parse");
    assert_eq!(spec.owner, "owner");
    assert_eq!(spec.name, "repo");
    assert_eq!(spec.reference.as_deref(), Some("v1.2.3"));
}

#[test]
fn parse_blob_url() {
    let parsed = parse_github_file_url("https://github.com/a/b/blob/main/models/root.md")
        .expect("url should parse");
    assert_eq!(parsed.0, "a/b@main");
    assert_eq!(parsed.1, "models/root.md");
}

#[test]
fn parse_raw_url() {
    let parsed =
        parse_github_file_url("https://raw.githubusercontent.com/a/b/main/models/root.md")
            .expect("url should parse");
    assert_eq!(parsed.0, "a/b@main");
    assert_eq!(parsed.1, "models/root.md");
}

#[test]
fn test_extract_reference() {
    assert_eq!(
        extract_reference("#/$defs/Test".to_string()),
        Ok("Test".to_string())
    );
    assert_eq!(
        extract_reference("Test".to_string()),
        Ok("Test".to_string())
    );
    assert_eq!(
        extract_reference("".to_string()),
        Err("Invalid reference format".to_string())
    );
}

fn hash(e: &Enumeration) -> u64 {
    e.hash_value()
}

#[test]
fn test_enumeration_hash_different() {
    let mut enum1 = Enumeration::default();
    enum1
        .mappings
        .insert("active".to_string(), "Active".to_string());
    enum1
        .mappings
        .insert("inactive".to_string(), "Inactive".to_string());

    let mut enum2 = Enumeration::default();
    enum2
        .mappings
        .insert("pending".to_string(), "Pending".to_string());
    enum2
        .mappings
        .insert("active".to_string(), "Active".to_string());

    assert_ne!(hash(&enum1), hash(&enum2));
}

#[test]
fn test_enumeration_has_same_hash_identical() {
    let mut enum1 = Enumeration::default();
    enum1
        .mappings
        .insert("active".to_string(), "Active".to_string());
    enum1
        .mappings
        .insert("inactive".to_string(), "Inactive".to_string());

    let mut enum2 = Enumeration::default();
    // Add mappings in different order - should still hash the same
    enum2
        .mappings
        .insert("inactive".to_string(), "Inactive".to_string());
    enum2
        .mappings
        .insert("active".to_string(), "Active".to_string());

    assert!(enum1.same_hash(&enum2));
}

#[test]
fn test_enumeration_has_same_hash_different() {
    let mut enum1 = Enumeration::default();
    enum1
        .mappings
        .insert("active".to_string(), "Active".to_string());
    enum1
        .mappings
        .insert("inactive".to_string(), "Inactive".to_string());

    let mut enum2 = Enumeration::default();
    enum2
        .mappings
        .insert("pending".to_string(), "Pending".to_string());
    enum2
        .mappings
        .insert("active".to_string(), "Active".to_string());

    assert!(!enum1.same_hash(&enum2));
}

#[test]
fn test_prepend_root() {
    let mut gen_template = GenTemplate {
        meta: Meta {
            name: None,
            description: None,
            paths: vec!["model.md".to_string()],
        },
        generate: vec![(
            "json-schema".to_string(),
            GenSpecs {
                description: None,
                out: "schema.json".to_string(),
                root: None,
                per_spec: None,
                config: vec![],
            },
        )],
    };

    let path = "tests/data";
    gen_template.prepend_root(path);

    assert_eq!(gen_template.meta.paths[0], "tests/data/model.md");
    assert_eq!(gen_template.generate[0].0, "json-schema");
    assert_eq!(gen_template.generate[0].1.out, "tests/data/schema.json");
}

#[test]
fn test_xmltype_from_str() {
    let attr = XMLType::Attribute {
        is_attr: true,
        name: "id".to_string(),
    };
    let elem = XMLType::Element {
        is_attr: false,
        name: "name".to_string(),
    };
    assert_eq!(XMLType::from_str("@id").unwrap(), attr);
    assert_eq!(XMLType::from_str("name").unwrap(), elem);
}
