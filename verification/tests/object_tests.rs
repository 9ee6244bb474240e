use mdmodels::attribute::Attribute;
use mdmodels::object::{Enumeration, Mappings, Object};

fn hash_object(o: &Object) -> u64 {
    o.hash_value()
}

fn hash_enum(e: &Enumeration) -> u64 {
    e.hash_value()
}

fn two_objects(second: &str) -> (Object, Object) {
    let mut object1 = Object::new("Person".to_string(), None);
    object1.create_new_attribute("name".to_string(), false);
    object1.create_new_attribute("age".to_string(), false);

    let mut object2 = Object::new("Person".to_string(), None);
    if second == "age" {
        object2.create_new_attribute("age".to_string(), false);
        object2.create_new_attribute("name".to_string(), false);
    } else {
        object2.create_new_attribute("name".to_string(), false);
        object2.create_new_attribute(second.to_string(), false);
    }
    (object1, object2)
}

#[test]
fn test_create_new_object() {
    let object = Object::new("Person".to_string(), None);
    assert_eq!(object.name, "Person");
    assert_eq!(object.attributes.len(), 0);
    assert_eq!(object.docstring, "");
    assert_eq!(object.term, None);
}

#[test]
fn test_add_attribute() {
    let mut object = Object::new("Person".to_string(), None);
    let attribute = Attribute::new("name".to_string(), false);
    object.add_attribute(attribute);
    assert_eq!(object.attributes.len(), 1);
    assert_eq!(object.attributes[0].name, "name");
}

#[test]
fn test_set_docstring() {
    let mut object = Object::new("Person".to_string(), None);
    object.set_docstring("This is a person object".to_string());
    assert_eq!(object.docstring, "This is a person object");
}

#[test]
fn test_get_last_attribute() {
    let mut object = Object::new("Person".to_string(), None);
    let attribute = Attribute::new("name".to_string(), false);
    object.add_attribute(attribute);
    let last_attribute = object.get_last_attribute();
    assert_eq!(last_attribute.unwrap().name, "name");
}

#[test]
fn test_create_new_attribute() {
    let mut object = Object::new("Person".to_string(), None);
    object.create_new_attribute("name".to_string(), false);
    assert_eq!(object.attributes.len(), 1);
    assert_eq!(object.attributes[0].name, "name");
}

#[test]
fn test_object_hash_identical() {
    let (object1, object2) = two_objects("age");
    assert_eq!(hash_object(&object1), hash_object(&object2));
}

#[test]
fn test_object_hash_different() {
    let (object1, object2) = two_objects("email");
    assert_ne!(hash_object(&object1), hash_object(&object2));
}

fn enum_pair(different: bool) -> (Enumeration, Enumeration) {
    let mut enum1 = Enumeration::default();
    enum1.mappings.insert("active".to_string(), "Active".to_string());
    enum1.mappings.insert("inactive".to_string(), "Inactive".to_string());

    let mut enum2 = Enumeration::default();
    if different {
        enum2.mappings.insert("pending".to_string(), "Pending".to_string());
    } else {
        enum2.mappings.insert("inactive".to_string(), "Inactive".to_string());
    }
    enum2.mappings.insert("active".to_string(), "Active".to_string());
    (enum1, enum2)
}

#[test]
fn test_enumeration_hash_identical() {
    let (enum1, enum2) = enum_pair(false);
    assert_eq!(hash_enum(&enum1), hash_enum(&enum2));
}

#[test]
fn test_object_hash_reference_identical() {
    let (object1, object2) = two_objects("age");
    let ref1: &Object = &object1;
    let ref2: &Object = &object2;
    assert_eq!(hash_object(ref1), hash_object(ref2));
    assert_eq!(hash_object(&object1), hash_object(ref1));
}

#[test]
fn test_object_hash_reference_different() {
    let (object1, object2) = two_objects("email");
    let ref1: &Object = &object1;
    let ref2: &Object = &object2;
    assert_ne!(hash_object(ref1), hash_object(ref2));
    assert_eq!(hash_object(&object1), hash_object(ref1));
}

#[test]
fn test_enumeration_hash_reference_identical() {
    let (enum1, enum2) = enum_pair(false);
    let ref1: &Enumeration = &enum1;
    let ref2: &Enumeration = &enum2;
    assert_eq!(hash_enum(ref1), hash_enum(ref2));
    assert_eq!(hash_enum(&enum1), hash_enum(ref1));
}

#[test]
fn test_enumeration_hash_reference_different() {
    let (enum1, enum2) = enum_pair(true);
    let ref1: &Enumeration = &enum1;
    let ref2: &Enumeration = &enum2;
    assert_ne!(hash_enum(ref1), hash_enum(ref2));
    assert_eq!(hash_enum(&enum1), hash_enum(ref1));
}

#[test]
fn test_object_has_same_hash_identical() {
    let (object1, object2) = two_objects("age");
    assert!(object1.same_hash(&object2));
}

#[test]
fn test_object_has_same_hash_different() {
    let (object1, object2) = two_objects("email");
    assert!(!object1.same_hash(&object2));
}

// Further cases of the library's own.

#[test]
fn mappings_keep_keys_sorted_and_replace_values() {
    let mut m = Mappings::new();
    assert_eq!(m.insert("b".to_string(), "B".to_string()), None);
    assert_eq!(m.insert("a".to_string(), "A".to_string()), None);
    assert_eq!(m.insert("b".to_string(), "BB".to_string()), Some("B".to_string()));
    assert_eq!(m.keys(), vec!["a".to_string(), "b".to_string()]);
    assert_eq!(m.get("b"), Some("BB".to_string()));
    assert_eq!(m.get("c"), None);
    assert_eq!(m.len(), 2);
}

#[test]
fn object_hash_ignores_attribute_details() {
    let mut object1 = Object::new("A".to_string(), None);
    object1.create_new_attribute("x".to_string(), true);
    let mut object2 = Object::new("B".to_string(), Some("schema:B".to_string()));
    object2.create_new_attribute("x".to_string(), false);
    assert!(object1.same_hash(&object2));
}

#[test]
fn empty_get_last_attribute() {
    let mut object = Object::new("Person".to_string(), None);
    assert!(object.get_last_attribute().is_none());
    assert!(!object.has_attributes());
}

#[test]
fn object_terms() {
    let mut object = Object::new("Person".to_string(), None);
    object.create_new_attribute("name".to_string(), false);
    assert!(!object.has_any_terms());
    object.get_last_attribute().unwrap().term = Some("schema:name".to_string());
    assert!(object.has_any_terms());
}

#[test]
fn sort_attributes_by_required_is_stable() {
    let mut object = Object::new("Person".to_string(), None);
    object.create_new_attribute("a".to_string(), false);
    object.create_new_attribute("b".to_string(), true);
    object.create_new_attribute("c".to_string(), false);
    object.create_new_attribute("d".to_string(), true);
    object.sort_attrs_by_required();
    let names: Vec<String> = object.attributes.iter().map(|a| a.name.clone()).collect();
    assert_eq!(names, vec!["b", "d", "a", "c"]);
}

#[test]
fn enumeration_has_values() {
    let (enum1, _) = enum_pair(false);
    assert!(enum1.has_values());
    assert!(!Enumeration::default().has_values());
}
