use mdmodels::avro::{AvroSchema, Order, RecordField, SchemaType, TypeFields};

#[test]
fn test_avro_primitive() {
    let s = AvroSchema::primitive(SchemaType::Long);
    assert_eq!(s.schema_type, SchemaType::Long);
    assert!(s.name.is_none() && s.namespace.is_none() && s.doc.is_none() && s.aliases.is_none());
    assert!(matches!(s.type_fields, TypeFields::Primitive));
}

#[test]
fn test_avro_record() {
    let field = RecordField {
        name: "id".to_string(),
        doc: None,
        schema: Box::new(AvroSchema::primitive(SchemaType::Int)),
        default: None,
        order: Some(Order::Ascending),
        aliases: None,
    };
    let s = AvroSchema::record("Item".to_string(), vec![field]);
    assert_eq!(s.schema_type, SchemaType::Record);
    assert_eq!(s.name, Some("Item".to_string()));
    match &s.type_fields {
        TypeFields::Record { fields } => {
            assert_eq!(fields.len(), 1);
            assert_eq!(fields[0].name, "id");
            assert_eq!(fields[0].schema.schema_type, SchemaType::Int);
        }
        _ => panic!("a record holds fields"),
    }
}
