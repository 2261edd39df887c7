use jsonschema::json::Json;
use jsonschema::schema::parser::{Parser, SchemaParseErrorKind};
use jsonschema::schema::uri::Uri;
use jsonschema::schema::{JsonSchema, LogicApplier, PrimitiveType, RootSchema};

#[test]
fn all() {
    let input = Json::from_string(
        r#"
            {
                "items": "items",
                "prefixItems": ["prefix", "items"],
                "contains": "contains"
            }
        "#,
    )
    .unwrap();

    let schema = Parser::parse_json_schema(&input).unwrap();
    println!("{:#?}", schema);
    let roots = schema.schemas();
    assert_eq!(roots.len(), 3);
    assert!(matches!(roots[0], RootSchema::Items(_)));
    assert!(matches!(roots[1], RootSchema::PrefixItems(_)));
    assert!(matches!(roots[2], RootSchema::Contains(_)));
}

#[test]
fn vocabulary() {
    let vocabs = vec![
        (Uri::from_string("some_vocab".to_string()).unwrap(), true),
        (Uri::from_string("some_other_vocab".to_string()).unwrap(), false),
    ];

    let schema = JsonSchema::new(None, Some(vocabs), None, Vec::new(), Vec::new());

    let input = &Json::from_string(
        r#"
            {
                "$vocabulary": {
                    "some_vocab": true,
                    "some_other_vocab": false
                }
            }
            "#,
    )
    .unwrap();
    let result = Parser::parse_json_schema(input).unwrap();
    assert_eq!(result, schema);
}

fn refusal(text: &str) -> SchemaParseErrorKind {
    let input = Json::from_string(text).unwrap();
    Parser::parse_json_schema(&input).unwrap_err().kind
}

#[test]
fn refusals() {
    assert!(matches!(refusal(r#"{"allOf": []}"#), SchemaParseErrorKind::ArrayEmpty));
    assert!(matches!(refusal(r#"{"anyOf": "x"}"#), SchemaParseErrorKind::NotArray));
    assert!(matches!(refusal(r#"{"enum": 1}"#), SchemaParseErrorKind::NotArray));
    assert!(matches!(refusal(r#"{"type": "text"}"#), SchemaParseErrorKind::InvalidType));
    assert!(matches!(refusal(r#"{"type": ["string", 3]}"#), SchemaParseErrorKind::InvalidType));
    assert!(matches!(refusal(r#"{"$id": 3}"#), SchemaParseErrorKind::InvalidType));
    assert!(matches!(refusal(r#"{"$defs": []}"#), SchemaParseErrorKind::NotObject));
    assert!(matches!(refusal(r#"{"$vocabulary": []}"#), SchemaParseErrorKind::IllegalVocabularyType));
    assert!(matches!(refusal(r#"{"$vocabulary": {"v": 1}}"#), SchemaParseErrorKind::VocabularyNotBool));
    assert!(matches!(refusal(r#"{"prefixItems": {}}"#), SchemaParseErrorKind::InvalidType));
}

#[test]
fn compile_keeps_unknowns_and_meta() {
    let input = Json::from_string(
        r#"{"$id": "urn:x", "$defs": {"a": {"type": "null"}}, "format": "date", "not": 1}"#,
    )
    .unwrap();
    let schema = Parser::parse_json_schema(&input).unwrap();
    assert_eq!(schema.id().as_ref().unwrap().value(), "urn:x");
    assert!(!schema.id().as_ref().unwrap().normalized());
    let defs = schema.defs().as_ref().unwrap();
    assert_eq!(defs.len(), 1);
    assert_eq!(defs[0].0, "a");
    assert_eq!(schema.unknowns().len(), 1);
    assert_eq!(schema.unknowns()[0].0, "format");
    assert_eq!(schema.schemas().len(), 1);
    assert!(matches!(schema.schemas()[0], RootSchema::Logic(LogicApplier::Not(_))));
    assert!(schema.vocabulary().is_none());
}

#[test]
fn compile_primitive() {
    let input = Json::from_string("[1, 2]").unwrap();
    let schema = Parser::parse_json_schema(&input).unwrap();
    assert_eq!(schema.schemas().len(), 1);
    match &schema.schemas()[0] {
        RootSchema::Primitive(v) => assert_eq!(*v, input),
        other => panic!("unexpected {:?}", other),
    }
}

#[test]
fn compile_type_list() {
    let input = Json::from_string(r#"{"type": ["integer", "null"]}"#).unwrap();
    let schema = Parser::parse_json_schema(&input).unwrap();
    let expected = jsonschema::schema::Type::new(vec![PrimitiveType::Integer, PrimitiveType::Null]);
    assert_eq!(schema.schemas()[0], RootSchema::Type(expected));
}
