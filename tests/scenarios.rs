use jsonschema::json::{Json, Key, KeyPart};
use jsonschema::schema::parser::Parser;
use jsonschema::schema::{
    Annotation, ArrayErrorKind, JsonSchema, LogicErrorKind, PrimitiveType, Property,
    PropertyErrorKind, RootSchema, Type, ValidationResult,
};

fn run(schema: &str, instance: &str) -> ValidationResult {
    let schema_json = Json::from_string(schema).unwrap();
    let compiled = Parser::parse_json_schema(&schema_json).unwrap();
    let instance = Json::from_string(instance).unwrap();
    compiled.validate(&instance)
}

fn count(result: &ValidationResult, pred: impl Fn(&Annotation) -> bool) -> usize {
    result.annotations().iter().filter(|a| pred(a)).count()
}

#[test]
fn string_type_accepts_string() {
    let r = run(r#"{"type":"string"}"#, r#""hello""#);
    assert!(r.success());
    assert!(r.annotations().is_empty());
}

#[test]
fn integer_type_refuses_fraction() {
    let r = run(r#"{"type":"integer"}"#, "1.5");
    assert!(!r.success());
    assert_eq!(r.annotations().len(), 1);
    match &r.annotations()[0] {
        Annotation::TypeError(e) => assert_eq!(e.actual, PrimitiveType::Number),
        other => panic!("unexpected {:?}", other),
    }
    assert!(run(r#"{"type":"integer"}"#, "2").success());
    assert!(run(r#"{"type":"integer"}"#, "2.0").success());
    assert!(run(r#"{"type":"number"}"#, "1.5").success());
    assert!(run(r#"{"type":["null","string"]}"#, "null").success());
}

#[test]
fn items_after_prefix_items() {
    let r = run(r#"{"prefixItems":["a","b"],"items":"c"}"#, r#"["a","b","c","c"]"#);
    assert!(r.success());
    assert_eq!(count(&r, |a| matches!(a, Annotation::PrefixItemsLen(k, 2) if k.len() == 0)), 1);
    assert_eq!(count(&r, |a| a.is_error()), 0);
}

#[test]
fn prefix_item_missing() {
    let r = run(r#"{"prefixItems":["a","b"]}"#, r#"["a"]"#);
    assert!(!r.success());
    let at_one = Key::new(vec![KeyPart::Index(1)]);
    assert_eq!(
        count(&r, |a| matches!(a, Annotation::ItemsError(e)
            if e.kind == ArrayErrorKind::PrefixItemMissing && e.key.same_path(&at_one))),
        1
    );
    assert_eq!(count(&r, |a| matches!(a, Annotation::PrefixItemsLen(k, 2) if k.len() == 0)), 1);
}

#[test]
fn all_of_with_failing_member() {
    let r = run(r#"{"allOf":["x","y"]}"#, r#""x""#);
    assert!(!r.success());
    assert_eq!(count(&r, |a| matches!(a, Annotation::Unequal { .. })), 1);
    assert_eq!(
        count(&r, |a| matches!(a, Annotation::LogicError(e) if e.kind == LogicErrorKind::AllOfMissing)),
        1
    );
    assert_eq!(r.annotations().len(), 2);
}

#[test]
fn one_of_with_two_matches() {
    let r = run(r#"{"oneOf":["x","x"]}"#, r#""x""#);
    assert!(!r.success());
    assert_eq!(
        count(&r, |a| matches!(a, Annotation::LogicError(e) if e.kind == LogicErrorKind::OneOfMoreThanOne)),
        1
    );
    let none = run(r#"{"oneOf":["y","z"]}"#, r#""x""#);
    assert_eq!(
        count(&none, |a| matches!(a, Annotation::LogicError(e) if e.kind == LogicErrorKind::OneOfMissing)),
        1
    );
    let any = run(r#"{"anyOf":["y","z"]}"#, r#""x""#);
    assert_eq!(
        count(&any, |a| matches!(a, Annotation::LogicError(e) if e.kind == LogicErrorKind::AnyOfMissing)),
        1
    );
    let not = run(r#"{"not":"x"}"#, r#""x""#);
    assert!(!not.success());
    assert_eq!(count(&not, |a| matches!(a, Annotation::LogicError(e) if e.kind == LogicErrorKind::NotIs)), 1);
}

#[test]
fn optional_missing_property() {
    let schema = JsonSchema::with_root_schemas(vec![RootSchema::Properties(vec![Property::new(
        "x",
        vec![JsonSchema::with_root_schemas(vec![RootSchema::Type(Type::new(vec![PrimitiveType::Null]))])],
        false,
    )])]);
    let r = schema.validate(&Json::from_string("{}").unwrap());
    assert!(r.success());
    assert_eq!(r.annotations().len(), 1);
    match &r.annotations()[0] {
        Annotation::PropertyError(e) => {
            assert_eq!(e.kind, PropertyErrorKind::Missing);
            assert_eq!(e.name, "x");
        }
        other => panic!("unexpected {:?}", other),
    }
}

#[test]
fn property_invalid_keeps_inner_annotations() {
    let schema = JsonSchema::with_root_schemas(vec![RootSchema::Properties(vec![Property::new(
        "x",
        vec![JsonSchema::with_root_schemas(vec![RootSchema::Type(Type::new(vec![PrimitiveType::Null]))])],
        true,
    )])]);
    let r = schema.validate(&Json::from_string("{\"x\": 1}").unwrap());
    assert!(!r.success());
    assert_eq!(r.annotations().len(), 2);
    assert!(matches!(r.annotations()[0], Annotation::TypeError(_)));
    match &r.annotations()[1] {
        Annotation::PropertyError(e) => {
            assert_eq!(e.kind, PropertyErrorKind::Invalid);
            assert!(e.key.same_path(&Key::default().push_str("x")));
        }
        other => panic!("unexpected {:?}", other),
    }
}

#[test]
fn validation_is_repeatable() {
    let a = run(r#"{"prefixItems":[{"type":"string"}],"contains":1}"#, r#"["a", 2, 1]"#);
    let b = run(r#"{"prefixItems":[{"type":"string"}],"contains":1}"#, r#"["a", 2, 1]"#);
    assert_eq!(a.success(), b.success());
    assert_eq!(a.annotations(), b.annotations());
    assert!(a.success());
}

#[test]
fn contains_and_enum() {
    assert!(!run(r#"{"contains":1}"#, "[2, 3]").success());
    assert!(!run(r#"{"contains":1}"#, "[]").success());
    let r = run(r#"{"contains":1}"#, "{}");
    assert!(matches!(&r.annotations()[0], Annotation::ItemsError(e) if e.kind == ArrayErrorKind::NotArray));
    assert!(run(r#"{"enum":[1, {"a": [true]}]}"#, r#"{"a": [true]}"#).success());
    assert!(!run(r#"{"enum":[1, 2]}"#, "3").success());
    assert!(!run(r#"{"items":1}"#, "3").success());
    assert!(!run(r#"{"prefixItems":[1]}"#, "3").success());
}

#[test]
fn ref_delegates() {
    let target = RootSchema::Type(Type::new(vec![PrimitiveType::Boolean]));
    let schema = JsonSchema::with_root_schemas(vec![RootSchema::Ref(Box::new(target))]);
    assert!(schema.validate(&Json::Boolean(true)).success());
    assert!(!schema.validate(&Json::Null).success());
}
