use jsonschema::json::{Json, Key};
use jsonschema::schema::{
    Annotation, Enum, Items, JsonSchema, LogicApplier, PrefixItems, PrimitiveType, Property,
    RootSchema, Type,
};

fn text(s: &str) -> Json {
    Json::String(s.to_string())
}

fn string_type() -> JsonSchema {
    JsonSchema::with_root_schemas(vec![RootSchema::Type(Type::new(vec![PrimitiveType::String]))])
}

#[test]
fn prefix_items() {
    let items = &Json::from_string(r#"["hello", "there", "general"]"#).unwrap();

    let hello = text("hello");
    let there = text("there");
    let general = text("general");

    let prefix_items = PrefixItems::new(vec![
        JsonSchema::from_primitive(&hello),
        JsonSchema::from_primitive(&there),
        JsonSchema::from_primitive(&general),
    ]);

    let annotations = &mut Vec::new();
    let key = Key::default();

    let result = prefix_items.validate_json(key, items, annotations);
    assert!(result);
    assert_eq!(*annotations, vec![Annotation::PrefixItemsLen(Key::default(), 3)]);
}

#[test]
fn items() {
    let input = &Json::from_string(r#"["hello"]"#).unwrap();

    let hello_text = text("hello");

    let items = Items::new(JsonSchema::from_primitive(&hello_text));

    let annotations = &mut Vec::new();
    let key = Key::default();

    let result = items.validate_json(key, input, annotations);

    assert!(result);
    assert!(annotations.is_empty());
}

#[test]
fn test() {
    let a = text("a");
    let b = text("b");
    let enum_vals = Enum::new(vec![a, b]);

    let correct_value = text("a");

    let key = Key::default();
    let annotations = &mut Vec::new();

    assert!(enum_vals.validate_json(key.copy_of(), &correct_value, annotations));

    let incorrect_value = text("c");
    assert!(!enum_vals.validate_json(key, &incorrect_value, annotations));
}

fn logic_outcome(kind: fn(Vec<JsonSchema>) -> LogicApplier, schemas: Vec<&Json>) -> bool {
    let input = text("Test");
    let applier = kind(schemas.into_iter().map(JsonSchema::from_primitive).collect());
    let errors = &mut Vec::new();
    applier.validate_json(Key::default(), &input, errors)
}

#[test]
fn all_of() {
    let me = text("Test");
    let not_me = text("Not present");
    assert!(logic_outcome(LogicApplier::AllOf, vec![&me]));
    assert!(!logic_outcome(LogicApplier::AllOf, vec![&me, &not_me]));
    assert!(logic_outcome(LogicApplier::AllOf, vec![&me, &me]));
    assert!(!logic_outcome(LogicApplier::AllOf, vec![&not_me]));
}

#[test]
fn any_of() {
    let me = text("Test");
    let not_me = text("Not present");
    assert!(logic_outcome(LogicApplier::AnyOf, vec![&me]));
    assert!(logic_outcome(LogicApplier::AnyOf, vec![&me, &not_me]));
    assert!(logic_outcome(LogicApplier::AnyOf, vec![&me, &me]));
    assert!(!logic_outcome(LogicApplier::AnyOf, vec![&not_me]));
}

#[test]
fn one_of() {
    let me = text("Test");
    let not_me = text("Not present");
    assert!(logic_outcome(LogicApplier::OneOf, vec![&me]));
    assert!(logic_outcome(LogicApplier::OneOf, vec![&me, &not_me]));
    assert!(!logic_outcome(LogicApplier::OneOf, vec![&me, &me]));
    assert!(!logic_outcome(LogicApplier::OneOf, vec![&not_me]));
}

#[test]
fn not() {
    let input = text("Test");
    let not_present = text("Not present");

    let me = JsonSchema::from_primitive(&input);
    let not_me = JsonSchema::from_primitive(&not_present);

    let applier = LogicApplier::Not(me);
    let errors = &mut Vec::new();
    assert!(!applier.validate_json(Key::default(), &input, errors));

    let applier = LogicApplier::Not(not_me);
    let errors = &mut Vec::new();
    assert!(applier.validate_json(Key::default(), &input, errors));
}

fn check_property(input: &Json, name: &str, required: bool, success: bool, empty: bool) {
    let schema = Property::new(name, vec![string_type()], required);
    let annotations = &mut Vec::new();
    let key = Key::default();
    let result = schema.validate_json(key, input, annotations);
    assert_eq!(result, success);
    assert_eq!(annotations.is_empty(), empty);
}

#[test]
fn object_required() {
    let input = &Json::from_string(r#"{"x": "value"}"#).unwrap();
    check_property(input, "x", false, true, true);
    check_property(input, "x", true, true, true);
    check_property(input, "y", false, true, false);
    check_property(input, "y", true, false, false);
}

#[test]
fn object_incorrect_type() {
    let input = &Json::from_string(r#"["x", "value"]"#).unwrap();
    let schema = Property::new("x", vec![string_type()], false);
    let annotations = &mut Vec::new();
    let key = Key::default();
    let result = schema.validate_json(key, input, annotations);
    assert!(!result);
    assert!(!annotations.is_empty());
}

#[test]
fn property_required() {
    let input = &Json::from_string(r#"{"x": "value"}"#).unwrap();
    let mut schema = Property::new("x", vec![string_type()], false);
    for (name, required, success, empty) in
        [("x", false, true, true), ("x", true, true, true), ("y", false, true, false), ("y", true, false, false)]
    {
        if name == "x" {
            schema.set_required(required);
            let annotations = &mut Vec::new();
            let result = schema.validate_json(Key::default(), input, annotations);
            assert_eq!(result, success);
            assert_eq!(annotations.is_empty(), empty);
        } else {
            check_property(input, name, required, success, empty);
        }
    }
}

#[test]
fn property_incorrect_type() {
    let input = &Json::from_string(r#"["x", "value"]"#).unwrap();
    let schema = Property::new("x", vec![string_type()], false);
    let annotations = &mut Vec::new();
    let key = Key::default();
    let result = schema.validate_json(key, input, annotations);
    assert!(!result);
    assert!(!annotations.is_empty());
}

#[test]
fn big_test() {
    let input = r#"{"first_key": "value", "second_key": {"first_nested_key": 1e23, "second_nested_key": "123"}}"#;
    let tokens = &mut Vec::new();
    jsonschema::json::Lexer::new(Some(input)).lex_into(input.chars(), tokens).unwrap();

    let input = jsonschema::json::Parser::parse_tokens(tokens).unwrap().unwrap();

    let number_type =
        JsonSchema::with_root_schemas(vec![RootSchema::Type(Type::new(vec![PrimitiveType::Number]))]);

    let second_level = JsonSchema::with_root_schemas(vec![RootSchema::Properties(vec![
        Property::new("first_nested_key", vec![number_type], false),
        Property::new("second_nested_key", vec![string_type()], false),
    ])]);

    let first_level = RootSchema::Properties(vec![
        Property::new("first_key", vec![string_type()], false),
        Property::new("second_key", vec![second_level], false),
    ]);

    let first_level = JsonSchema::with_root_schemas(vec![first_level]);

    let annotations = &mut Vec::new();
    let validation = first_level.validate_json(Key::default(), &input, annotations);

    assert!(annotations.is_empty(), "{:?}", validation);
}
