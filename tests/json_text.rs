use jsonschema::json::lexer::{Literal, Token, TokenizeError};
use jsonschema::json::parser::ParseError;
use jsonschema::json::{Json, Key, KeyPart, Lexer, Parser};

fn parse(text: &str) -> Result<Option<Json>, String> {
    let tokens = Lexer::lex_str(text).map_err(|e| format!("{:?}", e))?;
    Parser::parse_tokens(&tokens).map_err(|e| format!("{:?}", e))
}

fn number(text: &str) -> Json {
    parse(text).unwrap().unwrap()
}

#[test]
fn lex_string_token() {
    let input = "\"Hello\"";
    let tokens = Lexer::lex_str(input).unwrap();
    assert_eq!(tokens.len(), 1);
    match &tokens[0] {
        Token::Literal(Literal::String(span, text)) => {
            assert_eq!(text, "Hello");
            assert_eq!(span.len(), input.len());
            assert_eq!(span.lexeme().unwrap(), input);
        }
        other => panic!("unexpected {:?}", other),
    }
}

#[test]
fn lexemes_rebuild_source() {
    let input = "{\"a\" : [1, -2.5e3, true, false, null],\n \"b\\n\\u00e9\": \"x\"}\r\n";
    let tokens = Lexer::lex_str(input).unwrap();
    let rebuilt: String = tokens.iter().map(|t| t.span().lexeme().unwrap()).collect();
    assert_eq!(rebuilt, input);
    let mut offset = 0;
    for t in &tokens {
        let span = t.span();
        assert!(span.len() > 0);
        offset += span.len();
    }
    assert_eq!(offset, input.chars().count());
}

#[test]
fn lex_lines_and_columns() {
    let tokens = Lexer::lex_str("[\n  1]").unwrap();
    let one = tokens.iter().find(|t| matches!(t, Token::Literal(Literal::Number(..)))).unwrap();
    assert_eq!(one.span().line_offset(), 2);
    assert_eq!(one.span().source(), Some("[\n  1]"));
}

#[test]
fn lex_chars_has_no_source() {
    let tokens = Lexer::lex_chars("[1]".chars()).unwrap();
    assert_eq!(tokens.len(), 3);
    assert_eq!(tokens[1].span().lexeme(), None);
}

#[test]
fn lex_errors() {
    assert!(matches!(Lexer::lex_str("\u{a0}"), Err(TokenizeError::IllegalWhitespace(_))));
    assert!(matches!(Lexer::lex_str("\"abc"), Err(TokenizeError::UnterminatedString(_))));
    assert!(matches!(Lexer::lex_str("\"a\nb\""), Err(TokenizeError::NewlineInString(_))));
    assert!(matches!(Lexer::lex_str("\"\\x\""), Err(TokenizeError::InvalidEscape(_))));
    assert!(matches!(Lexer::lex_str("\"\\u12g4\""), Err(TokenizeError::InvalidEscape(_))));
    assert!(matches!(Lexer::lex_str("nul"), Err(TokenizeError::InvalidLiteral(_))));
    assert!(matches!(Lexer::lex_str("@"), Err(TokenizeError::InvalidLiteral(_))));
    let err = Lexer::lex_str("[ \u{a0}]").unwrap_err();
    assert_eq!(err.span().len(), 1);
}

#[test]
fn parse_numbers() {
    match number("-12.0034e-5") {
        Json::Number { integer, fraction, exponent } => {
            assert_eq!(integer, -12);
            assert_eq!(fraction, (2, 34));
            assert_eq!(exponent, -5);
        }
        other => panic!("unexpected {:?}", other),
    }
    match number("1e23") {
        Json::Number { integer, fraction, exponent } => {
            assert_eq!((integer, fraction, exponent), (1, (0, 0), 23));
        }
        other => panic!("unexpected {:?}", other),
    }
    match number("0") {
        Json::Number { integer, fraction, exponent } => {
            assert_eq!((integer, fraction, exponent), (0, (0, 0), 0));
        }
        other => panic!("unexpected {:?}", other),
    }
    match number("7E+2") {
        Json::Number { integer, exponent, .. } => assert_eq!((integer, exponent), (7, 2)),
        other => panic!("unexpected {:?}", other),
    }
}

#[test]
fn parse_number_errors() {
    assert!(parse("012").unwrap_err().starts_with("IllegalLeadingZero"));
    assert!(parse("1e05").unwrap_err().starts_with("IllegalLeadingZero"));
    assert!(parse("1.2.3").unwrap_err().starts_with("InvalidNumber"));
    assert!(parse("1.").unwrap_err().starts_with("InvalidNumber"));
    assert!(parse("1.-5").unwrap_err().starts_with("InvalidNumber"));
    assert!(parse("-").unwrap_err().starts_with("InvalidNumber"));
    assert!(parse("99999999999999999999").unwrap_err().starts_with("InvalidNumber"));
    assert!(parse("1e5E3").unwrap_err().starts_with("InvalidNumber"));
}

#[test]
fn parse_values() {
    assert_eq!(parse("").unwrap(), None);
    assert_eq!(parse("  ").unwrap(), None);
    assert_eq!(parse(",").unwrap(), None);
    assert_eq!(parse("true").unwrap(), Some(Json::Boolean(true)));
    assert_eq!(parse("null").unwrap(), Some(Json::Null));
    assert_eq!(parse("\"a\\\"b\"").unwrap(), Some(Json::String("a\\\"b".to_string())));
    assert_eq!(parse("[]").unwrap(), Some(Json::Array(vec![])));
    assert_eq!(parse("{}").unwrap(), Some(Json::Object(vec![])));
    assert_eq!(
        parse("{\"a\": 1, \"b\": [true]}").unwrap(),
        parse("{\"b\": [true], \"a\": 1}").unwrap()
    );
    assert_ne!(parse("[1, 2]").unwrap(), parse("[2, 1]").unwrap());
}

#[test]
fn parse_duplicate_key_keeps_last() {
    match parse("{\"a\": 1, \"a\": 2}").unwrap().unwrap() {
        Json::Object(members) => {
            assert_eq!(members.len(), 1);
            assert_eq!(members[0].1, number("2"));
        }
        other => panic!("unexpected {:?}", other),
    }
}

#[test]
fn parse_errors() {
    let kind = |text: &str| parse(text).unwrap_err();
    assert!(kind(":").starts_with("ExtraColon"));
    assert!(kind("}").starts_with("UnopenedObject"));
    assert!(kind("]").starts_with("UnopenedArray"));
    assert!(kind("1 2").starts_with("LeftOverTokens"));
    assert!(kind("[1").starts_with("UnclosedArray"));
    assert!(kind("[1 2]").starts_with("ExtraComma"));
    assert!(kind("[1,,2]").starts_with("IllegalArray"));
    assert!(kind("{\"a\": 1").starts_with("UnclosedObject"));
    assert!(kind("{\"a\" 1}").starts_with("ColonExpected"));
    assert!(kind("{1: 1}").starts_with("InvalidKeyType"));
    assert!(kind("{\"a\": 1 \"b\": 2}").starts_with("IllegalObject"));
    assert!(kind("\"x").starts_with("UnterminatedString"));
    let tokens = Lexer::lex_str("[1 2]").unwrap();
    let err = Parser::parse_tokens(&tokens).unwrap_err();
    assert!(matches!(err, ParseError::ExtraComma(_)));
    assert_eq!(err.span().unwrap().lexeme().unwrap(), "2");
    assert!(ParseError::NoMoreTokens.span().is_none());
}

#[test]
fn to_string_writes_json() {
    let value = parse("{\"a\": [1, -2.05, 3e-4, 1.5E2, \"s\", true, false, null]}").unwrap().unwrap();
    assert_eq!(value.to_string(), "{\"a\":[1,-2.05,3e-4,1.5e2,\"s\",true,false,null]}");
    assert_eq!(number("120").to_string(), "120");
    assert_eq!(number("-9223372036854775807").to_string(), "-9223372036854775807");
    assert!(parse("-9223372036854775808").is_err());
}

#[test]
fn round_trip() {
    for text in [
        "{\"a\": [1, -2.05, 3e-4], \"b\": {\"c\": \"d\\n\"}, \"e\": null}",
        "[true, false, 0, {}, []]",
        "\"x\"",
        "12.5e7",
    ] {
        let value = Json::from_string(text).unwrap();
        let again = Json::from_string(&value.to_string()).unwrap();
        assert_eq!(again, value);
    }
}

#[test]
fn get_follows_path() {
    let value = Json::from_string("{\"features\": [{\"properties\": {\"BLOCK_NUM\": 7}}]}").unwrap();
    let mut key = Key::new(vec![
        KeyPart::Identifier("features".to_string()),
        KeyPart::Index(0),
        KeyPart::Identifier("properties".to_string()),
        KeyPart::Identifier("BLOCK_NUM".to_string()),
    ]);
    assert_eq!(value.get(&mut key), Some(&number("7")));
    let mut missing = Key::new(vec![KeyPart::Identifier("nope".to_string()), KeyPart::Index(0)]);
    assert_eq!(value.get(&mut missing), None);
}

#[test]
fn key_cursor() {
    let mut key = Key::default().push_str("a").push_idx(2);
    assert_eq!(key.len(), 2);
    assert!(!key.is_empty());
    assert_eq!(*key.first_part(), KeyPart::Identifier("a".to_string()));
    assert!(key.descend());
    assert!(key.is_empty());
    assert!(!key.descend());
    assert_eq!(*key.first_part(), KeyPart::Index(2));
    assert!(key.ascend());
    assert_eq!(key.pop(), Some(KeyPart::Index(2)));
    assert_eq!(key.pop(), Some(KeyPart::Identifier("a".to_string())));
    assert_eq!(key.pop(), None);
    assert!(key.copy_of().same_path(&Key::default()));
}

#[test]
fn zero_fraction_round_trips() {
    for (text, written) in [("1.0", "1.0"), ("2.000", "2.000"), ("3.05", "3.05"), ("4", "4")] {
        let value = number(text);
        assert_eq!(value.to_string(), written);
        assert_eq!(Json::from_string(&value.to_string()).unwrap(), value);
    }
}

#[test]
fn lexes_valid_escapes_and_unicode() {
    let input = "[\"\\\\ \\/ \\b \\f \\n \\r \\t \\\" \\u0041 é\", -0.5e+3]";
    let tokens = Lexer::lex_str(input).unwrap();
    assert_eq!(tokens.len(), 6);
    match &tokens[1] {
        Token::Literal(Literal::String(_, text)) => {
            assert_eq!(text, "\\\\ \\/ \\b \\f \\n \\r \\t \\\" \\u0041 é")
        }
        other => panic!("unexpected {:?}", other),
    }
}

#[test]
fn illegal_whitespace_span() {
    let err = Lexer::lex_str(" \u{00A0}").unwrap_err();
    assert!(matches!(err, TokenizeError::IllegalWhitespace(_)));
    assert_eq!(err.span().len(), 1);
    assert_eq!(err.span().line_offset(), 1);
    assert_eq!(err.span().lexeme().unwrap(), "\u{00A0}");
}

#[test]
fn extra_comma_points_at_token() {
    let tokens = Lexer::lex_str("[\"a\" \"b\"]").unwrap();
    let err = Parser::parse_tokens(&tokens).unwrap_err();
    assert!(matches!(err, ParseError::ExtraComma(_)));
    assert_eq!(err.span().unwrap().lexeme().unwrap(), "\"b\"");
    let tokens = Lexer::lex_str("[1] 2").unwrap();
    let err = Parser::parse_tokens(&tokens).unwrap_err();
    assert!(matches!(err, ParseError::LeftOverTokens(_)));
    assert_eq!(err.span().unwrap().lexeme().unwrap(), "2");
}
