use villain::parser::{NodeType, Parser, ParserError};
use villain::scanner::{Scanner, ScannerError};
use villain::token::{Token, TokenType};

fn scan(input: &str) -> Result<Vec<Token>, ScannerError> {
    let mut scanner = Scanner::new(input.to_string());
    scanner.scan()
}

#[test]
fn test_self_close_equivalence_concrete() {
    let short = scan("<x/>").unwrap();
    let explicit = scan("<x></x>").unwrap();

    assert_eq!(short, explicit);
    assert_eq!(short.len(), 2);
    assert_eq!(short[0].token_type, TokenType::TagOpen);
    assert_eq!(short[0].value.as_ref().unwrap(), "x");
    assert_eq!(short[1].token_type, TokenType::TagClose);
    assert_eq!(short[1].value.as_ref().unwrap(), "x");
}

#[test]
fn test_whitespace_around_names_is_insignificant() {
    let spaced = scan("<a  ></  a  >").unwrap();
    let tight = scan("<a></a>").unwrap();

    assert_eq!(spaced.len(), tight.len());
    for (s, t) in spaced.iter().zip(tight.iter()) {
        assert_eq!(s.token_type, t.token_type);
        assert_eq!(s.value, t.value);
    }
}

#[test]
fn test_splits_text_around_interpolations() {
    let tokens = scan("Hi {{ a }}, {{ b }}!").unwrap();

    assert_eq!(tokens.len(), 5);
    assert_eq!(tokens[0].token_type, TokenType::TextNode);
    assert_eq!(tokens[0].value.as_ref().unwrap(), "Hi ");
    assert_eq!(tokens[1].token_type, TokenType::Interpolation);
    assert_eq!(tokens[1].value.as_ref().unwrap(), "a");
    assert_eq!(tokens[2].token_type, TokenType::TextNode);
    assert_eq!(tokens[2].value.as_ref().unwrap(), ", ");
    assert_eq!(tokens[3].token_type, TokenType::Interpolation);
    assert_eq!(tokens[3].value.as_ref().unwrap(), "b");
    assert_eq!(tokens[4].token_type, TokenType::TextNode);
    assert_eq!(tokens[4].value.as_ref().unwrap(), "!");
}

#[test]
fn test_object_literal_interpolation() {
    let tokens = scan(r#"{{ {"a": 1, b: {}} }}"#).unwrap();

    assert_eq!(tokens.len(), 1);
    assert_eq!(tokens[0].token_type, TokenType::Interpolation);
    assert_eq!(tokens[0].value.as_ref().unwrap(), r#"{"a": 1, b: {}}"#);
}

#[test]
fn test_empty_interpolation_fails() {
    let result = scan("{{ }}");

    assert_eq!(result.unwrap_err(), ScannerError::UnexpectedCharacter('}', 0));
}

#[test]
fn test_lone_closing_pair_before_opener_fails() {
    let result = scan("a }} b {{ c");

    assert_eq!(result.unwrap_err(), ScannerError::UnexpectedCharacter('}', 0));
}

#[test]
fn test_unmatching_closing() {
    let tokens = scan("<a></b>").unwrap();
    let mut parser = Parser::new(tokens);

    let result = parser.parse();
    assert_eq!(
        result.unwrap_err(),
        ParserError::UnmatchingClosing("b".to_string(), "a".to_string())
    );
}

#[test]
fn test_bound_attribute() {
    let tokens = scan(r#"<t :value="x"></t>"#).unwrap();

    assert_eq!(tokens.len(), 5);
    assert_eq!(tokens[1].token_type, TokenType::Colon);
    assert_eq!(tokens[2].token_type, TokenType::Attribute);
    assert_eq!(tokens[2].value.as_ref().unwrap(), "value");
    assert_eq!(tokens[3].token_type, TokenType::AttributeValue);
    assert_eq!(tokens[3].value.as_ref().unwrap(), "x");

    let mut parser = Parser::new(tokens);
    let root = parser.parse().unwrap();
    assert_eq!(root.children.len(), 1);
    let tag = &root.children[0];
    assert_eq!(tag.node_type, NodeType::Tag("t".to_string()));
    assert_eq!(tag.children.len(), 1);
    match &tag.children[0].node_type {
        NodeType::Attribute(name, value, bound) => {
            assert_eq!(name, "value");
            assert_eq!(value.as_ref().unwrap().value.as_ref().unwrap(), "x");
            assert!(*bound);
        }
        other => panic!("expected an attribute, found {other:?}"),
    }
}

#[test]
fn test_eof_position_is_input_length() {
    assert_eq!(scan("<div").unwrap_err(), ScannerError::UnexpectedEof(4));
    assert_eq!(scan("<template").unwrap_err(), ScannerError::UnexpectedEof(9));
}

#[test]
fn test_balanced_counts_on_parsed_input() {
    let tokens = scan("<a><b></b><c/>middle</a>").unwrap();
    let mut parser = Parser::new(tokens.clone());
    parser.parse().unwrap();

    let opens = tokens
        .iter()
        .filter(|t| t.token_type == TokenType::TagOpen)
        .count();
    let closes = tokens
        .iter()
        .filter(|t| t.token_type == TokenType::TagClose)
        .count();
    assert_eq!(opens, 3);
    assert_eq!(closes, 3);
}

#[test]
fn test_parse_eof_on_unclosed_tag_tokens() {
    let tokens = vec![Token::new_with_value(TokenType::TagOpen, 0, "div")];
    let mut parser = Parser::new(tokens);

    assert_eq!(parser.parse().unwrap_err(), ParserError::UnexpectedEof(0));
}

#[test]
fn test_parse_rejects_stray_token_at_top_level() {
    let tokens = vec![Token::new(TokenType::Colon, 0)];
    let mut parser = Parser::new(tokens);

    assert_eq!(
        parser.parse().unwrap_err(),
        ParserError::UnexpectedToken(Token::new(TokenType::Colon, 0))
    );
}

#[test]
fn test_boolean_attribute_has_no_value() {
    let tokens = scan("<input disabled></input>").unwrap();
    let mut parser = Parser::new(tokens);
    let root = parser.parse().unwrap();

    let tag = &root.children[0];
    match &tag.children[0].node_type {
        NodeType::Attribute(name, value, bound) => {
            assert_eq!(name, "disabled");
            assert!(value.is_none());
            assert!(!*bound);
        }
        other => panic!("expected an attribute, found {other:?}"),
    }
}

#[test]
fn test_raw_angle_inside_tag_fails() {
    assert_eq!(
        scan("<a <b>").unwrap_err(),
        ScannerError::UnexpectedCharacter('<', 3)
    );
}
