use villain::scanner::{Scanner, ScannerError};
use villain::token::{Token, TokenType};

fn scan(input: &str) -> Result<Vec<Token>, ScannerError> {
    let mut scanner = Scanner::new(input.to_string());
    scanner.scan()
}

#[test]
fn test_gracefully_handles_unclosed_tag() {
    let scan = scan("<template");

    assert!(scan.is_err());
    assert_eq!(scan.unwrap_err(), ScannerError::UnexpectedEof(9));
}

#[test]
fn test_gracefully_handles_tag_in_unclosed_tag() {
    let scan = scan("<template<");

    assert!(scan.is_err());
    assert_eq!(scan.unwrap_err(), ScannerError::UnexpectedCharacter('<', 9));
}

#[test]
fn test_scans_short_tag() {
    let tokens = scan("<template />").unwrap();
    assert_eq!(tokens.len(), 2);
    assert_eq!(tokens[0].token_type, TokenType::TagOpen);
    assert_eq!(tokens[0].value.as_ref().unwrap(), "template");
    assert_eq!(tokens[1].token_type, TokenType::TagClose);
    assert_eq!(tokens[1].value.as_ref().unwrap(), "template");
}

#[test]
fn test_scans_short_tag_with_attribute() {
    let tokens = scan(r#"<template v-model="test" />"#).unwrap();
    assert_eq!(tokens.len(), 4);
    assert_eq!(tokens[0].token_type, TokenType::TagOpen);
    assert_eq!(tokens[0].value.as_ref().unwrap(), "template");
    assert_eq!(tokens[1].token_type, TokenType::Attribute);
    assert_eq!(tokens[1].value.as_ref().unwrap(), "v-model");
    assert_eq!(tokens[2].token_type, TokenType::AttributeValue);
    assert_eq!(tokens[2].value.as_ref().unwrap(), "test");
    assert_eq!(tokens[3].token_type, TokenType::TagClose);
    assert_eq!(tokens[3].value.as_ref().unwrap(), "template");
}

#[test]
fn test_scans_empty_tag() {
    let tokens = scan("<template></template>").unwrap();
    assert_eq!(tokens.len(), 2);
    assert_eq!(tokens[0].token_type, TokenType::TagOpen);
    assert_eq!(tokens[0].value.as_ref().unwrap(), "template");
    assert_eq!(tokens[1].token_type, TokenType::TagClose);
    assert_eq!(tokens[1].value.as_ref().unwrap(), "template");
}

#[test]
fn test_scans_tag_with_text() {
    let tokens = scan("<template>Hello</template>").unwrap();
    assert_eq!(tokens.len(), 3);
    assert_eq!(tokens[0].token_type, TokenType::TagOpen);
    assert_eq!(tokens[0].value.as_ref().unwrap(), "template");
    assert_eq!(tokens[1].token_type, TokenType::TextNode);
    assert_eq!(tokens[1].value.as_ref().unwrap(), "Hello");
    assert_eq!(tokens[2].token_type, TokenType::TagClose);
    assert_eq!(tokens[2].value.as_ref().unwrap(), "template");
}

#[test]
fn test_scans_empty_tag_with_spaces() {
    let tokens = scan("<template  ></  template  >").unwrap();
    assert_eq!(tokens.len(), 2);
    assert_eq!(tokens[0].token_type, TokenType::TagOpen);
    assert_eq!(tokens[0].value.as_ref().unwrap(), "template");
    assert_eq!(tokens[1].token_type, TokenType::TagClose);
    assert_eq!(tokens[1].value.as_ref().unwrap(), "template");
}

#[test]
fn test_scans_nested_tag() {
    let tokens = scan("<span><div></div></span>").unwrap();
    assert_eq!(tokens.len(), 4);
    assert_eq!(tokens[0].token_type, TokenType::TagOpen);
    assert_eq!(tokens[0].value.as_ref().unwrap(), "span");
    assert_eq!(tokens[1].token_type, TokenType::TagOpen);
    assert_eq!(tokens[1].value.as_ref().unwrap(), "div");
    assert_eq!(tokens[2].token_type, TokenType::TagClose);
    assert_eq!(tokens[2].value.as_ref().unwrap(), "div");
    assert_eq!(tokens[3].token_type, TokenType::TagClose);
    assert_eq!(tokens[3].value.as_ref().unwrap(), "span");
}

#[test]
fn test_scans_tag_with_attributes() {
    let tokens = scan(r#"<template attr attr2="100"></template>"#).unwrap();
    assert_eq!(tokens.len(), 5);
    assert_eq!(tokens[0].token_type, TokenType::TagOpen);
    assert_eq!(tokens[0].value.as_ref().unwrap(), "template");
    assert_eq!(tokens[1].token_type, TokenType::Attribute);
    assert_eq!(tokens[1].value.as_ref().unwrap(), "attr");
    assert_eq!(tokens[2].token_type, TokenType::Attribute);
    assert_eq!(tokens[2].value.as_ref().unwrap(), "attr2");
    assert_eq!(tokens[3].token_type, TokenType::AttributeValue);
    assert_eq!(tokens[3].value.as_ref().unwrap(), "100");
    assert_eq!(tokens[4].token_type, TokenType::TagClose);
    assert_eq!(tokens[4].value.as_ref().unwrap(), "template");
}

#[test]
fn test_scans_tag_with_vattributes() {
    let tokens = scan(r#"<template attr :attr2="100"></template>"#).unwrap();
    assert_eq!(tokens.len(), 6);
    assert_eq!(tokens[0].token_type, TokenType::TagOpen);
    assert_eq!(tokens[0].value.as_ref().unwrap(), "template");
    assert_eq!(tokens[1].token_type, TokenType::Attribute);
    assert_eq!(tokens[1].value.as_ref().unwrap(), "attr");
    assert_eq!(tokens[2].token_type, TokenType::Colon);
    assert_eq!(tokens[3].token_type, TokenType::Attribute);
    assert_eq!(tokens[3].value.as_ref().unwrap(), "attr2");
    assert_eq!(tokens[4].token_type, TokenType::AttributeValue);
    assert_eq!(tokens[4].value.as_ref().unwrap(), "100");
    assert_eq!(tokens[5].token_type, TokenType::TagClose);
    assert_eq!(tokens[5].value.as_ref().unwrap(), "template");
}

#[test]
fn test_scans_tag_with_text_with_interpolation() {
    let tokens = scan(r#"<div>Hello {{ username }} </div>"#).unwrap();
    assert_eq!(tokens.len(), 4);
    assert_eq!(tokens[0].token_type, TokenType::TagOpen);
    assert_eq!(tokens[0].value.as_ref().unwrap(), "div");
    assert_eq!(tokens[1].token_type, TokenType::TextNode);
    assert_eq!(tokens[1].value.as_ref().unwrap(), "Hello ");
    assert_eq!(tokens[2].token_type, TokenType::Interpolation);
    assert_eq!(tokens[2].value.as_ref().unwrap(), "username");
    assert_eq!(tokens[3].token_type, TokenType::TagClose);
    assert_eq!(tokens[3].value.as_ref().unwrap(), "div");
}

#[test]
fn test_scans_tag_with_interpolation() {
    let tokens = scan(r#"<h1>{{ username }}</h1>"#).unwrap();
    assert_eq!(tokens.len(), 3);
    assert_eq!(tokens[0].token_type, TokenType::TagOpen);
    assert_eq!(tokens[0].value.as_ref().unwrap(), "h1");
    assert_eq!(tokens[1].token_type, TokenType::Interpolation);
    assert_eq!(tokens[1].value.as_ref().unwrap(), "username");
    assert_eq!(tokens[2].token_type, TokenType::TagClose);
    assert_eq!(tokens[2].value.as_ref().unwrap(), "h1");
}

#[test]
fn test_scans_tag_with_complex_interpolation() {
    let tokens = scan(r#"<h1>Hi {{ username.first }}, {{ username.last }}! How are you?</h1>"#)
        .unwrap();

    assert_eq!(tokens.len(), 7);
    assert_eq!(tokens[0].token_type, TokenType::TagOpen);
    assert_eq!(tokens[0].value.as_ref().unwrap(), "h1");
    assert_eq!(tokens[1].token_type, TokenType::TextNode);
    assert_eq!(tokens[1].value.as_ref().unwrap(), "Hi ");
    assert_eq!(tokens[2].token_type, TokenType::Interpolation);
    assert_eq!(tokens[2].value.as_ref().unwrap(), "username.first");
    assert_eq!(tokens[3].token_type, TokenType::TextNode);
    assert_eq!(tokens[3].value.as_ref().unwrap(), ", ");
    assert_eq!(tokens[4].token_type, TokenType::Interpolation);
    assert_eq!(tokens[4].value.as_ref().unwrap(), "username.last");
    assert_eq!(tokens[5].token_type, TokenType::TextNode);
    assert_eq!(tokens[5].value.as_ref().unwrap(), "! How are you?");
    assert_eq!(tokens[6].token_type, TokenType::TagClose);
    assert_eq!(tokens[6].value.as_ref().unwrap(), "h1");
}

#[test]
fn test_scans_tag_with_super_complex_interpolation() {
    let tokens = scan(
        r#"<h1>Hi {{ username.first }}, {{ username.last }}! How are you?{{ {"a": 1, b: {}} }}</h1>"#,
    )
    .unwrap();

    assert_eq!(tokens.len(), 8);
    assert_eq!(tokens[0].token_type, TokenType::TagOpen);
    assert_eq!(tokens[0].value.as_ref().unwrap(), "h1");
    assert_eq!(tokens[1].token_type, TokenType::TextNode);
    assert_eq!(tokens[1].value.as_ref().unwrap(), "Hi ");
    assert_eq!(tokens[2].token_type, TokenType::Interpolation);
    assert_eq!(tokens[2].value.as_ref().unwrap(), "username.first");
    assert_eq!(tokens[3].token_type, TokenType::TextNode);
    assert_eq!(tokens[3].value.as_ref().unwrap(), ", ");
    assert_eq!(tokens[4].token_type, TokenType::Interpolation);
    assert_eq!(tokens[4].value.as_ref().unwrap(), "username.last");
    assert_eq!(tokens[5].token_type, TokenType::TextNode);
    assert_eq!(tokens[5].value.as_ref().unwrap(), "! How are you?");
    assert_eq!(tokens[6].token_type, TokenType::Interpolation);
    assert_eq!(tokens[6].value.as_ref().unwrap(), r#"{"a": 1, b: {}}"#);
    assert_eq!(tokens[7].token_type, TokenType::TagClose);
    assert_eq!(tokens[7].value.as_ref().unwrap(), "h1");
}

#[test]
fn test_scans_tag_with_only_super_complex_interpolation() {
    let tokens = scan(r#"<h1>{{ {"a": 1, b: {}} }}</h1>"#).unwrap();

    assert_eq!(tokens.len(), 3);
    assert_eq!(tokens[0].token_type, TokenType::TagOpen);
    assert_eq!(tokens[0].value.as_ref().unwrap(), "h1");
    assert_eq!(tokens[1].token_type, TokenType::Interpolation);
    assert_eq!(tokens[1].value.as_ref().unwrap(), r#"{"a": 1, b: {}}"#);
    assert_eq!(tokens[2].token_type, TokenType::TagClose);
    assert_eq!(tokens[2].value.as_ref().unwrap(), "h1");
}

#[test]
fn test_scans_tag_template_and_interpolation_and_attrs() {
    let tokens = scan(r#"<template><h1> {{ msg }} </h1><input v-model="msg" /></template>"#)
        .unwrap();
    assert_eq!(tokens.len(), 9);
    assert_eq!(tokens[0].token_type, TokenType::TagOpen);
    assert_eq!(tokens[0].value.as_ref().unwrap(), "template");
    assert_eq!(tokens[1].token_type, TokenType::TagOpen);
    assert_eq!(tokens[1].value.as_ref().unwrap(), "h1");
    assert_eq!(tokens[2].token_type, TokenType::Interpolation);
    assert_eq!(tokens[2].value.as_ref().unwrap(), "msg");
    assert_eq!(tokens[3].token_type, TokenType::TagClose);
    assert_eq!(tokens[3].value.as_ref().unwrap(), "h1");
    assert_eq!(tokens[4].token_type, TokenType::TagOpen);
    assert_eq!(tokens[4].value.as_ref().unwrap(), "input");
    assert_eq!(tokens[5].token_type, TokenType::Attribute);
    assert_eq!(tokens[5].value.as_ref().unwrap(), "v-model");
    assert_eq!(tokens[6].token_type, TokenType::AttributeValue);
    assert_eq!(tokens[6].value.as_ref().unwrap(), "msg");
    assert_eq!(tokens[7].token_type, TokenType::TagClose);
    assert_eq!(tokens[7].value.as_ref().unwrap(), "input");
    assert_eq!(tokens[8].token_type, TokenType::TagClose);
    assert_eq!(tokens[8].value.as_ref().unwrap(), "template");
}
