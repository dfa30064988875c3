use villain::parser::{Node, NodeType, Parser};
use villain::scanner::Scanner;
use villain::token::{Token, TokenType};

#[test]
fn test_parse_text_node() {
    let tokens = vec![Token::new_with_value(
        TokenType::TextNode,
        0,
        "Hello, world!",
    )];
    let mut parser = Parser::new(tokens);

    let expected = Node::new(NodeType::Text("Hello, world!".to_string()));
    let actual = parser.parse_text_node().unwrap();

    assert_eq!(expected, actual);
}

#[test]
fn test_parse_attribute() {
    let tokens = vec![
        Token::new_with_value(TokenType::Attribute, 0, "class"),
        Token::new_with_value(TokenType::AttributeValue, 0, "foo"),
    ];
    let mut parser = Parser::new(tokens);

    let expected = Node::new(NodeType::Attribute(
        "class".to_string(),
        Some(Token::new_with_value(TokenType::AttributeValue, 0, "foo")),
        false,
    ));
    let actual = parser.parse_attribute(false).unwrap();

    assert_eq!(expected, actual);
}

#[test]
fn test_parse_tag() {
    let tokens = vec![
        Token::new_with_value(TokenType::TagOpen, 0, "div"),
        Token::new_with_value(TokenType::Attribute, 0, "class"),
        Token::new_with_value(TokenType::AttributeValue, 0, "foo"),
        Token::new_with_value(TokenType::TagClose, 0, "div"),
    ];
    let mut parser = Parser::new(tokens);

    let mut expected = Node::new(NodeType::Tag("div".to_string()));
    expected.add_child(Node::new(NodeType::Attribute(
        "class".to_string(),
        Some(Token::new_with_value(TokenType::AttributeValue, 0, "foo")),
        false,
    )));
    let actual = parser.parse_tag().unwrap();

    assert_eq!(expected, actual);
}

#[test]
fn test_parse_nested_tag_with_attributes() {
    let tokens = vec![
        Token::new_with_value(TokenType::TagOpen, 0, "div"),
        Token::new_with_value(TokenType::Attribute, 0, "class"),
        Token::new_with_value(TokenType::AttributeValue, 0, "foo"),
        Token::new_with_value(TokenType::TagOpen, 0, "span"),
        Token::new_with_value(TokenType::TagClose, 0, "span"),
        Token::new_with_value(TokenType::TagClose, 0, "div"),
    ];
    let mut parser = Parser::new(tokens);

    let mut expected = Node::new(NodeType::Tag("div".to_string()));
    expected.add_child(Node::new(NodeType::Attribute(
        "class".to_string(),
        Some(Token::new_with_value(TokenType::AttributeValue, 0, "foo")),
        false,
    )));
    expected.add_child(Node::new(NodeType::Tag("span".to_string())));

    let actual = parser.parse_tag().unwrap();

    assert_eq!(expected, actual);
}

#[test]
fn test_parses_vue() {
    let input = r#"
        <script setup>
        import { ref } from "vue";

        const msg = ref("Hello World!");
        </script>

        <template>
          <h1>{{ msg }}</h1>
          <input v-model="msg" />

          <h2>{{ {"a": 1, b: {}} }}</h2>
        </template>
        "#;

    let mut scanner = Scanner::new(input.to_string());
    let mut parser = Parser::new(scanner.scan().unwrap());

    let root = parser.parse().unwrap();
    let _s: String = format!("{root:?}");
}
