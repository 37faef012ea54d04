use rlox::token::{Token, TokenType};

#[test]
fn test_token_creation() {
    let token = Token::new(TokenType::Identifier, "variable".to_string(), None, 1);

    assert_eq!(token.token_type, TokenType::Identifier);
    assert_eq!(token.lexeme, "variable");
    assert_eq!(token.literal, None);
    assert_eq!(token.line, 1);
}

#[test]
fn test_token_with_literal() {
    let token = Token::new(
        TokenType::String,
        "\"hello\"".to_string(),
        Some("hello".to_string()),
        2,
    );

    assert_eq!(token.token_type, TokenType::String);
    assert_eq!(token.lexeme, "\"hello\"");
    assert_eq!(token.literal, Some("hello".to_string()));
    assert_eq!(token.line, 2);
}

#[test]
fn test_token_clone() {
    let original = Token::new(TokenType::Number, "42".to_string(), Some("42".to_string()), 3);

    let cloned = original.clone();
    assert_eq!(original, cloned);
}

#[test]
fn test_token_type_equality() {
    assert_eq!(TokenType::Plus, TokenType::Plus);
    assert_ne!(TokenType::Plus, TokenType::Minus);
}
