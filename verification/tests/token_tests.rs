use jim::{Token, TokenKind};

#[test]
fn test_token_creation() {
    let token = Token::new(TokenKind::String, 0, 10, 1);
    assert_eq!(token.kind, TokenKind::String);
    assert_eq!(token.start, 0);
    assert_eq!(token.end, 10);
    assert_eq!(token.depth, 1);
    assert_eq!(token.len(), 10);
}

#[test]
fn test_token_display() {
    assert_eq!(TokenKind::BraceOpen.display(), "{");
    assert_eq!(TokenKind::String.display(), "String");
    assert_eq!(TokenKind::Number.display(), "Number");
}

#[test]
fn test_token_is_empty() {
    assert!(!Token::new(TokenKind::Number, 3, 5, 0).is_empty());
    assert!(Token::new(TokenKind::Whitespace, 5, 5, 0).is_empty());
}
