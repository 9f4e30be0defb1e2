use jim::{TokenKind, Tokenizer};

#[test]
fn test_tokenize_simple_object() {
    let input = r#"{"key": "value"}"#.to_string();
    let mut tokenizer = Tokenizer::new(input);
    let tokens = tokenizer.tokenize_all();

    let kinds: Vec<TokenKind> = tokens.iter().map(|t| t.kind).collect();
    assert_eq!(
        kinds,
        vec![
            TokenKind::BraceOpen,
            TokenKind::String,
            TokenKind::Colon,
            TokenKind::Whitespace,
            TokenKind::String,
            TokenKind::BraceClose,
        ]
    );
}

#[test]
fn test_tokenize_array() {
    let input = r#"[1, 2, 3]"#.to_string();
    let mut tokenizer = Tokenizer::new(input);
    let tokens = tokenizer.tokenize_all();

    let kinds: Vec<TokenKind> = tokens.iter().map(|t| t.kind).collect();
    assert_eq!(
        kinds,
        vec![
            TokenKind::BracketOpen,
            TokenKind::Number,
            TokenKind::Comma,
            TokenKind::Whitespace,
            TokenKind::Number,
            TokenKind::Comma,
            TokenKind::Whitespace,
            TokenKind::Number,
            TokenKind::BracketClose,
        ]
    );
}

#[test]
fn test_tokenize_keywords() {
    let input = r#"true false null"#.to_string();
    let mut tokenizer = Tokenizer::new(input);
    let tokens = tokenizer.tokenize_all();

    let kinds: Vec<TokenKind> = tokens
        .iter()
        .filter(|t| t.kind != TokenKind::Whitespace)
        .map(|t| t.kind)
        .collect();
    assert_eq!(kinds, vec![TokenKind::True, TokenKind::False, TokenKind::Null]);
}

#[test]
fn test_tokenize_depth() {
    let input = r#"{"a": [1, 2]}"#.to_string();
    let mut tokenizer = Tokenizer::new(input);
    let tokens = tokenizer.tokenize_all();

    let depths: Vec<u32> = tokens
        .iter()
        .filter(|t| matches!(t.kind, TokenKind::BraceOpen | TokenKind::BracketOpen))
        .map(|t| t.depth)
        .collect();
    assert_eq!(depths, vec![0, 1]);
}

#[test]
fn test_tokenize_escaped_string() {
    let input = r#""hello \"world\"""#.to_string();
    let mut tokenizer = Tokenizer::new(input);
    let tokens = tokenizer.tokenize_all();

    assert_eq!(tokens.len(), 1);
    assert_eq!(tokens[0].kind, TokenKind::String);
}

#[test]
fn test_tokenize_numbers() {
    let inputs = vec!["123", "-456", "12.34", "-78.90", "1e10", "1.5e-3"];

    for input in inputs {
        let mut tokenizer = Tokenizer::new(input.to_string());
        let tokens = tokenizer.tokenize_all();
        assert_eq!(tokens.len(), 1, "Failed for input: {}", input);
        assert_eq!(tokens[0].kind, TokenKind::Number, "Failed for input: {}", input);
    }
}

#[test]
fn test_tokenize_unclosed_string_is_invalid() {
    let mut tokenizer = Tokenizer::new("\"oops".to_string());
    let tokens = tokenizer.tokenize_all();
    assert_eq!(tokens.len(), 1);
    assert_eq!(tokens[0].kind, TokenKind::Invalid);
    assert_eq!(tokens[0].end, 5);

    // a backslash at end of input consumes the end and stays invalid
    let mut tokenizer2 = Tokenizer::new("\"a\\".to_string());
    let tokens2 = tokenizer2.tokenize_all();
    assert_eq!(tokens2.len(), 1);
    assert_eq!(tokens2[0].kind, TokenKind::Invalid);
}

#[test]
fn test_tokenize_partial_keyword_and_bad_number() {
    let mut tokenizer = Tokenizer::new("tru".to_string());
    let tokens = tokenizer.tokenize_all();
    assert_eq!(tokens.len(), 1);
    assert_eq!(tokens[0].kind, TokenKind::Invalid);

    let mut tokenizer2 = Tokenizer::new("-".to_string());
    let tokens2 = tokenizer2.tokenize_all();
    assert_eq!(tokens2.len(), 1);
    assert_eq!(tokens2[0].kind, TokenKind::Invalid);
}

#[test]
fn test_tokens_partition_input() {
    let input = r#"{"k": [true, -1.5e2], "m": null}"#;
    let mut tokenizer = Tokenizer::new(input.to_string());
    let tokens = tokenizer.tokenize_all();
    assert_eq!(tokens[0].start, 0);
    assert_eq!(tokens[tokens.len() - 1].end, input.len());
    for w in tokens.windows(2) {
        assert_eq!(w[0].end, w[1].start);
        assert!(w[0].start < w[0].end);
    }
}
