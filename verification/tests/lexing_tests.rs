use rlox::diagnostics::LexErrorKind;
use rlox::scanner::Scanner;
use rlox::token::TokenType;

#[test]
fn test_punctuation_in_order() {
    let mut scanner = Scanner::new("({}),.-+;*".to_string());
    let tokens = scanner.scan_tokens();

    let expected_types = vec![
        TokenType::LeftParen,
        TokenType::LeftBrace,
        TokenType::RightBrace,
        TokenType::RightParen,
        TokenType::Comma,
        TokenType::Dot,
        TokenType::Minus,
        TokenType::Plus,
        TokenType::Semicolon,
        TokenType::Star,
        TokenType::Eof,
    ];

    assert_eq!(tokens.len(), expected_types.len());
    for (i, expected_type) in expected_types.iter().enumerate() {
        assert_eq!(tokens[i].token_type, *expected_type);
        assert_eq!(tokens[i].line, 1);
    }
    assert!(scanner.errors().is_empty());
}

#[test]
fn test_single_operators() {
    let mut scanner = Scanner::new("! = < >".to_string());
    let tokens = scanner.scan_tokens();

    let expected_types = vec![
        TokenType::Bang,
        TokenType::Equal,
        TokenType::Less,
        TokenType::Greater,
        TokenType::Eof,
    ];
    assert_eq!(tokens.len(), expected_types.len());
    for (i, expected_type) in expected_types.iter().enumerate() {
        assert_eq!(tokens[i].token_type, *expected_type);
    }
}

#[test]
fn test_maximal_munch_on_equals() {
    let mut scanner = Scanner::new("===".to_string());
    let tokens = scanner.scan_tokens();

    assert_eq!(tokens.len(), 3);
    assert_eq!(tokens[0].token_type, TokenType::EqualEqual);
    assert_eq!(tokens[0].lexeme, "==");
    assert_eq!(tokens[1].token_type, TokenType::Equal);
    assert_eq!(tokens[1].lexeme, "=");
}

#[test]
fn test_slash_token() {
    let mut scanner = Scanner::new("8 / 2".to_string());
    let tokens = scanner.scan_tokens();

    assert_eq!(tokens.len(), 4);
    assert_eq!(tokens[1].token_type, TokenType::Slash);
    assert_eq!(tokens[1].lexeme, "/");
}

#[test]
fn test_comment_at_end_of_input() {
    let mut scanner = Scanner::new("var x // trailing comment".to_string());
    let tokens = scanner.scan_tokens();

    assert_eq!(tokens.len(), 3); // var, x, EOF
    assert_eq!(tokens[0].token_type, TokenType::Var);
    assert_eq!(tokens[1].token_type, TokenType::Identifier);
    assert_eq!(tokens[2].token_type, TokenType::Eof);
    assert!(scanner.errors().is_empty());
}

#[test]
fn test_comment_line_counting() {
    let mut scanner = Scanner::new("// first line\nsecond".to_string());
    let tokens = scanner.scan_tokens();

    assert_eq!(tokens.len(), 2); // identifier, EOF
    assert_eq!(tokens[0].token_type, TokenType::Identifier);
    assert_eq!(tokens[0].lexeme, "second");
    assert_eq!(tokens[0].line, 2);
}

#[test]
fn test_string_lexeme_keeps_quotes() {
    let mut scanner = Scanner::new("\"hello world\"".to_string());
    let tokens = scanner.scan_tokens();

    assert_eq!(tokens.len(), 2); // no separate tokens for the quote characters
    assert_eq!(tokens[0].lexeme, "\"hello world\"");
    assert_eq!(tokens[0].literal, Some("hello world".to_string()));
}

#[test]
fn test_empty_string_literal() {
    let mut scanner = Scanner::new("\"\"".to_string());
    let tokens = scanner.scan_tokens();

    assert_eq!(tokens.len(), 2);
    assert_eq!(tokens[0].token_type, TokenType::String);
    assert_eq!(tokens[0].literal, Some("".to_string()));
}

#[test]
fn test_multiline_string_reports_opening_line() {
    let mut scanner = Scanner::new("\"a\nb\" var".to_string());
    let tokens = scanner.scan_tokens();

    assert_eq!(tokens.len(), 3);
    assert_eq!(tokens[0].token_type, TokenType::String);
    assert_eq!(tokens[0].literal, Some("a\nb".to_string()));
    assert_eq!(tokens[0].line, 1); // the line of the opening quote
    assert_eq!(tokens[1].token_type, TokenType::Var);
    assert_eq!(tokens[1].line, 2); // the embedded newline was counted
}

#[test]
fn test_trailing_dot_is_not_absorbed() {
    let mut scanner = Scanner::new("45.".to_string());
    let tokens = scanner.scan_tokens();

    assert_eq!(tokens.len(), 3);
    assert_eq!(tokens[0].token_type, TokenType::Number);
    assert_eq!(tokens[0].literal, Some("45".to_string()));
    assert_eq!(tokens[1].token_type, TokenType::Dot);
}

#[test]
fn test_dot_followed_by_identifier_after_number() {
    let mut scanner = Scanner::new("45.length".to_string());
    let tokens = scanner.scan_tokens();

    assert_eq!(tokens.len(), 4);
    assert_eq!(tokens[0].token_type, TokenType::Number);
    assert_eq!(tokens[0].literal, Some("45".to_string()));
    assert_eq!(tokens[1].token_type, TokenType::Dot);
    assert_eq!(tokens[2].token_type, TokenType::Identifier);
    assert_eq!(tokens[2].lexeme, "length");
}

#[test]
fn test_leading_dot_does_not_begin_a_number() {
    let mut scanner = Scanner::new(".5".to_string());
    let tokens = scanner.scan_tokens();

    assert_eq!(tokens.len(), 3);
    assert_eq!(tokens[0].token_type, TokenType::Dot);
    assert_eq!(tokens[1].token_type, TokenType::Number);
    assert_eq!(tokens[1].literal, Some("5".to_string()));
}

#[test]
fn test_all_reserved_words() {
    let source = "and class else false fun for if nil or print return super this true var while";
    let mut scanner = Scanner::new(source.to_string());
    let tokens = scanner.scan_tokens();

    let expected_types = vec![
        TokenType::And,
        TokenType::Class,
        TokenType::Else,
        TokenType::False,
        TokenType::Fun,
        TokenType::For,
        TokenType::If,
        TokenType::Nil,
        TokenType::Or,
        TokenType::Print,
        TokenType::Return,
        TokenType::Super,
        TokenType::This,
        TokenType::True,
        TokenType::Var,
        TokenType::While,
        TokenType::Eof,
    ];
    assert_eq!(tokens.len(), expected_types.len());
    for (i, expected_type) in expected_types.iter().enumerate() {
        assert_eq!(tokens[i].token_type, *expected_type);
    }
}

#[test]
fn test_keyword_prefix_is_one_identifier() {
    let mut scanner = Scanner::new("variable".to_string());
    let tokens = scanner.scan_tokens();

    assert_eq!(tokens.len(), 2); // one Identifier, not `var` + `iable`
    assert_eq!(tokens[0].token_type, TokenType::Identifier);
    assert_eq!(tokens[0].lexeme, "variable");
}

#[test]
fn test_keywords_are_case_sensitive() {
    let mut scanner = Scanner::new("Var VAR var".to_string());
    let tokens = scanner.scan_tokens();

    assert_eq!(tokens.len(), 4);
    assert_eq!(tokens[0].token_type, TokenType::Identifier);
    assert_eq!(tokens[1].token_type, TokenType::Identifier);
    assert_eq!(tokens[2].token_type, TokenType::Var);
}

#[test]
fn test_ampersand_and_pipe_are_unexpected() {
    // `&` and `|` are not in the token vocabulary, doubled or not: each
    // occurrence is reported and the surrounding tokens still come through.
    let mut scanner = Scanner::new("a && b || c".to_string());
    let tokens = scanner.scan_tokens().clone();

    assert_eq!(tokens.len(), 4); // a, b, c, EOF
    assert_eq!(tokens[0].token_type, TokenType::Identifier);
    assert_eq!(tokens[1].token_type, TokenType::Identifier);
    assert_eq!(tokens[2].token_type, TokenType::Identifier);
    let errors = scanner.errors();
    assert_eq!(errors.len(), 4);
    for error in errors.iter() {
        assert_eq!(error.kind, LexErrorKind::UnexpectedCharacter);
        assert_eq!(error.line, 1);
    }
}

#[test]
fn test_lone_ampersand_is_unexpected() {
    let mut scanner = Scanner::new("a & b".to_string());
    let token_count = scanner.scan_tokens().len();

    assert_eq!(token_count, 3); // a, b, EOF
    let errors = scanner.errors();
    assert_eq!(errors.len(), 1);
    assert_eq!(errors[0].kind, LexErrorKind::UnexpectedCharacter);
    assert_eq!(errors[0].line, 1);
}

#[test]
fn test_unterminated_string_diagnostic() {
    let mut scanner = Scanner::new("\"abc".to_string());
    let token_count = scanner.scan_tokens().len();

    assert_eq!(token_count, 1); // only EOF; no String token was produced
    let errors = scanner.errors();
    assert_eq!(errors.len(), 1);
    assert_eq!(errors[0].kind, LexErrorKind::UnterminatedString);
    assert_eq!(errors[0].line, 1);
    assert_eq!(errors[0].message(), "Unterminated string.");
}

#[test]
fn test_unterminated_string_on_later_line() {
    let mut scanner = Scanner::new("x\n\"abc\ndef".to_string());
    let tokens = scanner.scan_tokens().clone();

    assert_eq!(tokens.len(), 2); // x, EOF: the scan still completed
    assert_eq!(tokens[0].token_type, TokenType::Identifier);
    assert_eq!(tokens[1].token_type, TokenType::Eof);
    assert_eq!(tokens[1].line, 3); // newlines inside the string were counted
    let errors = scanner.errors();
    assert_eq!(errors.len(), 1);
    assert_eq!(errors[0].kind, LexErrorKind::UnterminatedString);
    assert_eq!(errors[0].line, 2); // reported at the opening quote's line
}

#[test]
fn test_unexpected_character_diagnostic() {
    let mut scanner = Scanner::new("var @ x;".to_string());
    let tokens = scanner.scan_tokens().clone();

    // Tokens before and after the stray character are still recognized.
    assert_eq!(tokens.len(), 4);
    assert_eq!(tokens[0].token_type, TokenType::Var);
    assert_eq!(tokens[1].token_type, TokenType::Identifier);
    assert_eq!(tokens[2].token_type, TokenType::Semicolon);
    let errors = scanner.errors();
    assert_eq!(errors.len(), 1);
    assert_eq!(errors[0].kind, LexErrorKind::UnexpectedCharacter);
    assert_eq!(errors[0].line, 1);
    assert_eq!(errors[0].message(), "Unexpected character.");
}

#[test]
fn test_two_unexpected_characters_both_reported() {
    let mut scanner = Scanner::new("@\n#".to_string());
    let token_count = scanner.scan_tokens().len();

    assert_eq!(token_count, 1);
    let errors = scanner.errors();
    assert_eq!(errors.len(), 2);
    assert_eq!(errors[0].line, 1);
    assert_eq!(errors[1].line, 2);
}

#[test]
fn test_scanning_is_deterministic() {
    let source = "var x = 1; // note\nprint \"x\"; @";
    let mut first = Scanner::new(source.to_string());
    let mut second = Scanner::new(source.to_string());
    let tokens1 = first.scan_tokens().clone();
    let tokens2 = second.scan_tokens().clone();

    assert_eq!(tokens1, tokens2);
    assert_eq!(first.errors(), second.errors());
}

#[test]
fn test_rescanning_yields_the_same_tokens() {
    let mut scanner = Scanner::new("var x = 1;".to_string());
    let tokens1 = scanner.scan_tokens().clone();
    let tokens2 = scanner.scan_tokens().clone();

    assert_eq!(tokens1, tokens2);
}

#[test]
fn test_every_scan_ends_with_eof() {
    let sources = vec!["", "var", "\"open", "@", "// only a comment", "\n\n\n"];
    for source in sources {
        let mut scanner = Scanner::new(source.to_string());
        let tokens = scanner.scan_tokens();
        assert!(tokens.len() >= 1);
        let last = tokens.last().unwrap();
        assert_eq!(last.token_type, TokenType::Eof);
        assert_eq!(last.lexeme, "");
        assert_eq!(last.literal, None);
        for token in tokens.iter().take(tokens.len() - 1) {
            assert_ne!(token.token_type, TokenType::Eof);
        }
    }
}

#[test]
fn test_eof_line_after_trailing_newline() {
    let mut scanner = Scanner::new("var\n".to_string());
    let tokens = scanner.scan_tokens();

    assert_eq!(tokens.len(), 2);
    assert_eq!(tokens[0].line, 1);
    assert_eq!(tokens[1].token_type, TokenType::Eof);
    assert_eq!(tokens[1].line, 2);
}

#[test]
fn test_lexemes_are_exact_source_slices() {
    let source = "var answer = 42; print \"ok\"; // end";
    let mut scanner = Scanner::new(source.to_string());
    let tokens = scanner.scan_tokens();

    for token in tokens.iter() {
        if token.token_type != TokenType::Eof {
            assert!(source.contains(token.lexeme.as_str()));
        }
    }
    assert_eq!(tokens[1].lexeme, "answer");
    assert_eq!(tokens[3].lexeme, "42");
    assert_eq!(tokens[6].lexeme, "\"ok\"");
}
