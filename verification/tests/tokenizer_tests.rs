use ghl::tokenizer::{location_from_offset, BinaryOp, Token, TokenizeError, Tokenizer};

#[test]
fn empty() {
    let src = "".to_string();
    let tokenizer = Tokenizer::new(src, "tests::empty".to_string());
    assert_eq!(tokenizer.tokenize().unwrap(), vec![])
}

#[test]
fn numbers() {
    let src = "123 69".to_string();
    let tokenizer = Tokenizer::new(src, "tests::numbers".to_string());
    assert_eq!(
        tokenizer.tokenize().unwrap(),
        vec![
            Token::Number {
                raw: "123".to_lowercase(),
                flags: vec![],
                offset: 0
            },
            Token::Number {
                raw: "69".to_lowercase(),
                flags: vec![],
                offset: 4
            },
        ]
    )
}

#[test]
fn operators() {
    let src = "- + -".to_string();
    let tokenizer = Tokenizer::new(src, "tests::operators".to_string());
    assert_eq!(
        tokenizer.tokenize().unwrap(),
        vec![
            Token::BinaryOperator {
                op: BinaryOp::Minus,
                offset: 0
            },
            Token::BinaryOperator {
                op: BinaryOp::Plus,
                offset: 2
            },
            Token::BinaryOperator {
                op: BinaryOp::Minus,
                offset: 4
            },
        ]
    )
}

#[test]
fn single_digit_run_is_one_token() {
    let tokenizer = Tokenizer::new("007".to_string(), "tests".to_string());
    assert_eq!(
        tokenizer.tokenize().unwrap(),
        vec![Token::Number {
            raw: "007".to_string(),
            flags: vec![],
            offset: 0
        }]
    )
}

#[test]
fn ops_and_digits_token_count() {
    // four maximal digit runs and three operator characters
    let tokenizer = Tokenizer::new("12 + 3*4 - 5".to_string(), "tests".to_string());
    let tokens = tokenizer.tokenize().unwrap();
    assert_eq!(tokens.len(), 7);
}

#[test]
fn unexpected_char_is_reported() {
    let tokenizer = Tokenizer::new("#".to_string(), "tests".to_string());
    let err = tokenizer.tokenize().unwrap_err();
    assert_eq!(
        err,
        TokenizeError::UnexpectedChar {
            found: Some('#'),
            offset: 0,
            line: 1,
            column: 1
        }
    );
}

#[test]
fn unexpected_char_location_spans_lines() {
    let tokenizer = Tokenizer::new("12\n#".to_string(), "tests".to_string());
    let err = tokenizer.tokenize().unwrap_err();
    assert_eq!(
        err,
        TokenizeError::UnexpectedChar {
            found: Some('#'),
            offset: 3,
            line: 2,
            column: 1
        }
    );
}

#[test]
fn keywords_and_identifiers() {
    let tokenizer = Tokenizer::new("let exit leta".to_string(), "tests".to_string());
    assert_eq!(
        tokenizer.tokenize().unwrap(),
        vec![
            Token::Let,
            Token::Exit,
            Token::Identifier("leta".to_string()),
        ]
    )
}

#[test]
fn punctuation_tokens() {
    let tokenizer = Tokenizer::new("a: u64 = (1);".to_string(), "tests".to_string());
    assert_eq!(
        tokenizer.tokenize().unwrap(),
        vec![
            Token::Identifier("a".to_string()),
            Token::Colon,
            Token::Identifier("u64".to_string()),
            Token::SingleEqual,
            Token::OpenParen,
            Token::Number {
                raw: "1".to_string(),
                flags: vec![],
                offset: 10
            },
            Token::CloseParen,
            Token::Semicolon,
        ]
    )
}

#[test]
fn location_from_offset_cases() {
    assert_eq!(location_from_offset("ab\ncd", 0), Some((1, 1)));
    assert_eq!(location_from_offset("ab\ncd", 2), Some((1, 3)));
    assert_eq!(location_from_offset("ab\ncd", 3), Some((2, 1)));
    assert_eq!(location_from_offset("ab\ncd", 4), Some((2, 2)));
    assert_eq!(location_from_offset("ab\ncd", 5), Some((2, 3)));
    assert_eq!(location_from_offset("ab\ncd", 6), None);
    assert_eq!(location_from_offset("", 0), None);
    assert_eq!(location_from_offset("ab\n", 3), None);
}
