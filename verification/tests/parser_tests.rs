use ghl::ast::{self, AstExpression, AstParseError, AstStatement, ExpressionParseError};
use ghl::tokenizer::{self, Token};

fn parse_source(src: &str) -> Result<Vec<AstStatement>, AstParseError> {
    let tokens = tokenizer::Tokenizer::new(src.to_string(), "tests".to_string())
        .tokenize()
        .unwrap();
    ast::AstParser::new(tokens).parse()
}

#[test]
fn let_statement() {
    {
        let src = "let a: u64 = (123 + 69) * 2;".to_string();
        let tokens = tokenizer::Tokenizer::new(src, "tests::let_statement".to_string())
            .tokenize()
            .unwrap();

        assert_eq!(
            ast::AstParser::new(tokens).parse().unwrap(),
            vec![AstStatement::Let {
                value: AstExpression::BinaryOperation {
                    left: Box::new(AstExpression::BinaryOperation {
                        left: Box::new(AstExpression::Number {
                            raw: "123".to_string(),
                            flags: vec![]
                        }),
                        operator: tokenizer::BinaryOp::Plus,
                        right: Box::new(AstExpression::Number {
                            raw: "69".to_string(),
                            flags: vec![]
                        }),
                    }),
                    operator: tokenizer::BinaryOp::Star,
                    right: Box::new(AstExpression::Number {
                        raw: "2".to_string(),
                        flags: vec![]
                    })
                },
                name: String::from("a"),
                t: String::from("u64"),
            },]
        )
    }
}

#[test]
fn star_binds_tighter_than_plus() {
    let program = parse_source("exit 123 + 69 * 2").unwrap();
    assert_eq!(
        program,
        vec![AstStatement::Exit {
            value: AstExpression::BinaryOperation {
                left: Box::new(AstExpression::Number {
                    raw: "123".to_string(),
                    flags: vec![]
                }),
                operator: tokenizer::BinaryOp::Plus,
                right: Box::new(AstExpression::BinaryOperation {
                    left: Box::new(AstExpression::Number {
                        raw: "69".to_string(),
                        flags: vec![]
                    }),
                    operator: tokenizer::BinaryOp::Star,
                    right: Box::new(AstExpression::Number {
                        raw: "2".to_string(),
                        flags: vec![]
                    }),
                }),
            }
        }]
    );
}

#[test]
fn parentheses_override_precedence() {
    let program = parse_source("exit (123 + 69) * 2").unwrap();
    assert_eq!(
        program,
        vec![AstStatement::Exit {
            value: AstExpression::BinaryOperation {
                left: Box::new(AstExpression::BinaryOperation {
                    left: Box::new(AstExpression::Number {
                        raw: "123".to_string(),
                        flags: vec![]
                    }),
                    operator: tokenizer::BinaryOp::Plus,
                    right: Box::new(AstExpression::Number {
                        raw: "69".to_string(),
                        flags: vec![]
                    }),
                }),
                operator: tokenizer::BinaryOp::Star,
                right: Box::new(AstExpression::Number {
                    raw: "2".to_string(),
                    flags: vec![]
                }),
            }
        }]
    );
}

#[test]
fn unclosed_parenthesis_reports_end_of_input() {
    let err = parse_source("exit (1 + 2").unwrap_err();
    assert_eq!(
        err,
        AstParseError::InvalidExpression(ExpressionParseError::InvalidFactorToken { found: None })
    );
}

#[test]
fn bare_expression_at_top_level_is_rejected() {
    let err = parse_source("1 + 2;").unwrap_err();
    assert_eq!(err, AstParseError::ExpressionAtToplevel);
}

#[test]
fn let_rejects_identifier_value() {
    let err = parse_source("let a: u64 = b;").unwrap_err();
    assert_eq!(err, AstParseError::InvalidLetStatement);
}

#[test]
fn let_rejects_malformed_header() {
    assert_eq!(
        parse_source("let 1: u64 = 2;").unwrap_err(),
        AstParseError::InvalidLetStatement
    );
    assert_eq!(
        parse_source("let a u64 = 2;").unwrap_err(),
        AstParseError::InvalidLetStatement
    );
    assert_eq!(
        parse_source("let a: u64 = 2").unwrap_err(),
        AstParseError::InvalidLetStatement
    );
}

#[test]
fn exit_with_invalid_expression_keeps_cause() {
    let err = parse_source("exit ;").unwrap_err();
    assert_eq!(
        err,
        AstParseError::InvalidExpression(ExpressionParseError::InvalidFactorToken {
            found: Some(Token::Semicolon)
        })
    );
}

#[test]
fn stray_semicolons_are_skipped() {
    let program = parse_source(";;exit 1;;").unwrap();
    assert_eq!(
        program,
        vec![AstStatement::Exit {
            value: AstExpression::Number {
                raw: "1".to_string(),
                flags: vec![]
            }
        }]
    );
}

#[test]
fn empty_token_sequence_parses_to_empty_program() {
    assert_eq!(parse_source("").unwrap(), vec![]);
}
