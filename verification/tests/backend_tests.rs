use ghl::ast::{self, AstExpression, AstStatement};
use ghl::cbackend::CBackend;
use ghl::config::Config;
use ghl::ir::{IrGenerator, IR};
use ghl::tokenizer::{self, BinaryOp};
use ghl::CompilerError;

fn parse_source(src: &str) -> Vec<AstStatement> {
    let tokens = tokenizer::Tokenizer::new(src.to_string(), "tests".to_string())
        .tokenize()
        .unwrap();
    ast::AstParser::new(tokens).parse().unwrap()
}

#[test]
fn lowering_is_one_to_one_and_ordered() {
    let program = parse_source("let a: u64 = 1; exit a");
    let ir = IrGenerator::new(program).generate();
    assert_eq!(
        ir,
        vec![
            IR::DefineVariable {
                name: "a".to_string(),
                t: "u64".to_string(),
                value: AstExpression::Number {
                    raw: "1".to_string(),
                    flags: vec![]
                },
            },
            IR::Exit {
                value: AstExpression::Identifier {
                    name: "a".to_string()
                }
            },
        ]
    );
}

#[test]
fn emitted_program_text_is_exact() {
    let program = parse_source("let a: u64 = (123 + 69) * 2; exit a");
    let ir = IrGenerator::new(program).generate();
    let out = CBackend::new(ir).compile();
    assert_eq!(
        out,
        "#include <stdlib.h>\n\
         #include <stdint.h>\n\
         #define u64 uint64_t\n\
         int main() {\n\
         u64 a = 123+69*2;\n\
         exit(a);\n\
         }\n"
    );
}

#[test]
fn expression_text_is_infix_without_parentheses() {
    let program = parse_source("exit 123 + 69 * 2");
    match &program[0] {
        AstStatement::Exit { value } => assert_eq!(value.to_text(), "123+69*2"),
        _ => panic!("expected an exit statement"),
    }
}

#[test]
fn emitted_expression_reparses_to_the_same_tree() {
    // the tree of "1+2*3 - 4" needs no parentheses, so its emitted text
    // must read back as the identical tree
    let before = parse_source("exit 1+2*3 - 4");
    let text = match &before[0] {
        AstStatement::Exit { value } => value.to_text(),
        _ => panic!("expected an exit statement"),
    };
    let after = parse_source(&format!("exit {}", text));
    assert_eq!(before, after);
}

#[test]
fn redundant_parentheses_vanish_on_round_trip() {
    let before = parse_source("exit (1*2) + (3)");
    let text = match &before[0] {
        AstStatement::Exit { value } => value.to_text(),
        _ => panic!("expected an exit statement"),
    };
    assert_eq!(text, "1*2+3");
    let after = parse_source(&format!("exit {}", text));
    assert_eq!(before, after);
}

#[test]
fn empty_ir_emits_only_boilerplate() {
    let out = CBackend::new(vec![]).compile();
    assert_eq!(
        out,
        "#include <stdlib.h>\n#include <stdint.h>\n#define u64 uint64_t\nint main() {\n}\n"
    );
}

#[test]
fn compiler_error_message() {
    assert_eq!(CompilerError.message(), "something bad happenned...");
}

#[test]
fn config_carries_driver_settings() {
    let config = Config {
        input_file_name: "main.ghl".to_string(),
        dump_ast: true,
        ast_out_name: "out.ghl_ast".to_string(),
        dump_tokens: false,
        tokens_out_name: "out.ghl_tokens".to_string(),
        dump_c: true,
        c_out_name: "out.c".to_string(),
        output_exe_name: "a.out".to_string(),
    };
    assert_eq!(config.input_file_name, "main.ghl");
    assert!(config.dump_ast && !config.dump_tokens && config.dump_c);
    assert_eq!(config.c_out_name, "out.c");
    assert_eq!(config.output_exe_name, "a.out");
}

#[test]
fn star_chain_lowers_and_emits_left_associated() {
    let program = parse_source("exit 2*3*4");
    match &program[0] {
        AstStatement::Exit { value } => {
            assert_eq!(
                value,
                &AstExpression::BinaryOperation {
                    left: Box::new(AstExpression::BinaryOperation {
                        left: Box::new(AstExpression::Number {
                            raw: "2".to_string(),
                            flags: vec![]
                        }),
                        operator: BinaryOp::Star,
                        right: Box::new(AstExpression::Number {
                            raw: "3".to_string(),
                            flags: vec![]
                        }),
                    }),
                    operator: BinaryOp::Star,
                    right: Box::new(AstExpression::Number {
                        raw: "4".to_string(),
                        flags: vec![]
                    }),
                }
            );
            assert_eq!(value.to_text(), "2*3*4");
        },
        _ => panic!("expected an exit statement"),
    }
}
