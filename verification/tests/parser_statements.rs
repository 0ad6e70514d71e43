use bitterasm::ast::{Expr, ImportItems, Statement};
use bitterasm::lexer::lex;
use bitterasm::parser::parse;

#[test]
fn tests_parses_empty_program() {
    let program = parse(lex("").unwrap()).unwrap();

    assert!(program.statements.is_empty());
}

#[test]
fn tests_parses_import_all() {
    let program = parse(lex("from tinycpu.native import *\n").unwrap()).unwrap();

    assert_eq!(program.statements.len(), 1);

    let Statement::Import(import) = &program.statements[0] else {
        panic!("expected import");
    };

    assert_eq!(import.module.segments, vec!["tinycpu".to_string(), "native".to_string()]);

    assert_eq!(import.module.relative_level, 0);
    assert_eq!(import.items, ImportItems::All);
}

#[test]
fn tests_parses_named_imports() {
    let program = parse(lex("from tinycpu.native import mov, add\n").unwrap()).unwrap();

    let Statement::Import(import) = &program.statements[0] else {
        panic!("expected import");
    };

    assert_eq!(import.items, ImportItems::Names(vec!["mov".to_string(), "add".to_string()]));
}

#[test]
fn tests_parses_relative_import() {
    let program = parse(lex("from .foobar import qux\n").unwrap()).unwrap();

    let Statement::Import(import) = &program.statements[0] else {
        panic!("expected import");
    };

    assert_eq!(import.module.relative_level, 1);
    assert_eq!(import.module.segments, vec!["foobar".to_string()]);
}

#[test]
fn tests_parses_label() {
    let program = parse(lex("start:\n").unwrap()).unwrap();

    let Statement::Label(label) = &program.statements[0] else {
        panic!("expected label");
    };

    assert_eq!(label.name, "start");
}

#[test]
fn tests_parses_no_operand_invocation() {
    let program = parse(lex("nop\n").unwrap()).unwrap();

    let Statement::Invocation(invocation) = &program.statements[0] else {
        panic!("expected invocation");
    };

    assert_eq!(invocation.name, "nop");
    assert!(invocation.operands.is_empty());
}

#[test]
fn tests_parses_invocation() {
    let program = parse(lex("mov r1, 7\n").unwrap()).unwrap();

    let Statement::Invocation(invocation) = &program.statements[0] else {
        panic!("expected invocation");
    };

    assert_eq!(invocation.name, "mov");
    assert_eq!(invocation.operands.len(), 2);

    assert!(matches!(&invocation.operands[0], Expr::Identifier { name, .. } if name == "r1"));

    assert!(matches!(&invocation.operands[1], Expr::Integer { raw, .. } if raw == "7"));
}

#[test]
fn tests_parses_whole_example() {
    let source = r#"from tinycpu.native import *

start:
    mov r1, 7
    add r1, r2
    nop
"#;

    let program = parse(lex(source).unwrap()).unwrap();

    assert_eq!(program.statements.len(), 5);

    assert!(matches!(program.statements[0], Statement::Import(_)));

    assert!(matches!(program.statements[1], Statement::Label(_)));

    assert!(matches!(program.statements[2], Statement::Invocation(_)));

    assert!(matches!(program.statements[3], Statement::Invocation(_)));

    assert!(matches!(program.statements[4], Statement::Invocation(_)));
}

#[test]
fn tests_accepts_no_final_newline() {
    let program = parse(lex("nop").unwrap()).unwrap();

    assert_eq!(program.statements.len(), 1);
}

#[test]
fn tests_rejects_trailing_comma() {
    let error = parse(lex("mov r1,\n").unwrap()).unwrap_err();

    assert_eq!(error.message, "expected operand after comma");
}
