use bitterasm::ast::{literal_name, BinaryOp, Expr, FacetPayload, Statement, UnaryOp};
use bitterasm::lexer::lex;
use bitterasm::parser::parse;
use bitterasm::types::{GenericParameter, StructBodyItem, TypeArgument, TypeExpr};

#[test]
fn multiplication_binds_tighter_than_addition() {
    let program = parse(lex("mov r1, 1 + 2 * 3\n").unwrap()).unwrap();

    let Statement::Invocation(invocation) = &program.statements[0] else {
        panic!("expected invocation");
    };

    let Expr::Binary { op: BinaryOp::Add, left, right, .. } = &invocation.operands[1] else {
        panic!("expected addition");
    };

    assert!(matches!(left.as_ref(), Expr::Integer { raw, .. } if raw == "1"));

    assert!(matches!(right.as_ref(), Expr::Binary { op: BinaryOp::Multiply, .. }));
}

#[test]
fn parses_member_access() {
    let program = parse(lex("mov r1, foo.bar.baz\n").unwrap()).unwrap();

    let Statement::Invocation(invocation) = &program.statements[0] else {
        panic!("expected invocation");
    };

    let Expr::Member { member, object, .. } = &invocation.operands[1] else {
        panic!("expected member access");
    };

    assert_eq!(literal_name(member), Some("baz".to_string()));

    assert!(matches!(
        object.as_ref(),
        Expr::Member { member, .. } if literal_name(member) == Some("bar".to_string())
    ));
}

#[test]
fn parses_function_call() {
    let program = parse(lex("mov r1, foo(1, 2)\n").unwrap()).unwrap();

    let Statement::Invocation(invocation) = &program.statements[0] else {
        panic!("expected invocation");
    };

    let Expr::Call { callee, arguments, .. } = &invocation.operands[1] else {
        panic!("expected call");
    };

    assert!(matches!(callee.as_ref(), Expr::Identifier { name, .. } if name == "foo"));

    assert_eq!(arguments.len(), 2);
}

#[test]
fn parses_call_arguments_spanning_multiple_lines() {
    let program = parse(lex("mov r1, foo(\n    1,\n    2,\n)\n").unwrap()).unwrap();

    let Statement::Invocation(invocation) = &program.statements[0] else {
        panic!("expected invocation");
    };

    let Expr::Call { arguments, .. } = &invocation.operands[1] else {
        panic!("expected call");
    };

    assert_eq!(arguments.len(), 2);
}

#[test]
fn parses_generic_arguments_spanning_multiple_lines() {
    let program = parse(lex("const x: Reg<\n    64\n> = 1\n").unwrap()).unwrap();

    let Statement::Const(decl) = &program.statements[0] else {
        panic!("expected const declaration");
    };

    assert!(decl.ty.is_some());
}

#[test]
fn parses_named_arguments() {
    let program = parse(lex("mov r1, Reg(id = 7)\n").unwrap()).unwrap();

    let Statement::Invocation(invocation) = &program.statements[0] else {
        panic!("expected invocation");
    };

    let Expr::Call { arguments, .. } = &invocation.operands[1] else {
        panic!("expected call");
    };

    assert_eq!(arguments.len(), 1);
    assert_eq!(arguments[0].name.as_deref(), Some("id"));

    assert!(matches!(&arguments[0].value, Expr::Integer { raw, .. } if raw == "7"));
}

#[test]
fn parses_unary_expression() {
    let program = parse(lex("mov r1, -foo\n").unwrap()).unwrap();

    let Statement::Invocation(invocation) = &program.statements[0] else {
        panic!("expected invocation");
    };

    assert!(matches!(&invocation.operands[1], Expr::Unary { op: UnaryOp::Negate, .. }));
}

#[test]
fn parses_as_as_an_ordinary_expression_operator() {
    let program = parse(lex("const byte = value as Byte\n").unwrap()).unwrap();
    let Statement::Const(decl) = &program.statements[0] else {
        panic!("expected const declaration")
    };
    assert!(matches!(
        &decl.value,
        Expr::As { value, ty, .. }
            if matches!(value.as_ref(), Expr::Identifier { name, .. } if name == "value")
                && matches!(ty, TypeExpr::Named { path, .. } if path == &vec!["Byte".to_string()])
    ));
}

#[test]
fn rejects_the_old_at_as_spelling() {
    let error = parse(lex("const byte = value @as Byte\n").unwrap()).unwrap_err();
    assert!(error.message.contains("constant value"));
}

#[test]
fn parses_splice_expression() {
    let program = parse(lex("mov r1, `foo + 1`\n").unwrap()).unwrap();

    let Statement::Invocation(invocation) = &program.statements[0] else {
        panic!("expected invocation");
    };

    let Expr::Splice { inner, .. } = &invocation.operands[1] else {
        panic!("expected splice");
    };

    assert!(matches!(inner.as_ref(), Expr::Binary { .. }));
}

#[test]
fn parses_const_declaration() {
    let program = parse(lex("const r1 = Reg(id = 1)\n").unwrap()).unwrap();

    let Statement::Const(declaration) = &program.statements[0] else {
        panic!("expected const declaration");
    };

    assert_eq!(literal_name(&declaration.name), Some("r1".to_string()));

    let Expr::Call { callee, arguments, .. } = &declaration.value else {
        panic!("expected call expression");
    };

    assert!(matches!(callee.as_ref(), Expr::Identifier { name, .. } if name == "Reg"));

    assert_eq!(arguments.len(), 1);
    assert_eq!(arguments[0].name.as_deref(), Some("id"));
}

#[test]
fn parses_type_alias() {
    let source = "type Reg64 = Reg<64>\n";

    let program = parse(lex(source).unwrap()).unwrap();

    let Statement::TypeAlias(alias) = &program.statements[0] else {
        panic!("expected type alias");
    };

    assert_eq!(literal_name(&alias.name), Some("Reg64".to_string()));
}

#[test]
fn parses_typed_const() {
    let source = "const r0: Reg2 = Reg2(id = 0)\n";

    let program = parse(lex(source).unwrap()).unwrap();

    let Statement::Const(declaration) = &program.statements[0] else {
        panic!("expected const");
    };

    assert_eq!(literal_name(&declaration.name), Some("r0".to_string()));
    assert!(declaration.ty.is_some());
}

#[test]
fn shift_and_bitwise_ops_are_allowed_in_generic_arguments() {
    let source = "type A = bits<2 << 2>\n";

    let program = parse(lex(source).unwrap()).unwrap();

    let Statement::TypeAlias(alias) = &program.statements[0] else {
        panic!("expected type alias");
    };

    let TypeExpr::Apply { args, .. } = &alias.ty else {
        panic!("expected generic application");
    };

    let TypeArgument::Const(expr) = &args[0] else {
        panic!("expected const arg, got {:?}", args[0]);
    };

    assert!(
        matches!(expr, Expr::Binary { op: BinaryOp::ShiftLeft, .. }),
        "expected a shift-left expression, got {expr:?}",
    );
}

#[test]
fn bare_greater_than_in_generic_argument_still_closes_the_list() {
    let source = "type A = bits<4 > 2>\n";

    assert!(parse(lex(source).unwrap()).is_err());
}

#[test]
fn parenthesized_greater_than_is_a_comparison_in_a_generic_argument() {
    let program = parse(lex("type A = bits<(4 > 2)>\n").unwrap()).unwrap();

    let Statement::TypeAlias(alias) = &program.statements[0] else {
        panic!("expected type alias");
    };

    let TypeExpr::Apply { args, .. } = &alias.ty else {
        panic!("expected generic application");
    };

    assert!(matches!(&args[0], TypeArgument::Const(Expr::Binary { op: BinaryOp::Greater, .. })));
}

#[test]
fn negative_generic_argument_is_a_constant() {
    let program = parse(lex("type Bar = Foo<-1>\n").unwrap()).unwrap();

    let Statement::TypeAlias(alias) = &program.statements[0] else {
        panic!("expected type alias");
    };

    let TypeExpr::Apply { args, .. } = &alias.ty else {
        panic!("expected generic application");
    };

    assert!(matches!(args[0], TypeArgument::Const(_)), "expected const arg, got {:?}", args[0]);
}

#[test]
fn type_alias_takes_generic_parameters() {
    let program = parse(lex("pub type Word<T, const n: uint> = Array<T, n>\n").unwrap()).unwrap();

    let Statement::TypeAlias(alias) = &program.statements[0] else {
        panic!("expected type alias");
    };

    assert!(alias.is_pub);
    assert_eq!(alias.generic_params.len(), 2);
    assert!(matches!(&alias.generic_params[0], GenericParameter::Type { name, .. } if name == "T"));
    assert!(matches!(&alias.generic_params[1], GenericParameter::Const { name, .. } if name == "n"));

    let TypeExpr::Apply { args, .. } = &alias.ty else {
        panic!("expected generic application");
    };

    assert_eq!(args.len(), 2);
    assert!(matches!(&args[0], TypeArgument::Type(TypeExpr::Named { .. })));
}

#[test]
fn pub_const_keeps_its_span_from_the_const_keyword() {
    let program = parse(lex("pub const x = 1 + 2\n").unwrap()).unwrap();

    let Statement::Const(decl) = &program.statements[0] else {
        panic!("expected const declaration");
    };

    assert!(decl.is_pub);
    assert_eq!(decl.span.start, 4);
    assert_eq!(decl.span.end, 20);
    assert!(matches!(&decl.value, Expr::Binary { op: BinaryOp::Add, .. }));
}

#[test]
fn const_needs_an_equals_sign() {
    let error = parse(lex("const x 1\n").unwrap()).unwrap_err();

    assert_eq!(error.message, "expected Equal, found Integer(\"1\")");
}

#[test]
fn empty_generic_argument_list_is_rejected() {
    let error = parse(lex("type A = bits<>\n").unwrap()).unwrap_err();

    assert_eq!(error.message, "generic argument list cannot be empty");
}

#[test]
fn pub_before_an_invocation_is_rejected() {
    let error = parse(lex("pub mov r1\n").unwrap()).unwrap_err();

    assert_eq!(error.message, "expected declaration after `pub`, found Identifier(\"mov\")");
}

#[test]
fn as_binds_tighter_than_addition() {
    let program = parse(lex("const x = a + b as Byte\n").unwrap()).unwrap();

    let Statement::Const(decl) = &program.statements[0] else {
        panic!("expected const declaration");
    };

    let Expr::Binary { op: BinaryOp::Add, right, .. } = &decl.value else {
        panic!("expected addition");
    };

    assert!(matches!(right.as_ref(), Expr::As { .. }));
}

#[test]
fn type_alias_accepts_facets_on_following_lines() {
    let source = "type UByte = bits<8>\n    | invariant value >= 0\n    | invariant value < 256\nconst next = 1\n";
    let program = parse(lex(source).unwrap()).unwrap();

    let Statement::TypeAlias(alias) = &program.statements[0] else {
        panic!("expected a type alias");
    };
    assert_eq!(alias.facets.len(), 2);
    assert!(matches!(program.statements[1], Statement::Const(_)));
}

#[test]
fn facet_expression_ends_before_the_next_pipe() {
    let program = parse(lex("type T = bits<8> | invariant value > 0 | invariant (a | b) < 4\n").unwrap()).unwrap();

    let Statement::TypeAlias(alias) = &program.statements[0] else {
        panic!("expected a type alias");
    };
    assert_eq!(alias.facets.len(), 2);
    assert_eq!(alias.facets[0].name, "invariant");
    assert!(matches!(
        &alias.facets[0].payload,
        FacetPayload::Expr(Expr::Binary { op: BinaryOp::Greater, .. })
    ));
    assert!(matches!(&alias.facets[1].payload, FacetPayload::Expr(Expr::Binary { op: BinaryOp::Less, .. })));
}

#[test]
fn lint_facets_name_lints_or_groups() {
    let program = parse(lex("type T = U | allow unused_parameter | deny(unused, unreachable_code)\n").unwrap()).unwrap();

    let Statement::TypeAlias(alias) = &program.statements[0] else {
        panic!("expected a type alias");
    };
    assert_eq!(alias.facets.len(), 2);
    assert!(matches!(
        &alias.facets[0].payload,
        FacetPayload::Expr(Expr::Identifier { name, .. }) if name == "unused_parameter"
    ));
    let FacetPayload::Expr(Expr::Call { callee, arguments, .. }) = &alias.facets[1].payload else {
        panic!("expected a lint list");
    };
    assert!(matches!(callee.as_ref(), Expr::Identifier { name, .. } if name == "lints"));
    assert_eq!(arguments.len(), 2);
}

#[test]
fn unknown_lint_in_a_facet_is_rejected() {
    let error = parse(lex("type T = U | warn no_such_lint\n").unwrap()).unwrap_err();

    assert_eq!(error.message, "unknown lint or lint group `no_such_lint`");
}

#[test]
fn lint_facet_without_lint_names_is_rejected() {
    let error = parse(lex("type T = U | forbid(1)\n").unwrap()).unwrap_err();

    assert_eq!(error.message, "the `forbid` facet requires one or more lint names");
}

#[test]
fn unknown_facet_is_rejected() {
    let error = parse(lex("type T = U | colour red\n").unwrap()).unwrap_err();

    assert_eq!(error.message, "unknown facet `colour`");
}

#[test]
fn parses_pub_enum() {
    let program = parse(lex("pub enum Endian {\n    Little,\n    Big\n}\n").unwrap()).unwrap();

    let Statement::Enum(decl) = &program.statements[0] else {
        panic!("expected enum declaration");
    };

    assert_eq!(literal_name(&decl.name), Some("Endian".to_string()));
    assert!(decl.is_pub);
    assert_eq!(decl.variants.iter().map(|variant| variant.name.as_str()).collect::<Vec<_>>(), vec!["Little", "Big"]);
    assert!(decl.variants.iter().all(|variant| variant.payload.is_none()));
}

#[test]
fn parses_generic_enum_with_payload_variant() {
    let program = parse(lex("pub enum Option<T> {\n    Some: T,\n    None\n}\n").unwrap()).unwrap();
    let Statement::Enum(decl) = &program.statements[0] else { panic!("expected enum") };
    assert_eq!(decl.generic_params.len(), 1);
    assert_eq!(decl.variants[0].name, "Some");
    assert!(decl.variants[0].payload.is_some());
    assert_eq!(decl.variants[1].name, "None");
    assert!(decl.variants[1].payload.is_none());
}

#[test]
fn enum_variants_need_separating_commas() {
    let error = parse(lex("enum E { A B }\n").unwrap()).unwrap_err();

    assert_eq!(error.message, "expected ',' or '}' after enum variant");
}

#[test]
fn unterminated_enum_is_rejected() {
    let error = parse(lex("enum E {\n    A,\n").unwrap()).unwrap_err();

    assert_eq!(error.message, "unterminated enum declaration");
}

#[test]
fn enum_is_followed_by_the_next_statement() {
    let program = parse(lex("enum E { A, B, }\nconst x = E.A\n").unwrap()).unwrap();

    assert_eq!(program.statements.len(), 2);
    let Statement::Enum(decl) = &program.statements[0] else { panic!("expected enum") };
    assert_eq!(decl.variants.len(), 2);
    assert_eq!(decl.span.start, 0);
    assert_eq!(decl.span.end, 16);
    assert!(matches!(&program.statements[1], Statement::Const(_)));
}

#[test]
fn parses_generic_struct() {
    let source = r#"
struct Reg<const width: uint> {
    id: bits<2>
}
"#;

    let program = parse(lex(source).unwrap()).unwrap();

    let Statement::Struct(declaration) = &program.statements[0] else {
        panic!("expected struct");
    };

    assert_eq!(literal_name(&declaration.name), Some("Reg".to_string()));
    assert_eq!(declaration.generic_params.len(), 1);
    assert_eq!(declaration.fields.len(), 1);

    let StructBodyItem::Field(field) = &declaration.fields[0] else {
        panic!("expected a plain field");
    };

    assert_eq!(literal_name(&field.name), Some("id".to_string()));
}

#[test]
fn parses_struct_field_pub_const_and_default_modifiers() {
    let source = r#"
struct Reg<const width: int> {
    pub const id: bits<2>,
    pub len: int = width
}
"#;

    let program = parse(lex(source).unwrap()).unwrap();

    let Statement::Struct(declaration) = &program.statements[0] else {
        panic!("expected struct");
    };

    assert_eq!(declaration.fields.len(), 2);

    let StructBodyItem::Field(id_field) = &declaration.fields[0] else {
        panic!("expected a plain field");
    };

    assert_eq!(literal_name(&id_field.name), Some("id".to_string()));
    assert!(id_field.is_pub);
    assert!(id_field.is_const);
    assert!(id_field.default.is_none());

    let StructBodyItem::Field(len_field) = &declaration.fields[1] else {
        panic!("expected a plain field");
    };

    assert_eq!(literal_name(&len_field.name), Some("len".to_string()));
    assert!(len_field.is_pub);
    assert!(!len_field.is_const);
    assert!(matches!(
        len_field.default,
        Some(Expr::Identifier { ref name, .. }) if name == "width"
    ));
}

#[test]
fn parses_tinycpu_types() {
    let source = r#"
struct Reg<const width: uint> {
    id: bits<2>
}

type Reg2 = Reg<2>

const r0: Reg2 = Reg2(id = 0)
const r1: Reg2 = Reg2(id = 1)
const r2: Reg2 = Reg2(id = 2)
const r3: Reg2 = Reg2(id = 3)
"#;

    let program = parse(lex(source).unwrap()).unwrap();

    assert_eq!(program.statements.len(), 6);
}

#[test]
fn struct_fields_need_separating_commas() {
    let error = parse(lex("struct S { a: int b: int }\n").unwrap()).unwrap_err();

    assert_eq!(error.message, "expected ',' or '}' after struct field");
}

#[test]
fn struct_carries_facets_before_its_body() {
    let program = parse(lex("pub struct S | invariant a > 0 {\n    a: int,\n}\n").unwrap()).unwrap();

    let Statement::Struct(declaration) = &program.statements[0] else {
        panic!("expected struct");
    };

    assert!(declaration.is_pub);
    assert_eq!(declaration.facets.len(), 1);
    assert_eq!(declaration.fields.len(), 1);
}
