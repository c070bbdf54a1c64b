use checkbe::ast::{Expr, Item, Stmt, ValueType};
use checkbe::diagnostics::Diagnostics;
use checkbe::lexer::lex;
use checkbe::parser::{parse, parse_expression_fragment};

fn parse_source(source: &str) -> (Option<checkbe::ast::Program>, Diagnostics) {
    let mut diagnostics = Diagnostics::new();
    let tokens = lex(source, &mut diagnostics);
    let program = parse(tokens, &mut diagnostics);
    (program, diagnostics)
}

#[test]
fn parses_imports_body_and_functions() {
    let (program, d) = parse_source(
        "import Bridge\nbody Application {\n  let int x = 1\n  func add(a: int, b: int) -> int {\n    return a + b\n  }\n  func main() {\n  }\n}\n",
    );
    assert!(!d.has_errors());
    let program = program.unwrap();
    assert_eq!(program.imports.len(), 1);
    assert_eq!(program.imports[0].module, "Bridge");
    assert_eq!(program.body.name, "Application");
    assert_eq!(program.body.items.len(), 3);
    match &program.body.items[1] {
        Item::Func(f) => {
            assert_eq!(f.name, "add");
            assert_eq!(f.params.len(), 2);
            assert_eq!(f.return_type, ValueType::Int);
        }
        _ => panic!("expected a function"),
    }
    match &program.body.items[2] {
        Item::Func(f) => assert_eq!(f.return_type, ValueType::Void),
        _ => panic!("expected a function"),
    }
}

#[test]
fn for_loop_is_lowered_to_block_and_while() {
    let (program, d) = parse_source(
        "body A {\n  func main() {\n    for (let int i = 0; i < 3; i = i + 1) {\n    }\n  }\n}\n",
    );
    assert!(!d.has_errors());
    let program = program.unwrap();
    let Item::Func(f) = &program.body.items[0] else { panic!("expected a function") };
    let Stmt::Block { statements, .. } = &f.body[0] else { panic!("expected a block") };
    assert_eq!(statements.len(), 2);
    assert!(matches!(statements[0], Stmt::VarDecl(_)));
    let Stmt::While { body, .. } = &statements[1] else { panic!("expected a while") };
    assert_eq!(body.len(), 1);
    assert!(matches!(body[0], Stmt::Assign { .. }));
}

#[test]
fn array_types_parse() {
    let (program, d) = parse_source("body A {\n  func main(argc: int, argv: string[]) {\n  }\n}\n");
    assert!(!d.has_errors());
    let program = program.unwrap();
    let Item::Func(f) = &program.body.items[0] else { panic!("expected a function") };
    assert_eq!(f.params[1].ty, ValueType::Array(Box::new(ValueType::String)));
}

#[test]
fn syntax_error_is_reported() {
    let (program, d) = parse_source("body A {\n  func main( {\n  }\n}\n");
    assert!(program.is_none() || d.has_errors());
    assert!(d.has_errors());
}

#[test]
fn missing_body_is_reported() {
    let (program, d) = parse_source("import Bridge\n");
    assert!(program.is_none());
    assert!(d.has_errors());
}

#[test]
fn expression_fragment_parses() {
    let expr = parse_expression_fragment("a + 1").unwrap();
    assert!(matches!(expr, Expr::Binary { .. }));
}

#[test]
fn expression_fragment_with_trailing_tokens_fails() {
    assert!(parse_expression_fragment("a b").is_err());
}

#[test]
fn precedence_of_multiplication() {
    let expr = parse_expression_fragment("1 + 2 * 3").unwrap();
    let Expr::Binary { right, .. } = expr else { panic!("expected a binary expression") };
    assert!(matches!(*right, Expr::Binary { .. }));
}

#[test]
fn subtraction_associates_to_the_left() {
    let expr = parse_expression_fragment("a - b - c").unwrap();
    let Expr::Binary { left, op, right, .. } = expr else { panic!("expected a binary expression") };
    assert_eq!(op, checkbe::ast::BinaryOp::Sub);
    assert!(matches!(*left, Expr::Binary { op: checkbe::ast::BinaryOp::Sub, .. }));
    assert!(matches!(*right, Expr::Identifier(ref n, _) if n == "c"));
}

#[test]
fn conditional_associates_to_the_right() {
    let expr = parse_expression_fragment("a ? b : c ? d : e").unwrap();
    let Expr::Ternary { condition, else_expr, .. } = expr else { panic!("expected a conditional") };
    assert!(matches!(*condition, Expr::Identifier(ref n, _) if n == "a"));
    assert!(matches!(*else_expr, Expr::Ternary { .. }));
}

#[test]
fn prefix_operator_takes_the_span_of_its_operand() {
    let expr = parse_expression_fragment("-x").unwrap();
    let Expr::Unary { expr: operand, span, .. } = expr else { panic!("expected a prefix operator") };
    assert_eq!(span, operand.span());
    assert_eq!(span.column, 2);
}

#[test]
fn parentheses_leave_no_node_and_indexing_binds_tightest() {
    let expr = parse_expression_fragment("(a + b) * c[1]").unwrap();
    let Expr::Binary { left, op, right, .. } = expr else { panic!("expected a binary expression") };
    assert_eq!(op, checkbe::ast::BinaryOp::Mul);
    assert!(matches!(*left, Expr::Binary { op: checkbe::ast::BinaryOp::Add, .. }));
    assert!(matches!(*right, Expr::Index { .. }));
}

#[test]
fn qualified_call_and_constructor_parse() {
    let expr = parse_expression_fragment("Bridge.send(new Message(1, \"x\"))").unwrap();
    let Expr::Call { callee, args, .. } = expr else { panic!("expected a call") };
    assert!(matches!(callee, checkbe::ast::CallTarget::Qualified { ref module, ref name } if module == "Bridge" && name == "send"));
    assert_eq!(args.len(), 1);
    assert!(matches!(&args[0], Expr::NewObject { kind, args, .. } if kind == "Message" && args.len() == 2));
}

#[test]
fn trailing_comma_in_arguments_is_an_error() {
    assert!(parse_expression_fragment("f(1, )").is_err());
}

#[test]
fn else_if_chains_nest_an_if_statement() {
    let source = "body App { func main() { if (a) { x = 1; } else if (b) { x = 2; } else { x = 3; } } }";
    let (program, d) = parse_source(source);
    assert!(!d.has_errors());
    let program = program.unwrap();
    let Item::Func(f) = &program.body.items[0] else { panic!("expected a function") };
    let Stmt::If { else_branch, .. } = &f.body[0] else { panic!("expected an if statement") };
    assert_eq!(else_branch.len(), 1);
    let Stmt::If { else_branch: inner, .. } = &else_branch[0] else { panic!("expected a nested if") };
    assert_eq!(inner.len(), 1);
}

#[test]
fn for_loop_without_clauses_loops_on_true() {
    let source = "body App { func main() { for (;;) { x = 1; } } }";
    let (program, d) = parse_source(source);
    assert!(!d.has_errors());
    let program = program.unwrap();
    let Item::Func(f) = &program.body.items[0] else { panic!("expected a function") };
    let Stmt::While { condition, body, .. } = &f.body[0] else { panic!("expected a while loop") };
    assert!(matches!(condition, Expr::BoolLiteral(true, _)));
    assert_eq!(body.len(), 1);
}

#[test]
fn entitled_function_and_declarations_parse() {
    let source = "body App { let capability net = 1; let right send = net; let : send func go() -> int[] { return [1]; } let : send int x = 2; }";
    let (program, d) = parse_source(source);
    assert!(!d.has_errors());
    let items = program.unwrap().body.items;
    assert_eq!(items.len(), 4);
    assert!(matches!(&items[0], Item::Capability(c) if c.name == "net"));
    assert!(matches!(&items[1], Item::Right(r) if r.name == "send"));
    assert!(matches!(&items[2], Item::Func(f) if f.right.as_deref() == Some("send") && f.return_type == ValueType::Array(Box::new(ValueType::Int))));
    assert!(matches!(&items[3], Item::Var(v) if v.entitlement.as_deref() == Some("send") && v.explicit_type == Some(ValueType::Int)));
}

#[test]
fn trailing_tokens_in_a_fragment_are_named() {
    match parse_expression_fragment("a b") {
        Err(message) => assert_eq!(message, "Unexpected tokens after interpolation expression"),
        Ok(_) => panic!("a fragment with trailing tokens parsed"),
    }
}

#[test]
fn let_in_a_for_update_is_refused() {
    let (_, diagnostics) = parse_source(
        "body A {\n  func main() {\n    for (let int i = 0; i < 3; let int j = 1) {\n    }\n  }\n}\n",
    );
    assert!(diagnostics
        .items()
        .iter()
        .any(|d| d.message == "for update clause cannot contain let-declaration"));
}

#[test]
fn a_literal_is_no_assignment_target() {
    let (_, diagnostics) = parse_source("body A {\n  func main() {\n    1 = 2\n  }\n}\n");
    assert!(diagnostics
        .items()
        .iter()
        .any(|d| d.message == "Invalid assignment target. Expected variable or array index"));
}
