use lib::ast::{Expr, ExprKind, FunctionKind, Literal, Stmt};
use lib::errors::LoxError;
use lib::operator_type::{BinaryOpType, LogicalOpType, UnaryOpType};
use lib::parser::Parser;
use lib::scanner::Scanner;

fn parse(source: &str) -> Result<Vec<Stmt>, LoxError> {
    let mut scanner = Scanner::new(source);
    let tokens = scanner.scan_tokens().expect("scans");
    let mut parser = Parser::new(tokens);
    parser.parse()
}

fn expression_of(stmt: &Stmt) -> &Expr {
    match stmt {
        Stmt::Expression(e) | Stmt::Print(e) => e,
        other => panic!("not an expression statement: {:?}", other),
    }
}

fn number(e: &Expr) -> &str {
    match &e.kind {
        ExprKind::Literal(Literal::Number(n)) => n.as_str(),
        other => panic!("not a number: {:?}", other),
    }
}

fn collect_ids(e: &Expr, ids: &mut Vec<usize>) {
    match &e.kind {
        ExprKind::Assign { value, .. } => collect_ids(value, ids),
        ExprKind::Binary { left, right, .. } | ExprKind::Logical { left, right, .. } => {
            collect_ids(left, ids);
            collect_ids(right, ids);
        }
        ExprKind::Grouping { expression } => collect_ids(expression, ids),
        ExprKind::Unary { right, .. } => collect_ids(right, ids),
        ExprKind::Call { callee, arguments, .. } => {
            collect_ids(callee, ids);
            for a in arguments {
                collect_ids(a, ids);
            }
        }
        ExprKind::Get { object, .. } => collect_ids(object, ids),
        ExprKind::SetProperty { object, value, .. } => {
            collect_ids(object, ids);
            collect_ids(value, ids);
        }
        ExprKind::Literal(_) | ExprKind::Variable { .. } | ExprKind::This { .. } => {}
    }
    ids.push(e.id);
}

fn collect_stmt_ids(s: &Stmt, ids: &mut Vec<usize>) {
    match s {
        Stmt::Expression(e) | Stmt::Print(e) => collect_ids(e, ids),
        Stmt::While { condition, body } => {
            collect_ids(condition, ids);
            collect_stmt_ids(body, ids);
        }
        Stmt::Var { initializer, .. } => {
            if let Some(e) = initializer {
                collect_ids(e, ids);
            }
        }
        Stmt::Block(stmts) => stmts.iter().for_each(|s| collect_stmt_ids(s, ids)),
        Stmt::If { condition, then_branch, else_branch } => {
            collect_ids(condition, ids);
            collect_stmt_ids(then_branch, ids);
            if let Some(b) = else_branch {
                collect_stmt_ids(b, ids);
            }
        }
        Stmt::Function(f) => f.body.iter().for_each(|s| collect_stmt_ids(s, ids)),
        Stmt::Return { value, .. } => {
            if let Some(e) = value {
                collect_ids(e, ids);
            }
        }
        Stmt::Class { methods, .. } => {
            for m in methods {
                m.body.iter().for_each(|s| collect_stmt_ids(s, ids));
            }
        }
    }
}

fn syntax_error(source: &str) -> (String, String) {
    match parse(source) {
        Err(LoxError::SyntaxError { token, message }) => (token.lexeme, message),
        other => panic!("expected a syntax error, got {:?}", other),
    }
}

#[test]
fn multiplication_binds_tighter_than_addition() {
    let stmts = parse("print 1 + 2 * 3;").unwrap();
    assert_eq!(stmts.len(), 1);
    let e = expression_of(&stmts[0]);
    match &e.kind {
        ExprKind::Binary { left, operator, right } => {
            assert_eq!(operator.op_type, BinaryOpType::Add);
            assert_eq!(number(left), "1");
            match &right.kind {
                ExprKind::Binary { left, operator, right } => {
                    assert_eq!(operator.op_type, BinaryOpType::Multiply);
                    assert_eq!(number(left), "2");
                    assert_eq!(number(right), "3");
                }
                other => panic!("{:?}", other),
            }
        }
        other => panic!("{:?}", other),
    }
}

#[test]
fn expressions_are_numbered_as_they_are_completed() {
    let stmts = parse("print 1 + 2 * 3;").unwrap();
    let mut ids = Vec::new();
    collect_stmt_ids(&stmts[0], &mut ids);
    assert_eq!(ids, vec![0, 1, 2, 3, 4]);
}

#[test]
fn every_expression_of_a_program_has_its_own_identifier() {
    let source = "var a = 1; fun f(x, y) { return x + y * a; } \
                  class C { m() { this.v = f(1, 2); return this.v; } } \
                  for (var i = 0; i < 3; i = i + 1) { print -i; } \
                  if (a == 1 or !false) print \"yes\"; else print nil;";
    let stmts = parse(source).unwrap();
    let mut ids = Vec::new();
    stmts.iter().for_each(|s| collect_stmt_ids(s, &mut ids));
    let mut sorted = ids.clone();
    sorted.sort();
    sorted.dedup();
    assert_eq!(sorted.len(), ids.len());
}

#[test]
fn comparison_and_equality_levels() {
    let stmts = parse("1 < 2 == true;").unwrap();
    match &expression_of(&stmts[0]).kind {
        ExprKind::Binary { left, operator, right } => {
            assert_eq!(operator.op_type, BinaryOpType::Equal);
            assert!(matches!(&left.kind, ExprKind::Binary { operator, .. } if operator.op_type == BinaryOpType::LessThan));
            assert!(matches!(&right.kind, ExprKind::Literal(Literal::Bool(true))));
        }
        other => panic!("{:?}", other),
    }
}

#[test]
fn logical_operators_and_unary() {
    let stmts = parse("!a and b or -c;").unwrap();
    match &expression_of(&stmts[0]).kind {
        ExprKind::Logical { left, operator, right } => {
            assert_eq!(operator.op_type, LogicalOpType::Or);
            assert!(matches!(&right.kind, ExprKind::Unary { operator, .. } if operator.op_type == UnaryOpType::Negative));
            match &left.kind {
                ExprKind::Logical { left, operator, .. } => {
                    assert_eq!(operator.op_type, LogicalOpType::And);
                    assert!(matches!(&left.kind, ExprKind::Unary { operator, .. } if operator.op_type == UnaryOpType::Not));
                }
                other => panic!("{:?}", other),
            }
        }
        other => panic!("{:?}", other),
    }
}

#[test]
fn the_right_operand_of_or_is_read_at_the_equality_level() {
    let (lexeme, message) = syntax_error("a or b and c;");
    assert_eq!(lexeme, "and");
    assert_eq!(message, "Expect ';' after expression.");
}

#[test]
fn assignment_to_a_variable() {
    let stmts = parse("a = 1;").unwrap();
    match &expression_of(&stmts[0]).kind {
        ExprKind::Assign { name, value } => {
            assert_eq!(name, "a");
            assert_eq!(number(value), "1");
        }
        other => panic!("{:?}", other),
    }
}

#[test]
fn assignment_to_a_property() {
    let stmts = parse("a.b = 1;").unwrap();
    match &expression_of(&stmts[0]).kind {
        ExprKind::SetProperty { object, token, value } => {
            assert!(matches!(&object.kind, ExprKind::Variable { name, .. } if name == "a"));
            assert_eq!(token.lexeme, "b");
            assert_eq!(number(value), "1");
        }
        other => panic!("{:?}", other),
    }
}

#[test]
fn an_invalid_assignment_target_is_an_error() {
    let (lexeme, message) = syntax_error("1 = 2;");
    assert_eq!(lexeme, "=");
    assert_eq!(message, "Invalid assignment target.");
}

#[test]
fn calls_and_property_reads_chain() {
    let stmts = parse("f(1, 2)(3).g;").unwrap();
    match &expression_of(&stmts[0]).kind {
        ExprKind::Get { object, token } => {
            assert_eq!(token.lexeme, "g");
            match &object.kind {
                ExprKind::Call { callee, arguments, paren } => {
                    assert_eq!(arguments.len(), 1);
                    assert_eq!(paren.lexeme, ")");
                    match &callee.kind {
                        ExprKind::Call { callee, arguments, .. } => {
                            assert_eq!(arguments.len(), 2);
                            assert!(matches!(&callee.kind, ExprKind::Variable { name, .. } if name == "f"));
                        }
                        other => panic!("{:?}", other),
                    }
                }
                other => panic!("{:?}", other),
            }
        }
        other => panic!("{:?}", other),
    }
}

#[test]
fn a_call_without_arguments() {
    let stmts = parse("clock();").unwrap();
    assert!(matches!(&expression_of(&stmts[0]).kind, ExprKind::Call { arguments, .. } if arguments.is_empty()));
}

#[test]
fn a_grouping() {
    let stmts = parse("(1);").unwrap();
    assert!(matches!(&expression_of(&stmts[0]).kind, ExprKind::Grouping { .. }));
    let (lexeme, message) = syntax_error("(1;");
    assert_eq!(lexeme, ";");
    assert_eq!(message, "Expect ')' after expression.");
}

#[test]
fn a_missing_expression() {
    let (lexeme, message) = syntax_error("print ;");
    assert_eq!(lexeme, ";");
    assert_eq!(message, "Expect expression");
}

#[test]
fn running_out_of_tokens() {
    assert!(matches!(parse("print 1"), Err(LoxError::UnexpectedEndOfPhrase)));
    assert!(matches!(parse("print"), Err(LoxError::UnexpectedEndOfPhrase)));
}

#[test]
fn variable_declarations() {
    let stmts = parse("var a; var b = 2;").unwrap();
    assert!(matches!(&stmts[0], Stmt::Var { name, initializer: None, .. } if name == "a"));
    assert!(matches!(&stmts[1], Stmt::Var { name, initializer: Some(_), .. } if name == "b"));
    let (lexeme, message) = syntax_error("var 1 = 2;");
    assert_eq!(lexeme, "1");
    assert_eq!(message, "Expected identifier");
    let (lexeme, message) = syntax_error("var a = 1 print a;");
    assert_eq!(lexeme, "print");
    assert_eq!(message, "Expect ';' after variable declaration");
}

#[test]
fn blocks_if_and_while() {
    let stmts = parse("{ var a = 1; } if (a) print 1; else print 2; while (b) a = a - 1;").unwrap();
    assert!(matches!(&stmts[0], Stmt::Block(inner) if inner.len() == 1));
    assert!(matches!(&stmts[1], Stmt::If { else_branch: Some(_), .. }));
    assert!(matches!(&stmts[2], Stmt::While { .. }));
    assert!(matches!(parse("{ print 1;"), Err(LoxError::UnexpectedEndOfPhrase)));
}

#[test]
fn a_for_loop_reads_as_a_while_loop() {
    let stmts = parse("for (var i = 0; i < 3; i = i + 1) print i;").unwrap();
    assert_eq!(stmts.len(), 1);
    match &stmts[0] {
        Stmt::Block(parts) => {
            assert_eq!(parts.len(), 2);
            assert!(matches!(&parts[0], Stmt::Var { name, .. } if name == "i"));
            match &parts[1] {
                Stmt::While { condition, body } => {
                    assert!(matches!(&condition.kind, ExprKind::Binary { .. }));
                    match &**body {
                        Stmt::Block(inner) => {
                            assert_eq!(inner.len(), 2);
                            assert!(matches!(&inner[0], Stmt::Print(_)));
                            assert!(matches!(&inner[1], Stmt::Expression(e) if matches!(e.kind, ExprKind::Assign { .. })));
                        }
                        other => panic!("{:?}", other),
                    }
                }
                other => panic!("{:?}", other),
            }
        }
        other => panic!("{:?}", other),
    }
}

#[test]
fn a_for_loop_without_clauses_loops_on_true() {
    let stmts = parse("for (;;) print 1;").unwrap();
    match &stmts[0] {
        Stmt::While { condition, body } => {
            assert!(matches!(&condition.kind, ExprKind::Literal(Literal::Bool(true))));
            assert!(matches!(&**body, Stmt::Print(_)));
        }
        other => panic!("{:?}", other),
    }
}

#[test]
fn function_declarations() {
    let stmts = parse("fun add(a, b) { return a + b; }").unwrap();
    match &stmts[0] {
        Stmt::Function(f) => {
            assert_eq!(f.name, "add");
            assert_eq!(f.params, vec!["a".to_string(), "b".to_string()]);
            assert_eq!(f.body.len(), 1);
            assert!(matches!(&f.body[0], Stmt::Return { value: Some(_), .. }));
        }
        other => panic!("{:?}", other),
    }
    let (lexeme, message) = syntax_error("fun (a) {}");
    assert_eq!(lexeme, "(");
    assert_eq!(message, "Expect function name.");
    let (lexeme, message) = syntax_error("fun f a {}");
    assert_eq!(lexeme, "a");
    assert_eq!(message, "Expect '(' after function name.");
    let (lexeme, message) = syntax_error("fun f(1) {}");
    assert_eq!(lexeme, "1");
    assert_eq!(message, "Expected parameter name");
}

#[test]
fn class_declarations() {
    let stmts = parse("class A { f() { return 1; } g(x) { } }").unwrap();
    match &stmts[0] {
        Stmt::Class { name, methods, .. } => {
            assert_eq!(name, "A");
            assert_eq!(methods.len(), 2);
            assert_eq!(methods[0].name, "f");
            assert_eq!(methods[1].params.len(), 1);
        }
        other => panic!("{:?}", other),
    }
    let (lexeme, message) = syntax_error("class { }");
    assert_eq!(lexeme, "{");
    assert_eq!(message, "Expect class name");
    let (lexeme, message) = syntax_error("class A { 1 }");
    assert_eq!(lexeme, "1");
    assert_eq!(message, "Expect method name.");
}

#[test]
fn return_statements() {
    let stmts = parse("return; return 1;").unwrap();
    assert!(matches!(&stmts[0], Stmt::Return { value: None, token } if token.lexeme == "return"));
    assert!(matches!(&stmts[1], Stmt::Return { value: Some(_), .. }));
}

#[test]
fn this_and_property_names() {
    let stmts = parse("this.x;").unwrap();
    assert!(matches!(&expression_of(&stmts[0]).kind, ExprKind::Get { object, .. } if matches!(object.kind, ExprKind::This { .. })));
    let (lexeme, message) = syntax_error("a.1;");
    assert_eq!(lexeme, "1");
    assert_eq!(message, "Expect property name after '.'");
}

#[test]
fn the_kinds_of_function_are_named() {
    assert_eq!(FunctionKind::Function.name(), "function");
    assert_eq!(FunctionKind::Method.name(), "method");
}
