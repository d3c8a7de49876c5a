use lib::ast::{ExprKind, Stmt};
use lib::errors::LoxError;
use lib::lox::analyze;

#[test]
fn analyze_returns_statements_and_local_distances() {
    let (stmts, locals) = analyze("var g = 0; { var a = 1; print a + g; }").unwrap();
    assert_eq!(stmts.len(), 2);
    assert_eq!(locals.len(), 1);
    let use_of_a = match &stmts[1] {
        Stmt::Block(inner) => match &inner[1] {
            Stmt::Print(e) => match &e.kind {
                ExprKind::Binary { left, .. } => left.id,
                other => panic!("{:?}", other),
            },
            other => panic!("{:?}", other),
        },
        other => panic!("{:?}", other),
    };
    assert_eq!(locals.get(&use_of_a), Some(&0));
}

#[test]
fn analyze_stops_at_a_scanning_error() {
    assert!(matches!(analyze("var a = @;"), Err(LoxError::ScannerError { character: '@', .. })));
}

#[test]
fn analyze_stops_at_a_parsing_error() {
    match analyze("print ;") {
        Err(LoxError::SyntaxError { message, .. }) => assert_eq!(message, "Expect expression"),
        other => panic!("unexpected {:?}", other),
    }
}

#[test]
fn analyze_stops_at_a_resolution_error() {
    match analyze("fun f() { return 1; } return 2;") {
        Err(LoxError::ResolutionError { token, message }) => {
            assert_eq!(token.lexeme, "return");
            assert_eq!(token.line, 1);
            assert_eq!(message, "Can't return from top level");
        }
        other => panic!("unexpected {:?}", other),
    }
}

#[test]
fn analyze_accepts_an_empty_program() {
    let (stmts, locals) = analyze("").unwrap();
    assert!(stmts.is_empty());
    assert!(locals.is_empty());
}

#[test]
fn every_recorded_distance_is_for_an_expression_of_the_program() {
    let source = "fun counter() { var n = 0; fun inc() { n = n + 1; return n; } return inc; } \
                  class A { init(x) { this.x = x; } get() { return this.x; } } \
                  { var c = counter(); print c(); var a = A(1); print a.get(); }";
    let (stmts, locals) = analyze(source).unwrap();
    let mut ids = Vec::new();
    fn walk_expr(e: &lib::ast::Expr, ids: &mut Vec<usize>) {
        ids.push(e.id);
        match &e.kind {
            ExprKind::Assign { value, .. } => walk_expr(value, ids),
            ExprKind::Binary { left, right, .. } | ExprKind::Logical { left, right, .. } => {
                walk_expr(left, ids);
                walk_expr(right, ids);
            }
            ExprKind::Grouping { expression } => walk_expr(expression, ids),
            ExprKind::Unary { right, .. } => walk_expr(right, ids),
            ExprKind::Call { callee, arguments, .. } => {
                walk_expr(callee, ids);
                arguments.iter().for_each(|a| walk_expr(a, ids));
            }
            ExprKind::Get { object, .. } => walk_expr(object, ids),
            ExprKind::SetProperty { object, value, .. } => {
                walk_expr(object, ids);
                walk_expr(value, ids);
            }
            _ => {}
        }
    }
    fn walk(s: &Stmt, ids: &mut Vec<usize>) {
        match s {
            Stmt::Expression(e) | Stmt::Print(e) => walk_expr(e, ids),
            Stmt::While { condition, body } => {
                walk_expr(condition, ids);
                walk(body, ids);
            }
            Stmt::Var { initializer, .. } => initializer.iter().for_each(|e| walk_expr(e, ids)),
            Stmt::Block(b) => b.iter().for_each(|s| walk(s, ids)),
            Stmt::If { condition, then_branch, else_branch } => {
                walk_expr(condition, ids);
                walk(then_branch, ids);
                else_branch.iter().for_each(|b| walk(b, ids));
            }
            Stmt::Function(f) => f.body.iter().for_each(|s| walk(s, ids)),
            Stmt::Return { value, .. } => value.iter().for_each(|e| walk_expr(e, ids)),
            Stmt::Class { methods, .. } => methods.iter().for_each(|m| m.body.iter().for_each(|s| walk(s, ids))),
        }
    }
    stmts.iter().for_each(|s| walk(s, &mut ids));
    let mut sorted = ids.clone();
    sorted.sort();
    sorted.dedup();
    assert_eq!(sorted.len(), ids.len());
    assert!(!locals.is_empty());
    for id in locals.keys() {
        assert!(ids.contains(id));
    }
}
